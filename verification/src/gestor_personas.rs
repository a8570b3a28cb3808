//! The record store: a byte container of back-to-back serialized records,
//! kept consistent with the positional index.
//!
//! The store owns the byte container and the index jointly. A record is
//! appended at the end of the container and indexed under its email; a
//! lookup reads exactly the indexed byte range back; an update rewrites the
//! record in place when the new form fits (zero-padding what remains of the
//! old range), and otherwise relocates it to the end of the container, like
//! a fresh append, so that no neighbouring record is ever overwritten. The
//! index is never persisted: opening a store replays the container from the
//! start and rebuilds it.

use vstd::prelude::*;

use crate::errores::GestorError;
use crate::persona::{Persona, PersonaVista};
use crate::serializacion::{
    codifica, decodifica_en, deserializar, lemma_decodifica_codifica, lemma_decodifica_marco,
    lemma_decodifica_sound, serializar, vista_valida,
};
use crate::tabla_hash::TablaHash;

verus! {

/// The association a replay of the byte container yields: each record read
/// in turn, a later record with a key overriding an earlier one. `None`
/// wherever the container cannot be decoded through to its end.
pub open spec fn reproduccion(bytes: Seq<u8>, pos: int) -> Option<Map<Seq<char>, PersonaVista>>
    decreases bytes.len() - pos
        when 0 <= pos <= bytes.len()
        via reproduccion_decrece
{
    if pos == bytes.len() {
        Some(Map::empty())
    } else {
        match decodifica_en(bytes, pos) {
            None => None,
            Some((v, fin)) => match reproduccion(bytes, fin) {
                None => None,
                Some(m) => Some(
                    if m.contains_key(v.email) {
                        m
                    } else {
                        m.insert(v.email, v)
                    },
                ),
            },
        }
    }
}

#[via_fn]
proof fn reproduccion_decrece(bytes: Seq<u8>, pos: int) {
    if 0 <= pos <= bytes.len() && pos != bytes.len() {
        if decodifica_en(bytes, pos) is Some {
            lemma_decodifica_sound(bytes, pos);
        }
    }
}

/// Two associations read in sequence: the later one wins where both hold a
/// key.
pub open spec fn combina(
    antes: Map<Seq<char>, PersonaVista>,
    despues: Map<Seq<char>, PersonaVista>,
) -> Map<Seq<char>, PersonaVista> {
    Map::new(
        |k: Seq<char>| antes.contains_key(k) || despues.contains_key(k),
        |k: Seq<char>|
            if despues.contains_key(k) {
                despues[k]
            } else {
                antes[k]
            },
    )
}

/// An index entry is backed by the byte container: decoding at its start
/// yields a record that ends exactly at its end and carries the entry's key.
pub open spec fn entrada_valida(datos: Seq<u8>, rango: (u64, u64), k: Seq<char>) -> bool {
    let r = decodifica_en(datos, rango.0 as int);
    &&& rango.0 <= rango.1
    &&& rango.1 <= datos.len()
    &&& r is Some
    &&& r->Some_0.1 == rango.1 as int
    &&& r->Some_0.0.email == k
}

/// Two byte ranges that do not overlap.
pub open spec fn rangos_disjuntos(a: (u64, u64), b: (u64, u64)) -> bool {
    a.1 <= b.0 || b.1 <= a.0
}

/// The record store: the byte container and the positional index over it.
#[derive(Debug)]
pub struct GestorPersonas {
    datos: Vec<u8>,
    tabla_hash: TablaHash,
}

impl View for GestorPersonas {
    type V = Map<Seq<char>, PersonaVista>;

    /// What the store holds: each live key with the record its indexed byte
    /// range decodes to.
    closed spec fn view(&self) -> Map<Seq<char>, PersonaVista> {
        Map::new(
            |k: Seq<char>| self.tabla_hash@.contains_key(k),
            |k: Seq<char>| decodifica_en(self.datos@, self.tabla_hash@[k].0 as int)->Some_0.0,
        )
    }
}

impl GestorPersonas {
    /// The bytes of the backing container.
    pub closed spec fn contenido(&self) -> Seq<u8> {
        self.datos@
    }

    /// The capacity of the positional index.
    pub closed spec fn capacidad_indice(&self) -> int {
        self.tabla_hash.capacidad_de()
    }

    /// How many entries the positional index holds.
    pub closed spec fn elementos_indice(&self) -> int {
        self.tabla_hash.cuantos()
    }

    /// Well-formedness: the index is well-formed, every entry is backed by
    /// the container, and no two entries overlap.
    pub closed spec fn bien_formado(&self) -> bool {
        &&& self.tabla_hash.bien_formada()
        &&& forall|k: Seq<char>| #[trigger]
            self.tabla_hash@.contains_key(k) ==> entrada_valida(
                self.datos@,
                self.tabla_hash@[k],
                k,
            )
        &&& forall|k1: Seq<char>, k2: Seq<char>|
            self.tabla_hash@.contains_key(k1) && self.tabla_hash@.contains_key(k2) && k1 != k2
                ==> rangos_disjuntos(
                #[trigger] self.tabla_hash@[k1],
                #[trigger] self.tabla_hash@[k2],
            )
    }

    /// The container replayed from the start yields exactly what the store
    /// holds. Opening establishes this; appends keep it, and so does an
    /// update that keeps its key and outgrows its old range (the record is
    /// relocated to the end, and the relocated copy, being last, wins the
    /// replay). An in-place or key-changing update may break it: padding is
    /// not a record, and a stale record under a retired key replays as live.
    pub closed spec fn compacta(&self) -> bool {
        reproduccion(self.datos@, 0) == Some(self@)
    }

    /// Opens a store over the given container bytes: creates an index of the
    /// given capacity and replays the container from the start, indexing
    /// each record under its email. Replay that reaches the exact end of the
    /// container succeeds; bytes that cannot be decoded are a format
    /// failure.
    pub fn new(datos: Vec<u8>, capacidad_hash: usize) -> (r: Result<GestorPersonas, GestorError>)
        requires
            1 <= capacidad_hash,
            4 * (capacidad_hash as int) <= usize::MAX as int,
        ensures
            match r {
                Ok(g) => {
                    &&& g.bien_formado()
                    &&& Some(g@) == reproduccion(datos@, 0)
                    &&& g.contenido() == datos@
                    &&& g.compacta()
                },
                Err(e) => {
                    &&& reproduccion(datos@, 0) is None
                    &&& e == GestorError::Formato
                },
            },
    {
        let mut g = GestorPersonas { datos, tabla_hash: TablaHash::new(capacidad_hash) };
        let ghost todo = g.datos@;
        proof {
            assert(g@ =~= Map::<Seq<char>, PersonaVista>::empty());
            if reproduccion(todo, 0) is Some {
                let m = reproduccion(todo, 0)->Some_0;
                assert(combina(g@, m) =~= m);
            }
        }
        let mut pos: usize = 0;
        while pos < g.datos.len()
            invariant
                g.datos@ == todo,
                todo == datos@,
                pos <= todo.len(),
                g.bien_formado(),
                forall|k: Seq<char>| #[trigger]
                    g.tabla_hash@.contains_key(k) ==> g.tabla_hash@[k].1 <= pos,
                g.tabla_hash.capacidad_de() <= capacidad_hash as int || g.tabla_hash.capacidad_de()
                    <= 4 * g.tabla_hash.cuantos(),
                80 * g.tabla_hash.cuantos() <= pos,
                4 * (capacidad_hash as int) <= usize::MAX as int,
                match reproduccion(todo, pos as int) {
                    None => reproduccion(todo, 0) is None,
                    Some(m) => reproduccion(todo, 0) == Some(combina(g@, m)),
                },
            decreases todo.len() - pos,
        {
            match deserializar(&g.datos, pos) {
                Err(e) => {
                    proof {
                        assert(decodifica_en(todo, pos as int) is None);
                        assert(reproduccion(todo, pos as int) is None);
                        assert(reproduccion(todo, 0) is None);
                    }
                    return Err(e);
                },
                Ok((p, fin)) => {
                    let ghost pv = p@;
                    let ghost vista_antes = g@;
                    let ghost indice_antes = g.tabla_hash@;
                    let inicio64 = pos as u64;
                    let fin64 = fin as u64;
                    g.tabla_hash.eliminar(p.email.as_str());
                    g.tabla_hash.insertar(p.email, inicio64, fin64);
                    proof {
                        Self::lemma_paso_reproduccion(
                            g,
                            todo,
                            pos as int,
                            fin as int,
                            pv,
                            vista_antes,
                            indice_antes,
                        );
                    }
                    pos = fin;
                },
            }
        }
        proof {
            assert(reproduccion(todo, pos as int) == Some(Map::<Seq<char>, PersonaVista>::empty()));
            assert(combina(g@, Map::empty()) =~= g@);
        }
        Ok(g)
    }

    /// One replay step: after a record is indexed (removing any earlier
    /// entry under its key first), the store holds exactly what replay up to
    /// here yields.
    proof fn lemma_paso_reproduccion(
        g: GestorPersonas,
        todo: Seq<u8>,
        pos: int,
        fin: int,
        pv: PersonaVista,
        vista_antes: Map<Seq<char>, PersonaVista>,
        indice_antes: Map<Seq<char>, (u64, u64)>,
        )
        requires
            g.datos@ == todo,
            0 <= pos < fin <= todo.len(),
            fin <= usize::MAX as int,
            decodifica_en(todo, pos) == Some((pv, fin)),
            g.tabla_hash.bien_formada(),
            g.tabla_hash@ == indice_antes.remove(pv.email).insert(pv.email, (pos as u64, fin as u64)),
            vista_antes == Map::new(
                |k: Seq<char>| indice_antes.contains_key(k),
                |k: Seq<char>| decodifica_en(todo, indice_antes[k].0 as int)->Some_0.0,
            ),
            forall|k: Seq<char>| #[trigger]
                indice_antes.contains_key(k) ==> entrada_valida(todo, indice_antes[k], k),
            forall|k1: Seq<char>, k2: Seq<char>|
                indice_antes.contains_key(k1) && indice_antes.contains_key(k2) && k1 != k2
                    ==> rangos_disjuntos(#[trigger] indice_antes[k1], #[trigger] indice_antes[k2]),
            forall|k: Seq<char>| #[trigger]
                indice_antes.contains_key(k) ==> indice_antes[k].1 <= pos,
            match reproduccion(todo, pos) {
                None => reproduccion(todo, 0) is None,
                Some(m) => reproduccion(todo, 0) == Some(combina(vista_antes, m)),
            },
        ensures
            g.bien_formado(),
            forall|k: Seq<char>| #[trigger] g.tabla_hash@.contains_key(k) ==> g.tabla_hash@[k].1 <= fin,
            g@ == vista_antes.insert(pv.email, pv),
            match reproduccion(todo, fin) {
                None => reproduccion(todo, 0) is None,
                Some(m) => reproduccion(todo, 0) == Some(combina(g@, m)),
            },
    {
        let indice = g.tabla_hash@;
        assert forall|k: Seq<char>| #[trigger] indice.contains_key(k) implies entrada_valida(
            todo,
            indice[k],
            k,
        ) && indice[k].1 <= fin by {
            if k == pv.email {
                assert(indice[k] == (pos as u64, fin as u64));
            } else {
                assert(indice_antes.contains_key(k));
                assert(indice[k] == indice_antes[k]);
            }
        }
        assert forall|k1: Seq<char>, k2: Seq<char>|
            indice.contains_key(k1) && indice.contains_key(k2) && k1 != k2 implies rangos_disjuntos(
            #[trigger] indice[k1],
            #[trigger] indice[k2],
        ) by {
            if k1 == pv.email {
                assert(indice_antes.contains_key(k2));
                assert(indice_antes[k2].1 <= pos);
            } else if k2 == pv.email {
                assert(indice_antes.contains_key(k1));
                assert(indice_antes[k1].1 <= pos);
            } else {
                assert(indice_antes.contains_key(k1) && indice_antes.contains_key(k2));
            }
        }
        assert(g@ =~= vista_antes.insert(pv.email, pv));
        match reproduccion(todo, fin) {
            None => {},
            Some(m) => {
                let mpaso = if m.contains_key(pv.email) {
                    m
                } else {
                    m.insert(pv.email, pv)
                };
                assert(reproduccion(todo, pos) == Some(mpaso));
                assert(combina(vista_antes, mpaso) =~= combina(g@, m));
            },
        }
    }

    /// The bytes of the backing container, for the caller that persists
    /// them.
    pub fn datos(&self) -> (r: &Vec<u8>)
        ensures
            r@ == self.contenido(),
    {
        &self.datos
    }

    /// Whether a key is live in the store.
    pub fn contiene(&self, email: &str) -> (r: bool)
        requires
            self.bien_formado(),
        ensures
            r == self@.contains_key(email@),
    {
        match self.tabla_hash.obtener(email) {
            Some(_) => true,
            None => false,
        }
    }

    /// Appends a record at the end of the container and indexes its byte
    /// range under the record's email. The caller keeps keys unique: the
    /// email must not be live.
    pub fn ingreso(&mut self, persona: Persona) -> (r: Result<(), GestorError>)
        requires
            old(self).bien_formado(),
            !old(self)@.contains_key(persona.email@),
            4 * old(self).capacidad_indice() <= usize::MAX as int,
        ensures
            r is Ok,
            final(self).bien_formado(),
            final(self)@ == old(self)@.insert(persona.email@, persona@),
            final(self).contenido() == old(self).contenido() + codifica(persona@),
            old(self).compacta() ==> final(self).compacta(),
            old(self).capacidad_indice() <= final(self).capacidad_indice(),
            2 * final(self).elementos_indice() <= final(self).capacidad_indice(),
    {
        let ghost pv = persona@;
        let ghost datos_antes = self.datos@;
        let ghost vista_antes = self@;
        let ghost indice_antes = self.tabla_hash@;
        let mut bytes = serializar(&persona);
        let inicio64 = self.datos.len() as u64;
        self.datos.append(&mut bytes);
        let fin64 = self.datos.len() as u64;
        self.tabla_hash.insertar(persona.email, inicio64, fin64);
        proof {
            assert(self.datos@.subrange(inicio64 as int, fin64 as int) =~= codifica(pv));
            lemma_decodifica_codifica(self.datos@, inicio64 as int, pv);
            assert forall|k: Seq<char>| #[trigger]
                self.tabla_hash@.contains_key(k) implies entrada_valida(
                self.datos@,
                self.tabla_hash@[k],
                k,
            ) by {
                if k == pv.email {
                } else {
                    assert(indice_antes.contains_key(k));
                    assert(entrada_valida(datos_antes, indice_antes[k], k));
                    assert(self.datos@.subrange(
                        indice_antes[k].0 as int,
                        indice_antes[k].1 as int,
                    ) =~= datos_antes.subrange(indice_antes[k].0 as int, indice_antes[k].1 as int));
                    Self::lemma_entrada_estable(datos_antes, self.datos@, indice_antes[k], k);
                }
            }
            assert forall|k1: Seq<char>, k2: Seq<char>|
                self.tabla_hash@.contains_key(k1) && self.tabla_hash@.contains_key(k2) && k1 != k2
                    implies rangos_disjuntos(
                #[trigger] self.tabla_hash@[k1],
                #[trigger] self.tabla_hash@[k2],
            ) by {
                if k1 == pv.email {
                    assert(indice_antes[k2].1 <= datos_antes.len());
                } else if k2 == pv.email {
                    assert(indice_antes[k1].1 <= datos_antes.len());
                }
            }
            assert(self@ =~= vista_antes.insert(pv.email, pv)) by {
                assert forall|k: Seq<char>|
                    self.tabla_hash@.contains_key(k) && k != pv.email implies #[trigger] self@[k]
                    == vista_antes[k] by {
                    assert(indice_antes.contains_key(k));
                    assert(entrada_valida(datos_antes, indice_antes[k], k));
                    assert(self.datos@.subrange(
                        indice_antes[k].0 as int,
                        indice_antes[k].1 as int,
                    ) =~= datos_antes.subrange(indice_antes[k].0 as int, indice_antes[k].1 as int));
                    Self::lemma_entrada_estable(datos_antes, self.datos@, indice_antes[k], k);
                }
            }
            if old(self).compacta() {
                lemma_reproduccion_agrega(datos_antes, pv, vista_antes);
            }
        }
        Ok(())
    }

    /// An entry backed by bytes that did not change under it is still
    /// backed: decoding depends only on the bytes of its range.
    proof fn lemma_entrada_estable(antes: Seq<u8>, ahora: Seq<u8>, rango: (u64, u64), k: Seq<char>)
        requires
            entrada_valida(antes, rango, k),
            ahora.len() >= antes.len(),
            ahora.subrange(rango.0 as int, rango.1 as int) == antes.subrange(
                rango.0 as int,
                rango.1 as int,
            ),
        ensures
            entrada_valida(ahora, rango, k),
            decodifica_en(ahora, rango.0 as int) == decodifica_en(antes, rango.0 as int),
    {
        lemma_decodifica_sound(antes, rango.0 as int);
        lemma_decodifica_marco(antes, ahora, rango.0 as int);
    }

    /// Looks a record up by its email: the record the indexed byte range
    /// decodes to, or nothing when the key is not live. Never an error on a
    /// well-formed store: every index entry is backed by the container.
    pub fn busqueda(&self, email: &str) -> (r: Result<Option<Persona>, GestorError>)
        requires
            self.bien_formado(),
        ensures
            r is Ok,
            match r {
                Ok(Some(p)) => self@.contains_key(email@) && p@ == self@[email@],
                Ok(None) => !self@.contains_key(email@),
                Err(_) => true,
            },
    {
        match self.tabla_hash.obtener(email) {
            None => Ok(None),
            Some((inicio, fin)) => {
                let total = self.datos.len();
                proof {
                    assert(entrada_valida(self.datos@, (inicio, fin), email@));
                    assert(inicio <= total as u64);
                }
                let desde = inicio as usize;
                match deserializar(&self.datos, desde) {
                    Ok((p, _hasta)) => Ok(Some(p)),
                    Err(_) => {
                        proof {
                            assert(false);
                        }
                        vstd::pervasive::unreached()
                    },
                }
            },
        }
    }

    /// Updates the record under a key. Returns `Ok(false)`, changing
    /// nothing, when the key is not live. Otherwise writes the new record in
    /// place when it fits the old range (zero-padding the rest of that
    /// range) or appends it at the end of the container when it does not,
    /// then reindexes: the old key's entry goes, the new record's email maps
    /// to the range actually written.
    pub fn modificacion(&mut self, email: &str, nueva_persona: Persona) -> (r: Result<
        bool,
        GestorError,
    >)
        requires
            old(self).bien_formado(),
            4 * old(self).capacidad_indice() <= usize::MAX as int,
            nueva_persona.email@ == email@ || !old(self)@.contains_key(nueva_persona.email@),
        ensures
            r is Ok,
            final(self).bien_formado(),
            old(self).capacidad_indice() <= final(self).capacidad_indice(),
            2 * final(self).elementos_indice() <= final(self).capacidad_indice(),
            (old(self).compacta() && nueva_persona.email@ == email@
                && old(self)@.contains_key(email@) && codifica(nueva_persona@).len() > codifica(
                old(self)@[email@],
            ).len()) ==> final(self).compacta(),
            match r {
                Ok(true) => {
                    &&& old(self)@.contains_key(email@)
                    &&& final(self)@ == old(self)@.remove(email@).insert(
                        nueva_persona.email@,
                        nueva_persona@,
                    )
                },
                Ok(false) => {
                    &&& !old(self)@.contains_key(email@)
                    &&& *final(self) == *old(self)
                },
                Err(_) => true,
            },
    {
        match self.tabla_hash.obtener(email) {
            None => {
                proof {
                    self.tabla_hash.lemma_carga();
                }
                Ok(false)
            },
            Some((inicio, fin)) => {
                let total = self.datos.len();
                proof {
                    assert(entrada_valida(self.datos@, (inicio, fin), email@));
                    assert(fin <= total as u64);
                }
                let ghost nv = nueva_persona@;
                let ghost datos_antes = self.datos@;
                let ghost vista_antes = self@;
                let ghost indice_antes = self.tabla_hash@;
                let bytes = serializar(&nueva_persona);
                let longitud_original = fin - inicio;
                let ln = bytes.len() as u64;
                let ni: u64;
                let nf: u64;
                if ln <= longitud_original {
                    let desde = inicio as usize;
                    escribir_en(&mut self.datos, desde, &bytes);
                    let ghost tras_escritura = self.datos@;
                    rellenar_ceros(
                        &mut self.datos,
                        desde + bytes.len(),
                        (longitud_original - ln) as usize,
                    );
                    ni = inicio;
                    nf = inicio + ln;
                    proof {
                        assert(self.datos@.subrange(ni as int, nf as int) =~= tras_escritura
                            .subrange(ni as int, nf as int));
                        assert(tras_escritura.subrange(ni as int, nf as int) =~= codifica(nv));
                        assert forall|i: int|
                            0 <= i < datos_antes.len() && !(inicio <= i < fin)
                                implies self.datos@[i] == datos_antes[i] by {
                            assert(tras_escritura[i] == datos_antes[i]);
                        }
                    }
                } else {
                    ni = self.datos.len() as u64;
                    let mut b2 = bytes;
                    self.datos.append(&mut b2);
                    nf = self.datos.len() as u64;
                    proof {
                        assert(self.datos@.subrange(ni as int, nf as int) =~= codifica(nv));
                        assert(forall|i: int|
                            0 <= i < datos_antes.len() && !(inicio <= i < fin)
                                ==> self.datos@[i] == datos_antes[i]);
                    }
                }
                proof {
                    assert(self.datos@.subrange(ni as int, nf as int) == codifica(nv));
                    lemma_decodifica_codifica(self.datos@, ni as int, nv);
                    assert forall|k: Seq<char>|
                        indice_antes.contains_key(k) && k != email@ implies entrada_valida(
                        self.datos@,
                        #[trigger] indice_antes[k],
                        k,
                    ) && decodifica_en(self.datos@, indice_antes[k].0 as int) == decodifica_en(
                        datos_antes,
                        indice_antes[k].0 as int,
                    ) by {
                        assert(entrada_valida(datos_antes, indice_antes[k], k));
                        assert(rangos_disjuntos(indice_antes[k], (inicio, fin)));
                        assert(self.datos@.subrange(
                            indice_antes[k].0 as int,
                            indice_antes[k].1 as int,
                        ) =~= datos_antes.subrange(
                            indice_antes[k].0 as int,
                            indice_antes[k].1 as int,
                        ));
                        Self::lemma_entrada_estable(datos_antes, self.datos@, indice_antes[k], k);
                    }
                }
                self.tabla_hash.eliminar(email);
                self.tabla_hash.insertar(nueva_persona.email, ni, nf);
                proof {
                    let indice = self.tabla_hash@;
                    assert forall|k: Seq<char>| #[trigger]
                        indice.contains_key(k) implies entrada_valida(
                        self.datos@,
                        indice[k],
                        k,
                    ) by {
                        if k == nv.email {
                            assert(indice[k] == (ni, nf));
                        } else {
                            assert(indice_antes.contains_key(k) && k != email@);
                            assert(indice[k] == indice_antes[k]);
                        }
                    }
                    assert forall|k1: Seq<char>, k2: Seq<char>|
                        indice.contains_key(k1) && indice.contains_key(k2) && k1 != k2
                            implies rangos_disjuntos(
                        #[trigger] indice[k1],
                        #[trigger] indice[k2],
                    ) by {
                        if k1 == nv.email {
                            assert(indice_antes.contains_key(k2) && k2 != email@);
                            assert(rangos_disjuntos(indice_antes[k2], (inicio, fin)));
                        } else if k2 == nv.email {
                            assert(indice_antes.contains_key(k1) && k1 != email@);
                            assert(rangos_disjuntos(indice_antes[k1], (inicio, fin)));
                        } else {
                            assert(indice_antes.contains_key(k1) && indice_antes.contains_key(k2));
                        }
                    }
                    assert(self@ =~= vista_antes.remove(email@).insert(nv.email, nv));
                    lemma_decodifica_sound(datos_antes, inicio as int);
                    let viejo = decodifica_en(datos_antes, inicio as int)->Some_0.0;
                    assert(vista_antes[email@] == viejo);
                    assert(codifica(viejo).len() == fin - inicio);
                    if old(self).compacta() && nv.email == email@ && codifica(nv).len()
                        > codifica(viejo).len() {
                        assert(self.datos@ == datos_antes + codifica(nv));
                        lemma_reproduccion_agrega(datos_antes, nv, vista_antes);
                        assert(vista_antes.insert(nv.email, nv) =~= vista_antes.remove(
                            email@,
                        ).insert(nv.email, nv));
                        assert(reproduccion(self.datos@, 0) == Some(self@));
                    }
                }
                Ok(true)
            },
        }
    }
}

/// Writes the given bytes into the container at the given offset; everything
/// outside the written range keeps its value.
fn escribir_en(datos: &mut Vec<u8>, desde: usize, bytes: &Vec<u8>)
    requires
        desde + bytes@.len() <= old(datos)@.len(),
    ensures
        final(datos)@.len() == old(datos)@.len(),
        final(datos)@.subrange(desde as int, desde + bytes@.len()) == bytes@,
        forall|i: int|
            0 <= i < old(datos)@.len() && !(desde <= i < desde + bytes@.len())
                ==> final(datos)@[i] == old(datos)@[i],
{
    let _largo: usize = datos.len();
    let mut i: usize = 0;
    while i < bytes.len()
        invariant
            i <= bytes@.len(),
            desde + bytes@.len() <= datos@.len(),
            datos@.len() <= usize::MAX,
            datos@.len() == old(datos)@.len(),
            forall|j: int| 0 <= j < i ==> datos@[desde + j] == bytes@[j],
            forall|j: int|
                0 <= j < old(datos)@.len() && !(desde <= j < desde + i) ==> datos@[j] == old(
                    datos,
                )@[j],
        decreases bytes@.len() - i,
    {
        datos[desde + i] = bytes[i];
        i = i + 1;
    }
    proof {
        assert(datos@.subrange(desde as int, desde + bytes@.len()) =~= bytes@);
    }
}

/// Overwrites a stretch of the container with zero bytes; everything outside
/// it keeps its value.
fn rellenar_ceros(datos: &mut Vec<u8>, desde: usize, cuantos: usize)
    requires
        desde + cuantos <= old(datos)@.len(),
    ensures
        final(datos)@.len() == old(datos)@.len(),
        forall|i: int| desde <= i < desde + cuantos ==> final(datos)@[i] == 0u8,
        forall|i: int|
            0 <= i < old(datos)@.len() && !(desde <= i < desde + cuantos) ==> final(datos)@[i]
                == old(datos)@[i],
{
    let _largo: usize = datos.len();
    let mut i: usize = 0;
    while i < cuantos
        invariant
            i <= cuantos,
            desde + cuantos <= datos@.len(),
            datos@.len() <= usize::MAX,
            datos@.len() == old(datos)@.len(),
            forall|j: int| desde <= j < desde + i ==> datos@[j] == 0u8,
            forall|j: int|
                0 <= j < old(datos)@.len() && !(desde <= j < desde + i) ==> datos@[j] == old(
                    datos,
                )@[j],
        decreases cuantos - i,
    {
        datos[desde + i] = 0;
        i = i + 1;
    }
}

/// Appending one record's serialized form to a container that replays
/// cleanly makes the replay yield the old association with that record
/// inserted: the appended record, being last, wins its key.
proof fn lemma_reproduccion_agrega(b: Seq<u8>, v: PersonaVista, m: Map<Seq<char>, PersonaVista>)
    requires
        reproduccion(b, 0) == Some(m),
        vista_valida(v),
    ensures
        reproduccion(b + codifica(v), 0) == Some(m.insert(v.email, v)),
{
    lemma_reproduccion_agrega_en(b, v, 0);
}

/// The same, from any position whose replay of the rest succeeds.
proof fn lemma_reproduccion_agrega_en(b: Seq<u8>, v: PersonaVista, pos: int)
    requires
        0 <= pos <= b.len(),
        reproduccion(b, pos) is Some,
        vista_valida(v),
    ensures
        reproduccion(b + codifica(v), pos) == Some(
            reproduccion(b, pos)->Some_0.insert(v.email, v),
        ),
    decreases b.len() - pos,
{
    let c = codifica(v);
    let bc = b + c;
    if pos == b.len() {
        assert(bc.subrange(pos, pos + c.len() as int) =~= c);
        lemma_decodifica_codifica(bc, pos, v);
        assert(reproduccion(bc, pos + c.len() as int) == Some(
            Map::<Seq<char>, PersonaVista>::empty(),
        ));
        assert(reproduccion(bc, pos) == Some(
            Map::<Seq<char>, PersonaVista>::empty().insert(v.email, v),
        ));
        assert(Map::<Seq<char>, PersonaVista>::empty().insert(v.email, v) =~= reproduccion(
            b,
            pos,
        )->Some_0.insert(v.email, v));
    } else {
        let (w, fin) = decodifica_en(b, pos)->Some_0;
        lemma_decodifica_sound(b, pos);
        assert(bc.subrange(pos, fin) =~= b.subrange(pos, fin));
        lemma_decodifica_marco(b, bc, pos);
        let mfin = reproduccion(b, fin)->Some_0;
        lemma_reproduccion_agrega_en(b, v, fin);
        let mfin_c = reproduccion(bc, fin)->Some_0;
        assert(mfin_c == mfin.insert(v.email, v));
        let mpos = reproduccion(b, pos)->Some_0;
        let mpos_c = reproduccion(bc, pos)->Some_0;
        if w.email == v.email {
            assert(mfin_c.contains_key(w.email));
            assert(mpos_c == mfin.insert(v.email, v));
            if mfin.contains_key(w.email) {
                assert(mpos == mfin);
            } else {
                assert(mpos == mfin.insert(w.email, w));
                assert(mfin.insert(w.email, w).insert(v.email, v) =~= mfin.insert(v.email, v));
            }
            assert(mpos_c =~= mpos.insert(v.email, v));
        } else {
            if mfin.contains_key(w.email) {
                assert(mfin_c.contains_key(w.email));
                assert(mpos_c == mfin_c);
                assert(mpos == mfin);
            } else {
                assert(!mfin_c.contains_key(w.email));
                assert(mpos_c == mfin_c.insert(w.email, w));
                assert(mpos == mfin.insert(w.email, w));
                assert(mfin.insert(v.email, v).insert(w.email, w) =~= mfin.insert(
                    w.email,
                    w,
                ).insert(v.email, v));
            }
            assert(mpos_c =~= mpos.insert(v.email, v));
        }
    }
}

/// Law: after an insert, the inserted record's key is live and holds a
/// record deep-equal to the one inserted.
pub proof fn lemma_ingreso_luego_busqueda(
    antes: GestorPersonas,
    despues: GestorPersonas,
    p: Persona,
)
    requires
        despues@ == antes@.insert(p.email@, p@),
    ensures
        despues@.contains_key(p.email@),
        despues@[p.email@] == p@,
{
}

/// Law: after a successful update of key `k` with a new record, the old key
/// is gone unless it is the new record's own email, and the new record's
/// email holds exactly the new record.
pub proof fn lemma_modificacion_luego_busqueda(
    antes: GestorPersonas,
    despues: GestorPersonas,
    k: Seq<char>,
    nueva: Persona,
)
    requires
        despues@ == antes@.remove(k).insert(nueva.email@, nueva@),
    ensures
        nueva.email@ != k ==> !despues@.contains_key(k),
        despues@.contains_key(nueva.email@),
        despues@[nueva.email@] == nueva@,
{
}

/// Law: a store whose container replays cleanly is reproduced by reopening:
/// a second store built by replaying the first one's bytes holds the same
/// association, so every lookup agrees before and after.
pub proof fn lemma_reapertura(g1: GestorPersonas, g2: GestorPersonas)
    requires
        g1.compacta(),
        Some(g2@) == reproduccion(g1.contenido(), 0),
    ensures
        g2@ == g1@,
        forall|k: Seq<char>| g1@.contains_key(k) <==> g2@.contains_key(k),
        forall|k: Seq<char>| #[trigger] g1@.contains_key(k) ==> g1@[k] == g2@[k],
{
}

} // verus!
