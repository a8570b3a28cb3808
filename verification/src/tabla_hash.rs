//! The positional index: an open-addressing hash table from a string key to
//! the byte range of the key's record in the backing store.
//!
//! Collisions are resolved by probing from the key's home slot: the quadratic
//! sequence `home + j*j` first, then a linear sweep, so that the probe
//! sequence reaches every slot whatever the capacity. A removal leaves a
//! tombstone, so that lookups keep probing past the vacated slot and stay
//! correct for keys whose probe sequence ran through it. The table doubles
//! its capacity, rehashing every live entry, before an insert could push the
//! load factor above one half.

use vstd::arithmetic::div_mod::lemma_fundamental_div_mod_converse;
use vstd::prelude::*;
use vstd::utf8::{encode_utf8, encode_utf8_decode_utf8};

verus! {

/// One slot of the table: never used, vacated by a removal, or holding a live
/// entry `(key, start, end)` for the byte range `[start, end)`.
#[derive(Debug)]
pub enum Ranura {
    Vacia,
    Tumba,
    Ocupada(String, u64, u64),
}

/// The positional index.
#[derive(Debug)]
pub struct TablaHash {
    tabla: Vec<Ranura>,
    capacidad: usize,
    num_elementos: usize,
}

/// The string hash the table distributes its keys with, over the key's UTF-8
/// bytes; deterministic within and across runs.
pub open spec fn hash_bytes(b: Seq<u8>) -> u64
    decreases b.len(),
{
    if b.len() == 0 {
        5381u64
    } else {
        (((hash_bytes(b.drop_last()) * 33) + b.last()) % 0x1_0000_0000_0000_0000) as u64
    }
}

/// The hash of a key.
pub open spec fn hash_clave(k: Seq<char>) -> u64 {
    hash_bytes(encode_utf8(k))
}

/// A key's home slot in a table of the given capacity.
pub open spec fn origen_de(k: Seq<char>, cap: int) -> int
    recommends
        1 <= cap,
{
    hash_clave(k) as int % cap
}

/// The slot visited by the `j`-th probe from a home slot: the quadratic
/// sequence for the first `cap` probes, then a linear sweep.
pub open spec fn sonda(origen: int, j: int, cap: int) -> int
    recommends
        1 <= cap,
{
    if j < cap {
        (origen + j * j) % cap
    } else {
        (origen + (j - cap)) % cap
    }
}

/// The key of an occupied slot.
pub open spec fn clave_de(r: Ranura) -> Seq<char>
    recommends
        r is Ocupada,
{
    r->Ocupada_0@
}

/// The byte range of an occupied slot.
pub open spec fn rango_de(r: Ranura) -> (u64, u64)
    recommends
        r is Ocupada,
{
    (r->Ocupada_1, r->Ocupada_2)
}

/// How many slots of the table hold a live entry.
pub open spec fn cuenta_ocupadas(t: Seq<Ranura>) -> int
    decreases t.len(),
{
    if t.len() == 0 {
        0
    } else {
        cuenta_ocupadas(t.drop_last()) + if t.last() is Ocupada {
            1int
        } else {
            0int
        }
    }
}

/// Some slot of the table holds a live entry with this key.
pub open spec fn contiene_en(t: Seq<Ranura>, k: Seq<char>) -> bool {
    exists|i: int| 0 <= i < t.len() && #[trigger] t[i] is Ocupada && clave_de(t[i]) == k
}

/// The slot holding this key (unique in a well-formed table).
pub open spec fn posicion_de(t: Seq<Ranura>, k: Seq<char>) -> int {
    choose|i: int| 0 <= i < t.len() && #[trigger] t[i] is Ocupada && clave_de(t[i]) == k
}

/// What the table associates: each live key with its byte range.
pub open spec fn vista_de(t: Seq<Ranura>) -> Map<Seq<char>, (u64, u64)> {
    Map::new(|k: Seq<char>| contiene_en(t, k), |k: Seq<char>| rango_de(t[posicion_de(t, k)]))
}

/// No two slots hold the same key.
pub open spec fn claves_unicas(t: Seq<Ranura>) -> bool {
    forall|i: int, j: int|
        0 <= i < t.len() && 0 <= j < t.len() && #[trigger] t[i] is Ocupada && #[trigger] t[j]
            is Ocupada && clave_de(t[i]) == clave_de(t[j]) ==> i == j
}

/// The entry at slot `i` can be found by probing from its key's home slot:
/// some probe reaches `i`, and no earlier probe passes a never-used slot
/// (where a lookup would stop).
pub open spec fn alcanzable(t: Seq<Ranura>, cap: int, i: int) -> bool
    recommends
        0 <= i < t.len(),
        t[i] is Ocupada,
        1 <= cap,
{
    exists|j: int|
        0 <= j < 2 * cap && #[trigger] sonda(origen_de(clave_de(t[i]), cap), j, cap) == i && (
        forall|j2: int|
            0 <= j2 < j ==> !(t[#[trigger] sonda(origen_de(clave_de(t[i]), cap), j2, cap)]
                is Vacia))
}

/// Well-formedness of a table of the given capacity: right length, unique
/// keys, and every entry reachable by probing.
pub open spec fn indice_bien_formado(t: Seq<Ranura>, cap: int) -> bool {
    &&& t.len() == cap
    &&& 1 <= cap
    &&& claves_unicas(t)
    &&& forall|i: int| 0 <= i < t.len() && #[trigger] t[i] is Ocupada ==> alcanzable(t, cap, i)
}

impl View for TablaHash {
    type V = Map<Seq<char>, (u64, u64)>;

    closed spec fn view(&self) -> Map<Seq<char>, (u64, u64)> {
        vista_de(self.tabla@)
    }
}

/// Compares two byte slices for equality.
fn bytes_iguales(a: &[u8], b: &[u8]) -> (r: bool)
    ensures
        r == (a@ == b@),
{
    if a.len() != b.len() {
        proof {
            assert(a@.len() != b@.len());
        }
        return false;
    }
    let mut i: usize = 0;
    while i < a.len()
        invariant
            i <= a@.len(),
            a@.len() == b@.len(),
            forall|j: int| 0 <= j < i ==> a@[j] == b@[j],
        decreases a@.len() - i,
    {
        if a[i] != b[i] {
            return false;
        }
        i = i + 1;
    }
    proof {
        assert(a@ =~= b@);
    }
    true
}

/// Compares two keys for equality, by their UTF-8 bytes; equal bytes mean
/// equal text because the encoding is unambiguous.
fn claves_iguales(a: &str, b: &str) -> (r: bool)
    ensures
        r == (a@ == b@),
{
    let r = bytes_iguales(a.as_bytes(), b.as_bytes());
    proof {
        if encode_utf8(a@) == encode_utf8(b@) {
            encode_utf8_decode_utf8(a@);
            encode_utf8_decode_utf8(b@);
        }
    }
    r
}

/// Computes the hash of a key.
fn hash_de(email: &str) -> (h: u64)
    ensures
        h == hash_clave(email@),
{
    let b = email.as_bytes();
    let mut h: u64 = 5381;
    let mut i: usize = 0;
    while i < b.len()
        invariant
            i <= b@.len(),
            h == hash_bytes(b@.subrange(0, i as int)),
        decreases b@.len() - i,
    {
        let ghost antes = b@.subrange(0, i as int);
        let x: u128 = (h as u128) * 33 + (b[i] as u128);
        h = (x % 0x1_0000_0000_0000_0000u128) as u64;
        proof {
            assert(b@.subrange(0, i + 1).drop_last() =~= antes);
            assert(b@.subrange(0, i + 1).last() == b@[i as int]);
        }
        i = i + 1;
    }
    proof {
        assert(b@.subrange(0, b@.len() as int) =~= b@);
    }
    h
}

/// Computes the slot visited by the `j`-th probe.
fn indice_sonda(origen: usize, j: usize, cap: usize) -> (r: usize)
    requires
        1 <= cap,
        origen < cap,
        j < 2 * cap,
        2 * cap <= usize::MAX,
    ensures
        r as int == sonda(origen as int, j as int, cap as int),
        r < cap,
{
    if j < cap {
        proof {
            let jj = j as u128;
            assert(jj * jj <= 0xffff_ffff_ffff_ffffu128 * 0xffff_ffff_ffff_ffffu128)
                by (nonlinear_arith)
                requires
                    jj <= 0xffff_ffff_ffff_ffffu128,
            ;
        }
        let x: u128 = origen as u128 + (j as u128) * (j as u128);
        (x % (cap as u128)) as usize
    } else {
        let x: u128 = origen as u128 + (j - cap) as u128;
        (x % (cap as u128)) as usize
    }
}

/// A count never exceeds the number of slots and never goes negative.
proof fn lemma_cuenta_limites(t: Seq<Ranura>)
    ensures
        0 <= cuenta_ocupadas(t) <= t.len(),
    decreases t.len(),
{
    if t.len() > 0 {
        lemma_cuenta_limites(t.drop_last());
    }
}

/// Counting a prefix never exceeds counting the whole.
proof fn lemma_cuenta_subrange(t: Seq<Ranura>, i: int)
    requires
        0 <= i <= t.len(),
    ensures
        cuenta_ocupadas(t.subrange(0, i)) <= cuenta_ocupadas(t),
    decreases t.len() - i,
{
    if i == t.len() {
        assert(t.subrange(0, i) =~= t);
    } else {
        assert(t.subrange(0, i + 1).drop_last() =~= t.subrange(0, i));
        lemma_cuenta_subrange(t, i + 1);
    }
}

/// How updating one slot changes the count.
proof fn lemma_cuenta_actualiza(t: Seq<Ranura>, i: int, r: Ranura)
    requires
        0 <= i < t.len(),
    ensures
        cuenta_ocupadas(t.update(i, r)) == cuenta_ocupadas(t) - (if t[i] is Ocupada {
            1int
        } else {
            0int
        }) + (if r is Ocupada {
            1int
        } else {
            0int
        }),
    decreases t.len(),
{
    let t2 = t.update(i, r);
    if i == t.len() - 1 {
        assert(t2.drop_last() =~= t.drop_last());
    } else {
        assert(t2.drop_last() =~= t.drop_last().update(i, r));
        lemma_cuenta_actualiza(t.drop_last(), i, r);
    }
}

/// A table with fewer entries than slots has a slot without an entry.
proof fn lemma_hay_libre(t: Seq<Ranura>)
    requires
        cuenta_ocupadas(t) < t.len(),
    ensures
        exists|i: int| 0 <= i < t.len() && !(#[trigger] t[i] is Ocupada),
    decreases t.len(),
{
    lemma_cuenta_limites(t.drop_last());
    if t.last() is Ocupada {
        lemma_hay_libre(t.drop_last());
        let i = choose|i: int|
            0 <= i < t.drop_last().len() && !(#[trigger] t.drop_last()[i] is Ocupada);
        assert(t[i] == t.drop_last()[i]);
        assert(!(t[i] is Ocupada));
    } else {
        assert(!(t[t.len() - 1] is Ocupada));
    }
}

/// The linear sweep reaches every slot: for each slot there is a probe index
/// in the second half of the sequence that lands on it.
proof fn lemma_cobertura(origen: int, cap: int, s: int)
    requires
        1 <= cap,
        0 <= origen < cap,
        0 <= s < cap,
    ensures
        exists|j: int| cap <= j < 2 * cap && sonda(origen, j, cap) == s,
{
    let d = if s >= origen {
        s - origen
    } else {
        s - origen + cap
    };
    let j = cap + d;
    if origen + d == s {
        lemma_fundamental_div_mod_converse(origen + d, cap, 0, s);
    } else {
        lemma_fundamental_div_mod_converse(origen + d, cap, 1, s);
    }
    assert(sonda(origen, j, cap) == s);
}

/// In a table with unique keys, a slot seen to hold a key fixes what the
/// table associates with that key.
proof fn lemma_posicion(t: Seq<Ranura>, k: Seq<char>, i: int)
    requires
        claves_unicas(t),
        0 <= i < t.len(),
        t[i] is Ocupada,
        clave_de(t[i]) == k,
    ensures
        contiene_en(t, k),
        posicion_de(t, k) == i,
        vista_de(t).contains_key(k),
        vista_de(t)[k] == rango_de(t[i]),
{
    assert(contiene_en(t, k));
    let i2 = posicion_de(t, k);
    assert(t[i2] is Ocupada && clave_de(t[i2]) == k);
}

/// Placing a fresh key in a reachable slot without an entry keeps the table
/// well-formed, raises the count by one, and adds exactly that key to what
/// the table associates.
proof fn lemma_colocar(t: Seq<Ranura>, cap: int, p: int, r: Ranura)
    requires
        indice_bien_formado(t, cap),
        r is Ocupada,
        !contiene_en(t, clave_de(r)),
        0 <= p < cap,
        !(t[p] is Ocupada),
        exists|j: int|
            0 <= j < 2 * cap && #[trigger] sonda(origen_de(clave_de(r), cap), j, cap) == p && (
            forall|j2: int|
                0 <= j2 < j ==> t[#[trigger] sonda(origen_de(clave_de(r), cap), j2, cap)]
                    is Ocupada),
    ensures
        indice_bien_formado(t.update(p, r), cap),
        cuenta_ocupadas(t.update(p, r)) == cuenta_ocupadas(t) + 1,
        vista_de(t.update(p, r)) == vista_de(t).insert(clave_de(r), rango_de(r)),
        contiene_en(t.update(p, r), clave_de(r)),
{
    let k = clave_de(r);
    let t2 = t.update(p, r);
    lemma_cuenta_actualiza(t, p, r);
    assert(claves_unicas(t2)) by {
        assert forall|i: int, j: int|
            0 <= i < t2.len() && 0 <= j < t2.len() && #[trigger] t2[i] is Ocupada
                && #[trigger] t2[j] is Ocupada && clave_de(t2[i]) == clave_de(t2[j]) implies i
            == j by {
            if i != p && j != p {
            } else if i == p && j != p {
                assert(t2[j] == t[j]);
                assert(contiene_en(t, k));
            } else if j == p && i != p {
                assert(t2[i] == t[i]);
                assert(contiene_en(t, k));
            }
        }
    }
    assert forall|i: int| 0 <= i < t2.len() && #[trigger] t2[i] is Ocupada implies alcanzable(
        t2,
        cap,
        i,
    ) by {
        if i == p {
            let j = choose|j: int|
                0 <= j < 2 * cap && #[trigger] sonda(origen_de(k, cap), j, cap) == p && (forall|
                    j2: int,
                |
                    0 <= j2 < j ==> t[#[trigger] sonda(origen_de(k, cap), j2, cap)] is Ocupada);
            assert(clave_de(t2[i]) == k);
            assert forall|j2: int| 0 <= j2 < j implies !(t2[#[trigger] sonda(
                origen_de(clave_de(t2[i]), cap),
                j2,
                cap,
            )] is Vacia) by {
                assert(t[sonda(origen_de(k, cap), j2, cap)] is Ocupada);
            }
            assert(sonda(origen_de(clave_de(t2[i]), cap), j, cap) == i);
            assert(alcanzable(t2, cap, i));
        } else {
            assert(t2[i] == t[i]);
            assert(alcanzable(t, cap, i));
            let j = choose|j: int|
                0 <= j < 2 * cap && #[trigger] sonda(origen_de(clave_de(t[i]), cap), j, cap) == i
                    && (forall|j2: int|
                    0 <= j2 < j ==> !(t[#[trigger] sonda(origen_de(clave_de(t[i]), cap), j2, cap)]
                        is Vacia));
            assert forall|j2: int| 0 <= j2 < j implies !(t2[#[trigger] sonda(
                origen_de(clave_de(t2[i]), cap),
                j2,
                cap,
            )] is Vacia) by {
                assert(!(t[sonda(origen_de(clave_de(t[i]), cap), j2, cap)] is Vacia));
            }
            assert(sonda(origen_de(clave_de(t2[i]), cap), j, cap) == i);
            assert(alcanzable(t2, cap, i));
        }
    }
    lemma_posicion(t2, k, p);
    assert(vista_de(t2) =~= vista_de(t).insert(k, rango_de(r))) by {
        assert forall|k2: Seq<char>| #[trigger]
            vista_de(t2).contains_key(k2) == vista_de(t).insert(
                k,
                rango_de(r),
            ).contains_key(k2) by {
            if k2 == k {
            } else {
                if contiene_en(t2, k2) {
                    let i = choose|i: int|
                        0 <= i < t2.len() && #[trigger] t2[i] is Ocupada && clave_de(t2[i]) == k2;
                    assert(i != p);
                    assert(t[i] == t2[i]);
                    assert(contiene_en(t, k2));
                }
                if contiene_en(t, k2) {
                    let i = choose|i: int|
                        0 <= i < t.len() && #[trigger] t[i] is Ocupada && clave_de(t[i]) == k2;
                    assert(i != p);
                    assert(t2[i] == t[i]);
                    assert(contiene_en(t2, k2));
                }
            }
        }
        assert forall|k2: Seq<char>|
            vista_de(t2).contains_key(k2) && k2 != k implies #[trigger] vista_de(t2)[k2]
            == vista_de(t)[k2] by {
            let i = choose|i: int|
                0 <= i < t2.len() && #[trigger] t2[i] is Ocupada && clave_de(t2[i]) == k2;
            assert(i != p);
            assert(t[i] == t2[i]);
            lemma_posicion(t2, k2, i);
            lemma_posicion(t, k2, i);
        }
    }
}

/// Finds the slot where a fresh key may be placed: the first slot without a
/// live entry along the key's probe sequence.
fn buscar_hueco(tabla: &Vec<Ranura>, origen: usize, cap: usize) -> (p: usize)
    requires
        tabla@.len() == cap,
        1 <= cap,
        2 * cap <= usize::MAX,
        origen < cap,
        cuenta_ocupadas(tabla@) < cap,
    ensures
        p < cap,
        !(tabla@[p as int] is Ocupada),
        exists|j: int|
            0 <= j < 2 * cap && #[trigger] sonda(origen as int, j, cap as int) == p && (forall|
                j2: int,
            |
                0 <= j2 < j ==> tabla@[#[trigger] sonda(origen as int, j2, cap as int)] is Ocupada),
{
    let mut j: usize = 0;
    while j < 2 * cap
        invariant
            tabla@.len() == cap,
            1 <= cap,
            2 * cap <= usize::MAX,
            origen < cap,
            j <= 2 * cap,
            forall|j2: int|
                0 <= j2 < j ==> tabla@[#[trigger] sonda(origen as int, j2, cap as int)] is Ocupada,
        decreases 2 * cap - j,
    {
        let p = indice_sonda(origen, j, cap);
        match &tabla[p] {
            Ranura::Ocupada(..) => {},
            _ => {
                return p;
            },
        }
        j = j + 1;
    }
    proof {
        lemma_hay_libre(tabla@);
        let s = choose|i: int| 0 <= i < tabla@.len() && !(#[trigger] tabla@[i] is Ocupada);
        lemma_cobertura(origen as int, cap as int, s);
        let jlibre = choose|j: int|
            cap <= j < 2 * cap && sonda(origen as int, j, cap as int) == s;
        assert(tabla@[sonda(origen as int, jlibre, cap as int)] is Ocupada);
        assert(false);
    }
    vstd::pervasive::unreached()
}

impl TablaHash {
    /// The table's capacity: how many slots it has.
    pub closed spec fn capacidad_de(&self) -> int {
        self.capacidad as int
    }

    /// How many live entries the table holds.
    pub closed spec fn cuantos(&self) -> int {
        self.num_elementos as int
    }

    /// Well-formedness: the slots form a well-formed index, the element count
    /// is right, the load factor is at most one half, and doubling the
    /// capacity cannot overflow the probe arithmetic.
    pub closed spec fn bien_formada(&self) -> bool {
        &&& indice_bien_formado(self.tabla@, self.capacidad as int)
        &&& self.num_elementos as int == cuenta_ocupadas(self.tabla@)
        &&& 2 * (self.num_elementos as int) <= self.capacidad as int
        &&& 2 * (self.capacidad as int) <= usize::MAX as int
    }

    /// A well-formed table keeps its load factor at or under one half.
    pub proof fn lemma_carga(&self)
        requires
            self.bien_formada(),
        ensures
            2 * self.cuantos() <= self.capacidad_de(),
            1 <= self.capacidad_de(),
    {
    }

    /// The table's capacity, for callers that watch it grow.
    pub fn capacidad(&self) -> (c: usize)
        ensures
            c as int == self.capacidad_de(),
    {
        self.capacidad
    }

    /// How many live entries the table holds.
    pub fn elementos(&self) -> (n: usize)
        ensures
            n as int == self.cuantos(),
    {
        self.num_elementos
    }

    /// Creates an empty table with the given capacity.
    pub fn new(capacidad: usize) -> (t: TablaHash)
        requires
            1 <= capacidad,
            2 * (capacidad as int) <= usize::MAX as int,
        ensures
            t.bien_formada(),
            t@ == Map::<Seq<char>, (u64, u64)>::empty(),
            t.capacidad_de() == capacidad,
            t.cuantos() == 0,
    {
        let mut tabla: Vec<Ranura> = Vec::new();
        let mut i: usize = 0;
        while i < capacidad
            invariant
                i <= capacidad,
                tabla@.len() == i,
                cuenta_ocupadas(tabla@) == 0,
                forall|x: int| 0 <= x < i ==> !(#[trigger] tabla@[x] is Ocupada),
        decreases capacidad - i,
        {
            let ghost antes = tabla@;
            tabla.push(Ranura::Vacia);
            proof {
                assert(tabla@.drop_last() =~= antes);
            }
            i = i + 1;
        }
        let t = TablaHash { tabla, capacidad, num_elementos: 0 };
        proof {
            assert(t@ =~= Map::<Seq<char>, (u64, u64)>::empty());
        }
        t
    }

    /// The home slot of a key under the current capacity.
    fn calcular_indice(&self, email: &str) -> (r: usize)
        requires
            1 <= self.capacidad,
        ensures
            r as int == origen_de(email@, self.capacidad as int),
            r < self.capacidad,
    {
        let h = hash_de(email);
        (h % (self.capacidad as u64)) as usize
    }

    /// Looks a key up: the byte range stored for it, if the key is live.
    /// Read-only; reaching a never-used slot means the key is absent.
    pub fn obtener(&self, email: &str) -> (r: Option<(u64, u64)>)
        requires
            self.bien_formada(),
        ensures
            match r {
                Some(rango) => self@.contains_key(email@) && self@[email@] == rango,
                None => !self@.contains_key(email@),
            },
    {
        let origen = self.calcular_indice(email);
        let ghost t = self.tabla@;
        let ghost cap = self.capacidad as int;
        let mut j: usize = 0;
        while j < 2 * self.capacidad
            invariant
                self.bien_formada(),
                origen as int == origen_de(email@, self.capacidad as int),
                origen < self.capacidad,
                t == self.tabla@,
                cap == self.capacidad as int,
                j <= 2 * cap,
                forall|j2: int|
                    0 <= j2 < j ==> !(t[#[trigger] sonda(origen as int, j2, cap)] is Vacia),
                forall|j2: int|
                    0 <= j2 < j ==> !(t[#[trigger] sonda(origen as int, j2, cap)] is Ocupada
                        && clave_de(t[sonda(origen as int, j2, cap)]) == email@),
            decreases 2 * cap - j,
        {
            let p = indice_sonda(origen, j, self.capacidad);
            match &self.tabla[p] {
                Ranura::Vacia => {
                    proof {
                        Self::lemma_busqueda_no_esta(t, cap, email@, j as int);
                    }
                    return None;
                },
                Ranura::Tumba => {},
                Ranura::Ocupada(c, inicio, fin) => {
                    if claves_iguales(c.as_str(), email) {
                        proof {
                            lemma_posicion(t, email@, p as int);
                        }
                        return Some((*inicio, *fin));
                    }
                },
            }
            j = j + 1;
        }
        proof {
            Self::lemma_busqueda_no_esta(t, cap, email@, 2 * cap);
        }
        None
    }

    /// When the first `j` probes for a key saw neither the key nor a
    /// never-used slot, and the search stops here (a never-used slot, or the
    /// probes ran out), the key is not live: a live key's entry would have
    /// stood on one of those probes.
    proof fn lemma_busqueda_no_esta(t: Seq<Ranura>, cap: int, k: Seq<char>, j: int)
        requires
            indice_bien_formado(t, cap),
            0 <= j <= 2 * cap,
            forall|j2: int| 0 <= j2 < j ==> !(t[#[trigger] sonda(origen_de(k, cap), j2, cap)] is Vacia),
            forall|j2: int|
                0 <= j2 < j ==> !(t[#[trigger] sonda(origen_de(k, cap), j2, cap)] is Ocupada
                    && clave_de(t[sonda(origen_de(k, cap), j2, cap)]) == k),
            j == 2 * cap || t[sonda(origen_de(k, cap), j, cap)] is Vacia,
        ensures
            !contiene_en(t, k),
    {
        if contiene_en(t, k) {
            let i = choose|i: int|
                0 <= i < t.len() && #[trigger] t[i] is Ocupada && clave_de(t[i]) == k;
            assert(alcanzable(t, cap, i));
            let je = choose|je: int|
                0 <= je < 2 * cap && #[trigger] sonda(origen_de(k, cap), je, cap) == i && (forall|
                    j2: int,
                |
                    0 <= j2 < je ==> !(t[#[trigger] sonda(origen_de(k, cap), j2, cap)] is Vacia));
            if je < j {
                assert(t[sonda(origen_de(k, cap), je, cap)] is Ocupada && clave_de(
                    t[sonda(origen_de(k, cap), je, cap)],
                ) == k);
            } else {
                assert(j < 2 * cap);
                if je == j {
                    assert(t[sonda(origen_de(k, cap), j, cap)] is Ocupada);
                } else {
                    assert(!(t[sonda(origen_de(k, cap), j, cap)] is Vacia));
                }
            }
        }
    }

    /// Removes a key, leaving a tombstone so that probing past the slot still
    /// works for the other keys. Removing an absent key changes nothing.
    pub fn eliminar(&mut self, email: &str)
        requires
            old(self).bien_formada(),
        ensures
            final(self).bien_formada(),
            final(self)@ == old(self)@.remove(email@),
            final(self).capacidad_de() == old(self).capacidad_de(),
            final(self).cuantos() <= old(self).cuantos(),
            old(self).cuantos() - 1 <= final(self).cuantos(),
    {
        let origen = self.calcular_indice(email);
        let ghost t = self.tabla@;
        let ghost cap = self.capacidad as int;
        let mut j: usize = 0;
        while j < 2 * self.capacidad
            invariant
                self.bien_formada(),
                origen as int == origen_de(email@, self.capacidad as int),
                origen < self.capacidad,
                t == self.tabla@,
                cap == self.capacidad as int,
                self == old(self),
                j <= 2 * cap,
                forall|j2: int|
                    0 <= j2 < j ==> !(t[#[trigger] sonda(origen as int, j2, cap)] is Vacia),
                forall|j2: int|
                    0 <= j2 < j ==> !(t[#[trigger] sonda(origen as int, j2, cap)] is Ocupada
                        && clave_de(t[sonda(origen as int, j2, cap)]) == email@),
            decreases 2 * cap - j,
        {
            let p = indice_sonda(origen, j, self.capacidad);
            let mut coincide = false;
            match &self.tabla[p] {
                Ranura::Vacia => {
                    proof {
                        Self::lemma_busqueda_no_esta(t, cap, email@, j as int);
                        assert(old(self)@.remove(email@) =~= old(self)@);
                    }
                    return ;
                },
                Ranura::Tumba => {},
                Ranura::Ocupada(c, _, _) => {
                    if claves_iguales(c.as_str(), email) {
                        coincide = true;
                    }
                },
            }
            if coincide {
                proof {
                    lemma_posicion(t, email@, p as int);
                    lemma_cuenta_actualiza(t, p as int, Ranura::Tumba);
                    lemma_cuenta_limites(t.update(p as int, Ranura::Tumba));
                }
                self.tabla[p] = Ranura::Tumba;
                self.num_elementos = self.num_elementos - 1;
                proof {
                    Self::lemma_quitar(t, cap, p as int);
                }
                return ;
            }
            j = j + 1;
        }
        proof {
            Self::lemma_busqueda_no_esta(t, cap, email@, 2 * cap);
            assert(old(self)@.remove(email@) =~= old(self)@);
        }
    }

    /// Turning an occupied slot into a tombstone keeps the table well-formed
    /// and removes exactly that slot's key from what the table associates.
    proof fn lemma_quitar(t: Seq<Ranura>, cap: int, p: int)
        requires
            indice_bien_formado(t, cap),
            0 <= p < t.len(),
            t[p] is Ocupada,
        ensures
            indice_bien_formado(t.update(p, Ranura::Tumba), cap),
            vista_de(t.update(p, Ranura::Tumba)) == vista_de(t).remove(clave_de(t[p])),
    {
        let k = clave_de(t[p]);
        let t2 = t.update(p, Ranura::Tumba);
        assert(claves_unicas(t2)) by {
            assert(forall|i: int|
                0 <= i < t2.len() && #[trigger] t2[i] is Ocupada ==> t2[i] == t[i]);
        }
        assert forall|i: int| 0 <= i < t2.len() && #[trigger] t2[i] is Ocupada implies alcanzable(
            t2,
            cap,
            i,
        ) by {
            assert(t2[i] == t[i]);
            assert(alcanzable(t, cap, i));
            let j = choose|j: int|
                0 <= j < 2 * cap && #[trigger] sonda(origen_de(clave_de(t[i]), cap), j, cap) == i
                    && (forall|j2: int|
                    0 <= j2 < j ==> !(t[#[trigger] sonda(origen_de(clave_de(t[i]), cap), j2, cap)]
                        is Vacia));
            assert forall|j2: int| 0 <= j2 < j implies !(t2[#[trigger] sonda(
                origen_de(clave_de(t2[i]), cap),
                j2,
                cap,
            )] is Vacia) by {
                assert(!(t[sonda(origen_de(clave_de(t[i]), cap), j2, cap)] is Vacia));
            }
            assert(sonda(origen_de(clave_de(t2[i]), cap), j, cap) == i);
            assert(alcanzable(t2, cap, i));
        }
        assert(vista_de(t2) =~= vista_de(t).remove(k)) by {
            assert forall|k2: Seq<char>| #[trigger]
                vista_de(t2).contains_key(k2) == vista_de(t).remove(k).contains_key(k2) by {
                if k2 == k {
                    if contiene_en(t2, k2) {
                        let i = choose|i: int|
                            0 <= i < t2.len() && #[trigger] t2[i] is Ocupada && clave_de(t2[i])
                                == k2;
                        assert(t[i] == t2[i]);
                        assert(i == p);
                    }
                } else {
                    if contiene_en(t2, k2) {
                        let i = choose|i: int|
                            0 <= i < t2.len() && #[trigger] t2[i] is Ocupada && clave_de(t2[i])
                                == k2;
                        assert(t[i] == t2[i]);
                        assert(contiene_en(t, k2));
                    }
                    if contiene_en(t, k2) {
                        let i = choose|i: int|
                            0 <= i < t.len() && #[trigger] t[i] is Ocupada && clave_de(t[i]) == k2;
                        assert(i != p);
                        assert(t2[i] == t[i]);
                        assert(contiene_en(t2, k2));
                    }
                }
            }
            assert forall|k2: Seq<char>|
                vista_de(t2).contains_key(k2) implies #[trigger] vista_de(t2)[k2] == vista_de(
                t,
            ).remove(k)[k2] by {
                let i = choose|i: int|
                    0 <= i < t2.len() && #[trigger] t2[i] is Ocupada && clave_de(t2[i]) == k2;
                assert(i != p);
                assert(t[i] == t2[i]);
                lemma_posicion(t2, k2, i);
                lemma_posicion(t, k2, i);
            }
        }
    }

    /// Doubles the capacity and rehashes every live entry into the new slots.
    fn redimensionar(&mut self)
        requires
            old(self).bien_formada(),
            4 * old(self).capacidad_de() <= usize::MAX as int,
        ensures
            final(self).bien_formada(),
            final(self)@ == old(self)@,
            final(self).capacidad_de() == 2 * old(self).capacidad_de(),
            final(self).cuantos() == old(self).cuantos(),
    {
        let ncap = self.capacidad * 2;
        let mut nueva: Vec<Ranura> = Vec::new();
        let mut i: usize = 0;
        while i < ncap
            invariant
                i <= ncap,
                nueva@.len() == i,
                cuenta_ocupadas(nueva@) == 0,
                forall|x: int| 0 <= x < i ==> !(#[trigger] nueva@[x] is Ocupada),
            decreases ncap - i,
        {
            let ghost antes = nueva@;
            nueva.push(Ranura::Vacia);
            proof {
                assert(nueva@.drop_last() =~= antes);
            }
            i = i + 1;
        }
        let ghost vieja = self.tabla@;
        let ghost cap = self.capacidad as int;
        proof {
            assert(vieja.subrange(0, 0) =~= Seq::<Ranura>::empty());
            assert(indice_bien_formado(nueva@, ncap as int));
        }
        let mut i: usize = 0;
        while i < self.capacidad
            invariant
                self == old(self),
                self.bien_formada(),
                vieja == self.tabla@,
                cap == self.capacidad as int,
                ncap == 2 * cap,
                2 * ncap <= usize::MAX,
                i <= cap,
                indice_bien_formado(nueva@, ncap as int),
                cuenta_ocupadas(nueva@) == cuenta_ocupadas(vieja.subrange(0, i as int)),
                forall|k: Seq<char>|
                    #[trigger] contiene_en(nueva@, k) <==> exists|x: int|
                        0 <= x < i && #[trigger] vieja[x] is Ocupada && clave_de(vieja[x]) == k,
                forall|k: Seq<char>|
                    contiene_en(nueva@, k) ==> #[trigger] vista_de(nueva@)[k] == vista_de(
                        vieja,
                    )[k],
            decreases cap - i,
        {
            let ghost prefijo = vieja.subrange(0, i as int);
            proof {
                assert(vieja.subrange(0, i + 1).drop_last() =~= prefijo);
                assert(vieja.subrange(0, i + 1).last() == vieja[i as int]);
                lemma_cuenta_subrange(vieja, i as int);
                lemma_cuenta_limites(nueva@);
            }
            match &self.tabla[i] {
                Ranura::Ocupada(c, inicio, fin) => {
                    proof {
                        if contiene_en(nueva@, c@) {
                            let x = choose|x: int|
                                0 <= x < i && #[trigger] vieja[x] is Ocupada && clave_de(vieja[x])
                                    == c@;
                            assert(x == i);
                            assert(false);
                        }
                        assert(cuenta_ocupadas(vieja) == old(self).cuantos());
                    }
                    let clave = c.clone();
                    let origen = calcular_origen(clave.as_str(), ncap);
                    let p = buscar_hueco(&nueva, origen, ncap);
                    let ghost nueva_antes = nueva@;
                    let ghost r = Ranura::Ocupada(clave, *inicio, *fin);
                    let rango = (*inicio, *fin);
                    nueva[p] = Ranura::Ocupada(clave, rango.0, rango.1);
                    proof {
                        lemma_colocar(nueva_antes, ncap as int, p as int, r);
                        lemma_posicion(vieja, c@, i as int);
                        assert forall|k: Seq<char>| #[trigger]
                            contiene_en(nueva@, k) implies vista_de(nueva@)[k] == vista_de(
                            vieja,
                        )[k] by {
                            if k == c@ {
                                assert(vista_de(nueva@)[k] == rango_de(r));
                            } else {
                                assert(vista_de(nueva@).contains_key(k));
                                assert(vista_de(nueva_antes).contains_key(k));
                                assert(contiene_en(nueva_antes, k));
                            }
                        }
                        assert forall|k: Seq<char>| #[trigger]
                            contiene_en(nueva@, k) implies exists|x: int|
                            0 <= x < i + 1 && #[trigger] vieja[x] is Ocupada && clave_de(vieja[x])
                                == k by {
                            if k == c@ {
                                assert(vieja[i as int] is Ocupada && clave_de(vieja[i as int])
                                    == k);
                            } else {
                                assert(vista_de(nueva@).contains_key(k));
                                assert(vista_de(nueva_antes).contains_key(k));
                                assert(contiene_en(nueva_antes, k));
                            }
                        }
                        assert forall|k: Seq<char>|
                            (exists|x: int|
                                0 <= x < i + 1 && #[trigger] vieja[x] is Ocupada && clave_de(
                                    vieja[x],
                                ) == k) implies #[trigger] contiene_en(nueva@, k) by {
                            let x = choose|x: int|
                                0 <= x < i + 1 && #[trigger] vieja[x] is Ocupada && clave_de(
                                    vieja[x],
                                ) == k;
                            if x < i {
                                assert(contiene_en(nueva_antes, k));
                                assert(vista_de(nueva_antes).contains_key(k));
                                assert(vista_de(nueva@).contains_key(k));
                            } else {
                                assert(k == c@);
                                assert(contiene_en(nueva@, clave_de(r)));
                            }
                        }
                    }
                },
                _ => {
                    proof {
                        assert(!(vieja[i as int] is Ocupada));
                        assert forall|k: Seq<char>|
                            (exists|x: int|
                                0 <= x < i + 1 && #[trigger] vieja[x] is Ocupada && clave_de(
                                    vieja[x],
                                ) == k) implies #[trigger] contiene_en(nueva@, k) by {
                            let x = choose|x: int|
                                0 <= x < i + 1 && #[trigger] vieja[x] is Ocupada && clave_de(
                                    vieja[x],
                                ) == k;
                            assert(x < i);
                            assert(exists|x2: int|
                                0 <= x2 < i && #[trigger] vieja[x2] is Ocupada && clave_de(
                                    vieja[x2],
                                ) == k);
                        }
                    }
                },
            }
            i = i + 1;
        }
        proof {
            assert(vieja.subrange(0, cap) =~= vieja);
        }
        self.tabla = nueva;
        self.capacidad = ncap;
        proof {
            assert forall|k: Seq<char>| #[trigger]
                contiene_en(self.tabla@, k) == contiene_en(vieja, k) by {
                if contiene_en(vieja, k) {
                    let x = choose|x: int|
                        0 <= x < vieja.len() && #[trigger] vieja[x] is Ocupada && clave_de(vieja[x])
                            == k;
                    assert(exists|x2: int|
                        0 <= x2 < cap && #[trigger] vieja[x2] is Ocupada && clave_de(vieja[x2])
                            == k);
                }
            }
            assert(self@ =~= old(self)@);
        }
    }

    /// Inserts a fresh key with its byte range. The caller keeps keys unique:
    /// inserting a live key is the caller's mistake, prevented here by
    /// contract. Doubles the capacity first whenever the insert could push
    /// the load factor above one half.
    pub fn insertar(&mut self, email: String, inicio: u64, fin: u64)
        requires
            old(self).bien_formada(),
            !old(self)@.contains_key(email@),
            4 * old(self).capacidad_de() <= usize::MAX as int,
        ensures
            final(self).bien_formada(),
            final(self)@ == old(self)@.insert(email@, (inicio, fin)),
            final(self).cuantos() == old(self).cuantos() + 1,
            old(self).capacidad_de() <= final(self).capacidad_de(),
            final(self).capacidad_de() == old(self).capacidad_de() || (old(self).cuantos()
                >= old(self).capacidad_de() / 2 && final(self).capacidad_de() == 2 * old(
                self,
            ).capacidad_de()),
            2 * final(self).cuantos() <= final(self).capacidad_de(),
    {
        if self.num_elementos >= self.capacidad / 2 {
            self.redimensionar();
        }
        let origen = self.calcular_indice(email.as_str());
        proof {
            lemma_cuenta_limites(self.tabla@);
        }
        let p = buscar_hueco(&self.tabla, origen, self.capacidad);
        let ghost t_antes = self.tabla@;
        let ghost r = Ranura::Ocupada(email, inicio, fin);
        let ghost capi = self.capacidad as int;
        proof {
            assert(clave_de(r) == email@);
            let jsk = choose|j: int|
                0 <= j < 2 * capi && #[trigger] sonda(origen as int, j, capi) == p as int && (
                forall|j2: int|
                    0 <= j2 < j ==> t_antes[#[trigger] sonda(origen as int, j2, capi)] is Ocupada);
            assert(sonda(origen_de(clave_de(r), capi), jsk, capi) == p as int);
            assert forall|j2: int| 0 <= j2 < jsk implies t_antes[#[trigger] sonda(
                origen_de(clave_de(r), capi),
                j2,
                capi,
            )] is Ocupada by {
                assert(t_antes[sonda(origen as int, j2, capi)] is Ocupada);
            }
        }
        self.tabla[p] = Ranura::Ocupada(email, inicio, fin);
        self.num_elementos = self.num_elementos + 1;
        proof {
            lemma_colocar(t_antes, capi, p as int, r);
        }
    }
}

/// The home slot of a key under a given capacity.
fn calcular_origen(email: &str, cap: usize) -> (r: usize)
    requires
        1 <= cap,
    ensures
        r as int == origen_de(email@, cap as int),
        r < cap,
{
    let h = hash_de(email);
    (h % (cap as u64)) as usize
}

} // verus!
