//! The record format of the backing store.
//!
//! A record is the concatenation of its ten text fields in order, each field
//! encoded as an 8-byte little-endian count of its UTF-8 bytes followed by
//! those bytes. The format is deterministic and self-delimiting: record
//! boundaries are recoverable by decoding from the start of the byte store.

use vstd::bytes::*;
use vstd::prelude::*;
use vstd::slice::slice_subrange;
use vstd::string::StrSliceExecFns;
use vstd::utf8::*;

use crate::errores::GestorError;
use crate::persona::{Persona, PersonaVista};

verus! {

/// The byte encoding of one text field: the length of its UTF-8 form as an
/// 8-byte little-endian integer, then that form.
pub open spec fn codifica_campo(c: Seq<char>) -> Seq<u8> {
    spec_u64_to_le_bytes(encode_utf8(c).len() as u64) + encode_utf8(c)
}

/// A field is encodable when its UTF-8 form fits the 64-bit length prefix.
/// Every field held in an actual `String` is.
pub open spec fn campo_valido(c: Seq<char>) -> bool {
    encode_utf8(c).len() <= u64::MAX
}

/// The ten fields of a record, in the order they are serialized.
pub open spec fn campos(v: PersonaVista) -> Seq<Seq<char>> {
    seq![
        v.nombres,
        v.apellidos,
        v.compania,
        v.direccion,
        v.ciudad,
        v.pais,
        v.provincia,
        v.telefono1,
        v.telefono2,
        v.email,
    ]
}

/// The record whose fields are the given ten character sequences.
pub open spec fn vista_de_campos(f: Seq<Seq<char>>) -> PersonaVista
    recommends
        f.len() == 10,
{
    PersonaVista {
        nombres: f[0],
        apellidos: f[1],
        compania: f[2],
        direccion: f[3],
        ciudad: f[4],
        pais: f[5],
        provincia: f[6],
        telefono1: f[7],
        telefono2: f[8],
        email: f[9],
    }
}

/// Every field of the record is encodable.
pub open spec fn vista_valida(v: PersonaVista) -> bool {
    forall|i: int| 0 <= i < 10 ==> campo_valido(#[trigger] campos(v)[i])
}

/// The byte encoding of a sequence of fields, back to back.
pub open spec fn codifica_campos(f: Seq<Seq<char>>) -> Seq<u8>
    decreases f.len(),
{
    if f.len() == 0 {
        Seq::empty()
    } else {
        codifica_campo(f[0]) + codifica_campos(f.drop_first())
    }
}

/// The serialized form of a record: its ten fields, length-prefixed, in order.
pub open spec fn codifica(v: PersonaVista) -> Seq<u8> {
    codifica_campos(campos(v))
}

/// Decoding one field at a byte offset: when the bytes from `pos` hold a full
/// length prefix and as many bytes as it announces, and those bytes are valid
/// UTF-8, the result is the field's characters and the offset just past them.
pub open spec fn decodifica_campo_en(bytes: Seq<u8>, pos: int) -> Option<(Seq<char>, int)> {
    if 0 <= pos && pos + 8 <= bytes.len() {
        let n = spec_u64_from_le_bytes(bytes.subrange(pos, pos + 8)) as int;
        if pos + 8 + n <= bytes.len() && valid_utf8(bytes.subrange(pos + 8, pos + 8 + n)) {
            Some((decode_utf8(bytes.subrange(pos + 8, pos + 8 + n)), pos + 8 + n))
        } else {
            None
        }
    } else {
        None
    }
}

/// Decoding `cuantos` consecutive fields at a byte offset.
pub open spec fn decodifica_campos_en(bytes: Seq<u8>, pos: int, cuantos: nat) -> Option<
    (Seq<Seq<char>>, int),
>
    decreases cuantos,
{
    if cuantos == 0 {
        Some((Seq::empty(), pos))
    } else {
        match decodifica_campo_en(bytes, pos) {
            None => None,
            Some((c, sigue)) => match decodifica_campos_en(bytes, sigue, (cuantos - 1) as nat) {
                None => None,
                Some((resto, fin)) => Some((seq![c] + resto, fin)),
            },
        }
    }
}

/// Decoding one whole record at a byte offset.
pub open spec fn decodifica_en(bytes: Seq<u8>, pos: int) -> Option<(PersonaVista, int)> {
    match decodifica_campos_en(bytes, pos, 10) {
        None => None,
        Some((f, fin)) => Some((vista_de_campos(f), fin)),
    }
}

/// What one decoded field guarantees: it advances, stays in bounds, and the
/// bytes it covered are exactly the field's encoding.
proof fn lemma_decodifica_campo_sound(bytes: Seq<u8>, pos: int)
    requires
        decodifica_campo_en(bytes, pos) is Some,
    ensures
        ({
            let (c, fin) = decodifica_campo_en(bytes, pos)->Some_0;
            &&& pos + 8 <= fin <= bytes.len()
            &&& campo_valido(c)
            &&& bytes.subrange(pos, fin) == codifica_campo(c)
        }),
{
    let (c, fin) = decodifica_campo_en(bytes, pos)->Some_0;
    let pref = bytes.subrange(pos, pos + 8);
    let n = spec_u64_from_le_bytes(pref) as int;
    let cuerpo = bytes.subrange(pos + 8, pos + 8 + n);
    lemma_auto_spec_u64_to_from_le_bytes();
    decode_utf8_encode_utf8(cuerpo);
    assert(encode_utf8(c) == cuerpo);
    assert(campo_valido(c));
    assert(spec_u64_to_le_bytes(n as u64) == pref);
    assert(bytes.subrange(pos, fin) =~= pref + cuerpo);
}

/// The converse: wherever a valid field encoding lies, decoding finds exactly
/// that field and stops exactly past it.
proof fn lemma_decodifica_campo_completo(bytes: Seq<u8>, pos: int, c: Seq<char>)
    requires
        0 <= pos,
        campo_valido(c),
        pos + codifica_campo(c).len() <= bytes.len(),
        bytes.subrange(pos, pos + codifica_campo(c).len()) == codifica_campo(c),
    ensures
        decodifica_campo_en(bytes, pos) == Some((c, pos + codifica_campo(c).len())),
{
    let enc = encode_utf8(c);
    let n: u64 = enc.len() as u64;
    lemma_auto_spec_u64_to_from_le_bytes();
    assert(spec_u64_to_le_bytes(n).len() == 8);
    let total = codifica_campo(c).len();
    assert(total == 8 + enc.len());
    assert(bytes.subrange(pos, pos + 8) =~= codifica_campo(c).subrange(0, 8));
    assert(codifica_campo(c).subrange(0, 8) =~= spec_u64_to_le_bytes(n));
    assert(spec_u64_from_le_bytes(bytes.subrange(pos, pos + 8)) == n);
    assert(bytes.subrange(pos + 8, pos + 8 + n as int) =~= codifica_campo(c).subrange(
        8,
        total as int,
    ));
    assert(codifica_campo(c).subrange(8, total as int) =~= enc);
    encode_utf8_valid_utf8(c);
    encode_utf8_decode_utf8(c);
}

/// Soundness over a run of fields: a successful decode covers exactly the
/// encoding of the fields it returned.
proof fn lemma_decodifica_campos_sound(bytes: Seq<u8>, pos: int, cuantos: nat)
    requires
        decodifica_campos_en(bytes, pos, cuantos) is Some,
        0 <= pos <= bytes.len(),
    ensures
        ({
            let (f, fin) = decodifica_campos_en(bytes, pos, cuantos)->Some_0;
            &&& f.len() == cuantos
            &&& pos + 8 * cuantos <= fin <= bytes.len()
            &&& (forall|i: int| 0 <= i < f.len() ==> campo_valido(#[trigger] f[i]))
            &&& bytes.subrange(pos, fin) == codifica_campos(f)
            &&& codifica_campos(f).len() == fin - pos
        }),
    decreases cuantos,
{
    let (f, fin) = decodifica_campos_en(bytes, pos, cuantos)->Some_0;
    if cuantos == 0 {
        assert(bytes.subrange(pos, fin) =~= codifica_campos(f));
    } else {
        let (c, sigue) = decodifica_campo_en(bytes, pos)->Some_0;
        lemma_decodifica_campo_sound(bytes, pos);
        lemma_decodifica_campos_sound(bytes, sigue, (cuantos - 1) as nat);
        let (resto, fin2) = decodifica_campos_en(bytes, sigue, (cuantos - 1) as nat)->Some_0;
        assert(f =~= seq![c] + resto);
        assert(f.drop_first() =~= resto);
        assert(f[0] == c);
        assert(bytes.subrange(pos, fin) =~= bytes.subrange(pos, sigue) + bytes.subrange(
            sigue,
            fin,
        ));
        assert(codifica_campos(f) == codifica_campo(c) + codifica_campos(resto));
    }
}

/// Completeness over a run of fields: wherever their encodings lie back to
/// back, decoding returns exactly those fields.
proof fn lemma_decodifica_campos_completo(bytes: Seq<u8>, pos: int, f: Seq<Seq<char>>)
    requires
        0 <= pos,
        forall|i: int| 0 <= i < f.len() ==> campo_valido(#[trigger] f[i]),
        pos + codifica_campos(f).len() <= bytes.len(),
        bytes.subrange(pos, pos + codifica_campos(f).len()) == codifica_campos(f),
    ensures
        decodifica_campos_en(bytes, pos, f.len()) == Some((f, pos + codifica_campos(f).len())),
    decreases f.len(),
{
    if f.len() == 0 {
        assert(f =~= Seq::<Seq<char>>::empty());
    } else {
        let c = f[0];
        let resto = f.drop_first();
        let lc = codifica_campo(c).len() as int;
        let lr = codifica_campos(resto).len() as int;
        assert(codifica_campos(f) == codifica_campo(c) + codifica_campos(resto));
        assert(bytes.subrange(pos, pos + lc) =~= codifica_campo(c));
        lemma_decodifica_campo_completo(bytes, pos, c);
        assert forall|i: int|
            0 <= i < lr implies bytes.subrange(pos + lc, pos + lc + lr)[i] == codifica_campos(
            resto,
        )[i] by {
            assert(bytes.subrange(pos, pos + lc + lr)[lc + i] == codifica_campos(f)[lc + i]);
        }
        assert(bytes.subrange(pos + lc, pos + lc + lr) =~= codifica_campos(resto));
        lemma_decodifica_campos_completo(bytes, pos + lc, resto);
        assert(f =~= seq![c] + resto);
    }
}

/// Soundness at record level: a successful decode covers exactly the record's
/// serialized form, which is at least its ten length prefixes long.
pub proof fn lemma_decodifica_sound(bytes: Seq<u8>, pos: int)
    requires
        decodifica_en(bytes, pos) is Some,
        0 <= pos <= bytes.len(),
    ensures
        ({
            let (v, fin) = decodifica_en(bytes, pos)->Some_0;
            &&& pos + 80 <= fin <= bytes.len()
            &&& vista_valida(v)
            &&& bytes.subrange(pos, fin) == codifica(v)
            &&& codifica(v).len() == fin - pos
        }),
{
    let (f, fin) = decodifica_campos_en(bytes, pos, 10)->Some_0;
    lemma_decodifica_campos_sound(bytes, pos, 10);
    assert(campos(vista_de_campos(f)) =~= f);
}

/// Completeness at record level: wherever a record's serialized form lies,
/// decoding returns exactly that record.
pub proof fn lemma_decodifica_codifica(bytes: Seq<u8>, pos: int, v: PersonaVista)
    requires
        0 <= pos,
        vista_valida(v),
        pos + codifica(v).len() <= bytes.len(),
        bytes.subrange(pos, pos + codifica(v).len()) == codifica(v),
    ensures
        decodifica_en(bytes, pos) == Some((v, pos + codifica(v).len())),
{
    lemma_decodifica_campos_completo(bytes, pos, campos(v));
    assert(vista_de_campos(campos(v)) == v);
}

/// Decoding depends only on the bytes it covered: the same result holds in
/// any byte sequence that agrees on that range.
pub proof fn lemma_decodifica_marco(b1: Seq<u8>, b2: Seq<u8>, pos: int)
    requires
        0 <= pos <= b1.len(),
        decodifica_en(b1, pos) is Some,
        decodifica_en(b1, pos)->Some_0.1 <= b2.len(),
        b2.subrange(pos, decodifica_en(b1, pos)->Some_0.1) == b1.subrange(
            pos,
            decodifica_en(b1, pos)->Some_0.1,
        ),
    ensures
        decodifica_en(b2, pos) == decodifica_en(b1, pos),
{
    let (v, fin) = decodifica_en(b1, pos)->Some_0;
    lemma_decodifica_sound(b1, pos);
    lemma_decodifica_codifica(b2, pos, v);
}

/// Serialized forms are unambiguous: equal encodings come from equal records.
pub proof fn lemma_codifica_inyectiva(v1: PersonaVista, v2: PersonaVista)
    requires
        vista_valida(v1),
        vista_valida(v2),
        codifica(v1) == codifica(v2),
    ensures
        v1 == v2,
{
    let bytes = codifica(v1);
    assert(bytes.subrange(0, codifica(v1).len() as int) =~= codifica(v1));
    lemma_decodifica_codifica(bytes, 0, v1);
    lemma_decodifica_codifica(bytes, 0, v2);
}

/// Appends one field's encoding to the output.
fn agrega_campo(salida: &mut Vec<u8>, campo: &str)
    ensures
        final(salida)@ == old(salida)@ + codifica_campo(campo@),
        campo_valido(campo@),
{
    let mut cuerpo = campo.as_bytes_vec();
    let n = cuerpo.len();
    let mut prefijo = u64_to_le_bytes(n as u64);
    salida.append(&mut prefijo);
    salida.append(&mut cuerpo);
    proof {
        assert(salida@ =~= old(salida)@ + codifica_campo(campo@));
    }
}

/// Serializes one record into its byte form.
pub fn serializar(p: &Persona) -> (r: Vec<u8>)
    ensures
        r@ == codifica(p@),
        vista_valida(p@),
        80 <= r@.len(),
{
    let mut r: Vec<u8> = Vec::new();
    agrega_campo(&mut r, p.nombres.as_str());
    agrega_campo(&mut r, p.apellidos.as_str());
    agrega_campo(&mut r, p.compania.as_str());
    agrega_campo(&mut r, p.direccion.as_str());
    agrega_campo(&mut r, p.ciudad.as_str());
    agrega_campo(&mut r, p.pais.as_str());
    agrega_campo(&mut r, p.provincia.as_str());
    agrega_campo(&mut r, p.telefono1.as_str());
    agrega_campo(&mut r, p.telefono2.as_str());
    agrega_campo(&mut r, p.email.as_str());
    proof {
        lemma_auto_spec_u64_to_from_le_bytes();
        lemma_codifica_desplegada(p@);
        assert(r@ =~= codifica(p@));
        assert(vista_valida(p@)) by {
            assert(forall|i: int| 0 <= i < 10 ==> campo_valido(#[trigger] campos(p@)[i]));
        }
    }
    r
}

/// Relies on core::str::from_utf8: it succeeds exactly on valid UTF-8 input,
/// and the text it returns is the text those bytes encode.
#[verifier::external_body]
fn cadena_desde_utf8(b: &[u8]) -> (r: Option<String>)
    ensures
        match r {
            Some(s) => encode_utf8(s@) == b@,
            None => !valid_utf8(b@),
        },
{
    match core::str::from_utf8(b) {
        Ok(s) => Some(s.to_owned()),
        Err(_) => None,
    }
}

/// Reads one length-prefixed field at the given offset.
fn leer_campo(bytes: &Vec<u8>, desde: usize) -> (r: Result<(String, usize), GestorError>)
    requires
        desde <= bytes@.len(),
    ensures
        match r {
            Ok((s, fin)) => decodifica_campo_en(bytes@, desde as int) == Some((s@, fin as int))
                && desde + 8 <= fin <= bytes@.len(),
            Err(e) => decodifica_campo_en(bytes@, desde as int) is None && e
                == GestorError::Formato,
        },
{
    if bytes.len() - desde < 8 {
        return Err(GestorError::Formato);
    }
    let prefijo = slice_subrange(bytes.as_slice(), desde, desde + 8);
    let n64 = u64_from_le_bytes(prefijo);
    let disponible = bytes.len() - desde - 8;
    if n64 > disponible as u64 {
        return Err(GestorError::Formato);
    }
    let n = n64 as usize;
    let cuerpo = slice_subrange(bytes.as_slice(), desde + 8, desde + 8 + n);
    match cadena_desde_utf8(cuerpo) {
        Some(s) => {
            proof {
                encode_utf8_valid_utf8(s@);
                encode_utf8_decode_utf8(s@);
            }
            Ok((s, desde + 8 + n))
        },
        None => Err(GestorError::Formato),
    }
}

/// Reads `cuantos` consecutive fields starting at the given offset.
fn leer_campos(bytes: &Vec<u8>, desde: usize, cuantos: usize) -> (r: Result<
    (Vec<String>, usize),
    GestorError,
>)
    requires
        desde <= bytes@.len(),
    ensures
        match r {
            Ok((c, fin)) => decodifica_campos_en(bytes@, desde as int, cuantos as nat) == Some(
                (c.deep_view(), fin as int),
            ) && c@.len() == cuantos && desde <= fin <= bytes@.len(),
            Err(e) => decodifica_campos_en(bytes@, desde as int, cuantos as nat) is None && e
                == GestorError::Formato,
        },
{
    let mut c: Vec<String> = Vec::new();
    let mut pos: usize = desde;
    let mut k: usize = 0;
    while k < cuantos
        invariant
            desde <= pos <= bytes@.len(),
            k <= cuantos,
            c@.len() == k,
            decodifica_campos_en(bytes@, desde as int, cuantos as nat) == (
            match decodifica_campos_en(bytes@, pos as int, (cuantos - k) as nat) {
                None => None::<(Seq<Seq<char>>, int)>,
                Some((f2, fin2)) => Some((c.deep_view() + f2, fin2)),
            }),
        decreases cuantos - k,
    {
        match leer_campo(bytes, pos) {
            Err(e) => {
                return Err(e);
            },
            Ok((s, fin)) => {
                let ghost m = (cuantos - k) as nat;
                let ghost vieja = c.deep_view();
                proof {
                    assert(decodifica_campos_en(bytes@, pos as int, m) == (
                    match decodifica_campos_en(bytes@, fin as int, (m - 1) as nat) {
                        None => None::<(Seq<Seq<char>>, int)>,
                        Some((f2, fin2)) => Some((seq![s@] + f2, fin2)),
                    }));
                }
                c.push(s);
                proof {
                    assert(c.deep_view() =~= vieja.push(s@));
                    if decodifica_campos_en(bytes@, fin as int, (m - 1) as nat) is Some {
                        let (f2, fin2) = decodifica_campos_en(
                            bytes@,
                            fin as int,
                            (m - 1) as nat,
                        )->Some_0;
                        assert(vieja.push(s@) + f2 =~= vieja + (seq![s@] + f2));
                    }
                }
                pos = fin;
                k = k + 1;
            },
        }
    }
    proof {
        assert(c.deep_view() + Seq::<Seq<char>>::empty() =~= c.deep_view());
    }
    Ok((c, pos))
}

/// Deserializes one record at the given offset. It succeeds exactly where a
/// record's serialized form lies, and covers exactly that form.
pub fn deserializar(bytes: &Vec<u8>, desde: usize) -> (r: Result<(Persona, usize), GestorError>)
    requires
        desde <= bytes@.len(),
    ensures
        match r {
            Ok((p, fin)) => decodifica_en(bytes@, desde as int) == Some((p@, fin as int)) && desde
                + 80 <= fin <= bytes@.len() && vista_valida(p@) && bytes@.subrange(
                desde as int,
                fin as int,
            ) == codifica(p@) && codifica(p@).len() == fin - desde,
            Err(e) => decodifica_en(bytes@, desde as int) is None && e == GestorError::Formato,
        },
{
    match leer_campos(bytes, desde, 10) {
        Err(e) => Err(e),
        Ok((c, fin)) => {
            let p = Persona {
                nombres: c[0].clone(),
                apellidos: c[1].clone(),
                compania: c[2].clone(),
                direccion: c[3].clone(),
                ciudad: c[4].clone(),
                pais: c[5].clone(),
                provincia: c[6].clone(),
                telefono1: c[7].clone(),
                telefono2: c[8].clone(),
                email: c[9].clone(),
            };
            proof {
                let f = c.deep_view();
                assert(f.len() == 10);
                assert(p@ == vista_de_campos(f));
                lemma_decodifica_sound(bytes@, desde as int);
            }
            Ok((p, fin))
        },
    }
}

/// A record's serialized form, written out field by field.
proof fn lemma_codifica_desplegada(v: PersonaVista)
    ensures
        codifica(v) == codifica_campo(v.nombres) + (codifica_campo(v.apellidos) + (codifica_campo(
            v.compania,
        ) + (codifica_campo(v.direccion) + (codifica_campo(v.ciudad) + (codifica_campo(v.pais)
            + (codifica_campo(v.provincia) + (codifica_campo(v.telefono1) + (codifica_campo(
            v.telefono2,
        ) + codifica_campo(v.email))))))))),
{
    let f = campos(v);
    assert(f.drop_first() =~= seq![
        v.apellidos,
        v.compania,
        v.direccion,
        v.ciudad,
        v.pais,
        v.provincia,
        v.telefono1,
        v.telefono2,
        v.email,
    ]);
    let f1 = f.drop_first();
    assert(f1.drop_first() =~= seq![
        v.compania,
        v.direccion,
        v.ciudad,
        v.pais,
        v.provincia,
        v.telefono1,
        v.telefono2,
        v.email,
    ]);
    let f2 = f1.drop_first();
    assert(f2.drop_first() =~= seq![
        v.direccion,
        v.ciudad,
        v.pais,
        v.provincia,
        v.telefono1,
        v.telefono2,
        v.email,
    ]);
    let f3 = f2.drop_first();
    assert(f3.drop_first() =~= seq![
        v.ciudad,
        v.pais,
        v.provincia,
        v.telefono1,
        v.telefono2,
        v.email,
    ]);
    let f4 = f3.drop_first();
    assert(f4.drop_first() =~= seq![v.pais, v.provincia, v.telefono1, v.telefono2, v.email]);
    let f5 = f4.drop_first();
    assert(f5.drop_first() =~= seq![v.provincia, v.telefono1, v.telefono2, v.email]);
    let f6 = f5.drop_first();
    assert(f6.drop_first() =~= seq![v.telefono1, v.telefono2, v.email]);
    let f7 = f6.drop_first();
    assert(f7.drop_first() =~= seq![v.telefono2, v.email]);
    let f8 = f7.drop_first();
    assert(f8.drop_first() =~= seq![v.email]);
    let f9 = f8.drop_first();
    assert(f9.drop_first() =~= Seq::<Seq<char>>::empty());
    assert(codifica_campos(f9.drop_first()) == Seq::<u8>::empty());
    assert(codifica_campos(f9) =~= codifica_campo(v.email));
    assert(codifica_campos(f8) == codifica_campo(v.telefono2) + codifica_campos(f9));
    assert(codifica_campos(f7) == codifica_campo(v.telefono1) + codifica_campos(f8));
    assert(codifica_campos(f6) == codifica_campo(v.provincia) + codifica_campos(f7));
    assert(codifica_campos(f5) == codifica_campo(v.pais) + codifica_campos(f6));
    assert(codifica_campos(f4) == codifica_campo(v.ciudad) + codifica_campos(f5));
    assert(codifica_campos(f3) == codifica_campo(v.direccion) + codifica_campos(f4));
    assert(codifica_campos(f2) == codifica_campo(v.compania) + codifica_campos(f3));
    assert(codifica_campos(f1) == codifica_campo(v.apellidos) + codifica_campos(f2));
    assert(codifica_campos(f) == codifica_campo(v.nombres) + codifica_campos(f1));
}

} // verus!
