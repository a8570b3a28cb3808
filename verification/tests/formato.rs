use personas::errores::GestorError;
use personas::persona::Persona;
use personas::serializacion::{deserializar, serializar};

fn persona_con(email: &str, nombres: &str) -> Persona {
    Persona {
        nombres: nombres.to_string(),
        apellidos: String::new(),
        compania: String::new(),
        direccion: String::new(),
        ciudad: String::new(),
        pais: String::new(),
        provincia: String::new(),
        telefono1: String::new(),
        telefono2: String::new(),
        email: email.to_string(),
    }
}

fn persona_vacia() -> Persona {
    persona_con("", "")
}

#[test]
fn serializar_el_registro_vacio_da_80_ceros() {
    let bytes = serializar(&persona_vacia());
    assert_eq!(bytes, vec![0u8; 80]);
}

#[test]
fn serializar_prefija_cada_campo_con_su_longitud() {
    let bytes = serializar(&persona_con("ab", ""));
    assert_eq!(bytes.len(), 82);
    // nine empty fields first: nine 8-byte zero prefixes
    assert_eq!(&bytes[0..72], &[0u8; 72][..]);
    // the email field: length 2, little-endian, then its bytes
    assert_eq!(&bytes[72..80], &[2, 0, 0, 0, 0, 0, 0, 0][..]);
    assert_eq!(&bytes[80..82], b"ab");
}

#[test]
fn deserializar_invierte_serializar() {
    let p = Persona {
        nombres: "Ana María".to_string(),
        apellidos: "Pérez".to_string(),
        compania: "ACME".to_string(),
        direccion: "Calle 1".to_string(),
        ciudad: "Quito".to_string(),
        pais: "Ecuador".to_string(),
        provincia: "Pichincha".to_string(),
        telefono1: "0991234567".to_string(),
        telefono2: "022345678".to_string(),
        email: "ana@x.com".to_string(),
    };
    let bytes = serializar(&p);
    let (q, fin) = deserializar(&bytes, 0).unwrap();
    assert_eq!(q, p);
    assert_eq!(fin, bytes.len());
}

#[test]
fn deserializar_desde_un_desplazamiento() {
    let p1 = persona_con("a@x.com", "Ana");
    let p2 = persona_con("b@x.com", "Benito");
    let mut bytes = serializar(&p1);
    let fin1 = bytes.len();
    bytes.extend_from_slice(&serializar(&p2));
    let (q1, m1) = deserializar(&bytes, 0).unwrap();
    assert_eq!(q1, p1);
    assert_eq!(m1, fin1);
    let (q2, m2) = deserializar(&bytes, fin1).unwrap();
    assert_eq!(q2, p2);
    assert_eq!(m2, bytes.len());
}

#[test]
fn deserializar_conserva_texto_no_ascii() {
    let p = persona_con("ñandú@ejemplo.com", "Łódź 東京");
    let bytes = serializar(&p);
    let (q, _) = deserializar(&bytes, 0).unwrap();
    assert_eq!(q.nombres, "Łódź 東京");
    assert_eq!(q.email, "ñandú@ejemplo.com");
}

#[test]
fn deserializar_rechaza_bytes_cortos() {
    let bytes = vec![1u8, 2, 3];
    assert_eq!(deserializar(&bytes, 0).unwrap_err(), GestorError::Formato);
}

#[test]
fn deserializar_rechaza_longitud_mayor_que_los_datos() {
    // a single field claiming 200 bytes that are not there
    let mut bytes = vec![0u8; 80];
    bytes[0] = 200;
    assert_eq!(deserializar(&bytes, 0).unwrap_err(), GestorError::Formato);
}

#[test]
fn deserializar_rechaza_utf8_invalido() {
    // first field: one byte long, and that byte is not valid UTF-8
    let mut bytes = vec![0u8; 81];
    bytes[0] = 1;
    bytes[8] = 0xFF;
    assert_eq!(deserializar(&bytes, 0).unwrap_err(), GestorError::Formato);
}

#[test]
fn descripcion_de_cada_error() {
    assert_eq!(GestorError::Io.descripcion(), "error de E/S");
    assert_eq!(GestorError::Formato.descripcion(), "error de formato de registro");
}
