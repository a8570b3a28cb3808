use personas::errores::GestorError;
use personas::gestor_personas::GestorPersonas;
use personas::persona::Persona;

fn persona_con(email: &str, nombres: &str, direccion: &str) -> Persona {
    Persona {
        nombres: nombres.to_string(),
        apellidos: "Pérez".to_string(),
        compania: "ACME".to_string(),
        direccion: direccion.to_string(),
        ciudad: "Quito".to_string(),
        pais: "Ecuador".to_string(),
        provincia: "Pichincha".to_string(),
        telefono1: "0991234567".to_string(),
        telefono2: "022345678".to_string(),
        email: email.to_string(),
    }
}

fn tienda_vacia() -> GestorPersonas {
    GestorPersonas::new(Vec::new(), 500).unwrap()
}

#[test]
fn buscar_en_tienda_nueva_no_encuentra_nada() {
    let g = tienda_vacia();
    assert_eq!(g.busqueda("a@x.com").unwrap(), None);
    assert_eq!(g.busqueda("").unwrap(), None);
}

#[test]
fn tras_ingresar_se_encuentra_el_registro_igual() {
    let mut g = tienda_vacia();
    g.ingreso(persona_con("ana@x.com", "Ana", "Calle 1")).unwrap();
    let hallada = g.busqueda("ana@x.com").unwrap().unwrap();
    assert_eq!(hallada, persona_con("ana@x.com", "Ana", "Calle 1"));
}

#[test]
fn dos_registros_y_una_clave_ausente() {
    let mut g = tienda_vacia();
    g.ingreso(persona_con("a@x.com", "Ana", "Calle 1")).unwrap();
    g.ingreso(persona_con("b@x.com", "Benito", "Calle 2")).unwrap();
    assert_eq!(
        g.busqueda("a@x.com").unwrap().unwrap(),
        persona_con("a@x.com", "Ana", "Calle 1")
    );
    assert_eq!(
        g.busqueda("b@x.com").unwrap().unwrap(),
        persona_con("b@x.com", "Benito", "Calle 2")
    );
    assert_eq!(g.busqueda("c@x.com").unwrap(), None);
}

#[test]
fn modificar_con_cambio_de_clave() {
    let mut g = tienda_vacia();
    g.ingreso(persona_con("a@x.com", "Ana", "Calle 1")).unwrap();
    let nueva = persona_con("nueva@x.com", "Ana María", "Calle 9");
    assert_eq!(g.modificacion("a@x.com", nueva).unwrap(), true);
    assert_eq!(g.busqueda("a@x.com").unwrap(), None);
    assert_eq!(
        g.busqueda("nueva@x.com").unwrap().unwrap(),
        persona_con("nueva@x.com", "Ana María", "Calle 9")
    );
}

#[test]
fn modificar_con_forma_mas_corta_no_deja_restos() {
    let mut g = tienda_vacia();
    g.ingreso(persona_con(
        "a@x.com",
        "Ana",
        "Avenida de los Shyris N36-152 y Naciones Unidas",
    ))
    .unwrap();
    let largo_antes = g.datos().len();
    let corta = persona_con("a@x.com", "Ana", "C 1");
    assert_eq!(g.modificacion("a@x.com", corta).unwrap(), true);
    // rewritten in place: the container did not grow
    assert_eq!(g.datos().len(), largo_antes);
    // the lookup returns exactly the new record, nothing of the old one
    assert_eq!(
        g.busqueda("a@x.com").unwrap().unwrap(),
        persona_con("a@x.com", "Ana", "C 1")
    );
}

#[test]
fn modificar_con_forma_mas_larga_reubica_al_final() {
    let mut g = tienda_vacia();
    g.ingreso(persona_con("a@x.com", "Ana", "C 1")).unwrap();
    g.ingreso(persona_con("b@x.com", "Benito", "C 2")).unwrap();
    let largo_antes = g.datos().len();
    let larga = persona_con("a@x.com", "Ana", "Avenida de los Shyris N36-152");
    assert_eq!(g.modificacion("a@x.com", larga).unwrap(), true);
    // relocated: the container grew, and the neighbour record is intact
    assert!(g.datos().len() > largo_antes);
    assert_eq!(
        g.busqueda("a@x.com").unwrap().unwrap(),
        persona_con("a@x.com", "Ana", "Avenida de los Shyris N36-152")
    );
    assert_eq!(
        g.busqueda("b@x.com").unwrap().unwrap(),
        persona_con("b@x.com", "Benito", "C 2")
    );
}

#[test]
fn modificar_clave_inexistente_no_cambia_nada() {
    let mut g = tienda_vacia();
    g.ingreso(persona_con("a@x.com", "Ana", "Calle 1")).unwrap();
    let intento = persona_con("zz@x.com", "Nadie", "Ninguna");
    assert_eq!(g.modificacion("zz@x.com", intento).unwrap(), false);
    assert_eq!(
        g.busqueda("a@x.com").unwrap().unwrap(),
        persona_con("a@x.com", "Ana", "Calle 1")
    );
}

#[test]
fn reabrir_reproduce_las_busquedas() {
    let mut g = tienda_vacia();
    g.ingreso(persona_con("a@x.com", "Ana", "Calle 1")).unwrap();
    g.ingreso(persona_con("b@x.com", "Benito", "Calle 2")).unwrap();
    g.ingreso(persona_con("c@x.com", "Carla", "Calle 3")).unwrap();
    let bytes = g.datos().clone();
    let g2 = GestorPersonas::new(bytes, 16).unwrap();
    for email in ["a@x.com", "b@x.com", "c@x.com"] {
        assert_eq!(g.busqueda(email).unwrap(), g2.busqueda(email).unwrap());
        assert!(g2.busqueda(email).unwrap().is_some());
    }
    assert_eq!(g2.busqueda("d@x.com").unwrap(), None);
}

#[test]
fn reabrir_tras_crecer_con_la_misma_clave_sigue_de_acuerdo() {
    let mut g = tienda_vacia();
    g.ingreso(persona_con("a@x.com", "Ana", "C 1")).unwrap();
    g.ingreso(persona_con("b@x.com", "Benito", "C 2")).unwrap();
    let larga = persona_con("a@x.com", "Ana", "Avenida de los Shyris N36-152");
    assert_eq!(g.modificacion("a@x.com", larga).unwrap(), true);
    let g2 = GestorPersonas::new(g.datos().clone(), 8).unwrap();
    for email in ["a@x.com", "b@x.com", "c@x.com"] {
        assert_eq!(g.busqueda(email).unwrap(), g2.busqueda(email).unwrap());
    }
}

#[test]
fn abrir_con_bytes_corruptos_es_error_de_formato() {
    assert_eq!(
        GestorPersonas::new(vec![1, 2, 3], 4).unwrap_err(),
        GestorError::Formato
    );
}

#[test]
fn abrir_con_un_registro_a_medias_es_error_de_formato() {
    let mut g = tienda_vacia();
    g.ingreso(persona_con("a@x.com", "Ana", "Calle 1")).unwrap();
    let mut bytes = g.datos().clone();
    bytes.pop();
    assert_eq!(
        GestorPersonas::new(bytes, 4).unwrap_err(),
        GestorError::Formato
    );
}

#[test]
fn contiene_sigue_a_los_ingresos() {
    let mut g = tienda_vacia();
    assert!(!g.contiene("a@x.com"));
    g.ingreso(persona_con("a@x.com", "Ana", "Calle 1")).unwrap();
    assert!(g.contiene("a@x.com"));
    assert!(!g.contiene("b@x.com"));
}

#[test]
fn muchos_ingresos_con_indice_pequeno() {
    let mut g = GestorPersonas::new(Vec::new(), 1).unwrap();
    for i in 0..30 {
        let email = format!("u{}@x.com", i);
        g.ingreso(persona_con(&email, "X", "Y")).unwrap();
    }
    for i in 0..30 {
        let email = format!("u{}@x.com", i);
        assert_eq!(
            g.busqueda(&email).unwrap().unwrap(),
            persona_con(&email, "X", "Y")
        );
    }
}
