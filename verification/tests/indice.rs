use personas::tabla_hash::TablaHash;

#[test]
fn insertar_y_obtener_un_rango() {
    let mut t = TablaHash::new(8);
    t.insertar("a@x.com".to_string(), 0, 50);
    assert_eq!(t.obtener("a@x.com"), Some((0, 50)));
    assert_eq!(t.obtener("b@x.com"), None);
}

#[test]
fn obtener_en_tabla_vacia() {
    let t = TablaHash::new(4);
    assert_eq!(t.obtener("nadie@x.com"), None);
}

#[test]
fn eliminar_quita_solo_su_clave() {
    let mut t = TablaHash::new(8);
    t.insertar("a@x.com".to_string(), 0, 50);
    t.insertar("b@x.com".to_string(), 50, 90);
    t.insertar("c@x.com".to_string(), 90, 170);
    t.eliminar("b@x.com");
    assert_eq!(t.obtener("b@x.com"), None);
    assert_eq!(t.obtener("a@x.com"), Some((0, 50)));
    assert_eq!(t.obtener("c@x.com"), Some((90, 170)));
}

#[test]
fn eliminar_clave_ausente_no_cambia_nada() {
    let mut t = TablaHash::new(4);
    t.insertar("a@x.com".to_string(), 0, 50);
    t.eliminar("zz@x.com");
    assert_eq!(t.obtener("a@x.com"), Some((0, 50)));
}

#[test]
fn muchas_claves_con_colisiones_se_encuentran() {
    let mut t = TablaHash::new(2);
    for i in 0..40u64 {
        let clave = format!("usuario{}@x.com", i);
        t.insertar(clave, i * 10, i * 10 + 10);
    }
    for i in 0..40u64 {
        let clave = format!("usuario{}@x.com", i);
        assert_eq!(t.obtener(&clave), Some((i * 10, i * 10 + 10)));
    }
    assert_eq!(t.obtener("usuario40@x.com"), None);
}

#[test]
fn la_capacidad_solo_crece_duplicandose_y_la_carga_queda_en_mitad() {
    let mut t = TablaHash::new(1);
    let mut cap_anterior = t.capacidad();
    for i in 0..100u64 {
        let clave = format!("k{}@x.com", i);
        t.insertar(clave, i, i + 1);
        let cap = t.capacidad();
        assert!(cap == cap_anterior || cap == 2 * cap_anterior);
        assert!(cap >= cap_anterior);
        assert!(2 * t.elementos() <= cap);
        cap_anterior = cap;
    }
}

#[test]
fn buscar_tras_eliminar_sigue_sondeando() {
    // fill a small table so probe sequences overlap, then remove keys in the
    // middle of those sequences: the rest must still be found
    let mut t = TablaHash::new(2);
    for i in 0..10u64 {
        t.insertar(format!("p{}@x.com", i), i, i + 1);
    }
    for i in 0..10u64 {
        if i % 2 == 0 {
            t.eliminar(&format!("p{}@x.com", i));
        }
    }
    for i in 0..10u64 {
        let esperado = if i % 2 == 0 { None } else { Some((i, i + 1)) };
        assert_eq!(t.obtener(&format!("p{}@x.com", i)), esperado);
    }
}
