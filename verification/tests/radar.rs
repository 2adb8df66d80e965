use trafico_aereo::arbol::{Nodo, Vuelo};
use trafico_aereo::eliminacion::eliminar_vuelo;
use trafico_aereo::insercion::insertar;
use trafico_aereo::operaciones::{buscar_vuelo, encontrar_maximo, vuelos_en_rango};
use trafico_aereo::rotaciones::{
    actualizar_altura, obtener_altura, obtener_balance, rotar_derecha, rotar_izquierda,
};

fn vuelo(id: &str, altitud: u32) -> Vuelo {
    Vuelo { id: id.to_string(), altitud }
}

fn hoja(id: &str, altitud: u32) -> Option<Box<Nodo>> {
    Some(Box::new(Nodo::nuevo(vuelo(id, altitud))))
}

fn con_datos(datos: &[(&str, u32)]) -> Option<Box<Nodo>> {
    let mut radar: Option<Box<Nodo>> = None;
    for (id, alt) in datos {
        radar = Some(insertar(radar.take(), vuelo(id, *alt)));
    }
    radar
}

fn radar_de_ejemplo() -> Option<Box<Nodo>> {
    con_datos(&[
        ("AV123", 5000),
        ("UA456", 3000),
        ("IB101", 2000),
        ("AF999", 4000),
        ("TA222", 3500),
        ("AM777", 6000),
    ])
}

/// Checks order, cached heights and balance; returns (height, altitudes in order).
fn revisar(t: &Option<Box<Nodo>>) -> (i32, Vec<u32>) {
    match t {
        None => (0, Vec::new()),
        Some(n) => {
            let (hi, mut izq) = revisar(&n.izquierdo);
            let (hd, der) = revisar(&n.derecho);
            assert!(izq.iter().all(|k| *k < n.vuelo.altitud));
            assert!(der.iter().all(|k| *k > n.vuelo.altitud));
            assert!((hi - hd).abs() <= 1, "unbalanced at {}", n.vuelo.altitud);
            let h = 1 + hi.max(hd);
            assert_eq!(n.altura, h);
            izq.push(n.vuelo.altitud);
            izq.extend(der);
            (h, izq)
        }
    }
}

fn raiz(t: &Option<Box<Nodo>>) -> u32 {
    t.as_ref().unwrap().vuelo.altitud
}

fn izq(t: &Option<Box<Nodo>>) -> &Option<Box<Nodo>> {
    &t.as_ref().unwrap().izquierdo
}

fn der(t: &Option<Box<Nodo>>) -> &Option<Box<Nodo>> {
    &t.as_ref().unwrap().derecho
}

#[test]
fn nuevo_es_hoja_de_altura_uno() {
    let n = Nodo::nuevo(vuelo("AV123", 5000));
    assert_eq!(n.vuelo.id, "AV123");
    assert_eq!(n.vuelo.altitud, 5000);
    assert!(n.izquierdo.is_none());
    assert!(n.derecho.is_none());
    assert_eq!(n.altura, 1);
}

#[test]
fn altura_del_arbol_vacio_es_cero() {
    assert_eq!(obtener_altura(&None), 0);
    assert_eq!(obtener_altura(&hoja("X", 1)), 1);
}

#[test]
fn actualizar_altura_y_balance() {
    let mut n = Nodo::nuevo(vuelo("A", 10));
    n.izquierdo = Some(Box::new(Nodo { altura: 3, ..Nodo::nuevo(vuelo("B", 5)) }));
    n.derecho = hoja("C", 20);
    actualizar_altura(&mut n);
    assert_eq!(n.altura, 4);
    assert_eq!(obtener_balance(&n), 2);
    n.izquierdo = None;
    actualizar_altura(&mut n);
    assert_eq!(n.altura, 2);
    assert_eq!(obtener_balance(&n), -1);
}

#[test]
fn rotacion_derecha_sube_el_hijo_izquierdo() {
    // 30(20(10, 25), 40)
    let mut veinte = Nodo::nuevo(vuelo("B", 20));
    veinte.izquierdo = hoja("A", 10);
    veinte.derecho = hoja("C", 25);
    veinte.altura = 2;
    let mut treinta = Nodo::nuevo(vuelo("D", 30));
    treinta.izquierdo = Some(Box::new(veinte));
    treinta.derecho = hoja("E", 40);
    treinta.altura = 3;
    let x = Some(rotar_derecha(Box::new(treinta)));
    assert_eq!(raiz(&x), 20);
    assert_eq!(raiz(izq(&x)), 10);
    assert_eq!(raiz(der(&x)), 30);
    assert_eq!(raiz(izq(der(&x))), 25);
    assert_eq!(raiz(der(der(&x))), 40);
    let (h, orden) = revisar(&x);
    assert_eq!(h, 3);
    assert_eq!(orden, vec![10, 20, 25, 30, 40]);
}

#[test]
fn rotacion_izquierda_sube_el_hijo_derecho() {
    // 10(5, 20(15, 30))
    let mut veinte = Nodo::nuevo(vuelo("B", 20));
    veinte.izquierdo = hoja("C", 15);
    veinte.derecho = hoja("D", 30);
    veinte.altura = 2;
    let mut diez = Nodo::nuevo(vuelo("A", 10));
    diez.izquierdo = hoja("E", 5);
    diez.derecho = Some(Box::new(veinte));
    diez.altura = 3;
    let y = Some(rotar_izquierda(Box::new(diez)));
    assert_eq!(raiz(&y), 20);
    assert_eq!(raiz(izq(&y)), 10);
    assert_eq!(raiz(izq(izq(&y))), 5);
    assert_eq!(raiz(der(izq(&y))), 15);
    assert_eq!(raiz(der(&y)), 30);
    let (h, orden) = revisar(&y);
    assert_eq!(h, 3);
    assert_eq!(orden, vec![5, 10, 15, 20, 30]);
}

#[test]
fn insercion_paso_a_paso() {
    // 5000, 3000, 2000: left-left at 5000, right rotation
    let t = con_datos(&[("AV123", 5000), ("UA456", 3000), ("IB101", 2000)]);
    assert_eq!(raiz(&t), 3000);
    assert_eq!(raiz(izq(&t)), 2000);
    assert_eq!(raiz(der(&t)), 5000);
    // + 4000, + 3500: left-left at 5000 again
    let t = Some(insertar(t, vuelo("AF999", 4000)));
    let t = Some(insertar(t, vuelo("TA222", 3500)));
    assert_eq!(raiz(&t), 3000);
    assert_eq!(raiz(der(&t)), 4000);
    assert_eq!(raiz(izq(der(&t))), 3500);
    assert_eq!(raiz(der(der(&t))), 5000);
    revisar(&t);
    // + 6000: right-right at the root
    let t = Some(insertar(t, vuelo("AM777", 6000)));
    assert_eq!(raiz(&t), 4000);
    assert_eq!(raiz(izq(&t)), 3000);
    assert_eq!(raiz(izq(izq(&t))), 2000);
    assert_eq!(raiz(der(izq(&t))), 3500);
    assert_eq!(raiz(der(&t)), 5000);
    assert_eq!(raiz(der(der(&t))), 6000);
    let (h, orden) = revisar(&t);
    assert_eq!(h, 3);
    assert_eq!(orden, vec![2000, 3000, 3500, 4000, 5000, 6000]);
}

#[test]
fn insercion_izquierda_derecha_y_derecha_izquierda() {
    let t = con_datos(&[("A", 30), ("B", 10), ("C", 20)]);
    assert_eq!(raiz(&t), 20);
    assert_eq!(raiz(izq(&t)), 10);
    assert_eq!(raiz(der(&t)), 30);
    let t = con_datos(&[("A", 10), ("B", 30), ("C", 20)]);
    assert_eq!(raiz(&t), 20);
    assert_eq!(raiz(izq(&t)), 10);
    assert_eq!(raiz(der(&t)), 30);
    revisar(&t);
}

#[test]
fn altitud_repetida_se_ignora() {
    let t = con_datos(&[("AV123", 5000), ("UA456", 3000)]);
    let t = Some(insertar(t, vuelo("XX000", 5000)));
    let v = buscar_vuelo(&t, 5000).unwrap();
    assert_eq!(v.id, "AV123");
    let (_, orden) = revisar(&t);
    assert_eq!(orden, vec![3000, 5000]);
}

#[test]
fn busqueda_de_vuelos() {
    let radar = radar_de_ejemplo();
    let v = buscar_vuelo(&radar, 4000).unwrap();
    assert_eq!(v.id, "AF999");
    assert_eq!(v.altitud, 4000);
    assert!(buscar_vuelo(&radar, 9000).is_none());
    assert!(buscar_vuelo(&None, 4000).is_none());
}

#[test]
fn maximo_del_subarbol() {
    let radar = radar_de_ejemplo();
    let m = encontrar_maximo(radar.as_ref().unwrap());
    assert_eq!(m.altitud, 6000);
    assert_eq!(m.id, "AM777");
    let m = encontrar_maximo(izq(&radar).as_ref().unwrap());
    assert_eq!(m.altitud, 3500);
}

#[test]
fn eliminacion_de_hoja_y_de_nodo_con_dos_hijos() {
    let radar = radar_de_ejemplo();
    let radar = eliminar_vuelo(radar, 2000);
    assert!(buscar_vuelo(&radar, 2000).is_none());
    revisar(&radar);
    let radar = eliminar_vuelo(radar, 4000);
    assert!(buscar_vuelo(&radar, 4000).is_none());
    // the predecessor 3500 took the place of 4000
    assert_eq!(raiz(&radar), 3500);
    assert_eq!(buscar_vuelo(&radar, 3500).unwrap().id, "TA222");
    let (h, orden) = revisar(&radar);
    assert_eq!(h, 3);
    assert_eq!(orden, vec![3000, 3500, 5000, 6000]);
}

#[test]
fn eliminar_altitud_ausente_no_cambia_nada() {
    let radar = radar_de_ejemplo();
    let radar = eliminar_vuelo(radar, 1234);
    let (_, orden) = revisar(&radar);
    assert_eq!(orden, vec![2000, 3000, 3500, 4000, 5000, 6000]);
    assert!(eliminar_vuelo(None, 5).is_none());
}

#[test]
fn eliminar_nodo_con_un_hijo() {
    let t = con_datos(&[("A", 20), ("B", 10), ("C", 30), ("D", 40)]);
    let t = eliminar_vuelo(t, 30);
    assert_eq!(raiz(der(&t)), 40);
    let t = con_datos(&[("A", 20), ("B", 10), ("C", 30), ("D", 5)]);
    let t = eliminar_vuelo(t, 10);
    assert_eq!(raiz(izq(&t)), 5);
    let (_, orden) = revisar(&t);
    assert_eq!(orden, vec![5, 20, 30]);
}

#[test]
fn eliminar_reequilibra() {
    // removing 10 leaves the right side two levels taller
    let t = con_datos(&[("A", 20), ("B", 10), ("C", 30), ("D", 40)]);
    let t = eliminar_vuelo(t, 10);
    assert_eq!(raiz(&t), 30);
    let (h, orden) = revisar(&t);
    assert_eq!(h, 2);
    assert_eq!(orden, vec![20, 30, 40]);
    // right-left case
    let t = con_datos(&[("A", 20), ("B", 10), ("C", 30), ("D", 25)]);
    let t = eliminar_vuelo(t, 10);
    assert_eq!(raiz(&t), 25);
    revisar(&t);
    // left-right case
    let t = con_datos(&[("A", 20), ("B", 10), ("C", 30), ("D", 15)]);
    let t = eliminar_vuelo(t, 30);
    assert_eq!(raiz(&t), 15);
    revisar(&t);
}

#[test]
fn alerta_de_proximidad() {
    let radar = radar_de_ejemplo();
    let radar = eliminar_vuelo(radar, 2000);
    let radar = eliminar_vuelo(radar, 4000);
    assert_eq!(vuelos_en_rango(&radar, 3000, 6000), 4);
    assert_eq!(vuelos_en_rango(&radar, 3001, 5999), 2);
    assert_eq!(vuelos_en_rango(&radar, 7000, 9000), 0);
    assert_eq!(vuelos_en_rango(&radar, 6000, 3000), 0);
    assert_eq!(vuelos_en_rango(&radar, 0, u32::MAX), 4);
    assert_eq!(vuelos_en_rango(&None, 0, 10), 0);
}

#[test]
fn muchas_inserciones_mantienen_el_arbol_bajo() {
    let mut radar: Option<Box<Nodo>> = None;
    for i in 0..1000u32 {
        radar = Some(insertar(radar.take(), vuelo("V", i * 7)));
    }
    let (h, orden) = revisar(&radar);
    assert_eq!(orden.len(), 1000);
    // 2^((h+1)/2) <= n + 1
    assert!(1u64 << ((h + 1) / 2) <= 1001);
    assert_eq!(vuelos_en_rango(&radar, 0, 700), 101);
    for i in 0..500u32 {
        radar = eliminar_vuelo(radar, i * 14);
    }
    let (_, orden) = revisar(&radar);
    assert_eq!(orden.len(), 500);
    assert!(buscar_vuelo(&radar, 14).is_none());
    assert!(buscar_vuelo(&radar, 7).is_some());
}

#[test]
fn eliminar_tras_insertar_devuelve_las_mismas_altitudes() {
    let radar = radar_de_ejemplo();
    let radar = Some(insertar(radar, vuelo("NEW", 4500)));
    assert_eq!(buscar_vuelo(&radar, 4500).unwrap().id, "NEW");
    let radar = eliminar_vuelo(radar, 4500);
    let (_, orden) = revisar(&radar);
    assert_eq!(orden, vec![2000, 3000, 3500, 4000, 5000, 6000]);
}

#[test]
fn rango_no_supera_sus_altitudes() {
    let mut radar: Option<Box<Nodo>> = None;
    for i in 0..100u32 {
        radar = Some(insertar(radar.take(), vuelo("V", i)));
    }
    assert_eq!(vuelos_en_rango(&radar, 10, 19), 10);
    assert_eq!(vuelos_en_rango(&radar, 50, 50), 1);
    assert_eq!(vuelos_en_rango(&radar, 95, 1000), 5);
    assert_eq!(vuelos_en_rango(&radar, 20, 10), 0);
}

#[test]
fn insertar_sin_rotacion_cuando_el_balance_basta() {
    let t = con_datos(&[("UA456", 3000), ("IB101", 2000), ("AV123", 5000)]);
    let t = Some(insertar(t, vuelo("AF999", 4000)));
    assert_eq!(raiz(&t), 3000);
    assert_eq!(raiz(der(&t)), 5000);
    assert_eq!(raiz(izq(der(&t))), 4000);
    assert!(der(der(&t)).is_none());
    assert_eq!(t.as_ref().unwrap().altura, 3);
}

#[test]
fn eliminar_con_hijo_de_balance_cero_usa_rotacion_simple() {
    let t = con_datos(&[("20", 20), ("10", 10), ("30", 30), ("5", 5), ("15", 15)]);
    let t = eliminar_vuelo(t, 30);
    assert_eq!(raiz(&t), 10);
    assert_eq!(raiz(izq(&t)), 5);
    assert_eq!(raiz(der(&t)), 20);
    assert_eq!(raiz(izq(der(&t))), 15);
    assert!(der(der(&t)).is_none());
    let (h, _) = revisar(&t);
    assert_eq!(h, 3);
}

#[test]
fn eliminar_raiz_con_dos_hijos_toma_el_predecesor() {
    let t = con_datos(&[("UA456", 3000), ("IB101", 2000), ("AF999", 4000), ("TA222", 3500), ("AV123", 5000)]);
    let t = eliminar_vuelo(t, 3000);
    assert_eq!(raiz(&t), 4000);
    assert_eq!(raiz(izq(&t)), 2000);
    assert!(izq(izq(&t)).is_none());
    assert_eq!(raiz(der(izq(&t))), 3500);
    assert_eq!(raiz(der(&t)), 5000);
    revisar(&t);
}

#[test]
fn repetir_operaciones_no_cambia_el_arbol() {
    let t = radar_de_ejemplo();
    let antes = revisar(&t);
    let t = Some(insertar(t, vuelo("OTRO", 3500)));
    assert_eq!(revisar(&t), antes);
    assert_eq!(raiz(&t), 4000);
    let t = eliminar_vuelo(t, 2000);
    let una = revisar(&t);
    let t = eliminar_vuelo(t, 2000);
    assert_eq!(revisar(&t), una);
    assert_eq!(raiz(izq(&t)), 3000);
    assert_eq!(raiz(der(izq(&t))), 3500);
}

#[test]
fn rotar_en_un_sentido_y_en_el_otro_devuelve_el_arbol() {
    let t = radar_de_ejemplo();
    let antes = revisar(&t);
    let x = rotar_derecha(t.unwrap());
    let vuelta = Some(rotar_izquierda(x));
    assert_eq!(revisar(&vuelta), antes);
    assert_eq!(raiz(&vuelta), 4000);
    assert_eq!(raiz(izq(&vuelta)), 3000);
    assert_eq!(raiz(der(&vuelta)), 5000);
    let y = rotar_izquierda(vuelta.unwrap());
    let vuelta = Some(rotar_derecha(y));
    assert_eq!(revisar(&vuelta), antes);
    assert_eq!(raiz(&vuelta), 4000);
}
