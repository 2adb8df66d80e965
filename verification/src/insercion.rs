//! Insertion of a flight into the AVL tree.

use vstd::prelude::*;
use crate::arbol::{
    altura, alturas_correctas, con_vuelo, contenido, es_avl, ordenado, Nodo, Vuelo,
};
use crate::rotaciones::{
    actualizar_altura, balance, con_altura, con_derecho, con_izquierdo, lema_acotado,
    lema_doble_derecha_equilibra, lema_doble_izquierda_equilibra, lema_hijos,
    lema_rotacion_derecha, lema_rotacion_izquierda, lema_simple_derecha_equilibra,
    lema_simple_izquierda_equilibra, obtener_balance, rotacion_derecha,
    rotacion_derecha_izquierda, rotacion_izquierda, rotacion_izquierda_derecha, rotar_derecha,
    rotar_derecha_izquierda, rotar_izquierda, rotar_izquierda_derecha,
};

verus! {

/// The rebalancing that insertion applies to a node whose height was just
/// updated, after `alt` went into one of its subtrees: nothing while the
/// balance stays within -1..1; otherwise a single rotation when `alt` went to
/// the outer side of the tall child (left-left, right-right), a double one when
/// it went to the inner side (left-right, right-left).
pub open spec fn reequilibrada_tras_insertar(n: Box<Nodo>, alt: u32) -> Box<Nodo> {
    if balance(n) > 1 && alt < n.izquierdo.unwrap().vuelo.altitud {
        rotacion_derecha(n)
    } else if balance(n) < -1 && alt > n.derecho.unwrap().vuelo.altitud {
        rotacion_izquierda(n)
    } else if balance(n) > 1 && alt > n.izquierdo.unwrap().vuelo.altitud {
        rotacion_izquierda_derecha(n)
    } else if balance(n) < -1 && alt < n.derecho.unwrap().vuelo.altitud {
        rotacion_derecha_izquierda(n)
    } else {
        n
    }
}

/// The tree that inserting `v` into `t` gives: a new leaf at the empty spot
/// where the altitude belongs, each node on the way back rebalanced by
/// `reequilibrada_tras_insertar`; when the altitude is taken, the subtree
/// holding it is returned as it was.
pub open spec fn tras_insertar(t: Option<Box<Nodo>>, v: Vuelo) -> Box<Nodo>
    decreases t,
{
    match t {
        None => Box::new(Nodo { vuelo: v, izquierdo: None, derecho: None, altura: 1 }),
        Some(n) => if v.altitud < n.vuelo.altitud {
            reequilibrada_tras_insertar(
                Box::new(con_altura(*con_izquierdo(n, Some(tras_insertar(n.izquierdo, v))))),
                v.altitud,
            )
        } else if v.altitud > n.vuelo.altitud {
            reequilibrada_tras_insertar(
                Box::new(con_altura(*con_derecho(n, Some(tras_insertar(n.derecho, v))))),
                v.altitud,
            )
        } else {
            n
        },
    }
}

/// The shape of a node after an altitude `alt` went into one of its AVL
/// subtrees and its height was updated: balance within -2..2, and a child two
/// levels taller than its sibling leans towards the side `alt` went to.
pub open spec fn listo_tras_insertar(n: Box<Nodo>, alt: u32) -> bool {
    let b = altura(n.izquierdo) - altura(n.derecho);
    &&& es_avl(n.izquierdo)
    &&& es_avl(n.derecho)
    &&& ordenado(Some(n))
    &&& alturas_correctas(Some(n))
    &&& -2 <= b <= 2
    &&& b == 2 ==> (n.izquierdo matches Some(l) && {
        &&& alt != l.vuelo.altitud
        &&& alt < l.vuelo.altitud ==> altura(l.izquierdo) == altura(l.derecho) + 1
        &&& alt > l.vuelo.altitud ==> altura(l.derecho) == altura(l.izquierdo) + 1
    })
    &&& b == -2 ==> (n.derecho matches Some(r) && {
        &&& alt != r.vuelo.altitud
        &&& alt < r.vuelo.altitud ==> altura(r.izquierdo) == altura(r.derecho) + 1
        &&& alt > r.vuelo.altitud ==> altura(r.derecho) == altura(r.izquierdo) + 1
    })
}

/// The rebalancing after an insertion gives an AVL tree with the same flights;
/// it changes nothing while the balance is within -1..1, and otherwise lowers
/// the node by one level.
pub proof fn lema_reequilibrada_tras_insertar(n: Box<Nodo>, alt: u32)
    requires
        listo_tras_insertar(n, alt),
    ensures
        es_avl(Some(reequilibrada_tras_insertar(n, alt))),
        contenido(Some(reequilibrada_tras_insertar(n, alt))) == contenido(Some(n)),
        -1 <= altura(n.izquierdo) - altura(n.derecho) <= 1 ==> reequilibrada_tras_insertar(n, alt)
            == n,
        altura(n.izquierdo) - altura(n.derecho) == 2 || altura(n.izquierdo) - altura(n.derecho)
            == -2 ==> altura(Some(reequilibrada_tras_insertar(n, alt))) + 1 == altura(Some(n)),
{
    lema_acotado(n.izquierdo);
    lema_acotado(n.derecho);
    let b = altura(n.izquierdo) - altura(n.derecho);
    assert(balance(n) == b);
    if b == 2 {
        let l = n.izquierdo.unwrap();
        if alt < l.vuelo.altitud {
            lema_rotacion_derecha(n);
            lema_simple_derecha_equilibra(n, rotacion_derecha(n));
        } else {
            let l2 = rotacion_izquierda(l);
            lema_rotacion_izquierda(l);
            let n3 = con_izquierdo(n, Some(l2));
            lema_rotacion_derecha(n3);
            lema_doble_derecha_equilibra(n, l2, n3, rotacion_derecha(n3));
        }
    } else if b == -2 {
        let r = n.derecho.unwrap();
        if alt > r.vuelo.altitud {
            lema_rotacion_izquierda(n);
            lema_simple_izquierda_equilibra(n, rotacion_izquierda(n));
        } else {
            let r2 = rotacion_derecha(r);
            lema_rotacion_derecha(r);
            let n3 = con_derecho(n, Some(r2));
            lema_rotacion_izquierda(n3);
            lema_doble_izquierda_equilibra(n, r2, n3, rotacion_izquierda(n3));
        }
    } else {
        assert(es_avl(Some(n)));
    }
}

/// What inserting `v` into an AVL tree gives: an AVL tree with the flights of
/// `t` plus `v` (the tree itself when the altitude is taken), at most one level
/// taller, leaning towards the new altitude when it grew.
#[verifier::spinoff_prover]
#[verifier::rlimit(40)]
pub proof fn lema_tras_insertar(t: Option<Box<Nodo>>, v: Vuelo)
    requires
        es_avl(t),
    ensures
        es_avl(Some(tras_insertar(t, v))),
        contenido(Some(tras_insertar(t, v))) == con_vuelo(contenido(t), v),
        contenido(t).dom().contains(v.altitud) ==> Some(tras_insertar(t, v)) == t,
        altura(t) <= altura(Some(tras_insertar(t, v))) <= altura(t) + 1,
        altura(Some(tras_insertar(t, v))) == altura(t) + 1 && t is Some ==> {
            let r = tras_insertar(t, v);
            &&& v.altitud != r.vuelo.altitud
            &&& v.altitud < r.vuelo.altitud ==> altura(r.izquierdo) == altura(r.derecho) + 1
            &&& v.altitud > r.vuelo.altitud ==> altura(r.derecho) == altura(r.izquierdo) + 1
        },
    decreases t,
{
    match t {
        None => {
            assert(contenido(Some(tras_insertar(t, v))) =~= con_vuelo(contenido(t), v));
        },
        Some(n0) => {
            lema_acotado(t);
            lema_hijos(t);
            let k = n0.vuelo.altitud;
            if v.altitud < k {
                lema_tras_insertar(n0.izquierdo, v);
                let c = Some(tras_insertar(n0.izquierdo, v));
                lema_acotado(c);
                let n2 = Box::new(con_altura(*con_izquierdo(n0, c)));
                assert forall|x: u32| #[trigger] contenido(c).dom().contains(x) implies x < k by {
                    if x != v.altitud {
                        assert(contenido(n0.izquierdo).dom().contains(x));
                    }
                }
                assert(contenido(Some(n2)) =~= con_vuelo(contenido(t), v)) by {
                    if contenido(t).dom().contains(v.altitud) {
                        if contenido(n0.derecho).dom().contains(v.altitud) {
                            assert(k < v.altitud);
                        }
                    }
                }
                if contenido(t).dom().contains(v.altitud) {
                    if contenido(n0.derecho).dom().contains(v.altitud) {
                        assert(k < v.altitud);
                    }
                    assert(contenido(n0.izquierdo).dom().contains(v.altitud));
                    assert(*n2 == *n0);
                }
                assert(listo_tras_insertar(n2, v.altitud));
                lema_reequilibrada_tras_insertar(n2, v.altitud);
            } else if v.altitud > k {
                lema_tras_insertar(n0.derecho, v);
                let c = Some(tras_insertar(n0.derecho, v));
                lema_acotado(c);
                let n2 = Box::new(con_altura(*con_derecho(n0, c)));
                assert forall|x: u32| #[trigger] contenido(c).dom().contains(x) implies k < x by {
                    if x != v.altitud {
                        assert(contenido(n0.derecho).dom().contains(x));
                    }
                }
                assert(contenido(Some(n2)) =~= con_vuelo(contenido(t), v)) by {
                    if contenido(t).dom().contains(v.altitud) {
                        if contenido(n0.izquierdo).dom().contains(v.altitud) {
                            assert(v.altitud < k);
                        }
                    }
                }
                if contenido(t).dom().contains(v.altitud) {
                    if contenido(n0.izquierdo).dom().contains(v.altitud) {
                        assert(v.altitud < k);
                    }
                    assert(contenido(n0.derecho).dom().contains(v.altitud));
                    assert(*n2 == *n0);
                }
                assert(listo_tras_insertar(n2, v.altitud));
                lema_reequilibrada_tras_insertar(n2, v.altitud);
            } else {
                assert(contenido(t).dom().contains(v.altitud));
            }
        },
    }
}

/// Inserts `vuelo` into the AVL tree `nodo_opt` and rebalances it. A flight at
/// an altitude already present is ignored: the tree comes back unchanged.
///
/// The result is `tras_insertar(nodo_opt, vuelo)`: an AVL tree holding the
/// flights of `nodo_opt` plus `vuelo`. Its height is that of `nodo_opt` or one
/// more; when it grew, the root leans towards the side where the new altitude
/// went.
pub fn insertar(nodo_opt: Option<Box<Nodo>>, vuelo: Vuelo) -> (r: Box<Nodo>)
    requires
        es_avl(nodo_opt),
    ensures
        r == tras_insertar(nodo_opt, vuelo),
        es_avl(Some(r)),
        contenido(Some(r)) == con_vuelo(contenido(nodo_opt), vuelo),
        contenido(nodo_opt).dom().contains(vuelo.altitud) ==> Some(r) == nodo_opt,
        altura(nodo_opt) <= altura(Some(r)) <= altura(nodo_opt) + 1,
        altura(Some(r)) == altura(nodo_opt) + 1 && nodo_opt is Some ==> {
            &&& vuelo.altitud != r.vuelo.altitud
            &&& vuelo.altitud < r.vuelo.altitud ==> altura(r.izquierdo) == altura(r.derecho) + 1
            &&& vuelo.altitud > r.vuelo.altitud ==> altura(r.derecho) == altura(r.izquierdo) + 1
        },
    decreases altura(nodo_opt),
{
    proof {
        lema_tras_insertar(nodo_opt, vuelo);
    }
    let altitud_nueva = vuelo.altitud;
    let ghost v = vuelo;

    let mut nodo = match nodo_opt {
        None => return Box::new(Nodo::nuevo(vuelo)),
        Some(n) => n,
    };
    let ghost n0 = nodo;

    if altitud_nueva < nodo.vuelo.altitud {
        nodo.izquierdo = Some(insertar(nodo.izquierdo.take(), vuelo));
    } else if altitud_nueva > nodo.vuelo.altitud {
        nodo.derecho = Some(insertar(nodo.derecho.take(), vuelo));
    } else {
        // Altitude already taken
        return nodo;
    }

    proof {
        lema_acotado(nodo.izquierdo);
        lema_acotado(nodo.derecho);
    }
    // Update the height
    actualizar_altura(&mut *nodo);
    let ghost n2 = nodo;
    proof {
        if v.altitud < n0.vuelo.altitud {
            assert(n2 == Box::new(con_altura(*con_izquierdo(n0, n2.izquierdo))));
        } else {
            assert(n2 == Box::new(con_altura(*con_derecho(n0, n2.derecho))));
        }
        assert(tras_insertar(nodo_opt, v) == reequilibrada_tras_insertar(n2, v.altitud));
    }

    // Balance factor
    let balance = obtener_balance(&*nodo);

    // Left-left
    if balance > 1 && altitud_nueva < nodo.izquierdo.as_ref().unwrap().vuelo.altitud {
        return rotar_derecha(nodo);
    }
    // Right-right
    if balance < -1 && altitud_nueva > nodo.derecho.as_ref().unwrap().vuelo.altitud {
        return rotar_izquierda(nodo);
    }
    // Left-right
    if balance > 1 && altitud_nueva > nodo.izquierdo.as_ref().unwrap().vuelo.altitud {
        return rotar_izquierda_derecha(nodo);
    }
    // Right-left
    if balance < -1 && altitud_nueva < nodo.derecho.as_ref().unwrap().vuelo.altitud {
        return rotar_derecha_izquierda(nodo);
    }
    nodo
}

} // verus!
