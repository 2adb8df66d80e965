//! Removal of a flight from the AVL tree.

use vstd::prelude::*;
use crate::arbol::{
    altura, alturas_correctas, contenido, es_avl, extremo_derecho, mayor, ordenado, Nodo, Vuelo,
};
use crate::operaciones::encontrar_maximo;
use crate::rotaciones::{
    actualizar_altura, balance, con_altura, con_derecho, con_izquierdo, lema_acotado,
    lema_doble_derecha_equilibra, lema_doble_izquierda_equilibra, lema_hijos,
    lema_rotacion_derecha, lema_rotacion_izquierda, lema_simple_derecha_equilibra,
    lema_simple_izquierda_equilibra, obtener_balance, rotacion_derecha,
    rotacion_derecha_izquierda, rotacion_izquierda, rotacion_izquierda_derecha, rotar_derecha,
    rotar_derecha_izquierda, rotar_izquierda, rotar_izquierda_derecha,
};

verus! {

/// The state of a node after a removal below it, before rebalancing: both
/// subtrees are AVL trees, the node is ordered, and its subtree heights fit the
/// height `h0` the node had before the removal.
pub open spec fn listo_para_reequilibrar(n: Box<Nodo>, h0: nat) -> bool {
    let hi = altura(n.izquierdo) as int;
    let hd = altura(n.derecho) as int;
    let h = 1 + mayor(hi, hd);
    &&& es_avl(n.izquierdo)
    &&& es_avl(n.derecho)
    &&& ordenado(Some(n))
    &&& -2 <= hi - hd <= 2
    &&& -1 <= hi - hd <= 1 ==> h <= h0 <= h + 1
    &&& hi - hd == 2 ==> h0 == hi + 1
    &&& hi - hd == -2 ==> h0 == hd + 1
}

/// The rebalancing that removal applies to a node whose height was just
/// updated: nothing while the balance stays within -1..1; otherwise a single
/// rotation when the tall child does not lean inwards (its balance is 0 or
/// leans outwards), a double one when it leans inwards.
pub open spec fn reequilibrada(n: Box<Nodo>) -> Box<Nodo> {
    if balance(n) > 1 && balance(n.izquierdo.unwrap()) >= 0 {
        rotacion_derecha(n)
    } else if balance(n) > 1 && balance(n.izquierdo.unwrap()) < 0 {
        rotacion_izquierda_derecha(n)
    } else if balance(n) < -1 && balance(n.derecho.unwrap()) <= 0 {
        rotacion_izquierda(n)
    } else if balance(n) < -1 && balance(n.derecho.unwrap()) > 0 {
        rotacion_derecha_izquierda(n)
    } else {
        n
    }
}

/// The tree that removing `altitud` from `t` gives. The node holding it is
/// replaced by its only child, or by nothing when it has none; a node with two
/// children takes the flight of the rightmost node of its left subtree (the
/// in-order predecessor), which is removed from there. Every node on the way
/// back is rebalanced by `reequilibrada`. A missing altitude changes nothing
/// but the recomputed heights.
pub open spec fn tras_eliminar(t: Option<Box<Nodo>>, altitud: u32) -> Option<Box<Nodo>>
    decreases t,
{
    match t {
        None => None,
        Some(n) => if altitud < n.vuelo.altitud {
            Some(
                reequilibrada(
                    Box::new(con_altura(*con_izquierdo(n, tras_eliminar(n.izquierdo, altitud)))),
                ),
            )
        } else if altitud > n.vuelo.altitud {
            Some(
                reequilibrada(
                    Box::new(con_altura(*con_derecho(n, tras_eliminar(n.derecho, altitud)))),
                ),
            )
        } else if n.izquierdo is None {
            n.derecho
        } else if n.derecho is None {
            n.izquierdo
        } else {
            let p = extremo_derecho(n.izquierdo.unwrap());
            Some(
                reequilibrada(
                    Box::new(
                        con_altura(
                            Nodo {
                                vuelo: p,
                                izquierdo: tras_eliminar(n.izquierdo, p.altitud),
                                derecho: n.derecho,
                                altura: n.altura,
                            },
                        ),
                    ),
                ),
            )
        },
    }
}

/// The rebalancing after a removal gives an AVL tree with the same flights
/// whose height fits `h0`; it changes nothing while the balance is within
/// -1..1.
pub proof fn lema_reequilibrada(n: Box<Nodo>, h0: nat)
    requires
        listo_para_reequilibrar(n, h0),
        alturas_correctas(Some(n)),
    ensures
        es_avl(Some(reequilibrada(n))),
        contenido(Some(reequilibrada(n))) == contenido(Some(n)),
        altura(Some(reequilibrada(n))) <= h0 <= altura(Some(reequilibrada(n))) + 1,
        -1 <= altura(n.izquierdo) - altura(n.derecho) <= 1 ==> reequilibrada(n) == n,
{
    lema_acotado(n.izquierdo);
    lema_acotado(n.derecho);
    let b = altura(n.izquierdo) - altura(n.derecho);
    assert(balance(n) == b);
    if b == 2 {
        let l = n.izquierdo.unwrap();
        assert(balance(l) == altura(l.izquierdo) - altura(l.derecho));
        if balance(l) >= 0 {
            lema_rotacion_derecha(n);
            lema_simple_derecha_equilibra(n, rotacion_derecha(n));
        } else {
            let l2 = rotacion_izquierda(l);
            lema_rotacion_izquierda(l);
            let n3 = con_izquierdo(n, Some(l2));
            lema_rotacion_derecha(n3);
            lema_doble_derecha_equilibra(n, l2, n3, rotacion_derecha(n3));
        }
    } else if b == -2 {
        let r = n.derecho.unwrap();
        assert(balance(r) == altura(r.izquierdo) - altura(r.derecho));
        if balance(r) <= 0 {
            lema_rotacion_izquierda(n);
            lema_simple_izquierda_equilibra(n, rotacion_izquierda(n));
        } else {
            let r2 = rotacion_derecha(r);
            lema_rotacion_derecha(r);
            let n3 = con_derecho(n, Some(r2));
            lema_rotacion_izquierda(n3);
            lema_doble_izquierda_equilibra(n, r2, n3, rotacion_izquierda(n3));
        }
    } else {
        assert(es_avl(Some(n)));
    }
}

/// What removing `altitud` from an AVL tree gives: an AVL tree with the flights
/// of `t` but the one at `altitud` (the tree itself when there is none), at
/// most one level lower.
#[verifier::spinoff_prover]
pub proof fn lema_tras_eliminar(t: Option<Box<Nodo>>, altitud: u32)
    requires
        es_avl(t),
    ensures
        es_avl(tras_eliminar(t, altitud)),
        contenido(tras_eliminar(t, altitud)) == contenido(t).remove(altitud),
        !contenido(t).dom().contains(altitud) ==> tras_eliminar(t, altitud) == t,
        altura(tras_eliminar(t, altitud)) <= altura(t) <= altura(tras_eliminar(t, altitud)) + 1,
    decreases t,
{
    match t {
        None => {
            assert(contenido(t).remove(altitud) =~= Map::empty());
        },
        Some(n0) => {
            lema_acotado(t);
            lema_hijos(t);
            let k = n0.vuelo.altitud;
            let h0 = altura(t);
            if altitud < k {
                lema_tras_eliminar(n0.izquierdo, altitud);
                let c = tras_eliminar(n0.izquierdo, altitud);
                let n1 = con_izquierdo(n0, c);
                assert forall|x: u32| #[trigger] contenido(c).dom().contains(x) implies x < k by {
                    assert(contenido(n0.izquierdo).dom().contains(x));
                }
                assert(contenido(Some(n1)) =~= contenido(t).remove(altitud)) by {
                    if contenido(n0.derecho).dom().contains(altitud) {
                        assert(k < altitud);
                    }
                }
                assert(listo_para_reequilibrar(n1, h0));
                lema_acotado(c);
                let n2 = Box::new(con_altura(*n1));
                assert(listo_para_reequilibrar(n2, h0));
                if !contenido(t).dom().contains(altitud) {
                    assert(*n2 == *n0);
                }
                lema_reequilibrada(n2, h0);
            } else if altitud > k {
                lema_tras_eliminar(n0.derecho, altitud);
                let c = tras_eliminar(n0.derecho, altitud);
                let n1 = con_derecho(n0, c);
                assert forall|x: u32| #[trigger] contenido(c).dom().contains(x) implies k < x by {
                    assert(contenido(n0.derecho).dom().contains(x));
                }
                assert(contenido(Some(n1)) =~= contenido(t).remove(altitud)) by {
                    if contenido(n0.izquierdo).dom().contains(altitud) {
                        assert(altitud < k);
                    }
                }
                assert(listo_para_reequilibrar(n1, h0));
                lema_acotado(c);
                let n2 = Box::new(con_altura(*n1));
                assert(listo_para_reequilibrar(n2, h0));
                if !contenido(t).dom().contains(altitud) {
                    assert(*n2 == *n0);
                }
                lema_reequilibrada(n2, h0);
            } else if n0.izquierdo is None {
                assert(!contenido(n0.derecho).dom().contains(altitud));
                assert(contenido(n0.izquierdo) =~= Map::empty());
                assert(contenido(n0.derecho) =~= contenido(t).remove(altitud));
            } else if n0.derecho is None {
                assert(!contenido(n0.izquierdo).dom().contains(altitud));
                assert(contenido(n0.derecho) =~= Map::empty());
                assert(contenido(n0.izquierdo) =~= contenido(t).remove(altitud));
            } else {
                let l0 = n0.izquierdo.unwrap();
                let pv = extremo_derecho(l0);
                let p = pv.altitud;
                lema_extremo_derecho(l0);
                lema_tras_eliminar(n0.izquierdo, p);
                let c = tras_eliminar(n0.izquierdo, p);
                let n1 = Box::new(
                    Nodo { vuelo: pv, izquierdo: c, derecho: n0.derecho, altura: n0.altura },
                );
                assert(contenido(t).dom().contains(p));
                assert(p < k);
                assert forall|x: u32| #[trigger] contenido(c).dom().contains(x) implies x < p by {
                    assert(contenido(Some(l0)).dom().contains(x));
                }
                assert forall|x: u32| #[trigger] contenido(n0.derecho).dom().contains(x) implies p
                    < x by {
                    assert(k < x);
                }
                assert(contenido(Some(n1)) =~= contenido(t).remove(altitud)) by {
                    assert(!contenido(n0.derecho).dom().contains(p));
                    assert(!contenido(n0.derecho).dom().contains(k));
                    assert(!contenido(n0.izquierdo).dom().contains(k));
                }
                assert(listo_para_reequilibrar(n1, h0));
                lema_acotado(c);
                let n2 = Box::new(con_altura(*n1));
                assert(listo_para_reequilibrar(n2, h0));
                lema_reequilibrada(n2, h0);
            }
        },
    }
}

/// The rightmost flight of an ordered tree is its flight of highest altitude.
pub proof fn lema_extremo_derecho(n: Box<Nodo>)
    requires
        ordenado(Some(n)),
    ensures
        contenido(Some(n)).dom().contains(extremo_derecho(n).altitud),
        contenido(Some(n))[extremo_derecho(n).altitud] == extremo_derecho(n),
        forall|k: u32| #[trigger]
            contenido(Some(n)).dom().contains(k) ==> k <= extremo_derecho(n).altitud,
    decreases n,
{
    match n.derecho {
        None => {
            assert forall|k: u32| #[trigger]
                contenido(Some(n)).dom().contains(k) implies k <= extremo_derecho(n).altitud by {
                if k != n.vuelo.altitud {
                    assert(!contenido(n.derecho).dom().contains(k));
                    assert(contenido(n.izquierdo).dom().contains(k));
                }
            }
        },
        Some(d) => {
            lema_extremo_derecho(d);
            let v = extremo_derecho(d);
            assert(contenido(n.derecho).dom().contains(v.altitud));
            assert(v.altitud != n.vuelo.altitud);
            assert forall|k: u32| #[trigger]
                contenido(Some(n)).dom().contains(k) implies k <= v.altitud by {
                if k != n.vuelo.altitud && !contenido(n.derecho).dom().contains(k) {
                    assert(contenido(n.izquierdo).dom().contains(k));
                }
            }
        },
    }
}

/// Removes the flight at `altitud` from the AVL tree `nodo_opt` and
/// rebalances it; a missing altitude leaves the tree as it was.
///
/// The result is `tras_eliminar(nodo_opt, altitud)`: a node with one child is
/// replaced by that child, and a node with two children takes the flight with
/// the highest altitude of its left subtree (the in-order predecessor), which
/// is then removed from there. It is an AVL tree; its height is that of
/// `nodo_opt` or one less.
#[verifier::spinoff_prover]
#[verifier::rlimit(40)]
pub fn eliminar_vuelo(nodo_opt: Option<Box<Nodo>>, altitud: u32) -> (r: Option<Box<Nodo>>)
    requires
        es_avl(nodo_opt),
    ensures
        r == tras_eliminar(nodo_opt, altitud),
        es_avl(r),
        contenido(r) == contenido(nodo_opt).remove(altitud),
        !contenido(nodo_opt).dom().contains(altitud) ==> r == nodo_opt,
        altura(r) <= altura(nodo_opt) <= altura(r) + 1,
    decreases altura(nodo_opt),
{
    proof {
        lema_tras_eliminar(nodo_opt, altitud);
    }
    let mut nodo = match nodo_opt {
        None => return None,
        Some(n) => n,
    };
    let ghost n0 = nodo;
    let ghost mut n1 = nodo;
    proof {
        lema_acotado(nodo_opt);
        lema_hijos(nodo_opt);
    }

    // Search
    if altitud < nodo.vuelo.altitud {
        nodo.izquierdo = eliminar_vuelo(nodo.izquierdo.take(), altitud);
        proof {
            n1 = con_izquierdo(n0, nodo.izquierdo);
        }
    } else if altitud > nodo.vuelo.altitud {
        nodo.derecho = eliminar_vuelo(nodo.derecho.take(), altitud);
        proof {
            n1 = con_derecho(n0, nodo.derecho);
        }
    } else {
        // Found: no left child
        if nodo.izquierdo.is_none() {
            return nodo.derecho.take();
        }

        // Found: no right child
        if nodo.derecho.is_none() {
            return nodo.izquierdo.take();
        }

        // Found: two children; the in-order predecessor takes its place
        let predecesor = {
            let izquierdo = nodo.izquierdo.as_ref().unwrap();
            let maximo = encontrar_maximo(izquierdo);
            Vuelo { id: maximo.id.clone(), altitud: maximo.altitud }
        };
        nodo.vuelo = predecesor;
        nodo.izquierdo = eliminar_vuelo(nodo.izquierdo.take(), nodo.vuelo.altitud);
        proof {
            n1 = Box::new(
                Nodo {
                    vuelo: predecesor,
                    izquierdo: nodo.izquierdo,
                    derecho: n0.derecho,
                    altura: n0.altura,
                },
            );
        }
    }

    proof {
        assert(nodo == n1);
        lema_acotado(nodo.izquierdo);
        lema_acotado(nodo.derecho);
    }
    // Update the height
    actualizar_altura(&mut *nodo);
    let ghost n2 = nodo;
    proof {
        assert(n2 == Box::new(con_altura(*n1)));
        assert(tras_eliminar(nodo_opt, altitud) == Some(reequilibrada(n2)));
    }
    let balance = obtener_balance(&*nodo);

    // Rebalance: left-left
    if balance > 1 && obtener_balance(nodo.izquierdo.as_ref().unwrap()) >= 0 {
        return Some(rotar_derecha(nodo));
    }
    // Left-right
    if balance > 1 && obtener_balance(nodo.izquierdo.as_ref().unwrap()) < 0 {
        return Some(rotar_izquierda_derecha(nodo));
    }
    // Right-right
    if balance < -1 && obtener_balance(nodo.derecho.as_ref().unwrap()) <= 0 {
        return Some(rotar_izquierda(nodo));
    }
    // Right-left
    if balance < -1 && obtener_balance(nodo.derecho.as_ref().unwrap()) > 0 {
        return Some(rotar_derecha_izquierda(nodo));
    }
    Some(nodo)
}

} // verus!
