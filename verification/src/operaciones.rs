//! Finding flights, the highest flight of a subtree, and counting flights in
//! an altitude range.

use vstd::prelude::*;
use vstd::set_lib::lemma_set_disjoint_lens;
use crate::arbol::{
    altura, contenido, en_rango, extremo_derecho, lema_contenido_finito, ordenado, Nodo, Vuelo,
};

verus! {

/// The flight that a search for `altitud` reaches in `t` by descending from the
/// root: left where `altitud` is lower than the node's, right where higher,
/// until a node at `altitud` or an empty subtree.
pub open spec fn busqueda(t: Option<Box<Nodo>>, altitud: u32) -> Option<Vuelo>
    decreases t,
{
    match t {
        None => None,
        Some(n) => if altitud == n.vuelo.altitud {
            Some(n.vuelo)
        } else if altitud < n.vuelo.altitud {
            busqueda(n.izquierdo, altitud)
        } else {
            busqueda(n.derecho, altitud)
        },
    }
}

/// Looks up the flight at `altitud` in the tree `nodo`, descending by
/// comparing altitudes (`busqueda`). In an ordered tree it finds the flight
/// there is at `altitud`, and `None` when there is none; in any tree a flight
/// it returns is one of the tree's, at `altitud`.
pub fn buscar_vuelo(nodo: &Option<Box<Nodo>>, altitud: u32) -> (r: Option<&Vuelo>)
    ensures
        r is Some <==> busqueda(*nodo, altitud) is Some,
        r matches Some(v) ==> *v == busqueda(*nodo, altitud).unwrap(),
        r matches Some(v) ==> v.altitud == altitud && contenido(*nodo).dom().contains(altitud),
        ordenado(*nodo) ==> (r is Some <==> contenido(*nodo).dom().contains(altitud)),
        ordenado(*nodo) ==> (r matches Some(v) ==> *v == contenido(*nodo)[altitud]),
    decreases altura(*nodo),
{
    match nodo {
        None => None,
        Some(n) => {
            if altitud == n.vuelo.altitud {
                Some(&n.vuelo)
            } else if altitud < n.vuelo.altitud {
                proof {
                    if ordenado(*nodo) && contenido(n.derecho).dom().contains(altitud) {
                        assert(false);
                    }
                }
                buscar_vuelo(&n.izquierdo, altitud)
            } else {
                proof {
                    if ordenado(*nodo) && contenido(n.izquierdo).dom().contains(altitud) {
                        assert(false);
                    }
                }
                buscar_vuelo(&n.derecho, altitud)
            }
        },
    }
}

/// The flight of the rightmost node of `nodo`. In an ordered tree it is the
/// flight with the highest altitude.
pub fn encontrar_maximo(nodo: &Box<Nodo>) -> (v: &Vuelo)
    ensures
        *v == extremo_derecho(*nodo),
        contenido(Some(*nodo)).dom().contains(v.altitud),
        ordenado(Some(*nodo)) ==> contenido(Some(*nodo))[v.altitud] == *v,
        ordenado(Some(*nodo)) ==> forall|k: u32| #[trigger]
            contenido(Some(*nodo)).dom().contains(k) ==> k <= v.altitud,
    decreases altura(Some(*nodo)),
{
    match &nodo.derecho {
        None => {
            proof {
                if ordenado(Some(*nodo)) {
                    assert forall|k: u32| #[trigger]
                        contenido(Some(*nodo)).dom().contains(k) implies k <= nodo.vuelo.altitud by {
                        if k != nodo.vuelo.altitud {
                            assert(nodo.derecho is None);
                            assert(!contenido(nodo.derecho).dom().contains(k));
                            assert(contenido(nodo.izquierdo).dom().contains(k));
                        }
                    }
                }
            }
            &nodo.vuelo
        },
        Some(der) => {
            let v = encontrar_maximo(der);
            proof {
                if ordenado(Some(*nodo)) {
                    assert(v.altitud != nodo.vuelo.altitud);
                    assert forall|k: u32| #[trigger]
                        contenido(Some(*nodo)).dom().contains(k) implies k <= v.altitud by {
                        if k != nodo.vuelo.altitud && !contenido(nodo.derecho).dom().contains(k) {
                            assert(contenido(nodo.izquierdo).dom().contains(k));
                        }
                    }
                }
            }
            v
        },
    }
}

/// Counts the flights of the ordered tree `nodo` whose altitude lies between
/// `min` and `max`, both included, skipping the subtrees that cannot hold one.
/// The count must fit in a `usize`.
pub fn vuelos_en_rango(nodo: &Option<Box<Nodo>>, min: u32, max: u32) -> (c: usize)
    requires
        ordenado(*nodo),
        en_rango(contenido(*nodo).dom(), min, max).len() <= usize::MAX,
    ensures
        c == en_rango(contenido(*nodo).dom(), min, max).len(),
    decreases altura(*nodo),
{
    match nodo {
        None => {
            proof {
                assert(en_rango(contenido(*nodo).dom(), min, max) =~= Set::empty());
            }
            0
        },
        Some(n) => {
            let ghost total = en_rango(contenido(*nodo).dom(), min, max);
            let ghost izq = en_rango(contenido(n.izquierdo).dom(), min, max);
            let ghost der = en_rango(contenido(n.derecho).dom(), min, max);
            proof {
                lema_contenido_finito(n.izquierdo);
                lema_contenido_finito(n.derecho);
                contenido(n.izquierdo).dom().lemma_len_filter(|k: u32| min <= k && k <= max);
                contenido(n.derecho).dom().lemma_len_filter(|k: u32| min <= k && k <= max);
            }
            if n.vuelo.altitud < min {
                // Only the right subtree can hold altitudes in range
                proof {
                    assert(total =~= der) by {
                        assert forall|k: u32| total.contains(k) implies der.contains(k) by {
                            if contenido(n.izquierdo).dom().contains(k) {
                                assert(k < n.vuelo.altitud);
                            }
                        }
                    }
                }
                vuelos_en_rango(&n.derecho, min, max)
            } else if n.vuelo.altitud > max {
                // Only the left subtree can hold altitudes in range
                proof {
                    assert(total =~= izq) by {
                        assert forall|k: u32| total.contains(k) implies izq.contains(k) by {
                            if contenido(n.derecho).dom().contains(k) {
                                assert(n.vuelo.altitud < k);
                            }
                        }
                    }
                }
                vuelos_en_rango(&n.izquierdo, min, max)
            } else {
                // The flight of this node is in range
                proof {
                    assert(izq.disjoint(der)) by {
                        assert forall|k: u32| izq.contains(k) implies !der.contains(k) by {
                            assert(k < n.vuelo.altitud);
                        }
                    }
                    lemma_set_disjoint_lens(izq, der);
                    assert(!(izq + der).contains(n.vuelo.altitud));
                    assert(total =~= (izq + der).insert(n.vuelo.altitud));
                }
                let a = vuelos_en_rango(&n.izquierdo, min, max);
                let b = vuelos_en_rango(&n.derecho, min, max);
                1 + a + b
            }
        },
    }
}

} // verus!
