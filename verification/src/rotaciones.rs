//! Height bookkeeping and the two rotations of the AVL tree.

use vstd::prelude::*;
use crate::arbol::{
    altura, altura_guardada, alturas_correctas, contenido, en_orden, equilibrado, es_avl,
    lema_altura_acotada, mayor, ordenado, Nodo,
};

verus! {

/// The height stored at the root of `nodo`, 0 for the empty tree.
pub fn obtener_altura(nodo: &Option<Box<Nodo>>) -> (h: i32)
    ensures
        h == altura_guardada(*nodo),
{
    match nodo {
        None => 0,
        Some(n) => n.altura,
    }
}

/// Sets the stored height of `nodo` to one more than the larger stored height
/// of its children.
pub fn actualizar_altura(nodo: &mut Nodo)
    requires
        altura_guardada(old(nodo).izquierdo) < i32::MAX,
        altura_guardada(old(nodo).derecho) < i32::MAX,
    ensures
        final(nodo).altura == 1 + mayor(
            altura_guardada(old(nodo).izquierdo),
            altura_guardada(old(nodo).derecho),
        ),
        final(nodo).vuelo == old(nodo).vuelo,
        final(nodo).izquierdo == old(nodo).izquierdo,
        final(nodo).derecho == old(nodo).derecho,
        *final(nodo) == con_altura(*old(nodo)),
{
    let hi = obtener_altura(&nodo.izquierdo);
    let hd = obtener_altura(&nodo.derecho);
    let m = if hi >= hd {
        hi
    } else {
        hd
    };
    nodo.altura = 1 + m;
}

/// `n` with its stored height recomputed from the stored heights of its
/// children, as `actualizar_altura` does.
pub open spec fn con_altura(n: Nodo) -> Nodo {
    Nodo {
        vuelo: n.vuelo,
        izquierdo: n.izquierdo,
        derecho: n.derecho,
        altura: (1 + mayor(altura_guardada(n.izquierdo), altura_guardada(n.derecho))) as i32,
    }
}

/// `n` with its left subtree replaced by `l`.
pub open spec fn con_izquierdo(n: Box<Nodo>, l: Option<Box<Nodo>>) -> Box<Nodo> {
    Box::new(Nodo { vuelo: n.vuelo, izquierdo: l, derecho: n.derecho, altura: n.altura })
}

/// `n` with its right subtree replaced by `d`.
pub open spec fn con_derecho(n: Box<Nodo>, d: Option<Box<Nodo>>) -> Box<Nodo> {
    Box::new(Nodo { vuelo: n.vuelo, izquierdo: n.izquierdo, derecho: d, altura: n.altura })
}

/// Balance factor of a node: stored height of its left subtree minus that of
/// its right subtree.
pub open spec fn balance(n: Box<Nodo>) -> int {
    altura_guardada(n.izquierdo) - altura_guardada(n.derecho)
}

/// The right rotation of `y`: its left child rises to the root and `y`, with
/// its heights recomputed, becomes the new right child.
pub open spec fn rotacion_derecha(y: Box<Nodo>) -> Box<Nodo> {
    let xo = y.izquierdo.unwrap();
    let yn = con_altura(
        Nodo { vuelo: y.vuelo, izquierdo: xo.derecho, derecho: y.derecho, altura: y.altura },
    );
    Box::new(
        con_altura(
            Nodo {
                vuelo: xo.vuelo,
                izquierdo: xo.izquierdo,
                derecho: Some(Box::new(yn)),
                altura: xo.altura,
            },
        ),
    )
}

/// The left rotation of `x`: the mirror image of `rotacion_derecha`.
pub open spec fn rotacion_izquierda(x: Box<Nodo>) -> Box<Nodo> {
    let yo = x.derecho.unwrap();
    let xn = con_altura(
        Nodo { vuelo: x.vuelo, izquierdo: x.izquierdo, derecho: yo.izquierdo, altura: x.altura },
    );
    Box::new(
        con_altura(
            Nodo {
                vuelo: yo.vuelo,
                izquierdo: Some(Box::new(xn)),
                derecho: yo.derecho,
                altura: yo.altura,
            },
        ),
    )
}

/// Left-right double rotation: the left child is rotated left, then the node
/// is rotated right.
pub open spec fn rotacion_izquierda_derecha(n: Box<Nodo>) -> Box<Nodo> {
    rotacion_derecha(con_izquierdo(n, Some(rotacion_izquierda(n.izquierdo.unwrap()))))
}

/// Right-left double rotation: the right child is rotated right, then the
/// node is rotated left.
pub open spec fn rotacion_derecha_izquierda(n: Box<Nodo>) -> Box<Nodo> {
    rotacion_izquierda(con_derecho(n, Some(rotacion_derecha(n.derecho.unwrap()))))
}

/// Balance factor of `nodo`: stored height of the left child minus that of
/// the right child.
pub fn obtener_balance(nodo: &Nodo) -> (b: i32)
    requires
        i32::MIN <= altura_guardada(nodo.izquierdo) - altura_guardada(nodo.derecho) <= i32::MAX,
    ensures
        b == altura_guardada(nodo.izquierdo) - altura_guardada(nodo.derecho),
{
    obtener_altura(&nodo.izquierdo) - obtener_altura(&nodo.derecho)
}

/// `x` is `y` rotated to the right: the left child of `y` becomes the root,
/// `y` becomes its right child and takes over its former right subtree, and
/// both heights are recomputed from the stored heights below them.
pub open spec fn rotada_derecha(y: Box<Nodo>, x: Box<Nodo>) -> bool {
    let xo = y.izquierdo.unwrap();
    &&& y.izquierdo is Some
    &&& x.derecho is Some
    &&& x.vuelo == xo.vuelo
    &&& x.izquierdo == xo.izquierdo
    &&& x.derecho.unwrap().vuelo == y.vuelo
    &&& x.derecho.unwrap().izquierdo == xo.derecho
    &&& x.derecho.unwrap().derecho == y.derecho
    &&& x.derecho.unwrap().altura == 1 + mayor(
        altura_guardada(xo.derecho),
        altura_guardada(y.derecho),
    )
    &&& x.altura == 1 + mayor(altura_guardada(xo.izquierdo), x.derecho.unwrap().altura as int)
}

/// `y` is `x` rotated to the left: the mirror image of `rotada_derecha`.
pub open spec fn rotada_izquierda(x: Box<Nodo>, y: Box<Nodo>) -> bool {
    let yo = x.derecho.unwrap();
    &&& x.derecho is Some
    &&& y.izquierdo is Some
    &&& y.vuelo == yo.vuelo
    &&& y.derecho == yo.derecho
    &&& y.izquierdo.unwrap().vuelo == x.vuelo
    &&& y.izquierdo.unwrap().derecho == yo.izquierdo
    &&& y.izquierdo.unwrap().izquierdo == x.izquierdo
    &&& y.izquierdo.unwrap().altura == 1 + mayor(
        altura_guardada(x.izquierdo),
        altura_guardada(yo.izquierdo),
    )
    &&& y.altura == 1 + mayor(y.izquierdo.unwrap().altura as int, altura_guardada(yo.derecho))
}

/// Where every node stores its true height, the stored height at the root is
/// the true height.
pub proof fn lema_altura_guardada(t: Option<Box<Nodo>>)
    requires
        alturas_correctas(t),
    ensures
        altura_guardada(t) == altura(t),
{
}

/// The children of an AVL tree are AVL trees, lower than it, whose stored
/// heights are their true heights.
pub proof fn lema_hijos(t: Option<Box<Nodo>>)
    requires
        es_avl(t),
    ensures
        t matches Some(n) ==> {
            &&& es_avl(n.izquierdo)
            &&& es_avl(n.derecho)
            &&& altura_guardada(n.izquierdo) == altura(n.izquierdo) < altura(t)
            &&& altura_guardada(n.derecho) == altura(n.derecho) < altura(t)
        },
{
    if let Some(n) = t {
        lema_altura_guardada(n.izquierdo);
        lema_altura_guardada(n.derecho);
    }
}

/// A subtree whose stored heights are correct and whose height is at most 64.
pub open spec fn acotado(t: Option<Box<Nodo>>) -> bool {
    &&& alturas_correctas(t)
    &&& altura_guardada(t) == altura(t)
    &&& altura(t) <= 64
}

/// The subtrees of `t` down to three levels have correct stored heights of at
/// most 64, when `t` is an AVL tree.
pub proof fn lema_acotado(t: Option<Box<Nodo>>)
    requires
        es_avl(t),
    ensures
        acotado(t),
        t matches Some(n) ==> {
            &&& acotado(n.izquierdo)
            &&& acotado(n.derecho)
            &&& n.izquierdo matches Some(l) ==> acotado(l.izquierdo) && acotado(l.derecho)
            &&& n.derecho matches Some(r) ==> acotado(r.izquierdo) && acotado(r.derecho)
        },
{
    lema_altura_acotada(t);
    lema_altura_guardada(t);
    if let Some(n) = t {
        lema_hijos(t);
        lema_hijos(n.izquierdo);
        lema_hijos(n.derecho);
        lema_altura_acotada(n.izquierdo);
        lema_altura_acotada(n.derecho);
        if let Some(l) = n.izquierdo {
            lema_altura_guardada(l.izquierdo);
            lema_altura_guardada(l.derecho);
        }
        if let Some(r) = n.derecho {
            lema_altura_guardada(r.izquierdo);
            lema_altura_guardada(r.derecho);
        }
    }
}

/// A right rotation keeps the order and the flights, and keeps the cached
/// heights correct where the three moved subtrees had them correct.
pub proof fn lema_rotada_derecha(y: Box<Nodo>, x: Box<Nodo>)
    requires
        rotada_derecha(y, x),
    ensures
        ordenado(Some(y)) ==> ordenado(Some(x)) && contenido(Some(x)) == contenido(Some(y)),
        alturas_correctas(y.izquierdo.unwrap().izquierdo) && alturas_correctas(
            y.izquierdo.unwrap().derecho,
        ) && alturas_correctas(y.derecho) ==> alturas_correctas(Some(x)),
        en_orden(Some(x)) == en_orden(Some(y)),
{
    let xo = y.izquierdo.unwrap();
    let yn = x.derecho.unwrap();
    let sa = en_orden(xo.izquierdo);
    let sb = en_orden(xo.derecho);
    let sc = en_orden(y.derecho);
    assert(en_orden(Some(yn)) == sb.push(y.vuelo) + sc);
    assert(en_orden(Some(x)) == sa.push(xo.vuelo) + (sb.push(y.vuelo) + sc));
    assert(en_orden(Some(xo)) == sa.push(xo.vuelo) + sb);
    assert(en_orden(Some(y)) == (sa.push(xo.vuelo) + sb).push(y.vuelo) + sc);
    assert(en_orden(Some(x)) =~= en_orden(Some(y)));
    let a = contenido(xo.izquierdo);
    let b = contenido(xo.derecho);
    let c = contenido(y.derecho);
    if ordenado(Some(y)) {
        assert(ordenado(Some(xo)));
        assert(contenido(Some(xo)) == a.union_prefer_right(b).insert(xo.vuelo.altitud, xo.vuelo));
        assert forall|k: u32| #[trigger] b.dom().contains(k) implies k < yn.vuelo.altitud by {
            assert(contenido(Some(xo)).dom().contains(k));
        }
        assert(ordenado(Some(yn)));
        assert(xo.vuelo.altitud < y.vuelo.altitud) by {
            assert(contenido(Some(xo)).dom().contains(xo.vuelo.altitud));
        }
        assert forall|k: u32| #[trigger] a.dom().contains(k) implies k < y.vuelo.altitud by {
            assert(contenido(Some(xo)).dom().contains(k));
        }
        assert(contenido(Some(yn)) == b.union_prefer_right(c).insert(yn.vuelo.altitud, yn.vuelo));
        assert forall|k: u32| #[trigger] contenido(Some(yn)).dom().contains(k) implies x.vuelo.altitud
            < k by {
            if k != yn.vuelo.altitud && !c.dom().contains(k) {
                assert(b.dom().contains(k));
            }
        }
        assert(ordenado(Some(x)));
        assert(contenido(Some(x)) =~= contenido(Some(y)));
    }
    if alturas_correctas(xo.izquierdo) && alturas_correctas(xo.derecho) && alturas_correctas(
        y.derecho,
    ) {
        lema_altura_guardada(xo.izquierdo);
        lema_altura_guardada(xo.derecho);
        lema_altura_guardada(y.derecho);
        assert(alturas_correctas(Some(yn)));
        assert(alturas_correctas(Some(x)));
    }
}

/// A left rotation keeps the order and the flights, and keeps the cached
/// heights correct where the three moved subtrees had them correct.
pub proof fn lema_rotada_izquierda(x: Box<Nodo>, y: Box<Nodo>)
    requires
        rotada_izquierda(x, y),
    ensures
        ordenado(Some(x)) ==> ordenado(Some(y)) && contenido(Some(y)) == contenido(Some(x)),
        alturas_correctas(x.izquierdo) && alturas_correctas(x.derecho.unwrap().izquierdo)
            && alturas_correctas(x.derecho.unwrap().derecho) ==> alturas_correctas(Some(y)),
        en_orden(Some(y)) == en_orden(Some(x)),
{
    let yo = x.derecho.unwrap();
    let xn = y.izquierdo.unwrap();
    let sa = en_orden(x.izquierdo);
    let sb = en_orden(yo.izquierdo);
    let sc = en_orden(yo.derecho);
    assert(en_orden(Some(xn)) == sa.push(x.vuelo) + sb);
    assert(en_orden(Some(y)) == (sa.push(x.vuelo) + sb).push(yo.vuelo) + sc);
    assert(en_orden(Some(yo)) == sb.push(yo.vuelo) + sc);
    assert(en_orden(Some(x)) == sa.push(x.vuelo) + (sb.push(yo.vuelo) + sc));
    assert(en_orden(Some(y)) =~= en_orden(Some(x)));
    let a = contenido(x.izquierdo);
    let b = contenido(yo.izquierdo);
    let c = contenido(yo.derecho);
    if ordenado(Some(x)) {
        assert(ordenado(Some(yo)));
        assert(contenido(Some(yo)) == b.union_prefer_right(c).insert(yo.vuelo.altitud, yo.vuelo));
        assert forall|k: u32| #[trigger] b.dom().contains(k) implies xn.vuelo.altitud < k by {
            assert(contenido(Some(yo)).dom().contains(k));
        }
        assert(ordenado(Some(xn)));
        assert(x.vuelo.altitud < yo.vuelo.altitud) by {
            assert(contenido(Some(yo)).dom().contains(yo.vuelo.altitud));
        }
        assert forall|k: u32| #[trigger] c.dom().contains(k) implies x.vuelo.altitud < k by {
            assert(contenido(Some(yo)).dom().contains(k));
        }
        assert(contenido(Some(xn)) == a.union_prefer_right(b).insert(xn.vuelo.altitud, xn.vuelo));
        assert forall|k: u32| #[trigger] contenido(Some(xn)).dom().contains(k) implies k
            < y.vuelo.altitud by {
            if k != xn.vuelo.altitud && !b.dom().contains(k) {
                assert(a.dom().contains(k));
            }
        }
        assert(ordenado(Some(y)));
        assert(contenido(Some(y)) =~= contenido(Some(x)));
    }
    if alturas_correctas(x.izquierdo) && alturas_correctas(yo.izquierdo) && alturas_correctas(
        yo.derecho,
    ) {
        lema_altura_guardada(x.izquierdo);
        lema_altura_guardada(yo.izquierdo);
        lema_altura_guardada(yo.derecho);
        assert(alturas_correctas(Some(xn)));
        assert(alturas_correctas(Some(y)));
    }
}

/// A single right rotation repairs a node whose left subtree is two levels
/// taller than its right one, when the left subtree does not lean right.
pub proof fn lema_simple_derecha_equilibra(y: Box<Nodo>, x: Box<Nodo>)
    requires
        rotada_derecha(y, x),
        ordenado(Some(y)),
        es_avl(y.izquierdo),
        es_avl(y.derecho),
        altura(y.izquierdo) == altura(y.derecho) + 2,
        altura(y.izquierdo.unwrap().izquierdo) >= altura(y.izquierdo.unwrap().derecho),
    ensures
        es_avl(Some(x)),
        contenido(Some(x)) == contenido(Some(y)),
        altura(Some(x)) == if altura(y.izquierdo.unwrap().izquierdo) > altura(
            y.izquierdo.unwrap().derecho,
        ) {
            altura(y.derecho) + 2
        } else {
            altura(y.derecho) + 3
        },
{
    let l = y.izquierdo.unwrap();
    let yn = x.derecho.unwrap();
    assert(alturas_correctas(l.izquierdo) && alturas_correctas(l.derecho));
    assert(equilibrado(l.izquierdo) && equilibrado(l.derecho));
    lema_rotada_derecha(y, x);
    assert(altura(Some(yn)) == 1 + mayor(altura(l.derecho) as int, altura(y.derecho) as int));
    assert(equilibrado(Some(yn)));
    assert(equilibrado(Some(x)));
}

/// A single left rotation repairs a node whose right subtree is two levels
/// taller than its left one, when the right subtree does not lean left.
pub proof fn lema_simple_izquierda_equilibra(x: Box<Nodo>, y: Box<Nodo>)
    requires
        rotada_izquierda(x, y),
        ordenado(Some(x)),
        es_avl(x.izquierdo),
        es_avl(x.derecho),
        altura(x.derecho) == altura(x.izquierdo) + 2,
        altura(x.derecho.unwrap().derecho) >= altura(x.derecho.unwrap().izquierdo),
    ensures
        es_avl(Some(y)),
        contenido(Some(y)) == contenido(Some(x)),
        altura(Some(y)) == if altura(x.derecho.unwrap().derecho) > altura(
            x.derecho.unwrap().izquierdo,
        ) {
            altura(x.izquierdo) + 2
        } else {
            altura(x.izquierdo) + 3
        },
{
    let r = x.derecho.unwrap();
    let xn = y.izquierdo.unwrap();
    assert(alturas_correctas(r.izquierdo) && alturas_correctas(r.derecho));
    assert(equilibrado(r.izquierdo) && equilibrado(r.derecho));
    lema_rotada_izquierda(x, y);
    assert(altura(Some(xn)) == 1 + mayor(altura(x.izquierdo) as int, altura(r.izquierdo) as int));
    assert(equilibrado(Some(xn)));
    assert(equilibrado(Some(y)));
}

/// A left rotation of the left child followed by a right rotation of the node
/// repairs a node whose left subtree is two levels taller than its right one
/// and leans right.
pub proof fn lema_doble_derecha_equilibra(
    y: Box<Nodo>,
    l2: Box<Nodo>,
    n3: Box<Nodo>,
    z: Box<Nodo>,
)
    requires
        y.izquierdo is Some,
        rotada_izquierda(y.izquierdo.unwrap(), l2),
        n3.vuelo == y.vuelo,
        n3.izquierdo == Some(l2),
        n3.derecho == y.derecho,
        rotada_derecha(n3, z),
        ordenado(Some(y)),
        es_avl(y.izquierdo),
        es_avl(y.derecho),
        altura(y.izquierdo) == altura(y.derecho) + 2,
        altura(y.izquierdo.unwrap().derecho) > altura(y.izquierdo.unwrap().izquierdo),
    ensures
        es_avl(Some(z)),
        contenido(Some(z)) == contenido(Some(y)),
        altura(Some(z)) == altura(y.derecho) + 2,
{
    let l = y.izquierdo.unwrap();
    let m = l.derecho.unwrap();
    assert(alturas_correctas(l.izquierdo) && alturas_correctas(l.derecho));
    assert(equilibrado(l.izquierdo) && equilibrado(l.derecho));
    assert(alturas_correctas(m.izquierdo) && alturas_correctas(m.derecho));
    assert(equilibrado(m.izquierdo) && equilibrado(m.derecho));
    lema_rotada_izquierda(l, l2);
    let xn = l2.izquierdo.unwrap();
    assert(ordenado(Some(n3))) by {
        assert forall|k: u32| #[trigger] contenido(Some(l2)).dom().contains(k) implies k
            < n3.vuelo.altitud by {
            assert(contenido(Some(l)).dom().contains(k));
        }
    }
    assert(contenido(Some(n3)) =~= contenido(Some(y)));
    assert(alturas_correctas(l2.izquierdo) && alturas_correctas(l2.derecho));
    lema_rotada_derecha(n3, z);
    let yn = z.derecho.unwrap();
    assert(altura(Some(xn)) == 1 + mayor(altura(l.izquierdo) as int, altura(m.izquierdo) as int));
    assert(altura(Some(yn)) == 1 + mayor(altura(m.derecho) as int, altura(y.derecho) as int));
    assert(equilibrado(Some(xn)));
    assert(equilibrado(Some(yn)));
    assert(equilibrado(Some(z)));
}

/// A right rotation of the right child followed by a left rotation of the node
/// repairs a node whose right subtree is two levels taller than its left one
/// and leans left.
pub proof fn lema_doble_izquierda_equilibra(
    x: Box<Nodo>,
    r2: Box<Nodo>,
    n3: Box<Nodo>,
    z: Box<Nodo>,
)
    requires
        x.derecho is Some,
        rotada_derecha(x.derecho.unwrap(), r2),
        n3.vuelo == x.vuelo,
        n3.derecho == Some(r2),
        n3.izquierdo == x.izquierdo,
        rotada_izquierda(n3, z),
        ordenado(Some(x)),
        es_avl(x.izquierdo),
        es_avl(x.derecho),
        altura(x.derecho) == altura(x.izquierdo) + 2,
        altura(x.derecho.unwrap().izquierdo) > altura(x.derecho.unwrap().derecho),
    ensures
        es_avl(Some(z)),
        contenido(Some(z)) == contenido(Some(x)),
        altura(Some(z)) == altura(x.izquierdo) + 2,
{
    let r = x.derecho.unwrap();
    let m = r.izquierdo.unwrap();
    assert(alturas_correctas(r.izquierdo) && alturas_correctas(r.derecho));
    assert(equilibrado(r.izquierdo) && equilibrado(r.derecho));
    assert(alturas_correctas(m.izquierdo) && alturas_correctas(m.derecho));
    assert(equilibrado(m.izquierdo) && equilibrado(m.derecho));
    lema_rotada_derecha(r, r2);
    let yn = r2.derecho.unwrap();
    assert(ordenado(Some(n3))) by {
        assert forall|k: u32| #[trigger] contenido(Some(r2)).dom().contains(k) implies n3.vuelo.altitud
            < k by {
            assert(contenido(Some(r)).dom().contains(k));
        }
    }
    assert(contenido(Some(n3)) =~= contenido(Some(x)));
    assert(alturas_correctas(r2.izquierdo) && alturas_correctas(r2.derecho));
    lema_rotada_izquierda(n3, z);
    let xn = z.izquierdo.unwrap();
    assert(altura(Some(yn)) == 1 + mayor(altura(m.derecho) as int, altura(r.derecho) as int));
    assert(altura(Some(xn)) == 1 + mayor(altura(x.izquierdo) as int, altura(m.izquierdo) as int));
    assert(equilibrado(Some(xn)));
    assert(equilibrado(Some(yn)));
    assert(equilibrado(Some(z)));
}

/// Where the heights involved fit in an `i32`, `rotacion_derecha` is a right
/// rotation in the sense of `rotada_derecha`.
pub proof fn lema_rotacion_derecha(y: Box<Nodo>)
    requires
        y.izquierdo is Some,
        altura_guardada(y.izquierdo.unwrap().izquierdo) < i32::MAX,
        altura_guardada(y.izquierdo.unwrap().derecho) < i32::MAX - 1,
        altura_guardada(y.derecho) < i32::MAX - 1,
    ensures
        rotada_derecha(y, rotacion_derecha(y)),
{
}

/// Where the heights involved fit in an `i32`, `rotacion_izquierda` is a left
/// rotation in the sense of `rotada_izquierda`.
pub proof fn lema_rotacion_izquierda(x: Box<Nodo>)
    requires
        x.derecho is Some,
        altura_guardada(x.izquierdo) < i32::MAX - 1,
        altura_guardada(x.derecho.unwrap().izquierdo) < i32::MAX - 1,
        altura_guardada(x.derecho.unwrap().derecho) < i32::MAX,
    ensures
        rotada_izquierda(x, rotacion_izquierda(x)),
{
}

/// A right rotation followed by a left rotation gives back a tree whose
/// stored heights are correct.
pub proof fn lema_rotaciones_inversas_derecha(y: Box<Nodo>)
    requires
        y.izquierdo is Some,
        alturas_correctas(Some(y)),
        altura(Some(y)) < i32::MAX,
    ensures
        rotacion_izquierda(rotacion_derecha(y)) == y,
{
    let xo = y.izquierdo.unwrap();
    assert(alturas_correctas(Some(xo)));
    lema_altura_guardada(xo.izquierdo);
    lema_altura_guardada(xo.derecho);
    lema_altura_guardada(y.derecho);
    lema_altura_guardada(Some(xo));
    let x = rotacion_derecha(y);
    let z = rotacion_izquierda(x);
    assert(*z.izquierdo.unwrap() == *xo);
    assert(*z == *y);
}

/// A left rotation followed by a right rotation gives back a tree whose
/// stored heights are correct.
pub proof fn lema_rotaciones_inversas_izquierda(x: Box<Nodo>)
    requires
        x.derecho is Some,
        alturas_correctas(Some(x)),
        altura(Some(x)) < i32::MAX,
    ensures
        rotacion_derecha(rotacion_izquierda(x)) == x,
{
    let yo = x.derecho.unwrap();
    assert(alturas_correctas(Some(yo)));
    lema_altura_guardada(x.izquierdo);
    lema_altura_guardada(yo.izquierdo);
    lema_altura_guardada(yo.derecho);
    lema_altura_guardada(Some(yo));
    let y = rotacion_izquierda(x);
    let z = rotacion_derecha(y);
    assert(*z.derecho.unwrap() == *yo);
    assert(*z == *x);
}

/// Right rotation, used when the left side of `y` is too tall. The left child
/// of `y` must be present.
pub fn rotar_derecha(y: Box<Nodo>) -> (x: Box<Nodo>)
    requires
        y.izquierdo is Some,
        altura_guardada(y.izquierdo.unwrap().izquierdo) < i32::MAX,
        altura_guardada(y.izquierdo.unwrap().derecho) < i32::MAX - 1,
        altura_guardada(y.derecho) < i32::MAX - 1,
    ensures
        x == rotacion_derecha(y),
        rotada_derecha(y, x),
        en_orden(Some(x)) == en_orden(Some(y)),
        ordenado(Some(y)) ==> ordenado(Some(x)) && contenido(Some(x)) == contenido(Some(y)),
        alturas_correctas(y.izquierdo.unwrap().izquierdo) && alturas_correctas(
            y.izquierdo.unwrap().derecho,
        ) && alturas_correctas(y.derecho) ==> alturas_correctas(Some(x)),
{
    let ghost y0 = y;
    let mut y = y;
    let mut x = y.izquierdo.take().expect("Error de radar");
    y.izquierdo = x.derecho.take();
    actualizar_altura(&mut *y);
    x.derecho = Some(y);
    actualizar_altura(&mut *x);
    proof {
        lema_rotada_derecha(y0, x);
    }
    x
}

/// Left rotation, used when the right side of `x` is too tall. The right child
/// of `x` must be present.
pub fn rotar_izquierda(x: Box<Nodo>) -> (y: Box<Nodo>)
    requires
        x.derecho is Some,
        altura_guardada(x.izquierdo) < i32::MAX - 1,
        altura_guardada(x.derecho.unwrap().izquierdo) < i32::MAX - 1,
        altura_guardada(x.derecho.unwrap().derecho) < i32::MAX,
    ensures
        y == rotacion_izquierda(x),
        rotada_izquierda(x, y),
        en_orden(Some(y)) == en_orden(Some(x)),
        ordenado(Some(x)) ==> ordenado(Some(y)) && contenido(Some(y)) == contenido(Some(x)),
        alturas_correctas(x.izquierdo) && alturas_correctas(x.derecho.unwrap().izquierdo)
            && alturas_correctas(x.derecho.unwrap().derecho) ==> alturas_correctas(Some(y)),
{
    let ghost x0 = x;
    let mut x = x;
    let mut y = x.derecho.take().expect("Error de radar");
    x.derecho = y.izquierdo.take();
    actualizar_altura(&mut *x);
    y.izquierdo = Some(x);
    actualizar_altura(&mut *y);
    proof {
        lema_rotada_izquierda(x0, y);
    }
    y
}

/// Left-right double rotation of `nodo`, for a node whose left subtree is too
/// tall and leans right.
pub fn rotar_izquierda_derecha(nodo: Box<Nodo>) -> (z: Box<Nodo>)
    requires
        nodo.izquierdo is Some,
        nodo.izquierdo.unwrap().derecho is Some,
        altura_guardada(nodo.izquierdo.unwrap().izquierdo) < i32::MAX - 1,
        altura_guardada(nodo.izquierdo.unwrap().derecho.unwrap().izquierdo) < i32::MAX - 1,
        altura_guardada(nodo.izquierdo.unwrap().derecho.unwrap().derecho) < i32::MAX - 1,
        altura_guardada(nodo.derecho) < i32::MAX - 1,
    ensures
        z == rotacion_izquierda_derecha(nodo),
        rotada_izquierda(nodo.izquierdo.unwrap(), rotacion_izquierda(nodo.izquierdo.unwrap())),
        rotada_derecha(
            con_izquierdo(nodo, Some(rotacion_izquierda(nodo.izquierdo.unwrap()))),
            z,
        ),
{
    let mut nodo = nodo;
    let hijo_izq = nodo.izquierdo.take().unwrap();
    let l2 = rotar_izquierda(hijo_izq);
    nodo.izquierdo = Some(l2);
    rotar_derecha(nodo)
}

/// Right-left double rotation of `nodo`, for a node whose right subtree is too
/// tall and leans left.
pub fn rotar_derecha_izquierda(nodo: Box<Nodo>) -> (z: Box<Nodo>)
    requires
        nodo.derecho is Some,
        nodo.derecho.unwrap().izquierdo is Some,
        altura_guardada(nodo.derecho.unwrap().derecho) < i32::MAX - 1,
        altura_guardada(nodo.derecho.unwrap().izquierdo.unwrap().izquierdo) < i32::MAX - 1,
        altura_guardada(nodo.derecho.unwrap().izquierdo.unwrap().derecho) < i32::MAX - 1,
        altura_guardada(nodo.izquierdo) < i32::MAX - 1,
    ensures
        z == rotacion_derecha_izquierda(nodo),
        rotada_derecha(nodo.derecho.unwrap(), rotacion_derecha(nodo.derecho.unwrap())),
        rotada_izquierda(
            con_derecho(nodo, Some(rotacion_derecha(nodo.derecho.unwrap()))),
            z,
        ),
{
    let mut nodo = nodo;
    let hijo_der = nodo.derecho.take().unwrap();
    let r2 = rotar_derecha(hijo_der);
    nodo.derecho = Some(r2);
    rotar_izquierda(nodo)
}

} // verus!
