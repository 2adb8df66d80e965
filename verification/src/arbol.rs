//! The flight and node types and the mathematical model of a tree.

use vstd::arithmetic::power2::{lemma2_to64, lemma_pow2_strictly_increases, lemma_pow2_unfold, pow2};
use vstd::prelude::*;

verus! {

/// A flight seen by the radar. The altitude is the key of the tree.
#[derive(Debug, Clone)]
pub struct Vuelo {
    pub id: String,
    pub altitud: u32,
}

/// A node of the AVL tree; `altura` caches the height of the subtree rooted here.
pub struct Nodo {
    pub vuelo: Vuelo,
    pub izquierdo: Option<Box<Nodo>>,
    pub derecho: Option<Box<Nodo>>,
    pub altura: i32,
}

impl Nodo {
    /// A leaf holding `vuelo`, of height 1.
    pub fn nuevo(vuelo: Vuelo) -> (n: Self)
        ensures
            n.vuelo == vuelo,
            n.izquierdo is None,
            n.derecho is None,
            n.altura == 1,
    {
        Nodo { vuelo, izquierdo: None, derecho: None, altura: 1 }
    }
}

/// The larger of two integers.
pub open spec fn mayor(a: int, b: int) -> int {
    if a >= b {
        a
    } else {
        b
    }
}

/// The true height of a tree: 0 for the empty tree.
pub open spec fn altura(t: Option<Box<Nodo>>) -> nat
    decreases t,
{
    match t {
        None => 0,
        Some(n) => (1 + mayor(altura(n.izquierdo) as int, altura(n.derecho) as int)) as nat,
    }
}

/// The height stored in the root of a tree: 0 for the empty tree.
pub open spec fn altura_guardada(t: Option<Box<Nodo>>) -> int {
    match t {
        None => 0,
        Some(n) => n.altura as int,
    }
}

/// The flight of the rightmost node below `n`.
pub open spec fn extremo_derecho(n: Box<Nodo>) -> Vuelo
    decreases n,
{
    match n.derecho {
        None => n.vuelo,
        Some(d) => extremo_derecho(d),
    }
}

/// The flights of a tree, by altitude.
pub open spec fn contenido(t: Option<Box<Nodo>>) -> Map<u32, Vuelo>
    decreases t,
{
    match t {
        None => Map::empty(),
        Some(n) => contenido(n.izquierdo).union_prefer_right(contenido(n.derecho)).insert(
            n.vuelo.altitud,
            n.vuelo,
        ),
    }
}

/// The flights of a tree in order: left subtree, node, right subtree.
pub open spec fn en_orden(t: Option<Box<Nodo>>) -> Seq<Vuelo>
    decreases t,
{
    match t {
        None => Seq::empty(),
        Some(n) => en_orden(n.izquierdo).push(n.vuelo) + en_orden(n.derecho),
    }
}

/// Binary-search-tree order: every altitude on the left of a node is lower than
/// the node's, every altitude on its right is higher.
pub open spec fn ordenado(t: Option<Box<Nodo>>) -> bool
    decreases t,
{
    match t {
        None => true,
        Some(n) => {
            &&& ordenado(n.izquierdo)
            &&& ordenado(n.derecho)
            &&& forall|k: u32| #[trigger]
                contenido(n.izquierdo).dom().contains(k) ==> k < n.vuelo.altitud
            &&& forall|k: u32| #[trigger]
                contenido(n.derecho).dom().contains(k) ==> n.vuelo.altitud < k
        },
    }
}

/// Every node stores the true height of its subtree.
pub open spec fn alturas_correctas(t: Option<Box<Nodo>>) -> bool
    decreases t,
{
    match t {
        None => true,
        Some(n) => {
            &&& alturas_correctas(n.izquierdo)
            &&& alturas_correctas(n.derecho)
            &&& n.altura == altura(t)
        },
    }
}

/// At every node the heights of the two subtrees differ by at most one.
pub open spec fn equilibrado(t: Option<Box<Nodo>>) -> bool
    decreases t,
{
    match t {
        None => true,
        Some(n) => {
            &&& equilibrado(n.izquierdo)
            &&& equilibrado(n.derecho)
            &&& -1 <= altura(n.izquierdo) - altura(n.derecho) <= 1
        },
    }
}

/// The AVL invariant: ordered, with correct cached heights, and balanced.
pub open spec fn es_avl(t: Option<Box<Nodo>>) -> bool {
    &&& ordenado(t)
    &&& alturas_correctas(t)
    &&& equilibrado(t)
}

/// The flights of `m` after inserting `v`: a flight at an altitude already
/// present is ignored, and the flight already there stays.
pub open spec fn con_vuelo(m: Map<u32, Vuelo>, v: Vuelo) -> Map<u32, Vuelo> {
    if m.dom().contains(v.altitud) {
        m
    } else {
        m.insert(v.altitud, v)
    }
}

/// The altitudes of `s` that lie in the closed range from `min` to `max`.
pub open spec fn en_rango(s: Set<u32>, min: u32, max: u32) -> Set<u32> {
    s.filter(|k: u32| min <= k && k <= max)
}

/// The altitudes of a finite tree form a finite set.
pub proof fn lema_contenido_finito(t: Option<Box<Nodo>>)
    ensures
        contenido(t).dom().finite(),
    decreases t,
{
    match t {
        None => {},
        Some(n) => {
            lema_contenido_finito(n.izquierdo);
            lema_contenido_finito(n.derecho);
            assert(contenido(n.izquierdo).union_prefer_right(contenido(n.derecho)).dom()
                =~= contenido(n.izquierdo).dom().union(contenido(n.derecho).dom()));
        },
    }
}

/// Each flight of the model sits under its own altitude.
pub proof fn lema_clave_es_altitud(t: Option<Box<Nodo>>, k: u32)
    requires
        contenido(t).dom().contains(k),
    ensures
        contenido(t)[k].altitud == k,
    decreases t,
{
    match t {
        None => {},
        Some(n) => {
            if k != n.vuelo.altitud {
                if contenido(n.derecho).dom().contains(k) {
                    lema_clave_es_altitud(n.derecho, k);
                } else {
                    lema_clave_es_altitud(n.izquierdo, k);
                }
            }
        },
    }
}

/// The step of the height bound: for child heights `m` and `n` with `n + 1 >= m`,
/// the bound of the parent is at most the sum of the bounds of the children.
pub proof fn lema_paso_potencia(m: nat, n: nat)
    requires
        n + 1 >= m,
    ensures
        pow2(((m + 2) / 2) as nat) <= pow2(((m + 1) / 2) as nat) + pow2(((n + 1) / 2) as nat),
{
    let j = (m / 2) as nat;
    lemma_pow2_unfold(j + 1);
    if (n + 1) / 2 > j {
        lemma_pow2_strictly_increases(j, ((n + 1) / 2) as nat);
    }
    if m % 2 == 0 {
        assert((m + 2) / 2 == j + 1 && (m + 1) / 2 == j);
    } else {
        assert((m + 2) / 2 == j + 1 && (m + 1) / 2 == j + 1);
    }
}

/// In a balanced ordered tree whose altitudes all lie strictly between `lo`
/// and `hi`, two to the power of half the height (rounded up) is at most
/// `hi - lo`.
pub proof fn lema_altura_intervalo(t: Option<Box<Nodo>>, lo: int, hi: int)
    requires
        ordenado(t),
        equilibrado(t),
        lo < hi,
        forall|k: u32| #[trigger] contenido(t).dom().contains(k) ==> lo < k < hi,
    ensures
        pow2(((altura(t) + 1) / 2) as nat) <= hi - lo,
    decreases t,
{
    match t {
        None => {
            lemma2_to64();
        },
        Some(n) => {
            let k = n.vuelo.altitud;
            let ci = contenido(n.izquierdo);
            let cd = contenido(n.derecho);
            assert forall|x: u32| #[trigger] ci.dom().contains(x) implies lo < x < k by {
                assert(contenido(t).dom().contains(x) || x == k);
            }
            assert forall|x: u32| #[trigger] cd.dom().contains(x) implies k < x < hi by {
                assert(contenido(t).dom().contains(x));
            }
            assert(lo < k < hi) by {
                assert(contenido(t).dom().contains(k));
            }
            lema_altura_intervalo(n.izquierdo, lo, k as int);
            lema_altura_intervalo(n.derecho, k as int, hi);
            let hi_ = altura(n.izquierdo);
            let hd_ = altura(n.derecho);
            if hi_ >= hd_ {
                lema_paso_potencia(hi_, hd_);
            } else {
                lema_paso_potencia(hd_, hi_);
            }
        },
    }
}

/// An AVL tree of flights (whose altitudes are 32-bit) is at most 64 high.
pub proof fn lema_altura_acotada(t: Option<Box<Nodo>>)
    requires
        es_avl(t),
    ensures
        altura(t) <= 64,
{
    lema_altura_intervalo(t, -1, 0x1_0000_0000);
    lemma2_to64();
    lemma_pow2_unfold(33);
    let e = ((altura(t) + 1) / 2) as nat;
    if e > 33 {
        lemma_pow2_strictly_increases(33, e);
    }
}

} // verus!
