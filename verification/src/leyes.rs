//! Properties of the radar as a whole, stated over the model that the
//! operations' contracts use.

use vstd::arithmetic::power2::pow2;
use vstd::prelude::*;
use vstd::set_lib::{lemma_len_subset, lemma_set_disjoint_lens};
use crate::arbol::{
    altura, con_vuelo, contenido, en_orden, en_rango, equilibrado, es_avl, lema_contenido_finito,
    lema_paso_potencia, ordenado, Nodo, Vuelo,
};

use crate::eliminacion::{lema_tras_eliminar, tras_eliminar};
use crate::insercion::{lema_tras_insertar, tras_insertar};

verus! {

/// Balanced ordered trees are shallow: with `n` flights and height `h`,
/// 2 to the power of half of `h` (rounded up) is at most `n + 1`, so `h` is at
/// most about twice the base-2 logarithm of `n + 1`.
pub proof fn ley_altura_logaritmica(t: Option<Box<Nodo>>)
    requires
        es_avl(t),
    ensures
        pow2(((altura(t) + 1) / 2) as nat) <= contenido(t).dom().len() + 1,
{
    lema_altura_tamano(t);
}

proof fn lema_altura_tamano(t: Option<Box<Nodo>>)
    requires
        ordenado(t),
        equilibrado(t),
    ensures
        contenido(t).dom().finite(),
        pow2(((altura(t) + 1) / 2) as nat) <= contenido(t).dom().len() + 1,
    decreases t,
{
    lema_contenido_finito(t);
    match t {
        None => {
            vstd::arithmetic::power2::lemma2_to64();
        },
        Some(n) => {
            lema_altura_tamano(n.izquierdo);
            lema_altura_tamano(n.derecho);
            let di = contenido(n.izquierdo).dom();
            let dd = contenido(n.derecho).dom();
            assert(di.disjoint(dd)) by {
                assert forall|k: u32| di.contains(k) implies !dd.contains(k) by {
                    assert(k < n.vuelo.altitud);
                }
            }
            lemma_set_disjoint_lens(di, dd);
            assert(!(di + dd).contains(n.vuelo.altitud));
            assert(contenido(t).dom() =~= (di + dd).insert(n.vuelo.altitud));
            let hi = altura(n.izquierdo);
            let hd = altura(n.derecho);
            if hi >= hd {
                lema_paso_potencia(hi, hd);
            } else {
                lema_paso_potencia(hd, hi);
            }
        },
    }
}

/// A set of altitudes that all lie between `lo` and `hi` has at most
/// `hi - lo + 1` elements.
proof fn lema_conjunto_acotado(s: Set<u32>, lo: int, hi: int)
    requires
        s.finite(),
        forall|k: u32| #[trigger] s.contains(k) ==> lo <= k <= hi,
    ensures
        s.len() <= if hi >= lo {
            hi - lo + 1
        } else {
            0
        },
    decreases hi - lo + 1,
{
    if hi < lo || hi < 0 {
        assert(s =~= Set::empty());
    } else if hi > u32::MAX {
        assert forall|k: u32| #[trigger] s.contains(k) implies lo <= k <= hi - 1 by {}
        lema_conjunto_acotado(s, lo, hi - 1);
    } else {
        let top = hi as u32;
        let s2 = s.remove(top);
        lema_conjunto_acotado(s2, lo, hi - 1);
    }
}

/// The count of flights in a range never exceeds the number of altitudes in
/// it, and an empty range (`min > max`) holds none.
pub proof fn ley_rango_acotado(t: Option<Box<Nodo>>, min: u32, max: u32)
    ensures
        min <= max ==> en_rango(contenido(t).dom(), min, max).len() <= max - min + 1,
        min > max ==> en_rango(contenido(t).dom(), min, max).len() == 0,
{
    lema_contenido_finito(t);
    let f = |k: u32| min <= k && k <= max;
    contenido(t).dom().lemma_len_filter(f);
    lema_conjunto_acotado(en_rango(contenido(t).dom(), min, max), min as int, max as int);
}

/// Widening the range never lowers the count.
pub proof fn ley_ampliar_rango(t: Option<Box<Nodo>>, min: u32, max: u32, min2: u32, max2: u32)
    requires
        min2 <= min,
        max <= max2,
    ensures
        en_rango(contenido(t).dom(), min, max).len() <= en_rango(
            contenido(t).dom(),
            min2,
            max2,
        ).len(),
{
    lema_contenido_finito(t);
    let d = contenido(t).dom();
    d.lemma_len_filter(|k: u32| min2 <= k && k <= max2);
    lemma_len_subset(en_rango(d, min, max), en_rango(d, min2, max2));
}

/// The count over a range is the sum of the counts over two adjacent ranges
/// that split it.
pub proof fn ley_rango_partido(t: Option<Box<Nodo>>, min: u32, medio: u32, max: u32)
    requires
        min <= medio < max,
    ensures
        en_rango(contenido(t).dom(), min, max).len() == en_rango(contenido(t).dom(), min, medio).len()
            + en_rango(contenido(t).dom(), (medio + 1) as u32, max).len(),
{
    lema_contenido_finito(t);
    let d = contenido(t).dom();
    let a = en_rango(d, min, medio);
    let b = en_rango(d, (medio + 1) as u32, max);
    d.lemma_len_filter(|k: u32| min <= k && k <= medio);
    d.lemma_len_filter(|k: u32| (medio + 1) as u32 <= k && k <= max);
    assert(a.disjoint(b));
    lemma_set_disjoint_lens(a, b);
    assert(en_rango(d, min, max) =~= a + b);
}

/// Altitudes strictly increase along `s`.
pub open spec fn creciente(s: Seq<Vuelo>) -> bool {
    forall|i: int, j: int| 0 <= i < j < s.len() ==> #[trigger] s[i].altitud < #[trigger] s[j].altitud
}

/// In an ordered tree the in-order flights strictly increase in altitude and
/// are exactly the flights of the model.
proof fn lema_en_orden(t: Option<Box<Nodo>>)
    requires
        ordenado(t),
    ensures
        creciente(en_orden(t)),
        forall|x: Vuelo| #[trigger]
            en_orden(t).contains(x) <==> (contenido(t).dom().contains(x.altitud) && contenido(
                t,
            )[x.altitud] == x),
    decreases t,
{
    match t {
        None => {},
        Some(n) => {
            lema_en_orden(n.izquierdo);
            lema_en_orden(n.derecho);
            let a = en_orden(n.izquierdo);
            let b = en_orden(n.derecho);
            let s = en_orden(t);
            let k = n.vuelo.altitud;
            let ci = contenido(n.izquierdo);
            let cd = contenido(n.derecho);
            assert(s == a.push(n.vuelo) + b);
            assert forall|i: int| 0 <= i < a.len() implies #[trigger] a[i].altitud < k by {
                assert(a.contains(a[i]));
            }
            assert forall|i: int| 0 <= i < b.len() implies k < #[trigger] b[i].altitud by {
                assert(b.contains(b[i]));
            }
            assert forall|i: int, j: int| 0 <= i < j < s.len() implies #[trigger] s[i].altitud
                < #[trigger] s[j].altitud by {
                let la = a.len() as int;
                if j < la {
                    assert(s[i] == a[i] && s[j] == a[j]);
                } else if i > la {
                    assert(s[i] == b[i - la - 1] && s[j] == b[j - la - 1]);
                } else if i == la {
                    assert(s[j] == b[j - la - 1]);
                } else if j == la {
                    assert(s[i] == a[i]);
                } else {
                    assert(s[i] == a[i] && s[j] == b[j - la - 1]);
                }
            }
            assert forall|x: Vuelo| #[trigger] s.contains(x) implies (contenido(t).dom().contains(
                x.altitud,
            ) && contenido(t)[x.altitud] == x) by {
                let i = choose|i: int| 0 <= i < s.len() && s[i] == x;
                let la = a.len() as int;
                if i < la {
                    assert(a[i] == x);
                    assert(a.contains(x));
                    assert(ci.dom().contains(x.altitud));
                    if cd.dom().contains(x.altitud) {
                        assert(k < x.altitud);
                    }
                } else if i > la {
                    assert(b[i - la - 1] == x);
                    assert(b.contains(x));
                }
            }
            assert forall|x: Vuelo|
                contenido(t).dom().contains(x.altitud) && contenido(t)[x.altitud] == x implies #[trigger] s.contains(
                x,
            ) by {
                let la = a.len() as int;
                if x.altitud == k {
                    assert(s[la] == x);
                } else if cd.dom().contains(x.altitud) {
                    assert(b.contains(x));
                    let j = choose|j: int| 0 <= j < b.len() && b[j] == x;
                    assert(s[la + 1 + j] == x);
                } else {
                    assert(a.contains(x));
                    let j = choose|j: int| 0 <= j < a.len() && a[j] == x;
                    assert(s[j] == x);
                }
            }
        },
    }
}

/// Two sequences of strictly increasing altitude with the same flights are
/// equal.
proof fn lema_crecientes_iguales(s1: Seq<Vuelo>, s2: Seq<Vuelo>)
    requires
        creciente(s1),
        creciente(s2),
        forall|x: Vuelo| s1.contains(x) <==> s2.contains(x),
    ensures
        s1 == s2,
    decreases s1.len(),
{
    if s1.len() == 0 {
        if s2.len() > 0 {
            assert(s2.contains(s2[0]));
        }
        assert(s1 =~= s2);
    } else {
        assert(s1.contains(s1[0]));
        assert(s2.len() > 0);
        assert(s2.contains(s2[0]));
        let i = choose|i: int| 0 <= i < s1.len() && s1[i] == s2[0];
        let j = choose|j: int| 0 <= j < s2.len() && s2[j] == s1[0];
        if j > 0 {
            assert(s2[0].altitud < s2[j].altitud);
            if i > 0 {
                assert(s1[0].altitud < s1[i].altitud);
            }
        }
        assert(j == 0);
        let t1 = s1.drop_first();
        let t2 = s2.drop_first();
        assert forall|x: Vuelo| t1.contains(x) implies t2.contains(x) by {
            let a = choose|a: int| 0 <= a < t1.len() && t1[a] == x;
            assert(s1[a + 1] == x);
            assert(s1.contains(x));
            let b = choose|b: int| 0 <= b < s2.len() && s2[b] == x;
            assert(s1[0].altitud < s1[a + 1].altitud);
            assert(b != 0);
            assert(t2[b - 1] == x);
        }
        assert forall|x: Vuelo| t2.contains(x) implies t1.contains(x) by {
            let b = choose|b: int| 0 <= b < t2.len() && t2[b] == x;
            assert(s2[b + 1] == x);
            assert(s2.contains(x));
            let a = choose|a: int| 0 <= a < s1.len() && s1[a] == x;
            assert(s2[0].altitud < s2[b + 1].altitud);
            assert(a != 0);
            assert(t1[a - 1] == x);
        }
        assert forall|p: int, q: int| 0 <= p < q < t1.len() implies #[trigger] t1[p].altitud
            < #[trigger] t1[q].altitud by {
            assert(t1[p] == s1[p + 1] && t1[q] == s1[q + 1]);
        }
        assert forall|p: int, q: int| 0 <= p < q < t2.len() implies #[trigger] t2[p].altitud
            < #[trigger] t2[q].altitud by {
            assert(t2[p] == s2[p + 1] && t2[q] == s2[q + 1]);
        }
        lema_crecientes_iguales(t1, t2);
        assert(s1 =~= s2) by {
            assert forall|p: int| 0 <= p < s1.len() implies s1[p] == s2[p] by {
                if p > 0 {
                    assert(s1[p] == t1[p - 1] && s2[p] == t2[p - 1]);
                }
            }
        }
    }
}

/// Ordered trees holding the same flights list them in the same order, whatever
/// their shapes. So removing a flight just inserted at a free altitude gives
/// back the in-order sequence of flights there was before.
pub proof fn ley_en_orden_por_contenido(t1: Option<Box<Nodo>>, t2: Option<Box<Nodo>>)
    requires
        ordenado(t1),
        ordenado(t2),
        contenido(t1) == contenido(t2),
    ensures
        en_orden(t1) == en_orden(t2),
{
    lema_en_orden(t1);
    lema_en_orden(t2);
    lema_crecientes_iguales(en_orden(t1), en_orden(t2));
}

/// Removing the same altitude twice removes it once: the second removal
/// returns the tree it is given.
pub proof fn ley_eliminar_idempotente(t: Option<Box<Nodo>>, altitud: u32)
    requires
        es_avl(t),
    ensures
        tras_eliminar(tras_eliminar(t, altitud), altitud) == tras_eliminar(t, altitud),
{
    lema_tras_eliminar(t, altitud);
    lema_tras_eliminar(tras_eliminar(t, altitud), altitud);
}

/// Inserting the same flight twice inserts it once: the second insertion
/// returns the tree it is given.
pub proof fn ley_insertar_idempotente(t: Option<Box<Nodo>>, v: Vuelo)
    requires
        es_avl(t),
    ensures
        tras_insertar(Some(tras_insertar(t, v)), v) == tras_insertar(t, v),
{
    lema_tras_insertar(t, v);
    lema_tras_insertar(Some(tras_insertar(t, v)), v);
}

/// Removing the altitude of a flight just inserted at a free altitude gives
/// back the flights there were, in the same in-order sequence (the shape may
/// differ).
pub proof fn ley_insertar_eliminar_en_orden(t: Option<Box<Nodo>>, v: Vuelo)
    requires
        es_avl(t),
        !contenido(t).dom().contains(v.altitud),
    ensures
        contenido(tras_eliminar(Some(tras_insertar(t, v)), v.altitud)) == contenido(t),
        en_orden(tras_eliminar(Some(tras_insertar(t, v)), v.altitud)) == en_orden(t),
{
    lema_tras_insertar(t, v);
    let t1 = Some(tras_insertar(t, v));
    lema_tras_eliminar(t1, v.altitud);
    let t2 = tras_eliminar(t1, v.altitud);
    assert(contenido(t2) =~= contenido(t));
    ley_en_orden_por_contenido(t2, t);
}

/// After inserting a flight its altitude is taken; the flight stored there is
/// the new one unless the altitude was taken before; no other altitude changes.
pub proof fn ley_buscar_tras_insertar(m: Map<u32, Vuelo>, v: Vuelo)
    ensures
        con_vuelo(m, v).dom().contains(v.altitud),
        !m.dom().contains(v.altitud) ==> con_vuelo(m, v)[v.altitud] == v,
        m.dom().contains(v.altitud) ==> con_vuelo(m, v)[v.altitud] == m[v.altitud],
        forall|k: u32|
            k != v.altitud ==> (#[trigger] con_vuelo(m, v).dom().contains(k) == m.dom().contains(k)
                && (m.dom().contains(k) ==> con_vuelo(m, v)[k] == m[k])),
{
}

/// Inserting a flight at an altitude already taken changes nothing.
pub proof fn ley_insertar_duplicado(m: Map<u32, Vuelo>, v: Vuelo)
    requires
        m.dom().contains(v.altitud),
    ensures
        con_vuelo(m, v) == m,
{
}

/// After removing an altitude no flight is found there; the others stay.
pub proof fn ley_buscar_tras_eliminar(m: Map<u32, Vuelo>, altitud: u32)
    ensures
        !m.remove(altitud).dom().contains(altitud),
        forall|k: u32|
            k != altitud ==> (#[trigger] m.remove(altitud).dom().contains(k) == m.dom().contains(k)
                && (m.dom().contains(k) ==> m.remove(altitud)[k] == m[k])),
{
}

/// Removing an altitude that holds no flight changes nothing.
pub proof fn ley_eliminar_ausente(m: Map<u32, Vuelo>, altitud: u32)
    requires
        !m.dom().contains(altitud),
    ensures
        m.remove(altitud) == m,
{
    assert(m.remove(altitud) =~= m);
}

/// Removing the altitude of a flight just inserted at a free altitude gives
/// back the flights there were before.
pub proof fn ley_eliminar_deshace_insertar(m: Map<u32, Vuelo>, v: Vuelo)
    requires
        !m.dom().contains(v.altitud),
    ensures
        con_vuelo(m, v).remove(v.altitud) == m,
{
    assert(con_vuelo(m, v).remove(v.altitud) =~= m);
}

/// Inserting a flight whose altitude was free adds exactly one flight.
pub proof fn ley_insertar_cuenta(t: Option<Box<Nodo>>, v: Vuelo)
    ensures
        contenido(t).dom().contains(v.altitud) ==> con_vuelo(contenido(t), v).dom().len()
            == contenido(t).dom().len(),
        !contenido(t).dom().contains(v.altitud) ==> con_vuelo(contenido(t), v).dom().len()
            == contenido(t).dom().len() + 1,
{
    lema_contenido_finito(t);
}

} // verus!
