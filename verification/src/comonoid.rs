//! Commutative comonoids and comodules in `(FinSet, ×)`.
//!
//! Every object has exactly one commutative comonoid structure, the diagonal.
//! A comodule over that structure is a morphism into the base, and `⊗_B` is a
//! pullback. Dependent monoidal lenses therefore have the same normal forms as
//! [`crate::dlens`].
use vstd::prelude::*;
use crate::finset;
use crate::finset::Mor;
use crate::slice;
use crate::slice::SliceObj;
use crate::span;
use crate::theory::fun::Fun;
use crate::theory::limits::Pull;
use crate::theory::limits::Prod;

verus! {

pub fn diagonal(a: u32) -> (r: Mor)
    requires
        a * a <= u32::MAX,
    ensures
        r@ == Fun::diagonal(a as int),
{
    let prod = finset::product(a, a);
    let mut map: Vec<u32> = Vec::new();
    let mut i: u32 = 0;
    while i < a
        invariant
            i <= a,
            a * a <= u32::MAX,
            map@.len() == i,
            forall|j: int| 0 <= j < i ==> map@[j] == j * a + j,
        decreases a - i,
    {
        proof {
            crate::theory::limits::lemma_pair_index(a as int, a as int, i as int, i as int);
        }
        map.push(finset::pair_index(a, i, i));
        i = i + 1;
    }
    Mor { dom: a, cod: prod.obj, map }
}

pub fn counit(a: u32) -> (r: Mor)
    ensures
        r@ == Fun::bang(a as int),
{
    finset::to_terminal(a)
}

/// `(f × g): A × C → B × D`.
pub fn times(f: &Mor, g: &Mor) -> (r: Mor)
    requires
        f.wf(),
        g.wf(),
        f.dom * g.dom <= u32::MAX,
        f.cod * g.cod <= u32::MAX,
    ensures
        r@ == Fun::times(f@, g@),
        r.wf(),
{
    proof {
        crate::theory::monoidal::lemma_times(f@, g@);
        assert(0 <= f.dom * g.dom && 0 <= f.cod * g.cod) by (nonlinear_arith)
            requires f.dom >= 0, g.dom >= 0, f.cod >= 0, g.cod >= 0;
    }
    let dom = finset::product(f.dom, g.dom);
    let cod = finset::product(f.cod, g.cod);
    let mut map: Vec<u32> = Vec::new();
    let mut k: u32 = 0;
    while k < dom.obj
        invariant
            k <= dom.obj,
            f.wf(),
            g.wf(),
            dom@ == Prod::of(f.dom as int, g.dom as int),
            dom.obj == f.dom * g.dom,
            f.cod * g.cod <= u32::MAX,
            map@.len() == k,
            forall|j: int| 0 <= j < k ==> map@[j] == Fun::times(f@, g@).map[j],
        decreases dom.obj - k,
    {
        proof {
            crate::theory::limits::lemma_unpair(f.dom as int, g.dom as int, k as int);
        }
        let i: u32 = f.apply(dom.fst.apply(k));
        let j: u32 = g.apply(dom.snd.apply(k));
        proof {
            crate::theory::limits::lemma_pair_index(f.cod as int, g.cod as int, i as int, j as int);
        }
        map.push(finset::pair_index(g.cod, i, j));
        k = k + 1;
    }
    let r = Mor { dom: dom.obj, cod: cod.obj, map };
    assert(r@ =~= Fun::times(f@, g@));
    r
}

/// `(f × f) ∘ δ = δ ∘ f` for every `f`, so every function is a comonoid homomorphism.
pub fn preserves_diagonal(f: &Mor) -> (r: bool)
    requires
        f.wf(),
        f.dom * f.dom <= u32::MAX,
        f.cod * f.cod <= u32::MAX,
    ensures
        r == (Fun::times(f@, f@).o(Fun::diagonal(f.dom as int)) == Fun::diagonal(f.cod as int).o(f@)),
        r,
{
    proof {
        crate::theory::monoidal::law_preserves_diagonal(f@);
        crate::theory::monoidal::lemma_times(f@, f@);
        assert forall|i: int| 0 <= i < f.dom implies 0 <= #[trigger] Fun::diagonal(f.dom as int).map[i] < f.dom * f.dom by {
            crate::theory::limits::lemma_pair_index(f.dom as int, f.dom as int, i, i);
        }
    }
    let left = finset::compose(&times(f, f), &diagonal(f.dom));
    let right = finset::compose(&diagonal(f.cod), f);
    left == right
}

/// The coaction `X → X × A` corresponding to a slice `X → A`.
pub fn coaction(leg: &Mor) -> (r: Mor)
    requires
        leg.wf(),
        leg.dom * leg.cod <= u32::MAX,
    ensures
        r@ == Prod::pair(Fun::id(leg.dom as int), leg@),
{
    let ids = finset::id(leg.dom);
    proof {
        assert forall|z: int| 0 <= z < ids.dom implies #[trigger] ids@.map[z] * leg.cod + leg@.map[z] <= u32::MAX by {
            crate::theory::limits::lemma_pair_index(leg.dom as int, leg.cod as int, z, leg@.map[z]);
        }
    }
    finset::pair(&ids, leg)
}

/// `M ⊗_B N` as the equalizer of the two coactions into `M × B × N`,
/// which on the diagonal comonoid is the pullback of the two legs.
pub fn tensor(m: &SliceObj, n: &SliceObj) -> (r: SliceObj)
    requires
        m.wf(),
        n.wf(),
        m.base == n.base,
        Pull::of(m.leg@, n.leg@).apex <= u32::MAX,
    ensures
        r@ == crate::theory::monoidal::tensor_over(m@, n@),
        r.wf(),
{
    proof {
        crate::theory::limits::lemma_pull(m.leg@, n.leg@);
    }
    let pb = finset::pullback(&m.leg, &n.leg);
    SliceObj { base: m.base, total: pb.apex, leg: finset::compose(&m.leg, &pb.to_left) }
}

/// The comodules over a base with at most `max_total` elements, in order.
/// On this cartesian base, comodules over a coproduct of
/// comonoids are pairs of comodules, which is lextensivity of slices.
pub fn comodules_over(base: u32, max_total: u32) -> (r: Vec<SliceObj>)
    ensures
        crate::theory::listing::views(r@) == crate::theory::listing::cat(
            max_total + 1,
            |total: int| slice::slice_block(base as int, total),
        ),
{
    let cards = finset::objects_up_to(max_total);
    let ghost f = |total: int| slice::slice_block(base as int, total);
    let mut out: Vec<SliceObj> = Vec::new();
    let mut j: usize = 0;
    assert(crate::theory::listing::views(out@) =~= crate::theory::listing::cat(0, f));
    while j < cards.len()
        invariant
            cards@ == Seq::new(max_total as nat + 1, |k: int| k as u32),
            j <= cards.len(),
            f == (|total: int| slice::slice_block(base as int, total)),
            crate::theory::listing::views(out@) == crate::theory::listing::cat(j as int, f),
        decreases cards.len() - j,
    {
        let total: u32 = cards[j];
        let legs = finset::morphisms(total, base);
        let ghost row = slice::slice_block(base as int, total as int);
        let ghost done = crate::theory::listing::views(out@);
        let mut k: usize = 0;
        proof {
            assert(done + row.take(0) =~= done);
            assert(span::funs_of(legs@) =~= span::all_funs(total as int, base as int));
        }
        while k < legs.len()
            invariant
                k <= legs.len(),
                span::funs_of(legs@) == span::all_funs(total as int, base as int),
                row == slice::slice_block(base as int, total as int),
                crate::theory::listing::views(out@) == done + row.take(k as int),
            decreases legs.len() - k,
        {
            let x = SliceObj { base, total, leg: legs[k].clone() };
            proof {
                crate::theory::listing::lemma_views_push(out@, x);
                assert(span::funs_of(legs@)[k as int] == legs@[k as int]@);
                assert(x@ =~= row[k as int]);
                assert(done + row.take(k + 1) =~= (done + row.take(k as int)).push(x@));
            }
            out.push(x);
            k = k + 1;
        }
        proof {
            assert(span::funs_of(legs@).len() == legs@.len());
            assert(row.take(k as int) =~= row);
        }
        j = j + 1;
    }
    out
}

} // verus!
