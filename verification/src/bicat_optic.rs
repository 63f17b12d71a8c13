//! The bicategory of dependent optics.
//!
//! 1-cells are witnesses, not equivalence classes. A 2-cell is a 2-cell of the
//! base that satisfies the generating relation of witnesses. Taking
//! connected components recovers equality of normal forms. Horizontal pasting
//! is the pullback of the apex maps, which is the pullback presentation of a
//! composite residual.
use vstd::prelude::*;
use crate::finset;
use crate::span::Span;
use crate::span::TwoCell;
use crate::theory::fun::Fun;
use crate::theory::spans::Sp;
use crate::theory::slices::OverMor;
use crate::theory::optics::Wit;

verus! {

/// The pair of two 2-cells on the composite apex: `(m, n) ↦ (inner(m), outer(n))`.
pub open spec fn pasted(outer_from: Sp, outer_to: Sp, outer: Fun, inner_from: Sp, inner_to: Sp, inner: Fun) -> Fun {
    let src = Sp::meet(outer_from, inner_from);
    let dst = Sp::meet(outer_to, inner_to);
    dst.med(inner.o(src.to_left), outer.o(src.to_right))
}

/// Paste 2-cells of composable spans. `outer` sits on the codomain side.
pub fn paste(
    outer_from: &Span,
    outer_to: &Span,
    outer: &TwoCell,
    inner_from: &Span,
    inner_to: &Span,
    inner: &TwoCell,
) -> (r: TwoCell)
    requires
        crate::theory::slices::is_cell(outer.map@, outer_from@, outer_to@),
        crate::theory::slices::is_cell(inner.map@, inner_from@, inner_to@),
        inner_from.right == outer_from.left,
        Sp::comp(outer_from@, inner_from@).apex <= u32::MAX,
        Sp::comp(outer_to@, inner_to@).apex <= u32::MAX,
    ensures
        r.map@ == pasted(outer_from@, outer_to@, outer.map@, inner_from@, inner_to@, inner.map@),
{
    proof {
        lemma_pasted(outer_from@, outer_to@, outer.map@, inner_from@, inner_to@, inner.map@);
        crate::theory::spans::lemma_comp_wf(outer_from@, inner_from@);
    }
    let src_pb = finset::pullback(&inner_from.to_right, &outer_from.to_left);
    let dst_pb = finset::pullback(&inner_to.to_right, &outer_to.to_left);
    proof {
        assert(finset::int_pairs(dst_pb.pairs@).len() == dst_pb.pairs@.len());
    }
    let f2 = finset::compose(&inner.map, &src_pb.to_left);
    let g2 = finset::compose(&outer.map, &src_pb.to_right);
    TwoCell { map: finset::pullback_mediator(&dst_pb, &f2, &g2) }
}

/// Pasting gives a 2-cell of the composites.
pub proof fn lemma_pasted(outer_from: Sp, outer_to: Sp, outer: Fun, inner_from: Sp, inner_to: Sp, inner: Fun)
    requires
        crate::theory::slices::is_cell(outer, outer_from, outer_to),
        crate::theory::slices::is_cell(inner, inner_from, inner_to),
        inner_from.right == outer_from.left,
    ensures
        crate::theory::slices::is_cell(
            pasted(outer_from, outer_to, outer, inner_from, inner_to, inner),
            Sp::comp(outer_from, inner_from),
            Sp::comp(outer_to, inner_to),
        ),
        ({
            let src = Sp::meet(outer_from, inner_from);
            let dst = Sp::meet(outer_to, inner_to);
            let p = pasted(outer_from, outer_to, outer, inner_from, inner_to, inner);
            &&& forall|w: int| 0 <= w < src.apex ==> dst.to_left.map[#[trigger] p.map[w]] == inner.map[src.to_left.map[w]]
                && dst.to_right.map[p.map[w]] == outer.map[src.to_right.map[w]]
            &&& forall|w: int| 0 <= w < src.apex ==> dst.lists(
                #[trigger] inner.o(src.to_left).map[w],
                outer.o(src.to_right).map[w],
            )
        }),
{
    let src = Sp::meet(outer_from, inner_from);
    let dst = Sp::meet(outer_to, inner_to);
    let p = pasted(outer_from, outer_to, outer, inner_from, inner_to, inner);
    crate::theory::spans::lemma_comp_wf(outer_from, inner_from);
    crate::theory::spans::lemma_comp_wf(outer_to, inner_to);
    crate::theory::limits::lemma_pull(inner_from.to_right, outer_from.to_left);
    let a = inner.o(src.to_left);
    let b = outer.o(src.to_right);
    assert forall|w: int| 0 <= w < src.apex implies inner_to.to_right.map[#[trigger] a.map[w]] == outer_to.to_left.map[b.map[w]] by {
        let x = src.to_left.map[w];
        let y = src.to_right.map[w];
        assert(inner_to.to_right.o(inner).map[x] == inner_to.to_right.map[inner.map[x]]);
        assert(outer_to.to_left.o(outer).map[y] == outer_to.to_left.map[outer.map[y]]);
    }
    crate::theory::spans::lemma_med(inner_to.to_right, outer_to.to_left, a, b);
    let cf = Sp::comp(outer_from, inner_from);
    let ct = Sp::comp(outer_to, inner_to);
    assert forall|w: int| 0 <= w < src.apex implies dst.to_left.map[#[trigger] p.map[w]] == inner.map[src.to_left.map[w]]
        && dst.to_right.map[p.map[w]] == outer.map[src.to_right.map[w]] by {
        assert(a.map[w] == inner.map[src.to_left.map[w]]);
        assert(b.map[w] == outer.map[src.to_right.map[w]]);
    }
    assert forall|w: int| 0 <= w < src.apex implies ct.to_left.o(p).map[w] == cf.to_left.map[w] && ct.to_right.o(p).map[w]
        == cf.to_right.map[w] by {
        let x = src.to_left.map[w];
        let y = src.to_right.map[w];
        assert(0 <= p.map[w] < dst.apex);
        assert(ct.to_left.map[p.map[w]] == inner_to.to_left.map[dst.to_left.map[p.map[w]]]);
        assert(ct.to_right.map[p.map[w]] == outer_to.to_right.map[dst.to_right.map[p.map[w]]]);
        assert(inner_to.to_left.o(inner).map[x] == inner_to.to_left.map[inner.map[x]]);
        assert(outer_to.to_right.o(outer).map[y] == outer_to.to_right.map[outer.map[y]]);
    }
    assert(ct.to_left.o(p) =~= cf.to_left);
    assert(ct.to_right.o(p) =~= cf.to_right);
}

/// Pasting keeps relatedness: if `m` takes `a` to `a2` and `n` takes `b` to
/// `b2`, then the pasted 2-cell takes `b ∘ a` to `b2 ∘ a2`. In particular the
/// two composites have one normal form.
pub proof fn law_paste_related(a: Wit, a2: Wit, m: Fun, b: Wit, b2: Wit, n: Fun)
    requires
        a.wf(),
        a2.wf(),
        b.wf(),
        b2.wf(),
        a.cod == b.dom,
        Wit::related(m, a, a2),
        Wit::related(n, b, b2),
    ensures
        Wit::related(pasted(b.span, b2.span, n, a.span, a2.span, m), Wit::comp(b, a), Wit::comp(b2, a2)),
        Wit::comp(b, a).normal() == Wit::comp(b2, a2).normal(),
{
    let p = pasted(b.span, b2.span, n, a.span, a2.span, m);
    lemma_pasted(b.span, b2.span, n, a.span, a2.span, m);
    crate::theory::optics::lemma_wit_comp(b, a);
    crate::theory::optics::lemma_wit_comp(b2, a2);
    let s = Wit::comp(b, a);
    let t = Wit::comp(b2, a2);
    let f = a.span;
    let g = b.span;
    let f2 = a2.span;
    let g2 = b2.span;
    let gf = s.span;
    let gf2 = t.span;
    let z = b.cod.forward;
    let zb = b.cod.backward;
    let y = a.cod.forward;
    let yb = a.cod.backward;
    crate::theory::slices::lemma_theta(f, g, z);
    crate::theory::slices::lemma_theta(f2, g2, z);
    crate::theory::slices::lemma_theta(f, g, zb);
    crate::theory::slices::lemma_theta(f2, g2, zb);
    crate::theory::slices::lemma_pull_mor(f, b.fwd);
    crate::theory::slices::lemma_pull_mor(f2, b2.fwd);
    crate::theory::slices::lemma_pull_mor(f, b.bwd);
    crate::theory::slices::lemma_pull_mor(f2, b2.bwd);
    crate::theory::slices::lemma_pull_wf(f, y);
    crate::theory::slices::lemma_pull_wf(f2, y);
    crate::theory::slices::lemma_pull_wf(f, yb);
    crate::theory::slices::lemma_pull_wf(f2, yb);
    crate::theory::slices::lemma_pull_wf(g, z);
    crate::theory::slices::lemma_pull_wf(g2, z);
    crate::theory::slices::lemma_pull_wf(g, zb);
    crate::theory::slices::lemma_pull_wf(g2, zb);
    crate::theory::slices::lemma_act(p, gf, gf2, z);
    crate::theory::slices::lemma_act(p, gf, gf2, zb);
    crate::theory::slices::lemma_act(m, f, f2, y);
    crate::theory::slices::lemma_act(m, f, f2, yb);
    crate::theory::slices::lemma_act(n, g, g2, z);
    crate::theory::slices::lemma_act(n, g, g2, zb);
    let pz = OverMor::act(p, gf, gf2, z);
    let pzb = OverMor::act(p, gf, gf2, zb);
    let my = OverMor::act(m, f, f2, y);
    let myb = OverMor::act(m, f, f2, yb);
    let nz = OverMor::act(n, g, g2, z);
    let nzb = OverMor::act(n, g, g2, zb);
    let th = OverMor::theta(f, g, z);
    let th2 = OverMor::theta(f2, g2, z);
    let fb = f.pull_mor(b.fwd);
    let fb2 = f2.pull_mor(b2.fwd);
    assert forall|x: int| 0 <= x < a.dom.forward.total implies #[trigger] pz.o(s.fwd).map.map[x] == t.fwd.map.map[x] by {
        let i0 = a.fwd.map.map[x];
        let i1 = fb.map.map[i0];
        let i2 = th.map.map[i1];
        assert(fb.o(a.fwd).map.map[x] == i1);
        assert(s.fwd.map.map[x] == i2);
        assert(pz.o(s.fwd).map.map[x] == pz.map.map[i2]);
        let j0 = a2.fwd.map.map[x];
        assert(my.o(a.fwd).map.map[x] == my.map.map[i0]);
        let j1 = fb2.map.map[j0];
        let j2 = th2.map.map[j1];
        assert(fb2.o(a2.fwd).map.map[x] == j1);
        assert(t.fwd.map.map[x] == j2);
        let v = f.fib(y).to_right.map[i0];
        assert(nz.o(b.fwd).map.map[v] == nz.map.map[b.fwd.map.map[v]]);
        crate::theory::slices::lemma_comp_fib_inj(f2, g2, z, pz.map.map[i2], j2);
    }
    assert(pz.o(s.fwd) =~= t.fwd);
    let ti = OverMor::theta_inv(f, g, zb);
    let ti2 = OverMor::theta_inv(f2, g2, zb);
    let rb = f.pull_mor(b.bwd);
    let rb2 = f2.pull_mor(b2.bwd);
    assert forall|k: int| 0 <= k < gf.pull(zb).total implies #[trigger] t.bwd.o(pzb).map.map[k] == s.bwd.map.map[k] by {
        let k2 = pzb.map.map[k];
        assert(t.bwd.o(pzb).map.map[k] == t.bwd.map.map[k2]);
        let i1 = ti.map.map[k];
        let i2 = rb.map.map[i1];
        assert(rb.o(ti).map.map[k] == i2);
        assert(s.bwd.map.map[k] == a.bwd.map.map[i2]);
        let j1 = ti2.map.map[k2];
        let j2 = rb2.map.map[j1];
        assert(rb2.o(ti2).map.map[k2] == j2);
        assert(t.bwd.map.map[k2] == a2.bwd.map.map[j2]);
        assert(a2.bwd.o(myb).map.map[i2] == a2.bwd.map.map[myb.map.map[i2]]);
        let u = f.fib(g.pull(zb)).to_right.map[i1];
        let u2 = f2.fib(g2.pull(zb)).to_right.map[j1];
        assert(b2.bwd.o(nzb).map.map[u] == b2.bwd.map.map[nzb.map.map[u]]);
        crate::theory::slices::lemma_fib_inj(g2, zb, nzb.map.map[u], u2);
        crate::theory::slices::lemma_fib_inj(f2, yb, myb.map.map[i2], j2);
    }
    assert(t.bwd.o(pzb) =~= s.bwd);
    crate::theory::optics::law_related_normal(p, s, t);
}

} // verus!
