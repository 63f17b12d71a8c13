//! Spans and cospans of finite functions, and the laws of the bicategories
//! they form.
use vstd::prelude::*;
use crate::theory::fun::Fun;
use crate::theory::limits::Pull;

verus! {

/// A span `left ← apex → right`.
#[verifier::ext_equal]
pub struct Sp {
    pub left: int,
    pub right: int,
    pub apex: int,
    pub to_left: Fun,
    pub to_right: Fun,
}

impl Sp {
    pub open spec fn wf(self) -> bool {
        self.to_left.hom(self.apex, self.left) && self.to_right.hom(self.apex, self.right)
    }

    pub open spec fn id(a: int) -> Sp {
        Sp { left: a, right: a, apex: a, to_left: Fun::id(a), to_right: Fun::id(a) }
    }

    /// The span `A ←id— A —f→ B` of a function.
    pub open spec fn of_fun(f: Fun) -> Sp {
        Sp { left: f.dom, right: f.cod, apex: f.dom, to_left: Fun::id(f.dom), to_right: f }
    }

    /// The pullback that composes `f: A → B` with `g: B → C`.
    pub open spec fn meet(g: Sp, f: Sp) -> Pull {
        Pull::of(f.to_right, g.to_left)
    }

    /// `g ∘ f`.
    pub open spec fn comp(g: Sp, f: Sp) -> Sp {
        let pb = Sp::meet(g, f);
        Sp {
            left: f.left,
            right: g.right,
            apex: pb.apex,
            to_left: f.to_left.o(pb.to_left),
            to_right: g.to_right.o(pb.to_right),
        }
    }

    /// `m` is a 2-cell from this span to `to`: it commutes with both legs.
    pub open spec fn cell(self, m: Fun, to: Sp) -> bool {
        to.to_left.o(m) == self.to_left && to.to_right.o(m) == self.to_right
    }

    /// `ρ: f ∘ id → f`.
    pub open spec fn rho(f: Sp) -> Fun {
        Pull::of(Fun::id(f.left), f.to_left).to_right
    }

    /// `λ: id ∘ f → f`.
    pub open spec fn lambda(f: Sp) -> Fun {
        Pull::of(f.to_right, Fun::id(f.right)).to_left
    }

    /// `α: (h ∘ g) ∘ f → h ∘ (g ∘ f)`.
    pub open spec fn alpha(h: Sp, g: Sp, f: Sp) -> Fun {
        Tri { fr: f.to_right, gl: g.to_left, gr: g.to_right, hl: h.to_left }.fwd()
    }

    /// `g ∘ m: g ∘ f → g ∘ f2` for a 2-cell `m: f → f2`.
    pub open spec fn whisker_left(g: Sp, f: Sp, f2: Sp, m: Fun) -> Fun {
        let pb = Sp::meet(g, f);
        Sp::meet(g, f2).med(m.o(pb.to_left), pb.to_right)
    }

    /// `m ∘ f: g ∘ f → g2 ∘ f` for a 2-cell `m: g → g2`.
    pub open spec fn whisker_right(g: Sp, g2: Sp, f: Sp, m: Fun) -> Fun {
        let pb = Sp::meet(g, f);
        Sp::meet(g2, f).med(pb.to_left, m.o(pb.to_right))
    }
}

/// The functions around two consecutive pullbacks: `M → B ← N → C ← P`.
#[verifier::ext_equal]
pub struct Tri {
    pub fr: Fun,
    pub gl: Fun,
    pub gr: Fun,
    pub hl: Fun,
}

impl Tri {
    pub open spec fn wf(self) -> bool {
        &&& self.fr.wf()
        &&& self.gl.wf()
        &&& self.gr.wf()
        &&& self.hl.wf()
        &&& self.fr.cod == self.gl.cod
        &&& self.gl.dom == self.gr.dom
        &&& self.gr.cod == self.hl.cod
    }

    /// `N ×_C P`.
    pub open spec fn np(self) -> Pull {
        Pull::of(self.gr, self.hl)
    }

    /// `M ×_B (N ×_C P)`.
    pub open spec fn right_nested(self) -> Pull {
        Pull::of(self.fr, self.gl.o(self.np().to_left))
    }

    /// `M ×_B N`.
    pub open spec fn mn(self) -> Pull {
        Pull::of(self.fr, self.gl)
    }

    /// `(M ×_B N) ×_C P`.
    pub open spec fn left_nested(self) -> Pull {
        Pull::of(self.gr.o(self.mn().to_right), self.hl)
    }

    /// `(m, (n, p)) ↦ ((m, n), p)`.
    pub open spec fn fwd(self) -> Fun {
        let np = self.np();
        let mn = self.mn();
        let from = self.right_nested();
        let to = self.left_nested();
        Fun {
            dom: from.apex,
            cod: to.apex,
            map: Seq::new(from.apex as nat, |i: int| to.ix(
                mn.ix(from.to_left.map[i], np.to_left.map[from.to_right.map[i]]),
                np.to_right.map[from.to_right.map[i]],
            )),
        }
    }

    /// `((m, n), p) ↦ (m, (n, p))`.
    pub open spec fn bwd(self) -> Fun {
        let np = self.np();
        let mn = self.mn();
        let from = self.left_nested();
        let to = self.right_nested();
        Fun {
            dom: from.apex,
            cod: to.apex,
            map: Seq::new(from.apex as nat, |i: int| to.ix(
                mn.to_left.map[from.to_left.map[i]],
                np.ix(mn.to_right.map[from.to_left.map[i]], from.to_right.map[i]),
            )),
        }
    }
}

/// An element of a pullback is determined by its two projections.
pub proof fn lemma_pull_inj(f: Fun, g: Fun, i: int, j: int)
    requires
        f.wf(),
        g.wf(),
        0 <= i < Pull::of(f, g).apex,
        0 <= j < Pull::of(f, g).apex,
        Pull::of(f, g).to_left.map[i] == Pull::of(f, g).to_left.map[j],
        Pull::of(f, g).to_right.map[i] == Pull::of(f, g).to_right.map[j],
    ensures
        i == j,
{
    crate::theory::limits::lemma_pull(f, g);
}

/// A mediator into a pullback, element by element.
pub proof fn lemma_med(f: Fun, g: Fun, p: Fun, q: Fun)
    requires
        f.wf(),
        g.wf(),
        f.cod == g.cod,
        p.wf(),
        q.wf(),
        p.dom == q.dom,
        p.cod == f.dom,
        q.cod == g.dom,
        forall|w: int| 0 <= w < p.dom ==> f.map[#[trigger] p.map[w]] == g.map[q.map[w]],
    ensures
        Pull::of(f, g).med(p, q).hom(p.dom, Pull::of(f, g).apex),
        forall|w: int| 0 <= w < p.dom ==> {
            let i = #[trigger] Pull::of(f, g).med(p, q).map[w];
            Pull::of(f, g).to_left.map[i] == p.map[w] && Pull::of(f, g).to_right.map[i] == q.map[w]
        },
        forall|w: int| 0 <= w < p.dom ==> Pull::of(f, g).lists(#[trigger] p.map[w], q.map[w]),
{
    crate::theory::limits::lemma_pull(f, g);
    let pb = Pull::of(f, g);
    assert forall|w: int| 0 <= w < p.dom implies {
        let i = #[trigger] pb.med(p, q).map[w];
        0 <= i < pb.apex && pb.to_left.map[i] == p.map[w] && pb.to_right.map[i] == q.map[w]
    } by {
        assert(f.map[p.map[w]] == g.map[q.map[w]]);
        assert(pb.med(p, q).map[w] == pb.ix(p.map[w], q.map[w]));
    }
    assert forall|w: int| 0 <= w < p.dom implies pb.lists(#[trigger] p.map[w], q.map[w]) by {
        assert(f.map[p.map[w]] == g.map[q.map[w]]);
        let i = pb.ix(p.map[w], q.map[w]);
        assert(0 <= i < pb.apex);
    }
}

/// The two ways to nest pullbacks match component by component.
pub proof fn lemma_tri(t: Tri)
    requires
        t.wf(),
    ensures
        t.fwd().hom(t.right_nested().apex, t.left_nested().apex),
        t.bwd().hom(t.left_nested().apex, t.right_nested().apex),
        forall|i: int| 0 <= i < t.fwd().dom ==> {
            let j = #[trigger] t.fwd().map[i];
            let k = t.right_nested().to_right.map[i];
            &&& 0 <= k < t.np().apex
            &&& 0 <= t.left_nested().to_left.map[j] < t.mn().apex
            &&& t.mn().to_left.map[t.left_nested().to_left.map[j]] == t.right_nested().to_left.map[i]
            &&& t.mn().to_right.map[t.left_nested().to_left.map[j]] == t.np().to_left.map[k]
            &&& t.left_nested().to_right.map[j] == t.np().to_right.map[k]
        },
        forall|j: int| 0 <= j < t.bwd().dom ==> {
            let i = #[trigger] t.bwd().map[j];
            let k = t.right_nested().to_right.map[i];
            &&& 0 <= k < t.np().apex
            &&& 0 <= t.left_nested().to_left.map[j] < t.mn().apex
            &&& t.mn().to_left.map[t.left_nested().to_left.map[j]] == t.right_nested().to_left.map[i]
            &&& t.mn().to_right.map[t.left_nested().to_left.map[j]] == t.np().to_left.map[k]
            &&& t.left_nested().to_right.map[j] == t.np().to_right.map[k]
        },
{
    crate::theory::limits::lemma_pull(t.gr, t.hl);
    crate::theory::limits::lemma_pull(t.fr, t.gl);
    crate::theory::limits::lemma_pull(t.fr, t.gl.o(t.np().to_left));
    crate::theory::limits::lemma_pull(t.gr.o(t.mn().to_right), t.hl);
    let np = t.np();
    let mn = t.mn();
    let rn = t.right_nested();
    let ln = t.left_nested();
    assert forall|i: int| 0 <= i < rn.apex implies {
        let j = #[trigger] t.fwd().map[i];
        let k = rn.to_right.map[i];
        &&& 0 <= k < np.apex
        &&& 0 <= j < ln.apex
        &&& 0 <= ln.to_left.map[j] < mn.apex
        &&& mn.to_left.map[ln.to_left.map[j]] == rn.to_left.map[i]
        &&& mn.to_right.map[ln.to_left.map[j]] == np.to_left.map[k]
        &&& ln.to_right.map[j] == np.to_right.map[k]
    } by {
        let k = rn.to_right.map[i];
        let m = rn.to_left.map[i];
        let n = np.to_left.map[k];
        let p = np.to_right.map[k];
        assert(t.gl.o(np.to_left).map[k] == t.gl.map[n]);
        let mi = mn.ix(m, n);
        assert(mn.to_left.map[mi] == m && mn.to_right.map[mi] == n);
        assert(t.gr.o(mn.to_right).map[mi] == t.gr.map[n]);
        let j = ln.ix(mi, p);
        assert(ln.to_left.map[j] == mi);
    }
    assert forall|j: int| 0 <= j < ln.apex implies {
        let i = #[trigger] t.bwd().map[j];
        let k = rn.to_right.map[i];
        &&& 0 <= i < rn.apex
        &&& 0 <= k < np.apex
        &&& 0 <= ln.to_left.map[j] < mn.apex
        &&& mn.to_left.map[ln.to_left.map[j]] == rn.to_left.map[i]
        &&& mn.to_right.map[ln.to_left.map[j]] == np.to_left.map[k]
        &&& ln.to_right.map[j] == np.to_right.map[k]
    } by {
        let mi = ln.to_left.map[j];
        let p = ln.to_right.map[j];
        let m = mn.to_left.map[mi];
        let n = mn.to_right.map[mi];
        assert(t.gr.o(mn.to_right).map[mi] == t.gr.map[n]);
        let k = np.ix(n, p);
        assert(np.to_left.map[k] == n && np.to_right.map[k] == p);
        assert(t.gl.o(np.to_left).map[k] == t.gl.map[n]);
        let i = rn.ix(m, k);
        assert(rn.to_left.map[i] == m);
    }
}

/// The components of an element of the right-nested pullback are listed in the
/// other pullbacks.
pub proof fn lemma_tri_at(t: Tri, i: int)
    requires
        t.wf(),
        0 <= i < t.right_nested().apex,
    ensures
        ({
            let k = t.right_nested().to_right.map[i];
            let m = t.right_nested().to_left.map[i];
            let n = t.np().to_left.map[k];
            let p = t.np().to_right.map[k];
            &&& 0 <= k < t.np().apex
            &&& t.mn().lists(m, n)
            &&& 0 <= t.mn().ix(m, n) < t.mn().apex
            &&& t.left_nested().lists(t.mn().ix(m, n), p)
            &&& t.fwd().map[i] == t.left_nested().ix(t.mn().ix(m, n), p)
        }),
{
    crate::theory::limits::lemma_pull(t.gr, t.hl);
    crate::theory::limits::lemma_pull(t.fr, t.gl);
    crate::theory::limits::lemma_pull(t.fr, t.gl.o(t.np().to_left));
    crate::theory::limits::lemma_pull(t.gr.o(t.mn().to_right), t.hl);
    let k = t.right_nested().to_right.map[i];
    let m = t.right_nested().to_left.map[i];
    let n = t.np().to_left.map[k];
    let p = t.np().to_right.map[k];
    assert(t.gl.o(t.np().to_left).map[k] == t.gl.map[n]);
    let mi = t.mn().ix(m, n);
    assert(t.mn().to_right.map[mi] == n);
    assert(t.gr.o(t.mn().to_right).map[mi] == t.gr.map[n]);
    let j = t.left_nested().ix(mi, p);
    assert(t.left_nested().to_left.map[j] == mi);
}

/// An element of the left-nested pullback is determined by its three components.
pub proof fn lemma_left_nested_inj(t: Tri, i: int, j: int)
    requires
        t.wf(),
        0 <= i < t.left_nested().apex,
        0 <= j < t.left_nested().apex,
        t.mn().to_left.map[t.left_nested().to_left.map[i]] == t.mn().to_left.map[t.left_nested().to_left.map[j]],
        t.mn().to_right.map[t.left_nested().to_left.map[i]] == t.mn().to_right.map[t.left_nested().to_left.map[j]],
        t.left_nested().to_right.map[i] == t.left_nested().to_right.map[j],
    ensures
        i == j,
{
    crate::theory::limits::lemma_pull(t.fr, t.gl);
    crate::theory::limits::lemma_pull(t.gr.o(t.mn().to_right), t.hl);
    let ln = t.left_nested();
    assert(0 <= ln.to_left.map[i] < t.mn().apex && 0 <= ln.to_left.map[j] < t.mn().apex);
    lemma_pull_inj(t.fr, t.gl, ln.to_left.map[i], ln.to_left.map[j]);
    lemma_pull_inj(t.gr.o(t.mn().to_right), t.hl, i, j);
}

/// An element of the right-nested pullback is determined by its three components.
pub proof fn lemma_right_nested_inj(t: Tri, i: int, j: int)
    requires
        t.wf(),
        0 <= i < t.right_nested().apex,
        0 <= j < t.right_nested().apex,
        t.right_nested().to_left.map[i] == t.right_nested().to_left.map[j],
        t.np().to_left.map[t.right_nested().to_right.map[i]] == t.np().to_left.map[t.right_nested().to_right.map[j]],
        t.np().to_right.map[t.right_nested().to_right.map[i]] == t.np().to_right.map[t.right_nested().to_right.map[j]],
    ensures
        i == j,
{
    crate::theory::limits::lemma_pull(t.gr, t.hl);
    crate::theory::limits::lemma_pull(t.fr, t.gl.o(t.np().to_left));
    let rn = t.right_nested();
    assert(0 <= rn.to_right.map[i] < t.np().apex && 0 <= rn.to_right.map[j] < t.np().apex);
    lemma_pull_inj(t.gr, t.hl, rn.to_right.map[i], rn.to_right.map[j]);
    lemma_pull_inj(t.fr, t.gl.o(t.np().to_left), i, j);
}

/// Rebracketing nested pullbacks is a bijection.
pub proof fn lemma_tri_iso(t: Tri)
    requires
        t.wf(),
    ensures
        t.fwd().iso(),
        t.bwd().o(t.fwd()) == Fun::id(t.right_nested().apex),
        t.fwd().o(t.bwd()) == Fun::id(t.left_nested().apex),
        t.fwd().inv() == t.bwd(),
{
    lemma_tri(t);
    let f = t.fwd();
    let b = t.bwd();
    assert forall|i: int| 0 <= i < f.dom implies b.map[#[trigger] f.map[i]] == i by {
        lemma_right_nested_inj(t, i, b.map[f.map[i]]);
    }
    assert forall|j: int| 0 <= j < b.dom implies f.map[#[trigger] b.map[j]] == j by {
        lemma_left_nested_inj(t, j, f.map[b.map[j]]);
    }
    assert(b.o(f) =~= Fun::id(f.dom));
    assert(f.o(b) =~= Fun::id(b.dom));
    crate::theory::fun::lemma_two_sided(f, b);
}

/// The pullback along an identity.
pub proof fn lemma_pull_id_left(y: Fun)
    requires
        y.wf(),
    ensures
        Pull::of(Fun::id(y.cod), y).to_right.hom(Pull::of(Fun::id(y.cod), y).apex, y.dom),
        Pull::of(Fun::id(y.cod), y).to_right.iso(),
        Pull::of(Fun::id(y.cod), y).med(y, Fun::id(y.dom)).hom(y.dom, Pull::of(Fun::id(y.cod), y).apex),
        Pull::of(Fun::id(y.cod), y).to_right.inv() == Pull::of(Fun::id(y.cod), y).med(y, Fun::id(y.dom)),
        Pull::of(Fun::id(y.cod), y).to_right.o(Pull::of(Fun::id(y.cod), y).med(y, Fun::id(y.dom))) == Fun::id(y.dom),
        Pull::of(Fun::id(y.cod), y).med(y, Fun::id(y.dom)).o(Pull::of(Fun::id(y.cod), y).to_right)
            == Fun::id(Pull::of(Fun::id(y.cod), y).apex),
        forall|i: int| 0 <= i < Pull::of(Fun::id(y.cod), y).apex ==> #[trigger] Pull::of(Fun::id(y.cod), y).to_left.map[i]
            == y.map[Pull::of(Fun::id(y.cod), y).to_right.map[i]],
        forall|w: int| 0 <= w < y.dom ==> {
            let i = #[trigger] Pull::of(Fun::id(y.cod), y).med(y, Fun::id(y.dom)).map[w];
            Pull::of(Fun::id(y.cod), y).to_left.map[i] == y.map[w] && Pull::of(Fun::id(y.cod), y).to_right.map[i] == w
        },
{
    let n = Fun::id(y.cod);
    let pb = Pull::of(n, y);
    crate::theory::limits::lemma_pull(n, y);
    assert forall|w: int| 0 <= w < y.dom implies n.map[#[trigger] y.map[w]] == y.map[Fun::id(y.dom).map[w]] by {
    }
    lemma_med(n, y, y, Fun::id(y.dom));
    let m = pb.med(y, Fun::id(y.dom));
    assert forall|w: int| 0 <= w < y.dom implies pb.to_right.map[#[trigger] m.map[w]] == w by {
        assert(Fun::id(y.dom).map[w] == w);
    }
    assert forall|i: int| 0 <= i < pb.apex implies #[trigger] pb.to_left.map[i] == y.map[pb.to_right.map[i]] by {
        assert(n.map[pb.to_left.map[i]] == pb.to_left.map[i]);
    }
    assert forall|i: int| 0 <= i < pb.apex implies m.map[#[trigger] pb.to_right.map[i]] == i by {
        let w = pb.to_right.map[i];
        assert(pb.to_left.map[i] == y.map[w]);
        lemma_pull_inj(n, y, i, m.map[w]);
    }
    assert(pb.to_right.o(m) =~= Fun::id(y.dom));
    assert(m.o(pb.to_right) =~= Fun::id(pb.apex));
    crate::theory::fun::lemma_two_sided(pb.to_right, m);
}

/// The pullback of a function along an identity on the right.
pub proof fn lemma_pull_id_right(y: Fun)
    requires
        y.wf(),
    ensures
        Pull::of(y, Fun::id(y.cod)).to_left.hom(Pull::of(y, Fun::id(y.cod)).apex, y.dom),
        Pull::of(y, Fun::id(y.cod)).to_left.iso(),
        Pull::of(y, Fun::id(y.cod)).to_left.inv() == Pull::of(y, Fun::id(y.cod)).med(Fun::id(y.dom), y),
        Pull::of(y, Fun::id(y.cod)).med(Fun::id(y.dom), y).hom(y.dom, Pull::of(y, Fun::id(y.cod)).apex),
        forall|i: int| 0 <= i < Pull::of(y, Fun::id(y.cod)).apex ==> #[trigger] Pull::of(y, Fun::id(y.cod)).to_right.map[i]
            == y.map[Pull::of(y, Fun::id(y.cod)).to_left.map[i]],
        forall|w: int| 0 <= w < y.dom ==> {
            let i = #[trigger] Pull::of(y, Fun::id(y.cod)).med(Fun::id(y.dom), y).map[w];
            Pull::of(y, Fun::id(y.cod)).to_left.map[i] == w && Pull::of(y, Fun::id(y.cod)).to_right.map[i] == y.map[w]
        },
{
    let n = Fun::id(y.cod);
    let pb = Pull::of(y, n);
    crate::theory::limits::lemma_pull(y, n);
    assert forall|w: int| 0 <= w < y.dom implies y.map[#[trigger] Fun::id(y.dom).map[w]] == n.map[y.map[w]] by {
    }
    lemma_med(y, n, Fun::id(y.dom), y);
    let m = pb.med(Fun::id(y.dom), y);
    assert forall|w: int| 0 <= w < y.dom implies pb.to_left.map[#[trigger] m.map[w]] == w by {
        assert(Fun::id(y.dom).map[w] == w);
    }
    assert forall|i: int| 0 <= i < pb.apex implies #[trigger] pb.to_right.map[i] == y.map[pb.to_left.map[i]] by {
        assert(n.map[pb.to_right.map[i]] == pb.to_right.map[i]);
    }
    assert forall|i: int| 0 <= i < pb.apex implies m.map[#[trigger] pb.to_left.map[i]] == i by {
        let w = pb.to_left.map[i];
        assert(pb.to_right.map[i] == y.map[w]);
        lemma_pull_inj(y, n, i, m.map[w]);
    }
    assert(pb.to_left.o(m) =~= Fun::id(y.dom));
    assert(m.o(pb.to_left) =~= Fun::id(pb.apex));
    crate::theory::fun::lemma_two_sided(pb.to_left, m);
}

/// The composite of spans is a span between the outer feet.
pub proof fn lemma_comp_wf(g: Sp, f: Sp)
    requires
        f.wf(),
        g.wf(),
        f.right == g.left,
    ensures
        Sp::comp(g, f).wf(),
        Sp::comp(g, f).left == f.left,
        Sp::comp(g, f).right == g.right,
        Sp::meet(g, f).to_left.hom(Sp::comp(g, f).apex, f.apex),
        Sp::meet(g, f).to_right.hom(Sp::comp(g, f).apex, g.apex),
{
    crate::theory::limits::lemma_pull(f.to_right, g.to_left);
}

/// Both unitors are invertible 2-cells.
pub proof fn law_span_unitors(f: Sp)
    requires
        f.wf(),
    ensures
        Sp::comp(f, Sp::id(f.left)).cell(Sp::rho(f), f),
        Sp::rho(f).hom(Sp::comp(f, Sp::id(f.left)).apex, f.apex),
        Sp::rho(f).iso(),
        Sp::comp(Sp::id(f.right), f).cell(Sp::lambda(f), f),
        Sp::lambda(f).hom(Sp::comp(Sp::id(f.right), f).apex, f.apex),
        Sp::lambda(f).iso(),
{
    lemma_pull_id_left(f.to_left);
    lemma_pull_id_right(f.to_right);
    let c = Sp::comp(f, Sp::id(f.left));
    let pb = Pull::of(Fun::id(f.left), f.to_left);
    crate::theory::limits::lemma_pull(Fun::id(f.left), f.to_left);
    assert(f.to_left.o(Sp::rho(f)) =~= c.to_left);
    assert(f.to_right.o(Sp::rho(f)) =~= c.to_right);
    let d = Sp::comp(Sp::id(f.right), f);
    crate::theory::limits::lemma_pull(f.to_right, Fun::id(f.right));
    assert(f.to_left.o(Sp::lambda(f)) =~= d.to_left);
    assert(f.to_right.o(Sp::lambda(f)) =~= d.to_right);
}

pub open spec fn composable(h: Sp, g: Sp, f: Sp) -> bool {
    h.wf() && g.wf() && f.wf() && f.right == g.left && g.right == h.left
}

pub open spec fn span_tri(h: Sp, g: Sp, f: Sp) -> Tri {
    Tri { fr: f.to_right, gl: g.to_left, gr: g.to_right, hl: h.to_left }
}

/// The associator is an invertible 2-cell `(h ∘ g) ∘ f → h ∘ (g ∘ f)` that
/// matches the three components.
pub proof fn law_span_associator(h: Sp, g: Sp, f: Sp)
    requires
        composable(h, g, f),
    ensures
        Sp::alpha(h, g, f).hom(Sp::comp(Sp::comp(h, g), f).apex, Sp::comp(h, Sp::comp(g, f)).apex),
        Sp::comp(Sp::comp(h, g), f).cell(Sp::alpha(h, g, f), Sp::comp(h, Sp::comp(g, f))),
        Sp::alpha(h, g, f).iso(),
{
    let t = span_tri(h, g, f);
    lemma_tri(t);
    lemma_tri_iso(t);
    lemma_comp_wf(g, f);
    lemma_comp_wf(h, g);
    let l = Sp::comp(Sp::comp(h, g), f);
    let r = Sp::comp(h, Sp::comp(g, f));
    lemma_comp_wf(Sp::comp(h, g), f);
    lemma_comp_wf(h, Sp::comp(g, f));
    let a = Sp::alpha(h, g, f);
    assert(Sp::meet(Sp::comp(h, g), f) == t.right_nested());
    assert(Sp::meet(h, Sp::comp(g, f)) == t.left_nested());
    assert forall|i: int| 0 <= i < a.dom implies r.to_left.map[#[trigger] a.map[i]] == l.to_left.map[i]
        && r.to_right.map[a.map[i]] == l.to_right.map[i] by {
        let j = a.map[i];
        let mi = t.left_nested().to_left.map[j];
        assert(Sp::comp(g, f).to_left.map[mi] == f.to_left.map[t.mn().to_left.map[mi]]);
        let k = t.right_nested().to_right.map[i];
        assert(Sp::comp(h, g).to_right.map[k] == h.to_right.map[t.np().to_right.map[k]]);
    }
    assert(r.to_left.o(a) =~= l.to_left);
    assert(r.to_right.o(a) =~= l.to_right);
}

/// The triangle: rebracketing over an identity and dropping it on the one side
/// is dropping it on the other.
pub proof fn law_span_triangle(g: Sp, f: Sp)
    requires
        f.wf(),
        g.wf(),
        f.right == g.left,
    ensures
        Sp::whisker_left(g, Sp::comp(Sp::id(f.right), f), f, Sp::lambda(f)).o(Sp::alpha(g, Sp::id(f.right), f))
            == Sp::whisker_right(Sp::comp(g, Sp::id(f.right)), g, f, Sp::rho(g)),
{
    let e = Sp::id(f.right);
    let t = span_tri(g, e, f);
    lemma_tri(t);
    lemma_comp_wf(e, f);
    lemma_comp_wf(g, e);
    lemma_comp_wf(g, f);
    let ef = Sp::comp(e, f);
    let ge = Sp::comp(g, e);
    lemma_comp_wf(g, ef);
    lemma_comp_wf(ge, f);
    law_span_unitors(f);
    law_span_unitors(g);
    lemma_pull_id_right(f.to_right);
    lemma_pull_id_left(g.to_left);
    let a = Sp::alpha(g, e, f);
    let lf = Sp::lambda(f);
    let rg = Sp::rho(g);
    crate::theory::limits::lemma_pull(f.to_right, g.to_left);
    crate::theory::limits::lemma_pull(ef.to_right, g.to_left);
    crate::theory::limits::lemma_pull(f.to_right, ge.to_left);
    let pl = Sp::meet(g, ef);
    let pr = Sp::meet(ge, f);
    assert(pl == t.left_nested());
    assert(pr == t.right_nested());
    assert forall|w: int| 0 <= w < pl.apex implies f.to_right.map[#[trigger] lf.o(pl.to_left).map[w]]
        == g.to_left.map[pl.to_right.map[w]] by {
        let i = pl.to_left.map[w];
        assert(f.to_right.o(lf).map[i] == f.to_right.map[lf.map[i]]);
        assert(ef.to_right.map[i] == f.to_right.map[lf.map[i]]);
    }
    lemma_med(f.to_right, g.to_left, lf.o(pl.to_left), pl.to_right);
    assert forall|w: int| 0 <= w < pr.apex implies f.to_right.map[#[trigger] pr.to_left.map[w]]
        == g.to_left.map[rg.o(pr.to_right).map[w]] by {
        let i = pr.to_right.map[w];
        assert(g.to_left.o(rg).map[i] == g.to_left.map[rg.map[i]]);
        assert(ge.to_left.map[i] == g.to_left.map[rg.map[i]]);
    }
    lemma_med(f.to_right, g.to_left, pr.to_left, rg.o(pr.to_right));
    let wl = Sp::whisker_left(g, ef, f, lf);
    let wr = Sp::whisker_right(ge, g, f, rg);
    assert forall|i: int| 0 <= i < a.dom implies wl.map[#[trigger] a.map[i]] == wr.map[i] by {
        let j = a.map[i];
        let target = Sp::meet(g, f);
        assert(0 <= wl.map[j] < target.apex);
        assert(0 <= wr.map[i] < target.apex);
        assert(lf.o(pl.to_left).map[j] == lf.map[pl.to_left.map[j]]);
        assert(rg.o(pr.to_right).map[i] == rg.map[pr.to_right.map[i]]);
        assert(target.to_left.map[wl.map[j]] == target.to_left.map[wr.map[i]]);
        assert(target.to_right.map[wl.map[j]] == target.to_right.map[wr.map[i]]);
        lemma_pull_inj(f.to_right, g.to_left, wl.map[j], wr.map[i]);
    }
    assert(wl.o(a) =~= wr);
}

/// 2-cells compose vertically, with identities.
pub proof fn law_two_cells_compose(f: Sp, g: Sp, h: Sp, m: Fun, n: Fun)
    requires
        f.wf(),
        g.wf(),
        h.wf(),
        m.hom(f.apex, g.apex),
        n.hom(g.apex, h.apex),
        f.cell(m, g),
        g.cell(n, h),
    ensures
        f.cell(n.o(m), h),
        f.cell(Fun::id(f.apex), f),
{
    crate::theory::fun::law_associative(h.to_left, n, m);
    crate::theory::fun::law_associative(h.to_right, n, m);
    crate::theory::fun::law_identity(f.to_left);
    crate::theory::fun::law_identity(f.to_right);
}

} // verus!
