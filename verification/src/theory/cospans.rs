//! Cospans of finite functions, composed by pushouts.
use vstd::prelude::*;
use crate::theory::fun::Fun;
use crate::theory::colimits::Push;

verus! {

/// A cospan `left → apex ← right`.
#[verifier::ext_equal]
pub struct Cosp {
    pub left: int,
    pub right: int,
    pub apex: int,
    pub from_left: Fun,
    pub from_right: Fun,
}

impl Cosp {
    pub open spec fn wf(self) -> bool {
        self.from_left.hom(self.left, self.apex) && self.from_right.hom(self.right, self.apex)
    }

    pub open spec fn id(a: int) -> Cosp {
        Cosp { left: a, right: a, apex: a, from_left: Fun::id(a), from_right: Fun::id(a) }
    }

    /// The pushout that composes `f: A → B` with `g: B → C`.
    pub open spec fn join(g: Cosp, f: Cosp) -> Push {
        Push::of(f.from_right, g.from_left)
    }

    /// `g ∘ f`.
    pub open spec fn comp(g: Cosp, f: Cosp) -> Cosp {
        let po = Cosp::join(g, f);
        Cosp {
            left: f.left,
            right: g.right,
            apex: po.apex,
            from_left: po.from_left.o(f.from_left),
            from_right: po.from_right.o(g.from_right),
        }
    }

    /// `m` is a 2-cell from this cospan to `to`: it commutes with both legs.
    pub open spec fn cell(self, m: Fun, to: Cosp) -> bool {
        m.o(self.from_left) == to.from_left && m.o(self.from_right) == to.from_right
    }

    /// `f ∘ id → f`.
    pub open spec fn rho(f: Cosp) -> Fun {
        Push::of(Fun::id(f.left), f.from_left).from_right.inv()
    }

    /// `id ∘ f → f`.
    pub open spec fn lambda(f: Cosp) -> Fun {
        Push::of(f.from_right, Fun::id(f.right)).from_left.inv()
    }

    /// `(h ∘ g) ∘ f → h ∘ (g ∘ f)`, on generators of the three apices.
    pub open spec fn alpha(h: Cosp, g: Cosp, f: Cosp) -> Fun {
        cospan_tri(h, g, f).fwd()
    }
}

pub open spec fn cospan_tri(h: Cosp, g: Cosp, f: Cosp) -> CoTri {
    CoTri { fr: f.from_right, gl: g.from_left, gr: g.from_right, hl: h.from_left }
}

pub open spec fn cocomposable(h: Cosp, g: Cosp, f: Cosp) -> bool {
    h.wf() && g.wf() && f.wf() && f.right == g.left && g.right == h.left
}

/// The functions around two consecutive pushouts: `F ← B → G ← C → H`.
#[verifier::ext_equal]
pub struct CoTri {
    pub fr: Fun,
    pub gl: Fun,
    pub gr: Fun,
    pub hl: Fun,
}

impl CoTri {
    pub open spec fn wf(self) -> bool {
        &&& self.fr.wf()
        &&& self.gl.wf()
        &&& self.gr.wf()
        &&& self.hl.wf()
        &&& self.fr.dom == self.gl.dom
        &&& self.gl.cod == self.gr.cod
        &&& self.gr.dom == self.hl.dom
    }

    /// `G ⊔_C H`.
    pub open spec fn gh(self) -> Push {
        Push::of(self.gr, self.hl)
    }

    /// `B → G ⊔_C H`.
    pub open spec fn into_gh(self) -> Fun {
        self.gh().from_left.o(self.gl)
    }

    /// `F ⊔_B (G ⊔_C H)`.
    pub open spec fn right_nested(self) -> Push {
        Push::of(self.fr, self.into_gh())
    }

    /// `F ⊔_B G`.
    pub open spec fn fg(self) -> Push {
        Push::of(self.fr, self.gl)
    }

    /// `C → F ⊔_B G`.
    pub open spec fn into_fg(self) -> Fun {
        self.fg().from_right.o(self.gr)
    }

    /// `(F ⊔_B G) ⊔_C H`.
    pub open spec fn left_nested(self) -> Push {
        Push::of(self.into_fg(), self.hl)
    }

    pub open spec fn fwd_gh(self) -> Fun {
        self.gh().med(self.left_nested().from_left.o(self.fg().from_right), self.left_nested().from_right)
    }

    pub open spec fn fwd(self) -> Fun {
        self.right_nested().med(self.left_nested().from_left.o(self.fg().from_left), self.fwd_gh())
    }

    pub open spec fn bwd_fg(self) -> Fun {
        self.fg().med(self.right_nested().from_left, self.right_nested().from_right.o(self.gh().from_left))
    }

    pub open spec fn bwd(self) -> Fun {
        self.left_nested().med(self.bwd_fg(), self.right_nested().from_right.o(self.gh().from_right))
    }
}

/// The pushouts around two consecutive pushouts.
pub proof fn lemma_cotri_wf(t: CoTri)
    requires
        t.wf(),
    ensures
        t.gh().from_left.hom(t.gr.cod, t.gh().apex),
        t.gh().from_right.hom(t.hl.cod, t.gh().apex),
        t.into_gh().hom(t.gl.dom, t.gh().apex),
        t.fg().from_left.hom(t.fr.cod, t.fg().apex),
        t.fg().from_right.hom(t.gl.cod, t.fg().apex),
        t.into_fg().hom(t.gr.dom, t.fg().apex),
        t.right_nested().from_left.hom(t.fr.cod, t.right_nested().apex),
        t.right_nested().from_right.hom(t.gh().apex, t.right_nested().apex),
        t.left_nested().from_left.hom(t.fg().apex, t.left_nested().apex),
        t.left_nested().from_right.hom(t.hl.cod, t.left_nested().apex),
        forall|b: int| 0 <= b < t.fr.dom ==> t.fg().from_left.map[#[trigger] t.fr.map[b]] == t.fg().from_right.map[t.gl.map[b]],
        forall|c: int| 0 <= c < t.gr.dom ==> t.gh().from_left.map[#[trigger] t.gr.map[c]] == t.gh().from_right.map[t.hl.map[c]],
        forall|b: int| 0 <= b < t.fr.dom ==> t.right_nested().from_left.map[#[trigger] t.fr.map[b]]
            == t.right_nested().from_right.map[t.gh().from_left.map[t.gl.map[b]]],
        forall|c: int| 0 <= c < t.gr.dom ==> t.left_nested().from_left.map[t.fg().from_right.map[#[trigger] t.gr.map[c]]]
            == t.left_nested().from_right.map[t.hl.map[c]],
{
    crate::theory::colimits::lemma_push(t.gr, t.hl);
    crate::theory::colimits::lemma_push(t.fr, t.gl);
    crate::theory::colimits::lemma_push(t.fr, t.into_gh());
    crate::theory::colimits::lemma_push(t.into_fg(), t.hl);
    assert forall|b: int| 0 <= b < t.fr.dom implies t.right_nested().from_left.map[#[trigger] t.fr.map[b]]
        == t.right_nested().from_right.map[t.gh().from_left.map[t.gl.map[b]]] by {
        assert(t.into_gh().map[b] == t.gh().from_left.map[t.gl.map[b]]);
    }
    assert forall|c: int| 0 <= c < t.gr.dom implies t.left_nested().from_left.map[t.fg().from_right.map[#[trigger] t.gr.map[c]]]
        == t.left_nested().from_right.map[t.hl.map[c]] by {
        assert(t.into_fg().map[c] == t.fg().from_right.map[t.gr.map[c]]);
    }
}

/// The two ways to nest pushouts match on the generators.
pub proof fn lemma_cotri(t: CoTri)
    requires
        t.wf(),
    ensures
        t.fwd().hom(t.right_nested().apex, t.left_nested().apex),
        t.bwd().hom(t.left_nested().apex, t.right_nested().apex),
        forall|i: int| 0 <= i < t.fr.cod ==> t.fwd().map[#[trigger] t.right_nested().from_left.map[i]]
            == t.left_nested().from_left.map[t.fg().from_left.map[i]],
        forall|i: int| 0 <= i < t.gl.cod ==> t.fwd().map[t.right_nested().from_right.map[#[trigger] t.gh().from_left.map[i]]]
            == t.left_nested().from_left.map[t.fg().from_right.map[i]],
        forall|i: int| 0 <= i < t.hl.cod ==> t.fwd().map[t.right_nested().from_right.map[#[trigger] t.gh().from_right.map[i]]]
            == t.left_nested().from_right.map[i],
        forall|i: int| 0 <= i < t.fr.cod ==> t.bwd().map[t.left_nested().from_left.map[#[trigger] t.fg().from_left.map[i]]]
            == t.right_nested().from_left.map[i],
        forall|i: int| 0 <= i < t.gl.cod ==> t.bwd().map[t.left_nested().from_left.map[#[trigger] t.fg().from_right.map[i]]]
            == t.right_nested().from_right.map[t.gh().from_left.map[i]],
        forall|i: int| 0 <= i < t.hl.cod ==> t.bwd().map[#[trigger] t.left_nested().from_right.map[i]]
            == t.right_nested().from_right.map[t.gh().from_right.map[i]],
{
    lemma_cotri_wf(t);
    let gh = t.gh();
    let fg = t.fg();
    let rn = t.right_nested();
    let ln = t.left_nested();
    // fwd
    let a = ln.from_left.o(fg.from_right);
    crate::theory::colimits::lemma_push_med(t.gr, t.hl, a, ln.from_right);
    let b = ln.from_left.o(fg.from_left);
    let u = t.fwd_gh();
    assert forall|z: int| 0 <= z < t.fr.dom implies b.map[#[trigger] t.fr.map[z]] == u.map[t.into_gh().map[z]] by {
        assert(t.into_gh().map[z] == gh.from_left.map[t.gl.map[z]]);
        assert(u.map[gh.from_left.map[t.gl.map[z]]] == a.map[t.gl.map[z]]);
    }
    crate::theory::colimits::lemma_push_med(t.fr, t.into_gh(), b, u);
    // bwd
    let c = rn.from_right.o(gh.from_left);
    crate::theory::colimits::lemma_push_med(t.fr, t.gl, rn.from_left, c);
    let d = rn.from_right.o(gh.from_right);
    let v = t.bwd_fg();
    assert forall|z: int| 0 <= z < t.gr.dom implies v.map[#[trigger] t.into_fg().map[z]] == d.map[t.hl.map[z]] by {
        assert(t.into_fg().map[z] == fg.from_right.map[t.gr.map[z]]);
        assert(v.map[fg.from_right.map[t.gr.map[z]]] == c.map[t.gr.map[z]]);
        assert(gh.from_left.map[t.gr.map[z]] == gh.from_right.map[t.hl.map[z]]);
    }
    crate::theory::colimits::lemma_push_med(t.into_fg(), t.hl, v, d);
}

/// Rebracketing nested pushouts is a bijection.
pub proof fn lemma_cotri_iso(t: CoTri)
    requires
        t.wf(),
    ensures
        t.fwd().iso(),
        t.bwd().o(t.fwd()) == Fun::id(t.right_nested().apex),
        t.fwd().o(t.bwd()) == Fun::id(t.left_nested().apex),
        t.fwd().inv() == t.bwd(),
{
    lemma_cotri_wf(t);
    lemma_cotri(t);
    let f = t.fwd();
    let b = t.bwd();
    let gh = t.gh();
    let fg = t.fg();
    assert forall|c: int| 0 <= c < f.dom implies b.map[#[trigger] f.map[c]] == c by {
        let r = crate::theory::colimits::lemma_push_cases(t.fr, t.into_gh(), c);
        if r.0 {
            assert(fg.from_left.map[r.1] >= 0);
        } else {
            let s = crate::theory::colimits::lemma_push_cases(t.gr, t.hl, r.1);
            if s.0 {
                assert(fg.from_right.map[s.1] >= 0);
            }
        }
    }
    assert forall|c: int| 0 <= c < b.dom implies f.map[#[trigger] b.map[c]] == c by {
        let r = crate::theory::colimits::lemma_push_cases(t.into_fg(), t.hl, c);
        if r.0 {
            let s = crate::theory::colimits::lemma_push_cases(t.fr, t.gl, r.1);
            if !s.0 {
                assert(gh.from_left.map[s.1] >= 0);
            }
        } else {
            assert(gh.from_right.map[r.1] >= 0);
        }
    }
    assert(b.o(f) =~= Fun::id(f.dom));
    assert(f.o(b) =~= Fun::id(b.dom));
    crate::theory::fun::lemma_two_sided(f, b);
}

/// The pushout of an identity.
pub proof fn lemma_push_id_left(y: Fun)
    requires
        y.wf(),
    ensures
        Push::of(Fun::id(y.dom), y).from_right.hom(y.cod, Push::of(Fun::id(y.dom), y).apex),
        Push::of(Fun::id(y.dom), y).from_right.iso(),
        Push::of(Fun::id(y.dom), y).from_right.inv().hom(Push::of(Fun::id(y.dom), y).apex, y.cod),
        forall|i: int| 0 <= i < y.dom ==> Push::of(Fun::id(y.dom), y).from_right.inv().map[
            #[trigger] Push::of(Fun::id(y.dom), y).from_left.map[i]] == y.map[i],
        forall|i: int| 0 <= i < y.cod ==> Push::of(Fun::id(y.dom), y).from_right.inv().map[
            #[trigger] Push::of(Fun::id(y.dom), y).from_right.map[i]] == i,
{
    let e = Fun::id(y.dom);
    let po = Push::of(e, y);
    crate::theory::colimits::lemma_push(e, y);
    assert forall|z: int| 0 <= z < e.dom implies y.map[#[trigger] e.map[z]] == Fun::id(y.cod).map[y.map[z]] by {
    }
    crate::theory::colimits::lemma_push_med(e, y, y, Fun::id(y.cod));
    let m = po.med(y, Fun::id(y.cod));
    assert forall|i: int| 0 <= i < y.cod implies m.map[#[trigger] po.from_right.map[i]] == i by {
        assert(Fun::id(y.cod).map[i] == i);
    }
    assert(m.o(po.from_right) =~= Fun::id(y.cod));
    assert forall|c: int| 0 <= c < po.apex implies po.from_right.map[#[trigger] m.map[c]] == c by {
        let r = crate::theory::colimits::lemma_push_cases(e, y, c);
        if r.0 {
            assert(m.map[c] == y.map[r.1]);
            assert(e.map[r.1] == r.1);
        }
    }
    assert(po.from_right.o(m) =~= Fun::id(po.apex));
    crate::theory::fun::lemma_two_sided(po.from_right, m);
}

/// The pushout along an identity on the right.
pub proof fn lemma_push_id_right(y: Fun)
    requires
        y.wf(),
    ensures
        Push::of(y, Fun::id(y.dom)).from_left.hom(y.cod, Push::of(y, Fun::id(y.dom)).apex),
        Push::of(y, Fun::id(y.dom)).from_left.iso(),
        Push::of(y, Fun::id(y.dom)).from_left.inv().hom(Push::of(y, Fun::id(y.dom)).apex, y.cod),
        forall|i: int| 0 <= i < y.cod ==> Push::of(y, Fun::id(y.dom)).from_left.inv().map[
            #[trigger] Push::of(y, Fun::id(y.dom)).from_left.map[i]] == i,
        forall|i: int| 0 <= i < y.dom ==> Push::of(y, Fun::id(y.dom)).from_left.inv().map[
            #[trigger] Push::of(y, Fun::id(y.dom)).from_right.map[i]] == y.map[i],
{
    let e = Fun::id(y.dom);
    let po = Push::of(y, e);
    crate::theory::colimits::lemma_push(y, e);
    assert forall|z: int| 0 <= z < y.dom implies Fun::id(y.cod).map[#[trigger] y.map[z]] == y.map[e.map[z]] by {
    }
    crate::theory::colimits::lemma_push_med(y, e, Fun::id(y.cod), y);
    let m = po.med(Fun::id(y.cod), y);
    assert forall|i: int| 0 <= i < y.cod implies m.map[#[trigger] po.from_left.map[i]] == i by {
        assert(Fun::id(y.cod).map[i] == i);
    }
    assert(m.o(po.from_left) =~= Fun::id(y.cod));
    assert forall|c: int| 0 <= c < po.apex implies po.from_left.map[#[trigger] m.map[c]] == c by {
        let r = crate::theory::colimits::lemma_push_cases(y, e, c);
        if !r.0 {
            assert(m.map[c] == y.map[r.1]);
            assert(e.map[r.1] == r.1);
        }
    }
    assert(po.from_left.o(m) =~= Fun::id(po.apex));
    crate::theory::fun::lemma_two_sided(po.from_left, m);
}

pub proof fn lemma_cocomp_wf(g: Cosp, f: Cosp)
    requires
        f.wf(),
        g.wf(),
        f.right == g.left,
    ensures
        Cosp::comp(g, f).wf(),
        Cosp::join(g, f).from_left.hom(f.apex, Cosp::comp(g, f).apex),
        Cosp::join(g, f).from_right.hom(g.apex, Cosp::comp(g, f).apex),
        0 <= Cosp::comp(g, f).apex <= f.apex + g.apex,
{
    crate::theory::colimits::lemma_push(f.from_right, g.from_left);
}

/// Both unitors are invertible 2-cells.
pub proof fn law_cospan_unitors(f: Cosp)
    requires
        f.wf(),
    ensures
        Cosp::comp(f, Cosp::id(f.left)).cell(Cosp::rho(f), f),
        Cosp::rho(f).hom(Cosp::comp(f, Cosp::id(f.left)).apex, f.apex),
        Cosp::rho(f).iso(),
        Cosp::comp(Cosp::id(f.right), f).cell(Cosp::lambda(f), f),
        Cosp::lambda(f).hom(Cosp::comp(Cosp::id(f.right), f).apex, f.apex),
        Cosp::lambda(f).iso(),
{
    lemma_push_id_left(f.from_left);
    lemma_push_id_right(f.from_right);
    let c = Cosp::comp(f, Cosp::id(f.left));
    let po = Push::of(Fun::id(f.left), f.from_left);
    crate::theory::colimits::lemma_push(Fun::id(f.left), f.from_left);
    crate::theory::fun::law_inverse(po.from_right);
    assert(Cosp::rho(f).o(c.from_left) =~= f.from_left);
    assert(Cosp::rho(f).o(c.from_right) =~= f.from_right);
    let d = Cosp::comp(Cosp::id(f.right), f);
    let qo = Push::of(f.from_right, Fun::id(f.right));
    crate::theory::colimits::lemma_push(f.from_right, Fun::id(f.right));
    crate::theory::fun::law_inverse(qo.from_left);
    assert(Cosp::lambda(f).o(d.from_left) =~= f.from_left);
    assert(Cosp::lambda(f).o(d.from_right) =~= f.from_right);
}

/// The associator is an invertible 2-cell `(h ∘ g) ∘ f → h ∘ (g ∘ f)`.
pub proof fn law_cospan_associator(h: Cosp, g: Cosp, f: Cosp)
    requires
        cocomposable(h, g, f),
    ensures
        Cosp::alpha(h, g, f).hom(Cosp::comp(Cosp::comp(h, g), f).apex, Cosp::comp(h, Cosp::comp(g, f)).apex),
        Cosp::comp(Cosp::comp(h, g), f).cell(Cosp::alpha(h, g, f), Cosp::comp(h, Cosp::comp(g, f))),
        Cosp::alpha(h, g, f).iso(),
        Cosp::join(Cosp::comp(h, g), f) == cospan_tri(h, g, f).right_nested(),
        Cosp::join(h, Cosp::comp(g, f)) == cospan_tri(h, g, f).left_nested(),
{
    let t = cospan_tri(h, g, f);
    lemma_cotri_wf(t);
    lemma_cotri(t);
    lemma_cotri_iso(t);
    let l = Cosp::comp(Cosp::comp(h, g), f);
    let r = Cosp::comp(h, Cosp::comp(g, f));
    let a = Cosp::alpha(h, g, f);
    assert(Cosp::comp(h, g).from_left == t.into_gh());
    assert(Cosp::comp(g, f).from_right == t.into_fg());
    assert forall|i: int| 0 <= i < f.left implies a.o(l.from_left).map[i] == r.from_left.map[i] by {
        assert(l.from_left.map[i] == t.right_nested().from_left.map[f.from_left.map[i]]);
        assert(r.from_left.map[i] == t.left_nested().from_left.map[Cosp::comp(g, f).from_left.map[i]]);
        assert(Cosp::comp(g, f).from_left.map[i] == t.fg().from_left.map[f.from_left.map[i]]);
    }
    assert(a.o(l.from_left) =~= r.from_left);
    assert forall|i: int| 0 <= i < h.right implies a.o(l.from_right).map[i] == r.from_right.map[i] by {
        let x = h.from_right.map[i];
        assert(Cosp::comp(h, g).from_right.map[i] == t.gh().from_right.map[x]);
        assert(l.from_right.map[i] == t.right_nested().from_right.map[t.gh().from_right.map[x]]);
        assert(r.from_right.map[i] == t.left_nested().from_right.map[x]);
    }
    assert(a.o(l.from_right) =~= r.from_right);
}

/// 2-cells of cospans compose vertically, with identities.
pub proof fn law_co_two_cells_compose(f: Cosp, g: Cosp, h: Cosp, m: Fun, n: Fun)
    requires
        f.wf(),
        g.wf(),
        h.wf(),
        f.left == g.left,
        f.right == g.right,
        m.hom(f.apex, g.apex),
        n.hom(g.apex, h.apex),
        f.cell(m, g),
        g.cell(n, h),
    ensures
        f.cell(n.o(m), h),
        f.cell(Fun::id(f.apex), f),
{
    crate::theory::fun::law_associative(n, m, f.from_left);
    crate::theory::fun::law_associative(n, m, f.from_right);
    crate::theory::fun::law_identity(f.from_left);
    crate::theory::fun::law_identity(f.from_right);
}

} // verus!
