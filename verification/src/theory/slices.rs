//! Slices of finite sets and their reindexing along spans.
//!
//! A span `f: A → B` pulls a slice over `B` back to a slice over `A`. The
//! comparison maps `θ` make this a pseudofunctor, and the laws below state its
//! coherence.
use vstd::prelude::*;
use crate::theory::fun::Fun;
use crate::theory::limits::Pull;
use crate::theory::spans::Sp;
use crate::theory::spans::Tri;
use crate::theory::colimits::Sum;

verus! {

/// An object `total → base` of the slice over `base`.
#[verifier::ext_equal]
pub struct Over {
    pub base: int,
    pub total: int,
    pub leg: Fun,
}

/// A function between the totals of two slices.
#[verifier::ext_equal]
pub struct OverMor {
    pub dom: Over,
    pub cod: Over,
    pub map: Fun,
}

impl Over {
    pub open spec fn wf(self) -> bool {
        self.leg.hom(self.total, self.base)
    }
}

impl OverMor {
    /// The function stays over one base.
    pub open spec fn wf(self) -> bool {
        &&& self.dom.wf()
        &&& self.cod.wf()
        &&& self.dom.base == self.cod.base
        &&& self.map.hom(self.dom.total, self.cod.total)
        &&& self.cod.leg.o(self.map) == self.dom.leg
    }

    pub open spec fn hom(self, x: Over, y: Over) -> bool {
        self.wf() && self.dom == x && self.cod == y
    }

    pub open spec fn id(y: Over) -> OverMor {
        OverMor { dom: y, cod: y, map: Fun::id(y.total) }
    }

    /// `self ∘ f`.
    pub open spec fn o(self, f: OverMor) -> OverMor {
        OverMor { dom: f.dom, cod: self.cod, map: self.map.o(f.map) }
    }

    /// `θ_A(Y): Y → id* Y`.
    pub open spec fn theta_id(y: Over) -> OverMor {
        OverMor {
            dom: y,
            cod: Sp::id(y.base).pull(y),
            map: Pull::of(Fun::id(y.base), y.leg).med(y.leg, Fun::id(y.total)),
        }
    }

    pub open spec fn theta_id_inv(y: Over) -> OverMor {
        OverMor { dom: Sp::id(y.base).pull(y), cod: y, map: Pull::of(Fun::id(y.base), y.leg).to_right }
    }

    /// `θ_{f,g}(Z): f*(g* Z) → (g ∘ f)* Z`.
    pub open spec fn theta(f: Sp, g: Sp, z: Over) -> OverMor {
        OverMor {
            dom: f.pull(g.pull(z)),
            cod: Sp::comp(g, f).pull(z),
            map: slice_tri(f, g, z).fwd(),
        }
    }

    pub open spec fn theta_inv(f: Sp, g: Sp, z: Over) -> OverMor {
        OverMor {
            dom: Sp::comp(g, f).pull(z),
            cod: f.pull(g.pull(z)),
            map: slice_tri(f, g, z).fwd().inv(),
        }
    }

    /// `L(m)_Y: f* Y → g* Y` for a 2-cell `m: f ⇒ g`.
    pub open spec fn act(m: Fun, from: Sp, to: Sp, y: Over) -> OverMor {
        OverMor {
            dom: from.pull(y),
            cod: to.pull(y),
            map: to.fib(y).med(m.o(from.fib(y).to_left), from.fib(y).to_right),
        }
    }
}

impl Sp {
    /// The pullback that reindexes a slice along this span.
    pub open spec fn fib(self, y: Over) -> Pull {
        Pull::of(self.to_right, y.leg)
    }

    /// `f* Y`.
    pub open spec fn pull(self, y: Over) -> Over {
        Over { base: self.left, total: self.fib(y).apex, leg: self.to_left.o(self.fib(y).to_left) }
    }

    /// `f*` on a slice morphism.
    pub open spec fn pull_mor(self, m: OverMor) -> OverMor {
        OverMor {
            dom: self.pull(m.dom),
            cod: self.pull(m.cod),
            map: self.fib(m.cod).med(self.fib(m.dom).to_left, m.map.o(self.fib(m.dom).to_right)),
        }
    }
}

/// The nested pullbacks around `θ_{f,g}(Z)`.
pub open spec fn slice_tri(f: Sp, g: Sp, z: Over) -> Tri {
    Tri { fr: f.to_right, gl: g.to_left, gr: g.to_right, hl: z.leg }
}

/// `g` may follow `f` and `z` lies over the right foot of `g`.
pub open spec fn adjacent(f: Sp, g: Sp, z: Over) -> bool {
    f.wf() && g.wf() && z.wf() && f.right == g.left && g.right == z.base
}

// ----- the slice categories -----

/// Slices over one base form a category.
pub proof fn law_slice_category(h: OverMor, g: OverMor, f: OverMor)
    requires
        f.wf(),
        g.wf(),
        h.wf(),
        f.cod == g.dom,
        g.cod == h.dom,
    ensures
        g.o(f).hom(f.dom, g.cod),
        OverMor::id(f.dom).hom(f.dom, f.dom),
        f.o(OverMor::id(f.dom)) == f,
        OverMor::id(f.cod).o(f) == f,
        h.o(g.o(f)) == h.o(g).o(f),
{
    crate::theory::fun::law_identity(f.map);
    crate::theory::fun::law_identity(f.dom.leg);
    crate::theory::fun::law_associative(h.map, g.map, f.map);
    crate::theory::fun::law_associative(g.cod.leg, g.map, f.map);
}

pub proof fn lemma_o_wf(g: OverMor, f: OverMor)
    requires
        f.wf(),
        g.wf(),
        f.cod == g.dom,
    ensures
        g.o(f).hom(f.dom, g.cod),
        g.o(f).map.map.len() == f.map.map.len(),
        forall|i: int| 0 <= i < f.map.dom ==> #[trigger] g.o(f).map.map[i] == g.map.map[f.map.map[i]],
{
    crate::theory::fun::law_associative(g.cod.leg, g.map, f.map);
}

pub proof fn lemma_id_wf(y: Over)
    requires
        y.wf(),
    ensures
        OverMor::id(y).hom(y, y),
{
    crate::theory::fun::law_identity(y.leg);
}

/// What the triangle of a slice morphism says of elements.
pub proof fn lemma_triangle(m: OverMor)
    requires
        m.wf(),
    ensures
        forall|i: int| 0 <= i < m.dom.total ==> m.cod.leg.map[#[trigger] m.map.map[i]] == m.dom.leg.map[i],
        forall|i: int| 0 <= i < m.dom.total ==> m.cod.leg.map[m.map.map[i]] == #[trigger] m.dom.leg.map[i],
{
    assert forall|i: int| 0 <= i < m.dom.total implies m.cod.leg.map[#[trigger] m.map.map[i]] == m.dom.leg.map[i] by {
        assert(m.cod.leg.o(m.map).map[i] == m.cod.leg.map[m.map.map[i]]);
    }
}

// ----- reindexing -----

pub proof fn lemma_pull_wf(f: Sp, y: Over)
    requires
        f.wf(),
        y.wf(),
        f.right == y.base,
    ensures
        f.pull(y).wf(),
        f.pull(y).base == f.left,
        f.fib(y).to_left.hom(f.pull(y).total, f.apex),
        f.fib(y).to_right.hom(f.pull(y).total, y.total),
        f.fib(y).apex == f.pull(y).total,
        forall|i: int| 0 <= i < f.pull(y).total ==> #[trigger] f.pull(y).leg.map[i] == f.to_left.map[f.fib(y).to_left.map[i]],
        forall|i: int| 0 <= i < f.pull(y).total ==> f.to_right.map[#[trigger] f.fib(y).to_left.map[i]]
            == y.leg.map[f.fib(y).to_right.map[i]],
        forall|i: int| 0 <= i < f.pull(y).total ==> f.to_right.map[f.fib(y).to_left.map[i]]
            == y.leg.map[#[trigger] f.fib(y).to_right.map[i]],
{
    crate::theory::limits::lemma_pull(f.to_right, y.leg);
}

/// An element of `f* Y` is determined by its two components.
pub proof fn lemma_fib_inj(f: Sp, y: Over, i: int, j: int)
    requires
        f.wf(),
        y.wf(),
        0 <= i < f.pull(y).total,
        0 <= j < f.pull(y).total,
        f.fib(y).to_left.map[i] == f.fib(y).to_left.map[j],
        f.fib(y).to_right.map[i] == f.fib(y).to_right.map[j],
    ensures
        i == j,
{
    crate::theory::spans::lemma_pull_inj(f.to_right, y.leg, i, j);
}

pub proof fn lemma_pull_mor(f: Sp, m: OverMor)
    requires
        f.wf(),
        m.wf(),
        f.right == m.dom.base,
    ensures
        f.pull_mor(m).hom(f.pull(m.dom), f.pull(m.cod)),
        forall|i: int| 0 <= i < f.pull(m.dom).total ==> {
            let j = #[trigger] f.pull_mor(m).map.map[i];
            &&& 0 <= j < f.pull(m.cod).total
            &&& f.fib(m.cod).to_left.map[j] == f.fib(m.dom).to_left.map[i]
            &&& f.fib(m.cod).to_right.map[j] == m.map.map[f.fib(m.dom).to_right.map[i]]
        },
        forall|w: int| 0 <= w < f.fib(m.dom).to_left.dom ==> f.fib(m.cod).lists(
            #[trigger] f.fib(m.dom).to_left.map[w],
            m.map.o(f.fib(m.dom).to_right).map[w],
        ),
{
    lemma_pull_wf(f, m.dom);
    lemma_pull_wf(f, m.cod);
    lemma_triangle(m);
    let pd = f.fib(m.dom);
    let q = m.map.o(pd.to_right);
    assert forall|w: int| 0 <= w < pd.to_left.dom implies f.to_right.map[#[trigger] pd.to_left.map[w]]
        == m.cod.leg.map[q.map[w]] by {
        assert(q.map[w] == m.map.map[pd.to_right.map[w]]);
        assert(m.dom.leg.map[pd.to_right.map[w]] == m.cod.leg.map[q.map[w]]);
    }
    crate::theory::spans::lemma_med(f.to_right, m.cod.leg, pd.to_left, q);
    let r = f.pull_mor(m);
    assert forall|i: int| 0 <= i < f.pull(m.dom).total implies {
        let j = #[trigger] r.map.map[i];
        &&& 0 <= j < f.pull(m.cod).total
        &&& f.fib(m.cod).to_left.map[j] == f.fib(m.dom).to_left.map[i]
        &&& f.fib(m.cod).to_right.map[j] == m.map.map[f.fib(m.dom).to_right.map[i]]
    } by {
        assert(q.map[i] == m.map.map[pd.to_right.map[i]]);
    }
    assert(r.cod.leg.o(r.map) =~= r.dom.leg);
}

/// Reindexing keeps identities and composites.
pub proof fn law_reindex_functorial(f: Sp, y: Over, nu: OverMor, mu: OverMor)
    requires
        f.wf(),
        y.wf(),
        f.right == y.base,
        mu.wf(),
        nu.wf(),
        mu.cod == nu.dom,
        f.right == mu.dom.base,
    ensures
        f.pull_mor(OverMor::id(y)) == OverMor::id(f.pull(y)),
        f.pull_mor(nu.o(mu)) == f.pull_mor(nu).o(f.pull_mor(mu)),
{
    lemma_pull_wf(f, y);
    lemma_id_wf(y);
    lemma_pull_mor(f, OverMor::id(y));
    let e = f.pull_mor(OverMor::id(y));
    assert forall|i: int| 0 <= i < f.pull(y).total implies #[trigger] e.map.map[i] == i by {
        assert(Fun::id(y.total).map[f.fib(y).to_right.map[i]] == f.fib(y).to_right.map[i]);
        lemma_fib_inj(f, y, e.map.map[i], i);
    }
    assert(e =~= OverMor::id(f.pull(y)));
    lemma_o_wf(nu, mu);
    lemma_pull_mor(f, mu);
    lemma_pull_mor(f, nu);
    lemma_pull_mor(f, nu.o(mu));
    lemma_pull_wf(f, mu.dom);
    lemma_pull_wf(f, nu.cod);
    let l = f.pull_mor(nu.o(mu));
    let r = f.pull_mor(nu).o(f.pull_mor(mu));
    assert forall|i: int| 0 <= i < l.map.dom implies #[trigger] l.map.map[i] == r.map.map[i] by {
        let j = f.pull_mor(mu).map.map[i];
        assert(r.map.map[i] == f.pull_mor(nu).map.map[j]);
        assert(nu.o(mu).map.map[f.fib(mu.dom).to_right.map[i]] == nu.map.map[mu.map.map[f.fib(mu.dom).to_right.map[i]]]);
        lemma_fib_inj(f, nu.cod, l.map.map[i], r.map.map[i]);
    }
    assert(l =~= r);
}

// ----- θ -----

pub proof fn lemma_theta_id(y: Over)
    requires
        y.wf(),
    ensures
        OverMor::theta_id(y).hom(y, Sp::id(y.base).pull(y)),
        OverMor::theta_id_inv(y).hom(Sp::id(y.base).pull(y), y),
        forall|i: int| 0 <= i < y.total ==> {
            let j = #[trigger] OverMor::theta_id(y).map.map[i];
            &&& Sp::id(y.base).fib(y).to_left.map[j] == y.leg.map[i]
            &&& Sp::id(y.base).fib(y).to_right.map[j] == i
        },
        forall|w: int| 0 <= w < y.total ==> Pull::of(Fun::id(y.base), y.leg).lists(
            #[trigger] y.leg.map[w],
            Fun::id(y.total).map[w],
        ),
        Sp::id(y.base).wf(),
{
    let e = Sp::id(y.base);
    crate::theory::spans::lemma_pull_id_left(y.leg);
    assert forall|w: int| 0 <= w < y.total implies Fun::id(y.base).map[#[trigger] y.leg.map[w]]
        == y.leg.map[Fun::id(y.total).map[w]] by {
    }
    crate::theory::spans::lemma_med(Fun::id(y.base), y.leg, y.leg, Fun::id(y.total));
    lemma_pull_wf(e, y);
    let t = OverMor::theta_id(y);
    let u = OverMor::theta_id_inv(y);
    assert(t.cod.leg.o(t.map) =~= t.dom.leg);
    assert(u.cod.leg.o(u.map) =~= u.dom.leg);
}

/// `θ_A` is invertible and natural.
pub proof fn law_theta_id(mor: OverMor)
    requires
        mor.wf(),
    ensures
        OverMor::theta_id_inv(mor.dom).o(OverMor::theta_id(mor.dom)) == OverMor::id(mor.dom),
        OverMor::theta_id(mor.dom).o(OverMor::theta_id_inv(mor.dom)) == OverMor::id(Sp::id(mor.dom.base).pull(mor.dom)),
        OverMor::theta_id(mor.cod).o(mor) == Sp::id(mor.dom.base).pull_mor(mor).o(OverMor::theta_id(mor.dom)),
{
    let y = mor.dom;
    let z = mor.cod;
    let e = Sp::id(y.base);
    crate::theory::spans::lemma_pull_id_left(y.leg);
    lemma_theta_id(y);
    lemma_theta_id(z);
    lemma_pull_mor(e, mor);
    lemma_triangle(mor);
    lemma_pull_wf(e, z);
    let l = OverMor::theta_id(z).o(mor);
    let r = e.pull_mor(mor).o(OverMor::theta_id(y));
    assert forall|i: int| 0 <= i < y.total implies #[trigger] l.map.map[i] == r.map.map[i] by {
        assert(l.map.map[i] == OverMor::theta_id(z).map.map[mor.map.map[i]]);
        assert(r.map.map[i] == e.pull_mor(mor).map.map[OverMor::theta_id(y).map.map[i]]);
        lemma_fib_inj(e, z, l.map.map[i], r.map.map[i]);
    }
    assert(l =~= r);
    assert(OverMor::theta_id_inv(y).o(OverMor::theta_id(y)) =~= OverMor::id(y));
    assert(OverMor::theta_id(y).o(OverMor::theta_id_inv(y)) =~= OverMor::id(e.pull(y)));
}

/// `θ_{f,g}(Z)` keeps all three components.
pub proof fn lemma_theta(f: Sp, g: Sp, z: Over)
    requires
        adjacent(f, g, z),
    ensures
        OverMor::theta(f, g, z).hom(f.pull(g.pull(z)), Sp::comp(g, f).pull(z)),
        OverMor::theta_inv(f, g, z).hom(Sp::comp(g, f).pull(z), f.pull(g.pull(z))),
        OverMor::theta(f, g, z).map.iso(),
        OverMor::theta_inv(f, g, z).map == slice_tri(f, g, z).bwd(),
        slice_tri(f, g, z).wf(),
        Sp::comp(g, f).wf(),
        g.pull(z).wf(),
        f.fib(g.pull(z)) == slice_tri(f, g, z).right_nested(),
        Sp::comp(g, f).fib(z) == slice_tri(f, g, z).left_nested(),
        Sp::meet(g, f) == slice_tri(f, g, z).mn(),
        g.fib(z) == slice_tri(f, g, z).np(),
        forall|i: int| 0 <= i < f.pull(g.pull(z)).total ==> {
            let j = #[trigger] OverMor::theta(f, g, z).map.map[i];
            let k = f.fib(g.pull(z)).to_right.map[i];
            let mn = Sp::comp(g, f).fib(z).to_left.map[j];
            &&& 0 <= j < Sp::comp(g, f).pull(z).total
            &&& 0 <= k < g.pull(z).total
            &&& 0 <= mn < Sp::comp(g, f).apex
            &&& Sp::meet(g, f).to_left.map[mn] == f.fib(g.pull(z)).to_left.map[i]
            &&& Sp::meet(g, f).to_right.map[mn] == g.fib(z).to_left.map[k]
            &&& Sp::comp(g, f).fib(z).to_right.map[j] == g.fib(z).to_right.map[k]
        },
        forall|j: int| 0 <= j < Sp::comp(g, f).pull(z).total ==> {
            let i = #[trigger] OverMor::theta_inv(f, g, z).map.map[j];
            let k = f.fib(g.pull(z)).to_right.map[i];
            let mn = Sp::comp(g, f).fib(z).to_left.map[j];
            &&& 0 <= i < f.pull(g.pull(z)).total
            &&& 0 <= k < g.pull(z).total
            &&& 0 <= mn < Sp::comp(g, f).apex
            &&& Sp::meet(g, f).to_left.map[mn] == f.fib(g.pull(z)).to_left.map[i]
            &&& Sp::meet(g, f).to_right.map[mn] == g.fib(z).to_left.map[k]
            &&& Sp::comp(g, f).fib(z).to_right.map[j] == g.fib(z).to_right.map[k]
        },
{
    let t = slice_tri(f, g, z);
    crate::theory::spans::lemma_tri(t);
    crate::theory::spans::lemma_tri_iso(t);
    crate::theory::spans::lemma_comp_wf(g, f);
    lemma_pull_wf(g, z);
    lemma_pull_wf(f, g.pull(z));
    lemma_pull_wf(Sp::comp(g, f), z);
    let gf = Sp::comp(g, f);
    let th = OverMor::theta(f, g, z);
    let ti = OverMor::theta_inv(f, g, z);
    assert forall|i: int| 0 <= i < th.map.dom implies th.cod.leg.map[#[trigger] th.map.map[i]] == th.dom.leg.map[i] by {
        let j = th.map.map[i];
        let mn = gf.fib(z).to_left.map[j];
        assert(gf.to_left.map[mn] == f.to_left.map[Sp::meet(g, f).to_left.map[mn]]);
    }
    assert(th.cod.leg.o(th.map) =~= th.dom.leg);
    assert forall|j: int| 0 <= j < ti.map.dom implies ti.cod.leg.map[#[trigger] ti.map.map[j]] == ti.dom.leg.map[j] by {
        let mn = gf.fib(z).to_left.map[j];
        assert(gf.to_left.map[mn] == f.to_left.map[Sp::meet(g, f).to_left.map[mn]]);
    }
    assert(ti.cod.leg.o(ti.map) =~= ti.dom.leg);
}

/// An element of `(g ∘ f)* Z` is determined by its three components.
pub proof fn lemma_comp_fib_inj(f: Sp, g: Sp, z: Over, i: int, j: int)
    requires
        adjacent(f, g, z),
        0 <= i < Sp::comp(g, f).pull(z).total,
        0 <= j < Sp::comp(g, f).pull(z).total,
        Sp::meet(g, f).to_left.map[Sp::comp(g, f).fib(z).to_left.map[i]]
            == Sp::meet(g, f).to_left.map[Sp::comp(g, f).fib(z).to_left.map[j]],
        Sp::meet(g, f).to_right.map[Sp::comp(g, f).fib(z).to_left.map[i]]
            == Sp::meet(g, f).to_right.map[Sp::comp(g, f).fib(z).to_left.map[j]],
        Sp::comp(g, f).fib(z).to_right.map[i] == Sp::comp(g, f).fib(z).to_right.map[j],
    ensures
        i == j,
{
    crate::theory::spans::lemma_left_nested_inj(slice_tri(f, g, z), i, j);
}

/// `θ_{f,g}` is an invertible slice morphism, natural in `Z`.
pub proof fn law_theta_comp(f: Sp, g: Sp, mor: OverMor)
    requires
        adjacent(f, g, mor.dom),
        mor.wf(),
    ensures
        OverMor::theta(f, g, mor.dom).wf(),
        OverMor::theta(f, g, mor.dom).map.iso(),
        OverMor::theta_inv(f, g, mor.dom).o(OverMor::theta(f, g, mor.dom)) == OverMor::id(f.pull(g.pull(mor.dom))),
        OverMor::theta(f, g, mor.dom).o(OverMor::theta_inv(f, g, mor.dom)) == OverMor::id(Sp::comp(g, f).pull(mor.dom)),
        OverMor::theta(f, g, mor.cod).o(f.pull_mor(g.pull_mor(mor)))
            == Sp::comp(g, f).pull_mor(mor).o(OverMor::theta(f, g, mor.dom)),
        f.pull_mor(g.pull_mor(mor)).o(OverMor::theta_inv(f, g, mor.dom))
            == OverMor::theta_inv(f, g, mor.cod).o(Sp::comp(g, f).pull_mor(mor)),
{
    let y = mor.dom;
    let z = mor.cod;
    let gf = Sp::comp(g, f);
    lemma_theta(f, g, y);
    lemma_theta(f, g, z);
    crate::theory::spans::lemma_tri_iso(slice_tri(f, g, y));
    crate::theory::spans::lemma_tri_iso(slice_tri(f, g, z));
    lemma_pull_mor(g, mor);
    lemma_pull_mor(f, g.pull_mor(mor));
    lemma_pull_mor(gf, mor);
    lemma_pull_wf(gf, y);
    let l = OverMor::theta(f, g, z).o(f.pull_mor(g.pull_mor(mor)));
    let r = gf.pull_mor(mor).o(OverMor::theta(f, g, y));
    assert forall|i: int| 0 <= i < f.pull(g.pull(y)).total implies #[trigger] l.map.map[i] == r.map.map[i] by {
        let i2 = f.pull_mor(g.pull_mor(mor)).map.map[i];
        let j2 = OverMor::theta(f, g, y).map.map[i];
        assert(l.map.map[i] == OverMor::theta(f, g, z).map.map[i2]);
        assert(r.map.map[i] == gf.pull_mor(mor).map.map[j2]);
        let k = f.fib(g.pull(y)).to_right.map[i];
        assert(f.fib(g.pull(z)).to_right.map[i2] == g.pull_mor(mor).map.map[k]);
        lemma_comp_fib_inj(f, g, z, l.map.map[i], r.map.map[i]);
    }
    assert(l =~= r);
    let ty = OverMor::theta(f, g, y);
    let uy = OverMor::theta_inv(f, g, y);
    assert(uy.o(ty) =~= OverMor::id(f.pull(g.pull(y))));
    assert(ty.o(uy) =~= OverMor::id(gf.pull(y)));
    let tz = OverMor::theta(f, g, z);
    let uz = OverMor::theta_inv(f, g, z);
    let a = f.pull_mor(g.pull_mor(mor));
    let b = gf.pull_mor(mor);
    // uz ∘ b = uz ∘ b ∘ ty ∘ uy = uz ∘ tz ∘ a ∘ uy = a ∘ uy
    crate::theory::fun::law_associative(tz.map, a.map, uy.map);
    crate::theory::fun::law_associative(b.map, ty.map, uy.map);
    crate::theory::fun::law_identity(b.map);
    assert(tz.map.o(a.map.o(uy.map)) == b.map);
    let s = a.map.o(uy.map);
    crate::theory::fun::law_associative(uz.map, tz.map, s);
    crate::theory::fun::law_associative(a.map, uy.map, Fun::id(uy.map.dom));
    crate::theory::fun::law_identity(s);
    assert(uz.map.o(b.map) == s);
}

// ----- 2-cells -----

pub open spec fn is_cell(m: Fun, from: Sp, to: Sp) -> bool {
    &&& from.wf()
    &&& to.wf()
    &&& from.left == to.left
    &&& from.right == to.right
    &&& m.hom(from.apex, to.apex)
    &&& from.cell(m, to)
}

/// A 2-cell acts on slices, keeping the component in `Y`.
pub proof fn lemma_act(m: Fun, from: Sp, to: Sp, y: Over)
    requires
        is_cell(m, from, to),
        y.wf(),
        from.right == y.base,
    ensures
        OverMor::act(m, from, to, y).hom(from.pull(y), to.pull(y)),
        forall|i: int| 0 <= i < from.pull(y).total ==> {
            let j = #[trigger] OverMor::act(m, from, to, y).map.map[i];
            &&& 0 <= j < to.pull(y).total
            &&& to.fib(y).to_left.map[j] == m.map[from.fib(y).to_left.map[i]]
            &&& to.fib(y).to_right.map[j] == from.fib(y).to_right.map[i]
        },
        forall|w: int| 0 <= w < m.o(from.fib(y).to_left).dom ==> to.fib(y).lists(
            #[trigger] m.o(from.fib(y).to_left).map[w],
            from.fib(y).to_right.map[w],
        ),
{
    lemma_pull_wf(from, y);
    lemma_pull_wf(to, y);
    let p = m.o(from.fib(y).to_left);
    let q = from.fib(y).to_right;
    assert forall|w: int| 0 <= w < p.dom implies to.to_right.map[#[trigger] p.map[w]] == y.leg.map[q.map[w]] by {
        let a = from.fib(y).to_left.map[w];
        assert(p.map[w] == m.map[a]);
        assert(to.to_right.o(m).map[a] == to.to_right.map[m.map[a]]);
    }
    crate::theory::spans::lemma_med(to.to_right, y.leg, p, q);
    let r = OverMor::act(m, from, to, y);
    assert forall|i: int| 0 <= i < r.map.dom implies r.cod.leg.map[#[trigger] r.map.map[i]] == r.dom.leg.map[i]
        && to.fib(y).to_left.map[r.map.map[i]] == m.map[from.fib(y).to_left.map[i]] by {
        let a = from.fib(y).to_left.map[i];
        assert(p.map[i] == m.map[a]);
        assert(to.to_left.o(m).map[a] == to.to_left.map[m.map[a]]);
    }
    assert(r.cod.leg.o(r.map) =~= r.dom.leg);
}

/// The action of 2-cells is functorial in the 2-cell and natural in the slice.
pub proof fn law_act_functorial(m: Fun, n: Fun, f: Sp, g: Sp, h: Sp, mor: OverMor)
    requires
        is_cell(m, f, g),
        is_cell(n, g, h),
        mor.wf(),
        f.right == mor.dom.base,
    ensures
        is_cell(n.o(m), f, h),
        OverMor::act(n.o(m), f, h, mor.dom) == OverMor::act(n, g, h, mor.dom).o(OverMor::act(m, f, g, mor.dom)),
        OverMor::act(Fun::id(f.apex), f, f, mor.dom) == OverMor::id(f.pull(mor.dom)),
        OverMor::act(m, f, g, mor.cod).o(f.pull_mor(mor)) == g.pull_mor(mor).o(OverMor::act(m, f, g, mor.dom)),
{
    let y = mor.dom;
    crate::theory::spans::law_two_cells_compose(f, g, h, m, n);
    lemma_act(m, f, g, y);
    lemma_act(n, g, h, y);
    lemma_act(n.o(m), f, h, y);
    lemma_act(Fun::id(f.apex), f, f, y);
    lemma_act(m, f, g, mor.cod);
    lemma_pull_mor(f, mor);
    lemma_pull_mor(g, mor);
    lemma_pull_wf(f, y);
    let l = OverMor::act(n.o(m), f, h, y);
    let r = OverMor::act(n, g, h, y).o(OverMor::act(m, f, g, y));
    assert forall|i: int| 0 <= i < f.pull(y).total implies #[trigger] l.map.map[i] == r.map.map[i] by {
        let j = OverMor::act(m, f, g, y).map.map[i];
        assert(r.map.map[i] == OverMor::act(n, g, h, y).map.map[j]);
        assert(n.o(m).map[f.fib(y).to_left.map[i]] == n.map[m.map[f.fib(y).to_left.map[i]]]);
        lemma_fib_inj(h, y, l.map.map[i], r.map.map[i]);
    }
    assert(l =~= r);
    let e = OverMor::act(Fun::id(f.apex), f, f, y);
    assert forall|i: int| 0 <= i < f.pull(y).total implies #[trigger] e.map.map[i] == i by {
        assert(Fun::id(f.apex).map[f.fib(y).to_left.map[i]] == f.fib(y).to_left.map[i]);
        lemma_fib_inj(f, y, e.map.map[i], i);
    }
    assert(e =~= OverMor::id(f.pull(y)));
    let a = OverMor::act(m, f, g, mor.cod).o(f.pull_mor(mor));
    let b = g.pull_mor(mor).o(OverMor::act(m, f, g, y));
    assert forall|i: int| 0 <= i < f.pull(y).total implies #[trigger] a.map.map[i] == b.map.map[i] by {
        let j = f.pull_mor(mor).map.map[i];
        let k = OverMor::act(m, f, g, y).map.map[i];
        assert(a.map.map[i] == OverMor::act(m, f, g, mor.cod).map.map[j]);
        assert(b.map.map[i] == g.pull_mor(mor).map.map[k]);
        lemma_fib_inj(g, mor.cod, a.map.map[i], b.map.map[i]);
    }
    assert(a =~= b);
}

// ----- coherence -----

/// Reindexing along `f ∘ id` and dropping the identity is the identity.
pub proof fn law_coherence_right(f: Sp, y: Over)
    requires
        f.wf(),
        y.wf(),
        f.right == y.base,
    ensures
        OverMor::act(Sp::rho(f), Sp::comp(f, Sp::id(f.left)), f, y).o(
            OverMor::theta(Sp::id(f.left), f, y).o(OverMor::theta_id(f.pull(y))),
        ) == OverMor::id(f.pull(y)),
{
    let e = Sp::id(f.left);
    let fy = f.pull(y);
    lemma_pull_wf(f, y);
    lemma_theta_id(fy);
    lemma_theta(e, f, y);
    crate::theory::spans::law_span_unitors(f);
    crate::theory::spans::lemma_comp_wf(f, e);
    lemma_act(Sp::rho(f), Sp::comp(f, e), f, y);
    let t0 = OverMor::theta_id(fy);
    let t1 = OverMor::theta(e, f, y);
    let t2 = OverMor::act(Sp::rho(f), Sp::comp(f, e), f, y);
    let w = t2.o(t1.o(t0));
    assert forall|i: int| 0 <= i < fy.total implies #[trigger] w.map.map[i] == i by {
        let i0 = t0.map.map[i];
        let i1 = t1.map.map[i0];
        assert(t1.o(t0).map.map[i] == i1);
        assert(w.map.map[i] == t2.map.map[i1]);
        assert(e.fib(fy).to_right.map[i0] == i);
        lemma_fib_inj(f, y, w.map.map[i], i);
    }
    assert(w =~= OverMor::id(fy));
}

/// Reindexing along `id ∘ f` and dropping the identity is the identity.
pub proof fn law_coherence_left(f: Sp, y: Over)
    requires
        f.wf(),
        y.wf(),
        f.right == y.base,
    ensures
        OverMor::act(Sp::lambda(f), Sp::comp(Sp::id(f.right), f), f, y).o(
            OverMor::theta(f, Sp::id(f.right), y).o(f.pull_mor(OverMor::theta_id(y))),
        ) == OverMor::id(f.pull(y)),
{
    let e = Sp::id(f.right);
    let fy = f.pull(y);
    lemma_pull_wf(f, y);
    lemma_theta_id(y);
    lemma_pull_mor(f, OverMor::theta_id(y));
    lemma_theta(f, e, y);
    crate::theory::spans::law_span_unitors(f);
    crate::theory::spans::lemma_comp_wf(e, f);
    lemma_act(Sp::lambda(f), Sp::comp(e, f), f, y);
    let t0 = f.pull_mor(OverMor::theta_id(y));
    let t1 = OverMor::theta(f, e, y);
    let t2 = OverMor::act(Sp::lambda(f), Sp::comp(e, f), f, y);
    let w = t2.o(t1.o(t0));
    assert forall|i: int| 0 <= i < fy.total implies #[trigger] w.map.map[i] == i by {
        let i0 = t0.map.map[i];
        let i1 = t1.map.map[i0];
        assert(t1.o(t0).map.map[i] == i1);
        assert(w.map.map[i] == t2.map.map[i1]);
        let yi = f.fib(y).to_right.map[i];
        assert(f.fib(e.pull(y)).to_right.map[i0] == OverMor::theta_id(y).map.map[yi]);
        lemma_fib_inj(f, y, w.map.map[i], i);
    }
    assert(w =~= OverMor::id(fy));
}

/// Reindexing along three spans does not depend on the bracketing, up to the
/// action of the associator.
pub proof fn law_coherence_associator(f: Sp, g: Sp, h: Sp, z: Over)
    requires
        crate::theory::spans::composable(h, g, f),
        z.wf(),
        h.right == z.base,
    ensures
        OverMor::theta(Sp::comp(g, f), h, z).o(OverMor::theta(f, g, h.pull(z)))
            == OverMor::act(
            Sp::alpha(h, g, f),
            Sp::comp(Sp::comp(h, g), f),
            Sp::comp(h, Sp::comp(g, f)),
            z,
        ).o(OverMor::theta(f, Sp::comp(h, g), z).o(f.pull_mor(OverMor::theta(g, h, z)))),
{
    let gf = Sp::comp(g, f);
    let hg = Sp::comp(h, g);
    let hz = h.pull(z);
    crate::theory::spans::lemma_comp_wf(g, f);
    crate::theory::spans::lemma_comp_wf(h, g);
    lemma_pull_wf(h, z);
    lemma_theta(f, g, hz);
    lemma_theta(gf, h, z);
    lemma_theta(g, h, z);
    lemma_pull_mor(f, OverMor::theta(g, h, z));
    lemma_theta(f, hg, z);
    crate::theory::spans::law_span_associator(h, g, f);
    crate::theory::spans::lemma_comp_wf(hg, f);
    crate::theory::spans::lemma_comp_wf(h, gf);
    let ls = Sp::comp(hg, f);
    let rs = Sp::comp(h, gf);
    let alpha = Sp::alpha(h, g, f);
    lemma_act(alpha, ls, rs, z);
    let t = crate::theory::spans::span_tri(h, g, f);
    crate::theory::spans::lemma_tri(t);
    let a0 = OverMor::theta(f, g, hz);
    let a1 = OverMor::theta(gf, h, z);
    let b0 = f.pull_mor(OverMor::theta(g, h, z));
    let b1 = OverMor::theta(f, hg, z);
    let b2 = OverMor::act(alpha, ls, rs, z);
    let l = a1.o(a0);
    let r = b2.o(b1.o(b0));
    let x = f.pull(g.pull(hz));
    assert forall|i: int| 0 <= i < x.total implies #[trigger] l.map.map[i] == r.map.map[i] by {
        // The four components of i.
        let m = f.fib(g.pull(hz)).to_left.map[i];
        let k = f.fib(g.pull(hz)).to_right.map[i];
        let n = g.fib(hz).to_left.map[k];
        let q = g.fib(hz).to_right.map[k];
        let p = h.fib(z).to_left.map[q];
        let e = h.fib(z).to_right.map[q];
        // Along the left path.
        let i1 = a0.map.map[i];
        let i2 = a1.map.map[i1];
        assert(l.map.map[i] == i2);
        let mn = gf.fib(hz).to_left.map[i1];
        assert(gf.fib(hz).to_right.map[i1] == q);
        let c = rs.fib(z).to_left.map[i2];
        assert(Sp::meet(h, gf).to_left.map[c] == mn);
        assert(Sp::meet(h, gf).to_right.map[c] == p);
        assert(rs.fib(z).to_right.map[i2] == e);
        // Along the right path.
        let j0 = b0.map.map[i];
        let j1 = b1.map.map[j0];
        let j2 = b2.map.map[j1];
        assert(b1.o(b0).map.map[i] == j1);
        assert(r.map.map[i] == j2);
        let th = OverMor::theta(g, h, z);
        let k2 = th.map.map[k];
        assert(f.fib(hg.pull(z)).to_left.map[j0] == m);
        assert(f.fib(hg.pull(z)).to_right.map[j0] == k2);
        let np = hg.fib(z).to_left.map[k2];
        assert(Sp::meet(h, g).to_left.map[np] == n);
        assert(Sp::meet(h, g).to_right.map[np] == p);
        assert(hg.fib(z).to_right.map[k2] == e);
        let d = ls.fib(z).to_left.map[j1];
        assert(Sp::meet(hg, f).to_left.map[d] == m);
        assert(Sp::meet(hg, f).to_right.map[d] == np);
        assert(ls.fib(z).to_right.map[j1] == e);
        assert(rs.fib(z).to_left.map[j2] == alpha.map[d]);
        assert(rs.fib(z).to_right.map[j2] == e);
        let c2 = alpha.map[d];
        let mn2 = Sp::meet(h, gf).to_left.map[c2];
        assert(Sp::meet(g, f).to_left.map[mn2] == m);
        assert(Sp::meet(g, f).to_right.map[mn2] == n);
        assert(Sp::meet(h, gf).to_right.map[c2] == p);
        assert(Sp::meet(g, f).to_left.map[mn] == m);
        assert(Sp::meet(g, f).to_right.map[mn] == n);
        crate::theory::spans::lemma_left_nested_inj(t, c, c2);
        lemma_fib_inj(rs, z, i2, j2);
    }
    assert(l =~= r);
}

// ----- lextensivity -----

/// The part of `X → A ⊔ B` over `A`, by pullback along the injection.
pub open spec fn split_pull_left(leg: Fun, left: int) -> Pull {
    Pull::of(leg, Sum::of(left, leg.cod - left).inl)
}

/// The part of `X → A ⊔ B` over `B`.
pub open spec fn split_pull_right(leg: Fun, left: int) -> Pull {
    Pull::of(leg, Sum::of(left, leg.cod - left).inr)
}

pub open spec fn split_left(leg: Fun, left: int) -> Over {
    let pb = split_pull_left(leg, left);
    Over { base: left, total: pb.apex, leg: pb.to_right }
}

pub open spec fn split_right(leg: Fun, left: int) -> Over {
    let pb = split_pull_right(leg, left);
    Over { base: leg.cod - left, total: pb.apex, leg: pb.to_right }
}

/// `X → X_A ⊔ X_B`: an element goes to its place on the side it lies over.
pub open spec fn split_iso(leg: Fun, left: int) -> Fun {
    let pl = split_pull_left(leg, left);
    let pr = split_pull_right(leg, left);
    Fun {
        dom: leg.dom,
        cod: pl.apex + pr.apex,
        map: Seq::new(leg.dom as nat, |x: int| if leg.map[x] < left {
            pl.ix(x, leg.map[x])
        } else {
            pl.apex + pr.ix(x, leg.map[x] - left)
        }),
    }
}

/// A function into a coproduct is the coproduct of its two parts.
pub proof fn law_lextensive(leg: Fun, left: int)
    requires
        leg.wf(),
        0 <= left <= leg.cod,
    ensures
        split_left(leg, left).wf(),
        split_right(leg, left).wf(),
        split_iso(leg, left).wf(),
        split_iso(leg, left).iso(),
        split_left(leg, left).total + split_right(leg, left).total == leg.dom,
        Sum::copair(
            Sum::of(left, leg.cod - left).inl.o(split_left(leg, left).leg),
            Sum::of(left, leg.cod - left).inr.o(split_right(leg, left).leg),
        ).o(split_iso(leg, left)) == leg,
{
    let s = Sum::of(left, leg.cod - left);
    let pl = split_pull_left(leg, left);
    let pr = split_pull_right(leg, left);
    crate::theory::limits::lemma_pull(leg, s.inl);
    crate::theory::limits::lemma_pull(leg, s.inr);
    let iso = split_iso(leg, left);
    let back = Sum::copair(pl.to_left, pr.to_left);
    crate::theory::colimits::law_coproduct(pl.to_left, pr.to_left);
    assert forall|x: int| 0 <= x < leg.dom implies 0 <= #[trigger] iso.map[x] < iso.cod && back.map[iso.map[x]] == x by {
        let b = leg.map[x];
        if b < left {
            assert(s.inl.map[b] == b);
            let i = pl.ix(x, b);
            assert(pl.to_left.map[i] == x);
        } else {
            assert(s.inr.map[b - left] == b);
            let i = pr.ix(x, b - left);
            assert(pr.to_left.map[i] == x);
            assert(back.map[pl.apex + i] == pr.to_left.map[i]);
        }
    }
    assert forall|k: int| 0 <= k < back.dom implies iso.map[#[trigger] back.map[k]] == k by {
        if k < pl.apex {
            let x = pl.to_left.map[k];
            assert(back.map[k] == x);
            assert(s.inl.map[pl.to_right.map[k]] == leg.map[x]);
        } else {
            let j = k - pl.apex;
            let x = pr.to_left.map[j];
            assert(back.map[k] == x);
            assert(s.inr.map[pr.to_right.map[j]] == leg.map[x]);
        }
    }
    assert(back.o(iso) =~= Fun::id(leg.dom));
    assert(iso.o(back) =~= Fun::id(back.dom));
    crate::theory::fun::lemma_two_sided(iso, back);
    let rec = Sum::copair(s.inl.o(pl.to_right), s.inr.o(pr.to_right));
    crate::theory::colimits::law_coproduct(s.inl.o(pl.to_right), s.inr.o(pr.to_right));
    assert forall|x: int| 0 <= x < leg.dom implies rec.o(iso).map[x] == leg.map[x] by {
        let k = iso.map[x];
        assert(0 <= k < iso.cod && back.map[k] == x);
        if k < pl.apex {
            assert(rec.map[k] == s.inl.map[pl.to_right.map[k]]);
            assert(pl.to_left.map[k] == x);
        } else {
            let j = k - pl.apex;
            assert(rec.map[k] == s.inr.map[pr.to_right.map[j]]);
            assert(pr.to_left.map[j] == x);
        }
    }
    assert(rec.o(iso) =~= leg);
}

/// An element of `X → A ⊔ B` is listed on the side it lies over.
pub proof fn lemma_split_listed(leg: Fun, left: int, x: int)
    requires
        leg.wf(),
        0 <= left <= leg.cod,
        0 <= x < leg.dom,
    ensures
        leg.map[x] < left ==> {
            let i = split_pull_left(leg, left).ix(x, leg.map[x]);
            0 <= i < split_pull_left(leg, left).apex && split_pull_left(leg, left).pairs[i] == (x, leg.map[x])
        },
        leg.map[x] >= left ==> {
            let i = split_pull_right(leg, left).ix(x, leg.map[x] - left);
            0 <= i < split_pull_right(leg, left).apex && split_pull_right(leg, left).pairs[i] == (x, leg.map[x] - left)
        },
{
    let s = Sum::of(left, leg.cod - left);
    crate::theory::limits::lemma_pull(leg, s.inl);
    crate::theory::limits::lemma_pull(leg, s.inr);
    let b = leg.map[x];
    if b < left {
        assert(s.inl.map[b] == b);
        let i = split_pull_left(leg, left).ix(x, b);
        assert(split_pull_left(leg, left).to_left.map[i] == x);
    } else {
        assert(s.inr.map[b - left] == b);
        let i = split_pull_right(leg, left).ix(x, b - left);
        assert(split_pull_right(leg, left).to_left.map[i] == x);
    }
}

} // verus!
