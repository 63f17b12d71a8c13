//! Enriched optics.
//!
//! The coend of profunctor optics is taken in a cosmos (Clarke, Elkins,
//! Gibbons, Loregian, Milewski, Pillmore and Román). For `V = FinVect_{F₂}`
//! the closed form is a vector space, and composition of those closed forms is a linear map: [`crate::theory::linear`] proves that composition is
//! associative and linear in each argument. The points of the coend are
//! counted in [`crate::bimod`].
use vstd::prelude::*;
use crate::vect;
use crate::vect::Lin;
use crate::theory::linear::Gf;

verus! {

/// The closed tensor-optics `X → [Y', X'] ⊗ Y`, as linear maps into the
/// tensor product whose basis order is `(y', x', y)`.
pub fn closed_hom(dx: u32, dy: u32, dxp: u32, dyp: u32) -> (r: Vec<Lin>)
    requires
        dyp * dxp <= u32::MAX,
        dyp * dxp * dy <= u32::MAX,
        dx * (dyp * dxp * dy) < 32,
    ensures
        crate::theory::listing::views(r@) == Gf::all(dx as int, dyp * dxp * dy),
        forall|k: int| 0 <= k < r@.len() ==> (#[trigger] r@[k]).wf(),
        forall|k: int| 0 <= k < r@.len() ==> (#[trigger] r@[k]).dom == dx && r@[k].cod == dyp * dxp * dy,
{
    proof {
        assert(0 <= dyp * dxp) by (nonlinear_arith) requires dyp >= 0, dxp >= 0;
        assert(0 <= dyp * dxp * dy) by (nonlinear_arith) requires 0 <= dyp * dxp, dy >= 0;
    }
    vect::all(dx, dyp * dxp * dy)
}

/// Composite of closed forms. They compose as linear maps only after the
/// tensorator; for `Y = X` and `Y' = X'` the composite of two endomorphisms of
/// `Hom(X, [X', X] ⊗ X)` is ordinary linear composition.
pub fn compose_closed(g: &Lin, f: &Lin) -> (r: Lin)
    requires
        f.wf(),
        g.wf(),
        f.cod == g.dom,
        g.dom <= 32,
    ensures
        r@ == g@.o(f@),
        r.wf(),
{
    vect::compose(g, f)
}

} // verus!
