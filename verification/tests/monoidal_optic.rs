use dependent_optics::monoidal_optic::{action_descends, as_comodule_put, prism_data, regular_module};
use dependent_optics::dlens;
use dependent_optics::finset::MAX_CARD;
use dependent_optics::monoid::monoids_up_to;
use dependent_optics::optic::Family;
use dependent_optics::finset;
use dependent_optics::monoid;

#[test]
fn monoidal_lenses_match_dependent_lenses() {
    for dom in dlens::families_up_to(1) {
        for cod in dlens::families_up_to(1) {
            for lens in dlens::hom(&dom, &cod) {
                let tensor_dom = as_comodule_put(&lens);
                // The tensor is the pullback over B. The dependent-lens put
                // is that same pullback, structured over A by p_X.
                assert_eq!(tensor_dom.total, lens.put.dom.total);
                let pb = finset::pullback(
                    &finset::compose(&lens.cod.forward.leg, &lens.get),
                    &lens.cod.backward.leg,
                );
                let over_a = finset::compose(&lens.dom.forward.leg, &pb.to_left);
                assert_eq!(over_a, lens.put.dom.leg);
                assert_eq!(tensor_dom.total, pb.apex);
            }
        }
    }
    let _ = Family::check;
}

#[test]
fn monoidal_prism_indices_are_monoid_homs_and_actions_descend() {
    for monoid in monoids_up_to(MAX_CARD) {
        let regular = regular_module(&monoid);
        assert!(regular.check());
        assert!(action_descends(&regular));
        for other in monoids_up_to(MAX_CARD) {
            let modules_a = monoid::modules_over(&monoid, 1);
            let modules_b = monoid::modules_over(&other, 1);
            if let (Some(x), Some(y)) = (modules_a.first(), modules_b.first()) {
                let data = prism_data(&monoid, &other, x, y);
                for datum in &data {
                    assert!(monoid::is_monoid_hom(&datum.back, &other, &monoid));
                }
                // Identity hom is always among the indices when the monoids agree.
                if monoid == other {
                    assert!(data.iter().any(|d| d.back == finset::id(monoid.carrier)));
                }
            }
        }
    }
}
