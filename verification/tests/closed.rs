use dependent_optics::closed::{counit, exponential, from_lens, to_lens};
use dependent_optics::dlens;
use dependent_optics::slice;

#[test]
fn closed_form_bijects_with_dependent_lenses() {
    for dom in dlens::families_up_to(1) {
        for cod in dlens::families_up_to(1) {
            let lenses = dlens::hom(&dom, &cod);
            let mut images = Vec::new();
            for lens in &lenses {
                let closed = from_lens(lens);
                assert!(closed.map.check());
                let back = to_lens(&closed);
                assert_eq!(&back, lens, "counit/unit of the closed adjunction");
                images.push(closed.map.map.clone());
            }
            images.sort_by(|a, b| a.map.cmp(&b.map));
            images.dedup();
            assert_eq!(images.len(), lenses.len(), "the adjunct is injective");
        }
    }
}

#[test]
fn counit_is_a_slice_map() {
    for y in slice::objects_up_to(1) {
        for x in slice::objects_up_to(1) {
            let exp = exponential(&y, &x);
            let ev = counit(&exp);
            assert!(ev.check());
        }
    }
}
