use dependent_optics::functor_lens::{is_functor_lens, object};
use dependent_optics::finset::MAX_CARD;
use dependent_optics::slice::objects_up_to;
use dependent_optics::dlens;
use dependent_optics::finset;

#[test]
fn functor_lenses_are_the_identity_forward_dependent_lenses() {
    let objs = objects_up_to(MAX_CARD);
    for dom in &objs {
        for cod in &objs {
            for base in finset::morphisms(dom.base, cod.base) {
                let fam_d = object(dom);
                let fam_c = object(cod);
                let lenses: Vec<_> = dlens::hom(&fam_d, &fam_c)
                    .into_iter()
                    .filter(|l| l.get == base)
                    .collect();
                for lens in &lenses {
                    assert!(is_functor_lens(lens));
                    assert_eq!(dlens::compose(lens, &dlens::identity(&fam_d)), *lens);
                }
                // Every such lens's put domain is the pullback A ×_B Y'.
                let pb = finset::pullback(&base, &cod.leg);
                for lens in &lenses {
                    assert_eq!(lens.put.dom.total, pb.apex);
                }
            }
        }
    }
    // Composition of two functor lenses is a functor lens, and the base
    // map composes.
    for a in &objs {
        for b in &objs {
            for f in dlens::hom(&object(a), &object(b)) {
                for c in &objs {
                    for g in dlens::hom(&object(b), &object(c)) {
                        let h = dlens::compose(&g, &f);
                        assert!(is_functor_lens(&h));
                        assert_eq!(h.get, finset::compose(&g.get, &f.get));
                    }
                }
            }
        }
    }
}
