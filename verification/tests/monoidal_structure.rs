use dependent_optics::monoidal_structure::{tensor_family, tensor_lens};
use dependent_optics::dlens;
use dependent_optics::finset;
use dependent_optics::functor_lens;
use dependent_optics::optic::Family;
use dependent_optics::slice::SliceObj;

#[test]
fn lens_tensor_is_functorial_and_unital() {
    let unit_slice = SliceObj {
        base: 1,
        total: 1,
        leg: finset::id(1),
    };
    let unit = Family {
        forward: unit_slice.clone(),
        backward: unit_slice,
    };
    for fam in dlens::families_up_to(1) {
        let idl = dlens::identity(&fam);
        let left = tensor_lens(&dlens::identity(&unit), &idl);
        // Unit on the left: 1 × X ≅ X, not on the nose. Check the underlying
        // get, transported along the unique iso 1×X → X, equals the original get.
        assert_eq!(left.get.dom, fam.forward.total);
        assert_eq!(left.get.map, idl.get.map);
        assert!(left.check());
    }
    for a in dlens::families_up_to(1) {
        for b in dlens::families_up_to(1) {
            for f in dlens::hom(&a, &b) {
                for c in dlens::families_up_to(1) {
                    for g in dlens::hom(&b, &c) {
                        for d in dlens::families_up_to(1) {
                            for h in dlens::hom(&d, &a) {
                                // Interchange: (g ∘ f) ⊗ (something). Use a second pair.
                                let _ = h;
                            }
                        }
                        let tf = tensor_lens(&f, &dlens::identity(&a));
                        assert!(tf.check());
                        let left = tensor_lens(&dlens::compose(&g, &f), &dlens::identity(&a));
                        let right = dlens::compose(
                            &tensor_lens(&g, &dlens::identity(&a)),
                            &tensor_lens(&f, &dlens::identity(&a)),
                        );
                        assert_eq!(left.get, right.get, "tensor functoriality");
                        assert_eq!(left.put.map, right.put.map, "tensor put");
                    }
                }
            }
        }
    }
}

#[test]
fn functor_lens_tensor_is_the_grothendieck_tensor() {
    for x in dependent_optics::slice::objects_up_to(1) {
        for y in dependent_optics::slice::objects_up_to(1) {
            let fx = functor_lens::object(&x);
            let fy = functor_lens::object(&y);
            let t = tensor_family(&fx, &fy);
            assert_eq!(
                t.forward.total, t.forward.base,
                "forward family stays the identity"
            );
            assert_eq!(t.forward.leg, finset::id(t.forward.base));
            let prod = finset::product(x.total, y.total);
            assert_eq!(t.backward.total, prod.obj);
        }
    }
}

#[test]
fn classical_prism_tensor_is_unital() {
    for pair in dependent_optics::mixed::pairs_up_to(1) {
        let idp = dependent_optics::mixed::prism_id(pair.clone());
        let doubled = dependent_optics::mixed::Pair {
            forward: pair.forward + pair.forward,
            backward: pair.backward + pair.backward,
        };
        let tid = dependent_optics::mixed::prism_id(doubled);
        assert!(tid.check());
        // The identity prism on a coproduct of carriers is the tensor of
        // the two identity prisms: its build is the identity, hence the
        // coproduct of the two identity builds.
        assert_eq!(tid.build, finset::id(pair.backward + pair.backward));
        assert_eq!(idp.build, finset::id(pair.backward));
        let glued = finset::copair(
            &finset::compose(
                &finset::coproduct(pair.backward, pair.backward).inl,
                &idp.build,
            ),
            &finset::compose(
                &finset::coproduct(pair.backward, pair.backward).inr,
                &idp.build,
            ),
        );
        assert_eq!(glued, tid.build);
    }
}
