use dependent_optics::dprism::{compose, coproduct, embed, families_up_to, hom, identity, normalize, witness_id};
use dependent_optics::finset::MAX_CARD;

#[test]
fn roundtrip_units_and_associativity() {
    for dom in families_up_to(1) {
        let idp = identity(&dom);
        assert!(idp.check());
        assert_eq!(normalize(&witness_id(&dom)), idp);
        let embedded = embed(&idp);
        assert!(embedded.check());
        assert_eq!(normalize(&embedded), idp);
        for cod in families_up_to(1) {
            for prism in hom(&dom, &cod) {
                assert!(prism.check());
                let w = embed(&prism);
                assert!(w.check());
                assert_eq!(normalize(&w), prism, "normalize ∘ embed");
                assert_eq!(compose(&prism, &identity(&dom)), prism);
                assert_eq!(compose(&identity(&cod), &prism), prism);
            }
        }
    }
    for a in families_up_to(1) {
        for b in families_up_to(1) {
            for f in hom(&a, &b) {
                for c in families_up_to(1) {
                    for g in hom(&b, &c) {
                        let gf = compose(&g, &f);
                        assert!(gf.check());
                        for d in families_up_to(1) {
                            for h in hom(&c, &d) {
                                assert_eq!(
                                    compose(&h, &compose(&g, &f)),
                                    compose(&compose(&h, &g), &f),
                                    "prism associativity"
                                );
                            }
                        }
                    }
                }
            }
        }
    }
}

#[test]
fn roundtrip_at_max_card() {
    for dom in families_up_to(MAX_CARD) {
        for cod in families_up_to(MAX_CARD) {
            for prism in hom(&dom, &cod) {
                assert_eq!(normalize(&embed(&prism)), prism);
                assert_eq!(compose(&prism, &identity(&dom)), prism);
                assert_eq!(compose(&identity(&cod), &prism), prism);
            }
        }
    }
}

#[test]
fn coproduct_injections_reindex_to_summands() {
    let fams = families_up_to(1);
    let initial = coproduct(&[]);
    for cod in &fams {
        let n = hom(&initial, cod).len();
        assert_eq!(n, 1, "initial prism object");
    }
    for left in &fams {
        for right in &fams {
            let sum = coproduct(&[left.clone(), right.clone()]);
            assert_eq!(sum.forward.total, left.forward.total + right.forward.total);
            assert_eq!(
                sum.backward.total,
                left.backward.total + right.backward.total
            );
            for i in 0..sum.forward.base {
                let in_left = i < left.forward.base;
                let image = sum.forward.leg.apply(i);
                if in_left {
                    assert!(image < left.forward.total);
                    assert_eq!(image, left.forward.leg.apply(i));
                } else {
                    let j = i - left.forward.base;
                    assert_eq!(image, left.forward.total + right.forward.leg.apply(j));
                }
            }
        }
    }
}
