use dependent_optics::mixed::{embed_lens, lens_compose, lens_hom, lens_id, normalize_lens, pairs_up_to, prism_compose, prism_hom, prism_id};
use dependent_optics::finset::MAX_CARD;

#[test]
fn classical_lens_laws() {
    for dom in pairs_up_to(MAX_CARD) {
        for cod in pairs_up_to(MAX_CARD) {
            for lens in lens_hom(&dom, &cod) {
                assert!(lens.check());
                assert_eq!(lens_compose(&lens, &lens_id(dom.clone())), lens);
                assert_eq!(lens_compose(&lens_id(cod.clone()), &lens), lens);
                assert_eq!(normalize_lens(&dom, &cod, &embed_lens(&lens)), lens);
            }
        }
    }
    for a in pairs_up_to(1) {
        for b in pairs_up_to(1) {
            for f in lens_hom(&a, &b) {
                for c in pairs_up_to(1) {
                    for g in lens_hom(&b, &c) {
                        for d in pairs_up_to(1) {
                            for h in lens_hom(&c, &d) {
                                assert_eq!(
                                    lens_compose(&h, &lens_compose(&g, &f)),
                                    lens_compose(&lens_compose(&h, &g), &f)
                                );
                            }
                        }
                    }
                }
            }
        }
    }
}

#[test]
fn classical_prism_laws() {
    for dom in pairs_up_to(1) {
        let idp = prism_id(dom.clone());
        assert!(idp.check());
        for cod in pairs_up_to(1) {
            for prism in prism_hom(&dom, &cod) {
                assert!(prism.check());
                assert_eq!(prism_compose(&prism, &prism_id(dom.clone())), prism);
                assert_eq!(prism_compose(&prism_id(cod.clone()), &prism), prism);
            }
        }
    }
    for a in pairs_up_to(1) {
        for b in pairs_up_to(1) {
            for f in prism_hom(&a, &b) {
                for c in pairs_up_to(1) {
                    for g in prism_hom(&b, &c) {
                        for d in pairs_up_to(1) {
                            for h in prism_hom(&c, &d) {
                                assert_eq!(
                                    prism_compose(&h, &prism_compose(&g, &f)),
                                    prism_compose(&prism_compose(&h, &g), &f)
                                );
                            }
                        }
                    }
                }
            }
        }
    }
}
