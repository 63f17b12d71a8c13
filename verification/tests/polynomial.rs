use dependent_optics::polynomial::{compose, hom, identity, polys, residual};
use dependent_optics::fibre;

#[test]
fn polynomial_maps_form_a_category_and_residuals_multiply() {
    let ps = polys(1, 1);
    for p in &ps {
        let id = identity(p);
        assert!(id.check());
        for q in &ps {
            for f in hom(p, q) {
                assert!(f.check());
                assert_eq!(compose(&f, &identity(p)), f);
                assert_eq!(compose(&identity(q), &f), f);
                for r in &ps {
                    for g in hom(q, r) {
                        let gf = compose(&g, &f);
                        assert!(gf.check());
                        assert_eq!(
                            fibre::multiply(&residual(&g), &residual(&f)),
                            residual(&gf),
                            "ommatidium residuals multiply"
                        );
                        for s in &ps {
                            for h in hom(r, s) {
                                assert_eq!(
                                    compose(&h, &compose(&g, &f)),
                                    compose(&compose(&h, &g), &f)
                                );
                            }
                        }
                    }
                }
            }
        }
    }
}
