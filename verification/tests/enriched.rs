use dependent_optics::enriched::{closed_hom, compose_closed};
use dependent_optics::bimod::closed_dimension;
use dependent_optics::vect;

#[test]
fn closed_composition_is_linear() {
    for d in 0..=1 {
        let dim = closed_dimension(d, d, d, d);
        assert_eq!(closed_hom(d, d, d, d).len(), 1usize << dim);
        for f in closed_hom(d, d, d, d) {
            for g in closed_hom(d, d, d, d) {
                for h in closed_hom(d, d, d, d) {
                    let left = compose_closed(&h, &compose_closed(&g, &f));
                    let right = compose_closed(&compose_closed(&h, &g), &f);
                    assert_eq!(left, right);
                    let sum = vect::add(&f, &g);
                    assert_eq!(
                        compose_closed(&h, &sum),
                        vect::add(&compose_closed(&h, &f), &compose_closed(&h, &g))
                    );
                }
            }
        }
    }
}
