use dependent_optics::bimod::{classes, closed_dimension};
use dependent_optics::vect;

#[test]
fn internal_hom_has_the_closed_dimension() {
    for dx in 0..=1 {
        for dy in 0..=1 {
            for dxp in 0..=1 {
                for dyp in 0..=1 {
                    let dim = closed_dimension(dx, dy, dxp, dyp);
                    assert_eq!(vect::all(dx, dim).len(), 1usize << dim);
                    // One-dimensional homs are free of rank 1, so the
                    // zero map and, when the rank is positive, the
                    // isomorphisms are exactly the points of the coend.
                    if dx == 1 && dy == 1 && dxp == 1 && dyp == 1 {
                        assert_eq!(dim, 1);
                        assert!(classes(1, 1, 1, 1) >= 1);
                    }
                }
            }
        }
    }
}
