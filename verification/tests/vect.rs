use dependent_optics::vect::{add, all, compose, identity, kronecker, transpose, zero};

#[test]
fn linear_category_and_tensor() {
    for n in 0..=2 {
        let id = identity(n);
        for f in all(n, n) {
            assert_eq!(compose(&id, &f), f);
            assert_eq!(compose(&f, &id), f);
            assert_eq!(add(&f, &f), zero(n, n));
            assert_eq!(compose(&transpose(&transpose(&f)), &identity(n)), f);
        }
    }
    for a in 0..=1 {
        for b in 0..=1 {
            for f in all(a, a) {
                for g in all(b, b) {
                    let t = kronecker(&f, &g);
                    assert_eq!(t.dom, a * b);
                    assert_eq!(t.cod, a * b);
                    assert_eq!(kronecker(&identity(a), &identity(b)), identity(a * b));
                }
            }
        }
    }
}
