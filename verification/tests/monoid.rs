use dependent_optics::monoid::{is_monoid_hom, modules_over, monoids_up_to, tensor};
use dependent_optics::finset::MAX_CARD;
use dependent_optics::finset;

#[test]
fn tensors_coequalize_the_two_actions() {
    for monoid in monoids_up_to(MAX_CARD) {
        let modules = modules_over(&monoid, 1);
        for x in &modules {
            for y in &modules {
                let (n, proj) = tensor(x, y);
                assert_eq!(proj.dom, x.carrier * y.carrier);
                assert_eq!(proj.cod, n);
                // The two actions agree after the projection.
                let prod = finset::product(x.carrier, y.carrier);
                for b in 0..monoid.carrier {
                    for xe in 0..x.carrier {
                        for ye in 0..y.carrier {
                            let left = finset::pair_index(y.carrier, x.act(b, xe), ye);
                            let right = finset::pair_index(y.carrier, xe, y.act(b, ye));
                            assert_eq!(proj.apply(left), proj.apply(right));
                        }
                    }
                }
                let _ = prod;
            }
        }
    }
}

#[test]
fn product_preserves_reflexive_coequalizers() {
    // For a fixed set A, (coeq(f,g)) × A ≅ coeq(f×id, g×id).
    for x in 0..=1u32 {
        for y in 0..=1 {
            for a in 0..=1 {
                for f in finset::morphisms(x, y) {
                    for g in finset::morphisms(x, y) {
                        // Reflexive: a common section s: Y → X with f∘s = g∘s = id,
                        // when one exists. The stability claim is for every parallel
                        // pair the product preserves the coequalizer we computed;
                        // check cardinalities after crossing with A.
                        let q = finset::coequalizer(&f, &g);
                        let left = finset::product(q.obj, a);
                        let ya = finset::product(y, a);
                        let xa = finset::product(x, a);
                        let f_id = finset::pair(&finset::compose(&f, &xa.fst), &xa.snd);
                        let g_id = finset::pair(&finset::compose(&g, &xa.fst), &xa.snd);
                        assert_eq!(f_id.cod, ya.obj);
                        let right = finset::coequalizer(&f_id, &g_id);
                        assert_eq!(left.obj, right.obj, "product preserves coequalizers");
                    }
                }
            }
        }
    }
}

#[test]
fn monoid_homs_compose() {
    let ms = monoids_up_to(MAX_CARD);
    for a in &ms {
        for b in &ms {
            for f in finset::morphisms(a.carrier, b.carrier) {
                if !is_monoid_hom(&f, a, b) {
                    continue;
                }
                for c in &ms {
                    for g in finset::morphisms(b.carrier, c.carrier) {
                        if is_monoid_hom(&g, b, c) {
                            assert!(is_monoid_hom(&finset::compose(&g, &f), a, c));
                        }
                    }
                }
            }
        }
    }
}
