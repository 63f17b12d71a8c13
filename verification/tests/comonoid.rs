use dependent_optics::comonoid::{comodules_over, counit, diagonal, preserves_diagonal, tensor, times};
use dependent_optics::finset::MAX_CARD;
use dependent_optics::finset::Coproduct;
use dependent_optics::finset;

#[test]
fn unique_diagonal_comonoid_and_every_map_is_a_hom() {
    for a in 0..=MAX_CARD {
        let d = diagonal(a);
        // coassociativity: (δ × id) ∘ δ = (id × δ) ∘ δ
        let prod = finset::product(a, a);
        let delta_id = finset::pair(&finset::compose(&diagonal(a), &prod.fst), &prod.snd);
        let id_delta = finset::pair(&prod.fst, &finset::compose(&diagonal(a), &prod.snd));
        assert_eq!(
            finset::compose(&delta_id, &d),
            finset::compose(&id_delta, &d),
            "coassociativity {a}"
        );
        // counit: (ε × id) ∘ δ is the left unitor A → 1 × A
        let left_unitor = finset::compose(&times(&counit(a), &finset::id(a)), &d);
        assert_eq!(
            left_unitor.map,
            (0..a)
                .map(|i| finset::pair_index(a, 0, i))
                .collect::<Vec<_>>()
        );
        for b in 0..=MAX_CARD {
            for f in finset::morphisms(a, b) {
                assert!(preserves_diagonal(&f), "comonoid hom {f:?}");
            }
        }
    }
}

#[test]
fn tensor_of_diagonal_comodules_is_pullback() {
    for base in 0..=MAX_CARD {
        for m in comodules_over(base, MAX_CARD) {
            for n in comodules_over(base, MAX_CARD) {
                let t = tensor(&m, &n);
                let pb = finset::pullback(&m.leg, &n.leg);
                assert_eq!(t.total, pb.apex);
                assert_eq!(t.leg, finset::compose(&m.leg, &pb.to_left));
                // The equalizer presentation agrees: elements of M×N whose
                // two coactions into M×B×N coincide are the pairs with
                // equal legs.
                let prod = finset::product(m.total, n.total);
                let mut count = 0u32;
                for k in 0..prod.obj {
                    let x = prod.fst.apply(k);
                    let y = prod.snd.apply(k);
                    if m.leg.apply(x) == n.leg.apply(y) {
                        count += 1;
                    }
                }
                assert_eq!(count, t.total);
            }
        }
    }
}

#[test]
fn proposition_5_comodules_split_along_coproducts() {
    for a in 0..=MAX_CARD {
        for b in 0..=MAX_CARD {
            let sum = a + b;
            let whole = comodules_over(sum, MAX_CARD);
            for leg_obj in &whole {
                let (xa, xb, iso) = dependent_optics::slice::lextensive_split(&leg_obj.leg, a);
                assert!(finset::is_iso(&iso));
                assert_eq!(xa.base, a);
                assert_eq!(xb.base, b);
            }
            // Coproduct injections of the underlying sets are comonoid homs.
            let cop = finset::coproduct(a, b);
            assert!(preserves_diagonal(&cop.inl));
            assert!(preserves_diagonal(&cop.inr));
        }
    }
}
