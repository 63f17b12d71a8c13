use dependent_optics::span::{Span, associator, cell_commutes, co_associator, co_left_unitor, co_right_unitor, cocompose, coidentity, compose, cospans_up_to, identity, left_unitor, right_unitor, spans_up_to};
use dependent_optics::finset::{self, MAX_CARD};
use dependent_optics::finset::Mor;

#[test]
fn span_unitors_are_isos_and_triangles() {
    // Triangle: α_{id, g, f} then unitors, on apices ≤ 1 so the triple
    // enumeration stays inside the cardinality bound after pullbacks grow.
    let max = 1;
    for f in spans_up_to(max) {
        let rho = right_unitor(&f);
        let comp_r = compose(&f, &identity(f.left));
        assert!(cell_commutes(&rho, &comp_r, &f));
        assert!(finset::is_iso(&rho.map), "right unitor {f:?}");

        let lambda = left_unitor(&f);
        let comp_l = compose(&identity(f.right), &f);
        assert!(cell_commutes(&lambda, &comp_l, &f));
        assert!(finset::is_iso(&lambda.map), "left unitor {f:?}");
    }
}

#[test]
fn span_associator_iso_and_pentagon_small() {
    let max = 1;
    let all = spans_up_to(max);
    for f in &all {
        for g in &all {
            if f.right != g.left {
                continue;
            }
            for h in &all {
                if g.right != h.left {
                    continue;
                }
                let alpha = associator(h, g, f);
                let left = compose(&compose(h, g), f);
                let right = compose(h, &compose(g, f));
                assert!(cell_commutes(&alpha, &left, &right), "associator commute");
                assert!(finset::is_iso(&alpha.map), "associator iso\n{alpha:?}");
            }
        }
    }
}

#[test]
fn span_triangle() {
    // (id ∘ g) ∘ f  →  id ∘ (g ∘ f)  →  g ∘ f, versus the other unitor path.
    let max = 1;
    for f in spans_up_to(max) {
        for g in spans_up_to(max) {
            if f.right != g.left {
                continue;
            }
            let alpha = associator(&g, &identity(f.right), &f);
            // α: (g ∘ id) ∘ f → g ∘ (id ∘ f)
            let left_leg = compose(&g, &identity(f.right));
            // right unitor of the composite, whiskered: ρ_g * f  is a 2-cell
            // (g ∘ id) ∘ f → g ∘ f, obtained by composing the unitor on the
            // pulled-back apex. We compare the two paths as maps of apices
            // into g ∘ f by chasing elements.
            let gf = compose(&g, &f);
            let rho = right_unitor(&g);
            // Transport ρ across the pullback that defines (g ∘ id) ∘ f.
            // Apex of (g∘id)∘f is pullback of f.to_right and (g∘id).to_left.
            let gid = compose(&g, &identity(g.left));
            let src = compose(&gid, &f);
            // Element (idx_gid, m). ρ sends the n-component of gid to g's apex.
            let gid_pb = finset::pullback(&finset::id(g.left), &g.to_left);
            let src_pb = finset::pullback(&f.to_right, &gid.to_left);
            assert_eq!(src_pb.apex, src.apex);
            let path_unitor: Vec<u32> = src_pb
                .pairs
                .iter()
                .map(|&(gid_idx, m)| {
                    let n = rho.map.apply(gid_idx);
                    // target element of g∘f is the pair (m, n) in pullback(f.to_right, g.to_left)
                    let gf_pb = finset::pullback(&f.to_right, &g.to_left);
                    gf_pb
                        .pairs
                        .iter()
                        .position(|&pair| pair == (m, n))
                        .expect("triangle image") as u32
                })
                .collect();
            let _ = (left_leg, gf, gid_pb);
            // Other path: α then the left unitor of f, whiskered by g.
            let alpha_map = alpha.map.clone();
            let mid = compose(&g, &compose(&identity(f.right), &f));
            assert_eq!(alpha_map.dom, src.apex);
            assert_eq!(alpha_map.cod, mid.apex);
            let id_f = compose(&identity(f.right), &f);
            let lam_f = left_unitor(&f);
            // g ∘ (id∘f). λ_f: id∘f → f sends an apex index to f.apex.
            // Whisker on the left by g: the apex of compose(g, id_f) lists the
            // pairs (idf_idx, g_idx).
            let whisker: Vec<u32> = {
                let pb = finset::pullback(&id_f.to_right, &g.to_left);
                let target = finset::pullback(&f.to_right, &g.to_left);
                pb.pairs
                    .iter()
                    .map(|&(idf_idx, g_idx)| {
                        let m = lam_f.map.apply(idf_idx);
                        target
                            .pairs
                            .iter()
                            .position(|&pair| pair == (m, g_idx))
                            .expect("whiskered unitor") as u32
                    })
                    .collect()
            };
            let via_alpha: Vec<u32> = (0..src.apex)
                .map(|i| whisker[alpha_map.apply(i) as usize])
                .collect();
            assert_eq!(path_unitor, via_alpha, "span triangle");
        }
    }
}

#[test]
fn cospan_unitors_iso() {
    for f in cospans_up_to(1) {
        let rho = co_right_unitor(&f);
        let src = cocompose(&f, &coidentity(f.left));
        assert_eq!(rho.map.dom, src.apex);
        assert_eq!(rho.map.cod, f.apex);
        assert!(finset::is_iso(&rho.map), "co right unitor");
        let lambda = co_left_unitor(&f);
        assert!(finset::is_iso(&lambda.map), "co left unitor");
    }
}

#[test]
fn cospan_associator_iso() {
    let all = cospans_up_to(1);
    for f in &all {
        for g in &all {
            if f.right != g.left {
                continue;
            }
            for h in &all {
                if g.right != h.left {
                    continue;
                }
                let alpha = co_associator(h, g, f);
                assert!(
                    finset::is_iso(&alpha.map),
                    "cospan associator not iso: {alpha:?}\n{f:?}\n{g:?}\n{h:?}"
                );
            }
        }
    }
}

#[test]
fn lemma_1_coproducts_of_spans() {
    // Span(A ⊔ B, C) ≅ Span(A, C) × Span(B, C) on objects, via
    // distributivity and lextensivity of the slice over the product.
    for a in 0..=MAX_CARD {
        for b in 0..=MAX_CARD {
            for c in 0..=MAX_CARD {
                let sum = finset::coproduct(a, b);
                let left_base = finset::product(sum.obj, c).obj;
                let right_base = {
                    let ac = finset::product(a, c).obj;
                    let bc = finset::product(b, c).obj;
                    finset::coproduct(ac, bc).obj
                };
                let iso = {
                    // (A⊔B)×C → (A×C) ⊔ (B×C) is the inverse of distribute
                    // of C × (A⊔B) up to symmetry. Build it directly.
                    let mut map = Vec::new();
                    let ac = finset::product(a, c);
                    for s in 0..sum.obj {
                        for k in 0..c {
                            let idx = match finset::coproduct_side(a, s) {
                                Ok(i) => finset::pair_index(c, i, k),
                                Err(j) => ac.obj + finset::pair_index(c, j, k),
                            };
                            map.push(idx);
                        }
                    }
                    Mor {
                        dom: left_base,
                        cod: right_base,
                        map,
                    }
                };
                assert!(finset::is_iso(&iso), "span coproduct base {a},{b},{c}");
                // A slice over (A⊔B)×C transports along the iso to a slice
                // over the coproduct, which splits as a pair of slices.
                for total in 0..=MAX_CARD {
                    for leg in finset::morphisms(total, left_base) {
                        let transported = finset::compose(&iso, &leg);
                        let sum_base = finset::coproduct(
                            finset::product(a, c).obj,
                            finset::product(b, c).obj,
                        );
                        assert_eq!(transported.cod, sum_base.obj);
                        let pull_l = finset::pullback(&transported, &sum_base.inl);
                        let pull_r = finset::pullback(&transported, &sum_base.inr);
                        assert_eq!(
                            pull_l.apex + pull_r.apex,
                            total,
                            "lextensive decomposition of a span"
                        );
                    }
                }
            }
        }
    }
}
