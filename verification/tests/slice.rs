use dependent_optics::slice::{act_two_cell, co_act_two_cell, co_theta_comp, co_theta_id, co_theta_id_inv, cocompose, compose, coslice_morphisms, coslice_objects_up_to, lextensive_split, morphisms, objects_up_to, reindex_coslice, reindex_coslice_mor, reindex_mor, reindex_obj, slice_id, theta_comp, theta_comp_inv, theta_id, theta_id_inv};
use dependent_optics::finset::MAX_CARD;
use dependent_optics::span::{cospans_up_to, spans_up_to};
use dependent_optics::finset;
use dependent_optics::span;

#[test]
fn reindex_functorial_on_morphisms() {
    for f in spans_up_to(MAX_CARD) {
        for base_objs in objects_up_to(MAX_CARD)
            .into_iter()
            .filter(|o| o.base == f.right)
        {
            let id_img = reindex_mor(&f, &slice_id(&base_objs));
            assert_eq!(id_img.map, finset::id(id_img.dom.total));
        }
        let overs: Vec<_> = objects_up_to(MAX_CARD)
            .into_iter()
            .filter(|o| o.base == f.right)
            .collect();
        for a in &overs {
            for b in &overs {
                for mor in morphisms(a, b) {
                    for c in &overs {
                        for nu in morphisms(b, c) {
                            let left = reindex_mor(&f, &compose(&nu, &mor));
                            let right = compose(&reindex_mor(&f, &nu), &reindex_mor(&f, &mor));
                            assert_eq!(left, right, "reindex preserves composition");
                        }
                    }
                }
            }
        }
    }
}

#[test]
fn theta_id_is_iso_and_natural() {
    for y in objects_up_to(MAX_CARD) {
        let t = theta_id(&y);
        let inv = theta_id_inv(&y);
        assert!(t.check());
        assert!(inv.check());
        assert_eq!(compose(&inv, &t), slice_id(&y));
        assert_eq!(compose(&t, &inv), slice_id(&t.cod));
    }
    for base in 0..=MAX_CARD {
        let overs: Vec<_> = objects_up_to(MAX_CARD)
            .into_iter()
            .filter(|o| o.base == base)
            .collect();
        for a in &overs {
            for b in &overs {
                for mor in morphisms(a, b) {
                    let left = compose(&theta_id(b), &mor);
                    let right =
                        compose(&reindex_mor(&span::identity(base), &mor), &theta_id(a));
                    assert_eq!(left, right, "theta_id natural");
                }
            }
        }
    }
}

#[test]
fn theta_comp_is_iso_and_natural() {
    for f in spans_up_to(1) {
        for g in spans_up_to(1) {
            if f.right != g.left {
                continue;
            }
            for z in objects_up_to(1).into_iter().filter(|z| z.base == g.right) {
                let t = theta_comp(&f, &g, &z);
                assert!(t.check());
                assert!(finset::is_iso(&t.map), "theta_comp iso");
                let inv = theta_comp_inv(&f, &g, &z);
                assert_eq!(compose(&inv, &t).map, finset::id(t.dom.total));
            }
        }
    }
}

#[test]
fn pseudofunctor_identity_coherence() {
    // L(ρ_f) ∘ θ_{id, f} ∘ θ_A(f* Y) = id, and the left-unit twin.
    for f in spans_up_to(MAX_CARD) {
        for y in objects_up_to(MAX_CARD)
            .into_iter()
            .filter(|y| y.base == f.right)
        {
            let fy = reindex_obj(&f, &y);
            let theta_a = theta_id(&fy);
            let theta_id_f = theta_comp(&span::identity(f.left), &f, &y);
            let rho = span::right_unitor(&f);
            let comp = span::compose(&f, &span::identity(f.left));
            let act = act_two_cell(&rho, &comp, &f, &y);
            let mid = compose(&theta_id_f, &theta_a);
            let whole = compose(&act, &mid);
            assert_eq!(whole.map, finset::id(fy.total), "right identity coherence");

            let theta_b = reindex_mor(&f, &theta_id(&y));
            let theta_f_id = theta_comp(&f, &span::identity(f.right), &y);
            let lambda = span::left_unitor(&f);
            let comp_l = span::compose(&span::identity(f.right), &f);
            let act_l = act_two_cell(&lambda, &comp_l, &f, &y);
            let whole_l = compose(&act_l, &compose(&theta_f_id, &theta_b));
            assert_eq!(whole_l.map, finset::id(fy.total), "left identity coherence");
        }
    }
}

#[test]
fn pseudofunctor_associativity_coherence() {
    // L(α_{f,g,h}) ∘ θ_{(g∘f), h} ∘ (θ_{f,g}) on h*   =  θ_{f, (h∘g)} ∘ f*(θ_{g,h})
    // with α: (h ∘ g) ∘ f ⇒ h ∘ (g ∘ f).
    let all = spans_up_to(1);
    for f in &all {
        for g in &all {
            if f.right != g.left {
                continue;
            }
            for h in &all {
                if g.right != h.left {
                    continue;
                }
                for z in objects_up_to(1).into_iter().filter(|z| z.base == h.right) {
                    let gf = span::compose(g, f);
                    let hg = span::compose(h, g);
                    // left: θ_{f,g} at h* Z, then θ_{g∘f, h}, then L(α)
                    let theta_fg = theta_comp(f, g, &reindex_obj(h, &z));
                    let theta_gf_h = theta_comp(&gf, h, &z);
                    let alpha = span::associator(h, g, f);
                    let left_span = span::compose(&hg, f);
                    let right_span = span::compose(h, &span::compose(g, f));
                    let act = act_two_cell(&alpha, &left_span, &right_span, &z);
                    let left = compose(&act, &compose(&theta_gf_h, &theta_fg));

                    let theta_gh = theta_comp(g, h, &z);
                    let f_theta = reindex_mor(f, &theta_gh);
                    let theta_f_hg = theta_comp(f, &hg, &z);
                    let right = compose(&theta_f_hg, &f_theta);
                    assert_eq!(left, right, "associativity coherence");
                }
            }
        }
    }
}

#[test]
fn two_cell_action_is_functorial() {
    for f in spans_up_to(1) {
        for g in spans_up_to(1) {
            if f.left != g.left || f.right != g.right {
                continue;
            }
            for m in span::two_cells(&f, &g) {
                for h in spans_up_to(1) {
                    if g.left != h.left || g.right != h.right {
                        continue;
                    }
                    for n in span::two_cells(&g, &h) {
                        for y in objects_up_to(1).into_iter().filter(|y| y.base == f.right) {
                            let left = act_two_cell(&span::vcompose(&n, &m), &f, &h, &y);
                            let right = compose(
                                &act_two_cell(&n, &g, &h, &y),
                                &act_two_cell(&m, &f, &g, &y),
                            );
                            assert_eq!(left.map, right.map, "2-cell functoriality");
                        }
                    }
                }
            }
        }
    }
}

#[test]
fn lextensive_slice_decomposition() {
    for a in 0..=MAX_CARD {
        for b in 0..=MAX_CARD {
            let sum = a + b;
            for total in 0..=MAX_CARD {
                for leg in finset::morphisms(total, sum) {
                    let (xa, xb, iso) = lextensive_split(&leg, a);
                    assert!(finset::is_iso(&iso), "lextensive iso");
                    assert_eq!(xa.total + xb.total, total);
                    // recomposed leg matches
                    let cop = finset::coproduct(a, b);
                    let leg_a = finset::compose(&cop.inl, &xa.leg);
                    let leg_b = finset::compose(&cop.inr, &xb.leg);
                    let recomposed = finset::copair(&leg_a, &leg_b);
                    assert_eq!(finset::compose(&recomposed, &iso), leg);
                }
            }
        }
    }
}

#[test]
fn coslice_theta_id_iso() {
    for y in coslice_objects_up_to(MAX_CARD) {
        let t = co_theta_id(&y);
        assert!(t.check());
        let inv = co_theta_id_inv(&y);
        assert_eq!(cocompose(&inv, &t).map, finset::id(y.total));
    }
}

#[test]
fn coslice_identity_coherence() {
    for f in cospans_up_to(MAX_CARD) {
        for y in coslice_objects_up_to(MAX_CARD)
            .into_iter()
            .filter(|y| y.base == f.right)
        {
            let fy = reindex_coslice(&f, &y);
            let theta = co_theta_comp(&span::coidentity(f.left), &f, &y);
            assert!(theta.check());
            assert!(
                finset::is_iso(&theta.map),
                "co theta_comp not iso {theta:?}\n{f:?}\n{y:?}"
            );
            let rho = span::co_right_unitor(&f);
            let comp = span::cocompose(&f, &span::coidentity(f.left));
            let act = co_act_two_cell(&rho, &comp, &f, &y);
            let theta_a = co_theta_id(&fy);
            let whole = cocompose(&act, &cocompose(&theta, &theta_a));
            assert_eq!(
                whole.map,
                finset::id(fy.total),
                "coslice right identity coherence"
            );
        }
    }
}

#[test]
fn coslice_associativity_coherence() {
    let all = cospans_up_to(1);
    for f in &all {
        for g in &all {
            if f.right != g.left {
                continue;
            }
            for h in &all {
                if g.right != h.left {
                    continue;
                }
                for z in coslice_objects_up_to(1)
                    .into_iter()
                    .filter(|z| z.base == h.right)
                {
                    let gf = span::cocompose(g, f);
                    let hg = span::cocompose(h, g);
                    let theta_fg = co_theta_comp(f, g, &reindex_coslice(h, &z));
                    let theta_gf_h = co_theta_comp(&gf, h, &z);
                    let alpha = span::co_associator(h, g, f);
                    let left_span = span::cocompose(&hg, f);
                    let right_span = span::cocompose(h, &span::cocompose(g, f));
                    let act = co_act_two_cell(&alpha, &left_span, &right_span, &z);
                    let left = cocompose(&act, &cocompose(&theta_gf_h, &theta_fg));
                    let theta_gh = co_theta_comp(g, h, &z);
                    let f_theta = reindex_coslice_mor(f, &theta_gh);
                    let theta_f_hg = co_theta_comp(f, &hg, &z);
                    let right = cocompose(&theta_f_hg, &f_theta);
                    assert_eq!(left.map, right.map, "coslice associativity");
                }
            }
        }
    }
}

#[test]
fn coslice_reindex_preserves_composition() {
    for f in cospans_up_to(1) {
        let overs: Vec<_> = coslice_objects_up_to(1)
            .into_iter()
            .filter(|o| o.base == f.right)
            .collect();
        for a in &overs {
            for b in &overs {
                for mor in coslice_morphisms(a, b) {
                    for c in &overs {
                        for nu in coslice_morphisms(b, c) {
                            let left = reindex_coslice_mor(&f, &cocompose(&nu, &mor));
                            let right = cocompose(
                                &reindex_coslice_mor(&f, &nu),
                                &reindex_coslice_mor(&f, &mor),
                            );
                            assert_eq!(left.map, right.map);
                        }
                    }
                }
            }
        }
    }
}
