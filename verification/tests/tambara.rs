use dependent_optics::tambara::{iota, lens_after_domain, lens_before_codomain, strengthen};
use dependent_optics::dlens;
use dependent_optics::finset;
use dependent_optics::mixed;
use dependent_optics::optic;
use dependent_optics::slice;

#[test]
fn lemma_2_and_proposition_6() {
    for dom in dlens::families_up_to(1) {
        for cod in dlens::families_up_to(1) {
            for lens in dlens::hom(&dom, &cod) {
                let forwards = slice::objects_up_to(1);
                for src in forwards.iter().filter(|o| o.base == dom.forward.base) {
                    for l in slice::morphisms(src, &dom.forward) {
                        for bsrc in forwards.iter().filter(|o| o.base == dom.backward.base) {
                            for r in slice::morphisms(&dom.backward, bsrc) {
                                let slid = iota(&l, &r);
                                assert!(slid.check());
                                let composed = optic::compose(&dlens::embed(&lens), &slid);
                                assert!(composed.check());
                                let got = dlens::normalize(&composed);
                                let expect = lens_after_domain(&lens, &l, &r);
                                assert_eq!(got, expect, "sliding before a lens");
                            }
                        }
                    }
                }
            }
        }
    }
    // ι preserves composition.
    for base in 0..=1 {
        let objs: Vec<_> = slice::objects_up_to(1)
            .into_iter()
            .filter(|o| o.base == base)
            .collect();
        for x0 in &objs {
            for x1 in &objs {
                for l1 in slice::morphisms(x0, x1) {
                    for x2 in &objs {
                        for l2 in slice::morphisms(x1, x2) {
                            for p0 in &objs {
                                for p1 in &objs {
                                    for r1 in slice::morphisms(p1, p0) {
                                        for p2 in &objs {
                                            for r2 in slice::morphisms(p2, p1) {
                                                let left = optic::compose(
                                                    &iota(&l2, &r2),
                                                    &iota(&l1, &r1),
                                                );
                                                let right = iota(
                                                    &slice::compose(&l2, &l1),
                                                    &slice::compose(&r1, &r2),
                                                );
                                                assert_eq!(
                                                    dlens::normalize(&left),
                                                    dlens::normalize(&right),
                                                    "ι preserves composition"
                                                );
                                            }
                                        }
                                    }
                                }
                            }
                        }
                    }
                }
            }
        }
    }
}

#[test]
fn lemma_3_postcomposition() {
    for dom in dlens::families_up_to(1) {
        for mid in dlens::families_up_to(1) {
            for lens in dlens::hom(&dom, &mid) {
                let objs = slice::objects_up_to(1);
                for zf in objs.iter().filter(|o| o.base == mid.forward.base) {
                    for l in slice::morphisms(&mid.forward, zf) {
                        for zb in objs.iter().filter(|o| o.base == mid.backward.base) {
                            for r in slice::morphisms(zb, &mid.backward) {
                                let slid = iota(&l, &r);
                                let composed = optic::compose(&slid, &dlens::embed(&lens));
                                let got = dlens::normalize(&composed);
                                let expect = lens_before_codomain(&lens, &l, &r);
                                assert_eq!(got, expect, "sliding after a lens");
                            }
                        }
                    }
                }
            }
        }
    }
}

#[test]
fn representables_detect_lenses() {
    let fams = dlens::families_up_to(1);
    for dom in &fams {
        for cod in &fams {
            let homs = dlens::hom(dom, cod);
            for i in 0..homs.len() {
                for j in 0..homs.len() {
                    let detected = fams.iter().all(|t| {
                        let out_i: Vec<_> = dlens::hom(cod, t)
                            .into_iter()
                            .map(|u| dlens::compose(&u, &homs[i]))
                            .collect();
                        let out_j: Vec<_> = dlens::hom(cod, t)
                            .into_iter()
                            .map(|u| dlens::compose(&u, &homs[j]))
                            .collect();
                        out_i == out_j
                    });
                    assert_eq!(detected, i == j, "representables detect lenses");
                }
            }
        }
    }
}

#[test]
fn classical_lens_strength_is_functorial() {
    for c in 0..=1 {
        for dom in mixed::pairs_up_to(1) {
            let idl = mixed::lens_id(dom.clone());
            let strengthened = strengthen(&idl, c);
            assert!(strengthened.check());
            assert_eq!(strengthened, mixed::lens_id(strengthened.dom.clone()));
            for cod in mixed::pairs_up_to(1) {
                for lens in mixed::lens_hom(&dom, &cod) {
                    let s = strengthen(&lens, c);
                    assert!(s.check());
                    // get/put laws
                    if s.cod.backward == 0 || s.dom.forward == 0 {
                        continue;
                    }
                    for k in 0..s.dom.forward {
                        let idx = finset::pair_index(s.cod.backward, k, s.get.apply(k));
                        assert!(idx < s.put.dom, "put index {idx}");
                        let got = s.put.apply(idx);
                        assert_eq!(got, k, "strength put-get");
                    }
                }
            }
        }
    }
    for c in 0..=1 {
        for a in mixed::pairs_up_to(1) {
            for b in mixed::pairs_up_to(1) {
                for f in mixed::lens_hom(&a, &b) {
                    for d in mixed::pairs_up_to(1) {
                        for g in mixed::lens_hom(&b, &d) {
                            let left = strengthen(&mixed::lens_compose(&g, &f), c);
                            let right =
                                mixed::lens_compose(&strengthen(&g, c), &strengthen(&f, c));
                            assert_eq!(left, right, "strength preserves composition");
                        }
                    }
                }
            }
        }
    }
}
