use dependent_optics::finset::{MAX_CARD, Mor, coequalizer, coequalizer_mediator, compose, copair, coproduct, distribute_product_coproduct, equalizer, equalizer_mediator, id, initial, inverse, is_iso, morphisms, objects_up_to, pair, product, pullback, pullback_into_product, pullback_mediator, pushout, terminal};

fn assert_commutes(left: &Mor, right: &Mor) {
    assert_eq!(
        left, right,
        "diagram failed\n left {left:?}\n right {right:?}"
    );
}

#[test]
fn category_laws_up_to_max() {
    for a in objects_up_to(MAX_CARD) {
        for b in objects_up_to(MAX_CARD) {
            for f in morphisms(a, b) {
                assert_commutes(&compose(&f, &id(a)), &f);
                assert_commutes(&compose(&id(b), &f), &f);
                for c in objects_up_to(MAX_CARD) {
                    for g in morphisms(b, c) {
                        for d in objects_up_to(MAX_CARD) {
                            for h in morphisms(c, d) {
                                let left = compose(&h, &compose(&g, &f));
                                let right = compose(&compose(&h, &g), &f);
                                assert_commutes(&left, &right);
                            }
                        }
                    }
                }
            }
        }
    }
}

#[test]
fn product_universal() {
    for a in objects_up_to(MAX_CARD) {
        for b in objects_up_to(MAX_CARD) {
            let p = product(a, b);
            assert_eq!(compose(&p.fst, &pair(&p.fst, &p.snd)), p.fst);
            assert_eq!(compose(&p.snd, &pair(&p.fst, &p.snd)), p.snd);
            for z in objects_up_to(MAX_CARD) {
                for f in morphisms(z, a) {
                    for g in morphisms(z, b) {
                        let m = pair(&f, &g);
                        assert_commutes(&compose(&p.fst, &m), &f);
                        assert_commutes(&compose(&p.snd, &m), &g);
                        // uniqueness: any other mediator agrees
                        for other in morphisms(z, p.obj) {
                            if compose(&p.fst, &other) == f && compose(&p.snd, &other) == g {
                                assert_eq!(other, m);
                            }
                        }
                    }
                }
            }
        }
    }
}

#[test]
fn coproduct_universal() {
    for a in objects_up_to(MAX_CARD) {
        for b in objects_up_to(MAX_CARD) {
            let s = coproduct(a, b);
            assert_eq!(compose(&copair(&s.inl, &s.inr), &s.inl), s.inl);
            for c in objects_up_to(MAX_CARD) {
                for f in morphisms(a, c) {
                    for g in morphisms(b, c) {
                        let m = copair(&f, &g);
                        assert_commutes(&compose(&m, &s.inl), &f);
                        assert_commutes(&compose(&m, &s.inr), &g);
                        for other in morphisms(s.obj, c) {
                            if compose(&other, &s.inl) == f && compose(&other, &s.inr) == g {
                                assert_eq!(other, m);
                            }
                        }
                    }
                }
            }
        }
    }
}

#[test]
fn pullback_universal() {
    for x in objects_up_to(MAX_CARD) {
        for y in objects_up_to(MAX_CARD) {
            for z in objects_up_to(MAX_CARD) {
                for f in morphisms(x, z) {
                    for g in morphisms(y, z) {
                        let pb = pullback(&f, &g);
                        assert_commutes(&compose(&f, &pb.to_left), &compose(&g, &pb.to_right));
                        let prod = product(x, y);
                        let incl = pullback_into_product(&pb, y);
                        assert_commutes(&compose(&prod.fst, &incl), &pb.to_left);
                        assert_commutes(&compose(&prod.snd, &incl), &pb.to_right);
                        for w in objects_up_to(MAX_CARD) {
                            for p in morphisms(w, x) {
                                for q in morphisms(w, y) {
                                    if compose(&f, &p) != compose(&g, &q) {
                                        continue;
                                    }
                                    let m = pullback_mediator(&pb, &p, &q);
                                    assert_commutes(&compose(&pb.to_left, &m), &p);
                                    assert_commutes(&compose(&pb.to_right, &m), &q);
                                }
                            }
                        }
                    }
                }
            }
        }
    }
}

#[test]
fn equalizer_and_coequalizer_universal() {
    for x in objects_up_to(MAX_CARD) {
        for y in objects_up_to(MAX_CARD) {
            for f in morphisms(x, y) {
                for g in morphisms(x, y) {
                    let eq = equalizer(&f, &g);
                    assert_commutes(&compose(&f, &eq.incl), &compose(&g, &eq.incl));
                    let co = coequalizer(&f, &g);
                    assert_commutes(&compose(&co.proj, &f), &compose(&co.proj, &g));
                    for w in objects_up_to(MAX_CARD) {
                        for h in morphisms(w, x) {
                            if compose(&f, &h) == compose(&g, &h) {
                                let m = equalizer_mediator(&eq, &h);
                                assert_commutes(&compose(&eq.incl, &m), &h);
                            }
                        }
                        for h in morphisms(y, w) {
                            if compose(&h, &f) == compose(&h, &g) {
                                let m = coequalizer_mediator(&co, &h);
                                assert_commutes(&compose(&m, &co.proj), &h);
                            }
                        }
                    }
                }
            }
        }
    }
}

#[test]
fn pushout_square_commutes() {
    for z in objects_up_to(MAX_CARD) {
        for x in objects_up_to(MAX_CARD) {
            for y in objects_up_to(MAX_CARD) {
                for f in morphisms(z, x) {
                    for g in morphisms(z, y) {
                        let po = pushout(&f, &g);
                        assert_commutes(
                            &compose(&po.from_left, &f),
                            &compose(&po.from_right, &g),
                        );
                    }
                }
            }
        }
    }
}

#[test]
fn product_distributes_over_coproduct() {
    for a in objects_up_to(MAX_CARD) {
        for b in objects_up_to(MAX_CARD) {
            for c in objects_up_to(MAX_CARD) {
                let iso = distribute_product_coproduct(a, b, c);
                assert!(is_iso(&iso), "distributivity {a},{b},{c}: {iso:?}");
                let inv = inverse(&iso);
                let left = product(a, b + c);
                let ab = product(a, b);
                let ac = product(a, c);
                let right = coproduct(ab.obj, ac.obj);
                // projection to A agrees
                let to_a_left = left.fst.clone();
                let to_a_right = copair(&ab.fst, &ac.fst);
                assert_commutes(
                    &compose(&to_a_left, &inv),
                    &compose(&to_a_right, &id(right.obj)),
                );
                let _ = to_a_right;
            }
        }
    }
}

#[test]
fn terminal_and_initial() {
    assert_eq!(terminal(), 1);
    assert_eq!(initial(), 0);
    for a in objects_up_to(MAX_CARD) {
        assert_eq!(morphisms(a, 1).len(), 1);
        assert_eq!(morphisms(0, a).len(), 1);
        if a > 0 {
            assert!(morphisms(a, 0).is_empty());
        }
    }
}

#[test]
fn product_preserves_equalizers() {
    // (eq(f, g)) × A  ≅  eq(f × id, g × id)
    for x in objects_up_to(MAX_CARD) {
        for y in objects_up_to(MAX_CARD) {
            for a in objects_up_to(MAX_CARD) {
                for f in morphisms(x, y) {
                    for g in morphisms(x, y) {
                        let eq = equalizer(&f, &g);
                        let left = product(eq.obj, a);
                        let xa = product(x, a);
                        let ya = product(y, a);
                        let f_id = pair(&compose(&f, &xa.fst), &xa.snd);
                        let g_id = pair(&compose(&g, &xa.fst), &xa.snd);
                        assert_eq!(f_id.cod, ya.obj);
                        let right = equalizer(&f_id, &g_id);
                        // inclusion of left into X×A
                        let incl_left = pair(&compose(&eq.incl, &left.fst), &left.snd);
                        assert_eq!(incl_left.dom, left.obj);
                        assert_eq!(right.obj, left.obj, "equalizer card after product");
                        // the underlying elements match via the product order
                        let mut from_right = vec![false; xa.obj as usize];
                        for &e in &right.elements {
                            from_right[e as usize] = true;
                        }
                        for i in 0..left.obj {
                            assert!(from_right[incl_left.apply(i) as usize]);
                        }
                    }
                }
            }
        }
    }
}
