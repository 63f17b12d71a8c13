use dependent_optics::ad::{backward, dual_eval, forward, stored_scalars, Dual, Expr, Q};
use dependent_optics::bicat_optic::paste;
use dependent_optics::bimod::{classes, closed_dimension};
use dependent_optics::closed;
use dependent_optics::comonoid;
use dependent_optics::dlens;
use dependent_optics::dprism;
use dependent_optics::enriched;
use dependent_optics::fibre::{self, Matrix};
use dependent_optics::finset::{self, Mor};
use dependent_optics::functor_lens;
use dependent_optics::mixed;
use dependent_optics::monoid::{self, CMon};
use dependent_optics::monoidal_optic;
use dependent_optics::monoidal_structure;
use dependent_optics::optic;
use dependent_optics::polynomial::{self, Choice, Poly, PolyMap};
use dependent_optics::slice::{self, CosliceObj, SliceObj};
use dependent_optics::span::{self, Cospan, Span};
use dependent_optics::tambara;
use dependent_optics::vect::{self, Lin};

fn mor(dom: u32, cod: u32, map: &[u32]) -> Mor {
    Mor {
        dom,
        cod,
        map: map.to_vec(),
    }
}

fn over(base: u32, leg: &[u32]) -> SliceObj {
    SliceObj {
        base,
        total: leg.len() as u32,
        leg: mor(leg.len() as u32, base, leg),
    }
}

#[test]
fn functions_are_listed_in_lexicographic_order() {
    let maps: Vec<Vec<u32>> = finset::morphisms(2, 3).into_iter().map(|f| f.map).collect();
    assert_eq!(
        maps,
        vec![
            vec![0, 0],
            vec![0, 1],
            vec![0, 2],
            vec![1, 0],
            vec![1, 1],
            vec![1, 2],
            vec![2, 0],
            vec![2, 1],
            vec![2, 2],
        ]
    );
    assert_eq!(finset::morphisms(0, 0).len(), 1);
    assert_eq!(finset::morphisms(0, 3).len(), 1);
    assert_eq!(finset::morphisms(3, 0).len(), 0);
    assert_eq!(finset::counted_tables(0, 0), vec![Vec::<u32>::new()]);
    assert_eq!(finset::objects_up_to(2), vec![0, 1, 2]);
}

#[test]
fn a_map_checks_its_table() {
    assert!(mor(2, 3, &[0, 2]).check());
    assert!(!mor(2, 3, &[0]).check());
    assert!(!mor(2, 3, &[0, 3]).check());
    assert!(finset::same_words(&vec![1, 2], &vec![1, 2]));
    assert!(!finset::same_words(&vec![1, 2], &vec![1]));
}

#[test]
fn inverses_undo_permutations() {
    let f = mor(3, 3, &[2, 0, 1]);
    assert!(finset::is_iso(&f));
    let g = finset::inverse(&f);
    assert_eq!(g, mor(3, 3, &[1, 2, 0]));
    assert_eq!(finset::compose(&g, &f), finset::id(3));
    assert_eq!(finset::compose(&f, &g), finset::id(3));
    assert!(!finset::is_iso(&mor(3, 3, &[2, 0, 2])));
    assert!(!finset::is_iso(&mor(2, 3, &[2, 0])));
}

#[test]
fn limits_have_their_documented_elements() {
    let p = finset::product(2, 3);
    assert_eq!((p.obj, p.left, p.right), (6, 2, 3));
    assert_eq!(p.fst.map, vec![0, 0, 0, 1, 1, 1]);
    assert_eq!(p.snd.map, vec![0, 1, 2, 0, 1, 2]);
    assert_eq!(finset::pair_index(3, 1, 2), 5);
    assert_eq!(finset::pair(&mor(2, 2, &[1, 0]), &mor(2, 3, &[2, 1])).map, vec![5, 1]);
    let pb = finset::pullback(&mor(3, 2, &[0, 1, 0]), &mor(2, 2, &[0, 0]));
    assert_eq!(pb.pairs, vec![(0, 0), (0, 1), (2, 0), (2, 1)]);
    assert_eq!(pb.to_left.map, vec![0, 0, 2, 2]);
    assert_eq!(pb.to_right.map, vec![0, 1, 0, 1]);
    assert_eq!(finset::pair_position(&pb, 2, 0), 2);
    assert_eq!(finset::pullback_into_product(&pb, 2).map, vec![0, 1, 4, 5]);
    let eq = finset::equalizer(&mor(3, 2, &[0, 1, 0]), &mor(3, 2, &[0, 0, 0]));
    assert_eq!(eq.elements, vec![0, 2]);
    assert_eq!(eq.incl, mor(2, 3, &[0, 2]));
    assert_eq!(
        finset::equalizer_mediator(&eq, &mor(2, 3, &[2, 0])),
        mor(2, 2, &[1, 0])
    );
}

#[test]
fn colimits_have_their_documented_elements() {
    let s = finset::coproduct(2, 3);
    assert_eq!((s.obj, s.left, s.right), (5, 2, 3));
    assert_eq!(s.inr.map, vec![2, 3, 4]);
    assert_eq!(finset::coproduct_side(2, 1), Ok(1));
    assert_eq!(finset::coproduct_side(2, 4), Err(2));
    let q = finset::coequalizer(&mor(2, 4, &[0, 2]), &mor(2, 4, &[3, 3]));
    assert_eq!(q.obj, 2);
    assert_eq!(q.proj.map, vec![0, 1, 0, 0]);
    assert_eq!(
        finset::coequalizer_mediator(&q, &mor(4, 2, &[1, 0, 1, 1])).map,
        vec![1, 0]
    );
    let po = finset::pushout(&mor(1, 2, &[1]), &mor(1, 2, &[0]));
    assert_eq!(po.apex, 3);
    assert_eq!(
        finset::compose(&po.from_left, &mor(1, 2, &[1])),
        finset::compose(&po.from_right, &mor(1, 2, &[0]))
    );
    let m = finset::pushout_mediator(&po, &mor(2, 2, &[0, 1]), &mor(2, 2, &[1, 0]), 2);
    assert_eq!(finset::compose(&m, &po.from_left), mor(2, 2, &[0, 1]));
    assert_eq!(finset::compose(&m, &po.from_right), mor(2, 2, &[1, 0]));
    assert!(finset::is_iso(&finset::distribute_product_coproduct(2, 1, 3)));
}

#[test]
fn the_points_of_the_empty_and_the_one_element_set() {
    assert_eq!((finset::initial(), finset::terminal()), (0, 1));
    assert_eq!(finset::from_initial(3), mor(0, 3, &[]));
    assert_eq!(finset::to_terminal(3), mor(3, 1, &[0, 0, 0]));
    assert_eq!(comonoid::counit(2), finset::to_terminal(2));
    assert_eq!(comonoid::diagonal(2), mor(2, 4, &[0, 3]));
    assert_eq!(comonoid::coaction(&mor(2, 3, &[2, 1])), mor(2, 6, &[2, 4]));
}

#[test]
fn spans_compose_by_pullback_up_to_their_cells() {
    let f = Span {
        left: 1,
        right: 2,
        apex: 3,
        to_left: mor(3, 1, &[0, 0, 0]),
        to_right: mor(3, 2, &[0, 1, 0]),
    };
    let g = Span {
        left: 2,
        right: 2,
        apex: 2,
        to_left: mor(2, 2, &[0, 0]),
        to_right: mor(2, 2, &[1, 0]),
    };
    let gf = span::compose(&g, &f);
    assert_eq!((gf.left, gf.right, gf.apex), (1, 2, 4));
    assert_eq!(gf.to_right.map, vec![1, 0, 1, 0]);
    let right = span::right_unitor(&f);
    assert!(span::cell_commutes(&right, &span::compose(&f, &span::identity(1)), &f));
    let h = span::include_morphism(&mor(2, 2, &[1, 1]));
    let a = span::associator(&h, &g, &f);
    let left = span::compose(&span::compose(&h, &g), &f);
    let other = span::compose(&h, &gf);
    assert!(span::cell_commutes(&a, &left, &other));
    assert!(finset::is_iso(&a.map));
    let cells = span::two_cells(&g, &g);
    assert_eq!(cells.len(), 1);
    assert_eq!(cells[0].map, span::id_two_cell(&g).map);
    assert_eq!(span::vcompose(&cells[0], &cells[0]).map, finset::id(2));
}

#[test]
fn slices_are_reindexed_along_spans() {
    let f = Span {
        left: 2,
        right: 2,
        apex: 2,
        to_left: mor(2, 2, &[1, 0]),
        to_right: mor(2, 2, &[0, 0]),
    };
    let y = over(2, &[0, 0, 1]);
    let fy = slice::reindex_obj(&f, &y);
    assert_eq!(fy, over(2, &[1, 1, 0, 0]));
    let id = slice::slice_id(&y);
    assert_eq!(slice::reindex_mor(&f, &id), slice::slice_id(&fy));
    let theta = slice::theta_id(&y);
    let back = slice::theta_id_inv(&y);
    assert_eq!(slice::compose(&back, &theta).map, finset::id(3));
    assert_eq!(slice::morphisms(&over(2, &[0, 1]), &y).len(), 2);
    let (left, right, iso) = slice::lextensive_split(&mor(3, 3, &[2, 0, 1]), 1);
    assert_eq!((left.base, left.total), (1, 1));
    assert_eq!((right.base, right.total), (2, 2));
    assert!(finset::is_iso(&iso));
}

#[test]
fn coslices_are_reindexed_along_cospans() {
    let f = Cospan {
        left: 1,
        right: 2,
        apex: 2,
        from_left: mor(1, 2, &[1]),
        from_right: mor(2, 2, &[0, 0]),
    };
    assert!(f.check());
    let y = CosliceObj {
        base: 2,
        total: 3,
        leg: mor(2, 3, &[2, 0]),
    };
    let fy = slice::reindex_coslice(&f, &y);
    assert!(fy.check());
    // The leg of `y` meets the point 0 of the apex; 1 and the rest stay apart.
    assert_eq!((fy.base, fy.total), (1, 3));
    let id = slice::coslice_id(&y);
    assert!(id.check());
    assert_eq!(slice::reindex_coslice_mor(&f, &id), slice::coslice_id(&fy));
    let unit = slice::co_theta_id(&y);
    let back = slice::co_theta_id_inv(&y);
    assert_eq!(slice::cocompose(&back, &unit).map, finset::id(unit.dom.total));
    let cells = span::co_two_cells(&f, &f);
    assert_eq!(cells.len(), 1);
    assert_eq!(cells[0].map, finset::id(2));
    let g = span::cocompose(&span::coidentity(2), &f);
    assert!(finset::is_iso(&span::co_left_unitor(&f).map));
    assert_eq!((g.left, g.right), (1, 2));
}

#[test]
fn a_lens_with_a_larger_residual_is_normalized() {
    let fam = optic::Family {
        forward: over(1, &[0, 0]),
        backward: over(1, &[0]),
    };
    assert!(fam.check());
    let lenses = dlens::hom(&fam, &fam);
    assert_eq!(lenses.len(), 4);
    for f in &lenses {
        let w = dlens::embed(f);
        assert_eq!(dlens::normalize(&w), *f);
        let id = optic::identity(&fam);
        let wider = optic::compose(&w, &id);
        assert_eq!(dlens::normalize(&wider), *f);
        assert!(optic::equivalent(&w, &wider));
        assert!(optic::related_by(&dlens::normalizing_cell(&wider), &w, &wider));
        for g in &lenses {
            assert_eq!(
                dlens::normalize(&optic::compose(&dlens::embed(g), &w)),
                dlens::compose(g, f)
            );
            assert_eq!(optic::equivalent(&w, &dlens::embed(g)), f == g);
        }
    }
}

#[test]
fn pasted_cells_relate_composites() {
    let fam = optic::Family {
        forward: over(1, &[0, 0]),
        backward: over(1, &[0]),
    };
    let id = optic::identity(&fam);
    for lens in dlens::hom(&fam, &fam) {
        let w = optic::compose(&dlens::embed(&lens), &id);
        let n = dlens::embed(&dlens::normalize(&w));
        let cell = dlens::normalizing_cell(&w);
        let pasted = paste(&n.span, &w.span, &cell, &n.span, &w.span, &cell);
        assert!(optic::related_by(
            &pasted,
            &optic::compose(&n, &n),
            &optic::compose(&w, &w)
        ));
    }
}

#[test]
fn copairs_restrict_to_their_legs() {
    let a = optic::Family {
        forward: over(1, &[0, 0]),
        backward: over(1, &[0]),
    };
    let b = optic::Family {
        forward: over(2, &[1]),
        backward: over(2, &[0, 1]),
    };
    let parts = [a.clone(), b.clone()];
    let sum = dlens::coproduct(&parts);
    assert_eq!((sum.forward.base, sum.forward.total, sum.backward.total), (3, 3, 3));
    assert_eq!(dlens::offsets(&parts).len(), 2);
    for f in dlens::hom(&a, &a) {
        for g in dlens::hom(&b, &a) {
            let legs = [f.clone(), g.clone()];
            let both = dlens::copair(&parts, &legs);
            assert_eq!(dlens::decompose(&parts, &both), vec![f.clone(), g.clone()]);
            assert_eq!(dlens::compose(&both, &dlens::injection(&parts, 0)), f);
            assert_eq!(dlens::compose(&both, &dlens::injection(&parts, 1)), g);
        }
    }
}

#[test]
fn prisms_normalize_their_witnesses() {
    for fam in dprism::families_up_to(1) {
        let id = dprism::identity(&fam);
        assert_eq!(dprism::normalize(&dprism::witness_id(&fam)), id);
        for p in dprism::hom(&fam, &fam) {
            for q in dprism::hom(&fam, &fam) {
                let w = dprism::witness_compose(&dprism::embed(&q), &dprism::embed(&p));
                assert!(w.check());
                assert_eq!(dprism::normalize(&w), dprism::compose(&q, &p));
            }
        }
    }
    let empty = dprism::coproduct(&[]);
    assert_eq!((empty.forward.base, empty.forward.total), (0, 0));
    for fam in dprism::families_up_to(1) {
        if fam.forward.base == 0 {
            let _ = dprism::hom(&empty, &fam);
        }
    }
}

#[test]
fn classical_optics_compose() {
    let p = mixed::Pair {
        forward: 2,
        backward: 2,
    };
    let lenses = mixed::lens_hom(&p, &p);
    assert_eq!(lenses.len(), 4 * 16);
    let prisms = mixed::prism_hom(&p, &p);
    assert_eq!(prisms.len(), 4 * 16);
    for f in &lenses {
        assert_eq!(mixed::normalize_lens(&p, &p, &mixed::embed_lens(f)), *f);
        let g = &lenses[17];
        let gf = mixed::lens_compose(g, f);
        for x in 0..2 {
            assert_eq!(gf.get.apply(x), g.get.apply(f.get.apply(x)));
            for z in 0..2 {
                let y = g.put.apply(finset::pair_index(2, f.get.apply(x), z));
                assert_eq!(
                    gf.put.apply(finset::pair_index(2, x, z)),
                    f.put.apply(finset::pair_index(2, x, y))
                );
            }
        }
    }
    for f in &prisms {
        assert_eq!(mixed::prism_compose(f, &mixed::prism_id(p.clone())), *f);
    }
}

#[test]
fn exponentials_hold_the_functions_between_fibres() {
    let y = over(2, &[0, 0, 1]);
    let x = over(1, &[0, 0]);
    let e = closed::exponential(&y, &x);
    assert_eq!(closed::fiber(&y.leg, 0), vec![0, 1]);
    assert_eq!((e.a_card, e.b_card, e.obj.base), (1, 2, 2));
    assert_eq!(e.obj.total, 4 + 2);
    assert_eq!(e.tables.len(), 6);
    assert!(closed::counit(&e).check());
    let fam = optic::Family {
        forward: over(1, &[0]),
        backward: x,
    };
    let cod = optic::Family {
        forward: over(2, &[0, 1]),
        backward: y,
    };
    let lenses = dlens::hom(&fam, &cod);
    for lens in &lenses {
        let packed = closed::from_lens(lens);
        assert_eq!(&closed::to_lens(&packed), lens);
        assert_eq!(slice::morphisms(&fam.forward, &packed.map.cod).len(), lenses.len());
    }
    // Two gets: four puts on the one fibre, two on the other.
    assert_eq!(lenses.len(), 4 + 2);
}

#[test]
fn lenses_out_of_a_coproduct_are_counted_by_its_summands() {
    let fam = |fwd: &[u32], bwd: &[u32]| optic::Family {
        forward: over(1, fwd),
        backward: over(1, bwd),
    };
    let cod = fam(&[0, 0], &[0]);
    let parts = [fam(&[0], &[0, 0]), fam(&[0, 0], &[0]), fam(&[0], &[0, 0, 0])];
    let counts: Vec<usize> = parts.iter().map(|p| dlens::hom(p, &cod).len()).collect();
    assert_eq!(counts, vec![4, 4, 6]);
    assert_eq!(dlens::hom(&dlens::coproduct(&parts), &cod).len(), 4 * 4 * 6);
    assert_eq!(dlens::hom(&dlens::coproduct(&[]), &cod).len(), 1);
}

#[test]
fn listings_do_not_repeat() {
    let cod = optic::Family {
        forward: over(1, &[0, 0]),
        backward: over(1, &[0, 0]),
    };
    let lenses = dlens::hom(&cod, &cod);
    for (i, l) in lenses.iter().enumerate() {
        assert!(lenses[..i].iter().all(|k| k != l));
    }
    let monoids = monoid::monoids_up_to(2);
    for (i, m) in monoids.iter().enumerate() {
        assert!(monoids[..i].iter().all(|k| k != m));
    }
}

#[test]
fn functor_lenses_carry_their_base_map() {
    let a = over(1, &[0]);
    let b = over(2, &[0, 1, 1]);
    let lens = functor_lens::from_base(&a, &b, &mor(1, 2, &[1]), mor(2, 1, &[0, 0]));
    assert!(lens.check());
    assert!(functor_lens::is_functor_lens(&lens));
    assert_eq!(lens.get, mor(1, 2, &[1]));
    let other = optic::Family {
        forward: over(1, &[0, 0]),
        backward: over(1, &[0]),
    };
    assert!(!functor_lens::is_functor_lens(&dlens::identity(&other)));
}

#[test]
fn tensors_of_lenses_interchange_with_composition() {
    let fam = optic::Family {
        forward: over(1, &[0, 0]),
        backward: over(1, &[0]),
    };
    let t = monoidal_structure::tensor_family(&fam, &fam);
    assert_eq!((t.forward.base, t.forward.total, t.backward.total), (1, 4, 1));
    assert_eq!(
        monoidal_structure::tensor_lens(&dlens::identity(&fam), &dlens::identity(&fam)),
        dlens::identity(&t)
    );
    let lenses = dlens::hom(&fam, &fam);
    for f in &lenses {
        for g in &lenses {
            let whole = monoidal_structure::tensor_lens(
                &dlens::compose(f, g),
                &dlens::compose(g, f),
            );
            let parts = dlens::compose(
                &monoidal_structure::tensor_lens(f, g),
                &monoidal_structure::tensor_lens(g, f),
            );
            assert_eq!(whole, parts);
        }
    }
    assert_eq!(
        monoidal_structure::tensor_slice(&over(2, &[1]), &over(3, &[0, 2])),
        over(6, &[3, 5])
    );
}

#[test]
fn a_strengthened_lens_keeps_the_context() {
    let p = mixed::Pair {
        forward: 2,
        backward: 1,
    };
    let q = mixed::Pair {
        forward: 1,
        backward: 2,
    };
    let lens = mixed::Lens {
        dom: p,
        cod: q,
        get: mor(2, 1, &[0, 0]),
        put: mor(4, 1, &[0, 0, 0, 0]),
    };
    let s = tambara::strengthen(&lens, 3);
    assert!(s.check());
    assert_eq!((s.dom.forward, s.dom.backward), (6, 3));
    assert_eq!((s.cod.forward, s.cod.backward), (3, 6));
    assert_eq!(s.get.map, vec![0, 0, 1, 1, 2, 2]);
}

#[test]
fn two_element_monoids_and_their_modules() {
    let found = monoid::monoids_up_to(2);
    assert!(found.iter().all(|m| m.check()));
    let two: Vec<&CMon> = found.iter().filter(|m| m.carrier == 2).collect();
    // With each of the two units: the group of order two and a semilattice.
    assert_eq!(two.len(), 4);
    let xor = CMon {
        carrier: 2,
        unit: 0,
        mul: vec![0, 1, 1, 0],
    };
    assert!(xor.check());
    assert_eq!(xor.mul(1, 1), 0);
    let bad = CMon {
        carrier: 2,
        unit: 0,
        mul: vec![0, 1, 0, 1],
    };
    assert!(!bad.check());
    let regular = monoidal_optic::regular_module(&xor);
    assert!(regular.check());
    assert_eq!(regular.act(1, 1), 0);
    let (n, proj) = monoid::tensor(&regular, &regular);
    assert_eq!(n, 2);
    assert_eq!(proj.map, vec![0, 1, 1, 0]);
    assert!(monoid::is_module_hom(&mor(2, 2, &[1, 0]), &regular, &regular));
    assert!(!monoid::is_module_hom(&mor(2, 2, &[0, 0]), &regular, &regular));
    assert!(!monoid::is_monoid_hom(&mor(2, 2, &[1, 0]), &xor, &xor));
    assert!(monoid::modules_over(&xor, 2).contains(&regular));
}

#[test]
fn prism_data_are_module_homomorphisms() {
    let xor = CMon {
        carrier: 2,
        unit: 0,
        mul: vec![0, 1, 1, 0],
    };
    let regular = monoidal_optic::regular_module(&xor);
    assert!(monoidal_optic::action_descends(&regular));
    let data = monoidal_optic::prism_data(&xor, &xor, &regular, &regular);
    // Along the identity and along the constant homomorphism.
    assert!(data.iter().any(|d| d.back == finset::id(2)));
    assert!(data.iter().all(|d| monoid::is_monoid_hom(&d.back, &xor, &xor)));
    let along_id: Vec<_> = data.iter().filter(|d| d.back == finset::id(2)).collect();
    assert_eq!(along_id.len(), 2, "a map of the regular module is a translation");
}

#[test]
fn matrices_multiply_and_act() {
    let a = Matrix {
        rows: 2,
        cols: 2,
        blocks: vec![1, 2, 3, 4],
    };
    let b = Matrix {
        rows: 2,
        cols: 1,
        blocks: vec![5, 6],
    };
    assert_eq!(a.get(1, 0), 3);
    assert_eq!(
        fibre::multiply(&a, &b),
        Matrix {
            rows: 2,
            cols: 1,
            blocks: vec![17, 39]
        }
    );
    assert_eq!(fibre::act(&a, &[5, 6]), vec![17, 39]);
    assert_eq!(fibre::act(&fibre::multiply(&a, &b), &[2]), fibre::act(&a, &fibre::act(&b, &[2])));
    assert_eq!(fibre::identity(2).blocks, vec![1, 0, 0, 1]);
    assert_eq!(fibre::matrices(1, 2, 2).len(), 9);
}

#[test]
fn linear_maps_over_two_elements() {
    let f = Lin {
        dom: 2,
        cod: 3,
        columns: vec![0b101, 0b011],
    };
    assert_eq!(f.apply_vec(0b11), 0b110);
    assert_eq!(
        vect::transpose(&f),
        Lin {
            dom: 3,
            cod: 2,
            columns: vec![0b11, 0b10, 0b01]
        }
    );
    assert_eq!(vect::transpose(&vect::transpose(&f)), f);
    let g = Lin {
        dom: 3,
        cod: 1,
        columns: vec![1, 0, 1],
    };
    let gf = vect::compose(&g, &f);
    assert_eq!(gf.columns, vec![0, 1]);
    assert_eq!(
        vect::transpose(&gf),
        vect::compose(&vect::transpose(&f), &vect::transpose(&g))
    );
    assert_eq!(vect::add(&f, &f), vect::zero(2, 3));
    assert_eq!(vect::all(2, 2).len(), 16);
    assert_eq!(vect::all(0, 3).len(), 1);
    assert_eq!(vect::kronecker(&vect::identity(2), &vect::identity(2)), vect::identity(4));
    assert_eq!(
        vect::kronecker(&vect::compose(&g, &f), &vect::identity(2)),
        vect::compose(
            &vect::kronecker(&g, &vect::identity(2)),
            &vect::kronecker(&f, &vect::identity(2))
        )
    );
}

#[test]
fn the_coend_has_as_many_points_as_the_closed_form() {
    for dx in 0..=1 {
        for dy in 0..=1 {
            for dxp in 0..=1 {
                for dyp in 0..=1 {
                    assert_eq!(
                        classes(dx, dy, dxp, dyp),
                        1usize << closed_dimension(dx, dy, dxp, dyp)
                    );
                }
            }
        }
    }
    assert_eq!(closed_dimension(2, 3, 5, 7), 210);
    assert_eq!(enriched::closed_hom(1, 1, 1, 1).len(), 2);
}

fn choice(target: usize, dom: u32, cod: u32, map: &[u32]) -> Choice {
    Choice {
        target,
        dirs: mor(dom, cod, map),
    }
}

#[test]
fn polynomial_maps_compose_directions_backwards() {
    let p = Poly {
        positions: vec![(1, 2)],
    };
    let q = Poly {
        positions: vec![(1, 3)],
    };
    let r = Poly {
        positions: vec![(1, 1)],
    };
    let f = PolyMap {
        dom: p.clone(),
        cod: q.clone(),
        on: vec![vec![choice(0, 3, 2, &[0, 1, 1])]],
    };
    let g = PolyMap {
        dom: q.clone(),
        cod: r.clone(),
        on: vec![vec![choice(0, 1, 3, &[2])]],
    };
    assert!(f.check() && g.check());
    let gf = polynomial::compose(&g, &f);
    assert_eq!(gf.on[0][0].dirs, mor(1, 2, &[1]));
    assert_eq!(polynomial::compose(&f, &polynomial::identity(&p)), f);
    assert_eq!(polynomial::compose(&polynomial::identity(&q), &f), f);
    assert_eq!(polynomial::hom(&p, &q).len(), 8);
    assert_eq!(
        fibre::multiply(&polynomial::residual(&g), &polynomial::residual(&f)),
        polynomial::residual(&gf)
    );
    let outside = PolyMap {
        dom: p,
        cod: q,
        on: vec![vec![choice(1, 3, 2, &[0, 1, 1])]],
    };
    assert!(!outside.check());
}

fn q(n: i64, d: i64) -> Q {
    Q::new(n, d)
}

#[test]
fn rationals_are_reduced() {
    assert_eq!(q(2, -4), q(-1, 2));
    assert_eq!(q(0, 7), q(0, 1));
    assert_eq!(q(1, 2).add(q(1, 3)), q(5, 6));
    assert_eq!(q(2, 3).mul(q(3, 4)), q(1, 2));
    assert_eq!(q(2, 3).neg(), q(-2, 3));
}

#[test]
fn a_shared_value_sums_its_cotangents() {
    // let s = x y in s s + s, at x = 1/2, y = 3.
    let expr = Expr::Let(
        Box::new(Expr::Mul(Box::new(Expr::Var(0)), Box::new(Expr::Var(1)))),
        Box::new(Expr::Add(
            Box::new(Expr::Mul(Box::new(Expr::Var(0)), Box::new(Expr::Var(0)))),
            Box::new(Expr::Var(0)),
        )),
    );
    let point = [q(1, 2), q(3, 1)];
    let (value, tape) = forward(&expr, &point);
    assert_eq!(value, q(15, 4));
    assert_eq!(
        stored_scalars(&tape),
        vec![q(1, 2), q(3, 1), q(3, 2), q(3, 2)]
    );
    let cot = backward(&expr, &tape, q(1, 1), 2);
    assert_eq!(cot, vec![q(12, 1), q(2, 1)]);
    for dir in 0..2 {
        let env: Vec<Dual> = (0..2)
            .map(|i| Dual {
                re: point[i],
                eps: if i == dir { q(1, 1) } else { q(0, 1) },
            })
            .collect();
        let d = dual_eval(&expr, &env);
        assert_eq!((d.re, d.eps), (value, cot[dir]));
    }
    let scaled = backward(&expr, &tape, q(-2, 1), 2);
    assert_eq!(scaled, vec![q(-24, 1), q(-4, 1)]);
}

#[test]
fn the_diagonal_is_the_only_comultiplication() {
    for a in 0..=2u32 {
        let counit_left = comonoid::times(&comonoid::counit(a), &finset::id(a));
        let counit_right = comonoid::times(&finset::id(a), &comonoid::counit(a));
        let counital: Vec<Mor> = finset::morphisms(a, a * a)
            .into_iter()
            .filter(|d| {
                finset::compose(&counit_left, d).map == finset::id(a).map
                    && finset::compose(&counit_right, d).map == finset::id(a).map
            })
            .collect();
        assert_eq!(counital, vec![comonoid::diagonal(a)]);
    }
}

#[test]
fn counital_coactions_are_those_of_functions() {
    let (total, base) = (2u32, 3u32);
    let counit = comonoid::times(&finset::id(total), &comonoid::counit(base));
    let coactions: Vec<Mor> = finset::morphisms(total, base)
        .iter()
        .map(comonoid::coaction)
        .collect();
    for r in finset::morphisms(total, total * base) {
        let counital = finset::compose(&counit, &r).map == finset::id(total).map;
        assert_eq!(counital, coactions.contains(&r));
    }
}

#[test]
fn the_point_is_neutral_for_the_tensor() {
    let unit = optic::Family {
        forward: over(1, &[0]),
        backward: over(1, &[0]),
    };
    let fam = optic::Family {
        forward: over(2, &[0, 1, 1]),
        backward: over(2, &[1, 0]),
    };
    let one = dlens::identity(&unit);
    for lens in dlens::hom(&fam, &fam) {
        assert_eq!(monoidal_structure::tensor_lens(&one, &lens), lens);
        assert_eq!(monoidal_structure::tensor_lens(&lens, &one), lens);
    }
}
