//! Finite coproducts of families, for lenses.
use vstd::prelude::*;
use crate::theory::fun::Fun;
use crate::theory::slices::Over;
use crate::theory::optics::Fam;
use crate::theory::optics::Lens;

verus! {

pub open spec fn bases(parts: Seq<Fam>) -> spec_fn(int) -> int {
    |i: int| parts[i].forward.base
}

pub open spec fn forwards(parts: Seq<Fam>) -> spec_fn(int) -> int {
    |i: int| parts[i].forward.total
}

pub open spec fn backwards(parts: Seq<Fam>) -> spec_fn(int) -> int {
    |i: int| parts[i].backward.total
}

pub open spec fn parts_wf(parts: Seq<Fam>) -> bool {
    forall|i: int| 0 <= i < parts.len() ==> (#[trigger] parts[i]).wf()
}

/// The leg of a sum of slices: the element `k` of summand `i` lies over its
/// own base point, shifted to where the base of summand `i` begins.
pub open spec fn sum_leg(parts: Seq<Fam>, sz: spec_fn(int) -> int, legs: spec_fn(int) -> Fun) -> Fun {
    let n = parts.len() as int;
    Fun {
        dom: crate::theory::listing::off(sz, n),
        cod: crate::theory::listing::off(bases(parts), n),
        map: Seq::new(
            crate::theory::listing::off(sz, n) as nat,
            |x: int| {
                let i = crate::theory::listing::which(sz, n, x);
                crate::theory::listing::off(bases(parts), i) + legs(i).map[x - crate::theory::listing::off(sz, i)]
            },
        ),
    }
}

impl Fam {
    /// The coproduct, computed pointwise on the cospan.
    pub open spec fn sum(parts: Seq<Fam>) -> Fam {
        let n = parts.len() as int;
        let base = crate::theory::listing::off(bases(parts), n);
        Fam {
            forward: Over {
                base,
                total: crate::theory::listing::off(forwards(parts), n),
                leg: sum_leg(parts, forwards(parts), |i: int| parts[i].forward.leg),
            },
            backward: Over {
                base,
                total: crate::theory::listing::off(backwards(parts), n),
                leg: sum_leg(parts, backwards(parts), |i: int| parts[i].backward.leg),
            },
        }
    }
}

impl Lens {
    /// The injection of summand `i`.
    pub open spec fn inj(parts: Seq<Fam>, i: int) -> Lens {
        let sum = Fam::sum(parts);
        let fo = crate::theory::listing::off(forwards(parts), i);
        let bo = crate::theory::listing::off(backwards(parts), i);
        Lens::make(
            parts[i],
            sum,
            Fun {
                dom: parts[i].forward.total,
                cod: sum.forward.total,
                map: Seq::new(parts[i].forward.total as nat, |k: int| fo + k),
            },
            |x: int, y: int| y - bo,
        )
    }

    /// The get of a copairing: element `k` of summand `i` goes where leg `i`
    /// sends it.
    pub open spec fn copair_get(parts: Seq<Fam>, legs: Seq<Lens>, cod: Fam) -> Fun {
        let n = parts.len() as int;
        let sum = Fam::sum(parts);
        Fun {
            dom: sum.forward.total,
            cod: cod.forward.total,
            map: Seq::new(
                sum.forward.total as nat,
                |x: int| {
                    let i = crate::theory::listing::which(forwards(parts), n, x);
                    legs[i].get.map[x - crate::theory::listing::off(forwards(parts), i)]
                },
            ),
        }
    }

    /// The lens out of the coproduct that is `legs[i]` on summand `i`.
    pub open spec fn copair(parts: Seq<Fam>, legs: Seq<Lens>, cod: Fam) -> Lens {
        let n = parts.len() as int;
        Lens::make(
            Fam::sum(parts),
            cod,
            Lens::copair_get(parts, legs, cod),
            |x: int, y: int| {
                let i = crate::theory::listing::which(forwards(parts), n, x);
                crate::theory::listing::off(backwards(parts), i) + legs[i].put_at(
                    x - crate::theory::listing::off(forwards(parts), i),
                    y,
                )
            },
        )
    }
}

/// The legs of a copairing: one lens per summand, with one codomain.
pub open spec fn legs_match(parts: Seq<Fam>, legs: Seq<Lens>, cod: Fam) -> bool {
    legs.len() == parts.len() && forall|i: int| 0 <= i < legs.len() ==> (#[trigger] legs[i]).hom(parts[i], cod)
}

pub proof fn lemma_sizes(parts: Seq<Fam>)
    requires
        parts_wf(parts),
    ensures
        crate::theory::listing::sizes_ok(bases(parts), parts.len() as int),
        crate::theory::listing::sizes_ok(forwards(parts), parts.len() as int),
        crate::theory::listing::sizes_ok(backwards(parts), parts.len() as int),
{
    assert forall|i: int| 0 <= i < parts.len() implies #[trigger] bases(parts)(i) >= 0 by {
        assert(parts[i].wf());
    }
    assert forall|i: int| 0 <= i < parts.len() implies #[trigger] forwards(parts)(i) >= 0 by {
        assert(parts[i].wf());
    }
    assert forall|i: int| 0 <= i < parts.len() implies #[trigger] backwards(parts)(i) >= 0 by {
        assert(parts[i].wf());
    }
}

/// The coproduct is a family.
pub proof fn lemma_sum(parts: Seq<Fam>)
    requires
        parts_wf(parts),
    ensures
        Fam::sum(parts).wf(),
        forall|i: int, k: int|
            0 <= i < parts.len() && 0 <= k < parts[i].forward.total ==> #[trigger] Fam::sum(parts).forward.leg.map[
                crate::theory::listing::off(forwards(parts), i) + k] == crate::theory::listing::off(bases(parts), i)
                + parts[i].forward.leg.map[k],
        forall|i: int, k: int|
            0 <= i < parts.len() && 0 <= k < parts[i].backward.total ==> #[trigger] Fam::sum(parts).backward.leg.map[
                crate::theory::listing::off(backwards(parts), i) + k] == crate::theory::listing::off(bases(parts), i)
                + parts[i].backward.leg.map[k],
{
    lemma_sizes(parts);
    let n = parts.len() as int;
    let s = Fam::sum(parts);
    crate::theory::listing::lemma_off_mono(bases(parts), n, 0, n);
    crate::theory::listing::lemma_off_mono(forwards(parts), n, 0, n);
    crate::theory::listing::lemma_off_mono(backwards(parts), n, 0, n);
    assert forall|x: int| 0 <= x < s.forward.total implies 0 <= #[trigger] s.forward.leg.map[x] < s.forward.base by {
        crate::theory::listing::lemma_which(forwards(parts), n, x);
        let i = crate::theory::listing::which(forwards(parts), n, x);
        let k = x - crate::theory::listing::off(forwards(parts), i);
        assert(parts[i].wf());
        crate::theory::listing::lemma_which_at(bases(parts), n, i, parts[i].forward.leg.map[k]);
    }
    assert forall|x: int| 0 <= x < s.backward.total implies 0 <= #[trigger] s.backward.leg.map[x] < s.backward.base by {
        crate::theory::listing::lemma_which(backwards(parts), n, x);
        let i = crate::theory::listing::which(backwards(parts), n, x);
        let k = x - crate::theory::listing::off(backwards(parts), i);
        assert(parts[i].wf());
        crate::theory::listing::lemma_which_at(bases(parts), n, i, parts[i].backward.leg.map[k]);
    }
    assert forall|i: int, k: int| 0 <= i < parts.len() && 0 <= k < parts[i].forward.total implies #[trigger] s.forward.leg.map[
        crate::theory::listing::off(forwards(parts), i) + k] == crate::theory::listing::off(bases(parts), i)
        + parts[i].forward.leg.map[k] by {
        crate::theory::listing::lemma_which_at(forwards(parts), n, i, k);
    }
    assert forall|i: int, k: int| 0 <= i < parts.len() && 0 <= k < parts[i].backward.total implies #[trigger] s.backward.leg.map[
        crate::theory::listing::off(backwards(parts), i) + k] == crate::theory::listing::off(bases(parts), i)
        + parts[i].backward.leg.map[k] by {
        crate::theory::listing::lemma_which_at(backwards(parts), n, i, k);
    }
}

/// A point of the backward slice over the base of summand `i` belongs to
/// summand `i`.
pub proof fn lemma_over_summand(parts: Seq<Fam>, i: int, b: int, y: int)
    requires
        parts_wf(parts),
        0 <= i < parts.len(),
        0 <= b < parts[i].forward.base,
        0 <= y < Fam::sum(parts).backward.total,
        Fam::sum(parts).backward.leg.map[y] == crate::theory::listing::off(bases(parts), i) + b,
    ensures
        ({
            let k = y - crate::theory::listing::off(backwards(parts), i);
            0 <= k < parts[i].backward.total && parts[i].backward.leg.map[k] == b
        }),
{
    lemma_sizes(parts);
    let n = parts.len() as int;
    crate::theory::listing::lemma_which(backwards(parts), n, y);
    let j = crate::theory::listing::which(backwards(parts), n, y);
    let k = y - crate::theory::listing::off(backwards(parts), j);
    assert(parts[j].wf());
    assert(parts[i].wf());
    let c = parts[j].backward.leg.map[k];
    crate::theory::listing::lemma_which_at(bases(parts), n, j, c);
    crate::theory::listing::lemma_which_at(bases(parts), n, i, b);
}

/// Injections are lenses into the coproduct.
pub proof fn lemma_inj(parts: Seq<Fam>, i: int)
    requires
        parts_wf(parts),
        0 <= i < parts.len(),
    ensures
        Lens::inj(parts, i).hom(parts[i], Fam::sum(parts)),
        forall|k: int| 0 <= k < parts[i].forward.total ==> #[trigger] Lens::inj(parts, i).get.map[k]
            == crate::theory::listing::off(forwards(parts), i) + k,
        forall|x: int, y: int|
            crate::theory::optics::fits_put(parts[i], Fam::sum(parts), Lens::inj(parts, i).get, x, y)
                ==> #[trigger] Lens::inj(parts, i).put_at(x, y) == y - crate::theory::listing::off(backwards(parts), i),
{
    lemma_sizes(parts);
    lemma_sum(parts);
    let n = parts.len() as int;
    let sum = Fam::sum(parts);
    let l = Lens::inj(parts, i);
    let fo = crate::theory::listing::off(forwards(parts), i);
    let bo = crate::theory::listing::off(backwards(parts), i);
    assert(parts[i].wf());
    assert forall|k: int| 0 <= k < parts[i].forward.total implies 0 <= #[trigger] l.get.map[k] < sum.forward.total by {
        crate::theory::listing::lemma_which_at(forwards(parts), n, i, k);
    }
    let f = |x: int, y: int| y - bo;
    assert forall|x: int, y: int| #[trigger] crate::theory::optics::fits_put(parts[i], sum, l.get, x, y) implies 0 <= f(x, y)
        < parts[i].backward.total && parts[i].backward.leg.map[f(x, y)] == parts[i].forward.leg.map[x] by {
        assert(l.get.map[x] == fo + x);
        assert(sum.forward.leg.map[fo + x] == crate::theory::listing::off(bases(parts), i) + parts[i].forward.leg.map[x]);
        lemma_over_summand(parts, i, parts[i].forward.leg.map[x], y);
    }
    crate::theory::optics::lemma_make(parts[i], sum, l.get, f);
}

/// Copairings are lenses out of the coproduct.
pub proof fn lemma_copair(parts: Seq<Fam>, legs: Seq<Lens>, cod: Fam)
    requires
        parts_wf(parts),
        cod.wf(),
        legs_match(parts, legs, cod),
    ensures
        Lens::copair(parts, legs, cod).hom(Fam::sum(parts), cod),
        forall|i: int, k: int|
            0 <= i < parts.len() && 0 <= k < parts[i].forward.total ==> #[trigger] Lens::copair(parts, legs, cod).get.map[
                crate::theory::listing::off(forwards(parts), i) + k] == legs[i].get.map[k],
        forall|i: int, k: int, y: int|
            0 <= i < parts.len() && crate::theory::optics::fits_put(parts[i], cod, legs[i].get, k, y)
                ==> #[trigger] Lens::copair(parts, legs, cod).put_at(crate::theory::listing::off(forwards(parts), i) + k, y)
                == crate::theory::listing::off(backwards(parts), i) + legs[i].put_at(k, y),
{
    lemma_sizes(parts);
    lemma_sum(parts);
    let n = parts.len() as int;
    let sum = Fam::sum(parts);
    let l = Lens::copair(parts, legs, cod);
    let f = |x: int, y: int| {
        let i = crate::theory::listing::which(forwards(parts), n, x);
        crate::theory::listing::off(backwards(parts), i) + legs[i].put_at(
            x - crate::theory::listing::off(forwards(parts), i),
            y,
        )
    };
    assert forall|x: int| 0 <= x < sum.forward.total implies 0 <= #[trigger] l.get.map[x] < cod.forward.total by {
        crate::theory::listing::lemma_which(forwards(parts), n, x);
        let i = crate::theory::listing::which(forwards(parts), n, x);
        assert(legs[i].hom(parts[i], cod));
    }
    assert forall|x: int, y: int| #[trigger] crate::theory::optics::fits_put(sum, cod, l.get, x, y) implies 0 <= f(x, y)
        < sum.backward.total && sum.backward.leg.map[f(x, y)] == sum.forward.leg.map[x] by {
        crate::theory::listing::lemma_which(forwards(parts), n, x);
        let i = crate::theory::listing::which(forwards(parts), n, x);
        let k = x - crate::theory::listing::off(forwards(parts), i);
        assert(legs[i].hom(parts[i], cod));
        assert(parts[i].wf());
        crate::theory::optics::lemma_lens(legs[i]);
        let v = legs[i].put_at(k, y);
        assert(0 <= v < parts[i].backward.total);
        crate::theory::listing::lemma_which_at(backwards(parts), n, i, v);
        assert(sum.forward.leg.map[crate::theory::listing::off(forwards(parts), i) + k]
            == crate::theory::listing::off(bases(parts), i) + parts[i].forward.leg.map[k]);
        assert(sum.backward.leg.map[crate::theory::listing::off(backwards(parts), i) + v]
            == crate::theory::listing::off(bases(parts), i) + parts[i].backward.leg.map[v]);
    }
    crate::theory::optics::lemma_make(sum, cod, l.get, f);
    assert forall|i: int, k: int| 0 <= i < parts.len() && 0 <= k < parts[i].forward.total implies #[trigger] l.get.map[
        crate::theory::listing::off(forwards(parts), i) + k] == legs[i].get.map[k] by {
        crate::theory::listing::lemma_which_at(forwards(parts), n, i, k);
    }
    assert forall|i: int, k: int, y: int|
        0 <= i < parts.len() && crate::theory::optics::fits_put(parts[i], cod, legs[i].get, k, y)
            implies #[trigger] l.put_at(crate::theory::listing::off(forwards(parts), i) + k, y)
        == crate::theory::listing::off(backwards(parts), i) + legs[i].put_at(k, y) by {
        let x = crate::theory::listing::off(forwards(parts), i) + k;
        crate::theory::listing::lemma_which_at(forwards(parts), n, i, k);
        assert(l.get.map[x] == legs[i].get.map[k]);
        assert(crate::theory::optics::fits_put(sum, cod, l.get, x, y));
        assert(l.put_at(x, y) == f(x, y));
    }
}

/// A copairing followed back along an injection is the leg it was made from.
pub proof fn law_copair_injection(parts: Seq<Fam>, legs: Seq<Lens>, cod: Fam, i: int)
    requires
        parts_wf(parts),
        cod.wf(),
        legs_match(parts, legs, cod),
        0 <= i < parts.len(),
    ensures
        Lens::comp(Lens::copair(parts, legs, cod), Lens::inj(parts, i)) == legs[i],
{
    lemma_copair(parts, legs, cod);
    lemma_inj(parts, i);
    let l = Lens::copair(parts, legs, cod);
    let j = Lens::inj(parts, i);
    let c = Lens::comp(l, j);
    crate::theory::optics::lemma_lens_comp(l, j);
    crate::theory::optics::lemma_lens(l);
    assert(legs[i].hom(parts[i], cod));
    let leg = legs[i];
    let fo = crate::theory::listing::off(forwards(parts), i);
    let bo = crate::theory::listing::off(backwards(parts), i);
    assert forall|k: int| 0 <= k < parts[i].forward.total implies c.get.map[k] == leg.get.map[k] by {
        assert(j.get.map[k] == fo + k);
        assert(l.get.map[fo + k] == leg.get.map[k]);
    }
    assert(c.get =~= leg.get);
    assert forall|x: int, y: int|
        0 <= x < c.dom.forward.total && 0 <= y < c.cod.backward.total && c.cod.forward.leg.map[c.get.map[x]]
            == c.cod.backward.leg.map[y] implies #[trigger] c.put_at(x, y) == leg.put_at(x, y) by {
        assert(j.get.map[x] == fo + x);
        assert(l.get.map[fo + x] == leg.get.map[x]);
        assert(crate::theory::optics::fits_put(parts[i], cod, leg.get, x, y));
        let v = l.put_at(fo + x, y);
        assert(v == bo + leg.put_at(x, y));
        assert(c.put_at(x, y) == j.put_at(x, l.put_at(j.get.map[x], y)));
        assert(0 <= v < Fam::sum(parts).backward.total);
        assert(crate::theory::optics::fits_put(parts[i], Fam::sum(parts), j.get, x, v));
        assert(j.put_at(x, v) == v - bo);
    }
    crate::theory::optics::lemma_lens_ext(c, leg);
}

/// The tuple of lenses obtained by precomposing with the injections.
pub open spec fn components(parts: Seq<Fam>, l: Lens) -> Seq<Lens> {
    Seq::new(parts.len(), |i: int| Lens::comp(l, Lens::inj(parts, i)))
}

pub proof fn lemma_components(parts: Seq<Fam>, l: Lens)
    requires
        parts_wf(parts),
        l.wf(),
        l.dom == Fam::sum(parts),
    ensures
        legs_match(parts, components(parts, l), l.cod),
{
    assert forall|i: int| 0 <= i < parts.len() implies (#[trigger] components(parts, l)[i]).hom(parts[i], l.cod) by {
        lemma_inj(parts, i);
        crate::theory::optics::lemma_lens_comp(l, Lens::inj(parts, i));
    }
}

/// Every lens out of a coproduct is the copairing of its components.
pub proof fn law_copair_decompose(parts: Seq<Fam>, l: Lens)
    requires
        parts_wf(parts),
        l.wf(),
        l.dom == Fam::sum(parts),
    ensures
        Lens::copair(parts, components(parts, l), l.cod) == l,
{
    let legs = components(parts, l);
    lemma_components(parts, l);
    lemma_copair(parts, legs, l.cod);
    lemma_sizes(parts);
    lemma_sum(parts);
    crate::theory::optics::lemma_lens(l);
    let c = Lens::copair(parts, legs, l.cod);
    let n = parts.len() as int;
    assert forall|x: int| 0 <= x < l.dom.forward.total implies c.get.map[x] == l.get.map[x] by {
        crate::theory::listing::lemma_which(forwards(parts), n, x);
        let i = crate::theory::listing::which(forwards(parts), n, x);
        let k = x - crate::theory::listing::off(forwards(parts), i);
        lemma_inj(parts, i);
        crate::theory::optics::lemma_lens_comp(l, Lens::inj(parts, i));
        assert(c.get.map[crate::theory::listing::off(forwards(parts), i) + k] == legs[i].get.map[k]);
        assert(legs[i].get.map[k] == l.get.map[Lens::inj(parts, i).get.map[k]]);
    }
    assert(c.get =~= l.get);
    assert forall|x: int, y: int|
        0 <= x < c.dom.forward.total && 0 <= y < c.cod.backward.total && c.cod.forward.leg.map[c.get.map[x]]
            == c.cod.backward.leg.map[y] implies #[trigger] c.put_at(x, y) == l.put_at(x, y) by {
        crate::theory::listing::lemma_which(forwards(parts), n, x);
        let i = crate::theory::listing::which(forwards(parts), n, x);
        let fo = crate::theory::listing::off(forwards(parts), i);
        let bo = crate::theory::listing::off(backwards(parts), i);
        let k = x - fo;
        let j = Lens::inj(parts, i);
        lemma_inj(parts, i);
        crate::theory::optics::lemma_lens_comp(l, j);
        assert(j.get.map[k] == fo + k);
        assert(legs[i].hom(parts[i], l.cod));
        assert(legs[i].get.map[k] == l.get.map[x]);
        assert(crate::theory::optics::fits_put(parts[i], l.cod, legs[i].get, k, y));
        assert(c.put_at(fo + k, y) == bo + legs[i].put_at(k, y));
        let v = l.put_at(x, y);
        assert(legs[i].put_at(k, y) == j.put_at(k, l.put_at(j.get.map[k], y)));
        assert(0 <= v < l.dom.backward.total);
        assert(crate::theory::optics::fits_put(parts[i], Fam::sum(parts), j.get, k, v));
        assert(j.put_at(k, v) == v - bo);
    }
    crate::theory::optics::lemma_lens_ext(c, l);
}

/// The coproduct of no families is initial: exactly one lens leaves it for
/// each codomain.
pub proof fn law_initial(cod: Fam, l: Lens)
    requires
        cod.wf(),
        l.hom(Fam::sum(Seq::empty()), cod),
    ensures
        Lens::copair(Seq::empty(), Seq::empty(), cod).hom(Fam::sum(Seq::empty()), cod),
        l == Lens::copair(Seq::empty(), Seq::empty(), cod),
{
    lemma_copair(Seq::empty(), Seq::empty(), cod);
    law_copair_decompose(Seq::empty(), l);
    assert(components(Seq::empty(), l) =~= Seq::<Lens>::empty());
}

/// Lenses out of a coproduct are counted by its summands: there are as many as
/// tuples of lenses out of the summands, and so one where there are none.
pub proof fn law_coproduct_count(parts: Seq<Fam>, cod: Fam)
    requires
        parts_wf(parts),
        cod.wf(),
    ensures
        crate::dlens::all_lenses(Fam::sum(parts), cod).len() == crate::theory::listing::lengths(
            parts.len() as int,
            |i: int| crate::dlens::all_lenses(parts[i], cod),
        ),
        parts.len() == 0 ==> crate::dlens::all_lenses(Fam::sum(parts), cod).len() == 1,
{
    let n = parts.len() as int;
    let rows = |i: int| crate::dlens::all_lenses(parts[i], cod);
    let lenses = crate::dlens::all_lenses(Fam::sum(parts), cod);
    let tuples = crate::theory::listing::tuples(n, rows);
    let split = |l: Lens| components(parts, l);
    let join = |legs: Seq<Lens>| Lens::copair(parts, legs, cod);
    lemma_sum(parts);
    crate::dlens::law_all_lenses(Fam::sum(parts), cod);
    assert forall|i: int| 0 <= i < n implies (#[trigger] rows(i)).no_duplicates() && forall|l: Lens|
        #[trigger] rows(i).contains(l) <==> l.hom(parts[i], cod) by {
        assert(parts[i].wf());
        crate::dlens::law_all_lenses(parts[i], cod);
    }
    crate::theory::listing::lemma_tuples(n, rows);
    assert forall|l: Lens| #[trigger] lenses.contains(l) implies tuples.contains(split(l)) && join(split(l)) == l by {
        assert(l.hom(Fam::sum(parts), cod));
        lemma_components(parts, l);
        law_copair_decompose(parts, l);
        let legs = split(l);
        assert forall|i: int| 0 <= i < n implies rows(i).contains(#[trigger] legs[i]) by {
            assert(legs[i].hom(parts[i], cod));
        }
        assert(crate::theory::listing::is_tuple(n, rows, legs));
    }
    assert forall|legs: Seq<Lens>| #[trigger] tuples.contains(legs) implies lenses.contains(join(legs)) && split(join(legs)) == legs by {
        assert(crate::theory::listing::is_tuple(n, rows, legs));
        assert forall|i: int| 0 <= i < legs.len() implies (#[trigger] legs[i]).hom(parts[i], cod) by {
            assert(rows(i).contains(legs[i]));
        }
        lemma_copair(parts, legs, cod);
        assert forall|i: int| 0 <= i < n implies #[trigger] split(join(legs))[i] == legs[i] by {
            law_copair_injection(parts, legs, cod, i);
        }
        assert(split(join(legs)) =~= legs);
    }
    crate::theory::listing::lemma_same_length(lenses, tuples, split, join);
}

} // verus!
