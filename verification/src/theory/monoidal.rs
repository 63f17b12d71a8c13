//! The cartesian product of functions, slices, families and lenses.
use vstd::prelude::*;
use crate::theory::fun::Fun;
use crate::theory::limits::Pull;
use crate::theory::limits::Prod;
use crate::theory::limits::Eqz;
use crate::theory::slices::Over;
use crate::theory::optics::Fam;
use crate::theory::optics::Lens;
use crate::theory::mixed::Pr;
use crate::theory::mixed::CLens;

verus! {

impl Fun {
    /// `f × g`, with the pair `(i, j)` at `i * rhs + j`.
    pub open spec fn times(f: Fun, g: Fun) -> Fun {
        Fun {
            dom: f.dom * g.dom,
            cod: f.cod * g.cod,
            map: Seq::new((f.dom * g.dom) as nat, |k: int| f.map[k / g.dom] * g.cod + g.map[k % g.dom]),
        }
    }

    /// `a ↦ (a, a)`.
    pub open spec fn diagonal(a: int) -> Fun {
        Fun { dom: a, cod: crate::theory::fun::sat_mul(a, a), map: Seq::new(a as nat, |i: int| i * a + i) }
    }
}

pub proof fn lemma_times(f: Fun, g: Fun)
    requires
        f.wf(),
        g.wf(),
    ensures
        Fun::times(f, g).hom(f.dom * g.dom, f.cod * g.cod),
        forall|i: int, j: int|
            0 <= i < f.dom && 0 <= j < g.dom ==> 0 <= #[trigger] (i * g.dom + j) < f.dom * g.dom
                && Fun::times(f, g).map[i * g.dom + j] == f.map[i] * g.cod + g.map[j],
        forall|k: int| 0 <= k < f.dom * g.dom ==> #[trigger] Fun::times(f, g).map[k] == f.map[k / g.dom] * g.cod
            + g.map[k % g.dom] && 0 <= k / g.dom < f.dom && 0 <= k % g.dom < g.dom,
{
    let t = Fun::times(f, g);
    assert(f.dom * g.dom >= 0 && f.cod * g.cod >= 0) by (nonlinear_arith)
        requires f.dom >= 0, g.dom >= 0, f.cod >= 0, g.cod >= 0;
    assert forall|k: int| 0 <= k < f.dom * g.dom implies 0 <= #[trigger] t.map[k] < t.cod && 0 <= k / g.dom < f.dom && 0 <= k
        % g.dom < g.dom by {
        crate::theory::limits::lemma_unpair(f.dom, g.dom, k);
        crate::theory::limits::lemma_pair_index(f.cod, g.cod, f.map[k / g.dom], g.map[k % g.dom]);
    }
    assert forall|i: int, j: int| 0 <= i < f.dom && 0 <= j < g.dom implies 0 <= #[trigger] (i * g.dom + j) < f.dom * g.dom
        && t.map[i * g.dom + j] == f.map[i] * g.cod + g.map[j] by {
        crate::theory::limits::lemma_pair_index(f.dom, g.dom, i, j);
    }
}

/// The product of functions is the pairing of the two projections.
pub proof fn lemma_times_pair(f: Fun, g: Fun)
    requires
        f.wf(),
        g.wf(),
        f.dom * g.dom <= u32::MAX,
        f.cod * g.cod <= u32::MAX,
    ensures
        Prod::pair(f.o(Prod::of(f.dom, g.dom).fst), g.o(Prod::of(f.dom, g.dom).snd)) == Fun::times(f, g),
{
    lemma_times(f, g);
    let p = Prod::of(f.dom, g.dom);
    assert(f.dom * g.dom >= 0) by (nonlinear_arith) requires f.dom >= 0, g.dom >= 0;
    let l = Prod::pair(f.o(p.fst), g.o(p.snd));
    assert forall|k: int| 0 <= k < f.dom * g.dom implies l.map[k] == Fun::times(f, g).map[k] by {
        crate::theory::limits::lemma_unpair(f.dom, g.dom, k);
    }
    assert(l =~= Fun::times(f, g));
}

/// The product is a functor of two arguments.
pub proof fn law_times_functorial(f2: Fun, f: Fun, g2: Fun, g: Fun)
    requires
        f.wf(),
        f2.wf(),
        g.wf(),
        g2.wf(),
        f.cod == f2.dom,
        g.cod == g2.dom,
    ensures
        Fun::times(f2.o(f), g2.o(g)) == Fun::times(f2, g2).o(Fun::times(f, g)),
        Fun::times(Fun::id(f.dom), Fun::id(g.dom)) == Fun::id(f.dom * g.dom),
{
    lemma_times(f, g);
    lemma_times(f2, g2);
    lemma_times(f2.o(f), g2.o(g));
    lemma_times(Fun::id(f.dom), Fun::id(g.dom));
    let l = Fun::times(f2.o(f), g2.o(g));
    let r = Fun::times(f2, g2).o(Fun::times(f, g));
    assert forall|k: int| 0 <= k < f.dom * g.dom implies l.map[k] == r.map[k] by {
        let i = k / g.dom;
        let j = k % g.dom;
        assert(l.map[k] == f2.o(f).map[i] * g2.cod + g2.o(g).map[j]);
        assert(Fun::times(f, g).map[k] == f.map[i] * g2.dom + g.map[j]);
        assert(Fun::times(f2, g2).map[f.map[i] * g2.dom + g.map[j]] == f2.map[f.map[i]] * g2.cod + g2.map[g.map[j]]);
    }
    assert(l =~= r);
    let e = Fun::times(Fun::id(f.dom), Fun::id(g.dom));
    assert forall|k: int| 0 <= k < f.dom * g.dom implies e.map[k] == k by {
        crate::theory::limits::lemma_unpair(f.dom, g.dom, k);
    }
    assert(e =~= Fun::id(f.dom * g.dom));
}

// ----- comonoids -----

/// The diagonal is a comonoid: coassociative, with the map to the point as
/// counit.
pub proof fn law_diagonal_comonoid(a: int)
    requires
        a >= 0,
        a * a <= u32::MAX,
        (a * a) * a <= u32::MAX,
        a * (a * a) <= u32::MAX,
    ensures
        ({
            let p = Prod::of(a, a);
            let d = Fun::diagonal(a);
            let delta_id = Prod::pair(d.o(p.fst), p.snd);
            let id_delta = Prod::pair(p.fst, d.o(p.snd));
            delta_id.o(d) == id_delta.o(d)
        }),
        Fun::times(Fun::bang(a), Fun::id(a)).o(Fun::diagonal(a)).map == Seq::new(a as nat, |i: int| 0 * a + i),
        Fun::diagonal(a).hom(a, a * a),
{
    let p = Prod::of(a, a);
    let d = Fun::diagonal(a);
    assert(a * a >= 0) by (nonlinear_arith) requires a >= 0;
    assert((a * a) * a == a * (a * a)) by (nonlinear_arith);
    let delta_id = Prod::pair(d.o(p.fst), p.snd);
    let id_delta = Prod::pair(p.fst, d.o(p.snd));
    assert forall|i: int| 0 <= i < a implies {
        &&& 0 <= #[trigger] d.map[i] < a * a
        &&& p.fst.map[d.map[i]] == i
        &&& p.snd.map[d.map[i]] == i
    } by {
        crate::theory::limits::lemma_pair_index(a, a, i, i);
    }
    assert forall|i: int| 0 <= i < a implies delta_id.o(d).map[i] == id_delta.o(d).map[i] by {
        let k = d.map[i];
        assert(d.o(p.fst).map[k] == d.map[i]);
        assert(d.o(p.snd).map[k] == d.map[i]);
        assert(delta_id.map[k] == (i * a + i) * a + i);
        assert(id_delta.map[k] == i * (a * a) + (i * a + i));
        assert((i * a + i) * a + i == i * (a * a) + (i * a + i)) by (nonlinear_arith);
    }
    assert(delta_id.o(d) =~= id_delta.o(d));
    lemma_times(Fun::bang(a), Fun::id(a));
    let t = Fun::times(Fun::bang(a), Fun::id(a));
    assert forall|i: int| 0 <= i < a implies t.o(d).map[i] == 0 * a + i by {
        let k = d.map[i];
        assert(p.snd.map[k] == i);
        assert(t.map[k] == Fun::bang(a).map[k / a] * a + Fun::id(a).map[k % a]);
    }
    assert(t.o(d).map =~= Seq::new(a as nat, |i: int| 0 * a + i));
}

/// What the counit laws say of a comultiplication, element by element.
proof fn lemma_counits(a: int, d: Fun)
    requires
        a >= 0,
        d.hom(a, a * a),
    ensures
        ({
            let left = Fun::times(Fun::bang(a), Fun::id(a)).o(d);
            let right = Fun::times(Fun::id(a), Fun::bang(a)).o(d);
            &&& left.map.len() == a && right.map.len() == a
            &&& forall|i: int| 0 <= i < a ==> #[trigger] left.map[i] == d.map[i] % a
            &&& forall|i: int| 0 <= i < a ==> #[trigger] right.map[i] == d.map[i] / a
        }),
{
    let left = Fun::times(Fun::bang(a), Fun::id(a));
    let right = Fun::times(Fun::id(a), Fun::bang(a));
    lemma_times(Fun::bang(a), Fun::id(a));
    lemma_times(Fun::id(a), Fun::bang(a));
    assert forall|i: int| 0 <= i < a implies #[trigger] left.o(d).map[i] == d.map[i] % a by {
        let k = d.map[i];
        crate::theory::limits::lemma_unpair(a, a, k);
        let zero = Fun::bang(a).map[k / a];
        assert(left.map[k] == zero * a + Fun::id(a).map[k % a]);
        assert(zero * a == 0) by (nonlinear_arith)
            requires zero == 0;
    }
    assert forall|i: int| 0 <= i < a implies #[trigger] right.o(d).map[i] == d.map[i] / a by {
        let k = d.map[i];
        crate::theory::limits::lemma_unpair(a, a, k);
        assert(right.map[k] == Fun::id(a).map[k / a] * 1 + Fun::bang(a).map[k % a]);
    }
}

/// The diagonal is the only comultiplication with the map to the point as
/// counit, on either side.
pub proof fn law_unique_comonoid(a: int, d: Fun)
    requires
        a >= 0,
        a * a <= u32::MAX,
        d.hom(a, a * a),
    ensures
        d == Fun::diagonal(a) <==> {
            &&& Fun::times(Fun::bang(a), Fun::id(a)).o(d).map == Fun::id(a).map
            &&& Fun::times(Fun::id(a), Fun::bang(a)).o(d).map == Fun::id(a).map
        },
{
    let left = Fun::times(Fun::bang(a), Fun::id(a)).o(d);
    let right = Fun::times(Fun::id(a), Fun::bang(a)).o(d);
    let e = Fun::diagonal(a);
    lemma_counits(a, d);
    if left.map == Fun::id(a).map && right.map == Fun::id(a).map {
        assert forall|i: int| 0 <= i < a implies d.map[i] == e.map[i] by {
            crate::theory::limits::lemma_unpair(a, a, d.map[i]);
            assert(left.map[i] == i && right.map[i] == i);
        }
        assert(d =~= e);
    }
    if d == e {
        assert forall|i: int| 0 <= i < a implies left.map[i] == i && right.map[i] == i by {
            crate::theory::limits::lemma_pair_index(a, a, i, i);
        }
        assert(left.map =~= Fun::id(a).map);
        assert(right.map =~= Fun::id(a).map);
    }
}

/// The diagonal is commutative: exchanging its components changes nothing.
pub proof fn law_diagonal_commutative(a: int)
    requires
        a >= 0,
        a * a <= u32::MAX,
    ensures
        Prod::pair(Prod::of(a, a).snd, Prod::of(a, a).fst).o(Fun::diagonal(a)) == Fun::diagonal(a),
{
    let p = Prod::of(a, a);
    let e = Fun::diagonal(a);
    let swap = Prod::pair(p.snd, p.fst);
    assert(a * a >= 0) by (nonlinear_arith) requires a >= 0;
    assert forall|i: int| 0 <= i < a implies swap.o(e).map[i] == e.map[i] by {
        crate::theory::limits::lemma_pair_index(a, a, i, i);
        let k = e.map[i];
        assert(p.snd.map[k] == i && p.fst.map[k] == i);
    }
    assert(swap.o(e) =~= e);
}

/// A comodule over the diagonal is a function into the base: a map
/// `M → M × B` is counital exactly when it is the coaction of its second
/// component.
pub proof fn law_comodules(total: int, base: int, r: Fun)
    requires
        total >= 0,
        base >= 0,
        total * base <= u32::MAX,
        r.hom(total, total * base),
    ensures
        Prod::of(total, base).snd.o(r).hom(total, base),
        Fun::times(Fun::id(total), Fun::bang(base)).o(r).map == Fun::id(total).map <==> r == Prod::pair(
            Fun::id(total),
            Prod::of(total, base).snd.o(r),
        ),
{
    let p = Prod::of(total, base);
    let counit = Fun::times(Fun::id(total), Fun::bang(base));
    let leg = p.snd.o(r);
    let back = Prod::pair(Fun::id(total), leg);
    assert(total * base >= 0) by (nonlinear_arith) requires total >= 0, base >= 0;
    lemma_times(Fun::id(total), Fun::bang(base));
    assert forall|i: int| 0 <= i < total implies {
        let k = #[trigger] r.map[i];
        &&& counit.o(r).map[i] == k / base
        &&& leg.map[i] == k % base
        &&& 0 <= k % base < base
        &&& (k / base) * base + k % base == k
        &&& back.map[i] == i * base + k % base
        &&& back.map[i] / base == i
    } by {
        let k = r.map[i];
        crate::theory::limits::lemma_unpair(total, base, k);
        crate::theory::limits::lemma_pair_index(total, base, i, k % base);
        assert(counit.map[k] == Fun::id(total).map[k / base] * 1 + Fun::bang(base).map[k % base]);
    }
    if counit.o(r).map == Fun::id(total).map {
        assert forall|i: int| 0 <= i < total implies r.map[i] == back.map[i] by {
            let k = r.map[i];
            assert(counit.o(r).map[i] == i);
        }
        assert(r =~= back);
    }
    if r == back {
        assert forall|i: int| 0 <= i < total implies counit.o(r).map[i] == i by {
            let k = r.map[i];
            assert(k == back.map[i]);
        }
        assert(counit.o(r).map =~= Fun::id(total).map);
    }
}

/// Every function commutes with the diagonals, so every function is a
/// homomorphism of comonoids.
pub proof fn law_preserves_diagonal(f: Fun)
    requires
        f.wf(),
        f.dom * f.dom <= u32::MAX,
        f.cod * f.cod <= u32::MAX,
    ensures
        Fun::times(f, f).o(Fun::diagonal(f.dom)) == Fun::diagonal(f.cod).o(f),
{
    lemma_times(f, f);
    let l = Fun::times(f, f).o(Fun::diagonal(f.dom));
    let r = Fun::diagonal(f.cod).o(f);
    assert forall|i: int| 0 <= i < f.dom implies l.map[i] == r.map[i] by {
        assert(Fun::times(f, f).map[i * f.dom + i] == f.map[i] * f.cod + f.map[i]);
    }
    assert(l =~= r);
}

/// `M ⊗_B N`: the pullback of the two legs, over `B`.
pub open spec fn tensor_over(m: Over, n: Over) -> Over {
    let pb = Pull::of(m.leg, n.leg);
    Over { base: m.base, total: pb.apex, leg: m.leg.o(pb.to_left) }
}

/// The pullback is the equalizer of the two coactions: in order, its pairs
/// are the elements of `M × N` on which the legs agree.
pub proof fn law_tensor_equalizer(m: Over, n: Over)
    requires
        m.wf(),
        n.wf(),
        m.base == n.base,
        m.total * n.total <= u32::MAX,
    ensures
        ({
            let p = Prod::of(m.total, n.total);
            Eqz::of(m.leg.o(p.fst), n.leg.o(p.snd)).elements == Pull::of(m.leg, n.leg).into_product(n.total).map
        }),
        tensor_over(m, n).wf(),
{
    let p = Prod::of(m.total, n.total);
    let f = m.leg.o(p.fst);
    let g = n.leg.o(p.snd);
    let pb = Pull::of(m.leg, n.leg);
    let size = m.total * n.total;
    assert(size >= 0) by (nonlinear_arith) requires m.total >= 0, n.total >= 0, size == m.total * n.total;
    crate::theory::limits::lemma_pull(m.leg, n.leg);
    crate::theory::limits::law_pullback_pairs(m.leg, n.leg);
    crate::theory::limits::lemma_eqz_upto(f, g, size);
    let e = Eqz::of(f, g).elements;
    let t = pb.into_product(n.total).map;
    assert forall|k: int| 0 <= k < size implies (#[trigger] f.map[k] == g.map[k] <==> m.leg.map[k / n.total]
        == n.leg.map[k % n.total]) by {
        crate::theory::limits::lemma_unpair(m.total, n.total, k);
    }
    assert forall|i: int| 0 <= i < t.len() implies {
        let x = pb.pairs[i].0;
        let y = pb.pairs[i].1;
        &&& #[trigger] t[i] == x * n.total + y
        &&& 0 <= t[i] < size
        &&& t[i] / n.total == x
        &&& t[i] % n.total == y
    } by {
        crate::theory::limits::lemma_pair_index(m.total, n.total, pb.pairs[i].0, pb.pairs[i].1);
    }
    assert forall|i: int, j: int| 0 <= i < j < t.len() implies #[trigger] t[i] < #[trigger] t[j] by {
        assert(crate::theory::limits::pair_less(pb.pairs[i], pb.pairs[j]));
        let (x1, y1) = pb.pairs[i];
        let (x2, y2) = pb.pairs[j];
        if x1 < x2 {
            assert(x1 * n.total + n.total <= x2 * n.total) by (nonlinear_arith) requires x1 + 1 <= x2, n.total >= 0;
        }
    }
    assert forall|i: int| 0 <= i < t.len() implies e.contains(#[trigger] t[i]) by {
        let v = t[i];
        assert(f.map[v] == g.map[v]);
    }
    assert forall|i: int| 0 <= i < e.len() implies t.contains(#[trigger] e[i]) by {
        let v = e[i];
        assert(f.map[v] == g.map[v]);
        crate::theory::limits::lemma_unpair(m.total, n.total, v);
        let x = v / n.total;
        let y = v % n.total;
        assert(m.leg.map[x] == n.leg.map[y]);
        assert(pb.pairs.contains((x, y)));
        let k = choose|k: int| 0 <= k < pb.pairs.len() && pb.pairs[k] == (x, y);
        assert(t[k] == v);
    }
    crate::theory::colimits::lemma_increasing_unique(e, t);
}

// ----- lenses -----

pub open spec fn tensor_over_product(a: Over, b: Over) -> Over {
    Over { base: a.base * b.base, total: a.total * b.total, leg: Fun::times(a.leg, b.leg) }
}

impl Fam {
    pub open spec fn tensor(a: Fam, b: Fam) -> Fam {
        Fam {
            forward: tensor_over_product(a.forward, b.forward),
            backward: tensor_over_product(a.backward, b.backward),
        }
    }
}

impl Lens {
    /// `get₁ × get₂`, with `put₁ × put₂` on matching pairs.
    pub open spec fn tensor(f: Lens, g: Lens) -> Lens {
        Lens::make(
            Fam::tensor(f.dom, g.dom),
            Fam::tensor(f.cod, g.cod),
            Fun::times(f.get, g.get),
            |p: int, q: int|
                f.put_at(p / g.dom.forward.total, q / g.cod.backward.total) * g.dom.backward.total + g.put_at(
                    p % g.dom.forward.total,
                    q % g.cod.backward.total,
                ),
        )
    }
}

pub proof fn lemma_tensor_fam(a: Fam, b: Fam)
    requires
        a.wf(),
        b.wf(),
    ensures
        Fam::tensor(a, b).wf(),
{
    lemma_times(a.forward.leg, b.forward.leg);
    lemma_times(a.backward.leg, b.backward.leg);
}

/// The product of lenses, pair by pair.
pub proof fn lemma_tensor_lens(f: Lens, g: Lens)
    requires
        f.wf(),
        g.wf(),
    ensures
        Lens::tensor(f, g).hom(Fam::tensor(f.dom, g.dom), Fam::tensor(f.cod, g.cod)),
        forall|p: int, q: int|
            crate::theory::optics::fits_put(Fam::tensor(f.dom, g.dom), Fam::tensor(f.cod, g.cod), Fun::times(f.get, g.get), p, q)
                ==> {
                let (x, y) = (p / g.dom.forward.total, p % g.dom.forward.total);
                let (xp, yp) = (q / g.cod.backward.total, q % g.cod.backward.total);
                &&& crate::theory::optics::fits_put(f.dom, f.cod, f.get, x, xp)
                &&& crate::theory::optics::fits_put(g.dom, g.cod, g.get, y, yp)
                &&& #[trigger] Lens::tensor(f, g).put_at(p, q) == f.put_at(x, xp) * g.dom.backward.total + g.put_at(y, yp)
            },
{
    let dom = Fam::tensor(f.dom, g.dom);
    let cod = Fam::tensor(f.cod, g.cod);
    let get = Fun::times(f.get, g.get);
    lemma_tensor_fam(f.dom, g.dom);
    lemma_tensor_fam(f.cod, g.cod);
    lemma_times(f.get, g.get);
    lemma_times(f.cod.forward.leg, g.cod.forward.leg);
    lemma_times(f.cod.backward.leg, g.cod.backward.leg);
    lemma_times(f.dom.forward.leg, g.dom.forward.leg);
    lemma_times(f.dom.backward.leg, g.dom.backward.leg);
    crate::theory::optics::lemma_lens(f);
    crate::theory::optics::lemma_lens(g);
    let h = |p: int, q: int|
        f.put_at(p / g.dom.forward.total, q / g.cod.backward.total) * g.dom.backward.total + g.put_at(
            p % g.dom.forward.total,
            q % g.cod.backward.total,
        );
    assert forall|p: int, q: int| #[trigger] crate::theory::optics::fits_put(dom, cod, get, p, q) implies {
        let (x, y) = (p / g.dom.forward.total, p % g.dom.forward.total);
        let (xp, yp) = (q / g.cod.backward.total, q % g.cod.backward.total);
        &&& crate::theory::optics::fits_put(f.dom, f.cod, f.get, x, xp)
        &&& crate::theory::optics::fits_put(g.dom, g.cod, g.get, y, yp)
        &&& 0 <= h(p, q) < dom.backward.total
        &&& dom.backward.leg.map[h(p, q)] == dom.forward.leg.map[p]
    } by {
        let (x, y) = (p / g.dom.forward.total, p % g.dom.forward.total);
        let (xp, yp) = (q / g.cod.backward.total, q % g.cod.backward.total);
        crate::theory::limits::lemma_unpair(f.dom.forward.total, g.dom.forward.total, p);
        crate::theory::limits::lemma_unpair(f.cod.backward.total, g.cod.backward.total, q);
        let fx = f.get.map[x];
        let gy = g.get.map[y];
        assert(get.map[p] == fx * g.cod.forward.total + gy);
        let b1 = f.cod.forward.leg.map[fx];
        let b2 = g.cod.forward.leg.map[gy];
        assert(cod.forward.leg.map[fx * g.cod.forward.total + gy] == b1 * g.cod.forward.base + b2);
        let c1 = f.cod.backward.leg.map[xp];
        let c2 = g.cod.backward.leg.map[yp];
        assert(cod.backward.leg.map[q] == c1 * g.cod.backward.base + c2);
        crate::theory::limits::lemma_pair_index(f.cod.forward.base, g.cod.forward.base, b1, b2);
        crate::theory::limits::lemma_pair_index(f.cod.forward.base, g.cod.forward.base, c1, c2);
        assert(b1 == c1 && b2 == c2);
        let u = f.put_at(x, xp);
        let v = g.put_at(y, yp);
        assert(0 <= u < f.dom.backward.total && 0 <= v < g.dom.backward.total);
        assert(dom.backward.leg.map[u * g.dom.backward.total + v] == f.dom.backward.leg.map[u] * g.dom.backward.base
            + g.dom.backward.leg.map[v]);
        assert(dom.forward.leg.map[p] == f.dom.forward.leg.map[x] * g.dom.forward.base + g.dom.forward.leg.map[y]);
    }
    crate::theory::optics::lemma_make(dom, cod, get, h);
    assert forall|p: int, q: int| crate::theory::optics::fits_put(dom, cod, get, p, q) implies {
        let (x, y) = (p / g.dom.forward.total, p % g.dom.forward.total);
        let (xp, yp) = (q / g.cod.backward.total, q % g.cod.backward.total);
        &&& crate::theory::optics::fits_put(f.dom, f.cod, f.get, x, xp)
        &&& crate::theory::optics::fits_put(g.dom, g.cod, g.get, y, yp)
        &&& #[trigger] Lens::tensor(f, g).put_at(p, q) == f.put_at(x, xp) * g.dom.backward.total + g.put_at(y, yp)
    } by {
        assert(Lens::make(dom, cod, get, h).put_at(p, q) == h(p, q));
    }
}

/// The product of lenses keeps identities.
pub proof fn law_tensor_identity(a: Fam, b: Fam)
    requires
        a.wf(),
        b.wf(),
    ensures
        Lens::tensor(Lens::id(a), Lens::id(b)) == Lens::id(Fam::tensor(a, b)),
{
    let t = Fam::tensor(a, b);
    let l = Lens::tensor(Lens::id(a), Lens::id(b));
    let r = Lens::id(t);
    crate::theory::optics::lemma_lens_id(a);
    crate::theory::optics::lemma_lens_id(b);
    lemma_tensor_fam(a, b);
    crate::theory::optics::lemma_lens_id(t);
    lemma_tensor_lens(Lens::id(a), Lens::id(b));
    law_times_functorial(
        Fun::id(a.forward.total),
        Fun::id(a.forward.total),
        Fun::id(b.forward.total),
        Fun::id(b.forward.total),
    );
    assert(l.get == r.get);
    assert forall|p: int, q: int|
        0 <= p < l.dom.forward.total && 0 <= q < l.cod.backward.total && l.cod.forward.leg.map[l.get.map[p]]
            == l.cod.backward.leg.map[q] implies #[trigger] l.put_at(p, q) == r.put_at(p, q) by {
        assert(crate::theory::optics::fits_put(t, t, l.get, p, q));
        crate::theory::limits::lemma_unpair(a.backward.total, b.backward.total, q);
        let (x, y) = (p / b.forward.total, p % b.forward.total);
        let (xp, yp) = (q / b.backward.total, q % b.backward.total);
        assert(l.put_at(p, q) == Lens::id(a).put_at(x, xp) * b.backward.total + Lens::id(b).put_at(y, yp));
        assert(Lens::id(a).get.map[x] == x && Lens::id(b).get.map[y] == y);
        assert(Lens::id(a).put_at(x, xp) == xp);
        assert(Lens::id(b).put_at(y, yp) == yp);
        assert(r.get.map[p] == p);
        assert(r.put_at(p, q) == q);
    }
    crate::theory::optics::lemma_lens_ext(l, r);
}

/// The family of the point.
pub open spec fn unit_family() -> Fam {
    let point = Over { base: 1, total: 1, leg: Fun::id(1) };
    Fam { forward: point, backward: point }
}

proof fn lemma_unit_times(f: Fun)
    requires
        f.wf(),
    ensures
        Fun::times(Fun::id(1), f) == f,
        Fun::times(f, Fun::id(1)) == f,
{
    let l = Fun::times(Fun::id(1), f);
    let r = Fun::times(f, Fun::id(1));
    assert(1 * f.dom == f.dom && f.dom * 1 == f.dom && 1 * f.cod == f.cod && f.cod * 1 == f.cod);
    assert forall|k: int| 0 <= k < f.dom implies l.map[k] == f.map[k] && r.map[k] == f.map[k] by {
        assert(k / f.dom == 0 && k % f.dom == k) by (nonlinear_arith)
            requires 0 <= k < f.dom;
        assert(k / 1 == k && k % 1 == 0);
        let zero = Fun::id(1).map[0];
        assert(zero * f.cod == 0) by (nonlinear_arith)
            requires zero == 0;
        assert(l.map[k] == zero * f.cod + f.map[k]);
        assert(r.map[k] == f.map[k] * 1 + zero);
    }
    assert(l =~= f);
    assert(r =~= f);
}

proof fn lemma_unit_family(f: Fam)
    requires
        f.wf(),
    ensures
        Fam::tensor(unit_family(), f) == f,
        Fam::tensor(f, unit_family()) == f,
{
    lemma_unit_times(f.forward.leg);
    lemma_unit_times(f.backward.leg);
    assert(Fam::tensor(unit_family(), f) =~= f);
    assert(Fam::tensor(f, unit_family()) =~= f);
}

proof fn lemma_unit_put()
    ensures
        Lens::id(unit_family()).wf(),
        Lens::id(unit_family()).dom == unit_family(),
        Lens::id(unit_family()).cod == unit_family(),
        Lens::id(unit_family()).get == Fun::id(1),
        Lens::id(unit_family()).put_at(0, 0) == 0,
{
    let one = unit_family();
    let u = Lens::id(one);
    crate::theory::optics::lemma_lens_id(one);
    assert(one.forward.leg.map[u.get.map[0]] == one.backward.leg.map[0]);
}

proof fn lemma_unit_left(f: Lens)
    requires
        f.wf(),
    ensures
        Lens::tensor(Lens::id(unit_family()), f) == f,
{
    let u = Lens::id(unit_family());
    let l = Lens::tensor(u, f);
    lemma_unit_put();
    lemma_unit_times(f.get);
    lemma_unit_family(f.dom);
    lemma_unit_family(f.cod);
    lemma_tensor_lens(u, f);
    assert forall|p: int, q: int|
        0 <= p < l.dom.forward.total && 0 <= q < l.cod.backward.total && l.cod.forward.leg.map[l.get.map[p]]
            == l.cod.backward.leg.map[q] implies #[trigger] l.put_at(p, q) == f.put_at(p, q) by {
        let n = f.dom.forward.total;
        let m = f.cod.backward.total;
        let t = f.dom.backward.total;
        assert(crate::theory::optics::fits_put(f.dom, f.cod, f.get, p, q));
        assert(p / n == 0 && p % n == p) by (nonlinear_arith)
            requires 0 <= p < n;
        assert(q / m == 0 && q % m == q) by (nonlinear_arith)
            requires 0 <= q < m;
        assert(l.put_at(p, q) == u.put_at(p / n, q / m) * t + f.put_at(p % n, q % m));
        let zero = u.put_at(0, 0);
        assert(zero * t == 0) by (nonlinear_arith)
            requires zero == 0;
    }
    crate::theory::optics::lemma_lens_ext(l, f);
}

proof fn lemma_unit_right(f: Lens)
    requires
        f.wf(),
    ensures
        Lens::tensor(f, Lens::id(unit_family())) == f,
{
    let u = Lens::id(unit_family());
    let r = Lens::tensor(f, u);
    lemma_unit_put();
    lemma_unit_times(f.get);
    lemma_unit_family(f.dom);
    lemma_unit_family(f.cod);
    lemma_tensor_lens(f, u);
    assert forall|p: int, q: int|
        0 <= p < r.dom.forward.total && 0 <= q < r.cod.backward.total && r.cod.forward.leg.map[r.get.map[p]]
            == r.cod.backward.leg.map[q] implies #[trigger] r.put_at(p, q) == f.put_at(p, q) by {
        assert(crate::theory::optics::fits_put(f.dom, f.cod, f.get, p, q));
        assert(p / 1 == p && p % 1 == 0 && q / 1 == q && q % 1 == 0);
        assert(r.put_at(p, q) == f.put_at(p / 1, q / 1) * 1 + u.put_at(p % 1, q % 1));
    }
    crate::theory::optics::lemma_lens_ext(r, f);
}

/// The product of lenses is unital: the identity of the point is neutral.
pub proof fn law_tensor_unit(f: Lens)
    requires
        f.wf(),
    ensures
        Lens::tensor(Lens::id(unit_family()), f) == f,
        Lens::tensor(f, Lens::id(unit_family())) == f,
{
    lemma_unit_left(f);
    lemma_unit_right(f);
}

/// The product of lenses keeps composites.
pub proof fn law_tensor_compose(f2: Lens, f: Lens, g2: Lens, g: Lens)
    requires
        f.wf(),
        f2.wf(),
        g.wf(),
        g2.wf(),
        f.cod == f2.dom,
        g.cod == g2.dom,
    ensures
        Lens::tensor(Lens::comp(f2, f), Lens::comp(g2, g)) == Lens::comp(Lens::tensor(f2, g2), Lens::tensor(f, g)),
{
    let cf = Lens::comp(f2, f);
    let cg = Lens::comp(g2, g);
    crate::theory::optics::lemma_lens_comp(f2, f);
    crate::theory::optics::lemma_lens_comp(g2, g);
    lemma_tensor_lens(f, g);
    lemma_tensor_lens(f2, g2);
    lemma_tensor_lens(cf, cg);
    let t = Lens::tensor(f, g);
    let t2 = Lens::tensor(f2, g2);
    crate::theory::optics::lemma_lens_comp(t2, t);
    crate::theory::optics::lemma_lens(t2);
    crate::theory::optics::lemma_lens(f2);
    crate::theory::optics::lemma_lens(g2);
    law_times_functorial(f2.get, f.get, g2.get, g.get);
    lemma_times(f.get, g.get);
    let l = Lens::tensor(cf, cg);
    let r = Lens::comp(t2, t);
    assert(l.get == r.get);
    assert forall|p: int, q: int|
        0 <= p < l.dom.forward.total && 0 <= q < l.cod.backward.total && l.cod.forward.leg.map[l.get.map[p]]
            == l.cod.backward.leg.map[q] implies #[trigger] l.put_at(p, q) == r.put_at(p, q) by {
        let (x, y) = (p / g.dom.forward.total, p % g.dom.forward.total);
        let (xp, yp) = (q / g2.cod.backward.total, q % g2.cod.backward.total);
        assert(crate::theory::optics::fits_put(l.dom, l.cod, l.get, p, q));
        assert(l.put_at(p, q) == cf.put_at(x, xp) * g.dom.backward.total + cg.put_at(y, yp));
        assert(cf.get.map[x] == f2.get.map[f.get.map[x]]);
        assert(cg.get.map[y] == g2.get.map[g.get.map[y]]);
        let u = f2.put_at(f.get.map[x], xp);
        let v = g2.put_at(g.get.map[y], yp);
        assert(cf.put_at(x, xp) == f.put_at(x, u));
        assert(cg.put_at(y, yp) == g.put_at(y, v));
        let p2 = t.get.map[p];
        assert(p2 == f.get.map[x] * g.cod.forward.total + g.get.map[y]);
        crate::theory::limits::lemma_pair_index(f.cod.forward.total, g.cod.forward.total, f.get.map[x], g.get.map[y]);
        assert(r.get.map[p] == t2.get.map[p2]);
        assert(crate::theory::optics::fits_put(t2.dom, t2.cod, t2.get, p2, q));
        let w = t2.put_at(p2, q);
        assert(w == u * g2.dom.backward.total + v);
        crate::theory::limits::lemma_pair_index(f2.dom.backward.total, g2.dom.backward.total, u, v);
        assert(r.put_at(p, q) == t.put_at(p, w));
        assert(crate::theory::optics::fits_put(t.dom, t.cod, t.get, p, w));
        assert(t.put_at(p, w) == f.put_at(x, u) * g.dom.backward.total + g.put_at(y, v));
    }
    crate::theory::optics::lemma_lens_ext(l, r);
}

// ----- strength -----

impl CLens {
    /// `id_C × lens`, with the backward copy of `C` kept.
    pub open spec fn strong(l: CLens, c: int) -> CLens {
        CLens::make(
            Pr { forward: c * l.dom.forward, backward: c * l.dom.backward },
            Pr { forward: c * l.cod.forward, backward: c * l.cod.backward },
            Fun::times(Fun::id(c), l.get),
            |p: int, q: int|
                (q / l.cod.backward) * l.dom.backward + l.put_at(p % l.dom.forward, q % l.cod.backward),
        )
    }
}

/// Everything that strengthening a lens builds fits in machine words.
pub open spec fn strong_fits(l: CLens, c: int) -> bool {
    &&& c >= 0
    &&& l.fits()
    &&& (c * l.dom.forward) * (c * l.cod.backward) <= u32::MAX
}

pub proof fn lemma_strong(l: CLens, c: int)
    requires
        l.wf(),
        strong_fits(l, c),
    ensures
        CLens::strong(l, c).wf(),
        CLens::strong(l, c).fits(),
{
    lemma_times(Fun::id(c), l.get);
    crate::theory::mixed::lemma_clens(l);
    let s = CLens::strong(l, c);
    assert(c * l.dom.forward >= 0 && c * l.cod.backward >= 0 && c * l.dom.backward >= 0) by (nonlinear_arith)
        requires c >= 0, l.dom.forward >= 0, l.cod.backward >= 0, l.dom.backward >= 0;
    let f = |p: int, q: int| (q / l.cod.backward) * l.dom.backward + l.put_at(p % l.dom.forward, q % l.cod.backward);
    assert forall|p: int, q: int| 0 <= p < c * l.dom.forward && 0 <= q < c * l.cod.backward implies 0 <= #[trigger] f(p, q)
        < c * l.dom.backward && 0 <= p / l.dom.forward < c && 0 <= p % l.dom.forward < l.dom.forward && 0 <= q
        / l.cod.backward < c && 0 <= q % l.cod.backward < l.cod.backward by {
        crate::theory::limits::lemma_unpair(c, l.dom.forward, p);
        crate::theory::limits::lemma_unpair(c, l.cod.backward, q);
        let v = l.put_at(p % l.dom.forward, q % l.cod.backward);
        assert(0 <= v < l.dom.backward);
        crate::theory::limits::lemma_pair_index(c, l.dom.backward, q / l.cod.backward, v);
    }
    crate::theory::mixed::lemma_cmake(s.dom, s.cod, s.get, f);
}

/// The put of a strengthened lens at one pair.
pub proof fn lemma_strong_at(l: CLens, c: int, p: int, q: int)
    requires
        l.wf(),
        strong_fits(l, c),
        0 <= p < c * l.dom.forward,
        0 <= q < c * l.cod.backward,
    ensures
        0 <= p / l.dom.forward < c,
        0 <= p % l.dom.forward < l.dom.forward,
        0 <= q / l.cod.backward < c,
        0 <= q % l.cod.backward < l.cod.backward,
        CLens::strong(l, c).put_at(p, q) == (q / l.cod.backward) * l.dom.backward + l.put_at(
            p % l.dom.forward,
            q % l.cod.backward,
        ),
{
    crate::theory::limits::lemma_unpair(c, l.dom.forward, p);
    crate::theory::limits::lemma_unpair(c, l.cod.backward, q);
    crate::theory::limits::lemma_pair_index(c * l.dom.forward, c * l.cod.backward, p, q);
}

/// Strengthening keeps identities.
pub proof fn law_strong_identity(x: Pr, c: int)
    requires
        x.forward >= 0,
        x.backward >= 0,
        x.forward * x.backward <= u32::MAX,
        strong_fits(CLens::id(x), c),
    ensures
        CLens::strong(CLens::id(x), c) == CLens::id(Pr { forward: c * x.forward, backward: c * x.backward }),
{
    let i = CLens::id(x);
    crate::theory::mixed::lemma_clens_id(x);
    lemma_strong(i, c);
    let l = CLens::strong(i, c);
    let big = Pr { forward: c * x.forward, backward: c * x.backward };
    assert(c * x.forward >= 0 && c * x.backward >= 0) by (nonlinear_arith)
        requires c >= 0, x.forward >= 0, x.backward >= 0;
    crate::theory::mixed::lemma_clens_id(big);
    law_times_functorial(Fun::id(c), Fun::id(c), Fun::id(x.forward), Fun::id(x.forward));
    assert forall|p: int, q: int| 0 <= p < l.dom.forward && 0 <= q < l.cod.backward implies #[trigger] l.put_at(p, q)
        == CLens::id(big).put_at(p, q) by {
        lemma_strong_at(i, c, p, q);
        crate::theory::limits::lemma_unpair(c, x.backward, q);
        let v = i.put_at(p % x.forward, q % x.backward);
        assert(v == q % x.backward);
        assert(CLens::id(big).put_at(p, q) == q);
    }
    crate::theory::mixed::lemma_clens_ext(l, CLens::id(big));
}

/// Strengthening keeps composites.
pub proof fn law_strong_compose(g: CLens, f: CLens, c: int)
    requires
        g.wf(),
        f.wf(),
        f.cod == g.dom,
        strong_fits(f, c),
        strong_fits(g, c),
        strong_fits(CLens::comp(g, f), c),
    ensures
        CLens::strong(CLens::comp(g, f), c) == CLens::comp(CLens::strong(g, c), CLens::strong(f, c)),
{
    let gf = CLens::comp(g, f);
    crate::theory::mixed::lemma_clens_comp(g, f);
    lemma_strong(f, c);
    lemma_strong(g, c);
    lemma_strong(gf, c);
    let sf = CLens::strong(f, c);
    let sg = CLens::strong(g, c);
    let l = CLens::strong(gf, c);
    let r = CLens::comp(sg, sf);
    assert(r.fits());
    crate::theory::mixed::lemma_clens_comp(sg, sf);
    crate::theory::mixed::lemma_clens(g);
    crate::theory::mixed::lemma_clens(sg);
    law_times_functorial(Fun::id(c), Fun::id(c), g.get, f.get);
    crate::theory::fun::law_identity(Fun::id(c));
    lemma_times(Fun::id(c), f.get);
    assert forall|p: int, q: int| 0 <= p < l.dom.forward && 0 <= q < l.cod.backward implies #[trigger] l.put_at(p, q)
        == r.put_at(p, q) by {
        lemma_strong_at(gf, c, p, q);
        let x = p % f.dom.forward;
        let z = q % g.cod.backward;
        let y = f.get.map[x];
        let w = g.put_at(y, z);
        assert(gf.put_at(x, z) == f.put_at(x, w));
        let p2 = sf.get.map[p];
        assert(p2 == Fun::id(c).map[p / f.dom.forward] * f.cod.forward + y);
        crate::theory::limits::lemma_pair_index(c, f.cod.forward, p / f.dom.forward, y);
        let v = sg.put_at(p2, q);
        lemma_strong_at(g, c, p2, q);
        assert(v == (q / g.cod.backward) * g.dom.backward + w);
        crate::theory::limits::lemma_pair_index(c, g.dom.backward, q / g.cod.backward, w);
        assert(r.put_at(p, q) == sf.put_at(p, v));
        lemma_strong_at(f, c, p, v);
        assert(sf.put_at(p, v) == (q / g.cod.backward) * f.dom.backward + f.put_at(x, w));
    }
    crate::theory::mixed::lemma_clens_ext(l, r);
}

} // verus!
