//! The dependent function space, and lenses as maps into it.
use vstd::prelude::*;
use crate::theory::fun::Fun;
use crate::theory::limits::Eqz;
use crate::theory::limits::Pull;
use crate::theory::slices::Over;
use crate::theory::slices::OverMor;
use crate::theory::optics::Fam;
use crate::theory::optics::Lens;

verus! {

// ----- fibres -----

/// The elements over `p`, in increasing order.
pub open spec fn fibre(leg: Fun, p: int) -> Seq<int> {
    Eqz::upto(leg, Fun { dom: leg.dom, cod: leg.cod, map: Seq::new(leg.dom as nat, |i: int| p) }, leg.dom)
}

/// Where `y` stands in its own fibre.
pub open spec fn place(leg: Fun, y: int) -> int {
    fibre(leg, leg.map[y]).index_of(y)
}

pub proof fn lemma_fibre(leg: Fun, p: int)
    requires
        leg.wf(),
    ensures
        fibre(leg, p).len() <= leg.dom,
        forall|i: int| 0 <= i < fibre(leg, p).len() ==> {
            let x = #[trigger] fibre(leg, p)[i];
            &&& 0 <= x < leg.dom
            &&& leg.map[x] == p
            &&& place(leg, x) == i
        },
        forall|i: int, j: int| 0 <= i < j < fibre(leg, p).len() ==> #[trigger] fibre(leg, p)[i] < #[trigger] fibre(leg, p)[j],
        forall|x: int| 0 <= x < leg.dom && #[trigger] leg.map[x] == p ==> fibre(leg, p).contains(x),
{
    let k = Fun { dom: leg.dom, cod: leg.cod, map: Seq::new(leg.dom as nat, |i: int| p) };
    crate::theory::limits::lemma_eqz_upto(leg, k, leg.dom);
    let f = fibre(leg, p);
    assert forall|i: int| 0 <= i < f.len() implies {
        let x = #[trigger] f[i];
        &&& 0 <= x < leg.dom
        &&& leg.map[x] == p
        &&& place(leg, x) == i
    } by {
        let x = f[i];
        assert(k.map[x] == p);
        assert(f.contains(x));
        let j = f.index_of(x);
        assert(0 <= j < f.len() && f[j] == x);
    }
    assert forall|x: int| 0 <= x < leg.dom && #[trigger] leg.map[x] == p implies f.contains(x) by {
        assert(k.map[x] == p);
    }
}

pub proof fn lemma_place(leg: Fun, y: int)
    requires
        leg.wf(),
        0 <= y < leg.dom,
    ensures
        0 <= place(leg, y) < fibre(leg, leg.map[y]).len(),
        fibre(leg, leg.map[y])[place(leg, y)] == y,
{
    lemma_fibre(leg, leg.map[y]);
    assert(fibre(leg, leg.map[y]).contains(y));
}

// ----- the dependent function space -----

/// A function from the fibre of `Y'` over `b` to the fibre of `X'` over `a`,
/// as the list of its values.
#[verifier::ext_equal]
pub struct Entry {
    pub a: int,
    pub b: int,
    pub table: Seq<int>,
}

/// The functions from the fibre over `b` to the fibre over `a`, in counting order.
pub open spec fn block(y: Over, x: Over, a: int, b: int) -> Seq<Entry> {
    let from = fibre(y.leg, b);
    let to = fibre(x.leg, a);
    let ts = crate::theory::limits::counted(from.len(), to.len() as int);
    Seq::new(ts.len(), |k: int| Entry { a, b, table: Seq::new(from.len(), |i: int| to[ts[k][i]]) })
}

pub open spec fn row(y: Over, x: Over, a: int) -> Seq<Entry> {
    crate::theory::listing::cat(y.base, |b: int| block(y, x, a, b))
}

pub open spec fn entries(y: Over, x: Over) -> Seq<Entry> {
    crate::theory::listing::cat(x.base, |a: int| row(y, x, a))
}

/// A function between the fibres that the entry names.
pub open spec fn is_entry(y: Over, x: Over, e: Entry) -> bool {
    &&& 0 <= e.a < x.base
    &&& 0 <= e.b < y.base
    &&& e.table.len() == fibre(y.leg, e.b).len()
    &&& forall|i: int| 0 <= i < e.table.len() ==> 0 <= #[trigger] e.table[i] < x.total && x.leg.map[e.table[i]] == e.a
}

proof fn lemma_block(y: Over, x: Over, a: int, b: int)
    requires
        y.wf(),
        x.wf(),
        0 <= a < x.base,
        0 <= b < y.base,
    ensures
        block(y, x, a, b).no_duplicates(),
        forall|e: Entry| #[trigger] block(y, x, a, b).contains(e) <==> is_entry(y, x, e) && e.a == a && e.b == b,
{
    let from = fibre(y.leg, b);
    let to = fibre(x.leg, a);
    let ts = crate::theory::limits::counted(from.len(), to.len() as int);
    let bl = block(y, x, a, b);
    lemma_fibre(y.leg, b);
    lemma_fibre(x.leg, a);
    crate::theory::limits::law_counted(from.len(), to.len() as int);
    assert forall|k: int| 0 <= k < bl.len() implies is_entry(y, x, #[trigger] bl[k]) && bl[k].a == a && bl[k].b == b by {
        assert(crate::theory::limits::is_table(ts[k], from.len() as int, to.len() as int));
        assert forall|i: int| 0 <= i < bl[k].table.len() implies 0 <= #[trigger] bl[k].table[i] < x.total
            && x.leg.map[bl[k].table[i]] == a by {
            assert(0 <= ts[k][i] < to.len());
            assert(bl[k].table[i] == to[ts[k][i]]);
        }
    }
    assert forall|k: int, l: int| 0 <= k < bl.len() && 0 <= l < bl.len() && k != l implies bl[k] != bl[l] by {
        if bl[k] == bl[l] {
            assert(crate::theory::limits::is_table(ts[k], from.len() as int, to.len() as int));
            assert(crate::theory::limits::is_table(ts[l], from.len() as int, to.len() as int));
            assert forall|i: int| 0 <= i < from.len() implies ts[k][i] == ts[l][i] by {
                assert(bl[k].table[i] == to[ts[k][i]]);
                assert(bl[l].table[i] == to[ts[l][i]]);
                assert(0 <= ts[k][i] < to.len() && 0 <= ts[l][i] < to.len());
            }
            assert(ts[k] =~= ts[l]);
            if k < l {
                assert(ts[k] != ts[l]);
            } else {
                assert(ts[l] != ts[k]);
            }
        }
    }
    assert forall|e: Entry| is_entry(y, x, e) && e.a == a && e.b == b implies #[trigger] bl.contains(e) by {
        let t = Seq::new(from.len(), |i: int| place(x.leg, e.table[i]));
        assert forall|i: int| 0 <= i < from.len() implies 0 <= #[trigger] t[i] < to.len() && to[t[i]] == e.table[i] by {
            assert(0 <= e.table[i] < x.total && x.leg.map[e.table[i]] == a);
            lemma_place(x.leg, e.table[i]);
        }
        assert(crate::theory::limits::is_table(t, from.len() as int, to.len() as int));
        assert(ts.contains(t));
        let k = choose|k: int| 0 <= k < ts.len() && ts[k] == t;
        assert(bl[k].table =~= e.table);
        assert(bl[k] == e);
    }
    assert forall|e: Entry| #[trigger] bl.contains(e) implies is_entry(y, x, e) && e.a == a && e.b == b by {
        let k = choose|k: int| 0 <= k < bl.len() && bl[k] == e;
        assert(is_entry(y, x, bl[k]));
    }
}

proof fn lemma_row(y: Over, x: Over, a: int)
    requires
        y.wf(),
        x.wf(),
        0 <= a < x.base,
    ensures
        row(y, x, a).no_duplicates(),
        forall|e: Entry| #[trigger] row(y, x, a).contains(e) <==> is_entry(y, x, e) && e.a == a,
{
    let f = |b: int| block(y, x, a, b);
    let r = row(y, x, a);
    assert forall|b: int| 0 <= b < y.base implies (#[trigger] f(b)).no_duplicates() by {
        lemma_block(y, x, a, b);
    }
    assert forall|i: int, j: int, e: Entry| 0 <= i < j < y.base && #[trigger] f(i).contains(e) implies !(#[trigger] f(j).contains(
        e,
    )) by {
        lemma_block(y, x, a, i);
        lemma_block(y, x, a, j);
        assert(block(y, x, a, i).contains(e));
        if f(j).contains(e) {
            assert(block(y, x, a, j).contains(e));
        }
    }
    crate::theory::listing::lemma_cat_distinct(y.base, f);
    crate::theory::listing::lemma_cat(y.base, f);
    assert forall|e: Entry| #[trigger] r.contains(e) implies is_entry(y, x, e) && e.a == a by {
        let k = choose|k: int| 0 <= k < r.len() && r[k] == e;
        let b = choose|b: int| 0 <= b < y.base && (#[trigger] f(b)).contains(r[k]);
        lemma_block(y, x, a, b);
        assert(block(y, x, a, b).contains(e));
    }
    assert forall|e: Entry| is_entry(y, x, e) && e.a == a implies #[trigger] r.contains(e) by {
        lemma_block(y, x, a, e.b);
        assert(block(y, x, a, e.b).contains(e));
        assert(f(e.b).contains(e));
    }
}

/// The listing holds every function between two fibres, exactly once.
pub proof fn law_entries(y: Over, x: Over)
    requires
        y.wf(),
        x.wf(),
    ensures
        entries(y, x).no_duplicates(),
        forall|e: Entry| #[trigger] entries(y, x).contains(e) <==> is_entry(y, x, e),
{
    let f = |a: int| row(y, x, a);
    let r = entries(y, x);
    assert forall|a: int| 0 <= a < x.base implies (#[trigger] f(a)).no_duplicates() by {
        lemma_row(y, x, a);
    }
    assert forall|i: int, j: int, e: Entry| 0 <= i < j < x.base && #[trigger] f(i).contains(e) implies !(#[trigger] f(j).contains(
        e,
    )) by {
        lemma_row(y, x, i);
        lemma_row(y, x, j);
        assert(row(y, x, i).contains(e));
        if f(j).contains(e) {
            assert(row(y, x, j).contains(e));
        }
    }
    crate::theory::listing::lemma_cat_distinct(x.base, f);
    crate::theory::listing::lemma_cat(x.base, f);
    assert forall|e: Entry| #[trigger] r.contains(e) implies is_entry(y, x, e) by {
        let k = choose|k: int| 0 <= k < r.len() && r[k] == e;
        let a = choose|a: int| 0 <= a < x.base && (#[trigger] f(a)).contains(r[k]);
        lemma_row(y, x, a);
        assert(row(y, x, a).contains(e));
    }
    assert forall|e: Entry| is_entry(y, x, e) implies #[trigger] r.contains(e) by {
        lemma_row(y, x, e.a);
        assert(row(y, x, e.a).contains(e));
        assert(f(e.a).contains(e));
    }
}

/// `Y' ⊲ X'` over `A × B`.
#[verifier::ext_equal]
pub struct Expo {
    pub obj: Over,
    pub a_card: int,
    pub b_card: int,
    pub tables: Seq<Seq<int>>,
    pub y_prime: Over,
    pub x_prime: Over,
}

impl Expo {
    pub open spec fn of(y: Over, x: Over) -> Expo {
        let es = entries(y, x);
        let n = es.len() as int;
        Expo {
            obj: Over {
                base: x.base * y.base,
                total: n,
                leg: Fun { dom: n, cod: x.base * y.base, map: Seq::new(n as nat, |e: int| es[e].a * y.base + es[e].b) },
            },
            a_card: x.base,
            b_card: y.base,
            tables: Seq::new(n as nat, |e: int| es[e].table),
            y_prime: y,
            x_prime: x,
        }
    }
}

/// `Y' ⊲ X' → A`.
pub open spec fn to_a(y: Over, x: Over) -> Fun {
    let es = entries(y, x);
    Fun { dom: es.len() as int, cod: x.base, map: Seq::new(es.len(), |e: int| es[e].a) }
}

/// `Y' ⊲ X' → B`.
pub open spec fn to_b(y: Over, x: Over) -> Fun {
    let es = entries(y, x);
    Fun { dom: es.len() as int, cod: y.base, map: Seq::new(es.len(), |e: int| es[e].b) }
}

/// The element of the function space that an entry is.
pub open spec fn at(y: Over, x: Over, e: Entry) -> int {
    entries(y, x).index_of(e)
}

pub proof fn lemma_expo(y: Over, x: Over)
    requires
        y.wf(),
        x.wf(),
    ensures
        Expo::of(y, x).obj.wf(),
        to_a(y, x).wf(),
        to_b(y, x).wf(),
        forall|e: int| 0 <= e < entries(y, x).len() ==> is_entry(y, x, #[trigger] entries(y, x)[e]) && at(
            y,
            x,
            entries(y, x)[e],
        ) == e,
        forall|e: Entry| is_entry(y, x, e) ==> 0 <= #[trigger] at(y, x, e) < entries(y, x).len() && entries(y, x)[at(y, x, e)]
            == e,
{
    law_entries(y, x);
    let es = entries(y, x);
    let ex = Expo::of(y, x);
    assert forall|e: int| 0 <= e < es.len() implies is_entry(y, x, #[trigger] es[e]) && at(y, x, es[e]) == e by {
        assert(es.contains(es[e]));
        let k = es.index_of(es[e]);
        assert(0 <= k < es.len() && es[k] == es[e]);
    }
    assert forall|e: Entry| is_entry(y, x, e) implies 0 <= #[trigger] at(y, x, e) < es.len() && es[at(y, x, e)] == e by {
        assert(es.contains(e));
    }
    assert forall|e: int| 0 <= e < es.len() implies 0 <= #[trigger] ex.obj.leg.map[e] < ex.obj.base by {
        assert(is_entry(y, x, es[e]));
        crate::theory::limits::lemma_pair_index(x.base, y.base, es[e].a, es[e].b);
    }
    assert(x.base * y.base >= 0) by (nonlinear_arith) requires x.base >= 0, y.base >= 0;
}

// ----- evaluation -----

/// `(Y' ⊲ X') ×_B Y'`, where evaluation is defined.
pub open spec fn ev_pull(y: Over, x: Over) -> Pull {
    Pull::of(to_b(y, x), y.leg)
}

/// Evaluation `(Y' ⊲ X') ×_B Y' → X'`.
pub open spec fn ev(y: Over, x: Over) -> OverMor {
    let pb = ev_pull(y, x);
    OverMor {
        dom: Over { base: x.base, total: pb.apex, leg: to_a(y, x).o(pb.to_left) },
        cod: x,
        map: Fun {
            dom: pb.apex,
            cod: x.total,
            map: Seq::new(
                pb.apex as nat,
                |k: int| entries(y, x)[pb.to_left.map[k]].table[place(y.leg, pb.to_right.map[k])],
            ),
        },
    }
}

/// Evaluation is a slice morphism.
pub proof fn law_ev(y: Over, x: Over)
    requires
        y.wf(),
        x.wf(),
    ensures
        ev(y, x).wf(),
        forall|e: int, v: int|
            0 <= e < entries(y, x).len() && 0 <= v < y.total && entries(y, x)[e].b == y.leg.map[v] ==> ev(y, x).map.map[#[trigger] ev_pull(
                y,
                x,
            ).ix(e, v)] == entries(y, x)[e].table[place(y.leg, v)],
{
    lemma_expo(y, x);
    let tb = to_b(y, x);
    let pb = ev_pull(y, x);
    let es = entries(y, x);
    let m = ev(y, x);
    crate::theory::limits::lemma_pull(tb, y.leg);
    assert forall|k: int| 0 <= k < pb.apex implies 0 <= #[trigger] m.map.map[k] < x.total && x.leg.map[m.map.map[k]]
        == m.dom.leg.map[k] by {
        let e = pb.to_left.map[k];
        let v = pb.to_right.map[k];
        assert(is_entry(y, x, es[e]));
        assert(tb.map[e] == es[e].b);
        assert(es[e].b == y.leg.map[v]);
        lemma_place(y.leg, v);
        assert(to_a(y, x).o(pb.to_left).map[k] == to_a(y, x).map[e]);
    }
    assert(x.leg.o(m.map) =~= m.dom.leg);
    assert forall|e: int, v: int| 0 <= e < es.len() && 0 <= v < y.total && es[e].b == y.leg.map[v] implies m.map.map[#[trigger] pb.ix(
        e,
        v,
    )] == es[e].table[place(y.leg, v)] by {
        assert(tb.map[e] == es[e].b);
        let k = pb.ix(e, v);
        assert(pb.to_left.map[k] == e && pb.to_right.map[k] == v);
    }
}

/// `M ×_B Y'` for `M` over `A × B`.
pub open spec fn act_pull(y: Over, m_b: Fun) -> Pull {
    Pull::of(m_b, y.leg)
}

/// The transpose of `h: M ×_B Y' → X'`.
pub open spec fn curry(y: Over, x: Over, m_a: Fun, m_b: Fun, h: Fun) -> Fun {
    Fun {
        dom: m_a.dom,
        cod: entries(y, x).len() as int,
        map: Seq::new(m_a.dom as nat, |m: int| at(y, x, curried(y, m_a, m_b, h, m))),
    }
}

/// The function of the fibre that `h` is at `m`.
pub open spec fn curried(y: Over, m_a: Fun, m_b: Fun, h: Fun, m: int) -> Entry {
    Entry {
        a: m_a.map[m],
        b: m_b.map[m],
        table: Seq::new(
            fibre(y.leg, m_b.map[m]).len(),
            |i: int| h.map[act_pull(y, m_b).ix(m, fibre(y.leg, m_b.map[m])[i])],
        ),
    }
}

/// `h` is `k`, applied.
pub open spec fn applies(y: Over, x: Over, m_b: Fun, k: Fun, h: Fun) -> bool {
    let pb = act_pull(y, m_b);
    forall|j: int|
        0 <= j < pb.apex ==> #[trigger] h.map[j] == entries(y, x)[k.map[pb.to_left.map[j]]].table[place(
            y.leg,
            pb.to_right.map[j],
        )]
}

/// `Y' ⊲ –` is right adjoint to `– ×_B Y'`: a map `h: M ×_B Y' → X'` over `A`
/// is evaluation after exactly one map `M → Y' ⊲ X'` over `A` and `B`.
pub proof fn law_exponential(y: Over, x: Over, m_a: Fun, m_b: Fun, h: Fun)
    requires
        y.wf(),
        x.wf(),
        m_a.hom(m_b.dom, x.base),
        m_b.wf(),
        m_b.cod == y.base,
        h.hom(act_pull(y, m_b).apex, x.total),
        x.leg.o(h) == m_a.o(act_pull(y, m_b).to_left),
    ensures
        curry(y, x, m_a, m_b, h).hom(m_a.dom, entries(y, x).len() as int),
        to_a(y, x).o(curry(y, x, m_a, m_b, h)) == m_a,
        to_b(y, x).o(curry(y, x, m_a, m_b, h)) == m_b,
        applies(y, x, m_b, curry(y, x, m_a, m_b, h), h),
        forall|k: Fun|
            #[trigger] k.hom(m_a.dom, entries(y, x).len() as int) && to_a(y, x).o(k) == m_a && to_b(y, x).o(k) == m_b && applies(
                y,
                x,
                m_b,
                k,
                h,
            ) ==> k == curry(y, x, m_a, m_b, h),
{
    lemma_expo(y, x);
    let es = entries(y, x);
    let pb = act_pull(y, m_b);
    let c = curry(y, x, m_a, m_b, h);
    crate::theory::limits::lemma_pull(m_b, y.leg);
    assert forall|m: int| 0 <= m < m_a.dom implies is_entry(y, x, #[trigger] curried(y, m_a, m_b, h, m)) by {
        let e = curried(y, m_a, m_b, h, m);
        let b = m_b.map[m];
        lemma_fibre(y.leg, b);
        assert forall|i: int| 0 <= i < e.table.len() implies 0 <= #[trigger] e.table[i] < x.total && x.leg.map[e.table[i]]
            == e.a by {
            let v = fibre(y.leg, b)[i];
            let j = pb.ix(m, v);
            assert(pb.to_left.map[j] == m);
            assert(x.leg.o(h).map[j] == x.leg.map[h.map[j]]);
            assert(m_a.o(pb.to_left).map[j] == m_a.map[m]);
        }
    }
    assert forall|m: int| 0 <= m < m_a.dom implies 0 <= #[trigger] c.map[m] < es.len() && es[c.map[m]] == curried(
        y,
        m_a,
        m_b,
        h,
        m,
    ) by {
        assert(is_entry(y, x, curried(y, m_a, m_b, h, m)));
    }
    assert(to_a(y, x).o(c) =~= m_a);
    assert(to_b(y, x).o(c) =~= m_b);
    assert forall|j: int| 0 <= j < pb.apex implies #[trigger] h.map[j] == es[c.map[pb.to_left.map[j]]].table[place(
        y.leg,
        pb.to_right.map[j],
    )] by {
        let m = pb.to_left.map[j];
        let v = pb.to_right.map[j];
        assert(es[c.map[m]] == curried(y, m_a, m_b, h, m));
        lemma_place(y.leg, v);
        assert(pb.ix(m, v) == j);
    }
    assert forall|k: Fun|
        #[trigger] k.hom(m_a.dom, es.len() as int) && to_a(y, x).o(k) == m_a && to_b(y, x).o(k) == m_b && applies(
            y,
            x,
            m_b,
            k,
            h,
        ) implies k == c by {
        assert forall|m: int| 0 <= m < m_a.dom implies #[trigger] k.map[m] == c.map[m] by {
            let e = es[k.map[m]];
            let d = curried(y, m_a, m_b, h, m);
            assert(is_entry(y, x, e));
            assert(to_a(y, x).o(k).map[m] == e.a);
            assert(to_b(y, x).o(k).map[m] == e.b);
            let b = m_b.map[m];
            lemma_fibre(y.leg, b);
            assert forall|i: int| 0 <= i < d.table.len() implies e.table[i] == d.table[i] by {
                let v = fibre(y.leg, b)[i];
                let j = pb.ix(m, v);
                assert(pb.to_left.map[j] == m && pb.to_right.map[j] == v);
                assert(h.map[j] == es[k.map[m]].table[place(y.leg, v)]);
            }
            assert(e.table =~= d.table);
            assert(e == d);
            assert(at(y, x, es[k.map[m]]) == k.map[m]);
        }
        assert(k =~= c);
    }
}

// ----- closed lenses -----

/// A lens as one slice map `X → (Y' ⊲ X') ×_B Y` over `A`.
#[verifier::ext_equal]
pub struct CloLens {
    pub dom: Fam,
    pub cod: Fam,
    pub map: OverMor,
}

/// `(Y' ⊲ X') ×_B Y`.
pub open spec fn clo_pull(dom: Fam, cod: Fam) -> Pull {
    Pull::of(to_b(cod.backward, dom.backward), cod.forward.leg)
}

/// `(Y' ⊲ X') ×_B Y` over `A`.
pub open spec fn clo_codomain(dom: Fam, cod: Fam) -> Over {
    Over {
        base: dom.forward.base,
        total: clo_pull(dom, cod).apex,
        leg: to_a(cod.backward, dom.backward).o(clo_pull(dom, cod).to_left),
    }
}

impl CloLens {
    pub open spec fn wf(self) -> bool {
        &&& self.dom.wf()
        &&& self.cod.wf()
        &&& self.map.hom(self.dom.forward, clo_codomain(self.dom, self.cod))
    }

    /// The function that the put of a lens is at `x`.
    pub open spec fn put_entry(l: Lens, x: int) -> Entry {
        let b = l.cod.forward.leg.map[l.get.map[x]];
        Entry {
            a: l.dom.forward.leg.map[x],
            b,
            table: Seq::new(
                fibre(l.cod.backward.leg, b).len(),
                |i: int| l.put_at(x, fibre(l.cod.backward.leg, b)[i]),
            ),
        }
    }

    pub open spec fn from(l: Lens) -> CloLens {
        let pb = clo_pull(l.dom, l.cod);
        CloLens {
            dom: l.dom,
            cod: l.cod,
            map: OverMor {
                dom: l.dom.forward,
                cod: clo_codomain(l.dom, l.cod),
                map: Fun {
                    dom: l.dom.forward.total,
                    cod: pb.apex,
                    map: Seq::new(
                        l.dom.forward.total as nat,
                        |x: int| pb.ix(at(l.cod.backward, l.dom.backward, CloLens::put_entry(l, x)), l.get.map[x]),
                    ),
                },
            },
        }
    }

    /// The function at `x`.
    pub open spec fn entry(self, x: int) -> Entry {
        entries(self.cod.backward, self.dom.backward)[clo_pull(self.dom, self.cod).to_left.map[self.map.map.map[x]]]
    }

    pub open spec fn get(self) -> Fun {
        clo_pull(self.dom, self.cod).to_right.o(self.map.map)
    }

    /// The lens with the get and the put that the map packages.
    pub open spec fn lens(self) -> Lens {
        Lens::make(
            self.dom,
            self.cod,
            self.get(),
            |x: int, y: int| self.entry(x).table[place(self.cod.backward.leg, y)],
        )
    }
}

proof fn lemma_put_entry(l: Lens, x: int)
    requires
        l.wf(),
        0 <= x < l.dom.forward.total,
    ensures
        is_entry(l.cod.backward, l.dom.backward, CloLens::put_entry(l, x)),
{
    let e = CloLens::put_entry(l, x);
    let y = l.cod.backward;
    crate::theory::optics::lemma_lens(l);
    lemma_fibre(y.leg, e.b);
    assert forall|i: int| 0 <= i < e.table.len() implies 0 <= #[trigger] e.table[i] < l.dom.backward.total
        && l.dom.backward.leg.map[e.table[i]] == e.a by {
        let v = fibre(y.leg, e.b)[i];
        assert(e.table[i] == l.put_at(x, v));
    }
    assert(0 <= l.get.map[x] < l.cod.forward.total);
}

/// What the packaged map of a lens is at `x`.
pub proof fn lemma_from(l: Lens)
    requires
        l.wf(),
    ensures
        CloLens::from(l).wf(),
        CloLens::from(l).get() == l.get,
        forall|x: int| 0 <= x < l.dom.forward.total ==> #[trigger] CloLens::from(l).entry(x) == CloLens::put_entry(l, x),
        forall|x: int|
            0 <= x < l.dom.forward.total ==> {
                let e = at(l.cod.backward, l.dom.backward, #[trigger] CloLens::put_entry(l, x));
                &&& is_entry(l.cod.backward, l.dom.backward, CloLens::put_entry(l, x))
                &&& 0 <= e < entries(l.cod.backward, l.dom.backward).len()
                &&& to_b(l.cod.backward, l.dom.backward).map[e] == l.cod.forward.leg.map[l.get.map[x]]
            },
{
    let y = l.cod.backward;
    let xp = l.dom.backward;
    let es = entries(y, xp);
    let pb = clo_pull(l.dom, l.cod);
    let c = CloLens::from(l);
    lemma_expo(y, xp);
    crate::theory::limits::lemma_pull(to_b(y, xp), l.cod.forward.leg);
    assert forall|x: int| 0 <= x < l.dom.forward.total implies {
        let e = at(y, xp, #[trigger] CloLens::put_entry(l, x));
        &&& is_entry(y, xp, CloLens::put_entry(l, x))
        &&& 0 <= e < es.len()
        &&& to_b(y, xp).map[e] == l.cod.forward.leg.map[l.get.map[x]]
    } by {
        lemma_put_entry(l, x);
    }
    assert forall|x: int| 0 <= x < l.dom.forward.total implies {
        &&& 0 <= #[trigger] c.map.map.map[x] < pb.apex
        &&& pb.to_left.map[c.map.map.map[x]] == at(y, xp, CloLens::put_entry(l, x))
        &&& pb.to_right.map[c.map.map.map[x]] == l.get.map[x]
        &&& c.entry(x) == CloLens::put_entry(l, x)
        &&& c.map.cod.leg.map[c.map.map.map[x]] == l.dom.forward.leg.map[x]
    } by {
        let e = at(y, xp, CloLens::put_entry(l, x));
        assert(is_entry(y, xp, CloLens::put_entry(l, x)));
        let j = pb.ix(e, l.get.map[x]);
        assert(0 <= l.get.map[x] < l.cod.forward.total);
        assert(pb.to_left.map[j] == e);
        assert(to_a(y, xp).o(pb.to_left).map[j] == to_a(y, xp).map[e]);
    }
    lemma_clo_codomain(l.dom, l.cod);
    assert(c.map.cod.leg.o(c.map.map) =~= c.map.dom.leg);
    assert(c.get() =~= l.get);
    assert forall|x: int| 0 <= x < l.dom.forward.total implies #[trigger] c.entry(x) == CloLens::put_entry(l, x) by {
        assert(0 <= c.map.map.map[x] < pb.apex);
    }
}

pub proof fn lemma_clo_codomain(dom: Fam, cod: Fam)
    requires
        dom.wf(),
        cod.wf(),
    ensures
        clo_codomain(dom, cod).wf(),
        clo_pull(dom, cod).to_left.hom(clo_pull(dom, cod).apex, entries(cod.backward, dom.backward).len() as int),
        clo_pull(dom, cod).to_right.hom(clo_pull(dom, cod).apex, cod.forward.total),
{
    lemma_expo(cod.backward, dom.backward);
    let pb = clo_pull(dom, cod);
    crate::theory::limits::lemma_pull(to_b(cod.backward, dom.backward), cod.forward.leg);
    let leg = clo_codomain(dom, cod).leg;
    assert forall|k: int| 0 <= k < pb.apex implies 0 <= #[trigger] leg.map[k] < dom.forward.base by {
        assert(leg.map[k] == to_a(cod.backward, dom.backward).map[pb.to_left.map[k]]);
    }
}

/// A packaged map gives a lens.
pub proof fn lemma_clo_lens(c: CloLens)
    requires
        c.wf(),
    ensures
        c.lens().hom(c.dom, c.cod),
        c.get().hom(c.dom.forward.total, c.cod.forward.total),
        forall|x: int| 0 <= x < c.dom.forward.total ==> is_entry(c.cod.backward, c.dom.backward, #[trigger] c.entry(x)),
        forall|x: int|
            0 <= x < c.dom.forward.total ==> (#[trigger] c.entry(x)).a == c.dom.forward.leg.map[x] && c.entry(x).b
                == c.cod.forward.leg.map[c.get().map[x]],
        forall|x: int, y: int|
            crate::theory::optics::fits_put(c.dom, c.cod, c.get(), x, y) ==> #[trigger] c.lens().put_at(x, y) == c.entry(
                x,
            ).table[place(c.cod.backward.leg, y)],
        forall|x: int, y: int|
            #[trigger] crate::theory::optics::fits_put(c.dom, c.cod, c.get(), x, y) ==> 0 <= place(c.cod.backward.leg, y)
                < c.entry(x).table.len(),
{
    let y = c.cod.backward;
    let xp = c.dom.backward;
    let es = entries(y, xp);
    let pb = clo_pull(c.dom, c.cod);
    let get = c.get();
    lemma_expo(y, xp);
    crate::theory::limits::lemma_pull(to_b(y, xp), c.cod.forward.leg);
    lemma_clo_codomain(c.dom, c.cod);
    crate::theory::slices::lemma_triangle(c.map);
    assert forall|x: int| 0 <= x < c.dom.forward.total implies {
        &&& 0 <= #[trigger] get.map[x] < c.cod.forward.total
        &&& is_entry(y, xp, c.entry(x))
        &&& c.entry(x).a == c.dom.forward.leg.map[x]
        &&& c.entry(x).b == c.cod.forward.leg.map[get.map[x]]
    } by {
        let j = c.map.map.map[x];
        assert(0 <= j < pb.apex);
        let e = pb.to_left.map[j];
        assert(c.entry(x) == es[e]);
        assert(get.map[x] == pb.to_right.map[j]);
        assert(to_b(y, xp).map[e] == c.cod.forward.leg.map[pb.to_right.map[j]]);
        assert(c.map.cod.leg.map[j] == to_a(y, xp).map[e]);
    }
    assert forall|x: int| 0 <= x < c.dom.forward.total implies is_entry(y, xp, #[trigger] c.entry(x)) && c.entry(x).a
        == c.dom.forward.leg.map[x] && c.entry(x).b == c.cod.forward.leg.map[get.map[x]] by {
        assert(0 <= get.map[x] < c.cod.forward.total);
    }
    let f = |x: int, v: int| c.entry(x).table[place(y.leg, v)];
    assert forall|x: int, v: int| #[trigger] crate::theory::optics::fits_put(c.dom, c.cod, get, x, v) implies {
        &&& 0 <= place(y.leg, v) < c.entry(x).table.len()
        &&& 0 <= f(x, v) < xp.total
        &&& xp.leg.map[f(x, v)] == c.dom.forward.leg.map[x]
    } by {
        let e = c.entry(x);
        assert(is_entry(y, xp, e));
        lemma_place(y.leg, v);
        assert(0 <= e.table[place(y.leg, v)] < xp.total);
    }
    crate::theory::optics::lemma_make(c.dom, c.cod, get, f);
}

/// Packaging a lens and unpacking the result gives the lens back.
pub proof fn law_closed_retract(l: Lens)
    requires
        l.wf(),
    ensures
        CloLens::from(l).wf(),
        CloLens::from(l).lens() == l,
{
    let c = CloLens::from(l);
    lemma_from(l);
    lemma_clo_lens(c);
    let b = c.lens();
    assert forall|x: int, v: int|
        0 <= x < l.dom.forward.total && 0 <= v < l.cod.backward.total && l.cod.forward.leg.map[l.get.map[x]]
            == l.cod.backward.leg.map[v] implies #[trigger] l.put_at(x, v) == b.put_at(x, v) by {
        assert(crate::theory::optics::fits_put(c.dom, c.cod, c.get(), x, v));
        assert(b.put_at(x, v) == c.entry(x).table[place(l.cod.backward.leg, v)]);
        assert(c.entry(x) == CloLens::put_entry(l, x));
        lemma_place(l.cod.backward.leg, v);
    }
    crate::theory::optics::lemma_lens_ext(l, b);
}

/// Unpacking a map and packaging the lens gives the map back.
pub proof fn law_closed_section(c: CloLens)
    requires
        c.wf(),
    ensures
        c.lens().wf(),
        CloLens::from(c.lens()) == c,
{
    let l = c.lens();
    let y = c.cod.backward;
    let xp = c.dom.backward;
    let es = entries(y, xp);
    let pb = clo_pull(c.dom, c.cod);
    lemma_clo_lens(c);
    lemma_from(l);
    lemma_expo(y, xp);
    lemma_clo_codomain(c.dom, c.cod);
    crate::theory::limits::lemma_pull(to_b(y, xp), c.cod.forward.leg);
    let d = CloLens::from(l);
    assert forall|x: int| 0 <= x < c.dom.forward.total implies #[trigger] d.map.map.map[x] == c.map.map.map[x] by {
        let e = c.entry(x);
        let g = CloLens::put_entry(l, x);
        assert(is_entry(y, xp, e));
        assert(e.a == g.a && e.b == g.b);
        lemma_fibre(y.leg, g.b);
        assert forall|i: int| 0 <= i < g.table.len() implies e.table[i] == g.table[i] by {
            let v = fibre(y.leg, g.b)[i];
            assert(crate::theory::optics::fits_put(c.dom, c.cod, c.get(), x, v));
            assert(l.put_at(x, v) == e.table[place(y.leg, v)]);
        }
        assert(e.table =~= g.table);
        assert(e == g);
        let j = c.map.map.map[x];
        assert(0 <= j < pb.apex);
        let k = pb.to_left.map[j];
        assert(0 <= k < es.len());
        assert(es[k] == e);
        assert(at(y, xp, es[k]) == k);
        assert(pb.ix(pb.to_left.map[j], pb.to_right.map[j]) == j);
        assert(l.get.map[x] == pb.to_right.map[j]);
    }
    assert(d.map.map =~= c.map.map);
}

/// Lenses and maps over `A` into the closed codomain correspond one to one:
/// lenses with the same map are the same, and there are as many lenses as maps.
pub proof fn law_closed_count(dom: Fam, cod: Fam)
    requires
        dom.wf(),
        cod.wf(),
    ensures
        forall|k: Lens, l: Lens|
            k.hom(dom, cod) && l.hom(dom, cod) && (#[trigger] CloLens::from(k)).map == (#[trigger] CloLens::from(l)).map
                ==> k == l,
        crate::slice::slice_hom(dom.forward, clo_codomain(dom, cod)).len() == crate::dlens::all_lenses(dom, cod).len(),
{
    let lenses = crate::dlens::all_lenses(dom, cod);
    let maps = crate::slice::slice_hom(dom.forward, clo_codomain(dom, cod));
    let pack = |l: Lens| CloLens::from(l).map;
    let unpack = |m: OverMor| CloLens { dom, cod, map: m }.lens();
    crate::dlens::law_all_lenses(dom, cod);
    lemma_clo_codomain(dom, cod);
    crate::slice::law_slice_hom(dom.forward, clo_codomain(dom, cod));
    assert forall|l: Lens| #[trigger] l.hom(dom, cod) implies pack(l).hom(dom.forward, clo_codomain(dom, cod)) && unpack(pack(l)) == l by {
        law_closed_retract(l);
        assert(CloLens::from(l) == (CloLens { dom, cod, map: pack(l) }));
    }
    assert forall|l: Lens| #[trigger] lenses.contains(l) implies maps.contains(pack(l)) && unpack(pack(l)) == l by {
        assert(l.hom(dom, cod));
    }
    assert forall|m: OverMor| #[trigger] maps.contains(m) implies lenses.contains(unpack(m)) && pack(unpack(m)) == m by {
        let c = CloLens { dom, cod, map: m };
        lemma_clo_lens(c);
        law_closed_section(c);
    }
    crate::theory::listing::lemma_same_length(lenses, maps, pack, unpack);
    assert forall|k: Lens, l: Lens|
        k.hom(dom, cod) && l.hom(dom, cod) && (#[trigger] CloLens::from(k)).map == (#[trigger] CloLens::from(l)).map implies k
        == l by {
        assert(unpack(pack(k)) == k && unpack(pack(l)) == l);
    }
}

} // verus!
