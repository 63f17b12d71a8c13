//! The chosen limits and colimits of finite sets, and their universal
//! properties.
use vstd::prelude::*;
use crate::theory::fun::Fun;

verus! {

// ----- all functions -----

/// The tables that extend each of `ts` by one last value below `c`.
pub open spec fn extend_all(ts: Seq<Seq<int>>, c: int) -> Seq<Seq<int>>
    decreases ts.len(),
{
    if ts.len() == 0 {
        Seq::empty()
    } else {
        extend_all(ts.drop_last(), c) + Seq::new(c as nat, |v: int| ts.last().push(v))
    }
}

/// The tables of length `n` with values below `c`, in lexicographic order.
pub open spec fn tables(n: nat, c: int) -> Seq<Seq<int>>
    decreases n,
{
    if n == 0 {
        seq![Seq::<int>::empty()]
    } else {
        extend_all(tables((n - 1) as nat, c), c)
    }
}

/// `a` comes before `b`: at the first place where they differ it is smaller.
pub open spec fn lex_less(a: Seq<int>, b: Seq<int>) -> bool {
    exists|p: int| #[trigger] lex_less_at(a, b, p)
}

pub open spec fn lex_less_at(a: Seq<int>, b: Seq<int>, p: int) -> bool {
    &&& 0 <= p < a.len()
    &&& p < b.len()
    &&& a[p] < b[p]
    &&& forall|q: int| 0 <= q < p ==> a[q] == b[q]
}

/// A table of length `n` with values below `c`.
pub open spec fn is_table(t: Seq<int>, n: int, c: int) -> bool {
    t.len() == n && forall|i: int| 0 <= i < n ==> 0 <= #[trigger] t[i] < c
}

/// A list of tables with strictly increasing entries.
pub open spec fn lex_sorted(ts: Seq<Seq<int>>) -> bool {
    forall|i: int, j: int| 0 <= i < j < ts.len() ==> lex_less(#[trigger] ts[i], #[trigger] ts[j])
}

proof fn lemma_extend_all(ts: Seq<Seq<int>>, n: int, c: int)
    requires
        n >= 0,
        c >= 0,
        lex_sorted(ts),
        forall|i: int| 0 <= i < ts.len() ==> is_table(#[trigger] ts[i], n, c),
    ensures
        lex_sorted(extend_all(ts, c)),
        forall|i: int| 0 <= i < extend_all(ts, c).len() ==> is_table(#[trigger] extend_all(ts, c)[i], n + 1, c),
        forall|i: int| 0 <= i < extend_all(ts, c).len() ==> ts.contains((#[trigger] extend_all(ts, c)[i]).drop_last()),
        forall|t: Seq<int>, v: int| ts.contains(t) && 0 <= v < c ==> extend_all(ts, c).contains(#[trigger] t.push(v)),
        extend_all(ts, c).len() == ts.len() * c,
    decreases ts.len(),
{
    if ts.len() == 0 {
        assert(extend_all(ts, c).len() == 0);
        assert(ts.len() * c == 0) by (nonlinear_arith) requires ts.len() == 0;
    } else {
        let ds = ts.drop_last();
        let es = extend_all(ds, c);
        let block = Seq::new(c as nat, |v: int| ts.last().push(v));
        let out = extend_all(ts, c);
        assert(out == es + block);
        assert(lex_sorted(ds));
        lemma_extend_all(ds, n, c);
        assert(ts.len() * c == ds.len() * c + c) by (nonlinear_arith)
            requires ts.len() == ds.len() + 1;
        assert forall|i: int| 0 <= i < out.len() implies is_table(#[trigger] out[i], n + 1, c)
            && ts.contains(out[i].drop_last()) by {
            if i < es.len() {
                assert(out[i] == es[i]);
                let d = es[i].drop_last();
                assert(ds.contains(d));
                let k = choose|k: int| 0 <= k < ds.len() && ds[k] == d;
                assert(ts[k] == d);
            } else {
                let v = i - es.len();
                assert(out[i] == block[v]);
                assert(block[v] == ts.last().push(v));
                assert(out[i].drop_last() =~= ts.last());
                assert(is_table(ts[ts.len() - 1], n, c));
            }
        }
        assert forall|i: int, j: int| 0 <= i < j < out.len() implies lex_less(#[trigger] out[i], #[trigger] out[j]) by {
            if j < es.len() {
                assert(out[i] == es[i] && out[j] == es[j]);
            } else {
                let v = j - es.len();
                assert(out[j] == block[v] && block[v] == ts.last().push(v));
                if i < es.len() {
                    assert(out[i] == es[i]);
                    let d = es[i].drop_last();
                    assert(ds.contains(d));
                    let k = choose|k: int| 0 <= k < ds.len() && ds[k] == d;
                    assert(ts[k] == d);
                    assert(lex_less(ts[k], ts[ts.len() - 1]));
                    let p = choose|p: int| #[trigger] lex_less_at(ts[k], ts[ts.len() - 1], p);
                    assert forall|q: int| 0 <= q < p implies out[i][q] == out[j][q] by {
                        assert(d[q] == ts.last()[q]);
                    }
                    assert(lex_less_at(out[i], out[j], p));
                } else {
                    let u = i - es.len();
                    assert(out[i] == block[u] && block[u] == ts.last().push(u));
                    assert(lex_less_at(out[i], out[j], n));
                }
            }
        }
        assert forall|t: Seq<int>, v: int| ts.contains(t) && 0 <= v < c implies out.contains(#[trigger] t.push(v)) by {
            let k = choose|k: int| 0 <= k < ts.len() && ts[k] == t;
            if k < ds.len() {
                assert(ds[k] == t);
                assert(ds.contains(t));
                assert(es.contains(t.push(v)));
                let m = choose|m: int| 0 <= m < es.len() && es[m] == t.push(v);
                assert(out[m] == t.push(v));
            } else {
                assert(block[v] == t.push(v));
                assert(out[es.len() + v] == t.push(v));
            }
        }
    }
}

/// The listing of the functions `n → c` is in strict lexicographic order of
/// their tables, and every function occurs in it.
pub proof fn law_tables(n: nat, c: int)
    requires
        c >= 0,
    ensures
        lex_sorted(tables(n, c)),
        forall|i: int| 0 <= i < tables(n, c).len() ==> is_table(#[trigger] tables(n, c)[i], n as int, c),
        forall|t: Seq<int>| is_table(t, n as int, c) ==> #[trigger] tables(n, c).contains(t),
    decreases n,
{
    if n == 0 {
        assert(tables(n, c) == seq![Seq::<int>::empty()]);
        assert forall|t: Seq<int>| is_table(t, n as int, c) implies #[trigger] tables(n, c).contains(t) by {
            assert(t =~= Seq::<int>::empty());
            assert(tables(n, c)[0] == t);
        }
    } else {
        let prev = tables((n - 1) as nat, c);
        law_tables((n - 1) as nat, c);
        lemma_extend_all(prev, n - 1, c);
        assert forall|t: Seq<int>| is_table(t, n as int, c) implies #[trigger] tables(n, c).contains(t) by {
            let d = t.drop_last();
            assert(is_table(d, n - 1, c));
            assert(prev.contains(d));
            assert(d.push(t.last()) =~= t);
            assert(extend_all(prev, c).contains(d.push(t.last())));
        }
    }
}

/// There are `c` to the power `n` functions from `n` to `c`; in particular one
/// into the terminal object, one out of the initial one, and none from a
/// nonempty set to the empty one.
pub proof fn law_table_count(n: nat, c: int)
    requires
        c >= 0,
    ensures
        tables(n, c).len() == vstd::arithmetic::power::pow(c, n),
        c == 1 ==> tables(n, c).len() == 1,
        c == 0 && n > 0 ==> tables(n, c).len() == 0,
    decreases n,
{
    reveal(vstd::arithmetic::power::pow);
    if n > 0 {
        law_table_count((n - 1) as nat, c);
        law_tables((n - 1) as nat, c);
        lemma_extend_all(tables((n - 1) as nat, c), n - 1, c);
        let m = tables((n - 1) as nat, c).len() as int;
        assert(m * c == c * m) by (nonlinear_arith);
        if c == 0 {
            assert(m * c == 0) by (nonlinear_arith) requires c == 0;
        }
        if c == 1 {
            assert(m * c == m) by (nonlinear_arith) requires c == 1;
        }
    }
}

/// The same tables in counting order: the first entry changes fastest.
pub open spec fn counted(n: nat, c: int) -> Seq<Seq<int>> {
    Seq::new(tables(n, c).len(), |k: int| tables(n, c)[k].reverse())
}

/// The counting order lists every table, and none twice.
pub proof fn law_counted(n: nat, c: int)
    requires
        c >= 0,
    ensures
        forall|i: int| 0 <= i < counted(n, c).len() ==> is_table(#[trigger] counted(n, c)[i], n as int, c),
        forall|i: int, j: int| 0 <= i < j < counted(n, c).len() ==> #[trigger] counted(n, c)[i] != #[trigger] counted(n, c)[j],
        forall|t: Seq<int>| is_table(t, n as int, c) ==> #[trigger] counted(n, c).contains(t),
{
    law_tables(n, c);
    let ts = tables(n, c);
    let cs = counted(n, c);
    assert forall|i: int, j: int| 0 <= i < j < cs.len() implies #[trigger] cs[i] != #[trigger] cs[j] by {
        assert(lex_less(ts[i], ts[j]));
        let p = choose|p: int| lex_less_at(ts[i], ts[j], p);
        assert(is_table(ts[i], n as int, c) && is_table(ts[j], n as int, c));
        assert(cs[i][n - 1 - p] == ts[i][p]);
        assert(cs[j][n - 1 - p] == ts[j][p]);
    }
    assert forall|t: Seq<int>| is_table(t, n as int, c) implies #[trigger] cs.contains(t) by {
        let r = t.reverse();
        assert(is_table(r, n as int, c));
        assert(ts.contains(r));
        let k = choose|k: int| 0 <= k < ts.len() && ts[k] == r;
        assert(cs[k] =~= t);
    }
}

// ----- products -----

/// `A × B`, with the pair `(i, j)` at `i * b + j`.
#[verifier::ext_equal]
pub struct Prod {
    pub obj: int,
    pub fst: Fun,
    pub snd: Fun,
    pub left: int,
    pub right: int,
}

impl Prod {
    pub open spec fn of(a: int, b: int) -> Prod {
        let n = crate::theory::fun::sat_mul(a, b);
        Prod {
            obj: n,
            fst: Fun { dom: n, cod: a, map: Seq::new(n as nat, |k: int| k / b) },
            snd: Fun { dom: n, cod: b, map: Seq::new(n as nat, |k: int| k % b) },
            left: a,
            right: b,
        }
    }

    /// The mediator of `f: Z → A` and `g: Z → B` into `A × B`.
    pub open spec fn pair(f: Fun, g: Fun) -> Fun {
        Fun {
            dom: f.dom,
            cod: crate::theory::fun::sat_mul(f.cod, g.cod),
            map: Seq::new(f.dom as nat, |z: int| f.map[z] * g.cod + g.map[z]),
        }
    }
}

/// The index of a pair and the two entries of an index determine each other.
pub proof fn lemma_pair_index(a: int, b: int, i: int, j: int)
    requires
        0 <= i < a,
        0 <= j < b,
    ensures
        0 <= i * b + j < a * b,
        (i * b + j) / b == i,
        (i * b + j) % b == j,
{
    assert(0 <= i * b + j < a * b) by (nonlinear_arith)
        requires 0 <= i < a, 0 <= j < b;
    vstd::arithmetic::div_mod::lemma_fundamental_div_mod_converse(i * b + j, b, i, j);
}

pub proof fn lemma_unpair(a: int, b: int, k: int)
    requires
        0 <= k < a * b,
        0 <= a,
        0 <= b,
    ensures
        b > 0,
        0 <= k / b < a,
        0 <= k % b < b,
        (k / b) * b + k % b == k,
{
    assert(b > 0) by (nonlinear_arith) requires 0 <= k < a * b, 0 <= b;
    vstd::arithmetic::div_mod::lemma_fundamental_div_mod(k, b);
    assert(b * (k / b) == (k / b) * b) by (nonlinear_arith);
    assert(0 <= k / b < a) by (nonlinear_arith)
        requires 0 <= k < a * b, b > 0, k == b * (k / b) + k % b, 0 <= k % b < b;
}

/// The product is a product: pairing is the only mediator into it.
pub proof fn law_product(a: int, b: int, f: Fun, g: Fun)
    requires
        a >= 0,
        b >= 0,
        a * b <= u32::MAX,
        f.wf(),
        g.wf(),
        f.cod == a,
        g.cod == b,
        f.dom == g.dom,
    ensures
        Prod::of(a, b).fst.hom(a * b, a),
        Prod::of(a, b).snd.hom(a * b, b),
        Prod::pair(f, g).hom(f.dom, a * b),
        Prod::of(a, b).fst.o(Prod::pair(f, g)) == f,
        Prod::of(a, b).snd.o(Prod::pair(f, g)) == g,
        forall|m: Fun| #[trigger] m.hom(f.dom, a * b) && Prod::of(a, b).fst.o(m) == f && Prod::of(a, b).snd.o(m) == g
            ==> m == Prod::pair(f, g),
{
    let p = Prod::of(a, b);
    let m = Prod::pair(f, g);
    assert(a * b >= 0) by (nonlinear_arith) requires a >= 0, b >= 0;
    assert forall|k: int| 0 <= k < a * b implies 0 <= #[trigger] p.fst.map[k] < a && 0 <= p.snd.map[k] < b by {
        lemma_unpair(a, b, k);
    }
    assert forall|k: int| 0 <= k < a * b implies 0 <= #[trigger] p.snd.map[k] < b by {
        lemma_unpair(a, b, k);
    }
    assert forall|z: int| 0 <= z < f.dom implies 0 <= #[trigger] m.map[z] < a * b
        && p.fst.map[m.map[z]] == f.map[z] && p.snd.map[m.map[z]] == g.map[z] by {
        lemma_pair_index(a, b, f.map[z], g.map[z]);
    }
    assert(p.fst.o(m) =~= f);
    assert(p.snd.o(m) =~= g);
    assert forall|n: Fun| #[trigger] n.hom(f.dom, a * b) && p.fst.o(n) == f && p.snd.o(n) == g implies n == m by {
        assert forall|z: int| 0 <= z < f.dom implies n.map[z] == #[trigger] m.map[z] by {
            lemma_unpair(a, b, n.map[z]);
            assert(p.fst.o(n).map[z] == p.fst.map[n.map[z]]);
            assert(p.snd.o(n).map[z] == p.snd.map[n.map[z]]);
        }
        assert(n =~= m);
    }
}

// ----- pullbacks -----

/// The pullback of two functions with a common codomain.
#[verifier::ext_equal]
pub struct Pull {
    pub apex: int,
    pub to_left: Fun,
    pub to_right: Fun,
    pub pairs: Seq<(int, int)>,
}

impl Pull {
    /// The matching pairs `(x, y)` with `y` below `n`, in order.
    pub open spec fn row(f: Fun, g: Fun, x: int, n: int) -> Seq<(int, int)>
        decreases n,
    {
        if n <= 0 {
            Seq::empty()
        } else {
            let r = Pull::row(f, g, x, n - 1);
            if f.map[x] == g.map[n - 1] {
                r.push((x, n - 1))
            } else {
                r
            }
        }
    }

    /// The matching pairs whose first entry is below `m`, in order.
    pub open spec fn rows(f: Fun, g: Fun, m: int) -> Seq<(int, int)>
        decreases m,
    {
        if m <= 0 {
            Seq::empty()
        } else {
            Pull::rows(f, g, m - 1) + Pull::row(f, g, m - 1, g.dom)
        }
    }

    /// All `(x, y)` with `f(x) = g(y)`, in lexicographic order.
    #[verifier::opaque]
    pub open spec fn pairs_of(f: Fun, g: Fun) -> Seq<(int, int)> {
        Pull::rows(f, g, f.dom)
    }

    pub open spec fn of(f: Fun, g: Fun) -> Pull {
        let s = Pull::pairs_of(f, g);
        Pull {
            apex: s.len() as int,
            to_left: Fun { dom: s.len() as int, cod: f.dom, map: Seq::new(s.len(), |i: int| s[i].0) },
            to_right: Fun { dom: s.len() as int, cod: g.dom, map: Seq::new(s.len(), |i: int| s[i].1) },
            pairs: s,
        }
    }

    pub open spec fn last_at(self, x: int, y: int, i: int) -> bool {
        &&& 0 <= i < self.pairs.len()
        &&& self.pairs[i] == (x, y)
        &&& forall|k: int| i < k < self.pairs.len() ==> self.pairs[k] != (x, y)
    }

    /// The pair is listed.
    pub open spec fn lists(self, x: int, y: int) -> bool {
        exists|i: int| self.last_at(x, y, i)
    }

    /// Where the pair is listed.
    pub open spec fn ix(self, x: int, y: int) -> int {
        choose|i: int| self.last_at(x, y, i)
    }

    /// The mediator of `p` and `q` into the pullback.
    pub open spec fn med(self, p: Fun, q: Fun) -> Fun {
        Fun {
            dom: p.dom,
            cod: self.apex,
            map: Seq::new(p.dom as nat, |w: int| self.ix(p.map[w], q.map[w])),
        }
    }

    /// The inclusion of the pullback into the product.
    pub open spec fn into_product(self, right: int) -> Fun {
        Fun {
            dom: self.apex,
            cod: crate::theory::fun::sat_mul(self.to_left.cod, right),
            map: Seq::new(self.pairs.len(), |i: int| self.pairs[i].0 * right + self.pairs[i].1),
        }
    }
}

/// `p` comes before `q` in the lexicographic order of pairs.
pub open spec fn pair_less(p: (int, int), q: (int, int)) -> bool {
    p.0 < q.0 || (p.0 == q.0 && p.1 < q.1)
}

proof fn lemma_row(f: Fun, g: Fun, x: int, n: int)
    requires
        n >= 0,
    ensures
        forall|i: int| 0 <= i < Pull::row(f, g, x, n).len() ==> {
            let p = #[trigger] Pull::row(f, g, x, n)[i];
            p.0 == x && 0 <= p.1 < n && f.map[x] == g.map[p.1]
        },
        forall|i: int, j: int| 0 <= i < j < Pull::row(f, g, x, n).len()
            ==> pair_less(#[trigger] Pull::row(f, g, x, n)[i], #[trigger] Pull::row(f, g, x, n)[j]),
        forall|y: int| 0 <= y < n && f.map[x] == #[trigger] g.map[y] ==> Pull::row(f, g, x, n).contains((x, y)),
        Pull::row(f, g, x, n).len() <= n,
    decreases n,
{
    if n > 0 {
        lemma_row(f, g, x, n - 1);
        let r = Pull::row(f, g, x, n - 1);
        let s = Pull::row(f, g, x, n);
        assert forall|y: int| 0 <= y < n && f.map[x] == #[trigger] g.map[y] implies s.contains((x, y)) by {
            if y == n - 1 {
                assert(s[s.len() - 1] == (x, y));
            } else {
                let k = choose|k: int| 0 <= k < r.len() && r[k] == (x, y);
                assert(s[k] == (x, y));
            }
        }
    }
}

proof fn lemma_rows(f: Fun, g: Fun, m: int)
    requires
        m >= 0,
        g.dom >= 0,
    ensures
        forall|i: int| 0 <= i < Pull::rows(f, g, m).len() ==> {
            let p = #[trigger] Pull::rows(f, g, m)[i];
            0 <= p.0 < m && 0 <= p.1 < g.dom && f.map[p.0] == g.map[p.1]
        },
        forall|i: int, j: int| 0 <= i < j < Pull::rows(f, g, m).len()
            ==> pair_less(#[trigger] Pull::rows(f, g, m)[i], #[trigger] Pull::rows(f, g, m)[j]),
        forall|x: int, y: int| 0 <= x < m && 0 <= y < g.dom && #[trigger] f.map[x] == #[trigger] g.map[y]
            ==> Pull::rows(f, g, m).contains((x, y)),
    decreases m,
{
    if m > 0 {
        lemma_rows(f, g, m - 1);
        lemma_row(f, g, m - 1, g.dom);
        let r = Pull::rows(f, g, m - 1);
        let b = Pull::row(f, g, m - 1, g.dom);
        let s = Pull::rows(f, g, m);
        assert(s == r + b);
        assert forall|x: int, y: int| 0 <= x < m && 0 <= y < g.dom && #[trigger] f.map[x] == #[trigger] g.map[y]
            implies s.contains((x, y)) by {
            if x == m - 1 {
                assert(b.contains((x, y)));
                let k = choose|k: int| 0 <= k < b.len() && b[k] == (x, y);
                assert(s[r.len() + k] == (x, y));
            } else {
                let k = choose|k: int| 0 <= k < r.len() && r[k] == (x, y);
                assert(s[k] == (x, y));
            }
        }
        assert forall|i: int, j: int| 0 <= i < j < s.len() implies pair_less(#[trigger] s[i], #[trigger] s[j]) by {
            if j < r.len() {
                assert(s[i] == r[i] && s[j] == r[j]);
            } else if i >= r.len() {
                assert(s[i] == b[i - r.len()] && s[j] == b[j - r.len()]);
            } else {
                assert(s[i] == r[i] && s[j] == b[j - r.len()]);
            }
        }
    }
}

proof fn lemma_rows_len(f: Fun, g: Fun, m: int)
    requires
        m >= 0,
        g.dom >= 0,
    ensures
        Pull::rows(f, g, m).len() <= m * g.dom,
    decreases m,
{
    if m > 0 {
        lemma_rows_len(f, g, m - 1);
        lemma_row_len(f, g, m - 1, g.dom);
        assert((m - 1) * g.dom + g.dom == m * g.dom) by (nonlinear_arith);
    }
}

proof fn lemma_row_len(f: Fun, g: Fun, x: int, n: int)
    requires
        n >= 0,
    ensures
        Pull::row(f, g, x, n).len() <= n,
    decreases n,
{
    if n > 0 {
        lemma_row_len(f, g, x, n - 1);
    }
}

/// A pullback has no more elements than there are pairs. This bounds the apex
/// of a composite span, a reindexed slice, and the domain of a put.
pub broadcast proof fn law_pullback_size(f: Fun, g: Fun)
    requires
        f.dom >= 0,
        g.dom >= 0,
    ensures
        0 <= (#[trigger] Pull::of(f, g)).apex <= f.dom * g.dom,
{
    reveal(Pull::pairs_of);
    lemma_rows_len(f, g, f.dom);
}

/// The pullback lists exactly the matching pairs, each once, in lexicographic
/// order.
pub proof fn law_pullback_pairs(f: Fun, g: Fun)
    requires
        f.wf(),
        g.wf(),
    ensures
        forall|i: int, j: int| 0 <= i < j < Pull::of(f, g).pairs.len()
            ==> pair_less(#[trigger] Pull::of(f, g).pairs[i], #[trigger] Pull::of(f, g).pairs[j]),
        forall|i: int| 0 <= i < Pull::of(f, g).pairs.len() ==> {
            let p = #[trigger] Pull::of(f, g).pairs[i];
            0 <= p.0 < f.dom && 0 <= p.1 < g.dom && f.map[p.0] == g.map[p.1]
        },
        forall|x: int, y: int| 0 <= x < f.dom && 0 <= y < g.dom && #[trigger] f.map[x] == #[trigger] g.map[y]
            ==> Pull::of(f, g).pairs.contains((x, y)),
{
    reveal(Pull::pairs_of);
    lemma_rows(f, g, f.dom);
}

/// Elements of a pullback correspond to matching pairs.
pub proof fn lemma_pull(f: Fun, g: Fun)
    requires
        f.wf(),
        g.wf(),
    ensures
        Pull::of(f, g).to_left.hom(Pull::of(f, g).apex, f.dom),
        Pull::of(f, g).to_right.hom(Pull::of(f, g).apex, g.dom),
        Pull::of(f, g).apex == Pull::of(f, g).pairs.len(),
        forall|i: int| 0 <= i < Pull::of(f, g).apex ==> #[trigger] Pull::of(f, g).pairs[i]
            == (Pull::of(f, g).to_left.map[i], Pull::of(f, g).to_right.map[i]),
        forall|i: int|
            #![trigger Pull::of(f, g).to_left.map[i]]
            #![trigger Pull::of(f, g).to_right.map[i]]
            0 <= i < Pull::of(f, g).apex ==> {
                let p = Pull::of(f, g);
                &&& f.map[p.to_left.map[i]] == g.map[p.to_right.map[i]]
                &&& p.ix(p.to_left.map[i], p.to_right.map[i]) == i
                &&& p.lists(p.to_left.map[i], p.to_right.map[i])
            },
        forall|x: int, y: int|
            #![trigger Pull::of(f, g).ix(x, y)]
            0 <= x < f.dom && 0 <= y < g.dom && f.map[x] == g.map[y] ==> {
                let p = Pull::of(f, g);
                let i = p.ix(x, y);
                &&& p.lists(x, y)
                &&& 0 <= i < p.apex
                &&& p.to_left.map[i] == x
                &&& p.to_right.map[i] == y
            },
{
    law_pullback_pairs(f, g);
    let p = Pull::of(f, g);
    assert forall|i: int| 0 <= i < p.apex implies #[trigger] p.last_at(p.pairs[i].0, p.pairs[i].1, i) by {
        assert forall|k: int| i < k < p.pairs.len() implies p.pairs[k] != p.pairs[i] by {
            assert(pair_less(p.pairs[i], p.pairs[k]));
        }
    }
    assert forall|i: int| 0 <= i < p.apex implies p.ix(#[trigger] p.pairs[i].0, p.pairs[i].1) == i by {
        let x = p.pairs[i].0;
        let y = p.pairs[i].1;
        let k = p.ix(x, y);
        assert(p.last_at(x, y, i));
        assert(p.last_at(x, y, k));
        if k < i {
            assert(pair_less(p.pairs[k], p.pairs[i]));
        }
        if i < k {
            assert(pair_less(p.pairs[i], p.pairs[k]));
        }
    }
    assert forall|x: int, y: int| 0 <= x < f.dom && 0 <= y < g.dom && f.map[x] == g.map[y] implies {
        let i = #[trigger] p.ix(x, y);
        &&& p.lists(x, y)
        &&& 0 <= i < p.apex
        &&& p.to_left.map[i] == x
        &&& p.to_right.map[i] == y
    } by {
        assert(p.pairs.contains((x, y)));
        let k = choose|k: int| 0 <= k < p.pairs.len() && p.pairs[k] == (x, y);
        assert(p.last_at(p.pairs[k].0, p.pairs[k].1, k));
    }
    assert forall|i: int| 0 <= i < p.apex implies #[trigger] p.to_left.map[i] == p.pairs[i].0
        && p.to_right.map[i] == p.pairs[i].1 && p.lists(p.pairs[i].0, p.pairs[i].1) by {
        assert(p.last_at(p.pairs[i].0, p.pairs[i].1, i));
    }
}

/// The pullback is a pullback: its square commutes, and each commuting square
/// over the same functions factors through it in exactly one way.
pub proof fn law_pullback(f: Fun, g: Fun, p: Fun, q: Fun)
    requires
        f.wf(),
        g.wf(),
        f.cod == g.cod,
        p.wf(),
        q.wf(),
        p.cod == f.dom,
        q.cod == g.dom,
        f.o(p) == g.o(q),
    ensures
        f.o(Pull::of(f, g).to_left) == g.o(Pull::of(f, g).to_right),
        Pull::of(f, g).med(p, q).hom(p.dom, Pull::of(f, g).apex),
        Pull::of(f, g).to_left.o(Pull::of(f, g).med(p, q)) == p,
        Pull::of(f, g).to_right.o(Pull::of(f, g).med(p, q)) == q,
        forall|m: Fun|
            #[trigger] m.hom(p.dom, Pull::of(f, g).apex) && Pull::of(f, g).to_left.o(m) == p
                && Pull::of(f, g).to_right.o(m) == q ==> m == Pull::of(f, g).med(p, q),
{
    lemma_pull(f, g);
    crate::theory::fun::lemma_square(f, p, g, q);
    let pb = Pull::of(f, g);
    let m = pb.med(p, q);
    assert forall|w: int| 0 <= w < p.dom implies 0 <= #[trigger] m.map[w] < pb.apex
        && pb.to_left.map[m.map[w]] == p.map[w] && pb.to_right.map[m.map[w]] == q.map[w] by {
        assert(m.map[w] == pb.ix(p.map[w], q.map[w]));
    }
    assert(f.o(pb.to_left) =~= g.o(pb.to_right));
    assert(pb.to_left.o(m) =~= p);
    assert(pb.to_right.o(m) =~= q);
    assert forall|n: Fun| #[trigger] n.hom(p.dom, pb.apex) && pb.to_left.o(n) == p && pb.to_right.o(n) == q
        implies n == m by {
        assert forall|w: int| 0 <= w < p.dom implies #[trigger] n.map[w] == m.map[w] by {
            assert(pb.to_left.o(n).map[w] == pb.to_left.map[n.map[w]]);
            assert(pb.to_right.o(n).map[w] == pb.to_right.map[n.map[w]]);
        }
        assert(n =~= m);
    }
}

/// The inclusion of the pullback into the product keeps both projections.
pub proof fn law_pullback_into_product(f: Fun, g: Fun)
    requires
        f.wf(),
        g.wf(),
        f.cod == g.cod,
        f.dom * g.dom <= u32::MAX,
    ensures
        Pull::of(f, g).into_product(g.dom).hom(Pull::of(f, g).apex, f.dom * g.dom),
        Prod::of(f.dom, g.dom).fst.o(Pull::of(f, g).into_product(g.dom)) == Pull::of(f, g).to_left,
        Prod::of(f.dom, g.dom).snd.o(Pull::of(f, g).into_product(g.dom)) == Pull::of(f, g).to_right,
{
    lemma_pull(f, g);
    let p = Pull::of(f, g);
    law_product(f.dom, g.dom, p.to_left, p.to_right);
    assert(p.into_product(g.dom) =~= Prod::pair(p.to_left, p.to_right));
}

// ----- equalizers -----

#[verifier::ext_equal]
pub struct Eqz {
    pub obj: int,
    pub incl: Fun,
    pub elements: Seq<int>,
}

impl Eqz {
    /// The elements below `n` on which the functions agree, in order.
    pub open spec fn upto(f: Fun, g: Fun, n: int) -> Seq<int>
        decreases n,
    {
        if n <= 0 {
            Seq::empty()
        } else {
            let r = Eqz::upto(f, g, n - 1);
            if f.map[n - 1] == g.map[n - 1] {
                r.push(n - 1)
            } else {
                r
            }
        }
    }

    pub open spec fn of(f: Fun, g: Fun) -> Eqz {
        let e = Eqz::upto(f, g, f.dom);
        Eqz { obj: e.len() as int, incl: Fun { dom: e.len() as int, cod: f.dom, map: e }, elements: e }
    }

    pub open spec fn last_at(self, x: int, i: int) -> bool {
        &&& 0 <= i < self.elements.len()
        &&& self.elements[i] == x
        &&& forall|k: int| i < k < self.elements.len() ==> self.elements[k] != x
    }

    pub open spec fn ix(self, x: int) -> int {
        choose|i: int| self.last_at(x, i)
    }

    /// The function through which `h` factors.
    pub open spec fn med(self, h: Fun) -> Fun {
        Fun { dom: h.dom, cod: self.obj, map: Seq::new(h.dom as nat, |w: int| self.ix(h.map[w])) }
    }
}

/// The elements of an equalizer are those on which the functions agree, in
/// strictly increasing order.
pub proof fn lemma_eqz_upto(f: Fun, g: Fun, n: int)
    requires
        n >= 0,
    ensures
        Eqz::upto(f, g, n).len() <= n,
        forall|i: int| 0 <= i < Eqz::upto(f, g, n).len() ==> {
            let x = #[trigger] Eqz::upto(f, g, n)[i];
            0 <= x < n && f.map[x] == g.map[x]
        },
        forall|i: int, j: int| 0 <= i < j < Eqz::upto(f, g, n).len()
            ==> #[trigger] Eqz::upto(f, g, n)[i] < #[trigger] Eqz::upto(f, g, n)[j],
        forall|x: int| 0 <= x < n && #[trigger] f.map[x] == g.map[x] ==> Eqz::upto(f, g, n).contains(x),
    decreases n,
{
    if n > 0 {
        lemma_eqz_upto(f, g, n - 1);
        let r = Eqz::upto(f, g, n - 1);
        let s = Eqz::upto(f, g, n);
        assert forall|x: int| 0 <= x < n && #[trigger] f.map[x] == g.map[x] implies s.contains(x) by {
            if x == n - 1 {
                assert(s[s.len() - 1] == x);
            } else {
                let k = choose|k: int| 0 <= k < r.len() && r[k] == x;
                assert(s[k] == x);
            }
        }
    }
}

proof fn lemma_eqz_ix(f: Fun, g: Fun)
    requires
        f.wf(),
        g.wf(),
        f.dom == g.dom,
    ensures
        forall|x: int| 0 <= x < f.dom && f.map[x] == g.map[x] ==> Eqz::of(f, g).last_at(x, #[trigger] Eqz::of(f, g).ix(x)),
        forall|i: int| 0 <= i < Eqz::of(f, g).obj ==> Eqz::of(f, g).ix(#[trigger] Eqz::of(f, g).elements[i]) == i,
{
    lemma_eqz_upto(f, g, f.dom);
    let e = Eqz::of(f, g);
    assert forall|i: int| 0 <= i < e.obj implies #[trigger] e.last_at(e.elements[i], i) by {
    }
    assert forall|x: int| 0 <= x < f.dom && f.map[x] == g.map[x] implies e.last_at(x, #[trigger] e.ix(x)) by {
        assert(e.elements.contains(x));
        let k = choose|k: int| 0 <= k < e.elements.len() && e.elements[k] == x;
        assert(e.last_at(e.elements[k], k));
    }
    assert forall|i: int| 0 <= i < e.obj implies e.ix(#[trigger] e.elements[i]) == i by {
        let x = e.elements[i];
        assert(e.last_at(x, i));
        assert(e.last_at(x, e.ix(x)));
    }
}

/// The equalizer is an equalizer: a function on which the pair agrees factors
/// through the inclusion in exactly one way.
pub proof fn law_equalizer(f: Fun, g: Fun, h: Fun)
    requires
        f.wf(),
        g.wf(),
        h.wf(),
        f.dom == g.dom,
        f.cod == g.cod,
        h.cod == f.dom,
        f.o(h) == g.o(h),
    ensures
        Eqz::of(f, g).incl.hom(Eqz::of(f, g).obj, f.dom),
        f.o(Eqz::of(f, g).incl) == g.o(Eqz::of(f, g).incl),
        Eqz::of(f, g).med(h).hom(h.dom, Eqz::of(f, g).obj),
        Eqz::of(f, g).incl.o(Eqz::of(f, g).med(h)) == h,
        forall|m: Fun| #[trigger] m.hom(h.dom, Eqz::of(f, g).obj) && Eqz::of(f, g).incl.o(m) == h
            ==> m == Eqz::of(f, g).med(h),
{
    lemma_eqz_upto(f, g, f.dom);
    lemma_eqz_ix(f, g);
    crate::theory::fun::lemma_square(f, h, g, h);
    let e = Eqz::of(f, g);
    let m = e.med(h);
    assert(f.o(e.incl) =~= g.o(e.incl));
    assert forall|w: int| 0 <= w < h.dom implies 0 <= #[trigger] m.map[w] < e.obj && e.incl.map[m.map[w]] == h.map[w] by {
        assert(e.last_at(h.map[w], e.ix(h.map[w])));
    }
    assert(e.incl.o(m) =~= h);
    assert forall|n: Fun| #[trigger] n.hom(h.dom, e.obj) && e.incl.o(n) == h implies n == m by {
        assert forall|w: int| 0 <= w < h.dom implies #[trigger] n.map[w] == m.map[w] by {
            assert(e.incl.o(n).map[w] == e.incl.map[n.map[w]]);
            assert(e.ix(e.elements[n.map[w]]) == n.map[w]);
        }
        assert(n =~= m);
    }
}

} // verus!
