//! Listings that run through nested ranges.
use vstd::prelude::*;

verus! {

/// `f(0) + f(1) + … + f(n - 1)`.
pub open spec fn cat<T>(n: int, f: spec_fn(int) -> Seq<T>) -> Seq<T>
    decreases n,
{
    if n <= 0 {
        Seq::empty()
    } else {
        cat(n - 1, f) + f(n - 1)
    }
}

/// An entry of one block is an entry of the listing, and the other way round.
pub proof fn lemma_cat<T>(n: int, f: spec_fn(int) -> Seq<T>)
    ensures
        forall|i: int, x: T| 0 <= i < n && #[trigger] f(i).contains(x) ==> cat(n, f).contains(x),
        forall|k: int| 0 <= k < cat(n, f).len() ==> exists|i: int| 0 <= i < n && (#[trigger] f(i)).contains(#[trigger] cat(n, f)[k]),
    decreases n,
{
    if n > 0 {
        lemma_cat(n - 1, f);
        let c = cat(n, f);
        let d = cat(n - 1, f);
        assert(c == d + f(n - 1));
        assert forall|i: int, x: T| 0 <= i < n && #[trigger] f(i).contains(x) implies c.contains(x) by {
            if i < n - 1 {
                assert(d.contains(x));
                let k = choose|k: int| 0 <= k < d.len() && d[k] == x;
                assert(c[k] == x);
            } else {
                let b = f(i);
                let k = choose|k: int| 0 <= k < b.len() && b[k] == x;
                assert(c[d.len() + k] == x);
            }
        }
        assert forall|k: int| 0 <= k < c.len() implies exists|i: int| 0 <= i < n && (#[trigger] f(i)).contains(#[trigger] c[k]) by {
            if k < d.len() {
                assert(c[k] == d[k]);
                let i = choose|i: int| 0 <= i < n - 1 && (#[trigger] f(i)).contains(d[k]);
                assert(f(i).contains(c[k]));
            } else {
                assert(c[k] == f(n - 1)[k - d.len()]);
                assert(f(n - 1).contains(c[k]));
            }
        }
    }
}

/// A listing of blocks without repetitions, no two of which share an entry,
/// has no repetitions.
pub proof fn lemma_cat_distinct<T>(n: int, f: spec_fn(int) -> Seq<T>)
    requires
        forall|i: int| 0 <= i < n ==> (#[trigger] f(i)).no_duplicates(),
        forall|i: int, j: int, x: T|
            0 <= i < j < n && #[trigger] f(i).contains(x) ==> !(#[trigger] f(j).contains(x)),
    ensures
        cat(n, f).no_duplicates(),
    decreases n,
{
    if n > 0 {
        lemma_cat_distinct(n - 1, f);
        lemma_cat(n - 1, f);
        let d = cat(n - 1, f);
        let b = f(n - 1);
        let c = cat(n, f);
        assert(c == d + b);
        assert forall|i: int, j: int| 0 <= i < c.len() && 0 <= j < c.len() && i != j implies c[i] != c[j] by {
            if i < d.len() && j >= d.len() {
                let m = choose|m: int| 0 <= m < n - 1 && (#[trigger] f(m)).contains(d[i]);
                assert(f(m).contains(c[i]));
                assert(b[j - d.len()] == c[j]);
                assert(f(n - 1).contains(c[j]));
            }
            if j < d.len() && i >= d.len() {
                let m = choose|m: int| 0 <= m < n - 1 && (#[trigger] f(m)).contains(d[j]);
                assert(f(m).contains(c[j]));
                assert(b[i - d.len()] == c[i]);
                assert(f(n - 1).contains(c[i]));
            }
        }
    }
}

/// A listing of blocks whose entries carry the label of their block, where no
/// two blocks have one label, has no repetitions if no block has any.
pub proof fn lemma_cat_labelled<T, L>(n: int, f: spec_fn(int) -> Seq<T>, tag: spec_fn(T) -> L, label: spec_fn(int) -> L)
    requires
        forall|i: int| 0 <= i < n ==> (#[trigger] f(i)).no_duplicates(),
        forall|i: int, k: int| 0 <= i < n && 0 <= k < f(i).len() ==> tag(#[trigger] f(i)[k]) == label(i),
        forall|i: int, j: int| 0 <= i < j < n ==> #[trigger] label(i) != #[trigger] label(j),
    ensures
        cat(n, f).no_duplicates(),
{
    assert forall|i: int, j: int, x: T| 0 <= i < j < n && #[trigger] f(i).contains(x) implies !(#[trigger] f(j).contains(x)) by {
        let (b, c) = (f(i), f(j));
        let k = choose|k: int| 0 <= k < b.len() && b[k] == x;
        assert(tag(f(i)[k]) == label(i));
        if c.contains(x) {
            let m = choose|m: int| 0 <= m < c.len() && c[m] == x;
            assert(tag(f(j)[m]) == label(j));
        }
    }
    lemma_cat_distinct(n, f);
}

/// What holds of the entries of every block holds of those of the listing.
pub proof fn lemma_cat_all<T>(n: int, f: spec_fn(int) -> Seq<T>, p: spec_fn(T) -> bool)
    requires
        forall|i: int, k: int| 0 <= i < n && 0 <= k < f(i).len() ==> p(#[trigger] f(i)[k]),
    ensures
        forall|k: int| 0 <= k < cat(n, f).len() ==> p(#[trigger] cat(n, f)[k]),
{
    lemma_cat(n, f);
    let c = cat(n, f);
    assert forall|k: int| 0 <= k < c.len() implies p(#[trigger] c[k]) by {
        let i = choose|i: int| 0 <= i < n && (#[trigger] f(i)).contains(c[k]);
        let b = f(i);
        let j = choose|j: int| 0 <= j < b.len() && b[j] == c[k];
        assert(p(f(i)[j]));
    }
}

/// A selection from a listing without repetitions has no repetitions.
pub proof fn lemma_filter_distinct<T>(s: Seq<T>, keep: spec_fn(T) -> bool)
    requires
        s.no_duplicates(),
    ensures
        s.filter(keep).no_duplicates(),
    decreases s.len(),
{
    reveal(Seq::filter);
    if s.len() > 0 {
        let d = s.drop_last();
        let k = d.filter(keep);
        lemma_filter_distinct(d, keep);
        if keep(s.last()) {
            crate::slice::lemma_filter_members(d, keep);
            assert forall|i: int, j: int|
                0 <= i < k.push(s.last()).len() && 0 <= j < k.push(s.last()).len() && i != j implies k.push(s.last())[i]
                != k.push(s.last())[j] by {
                let m = if i < j {
                    i
                } else {
                    j
                };
                assert(k.contains(k[m]));
                assert(d.contains(k[m]));
                let l = choose|l: int| 0 <= l < d.len() && d[l] == k[m];
                assert(s[l] == k[m]);
            }
        }
    }
}

/// A listing that a map sends into another one without collisions is no
/// longer than the other one.
proof fn lemma_injects<S, T>(a: Seq<S>, b: Seq<T>, f: spec_fn(S) -> T)
    requires
        forall|i: int| 0 <= i < a.len() ==> b.contains(f(#[trigger] a[i])),
        forall|i: int, j: int| 0 <= i < j < a.len() ==> f(#[trigger] a[i]) != f(#[trigger] a[j]),
    ensures
        a.len() <= b.len(),
    decreases a.len(),
{
    if a.len() > 0 {
        let n = a.len() - 1;
        assert(b.contains(f(a[n])));
        let k = choose|k: int| 0 <= k < b.len() && b[k] == f(a[n]);
        let c = b.remove(k);
        let d = a.drop_last();
        assert forall|i: int| 0 <= i < d.len() implies c.contains(f(#[trigger] d[i])) by {
            assert(f(a[i]) != f(a[n]));
            assert(b.contains(f(a[i])));
            let m = choose|m: int| 0 <= m < b.len() && b[m] == f(a[i]);
            if m < k {
                assert(c[m] == b[m]);
            } else {
                assert(c[m - 1] == b[m]);
            }
        }
        lemma_injects(d, c, f);
    }
}

/// Two listings without repetitions whose entries correspond one to one have
/// the same length.
pub proof fn lemma_same_length<S, T>(a: Seq<S>, b: Seq<T>, f: spec_fn(S) -> T, g: spec_fn(T) -> S)
    requires
        a.no_duplicates(),
        b.no_duplicates(),
        forall|x: S| #[trigger] a.contains(x) ==> b.contains(f(x)) && g(f(x)) == x,
        forall|y: T| #[trigger] b.contains(y) ==> a.contains(g(y)) && f(g(y)) == y,
    ensures
        a.len() == b.len(),
{
    assert forall|i: int| 0 <= i < a.len() implies b.contains(f(#[trigger] a[i])) && g(f(a[i])) == a[i] by {
        assert(a.contains(a[i]));
    }
    assert forall|i: int| 0 <= i < b.len() implies a.contains(g(#[trigger] b[i])) && f(g(b[i])) == b[i] by {
        assert(b.contains(b[i]));
    }
    lemma_injects(a, b, f);
    lemma_injects(b, a, g);
}

// ----- tuples -----

/// The tuple `t` with each entry of the row behind it.
pub open spec fn extended<T>(t: Seq<T>, row: Seq<T>) -> Seq<Seq<T>> {
    Seq::new(row.len(), |j: int| t.push(row[j]))
}

/// The tuples with entry `i` out of `rows(i)`, for `i` below `n`.
pub open spec fn tuples<T>(n: int, rows: spec_fn(int) -> Seq<T>) -> Seq<Seq<T>>
    decreases n,
{
    if n <= 0 {
        seq![Seq::empty()]
    } else {
        let ts = tuples(n - 1, rows);
        cat(ts.len() as int, |k: int| extended(ts[k], rows(n - 1)))
    }
}

/// The product of the lengths of the rows.
pub open spec fn lengths<T>(n: int, rows: spec_fn(int) -> Seq<T>) -> int
    decreases n,
{
    if n <= 0 {
        1
    } else {
        lengths(n - 1, rows) * rows(n - 1).len()
    }
}

pub open spec fn is_tuple<T>(n: int, rows: spec_fn(int) -> Seq<T>, t: Seq<T>) -> bool {
    t.len() == n && forall|i: int| 0 <= i < n ==> rows(i).contains(#[trigger] t[i])
}

/// A listing of blocks of one length.
proof fn lemma_cat_length<T>(n: int, f: spec_fn(int) -> Seq<T>, m: int)
    requires
        n >= 0,
        forall|i: int| 0 <= i < n ==> (#[trigger] f(i)).len() == m,
    ensures
        cat(n, f).len() == n * m,
    decreases n,
{
    if n > 0 {
        lemma_cat_length(n - 1, f, m);
        assert(f(n - 1).len() == m);
        assert(n * m == (n - 1) * m + m) by (nonlinear_arith);
    } else {
        assert(n * m == 0) by (nonlinear_arith) requires n == 0;
    }
}

/// The tuples are listed completely and without repetitions, and there are as
/// many as the product of the lengths of the rows.
pub proof fn lemma_tuples<T>(n: int, rows: spec_fn(int) -> Seq<T>)
    requires
        n >= 0,
        forall|i: int| 0 <= i < n ==> (#[trigger] rows(i)).no_duplicates(),
    ensures
        tuples(n, rows).len() == lengths(n, rows),
        tuples(n, rows).no_duplicates(),
        forall|t: Seq<T>| #[trigger] tuples(n, rows).contains(t) <==> is_tuple(n, rows, t),
    decreases n,
{
    let all = tuples(n, rows);
    if n == 0 {
        assert(all == seq![Seq::<T>::empty()]);
        assert forall|t: Seq<T>| #[trigger] all.contains(t) <==> is_tuple(n, rows, t) by {
            if is_tuple(n, rows, t) {
                assert(t =~= all[0]);
            }
        }
    } else {
        lemma_tuples(n - 1, rows);
        let ts = tuples(n - 1, rows);
        let row = rows(n - 1);
        let f = |k: int| extended(ts[k], row);
        assert(all == cat(ts.len() as int, f));
        lemma_cat_length(ts.len() as int, f, row.len() as int);
        assert forall|k: int| 0 <= k < ts.len() implies (#[trigger] f(k)).no_duplicates() by {
            let b = f(k);
            assert forall|i: int, j: int| 0 <= i < b.len() && 0 <= j < b.len() && i != j implies b[i] != b[j] by {
                assert(b[i].last() == row[i] && b[j].last() == row[j]);
            }
        }
        assert forall|i: int, j: int, t: Seq<T>| 0 <= i < j < ts.len() && #[trigger] f(i).contains(t) implies !(
        #[trigger] f(j).contains(t)) by {
            let (b, c) = (f(i), f(j));
            let p = choose|p: int| 0 <= p < b.len() && b[p] == t;
            assert(t.drop_last() =~= ts[i]);
            if c.contains(t) {
                let q = choose|q: int| 0 <= q < c.len() && c[q] == t;
                assert(t.drop_last() =~= ts[j]);
            }
        }
        lemma_cat_distinct(ts.len() as int, f);
        lemma_cat(ts.len() as int, f);
        assert forall|t: Seq<T>| #[trigger] all.contains(t) implies is_tuple(n, rows, t) by {
            let m = choose|m: int| 0 <= m < all.len() && all[m] == t;
            let k = choose|k: int| 0 <= k < ts.len() && (#[trigger] f(k)).contains(all[m]);
            let b = f(k);
            let j = choose|j: int| 0 <= j < b.len() && b[j] == t;
            assert(ts.contains(ts[k]));
            assert(is_tuple(n - 1, rows, ts[k]));
            assert forall|i: int| 0 <= i < n implies rows(i).contains(#[trigger] t[i]) by {
                if i < n - 1 {
                    assert(t[i] == ts[k][i]);
                } else {
                    assert(t[i] == row[j]);
                }
            }
        }
        assert forall|t: Seq<T>| is_tuple(n, rows, t) implies #[trigger] all.contains(t) by {
            let d = t.drop_last();
            assert forall|i: int| 0 <= i < n - 1 implies rows(i).contains(#[trigger] d[i]) by {
                assert(d[i] == t[i]);
            }
            assert(is_tuple(n - 1, rows, d));
            assert(ts.contains(d));
            let k = choose|k: int| 0 <= k < ts.len() && ts[k] == d;
            assert(rows(n - 1).contains(t[n - 1]));
            let j = choose|j: int| 0 <= j < row.len() && row[j] == t[n - 1];
            assert(f(k)[j] =~= t);
            assert(f(k).contains(t));
        }
    }
}

/// The views of a list of values.
pub open spec fn views<T: View>(s: Seq<T>) -> Seq<T::V> {
    Seq::new(s.len(), |i: int| s[i]@)
}

pub proof fn lemma_views_push<T: View>(s: Seq<T>, x: T)
    ensures
        views(s.push(x)) == views(s).push(x@),
{
    assert(views(s.push(x)) =~= views(s).push(x@));
}

pub proof fn lemma_views_add<T: View>(s: Seq<T>, t: Seq<T>)
    ensures
        views(s + t) == views(s) + views(t),
{
    assert(views(s + t) =~= views(s) + views(t));
}

// ----- tagged sums -----

/// Where block `i` begins when blocks of the given sizes follow each other.
pub open spec fn off(sz: spec_fn(int) -> int, i: int) -> int
    decreases i,
{
    if i <= 0 {
        0
    } else {
        off(sz, i - 1) + sz(i - 1)
    }
}

/// `x` lies in block `i`.
pub open spec fn in_block(sz: spec_fn(int) -> int, n: int, x: int, i: int) -> bool {
    0 <= i < n && off(sz, i) <= x < off(sz, i) + sz(i)
}

/// The block in which `x` lies.
pub open spec fn which(sz: spec_fn(int) -> int, n: int, x: int) -> int {
    choose|i: int| in_block(sz, n, x, i)
}

pub open spec fn sizes_ok(sz: spec_fn(int) -> int, n: int) -> bool {
    forall|i: int| 0 <= i < n ==> #[trigger] sz(i) >= 0
}

pub proof fn lemma_off_mono(sz: spec_fn(int) -> int, n: int, i: int, j: int)
    requires
        sizes_ok(sz, n),
        0 <= i <= j <= n,
    ensures
        0 <= off(sz, i) <= off(sz, j),
        i < j ==> off(sz, i) + sz(i) <= off(sz, j),
    decreases j, i,
{
    if i < j {
        lemma_off_mono(sz, n, i, j - 1);
        assert(sz(j - 1) >= 0);
    } else if i > 0 {
        lemma_off_mono(sz, n, i - 1, i - 1);
        assert(sz(i - 1) >= 0);
    }
}

/// Every position lies in exactly one block.
pub proof fn lemma_which(sz: spec_fn(int) -> int, n: int, x: int)
    requires
        sizes_ok(sz, n),
        n >= 0,
        0 <= x < off(sz, n),
    ensures
        in_block(sz, n, x, which(sz, n, x)),
{
    lemma_which_exists(sz, n, x, n);
}

proof fn lemma_which_exists(sz: spec_fn(int) -> int, n: int, x: int, m: int)
    requires
        sizes_ok(sz, n),
        0 <= m <= n,
        0 <= x < off(sz, m),
    ensures
        exists|i: int| in_block(sz, n, x, i),
    decreases m,
{
    if m > 0 {
        if x < off(sz, m - 1) {
            lemma_which_exists(sz, n, x, m - 1);
        } else {
            assert(in_block(sz, n, x, m - 1));
        }
    }
}

/// A position of block `i` lies in no other block.
pub proof fn lemma_which_at(sz: spec_fn(int) -> int, n: int, i: int, k: int)
    requires
        sizes_ok(sz, n),
        0 <= i < n,
        0 <= k < sz(i),
    ensures
        0 <= off(sz, i) + k < off(sz, n),
        which(sz, n, off(sz, i) + k) == i,
{
    let x = off(sz, i) + k;
    lemma_off_mono(sz, n, i, n);
    assert(in_block(sz, n, x, i));
    let j = which(sz, n, x);
    assert(in_block(sz, n, x, j));
    if i < j {
        lemma_off_mono(sz, n, i, j);
    }
    if j < i {
        lemma_off_mono(sz, n, j, i);
    }
}

} // verus!
