//! Routes over a fabric of links: breadth-first search, and why it finds a
//! shortest route.
use vstd::prelude::*;
use crate::cluster::Link;

verus! {

/// A link between two different nodes below `n`.
pub open spec fn proper(l: Link, n: int) -> bool {
    l.a < n && l.b < n && l.a != l.b
}

/// The link joins `x` and `y`.
pub open spec fn joins(l: Link, n: int, x: int, y: int) -> bool {
    proper(l, n) && ((l.a == x && l.b == y) || (l.b == x && l.a == y))
}

/// Some link joins `x` and `y`.
pub open spec fn linked(links: Seq<Link>, n: int, x: int, y: int) -> bool {
    exists|i: int| 0 <= i < links.len() && joins(#[trigger] links[i], n, x, y)
}

/// The nodes that the first `k` links join to `x`, in their order.
pub open spec fn neighbors(links: Seq<Link>, n: int, x: int, k: int) -> Seq<int>
    decreases k,
{
    if k <= 0 {
        Seq::empty()
    } else {
        let l = links[k - 1];
        let before = neighbors(links, n, x, k - 1);
        if !proper(l, n) {
            before
        } else if l.a == x {
            before.push(l.b as int)
        } else if l.b == x {
            before.push(l.a as int)
        } else {
            before
        }
    }
}

/// A node that the search has reached, and the position of the node from
/// which it was reached.
#[verifier::ext_equal]
pub struct Entry {
    pub node: int,
    pub parent: int,
}

/// A message of some size between two nodes of a fabric.
#[verifier::ext_equal]
pub struct Trip {
    pub links: Seq<Link>,
    /// The bytes that each node has free.
    pub free: Seq<int>,
    pub from: int,
    pub to: int,
    pub bytes: int,
}

pub open spec fn seen(order: Seq<Entry>, v: int) -> bool {
    exists|i: int| 0 <= i < order.len() && (#[trigger] order[i]).node == v
}

/// The position of a node in the order in which nodes were reached.
pub open spec fn position(order: Seq<Entry>, v: int) -> int {
    choose|i: int| 0 <= i < order.len() && (#[trigger] order[i]).node == v
}

/// The nodes on the way to the entry at position `i`.
pub open spec fn trace(order: Seq<Entry>, i: int) -> Seq<int>
    decreases i,
{
    if i <= 0 || !(0 <= order[i].parent < i) {
        seq![order[i].node]
    } else {
        trace(order, order[i].parent).push(order[i].node)
    }
}

impl Trip {
    pub open spec fn nodes(self) -> int {
        self.free.len() as int
    }

    /// The message may go to this node: it is the end, or it has room.
    pub open spec fn admits(self, v: int) -> bool {
        v == self.to || self.free[v] >= self.bytes
    }

    pub open spec fn around(self, x: int) -> Seq<int> {
        neighbors(self.links, self.nodes(), x, self.links.len() as int)
    }

    /// The order after looking at the first `k` neighbors of the node at
    /// position `at`: those that are new and admit the message are reached.
    pub open spec fn visit(self, order: Seq<Entry>, at: int, k: int) -> Seq<Entry>
        decreases k,
    {
        if k <= 0 {
            order
        } else {
            let t = self.visit(order, at, k - 1);
            let next = self.around(order[at].node)[k - 1];
            if seen(t, next) || !self.admits(next) {
                t
            } else {
                t.push(Entry { node: next, parent: at })
            }
        }
    }

    pub open spec fn visit_all(self, order: Seq<Entry>, at: int) -> Seq<Entry> {
        self.visit(order, at, self.around(order[at].node).len() as int)
    }

    /// The search from position `h` on, until it comes to the end node or has
    /// nothing left.
    pub open spec fn run(self, order: Seq<Entry>, h: int) -> Seq<Entry>
        decreases self.nodes() - h,
    {
        if h >= order.len() || h >= self.nodes() || order[h].node == self.to {
            order
        } else {
            self.run(self.visit_all(order, h), h + 1)
        }
    }

    pub open spec fn search(self) -> Seq<Entry> {
        self.run(seq![Entry { node: self.from, parent: 0 }], 0)
    }

    /// The route that the search finds. A message that stays where it is, or
    /// that is empty, goes nowhere.
    pub open spec fn route(self) -> Option<Seq<int>> {
        if self.from == self.to || self.bytes == 0 {
            Some(seq![self.from])
        } else if self.from >= self.nodes() || self.to >= self.nodes() {
            None
        } else if seen(self.search(), self.to) {
            Some(trace(self.search(), position(self.search(), self.to)))
        } else {
            None
        }
    }

    /// A way from one end to the other along links, each node between the
    /// ends having room for the message.
    pub open spec fn walk(self, p: Seq<int>) -> bool {
        &&& p.len() >= 1
        &&& p[0] == self.from
        &&& p.last() == self.to
        &&& forall|i: int| 0 <= i < p.len() - 1 ==> linked(self.links, self.nodes(), #[trigger] p[i], p[i + 1])
        &&& forall|i: int| 0 < i < p.len() - 1 ==> self.free[#[trigger] p[i]] >= self.bytes
    }

    pub open spec fn depth(self, order: Seq<Entry>, i: int) -> int
        decreases i,
    {
        if i <= 0 || !(0 <= order[i].parent < i) {
            0
        } else {
            self.depth(order, order[i].parent) + 1
        }
    }

    /// What the search keeps: positions before `h` have been looked at, and
    /// entries were reached from positions up to `top`.
    pub open spec fn sound(self, order: Seq<Entry>, top: int) -> bool {
        &&& order.len() >= 1
        &&& order[0].node == self.from
        &&& forall|i: int| 0 <= i < order.len() ==> 0 <= (#[trigger] order[i]).node < self.nodes()
        &&& forall|i: int, j: int|
            0 <= i < j < order.len() ==> (#[trigger] order[i]).node != (#[trigger] order[j]).node
        &&& forall|i: int|
            0 < i < order.len() ==> {
                &&& 0 <= (#[trigger] order[i]).parent < i
                &&& order[i].parent <= top
                &&& linked(self.links, self.nodes(), order[order[i].parent].node, order[i].node)
                &&& self.admits(order[i].node)
            }
        &&& forall|i: int, j: int|
            0 < i < j < order.len() ==> (#[trigger] order[i]).parent <= (#[trigger] order[j]).parent
        &&& forall|i: int| 0 < i < order.len() ==> order[(#[trigger] order[i]).parent].node != self.to
    }

    /// Every neighbor of a position before `h` that admits the message has
    /// been reached from there or from an earlier position.
    pub open spec fn closed_below(self, order: Seq<Entry>, h: int) -> bool {
        forall|p: int, v: int|
            0 <= p < h && p < order.len() && linked(self.links, self.nodes(), (#[trigger] order[p]).node, v) && self.admits(v)
                ==> #[trigger] self.reached(order, p, v)
    }

    /// The search stopped at position `g`: there is the end node, or nothing.
    pub open spec fn stops(self, end: Seq<Entry>, g: int) -> bool {
        &&& 0 <= g <= end.len()
        &&& self.sound(end, g)
        &&& self.closed_below(end, g)
        &&& forall|i: int| 0 <= i < g ==> (#[trigger] end[i]).node != self.to
        &&& g == end.len() || end[g].node == self.to
    }

    pub open spec fn reached(self, order: Seq<Entry>, p: int, v: int) -> bool {
        exists|q: int| 0 <= q < order.len() && (#[trigger] order[q]).node == v && (q == 0 || order[q].parent <= p)
    }
}

/// The neighbors of a node are the nodes that it is linked with.
pub proof fn lemma_neighbors(links: Seq<Link>, n: int, x: int, k: int)
    requires
        0 <= k <= links.len(),
    ensures
        forall|j: int|
            0 <= j < neighbors(links, n, x, k).len() ==> {
                &&& 0 <= #[trigger] neighbors(links, n, x, k)[j] < n
                &&& linked(links, n, x, neighbors(links, n, x, k)[j])
            },
        forall|i: int, v: int|
            0 <= i < k && #[trigger] joins(links[i], n, x, v) ==> neighbors(links, n, x, k).contains(v),
    decreases k,
{
    if k > 0 {
        lemma_neighbors(links, n, x, k - 1);
        let before = neighbors(links, n, x, k - 1);
        let now = neighbors(links, n, x, k);
        let l = links[k - 1];
        assert forall|j: int| 0 <= j < now.len() implies {
            &&& 0 <= #[trigger] now[j] < n
            &&& linked(links, n, x, now[j])
        } by {
            if j < before.len() {
                assert(now[j] == before[j]);
            } else {
                assert(joins(links[k - 1], n, x, now[j]));
            }
        }
        assert forall|i: int, v: int| 0 <= i < k && #[trigger] joins(links[i], n, x, v) implies now.contains(v) by {
            if i < k - 1 {
                let j = before.index_of(v);
                assert(before.contains(v));
                assert(now[j] == v);
            } else {
                assert(now[before.len() as int] == v);
            }
        }
    }
}

proof fn lemma_visit(t: Trip, order: Seq<Entry>, at: int, k: int)
    requires
        t.sound(order, at),
        0 <= at < order.len(),
        0 <= k <= t.around(order[at].node).len(),
        order[at].node != t.to,
    ensures
        t.sound(t.visit(order, at, k), at),
        order.len() <= t.visit(order, at, k).len(),
        forall|i: int| 0 <= i < order.len() ==> t.visit(order, at, k)[i] == #[trigger] order[i],
        forall|j: int|
            0 <= j < k && t.admits(#[trigger] t.around(order[at].node)[j]) ==> seen(
                t.visit(order, at, k),
                t.around(order[at].node)[j],
            ),
    decreases k,
{
    if k > 0 {
        lemma_visit(t, order, at, k - 1);
        let ns = t.around(order[at].node);
        let b = t.visit(order, at, k - 1);
        let now = t.visit(order, at, k);
        let next = ns[k - 1];
        lemma_neighbors(t.links, t.nodes(), order[at].node, t.links.len() as int);
        if seen(b, next) || !t.admits(next) {
        } else {
            assert(now == b.push(Entry { node: next, parent: at }));
            assert(b[at] == order[at]);
            let last = b.len() as int;
            assert forall|i: int, j: int| 0 <= i < j < now.len() implies (#[trigger] now[i]).node != (#[trigger] now[j]).node by {
                if j == last {
                    assert(b[i].node != next);
                } else {
                    assert(b[i].node != b[j].node);
                }
            }
            assert forall|i: int| 0 < i < now.len() implies {
                &&& 0 <= (#[trigger] now[i]).parent < i
                &&& now[i].parent <= at
                &&& linked(t.links, t.nodes(), now[now[i].parent].node, now[i].node)
                &&& t.admits(now[i].node)
                &&& now[now[i].parent].node != t.to
            } by {
                if i < last {
                    assert(now[i] == b[i]);
                    assert(now[b[i].parent] == b[b[i].parent]);
                } else {
                    assert(now[at] == b[at]);
                }
            }
            assert forall|i: int, j: int| 0 < i < j < now.len() implies (#[trigger] now[i]).parent <= (#[trigger] now[j]).parent by {
                assert(now[i] == b[i]);
                if j < last {
                    assert(now[j] == b[j]);
                }
            }
            assert(now[last].node == next);
            assert(seen(now, next));
            assert forall|j: int| 0 <= j < k && t.admits(#[trigger] ns[j]) implies seen(now, ns[j]) by {
                if j < k - 1 {
                    let q = position(b, ns[j]);
                    assert(seen(b, ns[j]));
                    assert(now[q] == b[q]);
                }
            }
        }
    }
}

/// A list of different nodes below `n` has at most `n` entries.
pub proof fn lemma_distinct(t: Trip, order: Seq<Entry>, top: int)
    requires
        t.sound(order, top),
    ensures
        order.len() <= t.nodes(),
{
    let s = Seq::new(order.len(), |i: int| order[i].node);
    assert(s.no_duplicates());
    s.unique_seq_to_set();
    let r = vstd::set_lib::set_int_range(0, t.nodes());
    vstd::set_lib::lemma_int_range(0, t.nodes());
    assert(s.to_set().subset_of(r)) by {
        assert forall|x: int| s.to_set().contains(x) implies r.contains(x) by {
            let i = s.index_of(x);
            assert(s[i] == order[i].node);
        }
    }
    vstd::set_lib::lemma_len_subset(s.to_set(), r);
}

/// Looking at the next position keeps what the search keeps.
pub proof fn lemma_step(t: Trip, order: Seq<Entry>, h: int)
    requires
        t.sound(order, h),
        t.closed_below(order, h),
        0 <= h < order.len(),
        order[h].node != t.to,
    ensures
        t.sound(t.visit_all(order, h), h + 1),
        t.closed_below(t.visit_all(order, h), h + 1),
        order.len() <= t.visit_all(order, h).len(),
        forall|i: int| 0 <= i < order.len() ==> t.visit_all(order, h)[i] == #[trigger] order[i],
{
    let ns = t.around(order[h].node);
    let now = t.visit_all(order, h);
    lemma_visit(t, order, h, ns.len() as int);
    lemma_neighbors(t.links, t.nodes(), order[h].node, t.links.len() as int);
    assert forall|p: int, v: int|
        0 <= p < h + 1 && p < now.len() && linked(t.links, t.nodes(), (#[trigger] now[p]).node, v) && t.admits(
            v,
        ) implies #[trigger] t.reached(now, p, v) by {
        assert(now[p] == order[p]);
        if p < h {
            assert(t.reached(order, p, v));
            let q = choose|q: int| 0 <= q < order.len() && (#[trigger] order[q]).node == v && (q == 0 || order[q].parent <= p);
            assert(now[q] == order[q]);
        } else {
            let i = choose|i: int| 0 <= i < t.links.len() && joins(#[trigger] t.links[i], t.nodes(), order[h].node, v);
            assert(joins(t.links[i], t.nodes(), order[h].node, v));
            assert(ns.contains(v));
            let j = ns.index_of(v);
            assert(seen(now, ns[j]));
            let q = position(now, v);
            assert(now[q].node == v);
        }
    }
}

/// The search ends with what it keeps, at the end node or with nothing left.
proof fn lemma_run(t: Trip, order: Seq<Entry>, h: int)
    requires
        t.sound(order, h),
        t.closed_below(order, h),
        0 <= h <= order.len(),
        forall|i: int| 0 <= i < h ==> (#[trigger] order[i]).node != t.to,
    ensures
        exists|g: int| t.stops(t.run(order, h), g),
    decreases t.nodes() - h,
{
    lemma_distinct(t, order, h);
    let end = t.run(order, h);
    if h >= order.len() {
        assert(t.stops(end, h));
    } else if order[h].node == t.to {
        assert(t.stops(end, h));
    } else {
        lemma_step(t, order, h);
        let now = t.visit_all(order, h);
        assert forall|i: int| 0 <= i < h + 1 implies (#[trigger] now[i]).node != t.to by {
            assert(now[i] == order[i]);
        }
        lemma_run(t, now, h + 1);
    }
}

pub proof fn lemma_start(t: Trip)
    requires
        0 <= t.from < t.nodes(),
    ensures
        t.sound(seq![Entry { node: t.from, parent: 0 }], 0),
        t.closed_below(seq![Entry { node: t.from, parent: 0 }], 0),
{
}

/// The trace of an entry is as long as its depth, and follows the links.
pub proof fn lemma_trace(t: Trip, order: Seq<Entry>, top: int, i: int)
    requires
        t.sound(order, top),
        0 <= i < order.len(),
    ensures
        ({
            let p = trace(order, i);
            &&& p.len() == t.depth(order, i) + 1
            &&& p.len() >= 1
            &&& p[0] == t.from
            &&& p.last() == order[i].node
            &&& forall|j: int| 0 <= j < p.len() - 1 ==> linked(t.links, t.nodes(), #[trigger] p[j], p[j + 1])
            &&& forall|j: int| 0 < j < p.len() ==> t.admits(#[trigger] p[j])
            &&& forall|j: int| 0 <= j < p.len() - 1 ==> #[trigger] p[j] != t.to
        }),
    decreases i,
{
    let p = trace(order, i);
    if i > 0 {
        let q = order[i].parent;
        lemma_trace(t, order, top, q);
        let b = trace(order, q);
        assert(p == b.push(order[i].node));
        assert forall|j: int| 0 <= j < p.len() - 1 implies linked(t.links, t.nodes(), #[trigger] p[j], p[j + 1]) by {
            assert(p[j] == b[j]);
            if j < b.len() - 1 {
                assert(p[j + 1] == b[j + 1]);
            }
        }
        assert forall|j: int| 0 < j < p.len() implies t.admits(#[trigger] p[j]) by {
            if j < b.len() {
                assert(p[j] == b[j]);
            }
        }
        assert forall|j: int| 0 <= j < p.len() - 1 implies #[trigger] p[j] != t.to by {
            assert(p[j] == b[j]);
        }
    }
}

/// Later entries are at least as deep.
proof fn lemma_depth_mono(t: Trip, order: Seq<Entry>, top: int, i: int, j: int)
    requires
        t.sound(order, top),
        0 <= i <= j < order.len(),
    ensures
        0 <= t.depth(order, i) <= t.depth(order, j),
    decreases j,
{
    if i == 0 {
        if j > 0 {
            lemma_depth_mono(t, order, top, 0, order[j].parent);
        }
    } else if i == j {
        lemma_depth_mono(t, order, top, order[i].parent, order[i].parent);
    } else {
        assert(order[i].parent <= order[j].parent);
        lemma_depth_mono(t, order, top, order[i].parent, order[j].parent);
    }
}

/// Node `i` of a walk is reached within `i` steps, unless the search already
/// stopped at that depth.
proof fn lemma_walk(t: Trip, order: Seq<Entry>, g: int, p: Seq<int>, i: int)
    requires
        0 <= g <= order.len(),
        t.sound(order, g),
        t.closed_below(order, g),
        g < order.len() ==> order[g].node == t.to,
        t.walk(p),
        0 <= i < p.len(),
    ensures
        (g < order.len() && t.depth(order, g) <= i) || exists|q: int|
            0 <= q < order.len() && (#[trigger] order[q]).node == p[i] && t.depth(order, q) <= i,
    decreases i,
{
    if i == 0 {
        assert(order[0].node == p[0]);
        assert(t.depth(order, 0) == 0);
    } else {
        lemma_walk(t, order, g, p, i - 1);
        if !(g < order.len() && t.depth(order, g) <= i - 1) {
            let q = choose|q: int| 0 <= q < order.len() && (#[trigger] order[q]).node == p[i - 1] && t.depth(order, q) <= i - 1;
            if q >= g {
                lemma_depth_mono(t, order, g, g, q);
            } else {
                assert(linked(t.links, t.nodes(), p[i - 1], p[i - 1 + 1]));
                if i < p.len() - 1 {
                    assert(t.free[p[i]] >= t.bytes);
                }
                assert(t.admits(p[i]));
                assert(t.reached(order, q, p[i]));
                let r = choose|r: int| 0 <= r < order.len() && (#[trigger] order[r]).node == p[i] && (r == 0 || order[r].parent <= q);
                if r > 0 {
                    lemma_depth_mono(t, order, g, order[r].parent, q);
                }
            }
        }
    }
}

/// The search finds a route exactly when there is one, and no way is shorter.
/// Each step follows a link, and each node between the ends has room.
pub proof fn law_shortest_route(t: Trip, p: Seq<int>)
    requires
        0 <= t.from < t.nodes(),
        0 <= t.to < t.nodes(),
        t.bytes > 0,
    ensures
        t.route() is Some ==> t.walk(t.route()->0),
        t.walk(p) ==> t.route() is Some && t.route()->0.len() <= p.len(),
{
    if t.from == t.to {
        let r = seq![t.from];
        assert(t.walk(r));
    } else {
        let first = seq![Entry { node: t.from, parent: 0 }];
        lemma_start(t);
        lemma_run(t, first, 0);
        let end = t.search();
        let g = choose|g: int| t.stops(end, g);
        if seen(end, t.to) {
            let q = position(end, t.to);
            assert(end[q].node == t.to);
            lemma_trace(t, end, g, q);
            let r = trace(end, q);
            assert forall|i: int| 0 < i < r.len() - 1 implies t.free[#[trigger] r[i]] >= t.bytes by {
                assert(t.admits(r[i]));
            }
            assert(t.walk(r));
            if t.walk(p) {
                lemma_walk(t, end, g, p, p.len() - 1);
                assert(q == g) by {
                    assert(g < end.len());
                    if q < g {
                        assert(end[q].node != t.to);
                    } else if g < q {
                        assert(end[g].node != end[q].node);
                    }
                }
                if !(t.depth(end, g) <= p.len() - 1) {
                    let r2 = choose|r: int|
                        0 <= r < end.len() && (#[trigger] end[r]).node == p[p.len() - 1] && t.depth(end, r) <= p.len() - 1;
                    if r2 < q {
                        assert(end[r2].node != end[q].node);
                    } else if q < r2 {
                        assert(end[q].node != end[r2].node);
                    }
                }
            }
        } else {
            assert(g == end.len()) by {
                if g < end.len() {
                    assert(end[g].node == t.to);
                }
            }
            if t.walk(p) {
                lemma_walk(t, end, g, p, p.len() - 1);
                let r2 = choose|r: int|
                    0 <= r < end.len() && (#[trigger] end[r]).node == p[p.len() - 1] && t.depth(end, r) <= p.len() - 1;
                assert(end[r2].node == t.to);
            }
        }
    }
}

} // verus!
