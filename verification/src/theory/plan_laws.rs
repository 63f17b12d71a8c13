//! What every plan keeps: homes within the buffers, windows within the
//! budgets, messages along the links, and a schedule in which the adjoints
//! mirror the forward windows.
use vstd::prelude::*;
use crate::cluster::{DeviceKind, Exec, HomeKind, HopKind, Kernel, Link, Pass, Role};
use crate::kernel::Stage;
use crate::mixtral::MixtralConfig;
use crate::theory::plans::{Dev, Fault, Job, Leg, Mat, Place, Plan, State, Task, Win};

verus! {

// ----- choosing -----

/// The choice qualifies, no other that qualifies has a larger key, and those
/// with the same key come before it. There is a choice exactly when something
/// qualifies.
pub proof fn law_last_max(n: int, ok: spec_fn(int) -> bool, key: spec_fn(int) -> int)
    ensures
        match crate::theory::plans::last_max(n, ok, key) {
            Some(b) => {
                &&& 0 <= b < n
                &&& ok(b)
                &&& forall|i: int| 0 <= i < n && #[trigger] ok(i) ==> key(i) < key(b) || (key(i) == key(b) && i <= b)
            },
            None => forall|i: int| 0 <= i < n ==> !#[trigger] ok(i),
        },
    decreases n,
{
    if n > 0 {
        law_last_max(n - 1, ok, key);
    }
}

/// Adding a kernel adds its bytes.
pub proof fn lemma_load_push(ks: Seq<Kernel>, k: Kernel)
    ensures
        crate::theory::plans::load(ks.push(k)) == crate::theory::plans::load(ks) + crate::theory::plans::code_len(k),
{
    assert(ks.push(k).drop_last() =~= ks);
}

proof fn lemma_packed(ks: Seq<Kernel>, budget: int, k: int)
    requires
        0 <= k <= ks.len(),
        forall|i: int| 0 <= i < ks.len() ==> crate::theory::plans::code_len(#[trigger] ks[i]) <= budget,
    ensures
        ({
            let (done, cur) = crate::theory::plans::packed(ks, budget, k);
            &&& crate::theory::plans::load(cur) <= budget || cur.len() == 0
            &&& k > 0 ==> cur.len() > 0
            &&& forall|i: int|
                0 <= i < done.len() ==> crate::theory::plans::load(#[trigger] done[i]) <= budget && done[i].len() > 0
            &&& crate::theory::listing::cat(done.len() as int, |i: int| done[i]) + cur == ks.take(k)
        }),
    decreases k,
{
    let (done, cur) = crate::theory::plans::packed(ks, budget, k);
    let f = |i: int| done[i];
    if k <= 0 {
        assert(crate::theory::listing::cat(0, f) =~= Seq::<Kernel>::empty());
        assert(ks.take(0) =~= Seq::<Kernel>::empty());
    } else {
        lemma_packed(ks, budget, k - 1);
        let (d0, c0) = crate::theory::plans::packed(ks, budget, k - 1);
        let x = ks[k - 1];
        let g = |i: int| d0[i];
        assert(ks.take(k) =~= ks.take(k - 1).push(x));
        if crate::theory::plans::load(c0) + crate::theory::plans::code_len(x) > budget && c0.len() > 0 {
            assert(done == d0.push(c0));
            lemma_load_push(Seq::empty(), x);
            assert(Seq::<Kernel>::empty().push(x) =~= seq![x]);
            lemma_cat_ext(d0.len() as int, f, g);
            assert(crate::theory::listing::cat(done.len() as int, f) =~= crate::theory::listing::cat(d0.len() as int, g) + c0);
            assert(crate::theory::listing::cat(done.len() as int, f) + cur =~= ks.take(k));
        } else {
            lemma_load_push(c0, x);
            assert(cur == c0.push(x));
            assert(done == d0);
            assert(crate::theory::listing::cat(done.len() as int, f) + cur =~= ks.take(k));
        }
    }
}

pub proof fn lemma_cat_ext<T>(n: int, f: spec_fn(int) -> Seq<T>, g: spec_fn(int) -> Seq<T>)
    requires
        forall|i: int| 0 <= i < n ==> #[trigger] f(i) == g(i),
    ensures
        crate::theory::listing::cat(n, f) == crate::theory::listing::cat(n, g),
    decreases n,
{
    if n > 0 {
        lemma_cat_ext(n - 1, f, g);
        assert(f(n - 1) == g(n - 1));
    }
}

/// The phases of a device fit its code budget one by one. On a GPU they are
/// the kernels in their order, none of them in an empty phase.
pub proof fn law_phases(d: Dev, ks: Seq<Kernel>)
    requires
        crate::theory::plans::phases(d, ks) is Some,
    ensures
        ({
            let ps = crate::theory::plans::phases(d, ks)->0;
            &&& forall|i: int| 0 <= i < ps.len() ==> crate::theory::plans::load(#[trigger] ps[i]) <= d.code && ps[i].len() > 0
            &&& d.kind == DeviceKind::Gpu ==> crate::theory::listing::cat(ps.len() as int, |i: int| ps[i]) == ks
        }),
{
    let ps = crate::theory::plans::phases(d, ks)->0;
    match d.kind {
        DeviceKind::Cpu => {
            lemma_load_push(Seq::empty(), Kernel::CpuRuntime);
            assert(Seq::<Kernel>::empty().push(Kernel::CpuRuntime) =~= seq![Kernel::CpuRuntime]);
        },
        DeviceKind::Gpu => {
            lemma_packed(ks, d.code, ks.len() as int);
            assert(ks.take(ks.len() as int) =~= ks);
            let (done, cur) = crate::theory::plans::packed(ks, d.code, ks.len() as int);
            let f = |i: int| done[i];
            let g = |i: int| ps[i];
            lemma_cat_ext(done.len() as int, f, g);
            if cur.len() == 0 {
                assert(crate::theory::listing::cat(done.len() as int, f) + cur =~= crate::theory::listing::cat(
                    done.len() as int,
                    f,
                ));
            }
        },
    }
}

/// A device that loads some kernels loads any of them.
pub proof fn lemma_fewer_kernels(d: Dev, ks: Seq<Kernel>, part: Seq<Kernel>)
    requires
        crate::theory::plans::phases(d, ks) is Some,
        forall|i: int| 0 <= i < part.len() ==> ks.contains(#[trigger] part[i]),
    ensures
        crate::theory::plans::phases(d, part) is Some,
{
    if d.kind == DeviceKind::Gpu {
        assert forall|i: int| 0 <= i < part.len() implies crate::theory::plans::code_len(#[trigger] part[i]) <= d.code by {
            let k = ks.index_of(part[i]);
            assert(ks[k] == part[i]);
        }
    }
}

// ----- what states keep -----

/// The bytes of the homes on a device.
pub open spec fn stored(homes: Seq<Place>, d: int) -> int
    decreases homes.len(),
{
    if homes.len() == 0 {
        0
    } else {
        stored(homes.drop_last(), d) + if homes.last().device == d {
            crate::theory::plans::held_bytes(homes.last())
        } else {
            0
        }
    }
}

/// The elements of the parameter homes.
pub open spec fn param_elems(homes: Seq<Place>) -> int
    decreases homes.len(),
{
    if homes.len() == 0 {
        0
    } else {
        let h = homes.last();
        param_elems(homes.drop_last()) + if h.kind == HomeKind::Param {
            crate::theory::plans::area(h.row_begin, h.row_end, h.col_begin, h.col_end)
        } else {
            0
        }
    }
}

/// The bytes of the tape homes.
pub open spec fn tape_bytes(homes: Seq<Place>) -> int
    decreases homes.len(),
{
    if homes.len() == 0 {
        0
    } else {
        tape_bytes(homes.drop_last()) + if homes.last().kind == HomeKind::Tape {
            crate::theory::plans::held_bytes(homes.last())
        } else {
            0
        }
    }
}

pub open spec fn inside(h: Place, row: int, col: int) -> bool {
    h.row_begin <= row < h.row_end && h.col_begin <= col < h.col_end
}

/// How many homes from number `lo` on hold the element.
pub open spec fn covers(homes: Seq<Place>, lo: int, row: int, col: int) -> int
    decreases homes.len(),
{
    if homes.len() == 0 || homes.len() <= lo {
        0
    } else {
        covers(homes.drop_last(), lo, row, col) + if inside(homes.last(), row, col) {
            1int
        } else {
            0int
        }
    }
}

pub open spec fn good_home(h: Place, n: int) -> bool {
    &&& 0 <= h.device < n
    &&& 0 <= h.row_begin <= h.row_end <= u64::MAX
    &&& 0 <= h.col_begin <= h.col_end <= u64::MAX
    &&& 0 <= h.stride <= u64::MAX
    &&& 0 <= crate::theory::plans::held_bytes(h) <= u64::MAX
}

pub open spec fn follows_links(ls: Seq<Leg>, links: Seq<Link>, n: int) -> bool {
    forall|i: int| 0 <= i < ls.len() ==> crate::theory::routes::linked(links, n, (#[trigger] ls[i]).from, ls[i].to)
}

/// From number `at` on, the messages carry the rectangle of a window along a
/// path, hop after hop, from one device to another.
pub open spec fn carried(ls: Seq<Leg>, at: int, path: Seq<int>, kind: HopKind, w: Win, from: int, to: int) -> bool {
    &&& path.len() >= 2
    &&& path[0] == from
    &&& path.last() == to
    &&& 0 <= at && at + path.len() - 1 <= ls.len()
    &&& forall|i: int| 0 <= i < path.len() - 1 ==> #[trigger] ls[at + i] == crate::theory::plans::legs(path, kind, w)[i]
}

/// Where a window runs away from the home of its parameters, the parameters
/// come from there first, and for an update their adjoints. The adjoint goes
/// back there, and so do updated parameters.
#[verifier::opaque]
pub open spec fn delivered(w: Win) -> bool {
    w.param > 0 && w.home != w.device ==> {
        &&& exists|p: Seq<int>| #[trigger] carried(w.inbound, 0, p, HopKind::Param, w, w.home, w.device) && (w.op == Exec::Sgd
            ==> carried(w.inbound, p.len() - 1, p, HopKind::Adjoint, w, w.home, w.device))
        &&& w.pass == Pass::Bwd ==> exists|p: Seq<int>| #[trigger]
            carried(w.outbound, 0, p, HopKind::Adjoint, w, w.device, w.home)
        &&& w.pass == Pass::Fwd && w.op == Exec::Sgd ==> exists|p: Seq<int>| #[trigger]
            carried(w.outbound, 0, p, HopKind::Param, w, w.device, w.home)
    }
}

/// A window that its device can run: the resident bytes fit the buffer, each
/// phase fits the code budget, and the messages follow the links and bring
/// parameters and adjoints to their place.
pub open spec fn good_window(w: Win, ds: Seq<Dev>, links: Seq<Link>) -> bool {
    &&& 0 <= w.device < ds.len()
    &&& 0 <= w.home < ds.len()
    &&& 0 <= w.resident <= ds[w.device].buffer
    &&& forall|i: int| 0 <= i < w.phases.len() ==> crate::theory::plans::load(#[trigger] w.phases[i]) <= ds[w.device].code
    &&& follows_links(w.inbound, links, ds.len() as int)
    &&& follows_links(w.outbound, links, ds.len() as int)
    &&& delivered(w)
}

/// The two windows are one piece of work in its two passes.
pub open spec fn adjoint(f: Win, b: Win) -> bool {
    &&& f.pass == Pass::Fwd
    &&& b.pass == Pass::Bwd
    &&& b == (Win { pass: b.pass, phases: b.phases, inbound: b.inbound, outbound: b.outbound, ..f })
}

pub open spec fn good_devices(ds: Seq<Dev>) -> bool {
    forall|i: int| 0 <= i < ds.len() ==> 0 <= (#[trigger] ds[i]).buffer <= u64::MAX && 0 <= ds[i].code <= u64::MAX
}

impl State {
    /// The bytes add up on each device.
    pub open spec fn balanced(self) -> bool {
        let n = self.count();
        &&& self.free.len() == n
        &&& self.held.len() == n
        &&& self.peak.len() == n
        &&& good_devices(self.devices)
        &&& forall|i: int|
            0 <= i < n ==> {
                &&& 0 <= #[trigger] self.free[i]
                &&& self.free[i] + self.held[i] == self.devices[i].buffer
            }
        &&& forall|i: int| 0 <= i < n ==> 0 <= #[trigger] self.held[i]
        &&& forall|i: int| 0 <= i < n ==> 0 <= #[trigger] self.peak[i] <= self.devices[i].buffer
        &&& forall|i: int| 0 <= i < n ==> #[trigger] self.held[i] == stored(self.homes, i)
        &&& forall|k: int| 0 <= k < self.homes.len() ==> good_home(#[trigger] self.homes[k], n)
    }

    /// Only tapes follow a mark.
    pub open spec fn marked(self) -> bool {
        &&& forall|i: int| 0 <= i < self.marks.len() ==> 0 <= #[trigger] self.marks[i] <= self.homes.len()
        &&& forall|i: int, j: int| 0 <= i <= j < self.marks.len() ==> #[trigger] self.marks[i] <= #[trigger] self.marks[j]
        &&& forall|i: int, k: int|
            0 <= i < self.marks.len() && self.marks[i] <= k < self.homes.len() ==> #[trigger] self.marks[i] >= 0 && (
            #[trigger] self.homes[k]).kind == HomeKind::Tape
    }

    /// The windows are in order: each forward window has its adjoint.
    pub open spec fn scheduled(self) -> bool {
        let ds = self.devices;
        let links = self.links;
        &&& self.windows.len() == self.later.len()
        &&& forall|i: int| 0 <= i < self.windows.len() ==> good_window(#[trigger] self.windows[i], ds, links)
        &&& forall|i: int| 0 <= i < self.windows.len() ==> (#[trigger] self.windows[i]).op != Exec::Sgd
        &&& forall|i: int| 0 <= i < self.later.len() ==> good_window(#[trigger] self.later[i], ds, links)
        &&& forall|i: int| 0 <= i < self.windows.len() ==> adjoint(#[trigger] self.windows[i], self.later[i])
        &&& forall|i: int|
            0 <= i < self.tail.len() ==> {
                &&& good_window(#[trigger] self.tail[i], ds, links)
                &&& self.tail[i].op == Exec::Sgd
                &&& self.tail[i].pass == Pass::Fwd
            }
        &&& forall|i: int|
            0 <= i < self.transfers.len() ==> crate::theory::routes::linked(
                links,
                ds.len() as int,
                (#[trigger] self.transfers[i]).from,
                self.transfers[i].to,
            )
    }

    pub open spec fn sound(self) -> bool {
        &&& self.count() > 0
        &&& self.balanced()
        &&& self.marked()
        &&& self.scheduled()
    }

    /// Only windows were added.
    pub open spec fn same_homes(self, t: State) -> bool {
        &&& t.devices == self.devices
        &&& t.links == self.links
        &&& t.free == self.free
        &&& t.held == self.held
        &&& t.homes == self.homes
        &&& t.marks == self.marks
    }

    /// Only homes were added or taken back.
    pub open spec fn same_windows(self, t: State) -> bool {
        &&& t.devices == self.devices
        &&& t.links == self.links
        &&& t.windows == self.windows
        &&& t.later == self.later
        &&& t.transfers == self.transfers
        &&& t.tail == self.tail
        &&& t.transfers == self.transfers
    }
}

pub proof fn lemma_fresh(ds: Seq<Dev>, links: Seq<Link>)
    requires
        ds.len() > 0,
        good_devices(ds),
    ensures
        State::fresh(ds, links).sound(),
{
    assert forall|i: int| 0 <= i < ds.len() implies #[trigger] State::fresh(ds, links).held[i] == stored(
        State::fresh(ds, links).homes,
        i,
    ) by {
    }
}

proof fn lemma_stored_push(homes: Seq<Place>, h: Place, d: int)
    ensures
        stored(homes.push(h), d) == stored(homes, d) + if h.device == d {
            crate::theory::plans::held_bytes(h)
        } else {
            0
        },
        param_elems(homes.push(h)) == param_elems(homes) + if h.kind == HomeKind::Param {
            crate::theory::plans::area(h.row_begin, h.row_end, h.col_begin, h.col_end)
        } else {
            0
        },
        tape_bytes(homes.push(h)) == tape_bytes(homes) + if h.kind == HomeKind::Tape {
            crate::theory::plans::held_bytes(h)
        } else {
            0
        },
{
    assert(homes.push(h).drop_last() =~= homes);
}

proof fn lemma_stored_nonneg(homes: Seq<Place>, n: int, d: int)
    requires
        forall|k: int| 0 <= k < homes.len() ==> good_home(#[trigger] homes[k], n),
    ensures
        stored(homes, d) >= 0,
    decreases homes.len(),
{
    if homes.len() > 0 {
        let rest = homes.drop_last();
        assert forall|k: int| 0 <= k < rest.len() implies good_home(#[trigger] rest[k], n) by {
            assert(rest[k] == homes[k]);
        }
        lemma_stored_nonneg(rest, n, d);
        assert(good_home(homes[homes.len() - 1], n));
    }
}

/// Putting a home where there is room keeps the balance.
pub proof fn lemma_put(s: State, h: Place, bytes: int)
    requires
        s.sound(),
        good_home(h, s.count()),
        bytes == crate::theory::plans::held_bytes(h),
        bytes <= s.free[h.device],
        h.kind == HomeKind::Tape || s.marks.len() == 0,
    ensures
        s.put(h, bytes).sound(),
        s.same_windows(s.put(h, bytes)),
        s.peak == s.held ==> s.put(h, bytes).peak == s.put(h, bytes).held,
        s.put(h, bytes).marks == s.marks,
{
    assert(bytes >= 0);
    if s.peak == s.held {
        assert(s.put(h, bytes).peak =~= s.put(h, bytes).held);
    }
    let t = s.put(h, bytes);
    let n = s.count();
    assert forall|i: int| 0 <= i < n implies {
        &&& 0 <= #[trigger] t.free[i]
        &&& t.free[i] + t.held[i] == t.devices[i].buffer
        &&& 0 <= t.held[i]
        &&& 0 <= t.peak[i] <= t.devices[i].buffer
        &&& t.held[i] == stored(t.homes, i)
    } by {
        lemma_stored_push(s.homes, h, i);
        assert(s.held[i] == stored(s.homes, i));
        assert(0 <= s.free[i]);
        assert(0 <= s.peak[i]);
        assert(s.free[h.device] >= 0 && s.held[h.device] >= 0 && s.peak[h.device] >= 0);
    }
    assert(t.balanced()) by {
        assert forall|i: int| 0 <= i < n implies 0 <= #[trigger] t.held[i] by {
            assert(0 <= t.free[i]);
        }
        assert forall|i: int| 0 <= i < n implies 0 <= #[trigger] t.peak[i] <= t.devices[i].buffer by {
            assert(0 <= t.free[i]);
        }
        assert forall|i: int| 0 <= i < n implies #[trigger] t.held[i] == stored(t.homes, i) by {
            assert(0 <= t.free[i]);
        }
        assert forall|k: int| 0 <= k < t.homes.len() implies good_home(#[trigger] t.homes[k], n) by {
            if k < s.homes.len() {
                assert(t.homes[k] == s.homes[k]);
            }
        }
    }
    assert(t.marked()) by {
        assert forall|i: int, k: int|
            0 <= i < t.marks.len() && t.marks[i] <= k < t.homes.len() implies #[trigger] t.marks[i] >= 0 && (
        #[trigger] t.homes[k]).kind == HomeKind::Tape by {
            if k < s.homes.len() {
                assert(t.homes[k] == s.homes[k]);
                assert(s.marks[i] >= 0 && s.homes[k].kind == HomeKind::Tape);
            }
        }
    }
}

proof fn lemma_pick(s: State, need: int)
    ensures
        s.pick(need) matches Some(d) ==> 0 <= d < s.count() && s.free[d] >= need,
{
    let free = s.free;
    let devices = s.devices;
    law_last_max(s.count(), |i: int| devices[i].kind == DeviceKind::Cpu && free[i] >= need, |i: int| free[i]);
    law_last_max(s.count(), |i: int| free[i] >= need, |i: int| free[i]);
}

/// The element size of a home.
pub open spec fn elem_size(k: HomeKind) -> int {
    match k {
        HomeKind::Param => 4,
        HomeKind::Tape => 1,
    }
}

/// A piece of a row that fits is a good home.
pub proof fn lemma_cols_piece(s: State, kind: HomeKind, name: Seq<char>, row: int, cols: int, col: int)
    requires
        s.sound(),
        0 <= row < u64::MAX,
        0 <= col < cols <= u64::MAX,
        s.pick(elem_size(kind)) is Some,
    ensures
        ({
            let e = elem_size(kind);
            let d = s.pick(e)->0;
            let take = crate::theory::plans::least(s.free[d] / e, cols - col);
            let h = Place {
                kind,
                name,
                device: d,
                row_begin: row,
                row_end: row + 1,
                col_begin: col,
                col_end: col + take,
                stride: cols,
            };
            &&& 0 <= d < s.count()
            &&& 0 < take <= cols - col
            &&& 0 < take * e <= s.free[d]
            &&& good_home(h, s.count())
            &&& crate::theory::plans::held_bytes(h) == take * e
            &&& crate::theory::plans::area(row, row + 1, col, col + take) == take
        }),
{
    let e = elem_size(kind);
    lemma_pick(s, e);
    let d = s.pick(e)->0;
    let take = crate::theory::plans::least(s.free[d] / e, cols - col);
    assert(s.free[d] <= s.devices[d].buffer) by {
        assert(s.held[d] >= 0);
    }
    let f = s.free[d];
    assert(e == 1 || e == 4);
    assert(f / e >= 1 && (f / e) * e <= f) by (nonlinear_arith)
        requires f >= e, e > 0;
    assert(0 < take * e <= (f / e) * e) by (nonlinear_arith)
        requires 0 < take <= f / e, e > 0;
    assert(1 * take == take) by (nonlinear_arith);
}

/// A block of whole rows that fits is a good home.
pub proof fn lemma_rows_piece(s: State, kind: HomeKind, name: Seq<char>, rows: int, cols: int, row: int)
    requires
        s.sound(),
        0 <= row < rows <= u64::MAX,
        0 < cols <= u64::MAX,
        s.pick(cols * elem_size(kind)) is Some,
    ensures
        ({
            let e = elem_size(kind);
            let d = s.pick(cols * e)->0;
            let fit = crate::theory::plans::most(crate::theory::plans::least(s.free[d] / (cols * e), rows - row), 1);
            let take = crate::theory::plans::least(fit, rows - row);
            let h = Place {
                kind,
                name,
                device: d,
                row_begin: row,
                row_end: row + take,
                col_begin: 0,
                col_end: cols,
                stride: cols,
            };
            &&& 0 <= d < s.count()
            &&& 0 < take <= rows - row
            &&& 0 < take * cols
            &&& take * cols * e <= s.free[d]
            &&& good_home(h, s.count())
            &&& crate::theory::plans::held_bytes(h) == take * cols * e
            &&& crate::theory::plans::area(row, row + take, 0, cols) == take * cols
        }),
{
    let e = elem_size(kind);
    let rb = cols * e;
    lemma_pick(s, rb);
    let d = s.pick(rb)->0;
    let f = s.free[d];
    let fit = crate::theory::plans::most(crate::theory::plans::least(f / rb, rows - row), 1);
    let take = crate::theory::plans::least(fit, rows - row);
    assert(f <= s.devices[d].buffer) by {
        assert(s.held[d] >= 0);
    }
    assert(f / rb >= 1 && (f / rb) * rb <= f) by (nonlinear_arith)
        requires rb > 0, f >= rb;
    let q = f / rb;
    assert(take * rb <= q * rb) by (nonlinear_arith)
        requires take <= q, rb > 0;
    assert(take * cols * e == take * rb) by (nonlinear_arith)
        requires rb == cols * e;
    assert(take * cols > 0) by (nonlinear_arith)
        requires take > 0, cols > 0;
}

pub proof fn lemma_place_cols(s: State, kind: HomeKind, name: Seq<char>, row: int, cols: int, col: int)
    requires
        s.sound(),
        0 <= row < u64::MAX,
        0 <= col <= cols <= u64::MAX,
        kind == HomeKind::Tape || s.marks.len() == 0,
    ensures
        s.place_cols(kind, name, row, cols, elem_size(kind), col) matches Ok(t) ==> {
            &&& t.sound()
            &&& s.same_windows(t)
            &&& s.peak == s.held ==> t.peak == t.held
            &&& t.marks == s.marks
            &&& kind == HomeKind::Param ==> param_elems(t.homes) == param_elems(s.homes) + (cols - col)
            &&& kind == HomeKind::Tape ==> param_elems(t.homes) == param_elems(s.homes)
            &&& kind == HomeKind::Param ==> tape_bytes(t.homes) == tape_bytes(s.homes)
            &&& kind == HomeKind::Tape ==> tape_bytes(t.homes) == tape_bytes(s.homes) + (cols - col)
            &&& s.homes.len() <= t.homes.len()
            &&& t.homes.take(s.homes.len() as int) == s.homes
            &&& forall|k: int| s.homes.len() <= k < t.homes.len() ==> (#[trigger] t.homes[k]).kind == kind && t.homes[k].name == name
        },
    decreases cols - col,
{
    let e = elem_size(kind);
    if col < cols && s.pick(e) is Some {
        lemma_cols_piece(s, kind, name, row, cols, col);
        let d = s.pick(e)->0;
        let take = crate::theory::plans::least(s.free[d] / e, cols - col);
        let h = Place {
            kind,
            name,
            device: d,
            row_begin: row,
            row_end: row + 1,
            col_begin: col,
            col_end: col + take,
            stride: cols,
        };
        lemma_put(s, h, take * e);
        lemma_stored_push(s.homes, h, 0);
        let p = s.put(h, take * e);
        lemma_place_cols(p, kind, name, row, cols, col + take);
        lemma_prefix(s, p, h, p.place_cols(kind, name, row, cols, e, col + take), kind, name);
    } else {
        assert(s.homes.take(s.homes.len() as int) =~= s.homes);
    }
}

proof fn lemma_prefix(s: State, p: State, h: Place, r: Result<State, Fault>, kind: HomeKind, name: Seq<char>)
    requires
        p.homes == s.homes.push(h),
        h.kind == kind,
        h.name == name,
        r matches Ok(t) ==> {
            &&& p.homes.len() <= t.homes.len()
            &&& t.homes.take(p.homes.len() as int) == p.homes
            &&& forall|k: int| p.homes.len() <= k < t.homes.len() ==> (#[trigger] t.homes[k]).kind == kind && t.homes[k].name == name
        },
    ensures
        r matches Ok(t) ==> {
            &&& s.homes.len() <= t.homes.len()
            &&& t.homes.take(s.homes.len() as int) == s.homes
            &&& forall|k: int| s.homes.len() <= k < t.homes.len() ==> (#[trigger] t.homes[k]).kind == kind && t.homes[k].name == name
        },
{
    if let Ok(t) = r {
        let n = s.homes.len() as int;
        assert(t.homes.take(n) =~= s.homes) by {
            assert forall|k: int| 0 <= k < n implies t.homes[k] == #[trigger] s.homes[k] by {
                assert(t.homes.take(n + 1)[k] == p.homes[k]);
            }
        }
        assert(t.homes.take(n + 1)[n] == p.homes[n]);
    }
}

pub proof fn lemma_place_rows(s: State, kind: HomeKind, name: Seq<char>, rows: int, cols: int, row: int)
    requires
        s.sound(),
        0 <= row <= rows <= u64::MAX,
        0 < cols <= u64::MAX || row == rows,
        kind == HomeKind::Tape || s.marks.len() == 0,
    ensures
        s.place_rows(kind, name, rows, cols, elem_size(kind), row) matches Ok(t) ==> {
            &&& t.sound()
            &&& s.same_windows(t)
            &&& s.peak == s.held ==> t.peak == t.held
            &&& t.marks == s.marks
            &&& kind == HomeKind::Param ==> param_elems(t.homes) == param_elems(s.homes) + (rows - row) * cols
            &&& kind == HomeKind::Tape ==> param_elems(t.homes) == param_elems(s.homes)
            &&& kind == HomeKind::Param ==> tape_bytes(t.homes) == tape_bytes(s.homes)
            &&& kind == HomeKind::Tape ==> tape_bytes(t.homes) == tape_bytes(s.homes) + (rows - row) * cols
            &&& s.homes.len() <= t.homes.len()
            &&& t.homes.take(s.homes.len() as int) == s.homes
            &&& forall|k: int| s.homes.len() <= k < t.homes.len() ==> (#[trigger] t.homes[k]).kind == kind && t.homes[k].name == name
        },
    decreases rows - row,
{
    let e = elem_size(kind);
    if row >= rows {
        assert(s.homes.take(s.homes.len() as int) =~= s.homes);
        assert((rows - row) * cols == 0) by (nonlinear_arith)
            requires rows == row;
    } else if s.pick(cols * e) is Some {
        lemma_rows_piece(s, kind, name, rows, cols, row);
        let d = s.pick(cols * e)->0;
        let fit = crate::theory::plans::most(crate::theory::plans::least(s.free[d] / (cols * e), rows - row), 1);
        let take = crate::theory::plans::least(fit, rows - row);
        let h = Place {
            kind,
            name,
            device: d,
            row_begin: row,
            row_end: row + take,
            col_begin: 0,
            col_end: cols,
            stride: cols,
        };
        lemma_put(s, h, take * cols * e);
        lemma_stored_push(s.homes, h, 0);
        let p = s.put(h, take * cols * e);
        lemma_place_rows(p, kind, name, rows, cols, row + take);
        lemma_prefix(s, p, h, p.place_rows(kind, name, rows, cols, e, row + take), kind, name);
        assert((rows - row) * cols == take * cols + (rows - (row + take)) * cols) by (nonlinear_arith);
    } else {
        lemma_place_cols(s, kind, name, row, cols, 0);
        if let Ok(m) = s.place_cols(kind, name, row, cols, e, 0) {
            lemma_place_rows(m, kind, name, rows, cols, row + 1);
            if let Ok(t) = m.place_rows(kind, name, rows, cols, e, row + 1) {
                let n = s.homes.len() as int;
                assert(t.homes.take(n) =~= s.homes) by {
                    assert forall|k: int| 0 <= k < n implies t.homes[k] == #[trigger] s.homes[k] by {
                        assert(t.homes.take(m.homes.len() as int)[k] == m.homes[k]);
                        assert(m.homes.take(n)[k] == s.homes[k]);
                    }
                }
                assert forall|k: int| n <= k < t.homes.len() implies (#[trigger] t.homes[k]).kind == kind && t.homes[k].name
                    == name by {
                    if k < m.homes.len() {
                        assert(t.homes.take(m.homes.len() as int)[k] == m.homes[k]);
                    }
                }
                assert((rows - row) * cols == cols + (rows - (row + 1)) * cols) by (nonlinear_arith);
            }
        }
    }
}


// ----- parameters and tapes -----

/// A matrix that can be staged: its numbers are words, and each row that it
/// has holds something.
pub open spec fn good_mat(m: Mat) -> bool {
    &&& 0 <= m.rows <= u64::MAX
    &&& 0 <= m.cols <= u64::MAX
    &&& m.rows > 0 ==> m.cols > 0
    &&& 0 <= m.batch
    &&& 0 <= m.extra
    &&& m.fwd.len() > 0
}

pub proof fn lemma_place_param(s: State, m: Mat)
    requires
        s.sound(),
        s.marks.len() == 0,
        good_mat(m),
    ensures
        s.place_param(m) matches Ok(t) ==> {
            &&& t.sound()
            &&& s.same_windows(t)
            &&& s.peak == s.held ==> t.peak == t.held
            &&& t.marks == s.marks
            &&& param_elems(t.homes) == param_elems(s.homes) + m.rows * m.cols
            &&& tape_bytes(t.homes) == tape_bytes(s.homes)
            &&& s.homes.len() <= t.homes.len()
            &&& t.homes.take(s.homes.len() as int) == s.homes
            &&& forall|k: int|
                s.homes.len() <= k < t.homes.len() ==> (#[trigger] t.homes[k]).kind == HomeKind::Param && t.homes[k].name
                    == m.name
        },
{
    lemma_place_rows(s, HomeKind::Param, m.name, m.rows, m.cols, 0);
}

/// Every parameter home belongs to one of the matrices.
pub open spec fn owned(homes: Seq<Place>, ms: Seq<Mat>) -> bool {
    forall|k: int|
        0 <= k < homes.len() && (#[trigger] homes[k]).kind == HomeKind::Param ==> 0 <= crate::theory::plans::named(
            ms,
            homes[k].name,
            0,
        ) < ms.len()
}

pub proof fn lemma_named(ms: Seq<Mat>, i: int, k: int)
    requires
        0 <= k <= i < ms.len(),
    ensures
        k <= crate::theory::plans::named(ms, ms[i].name, k) <= i,
        ms[crate::theory::plans::named(ms, ms[i].name, k)].name == ms[i].name,
    decreases i - k,
{
    if ms[k].name != ms[i].name {
        lemma_named(ms, i, k + 1);
    }
}

pub proof fn lemma_place_params(s: State, ms: Seq<Mat>, k: int)
    requires
        s.sound(),
        s.marks.len() == 0,
        0 <= k <= ms.len(),
        forall|i: int| 0 <= i < ms.len() ==> good_mat(#[trigger] ms[i]),
        param_elems(s.homes) == crate::theory::plans::mats_len(ms, k),
        owned(s.homes, ms),
        forall|i: int| 0 <= i < s.homes.len() ==> (#[trigger] s.homes[i]).kind == HomeKind::Param,
    ensures
        s.place_params(ms, k) matches Ok(t) ==> {
            &&& t.sound()
            &&& s.same_windows(t)
            &&& s.peak == s.held ==> t.peak == t.held
            &&& t.marks == s.marks
            &&& param_elems(t.homes) == crate::theory::plans::mats_len(ms, ms.len() as int)
            &&& tape_bytes(t.homes) == tape_bytes(s.homes)
            &&& owned(t.homes, ms)
            &&& forall|i: int| 0 <= i < t.homes.len() ==> (#[trigger] t.homes[i]).kind == HomeKind::Param
        },
    decreases ms.len() - k,
{
    if k < ms.len() {
        assert(good_mat(ms[k]));
        lemma_place_param(s, ms[k]);
        if let Ok(t) = s.place_param(ms[k]) {
            let n = s.homes.len() as int;
            assert forall|i: int| 0 <= i < t.homes.len() implies {
                &&& (#[trigger] t.homes[i]).kind == HomeKind::Param
                &&& 0 <= crate::theory::plans::named(ms, t.homes[i].name, 0) < ms.len()
            } by {
                if i < n {
                    assert(t.homes.take(n)[i] == s.homes[i]);
                } else {
                    lemma_named(ms, k, 0);
                }
            }
            lemma_place_params(t, ms, k + 1);
        }
    }
}

pub proof fn lemma_place_tape(s: State, name: Seq<char>, bytes: int)
    requires
        s.sound(),
        0 <= bytes <= u64::MAX,
    ensures
        s.place_tape(name, bytes) matches Ok(t) ==> {
            &&& t.sound()
            &&& s.same_windows(t)
            &&& s.peak == s.held ==> t.peak == t.held
            &&& t.marks == s.marks.push(s.homes.len() as int)
            &&& param_elems(t.homes) == param_elems(s.homes)
            &&& tape_bytes(t.homes) == tape_bytes(s.homes) + bytes
            &&& s.homes.len() <= t.homes.len()
            &&& t.homes.take(s.homes.len() as int) == s.homes
            &&& forall|k: int| s.homes.len() <= k < t.homes.len() ==> (#[trigger] t.homes[k]).kind == HomeKind::Tape
        },
{
    let n = s.homes.len() as int;
    if bytes == 0 {
        assert(s.homes.take(n) =~= s.homes);
        let t = State { marks: s.marks.push(n), ..s };
        assert(t.marked()) by {
            assert forall|i: int| 0 <= i < t.marks.len() implies 0 <= #[trigger] t.marks[i] <= t.homes.len() by {
                if i < s.marks.len() {
                    assert(t.marks[i] == s.marks[i]);
                }
            }
            assert forall|i: int, k: int|
                0 <= i < t.marks.len() && t.marks[i] <= k < t.homes.len() implies #[trigger] t.marks[i] >= 0 && (
            #[trigger] t.homes[k]).kind == HomeKind::Tape by {
                if i < s.marks.len() {
                    assert(t.marks[i] == s.marks[i]);
                }
            }
        }
    } else {
        lemma_place_rows(s, HomeKind::Tape, name, 1, bytes, 0);
        if let Ok(m) = s.place_rows(HomeKind::Tape, name, 1, bytes, 1, 0) {
            let t = State { marks: m.marks.push(n), ..m };
            assert(t.marked()) by {
                assert forall|i: int| 0 <= i < t.marks.len() implies 0 <= #[trigger] t.marks[i] <= t.homes.len() by {
                    if i < s.marks.len() {
                        assert(t.marks[i] == m.marks[i]);
                    }
                }
                assert forall|i: int, k: int|
                    0 <= i < t.marks.len() && t.marks[i] <= k < t.homes.len() implies #[trigger] t.marks[i] >= 0 && (
                #[trigger] t.homes[k]).kind == HomeKind::Tape by {
                    if i < s.marks.len() {
                        assert(t.marks[i] == m.marks[i]);
                        assert(m.marks[i] >= 0 && m.homes[k].kind == HomeKind::Tape);
                    }
                }
            }
        }
    }
}

/// The homes before the first mark are parameters.
pub open spec fn params_first(s: State) -> bool {
    forall|k: int|
        0 <= k < s.homes.len() && (s.marks.len() == 0 || k < s.marks[0]) ==> (#[trigger] s.homes[k]).kind == HomeKind::Param
}

pub proof fn lemma_owned_after(s: State, t: State, ms: Seq<Mat>)
    requires
        owned(s.homes, ms),
        s.homes.len() <= t.homes.len(),
        t.homes.take(s.homes.len() as int) == s.homes,
        forall|k: int| s.homes.len() <= k < t.homes.len() ==> (#[trigger] t.homes[k]).kind == HomeKind::Tape,
        params_first(s),
        t.marks == s.marks.push(s.homes.len() as int),
        s.marked(),
    ensures
        owned(t.homes, ms),
        params_first(t),
{
    let n = s.homes.len() as int;
    assert forall|k: int| 0 <= k < t.homes.len() && (#[trigger] t.homes[k]).kind == HomeKind::Param implies 0
        <= crate::theory::plans::named(ms, t.homes[k].name, 0) < ms.len() by {
        if k < n {
            assert(t.homes.take(n)[k] == s.homes[k]);
        }
    }
    assert forall|k: int| 0 <= k < t.homes.len() && k < t.marks[0] implies (#[trigger] t.homes[k]).kind == HomeKind::Param by {
        if s.marks.len() > 0 {
            assert(t.marks[0] == s.marks[0]);
            assert(s.marks[0] <= n);
        }
        assert(t.homes.take(n)[k] == s.homes[k]);
    }
}

pub proof fn lemma_place_tapes(s: State, ms: Seq<Mat>, c: MixtralConfig, n: int, seq: int, l: int)
    requires
        s.sound(),
        0 <= l,
        c.layers > 0 ==> 0 <= crate::theory::plans::tape_need(c, n, seq) <= u64::MAX,
        owned(s.homes, ms),
        params_first(s),
    ensures
        s.place_tapes(c, n, seq, l) matches Ok(t) ==> {
            &&& t.sound()
            &&& s.same_windows(t)
            &&& s.peak == s.held ==> t.peak == t.held
            &&& param_elems(t.homes) == param_elems(s.homes)
            &&& l <= c.layers ==> tape_bytes(t.homes) == tape_bytes(s.homes) + (c.layers - l) * crate::theory::plans::tape_need(
                c,
                n,
                seq,
            )
            &&& owned(t.homes, ms)
            &&& params_first(t)
        },
    decreases c.layers - l,
{
    let none = crate::theory::plans::tape_need(c, n, seq);
    assert(0 * none == 0) by (nonlinear_arith);
    if l < c.layers {
        let name = crate::theory::plans::layer_name("layer-$a"@, l);
        lemma_place_tape(s, name, crate::theory::plans::tape_need(c, n, seq));
        if let Ok(t) = s.place_tape(name, crate::theory::plans::tape_need(c, n, seq)) {
            lemma_owned_after(s, t, ms);
            let more = c.layers - l;
            let each = crate::theory::plans::tape_need(c, n, seq);
            assert(more * each == (more - 1) * each + each) by (nonlinear_arith);
            lemma_place_tapes(t, ms, c, n, seq, l + 1);
        }
    }
}

/// One home taken back.
pub proof fn lemma_drop_home(s: State)
    requires
        s.sound(),
        s.homes.len() > 0,
        s.homes.last().kind == HomeKind::Tape,
    ensures
        ({
            let h = s.homes.last();
            let d = h.device;
            let b = crate::theory::plans::held_bytes(h);
            let t = State {
                free: s.free.update(d, s.free[d] + b),
                held: s.held.update(d, s.held[d] - b),
                homes: s.homes.drop_last(),
                marks: Seq::empty(),
                ..s
            };
            &&& 0 <= b <= s.held[d]
            &&& s.free[d] + b <= u64::MAX
            &&& t.sound()
            &&& param_elems(t.homes) == param_elems(s.homes)
        }),
{
    let h = s.homes.last();
    let d = h.device;
    let b = crate::theory::plans::held_bytes(h);
    let n = s.count();
    let rest = s.homes.drop_last();
    assert(good_home(s.homes[s.homes.len() - 1], n));
    assert forall|k: int| 0 <= k < rest.len() implies good_home(#[trigger] rest[k], n) by {
        assert(rest[k] == s.homes[k]);
    }
    let t = State { free: s.free.update(d, s.free[d] + b), held: s.held.update(d, s.held[d] - b), homes: rest, marks: Seq::empty(), ..s };
    lemma_stored_nonneg(rest, n, d);
    assert(s.held[d] == stored(s.homes, d));
    assert forall|i: int| 0 <= i < n implies #[trigger] t.held[i] == stored(t.homes, i) && 0 <= t.held[i] by {
        assert(s.held[i] == stored(s.homes, i));
        lemma_stored_nonneg(rest, n, i);
    }
    assert forall|i: int| 0 <= i < n implies 0 <= #[trigger] t.free[i] && t.free[i] + t.held[i] == t.devices[i].buffer by {
        assert(0 <= s.free[i]);
        assert(t.held[i] >= 0);
    }
    assert(s.free[d] + s.held[d] == s.devices[d].buffer);
    assert(t.balanced());
}

/// The homes after a mark taken back, one by one.
pub proof fn lemma_drop_homes(s: State, mark: int)
    requires
        s.sound(),
        s.marks.len() == 0,
        0 <= mark,
        forall|k: int| mark <= k < s.homes.len() ==> (#[trigger] s.homes[k]).kind == HomeKind::Tape,
    ensures
        ({
            let t = s.drop_homes(mark);
            &&& t.sound()
            &&& s.same_windows(t)
            &&& t.peak == s.peak
            &&& t.marks.len() == 0
            &&& param_elems(t.homes) == param_elems(s.homes)
            &&& t.homes == s.homes.take(crate::theory::plans::least(mark, s.homes.len() as int))
        }),
    decreases s.homes.len(),
{
    if s.homes.len() == 0 || s.homes.len() <= mark {
        assert(s.homes.take(s.homes.len() as int) =~= s.homes);
    } else {
        let h = s.homes.last();
        let d = h.device;
        let b = crate::theory::plans::held_bytes(h);
        assert(s.homes[s.homes.len() - 1].kind == HomeKind::Tape);
        lemma_drop_home(s);
        let t = State {
            free: s.free.update(d, s.free[d] + b),
            held: s.held.update(d, s.held[d] - b),
            homes: s.homes.drop_last(),
            marks: Seq::empty(),
            ..s
        };
        assert(s.marks =~= Seq::<int>::empty());
        assert forall|k: int| mark <= k < t.homes.len() implies (#[trigger] t.homes[k]).kind == HomeKind::Tape by {
            assert(t.homes[k] == s.homes[k]);
        }
        lemma_drop_homes(t, mark);
        assert(t.homes.take(crate::theory::plans::least(mark, t.homes.len() as int)) =~= s.homes.take(mark));
    }
}

/// Marks do not matter for taking homes back.
pub proof fn lemma_drop_unmarked(s: State, mark: int)
    ensures
        ({
            let u = State { marks: Seq::empty(), ..s };
            s.drop_homes(mark) == (State { marks: s.marks, ..u.drop_homes(mark) })
        }),
    decreases s.homes.len(),
{
    let u = State { marks: Seq::empty(), ..s };
    if s.homes.len() == 0 || s.homes.len() <= mark {
    } else {
        let h = s.homes.last();
        let d = h.device;
        let r = State { homes: s.homes.drop_last(), ..s };
        let t = if h.kind == HomeKind::Tape {
            State {
                free: s.free.update(d, s.free[d] + crate::theory::plans::held_bytes(h)),
                held: s.held.update(d, s.held[d] - crate::theory::plans::held_bytes(h)),
                ..r
            }
        } else {
            r
        };
        lemma_drop_unmarked(t, mark);
    }
}

/// Taking one tape back keeps the balance.
pub proof fn lemma_release_one(s: State)
    requires
        s.sound(),
        s.marks.len() > 0,
    ensures
        ({
            let u = State { marks: s.marks.drop_last(), ..s };
            let t = u.drop_homes(s.marks.last());
            &&& t.sound()
            &&& t.marks == s.marks.drop_last()
            &&& s.same_windows(t)
            &&& t.peak == s.peak
            &&& param_elems(t.homes) == param_elems(s.homes)
            &&& t.homes == s.homes.take(s.marks.last())
        }),
{
    let mark = s.marks.last();
    let u = State { marks: s.marks.drop_last(), ..s };
    let v = State { marks: Seq::empty(), ..s };
    lemma_drop_unmarked(u, mark);
    assert(s.marks[s.marks.len() - 1] == mark);
    assert forall|k: int| mark <= k < v.homes.len() implies (#[trigger] v.homes[k]).kind == HomeKind::Tape by {
        assert(s.marks[s.marks.len() - 1] >= 0 && s.homes[k].kind == HomeKind::Tape);
    }
    lemma_drop_homes(v, mark);
    let w = v.drop_homes(mark);
    let t = u.drop_homes(mark);
    assert(t == (State { marks: u.marks, ..w }));
    assert(mark <= s.homes.len());
    assert forall|i: int| 0 <= i < t.marks.len() implies 0 <= #[trigger] t.marks[i] <= t.homes.len() by {
        assert(t.marks[i] == s.marks[i]);
        assert(s.marks[i] <= s.marks[s.marks.len() - 1]);
    }
    assert forall|i: int, j: int| 0 <= i <= j < t.marks.len() implies #[trigger] t.marks[i] <= #[trigger] t.marks[j] by {
        assert(s.marks[i] <= s.marks[j]);
    }
    assert forall|i: int, k: int| 0 <= i < t.marks.len() && t.marks[i] <= k < t.homes.len() implies #[trigger] t.marks[i] >= 0 && (
    #[trigger] t.homes[k]).kind == HomeKind::Tape by {
        assert(t.marks[i] == s.marks[i]);
        assert(t.homes[k] == s.homes[k]);
        assert(s.marks[i] >= 0 && s.homes[k].kind == HomeKind::Tape);
    }
}

/// Taking every tape back keeps the balance, and leaves the homes that were
/// there before the first tape.
pub proof fn lemma_release(s: State)
    requires
        s.sound(),
    ensures
        ({
            let t = s.release();
            &&& t.sound()
            &&& t.marks.len() == 0
            &&& s.same_windows(t)
            &&& t.peak == s.peak
            &&& param_elems(t.homes) == param_elems(s.homes)
            &&& t.homes == if s.marks.len() == 0 {
                s.homes
            } else {
                s.homes.take(s.marks[0])
            }
        }),
    decreases s.marks.len(),
{
    if s.marks.len() > 0 {
        lemma_release_one(s);
        let u = State { marks: s.marks.drop_last(), ..s };
        let t = u.drop_homes(s.marks.last());
        assert(t == (State { marks: u.marks, ..t }));
        lemma_release(t);
        if s.marks.len() > 1 {
            assert(s.marks[0] <= s.marks[s.marks.len() - 1]);
            assert(s.marks[s.marks.len() - 1] <= s.homes.len());
            assert(t.homes.take(s.marks[0]) =~= s.homes.take(s.marks[0]));
        }
    }
}

// ----- each element has one home -----

proof fn lemma_covers_push(homes: Seq<Place>, h: Place, lo: int, row: int, col: int)
    requires
        lo <= homes.len(),
    ensures
        covers(homes.push(h), lo, row, col) == covers(homes, lo, row, col) + if inside(h, row, col) {
            1int
        } else {
            0int
        },
{
    assert(homes.push(h).drop_last() =~= homes);
}

proof fn lemma_cols_cover(s: State, name: Seq<char>, row: int, cols: int, col: int, lo: int, r: int, c: int)
    requires
        s.sound(),
        s.marks.len() == 0,
        0 <= row < u64::MAX,
        0 <= col <= cols <= u64::MAX,
        lo <= s.homes.len(),
    ensures
        s.place_cols(HomeKind::Param, name, row, cols, 4, col) matches Ok(t) ==> covers(t.homes, lo, r, c) == covers(
            s.homes,
            lo,
            r,
            c,
        ) + if r == row && col <= c < cols {
            1int
        } else {
            0int
        },
    decreases cols - col,
{
    if col < cols && s.pick(4) is Some {
        lemma_cols_piece(s, HomeKind::Param, name, row, cols, col);
        let d = s.pick(4)->0;
        let take = crate::theory::plans::least(s.free[d] / 4, cols - col);
        let h = Place {
            kind: HomeKind::Param,
            name,
            device: d,
            row_begin: row,
            row_end: row + 1,
            col_begin: col,
            col_end: col + take,
            stride: cols,
        };
        lemma_put(s, h, take * 4);
        lemma_covers_push(s.homes, h, lo, r, c);
        lemma_cols_cover(s.put(h, take * 4), name, row, cols, col + take, lo, r, c);
    }
}

proof fn lemma_rows_cover(s: State, name: Seq<char>, rows: int, cols: int, row: int, lo: int, r: int, c: int)
    requires
        s.sound(),
        s.marks.len() == 0,
        0 <= row <= rows <= u64::MAX,
        0 < cols <= u64::MAX || row == rows,
        lo <= s.homes.len(),
    ensures
        s.place_rows(HomeKind::Param, name, rows, cols, 4, row) matches Ok(t) ==> covers(t.homes, lo, r, c) == covers(
            s.homes,
            lo,
            r,
            c,
        ) + if row <= r < rows && 0 <= c < cols {
            1int
        } else {
            0int
        },
    decreases rows - row,
{
    if row < rows {
        if s.pick(cols * 4) is Some {
            lemma_rows_piece(s, HomeKind::Param, name, rows, cols, row);
            let d = s.pick(cols * 4)->0;
            let fit = crate::theory::plans::most(crate::theory::plans::least(s.free[d] / (cols * 4), rows - row), 1);
            let take = crate::theory::plans::least(fit, rows - row);
            let h = Place {
                kind: HomeKind::Param,
                name,
                device: d,
                row_begin: row,
                row_end: row + take,
                col_begin: 0,
                col_end: cols,
                stride: cols,
            };
            lemma_put(s, h, take * cols * 4);
            lemma_covers_push(s.homes, h, lo, r, c);
            lemma_rows_cover(s.put(h, take * cols * 4), name, rows, cols, row + take, lo, r, c);
        } else {
            lemma_place_cols(s, HomeKind::Param, name, row, cols, 0);
            lemma_cols_cover(s, name, row, cols, 0, lo, r, c);
            if let Ok(m) = s.place_cols(HomeKind::Param, name, row, cols, 4, 0) {
                lemma_rows_cover(m, name, rows, cols, row + 1, lo, r, c);
            }
        }
    }
}

/// Placing a matrix gives each of its elements exactly one home, and gives
/// no home to anything outside the matrix.
pub proof fn law_each_element_has_one_home(s: State, m: Mat, row: int, col: int)
    requires
        s.sound(),
        s.marks.len() == 0,
        good_mat(m),
    ensures
        s.place_param(m) matches Ok(t) ==> covers(t.homes, s.homes.len() as int, row, col) == if 0 <= row < m.rows && 0 <= col
            < m.cols {
            1int
        } else {
            0int
        },
{
    lemma_rows_cover(s, m.name, m.rows, m.cols, 0, s.homes.len() as int, row, col);
}

// ----- messages and windows -----

pub proof fn lemma_route_links(s: State, from: int, to: int, bytes: int)
    requires
        s.free.len() == s.count(),
        0 <= from,
        0 <= to,
        0 <= bytes,
    ensures
        s.route(from, to, bytes) matches Ok(p) ==> p.len() >= 1 && forall|i: int|
            0 <= i < p.len() - 1 ==> crate::theory::routes::linked(s.links, s.count(), #[trigger] p[i], p[i + 1]),
{
    let t = s.trip(from, to, bytes);
    if from != to && bytes > 0 && from < s.count() && to < s.count() {
        crate::theory::routes::law_shortest_route(t, Seq::empty());
    }
}

proof fn lemma_legs(s: State, p: Seq<int>, kind: HopKind, w: Win)
    requires
        p.len() >= 1,
        forall|i: int| 0 <= i < p.len() - 1 ==> crate::theory::routes::linked(s.links, s.count(), #[trigger] p[i], p[i + 1]),
    ensures
        follows_links(crate::theory::plans::legs(p, kind, w), s.links, s.count()),
{
    let ls = crate::theory::plans::legs(p, kind, w);
    assert forall|i: int| 0 <= i < ls.len() implies crate::theory::routes::linked(
        s.links,
        s.count(),
        (#[trigger] ls[i]).from,
        ls[i].to,
    ) by {
        assert(ls[i].from == p[i]);
    }
}

pub proof fn lemma_activation_home(s: State, bytes: int)
    ensures
        s.activation_home(bytes) matches Some(h) ==> 0 <= h < s.count() && s.free[h] >= bytes,
{
    let free = s.free;
    let devices = s.devices;
    law_last_max(
        s.count(),
        |i: int| free[i] >= bytes,
        |i: int|
            free[i] * 2 + if devices[i].kind == DeviceKind::Cpu {
                1int
            } else {
                0int
            },
    );
}

pub proof fn lemma_messages(s: State, w: Win, inbound: bool)
    requires
        s.free.len() == s.count(),
        0 <= w.device,
        0 <= w.home,
        0 <= w.tape,
    ensures
        s.messages(w, inbound) matches Ok(ls) ==> follows_links(ls, s.links, s.count()),
{
    lemma_activation_home(s, w.tape);
    if w.param > 0 {
        lemma_route_links(s, w.home, w.device, w.param);
        lemma_route_links(s, w.device, w.home, w.param);
        if let Ok(p) = s.route(w.home, w.device, w.param) {
            lemma_legs(s, p, HopKind::Param, w);
            lemma_legs(s, p, HopKind::Adjoint, w);
        }
        if let Ok(p) = s.route(w.device, w.home, w.param) {
            lemma_legs(s, p, HopKind::Param, w);
            lemma_legs(s, p, HopKind::Adjoint, w);
        }
    }
    if let Some(h) = s.activation_home(w.tape) {
        lemma_route_links(s, h, w.device, w.tape);
        lemma_route_links(s, w.device, h, w.tape);
        if let Ok(p) = s.route(h, w.device, w.tape) {
            lemma_legs(s, p, HopKind::Activation, w);
        }
        if let Ok(p) = s.route(w.device, h, w.tape) {
            lemma_legs(s, p, HopKind::Activation, w);
        }
    }
}

/// A route between two devices begins and ends there.
proof fn lemma_route_ends(s: State, from: int, to: int, bytes: int)
    requires
        s.free.len() == s.count(),
        0 <= from,
        0 <= to,
        0 < bytes,
        from != to,
    ensures
        s.route(from, to, bytes) matches Ok(p) ==> p.len() >= 2 && p[0] == from && p.last() == to,
{
    let t = s.trip(from, to, bytes);
    if from < s.count() && to < s.count() {
        crate::theory::routes::law_shortest_route(t, Seq::empty());
    }
}

proof fn lemma_delivered(s: State, w: Win)
    requires
        s.free.len() == s.count(),
        0 <= w.device,
        0 <= w.home,
    ensures
        s.annotated(w) matches Ok(x) ==> delivered(x),
{
    reveal(delivered);
    if w.param > 0 && w.home != w.device && s.annotated(w) is Ok {
        let x = s.annotated(w)->Ok_0;
        lemma_route_ends(s, w.home, w.device, w.param);
        lemma_route_ends(s, w.device, w.home, w.param);
        let p = s.route(w.home, w.device, w.param)->Ok_0;
        let n = p.len() - 1;
        let a = crate::theory::plans::legs(p, HopKind::Param, w);
        let b = crate::theory::plans::legs(p, HopKind::Adjoint, w);
        let rest = s.tape_legs(w, true)->Ok_0;
        assert(a == crate::theory::plans::legs(p, HopKind::Param, x));
        assert(b == crate::theory::plans::legs(p, HopKind::Adjoint, x));
        if w.op == Exec::Sgd {
            assert(x.inbound == a + b + rest);
            assert forall|i: int| 0 <= i < n implies #[trigger] x.inbound[n + i] == b[i] by {}
            assert(carried(x.inbound, n, p, HopKind::Adjoint, x, x.home, x.device));
        } else {
            assert(x.inbound == a + rest);
        }
        assert forall|i: int| 0 <= i < n implies #[trigger] x.inbound[0 + i] == a[i] by {}
        assert(carried(x.inbound, 0, p, HopKind::Param, x, x.home, x.device));
        if w.pass == Pass::Bwd || w.op == Exec::Sgd {
            let kind = if w.pass == Pass::Bwd {
                HopKind::Adjoint
            } else {
                HopKind::Param
            };
            let q = s.route(w.device, w.home, w.param)->Ok_0;
            let c = crate::theory::plans::legs(q, kind, w);
            assert(c == crate::theory::plans::legs(q, kind, x));
            assert(x.outbound == c + s.tape_legs(w, false)->Ok_0);
            assert forall|i: int| 0 <= i < q.len() - 1 implies #[trigger] x.outbound[0 + i] == c[i] by {}
            assert(carried(x.outbound, 0, q, kind, x, x.device, x.home));
        }
    }
}

pub proof fn lemma_annotated(s: State, w: Win)
    requires
        s.free.len() == s.count(),
        0 <= w.device,
        0 <= w.home,
        0 <= w.tape,
        forall|i: int|
            0 <= i < s.transfers.len() ==> crate::theory::routes::linked(
                s.links,
                s.count(),
                (#[trigger] s.transfers[i]).from,
                s.transfers[i].to,
            ),
    ensures
        s.annotated(w) matches Ok(x) ==> {
            &&& x == (Win { inbound: x.inbound, outbound: x.outbound, ..w })
            &&& follows_links(x.inbound, s.links, s.count())
            &&& follows_links(x.outbound, s.links, s.count())
            &&& delivered(x)
            &&& forall|i: int|
                0 <= i < s.moved(x).len() ==> crate::theory::routes::linked(
                    s.links,
                    s.count(),
                    (#[trigger] s.moved(x)[i]).from,
                    s.moved(x)[i].to,
                )
        },
{
    lemma_messages(s, w, true);
    lemma_messages(s, w, false);
    lemma_delivered(s, w);
    if let Ok(x) = s.annotated(w) {
        let t = s.moved(x);
        let a = s.transfers.len() as int;
        let b = x.inbound.len() as int;
        assert forall|i: int| 0 <= i < t.len() implies crate::theory::routes::linked(
            s.links,
            s.count(),
            (#[trigger] t[i]).from,
            t[i].to,
        ) by {
            if i < a {
                assert(t[i] == s.transfers[i]);
            } else if i < a + b {
                assert(t[i].from == x.inbound[i - a].from && t[i].to == x.inbound[i - a].to);
            } else {
                assert(t[i].from == x.outbound[i - a - b].from && t[i].to == x.outbound[i - a - b].to);
            }
        }
    }
}

/// A job that can be placed: its sizes are natural numbers, its passes load
/// kernels for which it is placed, and its parameters are on some device.
pub open spec fn good_job(j: Job, n: int) -> bool {
    &&& j.op != Exec::Sgd
    &&& j.home matches Some(h) ==> 0 <= h < n
    &&& 0 <= j.param <= j.footprint
    &&& 0 <= j.tape
    &&& forall|i: int| 0 <= i < j.fwd.len() ==> j.placing.contains(#[trigger] j.fwd[i])
    &&& forall|i: int| 0 <= i < j.bwd.len() ==> j.placing.contains(#[trigger] j.bwd[i])
}

/// The device that the scan finds can load the kernels, and has room for the
/// job.
pub proof fn lemma_scan(s: State, j: Job, k: int)
    requires
        0 <= k <= s.count(),
    ensures
        s.scan(j, k).best matches Some(d) ==> {
            &&& 0 <= d < k
            &&& crate::theory::plans::phases(s.devices[d], j.placing) is Some
            &&& s.resident(d, j) <= s.devices[d].buffer
        },
    decreases k,
{
    if k > 0 {
        lemma_scan(s, j, k - 1);
    }
}

/// Placing a job keeps what states keep, and touches no home.
pub proof fn lemma_work(s: State, j: Job)
    requires
        s.sound(),
        good_job(j, s.count()),
    ensures
        s.work(j) matches Ok(t) ==> t.sound() && s.same_homes(t) && t.tail == s.tail,
{
    lemma_scan(s, j, s.count());
    if let Ok(d) = s.place(j) {
        let r = s.resident(d, j);
        let dev = s.devices[d];
        assert(s.held[d] >= 0);
        lemma_fewer_kernels(dev, j.placing, j.fwd);
        lemma_fewer_kernels(dev, j.placing, j.bwd);
        law_phases(dev, j.fwd);
        law_phases(dev, j.bwd);
        let s0 = s.peaked(d, r);
        assert(s0.balanced()) by {
            assert forall|i: int| 0 <= i < s.count() implies 0 <= #[trigger] s0.peak[i] <= s0.devices[i].buffer by {
                assert(0 <= s.peak[i] <= s.devices[i].buffer);
            }
            assert forall|i: int| 0 <= i < s.count() implies {
                &&& 0 <= #[trigger] s0.free[i]
                &&& s0.free[i] + s0.held[i] == s0.devices[i].buffer
            } by {
                assert(0 <= s.free[i]);
            }
        }
        let w1 = j.window(d, r, Pass::Fwd, crate::theory::plans::phases(dev, j.fwd)->0);
        lemma_annotated(s0, w1);
        if let Ok(s1) = s0.post(w1) {
            let w2 = j.window(d, r, Pass::Bwd, crate::theory::plans::phases(dev, j.bwd)->0);
            lemma_annotated(s1, w2);
            if let Ok(t) = s1.post(w2) {
                let n = s.windows.len() as int;
                assert(t.windows == s.windows.push(s0.annotated(w1)->Ok_0));
                assert(t.later == s.later.push(s1.annotated(w2)->Ok_0));
                assert(good_window(t.windows[n], t.devices, t.links));
                assert(good_window(t.later[n], t.devices, t.links));
                assert(adjoint(t.windows[n], t.later[n]));
                assert(t.scheduled()) by {
                    assert forall|i: int| 0 <= i < t.windows.len() implies good_window(
                        #[trigger] t.windows[i],
                        t.devices,
                        t.links,
                    ) && t.windows[i].op != Exec::Sgd && adjoint(t.windows[i], t.later[i]) by {
                        if i < n {
                            assert(t.windows[i] == s.windows[i]);
                            assert(t.later[i] == s.later[i]);
                        }
                    }
                    assert forall|i: int| 0 <= i < t.later.len() implies good_window(
                        #[trigger] t.later[i],
                        t.devices,
                        t.links,
                    ) by {
                        if i < n {
                            assert(t.later[i] == s.later[i]);
                        }
                    }
                }
                assert(t.balanced());
                assert(t.marked());
            }
        }
    }
}


// ----- tiles -----

pub open spec fn good_task(t: Task) -> bool {
    match t {
        Task::Linear { matrix } => good_mat(matrix),
        Task::Attention { queries, keys, dim, .. } => 0 <= queries && 0 <= keys && 0 <= dim,
        Task::Loss { tokens, vocab } => 0 <= tokens && 0 <= vocab,
    }
}

pub proof fn lemma_needs(a: int, b: int, c: int, mask: bool)
    requires
        0 <= a,
        0 <= b,
        0 <= c,
    ensures
        0 <= a * b,
        0 <= a * c,
        0 <= b * c,
        0 <= b * c * 4 <= crate::theory::plans::linear_need(a, b, c, mask),
        0 <= crate::theory::plans::attention_need(a, b, c),
{
    assert(0 <= a * b) by (nonlinear_arith)
        requires 0 <= a, 0 <= b;
    assert(0 <= a * c) by (nonlinear_arith)
        requires 0 <= a, 0 <= c;
    assert(0 <= b * c) by (nonlinear_arith)
        requires 0 <= b, 0 <= c;
}

pub proof fn lemma_home_of(s: State, name: Seq<char>, row: int, col: int, k: int)
    requires
        s.sound(),
        0 <= k,
    ensures
        0 <= s.home_of(name, row, col, k) < s.count(),
    decreases s.homes.len() - k,
{
    if k < s.homes.len() {
        assert(good_home(s.homes[k], s.count()));
        lemma_home_of(s, name, row, col, k + 1);
    }
}

proof fn lemma_in_both(a: Seq<Kernel>, b: Seq<Kernel>)
    ensures
        forall|i: int| 0 <= i < a.len() ==> (a + b).contains(#[trigger] a[i]),
        forall|i: int| 0 <= i < b.len() ==> (a + b).contains(#[trigger] b[i]),
{
    let ab = a + b;
    assert forall|i: int| 0 <= i < a.len() implies ab.contains(#[trigger] a[i]) by {
        assert(ab[i] == a[i]);
    }
    assert forall|i: int| 0 <= i < b.len() implies ab.contains(#[trigger] b[i]) by {
        assert(ab[a.len() + i] == b[i]);
    }
}

pub proof fn lemma_tile(s: State, t: Task, a: (int, int), b: (int, int), c: (int, int))
    requires
        s.sound(),
        good_task(t),
        0 <= a.0 <= a.1,
        0 <= b.0 <= b.1,
        0 <= c.0 <= c.1,
    ensures
        good_job(s.tile(t, a, b, c), s.count()),
{
    let x = a.1 - a.0;
    let y = b.1 - b.0;
    let z = c.1 - c.0;
    lemma_needs(x, y, z, false);
    lemma_needs(x, y, z, true);
    lemma_needs(x, z, y, false);
    lemma_needs(x, 1, z, false);
    match t {
        Task::Linear { matrix } => {
            lemma_home_of(s, matrix.name, b.0, c.0, 0);
            lemma_in_both(matrix.fwd, matrix.bwd);
        },
        Task::Attention { fwd, bwd, .. } => {
            lemma_in_both(fwd, bwd);
        },
        Task::Loss { .. } => {
            let j = s.tile(t, a, b, c);
            assert(j.placing[0] == Kernel::Ce);
        },
    }
}

pub proof fn lemma_tiles_c(s: State, t: Task, st: (int, int, int), a: (int, int), b: (int, int), c: int)
    requires
        s.sound(),
        good_task(t),
        0 <= a.0 <= a.1,
        0 <= b.0 <= b.1,
        0 <= c,
    ensures
        s.tiles_c(t, st, a, b, c) matches Ok(u) ==> u.sound() && s.same_homes(u) && u.tail == s.tail,
    decreases t.extents().2 - c,
{
    let end = t.extents().2;
    if c < end && st.2 > 0 {
        let next = crate::theory::plans::least(c + st.2, end);
        let j = s.tile(t, a, b, (c, next));
        lemma_tile(s, t, a, b, (c, next));
        lemma_work(s, j);
        if let Ok(u) = s.work(j) {
            lemma_tiles_c(u, t, st, a, b, next);
        }
    }
}

pub proof fn lemma_tiles_b(s: State, t: Task, st: (int, int, int), a: (int, int), b: int)
    requires
        s.sound(),
        good_task(t),
        0 <= a.0 <= a.1,
        0 <= b,
    ensures
        s.tiles_b(t, st, a, b) matches Ok(u) ==> u.sound() && s.same_homes(u) && u.tail == s.tail,
    decreases t.extents().1 - b,
{
    let end = t.extents().1;
    if b < end && st.1 > 0 {
        let next = crate::theory::plans::least(b + st.1, end);
        lemma_tiles_c(s, t, st, a, (b, next), 0);
        if let Ok(u) = s.tiles_c(t, st, a, (b, next), 0) {
            lemma_tiles_b(u, t, st, a, next);
        }
    }
}

pub proof fn lemma_tiles_a(s: State, t: Task, st: (int, int, int), a: int)
    requires
        s.sound(),
        good_task(t),
        0 <= a,
    ensures
        s.tiles_a(t, st, a) matches Ok(u) ==> u.sound() && s.same_homes(u) && u.tail == s.tail,
    decreases t.extents().0 - a,
{
    let end = t.extents().0;
    if a < end && st.0 > 0 {
        let next = crate::theory::plans::least(a + st.0, end);
        lemma_tiles_b(s, t, st, (a, next), 0);
        if let Ok(u) = s.tiles_b(t, st, (a, next), 0) {
            lemma_tiles_a(u, t, st, next);
        }
    }
}

pub proof fn lemma_emit(s: State, t: Task)
    requires
        s.sound(),
        good_task(t),
    ensures
        s.emit(t) matches Ok(u) ==> u.sound() && s.same_homes(u) && u.tail == s.tail,
{
    let (a, b, c) = t.full();
    if let Ok(tile) = s.shrink(t, a, b, c) {
        lemma_tiles_a(s, t, t.steps(tile), 0);
    }
}

// ----- tiles cover their task -----

pub open spec fn within(x: int, low: int, high: int) -> bool {
    low <= x < high
}

/// A point of the task, in the order of its three loops, lies in the tile of
/// the window. Attention loops over the columns before the rows.
pub open spec fn in_tile(t: Task, w: Win, p: (int, int, int)) -> bool {
    &&& within(p.0, w.batch_begin, w.batch_end)
    &&& match t {
        Task::Attention { .. } => within(p.1, w.col_begin, w.col_end) && within(p.2, w.row_begin, w.row_end),
        _ => within(p.1, w.row_begin, w.row_end) && within(p.2, w.col_begin, w.col_end),
    }
}

/// The number of windows whose tile holds the point.
pub open spec fn visits(t: Task, ws: Seq<Win>, p: (int, int, int)) -> int
    decreases ws.len(),
{
    if ws.len() == 0 {
        0
    } else {
        visits(t, ws.drop_last(), p) + if in_tile(t, ws.last(), p) {
            1int
        } else {
            0int
        }
    }
}

/// Both passes of `u` go on from those of `s`, and visit the point once more
/// if it is `wanted`, and as often as before if not.
pub open spec fn visited_once(t: Task, s: State, u: State, p: (int, int, int), wanted: bool) -> bool {
    let more = if wanted {
        1int
    } else {
        0int
    };
    &&& s.windows.is_prefix_of(u.windows)
    &&& s.later.is_prefix_of(u.later)
    &&& visits(t, u.windows, p) == visits(t, s.windows, p) + more
    &&& visits(t, u.later, p) == visits(t, s.later, p) + more
}

pub proof fn lemma_visits(t: Task, ws: Seq<Win>, n: int, p: (int, int, int))
    requires
        0 <= n <= ws.len(),
    ensures
        visits(t, ws, p) == visits(t, ws.take(n), p) + visits(t, ws.skip(n), p),
    decreases ws.len(),
{
    if n == ws.len() {
        assert(ws.take(n) == ws);
    } else {
        lemma_visits(t, ws.drop_last(), n, p);
        assert(ws.drop_last().take(n) == ws.take(n));
        assert(ws.drop_last().skip(n) == ws.skip(n).drop_last());
        assert(ws.skip(n).last() == ws.last());
    }
}

proof fn lemma_visited_trans(t: Task, s: State, u: State, v: State, p: (int, int, int), x: bool, y: bool)
    requires
        visited_once(t, s, u, p, x),
        visited_once(t, u, v, p, y),
        !(x && y),
    ensures
        visited_once(t, s, v, p, x || y),
{
    assert(s.windows == u.windows.take(s.windows.len() as int));
    assert(s.windows == v.windows.take(s.windows.len() as int));
    assert(s.later == u.later.take(s.later.len() as int));
    assert(s.later == v.later.take(s.later.len() as int));
}

proof fn lemma_tile_visited(
    s: State,
    t: Task,
    a: (int, int),
    b: (int, int),
    c: (int, int),
    p: (int, int, int),
)
    requires
        t is Loss ==> b == (0int, 1int),
    ensures
        s.work(s.tile(t, a, b, c)) matches Ok(u) ==> visited_once(
            t,
            s,
            u,
            p,
            within(p.0, a.0, a.1) && within(p.1, b.0, b.1) && within(p.2, c.0, c.1),
        ),
{
    let j = s.tile(t, a, b, c);
    if let Ok(u) = s.work(j) {
        let d = s.place(j)->Ok_0;
        let r = s.resident(d, j);
        let dev = s.devices[d];
        let w1 = j.window(d, r, Pass::Fwd, crate::theory::plans::phases(dev, j.fwd)->0);
        let s0 = s.peaked(d, r);
        let x1 = s0.annotated(w1)->Ok_0;
        let s1 = s0.post(w1)->Ok_0;
        let w2 = j.window(d, r, Pass::Bwd, crate::theory::plans::phases(dev, j.bwd)->0);
        let x2 = s1.annotated(w2)->Ok_0;
        assert(u.windows == s.windows.push(x1));
        assert(u.later == s.later.push(x2));
        assert(u.windows.drop_last() == s.windows);
        assert(u.later.drop_last() == s.later);
    }
}

proof fn lemma_visited_c(
    s: State,
    t: Task,
    st: (int, int, int),
    a: (int, int),
    b: (int, int),
    c: int,
    p: (int, int, int),
)
    requires
        t is Loss ==> b == (0int, 1int),
        0 < st.2,
    ensures
        s.tiles_c(t, st, a, b, c) matches Ok(u) ==> visited_once(
            t,
            s,
            u,
            p,
            within(p.0, a.0, a.1) && within(p.1, b.0, b.1) && within(p.2, c, t.extents().2),
        ),
    decreases t.extents().2 - c,
{
    let end = t.extents().2;
    if c < end {
        let next = crate::theory::plans::least(c + st.2, end);
        lemma_tile_visited(s, t, a, b, (c, next), p);
        if let Ok(u) = s.work(s.tile(t, a, b, (c, next))) {
            lemma_visited_c(u, t, st, a, b, next, p);
            if let Ok(v) = u.tiles_c(t, st, a, b, next) {
                let ab = within(p.0, a.0, a.1) && within(p.1, b.0, b.1);
                lemma_visited_trans(t, s, u, v, p, ab && within(p.2, c, next), ab && within(p.2, next, end));
            }
        }
    }
}

proof fn lemma_visited_b(s: State, t: Task, st: (int, int, int), a: (int, int), b: int, p: (int, int, int))
    requires
        t is Loss ==> st.1 == 1,
        0 < st.1,
        0 < st.2,
        0 <= b,
    ensures
        s.tiles_b(t, st, a, b) matches Ok(u) ==> visited_once(
            t,
            s,
            u,
            p,
            within(p.0, a.0, a.1) && within(p.1, b, t.extents().1) && within(p.2, 0, t.extents().2),
        ),
    decreases t.extents().1 - b,
{
    let end = t.extents().1;
    if b < end {
        let next = crate::theory::plans::least(b + st.1, end);
        lemma_visited_c(s, t, st, a, (b, next), 0, p);
        if let Ok(u) = s.tiles_c(t, st, a, (b, next), 0) {
            lemma_visited_b(u, t, st, a, next, p);
            if let Ok(v) = u.tiles_b(t, st, a, next) {
                let ac = within(p.0, a.0, a.1) && within(p.2, 0, t.extents().2);
                lemma_visited_trans(t, s, u, v, p, ac && within(p.1, b, next), ac && within(p.1, next, end));
            }
        }
    }
}

proof fn lemma_visited_a(s: State, t: Task, st: (int, int, int), a: int, p: (int, int, int))
    requires
        t is Loss ==> st.1 == 1,
        0 < st.0,
        0 < st.1,
        0 < st.2,
        0 <= a,
    ensures
        s.tiles_a(t, st, a) matches Ok(u) ==> visited_once(
            t,
            s,
            u,
            p,
            within(p.0, a, t.extents().0) && within(p.1, 0, t.extents().1) && within(p.2, 0, t.extents().2),
        ),
    decreases t.extents().0 - a,
{
    let end = t.extents().0;
    if a < end {
        let next = crate::theory::plans::least(a + st.0, end);
        lemma_visited_b(s, t, st, (a, next), 0, p);
        if let Ok(u) = s.tiles_b(t, st, (a, next), 0) {
            lemma_visited_a(u, t, st, next, p);
            if let Ok(v) = u.tiles_a(t, st, next) {
                let bc = within(p.1, 0, t.extents().1) && within(p.2, 0, t.extents().2);
                lemma_visited_trans(t, s, u, v, p, bc && within(p.0, a, next), bc && within(p.0, next, end));
            }
        }
    }
}

proof fn lemma_shrunk(s: State, t: Task, a: int, b: int, c: int)
    requires
        0 < a,
        0 < b,
        0 < c,
    ensures
        s.shrink(t, a, b, c) matches Ok(x) ==> 0 < x.0 <= a && 0 < x.1 <= b && 0 < x.2 <= c,
    decreases a + b + c,
{
    if s.some_fits(t.need(a, b, c), t.cutting()) {
    } else if c >= a && c >= b && c > 1 {
        lemma_shrunk(s, t, a, b, (c + 1) / 2);
    } else if a >= b && a > 1 {
        lemma_shrunk(s, t, (a + 1) / 2, b, c);
    } else if b > 1 {
        lemma_shrunk(s, t, a, (b + 1) / 2, c);
    }
}

/// The windows that a task adds tile it: on the forward pass and on the
/// backward pass each point of its batch, contraction and output lies in
/// exactly one of the new windows, and no other point lies in any.
pub proof fn law_windows_tile_the_task(s: State, t: Task, p: (int, int, int))
    ensures
        s.emit(t) matches Ok(u) ==> {
            let (a, b, c) = t.extents();
            let times = if within(p.0, 0, a) && within(p.1, 0, b) && within(p.2, 0, c) {
                1int
            } else {
                0int
            };
            &&& s.windows.is_prefix_of(u.windows)
            &&& s.later.is_prefix_of(u.later)
            &&& visits(t, u.windows.skip(s.windows.len() as int), p) == times
            &&& visits(t, u.later.skip(s.later.len() as int), p) == times
        },
{
    let (a, b, c) = t.full();
    lemma_shrunk(s, t, a, b, c);
    if let Ok(tile) = s.shrink(t, a, b, c) {
        lemma_visited_a(s, t, t.steps(tile), 0, p);
        if let Ok(u) = s.emit(t) {
            let n = s.windows.len() as int;
            let m = s.later.len() as int;
            lemma_visits(t, u.windows, n, p);
            lemma_visits(t, u.later, m, p);
            assert(u.windows.take(n) == s.windows);
            assert(u.later.take(m) == s.later);
        }
    }
}

// ----- a model -----

proof fn lemma_simple_job(j: Job, fwd: Kernel, bwd: Kernel, n: int)
    requires
        j.op != Exec::Sgd,
        j.home is None,
        j.param == 0,
        j.footprint >= 0,
        j.tape == j.footprint,
        j.placing == seq![fwd, bwd],
        j.fwd == seq![fwd],
        j.bwd == seq![bwd],
    ensures
        good_job(j, n),
{
    assert(j.placing[0] == fwd && j.placing[1] == bwd);
}

/// The sizes of a model in a batch of `n` tokens.
pub open spec fn good_config(c: MixtralConfig, n: int) -> bool {
    &&& 0 <= n
    &&& forall|l: int, i: int|
        0 <= l < c.layers && 0 <= i < crate::theory::plans::layer_mats(c, l, n).len() ==> good_mat(
            #[trigger] crate::theory::plans::layer_mats(c, l, n)[i],
        )
    &&& good_mat(crate::theory::plans::embed_mat(c, n))
    &&& good_mat(crate::theory::plans::final_mat(c, n))
    &&& good_mat(crate::theory::plans::head_mat(c, n))
}

pub proof fn lemma_products(c: MixtralConfig, n: int)
    requires
        0 <= n,
    ensures
        0 <= n * c.dim,
        0 <= n * c.q_width(),
        0 <= n * c.kv_width(),
        0 <= n * c.experts,
        0 <= n * c.intermediate,
        0 <= n * c.dim * (c.experts + 2),
        0 <= c.vocab * c.dim,
{
    crate::mixtral::lemma_lens(c);
    let q = c.q_width();
    let kv = c.kv_width();
    let d = c.dim as int;
    let e = c.experts as int;
    let i = c.intermediate as int;
    let v = c.vocab as int;
    assert(0 <= n * d && 0 <= n * q && 0 <= n * kv && 0 <= n * e && 0 <= n * i && 0 <= v * d) by (nonlinear_arith)
        requires 0 <= n, 0 <= d, 0 <= q, 0 <= kv, 0 <= e, 0 <= i, 0 <= v;
    let nd = n * d;
    assert(0 <= nd * (e + 2)) by (nonlinear_arith)
        requires 0 <= nd, 0 <= e;
}

pub proof fn lemma_rope_job(c: MixtralConfig, l: int, query: bool, n: int, width: int, k: int)
    requires
        0 <= n * width,
    ensures
        good_job(crate::theory::plans::rope_job(l, query, n, width), k),
{
    lemma_simple_job(crate::theory::plans::rope_job(l, query, n, width), Kernel::Rope, Kernel::Rope, k);
}

pub proof fn lemma_residual_job(l: int, attn: bool, n: int, dim: int, k: int)
    requires
        0 <= n * dim,
    ensures
        good_job(crate::theory::plans::residual_job(l, attn, n, dim), k),
{
    lemma_simple_job(crate::theory::plans::residual_job(l, attn, n, dim), Kernel::Add, Kernel::Add, k);
}

pub proof fn lemma_router_job(l: int, n: int, dim: int, experts: int, k: int)
    requires
        0 <= n * dim,
        0 <= n * experts,
    ensures
        good_job(crate::theory::plans::router_job(l, n, dim, experts), k),
{
    lemma_simple_job(crate::theory::plans::router_job(l, n, dim, experts), Kernel::Router, Kernel::RouterBwd, k);
}

pub proof fn lemma_silu_job(l: int, e: int, n: int, inter: int, k: int)
    requires
        0 <= n * inter,
    ensures
        good_job(crate::theory::plans::silu_job(l, e, n, inter), k),
{
    lemma_simple_job(crate::theory::plans::silu_job(l, e, n, inter), Kernel::Silu, Kernel::SiluBwd, k);
}

pub proof fn lemma_mix_job(l: int, n: int, dim: int, experts: int, k: int)
    requires
        0 <= n * dim * (experts + 2),
    ensures
        good_job(crate::theory::plans::mix_job(l, n, dim, experts), k),
{
    lemma_simple_job(crate::theory::plans::mix_job(l, n, dim, experts), Kernel::Add, Kernel::Add, k);
}

pub proof fn lemma_embed_job(s: State, m: Mat, n: int)
    requires
        s.sound(),
        0 <= m.rows * m.cols,
        0 <= n * m.cols,
    ensures
        good_job(s.embed_job(m, n), s.count()),
{
    let j = s.embed_job(m, n);
    lemma_home_of(s, m.name, 0, 0, 0);
    assert(j.placing[0] == Kernel::Embed && j.placing[1] == Kernel::EmbedBwd);
}

pub proof fn lemma_follow(s: State, c: MixtralConfig, n: int, seq: int, l: int, r: Role)
    requires
        s.sound(),
        0 <= n,
        0 <= seq,
    ensures
        s.follow(c, n, seq, l, r) matches Ok(u) ==> u.sound() && s.same_homes(u) && u.tail == s.tail,
{
    let k = s.count();
    let sl = crate::theory::plans::short(l);
    lemma_products(c, n);
    match r {
        Role::Value => {
            let j = crate::theory::plans::rope_job(sl, true, n, c.q_width());
            lemma_rope_job(c, sl, true, n, c.q_width(), k);
            lemma_work(s, j);
            if let Ok(s1) = s.work(j) {
                let j2 = crate::theory::plans::rope_job(sl, false, n, c.kv_width());
                lemma_rope_job(c, sl, false, n, c.kv_width(), k);
                lemma_work(s1, j2);
                if let Ok(s2) = s1.work(j2) {
                    lemma_emit(s2, State::attention_task(c, n, seq, l));
                }
            }
        },
        Role::Output => {
            lemma_residual_job(sl, true, n, c.dim as int, k);
            lemma_work(s, crate::theory::plans::residual_job(sl, true, n, c.dim as int));
        },
        Role::Router => {
            lemma_router_job(sl, n, c.dim as int, c.experts as int, k);
            lemma_work(s, crate::theory::plans::router_job(sl, n, c.dim as int, c.experts as int));
        },
        Role::Up(e) => {
            lemma_silu_job(sl, e as int, n, c.intermediate as int, k);
            lemma_work(s, crate::theory::plans::silu_job(sl, e as int, n, c.intermediate as int));
        },
        _ => {},
    }
}

pub proof fn lemma_emit_members(s: State, c: MixtralConfig, n: int, seq: int, l: int, ms: Seq<Mat>, k: int)
    requires
        s.sound(),
        0 <= n,
        0 <= seq,
        0 <= k,
        forall|i: int| 0 <= i < ms.len() ==> good_mat(#[trigger] ms[i]),
    ensures
        s.emit_members(c, n, seq, l, ms, k) matches Ok(u) ==> u.sound() && s.same_homes(u) && u.tail == s.tail,
    decreases ms.len() - k,
{
    if k < ms.len() {
        let t = Task::Linear { matrix: ms[k] };
        assert(good_task(t));
        lemma_emit(s, t);
        if let Ok(s1) = s.emit(t) {
            lemma_follow(s1, c, n, seq, l, ms[k].role);
            if let Ok(s2) = s1.follow(c, n, seq, l, ms[k].role) {
                lemma_emit_members(s2, c, n, seq, l, ms, k + 1);
            }
        }
    }
}

pub proof fn lemma_emit_layer(s: State, c: MixtralConfig, n: int, seq: int, l: int)
    requires
        s.sound(),
        0 <= seq,
        good_config(c, n),
        0 <= l < c.layers,
    ensures
        s.emit_layer(c, n, seq, l) matches Ok(u) ==> u.sound() && s.same_homes(u) && u.tail == s.tail,
{
    let ms = crate::theory::plans::layer_mats(c, l, n);
    let sl = crate::theory::plans::short(l);
    assert forall|i: int| 0 <= i < ms.len() implies good_mat(#[trigger] ms[i]) by {
        assert(good_mat(crate::theory::plans::layer_mats(c, l, n)[i]));
    }
    lemma_emit_members(s, c, n, seq, l, ms, 0);
    lemma_products(c, n);
    if let Ok(s1) = s.emit_members(c, n, seq, l, ms, 0) {
        let j = crate::theory::plans::mix_job(sl, n, c.dim as int, c.experts as int);
        lemma_mix_job(sl, n, c.dim as int, c.experts as int, s.count());
        lemma_work(s1, j);
        if let Ok(s2) = s1.work(j) {
            lemma_residual_job(sl, false, n, c.dim as int, s.count());
            lemma_work(s2, crate::theory::plans::residual_job(sl, false, n, c.dim as int));
        }
    }
}

pub proof fn lemma_emit_layers(s: State, c: MixtralConfig, n: int, seq: int, l: int)
    requires
        s.sound(),
        0 <= seq,
        good_config(c, n),
        0 <= l,
    ensures
        s.emit_layers(c, n, seq, l) matches Ok(u) ==> u.sound() && s.same_homes(u) && u.tail == s.tail,
    decreases c.layers - l,
{
    if l < c.layers {
        lemma_emit_layer(s, c, n, seq, l);
        if let Ok(s1) = s.emit_layer(c, n, seq, l) {
            lemma_emit_layers(s1, c, n, seq, l + 1);
        }
    }
}

pub proof fn lemma_emit_mixtral(s: State, c: MixtralConfig, n: int, seq: int)
    requires
        s.sound(),
        0 <= seq,
        good_config(c, n),
    ensures
        s.emit_mixtral(c, n, seq) matches Ok(u) ==> u.sound() && s.same_homes(u) && u.tail == s.tail,
{
    let m = crate::theory::plans::embed_mat(c, n);
    let j = s.embed_job(m, n);
    lemma_products(c, n);
    lemma_embed_job(s, m, n);
    lemma_work(s, j);
    if let Ok(s1) = s.work(j) {
        lemma_emit_layers(s1, c, n, seq, 0);
        if let Ok(s2) = s1.emit_layers(c, n, seq, 0) {
            let t3 = Task::Linear { matrix: crate::theory::plans::final_mat(c, n) };
            lemma_emit(s2, t3);
            if let Ok(s3) = s2.emit(t3) {
                let t4 = Task::Linear { matrix: crate::theory::plans::head_mat(c, n) };
                lemma_emit(s3, t4);
                if let Ok(s4) = s3.emit(t4) {
                    lemma_emit(s4, Task::Loss { tokens: n, vocab: c.vocab as int });
                }
            }
        }
    }
}

// ----- the update -----

pub proof fn lemma_updater(s: State, home: int, bytes: int, i: int)
    requires
        0 <= i,
    ensures
        s.updater(home, bytes, i) matches Some(d) ==> 0 <= d < s.count() && s.updates(d, home, bytes),
    decreases s.count() - i,
{
    if i < s.count() {
        lemma_updater(s, home, bytes, i + 1);
    }
}

/// A window that applies the update of a home of a matrix, whatever device it
/// runs on.
pub open spec fn applies(w: Win, h: Place, m: Mat) -> bool {
    &&& w.op == Exec::Sgd
    &&& w.home == h.device
    &&& w.row_begin == h.row_begin
    &&& w.row_end == h.row_end
    &&& w.col_begin == h.col_begin
    &&& w.col_end == h.col_end
    &&& w.offset == m.offset
    &&& w.din == m.rows
    &&& w.dout == m.cols
    &&& w.param == crate::theory::plans::held_bytes(h)
    &&& w.resident == crate::theory::plans::held_bytes(h)
}

/// What a home holds is part of what its device holds.
proof fn lemma_home_stored(homes: Seq<Place>, n: int, k: int)
    requires
        0 <= k < homes.len(),
        forall|i: int| 0 <= i < homes.len() ==> good_home(#[trigger] homes[i], n),
    ensures
        crate::theory::plans::held_bytes(homes[k]) <= stored(homes, homes[k].device),
    decreases homes.len(),
{
    let rest = homes.drop_last();
    let d = homes[k].device;
    assert forall|i: int| 0 <= i < rest.len() implies good_home(#[trigger] rest[i], n) by {
        assert(rest[i] == homes[i]);
    }
    assert(good_home(homes[homes.len() - 1], n));
    if k == homes.len() - 1 {
        lemma_stored_nonneg(rest, n, d);
    } else {
        lemma_home_stored(rest, n, k);
    }
}

/// The update of a home runs on the home's device unless that cannot load the
/// update, and elsewhere only where there is room. It keeps what states keep,
/// and touches no home.
pub proof fn lemma_update_home(s: State, ms: Seq<Mat>, k: int)
    requires
        s.sound(),
        0 <= k < s.homes.len(),
    ensures
        s.update_home(ms, s.homes[k]) matches Ok(t) ==> {
            &&& t.sound()
            &&& s.same_homes(t)
            &&& t.peak == s.peak
            &&& t.windows == s.windows
            &&& t.later == s.later
            &&& t.tail.len() == s.tail.len() + 1
            &&& t.tail.drop_last() == s.tail
            &&& applies(t.tail.last(), s.homes[k], ms[crate::theory::plans::named(ms, s.homes[k].name, 0)])
        },
{
    let h = s.homes[k];
    let b = crate::theory::plans::held_bytes(h);
    assert(good_home(s.homes[k], s.count()));
    lemma_updater(s, h.device, b, 0);
    lemma_home_stored(s.homes, s.count(), k);
    assert(s.held[h.device] == stored(s.homes, h.device));
    assert(s.free[h.device] >= 0);
    if let Ok(d) = s.sgd_device(h.device, b) {
        law_phases(s.devices[d], seq![Kernel::Sgd]);
        let w = s.sgd_window(h, ms[crate::theory::plans::named(ms, h.name, 0)], d);
        assert(s.held[d] >= 0);
        assert(0 <= b <= s.devices[d].buffer);
        lemma_annotated(s, w);
        if let Ok(t) = s.update_home(ms, h) {
            let x = s.annotated(w)->Ok_0;
            assert(good_window(x, s.devices, s.links));
            assert(t.tail == s.tail.push(x));
            assert(t.tail.drop_last() =~= s.tail);
            assert forall|i: int| 0 <= i < t.tail.len() implies {
                &&& good_window(#[trigger] t.tail[i], t.devices, t.links)
                &&& t.tail[i].op == Exec::Sgd
                &&& t.tail[i].pass == Pass::Fwd
            } by {
                if i < s.tail.len() {
                    assert(t.tail[i] == s.tail[i]);
                }
            }
            assert(t.scheduled());
            assert(t.balanced());
            assert(t.marked());
        }
    }
}

/// From number `at` on, the updates are those of the homes from number `k` to
/// number `n`, one for each and in order.
pub open spec fn updates_apply(tail: Seq<Win>, at: int, homes: Seq<Place>, ms: Seq<Mat>, k: int, n: int) -> bool {
    &&& tail.len() == at + (n - k)
    &&& forall|i: int|
        k <= i < n ==> applies(
            tail[at + (i - k)],
            #[trigger] homes[i],
            ms[crate::theory::plans::named(ms, homes[i].name, 0)],
        )
}

/// The number of parameter homes, where they come first.
pub open spec fn param_homes(s: State) -> int {
    if s.marks.len() == 0 {
        s.homes.len() as int
    } else {
        s.marks[0]
    }
}

pub proof fn lemma_update_homes(s: State, ms: Seq<Mat>, k: int)
    requires
        s.sound(),
        0 <= k,
    ensures
        s.update_homes(ms, k) matches Ok(t) ==> {
            &&& t.sound()
            &&& s.same_homes(t)
            &&& t.peak == s.peak
            &&& t.windows == s.windows
            &&& t.later == s.later
            &&& s.tail.len() <= t.tail.len()
            &&& t.tail.take(s.tail.len() as int) == s.tail
            &&& params_first(s) && k <= param_homes(s) ==> updates_apply(
                t.tail,
                s.tail.len() as int,
                s.homes,
                ms,
                k,
                param_homes(s),
            )
        },
    decreases s.homes.len() - k,
{
    let n = param_homes(s);
    if s.marks.len() > 0 {
        assert(0 <= s.marks[0] <= s.homes.len());
    }
    if k < s.homes.len() {
        if s.marks.len() > 0 && n <= k {
            assert(s.marks[0] >= 0 && s.homes[k].kind == HomeKind::Tape);
        }
        if s.homes[k].kind != HomeKind::Param {
            lemma_update_homes(s, ms, k + 1);
            if params_first(s) && k <= n {
                lemma_no_updates(s, ms, k);
            }
        } else {
            lemma_update_home(s, ms, k);
            if let Ok(t) = s.update_home(ms, s.homes[k]) {
                lemma_update_homes(t, ms, k + 1);
                if let Ok(u) = t.update_homes(ms, k + 1) {
                    let m = s.tail.len() as int;
                    assert(u.tail.take(m) =~= s.tail) by {
                        assert forall|i: int| 0 <= i < m implies u.tail[i] == #[trigger] s.tail[i] by {
                            assert(u.tail.take(m + 1)[i] == t.tail[i]);
                            assert(t.tail.drop_last()[i] == s.tail[i]);
                        }
                    }
                    assert(u.tail.take(m + 1)[m] == t.tail[m]);
                    if params_first(s) && k < n {
                        assert forall|i: int| k <= i < n implies applies(
                            u.tail[m + (i - k)],
                            #[trigger] s.homes[i],
                            ms[crate::theory::plans::named(ms, s.homes[i].name, 0)],
                        ) by {
                            if i > k {
                                assert(t.homes[i] == s.homes[i]);
                                assert(u.tail[(m + 1) + (i - (k + 1))] == u.tail[m + (i - k)]);
                            }
                        }
                    }
                }
            }
        }
    } else {
        assert(s.tail.take(s.tail.len() as int) =~= s.tail);
    }
}

/// Tapes get no updates.
proof fn lemma_no_updates(s: State, ms: Seq<Mat>, k: int)
    requires
        s.sound(),
        0 <= k <= s.homes.len(),
        forall|i: int| k <= i < s.homes.len() ==> (#[trigger] s.homes[i]).kind == HomeKind::Tape,
    ensures
        s.update_homes(ms, k) == Ok::<State, Fault>(s),
    decreases s.homes.len() - k,
{
    if k < s.homes.len() {
        lemma_no_updates(s, ms, k + 1);
    }
}

// ----- the parameters of a model -----

proof fn lemma_mats_len_add(a: Seq<Mat>, b: Seq<Mat>, k: int)
    requires
        0 <= k <= b.len(),
    ensures
        crate::theory::plans::mats_len(a + b, a.len() + k) == crate::theory::plans::mats_len(a, a.len() as int)
            + crate::theory::plans::mats_len(b, k),
    decreases k,
{
    let f = |i: int| (a + b)[i].rows * (a + b)[i].cols;
    let g = |i: int| a[i].rows * a[i].cols;
    let h = |i: int| b[i].rows * b[i].cols;
    if k > 0 {
        lemma_mats_len_add(a, b, k - 1);
        assert(f(a.len() + k - 1) == h(k - 1));
    } else {
        crate::theory::sums::lemma_sum_ext(a.len() as int, f, g);
    }
}

/// Blocks of matrices with the same number of parameters each.
proof fn lemma_mats_len_cat(n: int, f: spec_fn(int) -> Seq<Mat>, each: int)
    requires
        0 <= n,
        forall|i: int| 0 <= i < n ==> crate::theory::plans::mats_len(#[trigger] f(i), f(i).len() as int) == each,
    ensures
        ({
            let all = crate::theory::listing::cat(n, f);
            crate::theory::plans::mats_len(all, all.len() as int) == n * each
        }),
    decreases n,
{
    let all = crate::theory::listing::cat(n, f);
    if n > 0 {
        lemma_mats_len_cat(n - 1, f, each);
        let a = crate::theory::listing::cat(n - 1, f);
        let b = f(n - 1);
        lemma_mats_len_add(a, b, b.len() as int);
        assert(all == a + b);
        assert(n * each == (n - 1) * each + each) by (nonlinear_arith);
    } else {
        assert(0 * each == 0);
    }
}

proof fn lemma_mats_len_few(ms: Seq<Mat>)
    ensures
        ms.len() >= 1 ==> crate::theory::plans::mats_len(ms, 1) == ms[0].rows * ms[0].cols,
        ms.len() >= 2 ==> crate::theory::plans::mats_len(ms, 2) == crate::theory::plans::mats_len(ms, 1) + ms[1].rows
            * ms[1].cols,
        ms.len() >= 3 ==> crate::theory::plans::mats_len(ms, 3) == crate::theory::plans::mats_len(ms, 2) + ms[2].rows
            * ms[2].cols,
        ms.len() >= 4 ==> crate::theory::plans::mats_len(ms, 4) == crate::theory::plans::mats_len(ms, 3) + ms[3].rows
            * ms[3].cols,
        ms.len() >= 5 ==> crate::theory::plans::mats_len(ms, 5) == crate::theory::plans::mats_len(ms, 4) + ms[4].rows
            * ms[4].cols,
        ms.len() >= 6 ==> crate::theory::plans::mats_len(ms, 6) == crate::theory::plans::mats_len(ms, 5) + ms[5].rows
            * ms[5].cols,
        ms.len() >= 7 ==> crate::theory::plans::mats_len(ms, 7) == crate::theory::plans::mats_len(ms, 6) + ms[6].rows
            * ms[6].cols,
{
    let f = |i: int| ms[i].rows * ms[i].cols;
    assert(crate::theory::sums::sum(0, f) == 0);
    assert(crate::theory::sums::sum(1, f) == crate::theory::sums::sum(0, f) + f(0));
    assert(crate::theory::sums::sum(2, f) == crate::theory::sums::sum(1, f) + f(1));
    assert(crate::theory::sums::sum(3, f) == crate::theory::sums::sum(2, f) + f(2));
    assert(crate::theory::sums::sum(4, f) == crate::theory::sums::sum(3, f) + f(3));
    assert(crate::theory::sums::sum(5, f) == crate::theory::sums::sum(4, f) + f(4));
    assert(crate::theory::sums::sum(6, f) == crate::theory::sums::sum(5, f) + f(5));
    assert(crate::theory::sums::sum(7, f) == crate::theory::sums::sum(6, f) + f(6));
}

proof fn lemma_layer_mats_len(c: MixtralConfig, l: int, n: int)
    ensures
        ({
            let ms = crate::theory::plans::layer_mats(c, l, n);
            crate::theory::plans::mats_len(ms, ms.len() as int) == c.layer_len()
        }),
{
    let front = crate::theory::plans::front_mats(c, l, n);
    let f = |e: int| crate::theory::plans::expert_mats(c, l, n, e);
    let back = crate::theory::listing::cat(c.experts as int, f);
    lemma_mats_len_few(front);
    let d = c.dim as int;
    assert(d * 1 == d);
    assert(crate::theory::plans::mats_len(front, 7) == c.front_len());
    assert forall|e: int| 0 <= e < c.experts implies crate::theory::plans::mats_len(#[trigger] f(e), f(e).len() as int)
        == c.expert_len() by {
        lemma_mats_len_few(f(e));
    }
    lemma_mats_len_cat(c.experts as int, f, c.expert_len());
    lemma_mats_len_add(front, back, back.len() as int);
}

/// The matrices of a model have as many elements as its parameter buffer.
pub proof fn law_matrices_fill_the_buffer(c: MixtralConfig, n: int)
    ensures
        ({
            let ms = crate::theory::plans::mixtral_mats(c, n);
            crate::theory::plans::mats_len(ms, ms.len() as int) == c.total()
        }),
{
    let first = seq![crate::theory::plans::embed_mat(c, n)];
    let f = |l: int| crate::theory::plans::layer_mats(c, l, n);
    let mid = crate::theory::listing::cat(c.layers as int, f);
    let last = seq![crate::theory::plans::final_mat(c, n), crate::theory::plans::head_mat(c, n)];
    lemma_mats_len_few(first);
    lemma_mats_len_few(last);
    let d = c.dim as int;
    assert(d * 1 == d);
    assert forall|l: int| 0 <= l < c.layers implies crate::theory::plans::mats_len(#[trigger] f(l), f(l).len() as int)
        == c.layer_len() by {
        lemma_layer_mats_len(c, l, n);
    }
    lemma_mats_len_cat(c.layers as int, f, c.layer_len());
    lemma_mats_len_add(first, mid, mid.len() as int);
    lemma_mats_len_add(first + mid, last, 2);
}

/// Every matrix of the model can be staged when each of its groups can.
pub proof fn lemma_good_mats(c: MixtralConfig, n: int)
    requires
        good_config(c, n),
    ensures
        forall|i: int|
            0 <= i < crate::theory::plans::mixtral_mats(c, n).len() ==> good_mat(
                #[trigger] crate::theory::plans::mixtral_mats(c, n)[i],
            ),
{
    let ms = crate::theory::plans::mixtral_mats(c, n);
    let f = |l: int| crate::theory::plans::layer_mats(c, l, n);
    let mid = crate::theory::listing::cat(c.layers as int, f);
    crate::theory::listing::lemma_cat(c.layers as int, f);
    assert forall|i: int| 0 <= i < ms.len() implies good_mat(#[trigger] ms[i]) by {
        if 0 < i < 1 + mid.len() {
            let x = mid[i - 1];
            assert(ms[i] == x);
            let l = choose|l: int| 0 <= l < c.layers && (#[trigger] f(l)).contains(mid[i - 1]);
            assert(f(l).contains(x));
            let k = f(l).index_of(x);
            assert(f(l)[k] == x);
            assert(good_mat(crate::theory::plans::layer_mats(c, l, n)[k]));
        }
    }
}

// ----- plans -----

/// A plan that a cluster can carry out.
pub open spec fn good_plan(p: Plan, ds: Seq<Dev>, links: Seq<Link>) -> bool {
    &&& p.peak.len() == ds.len()
    &&& forall|i: int| 0 <= i < ds.len() ==> 0 <= #[trigger] p.peak[i] <= ds[i].buffer
    &&& forall|i: int| 0 <= i < ds.len() ==> 0 <= #[trigger] stored(p.homes, i) <= ds[i].buffer
    &&& forall|k: int| 0 <= k < p.homes.len() ==> good_home(#[trigger] p.homes[k], ds.len() as int)
    &&& forall|i: int| 0 <= i < p.windows.len() ==> good_window(#[trigger] p.windows[i], ds, links)
    &&& forall|i: int|
        0 <= i < p.transfers.len() ==> crate::theory::routes::linked(
            links,
            ds.len() as int,
            (#[trigger] p.transfers[i]).from,
            p.transfers[i].to,
        )
}

/// The schedule runs the forward windows, the adjoint of each in reverse
/// order, and the updates.
pub open spec fn mirrored(p: Plan, fwd: Seq<Win>, bwd: Seq<Win>, updates: Seq<Win>) -> bool {
    &&& p.windows == fwd + bwd.reverse() + updates
    &&& fwd.len() == bwd.len()
    &&& forall|i: int| 0 <= i < fwd.len() ==> adjoint(#[trigger] fwd[i], bwd[i]) && fwd[i].op != Exec::Sgd
    &&& forall|i: int| 0 <= i < updates.len() ==> (#[trigger] updates[i]).op == Exec::Sgd && updates[i].pass == Pass::Fwd
}

proof fn lemma_flush(s: State)
    requires
        s.sound(),
    ensures
        good_plan(s.flush(), s.devices, s.links),
        mirrored(s.flush(), s.windows, s.later, s.tail),
{
    let p = s.flush();
    let n = s.windows.len() as int;
    let rev = s.later.reverse();
    assert forall|i: int| 0 <= i < p.windows.len() implies good_window(#[trigger] p.windows[i], s.devices, s.links) by {
        if i < n {
            assert(p.windows[i] == s.windows[i]);
        } else if i < n + n {
            assert(p.windows[i] == rev[i - n]);
            assert(rev[i - n] == s.later[n - 1 - (i - n)]);
        } else {
            assert(p.windows[i] == s.tail[i - n - n]);
        }
    }
    assert forall|i: int| 0 <= i < s.devices.len() implies 0 <= #[trigger] stored(p.homes, i) <= s.devices[i].buffer by {
        assert(s.held[i] == stored(s.homes, i));
        assert(s.free[i] >= 0);
    }
}

/// What staging a model makes of a state whose homes are placed.
proof fn lemma_mixtral_staged(s: State, ms: Seq<Mat>, c: MixtralConfig, n: int, seq: int)
    requires
        s.sound(),
        params_first(s),
        s.tail.len() == 0,
        0 <= seq,
        good_config(c, n),
    ensures
        s.emit_mixtral(c, n, seq) matches Ok(u) ==> (u.emit_sgd(ms) matches Ok(v) ==> {
            let t = v.release();
            let p = t.flush();
            &&& good_plan(p, s.devices, s.links)
            &&& mirrored(p, t.windows, t.later, t.tail)
            &&& param_elems(p.homes) == param_elems(s.homes)
            &&& forall|k: int| 0 <= k < p.homes.len() ==> (#[trigger] p.homes[k]).kind == HomeKind::Param
            &&& updates_apply(t.tail, 0, p.homes, ms, 0, p.homes.len() as int)
        }),
{
    lemma_emit_mixtral(s, c, n, seq);
    if let Ok(u) = s.emit_mixtral(c, n, seq) {
        lemma_update_homes(u, ms, 0);
        if let Ok(v) = u.emit_sgd(ms) {
            lemma_release(v);
            let t = v.release();
            lemma_flush(t);
            assert forall|k: int| 0 <= k < t.homes.len() implies (#[trigger] t.homes[k]).kind == HomeKind::Param by {
                assert(t.homes[k] == s.homes[k]);
            }
            if u.marks.len() > 0 {
                assert(0 <= u.marks[0] <= u.homes.len());
            }
            assert(t.homes.len() == param_homes(u));
            assert forall|i: int| 0 <= i < t.homes.len() implies applies(
                t.tail[0 + (i - 0)],
                #[trigger] t.homes[i],
                ms[crate::theory::plans::named(ms, t.homes[i].name, 0)],
            ) by {
                assert(t.homes[i] == u.homes[i]);
            }
        }
    }
}

/// The plan of a model stays within the budgets of its cluster: homes and
/// peaks within the buffers, windows within buffer and code, messages along
/// the links. Parameters reach the windows that read them, and adjoints and
/// updated parameters go home. The homes hold each parameter, and no tape is
/// left. The backward windows mirror the forward windows. The updates come
/// last, one for each home, in the order of the homes. The plan passes its
/// check.
pub proof fn law_mixtral_plan(c: MixtralConfig, batch: int, seq: int, ds: Seq<Dev>, links: Seq<Link>)
    requires
        good_devices(ds),
        0 <= seq,
        good_config(c, batch * seq),
        c.layers > 0 ==> 0 <= crate::theory::plans::tape_need(c, batch * seq, seq) <= u64::MAX,
    ensures
        crate::theory::plans::mixtral_plan(c, batch, seq, ds, links) matches Ok(p) ==> {
            let s = State::staged_mixtral(c, batch, seq, ds, links)->Ok_0;
            &&& good_plan(p, ds, links)
            &&& mirrored(p, s.windows, s.later, s.tail)
            &&& param_elems(p.homes) == c.total()
            &&& forall|k: int| 0 <= k < p.homes.len() ==> (#[trigger] p.homes[k]).kind == HomeKind::Param
            &&& updates_apply(
                s.tail,
                0,
                p.homes,
                crate::theory::plans::mixtral_mats(c, batch * seq),
                0,
                p.homes.len() as int,
            )
            &&& plan_fault(p, ds, c.total()) is None
        },
{
    let n = batch * seq;
    let ms = crate::theory::plans::mixtral_mats(c, n);
    law_matrices_fill_the_buffer(c, n);
    lemma_good_mats(c, n);
    if ds.len() > 0 {
        lemma_fresh(ds, links);
        let s0 = State::fresh(ds, links);
        assert(crate::theory::plans::mats_len(ms, 0) == 0);
        lemma_place_params(s0, ms, 0);
        if let Ok(s1) = s0.place_params(ms, 0) {
            lemma_place_tapes(s1, ms, c, n, seq, 0);
            if let Ok(s2) = s1.place_tapes(c, n, seq, 0) {
                lemma_mixtral_staged(s2, ms, c, n, seq);
                if let Ok(p) = crate::theory::plans::mixtral_plan(c, batch, seq, ds, links) {
                    law_checked(p, ds, links);
                }
            }
        }
    }
}

pub proof fn lemma_emit_mats(s: State, ms: Seq<Mat>, k: int)
    requires
        s.sound(),
        0 <= k,
        forall|i: int| 0 <= i < ms.len() ==> good_mat(#[trigger] ms[i]),
    ensures
        s.emit_mats(ms, k) matches Ok(u) ==> u.sound() && s.same_homes(u) && u.tail == s.tail,
    decreases ms.len() - k,
{
    if k < ms.len() {
        let t = Task::Linear { matrix: ms[k] };
        assert(good_task(t));
        lemma_emit(s, t);
        if let Ok(s1) = s.emit(t) {
            lemma_emit_mats(s1, ms, k + 1);
        }
    }
}

pub proof fn lemma_stage_task(st: Stage)
    ensures
        good_task(State::stage_task(st)),
{
    if let Stage::Attention { batch, tokens, .. } = st {
        assert(0 <= batch * tokens) by (nonlinear_arith);
    }
}

pub proof fn lemma_emit_stages(s: State, stages: Seq<Stage>, k: int)
    requires
        s.sound(),
        0 <= k,
    ensures
        s.emit_stages(stages, k) matches Ok(u) ==> u.sound() && s.same_homes(u) && u.tail == s.tail,
    decreases stages.len() - k,
{
    if k < stages.len() {
        if stages[k] is Attention {
            let t = State::stage_task(stages[k]);
            lemma_stage_task(stages[k]);
            lemma_emit(s, t);
            if let Ok(s1) = s.emit(t) {
                lemma_emit_stages(s1, stages, k + 1);
            }
        } else {
            lemma_emit_stages(s, stages, k + 1);
        }
    }
}

/// The plan of a program stays within the budgets of its cluster, and its
/// homes hold each parameter of its linear stages and the whole tape. The
/// backward windows mirror the forward windows. The plan passes its check.
pub proof fn law_program_plan(stages: Seq<Stage>, tape: int, ds: Seq<Dev>, links: Seq<Link>)
    requires
        good_devices(ds),
        0 <= tape <= u64::MAX,
        forall|i: int|
            0 <= i < crate::theory::plans::program_mats(stages).len() ==> good_mat(
                #[trigger] crate::theory::plans::program_mats(stages)[i],
            ),
    ensures
        crate::theory::plans::program_plan(stages, tape, ds, links) matches Ok(p) ==> {
            let s = State::staged_program(stages, tape, ds, links)->Ok_0;
            let ms = crate::theory::plans::program_mats(stages);
            &&& good_plan(p, ds, links)
            &&& mirrored(p, s.windows, s.later, Seq::empty())
            &&& param_elems(p.homes) == crate::theory::plans::mats_len(ms, ms.len() as int)
            &&& tape_bytes(p.homes) == tape
            &&& plan_fault(p, ds, param_elems(p.homes)) is None
        },
{
    let ms = crate::theory::plans::program_mats(stages);
    if ds.len() > 0 {
        lemma_fresh(ds, links);
        let s0 = State::fresh(ds, links);
        assert(crate::theory::plans::mats_len(ms, 0) == 0);
        lemma_place_params(s0, ms, 0);
        if let Ok(s1) = s0.place_params(ms, 0) {
            lemma_place_tape(s1, "program-tape"@, tape);
            if let Ok(s2) = s1.place_tape("program-tape"@, tape) {
                lemma_emit_mats(s2, ms, 0);
                if let Ok(s3) = s2.emit_mats(ms, 0) {
                    lemma_emit_stages(s3, stages, 0);
                    if let Ok(s4) = s3.emit_stages(stages, 0) {
                        lemma_flush(s4);
                        law_checked(s4.flush(), ds, links);
                        assert(s4.tail =~= Seq::<Win>::empty());
                    }
                }
            }
        }
    }
}

/// A stage adds its parameters.
pub proof fn lemma_stage_params(stages: Seq<Stage>, st: Stage)
    ensures
        ({
            let a = crate::theory::plans::program_mats(stages);
            let b = crate::theory::plans::program_mats(stages.push(st));
            crate::theory::plans::mats_len(b, b.len() as int) == crate::theory::plans::mats_len(a, a.len() as int) + match st {
                Stage::Gemm { din, dout, .. } => din * dout + dout,
                _ => 0,
            }
        }),
{
    let more = stages.push(st);
    let f = |i: int| crate::theory::plans::stage_mats(stages[i], i);
    let g = |i: int| crate::theory::plans::stage_mats(more[i], i);
    let n = stages.len() as int;
    lemma_cat_ext(n, f, g);
    let a = crate::theory::plans::program_mats(stages);
    let b = crate::theory::plans::stage_mats(st, n);
    assert(crate::theory::plans::program_mats(more) == a + b);
    lemma_mats_len_add(a, b, b.len() as int);
    lemma_mats_len_few(b);
    if let Stage::Gemm { dout, .. } = st {
        assert(1 * dout == dout);
    } else {
        assert(crate::theory::plans::mats_len(b, 0) == 0);
    }
}

/// The matrices of a program are as large as its parameter buffer, however
/// it was put together.
pub proof fn law_program_parameters(p: crate::kernel::Prog, batch: int, a: int, b: int, relu: bool)
    requires
        ({
            let ms = crate::theory::plans::program_mats(p.stages);
            crate::theory::plans::mats_len(ms, ms.len() as int) == p.param_len
        }),
        0 <= a <= usize::MAX,
        0 <= b <= usize::MAX,
    ensures
        ({
            let q = p.gemm(batch, a, b, relu);
            let ms = crate::theory::plans::program_mats(q.stages);
            crate::theory::plans::mats_len(ms, ms.len() as int) == q.param_len
        }),
        ({
            let q = p.attention(batch, a, b);
            let ms = crate::theory::plans::program_mats(q.stages);
            crate::theory::plans::mats_len(ms, ms.len() as int) == q.param_len
        }),
        ({
            let q = p.skip(a, b);
            let ms = crate::theory::plans::program_mats(q.stages);
            crate::theory::plans::mats_len(ms, ms.len() as int) == q.param_len
        }),
{
    lemma_stage_params(p.stages, p.gemm(batch, a, b, relu).stages.last());
    lemma_stage_params(p.stages, p.attention(batch, a, b).stages.last());
    lemma_stage_params(p.stages, p.skip(a, b).stages.last());
}

// ----- checking a plan -----

/// The first fault of the devices from `i` on.
pub open spec fn device_fault(p: Plan, ds: Seq<Dev>, i: int) -> Option<Seq<char>>
    decreases ds.len() - i,
{
    let peak = if i < p.peak.len() {
        p.peak[i]
    } else {
        0
    };
    if i >= ds.len() {
        None
    } else if stored(p.homes, i) > ds[i].buffer {
        Some(
            crate::text::filled(
                "$a stores $b bytes with a buffer of $c"@,
                seq![ds[i].name, crate::text::dec(stored(p.homes, i)), crate::text::dec(ds[i].buffer)],
            ),
        )
    } else if peak > ds[i].buffer {
        Some(
            crate::text::filled(
                "$a peaks at $b bytes with a buffer of $c"@,
                seq![ds[i].name, crate::text::dec(peak), crate::text::dec(ds[i].buffer)],
            ),
        )
    } else {
        device_fault(p, ds, i + 1)
    }
}

/// The first fault of the code phases of a window from `i` on.
pub open spec fn phase_fault(w: Win, d: Dev, i: int) -> Option<Seq<char>>
    decreases w.phases.len() - i,
{
    if i >= w.phases.len() {
        None
    } else if crate::theory::plans::load(w.phases[i]) > d.code {
        Some(
            crate::text::filled(
                "window $a loads $b code bytes on $c"@,
                seq![w.name, crate::text::dec(crate::theory::plans::load(w.phases[i])), d.name],
            ),
        )
    } else {
        phase_fault(w, d, i + 1)
    }
}

pub open spec fn window_fault(w: Win, d: Dev) -> Option<Seq<char>> {
    if w.resident > d.buffer {
        Some(
            crate::text::filled(
                "window $a uses $b bytes on $c"@,
                seq![w.name, crate::text::dec(w.resident), d.name],
            ),
        )
    } else {
        phase_fault(w, d, 0)
    }
}

/// The first fault of the windows from `i` on.
pub open spec fn windows_fault(ws: Seq<Win>, ds: Seq<Dev>, i: int) -> Option<Seq<char>>
    decreases ws.len() - i,
{
    if i >= ws.len() {
        None
    } else {
        match window_fault(ws[i], ds[ws[i].device]) {
            Some(e) => Some(e),
            None => windows_fault(ws, ds, i + 1),
        }
    }
}

/// What is wrong with a plan for a model of so many parameters.
pub open spec fn plan_fault(p: Plan, ds: Seq<Dev>, elems: int) -> Option<Seq<char>> {
    if param_elems(p.homes) != elems {
        Some(
            crate::text::filled(
                "parameter homes cover $a elements, model has $b"@,
                seq![crate::text::dec(param_elems(p.homes)), crate::text::dec(elems)],
            ),
        )
    } else {
        match device_fault(p, ds, 0) {
            Some(e) => Some(e),
            None => windows_fault(p.windows, ds, 0),
        }
    }
}

proof fn lemma_no_device_fault(p: Plan, ds: Seq<Dev>, links: Seq<Link>, i: int)
    requires
        good_plan(p, ds, links),
        good_devices(ds),
        0 <= i,
    ensures
        device_fault(p, ds, i) is None,
    decreases ds.len() - i,
{
    if i < ds.len() {
        assert(p.peak[i] <= ds[i].buffer);
        assert(stored(p.homes, i) <= ds[i].buffer);
        lemma_no_device_fault(p, ds, links, i + 1);
    }
}

proof fn lemma_no_phase_fault(w: Win, ds: Seq<Dev>, links: Seq<Link>, i: int)
    requires
        good_window(w, ds, links),
        0 <= i,
    ensures
        phase_fault(w, ds[w.device], i) is None,
    decreases w.phases.len() - i,
{
    if i < w.phases.len() {
        assert(crate::theory::plans::load(w.phases[i]) <= ds[w.device].code);
        lemma_no_phase_fault(w, ds, links, i + 1);
    }
}

proof fn lemma_no_windows_fault(p: Plan, ds: Seq<Dev>, links: Seq<Link>, i: int)
    requires
        good_plan(p, ds, links),
        0 <= i,
    ensures
        windows_fault(p.windows, ds, i) is None,
    decreases p.windows.len() - i,
{
    if i < p.windows.len() {
        assert(good_window(p.windows[i], ds, links));
        lemma_no_phase_fault(p.windows[i], ds, links, 0);
        lemma_no_windows_fault(p, ds, links, i + 1);
    }
}

/// A plan that a cluster can carry out passes the check for its number of
/// parameters.
pub proof fn law_checked(p: Plan, ds: Seq<Dev>, links: Seq<Link>)
    requires
        good_devices(ds),
        good_plan(p, ds, links),
    ensures
        plan_fault(p, ds, param_elems(p.homes)) is None,
{
    lemma_no_device_fault(p, ds, links, 0);
    lemma_no_windows_fault(p, ds, links, 0);
}

proof fn lemma_device_fault(p: Plan, ds: Seq<Dev>, i: int)
    requires
        0 <= i,
    ensures
        device_fault(p, ds, i) is None <==> forall|k: int|
            i <= k < ds.len() ==> stored(p.homes, k) <= (#[trigger] ds[k]).buffer && if k < p.peak.len() {
                p.peak[k] <= ds[k].buffer
            } else {
                0 <= ds[k].buffer
            },
    decreases ds.len() - i,
{
    if i < ds.len() {
        lemma_device_fault(p, ds, i + 1);
        if device_fault(p, ds, i) is None {
            assert forall|k: int| i <= k < ds.len() implies stored(p.homes, k) <= (#[trigger] ds[k]).buffer && if k
                < p.peak.len() {
                p.peak[k] <= ds[k].buffer
            } else {
                0 <= ds[k].buffer
            } by {
                if k > i {
                    assert(i + 1 <= k < ds.len());
                }
            }
        } else {
            assert(ds[i].buffer == ds[i].buffer);
        }
    }
}

proof fn lemma_phase_fault(w: Win, d: Dev, i: int)
    requires
        0 <= i,
    ensures
        phase_fault(w, d, i) is None <==> forall|k: int|
            i <= k < w.phases.len() ==> crate::theory::plans::load(#[trigger] w.phases[k]) <= d.code,
    decreases w.phases.len() - i,
{
    if i < w.phases.len() {
        lemma_phase_fault(w, d, i + 1);
        assert(w.phases[i] == w.phases[i]);
    }
}

proof fn lemma_windows_fault(ws: Seq<Win>, ds: Seq<Dev>, i: int)
    requires
        0 <= i,
    ensures
        windows_fault(ws, ds, i) is None <==> forall|k: int|
            i <= k < ws.len() ==> (#[trigger] ws[k]).resident <= ds[ws[k].device].buffer && phase_fault(
                ws[k],
                ds[ws[k].device],
                0,
            ) is None,
    decreases ws.len() - i,
{
    if i < ws.len() {
        lemma_windows_fault(ws, ds, i + 1);
        assert(ws[i] == ws[i]);
    }
}

/// The check of a plan passes exactly when the homes hold as many parameters
/// as the model has, no device stores more than its buffer or peaks above it,
/// and no window uses more than the buffer of its device or loads more code
/// at once than the device takes.
pub proof fn law_check_finds_every_fault(p: Plan, ds: Seq<Dev>, elems: int)
    ensures
        plan_fault(p, ds, elems) is None <==> {
            &&& param_elems(p.homes) == elems
            &&& forall|k: int|
                0 <= k < ds.len() ==> stored(p.homes, k) <= (#[trigger] ds[k]).buffer && if k < p.peak.len() {
                    p.peak[k] <= ds[k].buffer
                } else {
                    0 <= ds[k].buffer
                }
            &&& forall|k: int|
                0 <= k < p.windows.len() ==> {
                    let w = #[trigger] p.windows[k];
                    &&& w.resident <= ds[w.device].buffer
                    &&& forall|f: int|
                        0 <= f < w.phases.len() ==> crate::theory::plans::load(#[trigger] w.phases[f]) <= ds[w.device].code
                }
        },
{
    lemma_device_fault(p, ds, 0);
    lemma_windows_fault(p.windows, ds, 0);
    assert forall|k: int| 0 <= k < p.windows.len() implies (phase_fault(p.windows[k], ds[(#[trigger] p.windows[k]).device], 0) is None
        <==> forall|f: int|
        0 <= f < p.windows[k].phases.len() ==> crate::theory::plans::load(#[trigger] p.windows[k].phases[f])
            <= ds[p.windows[k].device].code) by {
        lemma_phase_fault(p.windows[k], ds[p.windows[k].device], 0);
    }
}

// ----- the device of a job -----

/// The device can run the job: it loads the kernels, has room, and the
/// parameters and activations reach it.
pub open spec fn suits(s: State, i: int, j: Job) -> bool {
    &&& crate::theory::plans::phases(s.devices[i], j.placing) is Some
    &&& s.held[i] + j.footprint - (if j.home == Some(i) {
        j.param
    } else {
        0
    }) <= s.devices[i].buffer
    &&& s.job_fault(i, j) is None
}

/// Device `d` is the best of those before `k` that suit.
spec fn best_of(s: State, j: Job, k: int, d: int) -> bool {
    &&& 0 <= d < k
    &&& suits(s, d, j)
    &&& forall|i: int|
        0 <= i < k && #[trigger] suits(s, i, j) ==> {
            &&& s.devices[d].kind == DeviceKind::Gpu || s.devices[i].kind == DeviceKind::Cpu
            &&& s.devices[d].kind == s.devices[i].kind ==> s.resident(d, j) <= s.resident(i, j)
            &&& s.devices[d].kind == s.devices[i].kind && i < d ==> s.resident(d, j) < s.resident(i, j)
        }
}

proof fn lemma_best(s: State, j: Job, k: int)
    requires
        0 <= k <= s.count(),
    ensures
        match s.scan(j, k).best {
            Some(d) => best_of(s, j, k, d),
            None => forall|i: int| 0 <= i < k ==> !(#[trigger] suits(s, i, j)),
        },
    decreases k,
{
    if k > 0 {
        lemma_best(s, j, k - 1);
        assert(suits(s, k - 1, j) || !suits(s, k - 1, j));
    }
}

/// A job runs on a device that suits it: on a GPU if one suits, on one with
/// the fewest resident bytes, and on the first of several. It finds a device
/// exactly when one suits.
pub proof fn law_placed_best(s: State, j: Job)
    ensures
        s.place(j) is Ok <==> exists|i: int| 0 <= i < s.count() && #[trigger] suits(s, i, j),
        s.place(j) matches Ok(d) ==> {
            &&& 0 <= d < s.count()
            &&& suits(s, d, j)
            &&& forall|i: int|
                0 <= i < s.count() && #[trigger] suits(s, i, j) ==> {
                    &&& s.devices[d].kind == DeviceKind::Gpu || s.devices[i].kind == DeviceKind::Cpu
                    &&& s.devices[d].kind == s.devices[i].kind ==> s.resident(d, j) <= s.resident(i, j)
                    &&& s.devices[d].kind == s.devices[i].kind && i < d ==> s.resident(d, j) < s.resident(i, j)
                }
        },
{
    lemma_best(s, j, s.count());
}

// ----- the bytes of a tile -----

/// What a linear tile needs grows with its sides: a row of the batch brings an
/// input with its cotangent and an output, an input feature brings a column
/// of the batch and a row of the weight with their cotangents, and an output
/// feature brings a column of the output and a column of the weight with its
/// cotangent. A mask has a byte for each output. Nothing needs nothing.
pub proof fn law_linear_need(rows: int, din: int, dout: int, mask: bool)
    ensures
        crate::theory::plans::linear_need(0, 0, 0, mask) == 0,
        crate::theory::plans::linear_need(rows + 1, din, dout, mask) - crate::theory::plans::linear_need(rows, din, dout, mask) == 8 * din + 4 * dout + if mask {
            dout
        } else {
            0
        },
        crate::theory::plans::linear_need(rows, din + 1, dout, mask) - crate::theory::plans::linear_need(rows, din, dout, mask) == 8 * rows + 8 * dout,
        crate::theory::plans::linear_need(rows, din, dout + 1, mask) - crate::theory::plans::linear_need(rows, din, dout, mask) == 4 * rows + 8 * din + if mask {
            rows
        } else {
            0
        },
{
    assert((rows + 1) * din == rows * din + din && (rows + 1) * dout == rows * dout + dout) by (nonlinear_arith);
    assert(rows * (din + 1) == rows * din + rows && (din + 1) * dout == din * dout + dout) by (nonlinear_arith);
    assert(rows * (dout + 1) == rows * dout + rows && din * (dout + 1) == din * dout + din) by (nonlinear_arith);
}

/// What an attention tile needs grows with its sides: a query brings its
/// features and its probabilities, a key the same, and a feature a column of
/// queries and of keys, all with their cotangents.
pub proof fn law_attention_need(queries: int, keys: int, dim: int)
    ensures
        crate::theory::plans::attention_need(0, 0, 0) == 0,
        crate::theory::plans::attention_need(queries + 1, keys, dim) - crate::theory::plans::attention_need(queries, keys, dim) == 8 * dim + 8 * keys,
        crate::theory::plans::attention_need(queries, keys + 1, dim) - crate::theory::plans::attention_need(queries, keys, dim) == 8 * dim + 8 * queries,
        crate::theory::plans::attention_need(queries, keys, dim + 1) - crate::theory::plans::attention_need(queries, keys, dim) == 8 * queries + 8 * keys,
{
    assert((queries + 1) * dim == queries * dim + dim && (queries + 1) * keys == queries * keys + keys) by (nonlinear_arith);
    assert((keys + 1) * dim == keys * dim + dim && queries * (keys + 1) == queries * keys + queries) by (nonlinear_arith);
    assert(queries * (dim + 1) == queries * dim + queries && keys * (dim + 1) == keys * dim + keys) by (nonlinear_arith);
}

/// The tape of a layer grows with its tokens: each brings two normed inputs
/// with their scales, its queries, keys, values and attention output, its
/// scores against a sequence, its logits and chosen weights twice over the
/// experts it goes to, two activations of every expert, and the numbers of
/// the experts it goes to.
pub proof fn law_tape_need(c: MixtralConfig, n: int, seq: int)
    ensures
        crate::theory::plans::tape_need(c, 0, seq) == 0,
        crate::theory::plans::tape_need(c, n + 1, seq) - crate::theory::plans::tape_need(c, n, seq) == 4 * (2 * c.dim + 2 + 2
            * c.q_width() + 2 * c.kv_width() + c.heads * seq + c.experts + 2 * c.top_k + 2 * (c.experts * c.intermediate)) + 8
            * c.top_k,
{
    let d = c.dim as int;
    let q = c.q_width();
    let k = c.kv_width();
    let h = c.heads as int;
    let e = c.experts as int;
    let t = c.top_k as int;
    let i = c.intermediate as int;
    let m = n + 1;
    assert(m * d == n * d + d && m * q == n * q + q && m * k == n * k + k && m * e == n * e + e && m * t == n * t + t)
        by (nonlinear_arith)
        requires m == n + 1;
    assert(m * h * seq == n * h * seq + h * seq) by (nonlinear_arith)
        requires m == n + 1;
    assert(e * m * i == e * n * i + e * i) by (nonlinear_arith)
        requires m == n + 1;
    assert(m * t * 8 == n * t * 8 + 8 * t) by (nonlinear_arith)
        requires m == n + 1;
    assert(0 * h * seq == 0 && e * 0 * i == 0 && 0 * t * 8 == 0 && 0 * d == 0 && 0 * q == 0 && 0 * k == 0 && 0 * e == 0 && 0 * t
        == 0) by (nonlinear_arith);
}

// ----- choices of devices -----

/// A home goes to a CPU wherever one has room, and else to any device with
/// room. Of those it takes the one with the most free bytes, and the last of
/// several. It finds none exactly when no device has room.
pub proof fn law_home_choice(s: State, need: int)
    ensures
        match s.pick(need) {
            Some(d) => {
                &&& 0 <= d < s.count()
                &&& s.free[d] >= need
                &&& forall|i: int|
                    0 <= i < s.count() && #[trigger] s.free[i] >= need ==> {
                        &&& s.devices[i].kind == DeviceKind::Cpu ==> s.devices[d].kind == DeviceKind::Cpu
                        &&& s.devices[i].kind == s.devices[d].kind ==> s.free[i] <= s.free[d]
                        &&& s.devices[i].kind == s.devices[d].kind && s.free[i] == s.free[d] ==> i <= d
                    }
            },
            None => forall|i: int| 0 <= i < s.count() ==> #[trigger] s.free[i] < need,
        },
{
    let free = s.free;
    let devices = s.devices;
    let cpu = |i: int| devices[i].kind == DeviceKind::Cpu && free[i] >= need;
    let any = |i: int| free[i] >= need;
    law_last_max(s.count(), cpu, |i: int| free[i]);
    law_last_max(s.count(), any, |i: int| free[i]);
    assert forall|i: int| 0 <= i < s.count() && #[trigger] s.free[i] >= need implies any(i) && (s.devices[i].kind
        == DeviceKind::Cpu ==> cpu(i)) by {
    }
    assert(s.pick(need) == {
        let c = crate::theory::plans::last_max(s.count(), cpu, |i: int| free[i]);
        if c is Some {
            c
        } else {
            crate::theory::plans::last_max(s.count(), any, |i: int| free[i])
        }
    });
    if let Some(d) = s.pick(need) {
        assert forall|i: int| 0 <= i < s.count() && #[trigger] s.free[i] >= need implies {
            &&& s.devices[i].kind == DeviceKind::Cpu ==> s.devices[d].kind == DeviceKind::Cpu
            &&& s.devices[i].kind == s.devices[d].kind ==> s.free[i] <= s.free[d]
            &&& s.devices[i].kind == s.devices[d].kind && s.free[i] == s.free[d] ==> i <= d
        } by {
            assert(any(i));
            assert(cpu(i) || !cpu(i));
        }
    } else {
        assert forall|i: int| 0 <= i < s.count() implies #[trigger] s.free[i] < need by {
            assert(!any(i));
        }
    }
}

/// An activation waits on the device with the most free bytes, on a CPU rather
/// than on a GPU with as many, and on the last of several. It waits nowhere
/// when it has no bytes, or when no device has room for them.
pub proof fn law_activation_choice(s: State, bytes: int)
    ensures
        match s.activation_home(bytes) {
            Some(h) => {
                &&& bytes != 0
                &&& 0 <= h < s.count()
                &&& s.free[h] >= bytes
                &&& forall|i: int|
                    0 <= i < s.count() && #[trigger] s.free[i] >= bytes ==> {
                        &&& s.free[i] <= s.free[h]
                        &&& s.free[i] == s.free[h] && s.devices[i].kind == DeviceKind::Cpu ==> s.devices[h].kind
                            == DeviceKind::Cpu
                        &&& s.free[i] == s.free[h] && s.devices[i].kind == s.devices[h].kind ==> i <= h
                    }
            },
            None => bytes == 0 || forall|i: int| 0 <= i < s.count() ==> #[trigger] s.free[i] < bytes,
        },
{
    let free = s.free;
    let devices = s.devices;
    let ok = |i: int| free[i] >= bytes;
    let key = |i: int|
        free[i] * 2 + if devices[i].kind == DeviceKind::Cpu {
            1int
        } else {
            0int
        };
    law_last_max(s.count(), ok, key);
    if bytes != 0 {
        assert(s.activation_home(bytes) == crate::theory::plans::last_max(s.count(), ok, key));
        assert forall|i: int| 0 <= i < s.count() implies ok(i) == (#[trigger] s.free[i] >= bytes) by {
        }
    }
}

/// A home is updated where it is if its device can, and else on the first
/// device that can. There is none exactly when no device can.
pub proof fn law_update_choice(s: State, home: int, bytes: int)
    requires
        0 <= home < s.count(),
    ensures
        s.sgd_device(home, bytes) is Ok <==> exists|i: int| 0 <= i < s.count() && #[trigger] s.updates(i, home, bytes),
        s.sgd_device(home, bytes) matches Ok(d) ==> {
            &&& 0 <= d < s.count()
            &&& s.updates(d, home, bytes)
            &&& s.updates(home, home, bytes) ==> d == home
            &&& !s.updates(home, home, bytes) ==> forall|i: int| 0 <= i < d ==> !(#[trigger] s.updates(i, home, bytes))
        },
{
    lemma_first_updater(s, home, bytes, 0);
}

proof fn lemma_first_updater(s: State, home: int, bytes: int, i: int)
    requires
        0 <= i,
    ensures
        match s.updater(home, bytes, i) {
            Some(d) => {
                &&& i <= d < s.count()
                &&& s.updates(d, home, bytes)
                &&& forall|k: int| i <= k < d ==> !(#[trigger] s.updates(k, home, bytes))
            },
            None => forall|k: int| i <= k < s.count() ==> !(#[trigger] s.updates(k, home, bytes)),
        },
    decreases s.count() - i,
{
    if i < s.count() && !s.updates(i, home, bytes) {
        lemma_first_updater(s, home, bytes, i + 1);
    }
}

/// Tiles are cut no smaller than they must be: where the given tile fits on
/// some device it is kept, what is chosen fits on some device, and there is no
/// choice only where a tile of one row, one feature and one output fits on
/// none.
pub proof fn law_tile_choice(s: State, t: Task, a: int, b: int, c: int)
    requires
        0 < a,
        0 < b,
        0 < c,
    ensures
        match s.shrink(t, a, b, c) {
            Ok(x) => {
                &&& 0 < x.0 <= a && 0 < x.1 <= b && 0 < x.2 <= c
                &&& s.some_fits(t.need(x.0, x.1, x.2), t.cutting())
                &&& s.some_fits(t.need(a, b, c), t.cutting()) ==> x == (a, b, c)
            },
            Err(e) => !s.some_fits(t.need(1, 1, 1), t.cutting()) && !s.some_fits(t.need(a, b, c), t.cutting()),
        },
    decreases a + b + c,
{
    if s.some_fits(t.need(a, b, c), t.cutting()) {
    } else if c >= a && c >= b && c > 1 {
        law_tile_choice(s, t, a, b, (c + 1) / 2);
    } else if a >= b && a > 1 {
        law_tile_choice(s, t, (a + 1) / 2, b, c);
    } else if b > 1 {
        law_tile_choice(s, t, a, (b + 1) / 2, c);
    } else {
        assert(a == 1 && b == 1 && c == 1);
    }
}

/// A model is refused at once where there is no device, and where its
/// parameters have more bytes than all buffers together.
pub proof fn law_model_refused(c: MixtralConfig, batch: int, seq: int, ds: Seq<Dev>, links: Seq<Link>)
    ensures
        ({
            let r = crate::theory::plans::mixtral_plan(c, batch, seq, ds, links);
            let all = crate::theory::sums::sum(ds.len() as int, |i: int| ds[i].buffer);
            &&& ds.len() == 0 ==> r == Err::<Plan, Fault>(Fault::NoDevice)
            &&& ds.len() > 0 && c.total() * 4 > all ==> r == Err::<Plan, Fault>(
                Fault::ParamsExceedCluster { params: c.total() * 4, capacity: all },
            )
        }),
{
    law_matrices_fill_the_buffer(c, batch * seq);
}

/// A program is refused at once where there is no device, and where its
/// parameters and its tape have more bytes than all buffers together.
pub proof fn law_program_refused(stages: Seq<Stage>, tape: int, ds: Seq<Dev>, links: Seq<Link>)
    ensures
        ({
            let r = crate::theory::plans::program_plan(stages, tape, ds, links);
            let ms = crate::theory::plans::program_mats(stages);
            let bytes = crate::theory::plans::mats_len(ms, ms.len() as int) * 4 + tape;
            let all = crate::theory::sums::sum(ds.len() as int, |i: int| ds[i].buffer);
            &&& ds.len() == 0 ==> r == Err::<Plan, Fault>(Fault::NoDevice)
            &&& ds.len() > 0 && bytes > all ==> r == Err::<Plan, Fault>(
                Fault::ParamsExceedCluster { params: bytes, capacity: all },
            )
        }),
{
}

// ----- the kernels of a plan -----

proof fn lemma_noted_phase(ks: Seq<Kernel>, phase: Seq<Kernel>, n: int)
    requires
        ks.no_duplicates(),
        0 <= n <= phase.len(),
    ensures
        crate::theory::plans::noted_phase(ks, phase, n).no_duplicates(),
        forall|k: Kernel| #[trigger]
            crate::theory::plans::noted_phase(ks, phase, n).contains(k) <==> ks.contains(k) || (k != Kernel::CpuRuntime
                && phase.take(n).contains(k)),
    decreases n,
{
    if n > 0 {
        lemma_noted_phase(ks, phase, n - 1);
        let before = crate::theory::plans::noted_phase(ks, phase, n - 1);
        let after = crate::theory::plans::noted_phase(ks, phase, n);
        let x = phase[n - 1];
        assert(phase.take(n) =~= phase.take(n - 1).push(x));
        assert forall|k: Kernel| #[trigger] after.contains(k) <==> before.contains(k) || (k == x && x != Kernel::CpuRuntime) by {
            if before.contains(k) {
                let i = choose|i: int| 0 <= i < before.len() && before[i] == k;
                assert(after[i] == k);
            }
            if k == x && x != Kernel::CpuRuntime && !before.contains(x) {
                assert(after[before.len() as int] == k);
            }
        }
        assert forall|k: Kernel| #[trigger] phase.take(n).contains(k) <==> phase.take(n - 1).contains(k) || k == x by {
            let (p, q) = (phase.take(n), phase.take(n - 1));
            if q.contains(k) {
                let i = choose|i: int| 0 <= i < q.len() && q[i] == k;
                assert(p[i] == k);
            }
            assert(p[n - 1] == x);
        }
    } else {
        assert(phase.take(0).len() == 0);
    }
}

/// The kernel occurs in one of the first `n` phases.
pub open spec fn phases_load(ps: Seq<Seq<Kernel>>, n: int, k: Kernel) -> bool {
    exists|i: int| 0 <= i < n && (#[trigger] ps[i]).contains(k)
}

proof fn lemma_noted_phases(ks: Seq<Kernel>, ps: Seq<Seq<Kernel>>, n: int)
    requires
        ks.no_duplicates(),
        0 <= n <= ps.len(),
    ensures
        crate::theory::plans::noted_phases(ks, ps, n).no_duplicates(),
        forall|k: Kernel| #[trigger]
            crate::theory::plans::noted_phases(ks, ps, n).contains(k) <==> ks.contains(k) || (k != Kernel::CpuRuntime
                && phases_load(ps, n, k)),
    decreases n,
{
    if n > 0 {
        lemma_noted_phases(ks, ps, n - 1);
        let before = crate::theory::plans::noted_phases(ks, ps, n - 1);
        let last = ps[n - 1];
        lemma_noted_phase(before, last, last.len() as int);
        assert(last.take(last.len() as int) =~= last);
        assert forall|k: Kernel| phases_load(ps, n, k) <==> #[trigger] phases_load(ps, n - 1, k) || ps[n - 1].contains(k) by {
        }
        assert forall|k: Kernel| #[trigger]
            crate::theory::plans::noted_phases(ks, ps, n).contains(k) <==> ks.contains(k) || (k != Kernel::CpuRuntime
                && phases_load(ps, n, k)) by {
            assert(phases_load(ps, n, k) <==> phases_load(ps, n - 1, k) || ps[n - 1].contains(k));
            assert(before.contains(k) <==> ks.contains(k) || (k != Kernel::CpuRuntime && phases_load(ps, n - 1, k)));
        }
    }
}

/// A kernel is recorded for the first `n` windows exactly if one of them loads
/// it and it is not the runtime of the CPU, and it is recorded once.
pub proof fn law_gpu_kernels(ws: Seq<Win>, n: int)
    requires
        0 <= n <= ws.len(),
    ensures
        crate::theory::plans::gpu_kernels(ws, n).no_duplicates(),
        forall|k: Kernel| #[trigger]
            crate::theory::plans::gpu_kernels(ws, n).contains(k) <==> k != Kernel::CpuRuntime && exists|i: int|
                0 <= i < n && phases_load((#[trigger] ws[i]).phases, ws[i].phases.len() as int, k),
    decreases n,
{
    if n > 0 {
        law_gpu_kernels(ws, n - 1);
        let before = crate::theory::plans::gpu_kernels(ws, n - 1);
        let ps = ws[n - 1].phases;
        lemma_noted_phases(before, ps, ps.len() as int);
        assert forall|k: Kernel| #[trigger]
            crate::theory::plans::gpu_kernels(ws, n).contains(k) <==> k != Kernel::CpuRuntime && exists|i: int|
                0 <= i < n && phases_load((#[trigger] ws[i]).phases, ws[i].phases.len() as int, k) by {
            assert(crate::theory::plans::noted_phases(before, ps, ps.len() as int).contains(k) <==> before.contains(k) || (k
                != Kernel::CpuRuntime && phases_load(ps, ps.len() as int, k)));
            if phases_load(ps, ps.len() as int, k) {
                assert(phases_load(ws[n - 1].phases, ws[n - 1].phases.len() as int, k));
            }
        }
    }
}

} // verus!
