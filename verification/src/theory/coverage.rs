//! What the windows of a plan compute: each piece of work of the model or of
//! the program is done once on the forward pass and once on the backward
//! pass, with the sizes and the kernels that belong to it.
use vstd::prelude::*;
use crate::cluster::{DeviceKind, Exec, HomeKind, Kernel, Link, Pass, Role};
use crate::kernel::Stage;
use crate::mixtral::MixtralConfig;
use crate::theory::plans::{Dev, Fault, Job, Mat, Move, Place, Plan, State, Task, Win};

verus! {

// ----- pieces of work -----

/// What a window of a piece of work is charged for.
#[verifier::ext_equal]
pub enum Charge {
    /// One window does all of it.
    Whole { name: Seq<char>, tape: int, param: int },
    /// A tile of a matrix, with the activations on both sides of it and
    /// perhaps a mask.
    Weight { name: Seq<char>, mask: bool, extra: int },
    /// A tile of attention scores.
    Scores { name: Seq<char> },
    /// A tile of logits.
    Logits,
}

/// A piece of work: an operation over a box of batch, rows and columns.
#[verifier::ext_equal]
pub struct Piece {
    pub op: Exec,
    pub layer: int,
    pub expert: int,
    pub offset: int,
    pub din: int,
    pub dout: int,
    pub batch: int,
    pub rows: int,
    pub cols: int,
    pub charge: Charge,
    /// The matrix that the work reads.
    pub store: Option<Seq<char>>,
    pub fwd: Seq<Kernel>,
    pub bwd: Seq<Kernel>,
}

/// The name of a tile: the name of the matrix, and the batch, the rows and the
/// columns of the tile.
pub open spec fn tile_name(name: Seq<char>, w: Win) -> Seq<char> {
    crate::text::filled(
        "$a[$b:$c,$d:$e,$f:$g]"@,
        seq![
            name,
            crate::text::dec(w.batch_begin),
            crate::text::dec(w.batch_end),
            crate::text::dec(w.row_begin),
            crate::text::dec(w.row_end),
            crate::text::dec(w.col_begin),
            crate::text::dec(w.col_end),
        ],
    )
}

/// The name of a window of the piece, and the bytes of tape and of parameters
/// that it moves.
pub open spec fn charged(w: Win, d: Piece) -> bool {
    let b = w.batch_end - w.batch_begin;
    let r = w.row_end - w.row_begin;
    let c = w.col_end - w.col_begin;
    match d.charge {
        Charge::Whole { name, tape, param } => {
            &&& w.name == name
            &&& w.tape == tape
            &&& w.param == param
            &&& w.batch_begin == 0 && w.batch_end == d.batch
            &&& w.row_begin == 0 && w.row_end == d.rows
            &&& w.col_begin == 0 && w.col_end == d.cols
        },
        Charge::Weight { name, mask, .. } => {
            &&& w.name == tile_name(name, w)
            &&& w.tape == b * r * 4 + b * c * 4 + if mask {
                b * c
            } else {
                0
            }
            &&& w.param == r * c * 4
        },
        Charge::Scores { name } => {
            &&& w.name == tile_name(name, w)
            &&& w.tape == b * r * 4
            &&& w.param == 0
        },
        Charge::Logits => {
            &&& w.name == crate::text::filled(
                "loss[$a:$b,$c:$d]"@,
                seq![
                    crate::text::dec(w.batch_begin),
                    crate::text::dec(w.batch_end),
                    crate::text::dec(w.col_begin),
                    crate::text::dec(w.col_end),
                ],
            )
            &&& w.tape == b * c * 4
            &&& w.param == 0
        },
    }
}

/// The devices of a plan, and what they hold.
#[verifier::ext_equal]
pub struct Site {
    pub devs: Seq<Dev>,
    pub homes: Seq<Place>,
}

/// The device of a home that holds this element of this matrix, if any does.
pub open spec fn lives(homes: Seq<Place>, name: Seq<char>, row: int, col: int, device: int) -> bool {
    ||| exists|k: int|
        0 <= k < homes.len() && crate::theory::plans::holds(#[trigger] homes[k], name, row, col) && homes[k].device == device
    ||| forall|k: int| 0 <= k < homes.len() ==> !crate::theory::plans::holds(#[trigger] homes[k], name, row, col)
}

/// The bytes that a window of the piece works in.
pub open spec fn workspace(w: Win, d: Piece) -> int {
    let b = w.batch_end - w.batch_begin;
    let r = w.row_end - w.row_begin;
    let c = w.col_end - w.col_begin;
    match d.charge {
        Charge::Whole { tape, param, .. } => tape + param,
        Charge::Weight { mask, extra, .. } => crate::theory::plans::linear_need(b, r, c, mask) + extra,
        Charge::Scores { .. } => crate::theory::plans::attention_need(b, r, c),
        Charge::Logits => crate::theory::plans::linear_need(b, 1, c, false),
    }
}

/// The device of a window holds its homes and `bytes` to work in, which count
/// the parameters only where they are not at home.
pub open spec fn resides(at: Site, w: Win, bytes: int) -> bool {
    w.resident == crate::theory::plan_laws::stored(at.homes, w.device) + bytes - if w.home == w.device {
        w.param
    } else {
        0
    }
}

/// The window does a part of the piece, on this pass.
pub open spec fn does(at: Site, pass: Pass, w: Win, d: Piece) -> bool {
    &&& w.pass == pass
    &&& w.op == d.op
    &&& w.layer == d.layer
    &&& w.expert == d.expert
    &&& w.offset == d.offset
    &&& w.din == d.din
    &&& w.dout == d.dout
    &&& 0 <= w.batch_begin <= w.batch_end <= d.batch
    &&& 0 <= w.row_begin <= w.row_end <= d.rows
    &&& 0 <= w.col_begin <= w.col_end <= d.cols
    &&& charged(w, d)
    &&& match d.store {
        Some(name) => lives(at.homes, name, w.row_begin, w.col_begin, w.home),
        None => w.home == w.device,
    }
    &&& resides(at, w, workspace(w, d))
    &&& 0 <= w.device < at.devs.len()
    &&& crate::theory::plans::phases(
        at.devs[w.device],
        if pass == Pass::Fwd {
            d.fwd
        } else {
            d.bwd
        },
    ) == Some(w.phases)
}

/// A point of batch, rows and columns lies in the box of the window.
pub open spec fn touches(w: Win, p: (int, int, int)) -> bool {
    &&& w.batch_begin <= p.0 < w.batch_end
    &&& w.row_begin <= p.1 < w.row_end
    &&& w.col_begin <= p.2 < w.col_end
}

pub open spec fn spans(d: Piece, p: (int, int, int)) -> bool {
    0 <= p.0 < d.batch && 0 <= p.1 < d.rows && 0 <= p.2 < d.cols
}

pub open spec fn one_if(b: bool) -> int {
    if b {
        1
    } else {
        0
    }
}

/// The number of windows whose box holds the point.
pub open spec fn touched(ws: Seq<Win>, p: (int, int, int)) -> int
    decreases ws.len(),
{
    if ws.len() == 0 {
        0
    } else {
        touched(ws.drop_last(), p) + one_if(touches(ws.last(), p))
    }
}

/// The windows do the piece: all of them do a part of it, and each point of
/// its box lies in one of them.
pub open spec fn done(at: Site, pass: Pass, ws: Seq<Win>, d: Piece) -> bool {
    &&& forall|i: int| 0 <= i < ws.len() ==> does(at, pass, #[trigger] ws[i], d)
    &&& forall|p: (int, int, int)| #[trigger] touched(ws, p) == one_if(spans(d, p))
}

/// The windows do the pieces, one after another.
#[verifier::opaque]
pub open spec fn all_done(at: Site, pass: Pass, ws: Seq<Win>, list: Seq<Piece>) -> bool
    decreases list.len(),
{
    if list.len() == 0 {
        ws.len() == 0
    } else {
        exists|m: int|
            0 <= m <= ws.len() && all_done(at, pass, #[trigger] ws.take(m), list.drop_last()) && done(
                at,
                pass,
                ws.skip(m),
                list.last(),
            )
    }
}

proof fn lemma_all_done_one(at: Site, pass: Pass, ws: Seq<Win>, d: Piece)
    requires
        done(at, pass, ws, d),
    ensures
        all_done(at, pass, ws, seq![d]),
{
    reveal_with_fuel(all_done, 2);
    assert(seq![d].drop_last() =~= Seq::<Piece>::empty());
    assert(all_done(at, pass, ws.take(0), seq![d].drop_last()));
    assert(ws.skip(0) =~= ws);
}

proof fn lemma_all_done_none(at: Site, pass: Pass)
    ensures
        all_done(at, pass, Seq::empty(), Seq::empty()),
{
    reveal_with_fuel(all_done, 1);
}

proof fn lemma_all_done_add(at: Site, pass: Pass, x: Seq<Win>, a: Seq<Piece>, y: Seq<Win>, b: Seq<Piece>)
    requires
        all_done(at, pass, x, a),
        all_done(at, pass, y, b),
    ensures
        all_done(at, pass, x + y, a + b),
    decreases b.len(),
{
    reveal_with_fuel(all_done, 1);
    if b.len() == 0 {
        assert(x + y =~= x);
        assert(a + b =~= a);
    } else {
        let m = choose|m: int|
            0 <= m <= y.len() && all_done(at, pass, #[trigger] y.take(m), b.drop_last()) && done(
                at,
                pass,
                y.skip(m),
                b.last(),
            );
        lemma_all_done_add(at, pass, x, a, y.take(m), b.drop_last());
        let k = x.len() + m;
        assert((x + y).take(k) =~= x + y.take(m));
        assert((x + y).skip(k) =~= y.skip(m));
        assert((a + b).drop_last() =~= a + b.drop_last());
        assert((a + b).last() == b.last());
        assert(all_done(at, pass, (x + y).take(k), (a + b).drop_last()));
    }
}

/// The transfers of a forward window, then those of its adjoint: what comes
/// before what leaves.
pub open spec fn hauls(f: Win, b: Win) -> Seq<Move> {
    crate::theory::plans::moves(f.inbound) + crate::theory::plans::moves(f.outbound) + crate::theory::plans::moves(b.inbound)
        + crate::theory::plans::moves(b.outbound)
}

/// The transfers of forward windows and their adjoints.
pub open spec fn trail(fwd: Seq<Win>, bwd: Seq<Win>) -> Seq<Move> {
    crate::theory::listing::cat(fwd.len() as int, |i: int| hauls(fwd[i], bwd[i]))
}

proof fn lemma_trail_add(a: Seq<Win>, b: Seq<Win>, x: Seq<Win>, y: Seq<Win>)
    requires
        a.len() == b.len(),
        x.len() == y.len(),
    ensures
        trail(a + x, b + y) == trail(a, b) + trail(x, y),
{
    let n = a.len() as int;
    let f = |i: int| hauls((a + x)[i], (b + y)[i]);
    let g = |i: int| hauls(a[i], b[i]);
    let h = |i: int| hauls(x[i], y[i]);
    let rest = |i: int| f(n + i);
    lemma_cat_add(n, x.len() as int, f);
    crate::theory::plan_laws::lemma_cat_ext(n, f, g);
    crate::theory::plan_laws::lemma_cat_ext(x.len() as int, rest, h);
}

proof fn lemma_trail_one(f: Win, b: Win)
    ensures
        trail(seq![f], seq![b]) == hauls(f, b),
{
    let g = |i: int| hauls(seq![f][i], seq![b][i]);
    reveal_with_fuel(crate::theory::listing::cat, 2);
    assert(g(0) == hauls(f, b));
    assert(crate::theory::listing::cat(1, g) =~= g(0));
}

/// The peaks of `u` are those of `s`, raised to the windows that came after
/// those of `s`, and no further.
pub open spec fn rises(s: State, u: State) -> bool {
    let n = s.windows.len() as int;
    &&& u.peak.len() == s.peak.len()
    &&& forall|d: int| 0 <= d < s.peak.len() ==> s.peak[d] <= #[trigger] u.peak[d]
    &&& forall|i: int|
        n <= i < u.windows.len() ==> {
            &&& 0 <= (#[trigger] u.windows[i]).device < u.peak.len()
            &&& u.windows[i].resident <= u.peak[u.windows[i].device]
        }
    &&& forall|d: int|
        0 <= d < s.peak.len() && #[trigger] u.peak[d] != s.peak[d] ==> exists|i: int|
            n <= i < u.windows.len() && (#[trigger] u.windows[i]).device == d && u.windows[i].resident == u.peak[d]
}

proof fn lemma_rises_one(s: State, u: State)
    requires
        u.windows == s.windows.push(u.windows.last()),
        0 <= u.windows.last().device < s.peak.len(),
        u.peak == s.peak.update(
            u.windows.last().device,
            crate::theory::plans::most(s.peak[u.windows.last().device], u.windows.last().resident),
        ),
    ensures
        rises(s, u),
{
    let n = s.windows.len() as int;
    let w = u.windows.last();
    assert(u.windows[n] == w);
    assert forall|d: int| 0 <= d < s.peak.len() && #[trigger] u.peak[d] != s.peak[d] implies exists|i: int|
        n <= i < u.windows.len() && (#[trigger] u.windows[i]).device == d && u.windows[i].resident == u.peak[d] by {
        assert(u.windows[n].device == d);
    }
}

proof fn lemma_rises_trans(s: State, t: State, u: State)
    requires
        rises(s, t),
        rises(t, u),
        s.windows.is_prefix_of(t.windows),
        t.windows.is_prefix_of(u.windows),
    ensures
        rises(s, u),
{
    let n = s.windows.len() as int;
    let m = t.windows.len() as int;
    assert forall|i: int| 0 <= i < m implies u.windows[i] == #[trigger] t.windows[i] by {
        assert(t.windows =~= u.windows.take(m));
        assert(u.windows.take(m)[i] == u.windows[i]);
    }
    assert forall|d: int| 0 <= d < s.peak.len() implies s.peak[d] <= #[trigger] u.peak[d] by {
        assert(s.peak[d] <= t.peak[d]);
    }
    assert forall|i: int| n <= i < u.windows.len() implies {
        &&& 0 <= (#[trigger] u.windows[i]).device < u.peak.len()
        &&& u.windows[i].resident <= u.peak[u.windows[i].device]
    } by {
        if i < m {
            assert(u.windows[i] == t.windows[i]);
            assert(t.peak[t.windows[i].device] <= u.peak[t.windows[i].device]);
        }
    }
    assert forall|d: int| 0 <= d < s.peak.len() && #[trigger] u.peak[d] != s.peak[d] implies exists|i: int|
        n <= i < u.windows.len() && (#[trigger] u.windows[i]).device == d && u.windows[i].resident == u.peak[d] by {
        if u.peak[d] == t.peak[d] {
            let i = choose|i: int|
                n <= i < t.windows.len() && (#[trigger] t.windows[i]).device == d && t.windows[i].resident == t.peak[d];
            assert(u.windows[i] == t.windows[i]);
        }
    }
}

/// The windows that came after those of `s`, on both passes, their transfers
/// and what they raise.
pub open spec fn hauled(s: State, u: State) -> bool {
    let x = u.windows.skip(s.windows.len() as int);
    let y = u.later.skip(s.later.len() as int);
    &&& s.windows.is_prefix_of(u.windows)
    &&& s.later.is_prefix_of(u.later)
    &&& x.len() == y.len()
    &&& u.transfers == s.transfers + trail(x, y)
    &&& rises(s, u)
}

proof fn lemma_hauled_none(s: State)
    ensures
        hauled(s, s),
{
    let x = s.windows.skip(s.windows.len() as int);
    let y = s.later.skip(s.later.len() as int);
    assert(trail(x, y) =~= Seq::<Move>::empty());
    assert(s.transfers + Seq::<Move>::empty() =~= s.transfers);
}

proof fn lemma_hauled_trans(s: State, t: State, u: State)
    requires
        hauled(s, t),
        hauled(t, u),
    ensures
        hauled(s, u),
{
    let n = s.windows.len() as int;
    lemma_rises_trans(s, t, u);
    let m = s.later.len() as int;
    let a = t.windows.skip(n);
    let b = t.later.skip(m);
    let x = u.windows.skip(t.windows.len() as int);
    let y = u.later.skip(t.later.len() as int);
    assert(s.windows.is_prefix_of(u.windows)) by {
        assert(s.windows =~= t.windows.take(n));
        assert(s.windows =~= u.windows.take(n));
    }
    assert(s.later.is_prefix_of(u.later)) by {
        assert(s.later =~= t.later.take(m));
        assert(s.later =~= u.later.take(m));
    }
    assert(u.windows.skip(n) =~= a + x);
    assert(u.later.skip(m) =~= b + y);
    lemma_trail_add(a, b, x, y);
    assert(s.transfers + trail(a, b) + trail(x, y) =~= s.transfers + (trail(a, b) + trail(x, y)));
}

proof fn lemma_hauled_one(s: State, u: State)
    requires
        0 <= u.windows.last().device < s.peak.len(),
        u.peak == s.peak.update(
            u.windows.last().device,
            crate::theory::plans::most(s.peak[u.windows.last().device], u.windows.last().resident),
        ),
        u.windows == s.windows.push(u.windows.last()),
        u.later == s.later.push(u.later.last()),
        u.transfers == s.transfers + hauls(u.windows.last(), u.later.last()),
    ensures
        hauled(s, u),
{
    let f = u.windows.last();
    let b = u.later.last();
    lemma_rises_one(s, u);
    assert(u.windows.skip(s.windows.len() as int) =~= seq![f]);
    assert(u.later.skip(s.later.len() as int) =~= seq![b]);
    lemma_trail_one(f, b);
}

pub open spec fn site(s: State) -> Site {
    Site { devs: s.devices, homes: s.homes }
}

/// From `s` to `u` only windows came, and they do the pieces on both passes.
#[verifier::opaque]
pub open spec fn adds(s: State, u: State, list: Seq<Piece>) -> bool {
    &&& site(u) == site(s)
    &&& hauled(s, u)
    &&& s.windows.is_prefix_of(u.windows)
    &&& s.later.is_prefix_of(u.later)
    &&& all_done(site(s), Pass::Fwd, u.windows.skip(s.windows.len() as int), list)
    &&& all_done(site(s), Pass::Bwd, u.later.skip(s.later.len() as int), list)
}

proof fn lemma_adds_none(s: State)
    ensures
        adds(s, s, Seq::empty()),
{
    reveal(adds);
    lemma_hauled_none(s);
    lemma_all_done_none(site(s), Pass::Fwd);
    lemma_all_done_none(site(s), Pass::Bwd);
    assert(s.windows.skip(s.windows.len() as int) =~= Seq::<Win>::empty());
    assert(s.later.skip(s.later.len() as int) =~= Seq::<Win>::empty());
}

proof fn lemma_adds_trans(s: State, t: State, u: State, a: Seq<Piece>, b: Seq<Piece>)
    requires
        adds(s, t, a),
        adds(t, u, b),
    ensures
        adds(s, u, a + b),
{
    reveal(adds);
    lemma_hauled_trans(s, t, u);
    let n = s.windows.len() as int;
    let m = s.later.len() as int;
    let at = site(s);
    assert(s.windows.is_prefix_of(u.windows)) by {
        assert(s.windows =~= t.windows.take(n));
        assert(s.windows =~= u.windows.take(n));
    }
    assert(s.later.is_prefix_of(u.later)) by {
        assert(s.later =~= t.later.take(m));
        assert(s.later =~= u.later.take(m));
    }
    assert(u.windows.skip(n) =~= t.windows.skip(n) + u.windows.skip(t.windows.len() as int));
    assert(u.later.skip(m) =~= t.later.skip(m) + u.later.skip(t.later.len() as int));
    lemma_all_done_add(at, Pass::Fwd, t.windows.skip(n), a, u.windows.skip(t.windows.len() as int), b);
    lemma_all_done_add(at, Pass::Bwd, t.later.skip(m), a, u.later.skip(t.later.len() as int), b);
}

// ----- one job -----

/// The window has what the job asks for, on this pass.
spec fn carries(at: Site, pass: Pass, w: Win, j: Job) -> bool {
    &&& w.pass == pass
    &&& w.name == j.name
    &&& w.tape == j.tape
    &&& w.param == j.param
    &&& w.op == j.op
    &&& w.offset == j.offset
    &&& w.batch_begin == j.batch_begin
    &&& w.batch_end == j.batch_end
    &&& w.row_begin == j.row_begin
    &&& w.row_end == j.row_end
    &&& w.col_begin == j.col_begin
    &&& w.col_end == j.col_end
    &&& w.din == j.din
    &&& w.dout == j.dout
    &&& w.layer == j.layer
    &&& w.expert == j.expert
    &&& w.home == match j.home {
        Some(h) => h,
        None => w.device,
    }
    &&& w.resident == crate::theory::plan_laws::stored(at.homes, w.device) + j.footprint - if j.home == Some(w.device) {
        j.param
    } else {
        0
    }
    &&& 0 <= w.device < at.devs.len()
    &&& crate::theory::plans::phases(
        at.devs[w.device],
        if pass == Pass::Fwd {
            j.fwd
        } else {
            j.bwd
        },
    ) == Some(w.phases)
}

proof fn lemma_job(s: State, j: Job)
    requires
        s.sound(),
        crate::theory::plan_laws::good_job(j, s.count()),
    ensures
        s.work(j) matches Ok(u) ==> {
            &&& site(u) == site(s)
            &&& u.windows == s.windows.push(u.windows.last())
            &&& u.later == s.later.push(u.later.last())
            &&& u.transfers == s.transfers + hauls(u.windows.last(), u.later.last())
            &&& 0 <= u.windows.last().device < s.peak.len()
            &&& u.peak == s.peak.update(
                u.windows.last().device,
                crate::theory::plans::most(s.peak[u.windows.last().device], u.windows.last().resident),
            )
            &&& carries(site(s), Pass::Fwd, u.windows.last(), j)
            &&& carries(site(s), Pass::Bwd, u.later.last(), j)
        },
{
    crate::theory::plan_laws::lemma_scan(s, j, s.count());
    if let Ok(u) = s.work(j) {
        let d = s.place(j)->Ok_0;
        let r = s.resident(d, j);
        let dev = s.devices[d];
        crate::theory::plan_laws::lemma_fewer_kernels(dev, j.placing, j.fwd);
        crate::theory::plan_laws::lemma_fewer_kernels(dev, j.placing, j.bwd);
        let w1 = j.window(d, r, Pass::Fwd, crate::theory::plans::phases(dev, j.fwd)->0);
        let s0 = s.peaked(d, r);
        let x1 = s0.annotated(w1)->Ok_0;
        let s1 = s0.post(w1)->Ok_0;
        let w2 = j.window(d, r, Pass::Bwd, crate::theory::plans::phases(dev, j.bwd)->0);
        let x2 = s1.annotated(w2)->Ok_0;
        assert(u.windows == s.windows.push(x1));
        assert(u.later == s.later.push(x2));
        assert(s.held[d] == crate::theory::plan_laws::stored(s.homes, d));
        assert(u.transfers =~= s.transfers + hauls(x1, x2));
    }
}

/// The job does the whole piece.
spec fn whole(s: State, j: Job, d: Piece) -> bool {
    &&& j.home == match d.store {
        Some(name) => Some(s.home_of(name, 0, 0, 0)),
        None => None,
    }
    &&& d.charge == (Charge::Whole { name: j.name, tape: j.tape, param: j.param })
    &&& j.footprint == j.tape + j.param
    &&& j.home is None ==> j.param == 0
    &&& j.op == d.op
    &&& j.layer == d.layer
    &&& j.expert == d.expert
    &&& j.offset == d.offset
    &&& j.din == d.din
    &&& j.dout == d.dout
    &&& j.batch_begin == 0 && j.batch_end == d.batch && d.batch >= 0
    &&& j.row_begin == 0 && j.row_end == d.rows && d.rows >= 0
    &&& j.col_begin == 0 && j.col_end == d.cols && d.cols >= 0
    &&& j.fwd == d.fwd
    &&& j.bwd == d.bwd
}

proof fn lemma_lives(s: State, name: Seq<char>, row: int, col: int, k: int)
    requires
        0 <= k,
        forall|i: int| 0 <= i < k && i < s.homes.len() ==> !crate::theory::plans::holds(#[trigger] s.homes[i], name, row, col),
    ensures
        lives(s.homes, name, row, col, s.home_of(name, row, col, k)),
    decreases s.homes.len() - k,
{
    if k < s.homes.len() && !crate::theory::plans::holds(s.homes[k], name, row, col) {
        lemma_lives(s, name, row, col, k + 1);
    }
}

proof fn lemma_touched_one(w: Win, p: (int, int, int))
    ensures
        touched(seq![w], p) == one_if(touches(w, p)),
{
    reveal_with_fuel(touched, 2);
    assert(seq![w].drop_last() =~= Seq::<Win>::empty());
    assert(seq![w].last() == w);
}

proof fn lemma_whole(s: State, j: Job, d: Piece)
    requires
        s.sound(),
        crate::theory::plan_laws::good_job(j, s.count()),
        whole(s, j, d),
    ensures
        s.work(j) matches Ok(u) ==> adds(s, u, seq![d]),
{
    reveal(adds);
    lemma_job(s, j);
    if let Some(name) = d.store {
        lemma_lives(s, name, 0, 0, 0);
    }
    if let Ok(u) = s.work(j) {
        lemma_hauled_one(s, u);
        let x = u.windows.last();
        let y = u.later.last();
        assert(u.windows.skip(s.windows.len() as int) =~= seq![x]);
        assert(u.later.skip(s.later.len() as int) =~= seq![y]);
        assert(done(site(s), Pass::Fwd, seq![x], d)) by {
            assert forall|p: (int, int, int)| #[trigger] touched(seq![x], p) == one_if(spans(d, p)) by {
                lemma_touched_one(x, p);
            }
        }
        assert(done(site(s), Pass::Bwd, seq![y], d)) by {
            assert forall|p: (int, int, int)| #[trigger] touched(seq![y], p) == one_if(spans(d, p)) by {
                lemma_touched_one(y, p);
            }
        }
        lemma_all_done_one(site(s), Pass::Fwd, seq![x], d);
        lemma_all_done_one(site(s), Pass::Bwd, seq![y], d);
    }
}

// ----- one task -----

/// The piece of work that a matrix stands for.
pub open spec fn matrix_piece(m: Mat) -> Piece {
    Piece {
        op: crate::theory::plans::exec_of(m.fwd[0]),
        layer: crate::theory::plans::short(m.layer),
        expert: crate::theory::plans::role_code(m.role),
        offset: m.offset,
        din: m.rows,
        dout: m.cols,
        batch: m.batch,
        rows: m.rows,
        cols: m.cols,
        charge: Charge::Weight { name: m.name, mask: m.mask, extra: m.extra },
        store: Some(m.name),
        fwd: m.fwd,
        bwd: m.bwd,
    }
}

/// The piece of work that a task stands for. The rows of an attention are its
/// keys.
pub open spec fn task_piece(t: Task) -> Piece {
    match t {
        Task::Linear { matrix } => matrix_piece(matrix),
        Task::Attention { name, queries, keys, dim, layer, fwd, bwd } => Piece {
            op: Exec::Gqa,
            layer,
            expert: 0,
            offset: 0,
            din: keys,
            dout: dim,
            batch: queries,
            rows: keys,
            cols: dim,
            charge: Charge::Scores { name },
            store: None,
            fwd,
            bwd,
        },
        Task::Loss { tokens, vocab } => Piece {
            op: Exec::Loss,
            layer: 0,
            expert: 0,
            offset: 0,
            din: 1,
            dout: vocab,
            batch: tokens,
            rows: 1,
            cols: vocab,
            charge: Charge::Logits,
            store: None,
            fwd: seq![Kernel::Ce],
            bwd: seq![Kernel::Ce],
        },
    }
}

/// From `s` to `u` only windows came, and all do parts of the piece.
spec fn parts(s: State, u: State, d: Piece) -> bool {
    &&& site(u) == site(s)
    &&& hauled(s, u)
    &&& s.windows.is_prefix_of(u.windows)
    &&& s.later.is_prefix_of(u.later)
    &&& forall|i: int| s.windows.len() <= i < u.windows.len() ==> does(site(s), Pass::Fwd, #[trigger] u.windows[i], d)
    &&& forall|i: int| s.later.len() <= i < u.later.len() ==> does(site(s), Pass::Bwd, #[trigger] u.later[i], d)
}

proof fn lemma_parts_trans(s: State, t: State, u: State, d: Piece)
    requires
        parts(s, t, d),
        parts(t, u, d),
    ensures
        parts(s, u, d),
{
    lemma_hauled_trans(s, t, u);
    let n = s.windows.len() as int;
    let m = s.later.len() as int;
    assert(s.windows.is_prefix_of(u.windows)) by {
        assert(s.windows =~= t.windows.take(n));
        assert(s.windows =~= u.windows.take(n));
    }
    assert(s.later.is_prefix_of(u.later)) by {
        assert(s.later =~= t.later.take(m));
        assert(s.later =~= u.later.take(m));
    }
    assert forall|i: int| n <= i < u.windows.len() implies does(site(s), Pass::Fwd, #[trigger] u.windows[i], d) by {
        if i < t.windows.len() {
            assert(u.windows[i] == t.windows[i]);
        }
    }
    assert forall|i: int| m <= i < u.later.len() implies does(site(s), Pass::Bwd, #[trigger] u.later[i], d) by {
        if i < t.later.len() {
            assert(u.later[i] == t.later[i]);
        }
    }
}

proof fn lemma_tile_part(s: State, t: Task, a: (int, int), b: (int, int), c: (int, int))
    requires
        s.sound(),
        crate::theory::plan_laws::good_task(t),
        0 <= a.0 <= a.1 <= t.extents().0,
        0 <= b.0 <= b.1 <= t.extents().1,
        0 <= c.0 <= c.1 <= t.extents().2,
    ensures
        s.work(s.tile(t, a, b, c)) matches Ok(u) ==> parts(s, u, task_piece(t)),
{
    let j = s.tile(t, a, b, c);
    crate::theory::plan_laws::lemma_tile(s, t, a, b, c);
    lemma_job(s, j);
    if let Task::Linear { matrix } = t {
        lemma_lives(s, matrix.name, b.0, c.0, 0);
    }
    if let Ok(u) = s.work(j) {
        lemma_hauled_one(s, u);
        let x = u.windows.last();
        let y = u.later.last();
        let d = task_piece(t);
        assert(does(site(s), Pass::Fwd, x, d));
        assert(does(site(s), Pass::Bwd, y, d));
        assert(u.windows[s.windows.len() as int] == x);
        assert(u.later[s.later.len() as int] == y);
    }
}

proof fn lemma_parts_c(s: State, t: Task, st: (int, int, int), a: (int, int), b: (int, int), c: int)
    requires
        s.sound(),
        crate::theory::plan_laws::good_task(t),
        0 <= a.0 <= a.1 <= t.extents().0,
        0 <= b.0 <= b.1 <= t.extents().1,
        0 <= c,
    ensures
        s.tiles_c(t, st, a, b, c) matches Ok(u) ==> parts(s, u, task_piece(t)),
    decreases t.extents().2 - c,
{
    lemma_hauled_none(s);
    let end = t.extents().2;
    if c < end && st.2 > 0 {
        let next = crate::theory::plans::least(c + st.2, end);
        let j = s.tile(t, a, b, (c, next));
        lemma_tile_part(s, t, a, b, (c, next));
        crate::theory::plan_laws::lemma_tile(s, t, a, b, (c, next));
        crate::theory::plan_laws::lemma_work(s, j);
        if let Ok(u) = s.work(j) {
            lemma_parts_c(u, t, st, a, b, next);
            if let Ok(v) = u.tiles_c(t, st, a, b, next) {
                lemma_parts_trans(s, u, v, task_piece(t));
            }
        }
    }
}

proof fn lemma_parts_b(s: State, t: Task, st: (int, int, int), a: (int, int), b: int)
    requires
        s.sound(),
        crate::theory::plan_laws::good_task(t),
        0 <= a.0 <= a.1 <= t.extents().0,
        0 <= b,
    ensures
        s.tiles_b(t, st, a, b) matches Ok(u) ==> parts(s, u, task_piece(t)),
    decreases t.extents().1 - b,
{
    lemma_hauled_none(s);
    let end = t.extents().1;
    if b < end && st.1 > 0 {
        let next = crate::theory::plans::least(b + st.1, end);
        lemma_parts_c(s, t, st, a, (b, next), 0);
        crate::theory::plan_laws::lemma_tiles_c(s, t, st, a, (b, next), 0);
        if let Ok(u) = s.tiles_c(t, st, a, (b, next), 0) {
            lemma_parts_b(u, t, st, a, next);
            if let Ok(v) = u.tiles_b(t, st, a, next) {
                lemma_parts_trans(s, u, v, task_piece(t));
            }
        }
    }
}

proof fn lemma_parts_a(s: State, t: Task, st: (int, int, int), a: int)
    requires
        s.sound(),
        crate::theory::plan_laws::good_task(t),
        0 <= a,
    ensures
        s.tiles_a(t, st, a) matches Ok(u) ==> parts(s, u, task_piece(t)),
    decreases t.extents().0 - a,
{
    lemma_hauled_none(s);
    let end = t.extents().0;
    if a < end && st.0 > 0 {
        let next = crate::theory::plans::least(a + st.0, end);
        lemma_parts_b(s, t, st, (a, next), 0);
        crate::theory::plan_laws::lemma_tiles_b(s, t, st, (a, next), 0);
        if let Ok(u) = s.tiles_b(t, st, (a, next), 0) {
            lemma_parts_a(u, t, st, next);
            if let Ok(v) = u.tiles_a(t, st, next) {
                lemma_parts_trans(s, u, v, task_piece(t));
            }
        }
    }
}

/// A point in the order of the loops of the task.
spec fn turned(t: Task, p: (int, int, int)) -> (int, int, int) {
    match t {
        Task::Attention { .. } => (p.0, p.2, p.1),
        _ => p,
    }
}

proof fn lemma_touched_visits(t: Task, ws: Seq<Win>, p: (int, int, int))
    ensures
        touched(ws, p) == crate::theory::plan_laws::visits(t, ws, turned(t, p)),
    decreases ws.len(),
{
    if ws.len() > 0 {
        lemma_touched_visits(t, ws.drop_last(), p);
    }
}

/// A task adds the windows of its piece of work.
proof fn lemma_emit_adds(s: State, t: Task)
    requires
        s.sound(),
        crate::theory::plan_laws::good_task(t),
    ensures
        s.emit(t) matches Ok(u) ==> adds(s, u, seq![task_piece(t)]),
{
    reveal(adds);
    let d = task_piece(t);
    if let Ok(u) = s.emit(t) {
        let (a, b, c) = t.full();
        let tile = s.shrink(t, a, b, c)->Ok_0;
        lemma_parts_a(s, t, t.steps(tile), 0);
        let x = u.windows.skip(s.windows.len() as int);
        let y = u.later.skip(s.later.len() as int);
        assert forall|p: (int, int, int)| #[trigger] touched(x, p) == one_if(spans(d, p)) by {
            crate::theory::plan_laws::law_windows_tile_the_task(s, t, turned(t, p));
            lemma_touched_visits(t, x, p);
        }
        assert forall|p: (int, int, int)| #[trigger] touched(y, p) == one_if(spans(d, p)) by {
            crate::theory::plan_laws::law_windows_tile_the_task(s, t, turned(t, p));
            lemma_touched_visits(t, y, p);
        }
        assert(done(site(s), Pass::Fwd, x, d));
        assert(done(site(s), Pass::Bwd, y, d));
        lemma_all_done_one(site(s), Pass::Fwd, x, d);
        lemma_all_done_one(site(s), Pass::Bwd, y, d);
    }
}

// ----- the pieces of a model -----

/// A piece of work that one window does, `width` wide on both sides.
pub open spec fn plain(
    op: Exec,
    name: Seq<char>,
    layer: int,
    expert: int,
    n: int,
    width: int,
    tape: int,
    fwd: Kernel,
    bwd: Kernel,
) -> Piece {
    Piece {
        op,
        layer,
        expert,
        offset: 0,
        din: width,
        dout: width,
        batch: n,
        rows: width,
        cols: width,
        charge: Charge::Whole { name, tape, param: 0 },
        store: None,
        fwd: seq![fwd],
        bwd: seq![bwd],
    }
}

/// A product with a matrix of the parameter buffer.
pub open spec fn weight(name: Seq<char>, layer: int, expert: int, n: int, rows: int, cols: int, offset: int) -> Piece {
    Piece {
        op: Exec::Linear,
        layer,
        expert,
        offset,
        din: rows,
        dout: cols,
        batch: n,
        rows,
        cols,
        charge: Charge::Weight { name, mask: false, extra: 0 },
        store: Some(name),
        fwd: seq![Kernel::Linear],
        bwd: seq![Kernel::LinearDx, Kernel::LinearDw],
    }
}

/// A norm, with one scale for each of `dim` features.
pub open spec fn norm(name: Seq<char>, layer: int, which: int, n: int, dim: int, offset: int) -> Piece {
    Piece {
        op: Exec::RmsNorm,
        layer,
        expert: which,
        offset,
        din: dim,
        dout: 1,
        batch: n,
        rows: dim,
        cols: 1,
        charge: Charge::Weight { name, mask: false, extra: 0 },
        store: Some(name),
        fwd: seq![Kernel::RmsNorm],
        bwd: seq![Kernel::RmsNormBwd],
    }
}

/// The attention of `n` queries to `seq` keys with `dim` features.
pub open spec fn scores(name: Seq<char>, layer: int, n: int, seq: int, dim: int) -> Piece {
    Piece {
        op: Exec::Gqa,
        layer,
        expert: 0,
        offset: 0,
        din: seq,
        dout: dim,
        batch: n,
        rows: seq,
        cols: dim,
        charge: Charge::Scores { name },
        store: None,
        fwd: seq![Kernel::GqaFwd],
        bwd: seq![Kernel::GqaBwd],
    }
}

/// The layer number that attention carries.
pub open spec fn narrow(l: int) -> int {
    if l <= u32::MAX {
        l
    } else {
        0
    }
}

/// The work of layer `l` before its experts.
#[verifier::opaque]
pub open spec fn front_pieces(c: MixtralConfig, n: int, seq: int, l: int) -> Seq<Piece> {
    let y = c.layer_places(l);
    let s = crate::theory::plans::short(l);
    let dim = c.dim as int;
    let wide = c.heads * c.head_dim;
    let thin = c.kv_heads * c.head_dim;
    let experts = c.experts as int;
    seq![
        norm(crate::theory::plans::layer_name("L$a-attn-norm"@, l), s, 0, n, dim, y.attn_norm),
        weight(crate::theory::plans::layer_name("L$a-q"@, l), s, 0, n, dim, wide, y.q),
        weight(crate::theory::plans::layer_name("L$a-k"@, l), s, 0, n, dim, thin, y.k),
        weight(crate::theory::plans::layer_name("L$a-v"@, l), s, 0, n, dim, thin, y.v),
        plain(
            Exec::RopeQ,
            crate::theory::plans::layer_name("L$a-rope-q"@, s),
            s,
            0,
            n,
            wide,
            n * wide * 2 * 4,
            Kernel::Rope,
            Kernel::Rope,
        ),
        plain(
            Exec::RopeK,
            crate::theory::plans::layer_name("L$a-rope-k"@, s),
            s,
            0,
            n,
            thin,
            n * thin * 2 * 4,
            Kernel::Rope,
            Kernel::Rope,
        ),
        scores(crate::theory::plans::layer_name("L$a-gqa"@, l), narrow(l), n, seq, c.head_dim as int),
        weight(crate::theory::plans::layer_name("L$a-o"@, l), s, 0, n, wide, dim, y.o),
        plain(
            Exec::AddAttn,
            crate::theory::plans::layer_name("L$a-add-attn"@, s),
            s,
            0,
            n,
            dim,
            n * dim * 2 * 4,
            Kernel::Add,
            Kernel::Add,
        ),
        norm(crate::theory::plans::layer_name("L$a-ffn-norm"@, l), s, 1, n, dim, y.ffn_norm),
        weight(crate::theory::plans::layer_name("L$a-router"@, l), s, 0, n, dim, experts, y.router),
        plain(
            Exec::Router,
            crate::theory::plans::layer_name("L$a-router-gate"@, s),
            s,
            0,
            n,
            experts,
            (n * dim + n * experts * 4) * 4,
            Kernel::Router,
            Kernel::RouterBwd,
        ),
    ]
}

/// The activation of expert `e`, where a window can carry its number.
pub open spec fn silu_pieces(c: MixtralConfig, n: int, l: int, e: int) -> Seq<Piece> {
    let s = crate::theory::plans::short(l);
    let inter = c.intermediate as int;
    if e <= u32::MAX {
        seq![
            plain(
                Exec::Silu,
                crate::theory::plans::expert_name("L$a-silu-$b"@, s, e),
                s,
                e,
                n,
                inter,
                n * inter * 4 * 4,
                Kernel::Silu,
                Kernel::SiluBwd,
            ),
        ]
    } else {
        Seq::empty()
    }
}

/// The work of expert `e` of layer `l`.
pub open spec fn expert_pieces(c: MixtralConfig, n: int, l: int, e: int) -> Seq<Piece> {
    let y = c.layer_places(l);
    let s = crate::theory::plans::short(l);
    let dim = c.dim as int;
    let inter = c.intermediate as int;
    seq![weight(crate::theory::plans::expert_name("L$a-gate-$b"@, l, e), s, narrow(e), n, dim, inter, y.gate[e]), weight(crate::theory::plans::expert_name("L$a-up-$b"@, l, e), s, narrow(e), n, dim, inter, y.up[e])] + silu_pieces(
        c,
        n,
        l,
        e,
    ) + seq![weight(crate::theory::plans::expert_name("L$a-down-$b"@, l, e), s, narrow(e), n, inter, dim, y.down[e])]
}

/// The end of layer `l`: the experts are mixed and added.
pub open spec fn close_pieces(c: MixtralConfig, n: int, l: int) -> Seq<Piece> {
    let s = crate::theory::plans::short(l);
    let dim = c.dim as int;
    seq![
        plain(
            Exec::Mix,
            crate::theory::plans::layer_name("L$a-mix"@, s),
            s,
            0,
            n,
            dim,
            n * dim * (c.experts + 2) * 4,
            Kernel::Add,
            Kernel::Add,
        ),
        plain(
            Exec::AddMoe,
            crate::theory::plans::layer_name("L$a-add-moe"@, s),
            s,
            0,
            n,
            dim,
            n * dim * 2 * 4,
            Kernel::Add,
            Kernel::Add,
        ),
    ]
}

pub open spec fn layer_pieces(c: MixtralConfig, n: int, seq: int, l: int) -> Seq<Piece> {
    front_pieces(c, n, seq, l) + crate::theory::listing::cat(c.experts as int, |e: int| expert_pieces(c, n, l, e))
        + close_pieces(c, n, l)
}

/// The lookup of `n` tokens in the embedding table.
pub open spec fn lookup(c: MixtralConfig, n: int) -> Piece {
    Piece {
        op: Exec::Embed,
        layer: 0,
        expert: 0,
        offset: 0,
        din: c.vocab as int,
        dout: c.dim as int,
        batch: n,
        rows: c.vocab as int,
        cols: c.dim as int,
        charge: Charge::Whole {
            name: crate::text::filled("embed[0:$a]"@, seq![crate::text::dec(n)]),
            tape: n * c.dim * 4,
            param: c.vocab * c.dim * 4,
        },
        store: Some("embed"@),
        fwd: seq![Kernel::Embed],
        bwd: seq![Kernel::EmbedBwd],
    }
}

/// The loss of `n` tokens over the vocabulary.
pub open spec fn logits(c: MixtralConfig, n: int) -> Piece {
    Piece {
        op: Exec::Loss,
        layer: 0,
        expert: 0,
        offset: 0,
        din: 1,
        dout: c.vocab as int,
        batch: n,
        rows: 1,
        cols: c.vocab as int,
        charge: Charge::Logits,
        store: None,
        fwd: seq![Kernel::Ce],
        bwd: seq![Kernel::Ce],
    }
}

/// The work of a model on `n` tokens in sequences of `seq`, in its order.
pub open spec fn model_pieces(c: MixtralConfig, n: int, seq: int) -> Seq<Piece> {
    seq![lookup(c, n)] + crate::theory::listing::cat(c.layers as int, |l: int| layer_pieces(c, n, seq, l)) + seq![
        norm("final-norm"@, 0, 2, n, c.dim as int, c.places().final_norm),
        weight("lm-head"@, 0, 0, n, c.dim as int, c.vocab as int, c.places().lm_head),
        logits(c, n),
    ]
}

/// What follows a matrix.
#[verifier::opaque]
spec fn after_role(c: MixtralConfig, n: int, seq: int, l: int, r: Role) -> Seq<Piece> {
    let f = front_pieces(c, n, seq, l);
    match r {
        Role::Value => seq![f[4], f[5], f[6]],
        Role::Output => seq![f[8]],
        Role::Router => seq![f[11]],
        Role::Up(e) => silu_pieces(c, n, l, e as int),
        _ => Seq::empty(),
    }
}

spec fn member(c: MixtralConfig, n: int, seq: int, l: int, m: Mat) -> Seq<Piece> {
    seq![matrix_piece(m)] + after_role(c, n, seq, l, m.role)
}

/// The rotations and the attention follow the values.
#[verifier::rlimit(60)]
#[verifier::spinoff_prover]
proof fn lemma_value_adds(s: State, c: MixtralConfig, n: int, seq: int, l: int)
    requires
        s.sound(),
        0 <= n,
        0 <= seq,
    ensures
        s.follow(c, n, seq, l, Role::Value) matches Ok(u) ==> adds(s, u, after_role(c, n, seq, l, Role::Value)),
{
    reveal(front_pieces);
    reveal(after_role);
    let k = s.count();
    let sl = crate::theory::plans::short(l);
    let f = front_pieces(c, n, seq, l);
    crate::theory::plan_laws::lemma_products(c, n);
    crate::mixtral::lemma_lens(c);
    let j = crate::theory::plans::rope_job(sl, true, n, c.q_width());
    crate::theory::plan_laws::lemma_rope_job(c, sl, true, n, c.q_width(), k);
    crate::theory::plan_laws::lemma_work(s, j);
    assert(whole(s, j, f[4]));
    lemma_whole(s, j, f[4]);
    if let Ok(s1) = s.work(j) {
        let j2 = crate::theory::plans::rope_job(sl, false, n, c.kv_width());
        crate::theory::plan_laws::lemma_rope_job(c, sl, false, n, c.kv_width(), k);
        crate::theory::plan_laws::lemma_work(s1, j2);
        assert(whole(s1, j2, f[5]));
        lemma_whole(s1, j2, f[5]);
        if let Ok(s2) = s1.work(j2) {
            lemma_adds_trans(s, s1, s2, seq![f[4]], seq![f[5]]);
            let t = State::attention_task(c, n, seq, l);
            assert(task_piece(t) == f[6]);
            lemma_next(s, s2, seq![f[4]] + seq![f[5]], t, f[6]);
            assert((seq![f[4]] + seq![f[5]]).push(f[6]) =~= seq![f[4], f[5], f[6]]);
        }
    }
}

#[verifier::rlimit(60)]
#[verifier::spinoff_prover]
proof fn lemma_follow_adds(s: State, c: MixtralConfig, n: int, seq: int, l: int, r: Role)
    requires
        s.sound(),
        0 <= n,
        0 <= seq,
    ensures
        s.follow(c, n, seq, l, r) matches Ok(u) ==> adds(s, u, after_role(c, n, seq, l, r)),
{
    reveal(front_pieces);
    reveal(after_role);
    let k = s.count();
    let sl = crate::theory::plans::short(l);
    let f = front_pieces(c, n, seq, l);
    crate::theory::plan_laws::lemma_products(c, n);
    crate::mixtral::lemma_lens(c);
    match r {
        Role::Value => {
            lemma_value_adds(s, c, n, seq, l);
        },
        Role::Output => {
            let j = crate::theory::plans::residual_job(sl, true, n, c.dim as int);
            crate::theory::plan_laws::lemma_residual_job(sl, true, n, c.dim as int, k);
            lemma_whole(s, j, f[8]);
        },
        Role::Router => {
            let j = crate::theory::plans::router_job(sl, n, c.dim as int, c.experts as int);
            crate::theory::plan_laws::lemma_router_job(sl, n, c.dim as int, c.experts as int, k);
            lemma_whole(s, j, f[11]);
        },
        Role::Up(e) => {
            if e <= u32::MAX {
                let j = crate::theory::plans::silu_job(sl, e as int, n, c.intermediate as int);
                crate::theory::plan_laws::lemma_silu_job(sl, e as int, n, c.intermediate as int, k);
                lemma_whole(s, j, silu_pieces(c, n, l, e as int)[0]);
            } else {
                lemma_adds_none(s);
            }
        },
        _ => {
            lemma_adds_none(s);
        },
    }
}

/// The members from number `k` on, after those before it.
#[verifier::rlimit(60)]
#[verifier::spinoff_prover]
proof fn lemma_members_add(s: State, t: State, c: MixtralConfig, n: int, seq: int, l: int, ms: Seq<Mat>, k: int)
    requires
        t.sound(),
        0 <= n,
        0 <= seq,
        0 <= k <= ms.len(),
        forall|i: int| 0 <= i < ms.len() ==> crate::theory::plan_laws::good_mat(#[trigger] ms[i]),
        adds(s, t, crate::theory::listing::cat(k, |i: int| member(c, n, seq, l, ms[i]))),
    ensures
        t.emit_members(c, n, seq, l, ms, k) matches Ok(u) ==> adds(
            s,
            u,
            crate::theory::listing::cat(ms.len() as int, |i: int| member(c, n, seq, l, ms[i])),
        ),
    decreases ms.len() - k,
{
    if k < ms.len() {
        let f = |i: int| member(c, n, seq, l, ms[i]);
        let task = Task::Linear { matrix: ms[k] };
        let a = crate::theory::listing::cat(k, f);
        let b = seq![matrix_piece(ms[k])];
        let d = after_role(c, n, seq, l, ms[k].role);
        assert(crate::theory::plan_laws::good_task(task));
        crate::theory::plan_laws::lemma_emit(t, task);
        lemma_emit_adds(t, task);
        if let Ok(t1) = t.emit(task) {
            lemma_adds_trans(s, t, t1, a, b);
            crate::theory::plan_laws::lemma_follow(t1, c, n, seq, l, ms[k].role);
            lemma_follow_adds(t1, c, n, seq, l, ms[k].role);
            if let Ok(t2) = t1.follow(c, n, seq, l, ms[k].role) {
                lemma_adds_trans(s, t1, t2, a + b, d);
                assert(a + b + d =~= crate::theory::listing::cat(k + 1, f));
                lemma_members_add(s, t2, c, n, seq, l, ms, k + 1);
            }
        }
    }
}

proof fn lemma_cat_add<T>(a: int, b: int, f: spec_fn(int) -> Seq<T>)
    requires
        0 <= a,
        0 <= b,
    ensures
        crate::theory::listing::cat(a + b, f) == crate::theory::listing::cat(a, f) + crate::theory::listing::cat(
            b,
            |i: int| f(a + i),
        ),
    decreases b,
{
    let g = |i: int| f(a + i);
    if b == 0 {
        assert(crate::theory::listing::cat(a, f) + crate::theory::listing::cat(b, g) =~= crate::theory::listing::cat(a, f));
    } else {
        lemma_cat_add(a, b - 1, f);
        assert(crate::theory::listing::cat(a, f) + (crate::theory::listing::cat(b - 1, g) + g(b - 1)) =~= (
        crate::theory::listing::cat(a, f) + crate::theory::listing::cat(b - 1, g)) + g(b - 1));
    }
}

/// Taking the pieces of a list of matrices, group by group.
proof fn lemma_members_cat(c: MixtralConfig, n: int, seq: int, l: int, m: int, g: spec_fn(int) -> Seq<Mat>)
    requires
        0 <= m,
    ensures
        ({
            let ms = crate::theory::listing::cat(m, g);
            crate::theory::listing::cat(ms.len() as int, |i: int| member(c, n, seq, l, ms[i])) == crate::theory::listing::cat(
                m,
                |e: int| {
                    crate::theory::listing::cat(g(e).len() as int, |i: int| member(c, n, seq, l, g(e)[i]))
                },
            )
        }),
    decreases m,
{
    if m > 0 {
        lemma_members_cat(c, n, seq, l, m - 1, g);
        lemma_members_join(c, n, seq, l, crate::theory::listing::cat(m - 1, g), g(m - 1));
    }
}

proof fn lemma_members_join(c: MixtralConfig, n: int, seq: int, l: int, a: Seq<Mat>, b: Seq<Mat>)
    ensures
        crate::theory::listing::cat((a + b).len() as int, |i: int| member(c, n, seq, l, (a + b)[i]))
            == crate::theory::listing::cat(a.len() as int, |i: int| member(c, n, seq, l, a[i]))
            + crate::theory::listing::cat(b.len() as int, |i: int| member(c, n, seq, l, b[i])),
{
    let f = |i: int| member(c, n, seq, l, (a + b)[i]);
    let fa = |i: int| member(c, n, seq, l, a[i]);
    let fb = |i: int| member(c, n, seq, l, b[i]);
    let rest = |i: int| f(a.len() + i);
    lemma_cat_add(a.len() as int, b.len() as int, f);
    crate::theory::plan_laws::lemma_cat_ext(a.len() as int, f, fa);
    crate::theory::plan_laws::lemma_cat_ext(b.len() as int, rest, fb);
}

proof fn lemma_front_members(c: MixtralConfig, n: int, seq: int, l: int)
    ensures
        crate::theory::listing::cat(
            7,
            |i: int| member(c, n, seq, l, crate::theory::plans::front_mats(c, l, n)[i]),
        ) == front_pieces(c, n, seq, l),
{
    reveal(front_pieces);
    reveal(after_role);
    let ms = crate::theory::plans::front_mats(c, l, n);
    let f = |i: int| member(c, n, seq, l, ms[i]);
    let p = front_pieces(c, n, seq, l);
    reveal_with_fuel(crate::theory::listing::cat, 8);
    assert(matrix_piece(ms[0]) == p[0]);
    assert(matrix_piece(ms[1]) == p[1]);
    assert(matrix_piece(ms[2]) == p[2]);
    assert(matrix_piece(ms[3]) == p[3]);
    assert(matrix_piece(ms[4]) == p[7]);
    assert(matrix_piece(ms[5]) == p[9]);
    assert(matrix_piece(ms[6]) == p[10]);
    assert(f(0) =~= seq![p[0]]);
    assert(f(1) =~= seq![p[1]]);
    assert(f(2) =~= seq![p[2]]);
    assert(f(3) =~= seq![p[3], p[4], p[5], p[6]]);
    assert(f(4) =~= seq![p[7], p[8]]);
    assert(f(5) =~= seq![p[9]]);
    assert(f(6) =~= seq![p[10], p[11]]);
    assert(crate::theory::listing::cat(7, f) =~= p);
}

proof fn lemma_expert_members(c: MixtralConfig, n: int, seq: int, l: int, e: int)
    requires
        0 <= e < c.experts,
    ensures
        crate::theory::listing::cat(
            crate::theory::plans::expert_mats(c, l, n, e).len() as int,
            |i: int| member(c, n, seq, l, crate::theory::plans::expert_mats(c, l, n, e)[i]),
        ) == expert_pieces(c, n, l, e),
{
    reveal(after_role);
    let ms = crate::theory::plans::expert_mats(c, l, n, e);
    let f = |i: int| member(c, n, seq, l, ms[i]);
    let p = expert_pieces(c, n, l, e);
    let y = c.layer_places(l);
    let s = crate::theory::plans::short(l);
    let dim = c.dim as int;
    let inter = c.intermediate as int;
    reveal_with_fuel(crate::theory::listing::cat, 4);
    assert((e as usize) as int == e);
    assert(matrix_piece(ms[0]) == weight(crate::theory::plans::expert_name("L$a-gate-$b"@, l, e), s, narrow(e), n, dim, inter, y.gate[e]));
    assert(matrix_piece(ms[1]) == weight(crate::theory::plans::expert_name("L$a-up-$b"@, l, e), s, narrow(e), n, dim, inter, y.up[e]));
    assert(matrix_piece(ms[2]) == weight(crate::theory::plans::expert_name("L$a-down-$b"@, l, e), s, narrow(e), n, inter, dim, y.down[e]));
    assert(f(0) =~= seq![matrix_piece(ms[0])]);
    assert(f(1) =~= seq![matrix_piece(ms[1])] + silu_pieces(c, n, l, e));
    assert(f(2) =~= seq![matrix_piece(ms[2])]);
    assert(crate::theory::listing::cat(3, f) =~= p);
}

proof fn lemma_layer_members(c: MixtralConfig, n: int, seq: int, l: int)
    ensures
        ({
            let ms = crate::theory::plans::layer_mats(c, l, n);
            crate::theory::listing::cat(ms.len() as int, |i: int| member(c, n, seq, l, ms[i])) == front_pieces(
                c,
                n,
                seq,
                l,
            ) + crate::theory::listing::cat(c.experts as int, |e: int| expert_pieces(c, n, l, e))
        }),
{
    let g = |e: int| crate::theory::plans::expert_mats(c, l, n, e);
    let front = crate::theory::plans::front_mats(c, l, n);
    let rest = crate::theory::listing::cat(c.experts as int, g);
    lemma_members_join(c, n, seq, l, front, rest);
    lemma_front_members(c, n, seq, l);
    lemma_members_cat(c, n, seq, l, c.experts as int, g);
    let a = |e: int| {
        crate::theory::listing::cat(g(e).len() as int, |i: int| member(c, n, seq, l, g(e)[i]))
    };
    let b = |e: int| expert_pieces(c, n, l, e);
    assert forall|e: int| 0 <= e < c.experts implies #[trigger] a(e) == b(e) by {
        lemma_expert_members(c, n, seq, l, e);
    }
    crate::theory::plan_laws::lemma_cat_ext(c.experts as int, a, b);
}

proof fn lemma_layer_adds(s: State, c: MixtralConfig, n: int, seq: int, l: int)
    requires
        s.sound(),
        0 <= seq,
        crate::theory::plan_laws::good_config(c, n),
        0 <= l < c.layers,
    ensures
        s.emit_layer(c, n, seq, l) matches Ok(u) ==> adds(s, u, layer_pieces(c, n, seq, l)),
{
    let ms = crate::theory::plans::layer_mats(c, l, n);
    assert forall|i: int| 0 <= i < ms.len() implies crate::theory::plan_laws::good_mat(#[trigger] ms[i]) by {
        assert(crate::theory::plan_laws::good_mat(crate::theory::plans::layer_mats(c, l, n)[i]));
    }
    lemma_adds_none(s);
    assert(crate::theory::listing::cat(0, |i: int| member(c, n, seq, l, ms[i])) =~= Seq::<Piece>::empty());
    lemma_members_add(s, s, c, n, seq, l, ms, 0);
    lemma_layer_members(c, n, seq, l);
    crate::theory::plan_laws::lemma_emit_members(s, c, n, seq, l, ms, 0);
    if let Ok(s1) = s.emit_members(c, n, seq, l, ms, 0) {
        let a = front_pieces(c, n, seq, l) + crate::theory::listing::cat(
            c.experts as int,
            |e: int| expert_pieces(c, n, l, e),
        );
        lemma_close_adds(s, s1, a, c, n, l);
    }
}

/// The experts are mixed and added after the rest of their layer.
proof fn lemma_close_adds(s: State, s1: State, a: Seq<Piece>, c: MixtralConfig, n: int, l: int)
    requires
        s1.sound(),
        0 <= n,
        adds(s, s1, a),
    ensures
        s1.work(crate::theory::plans::mix_job(crate::theory::plans::short(l), n, c.dim as int, c.experts as int)) matches Ok(
            s2,
        ) ==> (s2.work(crate::theory::plans::residual_job(crate::theory::plans::short(l), false, n, c.dim as int)) matches Ok(
            u,
        ) ==> adds(s, u, a + close_pieces(c, n, l))),
{
    let sl = crate::theory::plans::short(l);
    let end = close_pieces(c, n, l);
    let dim = c.dim as int;
    let experts = c.experts as int;
    let j = crate::theory::plans::mix_job(sl, n, dim, experts);
    crate::theory::plan_laws::lemma_products(c, n);
    crate::theory::plan_laws::lemma_mix_job(sl, n, dim, experts, s1.count());
    crate::theory::plan_laws::lemma_work(s1, j);
    lemma_whole(s1, j, end[0]);
    if let Ok(s2) = s1.work(j) {
        lemma_adds_trans(s, s1, s2, a, seq![end[0]]);
        let j2 = crate::theory::plans::residual_job(sl, false, n, dim);
        crate::theory::plan_laws::lemma_residual_job(sl, false, n, dim, s2.count());
        lemma_whole(s2, j2, end[1]);
        if let Ok(u) = s2.work(j2) {
            lemma_adds_trans(s, s2, u, a + seq![end[0]], seq![end[1]]);
            assert(a + seq![end[0]] + seq![end[1]] =~= a + end);
        }
    }
}

#[verifier::rlimit(60)]
#[verifier::spinoff_prover]
proof fn lemma_layers_add(s: State, t: State, c: MixtralConfig, n: int, seq: int, l: int)
    requires
        t.sound(),
        0 <= seq,
        crate::theory::plan_laws::good_config(c, n),
        0 <= l <= c.layers,
        adds(
            s,
            t,
            seq![lookup(c, n)] + crate::theory::listing::cat(l, |i: int| layer_pieces(c, n, seq, i)),
        ),
    ensures
        t.emit_layers(c, n, seq, l) matches Ok(u) ==> adds(
            s,
            u,
            seq![lookup(c, n)] + crate::theory::listing::cat(c.layers as int, |i: int| layer_pieces(c, n, seq, i)),
        ),
    decreases c.layers - l,
{
    if l < c.layers {
        let f = |i: int| layer_pieces(c, n, seq, i);
        let a = seq![lookup(c, n)] + crate::theory::listing::cat(l, f);
        lemma_layer_adds(t, c, n, seq, l);
        crate::theory::plan_laws::lemma_emit_layer(t, c, n, seq, l);
        if let Ok(t1) = t.emit_layer(c, n, seq, l) {
            lemma_adds_trans(s, t, t1, a, f(l));
            assert(a + f(l) =~= seq![lookup(c, n)] + crate::theory::listing::cat(l + 1, f));
            lemma_layers_add(s, t1, c, n, seq, l + 1);
        }
    }
}

/// A task adds its piece to those before it.
proof fn lemma_next(s: State, t: State, a: Seq<Piece>, task: Task, d: Piece)
    requires
        t.sound(),
        crate::theory::plan_laws::good_task(task),
        task_piece(task) == d,
        adds(s, t, a),
    ensures
        t.emit(task) matches Ok(u) ==> u.sound() && adds(s, u, a.push(d)),
{
    crate::theory::plan_laws::lemma_emit(t, task);
    lemma_emit_adds(t, task);
    if let Ok(u) = t.emit(task) {
        lemma_adds_trans(s, t, u, a, seq![d]);
        assert(a + seq![d] =~= a.push(d));
    }
}

/// A model adds the windows of all of its work.
proof fn lemma_model_adds(s: State, c: MixtralConfig, n: int, seq: int)
    requires
        s.sound(),
        0 <= seq,
        crate::theory::plan_laws::good_config(c, n),
    ensures
        s.emit_mixtral(c, n, seq) matches Ok(u) ==> adds(s, u, model_pieces(c, n, seq)),
{
    let m = crate::theory::plans::embed_mat(c, n);
    let j = s.embed_job(m, n);
    let f = |i: int| layer_pieces(c, n, seq, i);
    let first = seq![lookup(c, n)];
    crate::theory::plan_laws::lemma_products(c, n);
    crate::theory::plan_laws::lemma_embed_job(s, m, n);
    crate::theory::plan_laws::lemma_work(s, j);
    lemma_whole(s, j, lookup(c, n));
    if let Ok(s1) = s.work(j) {
        assert(first + crate::theory::listing::cat(0, f) =~= first);
        lemma_layers_add(s, s1, c, n, seq, 0);
        crate::theory::plan_laws::lemma_emit_layers(s1, c, n, seq, 0);
        if let Ok(s2) = s1.emit_layers(c, n, seq, 0) {
            lemma_model_end(s, s2, c, n, seq);
        }
    }
}

#[verifier::rlimit(60)]
#[verifier::spinoff_prover]
proof fn lemma_model_end(s: State, s2: State, c: MixtralConfig, n: int, seq: int)
    requires
        s2.sound(),
        crate::theory::plan_laws::good_config(c, n),
        adds(
            s,
            s2,
            seq![lookup(c, n)] + crate::theory::listing::cat(c.layers as int, |i: int| layer_pieces(c, n, seq, i)),
        ),
    ensures
        s2.emit(Task::Linear { matrix: crate::theory::plans::final_mat(c, n) }) matches Ok(s3) ==> (s3.emit(
            Task::Linear { matrix: crate::theory::plans::head_mat(c, n) },
        ) matches Ok(s4) ==> (s4.emit(Task::Loss { tokens: n, vocab: c.vocab as int }) matches Ok(u) ==> adds(
            s,
            u,
            model_pieces(c, n, seq),
        ))),
{
    let f = |i: int| layer_pieces(c, n, seq, i);
    let a = seq![lookup(c, n)] + crate::theory::listing::cat(c.layers as int, f);
    let t3 = Task::Linear { matrix: crate::theory::plans::final_mat(c, n) };
    let p3 = norm("final-norm"@, 0, 2, n, c.dim as int, c.places().final_norm);
    let t4 = Task::Linear { matrix: crate::theory::plans::head_mat(c, n) };
    let p4 = weight("lm-head"@, 0, 0, n, c.dim as int, c.vocab as int, c.places().lm_head);
    let t5 = Task::Loss { tokens: n, vocab: c.vocab as int };
    let p5 = logits(c, n);
    assert(crate::theory::plans::short(0) == 0);
    assert(task_piece(t3) == p3);
    assert(task_piece(t4) == p4);
    assert(task_piece(t5) == p5);
    lemma_next(s, s2, a, t3, p3);
    if let Ok(s3) = s2.emit(t3) {
        lemma_next(s, s3, a.push(p3), t4, p4);
        if let Ok(s4) = s3.emit(t4) {
            lemma_next(s, s4, a.push(p3).push(p4), t5, p5);
            assert(a.push(p3).push(p4).push(p5) =~= a + seq![p3, p4, p5]);
        }
    }
}

// ----- counting windows -----

/// What a window works on.
#[verifier::ext_equal]
pub struct Key {
    pub op: Exec,
    pub layer: int,
    pub expert: int,
    pub offset: int,
    pub din: int,
    pub dout: int,
}

pub open spec fn key(w: Win) -> Key {
    Key { op: w.op, layer: w.layer, expert: w.expert, offset: w.offset, din: w.din, dout: w.dout }
}

pub open spec fn piece_key(d: Piece) -> Key {
    Key { op: d.op, layer: d.layer, expert: d.expert, offset: d.offset, din: d.din, dout: d.dout }
}

/// The number of windows of a pass that work on this, at this point.
pub open spec fn worked(ws: Seq<Win>, pass: Pass, k: Key, p: (int, int, int)) -> int
    decreases ws.len(),
{
    if ws.len() == 0 {
        0
    } else {
        worked(ws.drop_last(), pass, k, p) + one_if(ws.last().pass == pass && key(ws.last()) == k && touches(ws.last(), p))
    }
}

/// The number of pieces that ask for this, at this point.
pub open spec fn wanted(list: Seq<Piece>, k: Key, p: (int, int, int)) -> int
    decreases list.len(),
{
    if list.len() == 0 {
        0
    } else {
        wanted(list.drop_last(), k, p) + one_if(piece_key(list.last()) == k && spans(list.last(), p))
    }
}

proof fn lemma_worked_add(a: Seq<Win>, b: Seq<Win>, pass: Pass, k: Key, p: (int, int, int))
    ensures
        worked(a + b, pass, k, p) == worked(a, pass, k, p) + worked(b, pass, k, p),
    decreases b.len(),
{
    if b.len() == 0 {
        assert(a + b =~= a);
    } else {
        lemma_worked_add(a, b.drop_last(), pass, k, p);
        assert((a + b).drop_last() =~= a + b.drop_last());
        assert((a + b).last() == b.last());
    }
}

proof fn lemma_worked_none(ws: Seq<Win>, pass: Pass, k: Key, p: (int, int, int))
    requires
        forall|i: int| 0 <= i < ws.len() ==> (#[trigger] ws[i]).pass != pass || key(ws[i]) != k,
    ensures
        worked(ws, pass, k, p) == 0,
    decreases ws.len(),
{
    if ws.len() > 0 {
        let x = ws.drop_last();
        assert forall|i: int| 0 <= i < x.len() implies (#[trigger] x[i]).pass != pass || key(x[i]) != k by {
            assert(x[i] == ws[i]);
        }
        lemma_worked_none(x, pass, k, p);
    }
}

proof fn lemma_worked_reverse(ws: Seq<Win>, pass: Pass, k: Key, p: (int, int, int))
    ensures
        worked(ws.reverse(), pass, k, p) == worked(ws, pass, k, p),
    decreases ws.len(),
{
    if ws.len() == 0 {
        assert(ws.reverse() =~= ws);
    } else {
        let x = ws.drop_last();
        let w = ws.last();
        lemma_worked_reverse(x, pass, k, p);
        assert(ws.reverse() =~= seq![w] + x.reverse());
        assert(ws =~= x + seq![w]);
        lemma_worked_add(seq![w], x.reverse(), pass, k, p);
        lemma_worked_add(x, seq![w], pass, k, p);
    }
}

proof fn lemma_worked_done(at: Site, pass: Pass, ws: Seq<Win>, d: Piece, k: Key, p: (int, int, int))
    requires
        forall|i: int| 0 <= i < ws.len() ==> does(at, pass, #[trigger] ws[i], d),
    ensures
        worked(ws, pass, k, p) == if piece_key(d) == k {
            touched(ws, p)
        } else {
            0
        },
    decreases ws.len(),
{
    if ws.len() > 0 {
        let x = ws.drop_last();
        assert forall|i: int| 0 <= i < x.len() implies does(at, pass, #[trigger] x[i], d) by {
            assert(x[i] == ws[i]);
        }
        lemma_worked_done(at, pass, x, d, k, p);
        assert(does(at, pass, ws[ws.len() - 1], d));
    }
}

/// Windows that do all pieces work on each as often as it is asked for.
proof fn lemma_worked_all(at: Site, pass: Pass, ws: Seq<Win>, list: Seq<Piece>, k: Key, p: (int, int, int))
    requires
        all_done(at, pass, ws, list),
    ensures
        worked(ws, pass, k, p) == wanted(list, k, p),
    decreases list.len(),
{
    reveal_with_fuel(all_done, 1);
    if list.len() > 0 {
        let d = list.last();
        let m = choose|m: int|
            0 <= m <= ws.len() && all_done(at, pass, #[trigger] ws.take(m), list.drop_last()) && done(
                at,
                pass,
                ws.skip(m),
                list.last(),
            );
        lemma_worked_all(at, pass, ws.take(m), list.drop_last(), k, p);
        assert(ws =~= ws.take(m) + ws.skip(m));
        lemma_worked_add(ws.take(m), ws.skip(m), pass, k, p);
        lemma_worked_done(at, pass, ws.skip(m), d, k, p);
        assert(touched(ws.skip(m), p) == one_if(spans(d, p)));
    }
}

/// Each window does a part of some piece.
proof fn lemma_some_piece(at: Site, pass: Pass, ws: Seq<Win>, list: Seq<Piece>, i: int) -> (j: int)
    requires
        all_done(at, pass, ws, list),
        0 <= i < ws.len(),
    ensures
        0 <= j < list.len(),
        does(at, pass, ws[i], list[j]),
    decreases list.len(),
{
    reveal_with_fuel(all_done, 1);
    let m = choose|m: int|
        0 <= m <= ws.len() && all_done(at, pass, #[trigger] ws.take(m), list.drop_last()) && done(
            at,
            pass,
            ws.skip(m),
            list.last(),
        );
    if i < m {
        let j = lemma_some_piece(at, pass, ws.take(m), list.drop_last(), i);
        assert(ws.take(m)[i] == ws[i]);
        j
    } else {
        assert(ws.skip(m)[i - m] == ws[i]);
        list.len() - 1
    }
}

/// Each piece has a run of windows that do it.
proof fn lemma_run(at: Site, pass: Pass, ws: Seq<Win>, list: Seq<Piece>, j: int) -> (r: (int, int))
    requires
        all_done(at, pass, ws, list),
        0 <= j < list.len(),
    ensures
        0 <= r.0 <= r.1 <= ws.len(),
        done(at, pass, ws.subrange(r.0, r.1), list[j]),
    decreases list.len(),
{
    reveal_with_fuel(all_done, 1);
    let m = choose|m: int|
        0 <= m <= ws.len() && all_done(at, pass, #[trigger] ws.take(m), list.drop_last()) && done(
            at,
            pass,
            ws.skip(m),
            list.last(),
        );
    if j < list.len() - 1 {
        let r = lemma_run(at, pass, ws.take(m), list.drop_last(), j);
        assert(ws.take(m).subrange(r.0, r.1) =~= ws.subrange(r.0, r.1));
        r
    } else {
        assert(ws.subrange(m, ws.len() as int) =~= ws.skip(m));
        (m, ws.len() as int)
    }
}

proof fn lemma_wanted_add(a: Seq<Piece>, b: Seq<Piece>, k: Key, p: (int, int, int))
    ensures
        wanted(a + b, k, p) == wanted(a, k, p) + wanted(b, k, p),
    decreases b.len(),
{
    if b.len() == 0 {
        assert(a + b =~= a);
    } else {
        lemma_wanted_add(a, b.drop_last(), k, p);
        assert((a + b).drop_last() =~= a + b.drop_last());
        assert((a + b).last() == b.last());
    }
}

proof fn lemma_wanted_none(list: Seq<Piece>, k: Key, p: (int, int, int))
    requires
        forall|i: int| 0 <= i < list.len() ==> piece_key(#[trigger] list[i]) != k || !spans(list[i], p),
    ensures
        wanted(list, k, p) == 0,
    decreases list.len(),
{
    if list.len() > 0 {
        let x = list.drop_last();
        assert forall|i: int| 0 <= i < x.len() implies piece_key(#[trigger] x[i]) != k || !spans(x[i], p) by {
            assert(x[i] == list[i]);
        }
        lemma_wanted_none(x, k, p);
    }
}

/// The two pieces work on different things, or there is no point in the
/// first.
pub open spec fn apart(a: Piece, b: Piece) -> bool {
    piece_key(a) != piece_key(b) || a.batch <= 0 || a.rows <= 0 || a.cols <= 0
}

spec fn all_apart(list: Seq<Piece>) -> bool {
    forall|i: int, j: int| 0 <= i < j < list.len() ==> #[trigger] apart(list[i], list[j])
}

/// Where the pieces are apart, a piece is asked for once.
proof fn lemma_wanted_once(list: Seq<Piece>, i: int, p: (int, int, int))
    requires
        all_apart(list),
        0 <= i < list.len(),
        spans(list[i], p),
    ensures
        wanted(list, piece_key(list[i]), p) == 1,
{
    let k = piece_key(list[i]);
    let a = list.take(i);
    let b = list.skip(i + 1);
    assert(list =~= a + seq![list[i]] + b);
    lemma_wanted_add(a + seq![list[i]], b, k, p);
    lemma_wanted_add(a, seq![list[i]], k, p);
    assert forall|x: int| 0 <= x < a.len() implies piece_key(#[trigger] a[x]) != k || !spans(a[x], p) by {
        assert(apart(list[x], list[i]));
    }
    assert forall|x: int| 0 <= x < b.len() implies piece_key(#[trigger] b[x]) != k || !spans(b[x], p) by {
        assert(apart(list[i], list[i + 1 + x]));
    }
    lemma_wanted_none(a, k, p);
    lemma_wanted_none(b, k, p);
    reveal_with_fuel(wanted, 2);
    assert(seq![list[i]].drop_last() =~= Seq::<Piece>::empty());
}

proof fn lemma_apart_add(a: Seq<Piece>, b: Seq<Piece>)
    requires
        all_apart(a),
        all_apart(b),
        forall|i: int, j: int| 0 <= i < a.len() && 0 <= j < b.len() ==> #[trigger] apart(a[i], b[j]),
    ensures
        all_apart(a + b),
{
    let ab = a + b;
    let n = a.len() as int;
    assert forall|i: int, j: int| 0 <= i < j < ab.len() implies #[trigger] apart(ab[i], ab[j]) by {
        if j < n {
            assert(apart(a[i], a[j]));
        } else if i < n {
            assert(apart(a[i], b[j - n]));
        } else {
            assert(apart(b[i - n], b[j - n]));
        }
    }
}

proof fn lemma_apart_cat(n: int, f: spec_fn(int) -> Seq<Piece>)
    requires
        forall|i: int| 0 <= i < n ==> all_apart(#[trigger] f(i)),
        forall|i: int, j: int, x: Piece, y: Piece|
            0 <= i < j < n && #[trigger] f(i).contains(x) && #[trigger] f(j).contains(y) ==> apart(x, y),
    ensures
        all_apart(crate::theory::listing::cat(n, f)),
    decreases n,
{
    if n > 0 {
        lemma_apart_cat(n - 1, f);
        let a = crate::theory::listing::cat(n - 1, f);
        let b = f(n - 1);
        crate::theory::listing::lemma_cat(n - 1, f);
        assert forall|i: int, j: int| 0 <= i < a.len() && 0 <= j < b.len() implies #[trigger] apart(a[i], b[j]) by {
            let x = a[i];
            let k = choose|k: int| 0 <= k < n - 1 && (#[trigger] f(k)).contains(crate::theory::listing::cat(n - 1, f)[i]);
            assert(f(k).contains(x));
            assert(b.contains(b[j]));
        }
        lemma_apart_add(a, b);
    }
}

// ----- the windows of a model -----

/// What the devices held while a plan was made: the homes of the plan, and
/// tapes of so many bytes.
pub open spec fn staging(p: Plan, homes: Seq<Place>, tape: int) -> bool {
    &&& p.homes.is_prefix_of(homes)
    &&& forall|k: int| p.homes.len() <= k < homes.len() ==> (#[trigger] homes[k]).kind == HomeKind::Tape
    &&& crate::theory::plan_laws::tape_bytes(homes) == tape
}

/// The peak of each device is what it held while the plan was made, or the
/// most that one of these windows uses on it.
pub open spec fn topped(peak: Seq<int>, homes: Seq<Place>, ws: Seq<Win>) -> bool {
    &&& forall|i: int|
        0 <= i < ws.len() ==> 0 <= (#[trigger] ws[i]).device < peak.len() && ws[i].resident <= peak[ws[i].device]
    &&& forall|d: int|
        0 <= d < peak.len() ==> {
            &&& crate::theory::plan_laws::stored(homes, d) <= #[trigger] peak[d]
            &&& peak[d] == crate::theory::plan_laws::stored(homes, d) || exists|i: int|
                0 <= i < ws.len() && (#[trigger] ws[i]).device == d && ws[i].resident == peak[d]
        }
}

proof fn lemma_topped(s: State, u: State)
    requires
        s.sound(),
        s.peak == s.held,
        s.windows.len() == 0,
        rises(s, u),
    ensures
        topped(u.peak, s.homes, u.windows),
        u.peak.len() == s.count(),
{
    assert forall|d: int| 0 <= d < u.peak.len() implies {
        &&& crate::theory::plan_laws::stored(s.homes, d) <= #[trigger] u.peak[d]
        &&& u.peak[d] == crate::theory::plan_laws::stored(s.homes, d) || exists|i: int|
            0 <= i < u.windows.len() && (#[trigger] u.windows[i]).device == d && u.windows[i].resident == u.peak[d]
    } by {
        assert(s.held[d] == crate::theory::plan_laws::stored(s.homes, d));
        assert(s.peak[d] <= u.peak[d]);
    }
}

/// The transfers of updates.
pub open spec fn errands(ws: Seq<Win>) -> Seq<Move> {
    crate::theory::listing::cat(
        ws.len() as int,
        |i: int| crate::theory::plans::moves(ws[i].inbound) + crate::theory::plans::moves(ws[i].outbound),
    )
}

proof fn lemma_errands_push(w: Win, ws: Seq<Win>)
    ensures
        errands(seq![w] + ws) == crate::theory::plans::moves(w.inbound) + crate::theory::plans::moves(w.outbound) + errands(ws),
{
    let a = seq![w] + ws;
    let f = |i: int| crate::theory::plans::moves(a[i].inbound) + crate::theory::plans::moves(a[i].outbound);
    let g = |i: int| crate::theory::plans::moves(ws[i].inbound) + crate::theory::plans::moves(ws[i].outbound);
    let rest = |i: int| f(1 + i);
    lemma_cat_add(1, ws.len() as int, f);
    crate::theory::plan_laws::lemma_cat_ext(ws.len() as int, rest, g);
    reveal_with_fuel(crate::theory::listing::cat, 2);
    assert(crate::theory::listing::cat(1, f) =~= f(0));
    assert(a[0] == w);
}

/// The updates add their transfers.
proof fn lemma_update_errands(s: State, ms: Seq<Mat>, k: int)
    ensures
        s.update_homes(ms, k) matches Ok(t) ==> {
            &&& s.tail.is_prefix_of(t.tail)
            &&& t.transfers == s.transfers + errands(t.tail.skip(s.tail.len() as int))
        },
    decreases s.homes.len() - k,
{
    let n = s.tail.len() as int;
    if k >= s.homes.len() {
        assert(errands(s.tail.skip(n)) =~= Seq::<Move>::empty());
        assert(s.transfers + Seq::<Move>::empty() =~= s.transfers);
    } else if s.homes[k].kind != HomeKind::Param {
        lemma_update_errands(s, ms, k + 1);
    } else if let Ok(s1) = s.update_home(ms, s.homes[k]) {
        lemma_update_errands(s1, ms, k + 1);
        if let Ok(t) = s1.update_homes(ms, k + 1) {
            let w = s1.tail.last();
            assert(s1.tail =~= s.tail.push(w));
            assert(s.tail =~= s1.tail.take(n));
            assert(s.tail =~= t.tail.take(n));
            assert(t.tail[n] == w);
            assert(t.tail.skip(n) =~= seq![w] + t.tail.skip(n + 1));
            lemma_errands_push(w, t.tail.skip(n + 1));
            assert(s1.transfers == s.transfers + crate::theory::plans::moves(w.inbound) + crate::theory::plans::moves(
                w.outbound,
            ));
            assert(t.transfers =~= s.transfers + errands(t.tail.skip(n)));
        }
    }
}

/// The plan of a model does the work of the model: its forward windows do the
/// pieces in their order, and each backward window is the adjoint of a
/// forward window, in reverse. Its transfers are the messages of its windows,
/// piece by piece, and then those of the updates. The peak of each device is
/// what it held meanwhile, or the most that a window used on it.
pub proof fn law_model_work(c: MixtralConfig, batch: int, seq: int, ds: Seq<Dev>, links: Seq<Link>)
    requires
        crate::theory::plan_laws::good_devices(ds),
        0 <= seq,
        crate::theory::plan_laws::good_config(c, batch * seq),
        c.layers > 0 ==> 0 <= crate::theory::plans::tape_need(c, batch * seq, seq) <= u64::MAX,
    ensures
        crate::theory::plans::mixtral_plan(c, batch, seq, ds, links) matches Ok(p) ==> {
            let n = batch * seq;
            let s = State::staged_mixtral(c, batch, seq, ds, links)->Ok_0;
            let homes = State::fresh(ds, links).home_mixtral(c, n, seq)->Ok_0.homes;
            let at = Site { devs: ds, homes };
            &&& staging(p, homes, c.layers * crate::theory::plans::tape_need(c, n, seq))
            &&& all_done(at, Pass::Fwd, s.windows, model_pieces(c, n, seq))
            &&& all_done(at, Pass::Bwd, s.later, model_pieces(c, n, seq))
            &&& crate::theory::plan_laws::mirrored(p, s.windows, s.later, s.tail)
            &&& p.transfers == trail(s.windows, s.later) + errands(s.tail)
            &&& p.peak.len() == ds.len()
            &&& topped(p.peak, homes, s.windows)
        },
{
    let n = batch * seq;
    let ms = crate::theory::plans::mixtral_mats(c, n);
    let list = model_pieces(c, n, seq);
    crate::theory::plan_laws::law_mixtral_plan(c, batch, seq, ds, links);
    crate::theory::plan_laws::law_matrices_fill_the_buffer(c, n);
    crate::theory::plan_laws::lemma_good_mats(c, n);
    if let Ok(p) = crate::theory::plans::mixtral_plan(c, batch, seq, ds, links) {
        crate::theory::plan_laws::lemma_fresh(ds, links);
        let s0 = State::fresh(ds, links);
        assert(crate::theory::plans::mats_len(ms, 0) == 0);
        crate::theory::plan_laws::lemma_place_params(s0, ms, 0);
        let s1 = s0.place_params(ms, 0)->Ok_0;
        crate::theory::plan_laws::lemma_place_tapes(s1, ms, c, n, seq, 0);
        let s2 = s1.place_tapes(c, n, seq, 0)->Ok_0;
        assert(s2.windows.len() == 0 && s2.later.len() == 0 && s2.transfers.len() == 0);
        assert(crate::theory::plan_laws::tape_bytes(s2.homes) == c.layers * crate::theory::plans::tape_need(c, n, seq));
        crate::theory::plan_laws::lemma_emit_mixtral(s2, c, n, seq);
        assert(s0.peak =~= s0.held);
        assert(s2.peak == s2.held);
        lemma_model_ends(s2, ms, c, n, seq);
    }
}

/// What the windows of a model and its updates make of a state whose homes
/// are placed.
proof fn lemma_model_ends(s: State, ms: Seq<Mat>, c: MixtralConfig, n: int, seq: int)
    requires
        s.sound(),
        0 <= seq,
        crate::theory::plan_laws::good_config(c, n),
        s.windows.len() == 0,
        s.later.len() == 0,
        s.tail.len() == 0,
        s.transfers.len() == 0,
        s.peak == s.held,
    ensures
        s.emit_mixtral(c, n, seq) matches Ok(u) ==> (u.emit_sgd(ms) matches Ok(v) ==> {
            let t = v.release();
            &&& all_done(site(s), Pass::Fwd, t.windows, model_pieces(c, n, seq))
            &&& all_done(site(s), Pass::Bwd, t.later, model_pieces(c, n, seq))
            &&& t.transfers == trail(t.windows, t.later) + errands(v.tail)
            &&& t.tail == v.tail
            &&& t.peak.len() == s.count()
            &&& topped(t.peak, s.homes, t.windows)
            &&& t.homes.is_prefix_of(s.homes)
            &&& forall|k: int| t.homes.len() <= k < s.homes.len() ==> (#[trigger] s.homes[k]).kind == HomeKind::Tape
        }),
{
    lemma_model_adds(s, c, n, seq);
    crate::theory::plan_laws::lemma_emit_mixtral(s, c, n, seq);
    if let Ok(u) = s.emit_mixtral(c, n, seq) {
        lemma_adds_all(s, u, model_pieces(c, n, seq));
        lemma_update_ends(s, u, ms);
    }
}

/// What pieces add to a state without windows.
proof fn lemma_adds_all(s: State, u: State, list: Seq<Piece>)
    requires
        s.sound(),
        s.windows.len() == 0,
        s.later.len() == 0,
        s.transfers.len() == 0,
        s.peak == s.held,
        adds(s, u, list),
    ensures
        all_done(site(s), Pass::Fwd, u.windows, list),
        all_done(site(s), Pass::Bwd, u.later, list),
        u.transfers == trail(u.windows, u.later),
        u.peak.len() == s.count(),
        topped(u.peak, s.homes, u.windows),
{
    reveal(adds);
    assert(u.windows.skip(0) =~= u.windows);
    assert(u.later.skip(0) =~= u.later);
    assert(s.transfers + trail(u.windows, u.later) =~= trail(u.windows, u.later));
    lemma_topped(s, u);
}

/// What the updates and taking the tapes back leave as it was.
proof fn lemma_update_ends(s: State, u: State, ms: Seq<Mat>)
    requires
        u.sound(),
        s.same_homes(u),
        u.tail.len() == 0,
    ensures
        u.emit_sgd(ms) matches Ok(v) ==> {
            let t = v.release();
            &&& t.windows == u.windows
            &&& t.later == u.later
            &&& t.peak == u.peak
            &&& t.tail == v.tail
            &&& t.transfers == u.transfers + errands(v.tail)
            &&& t.homes.is_prefix_of(s.homes)
            &&& forall|k: int| t.homes.len() <= k < s.homes.len() ==> (#[trigger] s.homes[k]).kind == HomeKind::Tape
        },
{
    crate::theory::plan_laws::lemma_update_homes(u, ms, 0);
    lemma_update_errands(u, ms, 0);
    if let Ok(v) = u.emit_sgd(ms) {
        crate::theory::plan_laws::lemma_release(v);
        lemma_release_tail(v);
        let t = v.release();
        assert(v.tail.skip(0) =~= v.tail);
        if v.marks.len() > 0 {
            assert(0 <= v.marks[0] <= v.homes.len());
        }
        assert forall|k: int| t.homes.len() <= k < s.homes.len() implies (#[trigger] s.homes[k]).kind == HomeKind::Tape by {
            assert(v.marks[0] >= 0 && v.homes[k].kind == HomeKind::Tape);
        }
    }
}

proof fn lemma_drop_tail(s: State, mark: int)
    ensures
        s.drop_homes(mark).tail == s.tail,
    decreases s.homes.len(),
{
    if s.homes.len() > 0 && s.homes.len() > mark {
        let h = s.homes.last();
        let d = h.device;
        let b = crate::theory::plans::held_bytes(h);
        let r = State { homes: s.homes.drop_last(), ..s };
        let t = if h.kind == HomeKind::Tape {
            State { free: s.free.update(d, s.free[d] + b), held: s.held.update(d, s.held[d] - b), ..r }
        } else {
            r
        };
        lemma_drop_tail(t, mark);
    }
}

proof fn lemma_release_tail(s: State)
    ensures
        s.release().tail == s.tail,
    decreases s.marks.len(),
{
    if s.marks.len() > 0 {
        let u = State { marks: s.marks.drop_last(), ..s };
        lemma_drop_tail(u, s.marks.last());
        lemma_release_tail(State { marks: u.marks, ..u.drop_homes(s.marks.last()) });
    }
}

/// The kernels of a pass, in order, on a GPU. A CPU has its runtime.
pub open spec fn loads(at: Site, w: Win, fwd: Seq<Kernel>, bwd: Seq<Kernel>) -> bool {
    match at.devs[w.device].kind {
        DeviceKind::Cpu => w.phases == seq![seq![Kernel::CpuRuntime]],
        DeviceKind::Gpu => crate::theory::listing::cat(w.phases.len() as int, |i: int| w.phases[i]) == if w.pass
            == Pass::Fwd {
            fwd
        } else {
            bwd
        },
    }
}

/// One window for `n` tokens with `width` features on both sides.
pub open spec fn square(at: Site, w: Win, n: int, width: int) -> bool {
    &&& w.batch_begin == 0 && w.batch_end == n
    &&& w.row_begin == 0 && w.row_end == width
    &&& w.col_begin == 0 && w.col_end == width
    &&& w.din == width
    &&& w.dout == width
    &&& w.offset == 0
    &&& w.param == 0
    &&& w.home == w.device
    &&& resides(at, w, w.tape)
}

/// A tile of a matrix at its place in the parameter buffer, for a part of `n`
/// tokens, with a home that holds its first element.
pub open spec fn tile_of(at: Site, w: Win, name: Seq<char>, n: int, rows: int, cols: int, offset: int) -> bool {
    let b = w.batch_end - w.batch_begin;
    let r = w.row_end - w.row_begin;
    let k = w.col_end - w.col_begin;
    &&& w.name == tile_name(name, w)
    &&& 0 <= w.batch_begin <= w.batch_end <= n
    &&& 0 <= w.row_begin <= w.row_end <= rows
    &&& 0 <= w.col_begin <= w.col_end <= cols
    &&& w.din == rows
    &&& w.dout == cols
    &&& w.offset == offset
    &&& w.tape == b * r * 4 + b * k * 4
    &&& w.param == r * k * 4
    &&& resides(at, w, crate::theory::plans::linear_need(b, r, k, false))
    &&& lives(at.homes, name, w.row_begin, w.col_begin, w.home)
}

/// The layer number of a window names a layer.
pub open spec fn numbered(c: MixtralConfig, layer: int) -> bool {
    exists|l: int| 0 <= l < c.layers && #[trigger] crate::theory::plans::short(l) == layer
}

/// The window is a tile of a matrix of layer `l` that is in no expert.
pub open spec fn front_weight(c: MixtralConfig, n: int, at: Site, w: Win, l: int) -> bool {
    let y = c.layer_places(l);
    let dim = c.dim as int;
    let wide = c.heads * c.head_dim;
    let thin = c.kv_heads * c.head_dim;
    &&& 0 <= l < c.layers
    &&& w.layer == crate::theory::plans::short(l)
    &&& w.expert == 0
    &&& {
        ||| tile_of(at, w, crate::theory::plans::layer_name("L$a-q"@, l), n, dim, wide, y.q)
        ||| tile_of(at, w, crate::theory::plans::layer_name("L$a-k"@, l), n, dim, thin, y.k)
        ||| tile_of(at, w, crate::theory::plans::layer_name("L$a-v"@, l), n, dim, thin, y.v)
        ||| tile_of(at, w, crate::theory::plans::layer_name("L$a-o"@, l), n, wide, dim, y.o)
        ||| tile_of(at, w, crate::theory::plans::layer_name("L$a-router"@, l), n, dim, c.experts as int, y.router)
    }
}

/// The window is a tile of a matrix of expert `e` of layer `l`.
pub open spec fn expert_weight(c: MixtralConfig, n: int, at: Site, w: Win, l: int, e: int) -> bool {
    let y = c.layer_places(l);
    let dim = c.dim as int;
    let inter = c.intermediate as int;
    &&& 0 <= l < c.layers
    &&& 0 <= e < c.experts
    &&& w.layer == crate::theory::plans::short(l)
    &&& w.expert == narrow(e)
    &&& {
        ||| tile_of(at, w, crate::theory::plans::expert_name("L$a-gate-$b"@, l, e), n, dim, inter, y.gate[e])
        ||| tile_of(at, w, crate::theory::plans::expert_name("L$a-up-$b"@, l, e), n, dim, inter, y.up[e])
        ||| tile_of(at, w, crate::theory::plans::expert_name("L$a-down-$b"@, l, e), n, inter, dim, y.down[e])
    }
}

/// The window is a part of a norm of layer `l`.
pub open spec fn layer_norm(c: MixtralConfig, n: int, at: Site, w: Win, l: int) -> bool {
    let y = c.layer_places(l);
    let dim = c.dim as int;
    &&& 0 <= l < c.layers
    &&& w.layer == crate::theory::plans::short(l)
    &&& {
        ||| w.expert == 0 && tile_of(at, w, crate::theory::plans::layer_name("L$a-attn-norm"@, l), n, dim, 1, y.attn_norm)
        ||| w.expert == 1 && tile_of(at, w, crate::theory::plans::layer_name("L$a-ffn-norm"@, l), n, dim, 1, y.ffn_norm)
    }
}

/// The window is a part of the attention of layer `l`.
pub open spec fn attends(c: MixtralConfig, w: Win, l: int) -> bool {
    &&& 0 <= l < c.layers
    &&& w.layer == narrow(l)
    &&& w.name == tile_name(crate::theory::plans::layer_name("L$a-gqa"@, l), w)
}

/// What a window of a model of `n` tokens in sequences of `seq` must be, by
/// its operation.
pub open spec fn model_window(c: MixtralConfig, n: int, seq: int, at: Site, w: Win) -> bool {
    let dim = c.dim as int;
    let inter = c.intermediate as int;
    let experts = c.experts as int;
    let vocab = c.vocab as int;
    let wide = c.heads * c.head_dim;
    let thin = c.kv_heads * c.head_dim;
    let b = w.batch_end - w.batch_begin;
    match w.op {
        Exec::Embed => {
            &&& w.name == crate::text::filled("embed[0:$a]"@, seq![crate::text::dec(n)])
            &&& w.batch_begin == 0 && w.batch_end == n
            &&& w.row_begin == 0 && w.row_end == vocab
            &&& w.col_begin == 0 && w.col_end == dim
            &&& w.din == vocab
            &&& w.dout == dim
            &&& w.offset == 0
            &&& w.tape == n * dim * 4
            &&& w.param == vocab * dim * 4
            &&& resides(at, w, w.tape + w.param)
            &&& lives(at.homes, "embed"@, 0, 0, w.home)
            &&& w.layer == 0 && w.expert == 0
            &&& loads(at, w, seq![Kernel::Embed], seq![Kernel::EmbedBwd])
        },
        Exec::RmsNorm => {
            &&& {
                ||| exists|l: int| #[trigger] layer_norm(c, n, at, w, l)
                ||| w.layer == 0 && w.expert == 2 && tile_of(at, w, "final-norm"@, n, dim, 1, c.places().final_norm)
            }
            &&& loads(at, w, seq![Kernel::RmsNorm], seq![Kernel::RmsNormBwd])
        },
        Exec::Linear => {
            &&& {
                ||| exists|l: int| #[trigger] front_weight(c, n, at, w, l)
                ||| exists|l: int, e: int| #[trigger] expert_weight(c, n, at, w, l, e)
                ||| w.layer == 0 && w.expert == 0 && tile_of(at, w, "lm-head"@, n, dim, vocab, c.places().lm_head)
            }
            &&& loads(at, w, seq![Kernel::Linear], seq![Kernel::LinearDx, Kernel::LinearDw])
        },
        Exec::RopeQ => {
            &&& square(at, w, n, wide)
            &&& w.tape == n * wide * 2 * 4
            &&& w.name == crate::theory::plans::layer_name("L$a-rope-q"@, w.layer)
            &&& numbered(c, w.layer) && w.expert == 0
            &&& loads(at, w, seq![Kernel::Rope], seq![Kernel::Rope])
        },
        Exec::RopeK => {
            &&& square(at, w, n, thin)
            &&& w.tape == n * thin * 2 * 4
            &&& w.name == crate::theory::plans::layer_name("L$a-rope-k"@, w.layer)
            &&& numbered(c, w.layer) && w.expert == 0
            &&& loads(at, w, seq![Kernel::Rope], seq![Kernel::Rope])
        },
        Exec::Gqa => {
            &&& 0 <= w.batch_begin <= w.batch_end <= n
            &&& 0 <= w.row_begin <= w.row_end <= seq
            &&& 0 <= w.col_begin <= w.col_end <= c.head_dim
            &&& w.din == seq
            &&& w.dout == c.head_dim
            &&& w.offset == 0 && w.expert == 0
            &&& w.tape == b * (w.row_end - w.row_begin) * 4
            &&& w.param == 0
            &&& w.home == w.device
            &&& resides(at, w, crate::theory::plans::attention_need(b, w.row_end - w.row_begin, w.col_end - w.col_begin))
            &&& exists|l: int| #[trigger] attends(c, w, l)
            &&& loads(at, w, seq![Kernel::GqaFwd], seq![Kernel::GqaBwd])
        },
        Exec::AddAttn => {
            &&& square(at, w, n, dim)
            &&& w.tape == n * dim * 2 * 4
            &&& w.name == crate::theory::plans::layer_name("L$a-add-attn"@, w.layer)
            &&& numbered(c, w.layer) && w.expert == 0
            &&& loads(at, w, seq![Kernel::Add], seq![Kernel::Add])
        },
        Exec::AddMoe => {
            &&& square(at, w, n, dim)
            &&& w.tape == n * dim * 2 * 4
            &&& w.name == crate::theory::plans::layer_name("L$a-add-moe"@, w.layer)
            &&& numbered(c, w.layer) && w.expert == 0
            &&& loads(at, w, seq![Kernel::Add], seq![Kernel::Add])
        },
        Exec::Router => {
            &&& square(at, w, n, experts)
            &&& w.tape == (n * dim + n * experts * 4) * 4
            &&& w.name == crate::theory::plans::layer_name("L$a-router-gate"@, w.layer)
            &&& numbered(c, w.layer) && w.expert == 0
            &&& loads(at, w, seq![Kernel::Router], seq![Kernel::RouterBwd])
        },
        Exec::Silu => {
            &&& square(at, w, n, inter)
            &&& w.tape == n * inter * 4 * 4
            &&& w.name == crate::theory::plans::expert_name("L$a-silu-$b"@, w.layer, w.expert)
            &&& numbered(c, w.layer) && 0 <= w.expert < experts
            &&& loads(at, w, seq![Kernel::Silu], seq![Kernel::SiluBwd])
        },
        Exec::Mix => {
            &&& square(at, w, n, dim)
            &&& w.tape == n * dim * (experts + 2) * 4
            &&& w.name == crate::theory::plans::layer_name("L$a-mix"@, w.layer)
            &&& numbered(c, w.layer) && w.expert == 0
            &&& loads(at, w, seq![Kernel::Add], seq![Kernel::Add])
        },
        Exec::Loss => {
            &&& w.name == crate::text::filled(
                "loss[$a:$b,$c:$d]"@,
                seq![
                    crate::text::dec(w.batch_begin),
                    crate::text::dec(w.batch_end),
                    crate::text::dec(w.col_begin),
                    crate::text::dec(w.col_end),
                ],
            )
            &&& 0 <= w.batch_begin <= w.batch_end <= n
            &&& 0 <= w.row_begin <= w.row_end <= 1
            &&& 0 <= w.col_begin <= w.col_end <= vocab
            &&& w.din == 1
            &&& w.dout == vocab
            &&& w.offset == 0 && w.layer == 0 && w.expert == 0
            &&& w.tape == b * (w.col_end - w.col_begin) * 4
            &&& w.param == 0
            &&& w.home == w.device
            &&& resides(at, w, crate::theory::plans::linear_need(b, 1, w.col_end - w.col_begin, false))
            &&& loads(at, w, seq![Kernel::Ce], seq![Kernel::Ce])
        },
        Exec::Sgd => true,
    }
}

proof fn lemma_loads(at: Site, pass: Pass, w: Win, d: Piece)
    requires
        does(at, pass, w, d),
    ensures
        loads(at, w, d.fwd, d.bwd),
{
    crate::theory::plan_laws::law_phases(
        at.devs[w.device],
        if pass == Pass::Fwd {
            d.fwd
        } else {
            d.bwd
        },
    );
}

proof fn lemma_front_window(c: MixtralConfig, n: int, seq: int, at: Site, pass: Pass, w: Win, l: int, i: int)
    requires
        0 <= l < c.layers,
        0 <= i < 12,
        does(at, pass, w, front_pieces(c, n, seq, l)[i]),
    ensures
        model_window(c, n, seq, at, w),
{
    reveal(front_pieces);
    let d = front_pieces(c, n, seq, l)[i];
    lemma_loads(at, pass, w, d);
    assert(crate::theory::plans::short(l) == crate::theory::plans::short(l));
    if i == 0 {
        assert(layer_norm(c, n, at, w, l));
    } else if i == 9 {
        assert(layer_norm(c, n, at, w, l));
    } else if i == 1 || i == 2 || i == 3 {
        assert(front_weight(c, n, at, w, l));
    } else if i == 7 || i == 10 {
        assert(front_weight(c, n, at, w, l));
    } else if i == 6 {
        assert(attends(c, w, l));
    } else if i == 4 || i == 5 {
    } else if i == 8 {
    } else {
        assert(i == 11);
    }
}

proof fn lemma_expert_window(c: MixtralConfig, n: int, seq: int, at: Site, pass: Pass, w: Win, l: int, e: int, d: Piece)
    requires
        0 <= l < c.layers,
        0 <= e < c.experts,
        expert_pieces(c, n, l, e).contains(d),
        does(at, pass, w, d),
    ensures
        model_window(c, n, seq, at, w),
{
    let y = c.layer_places(l);
    let s = crate::theory::plans::short(l);
    let dim = c.dim as int;
    let inter = c.intermediate as int;
    let p = expert_pieces(c, n, l, e);
    lemma_loads(at, pass, w, d);
    let i = p.index_of(d);
    assert(p[i] == d);
    if i < 2 || i == p.len() - 1 {
        assert(expert_weight(c, n, at, w, l, e));
    } else {
        assert(d == silu_pieces(c, n, l, e)[0]);
    }
}

proof fn lemma_layer_window(c: MixtralConfig, n: int, seq: int, at: Site, pass: Pass, w: Win, l: int, d: Piece)
    requires
        0 <= l < c.layers,
        layer_pieces(c, n, seq, l).contains(d),
        does(at, pass, w, d),
    ensures
        model_window(c, n, seq, at, w),
{
    reveal(front_pieces);
    let a = front_pieces(c, n, seq, l);
    let f = |e: int| expert_pieces(c, n, l, e);
    let m = crate::theory::listing::cat(c.experts as int, f);
    let z = close_pieces(c, n, l);
    let p = layer_pieces(c, n, seq, l);
    let i = p.index_of(d);
    assert(p[i] == d);
    if i < 12 {
        assert(d == a[i]);
        lemma_front_window(c, n, seq, at, pass, w, l, i);
    } else if i < 12 + m.len() {
        assert(d == m[i - 12]);
        crate::theory::listing::lemma_cat(c.experts as int, f);
        let e = choose|e: int| 0 <= e < c.experts && (#[trigger] f(e)).contains(crate::theory::listing::cat(c.experts as int, f)[i - 12]);
        assert(f(e).contains(d));
        lemma_expert_window(c, n, seq, at, pass, w, l, e, d);
    } else {
        assert(d == z[i - 12 - m.len()]);
        lemma_loads(at, pass, w, d);
        assert(crate::theory::plans::short(l) == w.layer);
    }
}

proof fn lemma_model_window(c: MixtralConfig, n: int, seq: int, at: Site, pass: Pass, w: Win, i: int)
    requires
        0 <= i < model_pieces(c, n, seq).len(),
        does(at, pass, w, model_pieces(c, n, seq)[i]),
    ensures
        model_window(c, n, seq, at, w),
{
    let f = |l: int| layer_pieces(c, n, seq, l);
    let m = crate::theory::listing::cat(c.layers as int, f);
    let d = model_pieces(c, n, seq)[i];
    lemma_loads(at, pass, w, d);
    if i == 0 {
        assert(d == lookup(c, n));
    } else if i < 1 + m.len() {
        assert(d == m[i - 1]);
        crate::theory::listing::lemma_cat(c.layers as int, f);
        let l = choose|l: int| 0 <= l < c.layers && (#[trigger] f(l)).contains(crate::theory::listing::cat(c.layers as int, f)[i - 1]);
        assert(f(l).contains(d));
        lemma_layer_window(c, n, seq, at, pass, w, l, d);
    }
}

/// In the plan of a model every window has the sizes, the place in the
/// parameter buffer, the name, the charges and the kernels that belong to its
/// operation. A rotation of the keys is as wide as the key matrix, and one of
/// the queries as wide as the query matrix.
pub proof fn law_model_windows(c: MixtralConfig, batch: int, seq: int, ds: Seq<Dev>, links: Seq<Link>)
    requires
        crate::theory::plan_laws::good_devices(ds),
        0 <= seq,
        crate::theory::plan_laws::good_config(c, batch * seq),
        c.layers > 0 ==> 0 <= crate::theory::plans::tape_need(c, batch * seq, seq) <= u64::MAX,
    ensures
        crate::theory::plans::mixtral_plan(c, batch, seq, ds, links) matches Ok(p) ==> exists|homes: Seq<Place>| {
            &&& #[trigger] staging(p, homes, c.layers * crate::theory::plans::tape_need(c, batch * seq, seq))
            &&& forall|i: int|
                0 <= i < p.windows.len() ==> model_window(
                    c,
                    batch * seq,
                    seq,
                    Site { devs: ds, homes },
                    #[trigger] p.windows[i],
                )
        },
{
    let n = batch * seq;
    let list = model_pieces(c, n, seq);
    law_model_work(c, batch, seq, ds, links);
    if let Ok(p) = crate::theory::plans::mixtral_plan(c, batch, seq, ds, links) {
        let s = State::staged_mixtral(c, batch, seq, ds, links)->Ok_0;
        let homes = State::fresh(ds, links).home_mixtral(c, n, seq)->Ok_0.homes;
        let at = Site { devs: ds, homes };
        assert(staging(p, homes, c.layers * crate::theory::plans::tape_need(c, n, seq)));
        let m = s.windows.len() as int;
        assert forall|i: int| 0 <= i < p.windows.len() implies model_window(c, n, seq, at, #[trigger] p.windows[i]) by {
            let w = p.windows[i];
            if i < m {
                assert(w == s.windows[i]);
                let j = lemma_some_piece(at, Pass::Fwd, s.windows, list, i);
                lemma_model_window(c, n, seq, at, Pass::Fwd, w, j);
            } else if i < m + m {
                assert(w == s.later.reverse()[i - m]);
                assert(w == s.later[m - 1 - (i - m)]);
                let j = lemma_some_piece(at, Pass::Bwd, s.later, list, m - 1 - (i - m));
                lemma_model_window(c, n, seq, at, Pass::Bwd, w, j);
            } else {
                assert(w == s.tail[i - m - m]);
            }
        }
    }
}

// ----- each piece once -----

/// The box of the piece is given by its sizes.
spec fn boxed(n: int, d: Piece) -> bool {
    d.batch == n && d.rows == d.din && d.cols == d.dout
}

proof fn lemma_wanted_at(list: Seq<Piece>, n: int, i: int, p: (int, int, int))
    requires
        all_apart(list),
        forall|j: int| 0 <= j < list.len() ==> boxed(n, #[trigger] list[j]),
        0 <= i < list.len(),
    ensures
        wanted(list, piece_key(list[i]), p) == one_if(spans(list[i], p)),
{
    let k = piece_key(list[i]);
    if spans(list[i], p) {
        lemma_wanted_once(list, i, p);
    } else {
        assert(boxed(n, list[i]));
        assert forall|j: int| 0 <= j < list.len() implies piece_key(#[trigger] list[j]) != k || !spans(list[j], p) by {
            assert(boxed(n, list[j]));
        }
        lemma_wanted_none(list, k, p);
    }
}

/// What holds of the work of layer `l`: its number, its box and, for a
/// product with a matrix, that it stays before `end`.
spec fn in_layer(n: int, l: int, end: int, d: Piece) -> bool {
    &&& boxed(n, d)
    &&& d.layer == l
    &&& !(d.op is Embed) && !(d.op is Loss) && !(d.op is Sgd)
    &&& d.op is RmsNorm ==> d.expert == 0 || d.expert == 1
    &&& d.op is Linear ==> d.offset + d.rows * d.cols <= end
}

proof fn lemma_area(d: Piece)
    ensures
        0 < d.rows && 0 < d.cols ==> 0 < d.rows * d.cols,
{
    let a = d.rows;
    let b = d.cols;
    if 0 < a && 0 < b {
        assert(0 < a * b) by (nonlinear_arith)
            requires 0 < a, 0 < b;
    }
}

#[verifier::rlimit(60)]
#[verifier::spinoff_prover]
proof fn lemma_front_apart(c: MixtralConfig, n: int, seq: int, l: int)
    requires
        0 <= l < c.layers,
        l <= u32::MAX,
    ensures
        forall|i: int| 0 <= i < 12 ==> in_layer(n, l, c.expert_at(l, 0), #[trigger] front_pieces(c, n, seq, l)[i]),
        all_apart(front_pieces(c, n, seq, l)),
{
    reveal(front_pieces);
    let p = front_pieces(c, n, seq, l);
    crate::mixtral::lemma_lens(c);
    crate::mixtral::lemma_ends(c);
    assert(crate::theory::plans::short(l) == l);
    assert(c.expert_at(l, 0) == c.layer_at(l) + c.front_len());
    lemma_area(p[1]);
    lemma_area(p[2]);
    lemma_area(p[3]);
    lemma_area(p[7]);
    lemma_area(p[10]);
    assert(p[1].rows * p[1].cols == c.q_len());
    assert(p[2].rows * p[2].cols == c.kv_len());
    assert(p[3].rows * p[3].cols == c.kv_len());
    assert(p[7].rows * p[7].cols == c.o_len());
    assert(p[10].rows * p[10].cols == c.router_len());
    assert(p[0].op is RmsNorm && p[0].expert == 0);
    assert(p[9].op is RmsNorm && p[9].expert == 1);
    assert(p[4].op is RopeQ && p[5].op is RopeK && p[6].op is Gqa && p[8].op is AddAttn && p[11].op is Router);
    assert(p[1].op is Linear && p[2].op is Linear && p[3].op is Linear && p[7].op is Linear && p[10].op is Linear);
    assert(apart(p[0], p[9]));
    assert(apart(p[1], p[2]) && apart(p[1], p[3]) && apart(p[1], p[7]) && apart(p[1], p[10]));
    assert(apart(p[2], p[3]) && apart(p[2], p[7]) && apart(p[2], p[10]));
    assert(apart(p[3], p[7]) && apart(p[3], p[10]));
    assert(apart(p[7], p[10]));
    assert forall|i: int, j: int| 0 <= i < j < p.len() implies #[trigger] apart(p[i], p[j]) by {
        if p[i].op is Linear && p[j].op is Linear {
            assert(i == 1 || i == 2 || i == 3 || i == 7 || i == 10);
            assert(j == 1 || j == 2 || j == 3 || j == 7 || j == 10);
        } else if p[i].op is RmsNorm && p[j].op is RmsNorm {
            assert(i == 0 && j == 9);
        } else {
            assert(p[i].op != p[j].op);
        }
    }
    assert forall|i: int| 0 <= i < 12 implies in_layer(n, l, c.expert_at(l, 0), #[trigger] p[i]) by {
    }
}

#[verifier::rlimit(60)]
#[verifier::spinoff_prover]
proof fn lemma_expert_apart(c: MixtralConfig, n: int, l: int, e: int)
    requires
        0 <= l < c.layers,
        l <= u32::MAX,
        0 <= e < c.experts,
        e <= u32::MAX,
    ensures
        forall|i: int|
            0 <= i < expert_pieces(c, n, l, e).len() ==> {
                &&& in_layer(n, l, c.expert_at(l, e + 1), #[trigger] expert_pieces(c, n, l, e)[i])
                &&& expert_pieces(c, n, l, e)[i].expert == e
                &&& expert_pieces(c, n, l, e)[i].op is Linear || expert_pieces(c, n, l, e)[i].op is Silu
                &&& expert_pieces(c, n, l, e)[i].op is Linear ==> c.expert_at(l, e) <= expert_pieces(c, n, l, e)[i].offset
            },
        all_apart(expert_pieces(c, n, l, e)),
{
    let p = expert_pieces(c, n, l, e);
    crate::mixtral::lemma_lens(c);
    crate::mixtral::lemma_expert_step(c, l, e);
    assert(crate::theory::plans::short(l) == l);
    assert(p.len() == 4);
    lemma_area(p[0]);
    lemma_area(p[1]);
    lemma_area(p[3]);
    assert(p[0].rows * p[0].cols == c.up_len());
    assert(p[1].rows * p[1].cols == c.up_len());
    assert(p[3].rows * p[3].cols == c.down_len());
    assert(p[0].op is Linear && p[1].op is Linear && p[3].op is Linear && p[2].op is Silu);
    assert(apart(p[0], p[1]) && apart(p[0], p[3]) && apart(p[1], p[3]));
    assert forall|i: int, j: int| 0 <= i < j < p.len() implies #[trigger] apart(p[i], p[j]) by {
        if i == 2 || j == 2 {
            assert(p[i].op != p[j].op);
        }
    }
}

#[verifier::rlimit(60)]
#[verifier::spinoff_prover]
proof fn lemma_layer_apart(c: MixtralConfig, n: int, seq: int, l: int)
    requires
        0 <= l < c.layers,
        l <= u32::MAX,
        c.experts <= u32::MAX + 1,
    ensures
        forall|i: int|
            0 <= i < layer_pieces(c, n, seq, l).len() ==> in_layer(
                n,
                l,
                c.layer_at(l + 1),
                #[trigger] layer_pieces(c, n, seq, l)[i],
            ),
        all_apart(layer_pieces(c, n, seq, l)),
{
    reveal(front_pieces);
    let a = front_pieces(c, n, seq, l);
    let f = |e: int| expert_pieces(c, n, l, e);
    let m = crate::theory::listing::cat(c.experts as int, f);
    let z = close_pieces(c, n, l);
    let end = c.layer_at(l + 1);
    crate::mixtral::lemma_lens(c);
    crate::mixtral::lemma_ends(c);
    crate::mixtral::lemma_layer_step(c, l);
    lemma_front_apart(c, n, seq, l);
    assert(crate::theory::plans::short(l) == l);
    assert(c.expert_at(l, 0) <= end);
    assert forall|e: int| 0 <= e < c.experts implies all_apart(#[trigger] f(e)) by {
        lemma_expert_apart(c, n, l, e);
    }
    assert forall|i: int, j: int, x: Piece, y: Piece|
        0 <= i < j < c.experts && #[trigger] f(i).contains(x) && #[trigger] f(j).contains(y) implies apart(x, y) by {
        lemma_expert_apart(c, n, l, i);
        lemma_expert_apart(c, n, l, j);
        assert(f(i)[f(i).index_of(x)] == x);
        assert(f(j)[f(j).index_of(y)] == y);
    }
    lemma_apart_cat(c.experts as int, f);
    crate::theory::listing::lemma_cat(c.experts as int, f);
    assert forall|k: int| 0 <= k < m.len() implies {
        &&& in_layer(n, l, end, #[trigger] m[k])
        &&& m[k].op is Linear || m[k].op is Silu
        &&& m[k].op is Linear ==> c.expert_at(l, 0) <= m[k].offset
    } by {
        let d = m[k];
        let e = choose|e: int| 0 <= e < c.experts && (#[trigger] f(e)).contains(crate::theory::listing::cat(c.experts as int, f)[k]);
        assert(f(e).contains(d));
        let i = f(e).index_of(d);
        assert(expert_pieces(c, n, l, e)[i] == d);
        lemma_expert_apart(c, n, l, e);
        crate::mixtral::lemma_expert_step(c, l, e);
    }
    assert forall|i: int, j: int| 0 <= i < a.len() && 0 <= j < m.len() implies #[trigger] apart(a[i], m[j]) by {
        lemma_area(a[i]);
        assert(in_layer(n, l, c.expert_at(l, 0), front_pieces(c, n, seq, l)[i]));
        assert(in_layer(n, l, end, m[j]));
        if m[j].op is Silu {
            assert(!(a[i].op is Silu));
        }
    }
    lemma_apart_add(a, m);
    let am = a + m;
    assert(all_apart(z));
    assert forall|i: int, j: int| 0 <= i < am.len() && 0 <= j < z.len() implies #[trigger] apart(am[i], z[j]) by {
        if i < 12 {
            assert(am[i] == a[i]);
        } else {
            assert(am[i] == m[i - 12]);
        }
        assert(am[i].op != z[j].op);
    }
    lemma_apart_add(am, z);
    let p = layer_pieces(c, n, seq, l);
    assert forall|i: int| 0 <= i < p.len() implies in_layer(n, l, end, #[trigger] p[i]) by {
        if i < 12 {
            assert(p[i] == front_pieces(c, n, seq, l)[i]);
        } else if i < am.len() {
            assert(p[i] == m[i - 12]);
        } else {
            assert(p[i] == z[i - am.len()]);
        }
    }
}

proof fn lemma_model_apart(c: MixtralConfig, n: int, seq: int)
    requires
        c.layers <= u32::MAX + 1,
        c.experts <= u32::MAX + 1,
    ensures
        forall|i: int| 0 <= i < model_pieces(c, n, seq).len() ==> boxed(n, #[trigger] model_pieces(c, n, seq)[i]),
        forall|i: int|
            0 <= i < model_pieces(c, n, seq).len() ==> !((#[trigger] model_pieces(c, n, seq)[i]).op is Sgd),
        all_apart(model_pieces(c, n, seq)),
{
    let f = |l: int| layer_pieces(c, n, seq, l);
    let m = crate::theory::listing::cat(c.layers as int, f);
    let last = c.layer_at(c.layers as int);
    let first = seq![lookup(c, n)];
    let z = seq![
        norm("final-norm"@, 0, 2, n, c.dim as int, c.places().final_norm),
        weight("lm-head"@, 0, 0, n, c.dim as int, c.vocab as int, c.places().lm_head),
        logits(c, n),
    ];
    assert forall|l: int| 0 <= l < c.layers implies all_apart(#[trigger] f(l)) by {
        lemma_layer_apart(c, n, seq, l);
    }
    assert forall|i: int, j: int, x: Piece, y: Piece|
        0 <= i < j < c.layers && #[trigger] f(i).contains(x) && #[trigger] f(j).contains(y) implies apart(x, y) by {
        lemma_layer_apart(c, n, seq, i);
        lemma_layer_apart(c, n, seq, j);
        assert(layer_pieces(c, n, seq, i)[f(i).index_of(x)] == x);
        assert(layer_pieces(c, n, seq, j)[f(j).index_of(y)] == y);
    }
    lemma_apart_cat(c.layers as int, f);
    crate::theory::listing::lemma_cat(c.layers as int, f);
    assert forall|k: int| 0 <= k < m.len() implies in_layer(n, m[k].layer, last, #[trigger] m[k]) by {
        let d = m[k];
        let l = choose|l: int| 0 <= l < c.layers && (#[trigger] f(l)).contains(crate::theory::listing::cat(c.layers as int, f)[k]);
        assert(f(l).contains(d));
        let i = f(l).index_of(d);
        assert(layer_pieces(c, n, seq, l)[i] == d);
        lemma_layer_apart(c, n, seq, l);
        crate::mixtral::lemma_layer_step(c, l);
    }
    assert forall|i: int, j: int| 0 <= i < first.len() && 0 <= j < m.len() implies #[trigger] apart(first[i], m[j]) by {
        assert(in_layer(n, m[j].layer, last, m[j]));
    }
    assert(all_apart(first));
    lemma_apart_add(first, m);
    let fm = first + m;
    assert(all_apart(z));
    assert forall|i: int, j: int| 0 <= i < fm.len() && 0 <= j < z.len() implies #[trigger] apart(fm[i], z[j]) by {
        lemma_area(fm[i]);
        if i > 0 {
            assert(fm[i] == m[i - 1]);
            assert(in_layer(n, m[i - 1].layer, last, m[i - 1]));
        }
    }
    lemma_apart_add(fm, z);
    let p = model_pieces(c, n, seq);
    assert(p =~= fm + z);
    assert forall|i: int| 0 <= i < p.len() implies boxed(n, #[trigger] p[i]) && !(p[i].op is Sgd) by {
        if 0 < i < fm.len() {
            assert(p[i] == m[i - 1]);
            assert(in_layer(n, m[i - 1].layer, last, m[i - 1]));
        } else if i >= fm.len() {
            assert(p[i] == z[i - fm.len()]);
        }
    }
}

/// On both passes each point of the box lies in exactly one window that works
/// on this, and no other point lies in any.
#[verifier::opaque]
pub open spec fn once(p: Plan, k: Key, batch: int, rows: int, cols: int) -> bool {
    forall|pass: Pass, x: (int, int, int)| #[trigger]
        worked(p.windows, pass, k, x) == one_if(0 <= x.0 < batch && 0 <= x.1 < rows && 0 <= x.2 < cols)
}

/// The windows of a plan that work on something are those of its passes.
proof fn lemma_plan_worked(p: Plan, fwd: Seq<Win>, bwd: Seq<Win>, tail: Seq<Win>, pass: Pass, k: Key, x: (int, int, int))
    requires
        crate::theory::plan_laws::mirrored(p, fwd, bwd, tail),
        !(k.op is Sgd),
    ensures
        worked(p.windows, pass, k, x) == if pass == Pass::Fwd {
            worked(fwd, pass, k, x)
        } else {
            worked(bwd, pass, k, x)
        },
{
    let r = bwd.reverse();
    lemma_worked_add(fwd + r, tail, pass, k, x);
    lemma_worked_add(fwd, r, pass, k, x);
    lemma_worked_reverse(bwd, pass, k, x);
    lemma_worked_none(tail, pass, k, x);
    match pass {
        Pass::Fwd => {
            assert forall|i: int| 0 <= i < bwd.len() implies (#[trigger] bwd[i]).pass != pass || key(bwd[i]) != k by {
                assert(crate::theory::plan_laws::adjoint(fwd[i], bwd[i]));
            }
            lemma_worked_none(bwd, pass, k, x);
        },
        Pass::Bwd => {
            assert forall|i: int| 0 <= i < fwd.len() implies (#[trigger] fwd[i]).pass != pass || key(fwd[i]) != k by {
                assert(crate::theory::plan_laws::adjoint(fwd[i], bwd[i]));
            }
            lemma_worked_none(fwd, pass, k, x);
        },
    }
}

/// A piece of the model is done once on each pass.
proof fn lemma_model_once(c: MixtralConfig, batch: int, seq: int, ds: Seq<Dev>, links: Seq<Link>, d: Piece)
    requires
        crate::theory::plan_laws::good_devices(ds),
        0 <= seq,
        crate::theory::plan_laws::good_config(c, batch * seq),
        c.layers > 0 ==> 0 <= crate::theory::plans::tape_need(c, batch * seq, seq) <= u64::MAX,
        c.layers <= u32::MAX + 1,
        c.experts <= u32::MAX + 1,
        model_pieces(c, batch * seq, seq).contains(d),
    ensures
        crate::theory::plans::mixtral_plan(c, batch, seq, ds, links) matches Ok(p) ==> once(
            p,
            piece_key(d),
            d.batch,
            d.rows,
            d.cols,
        ),
{
    reveal(once);
    let n = batch * seq;
    let list = model_pieces(c, n, seq);
    law_model_work(c, batch, seq, ds, links);
    lemma_model_apart(c, n, seq);
    if let Ok(p) = crate::theory::plans::mixtral_plan(c, batch, seq, ds, links) {
        let s = State::staged_mixtral(c, batch, seq, ds, links)->Ok_0;
        let homes = State::fresh(ds, links).home_mixtral(c, n, seq)->Ok_0.homes;
        let at = Site { devs: ds, homes };
        let k = piece_key(d);
        let i = list.index_of(d);
        assert(list[i] == d);
        assert forall|pass: Pass, x: (int, int, int)| #[trigger]
            worked(p.windows, pass, k, x) == one_if(0 <= x.0 < d.batch && 0 <= x.1 < d.rows && 0 <= x.2 < d.cols) by {
            lemma_plan_worked(p, s.windows, s.later, s.tail, pass, k, x);
            lemma_worked_all(at, Pass::Fwd, s.windows, list, k, x);
            lemma_worked_all(at, Pass::Bwd, s.later, list, k, x);
            lemma_wanted_at(list, n, i, x);
        }
    }
}

proof fn lemma_layer_member(c: MixtralConfig, n: int, seq: int, l: int, d: Piece)
    requires
        0 <= l < c.layers,
        layer_pieces(c, n, seq, l).contains(d),
    ensures
        model_pieces(c, n, seq).contains(d),
{
    let f = |l: int| layer_pieces(c, n, seq, l);
    let m = crate::theory::listing::cat(c.layers as int, f);
    crate::theory::listing::lemma_cat(c.layers as int, f);
    assert(f(l).contains(d));
    assert(m.contains(d));
    let i = m.index_of(d);
    assert(model_pieces(c, n, seq)[1 + i] == d);
}

proof fn lemma_front_member(c: MixtralConfig, n: int, seq: int, l: int, i: int)
    requires
        0 <= l < c.layers,
        0 <= i < 12,
    ensures
        model_pieces(c, n, seq).contains(front_pieces(c, n, seq, l)[i]),
{
    reveal(front_pieces);
    assert(layer_pieces(c, n, seq, l)[i] == front_pieces(c, n, seq, l)[i]);
    lemma_layer_member(c, n, seq, l, front_pieces(c, n, seq, l)[i]);
}

proof fn lemma_close_member(c: MixtralConfig, n: int, seq: int, l: int, i: int)
    requires
        0 <= l < c.layers,
        0 <= i < 2,
    ensures
        model_pieces(c, n, seq).contains(close_pieces(c, n, l)[i]),
{
    let p = layer_pieces(c, n, seq, l);
    assert(p[p.len() - 2 + i] == close_pieces(c, n, l)[i]);
    lemma_layer_member(c, n, seq, l, close_pieces(c, n, l)[i]);
}

proof fn lemma_expert_member(c: MixtralConfig, n: int, seq: int, l: int, e: int, i: int)
    requires
        0 <= l < c.layers,
        0 <= e < c.experts,
        0 <= i < expert_pieces(c, n, l, e).len(),
    ensures
        model_pieces(c, n, seq).contains(expert_pieces(c, n, l, e)[i]),
{
    reveal(front_pieces);
    let d = expert_pieces(c, n, l, e)[i];
    let f = |e: int| expert_pieces(c, n, l, e);
    let m = crate::theory::listing::cat(c.experts as int, f);
    crate::theory::listing::lemma_cat(c.experts as int, f);
    assert(f(e).contains(d));
    assert(m.contains(d));
    let k = m.index_of(d);
    assert(layer_pieces(c, n, seq, l)[12 + k] == d);
    lemma_layer_member(c, n, seq, l, d);
}

/// The front work of layer `l`, one by one.
proof fn lemma_front_keys(c: MixtralConfig, n: int, seq: int, l: int)
    requires
        0 <= l <= u32::MAX,
    ensures
        ({
            let f = front_pieces(c, n, seq, l);
            let y = c.layer_places(l);
            let dim = c.dim as int;
            let wide = c.heads * c.head_dim;
            let thin = c.kv_heads * c.head_dim;
            let experts = c.experts as int;
            let head = c.head_dim as int;
            &&& piece_key(f[0]) == (Key { op: Exec::RmsNorm, layer: l, expert: 0, offset: y.attn_norm, din: dim, dout: 1 })
            &&& f[0].batch == n && f[0].rows == dim && f[0].cols == 1
            &&& piece_key(f[1]) == (Key { op: Exec::Linear, layer: l, expert: 0, offset: y.q, din: dim, dout: wide })
            &&& f[1].batch == n && f[1].rows == dim && f[1].cols == wide
            &&& piece_key(f[2]) == (Key { op: Exec::Linear, layer: l, expert: 0, offset: y.k, din: dim, dout: thin })
            &&& f[2].batch == n && f[2].rows == dim && f[2].cols == thin
            &&& piece_key(f[3]) == (Key { op: Exec::Linear, layer: l, expert: 0, offset: y.v, din: dim, dout: thin })
            &&& f[3].batch == n && f[3].rows == dim && f[3].cols == thin
            &&& piece_key(f[4]) == (Key { op: Exec::RopeQ, layer: l, expert: 0, offset: 0, din: wide, dout: wide })
            &&& f[4].batch == n && f[4].rows == wide && f[4].cols == wide
            &&& piece_key(f[5]) == (Key { op: Exec::RopeK, layer: l, expert: 0, offset: 0, din: thin, dout: thin })
            &&& f[5].batch == n && f[5].rows == thin && f[5].cols == thin
            &&& piece_key(f[6]) == (Key { op: Exec::Gqa, layer: l, expert: 0, offset: 0, din: seq, dout: head })
            &&& f[6].batch == n && f[6].rows == seq && f[6].cols == head
            &&& piece_key(f[7]) == (Key { op: Exec::Linear, layer: l, expert: 0, offset: y.o, din: wide, dout: dim })
            &&& f[7].batch == n && f[7].rows == wide && f[7].cols == dim
            &&& piece_key(f[8]) == (Key { op: Exec::AddAttn, layer: l, expert: 0, offset: 0, din: dim, dout: dim })
            &&& f[8].batch == n && f[8].rows == dim && f[8].cols == dim
            &&& piece_key(f[9]) == (Key { op: Exec::RmsNorm, layer: l, expert: 1, offset: y.ffn_norm, din: dim, dout: 1 })
            &&& f[9].batch == n && f[9].rows == dim && f[9].cols == 1
            &&& piece_key(f[10]) == (Key { op: Exec::Linear, layer: l, expert: 0, offset: y.router, din: dim, dout: experts })
            &&& f[10].batch == n && f[10].rows == dim && f[10].cols == experts
            &&& piece_key(f[11]) == (Key { op: Exec::Router, layer: l, expert: 0, offset: 0, din: experts, dout: experts })
            &&& f[11].batch == n && f[11].rows == experts && f[11].cols == experts
        }),
{
    reveal(front_pieces);
    assert(crate::theory::plans::short(l) == l);
}

/// In the plan of a model each layer does each of its operations once on the
/// forward pass and once on the backward pass: two norms, the products with
/// the query, key, value, output and router matrices, the two rotations, the
/// attention, the choice of experts, the mix of the experts and the two
/// residual sums. Every token, every row and every column is in exactly one
/// window.
#[verifier::rlimit(50)]
#[verifier::spinoff_prover]
pub proof fn law_layer_covered(c: MixtralConfig, batch: int, seq: int, ds: Seq<Dev>, links: Seq<Link>, l: int)
    requires
        crate::theory::plan_laws::good_devices(ds),
        0 <= seq,
        crate::theory::plan_laws::good_config(c, batch * seq),
        c.layers > 0 ==> 0 <= crate::theory::plans::tape_need(c, batch * seq, seq) <= u64::MAX,
        c.layers <= u32::MAX + 1,
        c.experts <= u32::MAX + 1,
        0 <= l < c.layers,
    ensures
        crate::theory::plans::mixtral_plan(c, batch, seq, ds, links) matches Ok(p) ==> {
            let n = batch * seq;
            let y = c.layer_places(l);
            let dim = c.dim as int;
            let wide = c.heads * c.head_dim;
            let thin = c.kv_heads * c.head_dim;
            let experts = c.experts as int;
            let head = c.head_dim as int;
            &&& once(
                p,
                Key { op: Exec::RmsNorm, layer: l, expert: 0, offset: y.attn_norm, din: dim, dout: 1 },
                n,
                dim,
                1,
            )
            &&& once(
                p,
                Key { op: Exec::Linear, layer: l, expert: 0, offset: y.q, din: dim, dout: wide },
                n,
                dim,
                wide,
            )
            &&& once(
                p,
                Key { op: Exec::Linear, layer: l, expert: 0, offset: y.k, din: dim, dout: thin },
                n,
                dim,
                thin,
            )
            &&& once(
                p,
                Key { op: Exec::Linear, layer: l, expert: 0, offset: y.v, din: dim, dout: thin },
                n,
                dim,
                thin,
            )
            &&& once(
                p,
                Key { op: Exec::RopeQ, layer: l, expert: 0, offset: 0, din: wide, dout: wide },
                n,
                wide,
                wide,
            )
            &&& once(
                p,
                Key { op: Exec::RopeK, layer: l, expert: 0, offset: 0, din: thin, dout: thin },
                n,
                thin,
                thin,
            )
            &&& once(
                p,
                Key { op: Exec::Gqa, layer: l, expert: 0, offset: 0, din: seq, dout: head },
                n,
                seq,
                head,
            )
            &&& once(
                p,
                Key { op: Exec::Linear, layer: l, expert: 0, offset: y.o, din: wide, dout: dim },
                n,
                wide,
                dim,
            )
            &&& once(
                p,
                Key { op: Exec::AddAttn, layer: l, expert: 0, offset: 0, din: dim, dout: dim },
                n,
                dim,
                dim,
            )
            &&& once(
                p,
                Key { op: Exec::RmsNorm, layer: l, expert: 1, offset: y.ffn_norm, din: dim, dout: 1 },
                n,
                dim,
                1,
            )
            &&& once(
                p,
                Key { op: Exec::Linear, layer: l, expert: 0, offset: y.router, din: dim, dout: experts },
                n,
                dim,
                experts,
            )
            &&& once(
                p,
                Key { op: Exec::Router, layer: l, expert: 0, offset: 0, din: experts, dout: experts },
                n,
                experts,
                experts,
            )
            &&& once(
                p,
                Key { op: Exec::Mix, layer: l, expert: 0, offset: 0, din: dim, dout: dim },
                n,
                dim,
                dim,
            )
            &&& once(
                p,
                Key { op: Exec::AddMoe, layer: l, expert: 0, offset: 0, din: dim, dout: dim },
                n,
                dim,
                dim,
            )
        },
{
    let n = batch * seq;
    let f = front_pieces(c, n, seq, l);
    let z = close_pieces(c, n, l);
    let y = c.layer_places(l);
    let dim = c.dim as int;
    let wide = c.heads * c.head_dim;
    let thin = c.kv_heads * c.head_dim;
    let experts = c.experts as int;
    let head = c.head_dim as int;
    let plan = crate::theory::plans::mixtral_plan(c, batch, seq, ds, links);
    lemma_front_keys(c, n, seq, l);
    if plan is Ok {
        let p = plan->Ok_0;
        assert(once(
            p,
            Key { op: Exec::RmsNorm, layer: l, expert: 0, offset: y.attn_norm, din: dim, dout: 1 },
            n,
            dim,
            1,
        )) by {
            lemma_front_member(c, n, seq, l, 0);
            lemma_model_once(c, batch, seq, ds, links, f[0]);
        }
        assert(once(
            p,
            Key { op: Exec::Linear, layer: l, expert: 0, offset: y.q, din: dim, dout: wide },
            n,
            dim,
            wide,
        )) by {
            lemma_front_member(c, n, seq, l, 1);
            lemma_model_once(c, batch, seq, ds, links, f[1]);
        }
        assert(once(
            p,
            Key { op: Exec::Linear, layer: l, expert: 0, offset: y.k, din: dim, dout: thin },
            n,
            dim,
            thin,
        )) by {
            lemma_front_member(c, n, seq, l, 2);
            lemma_model_once(c, batch, seq, ds, links, f[2]);
        }
        assert(once(
            p,
            Key { op: Exec::Linear, layer: l, expert: 0, offset: y.v, din: dim, dout: thin },
            n,
            dim,
            thin,
        )) by {
            lemma_front_member(c, n, seq, l, 3);
            lemma_model_once(c, batch, seq, ds, links, f[3]);
        }
        assert(once(
            p,
            Key { op: Exec::RopeQ, layer: l, expert: 0, offset: 0, din: wide, dout: wide },
            n,
            wide,
            wide,
        )) by {
            lemma_front_member(c, n, seq, l, 4);
            lemma_model_once(c, batch, seq, ds, links, f[4]);
        }
        assert(once(
            p,
            Key { op: Exec::RopeK, layer: l, expert: 0, offset: 0, din: thin, dout: thin },
            n,
            thin,
            thin,
        )) by {
            lemma_front_member(c, n, seq, l, 5);
            lemma_model_once(c, batch, seq, ds, links, f[5]);
        }
        assert(once(
            p,
            Key { op: Exec::Gqa, layer: l, expert: 0, offset: 0, din: seq, dout: head },
            n,
            seq,
            head,
        )) by {
            lemma_front_member(c, n, seq, l, 6);
            lemma_model_once(c, batch, seq, ds, links, f[6]);
        }
        assert(once(
            p,
            Key { op: Exec::Linear, layer: l, expert: 0, offset: y.o, din: wide, dout: dim },
            n,
            wide,
            dim,
        )) by {
            lemma_front_member(c, n, seq, l, 7);
            lemma_model_once(c, batch, seq, ds, links, f[7]);
        }
        assert(once(
            p,
            Key { op: Exec::AddAttn, layer: l, expert: 0, offset: 0, din: dim, dout: dim },
            n,
            dim,
            dim,
        )) by {
            lemma_front_member(c, n, seq, l, 8);
            lemma_model_once(c, batch, seq, ds, links, f[8]);
        }
        assert(once(
            p,
            Key { op: Exec::RmsNorm, layer: l, expert: 1, offset: y.ffn_norm, din: dim, dout: 1 },
            n,
            dim,
            1,
        )) by {
            lemma_front_member(c, n, seq, l, 9);
            lemma_model_once(c, batch, seq, ds, links, f[9]);
        }
        assert(once(
            p,
            Key { op: Exec::Linear, layer: l, expert: 0, offset: y.router, din: dim, dout: experts },
            n,
            dim,
            experts,
        )) by {
            lemma_front_member(c, n, seq, l, 10);
            lemma_model_once(c, batch, seq, ds, links, f[10]);
        }
        assert(once(
            p,
            Key { op: Exec::Router, layer: l, expert: 0, offset: 0, din: experts, dout: experts },
            n,
            experts,
            experts,
        )) by {
            lemma_front_member(c, n, seq, l, 11);
            lemma_model_once(c, batch, seq, ds, links, f[11]);
        }
        assert(once(
            p,
            Key { op: Exec::Mix, layer: l, expert: 0, offset: 0, din: dim, dout: dim },
            n,
            dim,
            dim,
        )) by {
            lemma_close_member(c, n, seq, l, 0);
            lemma_model_once(c, batch, seq, ds, links, z[0]);
        }
        assert(once(
            p,
            Key { op: Exec::AddMoe, layer: l, expert: 0, offset: 0, din: dim, dout: dim },
            n,
            dim,
            dim,
        )) by {
            lemma_close_member(c, n, seq, l, 1);
            lemma_model_once(c, batch, seq, ds, links, z[1]);
            assert(crate::theory::plans::short(l) == l);
        }
    }
}

/// In the plan of a model each expert does the products with its gate, up and
/// down matrices and its activation once on each pass.
#[verifier::rlimit(60)]
#[verifier::spinoff_prover]
pub proof fn law_expert_covered(c: MixtralConfig, batch: int, seq: int, ds: Seq<Dev>, links: Seq<Link>, l: int, e: int)
    requires
        crate::theory::plan_laws::good_devices(ds),
        0 <= seq,
        crate::theory::plan_laws::good_config(c, batch * seq),
        c.layers > 0 ==> 0 <= crate::theory::plans::tape_need(c, batch * seq, seq) <= u64::MAX,
        c.layers <= u32::MAX + 1,
        c.experts <= u32::MAX + 1,
        0 <= l < c.layers,
        0 <= e < c.experts,
    ensures
        crate::theory::plans::mixtral_plan(c, batch, seq, ds, links) matches Ok(p) ==> {
            let n = batch * seq;
            let y = c.layer_places(l);
            let dim = c.dim as int;
            let inter = c.intermediate as int;
            &&& once(
                p,
                Key { op: Exec::Linear, layer: l, expert: e, offset: y.gate[e], din: dim, dout: inter },
                n,
                dim,
                inter,
            )
            &&& once(
                p,
                Key { op: Exec::Linear, layer: l, expert: e, offset: y.up[e], din: dim, dout: inter },
                n,
                dim,
                inter,
            )
            &&& once(
                p,
                Key { op: Exec::Silu, layer: l, expert: e, offset: 0, din: inter, dout: inter },
                n,
                inter,
                inter,
            )
            &&& once(
                p,
                Key { op: Exec::Linear, layer: l, expert: e, offset: y.down[e], din: inter, dout: dim },
                n,
                inter,
                dim,
            )
        },
{
    let n = batch * seq;
    let f = expert_pieces(c, n, l, e);
    assert(crate::theory::plans::short(l) == l);
    assert(f.len() == 4);
    lemma_expert_member(c, n, seq, l, e, 0);
    lemma_model_once(c, batch, seq, ds, links, f[0]);
    lemma_expert_member(c, n, seq, l, e, 1);
    lemma_model_once(c, batch, seq, ds, links, f[1]);
    lemma_expert_member(c, n, seq, l, e, 2);
    lemma_model_once(c, batch, seq, ds, links, f[2]);
    lemma_expert_member(c, n, seq, l, e, 3);
    lemma_model_once(c, batch, seq, ds, links, f[3]);
}

/// In the plan of a model the embedding, the final norm, the head and the
/// loss are done once on each pass.
#[verifier::rlimit(60)]
#[verifier::spinoff_prover]
pub proof fn law_ends_covered(c: MixtralConfig, batch: int, seq: int, ds: Seq<Dev>, links: Seq<Link>)
    requires
        crate::theory::plan_laws::good_devices(ds),
        0 <= seq,
        crate::theory::plan_laws::good_config(c, batch * seq),
        c.layers > 0 ==> 0 <= crate::theory::plans::tape_need(c, batch * seq, seq) <= u64::MAX,
        c.layers <= u32::MAX + 1,
        c.experts <= u32::MAX + 1,
    ensures
        crate::theory::plans::mixtral_plan(c, batch, seq, ds, links) matches Ok(p) ==> {
            let n = batch * seq;
            let dim = c.dim as int;
            let vocab = c.vocab as int;
            &&& once(
                p,
                Key { op: Exec::Embed, layer: 0, expert: 0, offset: 0, din: vocab, dout: dim },
                n,
                vocab,
                dim,
            )
            &&& once(
                p,
                Key { op: Exec::RmsNorm, layer: 0, expert: 2, offset: c.places().final_norm, din: dim, dout: 1 },
                n,
                dim,
                1,
            )
            &&& once(
                p,
                Key { op: Exec::Linear, layer: 0, expert: 0, offset: c.places().lm_head, din: dim, dout: vocab },
                n,
                dim,
                vocab,
            )
            &&& once(
                p,
                Key { op: Exec::Loss, layer: 0, expert: 0, offset: 0, din: 1, dout: vocab },
                n,
                1,
                vocab,
            )
        },
{
    let n = batch * seq;
    let p = model_pieces(c, n, seq);
    let m = p.len() as int;
    assert(p.contains(p[0]) && p.contains(p[m - 3]) && p.contains(p[m - 2]) && p.contains(p[m - 1]));
    assert(p[0] == lookup(c, n));
    assert(p[m - 3] == norm("final-norm"@, 0, 2, n, c.dim as int, c.places().final_norm));
    assert(p[m - 2] == weight("lm-head"@, 0, 0, n, c.dim as int, c.vocab as int, c.places().lm_head));
    assert(p[m - 1] == logits(c, n));
    lemma_model_once(c, batch, seq, ds, links, p[0]);
    lemma_model_once(c, batch, seq, ds, links, p[m - 3]);
    lemma_model_once(c, batch, seq, ds, links, p[m - 2]);
    lemma_model_once(c, batch, seq, ds, links, p[m - 1]);
}

// ----- the windows of a program -----

/// The work of a linear stage: the product with its weight, and its bias.
pub open spec fn linear_pieces(st: Stage, i: int) -> Seq<Piece> {
    match st {
        Stage::Gemm { batch, din, dout, relu, .. } => {
            let weight = crate::theory::plans::layer_name("gemm-$a"@, i);
            let bias = crate::theory::plans::layer_name("bias-$a"@, i);
            seq![
                Piece {
                    op: Exec::Linear,
                    layer: 0,
                    expert: narrow(i),
                    offset: 0,
                    din: din as int,
                    dout: dout as int,
                    batch: batch as int,
                    rows: din as int,
                    cols: dout as int,
                    charge: Charge::Weight { name: weight, mask: relu, extra: 0 },
                    store: Some(weight),
                    fwd: seq![Kernel::GemmFwd],
                    bwd: if relu {
                        seq![Kernel::ReluBwd, Kernel::GemmDx, Kernel::GemmDw, Kernel::GemmDb]
                    } else {
                        seq![Kernel::GemmDx, Kernel::GemmDw, Kernel::GemmDb]
                    },
                },
                Piece {
                    op: Exec::Linear,
                    layer: 0,
                    expert: narrow(i),
                    offset: 0,
                    din: 1,
                    dout: dout as int,
                    batch: batch as int,
                    rows: 1,
                    cols: dout as int,
                    charge: Charge::Weight { name: bias, mask: false, extra: 0 },
                    store: Some(bias),
                    fwd: seq![Kernel::GemmFwd],
                    bwd: seq![Kernel::GemmDb],
                },
            ]
        },
        _ => Seq::empty(),
    }
}

/// The work of an attention stage: each of its tokens looks at the tokens of
/// a sequence.
pub open spec fn attention_piece(batch: int, tokens: int, dim: int) -> Piece {
    Piece {
        op: Exec::Gqa,
        layer: 0,
        expert: 0,
        offset: 0,
        din: tokens,
        dout: dim,
        batch: batch * tokens,
        rows: tokens,
        cols: dim,
        charge: Charge::Scores { name: "attention"@ },
        store: None,
        fwd: seq![Kernel::AttnFwd],
        bwd: seq![Kernel::AttnBwd],
    }
}

pub open spec fn attention_pieces(st: Stage) -> Seq<Piece> {
    match st {
        Stage::Attention { batch, tokens, dim, .. } => seq![attention_piece(batch as int, tokens as int, dim as int)],
        _ => Seq::empty(),
    }
}

/// The work of a program: its linear stages, then its attention stages.
pub open spec fn program_pieces(stages: Seq<Stage>) -> Seq<Piece> {
    crate::theory::listing::cat(stages.len() as int, |i: int| linear_pieces(stages[i], i)) + crate::theory::listing::cat(
        stages.len() as int,
        |i: int| attention_pieces(stages[i]),
    )
}

proof fn lemma_mats_add(s: State, t: State, ms: Seq<Mat>, k: int)
    requires
        t.sound(),
        0 <= k <= ms.len(),
        forall|i: int| 0 <= i < ms.len() ==> crate::theory::plan_laws::good_mat(#[trigger] ms[i]),
        adds(s, t, Seq::new(k as nat, |i: int| matrix_piece(ms[i]))),
    ensures
        t.emit_mats(ms, k) matches Ok(u) ==> adds(s, u, Seq::new(ms.len(), |i: int| matrix_piece(ms[i]))),
    decreases ms.len() - k,
{
    if k < ms.len() {
        let a = Seq::new(k as nat, |i: int| matrix_piece(ms[i]));
        let task = Task::Linear { matrix: ms[k] };
        assert(crate::theory::plan_laws::good_task(task));
        lemma_next(s, t, a, task, matrix_piece(ms[k]));
        if let Ok(t1) = t.emit(task) {
            assert(a.push(matrix_piece(ms[k])) =~= Seq::new((k + 1) as nat, |i: int| matrix_piece(ms[i])));
            lemma_mats_add(s, t1, ms, k + 1);
        }
    }
}

proof fn lemma_stages_add(s: State, t: State, stages: Seq<Stage>, a: Seq<Piece>, k: int)
    requires
        t.sound(),
        0 <= k <= stages.len(),
        adds(s, t, a + crate::theory::listing::cat(k, |i: int| attention_pieces(stages[i]))),
    ensures
        t.emit_stages(stages, k) matches Ok(u) ==> adds(
            s,
            u,
            a + crate::theory::listing::cat(stages.len() as int, |i: int| attention_pieces(stages[i])),
        ),
    decreases stages.len() - k,
{
    if k < stages.len() {
        let f = |i: int| attention_pieces(stages[i]);
        let b = a + crate::theory::listing::cat(k, f);
        let next = a + crate::theory::listing::cat(k + 1, f);
        if stages[k] is Attention {
            let task = State::stage_task(stages[k]);
            let d = task_piece(task);
            crate::theory::plan_laws::lemma_stage_task(stages[k]);
            lemma_next(s, t, b, task, d);
            assert(f(k) =~= seq![d]);
            assert(b.push(d) =~= next);
            if let Ok(t1) = t.emit(task) {
                lemma_stages_add(s, t1, stages, a, k + 1);
            }
        } else {
            assert(f(k) =~= Seq::<Piece>::empty());
            assert(b =~= next);
            lemma_stages_add(s, t, stages, a, k + 1);
        }
    }
}

proof fn lemma_stage_pieces(st: Stage, i: int)
    requires
        0 <= i <= usize::MAX,
    ensures
        ({
            let ms = crate::theory::plans::stage_mats(st, i);
            linear_pieces(st, i) == Seq::new(ms.len(), |k: int| matrix_piece(ms[k]))
        }),
{
    let ms = crate::theory::plans::stage_mats(st, i);
    let p = linear_pieces(st, i);
    let q = Seq::new(ms.len(), |k: int| matrix_piece(ms[k]));
    assert((i as usize) as int == i);
    if let Stage::Gemm { relu, .. } = st {
        if relu {
            assert(ms[0].bwd =~= seq![Kernel::ReluBwd, Kernel::GemmDx, Kernel::GemmDw, Kernel::GemmDb]);
        }
        assert(matrix_piece(ms[0]) == p[0]);
        assert(matrix_piece(ms[1]) == p[1]);
    }
    assert(p =~= q);
}

proof fn lemma_program_mats(stages: Seq<Stage>, n: int)
    requires
        0 <= n <= stages.len(),
        stages.len() <= usize::MAX,
    ensures
        ({
            let ms = crate::theory::listing::cat(n, |i: int| crate::theory::plans::stage_mats(stages[i], i));
            crate::theory::listing::cat(n, |i: int| linear_pieces(stages[i], i)) == Seq::new(
                ms.len(),
                |k: int| matrix_piece(ms[k]),
            )
        }),
    decreases n,
{
    let f = |i: int| crate::theory::plans::stage_mats(stages[i], i);
    let g = |i: int| linear_pieces(stages[i], i);
    let ms = crate::theory::listing::cat(n, f);
    let q = Seq::new(ms.len(), |k: int| matrix_piece(ms[k]));
    if n > 0 {
        lemma_program_mats(stages, n - 1);
        lemma_stage_pieces(stages[n - 1], n - 1);
        assert(crate::theory::listing::cat(n - 1, g) + g(n - 1) =~= q);
    } else {
        assert(crate::theory::listing::cat(n, g) =~= q);
    }
}

/// The plan of a program does the work of the program, on both passes. Its
/// transfers are the messages of its windows, piece by piece. The peak of each
/// device is what it holds, or the most that a window uses on it.
pub proof fn law_program_work(stages: Seq<Stage>, tape: int, ds: Seq<Dev>, links: Seq<Link>)
    requires
        crate::theory::plan_laws::good_devices(ds),
        0 <= tape <= u64::MAX,
        stages.len() <= usize::MAX,
        forall|i: int|
            0 <= i < crate::theory::plans::program_mats(stages).len() ==> crate::theory::plan_laws::good_mat(
                #[trigger] crate::theory::plans::program_mats(stages)[i],
            ),
    ensures
        crate::theory::plans::program_plan(stages, tape, ds, links) matches Ok(p) ==> {
            let s = State::staged_program(stages, tape, ds, links)->Ok_0;
            let at = Site { devs: ds, homes: p.homes };
            &&& all_done(at, Pass::Fwd, s.windows, program_pieces(stages))
            &&& all_done(at, Pass::Bwd, s.later, program_pieces(stages))
            &&& crate::theory::plan_laws::mirrored(p, s.windows, s.later, Seq::empty())
            &&& p.transfers == trail(s.windows, s.later)
            &&& p.peak.len() == ds.len()
            &&& topped(p.peak, p.homes, s.windows)
        },
{
    let ms = crate::theory::plans::program_mats(stages);
    crate::theory::plan_laws::law_program_plan(stages, tape, ds, links);
    if let Ok(p) = crate::theory::plans::program_plan(stages, tape, ds, links) {
        crate::theory::plan_laws::lemma_fresh(ds, links);
        let s0 = State::fresh(ds, links);
        assert(crate::theory::plans::mats_len(ms, 0) == 0);
        crate::theory::plan_laws::lemma_place_params(s0, ms, 0);
        let s1 = s0.place_params(ms, 0)->Ok_0;
        crate::theory::plan_laws::lemma_place_tape(s1, "program-tape"@, tape);
        let s2 = s1.place_tape("program-tape"@, tape)->Ok_0;
        let a = crate::theory::listing::cat(stages.len() as int, |i: int| linear_pieces(stages[i], i));
        let f = |i: int| attention_pieces(stages[i]);
        lemma_adds_none(s2);
        assert(Seq::new(0, |i: int| matrix_piece(ms[i])) =~= Seq::<Piece>::empty());
        lemma_mats_add(s2, s2, ms, 0);
        lemma_program_mats(stages, stages.len() as int);
        crate::theory::plan_laws::lemma_emit_mats(s2, ms, 0);
        let s3 = s2.emit_mats(ms, 0)->Ok_0;
        assert(adds(s2, s3, a));
        assert(a + crate::theory::listing::cat(0, f) =~= a);
        lemma_stages_add(s2, s3, stages, a, 0);
        crate::theory::plan_laws::lemma_emit_stages(s3, stages, 0);
        let s4 = s3.emit_stages(stages, 0)->Ok_0;
        assert(adds(s2, s4, program_pieces(stages)));
        assert(s0.peak =~= s0.held);
        lemma_adds_all(s2, s4, program_pieces(stages));
        assert(site(s2) == (Site { devs: ds, homes: p.homes }));
    }
}

/// The number of attention stages over `tokens` and `dim` that hold a point.
pub open spec fn attending(stages: Seq<Stage>, tokens: int, dim: int, x: (int, int, int)) -> int
    decreases stages.len(),
{
    if stages.len() == 0 {
        0
    } else {
        attending(stages.drop_last(), tokens, dim, x) + match stages.last() {
            Stage::Attention { batch, tokens: t, dim: d, .. } => one_if(
                t == tokens && d == dim && 0 <= x.0 < batch * t && 0 <= x.1 < t && 0 <= x.2 < d,
            ),
            _ => 0,
        }
    }
}

proof fn lemma_wanted_attention(stages: Seq<Stage>, n: int, tokens: int, dim: int, x: (int, int, int))
    requires
        0 <= n <= stages.len(),
    ensures
        wanted(
            crate::theory::listing::cat(n, |i: int| attention_pieces(stages[i])),
            Key { op: Exec::Gqa, layer: 0, expert: 0, offset: 0, din: tokens, dout: dim },
            x,
        ) == attending(stages.take(n), tokens, dim, x),
    decreases n,
{
    let k = Key { op: Exec::Gqa, layer: 0, expert: 0, offset: 0, din: tokens, dout: dim };
    let f = |i: int| attention_pieces(stages[i]);
    if n > 0 {
        lemma_wanted_attention(stages, n - 1, tokens, dim, x);
        lemma_wanted_add(crate::theory::listing::cat(n - 1, f), f(n - 1), k, x);
        assert(stages.take(n).drop_last() =~= stages.take(n - 1));
        assert(stages.take(n).last() == stages[n - 1]);
        reveal_with_fuel(wanted, 2);
        if stages[n - 1] is Attention {
            assert(f(n - 1).drop_last() =~= Seq::<Piece>::empty());
        }
    }
}

proof fn lemma_linear_only(stages: Seq<Stage>)
    ensures
        ({
            let a = crate::theory::listing::cat(stages.len() as int, |i: int| linear_pieces(stages[i], i));
            forall|j: int| 0 <= j < a.len() ==> (#[trigger] a[j]).op is Linear
        }),
{
    crate::theory::listing::lemma_cat_all(
        stages.len() as int,
        |i: int| linear_pieces(stages[i], i),
        |d: Piece| d.op is Linear,
    );
}

proof fn lemma_attention_only(stages: Seq<Stage>)
    ensures
        ({
            let a = crate::theory::listing::cat(stages.len() as int, |i: int| attention_pieces(stages[i]));
            forall|j: int| 0 <= j < a.len() ==> (#[trigger] a[j]).op is Gqa
        }),
{
    crate::theory::listing::lemma_cat_all(
        stages.len() as int,
        |i: int| attention_pieces(stages[i]),
        |d: Piece| d.op is Gqa,
    );
}

/// In the plan of a program, on the forward pass and on the backward pass,
/// attention windows over `tokens` keys and `dim` features hold a point of
/// queries, keys and features as often as attention stages of these sizes do.
pub proof fn law_attention_covered(
    stages: Seq<Stage>,
    tape: int,
    ds: Seq<Dev>,
    links: Seq<Link>,
    tokens: int,
    dim: int,
    pass: Pass,
    x: (int, int, int),
)
    requires
        crate::theory::plan_laws::good_devices(ds),
        0 <= tape <= u64::MAX,
        stages.len() <= usize::MAX,
        forall|i: int|
            0 <= i < crate::theory::plans::program_mats(stages).len() ==> crate::theory::plan_laws::good_mat(
                #[trigger] crate::theory::plans::program_mats(stages)[i],
            ),
    ensures
        crate::theory::plans::program_plan(stages, tape, ds, links) matches Ok(p) ==> worked(
            p.windows,
            pass,
            Key { op: Exec::Gqa, layer: 0, expert: 0, offset: 0, din: tokens, dout: dim },
            x,
        ) == attending(stages, tokens, dim, x),
{
    let k = Key { op: Exec::Gqa, layer: 0, expert: 0, offset: 0, din: tokens, dout: dim };
    let list = program_pieces(stages);
    let n = stages.len() as int;
    let a = crate::theory::listing::cat(n, |i: int| linear_pieces(stages[i], i));
    let b = crate::theory::listing::cat(n, |i: int| attention_pieces(stages[i]));
    law_program_work(stages, tape, ds, links);
    if let Ok(p) = crate::theory::plans::program_plan(stages, tape, ds, links) {
        let s = State::staged_program(stages, tape, ds, links)->Ok_0;
        let at = Site { devs: ds, homes: p.homes };
        lemma_plan_worked(p, s.windows, s.later, Seq::empty(), pass, k, x);
        lemma_worked_all(at, Pass::Fwd, s.windows, list, k, x);
        lemma_worked_all(at, Pass::Bwd, s.later, list, k, x);
        lemma_wanted_add(a, b, k, x);
        lemma_linear_only(stages);
        lemma_wanted_none(a, k, x);
        lemma_wanted_attention(stages, n, tokens, dim, x);
        assert(stages.take(n) =~= stages);
    }
}

/// The windows of a plan from `lo` to `hi` do an attention of `batch`
/// sequences: each is part of it, and each point of queries, keys and
/// features is in exactly one of them.
pub open spec fn attention_run(p: Plan, ds: Seq<Dev>, pass: Pass, lo: int, hi: int, batch: int, tokens: int, dim: int) -> bool {
    &&& 0 <= lo <= hi <= p.windows.len()
    &&& forall|i: int|
        lo <= i < hi ==> {
            let w = #[trigger] p.windows[i];
            &&& w.pass == pass
            &&& w.op == Exec::Gqa
            &&& w.din == tokens
            &&& w.dout == dim
            &&& w.name == tile_name("attention"@, w)
            &&& w.tape == (w.batch_end - w.batch_begin) * (w.row_end - w.row_begin) * 4
            &&& w.param == 0
            &&& w.home == w.device
            &&& loads(Site { devs: ds, homes: p.homes }, w, seq![Kernel::AttnFwd], seq![Kernel::AttnBwd])
        }
    &&& forall|x: (int, int, int)| #[trigger]
        touched(p.windows.subrange(lo, hi), x) == one_if(0 <= x.0 < batch * tokens && 0 <= x.1 < tokens && 0 <= x.2 < dim)
}

proof fn lemma_touched_add(a: Seq<Win>, b: Seq<Win>, x: (int, int, int))
    ensures
        touched(a + b, x) == touched(a, x) + touched(b, x),
    decreases b.len(),
{
    if b.len() == 0 {
        assert(a + b =~= a);
    } else {
        lemma_touched_add(a, b.drop_last(), x);
        assert((a + b).drop_last() =~= a + b.drop_last());
        assert((a + b).last() == b.last());
    }
}

proof fn lemma_touched_reverse(ws: Seq<Win>, x: (int, int, int))
    ensures
        touched(ws.reverse(), x) == touched(ws, x),
    decreases ws.len(),
{
    if ws.len() == 0 {
        assert(ws.reverse() =~= ws);
    } else {
        let a = ws.drop_last();
        let w = ws.last();
        lemma_touched_reverse(a, x);
        assert(ws.reverse() =~= seq![w] + a.reverse());
        assert(ws =~= a + seq![w]);
        lemma_touched_add(seq![w], a.reverse(), x);
        lemma_touched_add(a, seq![w], x);
    }
}

/// In the plan of a program each attention stage has a run of windows on the
/// forward pass, and one on the backward pass, that tile its queries, its
/// keys and its features.
pub proof fn law_attention_runs(stages: Seq<Stage>, tape: int, ds: Seq<Dev>, links: Seq<Link>, i: int)
    requires
        crate::theory::plan_laws::good_devices(ds),
        0 <= tape <= u64::MAX,
        stages.len() <= usize::MAX,
        forall|k: int|
            0 <= k < crate::theory::plans::program_mats(stages).len() ==> crate::theory::plan_laws::good_mat(
                #[trigger] crate::theory::plans::program_mats(stages)[k],
            ),
        0 <= i < stages.len(),
    ensures
        crate::theory::plans::program_plan(stages, tape, ds, links) matches Ok(p) ==> match stages[i] {
            Stage::Attention { batch, tokens, dim, .. } => {
                &&& exists|lo: int, hi: int| #[trigger]
                    attention_run(p, ds, Pass::Fwd, lo, hi, batch as int, tokens as int, dim as int)
                &&& exists|lo: int, hi: int| #[trigger]
                    attention_run(p, ds, Pass::Bwd, lo, hi, batch as int, tokens as int, dim as int)
            },
            _ => true,
        },
{
    law_program_work(stages, tape, ds, links);
    if let Ok(p) = crate::theory::plans::program_plan(stages, tape, ds, links) {
        if let Stage::Attention { batch, tokens, dim, .. } = stages[i] {
            let list = program_pieces(stages);
            let n = stages.len() as int;
            let d = attention_piece(batch as int, tokens as int, dim as int);
            let g = |i: int| attention_pieces(stages[i]);
            let a = crate::theory::listing::cat(n, |i: int| linear_pieces(stages[i], i));
            let b = crate::theory::listing::cat(n, g);
            crate::theory::listing::lemma_cat(n, g);
            assert(g(i)[0] == d);
            assert(g(i).contains(d));
            assert(b.contains(d));
            let j = a.len() + b.index_of(d);
            assert(list[j] == d);
            let s = State::staged_program(stages, tape, ds, links)->Ok_0;
            let at = Site { devs: ds, homes: p.homes };
            let m = s.windows.len() as int;
            let (lo, hi) = lemma_run(at, Pass::Fwd, s.windows, list, j);
            let f = s.windows.subrange(lo, hi);
            assert(p.windows.subrange(lo, hi) =~= f);
            assert(attention_run(p, ds, Pass::Fwd, lo, hi, batch as int, tokens as int, dim as int)) by {
                assert forall|x: int| lo <= x < hi implies does(at, Pass::Fwd, #[trigger] p.windows[x], d) by {
                    assert(p.windows[x] == f[x - lo]);
                }
                assert forall|x: int| lo <= x < hi implies loads(at, #[trigger] p.windows[x], d.fwd, d.bwd) by {
                    lemma_loads(at, Pass::Fwd, p.windows[x], d);
                }
                assert forall|x: (int, int, int)| #[trigger] touched(p.windows.subrange(lo, hi), x) == one_if(
                    0 <= x.0 < batch * tokens && 0 <= x.1 < tokens && 0 <= x.2 < dim,
                ) by {
                    assert(touched(f, x) == one_if(spans(d, x)));
                }
            }
            let (la, ha) = lemma_run(at, Pass::Bwd, s.later, list, j);
            let r = s.later.subrange(la, ha);
            let lo2 = m + m - ha;
            let hi2 = m + m - la;
            assert(p.windows.subrange(lo2, hi2) =~= r.reverse());
            assert(attention_run(p, ds, Pass::Bwd, lo2, hi2, batch as int, tokens as int, dim as int)) by {
                assert forall|x: int| lo2 <= x < hi2 implies does(at, Pass::Bwd, #[trigger] p.windows[x], d) by {
                    assert(p.windows[x] == s.later.reverse()[x - m]);
                    assert(p.windows[x] == s.later[m - 1 - (x - m)]);
                    assert(p.windows[x] == r[m - 1 - (x - m) - la]);
                }
                assert forall|x: int| lo2 <= x < hi2 implies loads(at, #[trigger] p.windows[x], d.fwd, d.bwd) by {
                    lemma_loads(at, Pass::Bwd, p.windows[x], d);
                }
                assert forall|x: (int, int, int)| #[trigger] touched(p.windows.subrange(lo2, hi2), x) == one_if(
                    0 <= x.0 < batch * tokens && 0 <= x.1 < tokens && 0 <= x.2 < dim,
                ) by {
                    lemma_touched_reverse(r, x);
                    assert(touched(r, x) == one_if(spans(d, x)));
                }
            }
        }
    }
}

proof fn lemma_wanted_linear(stages: Seq<Stage>, n: int, i: int, k: Key, x: (int, int, int))
    requires
        0 <= n <= stages.len(),
        stages.len() <= u32::MAX + 1,
        0 <= i < stages.len(),
        k.expert == i,
    ensures
        wanted(crate::theory::listing::cat(n, |j: int| linear_pieces(stages[j], j)), k, x) == if i < n {
            wanted(linear_pieces(stages[i], i), k, x)
        } else {
            0
        },
    decreases n,
{
    let f = |j: int| linear_pieces(stages[j], j);
    if n > 0 {
        lemma_wanted_linear(stages, n - 1, i, k, x);
        lemma_wanted_add(crate::theory::listing::cat(n - 1, f), f(n - 1), k, x);
        if i != n - 1 {
            lemma_wanted_none(f(n - 1), k, x);
        }
    }
}

/// In the plan of a program linear stage `i` multiplies with its weight and
/// adds its bias once on each pass. Its windows carry its number. A weight
/// with one row has the shape of its bias, and then two windows work on a
/// point.
pub proof fn law_linear_covered(
    stages: Seq<Stage>,
    tape: int,
    ds: Seq<Dev>,
    links: Seq<Link>,
    i: int,
    pass: Pass,
    x: (int, int, int),
)
    requires
        crate::theory::plan_laws::good_devices(ds),
        0 <= tape <= u64::MAX,
        stages.len() <= usize::MAX,
        stages.len() <= u32::MAX + 1,
        forall|k: int|
            0 <= k < crate::theory::plans::program_mats(stages).len() ==> crate::theory::plan_laws::good_mat(
                #[trigger] crate::theory::plans::program_mats(stages)[k],
            ),
        0 <= i < stages.len(),
    ensures
        crate::theory::plans::program_plan(stages, tape, ds, links) matches Ok(p) ==> match stages[i] {
            Stage::Gemm { batch, din, dout, .. } => {
                let weight = Key { op: Exec::Linear, layer: 0, expert: i, offset: 0, din: din as int, dout: dout as int };
                let bias = Key { op: Exec::Linear, layer: 0, expert: i, offset: 0, din: 1, dout: dout as int };
                let in_weight = 0 <= x.0 < batch && 0 <= x.1 < din && 0 <= x.2 < dout;
                let in_bias = 0 <= x.0 < batch && 0 <= x.1 < 1 && 0 <= x.2 < dout;
                if din == 1 {
                    worked(p.windows, pass, weight, x) == one_if(in_weight) + one_if(in_bias)
                } else {
                    &&& worked(p.windows, pass, weight, x) == one_if(in_weight)
                    &&& worked(p.windows, pass, bias, x) == one_if(in_bias)
                }
            },
            _ => true,
        },
{
    let n = stages.len() as int;
    law_program_work(stages, tape, ds, links);
    if let Ok(p) = crate::theory::plans::program_plan(stages, tape, ds, links) {
        if let Stage::Gemm { batch, din, dout, .. } = stages[i] {
            let weight = Key { op: Exec::Linear, layer: 0, expert: i, offset: 0, din: din as int, dout: dout as int };
            let bias = Key { op: Exec::Linear, layer: 0, expert: i, offset: 0, din: 1, dout: dout as int };
            lemma_linear_worked(stages, tape, ds, links, i, pass, weight, x);
            lemma_linear_worked(stages, tape, ds, links, i, pass, bias, x);
            let q = linear_pieces(stages[i], i);
            reveal_with_fuel(wanted, 3);
            assert(q.drop_last() =~= seq![q[0]]);
            assert(q.drop_last().drop_last() =~= Seq::<Piece>::empty());
        }
    }
}

proof fn lemma_linear_worked(
    stages: Seq<Stage>,
    tape: int,
    ds: Seq<Dev>,
    links: Seq<Link>,
    i: int,
    pass: Pass,
    k: Key,
    x: (int, int, int),
)
    requires
        crate::theory::plan_laws::good_devices(ds),
        0 <= tape <= u64::MAX,
        stages.len() <= usize::MAX,
        stages.len() <= u32::MAX + 1,
        forall|k: int|
            0 <= k < crate::theory::plans::program_mats(stages).len() ==> crate::theory::plan_laws::good_mat(
                #[trigger] crate::theory::plans::program_mats(stages)[k],
            ),
        0 <= i < stages.len(),
        k.op is Linear,
        k.expert == i,
    ensures
        crate::theory::plans::program_plan(stages, tape, ds, links) matches Ok(p) ==> worked(p.windows, pass, k, x) == wanted(
            linear_pieces(stages[i], i),
            k,
            x,
        ),
{
    let list = program_pieces(stages);
    let n = stages.len() as int;
    let a = crate::theory::listing::cat(n, |j: int| linear_pieces(stages[j], j));
    let b = crate::theory::listing::cat(n, |j: int| attention_pieces(stages[j]));
    law_program_work(stages, tape, ds, links);
    if let Ok(p) = crate::theory::plans::program_plan(stages, tape, ds, links) {
        let s = State::staged_program(stages, tape, ds, links)->Ok_0;
        let at = Site { devs: ds, homes: p.homes };
        lemma_plan_worked(p, s.windows, s.later, Seq::empty(), pass, k, x);
        lemma_worked_all(at, Pass::Fwd, s.windows, list, k, x);
        lemma_worked_all(at, Pass::Bwd, s.later, list, k, x);
        lemma_wanted_add(a, b, k, x);
        lemma_attention_only(stages);
        lemma_wanted_none(b, k, x);
        lemma_wanted_linear(stages, n, i, k, x);
    }
}

/// The window is a tile of the weight or of the bias of linear stage `i`.
pub open spec fn linear_window(stages: Seq<Stage>, at: Site, w: Win, i: int) -> bool {
    let b = w.batch_end - w.batch_begin;
    let r = w.row_end - w.row_begin;
    let k = w.col_end - w.col_begin;
    &&& 0 <= i < stages.len()
    &&& w.layer == 0
    &&& w.offset == 0
    &&& w.expert == narrow(i)
    &&& stages[i] matches Stage::Gemm { batch, din, dout, relu, .. }
    &&& {
        ||| {
            let name = crate::theory::plans::layer_name("gemm-$a"@, i);
            &&& w.name == tile_name(name, w)
            &&& 0 <= w.batch_begin <= w.batch_end <= batch
            &&& 0 <= w.row_begin <= w.row_end <= din
            &&& 0 <= w.col_begin <= w.col_end <= dout
            &&& w.din == din
            &&& w.dout == dout
            &&& w.tape == b * r * 4 + b * k * 4 + if relu {
                b * k
            } else {
                0
            }
            &&& w.param == r * k * 4
            &&& resides(at, w, crate::theory::plans::linear_need(b, r, k, relu))
            &&& lives(at.homes, name, w.row_begin, w.col_begin, w.home)
            &&& loads(
                at,
                w,
                seq![Kernel::GemmFwd],
                if relu {
                    seq![Kernel::ReluBwd, Kernel::GemmDx, Kernel::GemmDw, Kernel::GemmDb]
                } else {
                    seq![Kernel::GemmDx, Kernel::GemmDw, Kernel::GemmDb]
                },
            )
        }
        ||| {
            &&& tile_of(at, w, crate::theory::plans::layer_name("bias-$a"@, i), batch as int, 1, dout as int, 0)
            &&& loads(at, w, seq![Kernel::GemmFwd], seq![Kernel::GemmDb])
        }
    }
}

/// The window is a part of attention stage `i`.
pub open spec fn attention_window(stages: Seq<Stage>, at: Site, w: Win, i: int) -> bool {
    &&& 0 <= i < stages.len()
    &&& w.layer == 0
    &&& w.expert == 0
    &&& w.offset == 0
    &&& w.name == tile_name("attention"@, w)
    &&& stages[i] matches Stage::Attention { batch, tokens, dim, .. }
    &&& 0 <= w.batch_begin <= w.batch_end <= batch * tokens
    &&& 0 <= w.row_begin <= w.row_end <= tokens
    &&& 0 <= w.col_begin <= w.col_end <= dim
    &&& w.din == tokens
    &&& w.dout == dim
    &&& w.tape == (w.batch_end - w.batch_begin) * (w.row_end - w.row_begin) * 4
    &&& w.param == 0
    &&& w.home == w.device
    &&& resides(
        at,
        w,
        crate::theory::plans::attention_need(
            w.batch_end - w.batch_begin,
            w.row_end - w.row_begin,
            w.col_end - w.col_begin,
        ),
    )
    &&& loads(at, w, seq![Kernel::AttnFwd], seq![Kernel::AttnBwd])
}

proof fn lemma_program_window(stages: Seq<Stage>, at: Site, pass: Pass, w: Win, j: int)
    requires
        0 <= j < program_pieces(stages).len(),
        does(at, pass, w, program_pieces(stages)[j]),
    ensures
        w.op is Linear ==> exists|i: int| #[trigger] linear_window(stages, at, w, i),
        w.op is Gqa ==> exists|i: int| #[trigger] attention_window(stages, at, w, i),
        w.op is Linear || w.op is Gqa,
{
    let n = stages.len() as int;
    let f = |i: int| linear_pieces(stages[i], i);
    let g = |i: int| attention_pieces(stages[i]);
    let a = crate::theory::listing::cat(n, f);
    let b = crate::theory::listing::cat(n, g);
    let d = program_pieces(stages)[j];
    lemma_loads(at, pass, w, d);
    if j < a.len() {
        assert(d == a[j]);
        crate::theory::listing::lemma_cat(n, f);
        let i = choose|i: int| 0 <= i < n && (#[trigger] f(i)).contains(crate::theory::listing::cat(n, f)[j]);
        assert(f(i).contains(d));
        let k = f(i).index_of(d);
        assert(f(i)[k] == d);
        assert(stages[i] is Gemm);
        assert(linear_window(stages, at, w, i));
    } else {
        assert(d == b[j - a.len()]);
        crate::theory::listing::lemma_cat(n, g);
        let i = choose|i: int| 0 <= i < n && (#[trigger] g(i)).contains(crate::theory::listing::cat(n, g)[j - a.len()]);
        assert(g(i).contains(d));
        let k = g(i).index_of(d);
        assert(g(i)[k] == d);
        assert(stages[i] is Attention);
        assert(attention_window(stages, at, w, i));
    }
}

/// In the plan of a program every window is a part of a linear stage or of an
/// attention stage, with the sizes, the name, the charges and the kernels
/// that belong to it.
pub proof fn law_program_windows(stages: Seq<Stage>, tape: int, ds: Seq<Dev>, links: Seq<Link>)
    requires
        crate::theory::plan_laws::good_devices(ds),
        0 <= tape <= u64::MAX,
        stages.len() <= usize::MAX,
        forall|i: int|
            0 <= i < crate::theory::plans::program_mats(stages).len() ==> crate::theory::plan_laws::good_mat(
                #[trigger] crate::theory::plans::program_mats(stages)[i],
            ),
    ensures
        crate::theory::plans::program_plan(stages, tape, ds, links) matches Ok(p) ==> {
            let at = Site { devs: ds, homes: p.homes };
            forall|i: int|
                0 <= i < p.windows.len() ==> {
                    let w = #[trigger] p.windows[i];
                    &&& w.op is Linear ==> exists|k: int| #[trigger] linear_window(stages, at, w, k)
                    &&& w.op is Gqa ==> exists|k: int| #[trigger] attention_window(stages, at, w, k)
                    &&& w.op is Linear || w.op is Gqa
                }
        },
{
    let list = program_pieces(stages);
    law_program_work(stages, tape, ds, links);
    if let Ok(p) = crate::theory::plans::program_plan(stages, tape, ds, links) {
        let s = State::staged_program(stages, tape, ds, links)->Ok_0;
        let at = Site { devs: ds, homes: p.homes };
        let m = s.windows.len() as int;
        assert forall|i: int| 0 <= i < p.windows.len() implies {
            let w = #[trigger] p.windows[i];
            &&& w.op is Linear ==> exists|k: int| #[trigger] linear_window(stages, at, w, k)
            &&& w.op is Gqa ==> exists|k: int| #[trigger] attention_window(stages, at, w, k)
            &&& w.op is Linear || w.op is Gqa
        } by {
            let w = p.windows[i];
            if i < m {
                assert(w == s.windows[i]);
                let j = lemma_some_piece(at, Pass::Fwd, s.windows, list, i);
                lemma_program_window(stages, at, Pass::Fwd, w, j);
            } else {
                assert(w == s.later.reverse()[i - m]);
                assert(w == s.later[m - 1 - (i - m)]);
                let j = lemma_some_piece(at, Pass::Bwd, s.later, list, m - 1 - (i - m));
                lemma_program_window(stages, at, Pass::Bwd, w, j);
            }
        }
    }
}

} // verus!
