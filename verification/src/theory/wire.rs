//! The bytes of the messages between a coordinator and its members.
use vstd::prelude::*;
use crate::cluster::{DeviceKind, Exec, HopKind, Pass};
use crate::theory::plans::{Dev, Leg, Win};

verus! {

// ----- numbers -----

/// How many numbers `k` bytes can tell apart.
pub open spec fn range(k: int) -> int
    decreases k,
{
    if k <= 0 {
        1
    } else {
        256 * range(k - 1)
    }
}

/// A number as `k` bytes, the least significant first.
pub open spec fn le(n: int, k: int) -> Seq<u8>
    decreases k,
{
    if k <= 0 {
        Seq::empty()
    } else {
        seq![(n % 256) as u8] + le(n / 256, k - 1)
    }
}

/// The number that bytes stand for, the least significant first.
pub open spec fn unle(b: Seq<u8>) -> int
    decreases b.len(),
{
    if b.len() == 0 {
        0
    } else {
        b[0] + 256 * unle(b.subrange(1, b.len() as int))
    }
}

/// The number in `k` bytes at position `i`.
pub open spec fn word(b: Seq<u8>, i: int, k: int) -> int {
    unle(b.subrange(i, i + k))
}

/// Numbers of `k` bytes, one after the other.
pub open spec fn nums(ns: Seq<int>, k: int) -> Seq<u8>
    decreases ns.len(),
{
    if ns.len() == 0 {
        Seq::empty()
    } else {
        nums(ns.drop_last(), k) + le(ns.last(), k)
    }
}

pub proof fn lemma_range()
    ensures
        range(1) == 256,
        range(2) == 0x1_0000,
        range(4) == 0x1_0000_0000,
        range(8) == 0x1_0000_0000_0000_0000,
{
    assert(range(0) == 1);
    assert(range(1) == 256 * range(0));
    assert(range(2) == 256 * range(1));
    assert(range(3) == 256 * range(2));
    assert(range(4) == 256 * range(3));
    assert(range(5) == 256 * range(4));
    assert(range(6) == 256 * range(5));
    assert(range(7) == 256 * range(6));
    assert(range(8) == 256 * range(7));
}

pub proof fn lemma_le_len(n: int, k: int)
    requires
        k >= 0,
    ensures
        le(n, k).len() == k,
    decreases k,
{
    if k > 0 {
        lemma_le_len(n / 256, k - 1);
    }
}

pub proof fn lemma_unle_bound(b: Seq<u8>)
    ensures
        0 <= unle(b) < range(b.len() as int),
    decreases b.len(),
{
    if b.len() > 0 {
        lemma_unle_bound(b.subrange(1, b.len() as int));
    }
}

/// Reading the bytes of a number gives the number.
pub proof fn law_number_bytes(n: int, k: int)
    requires
        k >= 0,
        0 <= n < range(k),
    ensures
        unle(le(n, k)) == n,
    decreases k,
{
    if k > 0 {
        lemma_le_len(n / 256, k - 1);
        law_number_bytes(n / 256, k - 1);
        let b = le(n, k);
        assert(b.subrange(1, b.len() as int) =~= le(n / 256, k - 1));
    }
}

/// A number between other bytes.
pub proof fn lemma_word(a: Seq<u8>, n: int, k: int, rest: Seq<u8>)
    requires
        k >= 0,
        0 <= n < range(k),
    ensures
        word(a + le(n, k) + rest, a.len() as int, k) == n,
{
    lemma_le_len(n, k);
    let b = a + le(n, k) + rest;
    assert(b.subrange(a.len() as int, a.len() + k) =~= le(n, k));
    law_number_bytes(n, k);
}

pub proof fn lemma_nums_len(ns: Seq<int>, k: int)
    requires
        k >= 0,
    ensures
        nums(ns, k).len() == ns.len() * k,
    decreases ns.len(),
{
    if ns.len() > 0 {
        lemma_nums_len(ns.drop_last(), k);
        lemma_le_len(ns.last(), k);
        assert(ns.len() * k == (ns.len() - 1) * k + k) by (nonlinear_arith)
            requires ns.len() >= 1;
    }
}

/// Number `i` of a list between other bytes.
pub proof fn lemma_nums(a: Seq<u8>, ns: Seq<int>, k: int, rest: Seq<u8>, i: int)
    requires
        k >= 0,
        0 <= i < ns.len(),
        forall|j: int| 0 <= j < ns.len() ==> 0 <= #[trigger] ns[j] < range(k),
    ensures
        word(a + nums(ns, k) + rest, a.len() + i * k, k) == ns[i],
    decreases ns.len(),
{
    let front = ns.drop_last();
    let last = ns.last();
    lemma_nums_len(front, k);
    lemma_le_len(last, k);
    if i == ns.len() - 1 {
        lemma_word(a + nums(front, k), last, k, rest);
        assert(a + nums(front, k) + le(last, k) + rest =~= a + nums(ns, k) + rest);
    } else {
        assert forall|j: int| 0 <= j < front.len() implies 0 <= #[trigger] front[j] < range(k) by {
            assert(front[j] == ns[j]);
        }
        lemma_nums(a, front, k, le(last, k) + rest, i);
        assert(a + nums(front, k) + (le(last, k) + rest) =~= a + nums(ns, k) + rest);
    }
}

// ----- messages -----

pub open spec fn kind_number(k: DeviceKind) -> int {
    match k {
        DeviceKind::Cpu => 0,
        DeviceKind::Gpu => 1,
    }
}

/// A text: the number of its bytes, and its bytes.
pub open spec fn text_bytes(t: Seq<char>) -> Seq<u8> {
    let b = vstd::utf8::encode_utf8(t);
    le(b.len() as int, 4) + b
}

/// A rectangle of parameters and the member that holds it.
#[verifier::ext_equal]
pub struct Patch {
    pub home: int,
    pub offset: int,
    pub row_begin: int,
    pub row_end: int,
    pub col_begin: int,
    pub col_end: int,
    pub stride: int,
}

impl Patch {
    pub open spec fn numbers(self) -> Seq<int> {
        seq![self.offset, self.row_begin, self.row_end, self.col_begin, self.col_end, self.stride]
    }

    pub open spec fn bytes(self) -> Seq<u8> {
        le(self.home, 4) + nums(self.numbers(), 8)
    }

    /// The numbers fit the bytes that carry them.
    pub open spec fn carried(self) -> bool {
        &&& 0 <= self.home < range(4)
        &&& forall|i: int| 0 <= i < 6 ==> 0 <= #[trigger] self.numbers()[i] < range(8)
    }

    /// The rectangle that bytes carry.
    pub open spec fn read(b: Seq<u8>) -> Patch {
        Patch {
            home: word(b, 0, 4),
            offset: word(b, 4, 8),
            row_begin: word(b, 12, 8),
            row_end: word(b, 20, 8),
            col_begin: word(b, 28, 8),
            col_end: word(b, 36, 8),
            stride: word(b, 44, 8),
        }
    }

    /// The parameter at a row and a column of the matrix.
    pub open spec fn index(self, row: int, col: int) -> int {
        self.offset + row * self.stride + col
    }

    /// The indices of the first rows up to row `row`, row by row.
    pub open spec fn rows(self, row: int) -> Seq<int>
        decreases row - self.row_begin,
    {
        if row <= self.row_begin {
            Seq::empty()
        } else {
            self.rows(row - 1) + self.cells(row - 1, self.col_end)
        }
    }

    /// The indices of one row before column `col`.
    pub open spec fn cells(self, row: int, col: int) -> Seq<int> {
        Seq::new(
            if self.col_begin < col {
                (col - self.col_begin) as nat
            } else {
                0
            },
            |d: int| self.index(row, self.col_begin + d),
        )
    }

    /// The parameters of the rectangle, row by row.
    pub open spec fn indices(self) -> Seq<int> {
        self.rows(self.row_end)
    }

    /// Each index of the rectangle is a number that a word holds.
    pub open spec fn addressable(self) -> bool {
        self.row_begin < self.row_end && self.col_begin < self.col_end ==> self.index(self.row_end - 1, self.col_end - 1)
            <= u64::MAX
    }
}

pub proof fn lemma_patch_len(p: Patch)
    ensures
        p.bytes().len() == 52,
{
    lemma_le_len(p.home, 4);
    lemma_nums_len(p.numbers(), 8);
}

/// Reading the bytes of a rectangle gives the rectangle, whatever follows.
pub proof fn law_patch_bytes(p: Patch, rest: Seq<u8>)
    requires
        p.carried(),
    ensures
        Patch::read(p.bytes() + rest) == p,
        p.bytes().len() == 52,
{
    lemma_patch_len(p);
    let b = p.bytes() + rest;
    let a = le(p.home, 4);
    let ns = p.numbers();
    lemma_le_len(p.home, 4);
    lemma_word(Seq::empty(), p.home, 4, nums(ns, 8) + rest);
    assert(Seq::<u8>::empty() + le(p.home, 4) + (nums(ns, 8) + rest) =~= b);
    assert(a + nums(ns, 8) + rest =~= b);
    lemma_nums(a, ns, 8, rest, 0);
    lemma_nums(a, ns, 8, rest, 1);
    lemma_nums(a, ns, 8, rest, 2);
    lemma_nums(a, ns, 8, rest, 3);
    lemma_nums(a, ns, 8, rest, 4);
    lemma_nums(a, ns, 8, rest, 5);
}

pub open spec fn hop_numbers(h: Leg) -> Seq<int> {
    seq![h.bytes, h.offset, h.elems, h.row_begin, h.row_end, h.col_begin, h.col_end, h.stride]
}

pub open spec fn hop_bytes(h: Leg) -> Seq<u8> {
    nums(seq![h.from, h.to], 4) + seq![crate::cluster::hop_number(h.kind) as u8] + nums(hop_numbers(h), 8)
}

pub open spec fn hop_carried(h: Leg) -> bool {
    &&& 0 <= h.from < range(4)
    &&& 0 <= h.to < range(4)
    &&& forall|i: int| 0 <= i < 8 ==> 0 <= #[trigger] hop_numbers(h)[i] < range(8)
}

pub open spec fn kind_of(n: int) -> HopKind {
    if n == 0 {
        HopKind::Param
    } else if n == 1 {
        HopKind::Adjoint
    } else {
        HopKind::Activation
    }
}

/// The hop that bytes from position `i` on carry.
pub open spec fn read_hop(b: Seq<u8>, i: int) -> Leg {
    Leg {
        from: word(b, i, 4),
        to: word(b, i + 4, 4),
        kind: kind_of(b[i + 8] as int),
        bytes: word(b, i + 9, 8),
        offset: word(b, i + 17, 8),
        elems: word(b, i + 25, 8),
        row_begin: word(b, i + 33, 8),
        row_end: word(b, i + 41, 8),
        col_begin: word(b, i + 49, 8),
        col_end: word(b, i + 57, 8),
        stride: word(b, i + 65, 8),
    }
}

pub proof fn lemma_hop_len(h: Leg)
    ensures
        hop_bytes(h).len() == 73,
{
    lemma_nums_len(seq![h.from, h.to], 4);
    lemma_nums_len(hop_numbers(h), 8);
}

/// Reading the bytes of a hop gives the hop.
pub proof fn law_hop_bytes(a: Seq<u8>, h: Leg, rest: Seq<u8>)
    requires
        hop_carried(h),
    ensures
        read_hop(a + hop_bytes(h) + rest, a.len() as int) == h,
        (a + hop_bytes(h) + rest)[a.len() as int + 8] == crate::cluster::hop_number(h.kind),
        hop_bytes(h).len() == 73,
{
    let b = a + hop_bytes(h) + rest;
    let ends = seq![h.from, h.to];
    let kind = seq![crate::cluster::hop_number(h.kind) as u8];
    let ns = hop_numbers(h);
    lemma_hop_len(h);
    lemma_nums_len(ends, 4);
    lemma_nums_len(ns, 8);
    assert(a + nums(ends, 4) + (kind + nums(ns, 8) + rest) =~= b);
    lemma_nums(a, ends, 4, kind + nums(ns, 8) + rest, 0);
    lemma_nums(a, ends, 4, kind + nums(ns, 8) + rest, 1);
    let p = a + nums(ends, 4) + kind;
    assert(p + nums(ns, 8) + rest =~= b);
    assert(b[a.len() as int + 8] == kind[0]);
    lemma_nums(p, ns, 8, rest, 0);
    lemma_nums(p, ns, 8, rest, 1);
    lemma_nums(p, ns, 8, rest, 2);
    lemma_nums(p, ns, 8, rest, 3);
    lemma_nums(p, ns, 8, rest, 4);
    lemma_nums(p, ns, 8, rest, 5);
    lemma_nums(p, ns, 8, rest, 6);
    lemma_nums(p, ns, 8, rest, 7);
}

/// A transfer order: the step, the other member, and the hop.
pub open spec fn transfer_bytes(step: int, other: int, h: Leg) -> Seq<u8> {
    nums(seq![step, other], 4) + hop_bytes(h)
}

pub open spec fn window_small(w: Win) -> Seq<int> {
    seq![w.device, w.home, w.layer, w.expert]
}

pub open spec fn window_large(w: Win) -> Seq<int> {
    seq![
        w.offset,
        w.param,
        w.tape,
        w.din,
        w.dout,
        w.batch_begin,
        w.batch_end,
        w.row_begin,
        w.row_end,
        w.col_begin,
        w.col_end,
    ]
}

pub open spec fn pass_number(p: Pass) -> int {
    match p {
        Pass::Fwd => 0,
        Pass::Bwd => 1,
    }
}

/// What a member is told of a window.
pub open spec fn window_bytes(w: Win) -> Seq<u8> {
    text_bytes(w.name) + seq![crate::cluster::exec_number(w.op) as u8, pass_number(w.pass) as u8] + nums(window_small(w), 4)
        + nums(window_large(w), 8)
}

pub open spec fn window_carried(w: Win) -> bool {
    &&& vstd::utf8::encode_utf8(w.name).len() < range(4)
    &&& forall|i: int| 0 <= i < 4 ==> 0 <= #[trigger] window_small(w)[i] < range(4)
    &&& forall|i: int| 0 <= i < 11 ==> 0 <= #[trigger] window_large(w)[i] < range(8)
}

/// The window as a member sees it: without phases, resident bytes and
/// messages.
pub open spec fn bare(w: Win) -> Win {
    Win { phases: Seq::empty(), resident: 0, inbound: Seq::empty(), outbound: Seq::empty(), ..w }
}

pub open spec fn op_of(n: int) -> Exec {
    if n == 1 {
        Exec::Embed
    } else if n == 2 {
        Exec::RmsNorm
    } else if n == 3 {
        Exec::Linear
    } else if n == 4 {
        Exec::RopeQ
    } else if n == 5 {
        Exec::RopeK
    } else if n == 6 {
        Exec::Gqa
    } else if n == 7 {
        Exec::AddAttn
    } else if n == 8 {
        Exec::AddMoe
    } else if n == 9 {
        Exec::Router
    } else if n == 10 {
        Exec::Silu
    } else if n == 11 {
        Exec::Mix
    } else if n == 12 {
        Exec::Loss
    } else {
        Exec::Sgd
    }
}

/// The window that bytes carry, whose name has the bytes from `i` to `at`.
pub open spec fn read_window(b: Seq<u8>, i: int, at: int) -> Win {
    Win {
        name: vstd::utf8::decode_utf8(b.subrange(i, at)),
        device: word(b, at + 2, 4),
        phases: Seq::empty(),
        resident: 0,
        tape: word(b, at + 34, 8),
        param: word(b, at + 26, 8),
        pass: if b[at + 1] == 0 {
            Pass::Fwd
        } else {
            Pass::Bwd
        },
        op: op_of(b[at] as int),
        offset: word(b, at + 18, 8),
        batch_begin: word(b, at + 58, 8),
        batch_end: word(b, at + 66, 8),
        row_begin: word(b, at + 74, 8),
        row_end: word(b, at + 82, 8),
        col_begin: word(b, at + 90, 8),
        col_end: word(b, at + 98, 8),
        din: word(b, at + 42, 8),
        dout: word(b, at + 50, 8),
        home: word(b, at + 6, 4),
        layer: word(b, at + 10, 4),
        expert: word(b, at + 14, 4),
        inbound: Seq::empty(),
        outbound: Seq::empty(),
    }
}

/// What the bytes of a text or a window may be refused for.
pub enum Refusal {
    Truncated,
    NotUtf8,
    UnknownExec { number: int },
    UnknownHop { number: int },
}

/// The end of the text that begins at position `i`, or why there is none.
pub open spec fn text_end(b: Seq<u8>, i: int) -> Result<int, Refusal> {
    if b.len() < i + 4 || b.len() < i + 4 + word(b, i, 4) {
        Err(Refusal::Truncated)
    } else if !vstd::utf8::valid_utf8(b.subrange(i + 4, i + 4 + word(b, i, 4))) {
        Err(Refusal::NotUtf8)
    } else {
        Ok(i + 4 + word(b, i, 4))
    }
}

/// The step and the window of an order to compute.
pub open spec fn read_order(b: Seq<u8>) -> Result<(int, Win), Refusal> {
    if b.len() < 4 {
        Err(Refusal::Truncated)
    } else {
        match text_end(b, 4) {
            Err(e) => Err(e),
            Ok(at) => if b.len() < at + 1 {
                Err(Refusal::Truncated)
            } else if !(1 <= b[at] <= 13) {
                Err(Refusal::UnknownExec { number: b[at] as int })
            } else if b.len() < at + 106 {
                Err(Refusal::Truncated)
            } else {
                Ok((word(b, 0, 4), read_window(b, 8, at)))
            },
        }
    }
}

/// The step, the other member and the hop of a transfer order.
pub open spec fn read_transfer(b: Seq<u8>) -> Result<(int, int, Leg), Refusal> {
    if b.len() < 17 {
        Err(Refusal::Truncated)
    } else if b[16] > 2 {
        Err(Refusal::UnknownHop { number: b[16] as int })
    } else if b.len() < 81 {
        Err(Refusal::Truncated)
    } else {
        Ok((word(b, 0, 4), word(b, 4, 4), read_hop(b, 8)))
    }
}

/// A member reads the transfer order that the coordinator wrote.
pub proof fn law_transfer_bytes(step: int, other: int, h: Leg)
    requires
        0 <= step < range(4),
        0 <= other < range(4),
        hop_carried(h),
    ensures
        read_transfer(transfer_bytes(step, other, h)) == Ok::<(int, int, Leg), Refusal>((step, other, h)),
{
    let b = transfer_bytes(step, other, h);
    let a = nums(seq![step, other], 4);
    lemma_nums_len(seq![step, other], 4);
    law_hop_bytes(a, h, Seq::empty());
    assert(a + hop_bytes(h) + Seq::<u8>::empty() =~= b);
    lemma_nums(Seq::empty(), seq![step, other], 4, hop_bytes(h), 0);
    lemma_nums(Seq::empty(), seq![step, other], 4, hop_bytes(h), 1);
    assert(Seq::<u8>::empty() + a + hop_bytes(h) =~= b);
}

/// A text between other bytes.
pub proof fn lemma_text(a: Seq<u8>, t: Seq<char>, rest: Seq<u8>)
    requires
        vstd::utf8::encode_utf8(t).len() < range(4),
    ensures
        ({
            let b = a + text_bytes(t) + rest;
            let i = a.len() as int;
            let at = i + 4 + vstd::utf8::encode_utf8(t).len();
            &&& text_end(b, i) == Ok::<int, Refusal>(at)
            &&& b.subrange(i + 4, at) == vstd::utf8::encode_utf8(t)
            &&& vstd::utf8::decode_utf8(b.subrange(i + 4, at)) == t
            &&& at + rest.len() == b.len()
        }),
{
    let e = vstd::utf8::encode_utf8(t);
    let b = a + text_bytes(t) + rest;
    let i = a.len() as int;
    lemma_le_len(e.len() as int, 4);
    lemma_word(a, e.len() as int, 4, e + rest);
    assert(a + le(e.len() as int, 4) + (e + rest) =~= b);
    assert(b.subrange(i + 4, i + 4 + e.len()) =~= e);
    vstd::utf8::encode_utf8_valid_utf8(t);
    vstd::utf8::encode_utf8_decode_utf8(t);
}

proof fn lemma_window_small(p: Seq<u8>, w: Win, rest: Seq<u8>)
    requires
        window_carried(w),
    ensures
        ({
            let b = p + nums(window_small(w), 4) + rest;
            let i = p.len() as int;
            &&& word(b, i, 4) == w.device
            &&& word(b, i + 4, 4) == w.home
            &&& word(b, i + 8, 4) == w.layer
            &&& word(b, i + 12, 4) == w.expert
        }),
{
    let ns = window_small(w);
    lemma_nums(p, ns, 4, rest, 0);
    lemma_nums(p, ns, 4, rest, 1);
    lemma_nums(p, ns, 4, rest, 2);
    lemma_nums(p, ns, 4, rest, 3);
}

proof fn lemma_window_large(q: Seq<u8>, w: Win)
    requires
        window_carried(w),
    ensures
        ({
            let b = q + nums(window_large(w), 8);
            let i = q.len() as int;
            &&& word(b, i + 0, 8) == w.offset
            &&& word(b, i + 8, 8) == w.param
            &&& word(b, i + 16, 8) == w.tape
            &&& word(b, i + 24, 8) == w.din
            &&& word(b, i + 32, 8) == w.dout
            &&& word(b, i + 40, 8) == w.batch_begin
            &&& word(b, i + 48, 8) == w.batch_end
            &&& word(b, i + 56, 8) == w.row_begin
            &&& word(b, i + 64, 8) == w.row_end
            &&& word(b, i + 72, 8) == w.col_begin
            &&& word(b, i + 80, 8) == w.col_end
        }),
{
    let ns = window_large(w);
    let none = Seq::<u8>::empty();
    assert(q + nums(ns, 8) + none =~= q + nums(ns, 8));
    lemma_nums(q, ns, 8, none, 0);
    lemma_nums(q, ns, 8, none, 1);
    lemma_nums(q, ns, 8, none, 2);
    lemma_nums(q, ns, 8, none, 3);
    lemma_nums(q, ns, 8, none, 4);
    lemma_nums(q, ns, 8, none, 5);
    lemma_nums(q, ns, 8, none, 6);
    lemma_nums(q, ns, 8, none, 7);
    lemma_nums(q, ns, 8, none, 8);
    lemma_nums(q, ns, 8, none, 9);
    lemma_nums(q, ns, 8, none, 10);
}

/// A member reads the order to compute that the coordinator wrote: the step,
/// and the window as far as members are told of it.
pub proof fn law_order_bytes(step: int, w: Win)
    requires
        0 <= step < range(4),
        window_carried(w),
    ensures
        read_order(le(step, 4) + window_bytes(w)) == Ok::<(int, Win), Refusal>((step, bare(w))),
{
    let head = le(step, 4);
    let e = vstd::utf8::encode_utf8(w.name);
    let codes = seq![crate::cluster::exec_number(w.op) as u8, pass_number(w.pass) as u8];
    let small = nums(window_small(w), 4);
    let large = nums(window_large(w), 8);
    let b = head + window_bytes(w);
    lemma_le_len(step, 4);
    lemma_nums_len(window_small(w), 4);
    lemma_nums_len(window_large(w), 8);
    lemma_word(Seq::empty(), step, 4, window_bytes(w));
    assert(Seq::<u8>::empty() + head + window_bytes(w) =~= b);
    lemma_text(head, w.name, codes + small + large);
    assert(head + text_bytes(w.name) + (codes + small + large) =~= b);
    let at = 8 + e.len() as int;
    lemma_le_len(e.len() as int, 4);
    let p = head + text_bytes(w.name) + codes;
    assert(p.len() == at + 2);
    assert(p + small + large =~= b);
    assert(b[at] == codes[0] && b[at + 1] == codes[1]);
    lemma_window_small(p, w, large);
    let q = p + small;
    assert(q + large =~= b);
    assert(q.len() == at + 18);
    lemma_window_large(q, w);
    let r = read_window(b, 8, at);
    let v = bare(w);
    assert(r.name == v.name);
    assert(r.op == v.op);
    assert(r =~= v);
}

/// How a member introduces itself.
pub open spec fn hello_bytes(d: Dev, port: int) -> Seq<u8> {
    text_bytes(d.name) + seq![kind_number(d.kind) as u8] + nums(seq![d.buffer, d.code], 8) + le(port, 2)
}

/// What a coordinator reads of an introduction.
#[verifier::ext_equal]
pub struct Intro {
    pub name: Seq<char>,
    pub kind: int,
    pub buffer: int,
    pub code: int,
    pub port: int,
}

pub open spec fn read_intro(b: Seq<u8>) -> Result<Intro, Refusal> {
    match text_end(b, 0) {
        Err(e) => Err(e),
        Ok(at) => if b.len() < at + 19 {
            Err(Refusal::Truncated)
        } else {
            Ok(
                Intro {
                    name: vstd::utf8::decode_utf8(b.subrange(4, at)),
                    kind: b[at] as int,
                    buffer: word(b, at + 1, 8),
                    code: word(b, at + 9, 8),
                    port: word(b, at + 17, 2),
                },
            )
        },
    }
}

/// A coordinator reads the introduction that a member wrote.
pub proof fn law_hello_bytes(d: Dev, port: int)
    requires
        vstd::utf8::encode_utf8(d.name).len() < range(4),
        0 <= d.buffer < range(8),
        0 <= d.code < range(8),
        0 <= port < range(2),
    ensures
        read_intro(hello_bytes(d, port)) == Ok::<Intro, Refusal>(
            (Intro { name: d.name, kind: kind_number(d.kind), buffer: d.buffer, code: d.code, port }),
        ),
{
    let b = hello_bytes(d, port);
    let e = vstd::utf8::encode_utf8(d.name);
    let kind = seq![kind_number(d.kind) as u8];
    let ns = seq![d.buffer, d.code];
    lemma_nums_len(ns, 8);
    lemma_le_len(port, 2);
    lemma_text(Seq::empty(), d.name, kind + nums(ns, 8) + le(port, 2));
    assert(Seq::<u8>::empty() + text_bytes(d.name) + (kind + nums(ns, 8) + le(port, 2)) =~= b);
    let at = 4 + e.len() as int;
    lemma_le_len(e.len() as int, 4);
    let p = text_bytes(d.name) + kind;
    assert(p.len() == at + 1);
    assert(p + nums(ns, 8) + le(port, 2) =~= b);
    lemma_nums(p, ns, 8, le(port, 2), 0);
    lemma_nums(p, ns, 8, le(port, 2), 1);
    let q = p + nums(ns, 8);
    lemma_word(q, port, 2, Seq::empty());
    assert(q + le(port, 2) + Seq::<u8>::empty() =~= b);
    assert(b[at] == kind[0]);
}

/// The welcome of a coordinator: the rank of the member, and the ports of all.
pub open spec fn welcome_bytes(rank: int, ports: Seq<int>) -> Seq<u8> {
    nums(seq![rank, ports.len() as int], 4) + nums(ports, 2)
}

/// The rank and the ports that a member reads.
pub open spec fn read_ports(b: Seq<u8>) -> Option<(int, Seq<int>)> {
    if b.len() < 8 || b.len() < 8 + word(b, 4, 4) * 2 {
        None
    } else {
        Some((word(b, 0, 4), Seq::new(word(b, 4, 4) as nat, |i: int| word(b, 8 + i * 2, 2))))
    }
}

/// A member reads the welcome that the coordinator wrote.
pub proof fn law_welcome_bytes(rank: int, ports: Seq<int>)
    requires
        0 <= rank < range(4),
        ports.len() < range(4),
        forall|i: int| 0 <= i < ports.len() ==> 0 <= #[trigger] ports[i] < range(2),
    ensures
        read_ports(welcome_bytes(rank, ports)) == Some((rank, ports)),
{
    let b = welcome_bytes(rank, ports);
    let ns = seq![rank, ports.len() as int];
    lemma_nums_len(ns, 4);
    lemma_nums_len(ports, 2);
    lemma_nums(Seq::empty(), ns, 4, nums(ports, 2), 0);
    lemma_nums(Seq::empty(), ns, 4, nums(ports, 2), 1);
    assert(Seq::<u8>::empty() + nums(ns, 4) + nums(ports, 2) =~= b);
    let got = Seq::new(word(b, 4, 4) as nat, |i: int| word(b, 8 + i * 2, 2));
    assert forall|i: int| 0 <= i < ports.len() implies #[trigger] got[i] == ports[i] by {
        lemma_nums(nums(ns, 4), ports, 2, Seq::empty(), i);
        assert(nums(ns, 4) + nums(ports, 2) + Seq::<u8>::empty() =~= b);
    }
    assert(got =~= ports);
}

// ----- tiles -----

/// The bytes of a tile: four for each word.
pub open spec fn tile_bytes(ws: Seq<u32>) -> Seq<u8> {
    nums(Seq::new(ws.len(), |i: int| ws[i] as int), 4)
}

/// The words of a tile.
pub open spec fn tile_words(b: Seq<u8>) -> Seq<u32> {
    Seq::new((b.len() / 4) as nat, |i: int| word(b, i * 4, 4) as u32)
}

/// The words of a tile come back.
pub proof fn law_tile_bytes(ws: Seq<u32>)
    ensures
        tile_bytes(ws).len() == ws.len() * 4,
        tile_words(tile_bytes(ws)) == ws,
{
    let ns = Seq::new(ws.len(), |i: int| ws[i] as int);
    let b = tile_bytes(ws);
    lemma_range();
    lemma_nums_len(ns, 4);
    assert forall|i: int| 0 <= i < ws.len() implies #[trigger] tile_words(b)[i] == ws[i] by {
        lemma_nums(Seq::empty(), ns, 4, Seq::empty(), i);
        assert(Seq::<u8>::empty() + b + Seq::<u8>::empty() =~= b);
    }
    assert(tile_words(b) =~= ws);
}

// ----- the order of the bytes -----

/// Byte `i` of a number is its digit `i` to the base 256.
pub proof fn law_little_endian(n: int, k: int, i: int)
    requires
        0 <= n,
        0 <= i < k,
    ensures
        le(n, k).len() == k,
        le(n, k)[i] == (n / range(i)) % 256,
    decreases k,
{
    lemma_le_len(n, k);
    if i == 0 {
        assert(n / 1 == n);
    } else {
        lemma_positive(i - 1);
        law_little_endian(n / 256, k - 1, i - 1);
        vstd::arithmetic::div_mod::lemma_div_denominator(n, 256, range(i - 1));
        assert(le(n, k)[i] == le(n / 256, k - 1)[i - 1]);
    }
}

proof fn lemma_positive(k: int)
    ensures
        range(k) > 0,
    decreases k,
{
    if k > 0 {
        lemma_positive(k - 1);
    }
}

proof fn lemma_nums_push(ns: Seq<int>, x: int, k: int)
    ensures
        nums(ns.push(x), k) == nums(ns, k) + le(x, k),
{
    assert(ns.push(x).drop_last() =~= ns);
}

/// A rectangle goes out as its member in four bytes, and then its place, its
/// rows, its columns and its stride in eight bytes each.
pub proof fn law_patch_layout(p: Patch)
    ensures
        p.bytes() == le(p.home, 4) + le(p.offset, 8) + le(p.row_begin, 8) + le(p.row_end, 8) + le(p.col_begin, 8) + le(p.col_end, 8) + le(p.stride, 8),
{
    let a0 = Seq::<int>::empty();
    assert(nums(a0, 8) =~= Seq::<u8>::empty());
    let a1 = a0.push(p.offset);
    lemma_nums_push(a0, p.offset, 8);
    let a2 = a1.push(p.row_begin);
    lemma_nums_push(a1, p.row_begin, 8);
    let a3 = a2.push(p.row_end);
    lemma_nums_push(a2, p.row_end, 8);
    let a4 = a3.push(p.col_begin);
    lemma_nums_push(a3, p.col_begin, 8);
    let a5 = a4.push(p.col_end);
    lemma_nums_push(a4, p.col_end, 8);
    let a6 = a5.push(p.stride);
    lemma_nums_push(a5, p.stride, 8);
    assert(a6 =~= seq![p.offset, p.row_begin, p.row_end, p.col_begin, p.col_end, p.stride]);
    assert(p.bytes() =~= le(p.home, 4) + le(p.offset, 8) + le(p.row_begin, 8) + le(p.row_end, 8) + le(p.col_begin, 8) + le(p.col_end, 8) + le(p.stride, 8));
}

/// A hop goes out as its two ends in four bytes each, its kind in one, and its
/// bytes, its place, its elements, its rows, its columns and its stride in
/// eight bytes each. In an order to transfer the step and the other member
/// come before it.
pub proof fn law_hop_layout(step: int, other: int, h: Leg)
    ensures
        ({
            let kind: u8 = match h.kind {
                HopKind::Param => 0,
                HopKind::Adjoint => 1,
                HopKind::Activation => 2,
            };
            &&& hop_bytes(h) == le(h.from, 4) + le(h.to, 4) + seq![kind] + le(h.bytes, 8) + le(h.offset, 8) + le(h.elems, 8) + le(h.row_begin, 8) + le(h.row_end, 8) + le(h.col_begin, 8) + le(h.col_end, 8) + le(h.stride, 8)
            &&& transfer_bytes(step, other, h) == le(step, 4) + le(other, 4) + hop_bytes(h)
        }),
{
    let a0 = Seq::<int>::empty();
    assert(nums(a0, 4) =~= Seq::<u8>::empty());
    let a1 = a0.push(h.from);
    lemma_nums_push(a0, h.from, 4);
    let a2 = a1.push(h.to);
    lemma_nums_push(a1, h.to, 4);
    assert(a2 =~= seq![h.from, h.to]);
    let b0 = Seq::<int>::empty();
    assert(nums(b0, 8) =~= Seq::<u8>::empty());
    let b1 = b0.push(h.bytes);
    lemma_nums_push(b0, h.bytes, 8);
    let b2 = b1.push(h.offset);
    lemma_nums_push(b1, h.offset, 8);
    let b3 = b2.push(h.elems);
    lemma_nums_push(b2, h.elems, 8);
    let b4 = b3.push(h.row_begin);
    lemma_nums_push(b3, h.row_begin, 8);
    let b5 = b4.push(h.row_end);
    lemma_nums_push(b4, h.row_end, 8);
    let b6 = b5.push(h.col_begin);
    lemma_nums_push(b5, h.col_begin, 8);
    let b7 = b6.push(h.col_end);
    lemma_nums_push(b6, h.col_end, 8);
    let b8 = b7.push(h.stride);
    lemma_nums_push(b7, h.stride, 8);
    assert(b8 =~= seq![h.bytes, h.offset, h.elems, h.row_begin, h.row_end, h.col_begin, h.col_end, h.stride]);
    let c0 = Seq::<int>::empty();
    assert(nums(c0, 4) =~= Seq::<u8>::empty());
    let c1 = c0.push(step);
    lemma_nums_push(c0, step, 4);
    let c2 = c1.push(other);
    lemma_nums_push(c1, other, 4);
    assert(c2 =~= seq![step, other]);
    assert(nums(seq![h.from, h.to], 4) =~= le(h.from, 4) + le(h.to, 4));
    assert(nums(seq![step, other], 4) =~= le(step, 4) + le(other, 4));
    assert(nums(hop_numbers(h), 8) =~= le(h.bytes, 8) + le(h.offset, 8) + le(h.elems, 8) + le(h.row_begin, 8) + le(h.row_end, 8) + le(h.col_begin, 8) + le(h.col_end, 8) + le(h.stride, 8));
    let k = seq![crate::cluster::hop_number(h.kind) as u8];
    assert(hop_bytes(h) =~= le(h.from, 4) + le(h.to, 4) + k + le(h.bytes, 8) + le(h.offset, 8) + le(h.elems, 8) + le(h.row_begin, 8) + le(h.row_end, 8) + le(h.col_begin, 8) + le(h.col_end, 8) + le(h.stride, 8));
}

/// A window goes out as its name after the length of the name, its operation
/// and its pass in one byte each, its device, its home, its layer and its
/// expert in four bytes each, and its place, its parameters, its tape, its two
/// sizes and its box in eight bytes each.
pub proof fn law_window_layout(w: Win)
    ensures
        ({
            let name = vstd::utf8::encode_utf8(w.name);
            let op: u8 = match w.op {
                Exec::Embed => 1,
                Exec::RmsNorm => 2,
                Exec::Linear => 3,
                Exec::RopeQ => 4,
                Exec::RopeK => 5,
                Exec::Gqa => 6,
                Exec::AddAttn => 7,
                Exec::AddMoe => 8,
                Exec::Router => 9,
                Exec::Silu => 10,
                Exec::Mix => 11,
                Exec::Loss => 12,
                Exec::Sgd => 13,
            };
            let pass: u8 = match w.pass {
                Pass::Fwd => 0,
                Pass::Bwd => 1,
            };
            window_bytes(w) == le(name.len() as int, 4) + name + seq![op, pass] + le(w.device, 4) + le(w.home, 4) + le(w.layer, 4) + le(w.expert, 4) + le(w.offset, 8) + le(w.param, 8) + le(w.tape, 8) + le(w.din, 8) + le(w.dout, 8) + le(w.batch_begin, 8) + le(w.batch_end, 8) + le(w.row_begin, 8) + le(w.row_end, 8) + le(w.col_begin, 8) + le(w.col_end, 8)
        }),
{
    let a0 = Seq::<int>::empty();
    assert(nums(a0, 4) =~= Seq::<u8>::empty());
    let a1 = a0.push(w.device);
    lemma_nums_push(a0, w.device, 4);
    let a2 = a1.push(w.home);
    lemma_nums_push(a1, w.home, 4);
    let a3 = a2.push(w.layer);
    lemma_nums_push(a2, w.layer, 4);
    let a4 = a3.push(w.expert);
    lemma_nums_push(a3, w.expert, 4);
    assert(a4 =~= seq![w.device, w.home, w.layer, w.expert]);
    let b0 = Seq::<int>::empty();
    assert(nums(b0, 8) =~= Seq::<u8>::empty());
    let b1 = b0.push(w.offset);
    lemma_nums_push(b0, w.offset, 8);
    let b2 = b1.push(w.param);
    lemma_nums_push(b1, w.param, 8);
    let b3 = b2.push(w.tape);
    lemma_nums_push(b2, w.tape, 8);
    let b4 = b3.push(w.din);
    lemma_nums_push(b3, w.din, 8);
    let b5 = b4.push(w.dout);
    lemma_nums_push(b4, w.dout, 8);
    let b6 = b5.push(w.batch_begin);
    lemma_nums_push(b5, w.batch_begin, 8);
    let b7 = b6.push(w.batch_end);
    lemma_nums_push(b6, w.batch_end, 8);
    let b8 = b7.push(w.row_begin);
    lemma_nums_push(b7, w.row_begin, 8);
    let b9 = b8.push(w.row_end);
    lemma_nums_push(b8, w.row_end, 8);
    let b10 = b9.push(w.col_begin);
    lemma_nums_push(b9, w.col_begin, 8);
    let b11 = b10.push(w.col_end);
    lemma_nums_push(b10, w.col_end, 8);
    assert(b11 =~= seq![w.offset, w.param, w.tape, w.din, w.dout, w.batch_begin, w.batch_end, w.row_begin, w.row_end, w.col_begin, w.col_end]);
    let name = vstd::utf8::encode_utf8(w.name);
    let codes = seq![crate::cluster::exec_number(w.op) as u8, pass_number(w.pass) as u8];
    assert(nums(window_small(w), 4) =~= le(w.device, 4) + le(w.home, 4) + le(w.layer, 4) + le(w.expert, 4));
    assert(nums(window_large(w), 8) =~= le(w.offset, 8) + le(w.param, 8) + le(w.tape, 8) + le(w.din, 8) + le(w.dout, 8) + le(w.batch_begin, 8) + le(w.batch_end, 8) + le(w.row_begin, 8) + le(w.row_end, 8) + le(w.col_begin, 8) + le(w.col_end, 8));
    assert(window_bytes(w) =~= le(name.len() as int, 4) + name + codes + le(w.device, 4) + le(w.home, 4) + le(w.layer, 4) + le(w.expert, 4) + le(w.offset, 8) + le(w.param, 8) + le(w.tape, 8) + le(w.din, 8) + le(w.dout, 8) + le(w.batch_begin, 8) + le(w.batch_end, 8) + le(w.row_begin, 8) + le(w.row_end, 8) + le(w.col_begin, 8) + le(w.col_end, 8));
}

/// A member says hello with its name after the length of the name, zero for a
/// CPU or one for a GPU, its buffer and its code in eight bytes each, and its
/// port in two. The welcome is the rank of the member and the number of ports
/// in four bytes each, and the ports in two each.
pub proof fn law_greeting_layout(d: Dev, port: int, rank: int, ports: Seq<int>)
    ensures
        ({
            let name = vstd::utf8::encode_utf8(d.name);
            let kind: u8 = match d.kind {
                DeviceKind::Cpu => 0,
                DeviceKind::Gpu => 1,
            };
            &&& hello_bytes(d, port) == le(name.len() as int, 4) + name + seq![kind] + le(d.buffer, 8) + le(d.code, 8) + le(
                port,
                2,
            )
            &&& welcome_bytes(rank, ports) == le(rank, 4) + le(ports.len() as int, 4) + nums(ports, 2)
        }),
{
    let a0 = Seq::<int>::empty();
    assert(nums(a0, 8) =~= Seq::<u8>::empty());
    let a1 = a0.push(d.buffer);
    lemma_nums_push(a0, d.buffer, 8);
    let a2 = a1.push(d.code);
    lemma_nums_push(a1, d.code, 8);
    assert(a2 =~= seq![d.buffer, d.code]);
    let b0 = Seq::<int>::empty();
    assert(nums(b0, 4) =~= Seq::<u8>::empty());
    let b1 = b0.push(rank);
    lemma_nums_push(b0, rank, 4);
    let b2 = b1.push(ports.len() as int);
    lemma_nums_push(b1, ports.len() as int, 4);
    assert(b2 =~= seq![rank, ports.len() as int]);
    let name = vstd::utf8::encode_utf8(d.name);
    let k = seq![kind_number(d.kind) as u8];
    assert(hello_bytes(d, port) =~= le(name.len() as int, 4) + name + k + le(d.buffer, 8) + le(d.code, 8) + le(port, 2));
    assert(welcome_bytes(rank, ports) =~= le(rank, 4) + le(ports.len() as int, 4) + nums(ports, 2));
}

} // verus!
