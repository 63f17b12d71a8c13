//! Run a [`StagePlan`] as a distributed system.
//!
//! A coordinator is the control plane. Each device is a member that connects
//! to the coordinator and announces its name, kind, and budgets. After every
//! member has joined, the members open peer connections and the coordinator
//! waits until that fabric is up. It then walks the plan: for each window it
//! delivers the inbound hops, tells the owning member to run the window, then
//! delivers the outbound hops. A hop is a framed tile on the peer connection,
//! not a copy inside the coordinator. Parameter homes stay on the member that
//! owns them. SGD runs on the member the plan names, and the updated rectangle
//! is carried back to the home when that member is a different device.
//!
//! This module holds the messages, the stores and the decisions of both
//! sides. Values are carried as words: the bits of a 32-bit number.
use vstd::prelude::*;
use vstd::string::StringExecFns;
use std::collections::HashMap;
use crate::cluster::{Device, DeviceKind, Exec, Hop, HopKind, Pass, StagePlan, Window};
use crate::text;
use crate::theory::plans::{Dev, Leg, Win};
use crate::theory::wire::{Intro, Patch, Refusal};

verus! {

broadcast use vstd::std_specs::hash::group_hash_axioms;

pub const HELLO: u8 = 1;

pub const WELCOME: u8 = 2;

pub const PEERS_UP: u8 = 3;

pub const PUT: u8 = 4;

pub const GET: u8 = 5;

pub const DATA: u8 = 6;

pub const COMPUTE: u8 = 7;

pub const SEND: u8 = 8;

pub const RECV: u8 = 9;

pub const READY: u8 = 10;

pub const DONE: u8 = 11;

pub const FINISH: u8 = 12;

/// Failure of membership, a hop, or a step acknowledgement.
#[derive(Clone, Debug, PartialEq, Eq)]
pub struct DistError {
    pub message: String,
}

impl View for DistError {
    type V = Seq<char>;

    open spec fn view(&self) -> Seq<char> {
        self.message@
    }
}

fn err(message: &str) -> (r: DistError)
    ensures
        r@ == message@,
{
    DistError { message: String::from_str(message) }
}

/// An error that quotes a text.
fn err_about(template: &str, what: String) -> (r: DistError)
    ensures
        r@ == text::filled(template@, seq![what@]),
{
    let args: Vec<String> = vec![what];
    assert(text::texts(args@) =~= seq![what@]);
    let mut out = String::new();
    text::push_filled(&mut out, template, args.as_slice());
    assert(out@ =~= text::filled(template@, text::texts(args@)));
    DistError { message: out }
}

pub open spec fn refusal_text(r: Refusal) -> Seq<char> {
    match r {
        Refusal::Truncated => "truncated control frame"@,
        Refusal::NotUtf8 => "member name is not utf-8"@,
        Refusal::UnknownExec { number } => text::filled("unknown exec $a"@, seq![text::dec(number)]),
        Refusal::UnknownHop { number } => text::filled("unknown hop kind $a"@, seq![text::dec(number)]),
    }
}

// ----- bytes -----

fn push_le(body: &mut Vec<u8>, v: u64, k: usize)
    requires
        v < crate::theory::wire::range(k as int),
    ensures
        final(body)@ == old(body)@ + crate::theory::wire::le(v as int, k as int),
{
    let ghost start = body@;
    let ghost want = start + crate::theory::wire::le(v as int, k as int);
    let mut rest: u64 = v;
    let mut j: usize = 0;
    assert(body@ + crate::theory::wire::le(rest as int, k - j) =~= want);
    while j < k
        invariant
            j <= k,
            body@ + crate::theory::wire::le(rest as int, k - j) == want,
        decreases k - j,
    {
        let ghost before = body@;
        body.push((rest % 256) as u8);
        proof {
            let tail = crate::theory::wire::le(rest as int / 256, k - j - 1);
            assert(crate::theory::wire::le(rest as int, k - j) == seq![(rest as int % 256) as u8] + tail);
            assert(body@ + tail =~= before + (seq![(rest as int % 256) as u8] + tail));
        }
        rest = rest / 256;
        j = j + 1;
    }
    assert(body@ =~= want);
}

fn push_bytes(body: &mut Vec<u8>, more: &[u8])
    ensures
        final(body)@ == old(body)@ + more@,
{
    let ghost start = body@;
    let mut i: usize = 0;
    assert(body@ =~= start + more@.take(0));
    while i < more.len()
        invariant
            i <= more@.len(),
            body@ == start + more@.take(i as int),
        decreases more.len() - i,
    {
        body.push(more[i]);
        assert(body@ =~= start + more@.take(i + 1));
        i = i + 1;
    }
    assert(more@.take(i as int) =~= more@);
}

/// The numbers of a list of words.
pub open spec fn numbers(s: Seq<u64>) -> Seq<int> {
    Seq::new(s.len(), |i: int| s[i] as int)
}

fn push_nums(body: &mut Vec<u8>, ns: &Vec<u64>, k: usize)
    requires
        forall|i: int| 0 <= i < ns@.len() ==> (#[trigger] ns@[i]) < crate::theory::wire::range(k as int),
    ensures
        final(body)@ == old(body)@ + crate::theory::wire::nums(numbers(ns@), k as int),
{
    let ghost start = body@;
    let ghost all = numbers(ns@);
    let mut i: usize = 0;
    assert(body@ =~= start + crate::theory::wire::nums(all.take(0), k as int));
    while i < ns.len()
        invariant
            i <= ns@.len(),
            all == numbers(ns@),
            forall|j: int| 0 <= j < ns@.len() ==> (#[trigger] ns@[j]) < crate::theory::wire::range(k as int),
            body@ == start + crate::theory::wire::nums(all.take(i as int), k as int),
        decreases ns.len() - i,
    {
        push_le(body, ns[i], k);
        proof {
            let t = all.take(i + 1);
            assert(t.drop_last() =~= all.take(i as int));
            assert(t.last() == ns@[i as int]);
            assert(body@ =~= start + crate::theory::wire::nums(t, k as int));
        }
        i = i + 1;
    }
    assert(all.take(i as int) =~= all);
}

/// The number in `k` bytes at position `i`.
fn read_le(b: &[u8], i: usize, k: usize) -> (r: u64)
    requires
        i + k <= b@.len(),
        k <= 8,
    ensures
        r == crate::theory::wire::word(b@, i as int, k as int),
        r < crate::theory::wire::range(k as int),
{
    let ghost s = b@.subrange(i as int, i + k);
    let n: usize = b.len();
    let mut acc: u64 = 0;
    let mut j: usize = k;
    proof {
        crate::theory::wire::lemma_range();
        assert(s.subrange(k as int, k as int) =~= Seq::<u8>::empty());
    }
    while j > 0
        invariant
            j <= k,
            k <= 8,
            n == b@.len(),
            i + k <= n,
            s == b@.subrange(i as int, i + k),
            acc == crate::theory::wire::unle(s.subrange(j as int, k as int)),
        decreases j,
    {
        proof {
            let rest = s.subrange(j as int, k as int);
            let now = s.subrange(j - 1, k as int);
            assert(now.subrange(1, now.len() as int) =~= rest);
            assert(now[0] == b@[i + j - 1]);
            crate::theory::wire::lemma_unle_bound(now);
            lemma_range_mono(now.len() as int, 8);
            crate::theory::wire::lemma_range();
        }
        acc = acc * 256 + b[i + (j - 1)] as u64;
        j = j - 1;
    }
    proof {
        assert(s.subrange(0, k as int) =~= s);
        crate::theory::wire::lemma_unle_bound(s);
    }
    acc
}

proof fn lemma_range_mono(a: int, b: int)
    requires
        0 <= a <= b,
    ensures
        0 < crate::theory::wire::range(a) <= crate::theory::wire::range(b),
    decreases b,
{
    if a < b {
        lemma_range_mono(a, b - 1);
    } else if a > 0 {
        lemma_range_mono(a - 1, a - 1);
    }
}

fn push_text(body: &mut Vec<u8>, t: &String)
    requires
        vstd::utf8::encode_utf8(t@).len() < crate::theory::wire::range(4),
    ensures
        final(body)@ == old(body)@ + crate::theory::wire::text_bytes(t@),
{
    let ghost start = body@;
    let bytes = t.as_str().as_bytes();
    proof {
        crate::theory::wire::lemma_range();
    }
    push_le(body, bytes.len() as u64, 4);
    push_bytes(body, bytes);
    assert(body@ =~= start + crate::theory::wire::text_bytes(t@));
}

/// Makes a text of bytes with `String::from_utf8`. What is claimed of it: it
/// gives a text exactly for bytes that are valid UTF-8, and that text is the
/// one whose UTF-8 bytes they are.
#[verifier::external_body]
fn utf8_text(bytes: Vec<u8>) -> (r: Option<String>)
    ensures
        match r {
            Some(t) => vstd::utf8::valid_utf8(bytes@) && t@ == vstd::utf8::decode_utf8(bytes@),
            None => !vstd::utf8::valid_utf8(bytes@),
        },
{
    String::from_utf8(bytes).ok()
}

fn copied(b: &[u8], from: usize, to: usize) -> (r: Vec<u8>)
    requires
        from <= to <= b@.len(),
    ensures
        r@ == b@.subrange(from as int, to as int),
{
    let mut r: Vec<u8> = Vec::new();
    let mut i: usize = from;
    while i < to
        invariant
            from <= i <= to,
            to <= b@.len(),
            r@ == b@.subrange(from as int, i as int),
        decreases to - i,
    {
        r.push(b[i]);
        assert(r@ =~= b@.subrange(from as int, i + 1));
        i = i + 1;
    }
    r
}

/// The text that begins at position `i`, and where it ends.
fn read_text(b: &[u8], i: usize) -> (r: Result<(String, usize), DistError>)
    requires
        i <= b@.len(),
    ensures
        match r {
            Ok(t) => {
                &&& crate::theory::wire::text_end(b@, i as int) == Ok::<int, Refusal>(t.1 as int)
                &&& t.0@ == vstd::utf8::decode_utf8(b@.subrange(i + 4, t.1 as int))
                &&& i + 4 <= t.1 <= b@.len()
            },
            Err(e) => crate::theory::wire::text_end(b@, i as int) is Err && e@ == refusal_text(
                crate::theory::wire::text_end(b@, i as int)->Err_0,
            ),
        },
{
    let n: usize = b.len();
    if n - i < 4 {
        return Err(err("truncated control frame"));
    }
    proof {
        crate::theory::wire::lemma_range();
    }
    let len: u64 = read_le(b, i, 4);
    if ((n - i - 4) as u64) < len {
        return Err(err("truncated control frame"));
    }
    let at: usize = i + 4 + len as usize;
    match utf8_text(copied(b, i + 4, at)) {
        None => Err(err("member name is not utf-8")),
        Some(t) => Ok((t, at)),
    }
}

// ----- rectangles -----

/// A rectangle of parameters and the member that holds it.
#[derive(Clone, Copy, Debug, PartialEq, Eq, Structural)]
pub struct Rect {
    pub home: usize,
    pub offset: u64,
    pub row_begin: u64,
    pub row_end: u64,
    pub col_begin: u64,
    pub col_end: u64,
    pub stride: u64,
}

impl View for Rect {
    type V = Patch;

    open spec fn view(&self) -> Patch {
        Patch {
            home: self.home as int,
            offset: self.offset as int,
            row_begin: self.row_begin as int,
            row_end: self.row_end as int,
            col_begin: self.col_begin as int,
            col_end: self.col_end as int,
            stride: self.stride as int,
        }
    }
}

/// The rectangle of a hop.
pub open spec fn hop_patch(h: Leg) -> Patch {
    Patch {
        home: 0,
        offset: h.offset,
        row_begin: h.row_begin,
        row_end: h.row_end,
        col_begin: h.col_begin,
        col_end: h.col_end,
        stride: h.stride,
    }
}

/// The rectangle of a window.
pub open spec fn window_patch(w: Win) -> Patch {
    Patch {
        home: w.home,
        offset: w.offset,
        row_begin: w.row_begin,
        row_end: w.row_end,
        col_begin: w.col_begin,
        col_end: w.col_end,
        stride: w.dout,
    }
}

proof fn lemma_index_bound(p: Patch, row: int, col: int)
    requires
        p.addressable(),
        0 <= p.offset,
        0 <= p.stride,
        0 <= p.row_begin <= row < p.row_end,
        0 <= p.col_begin <= col < p.col_end,
    ensures
        0 <= row * p.stride,
        0 <= p.index(row, col) <= u64::MAX,
{
    let last = p.row_end - 1;
    let st = p.stride;
    assert(0 <= row * st <= last * st) by (nonlinear_arith)
        requires 0 <= row <= last, 0 <= st;
}

/// The parameters of a rectangle, row by row.
pub fn rect_indices(offset: u64, row_begin: u64, row_end: u64, col_begin: u64, col_end: u64, stride: u64) -> (r: Vec<u64>)
    requires
        (Patch {
            home: 0,
            offset: offset as int,
            row_begin: row_begin as int,
            row_end: row_end as int,
            col_begin: col_begin as int,
            col_end: col_end as int,
            stride: stride as int,
        }).addressable(),
    ensures
        numbers(r@) == (Patch {
            home: 0,
            offset: offset as int,
            row_begin: row_begin as int,
            row_end: row_end as int,
            col_begin: col_begin as int,
            col_end: col_end as int,
            stride: stride as int,
        }).indices(),
{
    let ghost p = Patch {
        home: 0,
        offset: offset as int,
        row_begin: row_begin as int,
        row_end: row_end as int,
        col_begin: col_begin as int,
        col_end: col_end as int,
        stride: stride as int,
    };
    let mut out: Vec<u64> = Vec::new();
    if row_begin >= row_end {
        assert(numbers(out@) =~= p.indices());
        return out;
    }
    let mut row: u64 = row_begin;
    assert(numbers(out@) =~= p.rows(row as int));
    while row < row_end
        invariant
            row_begin <= row <= row_end,
            p.addressable(),
            p == (Patch {
                home: 0,
                offset: offset as int,
                row_begin: row_begin as int,
                row_end: row_end as int,
                col_begin: col_begin as int,
                col_end: col_end as int,
                stride: stride as int,
            }),
            numbers(out@) == p.rows(row as int),
        decreases row_end - row,
    {
        let ghost before = out@;
        let mut col: u64 = col_begin;
        assert(numbers(out@) =~= numbers(before) + p.cells(row as int, col as int));
        while col < col_end
            invariant
                row_begin <= row < row_end,
                col_begin <= col,
                col_begin < col_end ==> col <= col_end,
                col_begin >= col_end ==> col == col_begin,
                p.addressable(),
                p == (Patch {
                    home: 0,
                    offset: offset as int,
                    row_begin: row_begin as int,
                    row_end: row_end as int,
                    col_begin: col_begin as int,
                    col_end: col_end as int,
                    stride: stride as int,
                }),
                numbers(out@) == numbers(before) + p.cells(row as int, col as int),
            decreases col_end - col,
        {
            proof {
                lemma_index_bound(p, row as int, col as int);
            }
            let ghost now = out@;
            out.push(offset + row * stride + col);
            proof {
                assert(numbers(out@) =~= numbers(now).push(p.index(row as int, col as int)));
                assert(p.cells(row as int, col + 1) =~= p.cells(row as int, col as int).push(p.index(row as int, col as int)));
                assert(numbers(out@) =~= numbers(before) + p.cells(row as int, col + 1));
            }
            col = col + 1;
        }
        assert(p.cells(row as int, col as int) =~= p.cells(row as int, col_end as int));
        assert(numbers(out@) =~= p.rows(row + 1));
        row = row + 1;
    }
    out
}

/// The indices of a rectangle do not depend on who holds it.
proof fn lemma_same_indices(p: Patch, home: int, row: int)
    ensures
        (Patch { home, ..p }).rows(row) == p.rows(row),
    decreases row - p.row_begin,
{
    let q = Patch { home, ..p };
    if row > p.row_begin {
        lemma_same_indices(p, home, row - 1);
        assert(q.cells(row - 1, q.col_end) =~= p.cells(row - 1, p.col_end));
    }
}

impl Rect {
    /// Whether each index of the rectangle is a number that a word holds.
    pub fn addressable(&self) -> (r: bool)
        ensures
            r == self@.addressable(),
    {
        if self.row_begin >= self.row_end || self.col_begin >= self.col_end {
            return true;
        }
        let last: u64 = self.row_end - 1;
        proof {
            let m = u64::MAX as int;
            assert(0 <= last * self.stride <= m * m) by (nonlinear_arith)
                requires 0 <= last <= m, 0 <= self.stride <= m, m == u64::MAX;
            assert(m * m + m + m <= u128::MAX) by (nonlinear_arith)
                requires m == u64::MAX;
        }
        let top: u128 = last as u128 * self.stride as u128;
        self.offset as u128 + top + (self.col_end - 1) as u128 <= u64::MAX as u128
    }

    pub fn indices(&self) -> (r: Vec<u64>)
        requires
            self@.addressable(),
        ensures
            numbers(r@) == self@.indices(),
    {
        proof {
            lemma_same_indices(self@, 0, self@.row_end);
        }
        rect_indices(self.offset, self.row_begin, self.row_end, self.col_begin, self.col_end, self.stride)
    }

    fn push(&self, body: &mut Vec<u8>)
        requires
            self@.carried(),
        ensures
            final(body)@ == old(body)@ + self@.bytes(),
    {
        let ghost start = body@;
        proof {
            crate::theory::wire::lemma_range();
        }
        push_le(body, self.home as u64, 4);
        let ns: Vec<u64> = vec![self.offset, self.row_begin, self.row_end, self.col_begin, self.col_end, self.stride];
        assert(numbers(ns@) =~= self@.numbers());
        push_nums(body, &ns, 8);
        assert(body@ =~= start + self@.bytes());
    }
}

/// The rectangle that bytes carry.
pub fn read_rect(b: &[u8]) -> (r: Result<Rect, DistError>)
    ensures
        match r {
            Ok(rect) => b@.len() >= 52 && rect@ == Patch::read(b@),
            Err(e) => b@.len() < 52 && e@ == refusal_text(Refusal::Truncated),
        },
{
    if b.len() < 52 {
        return Err(err("truncated control frame"));
    }
    proof {
        crate::theory::wire::lemma_range();
    }
    Ok(
        Rect {
            home: read_le(b, 0, 4) as usize,
            offset: read_le(b, 4, 8),
            row_begin: read_le(b, 12, 8),
            row_end: read_le(b, 20, 8),
            col_begin: read_le(b, 28, 8),
            col_end: read_le(b, 36, 8),
            stride: read_le(b, 44, 8),
        },
    )
}

// ----- messages of the coordinator -----

/// How a member introduces itself.
pub fn hello(device: &Device, port: u16) -> (r: Vec<u8>)
    requires
        vstd::utf8::encode_utf8(device.name@).len() < crate::theory::wire::range(4),
    ensures
        r@ == seq![HELLO] + crate::theory::wire::hello_bytes(device@, port as int),
{
    let mut body: Vec<u8> = vec![HELLO];
    push_text(&mut body, &device.name);
    let kind: u8 = match device.kind {
        DeviceKind::Cpu => 0,
        DeviceKind::Gpu => 1,
    };
    body.push(kind);
    proof {
        crate::theory::wire::lemma_range();
    }
    let ns: Vec<u64> = vec![device.buffer_bytes, device.code_bytes];
    assert(numbers(ns@) =~= seq![device@.buffer, device@.code]);
    push_nums(&mut body, &ns, 8);
    push_le(&mut body, port as u64, 2);
    assert(body@ =~= seq![HELLO] + crate::theory::wire::hello_bytes(device@, port as int));
    body
}

/// What a coordinator reads of an introduction.
#[derive(Clone, Debug, PartialEq, Eq)]
pub struct Hello {
    pub name: String,
    pub kind: u8,
    pub buffer: u64,
    pub code: u64,
    pub port: u16,
}

impl View for Hello {
    type V = Intro;

    open spec fn view(&self) -> Intro {
        Intro {
            name: self.name@,
            kind: self.kind as int,
            buffer: self.buffer as int,
            code: self.code as int,
            port: self.port as int,
        }
    }
}

/// The introduction in a frame.
pub open spec fn intro_of(frame: Seq<u8>) -> Result<Intro, Seq<char>> {
    if frame.len() == 0 || frame[0] != HELLO {
        Err("expected hello"@)
    } else {
        match crate::theory::wire::read_intro(frame.subrange(1, frame.len() as int)) {
            Ok(i) => Ok(i),
            Err(e) => Err(refusal_text(e)),
        }
    }
}

pub fn read_hello(frame: &Vec<u8>) -> (r: Result<Hello, DistError>)
    ensures
        intro_of(frame@) == match r {
            Ok(h) => Ok::<Intro, Seq<char>>(h@),
            Err(e) => Err::<Intro, Seq<char>>(e@),
        },
{
    if frame.len() == 0 || frame[0] != HELLO {
        return Err(err("expected hello"));
    }
    let b: &[u8] = vstd::slice::slice_subrange(frame.as_slice(), 1, frame.len());
    let (name, at) = match read_text(b, 0) {
        Ok(t) => t,
        Err(e) => {
            return Err(e);
        },
    };
    if b.len() - at < 19 {
        return Err(err("truncated control frame"));
    }
    proof {
        crate::theory::wire::lemma_range();
    }
    let h = Hello {
        name,
        kind: b[at],
        buffer: read_le(b, at + 1, 8),
        code: read_le(b, at + 9, 8),
        port: read_le(b, at + 17, 2) as u16,
    };
    Ok(h)
}

pub open spec fn port_numbers(s: Seq<u16>) -> Seq<int> {
    Seq::new(s.len(), |i: int| s[i] as int)
}

/// The welcome of a coordinator.
pub fn welcome(rank: u32, ports: &Vec<u16>) -> (r: Vec<u8>)
    requires
        ports@.len() < crate::theory::wire::range(4),
    ensures
        r@ == seq![WELCOME] + crate::theory::wire::welcome_bytes(rank as int, port_numbers(ports@)),
{
    let mut body: Vec<u8> = vec![WELCOME];
    proof {
        crate::theory::wire::lemma_range();
    }
    let head: Vec<u64> = vec![rank as u64, ports.len() as u64];
    assert(numbers(head@) =~= seq![rank as int, ports@.len() as int]);
    push_nums(&mut body, &head, 4);
    let mut ns: Vec<u64> = Vec::new();
    let mut i: usize = 0;
    while i < ports.len()
        invariant
            i <= ports@.len(),
            ns@.len() == i,
            forall|k: int| 0 <= k < i ==> #[trigger] ns@[k] == ports@[k],
        decreases ports.len() - i,
    {
        ns.push(ports[i] as u64);
        i = i + 1;
    }
    assert(numbers(ns@) =~= port_numbers(ports@));
    push_nums(&mut body, &ns, 2);
    assert(body@ =~= seq![WELCOME] + crate::theory::wire::welcome_bytes(rank as int, port_numbers(ports@)));
    body
}

/// The rank and the ports in a frame.
pub open spec fn ports_of(frame: Seq<u8>) -> Result<(int, Seq<int>), Seq<char>> {
    if frame.len() == 0 || frame[0] != WELCOME {
        Err("expected welcome"@)
    } else {
        match crate::theory::wire::read_ports(frame.subrange(1, frame.len() as int)) {
            Some(p) => Ok(p),
            None => Err(refusal_text(Refusal::Truncated)),
        }
    }
}

pub fn read_welcome(frame: &Vec<u8>) -> (r: Result<(u32, Vec<u16>), DistError>)
    ensures
        ports_of(frame@) == match r {
            Ok(w) => Ok::<(int, Seq<int>), Seq<char>>((w.0 as int, port_numbers(w.1@))),
            Err(e) => Err::<(int, Seq<int>), Seq<char>>(e@),
        },
{
    if frame.len() == 0 || frame[0] != WELCOME {
        return Err(err("expected welcome"));
    }
    let b: &[u8] = vstd::slice::slice_subrange(frame.as_slice(), 1, frame.len());
    let size: usize = b.len();
    if size < 8 {
        return Err(err("truncated control frame"));
    }
    proof {
        crate::theory::wire::lemma_range();
    }
    let rank: u32 = read_le(b, 0, 4) as u32;
    let n: u64 = read_le(b, 4, 4);
    if ((size - 8) as u64) < n * 2 {
        return Err(err("truncated control frame"));
    }
    let mut ports: Vec<u16> = Vec::new();
    let mut i: usize = 0;
    while (i as u64) < n
        invariant
            size == b@.len(),
            i <= n,
            8 + n * 2 <= size,
            ports@.len() == i,
            forall|k: int| 0 <= k < i ==> #[trigger] ports@[k] == crate::theory::wire::word(b@, 8 + k * 2, 2),
        decreases n - i,
    {
        proof {
            crate::theory::wire::lemma_range();
        }
        ports.push(read_le(b, 8 + i * 2, 2) as u16);
        i = i + 1;
    }
    assert(port_numbers(ports@) =~= Seq::new(n as nat, |i: int| crate::theory::wire::word(b@, 8 + i * 2, 2)));
    Ok((rank, ports))
}

/// The order to keep a tile of parameters.
pub fn put(rect: &Rect, tile: &Vec<u8>) -> (r: Vec<u8>)
    requires
        rect@.carried(),
    ensures
        r@ == seq![PUT] + rect@.bytes() + tile@,
{
    let mut body: Vec<u8> = vec![PUT];
    rect.push(&mut body);
    push_bytes(&mut body, tile.as_slice());
    assert(body@ =~= seq![PUT] + rect@.bytes() + tile@);
    body
}

/// The order to hand a rectangle of parameters (0) or adjoints (1) back.
pub fn get(rect: &Rect, which: u8) -> (r: Vec<u8>)
    requires
        rect@.carried(),
    ensures
        r@ == seq![GET, which] + rect@.bytes(),
{
    let mut body: Vec<u8> = vec![GET, which];
    rect.push(&mut body);
    assert(body@ =~= seq![GET, which] + rect@.bytes());
    body
}

fn push_hop(body: &mut Vec<u8>, hop: &Hop)
    requires
        crate::theory::wire::hop_carried(hop@),
    ensures
        final(body)@ == old(body)@ + crate::theory::wire::hop_bytes(hop@),
{
    let ghost start = body@;
    proof {
        crate::theory::wire::lemma_range();
    }
    let ends: Vec<u64> = vec![hop.from as u64, hop.to as u64];
    assert(numbers(ends@) =~= seq![hop@.from, hop@.to]);
    push_nums(body, &ends, 4);
    body.push(hop.kind.code());
    let ns: Vec<u64> = vec![
        hop.bytes,
        hop.offset,
        hop.elems,
        hop.row_begin,
        hop.row_end,
        hop.col_begin,
        hop.col_end,
        hop.stride,
    ];
    assert(numbers(ns@) =~= crate::theory::wire::hop_numbers(hop@));
    push_nums(body, &ns, 8);
    assert(body@ =~= start + crate::theory::wire::hop_bytes(hop@));
}

/// The order to send a tile along a hop, or to receive it.
fn transfer(tag: u8, step: u32, other: usize, hop: &Hop) -> (r: Vec<u8>)
    requires
        crate::theory::wire::hop_carried(hop@),
        other < crate::theory::wire::range(4),
    ensures
        r@ == seq![tag] + crate::theory::wire::transfer_bytes(step as int, other as int, hop@),
{
    let mut body: Vec<u8> = vec![tag];
    proof {
        crate::theory::wire::lemma_range();
    }
    let head: Vec<u64> = vec![step as u64, other as u64];
    assert(numbers(head@) =~= seq![step as int, other as int]);
    push_nums(&mut body, &head, 4);
    push_hop(&mut body, hop);
    assert(body@ =~= seq![tag] + crate::theory::wire::transfer_bytes(step as int, other as int, hop@));
    body
}

/// The order to send the tile of a hop to the member at its end.
pub fn send(step: u32, hop: &Hop) -> (r: Vec<u8>)
    requires
        crate::theory::wire::hop_carried(hop@),
    ensures
        r@ == seq![SEND] + crate::theory::wire::transfer_bytes(step as int, hop.to as int, hop@),
{
    transfer(SEND, step, hop.to, hop)
}

/// The order to receive the tile of a hop from the member at its start.
pub fn recv(step: u32, hop: &Hop) -> (r: Vec<u8>)
    requires
        crate::theory::wire::hop_carried(hop@),
    ensures
        r@ == seq![RECV] + crate::theory::wire::transfer_bytes(step as int, hop.from as int, hop@),
{
    transfer(RECV, step, hop.from, hop)
}

/// The order to run a window.
pub fn compute(step: u32, w: &Window) -> (r: Vec<u8>)
    requires
        crate::theory::wire::window_carried(w@),
    ensures
        r@ == seq![COMPUTE] + (crate::theory::wire::le(step as int, 4) + crate::theory::wire::window_bytes(w@)),
{
    let mut body: Vec<u8> = vec![COMPUTE];
    proof {
        crate::theory::wire::lemma_range();
    }
    push_le(&mut body, step as u64, 4);
    push_text(&mut body, &w.name);
    body.push(w.op.code());
    let pass: u8 = match w.pass {
        Pass::Fwd => 0,
        Pass::Bwd => 1,
    };
    body.push(pass);
    let small: Vec<u64> = vec![w.device as u64, w.home as u64, w.layer as u64, w.expert as u64];
    assert(numbers(small@) =~= crate::theory::wire::window_small(w@));
    assert forall|i: int| 0 <= i < small@.len() implies (#[trigger] small@[i]) < crate::theory::wire::range(4) by {
        assert(crate::theory::wire::window_small(w@)[i] == small@[i]);
    }
    push_nums(&mut body, &small, 4);
    let large: Vec<u64> = vec![
        w.param_offset,
        w.param_bytes,
        w.tape_bytes,
        w.din,
        w.dout,
        w.batch_begin,
        w.batch_end,
        w.row_begin,
        w.row_end,
        w.col_begin,
        w.col_end,
    ];
    assert(numbers(large@) =~= crate::theory::wire::window_large(w@));
    push_nums(&mut body, &large, 8);
    assert(body@ =~= seq![COMPUTE] + (crate::theory::wire::le(step as int, 4) + crate::theory::wire::window_bytes(w@)));
    body
}

/// A frame that is only a tag.
pub fn tag_frame(tag: u8) -> (r: Vec<u8>)
    ensures
        r@ == seq![tag],
{
    let r: Vec<u8> = vec![tag];
    assert(r@ =~= seq![tag]);
    r
}

/// The bytes that carry the length of a frame.
pub fn frame_length(payload: &Vec<u8>) -> (r: Result<Vec<u8>, DistError>)
    ensures
        match r {
            Ok(b) => payload@.len() <= u32::MAX && b@ == crate::theory::wire::le(payload@.len() as int, 4),
            Err(e) => payload@.len() > u32::MAX && e@ == "frame is too large"@,
        },
{
    if payload.len() as u64 > u32::MAX as u64 {
        return Err(err("frame is too large"));
    }
    proof {
        crate::theory::wire::lemma_range();
    }
    let mut b: Vec<u8> = Vec::new();
    push_le(&mut b, payload.len() as u64, 4);
    assert(b@ =~= crate::theory::wire::le(payload@.len() as int, 4));
    Ok(b)
}

/// The tag of a frame.
pub fn read_tag(frame: &Vec<u8>) -> (r: Result<u8, DistError>)
    ensures
        match r {
            Ok(t) => frame@.len() > 0 && t == frame@[0],
            Err(e) => frame@.len() == 0 && e@ == "empty tag"@,
        },
{
    if frame.len() == 0 {
        Err(err("empty tag"))
    } else {
        Ok(frame[0])
    }
}


// ----- stores -----

/// Parameter and adjoint words held by one member, plus the activation
/// tensor carried by the last activation hop.
#[derive(Clone, Debug)]
pub struct Store {
    params: HashMap<u64, u32>,
    adjoint: HashMap<u64, u32>,
    activation: Vec<u32>,
}

/// What a member holds.
#[verifier::ext_equal]
pub struct Held {
    pub params: Map<u64, u32>,
    pub adjoint: Map<u64, u32>,
    pub activation: Seq<u32>,
}

impl View for Store {
    type V = Held;

    closed spec fn view(&self) -> Held {
        Held { params: self.params@, adjoint: self.adjoint@, activation: self.activation@ }
    }
}

/// The word at an index: zero where nothing was kept.
pub open spec fn value(m: Map<u64, u32>, i: int) -> u32 {
    if m.contains_key(i as u64) {
        m[i as u64]
    } else {
        0
    }
}

/// The words at a list of indices.
pub open spec fn gathered(m: Map<u64, u32>, idx: Seq<int>) -> Seq<u32> {
    Seq::new(idx.len(), |k: int| value(m, idx[k]))
}

/// The first `n` words kept at their indices, in order.
pub open spec fn written(m: Map<u64, u32>, idx: Seq<int>, ws: Seq<u32>, n: int) -> Map<u64, u32>
    decreases n,
{
    if n <= 0 {
        m
    } else {
        written(m, idx, ws, n - 1).insert(idx[n - 1] as u64, ws[n - 1])
    }
}

impl Held {
    pub open spec fn empty() -> Held {
        Held { params: Map::empty(), adjoint: Map::empty(), activation: Seq::empty() }
    }

    /// The words that a hop carries away.
    pub open spec fn hop_words(self, h: Leg) -> Seq<u32> {
        match h.kind {
            HopKind::Activation => Seq::new(
                h.elems as nat,
                |i: int|
                    if i < self.activation.len() {
                        self.activation[i]
                    } else {
                        0
                    },
            ),
            HopKind::Adjoint => gathered(self.adjoint, hop_patch(h).indices()),
            HopKind::Param => gathered(self.params, hop_patch(h).indices()),
        }
    }

    /// The store after the tile of a hop came, or why it is refused.
    pub open spec fn received(self, h: Leg, b: Seq<u8>) -> Result<Held, Seq<char>> {
        let ws = crate::theory::wire::tile_words(b);
        let idx = hop_patch(h).indices();
        if b.len() % 4 != 0 {
            Err("tile byte length is not a multiple of 4"@)
        } else if h.kind == HopKind::Activation {
            if ws.len() != h.elems {
                Err("activation tile has the wrong length"@)
            } else {
                Ok(Held { activation: ws, ..self })
            }
        } else if ws.len() != idx.len() {
            Err("tile has the wrong length"@)
        } else if h.kind == HopKind::Adjoint {
            Ok(Held { adjoint: written(self.adjoint, idx, ws, ws.len() as int), ..self })
        } else {
            Ok(Held { params: written(self.params, idx, ws, ws.len() as int), ..self })
        }
    }

    /// The store after a tile of parameters was put, or why it is refused.
    pub open spec fn filled(self, p: Patch, b: Seq<u8>) -> Result<Held, Seq<char>> {
        let ws = crate::theory::wire::tile_words(b);
        let idx = p.indices();
        if b.len() % 4 != 0 {
            Err("tile byte length is not a multiple of 4"@)
        } else if ws.len() != idx.len() {
            Err("parameter tile has the wrong length"@)
        } else {
            Ok(Held { params: written(self.params, idx, ws, ws.len() as int), ..self })
        }
    }

    /// The words of a rectangle: adjoints for 1, and parameters otherwise.
    pub open spec fn patch_words(self, p: Patch, which: int) -> Seq<u32> {
        gathered(
            if which == 1 {
                self.adjoint
            } else {
                self.params
            },
            p.indices(),
        )
    }
}

/// Words that agree with a function of their indices are found there again,
/// and nothing else changes.
proof fn lemma_written(m: Map<u64, u32>, idx: Seq<int>, ws: Seq<u32>, n: int, f: spec_fn(int) -> u32, i: int)
    requires
        0 <= n <= idx.len(),
        n <= ws.len(),
        0 <= i <= u64::MAX,
        forall|k: int| 0 <= k < n ==> 0 <= #[trigger] idx[k] <= u64::MAX,
        forall|k: int| 0 <= k < n ==> #[trigger] ws[k] == f(idx[k]),
    ensures
        value(written(m, idx, ws, n), i) == if exists|k: int| 0 <= k < n && #[trigger] idx[k] == i {
            f(i)
        } else {
            value(m, i)
        },
    decreases n,
{
    if n > 0 {
        lemma_written(m, idx, ws, n - 1, f, i);
        assert(ws[n - 1] == f(idx[n - 1]));
        assert(0 <= idx[n - 1] <= u64::MAX);
        if idx[n - 1] == i {
            assert(exists|k: int| 0 <= k < n && #[trigger] idx[k] == i);
        } else if exists|k: int| 0 <= k < n - 1 && #[trigger] idx[k] == i {
            let k = choose|k: int| 0 <= k < n - 1 && #[trigger] idx[k] == i;
            assert(idx[k] == i);
        }
    }
}

/// The indices of a rectangle whose corners are words are words.
proof fn lemma_indices_words(p: Patch, row: int)
    requires
        p.addressable(),
        0 <= p.offset,
        0 <= p.stride,
        0 <= p.row_begin,
        row <= p.row_end,
        0 <= p.col_begin,
    ensures
        forall|k: int| 0 <= k < p.rows(row).len() ==> 0 <= #[trigger] p.rows(row)[k] <= u64::MAX,
    decreases row - p.row_begin,
{
    if row > p.row_begin {
        lemma_indices_words(p, row - 1);
        let cells = p.cells(row - 1, p.col_end);
        assert forall|k: int| 0 <= k < p.rows(row).len() implies 0 <= #[trigger] p.rows(row)[k] <= u64::MAX by {
            let n = p.rows(row - 1).len() as int;
            if k < n {
                assert(p.rows(row)[k] == p.rows(row - 1)[k]);
            } else {
                assert(p.rows(row)[k] == cells[k - n]);
                lemma_index_bound(p, row - 1, p.col_begin + (k - n));
            }
        }
    }
}

/// A tile of parameters or adjoints that goes along a hop is found at its
/// other end: there each index of the rectangle has the word that it had at
/// the start, and every other index keeps its word.
pub proof fn law_hop_carries(from: Held, to: Held, h: Leg, i: int)
    requires
        h.kind != HopKind::Activation,
        hop_patch(h).addressable(),
        0 <= h.offset,
        0 <= h.stride,
        0 <= h.row_begin,
        0 <= h.col_begin,
        0 <= i <= u64::MAX,
    ensures
        to.received(h, crate::theory::wire::tile_bytes(from.hop_words(h))) matches Ok(t) && {
            let idx = hop_patch(h).indices();
            let source = if h.kind == HopKind::Adjoint {
                from.adjoint
            } else {
                from.params
            };
            let before = if h.kind == HopKind::Adjoint {
                to.adjoint
            } else {
                to.params
            };
            let after = if h.kind == HopKind::Adjoint {
                t.adjoint
            } else {
                t.params
            };
            value(after, i) == if exists|k: int| 0 <= k < idx.len() && #[trigger] idx[k] == i {
                value(source, i)
            } else {
                value(before, i)
            }
        },
{
    let ws = from.hop_words(h);
    let idx = hop_patch(h).indices();
    crate::theory::wire::law_tile_bytes(ws);
    lemma_indices_words(hop_patch(h), hop_patch(h).row_end);
    let source = if h.kind == HopKind::Adjoint {
        from.adjoint
    } else {
        from.params
    };
    let before = if h.kind == HopKind::Adjoint {
        to.adjoint
    } else {
        to.params
    };
    let f = |i: int| value(source, i);
    lemma_written(before, idx, ws, ws.len() as int, f, i);
}

/// The stores of the members after a hop.
pub open spec fn hopped(stores: Seq<Held>, h: Leg) -> Seq<Held> {
    match stores[h.to].received(h, crate::theory::wire::tile_bytes(stores[h.from].hop_words(h))) {
        Ok(t) => stores.update(h.to, t),
        Err(e) => stores,
    }
}

/// The stores of the members after the first `n` of some hops.
pub open spec fn hopped_all(stores: Seq<Held>, hs: Seq<Leg>, n: int) -> Seq<Held>
    decreases n,
{
    if n <= 0 {
        stores
    } else {
        hopped(hopped_all(stores, hs, n - 1), hs[n - 1])
    }
}

/// What a member holds of a kind at an index.
pub open spec fn held_at(s: Held, kind: HopKind, i: int) -> u32 {
    value(
        if kind == HopKind::Adjoint {
            s.adjoint
        } else {
            s.params
        },
        i,
    )
}

/// The rectangle that the messages of a window carry.
pub open spec fn sent_patch(w: Win) -> Patch {
    Patch { home: 0, ..window_patch(w) }
}

proof fn lemma_route_carries(stores: Seq<Held>, path: Seq<int>, kind: HopKind, w: Win, i: int, n: int)
    requires
        kind != HopKind::Activation,
        forall|k: int| 0 <= k < path.len() ==> 0 <= #[trigger] path[k] < stores.len(),
        0 <= w.offset,
        0 <= w.dout,
        0 <= w.row_begin,
        0 <= w.col_begin,
        sent_patch(w).addressable(),
        sent_patch(w).indices().contains(i),
        0 <= i <= u64::MAX,
        0 <= n < path.len(),
    ensures
        ({
            let after = hopped_all(stores, crate::theory::plans::legs(path, kind, w), n);
            &&& after.len() == stores.len()
            &&& held_at(after[path[n]], kind, i) == held_at(stores[path[0]], kind, i)
        }),
    decreases n,
{
    if n > 0 {
        lemma_route_carries(stores, path, kind, w, i, n - 1);
        let hs = crate::theory::plans::legs(path, kind, w);
        let before = hopped_all(stores, hs, n - 1);
        let h = hs[n - 1];
        assert(h.from == path[n - 1] && h.to == path[n]);
        assert(hop_patch(h) == sent_patch(w));
        let idx = hop_patch(h).indices();
        law_hop_carries(before[h.from], before[h.to], h, i);
        let k = choose|k: int| 0 <= k < idx.len() && idx[k] == i;
        assert(idx[k] == i);
        assert(hopped_all(stores, hs, n) == hopped(before, h));
    }
}

/// A tile of parameters or adjoints that goes along a path, hop after hop, is
/// found at its end as it was at its start.
pub proof fn law_route_carries(stores: Seq<Held>, path: Seq<int>, kind: HopKind, w: Win, i: int)
    requires
        kind != HopKind::Activation,
        path.len() >= 1,
        forall|k: int| 0 <= k < path.len() ==> 0 <= #[trigger] path[k] < stores.len(),
        0 <= w.offset,
        0 <= w.dout,
        0 <= w.row_begin,
        0 <= w.col_begin,
        sent_patch(w).addressable(),
        sent_patch(w).indices().contains(i),
        0 <= i <= u64::MAX,
    ensures
        ({
            let hs = crate::theory::plans::legs(path, kind, w);
            let after = hopped_all(stores, hs, hs.len() as int);
            held_at(after[path.last()], kind, i) == held_at(stores[path[0]], kind, i)
        }),
{
    lemma_route_carries(stores, path, kind, w, i, path.len() - 1);
}

/// An activation that goes along a hop is found at its other end.
pub proof fn law_hop_carries_activation(from: Held, to: Held, h: Leg)
    requires
        h.kind == HopKind::Activation,
        h.elems >= 0,
    ensures
        to.received(h, crate::theory::wire::tile_bytes(from.hop_words(h))) == Ok::<Held, Seq<char>>(
            (Held { activation: from.hop_words(h), ..to }),
        ),
        h.elems == from.activation.len() ==> from.hop_words(h) == from.activation,
{
    crate::theory::wire::law_tile_bytes(from.hop_words(h));
    if h.elems == from.activation.len() {
        assert(from.hop_words(h) =~= from.activation);
    }
}

/// What was put into a rectangle is what is got from it, where the words
/// agree wherever two places of the rectangle are one parameter.
pub proof fn law_put_then_get(s: Held, p: Patch, ws: Seq<u32>, f: spec_fn(int) -> u32)
    requires
        p.addressable(),
        0 <= p.offset,
        0 <= p.stride,
        0 <= p.row_begin,
        0 <= p.col_begin,
        ws.len() == p.indices().len(),
        forall|k: int| 0 <= k < ws.len() ==> #[trigger] ws[k] == f(p.indices()[k]),
    ensures
        s.filled(p, crate::theory::wire::tile_bytes(ws)) matches Ok(t) && t.patch_words(p, 0) == ws,
{
    let idx = p.indices();
    crate::theory::wire::law_tile_bytes(ws);
    lemma_indices_words(p, p.row_end);
    let t = s.filled(p, crate::theory::wire::tile_bytes(ws))->Ok_0;
    assert forall|k: int| 0 <= k < ws.len() implies #[trigger] t.patch_words(p, 0)[k] == ws[k] by {
        lemma_written(s.params, idx, ws, ws.len() as int, f, idx[k]);
    }
    assert(t.patch_words(p, 0) =~= ws);
}

/// The words in the bytes of a tile.
pub fn words_from(b: &[u8]) -> (r: Result<Vec<u32>, DistError>)
    ensures
        match r {
            Ok(ws) => b@.len() % 4 == 0 && ws@ == crate::theory::wire::tile_words(b@),
            Err(e) => b@.len() % 4 != 0 && e@ == "tile byte length is not a multiple of 4"@,
        },
{
    let size: usize = b.len();
    if size % 4 != 0 {
        return Err(err("tile byte length is not a multiple of 4"));
    }
    let n: usize = size / 4;
    let mut ws: Vec<u32> = Vec::new();
    let mut i: usize = 0;
    while i < n
        invariant
            i <= n,
            n * 4 == size,
            size == b@.len(),
            ws@.len() == i,
            forall|k: int| 0 <= k < i ==> #[trigger] ws@[k] == crate::theory::wire::tile_words(b@)[k],
        decreases n - i,
    {
        proof {
            crate::theory::wire::lemma_range();
        }
        ws.push(read_le(b, i * 4, 4) as u32);
        i = i + 1;
    }
    assert(ws@ =~= crate::theory::wire::tile_words(b@));
    Ok(ws)
}

/// The bytes of a tile.
pub fn bytes_of(ws: &Vec<u32>) -> (r: Vec<u8>)
    ensures
        r@ == crate::theory::wire::tile_bytes(ws@),
{
    let ghost all = Seq::new(ws@.len(), |i: int| ws@[i] as int);
    let mut body: Vec<u8> = Vec::new();
    let mut i: usize = 0;
    assert(body@ =~= crate::theory::wire::nums(all.take(0), 4));
    while i < ws.len()
        invariant
            i <= ws@.len(),
            all == Seq::new(ws@.len(), |i: int| ws@[i] as int),
            body@ == crate::theory::wire::nums(all.take(i as int), 4),
        decreases ws.len() - i,
    {
        proof {
            crate::theory::wire::lemma_range();
            let t = all.take(i + 1);
            assert(t.drop_last() =~= all.take(i as int));
            assert(t.last() == ws@[i as int]);
        }
        push_le(&mut body, ws[i] as u64, 4);
        i = i + 1;
    }
    assert(all.take(i as int) =~= all);
    body
}

fn look_up(m: &HashMap<u64, u32>, i: u64) -> (r: u32)
    ensures
        r == value(m@, i as int),
{
    match m.get(&i) {
        Some(v) => *v,
        None => 0,
    }
}

fn gather(m: &HashMap<u64, u32>, idx: &Vec<u64>) -> (r: Vec<u32>)
    ensures
        r@ == gathered(m@, numbers(idx@)),
{
    let mut r: Vec<u32> = Vec::new();
    let mut i: usize = 0;
    while i < idx.len()
        invariant
            i <= idx@.len(),
            r@.len() == i,
            forall|k: int| 0 <= k < i ==> #[trigger] r@[k] == value(m@, idx@[k] as int),
        decreases idx.len() - i,
    {
        r.push(look_up(m, idx[i]));
        i = i + 1;
    }
    assert(r@ =~= gathered(m@, numbers(idx@)));
    r
}

fn keep(m: &mut HashMap<u64, u32>, idx: &Vec<u64>, ws: &Vec<u32>)
    requires
        idx@.len() == ws@.len(),
    ensures
        final(m)@ == written(old(m)@, numbers(idx@), ws@, ws@.len() as int),
{
    let ghost start = m@;
    let mut i: usize = 0;
    while i < idx.len()
        invariant
            i <= idx@.len(),
            idx@.len() == ws@.len(),
            m@ == written(start, numbers(idx@), ws@, i as int),
        decreases idx.len() - i,
    {
        m.insert(idx[i], ws[i]);
        i = i + 1;
    }
}

impl Default for Store {
    fn default() -> (r: Store)
        ensures
            r@ == Held::empty(),
    {
        let r = Store { params: HashMap::new(), adjoint: HashMap::new(), activation: Vec::new() };
        assert(r@ =~= Held::empty());
        r
    }
}

impl Store {
    pub fn param(&self, index: u64) -> (r: u32)
        ensures
            r == value(self@.params, index as int),
    {
        look_up(&self.params, index)
    }

    pub fn adjoint(&self, index: u64) -> (r: u32)
        ensures
            r == value(self@.adjoint, index as int),
    {
        look_up(&self.adjoint, index)
    }

    pub fn set_param(&mut self, index: u64, word: u32)
        ensures
            final(self)@ == (Held { params: old(self)@.params.insert(index, word), ..old(self)@ }),
    {
        self.params.insert(index, word);
    }

    pub fn set_adjoint(&mut self, index: u64, word: u32)
        ensures
            final(self)@ == (Held { adjoint: old(self)@.adjoint.insert(index, word), ..old(self)@ }),
    {
        self.adjoint.insert(index, word);
    }

    /// Keep a tile of parameters.
    pub fn unpack_params(&mut self, rect: &Rect, b: &[u8]) -> (r: Result<(), DistError>)
        requires
            rect@.addressable(),
        ensures
            old(self)@.filled(rect@, b@) == match r {
                Ok(u) => Ok::<Held, Seq<char>>(final(self)@),
                Err(e) => Err::<Held, Seq<char>>(e@),
            },
            r is Err ==> final(self)@ == old(self)@,
    {
        let ws = match words_from(b) {
            Ok(ws) => ws,
            Err(e) => {
                return Err(e);
            },
        };
        let idx = rect.indices();
        assert(numbers(idx@).len() == idx@.len());
        if ws.len() != idx.len() {
            return Err(err("parameter tile has the wrong length"));
        }
        keep(&mut self.params, &idx, &ws);
        Ok(())
    }

    /// The tile of a rectangle: adjoints for 1, and parameters otherwise.
    pub fn pack_rect(&self, rect: &Rect, which: u8) -> (r: Vec<u8>)
        requires
            rect@.addressable(),
        ensures
            r@ == crate::theory::wire::tile_bytes(self@.patch_words(rect@, which as int)),
    {
        let idx = rect.indices();
        let ws = if which == 1 {
            gather(&self.adjoint, &idx)
        } else {
            gather(&self.params, &idx)
        };
        bytes_of(&ws)
    }

    /// The tile that a hop carries away.
    pub fn pack_hop(&self, hop: &Hop) -> (r: Vec<u8>)
        requires
            hop.kind != HopKind::Activation ==> hop_patch(hop@).addressable(),
        ensures
            r@ == crate::theory::wire::tile_bytes(self@.hop_words(hop@)),
    {
        if hop.kind == HopKind::Activation {
            let mut ws: Vec<u32> = Vec::new();
            let mut i: u64 = 0;
            while i < hop.elems
                invariant
                    i <= hop.elems,
                    ws@.len() == i,
                    hop.kind == HopKind::Activation,
                    forall|k: int| 0 <= k < i ==> #[trigger] ws@[k] == self@.hop_words(hop@)[k],
                decreases hop.elems - i,
            {
                let word: u32 = if i < self.activation.len() as u64 {
                    self.activation[i as usize]
                } else {
                    0
                };
                ws.push(word);
                i = i + 1;
            }
            assert(ws@ =~= self@.hop_words(hop@));
            return bytes_of(&ws);
        }
        let idx = rect_indices(hop.offset, hop.row_begin, hop.row_end, hop.col_begin, hop.col_end, hop.stride);
        let ws = if hop.kind == HopKind::Adjoint {
            gather(&self.adjoint, &idx)
        } else {
            gather(&self.params, &idx)
        };
        bytes_of(&ws)
    }

    /// Keep the tile that came along a hop.
    pub fn unpack_hop(&mut self, hop: &Hop, b: &[u8]) -> (r: Result<(), DistError>)
        requires
            hop.kind != HopKind::Activation ==> hop_patch(hop@).addressable(),
        ensures
            old(self)@.received(hop@, b@) == match r {
                Ok(u) => Ok::<Held, Seq<char>>(final(self)@),
                Err(e) => Err::<Held, Seq<char>>(e@),
            },
            r is Err ==> final(self)@ == old(self)@,
    {
        let ws = match words_from(b) {
            Ok(ws) => ws,
            Err(e) => {
                return Err(e);
            },
        };
        if hop.kind == HopKind::Activation {
            if ws.len() as u64 != hop.elems {
                return Err(err("activation tile has the wrong length"));
            }
            self.activation = ws;
            return Ok(());
        }
        let idx = rect_indices(hop.offset, hop.row_begin, hop.row_end, hop.col_begin, hop.col_end, hop.stride);
        assert(numbers(idx@).len() == idx@.len());
        if ws.len() != idx.len() {
            return Err(err("tile has the wrong length"));
        }
        if hop.kind == HopKind::Adjoint {
            keep(&mut self.adjoint, &idx, &ws);
        } else {
            keep(&mut self.params, &idx, &ws);
        }
        Ok(())
    }
}

// ----- the member -----

/// What a member does next.
#[derive(Clone, Debug)]
pub enum Duty {
    /// Answer the coordinator.
    Reply(Vec<u8>),
    /// Run a window, then acknowledge.
    Run(u32, Window),
    /// Send a tile frame to a peer, then acknowledge.
    Pass(usize, Vec<u8>),
    /// Say that it is ready, and wait for the tile of a step from a peer.
    Await(u32, usize, Hop),
    Finish,
}

pub enum Task {
    Reply { frame: Seq<u8> },
    Run { step: int, window: Win },
    Pass { to: int, frame: Seq<u8> },
    Await { step: int, from: int, hop: Leg },
    Finish,
}

impl View for Duty {
    type V = Task;

    open spec fn view(&self) -> Task {
        match *self {
            Duty::Reply(frame) => Task::Reply { frame: frame@ },
            Duty::Run(step, window) => Task::Run { step: step as int, window: window@ },
            Duty::Pass(to, frame) => Task::Pass { to: to as int, frame: frame@ },
            Duty::Await(step, from, hop) => Task::Await { step: step as int, from: from as int, hop: hop@ },
            Duty::Finish => Task::Finish,
        }
    }
}

/// The frame without its tag.
pub open spec fn body(frame: Seq<u8>) -> Seq<u8> {
    frame.subrange(1, frame.len() as int)
}

/// A control frame that a member can handle: an order to hand a rectangle
/// back says which, and the rectangles have indices that words hold.
pub open spec fn manageable(frame: Seq<u8>) -> bool {
    &&& frame.len() > 0 && frame[0] == GET ==> frame.len() >= 2
    &&& frame.len() >= 53 && frame[0] == PUT ==> Patch::read(body(frame)).addressable()
    &&& frame.len() >= 54 && frame[0] == GET ==> Patch::read(frame.subrange(2, frame.len() as int)).addressable()
    &&& frame.len() > 0 && frame[0] == SEND && crate::theory::wire::read_transfer(body(frame)) is Ok ==> {
        let h = crate::theory::wire::read_transfer(body(frame))->Ok_0.2;
        h.kind != HopKind::Activation ==> hop_patch(h).addressable()
    }
}

/// What a member makes of a control frame: what it holds afterwards, and what
/// it does next.
pub open spec fn on_frame(s: Held, frame: Seq<u8>) -> Result<(Held, Task), Seq<char>> {
    if frame.len() == 0 {
        Err("empty control frame"@)
    } else if frame[0] == PUT {
        if body(frame).len() < 52 {
            Err(refusal_text(Refusal::Truncated))
        } else {
            match s.filled(Patch::read(body(frame)), frame.subrange(53, frame.len() as int)) {
                Err(e) => Err(e),
                Ok(t) => Ok((t, Task::Reply { frame: seq![DONE] })),
            }
        }
    } else if frame[0] == GET {
        let b = frame.subrange(2, frame.len() as int);
        if b.len() < 52 {
            Err(refusal_text(Refusal::Truncated))
        } else {
            let ws = s.patch_words(Patch::read(b), frame[1] as int);
            Ok((s, Task::Reply { frame: seq![DATA] + crate::theory::wire::tile_bytes(ws) }))
        }
    } else if frame[0] == COMPUTE {
        match crate::theory::wire::read_order(body(frame)) {
            Err(e) => Err(refusal_text(e)),
            Ok(o) => Ok((s, Task::Run { step: o.0, window: o.1 })),
        }
    } else if frame[0] == SEND {
        match crate::theory::wire::read_transfer(body(frame)) {
            Err(e) => Err(refusal_text(e)),
            Ok(t) => Ok(
                (
                    s,
                    Task::Pass {
                        to: t.1,
                        frame: crate::theory::wire::le(t.0, 4) + crate::theory::wire::tile_bytes(s.hop_words(t.2)),
                    },
                ),
            ),
        }
    } else if frame[0] == RECV {
        match crate::theory::wire::read_transfer(body(frame)) {
            Err(e) => Err(refusal_text(e)),
            Ok(t) => Ok((s, Task::Await { step: t.0, from: t.1, hop: t.2 })),
        }
    } else if frame[0] == FINISH {
        Ok((s, Task::Finish))
    } else {
        Err(text::filled("unexpected control tag $a"@, seq![text::dec(frame[0] as int)]))
    }
}

fn read_transfer(b: &[u8]) -> (r: Result<(u32, usize, Hop), DistError>)
    ensures
        match r {
            Ok(t) => crate::theory::wire::read_transfer(b@) == Ok::<(int, int, Leg), Refusal>(
                (t.0 as int, t.1 as int, t.2@),
            ),
            Err(e) => crate::theory::wire::read_transfer(b@) is Err && e@ == refusal_text(
                crate::theory::wire::read_transfer(b@)->Err_0,
            ),
        },
{
    proof {
        crate::theory::wire::lemma_range();
    }
    if b.len() < 17 {
        return Err(err("truncated control frame"));
    }
    let kind = if b[16] == 0 {
        HopKind::Param
    } else if b[16] == 1 {
        HopKind::Adjoint
    } else if b[16] == 2 {
        HopKind::Activation
    } else {
        return Err(err_about("unknown hop kind $a", text::decimal(b[16] as u64)));
    };
    if b.len() < 81 {
        return Err(err("truncated control frame"));
    }
    let hop = Hop {
        from: read_le(b, 8, 4) as usize,
        to: read_le(b, 12, 4) as usize,
        bytes: read_le(b, 17, 8),
        kind,
        offset: read_le(b, 25, 8),
        elems: read_le(b, 33, 8),
        row_begin: read_le(b, 41, 8),
        row_end: read_le(b, 49, 8),
        col_begin: read_le(b, 57, 8),
        col_end: read_le(b, 65, 8),
        stride: read_le(b, 73, 8),
    };
    Ok((read_le(b, 0, 4) as u32, read_le(b, 4, 4) as usize, hop))
}

fn exec_from(n: u8) -> (r: Exec)
    requires
        1 <= n <= 13,
    ensures
        r == crate::theory::wire::op_of(n as int),
{
    match n {
        1 => Exec::Embed,
        2 => Exec::RmsNorm,
        3 => Exec::Linear,
        4 => Exec::RopeQ,
        5 => Exec::RopeK,
        6 => Exec::Gqa,
        7 => Exec::AddAttn,
        8 => Exec::AddMoe,
        9 => Exec::Router,
        10 => Exec::Silu,
        11 => Exec::Mix,
        12 => Exec::Loss,
        _ => Exec::Sgd,
    }
}

/// The step and the window of an order to compute.
fn read_window(b: &[u8]) -> (r: Result<(u32, Window), DistError>)
    ensures
        match r {
            Ok(o) => crate::theory::wire::read_order(b@) == Ok::<(int, Win), Refusal>((o.0 as int, o.1@)),
            Err(e) => crate::theory::wire::read_order(b@) is Err && e@ == refusal_text(
                crate::theory::wire::read_order(b@)->Err_0,
            ),
        },
{
    let n: usize = b.len();
    if n < 4 {
        return Err(err("truncated control frame"));
    }
    proof {
        crate::theory::wire::lemma_range();
    }
    let step: u32 = read_le(b, 0, 4) as u32;
    let (name, at) = match read_text(b, 4) {
        Ok(t) => t,
        Err(e) => {
            return Err(e);
        },
    };
    if n - at < 1 {
        return Err(err("truncated control frame"));
    }
    if !(b[at] >= 1 && b[at] <= 13) {
        return Err(err_about("unknown exec $a", text::decimal(b[at] as u64)));
    }
    if n - at < 106 {
        return Err(err("truncated control frame"));
    }
    let pass = if b[at + 1] == 0 {
        Pass::Fwd
    } else {
        Pass::Bwd
    };
    let window = Window {
        name,
        device: read_le(b, at + 2, 4) as usize,
        code_phases: Vec::new(),
        resident_bytes: 0,
        tape_bytes: read_le(b, at + 34, 8),
        param_bytes: read_le(b, at + 26, 8),
        pass,
        op: exec_from(b[at]),
        param_offset: read_le(b, at + 18, 8),
        batch_begin: read_le(b, at + 58, 8),
        batch_end: read_le(b, at + 66, 8),
        row_begin: read_le(b, at + 74, 8),
        row_end: read_le(b, at + 82, 8),
        col_begin: read_le(b, at + 90, 8),
        col_end: read_le(b, at + 98, 8),
        din: read_le(b, at + 42, 8),
        dout: read_le(b, at + 50, 8),
        home: read_le(b, at + 6, 4) as usize,
        layer: read_le(b, at + 10, 4) as u32,
        expert: read_le(b, at + 14, 4) as u32,
        inbound: Vec::new(),
        outbound: Vec::new(),
    };
    assert(window@ =~= crate::theory::wire::read_window(b@, 8, at as int));
    Ok((step, window))
}

/// Whether a member can handle a control frame.
pub fn can_handle(frame: &Vec<u8>) -> (r: bool)
    ensures
        r == manageable(frame@),
{
    let n: usize = frame.len();
    if n == 0 {
        return true;
    }
    if frame[0] == GET {
        if n < 2 {
            return false;
        }
        let b: &[u8] = vstd::slice::slice_subrange(frame.as_slice(), 2, n);
        return match read_rect(b) {
            Ok(rect) => rect.addressable(),
            Err(_) => true,
        };
    }
    let b: &[u8] = vstd::slice::slice_subrange(frame.as_slice(), 1, n);
    if frame[0] == PUT {
        return match read_rect(b) {
            Ok(rect) => rect.addressable(),
            Err(_) => true,
        };
    }
    if frame[0] == SEND {
        return match read_transfer(b) {
            Ok(t) => t.2.kind == HopKind::Activation || hop_rect(&t.2).addressable(),
            Err(_) => true,
        };
    }
    true
}

/// The rectangle of a hop.
pub fn hop_rect(hop: &Hop) -> (r: Rect)
    ensures
        r@ == hop_patch(hop@),
{
    Rect {
        home: 0,
        offset: hop.offset,
        row_begin: hop.row_begin,
        row_end: hop.row_end,
        col_begin: hop.col_begin,
        col_end: hop.col_end,
        stride: hop.stride,
    }
}

/// What a member does with a control frame.
pub fn handle(store: &mut Store, frame: &Vec<u8>) -> (r: Result<Duty, DistError>)
    requires
        manageable(frame@),
    ensures
        on_frame(old(store)@, frame@) == match r {
            Ok(d) => Ok::<(Held, Task), Seq<char>>((final(store)@, d@)),
            Err(e) => Err::<(Held, Task), Seq<char>>(e@),
        },
        r is Err ==> final(store)@ == old(store)@,
{
    let n: usize = frame.len();
    if n == 0 {
        return Err(err("empty control frame"));
    }
    let tag: u8 = frame[0];
    let b: &[u8] = vstd::slice::slice_subrange(frame.as_slice(), 1, n);
    assert(b@ == body(frame@));
    if tag == PUT {
        let rect = match read_rect(b) {
            Ok(r) => r,
            Err(e) => {
                return Err(e);
            },
        };
        let tile: &[u8] = vstd::slice::slice_subrange(frame.as_slice(), 53, n);
        return match store.unpack_params(&rect, tile) {
            Ok(_) => Ok(Duty::Reply(tag_frame(DONE))),
            Err(e) => Err(e),
        };
    }
    if tag == GET {
        let which: u8 = frame[1];
        let rest: &[u8] = vstd::slice::slice_subrange(frame.as_slice(), 2, n);
        let rect = match read_rect(rest) {
            Ok(r) => r,
            Err(e) => {
                return Err(e);
            },
        };
        let tile = store.pack_rect(&rect, which);
        let mut reply: Vec<u8> = vec![DATA];
        push_bytes(&mut reply, tile.as_slice());
        assert(reply@ =~= seq![DATA] + tile@);
        return Ok(Duty::Reply(reply));
    }
    if tag == COMPUTE {
        return match read_window(b) {
            Ok(o) => Ok(Duty::Run(o.0, o.1)),
            Err(e) => Err(e),
        };
    }
    if tag == SEND {
        return match read_transfer(b) {
            Ok(t) => {
                let tile = store.pack_hop(&t.2);
                Ok(Duty::Pass(t.1, tile_frame(t.0, &tile)))
            },
            Err(e) => Err(e),
        };
    }
    if tag == RECV {
        return match read_transfer(b) {
            Ok(t) => Ok(Duty::Await(t.0, t.1, t.2)),
            Err(e) => Err(e),
        };
    }
    if tag == FINISH {
        return Ok(Duty::Finish);
    }
    Err(err_about("unexpected control tag $a", text::decimal(tag as u64)))
}

/// A tile on a peer connection: its step, and its bytes.
pub fn tile_frame(step: u32, tile: &Vec<u8>) -> (r: Vec<u8>)
    ensures
        r@ == crate::theory::wire::le(step as int, 4) + tile@,
{
    let mut f: Vec<u8> = Vec::new();
    proof {
        crate::theory::wire::lemma_range();
    }
    push_le(&mut f, step as u64, 4);
    push_bytes(&mut f, tile.as_slice());
    assert(f@ =~= crate::theory::wire::le(step as int, 4) + tile@);
    f
}

/// What a member makes of the tile frame for which it waits.
pub open spec fn on_tile(s: Held, step: int, h: Leg, frame: Seq<u8>) -> Result<Held, Seq<char>> {
    if frame.len() < 4 {
        Err("short tile"@)
    } else if crate::theory::wire::word(frame, 0, 4) != step {
        Err("tile step id does not match the hop"@)
    } else {
        s.received(h, frame.subrange(4, frame.len() as int))
    }
}

/// Keep the tile for which the member waits.
pub fn accept_tile(store: &mut Store, step: u32, hop: &Hop, frame: &Vec<u8>) -> (r: Result<(), DistError>)
    requires
        hop.kind != HopKind::Activation ==> hop_patch(hop@).addressable(),
    ensures
        on_tile(old(store)@, step as int, hop@, frame@) == match r {
            Ok(u) => Ok::<Held, Seq<char>>(final(store)@),
            Err(e) => Err::<Held, Seq<char>>(e@),
        },
        r is Err ==> final(store)@ == old(store)@,
{
    if frame.len() < 4 {
        return Err(err("short tile"));
    }
    proof {
        crate::theory::wire::lemma_range();
    }
    let got: u64 = read_le(frame.as_slice(), 0, 4);
    if got != step as u64 {
        return Err(err("tile step id does not match the hop"));
    }
    let tile: &[u8] = vstd::slice::slice_subrange(frame.as_slice(), 4, frame.len());
    store.unpack_hop(hop, tile)
}

/// A tile that one member passes on an order and the other awaits on the
/// matching order is kept as if it had come along the hop directly.
pub proof fn law_tile_frame(from: Held, to: Held, step: int, h: Leg)
    requires
        0 <= step < crate::theory::wire::range(4),
        crate::theory::wire::hop_carried(h),
    ensures
        ({
            let order = seq![SEND] + crate::theory::wire::transfer_bytes(step, h.to, h);
            let wait = seq![RECV] + crate::theory::wire::transfer_bytes(step, h.from, h);
            let tile = crate::theory::wire::tile_bytes(from.hop_words(h));
            let frame = crate::theory::wire::le(step, 4) + tile;
            &&& on_frame(from, order) == Ok::<(Held, Task), Seq<char>>((from, Task::Pass { to: h.to, frame }))
            &&& on_frame(to, wait) == Ok::<(Held, Task), Seq<char>>((to, Task::Await { step, from: h.from, hop: h }))
            &&& on_tile(to, step, h, frame) == to.received(h, tile)
        }),
{
    let order = seq![SEND] + crate::theory::wire::transfer_bytes(step, h.to, h);
    let wait = seq![RECV] + crate::theory::wire::transfer_bytes(step, h.from, h);
    crate::theory::wire::law_transfer_bytes(step, h.to, h);
    crate::theory::wire::law_transfer_bytes(step, h.from, h);
    assert(body(order) =~= crate::theory::wire::transfer_bytes(step, h.to, h));
    assert(body(wait) =~= crate::theory::wire::transfer_bytes(step, h.from, h));
    let tile = crate::theory::wire::tile_bytes(from.hop_words(h));
    let frame = crate::theory::wire::le(step, 4) + tile;
    crate::theory::wire::lemma_le_len(step, 4);
    crate::theory::wire::lemma_word(Seq::empty(), step, 4, tile);
    assert(Seq::<u8>::empty() + crate::theory::wire::le(step, 4) + tile =~= frame);
    assert(frame.subrange(4, frame.len() as int) =~= tile);
}

/// A member that is told to compute sees the window of the plan.
pub proof fn law_compute_order(s: Held, step: int, w: Win)
    requires
        0 <= step < crate::theory::wire::range(4),
        crate::theory::wire::window_carried(w),
    ensures
        on_frame(s, seq![COMPUTE] + (crate::theory::wire::le(step, 4) + crate::theory::wire::window_bytes(w))) == Ok::<
            (Held, Task),
            Seq<char>,
        >((s, Task::Run { step, window: crate::theory::wire::bare(w) })),
{
    let b = crate::theory::wire::le(step, 4) + crate::theory::wire::window_bytes(w);
    crate::theory::wire::law_order_bytes(step, w);
    assert(body(seq![COMPUTE] + b) =~= b);
}

/// Putting a tile and getting its rectangle answers with the tile that was
/// put, where the words agree wherever two places are one parameter.
pub proof fn law_put_frame_then_get(s: Held, p: Patch, ws: Seq<u32>, f: spec_fn(int) -> u32)
    requires
        p.carried(),
        p.addressable(),
        ws.len() == p.indices().len(),
        forall|k: int| 0 <= k < ws.len() ==> #[trigger] ws[k] == f(p.indices()[k]),
    ensures
        ({
            let tile = crate::theory::wire::tile_bytes(ws);
            &&& on_frame(s, seq![PUT] + p.bytes() + tile) matches Ok(put) && put.1 == (Task::Reply { frame: seq![DONE] })
                && on_frame(put.0, seq![GET, 0u8] + p.bytes()) == Ok::<(Held, Task), Seq<char>>(
                (put.0, Task::Reply { frame: seq![DATA] + tile }),
            )
        }),
{
    let tile = crate::theory::wire::tile_bytes(ws);
    let order = seq![PUT] + p.bytes() + tile;
    let ask = seq![GET, 0u8] + p.bytes();
    crate::theory::wire::law_patch_bytes(p, tile);
    crate::theory::wire::law_patch_bytes(p, Seq::empty());
    assert(body(order) =~= p.bytes() + tile);
    assert(order.subrange(53, order.len() as int) =~= tile);
    assert(ask.subrange(2, ask.len() as int) =~= p.bytes() + Seq::<u8>::empty());
    assert(0 <= p.numbers()[0] && 0 <= p.numbers()[1] && 0 <= p.numbers()[3] && 0 <= p.numbers()[5]);
    law_put_then_get(s, p, ws, f);
}


// ----- the coordinator -----

/// The first device from number `i` on whose name an earlier one has.
pub open spec fn repeated_name(ds: Seq<Dev>, i: int) -> Option<Seq<char>>
    decreases ds.len() - i,
{
    if i >= ds.len() {
        None
    } else if exists|j: int| 0 <= j < i && (#[trigger] ds[j]).name == ds[i].name {
        Some(ds[i].name)
    } else {
        repeated_name(ds, i + 1)
    }
}

/// Why a list of devices cannot be members.
pub open spec fn roster_fault(ds: Seq<Dev>) -> Option<Seq<char>> {
    if ds.len() == 0 {
        Some("cluster has no devices"@)
    } else {
        match repeated_name(ds, 0) {
            Some(n) => Some(text::filled("duplicate device name $a"@, seq![n])),
            None => None,
        }
    }
}

/// Whether the devices can be members: there are some, and no two have the
/// same name.
pub fn check_roster(devices: &Vec<Device>) -> (r: Result<(), DistError>)
    ensures
        roster_fault(crate::theory::listing::views(devices@)) == match r {
            Ok(u) => None::<Seq<char>>,
            Err(e) => Some(e@),
        },
{
    let ghost ds = crate::theory::listing::views(devices@);
    if devices.len() == 0 {
        return Err(err("cluster has no devices"));
    }
    let mut i: usize = 0;
    while i < devices.len()
        invariant
            i <= devices@.len(),
            ds.len() > 0,
            ds == crate::theory::listing::views(devices@),
            repeated_name(ds, 0) == repeated_name(ds, i as int),
        decreases devices.len() - i,
    {
        assert(ds[i as int] == devices@[i as int]@);
        let mut j: usize = 0;
        while j < i
            invariant
                j <= i,
                i < devices@.len(),
                ds.len() > 0,
                ds == crate::theory::listing::views(devices@),
                ds[i as int] == devices@[i as int]@,
                repeated_name(ds, 0) == repeated_name(ds, i as int),
                forall|k: int| 0 <= k < j ==> (#[trigger] ds[k]).name != ds[i as int].name,
            decreases i - j,
        {
            assert(ds[j as int] == devices@[j as int]@);
            if devices[j].name == devices[i].name {
                return Err(err_about("duplicate device name $a", devices[i].name.clone()));
            }
            j = j + 1;
        }
        i = i + 1;
    }
    Ok(())
}

/// The first device from number `i` on with this name, or the number of
/// devices.
pub open spec fn rank_of(ds: Seq<Dev>, name: Seq<char>, i: int) -> int
    decreases ds.len() - i,
{
    if i >= ds.len() {
        ds.len() as int
    } else if ds[i].name == name {
        i
    } else {
        rank_of(ds, name, i + 1)
    }
}

/// The rank of a member that introduces itself, or why it is not admitted: it
/// must be a device of the cluster, that has not joined yet, with the budgets
/// of that device.
pub open spec fn admitted(ds: Seq<Dev>, joined: Seq<bool>, h: Intro) -> Result<int, Seq<char>> {
    let r = rank_of(ds, h.name, 0);
    if r >= ds.len() {
        Err(text::filled("unknown member $a"@, seq![h.name]))
    } else if joined[r] {
        Err(text::filled("duplicate join from $a"@, seq![h.name]))
    } else if h.kind != crate::theory::wire::kind_number(ds[r].kind) || h.buffer != ds[r].buffer || h.code != ds[r].code {
        Err(text::filled("member $a does not match the cluster"@, seq![h.name]))
    } else {
        Ok(r)
    }
}

pub fn rank_member(devices: &Vec<Device>, joined: &Vec<bool>, h: &Hello) -> (r: Result<usize, DistError>)
    requires
        joined@.len() == devices@.len(),
    ensures
        admitted(crate::theory::listing::views(devices@), joined@, h@) == match r {
            Ok(rank) => Ok::<int, Seq<char>>(rank as int),
            Err(e) => Err::<int, Seq<char>>(e@),
        },
{
    let ghost ds = crate::theory::listing::views(devices@);
    let mut i: usize = 0;
    while i < devices.len()
        invariant
            i <= devices@.len(),
            joined@.len() == devices@.len(),
            ds == crate::theory::listing::views(devices@),
            rank_of(ds, h@.name, 0) == rank_of(ds, h@.name, i as int),
        decreases devices.len() - i,
    {
        assert(ds[i as int] == devices@[i as int]@);
        if devices[i].name == h.name {
            if joined[i] {
                return Err(err_about("duplicate join from $a", h.name.clone()));
            }
            let kind: u8 = match devices[i].kind {
                DeviceKind::Cpu => 0,
                DeviceKind::Gpu => 1,
            };
            if h.kind != kind || h.buffer != devices[i].buffer_bytes || h.code != devices[i].code_bytes {
                return Err(err_about("member $a does not match the cluster", h.name.clone()));
            }
            return Ok(i);
        }
        i = i + 1;
    }
    Err(err_about("unknown member $a", h.name.clone()))
}

/// Each device of a cluster without repeated names is admitted under its own
/// rank, once.
pub proof fn law_admission(ds: Seq<Dev>, joined: Seq<bool>, r: int, port: int)
    requires
        roster_fault(ds) is None,
        joined.len() == ds.len(),
        0 <= r < ds.len(),
        !joined[r],
    ensures
        admitted(
            ds,
            joined,
            Intro {
                name: ds[r].name,
                kind: crate::theory::wire::kind_number(ds[r].kind),
                buffer: ds[r].buffer,
                code: ds[r].code,
                port,
            },
        ) == Ok::<int, Seq<char>>(r),
{
    lemma_no_repeat(ds, 0, r);
    lemma_rank(ds, r, 0);
}

proof fn lemma_no_repeat(ds: Seq<Dev>, i: int, r: int)
    requires
        repeated_name(ds, i) is None,
        0 <= i <= r < ds.len(),
    ensures
        forall|j: int| 0 <= j < r ==> (#[trigger] ds[j]).name != ds[r].name,
    decreases r - i,
{
    if i < r {
        lemma_no_repeat(ds, i + 1, r);
    }
}

proof fn lemma_rank(ds: Seq<Dev>, r: int, i: int)
    requires
        0 <= i <= r < ds.len(),
        forall|j: int| 0 <= j < r ==> (#[trigger] ds[j]).name != ds[r].name,
    ensures
        rank_of(ds, ds[r].name, i) == r,
    decreases r - i,
{
    if i < r {
        assert(ds[i].name != ds[r].name);
        lemma_rank(ds, r, i + 1);
    }
}

/// The rectangles of the first `n` windows that have parameters, each once, in
/// the order in which they come.
pub open spec fn patches(ws: Seq<Win>, n: int) -> Seq<Patch>
    decreases n,
{
    if n <= 0 {
        Seq::empty()
    } else {
        let before = patches(ws, n - 1);
        let p = window_patch(ws[n - 1]);
        if ws[n - 1].param == 0 || before.contains(p) {
            before
        } else {
            before.push(p)
        }
    }
}

/// Every window with parameters has its rectangle among them, and no
/// rectangle comes twice.
pub proof fn law_patches(ws: Seq<Win>, n: int)
    requires
        0 <= n <= ws.len(),
    ensures
        forall|i: int| 0 <= i < n && (#[trigger] ws[i]).param != 0 ==> patches(ws, n).contains(window_patch(ws[i])),
        patches(ws, n).no_duplicates(),
    decreases n,
{
    if n > 0 {
        law_patches(ws, n - 1);
        let before = patches(ws, n - 1);
        let now = patches(ws, n);
        let p = window_patch(ws[n - 1]);
        assert forall|i: int| 0 <= i < n && (#[trigger] ws[i]).param != 0 implies now.contains(window_patch(ws[i])) by {
            if i < n - 1 {
                let k = before.index_of(window_patch(ws[i]));
                assert(before[k] == window_patch(ws[i]));
                assert(now[k] == window_patch(ws[i]));
            } else if !before.contains(p) {
                assert(now[before.len() as int] == p);
            }
        }
    }
}

/// The rectangles of a plan.
pub fn rectangles(plan: &StagePlan) -> (r: Vec<Rect>)
    ensures
        crate::theory::listing::views(r@) == patches(plan@.windows, plan@.windows.len() as int),
{
    let ghost ws = plan@.windows;
    let mut out: Vec<Rect> = Vec::new();
    let mut i: usize = 0;
    assert(crate::theory::listing::views(out@) =~= Seq::<Patch>::empty());
    while i < plan.windows.len()
        invariant
            i <= plan.windows@.len(),
            ws == plan@.windows,
            crate::theory::listing::views(out@) == patches(ws, i as int),
        decreases plan.windows.len() - i,
    {
        let w: &Window = &plan.windows[i];
        assert(ws[i as int] == w@);
        if w.param_bytes != 0 {
            let rect = Rect {
                home: w.home,
                offset: w.param_offset,
                row_begin: w.row_begin,
                row_end: w.row_end,
                col_begin: w.col_begin,
                col_end: w.col_end,
                stride: w.dout,
            };
            assert(rect@ == window_patch(ws[i as int]));
            if !has_rect(&out, &rect) {
                proof {
                    crate::theory::listing::lemma_views_push(out@, rect);
                }
                out.push(rect);
            }
        }
        i = i + 1;
    }
    out
}

/// Whether two rectangles are the same.
pub fn same_rect(a: &Rect, b: &Rect) -> (r: bool)
    ensures
        r == (a@ == b@),
{
    a.home == b.home && a.offset == b.offset && a.row_begin == b.row_begin && a.row_end == b.row_end && a.col_begin
        == b.col_begin && a.col_end == b.col_end && a.stride == b.stride
}

fn has_rect(out: &Vec<Rect>, rect: &Rect) -> (r: bool)
    ensures
        r == crate::theory::listing::views(out@).contains(rect@),
{
    let ghost vs = crate::theory::listing::views(out@);
    let mut i: usize = 0;
    while i < out.len()
        invariant
            i <= out@.len(),
            vs == crate::theory::listing::views(out@),
            forall|k: int| 0 <= k < i ==> #[trigger] vs[k] != rect@,
        decreases out.len() - i,
    {
        assert(vs[i as int] == out@[i as int]@);
        if same_rect(&out[i], rect) {
            assert(vs.contains(rect@));
            return true;
        }
        i = i + 1;
    }
    false
}

/// The words of a rectangle of a parameter vector: zero beyond its end.
pub open spec fn slice_words(params: Seq<u32>, p: Patch) -> Seq<u32> {
    Seq::new(
        p.indices().len(),
        |k: int|
            if p.indices()[k] < params.len() {
                params[p.indices()[k]]
            } else {
                0
            },
    )
}

/// The tile of a rectangle of a parameter vector.
pub fn pack_slice(params: &[u32], rect: &Rect) -> (r: Vec<u8>)
    requires
        rect@.addressable(),
    ensures
        r@ == crate::theory::wire::tile_bytes(slice_words(params@, rect@)),
{
    let idx = rect.indices();
    let ghost ix = rect@.indices();
    let mut ws: Vec<u32> = Vec::new();
    let mut i: usize = 0;
    assert(ix.len() == idx@.len());
    while i < idx.len()
        invariant
            i <= idx@.len(),
            ix == numbers(idx@),
            ix == rect@.indices(),
            ws@.len() == i,
            forall|k: int| 0 <= k < i ==> #[trigger] ws@[k] == slice_words(params@, rect@)[k],
        decreases idx.len() - i,
    {
        assert(ix[i as int] == idx@[i as int]);
        let word: u32 = if idx[i] < params.len() as u64 {
            params[idx[i] as usize]
        } else {
            0
        };
        ws.push(word);
        i = i + 1;
    }
    assert(ws@ =~= slice_words(params@, rect@));
    bytes_of(&ws)
}

/// A vector after the first `n` words were put at their indices, as far as it
/// reaches.
pub open spec fn scattered(dest: Seq<u32>, idx: Seq<int>, ws: Seq<u32>, n: int) -> Seq<u32>
    decreases n,
{
    if n <= 0 {
        dest
    } else {
        let before = scattered(dest, idx, ws, n - 1);
        if idx[n - 1] < dest.len() {
            before.update(idx[n - 1], ws[n - 1])
        } else {
            before
        }
    }
}

/// Put the words of a rectangle into a vector.
pub fn scatter(dest: &mut Vec<u32>, rect: &Rect, values: &Vec<u32>)
    requires
        rect@.addressable(),
    ensures
        ({
            let n = crate::theory::plans::least(values@.len() as int, rect@.indices().len() as int);
            final(dest)@ == scattered(old(dest)@, rect@.indices(), values@, n)
        }),
{
    let idx = rect.indices();
    let ghost ix = rect@.indices();
    let ghost start = dest@;
    let n: usize = if values.len() <= idx.len() {
        values.len()
    } else {
        idx.len()
    };
    assert(ix.len() == idx@.len());
    let mut i: usize = 0;
    while i < n
        invariant
            i <= n,
            n <= values@.len(),
            n <= idx@.len(),
            ix == numbers(idx@),
            dest@.len() == start.len(),
            dest@ == scattered(start, ix, values@, i as int),
        decreases n - i,
    {
        assert(ix[i as int] == idx@[i as int]);
        if idx[i] < dest.len() as u64 {
            dest.set(idx[i] as usize, values[i]);
        }
        i = i + 1;
    }
}

/// A member's words scattered over a vector put back what was sliced from it:
/// the vector does not change.
pub proof fn law_slice_then_scatter(params: Seq<u32>, p: Patch, n: int)
    requires
        0 <= n <= p.indices().len(),
        forall|k: int| 0 <= k < p.indices().len() ==> 0 <= #[trigger] p.indices()[k],
    ensures
        scattered(params, p.indices(), slice_words(params, p), n) == params,
    decreases n,
{
    if n > 0 {
        law_slice_then_scatter(params, p, n - 1);
        let i = p.indices()[n - 1];
        if i < params.len() {
            assert(params.update(i, params[i]) =~= params);
        }
    }
}

/// The words in a member's answer to an order to hand a rectangle back.
pub open spec fn answer_words(frame: Seq<u8>) -> Result<Seq<u32>, Seq<char>> {
    if frame.len() == 0 || frame[0] != DATA {
        Err("expected a gathered tile"@)
    } else if body(frame).len() % 4 != 0 {
        Err("tile byte length is not a multiple of 4"@)
    } else {
        Ok(crate::theory::wire::tile_words(body(frame)))
    }
}

pub fn read_data(frame: &Vec<u8>) -> (r: Result<Vec<u32>, DistError>)
    ensures
        answer_words(frame@) == match r {
            Ok(ws) => Ok::<Seq<u32>, Seq<char>>(ws@),
            Err(e) => Err::<Seq<u32>, Seq<char>>(e@),
        },
{
    if frame.len() == 0 || frame[0] != DATA {
        return Err(err("expected a gathered tile"));
    }
    words_from(vstd::slice::slice_subrange(frame.as_slice(), 1, frame.len()))
}

/// One step of the control plane: a hop, or window number `window`.
#[derive(Clone, Copy, Debug, PartialEq, Eq, Structural)]
pub enum Order {
    Hop(Hop),
    Compute { window: usize },
}

pub enum Step {
    Hop { hop: Leg },
    Compute { window: int },
}

impl View for Order {
    type V = Step;

    open spec fn view(&self) -> Step {
        match *self {
            Order::Hop(hop) => Step::Hop { hop: hop@ },
            Order::Compute { window } => Step::Compute { window: window as int },
        }
    }
}

pub open spec fn hop_steps(hs: Seq<Leg>) -> Seq<Step> {
    Seq::new(hs.len(), |i: int| Step::Hop { hop: hs[i] })
}

/// The steps of a window: its inputs are delivered, it runs, its outputs are
/// delivered.
pub open spec fn window_steps(ws: Seq<Win>, i: int) -> Seq<Step> {
    hop_steps(ws[i].inbound).push(Step::Compute { window: i }) + hop_steps(ws[i].outbound)
}

/// The steps of the first `n` windows.
pub open spec fn script(ws: Seq<Win>, n: int) -> Seq<Step> {
    crate::theory::listing::cat(n, |i: int| window_steps(ws, i))
}

fn push_orders(out: &mut Vec<Order>, hops: &Vec<Hop>)
    ensures
        crate::theory::listing::views(final(out)@) == crate::theory::listing::views(old(out)@) + hop_steps(
            crate::theory::listing::views(hops@),
        ),
{
    let ghost start = crate::theory::listing::views(out@);
    let ghost hs = hop_steps(crate::theory::listing::views(hops@));
    let mut i: usize = 0;
    assert(crate::theory::listing::views(out@) =~= start + hs.take(0));
    while i < hops.len()
        invariant
            i <= hops@.len(),
            hs == hop_steps(crate::theory::listing::views(hops@)),
            crate::theory::listing::views(out@) == start + hs.take(i as int),
        decreases hops.len() - i,
    {
        let o = Order::Hop(hops[i]);
        proof {
            crate::theory::listing::lemma_views_push(out@, o);
            assert(hs[i as int] == o@);
        }
        out.push(o);
        assert(crate::theory::listing::views(out@) =~= start + hs.take(i + 1));
        i = i + 1;
    }
    assert(hs.take(i as int) =~= hs);
}

/// What the coordinator does with a plan, step by step. Step numbers count
/// from one.
pub fn orders(plan: &StagePlan) -> (r: Vec<Order>)
    ensures
        crate::theory::listing::views(r@) == script(plan@.windows, plan@.windows.len() as int),
{
    let ghost ws = plan@.windows;
    let ghost f = |i: int| window_steps(ws, i);
    let mut out: Vec<Order> = Vec::new();
    let mut i: usize = 0;
    assert(crate::theory::listing::views(out@) =~= crate::theory::listing::cat(0, f));
    while i < plan.windows.len()
        invariant
            i <= plan.windows@.len(),
            ws == plan@.windows,
            f == (|i: int| window_steps(ws, i)),
            crate::theory::listing::views(out@) == crate::theory::listing::cat(i as int, f),
        decreases plan.windows.len() - i,
    {
        let w: &Window = &plan.windows[i];
        assert(ws[i as int] == w@);
        let ghost before = crate::theory::listing::views(out@);
        push_orders(&mut out, &w.inbound);
        let ghost mid = crate::theory::listing::views(out@);
        proof {
            crate::theory::listing::lemma_views_push(out@, Order::Compute { window: i });
        }
        out.push(Order::Compute { window: i });
        push_orders(&mut out, &w.outbound);
        assert(crate::theory::listing::views(out@) =~= before + window_steps(ws, i as int));
        assert(crate::theory::listing::views(out@) =~= crate::theory::listing::cat(i + 1, f));
        i = i + 1;
    }
    out
}

/// The hops among the first `k` steps.
pub open spec fn hops_in(s: Seq<Step>, k: int) -> int
    decreases k,
{
    if k <= 0 {
        0
    } else {
        hops_in(s, k - 1) + if s[k - 1] is Hop {
            1int
        } else {
            0int
        }
    }
}

proof fn lemma_hops_add(a: Seq<Step>, b: Seq<Step>, k: int)
    requires
        0 <= k <= b.len(),
    ensures
        hops_in(a + b, a.len() + k) == hops_in(a, a.len() as int) + hops_in(b, k),
    decreases k,
{
    if k > 0 {
        lemma_hops_add(a, b, k - 1);
        assert((a + b)[a.len() + k - 1] == b[k - 1]);
    } else {
        lemma_hops_prefix(a, b, a.len() as int);
    }
}

proof fn lemma_hops_prefix(a: Seq<Step>, b: Seq<Step>, k: int)
    requires
        0 <= k <= a.len(),
    ensures
        hops_in(a + b, k) == hops_in(a, k),
    decreases k,
{
    if k > 0 {
        lemma_hops_prefix(a, b, k - 1);
        assert((a + b)[k - 1] == a[k - 1]);
    }
}

proof fn lemma_hops_all(hs: Seq<Leg>, k: int)
    requires
        0 <= k <= hs.len(),
    ensures
        hops_in(hop_steps(hs), k) == k,
    decreases k,
{
    if k > 0 {
        lemma_hops_all(hs, k - 1);
    }
}

/// The script has one step for each hop of the plan and one for each window,
/// and the steps that are messages are the hops.
pub proof fn law_script(ws: Seq<Win>, n: int)
    requires
        0 <= n <= ws.len(),
    ensures
        hops_in(script(ws, n), script(ws, n).len() as int) == crate::theory::sums::sum(
            n,
            |i: int| (ws[i].inbound.len() + ws[i].outbound.len()) as int,
        ),
        script(ws, n).len() == crate::theory::sums::sum(n, |i: int| (ws[i].inbound.len() + 1 + ws[i].outbound.len()) as int),
    decreases n,
{
    let f = |i: int| window_steps(ws, i);
    let g = |i: int| (ws[i].inbound.len() + ws[i].outbound.len()) as int;
    let h = |i: int| (ws[i].inbound.len() + 1 + ws[i].outbound.len()) as int;
    if n > 0 {
        law_script(ws, n - 1);
        let a = script(ws, n - 1);
        let b = window_steps(ws, n - 1);
        let ins = hop_steps(ws[n - 1].inbound);
        let one = seq![Step::Compute { window: n - 1 }];
        let outs = hop_steps(ws[n - 1].outbound);
        lemma_hops_add(a, b, b.len() as int);
        assert(b =~= ins + one + outs);
        lemma_hops_add(ins + one, outs, outs.len() as int);
        lemma_hops_add(ins, one, 1);
        lemma_hops_all(ws[n - 1].inbound, ins.len() as int);
        lemma_hops_all(ws[n - 1].outbound, outs.len() as int);
        assert(hops_in(one, 1) == hops_in(one, 0) + 0);
        assert(hops_in(one, 0) == 0);
        assert(script(ws, n) == a + b);
    }
}

/// One recorded control-plane event, in the order the coordinator issued it.
#[derive(Clone, Debug, PartialEq, Eq)]
pub enum Event {
    Hop { from: usize, to: usize, kind: HopKind, bytes: u64 },
    Compute { device: usize, name: String, op: Exec, pass: Pass },
}

#[verifier::ext_equal]
pub enum Noted {
    Hop { from: int, to: int, kind: HopKind, bytes: int },
    Compute { device: int, name: Seq<char>, op: Exec, pass: Pass },
}

impl View for Event {
    type V = Noted;

    open spec fn view(&self) -> Noted {
        match *self {
            Event::Hop { from, to, kind, bytes } => Noted::Hop { from: from as int, to: to as int, kind, bytes: bytes as int },
            Event::Compute { device, name, op, pass } => Noted::Compute { device: device as int, name: name@, op, pass },
        }
    }
}

/// How a step is recorded.
pub open spec fn noted(ws: Seq<Win>, s: Step) -> Noted {
    match s {
        Step::Hop { hop } => Noted::Hop { from: hop.from, to: hop.to, kind: hop.kind, bytes: hop.bytes },
        Step::Compute { window } => Noted::Compute {
            device: ws[window].device,
            name: ws[window].name,
            op: ws[window].op,
            pass: ws[window].pass,
        },
    }
}

/// Where the steps of window `i` begin in the script: after one step for each
/// hop and each window before it.
pub open spec fn steps_before(ws: Seq<Win>, i: int) -> int {
    crate::theory::sums::sum(i, |j: int| (ws[j].inbound.len() + 1 + ws[j].outbound.len()) as int)
}

proof fn lemma_script_at(ws: Seq<Win>, n: int, i: int)
    requires
        0 <= i < n <= ws.len(),
    ensures
        steps_before(ws, i) + window_steps(ws, i).len() <= script(ws, n).len(),
        0 <= steps_before(ws, i),
        forall|k: int|
            0 <= k < window_steps(ws, i).len() ==> script(ws, n)[steps_before(ws, i) + k] == #[trigger] window_steps(ws, i)[k],
    decreases n,
{
    law_script(ws, n - 1);
    law_script(ws, i);
    let a = script(ws, n - 1);
    let b = window_steps(ws, n - 1);
    assert(script(ws, n) == a + b);
    if i < n - 1 {
        lemma_script_at(ws, n - 1, i);
        assert forall|k: int| 0 <= k < window_steps(ws, i).len() implies script(ws, n)[steps_before(ws, i) + k]
            == #[trigger] window_steps(ws, i)[k] by {
            assert(a[steps_before(ws, i) + k] == window_steps(ws, i)[k]);
        }
    }
}

/// The log of a run follows the plan. Window after window it records the
/// inbound hops, each with the devices that send and receive it, then that the
/// device of the window has run it, then the outbound hops.
pub proof fn law_log(ws: Seq<Win>, i: int)
    requires
        0 <= i < ws.len(),
    ensures
        ({
            let w = ws[i];
            let log = script(ws, ws.len() as int);
            let at = steps_before(ws, i);
            let run = at + w.inbound.len();
            &&& 0 <= at && run + w.outbound.len() < log.len()
            &&& forall|j: int|
                0 <= j < w.inbound.len() ==> noted(ws, log[at + j]) == (Noted::Hop {
                    from: (#[trigger] w.inbound[j]).from,
                    to: w.inbound[j].to,
                    kind: w.inbound[j].kind,
                    bytes: w.inbound[j].bytes,
                })
            &&& noted(ws, log[run]) == (Noted::Compute { device: w.device, name: w.name, op: w.op, pass: w.pass })
            &&& forall|j: int|
                0 <= j < w.outbound.len() ==> noted(ws, log[run + 1 + j]) == (Noted::Hop {
                    from: (#[trigger] w.outbound[j]).from,
                    to: w.outbound[j].to,
                    kind: w.outbound[j].kind,
                    bytes: w.outbound[j].bytes,
                })
        }),
{
    let w = ws[i];
    let log = script(ws, ws.len() as int);
    let at = steps_before(ws, i);
    let run = at + w.inbound.len();
    let steps = window_steps(ws, i);
    lemma_script_at(ws, ws.len() as int, i);
    assert forall|j: int| 0 <= j < w.inbound.len() implies noted(ws, log[at + j]) == (Noted::Hop {
        from: (#[trigger] w.inbound[j]).from,
        to: w.inbound[j].to,
        kind: w.inbound[j].kind,
        bytes: w.inbound[j].bytes,
    }) by {
        assert(log[at + j] == steps[j]);
    }
    assert(log[at + w.inbound.len()] == steps[w.inbound.len() as int]);
    assert forall|j: int| 0 <= j < w.outbound.len() implies noted(ws, log[run + 1 + j]) == (Noted::Hop {
        from: (#[trigger] w.outbound[j]).from,
        to: w.outbound[j].to,
        kind: w.outbound[j].kind,
        bytes: w.outbound[j].bytes,
    }) by {
        assert(log[at + (w.inbound.len() + 1 + j)] == steps[w.inbound.len() + 1 + j]);
    }
}

/// The log names the members that act. The member whose rank an event of a
/// window names is the one for whose device the order that it gets was made,
/// and the order has it run that very window. Of a hop, the member that the
/// event names as sender is told to pass a tile to the one that it names as
/// receiver, and that one is told to wait for the sender.
pub proof fn law_log_names_the_members(s: Held, ws: Seq<Win>, o: Step, step: int)
    requires
        0 <= step < crate::theory::wire::range(4),
        o matches Step::Compute { window } ==> crate::theory::wire::window_carried(ws[window]),
        o matches Step::Hop { hop } ==> crate::theory::wire::hop_carried(hop),
    ensures
        match (o, noted(ws, o)) {
            (Step::Compute { window }, Noted::Compute { device, name, op, pass }) => {
                let frame = seq![COMPUTE] + (crate::theory::wire::le(step, 4) + crate::theory::wire::window_bytes(ws[window]));
                on_frame(s, frame) matches Ok(done) && done.0 == s && (done.1 matches Task::Run { step: at, window: w } && {
                    &&& at == step
                    &&& w.device == device
                    &&& w.name == name
                    &&& w.op == op
                    &&& w.pass == pass
                    &&& w.home == ws[window].home
                    &&& w.offset == ws[window].offset
                    &&& w.param == ws[window].param
                    &&& w.tape == ws[window].tape
                    &&& (w.batch_begin, w.batch_end) == (ws[window].batch_begin, ws[window].batch_end)
                    &&& (w.row_begin, w.row_end) == (ws[window].row_begin, ws[window].row_end)
                    &&& (w.col_begin, w.col_end) == (ws[window].col_begin, ws[window].col_end)
                    &&& (w.din, w.dout) == (ws[window].din, ws[window].dout)
                    &&& (w.layer, w.expert) == (ws[window].layer, ws[window].expert)
                })
            },
            (Step::Hop { hop }, Noted::Hop { from, to, kind, bytes }) => {
                let order = seq![SEND] + crate::theory::wire::transfer_bytes(step, hop.to, hop);
                let wait = seq![RECV] + crate::theory::wire::transfer_bytes(step, hop.from, hop);
                &&& on_frame(s, order) matches Ok(sent) && sent.0 == s && (sent.1 matches Task::Pass { to: peer, frame }
                    && peer == to)
                &&& on_frame(s, wait) matches Ok(kept) && kept.0 == s && (kept.1 matches Task::Await { step: at, from: peer, hop: h }
                    && at == step && peer == from && h.from == from && h.to == to && h.kind == kind && h.bytes == bytes)
            },
            _ => false,
        },
{
    match o {
        Step::Compute { window } => {
            law_compute_order(s, step, ws[window]);
        },
        Step::Hop { hop } => {
            law_tile_frame(s, s, step, hop);
        },
    }
}

/// The record of a step.
pub fn event_of(plan: &StagePlan, order: &Order) -> (r: Event)
    requires
        order matches Order::Compute { window } ==> window < plan.windows@.len(),
    ensures
        r@ == noted(plan@.windows, order@),
        match (*order, r) {
            (Order::Compute { window }, Event::Compute { device, name, op, pass }) => {
                let w = plan.windows@[window as int];
                device == w.device && name@ == w.name@ && op == w.op && pass == w.pass
            },
            (Order::Hop(hop), Event::Hop { from, to, kind, bytes }) => from == hop.from && to == hop.to && kind == hop.kind
                && bytes == hop.bytes,
            _ => false,
        },
{
    match order {
        Order::Hop(hop) => Event::Hop { from: hop.from, to: hop.to, kind: hop.kind, bytes: hop.bytes },
        Order::Compute { window } => {
            let w: &Window = &plan.windows[*window];
            assert(plan@.windows[*window as int] == w@);
            Event::Compute { device: w.device, name: w.name.clone(), op: w.op, pass: w.pass }
        },
    }
}

/// Whether a hop stays within a cluster of `n` members.
pub fn check_hop(hop: &Hop, n: usize) -> (r: Result<(), DistError>)
    ensures
        match r {
            Ok(u) => hop.from < n && hop.to < n,
            Err(e) => (hop.from >= n || hop.to >= n) && e@ == "hop names a device outside the cluster"@,
        },
{
    if hop.from >= n || hop.to >= n {
        Err(err("hop names a device outside the cluster"))
    } else {
        Ok(())
    }
}

/// What the coordinator waits for while it delivers a hop.
#[derive(Clone, Copy, Debug, PartialEq, Eq, Structural)]
pub enum Wait {
    /// The receiver, told of the hop, says that it is ready.
    Ready,
    /// The sender, told to send, says that it has sent.
    Sent,
    /// The receiver says that it has kept the tile.
    Kept,
}

/// What comes after an answer: the next thing to wait for, nothing, or a
/// fault.
pub open spec fn after_answer(w: Wait, tag: u8) -> Result<Option<Wait>, Seq<char>> {
    match w {
        Wait::Ready => if tag == READY {
            Ok(Some(Wait::Sent))
        } else {
            Err("receiver was not ready for a tile"@)
        },
        _ => if tag != DONE {
            Err(text::filled("expected acknowledgement, got $a"@, seq![text::dec(tag as int)]))
        } else if w == Wait::Sent {
            Ok(Some(Wait::Kept))
        } else {
            Ok(None)
        },
    }
}

/// A hop is delivered by three answers in this order: the receiver is ready,
/// the sender has sent, the receiver has kept the tile. Nothing else ends the
/// wait, and any other answer is a fault.
pub proof fn law_delivery(a: u8, b: u8, c: u8)
    ensures
        after_answer(Wait::Ready, a) is Ok <==> a == READY,
        after_answer(Wait::Ready, a) matches Ok(next) ==> {
            &&& next is Some
            &&& after_answer(next->0, b) is Ok <==> b == DONE
            &&& after_answer(next->0, b) matches Ok(third) ==> {
                &&& third is Some
                &&& after_answer(third->0, c) is Ok <==> c == DONE
                &&& after_answer(third->0, c) matches Ok(end) ==> end is None
            }
        },
{
}

pub fn on_answer(w: Wait, tag: u8) -> (r: Result<Option<Wait>, DistError>)
    ensures
        after_answer(w, tag) == match r {
            Ok(n) => Ok::<Option<Wait>, Seq<char>>(n),
            Err(e) => Err::<Option<Wait>, Seq<char>>(e@),
        },
{
    match w {
        Wait::Ready => if tag == READY {
            Ok(Some(Wait::Sent))
        } else {
            Err(err("receiver was not ready for a tile"))
        },
        Wait::Sent => match expect_done(tag) {
            Ok(_) => Ok(Some(Wait::Kept)),
            Err(e) => Err(e),
        },
        Wait::Kept => match expect_done(tag) {
            Ok(_) => Ok(None),
            Err(e) => Err(e),
        },
    }
}

/// Whether a tag acknowledges a step.
pub fn expect_done(tag: u8) -> (r: Result<(), DistError>)
    ensures
        match r {
            Ok(u) => tag == DONE,
            Err(e) => tag != DONE && e@ == text::filled(
                "expected acknowledgement, got $a"@,
                seq![text::dec(tag as int)],
            ),
        },
{
    if tag != DONE {
        Err(err_about("expected acknowledgement, got $a", text::decimal(tag as u64)))
    } else {
        Ok(())
    }
}

/// Whether a tag says that the peer links of a member are up.
pub fn expect_peers(tag: u8) -> (r: Result<(), DistError>)
    ensures
        match r {
            Ok(u) => tag == PEERS_UP,
            Err(e) => tag != PEERS_UP && e@ == "member did not bring its peer links up"@,
        },
{
    if tag != PEERS_UP {
        Err(err("member did not bring its peer links up"))
    } else {
        Ok(())
    }
}

} // verus!
