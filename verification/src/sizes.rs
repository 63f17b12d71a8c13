//! Run-time tests of the sizes that staging and emission ask for.
//!
//! A [`Size`] is a product or sum of machine words that saturates above the
//! range of a word, so a test never overflows: it compares as the true number
//! does.
use vstd::prelude::*;
use crate::cluster::Cluster;
use crate::kernel::{Prog, Program, Stage};
use crate::mixtral::MixtralConfig;
use crate::theory::plans::{Mat, State, Task};

verus! {

/// The first number above the range of a word.
pub const ABOVE: u128 = 0x1_0000_0000_0000_0000;

/// A number, or [`ABOVE`] where it is at least that.
pub open spec fn capped(n: int) -> int {
    if n < ABOVE {
        n
    } else {
        ABOVE as int
    }
}

/// A natural number, known exactly as far as words go.
#[derive(Clone, Copy)]
pub struct Size {
    cap: u128,
    number: Ghost<int>,
}

impl View for Size {
    type V = int;

    closed spec fn view(&self) -> int {
        self.number@
    }
}

impl Size {
    #[verifier::type_invariant]
    spec fn honest(self) -> bool {
        self.number@ >= 0 && self.cap == capped(self.number@)
    }

    pub fn of(n: u64) -> (r: Size)
        ensures
            r@ == n,
    {
        Size { cap: n as u128, number: Ghost(n as int) }
    }

    pub fn memory(n: usize) -> (r: Size)
        ensures
            r@ == n,
    {
        Size { cap: n as u128, number: Ghost(n as int) }
    }

    pub fn plus(self, o: Size) -> (r: Size)
        ensures
            r@ == self@ + o@,
    {
        proof {
            use_type_invariant(&self);
            use_type_invariant(&o);
        }
        let sum: u128 = self.cap + o.cap;
        let cap: u128 = if sum < ABOVE {
            sum
        } else {
            ABOVE
        };
        Size { cap, number: Ghost(self@ + o@) }
    }

    pub fn times(self, o: Size) -> (r: Size)
        ensures
            r@ == self@ * o@,
    {
        proof {
            use_type_invariant(&self);
            use_type_invariant(&o);
            lemma_product(self@, o@);
        }
        let cap: u128 = if self.cap == 0 || o.cap == 0 {
            0
        } else if self.cap == ABOVE || o.cap == ABOVE {
            ABOVE
        } else {
            proof {
                let a = self.cap as int;
                let b = o.cap as int;
                assert(a * b <= 0xffff_ffff_ffff_ffff * 0xffff_ffff_ffff_ffff) by (nonlinear_arith)
                    requires 0 <= a <= 0xffff_ffff_ffff_ffff, 0 <= b <= 0xffff_ffff_ffff_ffff;
            }
            let p: u128 = self.cap * o.cap;
            if p < ABOVE {
                p
            } else {
                ABOVE
            }
        };
        Size { cap, number: Ghost(self@ * o@) }
    }

    /// Whether a word holds the number.
    pub fn in_word(&self) -> (r: bool)
        ensures
            r == (self@ <= u64::MAX),
    {
        proof {
            use_type_invariant(self);
        }
        self.cap < ABOVE
    }

    /// Whether the number is a length in memory.
    pub fn in_memory(&self) -> (r: bool)
        ensures
            r == (self@ <= usize::MAX),
    {
        proof {
            use_type_invariant(self);
        }
        self.cap <= usize::MAX as u128
    }

    /// Whether the number is no more than one that a word holds.
    pub fn at_most(&self, o: Size) -> (r: bool)
        requires
            o@ <= u64::MAX,
        ensures
            r == (self@ <= o@),
    {
        proof {
            use_type_invariant(self);
            use_type_invariant(&o);
        }
        self.cap <= o.cap
    }

    pub fn is_zero(&self) -> (r: bool)
        ensures
            r == (self@ == 0),
    {
        proof {
            use_type_invariant(self);
        }
        self.cap == 0
    }

    /// The number, or one in place of zero.
    pub fn at_least_one(self) -> (r: Size)
        ensures
            r@ == crate::theory::plans::most(self@, 1),
    {
        proof {
            use_type_invariant(&self);
        }
        if self.cap == 0 {
            Size::of(1)
        } else {
            self
        }
    }
}

proof fn lemma_product(a: int, b: int)
    requires
        a >= 0,
        b >= 0,
    ensures
        a * b >= 0,
        a == 0 || b == 0 ==> a * b == 0,
        a >= ABOVE && b > 0 ==> a * b >= ABOVE,
        b >= ABOVE && a > 0 ==> a * b >= ABOVE,
{
    assert(a * b >= 0) by (nonlinear_arith)
        requires a >= 0, b >= 0;
    assert(a == 0 || b == 0 ==> a * b == 0) by (nonlinear_arith);
    assert(b > 0 ==> a * b >= a) by (nonlinear_arith)
        requires a >= 0;
    assert(a > 0 ==> a * b >= b) by (nonlinear_arith)
        requires b >= 0;
}

// ----- matrices and tiles -----

/// Whether a linear tile takes no more bytes than a word can count.
fn linear_fits(batch: Size, rows: Size, cols: Size, mask: bool) -> (r: bool)
    ensures
        r == (crate::theory::plans::linear_need(
            crate::theory::plans::most(batch@, 1),
            crate::theory::plans::most(rows@, 1),
            crate::theory::plans::most(cols@, 1),
            mask,
        ) <= u64::MAX),
{
    let b = batch.at_least_one();
    let k = rows.at_least_one();
    let c = cols.at_least_one();
    let x = b.times(k);
    let y = b.times(c);
    let w = k.times(c);
    let bytes = x.plus(x).plus(y).plus(w).plus(w).times(Size::of(4));
    if mask {
        bytes.plus(y).in_word()
    } else {
        bytes.in_word()
    }
}

/// Whether an attention tile takes no more bytes than a word can count.
fn attention_fits(queries: Size, keys: Size, dim: Size) -> (r: bool)
    ensures
        r == (crate::theory::plans::attention_need(
            crate::theory::plans::most(queries@, 1),
            crate::theory::plans::most(keys@, 1),
            crate::theory::plans::most(dim@, 1),
        ) <= u64::MAX),
{
    let q = queries.at_least_one();
    let k = keys.at_least_one();
    let d = dim.at_least_one();
    let a = q.times(d);
    let b = k.times(d);
    let p = q.times(k);
    a.plus(a).plus(b).plus(b).plus(p).plus(p).times(Size::of(4)).in_word()
}

/// A matrix of these sizes can be staged.
pub open spec fn shape_ok(batch: int, rows: int, cols: int, mask: bool) -> bool {
    &&& rows <= u64::MAX
    &&& cols <= u64::MAX
    &&& rows > 0 ==> cols > 0
    &&& crate::theory::plans::linear_need(
        crate::theory::plans::most(batch, 1),
        crate::theory::plans::most(rows, 1),
        crate::theory::plans::most(cols, 1),
        mask,
    ) <= u64::MAX
}

fn shape_fits(batch: Size, rows: Size, cols: Size, mask: bool) -> (r: bool)
    ensures
        r == shape_ok(batch@, rows@, cols@, mask),
{
    proof {
        use_type_invariant(&rows);
        use_type_invariant(&cols);
    }
    rows.in_word() && cols.in_word() && (rows.is_zero() || !cols.is_zero()) && linear_fits(batch, rows, cols, mask)
}

/// What a matrix is asked, in terms of its sizes.
proof fn lemma_shape(m: Mat)
    requires
        m.rows >= 0,
        m.cols >= 0,
        m.batch >= 0,
        m.extra == 0,
        m.fwd.len() > 0,
    ensures
        shape_ok(m.batch, m.rows, m.cols, m.mask) == (crate::theory::plan_laws::good_mat(m) && crate::schedule::countable(
            Task::Linear { matrix: m },
        )),
{
}

// ----- a Mixtral model -----

/// The number of parameters.
fn parameters(c: &MixtralConfig) -> (r: Size)
    ensures
        r@ == c.total(),
{
    let d = Size::memory(c.dim);
    let i = Size::memory(c.intermediate);
    let e = Size::memory(c.experts);
    let v = Size::memory(c.vocab);
    let q = Size::memory(c.heads).times(Size::memory(c.head_dim));
    let kv = Size::memory(c.kv_heads).times(Size::memory(c.head_dim));
    let front = d.plus(d.times(q)).plus(d.times(kv)).plus(d.times(kv)).plus(q.times(d)).plus(d).plus(d.times(e));
    let expert = d.times(i).plus(d.times(i)).plus(i.times(d));
    let layer = front.plus(e.times(expert));
    v.times(d).plus(Size::memory(c.layers).times(layer)).plus(d).plus(d.times(v))
}

/// Whether the parameter buffer of a model fits in memory.
pub fn parameters_fit(c: &MixtralConfig) -> (r: bool)
    ensures
        r == c.fits(),
{
    let q = Size::memory(c.heads).times(Size::memory(c.head_dim));
    let kv = Size::memory(c.kv_heads).times(Size::memory(c.head_dim));
    parameters(c).in_memory() && (c.layers == 0 || (q.in_memory() && kv.in_memory()))
}

/// The matrices of a layer can be staged.
pub open spec fn layer_ok(c: MixtralConfig, n: int) -> bool {
    let d = c.dim as int;
    let i = c.intermediate as int;
    &&& shape_ok(n, d, 1, false)
    &&& shape_ok(n, d, c.q_width(), false)
    &&& shape_ok(n, d, c.kv_width(), false)
    &&& shape_ok(n, c.q_width(), d, false)
    &&& shape_ok(n, d, c.experts as int, false)
    &&& c.experts > 0 ==> shape_ok(n, d, i, false) && shape_ok(n, i, d, false)
}

/// A matrix can be staged, and its task counted.
pub open spec fn mat_ok(m: Mat) -> bool {
    crate::theory::plan_laws::good_mat(m) && crate::schedule::countable(Task::Linear { matrix: m })
}

proof fn lemma_front(c: MixtralConfig, n: int, l: int)
    requires
        n >= 0,
    ensures
        ({
            let f = crate::theory::plans::front_mats(c, l, n);
            let d = c.dim as int;
            &&& f.len() == 7
            &&& mat_ok(f[0]) == shape_ok(n, d, 1, false)
            &&& mat_ok(f[1]) == shape_ok(n, d, c.q_width(), false)
            &&& mat_ok(f[2]) == shape_ok(n, d, c.kv_width(), false)
            &&& mat_ok(f[3]) == shape_ok(n, d, c.kv_width(), false)
            &&& mat_ok(f[4]) == shape_ok(n, c.q_width(), d, false)
            &&& mat_ok(f[5]) == shape_ok(n, d, 1, false)
            &&& mat_ok(f[6]) == shape_ok(n, d, c.experts as int, false)
        }),
{
    crate::mixtral::lemma_lens(c);
    let f = crate::theory::plans::front_mats(c, l, n);
    lemma_shape(f[0]);
    lemma_shape(f[1]);
    lemma_shape(f[2]);
    lemma_shape(f[3]);
    lemma_shape(f[4]);
    lemma_shape(f[5]);
    lemma_shape(f[6]);
}

proof fn lemma_expert(c: MixtralConfig, n: int, l: int, e: int)
    requires
        n >= 0,
    ensures
        ({
            let f = crate::theory::plans::expert_mats(c, l, n, e);
            let d = c.dim as int;
            let i = c.intermediate as int;
            &&& f.len() == 3
            &&& mat_ok(f[0]) == shape_ok(n, d, i, false)
            &&& mat_ok(f[1]) == shape_ok(n, d, i, false)
            &&& mat_ok(f[2]) == shape_ok(n, i, d, false)
        }),
{
    let f = crate::theory::plans::expert_mats(c, l, n, e);
    lemma_shape(f[0]);
    lemma_shape(f[1]);
    lemma_shape(f[2]);
}

/// Sizes that suit one layer suit each matrix of each layer.
proof fn lemma_layer_suffices(c: MixtralConfig, n: int, l: int)
    requires
        n >= 0,
        layer_ok(c, n),
    ensures
        forall|i: int|
            0 <= i < crate::theory::plans::layer_mats(c, l, n).len() ==> mat_ok(
                #[trigger] crate::theory::plans::layer_mats(c, l, n)[i],
            ),
{
    let f = |e: int| crate::theory::plans::expert_mats(c, l, n, e);
    let front = crate::theory::plans::front_mats(c, l, n);
    let back = crate::theory::listing::cat(c.experts as int, f);
    let all = crate::theory::plans::layer_mats(c, l, n);
    assert(all == front + back);
    lemma_front(c, n, l);
    crate::theory::listing::lemma_cat(c.experts as int, f);
    assert forall|i: int| 0 <= i < all.len() implies mat_ok(#[trigger] all[i]) by {
        if i < 7 {
            assert(all[i] == front[i]);
        } else {
            assert(all[i] == back[i - 7]);
            let e = choose|e: int| 0 <= e < c.experts && (#[trigger] f(e)).contains(back[i - 7]);
            let ms = f(e);
            let k = choose|k: int| 0 <= k < ms.len() && #[trigger] ms[k] == back[i - 7];
            lemma_expert(c, n, l, e);
            assert(k == 0 || k == 1 || k == 2);
        }
    }
}

/// Each size of a layer is that of one of its matrices.
proof fn lemma_layer_needs(c: MixtralConfig, n: int)
    requires
        n >= 0,
        forall|i: int|
            0 <= i < crate::theory::plans::layer_mats(c, 0, n).len() ==> mat_ok(
                #[trigger] crate::theory::plans::layer_mats(c, 0, n)[i],
            ),
    ensures
        layer_ok(c, n),
{
    let f = |e: int| crate::theory::plans::expert_mats(c, 0, n, e);
    let front = crate::theory::plans::front_mats(c, 0, n);
    let back = crate::theory::listing::cat(c.experts as int, f);
    let all = crate::theory::plans::layer_mats(c, 0, n);
    assert(all == front + back);
    lemma_front(c, n, 0);
    assert forall|i: int| 0 <= i < 7 implies mat_ok(#[trigger] front[i]) by {
        assert(all[i] == front[i]);
    }
    assert(mat_ok(front[0]) && mat_ok(front[1]) && mat_ok(front[2]) && mat_ok(front[4]) && mat_ok(front[6]));
    if c.experts > 0 {
        lemma_expert(c, n, 0, 0);
        crate::theory::listing::lemma_cat(c.experts as int, f);
        assert forall|k: int| 0 <= k < 3 implies mat_ok(#[trigger] f(0)[k]) by {
            assert(f(0).contains(f(0)[k]));
            assert(back.contains(f(0)[k]));
            let j = choose|j: int| 0 <= j < back.len() && back[j] == f(0)[k];
            assert(all[7 + j] == back[j]);
        }
        assert(mat_ok(f(0)[0]) && mat_ok(f(0)[2]));
    }
}

/// Whether the sizes of a layer can be staged.
fn layer_fits(c: &MixtralConfig, n: Size, seq: u64) -> (r: bool)
    ensures
        r == (layer_ok(*c, n@) && crate::schedule::layer_jobs_countable(*c, n@, seq as int)),
{
    proof {
        use_type_invariant(&n);
    }
    let d = Size::memory(c.dim);
    let i = Size::memory(c.intermediate);
    let e = Size::memory(c.experts);
    let q = Size::memory(c.heads).times(Size::memory(c.head_dim));
    let kv = Size::memory(c.kv_heads).times(Size::memory(c.head_dim));
    let one = Size::of(1);
    let two = Size::of(2);
    let four = Size::of(4);
    let s = Size::of(seq);
    let top = Size::memory(c.top_k);
    let shapes = shape_fits(n, d, one, false) && shape_fits(n, d, q, false) && shape_fits(n, d, kv, false) && shape_fits(
        n,
        q,
        d,
        false,
    ) && shape_fits(n, d, e, false) && (c.experts == 0 || (shape_fits(n, d, i, false) && shape_fits(n, i, d, false)));
    let jobs = n.times(q).times(two).times(four).in_word() && n.times(kv).times(two).times(four).in_word() && n.times(
        d,
    ).times(two).times(four).in_word() && n.times(d).plus(n.times(e).times(four)).times(four).in_word() && n.times(
        i,
    ).times(four).times(four).in_word() && e.plus(two).in_word() && n.times(d).times(e.plus(two)).times(four).in_word();
    let floats = n.times(d).plus(n).plus(n.times(q)).plus(n.times(kv)).plus(n.times(kv)).plus(
        n.times(Size::memory(c.heads)).times(s),
    ).plus(n.times(q)).plus(n.times(d)).plus(n).plus(n.times(e)).plus(n.times(top)).plus(n.times(top)).plus(
        e.times(n).times(i),
    ).plus(e.times(n).times(i));
    let tape = floats.times(four).plus(n.times(top).times(Size::of(8)));
    shapes && jobs && attention_fits(n, s, Size::memory(c.head_dim)) && tape.in_word() && q.in_memory() && kv.in_memory()
}

/// Whether every size that staging a model computes is a number that a word
/// holds, and no matrix has empty rows.
pub fn model_fits(c: &MixtralConfig, batch: u64, seq: u64) -> (r: bool)
    ensures
        r == crate::schedule::stageable(*c, batch as int, seq as int),
{
    let n = Size::of(batch).times(Size::of(seq));
    let ghost tokens = batch * seq;
    proof {
        use_type_invariant(&n);
        crate::mixtral::lemma_lens(*c);
        crate::theory::plan_laws::lemma_products(*c, tokens);
        lemma_shape(crate::theory::plans::final_mat(*c, tokens));
        lemma_shape(crate::theory::plans::head_mat(*c, tokens));
        if layer_ok(*c, tokens) {
            assert forall|l: int, i: int|
                0 <= l < c.layers && 0 <= i < crate::theory::plans::layer_mats(*c, l, tokens).len() implies mat_ok(
                #[trigger] crate::theory::plans::layer_mats(*c, l, tokens)[i],
            ) by {
                lemma_layer_suffices(*c, tokens, l);
            }
        }
        if c.layers > 0 && crate::schedule::stageable(*c, batch as int, seq as int) {
            assert forall|i: int| 0 <= i < crate::theory::plans::layer_mats(*c, 0, tokens).len() implies mat_ok(
                #[trigger] crate::theory::plans::layer_mats(*c, 0, tokens)[i],
            ) by {}
            lemma_layer_needs(*c, tokens);
        }
    }
    let d = Size::memory(c.dim);
    let v = Size::memory(c.vocab);
    let one = Size::of(1);
    let four = Size::of(4);
    let total = parameters(c);
    let layers = c.layers == 0 || layer_fits(c, n, seq);
    let ends = shape_fits(n, d, one, false) && shape_fits(n, d, v, false) && linear_fits(n, one, v, false);
    let table = (c.vocab == 0 || c.dim > 0) && v.times(d).times(four).plus(n.times(d).times(four)).in_word();
    n.in_word() && parameters_fit(c) && total.times(four).in_word() && layers && ends && table
}

// ----- programs -----

/// The matrices of a stage can be staged.
pub open spec fn stage_ok(s: Stage) -> bool {
    match s {
        Stage::Gemm { batch, din, dout, relu, .. } => shape_ok(batch as int, din as int, dout as int, relu) && shape_ok(
            batch as int,
            1,
            dout as int,
            false,
        ),
        Stage::Attention { .. } => crate::schedule::countable(State::stage_task(s)),
        Stage::Add { .. } => true,
    }
}

fn stage_size_fits(s: &Stage) -> (r: bool)
    ensures
        r == stage_ok(*s),
{
    match *s {
        Stage::Gemm { batch, din, dout, relu, .. } => {
            let b = Size::memory(batch);
            let k = Size::memory(din);
            let c = Size::memory(dout);
            shape_fits(b, k, c, relu) && shape_fits(b, Size::of(1), c, false)
        },
        Stage::Attention { batch, tokens, dim, .. } => {
            let t = Size::memory(tokens);
            attention_fits(Size::memory(batch).times(t), t, Size::memory(dim))
        },
        Stage::Add { .. } => true,
    }
}

/// Sizes that suit the stages suit each matrix.
proof fn lemma_stages_suffice(stages: Seq<Stage>)
    requires
        forall|i: int| 0 <= i < stages.len() ==> stage_ok(#[trigger] stages[i]),
    ensures
        forall|k: int|
            0 <= k < crate::theory::plans::program_mats(stages).len() ==> mat_ok(
                #[trigger] crate::theory::plans::program_mats(stages)[k],
            ),
{
    let f = |i: int| crate::theory::plans::stage_mats(stages[i], i);
    let all = crate::theory::plans::program_mats(stages);
    crate::theory::listing::lemma_cat(stages.len() as int, f);
    assert forall|k: int| 0 <= k < all.len() implies mat_ok(#[trigger] all[k]) by {
        let i = choose|i: int| 0 <= i < stages.len() && (#[trigger] f(i)).contains(all[k]);
        let ms = f(i);
        let j = choose|j: int| 0 <= j < ms.len() && #[trigger] ms[j] == all[k];
        assert(stage_ok(stages[i]));
        lemma_shape(ms[0]);
        lemma_shape(ms[1]);
        assert(j == 0 || j == 1);
    }
}

/// Each size of a linear stage is that of one of its matrices.
proof fn lemma_stage_needs(stages: Seq<Stage>, i: int)
    requires
        0 <= i < stages.len(),
        stages[i] is Gemm,
        forall|k: int|
            0 <= k < crate::theory::plans::program_mats(stages).len() ==> mat_ok(
                #[trigger] crate::theory::plans::program_mats(stages)[k],
            ),
    ensures
        stage_ok(stages[i]),
{
    let f = |i: int| crate::theory::plans::stage_mats(stages[i], i);
    let all = crate::theory::plans::program_mats(stages);
    crate::theory::listing::lemma_cat(stages.len() as int, f);
    let ms = f(i);
    assert forall|j: int| 0 <= j < 2 implies mat_ok(#[trigger] ms[j]) by {
        assert(f(i).contains(ms[j]));
        assert(all.contains(ms[j]));
        let k = choose|k: int| 0 <= k < all.len() && all[k] == ms[j];
        assert(mat_ok(all[k]));
    }
    lemma_shape(ms[0]);
    lemma_shape(ms[1]);
    assert(mat_ok(ms[0]) && mat_ok(ms[1]));
}

/// The bytes of the parameters and the tape of a program.
fn program_bytes(prog: &Program) -> (r: Size)
    ensures
        r@ == crate::schedule::program_bytes(prog.stages@, prog.tape_f32 as int, prog.tape_u8 as int),
{
    let ghost stages = prog.stages@;
    let mut sum = Size::of(0);
    let mut i: usize = 0;
    assert(stages.take(0) =~= Seq::<Stage>::empty());
    while i < prog.stages.len()
        invariant
            i <= prog.stages@.len(),
            stages == prog.stages@,
            ({
                let ms = crate::theory::plans::program_mats(stages.take(i as int));
                sum@ == crate::theory::plans::mats_len(ms, ms.len() as int)
            }),
        decreases prog.stages.len() - i,
    {
        proof {
            assert(stages.take(i + 1) =~= stages.take(i as int).push(stages[i as int]));
            crate::theory::plan_laws::lemma_stage_params(stages.take(i as int), stages[i as int]);
        }
        match prog.stages[i] {
            Stage::Gemm { din, dout, .. } => {
                sum = sum.plus(Size::memory(din).times(Size::memory(dout)).plus(Size::memory(dout)));
            },
            _ => {},
        }
        i = i + 1;
    }
    assert(stages.take(i as int) =~= stages);
    let tape = Size::memory(prog.tape_f32).times(Size::of(4)).plus(Size::memory(prog.tape_u8));
    sum.times(Size::of(4)).plus(tape)
}

/// Whether every size that staging a program computes is a number that a word
/// holds, and no matrix has empty rows.
pub fn program_fits(prog: &Program) -> (r: bool)
    ensures
        r == crate::schedule::program_stageable(prog.stages@, prog.tape_f32 as int, prog.tape_u8 as int),
{
    let ghost stages = prog.stages@;
    let ghost all = crate::theory::plans::program_mats(stages);
    let mut i: usize = 0;
    while i < prog.stages.len()
        invariant
            i <= prog.stages@.len(),
            stages == prog.stages@,
            all == crate::theory::plans::program_mats(stages),
            forall|k: int| 0 <= k < i ==> stage_ok(#[trigger] stages[k]),
        decreases prog.stages.len() - i,
    {
        let stage: Stage = prog.stages[i];
        if !stage_size_fits(&stage) {
            proof {
                if crate::schedule::program_stageable(stages, prog.tape_f32 as int, prog.tape_u8 as int) && stages[i as int] is Gemm {
                    assert forall|k: int| 0 <= k < all.len() implies mat_ok(#[trigger] all[k]) by {}
                    lemma_stage_needs(stages, i as int);
                }
            }
            return false;
        }
        i = i + 1;
    }
    proof {
        lemma_stages_suffice(stages);
        assert forall|k: int| 0 <= k < all.len() implies crate::theory::plan_laws::good_mat(#[trigger] all[k])
            && crate::schedule::countable(Task::Linear { matrix: all[k] }) by {
            assert(mat_ok(all[k]));
        }
    }
    program_bytes(prog).in_word()
}

/// The lengths of a program under construction.
#[derive(Clone, Copy)]
pub struct Lengths {
    pub input: Size,
    pub output: Size,
    pub params: Size,
    pub tape: Size,
    pub mask: Size,
}

impl Lengths {
    /// The lengths are those of a program.
    pub open spec fn of(self, p: Prog) -> bool {
        &&& self.input@ == p.input_len
        &&& self.output@ == p.output_len
        &&& self.params@ == p.param_len
        &&& self.tape@ == p.tape_f32
        &&& self.mask@ == p.tape_u8
    }

    fn start(input: Size) -> (r: Lengths)
        ensures
            forall|name: Seq<char>| r.of(#[trigger] Prog::start(name, input@)),
    {
        Lengths { input, output: input, params: Size::of(0), tape: Size::of(0), mask: Size::of(0) }
    }

    fn gemm(self, batch: Size, din: Size, dout: Size, relu: bool) -> (r: Lengths)
        ensures
            forall|p: Prog| self.of(p) ==> r.of(#[trigger] p.gemm(batch@, din@, dout@, relu)),
    {
        let mask = if relu {
            self.mask.plus(batch.times(dout))
        } else {
            self.mask
        };
        Lengths {
            input: self.input,
            output: batch.times(dout),
            params: self.params.plus(din.times(dout).plus(dout)),
            tape: self.tape.plus(batch.times(din)),
            mask,
        }
    }

    fn attention(self, batch: Size, tokens: Size, dim: Size) -> (r: Lengths)
        ensures
            forall|p: Prog| self.of(p) ==> r.of(#[trigger] p.attention(batch@, tokens@, dim@)),
    {
        let n = batch.times(tokens).times(dim);
        Lengths { output: n, tape: self.tape.plus(n).plus(batch.times(tokens).times(tokens)), ..self }
    }

    fn fit(&self) -> (r: bool)
        ensures
            forall|p: Prog| self.of(p) ==> r == #[trigger] p.fits(),
    {
        proof {
            use_type_invariant(&self.input);
            use_type_invariant(&self.output);
            use_type_invariant(&self.params);
            use_type_invariant(&self.tape);
            use_type_invariant(&self.mask);
        }
        self.input.in_memory() && self.output.in_memory() && self.params.in_memory() && self.tape.in_memory()
            && self.mask.in_memory()
    }
}

/// Whether the lengths of a multilayer perceptron fit in memory.
pub fn mlp_fits(batch: usize, dims: &[usize]) -> (r: bool)
    ensures
        r == {
            &&& forall|k: nat| k < dims@.len() ==> (#[trigger] Prog::mlp(batch as int, dims@, k)).fits()
            &&& forall|k: int| 0 <= k < dims@.len() ==> batch * #[trigger] dims@[k] <= usize::MAX
        },
{
    if dims.len() == 0 {
        return true;
    }
    let b = Size::memory(batch);
    let mut at = Lengths::start(b.times(Size::memory(dims[0])));
    let mut i: usize = 0;
    while i < dims.len()
        invariant
            i <= dims@.len(),
            dims@.len() > 0,
            b@ == batch,
            i < dims@.len() ==> at.of(Prog::mlp(batch as int, dims@, i as nat)),
            forall|k: nat| k < i ==> (#[trigger] Prog::mlp(batch as int, dims@, k)).fits(),
            forall|k: int| 0 <= k < i ==> batch * #[trigger] dims@[k] <= usize::MAX,
        decreases dims.len() - i,
    {
        if !at.fit() {
            assert(!Prog::mlp(batch as int, dims@, i as nat).fits());
            return false;
        }
        if !b.times(Size::memory(dims[i])).in_memory() {
            assert(batch * dims@[i as int] > usize::MAX);
            return false;
        }
        if i + 1 < dims.len() {
            at = at.gemm(b, Size::memory(dims[i]), Size::memory(dims[i + 1]), i + 1 < dims.len() - 1);
        }
        i = i + 1;
    }
    true
}

/// Whether the lengths of a residual block fit in memory.
pub fn resnet_fits(batch: usize, dim: usize, hidden: usize) -> (r: bool)
    ensures
        r == Prog::resnet(batch as int, dim as int, hidden as int).fits(),
{
    let b = Size::memory(batch);
    let d = Size::memory(dim);
    let h = Size::memory(hidden);
    let l = Lengths::start(b.times(d)).gemm(b, d, h, true).gemm(b, h, d, false);
    proof {
        let p = Prog::start("resnet_block"@, batch * dim);
        assert(l.of(p.gemm(batch as int, dim as int, hidden as int, true).gemm(batch as int, hidden as int, dim as int, false)));
        assert(l.of(Prog::resnet(batch as int, dim as int, hidden as int)));
    }
    l.fit()
}

/// Whether the lengths of a transformer block fit in memory.
pub fn transformer_fits(batch: usize, tokens: usize, dim: usize, mlp_hidden: usize) -> (r: bool)
    ensures
        r == {
            &&& batch * tokens <= usize::MAX
            &&& Prog::transformer(batch as int, tokens as int, dim as int, mlp_hidden as int).fits()
        },
{
    let b = Size::memory(batch);
    let t = Size::memory(tokens);
    let d = Size::memory(dim);
    let h = Size::memory(mlp_hidden);
    let rows = b.times(t);
    let a = Lengths::start(rows.times(d)).attention(b, t, d);
    let l = a.gemm(rows, d, h, true).gemm(rows, h, d, false);
    proof {
        let n = batch * tokens * dim;
        let p = Prog::start("transformer_block"@, n).attention(batch as int, tokens as int, dim as int);
        assert(a.of(p));
        assert(a.of(p.skip(0, n)));
        let q = p.skip(0, n).gemm(batch * tokens, dim as int, mlp_hidden as int, true);
        assert(l.of(q.gemm(batch * tokens, mlp_hidden as int, dim as int, false)));
        assert(l.of(Prog::transformer(batch as int, tokens as int, dim as int, mlp_hidden as int)));
    }
    rows.in_memory() && l.fit()
}

// ----- clusters -----

/// The buffers of a cluster together.
fn capacity(cluster: &Cluster) -> (r: Size)
    ensures
        r@ == crate::theory::plans::capacity(cluster.devs(), cluster.devs().len() as int),
{
    let ghost ds = cluster.devs();
    let mut sum = Size::of(0);
    let mut i: usize = 0;
    while i < cluster.devices.len()
        invariant
            i <= cluster.devices@.len(),
            ds == cluster.devs(),
            sum@ == crate::theory::plans::capacity(ds, i as int),
        decreases cluster.devices.len() - i,
    {
        assert(ds[i as int] == cluster.devices@[i as int]@);
        sum = sum.plus(Size::of(cluster.devices[i].buffer_bytes));
        i = i + 1;
    }
    sum
}

/// Whether staging a model on a cluster computes only numbers that words hold,
/// as far as it goes.
pub fn model_fits_on(c: &MixtralConfig, batch: u64, seq: u64, cluster: &Cluster) -> (r: bool)
    ensures
        r == crate::schedule::model_stageable(*c, batch as int, seq as int, cluster.devs()),
{
    let all = capacity(cluster);
    if !all.in_word() {
        return false;
    }
    if cluster.devices.len() == 0 {
        return true;
    }
    let n = Size::of(batch).times(Size::of(seq));
    let four = Size::of(4);
    let bytes = parameters(c).times(four);
    n.in_word() && parameters_fit(c) && bytes.in_word() && n.times(Size::memory(c.dim)).times(four).in_word() && (!bytes.at_most(
        all,
    ) || model_fits(c, batch, seq))
}

/// Whether staging a program on a cluster computes only numbers that words
/// hold, as far as it goes.
pub fn program_fits_on(prog: &Program, cluster: &Cluster) -> (r: bool)
    ensures
        r == crate::schedule::program_stageable_on(
            prog.stages@,
            prog.tape_f32 as int,
            prog.tape_u8 as int,
            cluster.devs(),
        ),
{
    let all = capacity(cluster);
    if !all.in_word() {
        return false;
    }
    if cluster.devices.len() == 0 {
        return true;
    }
    let bytes = program_bytes(prog);
    bytes.in_word() && (!bytes.at_most(all) || program_fits(prog))
}

/// Whether the sizes that the launches of a program name fit in machine words.
pub fn launches_fit(prog: &Program) -> (r: bool)
    ensures
        r == crate::kernel::emit_fits(prog@),
{
    let mut i: usize = 0;
    while i < prog.stages.len()
        invariant
            i <= prog.stages@.len(),
            forall|k: int| 0 <= k < i ==> crate::kernel::stage_fits(#[trigger] prog.stages@[k]),
        decreases prog.stages.len() - i,
    {
        let fits = match prog.stages[i] {
            Stage::Gemm { batch, din, dout, param_at, .. } => {
                let b = Size::memory(batch);
                let k = Size::memory(din);
                let c = Size::memory(dout);
                b.times(k).in_memory() && b.times(c).in_memory() && k.times(c).in_memory() && Size::memory(param_at).plus(
                    k.times(c),
                ).in_memory()
            },
            Stage::Attention { batch, tokens, dim, .. } => {
                let rows = Size::memory(batch).times(Size::memory(tokens));
                rows.in_memory() && rows.times(Size::memory(dim)).in_memory()
            },
            Stage::Add { .. } => true,
        };
        assert(fits == crate::kernel::stage_fits(prog.stages@[i as int]));
        if !fits {
            assert(!crate::kernel::stage_fits(prog@.stages[i as int]));
            return false;
        }
        i = i + 1;
    }
    true
}

} // verus!
