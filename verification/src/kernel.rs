//! Neural architectures as dependent lenses, lowered to NVIDIA kernels.
//!
//! A layer is a lens: the forward map writes the output
//! together with a residual that contains only what the backward map reads.
//! Sequencing layers is optic composition, so the composite residual is the
//! tape of the parts and the backward pass runs the parts in reverse. A
//! residual connection is an add lens with a unit residual: the skip does not
//! store a second copy of the activation, it reuses the copy already saved by
//! the branch that reads it.
//!
//! [`Program::mlp`], [`Program::resnet_block`], and [`Program::transformer_block`]
//! are the three architectures. [`emit_cuda`] lowers a program to CUDA. The
//! forward kernels are the maps `X → M × Y` and the backward kernels are the
//! maps `M × dY → dX`.
use vstd::prelude::*;
use vstd::string::StringExecFns;
use crate::text;

verus! {

/// One compiled stage. Offsets are into the flat residual tape.
#[derive(Clone, Copy, Debug, PartialEq, Eq, Structural)]
pub enum Stage {
    /// `Y = relu?(X W + b)`. The residual stores `X`, and the ReLU mask when
    /// `relu` is set. `W` and `b` stay in the parameter buffer.
    Gemm { batch: usize, din: usize, dout: usize, relu: bool, save_at: usize, mask_at: usize, param_at: usize },
    /// Self-attention with `Q = K = V = X`. The residual stores `X` and the
    /// softmax probabilities.
    Attention { batch: usize, tokens: usize, dim: usize, x_at: usize, probs_at: usize },
    /// `Y = Y + tape[from]`. No residual of its own.
    Add { from: usize, len: usize },
}

#[derive(Debug)]
pub struct Program {
    pub name: String,
    pub stages: Vec<Stage>,
    pub input_len: usize,
    pub output_len: usize,
    pub param_len: usize,
    pub tape_f32: usize,
    pub tape_u8: usize,
}

/// The values that a program holds.
#[verifier::ext_equal]
pub struct Prog {
    pub name: Seq<char>,
    pub stages: Seq<Stage>,
    pub input_len: int,
    pub output_len: int,
    pub param_len: int,
    pub tape_f32: int,
    pub tape_u8: int,
}

impl View for Program {
    type V = Prog;

    open spec fn view(&self) -> Prog {
        Prog {
            name: self.name@,
            stages: self.stages@,
            input_len: self.input_len as int,
            output_len: self.output_len as int,
            param_len: self.param_len as int,
            tape_f32: self.tape_f32 as int,
            tape_u8: self.tape_u8 as int,
        }
    }
}

impl Clone for Program {
    fn clone(&self) -> (r: Program)
        ensures
            r@ == self@,
    {
        let mut stages: Vec<Stage> = Vec::new();
        let mut i: usize = 0;
        while i < self.stages.len()
            invariant
                i <= self.stages@.len(),
                stages@ == self.stages@.take(i as int),
            decreases self.stages.len() - i,
        {
            let s: Stage = self.stages[i];
            stages.push(s);
            assert(self.stages@.take(i + 1) =~= self.stages@.take(i as int).push(self.stages@[i as int]));
            i = i + 1;
        }
        assert(self.stages@.take(i as int) =~= self.stages@);
        Program {
            name: self.name.clone(),
            stages,
            input_len: self.input_len,
            output_len: self.output_len,
            param_len: self.param_len,
            tape_f32: self.tape_f32,
            tape_u8: self.tape_u8,
        }
    }
}

impl Prog {
    /// Every length fits in a machine word.
    pub open spec fn fits(self) -> bool {
        &&& 0 <= self.input_len <= usize::MAX
        &&& 0 <= self.output_len <= usize::MAX
        &&& 0 <= self.param_len <= usize::MAX
        &&& 0 <= self.tape_f32 <= usize::MAX
        &&& 0 <= self.tape_u8 <= usize::MAX
    }

    pub open spec fn start(name: Seq<char>, input_len: int) -> Prog {
        Prog { name, stages: Seq::empty(), input_len, output_len: input_len, param_len: 0, tape_f32: 0, tape_u8: 0 }
    }

    /// The program followed by a linear layer: it saves its input, and the
    /// mask when there is one, and brings a weight and a bias.
    pub open spec fn gemm(self, batch: int, din: int, dout: int, relu: bool) -> Prog {
        Prog {
            stages: self.stages.push(
                Stage::Gemm {
                    batch: batch as usize,
                    din: din as usize,
                    dout: dout as usize,
                    relu,
                    save_at: self.tape_f32 as usize,
                    mask_at: self.tape_u8 as usize,
                    param_at: self.param_len as usize,
                },
            ),
            tape_f32: self.tape_f32 + batch * din,
            tape_u8: self.tape_u8 + if relu {
                batch * dout
            } else {
                0
            },
            param_len: self.param_len + (din * dout + dout),
            output_len: batch * dout,
            ..self
        }
    }

    /// The program followed by self-attention: it saves its tokens and the
    /// probabilities.
    pub open spec fn attention(self, batch: int, tokens: int, dim: int) -> Prog {
        let n = batch * tokens * dim;
        Prog {
            stages: self.stages.push(
                Stage::Attention {
                    batch: batch as usize,
                    tokens: tokens as usize,
                    dim: dim as usize,
                    x_at: self.tape_f32 as usize,
                    probs_at: (self.tape_f32 + n) as usize,
                },
            ),
            tape_f32: self.tape_f32 + n + batch * tokens * tokens,
            output_len: n,
            ..self
        }
    }

    /// The program followed by the addition of a saved activation. It saves
    /// nothing.
    pub open spec fn skip(self, from: int, len: int) -> Prog {
        Prog { stages: self.stages.push(Stage::Add { from: from as usize, len: len as usize }), ..self }
    }

    /// The first `k` layers of a multilayer perceptron. ReLU sits between
    /// linear layers, not after the last one.
    pub open spec fn mlp(batch: int, dims: Seq<usize>, k: nat) -> Prog
        decreases k,
    {
        if k == 0 {
            Prog::start("mlp"@, batch * dims[0])
        } else {
            Prog::mlp(batch, dims, (k - 1) as nat).gemm(batch, dims[k - 1] as int, dims[k as int] as int, k < dims.len() - 1)
        }
    }

    /// `x + W2 relu(W1 x + b1) + b2`.
    pub open spec fn resnet(batch: int, dim: int, hidden: int) -> Prog {
        Prog::start("resnet_block"@, batch * dim).gemm(batch, dim, hidden, true).gemm(batch, hidden, dim, false).skip(
            0,
            batch * dim,
        )
    }

    /// Residual self-attention, then a residual MLP.
    pub open spec fn transformer(batch: int, tokens: int, dim: int, hidden: int) -> Prog {
        let n = batch * tokens * dim;
        let a = Prog::start("transformer_block"@, n).attention(batch, tokens, dim).skip(0, n);
        a.gemm(batch * tokens, dim, hidden, true).gemm(batch * tokens, hidden, dim, false).skip(a.tape_f32, n)
    }
}

/// What the residual of a perceptron stores: the input of each layer, and a
/// mask for each hidden layer. No output is stored.
pub proof fn law_mlp_residual(batch: int, dims: Seq<usize>, k: nat)
    requires
        batch >= 0,
        0 < k < dims.len(),
    ensures
        ({
            let p = Prog::mlp(batch, dims, k);
            let n = dims.len() as int;
            &&& p.tape_f32 == crate::theory::sums::sum(k as int, |i: int| batch * dims[i])
            &&& p.tape_u8 == crate::theory::sums::sum(
                if k < n - 1 {
                    k as int
                } else {
                    n - 2
                },
                |i: int| batch * dims[i + 1],
            )
            &&& p.param_len == crate::theory::sums::sum(k as int, |i: int| dims[i] * dims[i + 1] + dims[i + 1])
            &&& p.input_len == batch * dims[0]
            &&& p.output_len == batch * dims[k as int]
            &&& p.stages.len() == k
        }),
    decreases k,
{
    let saved = |i: int| batch * dims[i];
    let masks = |i: int| batch * dims[i + 1];
    let params = |i: int| dims[i] * dims[i + 1] + dims[i + 1];
    if k > 1 {
        law_mlp_residual(batch, dims, (k - 1) as nat);
    } else {
        assert(Prog::mlp(batch, dims, 0).tape_f32 == 0);
        assert(crate::theory::sums::sum(0, saved) == 0);
        assert(crate::theory::sums::sum(0, masks) == 0);
        assert(crate::theory::sums::sum(0, params) == 0);
    }
    assert(crate::theory::sums::sum(k as int, saved) == crate::theory::sums::sum(k - 1, saved) + saved(k - 1));
    assert(crate::theory::sums::sum(k as int, params) == crate::theory::sums::sum(k - 1, params) + params(k - 1));
    if k < dims.len() - 1 {
        assert(crate::theory::sums::sum(k as int, masks) == crate::theory::sums::sum(k - 1, masks) + masks(k - 1));
    }
}

/// What the residual of a residual block stores: its input, the hidden
/// activation and one mask. The skip adds the input that the first layer saved
/// at the front of the tape.
pub proof fn law_resnet_residual(batch: int, dim: int, hidden: int)
    requires
        batch >= 0,
        dim >= 0,
        hidden >= 0,
    ensures
        ({
            let p = Prog::resnet(batch, dim, hidden);
            &&& p.tape_f32 == batch * dim + batch * hidden
            &&& p.tape_u8 == batch * hidden
            &&& p.input_len == batch * dim
            &&& p.output_len == batch * dim
            &&& p.stages.len() == 3
            &&& p.stages[0]->save_at == 0
            &&& p.stages[2] == (Stage::Add { from: 0, len: (batch * dim) as usize })
        }),
{
}

/// What the residual of a transformer block stores: the tokens, the
/// probabilities, the attention output, the hidden activation and one mask.
/// The first skip adds the tokens that attention saved, and the second the
/// activation that the first linear layer saved.
pub proof fn law_transformer_residual(batch: int, tokens: int, dim: int, hidden: int)
    requires
        batch >= 0,
        tokens >= 0,
        dim >= 0,
        hidden >= 0,
    ensures
        ({
            let p = Prog::transformer(batch, tokens, dim, hidden);
            let n = batch * tokens * dim;
            &&& p.tape_f32 == n + batch * tokens * tokens + n + batch * tokens * hidden
            &&& p.tape_u8 == batch * tokens * hidden
            &&& p.input_len == n
            &&& p.output_len == n
            &&& p.stages.len() == 5
            &&& p.stages[0]->x_at == 0
            &&& p.stages[1] == (Stage::Add { from: 0, len: n as usize })
            &&& p.stages[4] == (Stage::Add { from: p.stages[2]->save_at, len: n as usize })
        }),
{
}

/// A stage saves an activation of so many elements at a place of the tape.
pub open spec fn saves(s: Stage, at: usize, len: int) -> bool {
    match s {
        Stage::Gemm { batch, din, save_at, .. } => save_at == at && batch * din == len,
        Stage::Attention { batch, tokens, dim, x_at, .. } => x_at == at && batch * tokens * dim == len,
        Stage::Add { .. } => false,
    }
}

/// Each skip adds, whole, an activation that an earlier stage saved. Walking
/// back, its cotangent meets that stage.
pub open spec fn skips_read_saves(stages: Seq<Stage>) -> bool {
    forall|i: int|
        0 <= i < stages.len() && (#[trigger] stages[i]) is Add ==> exists|j: int|
            0 <= j < i && #[trigger] saves(stages[j], stages[i]->from, stages[i]->len as int)
}

/// The skips of a perceptron, of a residual block and of a transformer block
/// add activations that their stages save.
pub proof fn law_skips_read_saves(batch: usize, dims: Seq<usize>, k: nat, tokens: usize, dim: usize, hidden: usize)
    requires
        k < dims.len(),
    ensures
        skips_read_saves(Prog::mlp(batch as int, dims, k).stages),
        Prog::resnet(batch as int, dim as int, hidden as int).fits() ==> skips_read_saves(
            Prog::resnet(batch as int, dim as int, hidden as int).stages,
        ),
        batch * tokens <= usize::MAX && Prog::transformer(batch as int, tokens as int, dim as int, hidden as int).fits()
            ==> skips_read_saves(Prog::transformer(batch as int, tokens as int, dim as int, hidden as int).stages),
    decreases k,
{
    if k > 0 {
        law_skips_read_saves(batch, dims, (k - 1) as nat, tokens, dim, hidden);
        let before = Prog::mlp(batch as int, dims, (k - 1) as nat).stages;
        let after = Prog::mlp(batch as int, dims, k).stages;
        assert forall|i: int| 0 <= i < after.len() && (#[trigger] after[i]) is Add implies exists|j: int|
            0 <= j < i && #[trigger] saves(after[j], after[i]->from, after[i]->len as int) by {
            assert(after[i] == before[i]);
            let j = choose|j: int| 0 <= j < i && #[trigger] saves(before[j], before[i]->from, before[i]->len as int);
            assert(saves(after[j], after[i]->from, after[i]->len as int));
        }
    }
    let r = Prog::resnet(batch as int, dim as int, hidden as int);
    if r.fits() {
        assert(saves(r.stages[0], r.stages[2]->from, r.stages[2]->len as int));
    }
    let t = Prog::transformer(batch as int, tokens as int, dim as int, hidden as int);
    if batch * tokens <= usize::MAX && t.fits() {
        assert(0 <= batch * tokens) by (nonlinear_arith)
            requires batch >= 0, tokens >= 0;
        assert(saves(t.stages[0], t.stages[1]->from, t.stages[1]->len as int));
        assert(saves(t.stages[2], t.stages[4]->from, t.stages[4]->len as int));
    }
}

/// The floats that a stage saves on the tape.
pub open spec fn saved_len(s: Stage) -> int {
    match s {
        Stage::Gemm { batch, din, .. } => batch * din,
        Stage::Attention { batch, tokens, dim, .. } => batch * tokens * dim + batch * tokens * tokens,
        Stage::Add { .. } => 0,
    }
}

/// The bytes of the mask that a stage saves.
pub open spec fn mask_len(s: Stage) -> int {
    match s {
        Stage::Gemm { batch, dout, relu, .. } => if relu {
            batch * dout
        } else {
            0
        },
        _ => 0,
    }
}

/// The parameters of a stage: a weight and a bias.
pub open spec fn weight_len(s: Stage) -> int {
    match s {
        Stage::Gemm { din, dout, .. } => din * dout + dout,
        _ => 0,
    }
}

/// What the first `k` stages save.
pub open spec fn floats_before(stages: Seq<Stage>, k: int) -> int {
    crate::theory::sums::sum(k, |j: int| saved_len(stages[j]))
}

pub open spec fn masks_before(stages: Seq<Stage>, k: int) -> int {
    crate::theory::sums::sum(k, |j: int| mask_len(stages[j]))
}

pub open spec fn weights_before(stages: Seq<Stage>, k: int) -> int {
    crate::theory::sums::sum(k, |j: int| weight_len(stages[j]))
}

/// The offsets of a program leave no gap and no overlap. Each stage saves
/// where the stages before it have stopped, and the tape, the masks and the
/// parameters end where the last stage stops.
pub open spec fn tight(p: Prog) -> bool {
    &&& p.tape_f32 == floats_before(p.stages, p.stages.len() as int)
    &&& p.tape_u8 == masks_before(p.stages, p.stages.len() as int)
    &&& p.param_len == weights_before(p.stages, p.stages.len() as int)
    &&& forall|k: int|
        0 <= k < p.stages.len() ==> match #[trigger] p.stages[k] {
            Stage::Gemm { save_at, mask_at, param_at, .. } => save_at == floats_before(p.stages, k) && mask_at == masks_before(p.stages, k) && param_at
                == weights_before(p.stages, k),
            Stage::Attention { batch, tokens, dim, x_at, probs_at } => x_at == floats_before(p.stages, k) && probs_at == x_at + batch
                * tokens * dim,
            Stage::Add { .. } => true,
        }
}

proof fn lemma_tight_push(p: Prog, q: Prog, s: Stage)
    requires
        tight(p),
        q.stages == p.stages.push(s),
        q.tape_f32 == p.tape_f32 + saved_len(s),
        q.tape_u8 == p.tape_u8 + mask_len(s),
        q.param_len == p.param_len + weight_len(s),
        match s {
            Stage::Gemm { save_at, mask_at, param_at, .. } => save_at == p.tape_f32 && mask_at == p.tape_u8 && param_at
                == p.param_len,
            Stage::Attention { batch, tokens, dim, x_at, probs_at } => x_at == p.tape_f32 && probs_at == x_at + batch
                * tokens * dim,
            Stage::Add { .. } => true,
        },
    ensures
        tight(q),
{
    let n = p.stages.len() as int;
    assert forall|k: int| 0 <= k <= n implies #[trigger] floats_before(p.stages, k) == floats_before(q.stages, k)
        && masks_before(p.stages, k) == masks_before(q.stages, k) && weights_before(p.stages, k) == weights_before(
        q.stages,
        k,
    ) by {
        crate::theory::sums::lemma_sum_ext(k, |j: int| saved_len(p.stages[j]), |j: int| saved_len(q.stages[j]));
        crate::theory::sums::lemma_sum_ext(k, |j: int| mask_len(p.stages[j]), |j: int| mask_len(q.stages[j]));
        crate::theory::sums::lemma_sum_ext(k, |j: int| weight_len(p.stages[j]), |j: int| weight_len(q.stages[j]));
    }
    assert(floats_before(p.stages, n) == floats_before(q.stages, n));
    assert forall|k: int| 0 <= k < q.stages.len() implies match #[trigger] q.stages[k] {
        Stage::Gemm { save_at, mask_at, param_at, .. } => save_at == floats_before(q.stages, k) && mask_at == masks_before(
            q.stages,
            k,
        ) && param_at == weights_before(q.stages, k),
        Stage::Attention { batch, tokens, dim, x_at, probs_at } => x_at == floats_before(q.stages, k) && probs_at == x_at
            + batch * tokens * dim,
        Stage::Add { .. } => true,
    } by {
        assert(floats_before(p.stages, k) == floats_before(q.stages, k));
        if k < n {
            assert(q.stages[k] == p.stages[k]);
        }
    }
}

/// However a program is put together, its offsets leave no gap and no overlap.
pub proof fn law_offsets(p: Prog, batch: usize, a: usize, b: usize, relu: bool)
    ensures
        forall|name: Seq<char>, n: int| tight(#[trigger] Prog::start(name, n)),
        tight(p) && p.fits() ==> tight(p.gemm(batch as int, a as int, b as int, relu)),
        tight(p) && p.fits() && p.attention(batch as int, a as int, b as int).fits() ==> tight(
            p.attention(batch as int, a as int, b as int),
        ),
        tight(p) ==> tight(p.skip(a as int, b as int)),
{
    assert forall|name: Seq<char>, n: int| tight(#[trigger] Prog::start(name, n)) by {
        let s = Prog::start(name, n);
        assert(floats_before(s.stages, 0) == 0 && masks_before(s.stages, 0) == 0 && weights_before(s.stages, 0) == 0);
    }
    if tight(p) {
        lemma_tight_push(p, p.skip(a as int, b as int), p.skip(a as int, b as int).stages.last());
        if p.fits() {
            let g = p.gemm(batch as int, a as int, b as int, relu);
            lemma_tight_push(p, g, g.stages.last());
            let t = p.attention(batch as int, a as int, b as int);
            if t.fits() {
                assert(0 <= batch * a) by (nonlinear_arith) requires batch >= 0, a >= 0;
                assert(0 <= batch * a * b && 0 <= batch * a * a) by (nonlinear_arith)
                    requires 0 <= batch * a, a >= 0, b >= 0;
                lemma_tight_push(p, t, t.stages.last());
            }
        }
    }
}

/// What the stages of the three architectures are. A perceptron has a linear
/// layer between each two widths, with a ReLU behind all but the last. The
/// blocks have theirs between the widths that they name, with a ReLU between
/// the two layers and none behind.
pub proof fn law_layers(batch: usize, dims: Seq<usize>, k: nat, j: int, tokens: usize, dim: usize, hidden: usize)
    requires
        0 <= j < k < dims.len(),
    ensures
        Prog::mlp(batch as int, dims, k).stages.len() == k,
        Prog::mlp(batch as int, dims, k).stages[j] matches Stage::Gemm { batch: n, din, dout, relu, .. } && n == batch && din
            == dims[j] && dout == dims[j + 1] && relu == (j + 2 < dims.len()),
        ({
            let r = Prog::resnet(batch as int, dim as int, hidden as int);
            &&& r.stages.len() == 3
            &&& r.stages[0] matches Stage::Gemm { batch: n, din, dout, relu, .. } && n == batch && din == dim && dout == hidden
                && relu
            &&& r.stages[1] matches Stage::Gemm { batch: n, din, dout, relu, .. } && n == batch && din == hidden && dout == dim
                && !relu
            &&& r.stages[2] is Add
        }),
        batch * tokens <= usize::MAX ==> {
            let t = Prog::transformer(batch as int, tokens as int, dim as int, hidden as int);
            &&& t.stages.len() == 5
            &&& t.stages[0] matches Stage::Attention { batch: n, tokens: m, dim: d, .. } && n == batch && m == tokens && d == dim
            &&& t.stages[1] is Add
            &&& t.stages[2] matches Stage::Gemm { batch: n, din, dout, relu, .. } && n == batch * tokens && din == dim && dout
                == hidden && relu
            &&& t.stages[3] matches Stage::Gemm { batch: n, din, dout, relu, .. } && n == batch * tokens && din == hidden
                && dout == dim && !relu
            &&& t.stages[4] is Add
        },
    decreases k,
{
    assert(0 <= batch * tokens) by (nonlinear_arith) requires batch >= 0, tokens >= 0;
    lemma_mlp_len(batch, dims, (k - 1) as nat);
    if j < k - 1 {
        law_layers(batch, dims, (k - 1) as nat, j, tokens, dim, hidden);
    }
}

proof fn lemma_mlp_len(batch: usize, dims: Seq<usize>, k: nat)
    ensures
        Prog::mlp(batch as int, dims, k).stages.len() == k,
    decreases k,
{
    if k > 0 {
        lemma_mlp_len(batch, dims, (k - 1) as nat);
    }
}

/// A program under construction.
struct Built {
    prog: Program,
}

impl Built {
    fn new(name: &str, input_len: usize) -> (r: Built)
        ensures
            r.prog@ == Prog::start(name@, input_len as int),
    {
        Built {
            prog: Program {
                name: String::from_str(name),
                stages: Vec::new(),
                input_len,
                output_len: input_len,
                param_len: 0,
                tape_f32: 0,
                tape_u8: 0,
            },
        }
    }

    fn gemm(&mut self, batch: usize, din: usize, dout: usize, relu: bool)
        requires
            old(self).prog@.gemm(batch as int, din as int, dout as int, relu).fits(),
            old(self).prog@.fits(),
            batch * dout <= usize::MAX,
        ensures
            final(self).prog@ == old(self).prog@.gemm(batch as int, din as int, dout as int, relu),
    {
        let ghost want = self.prog@.gemm(batch as int, din as int, dout as int, relu);
        let save_at: usize = self.prog.tape_f32;
        let mask_at: usize = self.prog.tape_u8;
        let param_at: usize = self.prog.param_len;
        proof {
            assert(0 <= batch * din && 0 <= batch * dout && 0 <= din * dout) by (nonlinear_arith)
                requires batch >= 0, din >= 0, dout >= 0;
        }
        self.prog.stages.push(Stage::Gemm { batch, din, dout, relu, save_at, mask_at, param_at });
        self.prog.tape_f32 = save_at + batch * din;
        if relu {
            self.prog.tape_u8 = mask_at + batch * dout;
        }
        self.prog.param_len = param_at + (din * dout + dout);
        self.prog.output_len = batch * dout;
        assert(self.prog@.stages =~= want.stages);
    }

    /// Appends attention and returns where its tokens are saved.
    fn attention(&mut self, batch: usize, tokens: usize, dim: usize) -> (x_at: usize)
        requires
            tokens <= 64,
            old(self).prog@.attention(batch as int, tokens as int, dim as int).fits(),
            old(self).prog@.fits(),
            batch * tokens <= usize::MAX,
        ensures
            final(self).prog@ == old(self).prog@.attention(batch as int, tokens as int, dim as int),
            x_at == old(self).prog@.tape_f32,
    {
        let ghost want = self.prog@.attention(batch as int, tokens as int, dim as int);
        proof {
            assert(0 <= batch * tokens) by (nonlinear_arith) requires batch >= 0, tokens >= 0;
            assert(0 <= batch * tokens * dim && 0 <= batch * tokens * tokens) by (nonlinear_arith)
                requires 0 <= batch * tokens, dim >= 0, tokens >= 0;
        }
        let x_at: usize = self.prog.tape_f32;
        let n: usize = batch * tokens * dim;
        let probs_at: usize = x_at + n;
        self.prog.tape_f32 = probs_at + batch * tokens * tokens;
        self.prog.stages.push(Stage::Attention { batch, tokens, dim, x_at, probs_at });
        self.prog.output_len = n;
        assert(self.prog@.stages =~= want.stages);
        x_at
    }

    fn add(&mut self, from: usize, len: usize)
        ensures
            final(self).prog@ == old(self).prog@.skip(from as int, len as int),
    {
        let ghost want = self.prog@.skip(from as int, len as int);
        self.prog.stages.push(Stage::Add { from, len });
        assert(self.prog@.stages =~= want.stages);
    }
}

impl Program {
    /// Multilayer perceptron. ReLU sits between linear layers, not after the
    /// last one. Each linear lens stores its input; each ReLU stores a mask.
    pub fn mlp(batch: usize, dims: &[usize]) -> (r: Program)
        requires
            dims@.len() >= 2,
            forall|k: nat| k < dims@.len() ==> (#[trigger] Prog::mlp(batch as int, dims@, k)).fits(),
            forall|k: int| 0 <= k < dims@.len() ==> batch * #[trigger] dims@[k] <= usize::MAX,
        ensures
            r@ == Prog::mlp(batch as int, dims@, (dims@.len() - 1) as nat),
    {
        proof {
            assert(Prog::mlp(batch as int, dims@, 0).fits());
        }
        let mut b = Built::new("mlp", batch * dims[0]);
        let mut i: usize = 0;
        while i + 1 < dims.len()
            invariant
                dims@.len() >= 2,
                i < dims@.len(),
                forall|k: nat| k < dims@.len() ==> (#[trigger] Prog::mlp(batch as int, dims@, k)).fits(),
                forall|k: int| 0 <= k < dims@.len() ==> batch * #[trigger] dims@[k] <= usize::MAX,
                b.prog@ == Prog::mlp(batch as int, dims@, i as nat),
            decreases dims.len() - i,
        {
            proof {
                assert(Prog::mlp(batch as int, dims@, i as nat).fits());
                assert(Prog::mlp(batch as int, dims@, (i + 1) as nat).fits());
                assert(batch * dims@[i + 1] <= usize::MAX);
            }
            let relu = i + 1 < dims.len() - 1;
            b.gemm(batch, dims[i], dims[i + 1], relu);
            i = i + 1;
        }
        b.prog
    }

    /// Pre-activation-free ResNet block `x + W2 relu(W1 x + b1) + b2`.
    /// The skip add stores nothing: `W1` already saved `x`.
    pub fn resnet_block(batch: usize, dim: usize, hidden: usize) -> (r: Program)
        requires
            Prog::resnet(batch as int, dim as int, hidden as int).fits(),
        ensures
            r@ == Prog::resnet(batch as int, dim as int, hidden as int),
    {
        proof {
            assert(0 <= batch * dim && 0 <= batch * hidden && 0 <= dim * hidden && 0 <= hidden * dim) by (nonlinear_arith)
                requires batch >= 0, dim >= 0, hidden >= 0;
        }
        let n: usize = batch * dim;
        let mut b = Built::new("resnet_block", n);
        let x_at: usize = b.prog.tape_f32;
        b.gemm(batch, dim, hidden, true);
        b.gemm(batch, hidden, dim, false);
        b.add(x_at, n);
        b.prog
    }

    /// Transformer block: residual self-attention, then a residual MLP.
    /// Attention's residual is the tokens plus the softmax. The skip add
    /// reuses those tokens. The MLP's first linear saves the attention output
    /// for its own skip.
    pub fn transformer_block(batch: usize, tokens: usize, dim: usize, mlp_hidden: usize) -> (r: Program)
        requires
            tokens <= 64,
            batch * tokens <= usize::MAX,
            Prog::transformer(batch as int, tokens as int, dim as int, mlp_hidden as int).fits(),
        ensures
            r@ == Prog::transformer(batch as int, tokens as int, dim as int, mlp_hidden as int),
    {
        proof {
            let rows = batch * tokens;
            assert(0 <= rows) by (nonlinear_arith) requires batch >= 0, tokens >= 0, rows == batch * tokens;
            assert(0 <= rows * dim && 0 <= rows * tokens && 0 <= rows * mlp_hidden && 0 <= dim * mlp_hidden && 0 <= mlp_hidden
                * dim) by (nonlinear_arith)
                requires rows >= 0, dim >= 0, tokens >= 0, mlp_hidden >= 0;
        }
        let n: usize = batch * tokens * dim;
        let mut b = Built::new("transformer_block", n);
        let x_at: usize = b.attention(batch, tokens, dim);
        b.add(x_at, n);
        let y_at: usize = b.prog.tape_f32;
        b.gemm(batch * tokens, dim, mlp_hidden, true);
        b.gemm(batch * tokens, mlp_hidden, dim, false);
        b.add(y_at, n);
        b.prog
    }
}

// ----- CUDA -----

/// The kernels of a linear layer; `$a` is the stage.
pub const GEMM_KERNELS: &'static str = r#"
__global__ void fwd_gemm_$a(const float* X, const float* W, const float* bias, float* Y, unsigned char* mask,
                                int B, int Din, int Dout, int relu) {
    int idx = blockIdx.x * blockDim.x + threadIdx.x;
    if (idx >= B * Dout) return;
    int m = idx / Dout;
    int n = idx - m * Dout;
    float acc = bias[n];
    for (int k = 0; k < Din; ++k) acc += X[m * Din + k] * W[k * Dout + n];
    if (relu) {
        mask[idx] = acc > 0.f ? 1 : 0;
        Y[idx] = acc > 0.f ? acc : 0.f;
    } else {
        Y[idx] = acc;
    }
}
__global__ void bwd_relu_$a(float* dY, const unsigned char* mask, int n) {
    int i = blockIdx.x * blockDim.x + threadIdx.x;
    if (i < n && mask[i] == 0) dY[i] = 0.f;
}
__global__ void bwd_dx_$a(const float* dY, const float* W, float* dX, int B, int Din, int Dout) {
    int idx = blockIdx.x * blockDim.x + threadIdx.x;
    if (idx >= B * Din) return;
    int m = idx / Din;
    int k = idx - m * Din;
    float acc = 0.f;
    for (int n = 0; n < Dout; ++n) acc += dY[m * Dout + n] * W[k * Dout + n];
    dX[idx] = acc;
}
__global__ void bwd_dw_$a(const float* X, const float* dY, float* dW, int B, int Din, int Dout) {
    int idx = blockIdx.x * blockDim.x + threadIdx.x;
    if (idx >= Din * Dout) return;
    int k = idx / Dout;
    int n = idx - k * Dout;
    float acc = 0.f;
    for (int m = 0; m < B; ++m) acc += X[m * Din + k] * dY[m * Dout + n];
    dW[idx] = acc;
}
__global__ void bwd_db_$a(const float* dY, float* db, int B, int Dout) {
    int n = blockIdx.x * blockDim.x + threadIdx.x;
    if (n >= Dout) return;
    float acc = 0.f;
    for (int m = 0; m < B; ++m) acc += dY[m * Dout + n];
    db[n] = acc;
}
__global__ void add_skip_$a(float* dx, const float* extra, int n) {
    int i = blockIdx.x * blockDim.x + threadIdx.x;
    if (i < n) dx[i] += extra[i];
}
"#;

/// The kernel of a skip; `$a` is the stage.
pub const ADD_KERNEL: &'static str = r#"
__global__ void add_fwd_$a(float* y, const float* extra, int n) {
    int i = blockIdx.x * blockDim.x + threadIdx.x;
    if (i < n) y[i] += extra[i];
}
"#;

/// The kernels of attention; `$a` is the stage.
pub const ATTENTION_KERNELS: &'static str = r#"
__global__ void fwd_attn_$a(const float* X, float* probs, float* Y, int B, int T, int D) {
    int row = blockIdx.x * blockDim.x + threadIdx.x;
    if (row >= B * T) return;
    int b = row / T;
    int i = row - b * T;
    float scale = rsqrtf((float)D);
    float row_s[64];
    float max_s = -1e30f;
    for (int j = 0; j < T; ++j) {
        float dot = 0.f;
        for (int d = 0; d < D; ++d)
            dot += X[(b * T + i) * D + d] * X[(b * T + j) * D + d];
        row_s[j] = dot * scale;
        max_s = fmaxf(max_s, row_s[j]);
    }
    float sum = 0.f;
    for (int j = 0; j < T; ++j) {
        row_s[j] = expf(row_s[j] - max_s);
        sum += row_s[j];
    }
    for (int j = 0; j < T; ++j) {
        row_s[j] /= sum;
        probs[(b * T + i) * T + j] = row_s[j];
    }
    for (int d = 0; d < D; ++d) {
        float acc = 0.f;
        for (int j = 0; j < T; ++j) acc += row_s[j] * X[(b * T + j) * D + d];
        Y[(b * T + i) * D + d] = acc;
    }
}
__global__ void bwd_attn_$a(const float* X, const float* probs, const float* dY, float* dX,
                                int B, int T, int D) {
    int idx = blockIdx.x * blockDim.x + threadIdx.x;
    int n = B * T * D;
    if (idx >= n) return;
    int tmp = idx;
    int d = tmp % D; tmp /= D;
    int t = tmp % T; tmp /= T;
    int b = tmp;
    float scale = rsqrtf((float)D);
    float dv = 0.f, dq = 0.f, dk = 0.f;
    for (int i = 0; i < T; ++i) {
        float p = probs[(b * T + i) * T + t];
        dv += p * dY[(b * T + i) * D + d];
    }
    for (int j = 0; j < T; ++j) {
        float dot_da = 0.f;
        float mean = 0.f;
        for (int k = 0; k < T; ++k) {
            float dak = 0.f;
            for (int e = 0; e < D; ++e)
                dak += dY[(b * T + t) * D + e] * X[(b * T + k) * D + e];
            float pk = probs[(b * T + t) * T + k];
            mean += pk * dak;
            if (k == j) dot_da = dak;
        }
        float p = probs[(b * T + t) * T + j];
        float ds = p * (dot_da - mean) * scale;
        dq += ds * X[(b * T + j) * D + d];
    }
    for (int i = 0; i < T; ++i) {
        float dot_da = 0.f;
        float mean = 0.f;
        for (int k = 0; k < T; ++k) {
            float dak = 0.f;
            for (int e = 0; e < D; ++e)
                dak += dY[(b * T + i) * D + e] * X[(b * T + k) * D + e];
            float pk = probs[(b * T + i) * T + k];
            mean += pk * dak;
            if (k == t) dot_da = dak;
        }
        float p = probs[(b * T + i) * T + t];
        float ds = p * (dot_da - mean) * scale;
        dk += ds * X[(b * T + i) * D + d];
    }
    dX[(b * T + t) * D + d] = dv + dq + dk;
}
__global__ void add_skip_$a(float* dx, const float* extra, int n) {
    int i = blockIdx.x * blockDim.x + threadIdx.x;
    if (i < n) dx[i] += extra[i];
}
"#;

/// Launches of a linear layer: save the input, then run the layer. `$a` save
/// offset, `$b` source buffer, `$c` input length, `$d` stage, `$e` output
/// length, `$f` weight offset, `$g` bias offset, `$h` target buffer, `$i` mask
/// offset, `$j` batch, `$k` input width, `$l` output width, `$m` ReLU flag.
pub const GEMM_FORWARD: &'static str =
    "    cudaMemcpy(dtape + $a, $b, $c * sizeof(float), cudaMemcpyDeviceToDevice);
    fwd_gemm_$d<<<grid($e), 128>>>($b, dparams + $f, dparams + $g, $h, dmask + $i, $j, $k, $l, $m);
";

/// Launches of the adjoint of a linear layer. `$a` ReLU flag, `$b` stage, `$c`
/// output length, `$d` mask offset, `$e` input length, `$f` weight offset, `$g`
/// batch, `$h` input width, `$i` output width, `$j` weight length, `$k` save
/// offset, `$l` bias offset.
pub const GEMM_BACKWARD: &'static str =
    "    if ($a) bwd_relu_$b<<<grid($c), 128>>>(ddy, dmask + $d, $c);
    bwd_dx_$b<<<grid($e), 128>>>(ddy, dparams + $f, ddx_tmp, $g, $h, $i);
    bwd_dw_$b<<<grid($j), 128>>>(dtape + $k, ddy, ddp + $f, $g, $h, $i);
    bwd_db_$b<<<grid($i), 128>>>(ddy, ddp + $l, $g, $i);
    add_skip_$b<<<grid($e), 128>>>(ddx_tmp, dside + $k, $e);
    cudaMemcpy(ddy, ddx_tmp, $e * sizeof(float), cudaMemcpyDeviceToDevice);
";

/// Launches of attention. `$a` token offset, `$b` source buffer, `$c` length,
/// `$d` stage, `$e` rows, `$f` probability offset, `$g` target buffer, `$h`
/// batch, `$i` tokens, `$j` width.
pub const ATTENTION_FORWARD: &'static str =
    "    cudaMemcpy(dtape + $a, $b, $c * sizeof(float), cudaMemcpyDeviceToDevice);
    fwd_attn_$d<<<grid($e), 128>>>($b, dtape + $f, $g, $h, $i, $j);
";

/// Launches of the adjoint of attention. `$a` stage, `$b` length, `$c` token
/// offset, `$d` probability offset, `$e` batch, `$f` tokens, `$g` width.
pub const ATTENTION_BACKWARD: &'static str =
    "    bwd_attn_$a<<<grid($b), 128>>>(dtape + $c, dtape + $d, ddy, ddx_tmp, $e, $f, $g);
    add_skip_$a<<<grid($b), 128>>>(ddx_tmp, dside + $c, $b);
    cudaMemcpy(ddy, ddx_tmp, $b * sizeof(float), cudaMemcpyDeviceToDevice);
";

/// Launch of a skip: `$a` stage, `$b` length, `$c` buffer, `$d` saved offset.
pub const ADD_FORWARD: &'static str = "    add_fwd_$a<<<grid($b), 128>>>($c, dtape + $d, $b);
";

/// Launch of the adjoint of a skip: the cotangent waits beside the tape for the
/// stage that saved the activation. `$a` stage, `$b` length, `$c` saved offset.
pub const ADD_BACKWARD: &'static str = "    add_fwd_$a<<<grid($b), 128>>>(dside + $c, ddy, $b);
";

/// What precedes the forward launches.
pub const FORWARD_START: &'static str =
    "    cudaMemcpy(buf0, h_x, in_bytes, cudaMemcpyHostToDevice);
    cudaMemset(dtape, 0, tape_f32_bytes);
    cudaMemset(dmask, 0, tape_u8_bytes);
";

/// What precedes the backward launches.
pub const BACKWARD_START: &'static str =
    "    cudaMemset(ddy, 0, max_activ * sizeof(float));
    std::vector<float> h_dy(out_len, 1.f);
    cudaMemcpy(ddy, h_dy.data(), out_bytes, cudaMemcpyHostToDevice);
    cudaMemset(ddp, 0, param_bytes);
    cudaMemset(dside, 0, tape_f32_bytes);
";

pub const GRID_HELPER: &'static str = "int grid(int n) { return (n + 127) / 128; }
";

/// The whole source. `$a` grid helper, `$b` kernels, `$c` input length, `$d`
/// output length, `$e` parameter length, `$f` tape length, `$g` mask length,
/// `$h` buffer length, `$i` input, `$j` parameters, `$k` expected output, `$l`
/// expected input cotangent, `$m` expected parameter cotangent, `$n` forward
/// launches, `$o` output buffer, `$p` backward launches, `$q` name.
pub const SOURCE: &'static str = r#"
#include <cuda_runtime.h>
#include <cstdio>
#include <vector>
#include <cmath>
$a
$b
static int fail(const char* msg) { printf("FAIL %s\n", msg); return 1; }
int main() {
    const int in_len = $c;
    const int out_len = $d;
    const int param_len = $e;
    const int tape_f32 = $f;
    const int tape_u8 = $g;
    const int max_activ = $h;
    const size_t in_bytes = in_len * sizeof(float);
    const size_t out_bytes = out_len * sizeof(float);
    const size_t param_bytes = param_len * sizeof(float);
    const size_t tape_f32_bytes = (tape_f32 > 0 ? tape_f32 : 1) * sizeof(float);
    const size_t tape_u8_bytes = (tape_u8 > 0 ? tape_u8 : 1) * sizeof(unsigned char);
    const float h_x[] = { $i };
    const float h_p[] = { $j };
    const float h_ey[] = { $k };
    const float h_edx[] = { $l };
    const float h_edp[] = { $m };
    float *buf0, *buf1, *dparams, *dtape, *ddy, *ddx, *ddx_tmp, *ddp, *dside;
    unsigned char* dmask;
    cudaMalloc(&buf0, max_activ * sizeof(float));
    cudaMalloc(&buf1, max_activ * sizeof(float));
    cudaMalloc(&dparams, param_bytes == 0 ? sizeof(float) : param_bytes);
    cudaMalloc(&dtape, tape_f32_bytes);
    cudaMalloc(&dmask, tape_u8_bytes);
    cudaMalloc(&ddy, max_activ * sizeof(float));
    cudaMalloc(&ddx, max_activ * sizeof(float));
    cudaMalloc(&ddx_tmp, max_activ * sizeof(float));
    cudaMalloc(&ddp, param_bytes == 0 ? sizeof(float) : param_bytes);
    cudaMalloc(&dside, tape_f32_bytes);
    cudaMemset(dside, 0, tape_f32_bytes);
    cudaMemcpy(dparams, h_p, param_bytes, cudaMemcpyHostToDevice);
$n
    std::vector<float> y(out_len), dx(in_len), dp(param_len);
    cudaMemcpy(y.data(), $o, out_bytes, cudaMemcpyDeviceToHost);
$p
    cudaMemcpy(dx.data(), ddy, in_bytes, cudaMemcpyDeviceToHost);
    cudaMemcpy(dp.data(), ddp, param_bytes, cudaMemcpyDeviceToHost);
    cudaError_t err = cudaDeviceSynchronize();
    if (err) return fail(cudaGetErrorString(err));
    auto close = [](float a, float b) { return fabsf(a - b) <= 1e-3f + 1e-3f * fabsf(b); };
    for (int i = 0; i < out_len; ++i) if (!close(y[i], h_ey[i])) {
        printf("FAIL y[%d] gpu %g cpu %g\n", i, y[i], h_ey[i]); return 1;
    }
    for (int i = 0; i < in_len; ++i) if (!close(dx[i], h_edx[i])) {
        printf("FAIL dx[%d] gpu %g cpu %g\n", i, dx[i], h_edx[i]); return 1;
    }
    for (int i = 0; i < param_len; ++i) if (!close(dp[i], h_edp[i])) {
        printf("FAIL dp[%d] gpu %g cpu %g\n", i, dp[i], h_edp[i]); return 1;
    }
    printf("OK $q\n");
    return 0;
}
"#;

/// The buffer that the activation is in: the two take turns, and a skip works
/// in place.
pub open spec fn in_second(stages: Seq<Stage>, i: int) -> bool
    decreases i,
{
    if i <= 0 {
        false
    } else {
        in_second(stages, i - 1) != !(stages[i - 1] is Add)
    }
}

pub open spec fn buffer(second: bool) -> Seq<char> {
    if second {
        "buf1"@
    } else {
        "buf0"@
    }
}

pub open spec fn flag(b: bool) -> Seq<char> {
    text::dec(
        if b {
            1
        } else {
            0
        },
    )
}

/// The kernels of a stage.
pub open spec fn stage_kernels(s: Stage, i: int) -> Seq<char> {
    let n = seq![text::dec(i)];
    match s {
        Stage::Gemm { .. } => text::filled(GEMM_KERNELS@, n),
        Stage::Attention { .. } => text::filled(ATTENTION_KERNELS@, n),
        Stage::Add { .. } => text::filled(ADD_KERNEL@, n),
    }
}

/// The forward launches of a stage, from the buffer that holds its input.
pub open spec fn stage_forward(s: Stage, i: int, second: bool) -> Seq<char> {
    match s {
        Stage::Gemm { batch, din, dout, relu, save_at, mask_at, param_at } => text::filled(
            GEMM_FORWARD@,
            seq![
                text::dec(save_at as int),
                buffer(second),
                text::dec(batch * din),
                text::dec(i),
                text::dec(batch * dout),
                text::dec(param_at as int),
                text::dec(param_at + din * dout),
                buffer(!second),
                text::dec(mask_at as int),
                text::dec(batch as int),
                text::dec(din as int),
                text::dec(dout as int),
                flag(relu),
            ],
        ),
        Stage::Attention { batch, tokens, dim, x_at, probs_at } => text::filled(
            ATTENTION_FORWARD@,
            seq![
                text::dec(x_at as int),
                buffer(second),
                text::dec(batch * tokens * dim),
                text::dec(i),
                text::dec(batch * tokens),
                text::dec(probs_at as int),
                buffer(!second),
                text::dec(batch as int),
                text::dec(tokens as int),
                text::dec(dim as int),
            ],
        ),
        Stage::Add { from, len } => text::filled(
            ADD_FORWARD@,
            seq![text::dec(i), text::dec(len as int), buffer(second), text::dec(from as int)],
        ),
    }
}

/// The backward launches of a stage.
pub open spec fn stage_backward(s: Stage, i: int) -> Seq<char> {
    match s {
        Stage::Gemm { batch, din, dout, relu, save_at, mask_at, param_at } => text::filled(
            GEMM_BACKWARD@,
            seq![
                flag(relu),
                text::dec(i),
                text::dec(batch * dout),
                text::dec(mask_at as int),
                text::dec(batch * din),
                text::dec(param_at as int),
                text::dec(batch as int),
                text::dec(din as int),
                text::dec(dout as int),
                text::dec(din * dout),
                text::dec(save_at as int),
                text::dec(param_at + din * dout),
            ],
        ),
        Stage::Attention { batch, tokens, dim, x_at, probs_at } => text::filled(
            ATTENTION_BACKWARD@,
            seq![
                text::dec(i),
                text::dec(batch * tokens * dim),
                text::dec(x_at as int),
                text::dec(probs_at as int),
                text::dec(batch as int),
                text::dec(tokens as int),
                text::dec(dim as int),
            ],
        ),
        Stage::Add { from, len } => text::filled(
            ADD_BACKWARD@,
            seq![text::dec(i), text::dec(len as int), text::dec(from as int)],
        ),
    }
}

// ----- the texts of launches -----

proof fn lemma_gemm_forward_1(args: Seq<Seq<char>>)
    requires
        args.len() == 13,
    ensures
        text::filled_from(GEMM_FORWARD@, args, 0) == "    cudaMemcpy(dtape + "@ + args[0] + ", "@ + args[1] + ", "@ + args[2] + " * sizeof(float), cudaMemcpyDeviceToDevice);\n"@ + text::filled_from(
            GEMM_FORWARD@,
            args,
            78,
        ),
{
    let t = GEMM_FORWARD@;
    reveal_strlit("    cudaMemcpy(dtape + $a, $b, $c * sizeof(float), cudaMemcpyDeviceToDevice);\n    fwd_gemm_$d<<<grid($e), 128>>>($b, dparams + $f, dparams + $g, $h, dmask + $i, $j, $k, $l, $m);\n");
    let d0 = Seq::<char>::empty();
    assert(text::filled_from(t, args, 0) =~= d0 + text::filled_from(t, args, 0));
    reveal_strlit("    cudaMemcpy(dtape + ");
    assert(t.subrange(0, 23) =~= "    cudaMemcpy(dtape + "@);
    text::lemma_copied(t, args, 0, d0, 0, "    cudaMemcpy(dtape + "@);
    assert(d0 + "    cudaMemcpy(dtape + "@ =~= "    cudaMemcpy(dtape + "@);
    let d1 = "    cudaMemcpy(dtape + "@;
    text::lemma_placed(t, args, 0, d1, 23, 0);
    let d2 = d1 + args[0];
    reveal_strlit(", ");
    assert(t.subrange(25, 27) =~= ", "@);
    text::lemma_copied(t, args, 0, d2, 25, ", "@);
    let d3 = d2 + ", "@;
    text::lemma_placed(t, args, 0, d3, 27, 1);
    let d4 = d3 + args[1];
    reveal_strlit(", ");
    assert(t.subrange(29, 31) =~= ", "@);
    text::lemma_copied(t, args, 0, d4, 29, ", "@);
    let d5 = d4 + ", "@;
    text::lemma_placed(t, args, 0, d5, 31, 2);
    let d6 = d5 + args[2];
    reveal_strlit(" * sizeof(float), cudaMemcpyDeviceToDevice);\n");
    assert(t.subrange(33, 78) =~= " * sizeof(float), cudaMemcpyDeviceToDevice);\n"@);
    text::lemma_copied(t, args, 0, d6, 33, " * sizeof(float), cudaMemcpyDeviceToDevice);\n"@);
    let d7 = d6 + " * sizeof(float), cudaMemcpyDeviceToDevice);\n"@;
}

proof fn lemma_gemm_forward_2(args: Seq<Seq<char>>)
    requires
        args.len() == 13,
    ensures
        text::filled_from(GEMM_FORWARD@, args, 78) == "    fwd_gemm_"@ + args[3] + "<<<grid("@ + args[4] + "), 128>>>("@ + args[1] + ", dparams + "@ + args[5] + ", dparams + "@ + args[6] + ", "@ + args[7] + ", dmask + "@ + args[8] + ", "@ + args[9] + ", "@ + args[10] + ", "@ + args[11] + ", "@ + args[12] + ");\n"@ + text::filled_from(
            GEMM_FORWARD@,
            args,
            178,
        ),
{
    let t = GEMM_FORWARD@;
    reveal_strlit("    cudaMemcpy(dtape + $a, $b, $c * sizeof(float), cudaMemcpyDeviceToDevice);\n    fwd_gemm_$d<<<grid($e), 128>>>($b, dparams + $f, dparams + $g, $h, dmask + $i, $j, $k, $l, $m);\n");
    let d0 = Seq::<char>::empty();
    assert(text::filled_from(t, args, 78) =~= d0 + text::filled_from(t, args, 78));
    reveal_strlit("    fwd_gemm_");
    assert(t.subrange(78, 91) =~= "    fwd_gemm_"@);
    text::lemma_copied(t, args, 78, d0, 78, "    fwd_gemm_"@);
    assert(d0 + "    fwd_gemm_"@ =~= "    fwd_gemm_"@);
    let d1 = "    fwd_gemm_"@;
    text::lemma_placed(t, args, 78, d1, 91, 3);
    let d2 = d1 + args[3];
    reveal_strlit("<<<grid(");
    assert(t.subrange(93, 101) =~= "<<<grid("@);
    text::lemma_copied(t, args, 78, d2, 93, "<<<grid("@);
    let d3 = d2 + "<<<grid("@;
    text::lemma_placed(t, args, 78, d3, 101, 4);
    let d4 = d3 + args[4];
    reveal_strlit("), 128>>>(");
    assert(t.subrange(103, 113) =~= "), 128>>>("@);
    text::lemma_copied(t, args, 78, d4, 103, "), 128>>>("@);
    let d5 = d4 + "), 128>>>("@;
    text::lemma_placed(t, args, 78, d5, 113, 1);
    let d6 = d5 + args[1];
    reveal_strlit(", dparams + ");
    assert(t.subrange(115, 127) =~= ", dparams + "@);
    text::lemma_copied(t, args, 78, d6, 115, ", dparams + "@);
    let d7 = d6 + ", dparams + "@;
    text::lemma_placed(t, args, 78, d7, 127, 5);
    let d8 = d7 + args[5];
    reveal_strlit(", dparams + ");
    assert(t.subrange(129, 141) =~= ", dparams + "@);
    text::lemma_copied(t, args, 78, d8, 129, ", dparams + "@);
    let d9 = d8 + ", dparams + "@;
    text::lemma_placed(t, args, 78, d9, 141, 6);
    let d10 = d9 + args[6];
    reveal_strlit(", ");
    assert(t.subrange(143, 145) =~= ", "@);
    text::lemma_copied(t, args, 78, d10, 143, ", "@);
    let d11 = d10 + ", "@;
    text::lemma_placed(t, args, 78, d11, 145, 7);
    let d12 = d11 + args[7];
    reveal_strlit(", dmask + ");
    assert(t.subrange(147, 157) =~= ", dmask + "@);
    text::lemma_copied(t, args, 78, d12, 147, ", dmask + "@);
    let d13 = d12 + ", dmask + "@;
    text::lemma_placed(t, args, 78, d13, 157, 8);
    let d14 = d13 + args[8];
    reveal_strlit(", ");
    assert(t.subrange(159, 161) =~= ", "@);
    text::lemma_copied(t, args, 78, d14, 159, ", "@);
    let d15 = d14 + ", "@;
    text::lemma_placed(t, args, 78, d15, 161, 9);
    let d16 = d15 + args[9];
    reveal_strlit(", ");
    assert(t.subrange(163, 165) =~= ", "@);
    text::lemma_copied(t, args, 78, d16, 163, ", "@);
    let d17 = d16 + ", "@;
    text::lemma_placed(t, args, 78, d17, 165, 10);
    let d18 = d17 + args[10];
    reveal_strlit(", ");
    assert(t.subrange(167, 169) =~= ", "@);
    text::lemma_copied(t, args, 78, d18, 167, ", "@);
    let d19 = d18 + ", "@;
    text::lemma_placed(t, args, 78, d19, 169, 11);
    let d20 = d19 + args[11];
    reveal_strlit(", ");
    assert(t.subrange(171, 173) =~= ", "@);
    text::lemma_copied(t, args, 78, d20, 171, ", "@);
    let d21 = d20 + ", "@;
    text::lemma_placed(t, args, 78, d21, 173, 12);
    let d22 = d21 + args[12];
    reveal_strlit(");\n");
    assert(t.subrange(175, 178) =~= ");\n"@);
    text::lemma_copied(t, args, 78, d22, 175, ");\n"@);
    let d23 = d22 + ");\n"@;
}

proof fn lemma_gemm_backward_1(args: Seq<Seq<char>>)
    requires
        args.len() == 12,
    ensures
        text::filled_from(GEMM_BACKWARD@, args, 0) == "    if ("@ + args[0] + ") bwd_relu_"@ + args[1] + "<<<grid("@ + args[2] + "), 128>>>(ddy, dmask + "@ + args[3] + ", "@ + args[2] + ");\n"@ + text::filled_from(
            GEMM_BACKWARD@,
            args,
            65,
        ),
{
    let t = GEMM_BACKWARD@;
    reveal_strlit("    if ($a) bwd_relu_$b<<<grid($c), 128>>>(ddy, dmask + $d, $c);\n    bwd_dx_$b<<<grid($e), 128>>>(ddy, dparams + $f, ddx_tmp, $g, $h, $i);\n    bwd_dw_$b<<<grid($j), 128>>>(dtape + $k, ddy, ddp + $f, $g, $h, $i);\n    bwd_db_$b<<<grid($i), 128>>>(ddy, ddp + $l, $g, $i);\n    add_skip_$b<<<grid($e), 128>>>(ddx_tmp, dside + $k, $e);\n    cudaMemcpy(ddy, ddx_tmp, $e * sizeof(float), cudaMemcpyDeviceToDevice);\n");
    let d0 = Seq::<char>::empty();
    assert(text::filled_from(t, args, 0) =~= d0 + text::filled_from(t, args, 0));
    reveal_strlit("    if (");
    assert(t.subrange(0, 8) =~= "    if ("@);
    text::lemma_copied(t, args, 0, d0, 0, "    if ("@);
    assert(d0 + "    if ("@ =~= "    if ("@);
    let d1 = "    if ("@;
    text::lemma_placed(t, args, 0, d1, 8, 0);
    let d2 = d1 + args[0];
    reveal_strlit(") bwd_relu_");
    assert(t.subrange(10, 21) =~= ") bwd_relu_"@);
    text::lemma_copied(t, args, 0, d2, 10, ") bwd_relu_"@);
    let d3 = d2 + ") bwd_relu_"@;
    text::lemma_placed(t, args, 0, d3, 21, 1);
    let d4 = d3 + args[1];
    reveal_strlit("<<<grid(");
    assert(t.subrange(23, 31) =~= "<<<grid("@);
    text::lemma_copied(t, args, 0, d4, 23, "<<<grid("@);
    let d5 = d4 + "<<<grid("@;
    text::lemma_placed(t, args, 0, d5, 31, 2);
    let d6 = d5 + args[2];
    reveal_strlit("), 128>>>(ddy, dmask + ");
    assert(t.subrange(33, 56) =~= "), 128>>>(ddy, dmask + "@);
    text::lemma_copied(t, args, 0, d6, 33, "), 128>>>(ddy, dmask + "@);
    let d7 = d6 + "), 128>>>(ddy, dmask + "@;
    text::lemma_placed(t, args, 0, d7, 56, 3);
    let d8 = d7 + args[3];
    reveal_strlit(", ");
    assert(t.subrange(58, 60) =~= ", "@);
    text::lemma_copied(t, args, 0, d8, 58, ", "@);
    let d9 = d8 + ", "@;
    text::lemma_placed(t, args, 0, d9, 60, 2);
    let d10 = d9 + args[2];
    reveal_strlit(");\n");
    assert(t.subrange(62, 65) =~= ");\n"@);
    text::lemma_copied(t, args, 0, d10, 62, ");\n"@);
    let d11 = d10 + ");\n"@;
}

proof fn lemma_gemm_backward_2(args: Seq<Seq<char>>)
    requires
        args.len() == 12,
    ensures
        text::filled_from(GEMM_BACKWARD@, args, 65) == "    bwd_dx_"@ + args[1] + "<<<grid("@ + args[4] + "), 128>>>(ddy, dparams + "@ + args[5] + ", ddx_tmp, "@ + args[6] + ", "@ + args[7] + ", "@ + args[8] + ");\n"@ + text::filled_from(
            GEMM_BACKWARD@,
            args,
            139,
        ),
{
    let t = GEMM_BACKWARD@;
    reveal_strlit("    if ($a) bwd_relu_$b<<<grid($c), 128>>>(ddy, dmask + $d, $c);\n    bwd_dx_$b<<<grid($e), 128>>>(ddy, dparams + $f, ddx_tmp, $g, $h, $i);\n    bwd_dw_$b<<<grid($j), 128>>>(dtape + $k, ddy, ddp + $f, $g, $h, $i);\n    bwd_db_$b<<<grid($i), 128>>>(ddy, ddp + $l, $g, $i);\n    add_skip_$b<<<grid($e), 128>>>(ddx_tmp, dside + $k, $e);\n    cudaMemcpy(ddy, ddx_tmp, $e * sizeof(float), cudaMemcpyDeviceToDevice);\n");
    let d0 = Seq::<char>::empty();
    assert(text::filled_from(t, args, 65) =~= d0 + text::filled_from(t, args, 65));
    reveal_strlit("    bwd_dx_");
    assert(t.subrange(65, 76) =~= "    bwd_dx_"@);
    text::lemma_copied(t, args, 65, d0, 65, "    bwd_dx_"@);
    assert(d0 + "    bwd_dx_"@ =~= "    bwd_dx_"@);
    let d1 = "    bwd_dx_"@;
    text::lemma_placed(t, args, 65, d1, 76, 1);
    let d2 = d1 + args[1];
    reveal_strlit("<<<grid(");
    assert(t.subrange(78, 86) =~= "<<<grid("@);
    text::lemma_copied(t, args, 65, d2, 78, "<<<grid("@);
    let d3 = d2 + "<<<grid("@;
    text::lemma_placed(t, args, 65, d3, 86, 4);
    let d4 = d3 + args[4];
    reveal_strlit("), 128>>>(ddy, dparams + ");
    assert(t.subrange(88, 113) =~= "), 128>>>(ddy, dparams + "@);
    text::lemma_copied(t, args, 65, d4, 88, "), 128>>>(ddy, dparams + "@);
    let d5 = d4 + "), 128>>>(ddy, dparams + "@;
    text::lemma_placed(t, args, 65, d5, 113, 5);
    let d6 = d5 + args[5];
    reveal_strlit(", ddx_tmp, ");
    assert(t.subrange(115, 126) =~= ", ddx_tmp, "@);
    text::lemma_copied(t, args, 65, d6, 115, ", ddx_tmp, "@);
    let d7 = d6 + ", ddx_tmp, "@;
    text::lemma_placed(t, args, 65, d7, 126, 6);
    let d8 = d7 + args[6];
    reveal_strlit(", ");
    assert(t.subrange(128, 130) =~= ", "@);
    text::lemma_copied(t, args, 65, d8, 128, ", "@);
    let d9 = d8 + ", "@;
    text::lemma_placed(t, args, 65, d9, 130, 7);
    let d10 = d9 + args[7];
    reveal_strlit(", ");
    assert(t.subrange(132, 134) =~= ", "@);
    text::lemma_copied(t, args, 65, d10, 132, ", "@);
    let d11 = d10 + ", "@;
    text::lemma_placed(t, args, 65, d11, 134, 8);
    let d12 = d11 + args[8];
    reveal_strlit(");\n");
    assert(t.subrange(136, 139) =~= ");\n"@);
    text::lemma_copied(t, args, 65, d12, 136, ");\n"@);
    let d13 = d12 + ");\n"@;
}

proof fn lemma_gemm_backward_3(args: Seq<Seq<char>>)
    requires
        args.len() == 12,
    ensures
        text::filled_from(GEMM_BACKWARD@, args, 139) == "    bwd_dw_"@ + args[1] + "<<<grid("@ + args[9] + "), 128>>>(dtape + "@ + args[10] + ", ddy, ddp + "@ + args[5] + ", "@ + args[6] + ", "@ + args[7] + ", "@ + args[8] + ");\n"@ + text::filled_from(
            GEMM_BACKWARD@,
            args,
            212,
        ),
{
    let t = GEMM_BACKWARD@;
    reveal_strlit("    if ($a) bwd_relu_$b<<<grid($c), 128>>>(ddy, dmask + $d, $c);\n    bwd_dx_$b<<<grid($e), 128>>>(ddy, dparams + $f, ddx_tmp, $g, $h, $i);\n    bwd_dw_$b<<<grid($j), 128>>>(dtape + $k, ddy, ddp + $f, $g, $h, $i);\n    bwd_db_$b<<<grid($i), 128>>>(ddy, ddp + $l, $g, $i);\n    add_skip_$b<<<grid($e), 128>>>(ddx_tmp, dside + $k, $e);\n    cudaMemcpy(ddy, ddx_tmp, $e * sizeof(float), cudaMemcpyDeviceToDevice);\n");
    let d0 = Seq::<char>::empty();
    assert(text::filled_from(t, args, 139) =~= d0 + text::filled_from(t, args, 139));
    reveal_strlit("    bwd_dw_");
    assert(t.subrange(139, 150) =~= "    bwd_dw_"@);
    text::lemma_copied(t, args, 139, d0, 139, "    bwd_dw_"@);
    assert(d0 + "    bwd_dw_"@ =~= "    bwd_dw_"@);
    let d1 = "    bwd_dw_"@;
    text::lemma_placed(t, args, 139, d1, 150, 1);
    let d2 = d1 + args[1];
    reveal_strlit("<<<grid(");
    assert(t.subrange(152, 160) =~= "<<<grid("@);
    text::lemma_copied(t, args, 139, d2, 152, "<<<grid("@);
    let d3 = d2 + "<<<grid("@;
    text::lemma_placed(t, args, 139, d3, 160, 9);
    let d4 = d3 + args[9];
    reveal_strlit("), 128>>>(dtape + ");
    assert(t.subrange(162, 180) =~= "), 128>>>(dtape + "@);
    text::lemma_copied(t, args, 139, d4, 162, "), 128>>>(dtape + "@);
    let d5 = d4 + "), 128>>>(dtape + "@;
    text::lemma_placed(t, args, 139, d5, 180, 10);
    let d6 = d5 + args[10];
    reveal_strlit(", ddy, ddp + ");
    assert(t.subrange(182, 195) =~= ", ddy, ddp + "@);
    text::lemma_copied(t, args, 139, d6, 182, ", ddy, ddp + "@);
    let d7 = d6 + ", ddy, ddp + "@;
    text::lemma_placed(t, args, 139, d7, 195, 5);
    let d8 = d7 + args[5];
    reveal_strlit(", ");
    assert(t.subrange(197, 199) =~= ", "@);
    text::lemma_copied(t, args, 139, d8, 197, ", "@);
    let d9 = d8 + ", "@;
    text::lemma_placed(t, args, 139, d9, 199, 6);
    let d10 = d9 + args[6];
    reveal_strlit(", ");
    assert(t.subrange(201, 203) =~= ", "@);
    text::lemma_copied(t, args, 139, d10, 201, ", "@);
    let d11 = d10 + ", "@;
    text::lemma_placed(t, args, 139, d11, 203, 7);
    let d12 = d11 + args[7];
    reveal_strlit(", ");
    assert(t.subrange(205, 207) =~= ", "@);
    text::lemma_copied(t, args, 139, d12, 205, ", "@);
    let d13 = d12 + ", "@;
    text::lemma_placed(t, args, 139, d13, 207, 8);
    let d14 = d13 + args[8];
    reveal_strlit(");\n");
    assert(t.subrange(209, 212) =~= ");\n"@);
    text::lemma_copied(t, args, 139, d14, 209, ");\n"@);
    let d15 = d14 + ");\n"@;
}

proof fn lemma_gemm_backward_4(args: Seq<Seq<char>>)
    requires
        args.len() == 12,
    ensures
        text::filled_from(GEMM_BACKWARD@, args, 212) == "    bwd_db_"@ + args[1] + "<<<grid("@ + args[8] + "), 128>>>(ddy, ddp + "@ + args[11] + ", "@ + args[6] + ", "@ + args[8] + ");\n"@ + text::filled_from(
            GEMM_BACKWARD@,
            args,
            269,
        ),
{
    let t = GEMM_BACKWARD@;
    reveal_strlit("    if ($a) bwd_relu_$b<<<grid($c), 128>>>(ddy, dmask + $d, $c);\n    bwd_dx_$b<<<grid($e), 128>>>(ddy, dparams + $f, ddx_tmp, $g, $h, $i);\n    bwd_dw_$b<<<grid($j), 128>>>(dtape + $k, ddy, ddp + $f, $g, $h, $i);\n    bwd_db_$b<<<grid($i), 128>>>(ddy, ddp + $l, $g, $i);\n    add_skip_$b<<<grid($e), 128>>>(ddx_tmp, dside + $k, $e);\n    cudaMemcpy(ddy, ddx_tmp, $e * sizeof(float), cudaMemcpyDeviceToDevice);\n");
    let d0 = Seq::<char>::empty();
    assert(text::filled_from(t, args, 212) =~= d0 + text::filled_from(t, args, 212));
    reveal_strlit("    bwd_db_");
    assert(t.subrange(212, 223) =~= "    bwd_db_"@);
    text::lemma_copied(t, args, 212, d0, 212, "    bwd_db_"@);
    assert(d0 + "    bwd_db_"@ =~= "    bwd_db_"@);
    let d1 = "    bwd_db_"@;
    text::lemma_placed(t, args, 212, d1, 223, 1);
    let d2 = d1 + args[1];
    reveal_strlit("<<<grid(");
    assert(t.subrange(225, 233) =~= "<<<grid("@);
    text::lemma_copied(t, args, 212, d2, 225, "<<<grid("@);
    let d3 = d2 + "<<<grid("@;
    text::lemma_placed(t, args, 212, d3, 233, 8);
    let d4 = d3 + args[8];
    reveal_strlit("), 128>>>(ddy, ddp + ");
    assert(t.subrange(235, 256) =~= "), 128>>>(ddy, ddp + "@);
    text::lemma_copied(t, args, 212, d4, 235, "), 128>>>(ddy, ddp + "@);
    let d5 = d4 + "), 128>>>(ddy, ddp + "@;
    text::lemma_placed(t, args, 212, d5, 256, 11);
    let d6 = d5 + args[11];
    reveal_strlit(", ");
    assert(t.subrange(258, 260) =~= ", "@);
    text::lemma_copied(t, args, 212, d6, 258, ", "@);
    let d7 = d6 + ", "@;
    text::lemma_placed(t, args, 212, d7, 260, 6);
    let d8 = d7 + args[6];
    reveal_strlit(", ");
    assert(t.subrange(262, 264) =~= ", "@);
    text::lemma_copied(t, args, 212, d8, 262, ", "@);
    let d9 = d8 + ", "@;
    text::lemma_placed(t, args, 212, d9, 264, 8);
    let d10 = d9 + args[8];
    reveal_strlit(");\n");
    assert(t.subrange(266, 269) =~= ");\n"@);
    text::lemma_copied(t, args, 212, d10, 266, ");\n"@);
    let d11 = d10 + ");\n"@;
}

proof fn lemma_gemm_backward_5(args: Seq<Seq<char>>)
    requires
        args.len() == 12,
    ensures
        text::filled_from(GEMM_BACKWARD@, args, 269) == "    add_skip_"@ + args[1] + "<<<grid("@ + args[4] + "), 128>>>(ddx_tmp, dside + "@ + args[10] + ", "@ + args[4] + ");\n"@ + text::filled_from(
            GEMM_BACKWARD@,
            args,
            330,
        ),
{
    let t = GEMM_BACKWARD@;
    reveal_strlit("    if ($a) bwd_relu_$b<<<grid($c), 128>>>(ddy, dmask + $d, $c);\n    bwd_dx_$b<<<grid($e), 128>>>(ddy, dparams + $f, ddx_tmp, $g, $h, $i);\n    bwd_dw_$b<<<grid($j), 128>>>(dtape + $k, ddy, ddp + $f, $g, $h, $i);\n    bwd_db_$b<<<grid($i), 128>>>(ddy, ddp + $l, $g, $i);\n    add_skip_$b<<<grid($e), 128>>>(ddx_tmp, dside + $k, $e);\n    cudaMemcpy(ddy, ddx_tmp, $e * sizeof(float), cudaMemcpyDeviceToDevice);\n");
    let d0 = Seq::<char>::empty();
    assert(text::filled_from(t, args, 269) =~= d0 + text::filled_from(t, args, 269));
    reveal_strlit("    add_skip_");
    assert(t.subrange(269, 282) =~= "    add_skip_"@);
    text::lemma_copied(t, args, 269, d0, 269, "    add_skip_"@);
    assert(d0 + "    add_skip_"@ =~= "    add_skip_"@);
    let d1 = "    add_skip_"@;
    text::lemma_placed(t, args, 269, d1, 282, 1);
    let d2 = d1 + args[1];
    reveal_strlit("<<<grid(");
    assert(t.subrange(284, 292) =~= "<<<grid("@);
    text::lemma_copied(t, args, 269, d2, 284, "<<<grid("@);
    let d3 = d2 + "<<<grid("@;
    text::lemma_placed(t, args, 269, d3, 292, 4);
    let d4 = d3 + args[4];
    reveal_strlit("), 128>>>(ddx_tmp, dside + ");
    assert(t.subrange(294, 321) =~= "), 128>>>(ddx_tmp, dside + "@);
    text::lemma_copied(t, args, 269, d4, 294, "), 128>>>(ddx_tmp, dside + "@);
    let d5 = d4 + "), 128>>>(ddx_tmp, dside + "@;
    text::lemma_placed(t, args, 269, d5, 321, 10);
    let d6 = d5 + args[10];
    reveal_strlit(", ");
    assert(t.subrange(323, 325) =~= ", "@);
    text::lemma_copied(t, args, 269, d6, 323, ", "@);
    let d7 = d6 + ", "@;
    text::lemma_placed(t, args, 269, d7, 325, 4);
    let d8 = d7 + args[4];
    reveal_strlit(");\n");
    assert(t.subrange(327, 330) =~= ");\n"@);
    text::lemma_copied(t, args, 269, d8, 327, ");\n"@);
    let d9 = d8 + ");\n"@;
}

proof fn lemma_gemm_backward_6(args: Seq<Seq<char>>)
    requires
        args.len() == 12,
    ensures
        text::filled_from(GEMM_BACKWARD@, args, 330) == "    cudaMemcpy(ddy, ddx_tmp, "@ + args[4] + " * sizeof(float), cudaMemcpyDeviceToDevice);\n"@ + text::filled_from(
            GEMM_BACKWARD@,
            args,
            406,
        ),
{
    let t = GEMM_BACKWARD@;
    reveal_strlit("    if ($a) bwd_relu_$b<<<grid($c), 128>>>(ddy, dmask + $d, $c);\n    bwd_dx_$b<<<grid($e), 128>>>(ddy, dparams + $f, ddx_tmp, $g, $h, $i);\n    bwd_dw_$b<<<grid($j), 128>>>(dtape + $k, ddy, ddp + $f, $g, $h, $i);\n    bwd_db_$b<<<grid($i), 128>>>(ddy, ddp + $l, $g, $i);\n    add_skip_$b<<<grid($e), 128>>>(ddx_tmp, dside + $k, $e);\n    cudaMemcpy(ddy, ddx_tmp, $e * sizeof(float), cudaMemcpyDeviceToDevice);\n");
    let d0 = Seq::<char>::empty();
    assert(text::filled_from(t, args, 330) =~= d0 + text::filled_from(t, args, 330));
    reveal_strlit("    cudaMemcpy(ddy, ddx_tmp, ");
    assert(t.subrange(330, 359) =~= "    cudaMemcpy(ddy, ddx_tmp, "@);
    text::lemma_copied(t, args, 330, d0, 330, "    cudaMemcpy(ddy, ddx_tmp, "@);
    assert(d0 + "    cudaMemcpy(ddy, ddx_tmp, "@ =~= "    cudaMemcpy(ddy, ddx_tmp, "@);
    let d1 = "    cudaMemcpy(ddy, ddx_tmp, "@;
    text::lemma_placed(t, args, 330, d1, 359, 4);
    let d2 = d1 + args[4];
    reveal_strlit(" * sizeof(float), cudaMemcpyDeviceToDevice);\n");
    assert(t.subrange(361, 406) =~= " * sizeof(float), cudaMemcpyDeviceToDevice);\n"@);
    text::lemma_copied(t, args, 330, d2, 361, " * sizeof(float), cudaMemcpyDeviceToDevice);\n"@);
    let d3 = d2 + " * sizeof(float), cudaMemcpyDeviceToDevice);\n"@;
}

proof fn lemma_attention_forward_1(args: Seq<Seq<char>>)
    requires
        args.len() == 10,
    ensures
        text::filled_from(ATTENTION_FORWARD@, args, 0) == "    cudaMemcpy(dtape + "@ + args[0] + ", "@ + args[1] + ", "@ + args[2] + " * sizeof(float), cudaMemcpyDeviceToDevice);\n"@ + text::filled_from(
            ATTENTION_FORWARD@,
            args,
            78,
        ),
{
    let t = ATTENTION_FORWARD@;
    reveal_strlit("    cudaMemcpy(dtape + $a, $b, $c * sizeof(float), cudaMemcpyDeviceToDevice);\n    fwd_attn_$d<<<grid($e), 128>>>($b, dtape + $f, $g, $h, $i, $j);\n");
    let d0 = Seq::<char>::empty();
    assert(text::filled_from(t, args, 0) =~= d0 + text::filled_from(t, args, 0));
    reveal_strlit("    cudaMemcpy(dtape + ");
    assert(t.subrange(0, 23) =~= "    cudaMemcpy(dtape + "@);
    text::lemma_copied(t, args, 0, d0, 0, "    cudaMemcpy(dtape + "@);
    assert(d0 + "    cudaMemcpy(dtape + "@ =~= "    cudaMemcpy(dtape + "@);
    let d1 = "    cudaMemcpy(dtape + "@;
    text::lemma_placed(t, args, 0, d1, 23, 0);
    let d2 = d1 + args[0];
    reveal_strlit(", ");
    assert(t.subrange(25, 27) =~= ", "@);
    text::lemma_copied(t, args, 0, d2, 25, ", "@);
    let d3 = d2 + ", "@;
    text::lemma_placed(t, args, 0, d3, 27, 1);
    let d4 = d3 + args[1];
    reveal_strlit(", ");
    assert(t.subrange(29, 31) =~= ", "@);
    text::lemma_copied(t, args, 0, d4, 29, ", "@);
    let d5 = d4 + ", "@;
    text::lemma_placed(t, args, 0, d5, 31, 2);
    let d6 = d5 + args[2];
    reveal_strlit(" * sizeof(float), cudaMemcpyDeviceToDevice);\n");
    assert(t.subrange(33, 78) =~= " * sizeof(float), cudaMemcpyDeviceToDevice);\n"@);
    text::lemma_copied(t, args, 0, d6, 33, " * sizeof(float), cudaMemcpyDeviceToDevice);\n"@);
    let d7 = d6 + " * sizeof(float), cudaMemcpyDeviceToDevice);\n"@;
}

proof fn lemma_attention_forward_2(args: Seq<Seq<char>>)
    requires
        args.len() == 10,
    ensures
        text::filled_from(ATTENTION_FORWARD@, args, 78) == "    fwd_attn_"@ + args[3] + "<<<grid("@ + args[4] + "), 128>>>("@ + args[1] + ", dtape + "@ + args[5] + ", "@ + args[6] + ", "@ + args[7] + ", "@ + args[8] + ", "@ + args[9] + ");\n"@ + text::filled_from(
            ATTENTION_FORWARD@,
            args,
            146,
        ),
{
    let t = ATTENTION_FORWARD@;
    reveal_strlit("    cudaMemcpy(dtape + $a, $b, $c * sizeof(float), cudaMemcpyDeviceToDevice);\n    fwd_attn_$d<<<grid($e), 128>>>($b, dtape + $f, $g, $h, $i, $j);\n");
    let d0 = Seq::<char>::empty();
    assert(text::filled_from(t, args, 78) =~= d0 + text::filled_from(t, args, 78));
    reveal_strlit("    fwd_attn_");
    assert(t.subrange(78, 91) =~= "    fwd_attn_"@);
    text::lemma_copied(t, args, 78, d0, 78, "    fwd_attn_"@);
    assert(d0 + "    fwd_attn_"@ =~= "    fwd_attn_"@);
    let d1 = "    fwd_attn_"@;
    text::lemma_placed(t, args, 78, d1, 91, 3);
    let d2 = d1 + args[3];
    reveal_strlit("<<<grid(");
    assert(t.subrange(93, 101) =~= "<<<grid("@);
    text::lemma_copied(t, args, 78, d2, 93, "<<<grid("@);
    let d3 = d2 + "<<<grid("@;
    text::lemma_placed(t, args, 78, d3, 101, 4);
    let d4 = d3 + args[4];
    reveal_strlit("), 128>>>(");
    assert(t.subrange(103, 113) =~= "), 128>>>("@);
    text::lemma_copied(t, args, 78, d4, 103, "), 128>>>("@);
    let d5 = d4 + "), 128>>>("@;
    text::lemma_placed(t, args, 78, d5, 113, 1);
    let d6 = d5 + args[1];
    reveal_strlit(", dtape + ");
    assert(t.subrange(115, 125) =~= ", dtape + "@);
    text::lemma_copied(t, args, 78, d6, 115, ", dtape + "@);
    let d7 = d6 + ", dtape + "@;
    text::lemma_placed(t, args, 78, d7, 125, 5);
    let d8 = d7 + args[5];
    reveal_strlit(", ");
    assert(t.subrange(127, 129) =~= ", "@);
    text::lemma_copied(t, args, 78, d8, 127, ", "@);
    let d9 = d8 + ", "@;
    text::lemma_placed(t, args, 78, d9, 129, 6);
    let d10 = d9 + args[6];
    reveal_strlit(", ");
    assert(t.subrange(131, 133) =~= ", "@);
    text::lemma_copied(t, args, 78, d10, 131, ", "@);
    let d11 = d10 + ", "@;
    text::lemma_placed(t, args, 78, d11, 133, 7);
    let d12 = d11 + args[7];
    reveal_strlit(", ");
    assert(t.subrange(135, 137) =~= ", "@);
    text::lemma_copied(t, args, 78, d12, 135, ", "@);
    let d13 = d12 + ", "@;
    text::lemma_placed(t, args, 78, d13, 137, 8);
    let d14 = d13 + args[8];
    reveal_strlit(", ");
    assert(t.subrange(139, 141) =~= ", "@);
    text::lemma_copied(t, args, 78, d14, 139, ", "@);
    let d15 = d14 + ", "@;
    text::lemma_placed(t, args, 78, d15, 141, 9);
    let d16 = d15 + args[9];
    reveal_strlit(");\n");
    assert(t.subrange(143, 146) =~= ");\n"@);
    text::lemma_copied(t, args, 78, d16, 143, ");\n"@);
    let d17 = d16 + ");\n"@;
}

proof fn lemma_attention_backward_1(args: Seq<Seq<char>>)
    requires
        args.len() == 7,
    ensures
        text::filled_from(ATTENTION_BACKWARD@, args, 0) == "    bwd_attn_"@ + args[0] + "<<<grid("@ + args[1] + "), 128>>>(dtape + "@ + args[2] + ", dtape + "@ + args[3] + ", ddy, ddx_tmp, "@ + args[4] + ", "@ + args[5] + ", "@ + args[6] + ");\n"@ + text::filled_from(
            ATTENTION_BACKWARD@,
            args,
            86,
        ),
{
    let t = ATTENTION_BACKWARD@;
    reveal_strlit("    bwd_attn_$a<<<grid($b), 128>>>(dtape + $c, dtape + $d, ddy, ddx_tmp, $e, $f, $g);\n    add_skip_$a<<<grid($b), 128>>>(ddx_tmp, dside + $c, $b);\n    cudaMemcpy(ddy, ddx_tmp, $b * sizeof(float), cudaMemcpyDeviceToDevice);\n");
    let d0 = Seq::<char>::empty();
    assert(text::filled_from(t, args, 0) =~= d0 + text::filled_from(t, args, 0));
    reveal_strlit("    bwd_attn_");
    assert(t.subrange(0, 13) =~= "    bwd_attn_"@);
    text::lemma_copied(t, args, 0, d0, 0, "    bwd_attn_"@);
    assert(d0 + "    bwd_attn_"@ =~= "    bwd_attn_"@);
    let d1 = "    bwd_attn_"@;
    text::lemma_placed(t, args, 0, d1, 13, 0);
    let d2 = d1 + args[0];
    reveal_strlit("<<<grid(");
    assert(t.subrange(15, 23) =~= "<<<grid("@);
    text::lemma_copied(t, args, 0, d2, 15, "<<<grid("@);
    let d3 = d2 + "<<<grid("@;
    text::lemma_placed(t, args, 0, d3, 23, 1);
    let d4 = d3 + args[1];
    reveal_strlit("), 128>>>(dtape + ");
    assert(t.subrange(25, 43) =~= "), 128>>>(dtape + "@);
    text::lemma_copied(t, args, 0, d4, 25, "), 128>>>(dtape + "@);
    let d5 = d4 + "), 128>>>(dtape + "@;
    text::lemma_placed(t, args, 0, d5, 43, 2);
    let d6 = d5 + args[2];
    reveal_strlit(", dtape + ");
    assert(t.subrange(45, 55) =~= ", dtape + "@);
    text::lemma_copied(t, args, 0, d6, 45, ", dtape + "@);
    let d7 = d6 + ", dtape + "@;
    text::lemma_placed(t, args, 0, d7, 55, 3);
    let d8 = d7 + args[3];
    reveal_strlit(", ddy, ddx_tmp, ");
    assert(t.subrange(57, 73) =~= ", ddy, ddx_tmp, "@);
    text::lemma_copied(t, args, 0, d8, 57, ", ddy, ddx_tmp, "@);
    let d9 = d8 + ", ddy, ddx_tmp, "@;
    text::lemma_placed(t, args, 0, d9, 73, 4);
    let d10 = d9 + args[4];
    reveal_strlit(", ");
    assert(t.subrange(75, 77) =~= ", "@);
    text::lemma_copied(t, args, 0, d10, 75, ", "@);
    let d11 = d10 + ", "@;
    text::lemma_placed(t, args, 0, d11, 77, 5);
    let d12 = d11 + args[5];
    reveal_strlit(", ");
    assert(t.subrange(79, 81) =~= ", "@);
    text::lemma_copied(t, args, 0, d12, 79, ", "@);
    let d13 = d12 + ", "@;
    text::lemma_placed(t, args, 0, d13, 81, 6);
    let d14 = d13 + args[6];
    reveal_strlit(");\n");
    assert(t.subrange(83, 86) =~= ");\n"@);
    text::lemma_copied(t, args, 0, d14, 83, ");\n"@);
    let d15 = d14 + ");\n"@;
}

proof fn lemma_attention_backward_2(args: Seq<Seq<char>>)
    requires
        args.len() == 7,
    ensures
        text::filled_from(ATTENTION_BACKWARD@, args, 86) == "    add_skip_"@ + args[0] + "<<<grid("@ + args[1] + "), 128>>>(ddx_tmp, dside + "@ + args[2] + ", "@ + args[1] + ");\n"@ + text::filled_from(
            ATTENTION_BACKWARD@,
            args,
            147,
        ),
{
    let t = ATTENTION_BACKWARD@;
    reveal_strlit("    bwd_attn_$a<<<grid($b), 128>>>(dtape + $c, dtape + $d, ddy, ddx_tmp, $e, $f, $g);\n    add_skip_$a<<<grid($b), 128>>>(ddx_tmp, dside + $c, $b);\n    cudaMemcpy(ddy, ddx_tmp, $b * sizeof(float), cudaMemcpyDeviceToDevice);\n");
    let d0 = Seq::<char>::empty();
    assert(text::filled_from(t, args, 86) =~= d0 + text::filled_from(t, args, 86));
    reveal_strlit("    add_skip_");
    assert(t.subrange(86, 99) =~= "    add_skip_"@);
    text::lemma_copied(t, args, 86, d0, 86, "    add_skip_"@);
    assert(d0 + "    add_skip_"@ =~= "    add_skip_"@);
    let d1 = "    add_skip_"@;
    text::lemma_placed(t, args, 86, d1, 99, 0);
    let d2 = d1 + args[0];
    reveal_strlit("<<<grid(");
    assert(t.subrange(101, 109) =~= "<<<grid("@);
    text::lemma_copied(t, args, 86, d2, 101, "<<<grid("@);
    let d3 = d2 + "<<<grid("@;
    text::lemma_placed(t, args, 86, d3, 109, 1);
    let d4 = d3 + args[1];
    reveal_strlit("), 128>>>(ddx_tmp, dside + ");
    assert(t.subrange(111, 138) =~= "), 128>>>(ddx_tmp, dside + "@);
    text::lemma_copied(t, args, 86, d4, 111, "), 128>>>(ddx_tmp, dside + "@);
    let d5 = d4 + "), 128>>>(ddx_tmp, dside + "@;
    text::lemma_placed(t, args, 86, d5, 138, 2);
    let d6 = d5 + args[2];
    reveal_strlit(", ");
    assert(t.subrange(140, 142) =~= ", "@);
    text::lemma_copied(t, args, 86, d6, 140, ", "@);
    let d7 = d6 + ", "@;
    text::lemma_placed(t, args, 86, d7, 142, 1);
    let d8 = d7 + args[1];
    reveal_strlit(");\n");
    assert(t.subrange(144, 147) =~= ");\n"@);
    text::lemma_copied(t, args, 86, d8, 144, ");\n"@);
    let d9 = d8 + ");\n"@;
}

proof fn lemma_attention_backward_3(args: Seq<Seq<char>>)
    requires
        args.len() == 7,
    ensures
        text::filled_from(ATTENTION_BACKWARD@, args, 147) == "    cudaMemcpy(ddy, ddx_tmp, "@ + args[1] + " * sizeof(float), cudaMemcpyDeviceToDevice);\n"@ + text::filled_from(
            ATTENTION_BACKWARD@,
            args,
            223,
        ),
{
    let t = ATTENTION_BACKWARD@;
    reveal_strlit("    bwd_attn_$a<<<grid($b), 128>>>(dtape + $c, dtape + $d, ddy, ddx_tmp, $e, $f, $g);\n    add_skip_$a<<<grid($b), 128>>>(ddx_tmp, dside + $c, $b);\n    cudaMemcpy(ddy, ddx_tmp, $b * sizeof(float), cudaMemcpyDeviceToDevice);\n");
    let d0 = Seq::<char>::empty();
    assert(text::filled_from(t, args, 147) =~= d0 + text::filled_from(t, args, 147));
    reveal_strlit("    cudaMemcpy(ddy, ddx_tmp, ");
    assert(t.subrange(147, 176) =~= "    cudaMemcpy(ddy, ddx_tmp, "@);
    text::lemma_copied(t, args, 147, d0, 147, "    cudaMemcpy(ddy, ddx_tmp, "@);
    assert(d0 + "    cudaMemcpy(ddy, ddx_tmp, "@ =~= "    cudaMemcpy(ddy, ddx_tmp, "@);
    let d1 = "    cudaMemcpy(ddy, ddx_tmp, "@;
    text::lemma_placed(t, args, 147, d1, 176, 1);
    let d2 = d1 + args[1];
    reveal_strlit(" * sizeof(float), cudaMemcpyDeviceToDevice);\n");
    assert(t.subrange(178, 223) =~= " * sizeof(float), cudaMemcpyDeviceToDevice);\n"@);
    text::lemma_copied(t, args, 147, d2, 178, " * sizeof(float), cudaMemcpyDeviceToDevice);\n"@);
    let d3 = d2 + " * sizeof(float), cudaMemcpyDeviceToDevice);\n"@;
}

proof fn lemma_add_forward_1(args: Seq<Seq<char>>)
    requires
        args.len() == 4,
    ensures
        text::filled_from(ADD_FORWARD@, args, 0) == "    add_fwd_"@ + args[0] + "<<<grid("@ + args[1] + "), 128>>>("@ + args[2] + ", dtape + "@ + args[3] + ", "@ + args[1] + ");\n"@ + text::filled_from(
            ADD_FORWARD@,
            args,
            55,
        ),
{
    let t = ADD_FORWARD@;
    reveal_strlit("    add_fwd_$a<<<grid($b), 128>>>($c, dtape + $d, $b);\n");
    let d0 = Seq::<char>::empty();
    assert(text::filled_from(t, args, 0) =~= d0 + text::filled_from(t, args, 0));
    reveal_strlit("    add_fwd_");
    assert(t.subrange(0, 12) =~= "    add_fwd_"@);
    text::lemma_copied(t, args, 0, d0, 0, "    add_fwd_"@);
    assert(d0 + "    add_fwd_"@ =~= "    add_fwd_"@);
    let d1 = "    add_fwd_"@;
    text::lemma_placed(t, args, 0, d1, 12, 0);
    let d2 = d1 + args[0];
    reveal_strlit("<<<grid(");
    assert(t.subrange(14, 22) =~= "<<<grid("@);
    text::lemma_copied(t, args, 0, d2, 14, "<<<grid("@);
    let d3 = d2 + "<<<grid("@;
    text::lemma_placed(t, args, 0, d3, 22, 1);
    let d4 = d3 + args[1];
    reveal_strlit("), 128>>>(");
    assert(t.subrange(24, 34) =~= "), 128>>>("@);
    text::lemma_copied(t, args, 0, d4, 24, "), 128>>>("@);
    let d5 = d4 + "), 128>>>("@;
    text::lemma_placed(t, args, 0, d5, 34, 2);
    let d6 = d5 + args[2];
    reveal_strlit(", dtape + ");
    assert(t.subrange(36, 46) =~= ", dtape + "@);
    text::lemma_copied(t, args, 0, d6, 36, ", dtape + "@);
    let d7 = d6 + ", dtape + "@;
    text::lemma_placed(t, args, 0, d7, 46, 3);
    let d8 = d7 + args[3];
    reveal_strlit(", ");
    assert(t.subrange(48, 50) =~= ", "@);
    text::lemma_copied(t, args, 0, d8, 48, ", "@);
    let d9 = d8 + ", "@;
    text::lemma_placed(t, args, 0, d9, 50, 1);
    let d10 = d9 + args[1];
    reveal_strlit(");\n");
    assert(t.subrange(52, 55) =~= ");\n"@);
    text::lemma_copied(t, args, 0, d10, 52, ");\n"@);
    let d11 = d10 + ");\n"@;
}

proof fn lemma_add_backward_1(args: Seq<Seq<char>>)
    requires
        args.len() == 3,
    ensures
        text::filled_from(ADD_BACKWARD@, args, 0) == "    add_fwd_"@ + args[0] + "<<<grid("@ + args[1] + "), 128>>>(dside + "@ + args[2] + ", ddy, "@ + args[1] + ");\n"@ + text::filled_from(
            ADD_BACKWARD@,
            args,
            56,
        ),
{
    let t = ADD_BACKWARD@;
    reveal_strlit("    add_fwd_$a<<<grid($b), 128>>>(dside + $c, ddy, $b);\n");
    let d0 = Seq::<char>::empty();
    assert(text::filled_from(t, args, 0) =~= d0 + text::filled_from(t, args, 0));
    reveal_strlit("    add_fwd_");
    assert(t.subrange(0, 12) =~= "    add_fwd_"@);
    text::lemma_copied(t, args, 0, d0, 0, "    add_fwd_"@);
    assert(d0 + "    add_fwd_"@ =~= "    add_fwd_"@);
    let d1 = "    add_fwd_"@;
    text::lemma_placed(t, args, 0, d1, 12, 0);
    let d2 = d1 + args[0];
    reveal_strlit("<<<grid(");
    assert(t.subrange(14, 22) =~= "<<<grid("@);
    text::lemma_copied(t, args, 0, d2, 14, "<<<grid("@);
    let d3 = d2 + "<<<grid("@;
    text::lemma_placed(t, args, 0, d3, 22, 1);
    let d4 = d3 + args[1];
    reveal_strlit("), 128>>>(dside + ");
    assert(t.subrange(24, 42) =~= "), 128>>>(dside + "@);
    text::lemma_copied(t, args, 0, d4, 24, "), 128>>>(dside + "@);
    let d5 = d4 + "), 128>>>(dside + "@;
    text::lemma_placed(t, args, 0, d5, 42, 2);
    let d6 = d5 + args[2];
    reveal_strlit(", ddy, ");
    assert(t.subrange(44, 51) =~= ", ddy, "@);
    text::lemma_copied(t, args, 0, d6, 44, ", ddy, "@);
    let d7 = d6 + ", ddy, "@;
    text::lemma_placed(t, args, 0, d7, 51, 1);
    let d8 = d7 + args[1];
    reveal_strlit(");\n");
    assert(t.subrange(53, 56) =~= ");\n"@);
    text::lemma_copied(t, args, 0, d8, 53, ");\n"@);
    let d9 = d8 + ");\n"@;
}

proof fn lemma_gemm_forward(args: Seq<Seq<char>>)
    requires
        args.len() == 13,
    ensures
        text::filled(GEMM_FORWARD@, args) == "    cudaMemcpy(dtape + "@ + args[0] + ", "@ + args[1] + ", "@ + args[2] + " * sizeof(float), cudaMemcpyDeviceToDevice);\n"@ + ("    fwd_gemm_"@ + args[3] + "<<<grid("@ + args[4] + "), 128>>>("@ + args[1] + ", dparams + "@ + args[5] + ", dparams + "@ + args[6] + ", "@ + args[7] + ", dmask + "@ + args[8] + ", "@ + args[9] + ", "@ + args[10] + ", "@ + args[11] + ", "@ + args[12] + ");\n"@),
{
    reveal_strlit("    cudaMemcpy(dtape + $a, $b, $c * sizeof(float), cudaMemcpyDeviceToDevice);\n    fwd_gemm_$d<<<grid($e), 128>>>($b, dparams + $f, dparams + $g, $h, dmask + $i, $j, $k, $l, $m);\n");
    let end = text::filled_from(GEMM_FORWARD@, args, 178);
    assert(end =~= Seq::<char>::empty());
    lemma_gemm_forward_1(args);
    let l1 = "    cudaMemcpy(dtape + "@ + args[0] + ", "@ + args[1] + ", "@ + args[2] + " * sizeof(float), cudaMemcpyDeviceToDevice);\n"@;
    lemma_gemm_forward_2(args);
    let l2 = "    fwd_gemm_"@ + args[3] + "<<<grid("@ + args[4] + "), 128>>>("@ + args[1] + ", dparams + "@ + args[5] + ", dparams + "@ + args[6] + ", "@ + args[7] + ", dmask + "@ + args[8] + ", "@ + args[9] + ", "@ + args[10] + ", "@ + args[11] + ", "@ + args[12] + ");\n"@;
    let r1 = text::filled_from(GEMM_FORWARD@, args, 178);
    assert(l1 + (l2 + r1) =~= l1 + l2 + r1);
    assert((l1 + l2) + end =~= (l1 + l2));
}

proof fn lemma_gemm_backward(args: Seq<Seq<char>>)
    requires
        args.len() == 12,
    ensures
        text::filled(GEMM_BACKWARD@, args) == "    if ("@ + args[0] + ") bwd_relu_"@ + args[1] + "<<<grid("@ + args[2] + "), 128>>>(ddy, dmask + "@ + args[3] + ", "@ + args[2] + ");\n"@ + ("    bwd_dx_"@ + args[1] + "<<<grid("@ + args[4] + "), 128>>>(ddy, dparams + "@ + args[5] + ", ddx_tmp, "@ + args[6] + ", "@ + args[7] + ", "@ + args[8] + ");\n"@) + ("    bwd_dw_"@ + args[1] + "<<<grid("@ + args[9] + "), 128>>>(dtape + "@ + args[10] + ", ddy, ddp + "@ + args[5] + ", "@ + args[6] + ", "@ + args[7] + ", "@ + args[8] + ");\n"@) + ("    bwd_db_"@ + args[1] + "<<<grid("@ + args[8] + "), 128>>>(ddy, ddp + "@ + args[11] + ", "@ + args[6] + ", "@ + args[8] + ");\n"@) + ("    add_skip_"@ + args[1] + "<<<grid("@ + args[4] + "), 128>>>(ddx_tmp, dside + "@ + args[10] + ", "@ + args[4] + ");\n"@) + ("    cudaMemcpy(ddy, ddx_tmp, "@ + args[4] + " * sizeof(float), cudaMemcpyDeviceToDevice);\n"@),
{
    reveal_strlit("    if ($a) bwd_relu_$b<<<grid($c), 128>>>(ddy, dmask + $d, $c);\n    bwd_dx_$b<<<grid($e), 128>>>(ddy, dparams + $f, ddx_tmp, $g, $h, $i);\n    bwd_dw_$b<<<grid($j), 128>>>(dtape + $k, ddy, ddp + $f, $g, $h, $i);\n    bwd_db_$b<<<grid($i), 128>>>(ddy, ddp + $l, $g, $i);\n    add_skip_$b<<<grid($e), 128>>>(ddx_tmp, dside + $k, $e);\n    cudaMemcpy(ddy, ddx_tmp, $e * sizeof(float), cudaMemcpyDeviceToDevice);\n");
    let end = text::filled_from(GEMM_BACKWARD@, args, 406);
    assert(end =~= Seq::<char>::empty());
    lemma_gemm_backward_1(args);
    let l1 = "    if ("@ + args[0] + ") bwd_relu_"@ + args[1] + "<<<grid("@ + args[2] + "), 128>>>(ddy, dmask + "@ + args[3] + ", "@ + args[2] + ");\n"@;
    lemma_gemm_backward_2(args);
    let l2 = "    bwd_dx_"@ + args[1] + "<<<grid("@ + args[4] + "), 128>>>(ddy, dparams + "@ + args[5] + ", ddx_tmp, "@ + args[6] + ", "@ + args[7] + ", "@ + args[8] + ");\n"@;
    lemma_gemm_backward_3(args);
    let l3 = "    bwd_dw_"@ + args[1] + "<<<grid("@ + args[9] + "), 128>>>(dtape + "@ + args[10] + ", ddy, ddp + "@ + args[5] + ", "@ + args[6] + ", "@ + args[7] + ", "@ + args[8] + ");\n"@;
    lemma_gemm_backward_4(args);
    let l4 = "    bwd_db_"@ + args[1] + "<<<grid("@ + args[8] + "), 128>>>(ddy, ddp + "@ + args[11] + ", "@ + args[6] + ", "@ + args[8] + ");\n"@;
    lemma_gemm_backward_5(args);
    let l5 = "    add_skip_"@ + args[1] + "<<<grid("@ + args[4] + "), 128>>>(ddx_tmp, dside + "@ + args[10] + ", "@ + args[4] + ");\n"@;
    lemma_gemm_backward_6(args);
    let l6 = "    cudaMemcpy(ddy, ddx_tmp, "@ + args[4] + " * sizeof(float), cudaMemcpyDeviceToDevice);\n"@;
    let r1 = text::filled_from(GEMM_BACKWARD@, args, 139);
    assert(l1 + (l2 + r1) =~= l1 + l2 + r1);
    let r2 = text::filled_from(GEMM_BACKWARD@, args, 212);
    assert((l1 + l2) + (l3 + r2) =~= (l1 + l2) + l3 + r2);
    let r3 = text::filled_from(GEMM_BACKWARD@, args, 269);
    assert(((l1 + l2) + l3) + (l4 + r3) =~= ((l1 + l2) + l3) + l4 + r3);
    let r4 = text::filled_from(GEMM_BACKWARD@, args, 330);
    assert((((l1 + l2) + l3) + l4) + (l5 + r4) =~= (((l1 + l2) + l3) + l4) + l5 + r4);
    let r5 = text::filled_from(GEMM_BACKWARD@, args, 406);
    assert(((((l1 + l2) + l3) + l4) + l5) + (l6 + r5) =~= ((((l1 + l2) + l3) + l4) + l5) + l6 + r5);
    assert((((((l1 + l2) + l3) + l4) + l5) + l6) + end =~= (((((l1 + l2) + l3) + l4) + l5) + l6));
}

proof fn lemma_attention_forward(args: Seq<Seq<char>>)
    requires
        args.len() == 10,
    ensures
        text::filled(ATTENTION_FORWARD@, args) == "    cudaMemcpy(dtape + "@ + args[0] + ", "@ + args[1] + ", "@ + args[2] + " * sizeof(float), cudaMemcpyDeviceToDevice);\n"@ + ("    fwd_attn_"@ + args[3] + "<<<grid("@ + args[4] + "), 128>>>("@ + args[1] + ", dtape + "@ + args[5] + ", "@ + args[6] + ", "@ + args[7] + ", "@ + args[8] + ", "@ + args[9] + ");\n"@),
{
    reveal_strlit("    cudaMemcpy(dtape + $a, $b, $c * sizeof(float), cudaMemcpyDeviceToDevice);\n    fwd_attn_$d<<<grid($e), 128>>>($b, dtape + $f, $g, $h, $i, $j);\n");
    let end = text::filled_from(ATTENTION_FORWARD@, args, 146);
    assert(end =~= Seq::<char>::empty());
    lemma_attention_forward_1(args);
    let l1 = "    cudaMemcpy(dtape + "@ + args[0] + ", "@ + args[1] + ", "@ + args[2] + " * sizeof(float), cudaMemcpyDeviceToDevice);\n"@;
    lemma_attention_forward_2(args);
    let l2 = "    fwd_attn_"@ + args[3] + "<<<grid("@ + args[4] + "), 128>>>("@ + args[1] + ", dtape + "@ + args[5] + ", "@ + args[6] + ", "@ + args[7] + ", "@ + args[8] + ", "@ + args[9] + ");\n"@;
    let r1 = text::filled_from(ATTENTION_FORWARD@, args, 146);
    assert(l1 + (l2 + r1) =~= l1 + l2 + r1);
    assert((l1 + l2) + end =~= (l1 + l2));
}

proof fn lemma_attention_backward(args: Seq<Seq<char>>)
    requires
        args.len() == 7,
    ensures
        text::filled(ATTENTION_BACKWARD@, args) == "    bwd_attn_"@ + args[0] + "<<<grid("@ + args[1] + "), 128>>>(dtape + "@ + args[2] + ", dtape + "@ + args[3] + ", ddy, ddx_tmp, "@ + args[4] + ", "@ + args[5] + ", "@ + args[6] + ");\n"@ + ("    add_skip_"@ + args[0] + "<<<grid("@ + args[1] + "), 128>>>(ddx_tmp, dside + "@ + args[2] + ", "@ + args[1] + ");\n"@) + ("    cudaMemcpy(ddy, ddx_tmp, "@ + args[1] + " * sizeof(float), cudaMemcpyDeviceToDevice);\n"@),
{
    reveal_strlit("    bwd_attn_$a<<<grid($b), 128>>>(dtape + $c, dtape + $d, ddy, ddx_tmp, $e, $f, $g);\n    add_skip_$a<<<grid($b), 128>>>(ddx_tmp, dside + $c, $b);\n    cudaMemcpy(ddy, ddx_tmp, $b * sizeof(float), cudaMemcpyDeviceToDevice);\n");
    let end = text::filled_from(ATTENTION_BACKWARD@, args, 223);
    assert(end =~= Seq::<char>::empty());
    lemma_attention_backward_1(args);
    let l1 = "    bwd_attn_"@ + args[0] + "<<<grid("@ + args[1] + "), 128>>>(dtape + "@ + args[2] + ", dtape + "@ + args[3] + ", ddy, ddx_tmp, "@ + args[4] + ", "@ + args[5] + ", "@ + args[6] + ");\n"@;
    lemma_attention_backward_2(args);
    let l2 = "    add_skip_"@ + args[0] + "<<<grid("@ + args[1] + "), 128>>>(ddx_tmp, dside + "@ + args[2] + ", "@ + args[1] + ");\n"@;
    lemma_attention_backward_3(args);
    let l3 = "    cudaMemcpy(ddy, ddx_tmp, "@ + args[1] + " * sizeof(float), cudaMemcpyDeviceToDevice);\n"@;
    let r1 = text::filled_from(ATTENTION_BACKWARD@, args, 147);
    assert(l1 + (l2 + r1) =~= l1 + l2 + r1);
    let r2 = text::filled_from(ATTENTION_BACKWARD@, args, 223);
    assert((l1 + l2) + (l3 + r2) =~= (l1 + l2) + l3 + r2);
    assert(((l1 + l2) + l3) + end =~= ((l1 + l2) + l3));
}

proof fn lemma_add_forward(args: Seq<Seq<char>>)
    requires
        args.len() == 4,
    ensures
        text::filled(ADD_FORWARD@, args) == "    add_fwd_"@ + args[0] + "<<<grid("@ + args[1] + "), 128>>>("@ + args[2] + ", dtape + "@ + args[3] + ", "@ + args[1] + ");\n"@,
{
    reveal_strlit("    add_fwd_$a<<<grid($b), 128>>>($c, dtape + $d, $b);\n");
    let end = text::filled_from(ADD_FORWARD@, args, 55);
    assert(end =~= Seq::<char>::empty());
    lemma_add_forward_1(args);
    let l1 = "    add_fwd_"@ + args[0] + "<<<grid("@ + args[1] + "), 128>>>("@ + args[2] + ", dtape + "@ + args[3] + ", "@ + args[1] + ");\n"@;
    assert(l1 + end =~= l1);
}

proof fn lemma_add_backward(args: Seq<Seq<char>>)
    requires
        args.len() == 3,
    ensures
        text::filled(ADD_BACKWARD@, args) == "    add_fwd_"@ + args[0] + "<<<grid("@ + args[1] + "), 128>>>(dside + "@ + args[2] + ", ddy, "@ + args[1] + ");\n"@,
{
    reveal_strlit("    add_fwd_$a<<<grid($b), 128>>>(dside + $c, ddy, $b);\n");
    let end = text::filled_from(ADD_BACKWARD@, args, 56);
    assert(end =~= Seq::<char>::empty());
    lemma_add_backward_1(args);
    let l1 = "    add_fwd_"@ + args[0] + "<<<grid("@ + args[1] + "), 128>>>(dside + "@ + args[2] + ", ddy, "@ + args[1] + ");\n"@;
    assert(l1 + end =~= l1);
}

/// The launches of a linear stage and those of its adjoint speak of the same
/// places. The forward launches copy the input to the tape where the stage
/// saves, and the weight gradient reads it there. What a skip left beside the
/// tape for that input is added to its cotangent. Weight, bias and mask are
/// read, or their gradients written, at one offset each on both ways.
pub proof fn law_linear_launches(s: Stage, i: int, second: bool)
    requires
        s is Gemm,
    ensures
        ({
            let (batch, din, dout) = (s->Gemm_batch as int, s->din as int, s->dout as int);
            let stage = text::dec(i);
            let saved = text::dec(s->save_at as int);
            let mask = text::dec(s->mask_at as int);
            let weight = text::dec(s->param_at as int);
            let bias = text::dec(s->param_at + din * dout);
            let (b, k, n) = (text::dec(batch), text::dec(din), text::dec(dout));
            let (xs, ys, ws) = (text::dec(batch * din), text::dec(batch * dout), text::dec(din * dout));
            let relu = text::dec(
                if s->relu {
                    1
                } else {
                    0
                },
            );
            let (from, to) = if second {
                ("buf1"@, "buf0"@)
            } else {
                ("buf0"@, "buf1"@)
            };
            &&& stage_forward(s, i, second) == "    cudaMemcpy(dtape + "@ + saved + ", "@ + from + ", "@ + xs + " * sizeof(float), cudaMemcpyDeviceToDevice);\n"@ + ("    fwd_gemm_"@ + stage + "<<<grid("@ + ys + "), 128>>>("@ + from + ", dparams + "@ + weight + ", dparams + "@ + bias + ", "@ + to + ", dmask + "@ + mask + ", "@ + b + ", "@ + k + ", "@ + n + ", "@ + relu + ");\n"@)
            &&& stage_backward(s, i) == "    if ("@ + relu + ") bwd_relu_"@ + stage + "<<<grid("@ + ys + "), 128>>>(ddy, dmask + "@ + mask + ", "@ + ys + ");\n"@ + ("    bwd_dx_"@ + stage + "<<<grid("@ + xs + "), 128>>>(ddy, dparams + "@ + weight + ", ddx_tmp, "@ + b + ", "@ + k + ", "@ + n + ");\n"@) + (
            "    bwd_dw_"@ + stage + "<<<grid("@ + ws + "), 128>>>(dtape + "@ + saved + ", ddy, ddp + "@ + weight + ", "@ + b + ", "@ + k + ", "@ + n + ");\n"@) + ("    bwd_db_"@ + stage + "<<<grid("@ + n + "), 128>>>(ddy, ddp + "@ + bias + ", "@ + b + ", "@ + n + ");\n"@) + (
            "    add_skip_"@ + stage + "<<<grid("@ + xs + "), 128>>>(ddx_tmp, dside + "@ + saved + ", "@ + xs + ");\n"@) + ("    cudaMemcpy(ddy, ddx_tmp, "@ + xs + " * sizeof(float), cudaMemcpyDeviceToDevice);\n"@)
        }),
{
    if let Stage::Gemm { batch, din, dout, relu, save_at, mask_at, param_at } = s {
        let f = seq![
            text::dec(save_at as int),
            buffer(second),
            text::dec(batch * din),
            text::dec(i),
            text::dec(batch * dout),
            text::dec(param_at as int),
            text::dec(param_at + din * dout),
            buffer(!second),
            text::dec(mask_at as int),
            text::dec(batch as int),
            text::dec(din as int),
            text::dec(dout as int),
            flag(relu),
        ];
        let b = seq![
            flag(relu),
            text::dec(i),
            text::dec(batch * dout),
            text::dec(mask_at as int),
            text::dec(batch * din),
            text::dec(param_at as int),
            text::dec(batch as int),
            text::dec(din as int),
            text::dec(dout as int),
            text::dec(din * dout),
            text::dec(save_at as int),
            text::dec(param_at + din * dout),
        ];
        lemma_gemm_forward(f);
        lemma_gemm_backward(b);
    }
}

/// The launches of attention and those of its adjoint speak of the same
/// places: tokens and probabilities are read where they were saved, and what a
/// skip left beside the tokens is added to their cotangent.
pub proof fn law_attention_launches(s: Stage, i: int, second: bool)
    requires
        s is Attention,
    ensures
        ({
            let (batch, tokens, dim) = (s->Attention_batch as int, s->tokens as int, s->dim as int);
            let stage = text::dec(i);
            let saved = text::dec(s->x_at as int);
            let probs = text::dec(s->probs_at as int);
            let (b, t, d) = (text::dec(batch), text::dec(tokens), text::dec(dim));
            let (xs, rows) = (text::dec(batch * tokens * dim), text::dec(batch * tokens));
            let (from, to) = if second {
                ("buf1"@, "buf0"@)
            } else {
                ("buf0"@, "buf1"@)
            };
            &&& stage_forward(s, i, second) == "    cudaMemcpy(dtape + "@ + saved + ", "@ + from + ", "@ + xs + " * sizeof(float), cudaMemcpyDeviceToDevice);\n"@ + ("    fwd_attn_"@ + stage + "<<<grid("@ + rows + "), 128>>>("@ + from + ", dtape + "@ + probs + ", "@ + to + ", "@ + b + ", "@ + t + ", "@ + d + ");\n"@)
            &&& stage_backward(s, i) == "    bwd_attn_"@ + stage + "<<<grid("@ + xs + "), 128>>>(dtape + "@ + saved + ", dtape + "@ + probs + ", ddy, ddx_tmp, "@ + b + ", "@ + t + ", "@ + d + ");\n"@ + ("    add_skip_"@ + stage + "<<<grid("@ + xs + "), 128>>>(ddx_tmp, dside + "@ + saved + ", "@ + xs + ");\n"@) + (
            "    cudaMemcpy(ddy, ddx_tmp, "@ + xs + " * sizeof(float), cudaMemcpyDeviceToDevice);\n"@)
        }),
{
    if let Stage::Attention { batch, tokens, dim, x_at, probs_at } = s {
        let f = seq![
            text::dec(x_at as int),
            buffer(second),
            text::dec(batch * tokens * dim),
            text::dec(i),
            text::dec(batch * tokens),
            text::dec(probs_at as int),
            buffer(!second),
            text::dec(batch as int),
            text::dec(tokens as int),
            text::dec(dim as int),
        ];
        let b = seq![
            text::dec(i),
            text::dec(batch * tokens * dim),
            text::dec(x_at as int),
            text::dec(probs_at as int),
            text::dec(batch as int),
            text::dec(tokens as int),
            text::dec(dim as int),
        ];
        lemma_attention_forward(f);
        lemma_attention_backward(b);
    }
}

/// A skip adds what stands on the tape where it reads, in place. Its adjoint
/// adds the cotangent beside the tape at the same offset and length, and
/// leaves the cotangent itself.
pub proof fn law_skip_launches(s: Stage, i: int, second: bool)
    requires
        s is Add,
    ensures
        ({
            let stage = text::dec(i);
            let read = text::dec(s->from as int);
            let n = text::dec(s->len as int);
            let at = if second {
                "buf1"@
            } else {
                "buf0"@
            };
            &&& stage_forward(s, i, second) == "    add_fwd_"@ + stage + "<<<grid("@ + n + "), 128>>>("@ + at + ", dtape + "@ + read + ", "@ + n + ");\n"@
            &&& stage_backward(s, i) == "    add_fwd_"@ + stage + "<<<grid("@ + n + "), 128>>>(dside + "@ + read + ", ddy, "@ + n + ");\n"@
        }),
{
    if let Stage::Add { from, len } = s {
        let f = seq![text::dec(i), text::dec(len as int), buffer(second), text::dec(from as int)];
        let b = seq![text::dec(i), text::dec(len as int), text::dec(from as int)];
        lemma_add_forward(f);
        lemma_add_backward(b);
    }
}

/// A stage reads the buffer that the stage before it wrote. A skip works in
/// place, and the input is in the first buffer.
pub proof fn law_buffers(stages: Seq<Stage>, i: int)
    requires
        0 <= i < stages.len(),
    ensures
        !in_second(stages, 0),
        stages[i] is Add ==> in_second(stages, i + 1) == in_second(stages, i),
        !(stages[i] is Add) ==> in_second(stages, i + 1) == !in_second(stages, i),
{
}

/// The kernels of the first `k` stages.
pub open spec fn all_kernels(stages: Seq<Stage>, k: int) -> Seq<char> {
    crate::theory::listing::cat(k, |i: int| stage_kernels(stages[i], i))
}

/// The forward launches of the first `k` stages.
pub open spec fn all_forward(stages: Seq<Stage>, k: int) -> Seq<char> {
    FORWARD_START@ + crate::theory::listing::cat(k, |i: int| stage_forward(stages[i], i, in_second(stages, i)))
}

/// The backward launches of the last `k` stages, the last stage first.
pub open spec fn all_backward(stages: Seq<Stage>, k: int) -> Seq<char> {
    BACKWARD_START@ + crate::theory::listing::cat(
        k,
        |j: int| stage_backward(stages[stages.len() - 1 - j], stages.len() - 1 - j),
    )
}

pub open spec fn larger(a: int, b: int) -> int {
    if a < b {
        b
    } else {
        a
    }
}

/// The widest activation that a stage reads or writes.
pub open spec fn stage_width(s: Stage) -> int {
    match s {
        Stage::Gemm { batch, din, dout, .. } => batch * larger(din as int, dout as int),
        Stage::Attention { batch, tokens, dim, .. } => batch * tokens * dim,
        Stage::Add { from, len } => len as int,
    }
}

/// The widest activation of a program, over its input, its output and its
/// first `k` stages.
pub open spec fn widest(p: Prog, k: int) -> int
    decreases k,
{
    if k <= 0 {
        larger(p.input_len, p.output_len)
    } else {
        larger(widest(p, k - 1), stage_width(p.stages[k - 1]))
    }
}

/// The widest activation of a program holds its input, its output and what
/// each stage reads and writes, and is no wider than one of these.
pub proof fn law_widest(p: Prog, k: int)
    requires
        0 <= k <= p.stages.len(),
    ensures
        p.input_len <= widest(p, k),
        p.output_len <= widest(p, k),
        forall|i: int|
            0 <= i < k ==> match #[trigger] p.stages[i] {
                Stage::Gemm { batch, din, dout, .. } => batch * din <= widest(p, k) && batch * dout <= widest(p, k),
                Stage::Attention { batch, tokens, dim, .. } => batch * tokens * dim <= widest(p, k),
                Stage::Add { len, .. } => len <= widest(p, k),
            },
        widest(p, k) == p.input_len || widest(p, k) == p.output_len || exists|i: int|
            0 <= i < k && match #[trigger] p.stages[i] {
                Stage::Gemm { batch, din, dout, .. } => widest(p, k) == batch * din || widest(p, k) == batch * dout,
                Stage::Attention { batch, tokens, dim, .. } => widest(p, k) == batch * tokens * dim,
                Stage::Add { len, .. } => widest(p, k) == len,
            },
    decreases k,
{
    if k > 0 {
        law_widest(p, k - 1);
        let s = p.stages[k - 1];
        if let Stage::Gemm { batch, din, dout, .. } = s {
            let a = batch as int;
            let b = din as int;
            let c = dout as int;
            assert(a * b <= a * larger(b, c) && a * c <= a * larger(b, c)) by (nonlinear_arith)
                requires a >= 0, b <= larger(b, c), c <= larger(b, c);
        }
        if widest(p, k) == widest(p, k - 1) && widest(p, k) != p.input_len && widest(p, k) != p.output_len {
            let i = choose|i: int|
                0 <= i < k - 1 && match #[trigger] p.stages[i] {
                    Stage::Gemm { batch, din, dout, .. } => widest(p, k - 1) == batch * din || widest(p, k - 1) == batch
                        * dout,
                    Stage::Attention { batch, tokens, dim, .. } => widest(p, k - 1) == batch * tokens * dim,
                    Stage::Add { len, .. } => widest(p, k - 1) == len,
                };
            assert(p.stages[i] == p.stages[i]);
        }
    }
}

proof fn lemma_same_buffers(stages: Seq<Stage>, s: Stage, i: int)
    requires
        0 <= i <= stages.len(),
    ensures
        in_second(stages.push(s), i) == in_second(stages, i),
    decreases i,
{
    if i > 0 {
        lemma_same_buffers(stages, s, i - 1);
        assert(stages.push(s)[i - 1] == stages[i - 1]);
    }
}

/// A stage more at the end of a program brings its kernels after the others,
/// its forward launches after the others, and its backward launches before
/// the others.
pub proof fn law_launch_order(stages: Seq<Stage>, s: Stage)
    ensures
        ({
            let n = stages.len() as int;
            let more = stages.push(s);
            &&& all_kernels(more, n + 1) == all_kernels(stages, n) + stage_kernels(s, n)
            &&& all_forward(more, n + 1) == all_forward(stages, n) + stage_forward(s, n, in_second(stages, n))
            &&& exists|rest: Seq<char>|
                all_backward(stages, n) == #[trigger] (BACKWARD_START@ + rest) && all_backward(more, n + 1) == BACKWARD_START@
                    + stage_backward(s, n) + rest
        }),
{
    let n = stages.len() as int;
    let more = stages.push(s);
    let k0 = |i: int| stage_kernels(stages[i], i);
    let k1 = |i: int| stage_kernels(more[i], i);
    assert forall|i: int| 0 <= i < n implies #[trigger] k1(i) == k0(i) by {
        assert(more[i] == stages[i]);
    }
    crate::theory::plan_laws::lemma_cat_ext(n, k1, k0);
    assert(more[n] == s);
    let f0 = |i: int| stage_forward(stages[i], i, in_second(stages, i));
    let f1 = |i: int| stage_forward(more[i], i, in_second(more, i));
    assert forall|i: int| 0 <= i < n implies #[trigger] f1(i) == f0(i) by {
        lemma_same_buffers(stages, s, i);
    }
    lemma_same_buffers(stages, s, n);
    crate::theory::plan_laws::lemma_cat_ext(n, f1, f0);
    let a = crate::theory::listing::cat(n, f0);
    assert(FORWARD_START@ + (a + f1(n)) =~= (FORWARD_START@ + a) + f1(n));
    let b0 = |j: int| stage_backward(stages[stages.len() - 1 - j], stages.len() - 1 - j);
    let b1 = |j: int| stage_backward(more[more.len() - 1 - j], more.len() - 1 - j);
    let rest = crate::theory::listing::cat(n, b0);
    lemma_cat_first(n, b1);
    let shifted = |j: int| b1(1 + j);
    assert forall|j: int| 0 <= j < n implies #[trigger] shifted(j) == b0(j) by {
        assert(more[more.len() - 1 - (1 + j)] == stages[stages.len() - 1 - j]);
    }
    crate::theory::plan_laws::lemma_cat_ext(n, shifted, b0);
    assert(BACKWARD_START@ + (b1(0) + rest) =~= BACKWARD_START@ + b1(0) + rest);
    assert(all_backward(stages, n) == BACKWARD_START@ + rest);
}

proof fn lemma_cat_first(n: int, f: spec_fn(int) -> Seq<char>)
    requires
        0 <= n,
    ensures
        crate::theory::listing::cat(n + 1, f) == f(0) + crate::theory::listing::cat(n, |j: int| f(1 + j)),
    decreases n,
{
    let g = |j: int| f(1 + j);
    if n == 0 {
        reveal_with_fuel(crate::theory::listing::cat, 2);
        assert(crate::theory::listing::cat(1, f) =~= f(0) + crate::theory::listing::cat(0, g));
    } else {
        lemma_cat_first(n - 1, f);
        assert(f(0) + (crate::theory::listing::cat(n - 1, g) + g(n - 1)) =~= f(0) + crate::theory::listing::cat(n - 1, g) + g(
            n - 1,
        ));
    }
}

/// The sizes that the launches of a stage name fit in machine words.
pub open spec fn stage_fits(s: Stage) -> bool {
    match s {
        Stage::Gemm { batch, din, dout, param_at, .. } => {
            &&& batch * din <= usize::MAX
            &&& batch * dout <= usize::MAX
            &&& din * dout <= usize::MAX
            &&& param_at + din * dout <= usize::MAX
        },
        Stage::Attention { batch, tokens, dim, .. } => batch * tokens <= usize::MAX && batch * tokens * dim <= usize::MAX,
        Stage::Add { .. } => true,
    }
}

pub open spec fn emit_fits(p: Prog) -> bool {
    forall|i: int| 0 <= i < p.stages.len() ==> stage_fits(#[trigger] p.stages[i])
}

/// A list of literals, or a single zero for an empty list: C has no empty
/// arrays.
pub open spec fn array_or_zero(xs: Seq<Seq<char>>) -> Seq<char> {
    if xs.len() == 0 {
        "0.f"@
    } else {
        text::joined(xs, ", "@)
    }
}

/// The CUDA source of a program.
pub open spec fn source(
    p: Prog,
    x: Seq<Seq<char>>,
    params: Seq<Seq<char>>,
    expect_y: Seq<Seq<char>>,
    expect_dx: Seq<Seq<char>>,
    expect_dp: Seq<Seq<char>>,
) -> Seq<char> {
    let n = p.stages.len() as int;
    text::filled(
        SOURCE@,
        seq![
            GRID_HELPER@,
            all_kernels(p.stages, n),
            text::dec(p.input_len),
            text::dec(p.output_len),
            text::dec(p.param_len),
            text::dec(p.tape_f32),
            text::dec(p.tape_u8),
            text::dec(widest(p, n)),
            text::joined(x, ", "@),
            array_or_zero(params),
            text::joined(expect_y, ", "@),
            text::joined(expect_dx, ", "@),
            array_or_zero(expect_dp),
            all_forward(p.stages, n),
            buffer(in_second(p.stages, n)),
            all_backward(p.stages, n),
            p.name,
        ],
    )
}

/// What the template of a program holds, and where.
proof fn lemma_source_parts()
    ensures
        SOURCE@.len() == 2516,
        SOURCE@[62] != '$',
        SOURCE@.subrange(63, 80) == "#include <cmath>\n"@,
        SOURCE@[80] == '$' && text::slot(SOURCE@[81]) == 0,
        SOURCE@.subrange(82, 83) == "\n"@,
        SOURCE@[83] == '$' && text::slot(SOURCE@[84]) == 1,
        SOURCE@.subrange(85, 102) == "\nstatic int fail("@,
        SOURCE@[171] != '$',
        SOURCE@.subrange(172, 195) == "    const int in_len = "@,
        SOURCE@[195] == '$' && text::slot(SOURCE@[196]) == 2,
        SOURCE@.subrange(197, 199) == ";\n"@,
        SOURCE@[198] != '$',
        SOURCE@.subrange(199, 223) == "    const int out_len = "@,
        SOURCE@[223] == '$' && text::slot(SOURCE@[224]) == 3,
        SOURCE@.subrange(225, 227) == ";\n"@,
        SOURCE@[226] != '$',
        SOURCE@.subrange(227, 253) == "    const int param_len = "@,
        SOURCE@[253] == '$' && text::slot(SOURCE@[254]) == 4,
        SOURCE@.subrange(255, 257) == ";\n"@,
        SOURCE@[256] != '$',
        SOURCE@.subrange(257, 282) == "    const int tape_f32 = "@,
        SOURCE@[282] == '$' && text::slot(SOURCE@[283]) == 5,
        SOURCE@.subrange(284, 286) == ";\n"@,
        SOURCE@[285] != '$',
        SOURCE@.subrange(286, 310) == "    const int tape_u8 = "@,
        SOURCE@[310] == '$' && text::slot(SOURCE@[311]) == 6,
        SOURCE@.subrange(312, 314) == ";\n"@,
        SOURCE@[313] != '$',
        SOURCE@.subrange(314, 340) == "    const int max_activ = "@,
        SOURCE@[340] == '$' && text::slot(SOURCE@[341]) == 7,
        SOURCE@.subrange(342, 344) == ";\n"@,
        SOURCE@[674] != '$',
        SOURCE@.subrange(675, 701) == "    const float h_x[] = { "@,
        SOURCE@[701] == '$' && text::slot(SOURCE@[702]) == 8,
        SOURCE@.subrange(703, 707) == " };\n"@,
        SOURCE@[706] != '$',
        SOURCE@.subrange(707, 733) == "    const float h_p[] = { "@,
        SOURCE@[733] == '$' && text::slot(SOURCE@[734]) == 9,
        SOURCE@.subrange(735, 739) == " };\n"@,
        SOURCE@[738] != '$',
        SOURCE@.subrange(739, 766) == "    const float h_ey[] = { "@,
        SOURCE@[766] == '$' && text::slot(SOURCE@[767]) == 10,
        SOURCE@.subrange(768, 772) == " };\n"@,
        SOURCE@[771] != '$',
        SOURCE@.subrange(772, 800) == "    const float h_edx[] = { "@,
        SOURCE@[800] == '$' && text::slot(SOURCE@[801]) == 11,
        SOURCE@.subrange(802, 806) == " };\n"@,
        SOURCE@[805] != '$',
        SOURCE@.subrange(806, 834) == "    const float h_edp[] = { "@,
        SOURCE@[834] == '$' && text::slot(SOURCE@[835]) == 12,
        SOURCE@.subrange(836, 840) == " };\n"@,
        SOURCE@[1499] != '$',
        SOURCE@.subrange(1500, 1567) == "    cudaMemcpy(dparams, h_p, param_bytes, cudaMemcpyHostToDevice);\n"@,
        SOURCE@[1567] == '$' && text::slot(SOURCE@[1568]) == 13,
        SOURCE@.subrange(1569, 1657) == "\n    std::vector<float> y(out_len), dx(in_len), dp(param_len);\n    cudaMemcpy(y.data(), "@,
        SOURCE@[1657] == '$' && text::slot(SOURCE@[1658]) == 14,
        SOURCE@.subrange(1659, 1697) == ", out_bytes, cudaMemcpyDeviceToHost);\n"@,
        SOURCE@[1697] == '$' && text::slot(SOURCE@[1698]) == 15,
        SOURCE@.subrange(1699, 1766) == "\n    cudaMemcpy(dx.data(), ddy, in_bytes, cudaMemcpyDeviceToHost);\n"@,
        SOURCE@[2476] != '$',
        SOURCE@.subrange(2477, 2492) == "    printf(\"OK "@,
        SOURCE@[2492] == '$' && text::slot(SOURCE@[2493]) == 16,
        SOURCE@.subrange(2494, 2500) == "\\n\");\n"@,
{
    reveal_strlit(r#"
#include <cuda_runtime.h>
#include <cstdio>
#include <vector>
#include <cmath>
$a
$b
static int fail(const char* msg) { printf("FAIL %s\n", msg); return 1; }
int main() {
    const int in_len = $c;
    const int out_len = $d;
    const int param_len = $e;
    const int tape_f32 = $f;
    const int tape_u8 = $g;
    const int max_activ = $h;
    const size_t in_bytes = in_len * sizeof(float);
    const size_t out_bytes = out_len * sizeof(float);
    const size_t param_bytes = param_len * sizeof(float);
    const size_t tape_f32_bytes = (tape_f32 > 0 ? tape_f32 : 1) * sizeof(float);
    const size_t tape_u8_bytes = (tape_u8 > 0 ? tape_u8 : 1) * sizeof(unsigned char);
    const float h_x[] = { $i };
    const float h_p[] = { $j };
    const float h_ey[] = { $k };
    const float h_edx[] = { $l };
    const float h_edp[] = { $m };
    float *buf0, *buf1, *dparams, *dtape, *ddy, *ddx, *ddx_tmp, *ddp, *dside;
    unsigned char* dmask;
    cudaMalloc(&buf0, max_activ * sizeof(float));
    cudaMalloc(&buf1, max_activ * sizeof(float));
    cudaMalloc(&dparams, param_bytes == 0 ? sizeof(float) : param_bytes);
    cudaMalloc(&dtape, tape_f32_bytes);
    cudaMalloc(&dmask, tape_u8_bytes);
    cudaMalloc(&ddy, max_activ * sizeof(float));
    cudaMalloc(&ddx, max_activ * sizeof(float));
    cudaMalloc(&ddx_tmp, max_activ * sizeof(float));
    cudaMalloc(&ddp, param_bytes == 0 ? sizeof(float) : param_bytes);
    cudaMalloc(&dside, tape_f32_bytes);
    cudaMemset(dside, 0, tape_f32_bytes);
    cudaMemcpy(dparams, h_p, param_bytes, cudaMemcpyHostToDevice);
$n
    std::vector<float> y(out_len), dx(in_len), dp(param_len);
    cudaMemcpy(y.data(), $o, out_bytes, cudaMemcpyDeviceToHost);
$p
    cudaMemcpy(dx.data(), ddy, in_bytes, cudaMemcpyDeviceToHost);
    cudaMemcpy(dp.data(), ddp, param_bytes, cudaMemcpyDeviceToHost);
    cudaError_t err = cudaDeviceSynchronize();
    if (err) return fail(cudaGetErrorString(err));
    auto close = [](float a, float b) { return fabsf(a - b) <= 1e-3f + 1e-3f * fabsf(b); };
    for (int i = 0; i < out_len; ++i) if (!close(y[i], h_ey[i])) {
        printf("FAIL y[%d] gpu %g cpu %g\n", i, y[i], h_ey[i]); return 1;
    }
    for (int i = 0; i < in_len; ++i) if (!close(dx[i], h_edx[i])) {
        printf("FAIL dx[%d] gpu %g cpu %g\n", i, dx[i], h_edx[i]); return 1;
    }
    for (int i = 0; i < param_len; ++i) if (!close(dp[i], h_edp[i])) {
        printf("FAIL dp[%d] gpu %g cpu %g\n", i, dp[i], h_edp[i]); return 1;
    }
    printf("OK $q\n");
    return 0;
}
"#);
    reveal_strlit("#include <cmath>\n");
    reveal_strlit("\n");
    reveal_strlit("\nstatic int fail(");
    reveal_strlit("    const int in_len = ");
    reveal_strlit(";\n");
    reveal_strlit("    const int out_len = ");
    reveal_strlit("    const int param_len = ");
    reveal_strlit("    const int tape_f32 = ");
    reveal_strlit("    const int tape_u8 = ");
    reveal_strlit("    const int max_activ = ");
    reveal_strlit("    const float h_x[] = { ");
    reveal_strlit(" };\n");
    reveal_strlit("    const float h_p[] = { ");
    reveal_strlit("    const float h_ey[] = { ");
    reveal_strlit("    const float h_edx[] = { ");
    reveal_strlit("    const float h_edp[] = { ");
    reveal_strlit("    cudaMemcpy(dparams, h_p, param_bytes, cudaMemcpyHostToDevice);\n");
    reveal_strlit("\n    std::vector<float> y(out_len), dx(in_len), dp(param_len);\n    cudaMemcpy(y.data(), ");
    reveal_strlit(", out_bytes, cudaMemcpyDeviceToHost);\n");
    reveal_strlit("\n    cudaMemcpy(dx.data(), ddy, in_bytes, cudaMemcpyDeviceToHost);\n");
    reveal_strlit("    printf(\"OK ");
    reveal_strlit("\\n\");\n");
    assert(SOURCE@.subrange(63, 80) =~= "#include <cmath>\n"@);
    assert(SOURCE@.subrange(82, 83) =~= "\n"@);
    assert(SOURCE@.subrange(85, 102) =~= "\nstatic int fail("@);
    assert(SOURCE@.subrange(172, 195) =~= "    const int in_len = "@);
    assert(SOURCE@.subrange(197, 199) =~= ";\n"@);
    assert(SOURCE@.subrange(199, 223) =~= "    const int out_len = "@);
    assert(SOURCE@.subrange(225, 227) =~= ";\n"@);
    assert(SOURCE@.subrange(227, 253) =~= "    const int param_len = "@);
    assert(SOURCE@.subrange(255, 257) =~= ";\n"@);
    assert(SOURCE@.subrange(257, 282) =~= "    const int tape_f32 = "@);
    assert(SOURCE@.subrange(284, 286) =~= ";\n"@);
    assert(SOURCE@.subrange(286, 310) =~= "    const int tape_u8 = "@);
    assert(SOURCE@.subrange(312, 314) =~= ";\n"@);
    assert(SOURCE@.subrange(314, 340) =~= "    const int max_activ = "@);
    assert(SOURCE@.subrange(342, 344) =~= ";\n"@);
    assert(SOURCE@.subrange(675, 701) =~= "    const float h_x[] = { "@);
    assert(SOURCE@.subrange(703, 707) =~= " };\n"@);
    assert(SOURCE@.subrange(707, 733) =~= "    const float h_p[] = { "@);
    assert(SOURCE@.subrange(735, 739) =~= " };\n"@);
    assert(SOURCE@.subrange(739, 766) =~= "    const float h_ey[] = { "@);
    assert(SOURCE@.subrange(768, 772) =~= " };\n"@);
    assert(SOURCE@.subrange(772, 800) =~= "    const float h_edx[] = { "@);
    assert(SOURCE@.subrange(802, 806) =~= " };\n"@);
    assert(SOURCE@.subrange(806, 834) =~= "    const float h_edp[] = { "@);
    assert(SOURCE@.subrange(836, 840) =~= " };\n"@);
    assert(SOURCE@.subrange(1500, 1567) =~= "    cudaMemcpy(dparams, h_p, param_bytes, cudaMemcpyHostToDevice);\n"@);
    assert(SOURCE@.subrange(1569, 1657) =~= "\n    std::vector<float> y(out_len), dx(in_len), dp(param_len);\n    cudaMemcpy(y.data(), "@);
    assert(SOURCE@.subrange(1659, 1697) =~= ", out_bytes, cudaMemcpyDeviceToHost);\n"@);
    assert(SOURCE@.subrange(1699, 1766) =~= "\n    cudaMemcpy(dx.data(), ddy, in_bytes, cudaMemcpyDeviceToHost);\n"@);
    assert(SOURCE@.subrange(2477, 2492) =~= "    printf(\"OK "@);
    assert(SOURCE@.subrange(2494, 2500) =~= "\\n\");\n"@);
}

/// The text holds the part.
pub open spec fn holds_part(t: Seq<char>, part: Seq<char>) -> bool {
    exists|a: Seq<char>, b: Seq<char>| t == #[trigger] ((a + part) + b)
}

proof fn lemma_source_part_1(args: Seq<Seq<char>>)
    requires
        args.len() == 17,
    ensures
        holds_part(text::filled(SOURCE@, args), "#include <cmath>\n"@ + args[0] + "\n"@ + args[1] + "\nstatic int fail("@),
{
    let t = SOURCE@;
    lemma_source_parts();
    let before = text::lemma_reached(t, args, 63);
    let d0 = Seq::<char>::empty();
    assert(text::filled_from(t, args, 63) =~= d0 + text::filled_from(t, args, 63));
    reveal_strlit("#include <cmath>\n");
    reveal_strlit("\n");
    reveal_strlit("\nstatic int fail(");
    text::lemma_copied(t, args, 63, d0, 63, "#include <cmath>\n"@);
    assert(d0 + "#include <cmath>\n"@ =~= "#include <cmath>\n"@);
    let d1 = "#include <cmath>\n"@;
    text::lemma_placed(t, args, 63, d1, 80, 0);
    let d2 = d1 + args[0];
    text::lemma_copied(t, args, 63, d2, 82, "\n"@);
    let d3 = d2 + "\n"@;
    text::lemma_placed(t, args, 63, d3, 83, 1);
    let d4 = d3 + args[1];
    text::lemma_copied(t, args, 63, d4, 85, "\nstatic int fail("@);
    let d5 = d4 + "\nstatic int fail("@;
    let after = text::filled_from(t, args, 102);
    assert(text::filled(t, args) =~= (before + d5) + after);
}

proof fn lemma_source_part_2(args: Seq<Seq<char>>)
    requires
        args.len() == 17,
    ensures
        holds_part(text::filled(SOURCE@, args), "    const int in_len = "@ + args[2] + ";\n"@),
{
    let t = SOURCE@;
    lemma_source_parts();
    let before = text::lemma_reached(t, args, 172);
    let d0 = Seq::<char>::empty();
    assert(text::filled_from(t, args, 172) =~= d0 + text::filled_from(t, args, 172));
    reveal_strlit("    const int in_len = ");
    reveal_strlit(";\n");
    text::lemma_copied(t, args, 172, d0, 172, "    const int in_len = "@);
    assert(d0 + "    const int in_len = "@ =~= "    const int in_len = "@);
    let d1 = "    const int in_len = "@;
    text::lemma_placed(t, args, 172, d1, 195, 2);
    let d2 = d1 + args[2];
    text::lemma_copied(t, args, 172, d2, 197, ";\n"@);
    let d3 = d2 + ";\n"@;
    let after = text::filled_from(t, args, 199);
    assert(text::filled(t, args) =~= (before + d3) + after);
}

proof fn lemma_source_part_3(args: Seq<Seq<char>>)
    requires
        args.len() == 17,
    ensures
        holds_part(text::filled(SOURCE@, args), "    const int out_len = "@ + args[3] + ";\n"@),
{
    let t = SOURCE@;
    lemma_source_parts();
    let before = text::lemma_reached(t, args, 199);
    let d0 = Seq::<char>::empty();
    assert(text::filled_from(t, args, 199) =~= d0 + text::filled_from(t, args, 199));
    reveal_strlit("    const int out_len = ");
    reveal_strlit(";\n");
    text::lemma_copied(t, args, 199, d0, 199, "    const int out_len = "@);
    assert(d0 + "    const int out_len = "@ =~= "    const int out_len = "@);
    let d1 = "    const int out_len = "@;
    text::lemma_placed(t, args, 199, d1, 223, 3);
    let d2 = d1 + args[3];
    text::lemma_copied(t, args, 199, d2, 225, ";\n"@);
    let d3 = d2 + ";\n"@;
    let after = text::filled_from(t, args, 227);
    assert(text::filled(t, args) =~= (before + d3) + after);
}

proof fn lemma_source_part_4(args: Seq<Seq<char>>)
    requires
        args.len() == 17,
    ensures
        holds_part(text::filled(SOURCE@, args), "    const int param_len = "@ + args[4] + ";\n"@),
{
    let t = SOURCE@;
    lemma_source_parts();
    let before = text::lemma_reached(t, args, 227);
    let d0 = Seq::<char>::empty();
    assert(text::filled_from(t, args, 227) =~= d0 + text::filled_from(t, args, 227));
    reveal_strlit("    const int param_len = ");
    reveal_strlit(";\n");
    text::lemma_copied(t, args, 227, d0, 227, "    const int param_len = "@);
    assert(d0 + "    const int param_len = "@ =~= "    const int param_len = "@);
    let d1 = "    const int param_len = "@;
    text::lemma_placed(t, args, 227, d1, 253, 4);
    let d2 = d1 + args[4];
    text::lemma_copied(t, args, 227, d2, 255, ";\n"@);
    let d3 = d2 + ";\n"@;
    let after = text::filled_from(t, args, 257);
    assert(text::filled(t, args) =~= (before + d3) + after);
}

proof fn lemma_source_part_5(args: Seq<Seq<char>>)
    requires
        args.len() == 17,
    ensures
        holds_part(text::filled(SOURCE@, args), "    const int tape_f32 = "@ + args[5] + ";\n"@),
{
    let t = SOURCE@;
    lemma_source_parts();
    let before = text::lemma_reached(t, args, 257);
    let d0 = Seq::<char>::empty();
    assert(text::filled_from(t, args, 257) =~= d0 + text::filled_from(t, args, 257));
    reveal_strlit("    const int tape_f32 = ");
    reveal_strlit(";\n");
    text::lemma_copied(t, args, 257, d0, 257, "    const int tape_f32 = "@);
    assert(d0 + "    const int tape_f32 = "@ =~= "    const int tape_f32 = "@);
    let d1 = "    const int tape_f32 = "@;
    text::lemma_placed(t, args, 257, d1, 282, 5);
    let d2 = d1 + args[5];
    text::lemma_copied(t, args, 257, d2, 284, ";\n"@);
    let d3 = d2 + ";\n"@;
    let after = text::filled_from(t, args, 286);
    assert(text::filled(t, args) =~= (before + d3) + after);
}

proof fn lemma_source_part_6(args: Seq<Seq<char>>)
    requires
        args.len() == 17,
    ensures
        holds_part(text::filled(SOURCE@, args), "    const int tape_u8 = "@ + args[6] + ";\n"@),
{
    let t = SOURCE@;
    lemma_source_parts();
    let before = text::lemma_reached(t, args, 286);
    let d0 = Seq::<char>::empty();
    assert(text::filled_from(t, args, 286) =~= d0 + text::filled_from(t, args, 286));
    reveal_strlit("    const int tape_u8 = ");
    reveal_strlit(";\n");
    text::lemma_copied(t, args, 286, d0, 286, "    const int tape_u8 = "@);
    assert(d0 + "    const int tape_u8 = "@ =~= "    const int tape_u8 = "@);
    let d1 = "    const int tape_u8 = "@;
    text::lemma_placed(t, args, 286, d1, 310, 6);
    let d2 = d1 + args[6];
    text::lemma_copied(t, args, 286, d2, 312, ";\n"@);
    let d3 = d2 + ";\n"@;
    let after = text::filled_from(t, args, 314);
    assert(text::filled(t, args) =~= (before + d3) + after);
}

proof fn lemma_source_part_7(args: Seq<Seq<char>>)
    requires
        args.len() == 17,
    ensures
        holds_part(text::filled(SOURCE@, args), "    const int max_activ = "@ + args[7] + ";\n"@),
{
    let t = SOURCE@;
    lemma_source_parts();
    let before = text::lemma_reached(t, args, 314);
    let d0 = Seq::<char>::empty();
    assert(text::filled_from(t, args, 314) =~= d0 + text::filled_from(t, args, 314));
    reveal_strlit("    const int max_activ = ");
    reveal_strlit(";\n");
    text::lemma_copied(t, args, 314, d0, 314, "    const int max_activ = "@);
    assert(d0 + "    const int max_activ = "@ =~= "    const int max_activ = "@);
    let d1 = "    const int max_activ = "@;
    text::lemma_placed(t, args, 314, d1, 340, 7);
    let d2 = d1 + args[7];
    text::lemma_copied(t, args, 314, d2, 342, ";\n"@);
    let d3 = d2 + ";\n"@;
    let after = text::filled_from(t, args, 344);
    assert(text::filled(t, args) =~= (before + d3) + after);
}

proof fn lemma_source_part_8(args: Seq<Seq<char>>)
    requires
        args.len() == 17,
    ensures
        holds_part(text::filled(SOURCE@, args), "    const float h_x[] = { "@ + args[8] + " };\n"@),
{
    let t = SOURCE@;
    lemma_source_parts();
    let before = text::lemma_reached(t, args, 675);
    let d0 = Seq::<char>::empty();
    assert(text::filled_from(t, args, 675) =~= d0 + text::filled_from(t, args, 675));
    reveal_strlit("    const float h_x[] = { ");
    reveal_strlit(" };\n");
    text::lemma_copied(t, args, 675, d0, 675, "    const float h_x[] = { "@);
    assert(d0 + "    const float h_x[] = { "@ =~= "    const float h_x[] = { "@);
    let d1 = "    const float h_x[] = { "@;
    text::lemma_placed(t, args, 675, d1, 701, 8);
    let d2 = d1 + args[8];
    text::lemma_copied(t, args, 675, d2, 703, " };\n"@);
    let d3 = d2 + " };\n"@;
    let after = text::filled_from(t, args, 707);
    assert(text::filled(t, args) =~= (before + d3) + after);
}

proof fn lemma_source_part_9(args: Seq<Seq<char>>)
    requires
        args.len() == 17,
    ensures
        holds_part(text::filled(SOURCE@, args), "    const float h_p[] = { "@ + args[9] + " };\n"@),
{
    let t = SOURCE@;
    lemma_source_parts();
    let before = text::lemma_reached(t, args, 707);
    let d0 = Seq::<char>::empty();
    assert(text::filled_from(t, args, 707) =~= d0 + text::filled_from(t, args, 707));
    reveal_strlit("    const float h_p[] = { ");
    reveal_strlit(" };\n");
    text::lemma_copied(t, args, 707, d0, 707, "    const float h_p[] = { "@);
    assert(d0 + "    const float h_p[] = { "@ =~= "    const float h_p[] = { "@);
    let d1 = "    const float h_p[] = { "@;
    text::lemma_placed(t, args, 707, d1, 733, 9);
    let d2 = d1 + args[9];
    text::lemma_copied(t, args, 707, d2, 735, " };\n"@);
    let d3 = d2 + " };\n"@;
    let after = text::filled_from(t, args, 739);
    assert(text::filled(t, args) =~= (before + d3) + after);
}

proof fn lemma_source_part_10(args: Seq<Seq<char>>)
    requires
        args.len() == 17,
    ensures
        holds_part(text::filled(SOURCE@, args), "    const float h_ey[] = { "@ + args[10] + " };\n"@),
{
    let t = SOURCE@;
    lemma_source_parts();
    let before = text::lemma_reached(t, args, 739);
    let d0 = Seq::<char>::empty();
    assert(text::filled_from(t, args, 739) =~= d0 + text::filled_from(t, args, 739));
    reveal_strlit("    const float h_ey[] = { ");
    reveal_strlit(" };\n");
    text::lemma_copied(t, args, 739, d0, 739, "    const float h_ey[] = { "@);
    assert(d0 + "    const float h_ey[] = { "@ =~= "    const float h_ey[] = { "@);
    let d1 = "    const float h_ey[] = { "@;
    text::lemma_placed(t, args, 739, d1, 766, 10);
    let d2 = d1 + args[10];
    text::lemma_copied(t, args, 739, d2, 768, " };\n"@);
    let d3 = d2 + " };\n"@;
    let after = text::filled_from(t, args, 772);
    assert(text::filled(t, args) =~= (before + d3) + after);
}

proof fn lemma_source_part_11(args: Seq<Seq<char>>)
    requires
        args.len() == 17,
    ensures
        holds_part(text::filled(SOURCE@, args), "    const float h_edx[] = { "@ + args[11] + " };\n"@),
{
    let t = SOURCE@;
    lemma_source_parts();
    let before = text::lemma_reached(t, args, 772);
    let d0 = Seq::<char>::empty();
    assert(text::filled_from(t, args, 772) =~= d0 + text::filled_from(t, args, 772));
    reveal_strlit("    const float h_edx[] = { ");
    reveal_strlit(" };\n");
    text::lemma_copied(t, args, 772, d0, 772, "    const float h_edx[] = { "@);
    assert(d0 + "    const float h_edx[] = { "@ =~= "    const float h_edx[] = { "@);
    let d1 = "    const float h_edx[] = { "@;
    text::lemma_placed(t, args, 772, d1, 800, 11);
    let d2 = d1 + args[11];
    text::lemma_copied(t, args, 772, d2, 802, " };\n"@);
    let d3 = d2 + " };\n"@;
    let after = text::filled_from(t, args, 806);
    assert(text::filled(t, args) =~= (before + d3) + after);
}

proof fn lemma_source_part_12(args: Seq<Seq<char>>)
    requires
        args.len() == 17,
    ensures
        holds_part(text::filled(SOURCE@, args), "    const float h_edp[] = { "@ + args[12] + " };\n"@),
{
    let t = SOURCE@;
    lemma_source_parts();
    let before = text::lemma_reached(t, args, 806);
    let d0 = Seq::<char>::empty();
    assert(text::filled_from(t, args, 806) =~= d0 + text::filled_from(t, args, 806));
    reveal_strlit("    const float h_edp[] = { ");
    reveal_strlit(" };\n");
    text::lemma_copied(t, args, 806, d0, 806, "    const float h_edp[] = { "@);
    assert(d0 + "    const float h_edp[] = { "@ =~= "    const float h_edp[] = { "@);
    let d1 = "    const float h_edp[] = { "@;
    text::lemma_placed(t, args, 806, d1, 834, 12);
    let d2 = d1 + args[12];
    text::lemma_copied(t, args, 806, d2, 836, " };\n"@);
    let d3 = d2 + " };\n"@;
    let after = text::filled_from(t, args, 840);
    assert(text::filled(t, args) =~= (before + d3) + after);
}

proof fn lemma_source_part_13(args: Seq<Seq<char>>)
    requires
        args.len() == 17,
    ensures
        holds_part(text::filled(SOURCE@, args), "    cudaMemcpy(dparams, h_p, param_bytes, cudaMemcpyHostToDevice);\n"@ + args[13] + "\n    std::vector<float> y(out_len), dx(in_len), dp(param_len);\n    cudaMemcpy(y.data(), "@ + args[14] + ", out_bytes, cudaMemcpyDeviceToHost);\n"@ + args[15] + "\n    cudaMemcpy(dx.data(), ddy, in_bytes, cudaMemcpyDeviceToHost);\n"@),
{
    let t = SOURCE@;
    lemma_source_parts();
    let before = text::lemma_reached(t, args, 1500);
    let d0 = Seq::<char>::empty();
    assert(text::filled_from(t, args, 1500) =~= d0 + text::filled_from(t, args, 1500));
    reveal_strlit("    cudaMemcpy(dparams, h_p, param_bytes, cudaMemcpyHostToDevice);\n");
    reveal_strlit("\n    std::vector<float> y(out_len), dx(in_len), dp(param_len);\n    cudaMemcpy(y.data(), ");
    reveal_strlit(", out_bytes, cudaMemcpyDeviceToHost);\n");
    reveal_strlit("\n    cudaMemcpy(dx.data(), ddy, in_bytes, cudaMemcpyDeviceToHost);\n");
    text::lemma_copied(t, args, 1500, d0, 1500, "    cudaMemcpy(dparams, h_p, param_bytes, cudaMemcpyHostToDevice);\n"@);
    assert(d0 + "    cudaMemcpy(dparams, h_p, param_bytes, cudaMemcpyHostToDevice);\n"@ =~= "    cudaMemcpy(dparams, h_p, param_bytes, cudaMemcpyHostToDevice);\n"@);
    let d1 = "    cudaMemcpy(dparams, h_p, param_bytes, cudaMemcpyHostToDevice);\n"@;
    text::lemma_placed(t, args, 1500, d1, 1567, 13);
    let d2 = d1 + args[13];
    text::lemma_copied(t, args, 1500, d2, 1569, "\n    std::vector<float> y(out_len), dx(in_len), dp(param_len);\n    cudaMemcpy(y.data(), "@);
    let d3 = d2 + "\n    std::vector<float> y(out_len), dx(in_len), dp(param_len);\n    cudaMemcpy(y.data(), "@;
    text::lemma_placed(t, args, 1500, d3, 1657, 14);
    let d4 = d3 + args[14];
    text::lemma_copied(t, args, 1500, d4, 1659, ", out_bytes, cudaMemcpyDeviceToHost);\n"@);
    let d5 = d4 + ", out_bytes, cudaMemcpyDeviceToHost);\n"@;
    text::lemma_placed(t, args, 1500, d5, 1697, 15);
    let d6 = d5 + args[15];
    text::lemma_copied(t, args, 1500, d6, 1699, "\n    cudaMemcpy(dx.data(), ddy, in_bytes, cudaMemcpyDeviceToHost);\n"@);
    let d7 = d6 + "\n    cudaMemcpy(dx.data(), ddy, in_bytes, cudaMemcpyDeviceToHost);\n"@;
    let after = text::filled_from(t, args, 1766);
    assert(text::filled(t, args) =~= (before + d7) + after);
}

proof fn lemma_source_part_14(args: Seq<Seq<char>>)
    requires
        args.len() == 17,
    ensures
        holds_part(text::filled(SOURCE@, args), "    printf(\"OK "@ + args[16] + "\\n\");\n"@),
{
    let t = SOURCE@;
    lemma_source_parts();
    let before = text::lemma_reached(t, args, 2477);
    let d0 = Seq::<char>::empty();
    assert(text::filled_from(t, args, 2477) =~= d0 + text::filled_from(t, args, 2477));
    reveal_strlit("    printf(\"OK ");
    reveal_strlit("\\n\");\n");
    text::lemma_copied(t, args, 2477, d0, 2477, "    printf(\"OK "@);
    assert(d0 + "    printf(\"OK "@ =~= "    printf(\"OK "@);
    let d1 = "    printf(\"OK "@;
    text::lemma_placed(t, args, 2477, d1, 2492, 16);
    let d2 = d1 + args[16];
    text::lemma_copied(t, args, 2477, d2, 2494, "\\n\");\n"@);
    let d3 = d2 + "\\n\");\n"@;
    let after = text::filled_from(t, args, 2500);
    assert(text::filled(t, args) =~= (before + d3) + after);
}

/// The program puts each of its quantities in its place: the kernels of its
/// stages, its lengths, the inputs, the parameters and the expected outputs and
/// adjoints, the launches of the forward pass before the output is read from
/// the buffer it ends in, and those of the backward pass after that.
pub proof fn law_source(
    p: Prog,
    x: Seq<Seq<char>>,
    params: Seq<Seq<char>>,
    expect_y: Seq<Seq<char>>,
    expect_dx: Seq<Seq<char>>,
    expect_dp: Seq<Seq<char>>,
)
    ensures
        ({
            let n = p.stages.len() as int;
            let text = source(p, x, params, expect_y, expect_dx, expect_dp);
            &&& holds_part(text, "#include <cmath>\n"@ + GRID_HELPER@ + "\n"@ + all_kernels(p.stages, n) + "\nstatic int fail("@)
            &&& holds_part(text, "    const int in_len = "@ + text::dec(p.input_len) + ";\n"@)
            &&& holds_part(text, "    const int out_len = "@ + text::dec(p.output_len) + ";\n"@)
            &&& holds_part(text, "    const int param_len = "@ + text::dec(p.param_len) + ";\n"@)
            &&& holds_part(text, "    const int tape_f32 = "@ + text::dec(p.tape_f32) + ";\n"@)
            &&& holds_part(text, "    const int tape_u8 = "@ + text::dec(p.tape_u8) + ";\n"@)
            &&& holds_part(text, "    const int max_activ = "@ + text::dec(widest(p, n)) + ";\n"@)
            &&& holds_part(text, "    const float h_x[] = { "@ + text::joined(x, ", "@) + " };\n"@)
            &&& holds_part(text, "    const float h_p[] = { "@ + array_or_zero(params) + " };\n"@)
            &&& holds_part(text, "    const float h_ey[] = { "@ + text::joined(expect_y, ", "@) + " };\n"@)
            &&& holds_part(text, "    const float h_edx[] = { "@ + text::joined(expect_dx, ", "@) + " };\n"@)
            &&& holds_part(text, "    const float h_edp[] = { "@ + array_or_zero(expect_dp) + " };\n"@)
            &&& holds_part(text, "    cudaMemcpy(dparams, h_p, param_bytes, cudaMemcpyHostToDevice);\n"@ + all_forward(p.stages, n) + "\n    std::vector<float> y(out_len), dx(in_len), dp(param_len);\n    cudaMemcpy(y.data(), "@ + buffer(in_second(p.stages, n)) + ", out_bytes, cudaMemcpyDeviceToHost);\n"@ + all_backward(p.stages, n) + "\n    cudaMemcpy(dx.data(), ddy, in_bytes, cudaMemcpyDeviceToHost);\n"@)
            &&& holds_part(text, "    printf(\"OK "@ + p.name + "\\n\");\n"@)
        }),
{
    let n = p.stages.len() as int;
    let args = seq![
        GRID_HELPER@,
        all_kernels(p.stages, n),
        text::dec(p.input_len),
        text::dec(p.output_len),
        text::dec(p.param_len),
        text::dec(p.tape_f32),
        text::dec(p.tape_u8),
        text::dec(widest(p, n)),
        text::joined(x, ", "@),
        array_or_zero(params),
        text::joined(expect_y, ", "@),
        text::joined(expect_dx, ", "@),
        array_or_zero(expect_dp),
        all_forward(p.stages, n),
        buffer(in_second(p.stages, n)),
        all_backward(p.stages, n),
        p.name,
    ];
    lemma_source_part_1(args);
    lemma_source_part_2(args);
    lemma_source_part_3(args);
    lemma_source_part_4(args);
    lemma_source_part_5(args);
    lemma_source_part_6(args);
    lemma_source_part_7(args);
    lemma_source_part_8(args);
    lemma_source_part_9(args);
    lemma_source_part_10(args);
    lemma_source_part_11(args);
    lemma_source_part_12(args);
    lemma_source_part_13(args);
    lemma_source_part_14(args);
}

fn buffer_name(second: bool) -> (r: String)
    ensures
        r@ == buffer(second),
{
    if second {
        String::from_str("buf1")
    } else {
        String::from_str("buf0")
    }
}

fn flag_text(b: bool) -> (r: String)
    ensures
        r@ == flag(b),
{
    text::decimal(
        if b {
            1
        } else {
            0
        },
    )
}

fn push_kernels(out: &mut String, s: &Stage, i: usize)
    ensures
        final(out)@ == old(out)@ + stage_kernels(*s, i as int),
{
    let mut args: Vec<String> = Vec::new();
    args.push(text::decimal(i as u64));
    assert(text::texts(args@) =~= seq![text::dec(i as int)]);
    match s {
        Stage::Gemm { .. } => text::push_filled(out, GEMM_KERNELS, args.as_slice()),
        Stage::Attention { .. } => text::push_filled(out, ATTENTION_KERNELS, args.as_slice()),
        Stage::Add { .. } => text::push_filled(out, ADD_KERNEL, args.as_slice()),
    }
}

fn push_forward(out: &mut String, s: &Stage, i: usize, second: bool)
    requires
        stage_fits(*s),
    ensures
        final(out)@ == old(out)@ + stage_forward(*s, i as int, second),
{
    let mut args: Vec<String> = Vec::new();
    match *s {
        Stage::Gemm { batch, din, dout, relu, save_at, mask_at, param_at } => {
            proof {
                assert(0 <= batch * din && 0 <= batch * dout && 0 <= din * dout) by (nonlinear_arith)
                    requires batch >= 0, din >= 0, dout >= 0;
            }
            args.push(text::decimal(save_at as u64));
            args.push(buffer_name(second));
            args.push(text::decimal((batch * din) as u64));
            args.push(text::decimal(i as u64));
            args.push(text::decimal((batch * dout) as u64));
            args.push(text::decimal(param_at as u64));
            args.push(text::decimal((param_at + din * dout) as u64));
            args.push(buffer_name(!second));
            args.push(text::decimal(mask_at as u64));
            args.push(text::decimal(batch as u64));
            args.push(text::decimal(din as u64));
            args.push(text::decimal(dout as u64));
            args.push(flag_text(relu));
            assert(text::texts(args@) =~= seq![
                text::dec(save_at as int),
                buffer(second),
                text::dec(batch * din),
                text::dec(i as int),
                text::dec(batch * dout),
                text::dec(param_at as int),
                text::dec(param_at + din * dout),
                buffer(!second),
                text::dec(mask_at as int),
                text::dec(batch as int),
                text::dec(din as int),
                text::dec(dout as int),
                flag(relu),
            ]);
            text::push_filled(out, GEMM_FORWARD, args.as_slice());
        },
        Stage::Attention { batch, tokens, dim, x_at, probs_at } => {
            proof {
                assert(0 <= batch * tokens) by (nonlinear_arith) requires batch >= 0, tokens >= 0;
                assert(0 <= batch * tokens * dim) by (nonlinear_arith) requires 0 <= batch * tokens, dim >= 0;
            }
            args.push(text::decimal(x_at as u64));
            args.push(buffer_name(second));
            args.push(text::decimal((batch * tokens * dim) as u64));
            args.push(text::decimal(i as u64));
            args.push(text::decimal((batch * tokens) as u64));
            args.push(text::decimal(probs_at as u64));
            args.push(buffer_name(!second));
            args.push(text::decimal(batch as u64));
            args.push(text::decimal(tokens as u64));
            args.push(text::decimal(dim as u64));
            assert(text::texts(args@) =~= seq![
                text::dec(x_at as int),
                buffer(second),
                text::dec(batch * tokens * dim),
                text::dec(i as int),
                text::dec(batch * tokens),
                text::dec(probs_at as int),
                buffer(!second),
                text::dec(batch as int),
                text::dec(tokens as int),
                text::dec(dim as int),
            ]);
            text::push_filled(out, ATTENTION_FORWARD, args.as_slice());
        },
        Stage::Add { from, len } => {
            args.push(text::decimal(i as u64));
            args.push(text::decimal(len as u64));
            args.push(buffer_name(second));
            args.push(text::decimal(from as u64));
            assert(text::texts(args@) =~= seq![
                text::dec(i as int),
                text::dec(len as int),
                buffer(second),
                text::dec(from as int),
            ]);
            text::push_filled(out, ADD_FORWARD, args.as_slice());
        },
    }
}

fn push_backward(out: &mut String, s: &Stage, i: usize)
    requires
        stage_fits(*s),
    ensures
        final(out)@ == old(out)@ + stage_backward(*s, i as int),
{
    let mut args: Vec<String> = Vec::new();
    match *s {
        Stage::Gemm { batch, din, dout, relu, save_at, mask_at, param_at } => {
            proof {
                assert(0 <= batch * din && 0 <= batch * dout && 0 <= din * dout) by (nonlinear_arith)
                    requires batch >= 0, din >= 0, dout >= 0;
            }
            args.push(flag_text(relu));
            args.push(text::decimal(i as u64));
            args.push(text::decimal((batch * dout) as u64));
            args.push(text::decimal(mask_at as u64));
            args.push(text::decimal((batch * din) as u64));
            args.push(text::decimal(param_at as u64));
            args.push(text::decimal(batch as u64));
            args.push(text::decimal(din as u64));
            args.push(text::decimal(dout as u64));
            args.push(text::decimal((din * dout) as u64));
            args.push(text::decimal(save_at as u64));
            args.push(text::decimal((param_at + din * dout) as u64));
            assert(text::texts(args@) =~= seq![
                flag(relu),
                text::dec(i as int),
                text::dec(batch * dout),
                text::dec(mask_at as int),
                text::dec(batch * din),
                text::dec(param_at as int),
                text::dec(batch as int),
                text::dec(din as int),
                text::dec(dout as int),
                text::dec(din * dout),
                text::dec(save_at as int),
                text::dec(param_at + din * dout),
            ]);
            text::push_filled(out, GEMM_BACKWARD, args.as_slice());
        },
        Stage::Attention { batch, tokens, dim, x_at, probs_at } => {
            proof {
                assert(0 <= batch * tokens) by (nonlinear_arith) requires batch >= 0, tokens >= 0;
                assert(0 <= batch * tokens * dim) by (nonlinear_arith) requires 0 <= batch * tokens, dim >= 0;
            }
            args.push(text::decimal(i as u64));
            args.push(text::decimal((batch * tokens * dim) as u64));
            args.push(text::decimal(x_at as u64));
            args.push(text::decimal(probs_at as u64));
            args.push(text::decimal(batch as u64));
            args.push(text::decimal(tokens as u64));
            args.push(text::decimal(dim as u64));
            assert(text::texts(args@) =~= seq![
                text::dec(i as int),
                text::dec(batch * tokens * dim),
                text::dec(x_at as int),
                text::dec(probs_at as int),
                text::dec(batch as int),
                text::dec(tokens as int),
                text::dec(dim as int),
            ]);
            text::push_filled(out, ATTENTION_BACKWARD, args.as_slice());
        },
        Stage::Add { from, len } => {
            args.push(text::decimal(i as u64));
            args.push(text::decimal(len as u64));
            args.push(text::decimal(from as u64));
            assert(text::texts(args@) =~= seq![text::dec(i as int), text::dec(len as int), text::dec(from as int)]);
            text::push_filled(out, ADD_BACKWARD, args.as_slice());
        },
    }
}

fn larger_of(a: usize, b: usize) -> (r: usize)
    ensures
        r == larger(a as int, b as int),
{
    if a < b {
        b
    } else {
        a
    }
}

fn width_of(s: &Stage) -> (r: usize)
    requires
        stage_fits(*s),
    ensures
        r == stage_width(*s),
{
    match *s {
        Stage::Gemm { batch, din, dout, .. } => {
            proof {
                assert(0 <= batch * din && 0 <= batch * dout) by (nonlinear_arith)
                    requires batch >= 0, din >= 0, dout >= 0;
            }
            batch * larger_of(din, dout)
        },
        Stage::Attention { batch, tokens, dim, .. } => {
            proof {
                assert(0 <= batch * tokens) by (nonlinear_arith) requires batch >= 0, tokens >= 0;
                assert(0 <= batch * tokens * dim) by (nonlinear_arith) requires 0 <= batch * tokens, dim >= 0;
            }
            batch * tokens * dim
        },
        Stage::Add { len, .. } => len,
    }
}

fn array_text(xs: &[String]) -> (r: String)
    ensures
        r@ == array_or_zero(text::texts(xs@)),
{
    if xs.len() == 0 {
        String::from_str("0.f")
    } else {
        text::join(xs, ", ")
    }
}

/// CUDA source whose `main` runs this program and compares against the
/// expected values. The lists hold one floating-point literal for each value.
pub fn emit_cuda(
    prog: &Program,
    x: &[String],
    params: &[String],
    expect_y: &[String],
    expect_dx: &[String],
    expect_dp: &[String],
) -> (r: String)
    requires
        emit_fits(prog@),
    ensures
        r@ == source(
            prog@,
            text::texts(x@),
            text::texts(params@),
            text::texts(expect_y@),
            text::texts(expect_dx@),
            text::texts(expect_dp@),
        ),
{
    let ghost stages = prog.stages@;
    let n: usize = prog.stages.len();
    let mut kernels = String::new();
    let mut fwd = String::from_str(FORWARD_START);
    let mut second = false;
    let mut widest_seen: usize = larger_of(prog.input_len, prog.output_len);
    let ghost ks = |i: int| stage_kernels(stages[i], i);
    let ghost fs = |i: int| stage_forward(stages[i], i, in_second(stages, i));
    let mut i: usize = 0;
    proof {
        assert(kernels@ =~= crate::theory::listing::cat(0, ks));
        assert(fwd@ =~= FORWARD_START@ + crate::theory::listing::cat(0, fs));
    }
    while i < n
        invariant
            i <= n,
            n == stages.len(),
            stages == prog.stages@,
            emit_fits(prog@),
            ks == (|i: int| stage_kernels(stages[i], i)),
            fs == (|i: int| stage_forward(stages[i], i, in_second(stages, i))),
            kernels@ == crate::theory::listing::cat(i as int, ks),
            fwd@ == FORWARD_START@ + crate::theory::listing::cat(i as int, fs),
            second == in_second(stages, i as int),
            widest_seen == widest(prog@, i as int),
        decreases n - i,
    {
        let stage: &Stage = &prog.stages[i];
        assert(stage_fits(prog@.stages[i as int]));
        push_kernels(&mut kernels, stage, i);
        push_forward(&mut fwd, stage, i, second);
        proof {
            assert(FORWARD_START@ + crate::theory::listing::cat(i as int, fs) + fs(i as int) =~= FORWARD_START@
                + crate::theory::listing::cat(i + 1, fs));
        }
        widest_seen = larger_of(widest_seen, width_of(stage));
        match stage {
            Stage::Add { .. } => {},
            _ => {
                second = !second;
            },
        }
        i = i + 1;
    }
    let mut bwd = String::from_str(BACKWARD_START);
    let ghost bs = |j: int| stage_backward(stages[stages.len() - 1 - j], stages.len() - 1 - j);
    let mut j: usize = 0;
    assert(bwd@ =~= BACKWARD_START@ + crate::theory::listing::cat(0, bs));
    while j < n
        invariant
            j <= n,
            n == stages.len(),
            stages == prog.stages@,
            emit_fits(prog@),
            bs == (|j: int| stage_backward(stages[stages.len() - 1 - j], stages.len() - 1 - j)),
            bwd@ == BACKWARD_START@ + crate::theory::listing::cat(j as int, bs),
        decreases n - j,
    {
        let at: usize = n - 1 - j;
        assert(stage_fits(prog@.stages[at as int]));
        push_backward(&mut bwd, &prog.stages[at], at);
        proof {
            assert(BACKWARD_START@ + crate::theory::listing::cat(j as int, bs) + bs(j as int) =~= BACKWARD_START@
                + crate::theory::listing::cat(j + 1, bs));
        }
        j = j + 1;
    }
    let mut args: Vec<String> = Vec::new();
    args.push(String::from_str(GRID_HELPER));
    args.push(kernels);
    args.push(text::decimal(prog.input_len as u64));
    args.push(text::decimal(prog.output_len as u64));
    args.push(text::decimal(prog.param_len as u64));
    args.push(text::decimal(prog.tape_f32 as u64));
    args.push(text::decimal(prog.tape_u8 as u64));
    args.push(text::decimal(widest_seen as u64));
    args.push(text::join(x, ", "));
    args.push(array_text(params));
    args.push(text::join(expect_y, ", "));
    args.push(text::join(expect_dx, ", "));
    args.push(array_text(expect_dp));
    args.push(fwd);
    args.push(buffer_name(second));
    args.push(bwd);
    args.push(prog.name.clone());
    proof {
        let p = prog@;
        assert(text::texts(args@) =~= seq![
            GRID_HELPER@,
            all_kernels(p.stages, n as int),
            text::dec(p.input_len),
            text::dec(p.output_len),
            text::dec(p.param_len),
            text::dec(p.tape_f32),
            text::dec(p.tape_u8),
            text::dec(widest(p, n as int)),
            text::joined(text::texts(x@), ", "@),
            array_or_zero(text::texts(params@)),
            text::joined(text::texts(expect_y@), ", "@),
            text::joined(text::texts(expect_dx@), ", "@),
            array_or_zero(text::texts(expect_dp@)),
            all_forward(p.stages, n as int),
            buffer(in_second(p.stages, n as int)),
            all_backward(p.stages, n as int),
            p.name,
        ]);
    }
    let mut out = String::new();
    text::push_filled(&mut out, SOURCE, args.as_slice());
    assert(out@ =~= text::filled(SOURCE@, text::texts(args@)));
    out
}

} // verus!
