//! The planner as a function on states: where parameters and tapes live, on
//! which device each window runs, and which messages it needs.
use vstd::prelude::*;
use crate::cluster::{DeviceKind, Exec, HomeKind, HopKind, Kernel, Link, Pass, Role};
use crate::kernel::Stage;
use crate::mixtral::MixtralConfig;
use crate::theory::routes::Trip;

verus! {

// ----- values -----

#[verifier::ext_equal]
pub struct Dev {
    pub name: Seq<char>,
    pub kind: DeviceKind,
    pub buffer: int,
    pub code: int,
}

/// A rectangle of a matrix, or a piece of a tape, resident on one device.
#[verifier::ext_equal]
pub struct Place {
    pub kind: HomeKind,
    pub name: Seq<char>,
    pub device: int,
    pub row_begin: int,
    pub row_end: int,
    pub col_begin: int,
    pub col_end: int,
    pub stride: int,
}

/// One hop of a routed message.
#[verifier::ext_equal]
pub struct Leg {
    pub from: int,
    pub to: int,
    pub bytes: int,
    pub kind: HopKind,
    pub offset: int,
    pub elems: int,
    pub row_begin: int,
    pub row_end: int,
    pub col_begin: int,
    pub col_end: int,
    pub stride: int,
}

/// Bytes that move from one device to another.
#[verifier::ext_equal]
pub struct Move {
    pub from: int,
    pub to: int,
    pub bytes: int,
}

/// One tiled piece of work on a device.
#[verifier::ext_equal]
pub struct Win {
    pub name: Seq<char>,
    pub device: int,
    pub phases: Seq<Seq<Kernel>>,
    pub resident: int,
    pub tape: int,
    pub param: int,
    pub pass: Pass,
    pub op: Exec,
    pub offset: int,
    pub batch_begin: int,
    pub batch_end: int,
    pub row_begin: int,
    pub row_end: int,
    pub col_begin: int,
    pub col_end: int,
    pub din: int,
    pub dout: int,
    pub home: int,
    pub layer: int,
    pub expert: int,
    pub inbound: Seq<Leg>,
    pub outbound: Seq<Leg>,
}

#[verifier::ext_equal]
pub struct Plan {
    pub homes: Seq<Place>,
    pub windows: Seq<Win>,
    pub transfers: Seq<Move>,
    pub peak: Seq<int>,
}

/// Why a model cannot be staged.
#[verifier::ext_equal]
pub enum Fault {
    NoDevice,
    ParamsExceedCluster { params: int, capacity: int },
    TapeExceedsCluster { tape: int, free: int },
    TileExceedsDevices { need: int, largest: int },
    CodeExceedsDevices { kernel: Seq<char>, need: int, largest: int },
    RouteUnavailable { from: int, to: int, bytes: int },
}

/// A matrix of parameters and the kernels that work on it.
#[verifier::ext_equal]
pub struct Mat {
    pub name: Seq<char>,
    pub role: Role,
    pub layer: int,
    pub rows: int,
    pub cols: int,
    pub batch: int,
    pub extra: int,
    pub offset: int,
    pub fwd: Seq<Kernel>,
    pub bwd: Seq<Kernel>,
    pub mask: bool,
}

/// Work that asks for a device: its window, except for what the device
/// decides.
#[verifier::ext_equal]
pub struct Job {
    pub name: Seq<char>,
    pub op: Exec,
    pub footprint: int,
    /// The device that holds the parameters of the job.
    pub home: Option<int>,
    pub param: int,
    pub tape: int,
    /// The kernels that the device must be able to load.
    pub placing: Seq<Kernel>,
    pub fwd: Seq<Kernel>,
    pub bwd: Seq<Kernel>,
    pub offset: int,
    pub batch_begin: int,
    pub batch_end: int,
    pub row_begin: int,
    pub row_end: int,
    pub col_begin: int,
    pub col_end: int,
    pub din: int,
    pub dout: int,
    pub layer: int,
    pub expert: int,
}

/// Work that is cut into tiles.
#[verifier::ext_equal]
pub enum Task {
    Linear { matrix: Mat },
    Attention { name: Seq<char>, queries: int, keys: int, dim: int, layer: int, fwd: Seq<Kernel>, bwd: Seq<Kernel> },
    Loss { tokens: int, vocab: int },
}

// ----- arithmetic -----

pub open spec fn least(a: int, b: int) -> int {
    if a <= b {
        a
    } else {
        b
    }
}

pub open spec fn most(a: int, b: int) -> int {
    if a < b {
        b
    } else {
        a
    }
}

/// The largest of the first `k` entries, and zero where there is none.
pub open spec fn largest(s: Seq<int>, k: int) -> int
    decreases k,
{
    if k <= 0 {
        0
    } else {
        most(largest(s, k - 1), s[k - 1])
    }
}

/// The elements of a rectangle, as far as a word can count them.
pub open spec fn area(row_begin: int, row_end: int, col_begin: int, col_end: int) -> int {
    least(most(row_end - row_begin, 0) * most(col_end - col_begin, 0), u64::MAX as int)
}

/// Among the first `n` numbers that qualify, the last of those with the
/// largest key.
pub open spec fn last_max(n: int, ok: spec_fn(int) -> bool, key: spec_fn(int) -> int) -> Option<int>
    decreases n,
{
    if n <= 0 {
        None
    } else {
        let b = last_max(n - 1, ok, key);
        if ok(n - 1) && (b is None || key(b->0) <= key(n - 1)) {
            Some(n - 1)
        } else {
            b
        }
    }
}

// ----- kernels -----

pub open spec fn code_len(k: Kernel) -> int {
    match k {
        Kernel::CpuRuntime => crate::cluster::CPU_RUNTIME_BYTES as int,
        _ => crate::cluster::KERNEL_CODE_BYTES as int,
    }
}

pub open spec fn kernel_name(k: Kernel) -> Seq<char> {
    match k {
        Kernel::CpuRuntime => "cpu_runtime"@,
        Kernel::GemmFwd => "fwd_gemm"@,
        Kernel::GemmDx => "bwd_dx"@,
        Kernel::GemmDw => "bwd_dw"@,
        Kernel::GemmDb => "bwd_db"@,
        Kernel::ReluBwd => "bwd_relu"@,
        Kernel::Add => "add"@,
        Kernel::AttnFwd => "fwd_attn"@,
        Kernel::AttnBwd => "bwd_attn"@,
        Kernel::RmsNorm => "k_rmsnorm"@,
        Kernel::RmsNormBwd => "k_rmsnorm_bwd"@,
        Kernel::Linear => "k_linear"@,
        Kernel::LinearDx => "k_linear_dx"@,
        Kernel::LinearDw => "k_linear_dw"@,
        Kernel::Rope => "k_rope"@,
        Kernel::GqaFwd => "k_gqa_fwd"@,
        Kernel::GqaBwd => "k_gqa_bwd"@,
        Kernel::Router => "k_router"@,
        Kernel::RouterBwd => "k_router_bwd"@,
        Kernel::Silu => "k_silu_mul"@,
        Kernel::SiluBwd => "k_silu_bwd"@,
        Kernel::Embed => "k_embed"@,
        Kernel::EmbedBwd => "k_embed_bwd"@,
        Kernel::Ce => "k_ce"@,
        Kernel::Sgd => "k_sgd"@,
    }
}

/// The code bytes of a list of kernels.
pub open spec fn load(ks: Seq<Kernel>) -> int
    decreases ks.len(),
{
    if ks.len() == 0 {
        0
    } else {
        load(ks.drop_last()) + code_len(ks.last())
    }
}

/// The first `k` kernels packed into phases in their order: the phases that
/// are full, and the one that is being filled.
pub open spec fn packed(ks: Seq<Kernel>, budget: int, k: int) -> (Seq<Seq<Kernel>>, Seq<Kernel>)
    decreases k,
{
    if k <= 0 {
        (Seq::empty(), Seq::empty())
    } else {
        let (done, cur) = packed(ks, budget, k - 1);
        if load(cur) + code_len(ks[k - 1]) > budget && cur.len() > 0 {
            (done.push(cur), seq![ks[k - 1]])
        } else {
            (done, cur.push(ks[k - 1]))
        }
    }
}

pub open spec fn kernel_fits(d: Dev, k: Kernel) -> bool {
    match d.kind {
        DeviceKind::Cpu => d.code >= crate::cluster::CPU_RUNTIME_BYTES,
        DeviceKind::Gpu => d.code >= code_len(k),
    }
}

/// The phases in which a device loads the kernels, where it can: a CPU runs
/// its interpreter, and a GPU loads as many kernels at a time as fit.
pub open spec fn phases(d: Dev, ks: Seq<Kernel>) -> Option<Seq<Seq<Kernel>>> {
    match d.kind {
        DeviceKind::Cpu => if d.code >= crate::cluster::CPU_RUNTIME_BYTES {
            Some(seq![seq![Kernel::CpuRuntime]])
        } else {
            None
        },
        DeviceKind::Gpu => if forall|i: int| 0 <= i < ks.len() ==> code_len(#[trigger] ks[i]) <= d.code {
            let (done, cur) = packed(ks, d.code, ks.len() as int);
            Some(
                if cur.len() == 0 {
                    done
                } else {
                    done.push(cur)
                },
            )
        } else {
            None
        },
    }
}

// ----- sizes -----

/// Bytes of a linear tile: input, its cotangent, output, weight, its
/// cotangent, and a mask where there is one.
pub open spec fn linear_need(rows: int, din: int, dout: int, mask: bool) -> int {
    let x = rows * din;
    let y = rows * dout;
    let w = din * dout;
    (x + x + y + w + w) * 4 + if mask {
        y
    } else {
        0
    }
}

/// Bytes of an attention tile: queries, keys and probabilities with their
/// cotangents.
pub open spec fn attention_need(queries: int, keys: int, dim: int) -> int {
    let q = queries * dim;
    let k = keys * dim;
    let p = queries * keys;
    (q + q + k + k + p + p) * 4
}

/// The bytes that one layer saves for its adjoint.
pub open spec fn tape_need(c: MixtralConfig, n: int, seq: int) -> int {
    let floats = n * c.dim + n + n * c.q_width() + n * c.kv_width() + n * c.kv_width() + n * c.heads * seq + n * c.q_width()
        + n * c.dim + n + n * c.experts + n * c.top_k + n * c.top_k + c.experts * n * c.intermediate + c.experts * n
        * c.intermediate;
    floats * 4 + n * c.top_k * 8
}

// ----- matrices -----

/// The number that goes with a matrix in its windows: which norm of the
/// layer, which expert, or which stage.
pub open spec fn role_code(r: Role) -> int {
    match r {
        Role::FfnNorm => 1,
        Role::FinalNorm => 2,
        Role::Gate(e) | Role::Up(e) | Role::Down(e) | Role::Gemm(e) | Role::Bias(e) => if e <= u32::MAX {
            e as int
        } else {
            0
        },
        _ => 0,
    }
}

pub open spec fn exec_of(k: Kernel) -> Exec {
    match k {
        Kernel::Embed | Kernel::EmbedBwd => Exec::Embed,
        Kernel::RmsNorm | Kernel::RmsNormBwd => Exec::RmsNorm,
        _ => Exec::Linear,
    }
}

pub open spec fn linear_mat(name: Seq<char>, role: Role, layer: int, rows: int, cols: int, n: int, offset: int) -> Mat {
    Mat {
        name,
        role,
        layer,
        rows,
        cols,
        batch: n,
        extra: 0,
        offset,
        fwd: seq![Kernel::Linear],
        bwd: seq![Kernel::LinearDx, Kernel::LinearDw],
        mask: false,
    }
}

pub open spec fn norm_mat(name: Seq<char>, role: Role, layer: int, dim: int, n: int, offset: int) -> Mat {
    Mat {
        name,
        role,
        layer,
        rows: dim,
        cols: 1,
        batch: n,
        extra: 0,
        offset,
        fwd: seq![Kernel::RmsNorm],
        bwd: seq![Kernel::RmsNormBwd],
        mask: false,
    }
}

pub open spec fn layer_name(t: Seq<char>, l: int) -> Seq<char> {
    crate::text::filled(t, seq![crate::text::dec(l)])
}

pub open spec fn expert_name(t: Seq<char>, l: int, e: int) -> Seq<char> {
    crate::text::filled(t, seq![crate::text::dec(l), crate::text::dec(e)])
}

/// The matrices of layer `l` before its experts.
pub open spec fn front_mats(c: MixtralConfig, l: int, n: int) -> Seq<Mat> {
    let p = c.layer_places(l);
    let dim = c.dim as int;
    seq![
        norm_mat(layer_name("L$a-attn-norm"@, l), Role::AttnNorm, l, dim, n, p.attn_norm),
        linear_mat(layer_name("L$a-q"@, l), Role::Query, l, dim, c.q_width(), n, p.q),
        linear_mat(layer_name("L$a-k"@, l), Role::Key, l, dim, c.kv_width(), n, p.k),
        linear_mat(layer_name("L$a-v"@, l), Role::Value, l, dim, c.kv_width(), n, p.v),
        linear_mat(layer_name("L$a-o"@, l), Role::Output, l, c.q_width(), dim, n, p.o),
        norm_mat(layer_name("L$a-ffn-norm"@, l), Role::FfnNorm, l, dim, n, p.ffn_norm),
        linear_mat(layer_name("L$a-router"@, l), Role::Router, l, dim, c.experts as int, n, p.router),
    ]
}

/// The matrices of expert `e`.
pub open spec fn expert_mats(c: MixtralConfig, l: int, n: int, e: int) -> Seq<Mat> {
    let p = c.layer_places(l);
    let dim = c.dim as int;
    let inter = c.intermediate as int;
    seq![
        linear_mat(expert_name("L$a-gate-$b"@, l, e), Role::Gate(e as usize), l, dim, inter, n, p.gate[e]),
        linear_mat(expert_name("L$a-up-$b"@, l, e), Role::Up(e as usize), l, dim, inter, n, p.up[e]),
        linear_mat(expert_name("L$a-down-$b"@, l, e), Role::Down(e as usize), l, inter, dim, n, p.down[e]),
    ]
}

pub open spec fn layer_mats(c: MixtralConfig, l: int, n: int) -> Seq<Mat> {
    front_mats(c, l, n) + crate::theory::listing::cat(c.experts as int, |e: int| expert_mats(c, l, n, e))
}

pub open spec fn embed_mat(c: MixtralConfig, n: int) -> Mat {
    Mat {
        name: "embed"@,
        role: Role::Embed,
        layer: 0,
        rows: c.vocab as int,
        cols: c.dim as int,
        batch: 1,
        extra: n * c.dim * 4,
        offset: c.places().embed,
        fwd: seq![Kernel::Embed],
        bwd: seq![Kernel::EmbedBwd],
        mask: false,
    }
}

pub open spec fn final_mat(c: MixtralConfig, n: int) -> Mat {
    norm_mat("final-norm"@, Role::FinalNorm, 0, c.dim as int, n, c.places().final_norm)
}

pub open spec fn head_mat(c: MixtralConfig, n: int) -> Mat {
    linear_mat("lm-head"@, Role::LmHead, 0, c.dim as int, c.vocab as int, n, c.places().lm_head)
}

/// Every matrix of the model, in the order of the parameter buffer.
pub open spec fn mixtral_mats(c: MixtralConfig, n: int) -> Seq<Mat> {
    seq![embed_mat(c, n)] + crate::theory::listing::cat(c.layers as int, |l: int| layer_mats(c, l, n)) + seq![
        final_mat(c, n),
        head_mat(c, n),
    ]
}

/// The weight and the bias of a linear stage.
pub open spec fn stage_mats(s: Stage, i: int) -> Seq<Mat> {
    match s {
        Stage::Gemm { batch, din, dout, relu, .. } => {
            let back = seq![Kernel::GemmDx, Kernel::GemmDw, Kernel::GemmDb];
            seq![
                Mat {
                    name: layer_name("gemm-$a"@, i),
                    role: Role::Gemm(i as usize),
                    layer: 0,
                    rows: din as int,
                    cols: dout as int,
                    batch: batch as int,
                    extra: 0,
                    offset: 0,
                    fwd: seq![Kernel::GemmFwd],
                    bwd: if relu {
                        seq![Kernel::ReluBwd] + back
                    } else {
                        back
                    },
                    mask: relu,
                },
                Mat {
                    name: layer_name("bias-$a"@, i),
                    role: Role::Bias(i as usize),
                    layer: 0,
                    rows: 1,
                    cols: dout as int,
                    batch: batch as int,
                    extra: 0,
                    offset: 0,
                    fwd: seq![Kernel::GemmFwd],
                    bwd: seq![Kernel::GemmDb],
                    mask: false,
                },
            ]
        },
        _ => Seq::empty(),
    }
}

pub open spec fn program_mats(stages: Seq<Stage>) -> Seq<Mat> {
    crate::theory::listing::cat(stages.len() as int, |i: int| stage_mats(stages[i], i))
}

/// The parameters of the first `k` matrices.
pub open spec fn mats_len(ms: Seq<Mat>, k: int) -> int {
    crate::theory::sums::sum(k, |i: int| ms[i].rows * ms[i].cols)
}

// ----- jobs -----

pub open spec fn simple_job(
    name: Seq<char>,
    op: Exec,
    fwd: Kernel,
    bwd: Kernel,
    footprint: int,
    layer: int,
    expert: int,
    n: int,
    width: int,
) -> Job {
    Job {
        name,
        op,
        footprint,
        home: None,
        param: 0,
        tape: footprint,
        placing: seq![fwd, bwd],
        fwd: seq![fwd],
        bwd: seq![bwd],
        offset: 0,
        batch_begin: 0,
        batch_end: n,
        row_begin: 0,
        row_end: width,
        col_begin: 0,
        col_end: width,
        din: width,
        dout: width,
        layer,
        expert,
    }
}

pub open spec fn rope_job(l: int, query: bool, n: int, width: int) -> Job {
    simple_job(
        layer_name(
            if query {
                "L$a-rope-q"@
            } else {
                "L$a-rope-k"@
            },
            l,
        ),
        if query {
            Exec::RopeQ
        } else {
            Exec::RopeK
        },
        Kernel::Rope,
        Kernel::Rope,
        n * width * 2 * 4,
        l,
        0,
        n,
        width,
    )
}

pub open spec fn residual_job(l: int, attn: bool, n: int, dim: int) -> Job {
    simple_job(
        layer_name(
            if attn {
                "L$a-add-attn"@
            } else {
                "L$a-add-moe"@
            },
            l,
        ),
        if attn {
            Exec::AddAttn
        } else {
            Exec::AddMoe
        },
        Kernel::Add,
        Kernel::Add,
        n * dim * 2 * 4,
        l,
        0,
        n,
        dim,
    )
}

pub open spec fn router_job(l: int, n: int, dim: int, experts: int) -> Job {
    simple_job(
        layer_name("L$a-router-gate"@, l),
        Exec::Router,
        Kernel::Router,
        Kernel::RouterBwd,
        (n * dim + n * experts * 4) * 4,
        l,
        0,
        n,
        experts,
    )
}

pub open spec fn silu_job(l: int, e: int, n: int, inter: int) -> Job {
    simple_job(
        expert_name("L$a-silu-$b"@, l, e),
        Exec::Silu,
        Kernel::Silu,
        Kernel::SiluBwd,
        n * inter * 4 * 4,
        l,
        e,
        n,
        inter,
    )
}

pub open spec fn mix_job(l: int, n: int, dim: int, experts: int) -> Job {
    simple_job(
        layer_name("L$a-mix"@, l),
        Exec::Mix,
        Kernel::Add,
        Kernel::Add,
        n * dim * (experts + 2) * 4,
        l,
        0,
        n,
        dim,
    )
}

/// A layer number as a window carries it.
pub open spec fn short(l: int) -> int {
    (l as u32) as int
}

impl Job {
    /// The window of the job on a device, without its messages.
    pub open spec fn window(self, device: int, resident: int, pass: Pass, ps: Seq<Seq<Kernel>>) -> Win {
        Win {
            name: self.name,
            device,
            phases: ps,
            resident,
            tape: self.tape,
            param: self.param,
            pass,
            op: self.op,
            offset: self.offset,
            batch_begin: self.batch_begin,
            batch_end: self.batch_end,
            row_begin: self.row_begin,
            row_end: self.row_end,
            col_begin: self.col_begin,
            col_end: self.col_end,
            din: self.din,
            dout: self.dout,
            home: match self.home {
                Some(h) => h,
                None => device,
            },
            layer: self.layer,
            expert: self.expert,
            inbound: Seq::empty(),
            outbound: Seq::empty(),
        }
    }
}

impl Task {
    /// How far the three loops of the task run.
    pub open spec fn extents(self) -> (int, int, int) {
        match self {
            Task::Linear { matrix } => (matrix.batch, matrix.rows, matrix.cols),
            Task::Attention { queries, keys, dim, .. } => (queries, dim, keys),
            Task::Loss { tokens, vocab } => (tokens, 1, vocab),
        }
    }

    /// The sizes from which the tiles are cut.
    pub open spec fn sizes(self) -> (int, int, int) {
        match self {
            Task::Linear { matrix } => (matrix.batch, matrix.rows, matrix.cols),
            Task::Attention { queries, keys, dim, .. } => (queries, keys, dim),
            Task::Loss { tokens, vocab } => (tokens, 1, vocab),
        }
    }

    /// The steps of the three loops, from the sizes of a tile.
    pub open spec fn steps(self, t: (int, int, int)) -> (int, int, int) {
        match self {
            Task::Linear { .. } => t,
            Task::Attention { .. } => (t.0, t.2, t.1),
            Task::Loss { .. } => (t.0, 1, t.2),
        }
    }

    /// The bytes of a tile.
    pub open spec fn need(self, a: int, b: int, c: int) -> int {
        match self {
            Task::Linear { matrix } => linear_need(a, b, c, matrix.mask) + matrix.extra,
            Task::Attention { .. } => attention_need(a, b, c),
            Task::Loss { .. } => linear_need(a, b, c, false),
        }
    }

    /// The kernels for which tiles are cut.
    pub open spec fn cutting(self) -> Seq<Kernel> {
        match self {
            Task::Attention { fwd, bwd, .. } => fwd + bwd,
            _ => seq![Kernel::Linear, Kernel::LinearDx, Kernel::LinearDw],
        }
    }

    pub open spec fn full(self) -> (int, int, int) {
        let (a, b, c) = self.sizes();
        (most(a, 1), most(b, 1), most(c, 1))
    }
}

// ----- states -----

/// A plan in the making.
#[verifier::ext_equal]
pub struct State {
    pub devices: Seq<Dev>,
    pub links: Seq<Link>,
    /// Buffer bytes that no home has claimed.
    pub free: Seq<int>,
    /// Buffer bytes of the homes on each device.
    pub held: Seq<int>,
    pub peak: Seq<int>,
    pub homes: Seq<Place>,
    /// How many homes there were before each tape.
    pub marks: Seq<int>,
    pub windows: Seq<Win>,
    pub later: Seq<Win>,
    pub tail: Seq<Win>,
    pub transfers: Seq<Move>,
}

pub open spec fn buffers(ds: Seq<Dev>) -> Seq<int> {
    Seq::new(ds.len(), |i: int| ds[i].buffer)
}

pub open spec fn codes(ds: Seq<Dev>) -> Seq<int> {
    Seq::new(ds.len(), |i: int| ds[i].code)
}

pub open spec fn capacity(ds: Seq<Dev>, k: int) -> int {
    crate::theory::sums::sum(k, |i: int| ds[i].buffer)
}

/// The hops of a message along a path.
pub open spec fn legs(path: Seq<int>, kind: HopKind, w: Win) -> Seq<Leg> {
    let bytes = match kind {
        HopKind::Activation => w.tape,
        _ => w.param,
    };
    let elems = match kind {
        HopKind::Activation => bytes / 4,
        _ => area(w.row_begin, w.row_end, w.col_begin, w.col_end),
    };
    Seq::new(
        most(path.len() - 1, 0) as nat,
        |i: int|
            Leg {
                from: path[i],
                to: path[i + 1],
                bytes,
                kind,
                offset: w.offset,
                elems,
                row_begin: w.row_begin,
                row_end: w.row_end,
                col_begin: w.col_begin,
                col_end: w.col_end,
                stride: w.dout,
            },
    )
}

pub open spec fn moves(ls: Seq<Leg>) -> Seq<Move> {
    Seq::new(ls.len(), |i: int| Move { from: ls[i].from, to: ls[i].to, bytes: ls[i].bytes })
}

/// The bytes of a home: parameters have four for each element.
pub open spec fn held_bytes(h: Place) -> int {
    let n = area(h.row_begin, h.row_end, h.col_begin, h.col_end);
    match h.kind {
        HomeKind::Param => n * 4,
        HomeKind::Tape => n,
    }
}

/// A home that holds this element of this matrix.
pub open spec fn holds(h: Place, name: Seq<char>, row: int, col: int) -> bool {
    h.kind == HomeKind::Param && h.name == name && h.row_begin <= row < h.row_end && h.col_begin <= col < h.col_end
}

/// What the scan over the devices has found so far.
#[verifier::ext_equal]
pub struct Scan {
    pub best: Option<int>,
    pub blocked: Option<Fault>,
}

impl State {
    /// Nothing placed yet.
    pub open spec fn fresh(devices: Seq<Dev>, links: Seq<Link>) -> State {
        let zero = Seq::new(devices.len(), |i: int| 0int);
        State {
            devices,
            links,
            free: buffers(devices),
            held: zero,
            peak: zero,
            homes: Seq::empty(),
            marks: Seq::empty(),
            windows: Seq::empty(),
            later: Seq::empty(),
            tail: Seq::empty(),
            transfers: Seq::empty(),
        }
    }

    pub open spec fn start(devices: Seq<Dev>, links: Seq<Link>, persistent: int) -> Result<State, Fault> {
        let all = capacity(devices, devices.len() as int);
        if persistent > all {
            Err(Fault::ParamsExceedCluster { params: persistent, capacity: all })
        } else {
            Ok(State::fresh(devices, links))
        }
    }

    pub open spec fn count(self) -> int {
        self.devices.len() as int
    }

    pub open spec fn is_cpu(self, i: int) -> bool {
        self.devices[i].kind == DeviceKind::Cpu
    }

    // ----- homes -----

    /// The device for a home: a CPU where one has room, and the one with the
    /// most free bytes.
    pub open spec fn pick(self, need: int) -> Option<int> {
        let free = self.free;
        let devices = self.devices;
        let cpu = last_max(
            self.count(),
            |i: int| devices[i].kind == DeviceKind::Cpu && free[i] >= need,
            |i: int| free[i],
        );
        if cpu is Some {
            cpu
        } else {
            last_max(self.count(), |i: int| free[i] >= need, |i: int| free[i])
        }
    }

    /// Put a home on a device.
    pub open spec fn put(self, h: Place, bytes: int) -> State {
        let d = h.device;
        let now = self.held[d] + bytes;
        State {
            free: self.free.update(d, self.free[d] - bytes),
            held: self.held.update(d, now),
            peak: self.peak.update(d, most(self.peak[d], now)),
            homes: self.homes.push(h),
            ..self
        }
    }

    /// Place columns `col` and on of one row, piece by piece.
    pub open spec fn place_cols(
        self,
        kind: HomeKind,
        name: Seq<char>,
        row: int,
        cols: int,
        elem: int,
        col: int,
    ) -> Result<State, Fault>
        decreases cols - col,
    {
        if col >= cols {
            Ok(self)
        } else {
            match self.pick(elem) {
                None => Err(Fault::TapeExceedsCluster { tape: cols * elem, free: largest(self.free, self.free.len() as int) }),
                Some(d) => {
                    let take = least(self.free[d] / elem, cols - col);
                    if take <= 0 {
                        Err(Fault::TapeExceedsCluster { tape: elem, free: self.free[d] })
                    } else {
                        let h = Place {
                            kind,
                            name,
                            device: d,
                            row_begin: row,
                            row_end: row + 1,
                            col_begin: col,
                            col_end: col + take,
                            stride: cols,
                        };
                        self.put(h, take * elem).place_cols(kind, name, row, cols, elem, col + take)
                    }
                },
            }
        }
    }

    /// Place rows `row` and on: as many whole rows at a time as a device
    /// takes, and a row in pieces where no device takes a whole one.
    pub open spec fn place_rows(
        self,
        kind: HomeKind,
        name: Seq<char>,
        rows: int,
        cols: int,
        elem: int,
        row: int,
    ) -> Result<State, Fault>
        decreases rows - row,
    {
        if row >= rows {
            Ok(self)
        } else {
            match self.pick(cols * elem) {
                Some(d) => {
                    let fit = most(least(self.free[d] / (cols * elem), rows - row), 1);
                    let take = least(fit, rows - row);
                    let h = Place {
                        kind,
                        name,
                        device: d,
                        row_begin: row,
                        row_end: row + take,
                        col_begin: 0,
                        col_end: cols,
                        stride: cols,
                    };
                    self.put(h, take * cols * elem).place_rows(kind, name, rows, cols, elem, row + take)
                },
                None => match self.place_cols(kind, name, row, cols, elem, 0) {
                    Err(e) => Err(e),
                    Ok(s) => s.place_rows(kind, name, rows, cols, elem, row + 1),
                },
            }
        }
    }

    pub open spec fn place_param(self, m: Mat) -> Result<State, Fault> {
        self.place_rows(HomeKind::Param, m.name, m.rows, m.cols, 4, 0)
    }

    /// Place the matrices from number `k` on.
    pub open spec fn place_params(self, ms: Seq<Mat>, k: int) -> Result<State, Fault>
        decreases ms.len() - k,
    {
        if k >= ms.len() {
            Ok(self)
        } else {
            match self.place_param(ms[k]) {
                Err(e) => Err(e),
                Ok(s) => s.place_params(ms, k + 1),
            }
        }
    }

    pub open spec fn place_tape(self, name: Seq<char>, bytes: int) -> Result<State, Fault> {
        let mark = self.homes.len() as int;
        if bytes == 0 {
            Ok(State { marks: self.marks.push(mark), ..self })
        } else {
            match self.place_rows(HomeKind::Tape, name, 1, bytes, 1, 0) {
                Err(e) => Err(e),
                Ok(s) => Ok(State { marks: s.marks.push(mark), ..s }),
            }
        }
    }

    /// Place the tapes of layers `l` and on.
    pub open spec fn place_tapes(self, c: MixtralConfig, n: int, seq: int, l: int) -> Result<State, Fault>
        decreases c.layers - l,
    {
        if l >= c.layers {
            Ok(self)
        } else {
            match self.place_tape(layer_name("layer-$a"@, l), tape_need(c, n, seq)) {
                Err(e) => Err(e),
                Ok(s) => s.place_tapes(c, n, seq, l + 1),
            }
        }
    }

    /// Take the last homes back until `mark` are left.
    pub open spec fn drop_homes(self, mark: int) -> State
        decreases self.homes.len(),
    {
        if self.homes.len() == 0 || self.homes.len() <= mark {
            self
        } else {
            let h = self.homes.last();
            let d = h.device;
            let s = State { homes: self.homes.drop_last(), ..self };
            let t = if h.kind == HomeKind::Tape {
                State {
                    free: self.free.update(d, self.free[d] + held_bytes(h)),
                    held: self.held.update(d, self.held[d] - held_bytes(h)),
                    ..s
                }
            } else {
                s
            };
            t.drop_homes(mark)
        }
    }

    /// Take every tape back.
    pub open spec fn release(self) -> State
        decreases self.marks.len(),
    {
        if self.marks.len() == 0 {
            self
        } else {
            let s = State { marks: self.marks.drop_last(), ..self };
            State { marks: s.marks, ..s.drop_homes(self.marks.last()) }.release()
        }
    }

    /// The device that holds an element of a matrix.
    pub open spec fn home_of(self, name: Seq<char>, row: int, col: int, k: int) -> int
        decreases self.homes.len() - k,
    {
        if k >= self.homes.len() {
            0
        } else if holds(self.homes[k], name, row, col) {
            self.homes[k].device
        } else {
            self.home_of(name, row, col, k + 1)
        }
    }

    // ----- messages -----

    pub open spec fn trip(self, from: int, to: int, bytes: int) -> Trip {
        Trip { links: self.links, free: self.free, from, to, bytes }
    }

    pub open spec fn route(self, from: int, to: int, bytes: int) -> Result<Seq<int>, Fault> {
        match self.trip(from, to, bytes).route() {
            Some(p) => Ok(p),
            None => Err(Fault::RouteUnavailable { from, to, bytes }),
        }
    }

    /// Where an activation waits: the device with the most free bytes, a CPU
    /// before a GPU.
    pub open spec fn activation_home(self, bytes: int) -> Option<int> {
        let free = self.free;
        let devices = self.devices;
        if bytes == 0 {
            None
        } else {
            last_max(
                self.count(),
                |i: int| free[i] >= bytes,
                |i: int|
                    free[i] * 2 + if devices[i].kind == DeviceKind::Cpu {
                        1int
                    } else {
                        0int
                    },
            )
        }
    }

    /// Why an activation cannot come to a device.
    pub open spec fn activation_fault(self, device: int, bytes: int) -> Option<Fault> {
        match self.activation_home(bytes) {
            None => None,
            Some(h) => if h == device {
                None
            } else {
                match self.route(h, device, bytes) {
                    Ok(p) => None,
                    Err(e) => Some(e),
                }
            },
        }
    }

    /// Messages for the parameters of a window: they come from their home, and
    /// the adjoint, or the updated parameters, go back.
    pub open spec fn param_legs(self, w: Win, inbound: bool) -> Result<Seq<Leg>, Fault> {
        if !(w.param > 0 && w.home != w.device) {
            Ok(Seq::empty())
        } else if inbound {
            match self.route(w.home, w.device, w.param) {
                Err(e) => Err(e),
                Ok(p) => if w.op == Exec::Sgd {
                    Ok(legs(p, HopKind::Param, w) + legs(p, HopKind::Adjoint, w))
                } else {
                    Ok(legs(p, HopKind::Param, w))
                },
            }
        } else if w.pass == Pass::Bwd || w.op == Exec::Sgd {
            match self.route(w.device, w.home, w.param) {
                Err(e) => Err(e),
                Ok(p) => Ok(
                    legs(
                        p,
                        if w.pass == Pass::Bwd {
                            HopKind::Adjoint
                        } else {
                            HopKind::Param
                        },
                        w,
                    ),
                ),
            }
        } else {
            Ok(Seq::empty())
        }
    }

    /// Messages for the activations of a window.
    pub open spec fn tape_legs(self, w: Win, inbound: bool) -> Result<Seq<Leg>, Fault> {
        match self.activation_home(w.tape) {
            None => Ok(Seq::empty()),
            Some(h) => {
                let from = if inbound {
                    h
                } else {
                    w.device
                };
                let to = if inbound {
                    w.device
                } else {
                    h
                };
                if from == to {
                    Ok(Seq::empty())
                } else {
                    match self.route(from, to, w.tape) {
                        Err(e) => Err(e),
                        Ok(p) => Ok(legs(p, HopKind::Activation, w)),
                    }
                }
            },
        }
    }

    pub open spec fn messages(self, w: Win, inbound: bool) -> Result<Seq<Leg>, Fault> {
        match self.param_legs(w, inbound) {
            Err(e) => Err(e),
            Ok(a) => match self.tape_legs(w, inbound) {
                Err(e) => Err(e),
                Ok(b) => Ok(a + b),
            },
        }
    }

    /// The window with its messages.
    pub open spec fn annotated(self, w: Win) -> Result<Win, Fault> {
        match self.messages(w, true) {
            Err(e) => Err(e),
            Ok(inbound) => match self.messages(w, false) {
                Err(e) => Err(e),
                Ok(outbound) => Ok(Win { inbound, outbound, ..w }),
            },
        }
    }

    /// The transfers after those of a window.
    pub open spec fn moved(self, w: Win) -> Seq<Move> {
        self.transfers + moves(w.inbound) + moves(w.outbound)
    }

    /// Add a window to its pass.
    pub open spec fn post(self, w: Win) -> Result<State, Fault> {
        match self.annotated(w) {
            Err(e) => Err(e),
            Ok(x) => if x.pass == Pass::Fwd {
                Ok(State { windows: self.windows.push(x), transfers: self.moved(x), ..self })
            } else {
                Ok(State { later: self.later.push(x), transfers: self.moved(x), ..self })
            },
        }
    }

    // ----- devices for windows -----

    /// The bytes on a device while it runs the job. The homes stay. The
    /// footprint counts a working copy of the parameters, which the home of
    /// those parameters does not need.
    pub open spec fn resident(self, i: int, j: Job) -> int {
        self.held[i] + j.footprint - if j.home == Some(i) {
            j.param
        } else {
            0
        }
    }

    pub open spec fn job_fault(self, i: int, j: Job) -> Option<Fault> {
        match j.home {
            Some(h) => if j.param > 0 && h != i && self.route(h, i, j.param) is Err {
                Some(self.route(h, i, j.param)->Err_0)
            } else {
                self.activation_fault(i, j.tape)
            },
            None => self.activation_fault(i, j.tape),
        }
    }

    /// Device `i` suits better than device `k`: a GPU before a CPU, then fewer
    /// resident bytes.
    pub open spec fn better(self, i: int, k: int, j: Job) -> bool {
        ||| !self.is_cpu(i) && self.is_cpu(k)
        ||| self.is_cpu(i) == self.is_cpu(k) && self.resident(i, j) < self.resident(k, j)
    }

    /// The scan over the first `k` devices.
    pub open spec fn scan(self, j: Job, k: int) -> Scan
        decreases k,
    {
        if k <= 0 {
            Scan { best: None, blocked: None }
        } else {
            let b = self.scan(j, k - 1);
            let i = k - 1;
            if phases(self.devices[i], j.placing) is None || self.resident(i, j) > self.devices[i].buffer {
                b
            } else {
                match self.job_fault(i, j) {
                    Some(e) => Scan { blocked: Some(e), ..b },
                    None => if b.best is None || self.better(i, b.best->0, j) {
                        Scan { best: Some(i), ..b }
                    } else {
                        b
                    },
                }
            }
        }
    }

    pub open spec fn no_device_loads(self, k: Kernel) -> bool {
        forall|i: int| 0 <= i < self.count() ==> !kernel_fits(#[trigger] self.devices[i], k)
    }

    /// The first kernel from number `k` on that no device can load.
    pub open spec fn too_large(self, ks: Seq<Kernel>, k: int) -> Option<Kernel>
        decreases ks.len() - k,
    {
        if k >= ks.len() {
            None
        } else if self.no_device_loads(ks[k]) {
            Some(ks[k])
        } else {
            self.too_large(ks, k + 1)
        }
    }

    /// The device on which a job runs.
    pub open spec fn place(self, j: Job) -> Result<int, Fault> {
        let f = self.scan(j, self.count());
        match f.best {
            Some(d) => Ok(d),
            None => match f.blocked {
                Some(e) => Err(e),
                None => match self.too_large(j.placing, 0) {
                    Some(k) => Err(
                        Fault::CodeExceedsDevices {
                            kernel: kernel_name(k),
                            need: code_len(k),
                            largest: largest(codes(self.devices), self.count()),
                        },
                    ),
                    None => Err(
                        Fault::TileExceedsDevices {
                            need: j.footprint,
                            largest: largest(self.free, self.free.len() as int),
                        },
                    ),
                },
            },
        }
    }

    pub open spec fn peaked(self, d: int, bytes: int) -> State {
        State { peak: self.peak.update(d, most(self.peak[d], bytes)), ..self }
    }

    /// Place a job, and add its window and its adjoint.
    pub open spec fn work(self, j: Job) -> Result<State, Fault> {
        match self.place(j) {
            Err(e) => Err(e),
            Ok(d) => {
                let r = self.resident(d, j);
                let dev = self.devices[d];
                match self.peaked(d, r).post(j.window(d, r, Pass::Fwd, phases(dev, j.fwd)->0)) {
                    Err(e) => Err(e),
                    Ok(s) => s.post(j.window(d, r, Pass::Bwd, phases(dev, j.bwd)->0)),
                }
            },
        }
    }

    // ----- tiles -----

    pub open spec fn tile_fits(self, i: int, need: int, ks: Seq<Kernel>) -> bool {
        self.held[i] + need <= self.devices[i].buffer && phases(self.devices[i], ks) is Some
    }

    pub open spec fn some_fits(self, need: int, ks: Seq<Kernel>) -> bool {
        exists|i: int| 0 <= i < self.count() && #[trigger] self.tile_fits(i, need, ks) && self.activation_fault(i, need) is None
    }

    pub open spec fn memory_fits(self, need: int, ks: Seq<Kernel>) -> bool {
        exists|i: int| 0 <= i < self.count() && #[trigger] self.tile_fits(i, need, ks)
    }

    /// The first device from `i` on, other than `from`, with room for the
    /// tile.
    pub open spec fn other_with_room(self, from: int, need: int, i: int) -> int
        decreases self.count() - i,
    {
        if i >= self.count() {
            from
        } else if self.held[i] + need <= self.devices[i].buffer && i != from {
            i
        } else {
            self.other_with_room(from, need, i + 1)
        }
    }

    pub open spec fn blocked_route(self, need: int) -> Fault {
        let from = match self.activation_home(need) {
            Some(h) => h,
            None => 0,
        };
        Fault::RouteUnavailable { from, to: self.other_with_room(from, need, 0), bytes: need }
    }

    /// Halve the largest side of the tile until some device has room for it.
    pub open spec fn shrink(self, t: Task, a: int, b: int, c: int) -> Result<(int, int, int), Fault>
        decreases most(a, 0) + most(b, 0) + most(c, 0),
    {
        let need = t.need(a, b, c);
        if self.some_fits(need, t.cutting()) {
            Ok((a, b, c))
        } else if c >= a && c >= b && c > 1 {
            self.shrink(t, a, b, (c + 1) / 2)
        } else if a >= b && a > 1 {
            self.shrink(t, (a + 1) / 2, b, c)
        } else if b > 1 {
            self.shrink(t, a, (b + 1) / 2, c)
        } else if self.memory_fits(need, t.cutting()) {
            Err(self.blocked_route(need))
        } else {
            Err(Fault::TileExceedsDevices { need, largest: largest(buffers(self.devices), self.count()) })
        }
    }

    /// The job of one tile of a task.
    pub open spec fn tile(self, t: Task, a: (int, int), b: (int, int), c: (int, int)) -> Job {
        let rows = a.1 - a.0;
        match t {
            Task::Linear { matrix } => {
                let k = b.1 - b.0;
                let w = c.1 - c.0;
                Job {
                    name: crate::text::filled(
                        "$a[$b:$c,$d:$e,$f:$g]"@,
                        seq![
                            matrix.name,
                            crate::text::dec(a.0),
                            crate::text::dec(a.1),
                            crate::text::dec(b.0),
                            crate::text::dec(b.1),
                            crate::text::dec(c.0),
                            crate::text::dec(c.1),
                        ],
                    ),
                    op: exec_of(matrix.fwd[0]),
                    footprint: linear_need(rows, k, w, matrix.mask) + matrix.extra,
                    home: Some(self.home_of(matrix.name, b.0, c.0, 0)),
                    param: k * w * 4,
                    tape: rows * k * 4 + rows * w * 4 + if matrix.mask {
                        rows * w
                    } else {
                        0
                    },
                    placing: matrix.fwd + matrix.bwd,
                    fwd: matrix.fwd,
                    bwd: matrix.bwd,
                    offset: matrix.offset,
                    batch_begin: a.0,
                    batch_end: a.1,
                    row_begin: b.0,
                    row_end: b.1,
                    col_begin: c.0,
                    col_end: c.1,
                    din: matrix.rows,
                    dout: matrix.cols,
                    layer: short(matrix.layer),
                    expert: role_code(matrix.role),
                }
            },
            Task::Attention { name, queries, keys, dim, layer, fwd, bwd } => {
                let kn = c.1 - c.0;
                Job {
                    name: crate::text::filled(
                        "$a[$b:$c,$d:$e,$f:$g]"@,
                        seq![
                            name,
                            crate::text::dec(a.0),
                            crate::text::dec(a.1),
                            crate::text::dec(c.0),
                            crate::text::dec(c.1),
                            crate::text::dec(b.0),
                            crate::text::dec(b.1),
                        ],
                    ),
                    op: Exec::Gqa,
                    footprint: attention_need(rows, kn, b.1 - b.0),
                    home: None,
                    param: 0,
                    tape: rows * kn * 4,
                    placing: fwd + bwd,
                    fwd,
                    bwd,
                    offset: 0,
                    batch_begin: a.0,
                    batch_end: a.1,
                    row_begin: c.0,
                    row_end: c.1,
                    col_begin: b.0,
                    col_end: b.1,
                    din: keys,
                    dout: dim,
                    layer,
                    expert: 0,
                }
            },
            Task::Loss { tokens, vocab } => {
                let w = c.1 - c.0;
                Job {
                    name: crate::text::filled(
                        "loss[$a:$b,$c:$d]"@,
                        seq![
                            crate::text::dec(a.0),
                            crate::text::dec(a.1),
                            crate::text::dec(c.0),
                            crate::text::dec(c.1),
                        ],
                    ),
                    op: Exec::Loss,
                    footprint: linear_need(rows, 1, w, false),
                    home: None,
                    param: 0,
                    tape: rows * w * 4,
                    placing: seq![Kernel::Ce, Kernel::Sgd],
                    fwd: seq![Kernel::Ce],
                    bwd: seq![Kernel::Ce],
                    offset: 0,
                    batch_begin: a.0,
                    batch_end: a.1,
                    row_begin: 0,
                    row_end: 1,
                    col_begin: c.0,
                    col_end: c.1,
                    din: 1,
                    dout: vocab,
                    layer: 0,
                    expert: 0,
                }
            },
        }
    }

    /// The innermost loop over the tiles of a task, from `c` on.
    pub open spec fn tiles_c(self, t: Task, st: (int, int, int), a: (int, int), b: (int, int), c: int) -> Result<State, Fault>
        decreases t.extents().2 - c,
    {
        let end = t.extents().2;
        if c >= end || st.2 <= 0 {
            Ok(self)
        } else {
            let next = least(c + st.2, end);
            match self.work(self.tile(t, a, b, (c, next))) {
                Err(e) => Err(e),
                Ok(s) => s.tiles_c(t, st, a, b, next),
            }
        }
    }

    pub open spec fn tiles_b(self, t: Task, st: (int, int, int), a: (int, int), b: int) -> Result<State, Fault>
        decreases t.extents().1 - b,
    {
        let end = t.extents().1;
        if b >= end || st.1 <= 0 {
            Ok(self)
        } else {
            let next = least(b + st.1, end);
            match self.tiles_c(t, st, a, (b, next), 0) {
                Err(e) => Err(e),
                Ok(s) => s.tiles_b(t, st, a, next),
            }
        }
    }

    pub open spec fn tiles_a(self, t: Task, st: (int, int, int), a: int) -> Result<State, Fault>
        decreases t.extents().0 - a,
    {
        let end = t.extents().0;
        if a >= end || st.0 <= 0 {
            Ok(self)
        } else {
            let next = least(a + st.0, end);
            match self.tiles_b(t, st, (a, next), 0) {
                Err(e) => Err(e),
                Ok(s) => s.tiles_a(t, st, next),
            }
        }
    }

    /// Cut a task into tiles that fit, and place them all.
    pub open spec fn emit(self, t: Task) -> Result<State, Fault> {
        let (a, b, c) = t.full();
        match self.shrink(t, a, b, c) {
            Err(e) => Err(e),
            Ok(tile) => self.tiles_a(t, t.steps(tile), 0),
        }
    }

    // ----- a model -----

    pub open spec fn embed_job(self, m: Mat, n: int) -> Job {
        let table = m.rows * m.cols * 4;
        let activation = n * m.cols * 4;
        Job {
            name: crate::text::filled("embed[0:$a]"@, seq![crate::text::dec(n)]),
            op: Exec::Embed,
            footprint: table + activation,
            home: Some(self.home_of(m.name, 0, 0, 0)),
            param: table,
            tape: activation,
            placing: seq![Kernel::Embed, Kernel::EmbedBwd],
            fwd: seq![Kernel::Embed],
            bwd: seq![Kernel::EmbedBwd],
            offset: m.offset,
            batch_begin: 0,
            batch_end: n,
            row_begin: 0,
            row_end: m.rows,
            col_begin: 0,
            col_end: m.cols,
            din: m.rows,
            dout: m.cols,
            layer: 0,
            expert: 0,
        }
    }

    pub open spec fn attention_task(c: MixtralConfig, n: int, seq: int, l: int) -> Task {
        Task::Attention {
            name: layer_name("L$a-gqa"@, l),
            queries: n,
            keys: seq,
            dim: c.head_dim as int,
            layer: if l <= u32::MAX {
                l
            } else {
                0
            },
            fwd: seq![Kernel::GqaFwd],
            bwd: seq![Kernel::GqaBwd],
        }
    }

    /// What comes after a matrix of layer `l`.
    pub open spec fn follow(self, c: MixtralConfig, n: int, seq: int, l: int, r: Role) -> Result<State, Fault> {
        match r {
            Role::Value => match self.work(rope_job(short(l), true, n, c.q_width())) {
                Err(e) => Err(e),
                Ok(s) => match s.work(rope_job(short(l), false, n, c.kv_width())) {
                    Err(e) => Err(e),
                    Ok(s2) => s2.emit(State::attention_task(c, n, seq, l)),
                },
            },
            Role::Output => self.work(residual_job(short(l), true, n, c.dim as int)),
            Role::Router => self.work(router_job(short(l), n, c.dim as int, c.experts as int)),
            Role::Up(e) => if e <= u32::MAX {
                self.work(silu_job(short(l), e as int, n, c.intermediate as int))
            } else {
                Ok(self)
            },
            _ => Ok(self),
        }
    }

    /// The matrices of layer `l` from number `k` on.
    pub open spec fn emit_members(self, c: MixtralConfig, n: int, seq: int, l: int, ms: Seq<Mat>, k: int) -> Result<State, Fault>
        decreases ms.len() - k,
    {
        if k >= ms.len() {
            Ok(self)
        } else {
            match self.emit(Task::Linear { matrix: ms[k] }) {
                Err(e) => Err(e),
                Ok(s) => match s.follow(c, n, seq, l, ms[k].role) {
                    Err(e) => Err(e),
                    Ok(s2) => s2.emit_members(c, n, seq, l, ms, k + 1),
                },
            }
        }
    }

    pub open spec fn emit_layer(self, c: MixtralConfig, n: int, seq: int, l: int) -> Result<State, Fault> {
        match self.emit_members(c, n, seq, l, layer_mats(c, l, n), 0) {
            Err(e) => Err(e),
            Ok(s) => match s.work(mix_job(short(l), n, c.dim as int, c.experts as int)) {
                Err(e) => Err(e),
                Ok(s2) => s2.work(residual_job(short(l), false, n, c.dim as int)),
            },
        }
    }

    pub open spec fn emit_layers(self, c: MixtralConfig, n: int, seq: int, l: int) -> Result<State, Fault>
        decreases c.layers - l,
    {
        if l >= c.layers {
            Ok(self)
        } else {
            match self.emit_layer(c, n, seq, l) {
                Err(e) => Err(e),
                Ok(s) => s.emit_layers(c, n, seq, l + 1),
            }
        }
    }

    // ----- the update -----

    /// Whether a device can update a home: it has the code, and where the home
    /// is elsewhere, there is room next to its own homes and a route.
    pub open spec fn updates(self, d: int, home: int, bytes: int) -> bool {
        phases(self.devices[d], seq![Kernel::Sgd]) is Some && (d == home || (self.held[d] + bytes <= self.devices[d].buffer
            && self.route(home, d, bytes) is Ok))
    }

    /// The first device from `i` on that can update a home.
    pub open spec fn updater(self, home: int, bytes: int, i: int) -> Option<int>
        decreases self.count() - i,
    {
        if i >= self.count() {
            None
        } else if self.updates(i, home, bytes) {
            Some(i)
        } else {
            self.updater(home, bytes, i + 1)
        }
    }

    pub open spec fn no_updater(self) -> Fault {
        Fault::CodeExceedsDevices {
            kernel: "k_sgd"@,
            need: crate::cluster::KERNEL_CODE_BYTES as int,
            largest: largest(codes(self.devices), self.count()),
        }
    }

    /// The device that updates a home: the one that holds it, where it can.
    pub open spec fn sgd_device(self, home: int, bytes: int) -> Result<int, Fault> {
        if self.updates(home, home, bytes) {
            Ok(home)
        } else {
            match self.updater(home, bytes, 0) {
                Some(d) => Ok(d),
                None => Err(self.no_updater()),
            }
        }
    }

    pub open spec fn sgd_window(self, h: Place, m: Mat, d: int) -> Win {
        Win {
            name: crate::text::filled(
                "sgd-$a[$b:$c,$d:$e]"@,
                seq![
                    h.name,
                    crate::text::dec(h.row_begin),
                    crate::text::dec(h.row_end),
                    crate::text::dec(h.col_begin),
                    crate::text::dec(h.col_end),
                ],
            ),
            device: d,
            phases: phases(self.devices[d], seq![Kernel::Sgd])->0,
            resident: held_bytes(h),
            tape: 0,
            param: held_bytes(h),
            pass: Pass::Fwd,
            op: Exec::Sgd,
            offset: m.offset,
            batch_begin: 0,
            batch_end: 0,
            row_begin: h.row_begin,
            row_end: h.row_end,
            col_begin: h.col_begin,
            col_end: h.col_end,
            din: m.rows,
            dout: m.cols,
            home: h.device,
            layer: short(m.layer),
            expert: role_code(m.role),
            inbound: Seq::empty(),
            outbound: Seq::empty(),
        }
    }

    /// The update of one home.
    pub open spec fn update_home(self, ms: Seq<Mat>, h: Place) -> Result<State, Fault> {
        match self.sgd_device(h.device, held_bytes(h)) {
            Err(e) => Err(e),
            Ok(d) => match self.annotated(self.sgd_window(h, ms[named(ms, h.name, 0)], d)) {
                Err(e) => Err(e),
                Ok(w) => Ok(State { tail: self.tail.push(w), transfers: self.moved(w), ..self }),
            },
        }
    }

    /// The updates of the parameter homes from number `k` on.
    pub open spec fn update_homes(self, ms: Seq<Mat>, k: int) -> Result<State, Fault>
        decreases self.homes.len() - k,
    {
        if k >= self.homes.len() {
            Ok(self)
        } else if self.homes[k].kind != HomeKind::Param {
            self.update_homes(ms, k + 1)
        } else {
            match self.update_home(ms, self.homes[k]) {
                Err(e) => Err(e),
                Ok(s) => s.update_homes(ms, k + 1),
            }
        }
    }

    pub open spec fn has_params(self) -> bool {
        exists|k: int| 0 <= k < self.homes.len() && (#[trigger] self.homes[k]).kind == HomeKind::Param
    }

    pub open spec fn emit_sgd(self, ms: Seq<Mat>) -> Result<State, Fault> {
        match self.update_homes(ms, 0) {
            Err(e) => Err(e),
            Ok(s) => if self.has_params() {
                Ok(s)
            } else {
                Err(self.no_updater())
            },
        }
    }

    /// The schedule: forward windows, backward windows in reverse, updates.
    pub open spec fn flush(self) -> Plan {
        Plan {
            homes: self.homes,
            windows: self.windows + self.later.reverse() + self.tail,
            transfers: self.transfers,
            peak: self.peak,
        }
    }

    /// Place the parameters and the tapes of a Mixtral model.
    pub open spec fn home_mixtral(self, c: MixtralConfig, n: int, seq: int) -> Result<State, Fault> {
        match self.place_params(mixtral_mats(c, n), 0) {
            Err(e) => Err(e),
            Ok(s) => s.place_tapes(c, n, seq, 0),
        }
    }

    /// The windows of a Mixtral model, without the update.
    pub open spec fn emit_mixtral(self, c: MixtralConfig, n: int, seq: int) -> Result<State, Fault> {
        match self.work(self.embed_job(embed_mat(c, n), n)) {
            Err(e) => Err(e),
            Ok(s) => match s.emit_layers(c, n, seq, 0) {
                Err(e) => Err(e),
                Ok(s2) => match s2.emit(Task::Linear { matrix: final_mat(c, n) }) {
                    Err(e) => Err(e),
                    Ok(s3) => match s3.emit(Task::Linear { matrix: head_mat(c, n) }) {
                        Err(e) => Err(e),
                        Ok(s4) => s4.emit(Task::Loss { tokens: n, vocab: c.vocab as int }),
                    },
                },
            },
        }
    }

    /// The state in which a Mixtral model is staged.
    pub open spec fn staged_mixtral(
        c: MixtralConfig,
        batch: int,
        seq: int,
        devices: Seq<Dev>,
        links: Seq<Link>,
    ) -> Result<State, Fault> {
        let n = batch * seq;
        let ms = mixtral_mats(c, n);
        if devices.len() == 0 {
            Err(Fault::NoDevice)
        } else {
            match State::start(devices, links, mats_len(ms, ms.len() as int) * 4) {
                Err(e) => Err(e),
                Ok(s) => match s.home_mixtral(c, n, seq) {
                    Err(e) => Err(e),
                    Ok(s2) => match s2.emit_mixtral(c, n, seq) {
                        Err(e) => Err(e),
                        Ok(s3) => match s3.emit_sgd(ms) {
                            Err(e) => Err(e),
                            Ok(s4) => Ok(s4.release()),
                        },
                    },
                },
            }
        }
    }

    /// The linear tasks of the matrices from number `k` on.
    pub open spec fn emit_mats(self, ms: Seq<Mat>, k: int) -> Result<State, Fault>
        decreases ms.len() - k,
    {
        if k >= ms.len() {
            Ok(self)
        } else {
            match self.emit(Task::Linear { matrix: ms[k] }) {
                Err(e) => Err(e),
                Ok(s) => s.emit_mats(ms, k + 1),
            }
        }
    }

    pub open spec fn stage_task(s: Stage) -> Task {
        match s {
            Stage::Attention { batch, tokens, dim, .. } => Task::Attention {
                name: "attention"@,
                queries: batch * tokens,
                keys: tokens as int,
                dim: dim as int,
                layer: 0,
                fwd: seq![Kernel::AttnFwd],
                bwd: seq![Kernel::AttnBwd],
            },
            _ => Task::Loss { tokens: 0, vocab: 0 },
        }
    }

    /// The attention tasks of the stages from number `k` on.
    pub open spec fn emit_stages(self, stages: Seq<Stage>, k: int) -> Result<State, Fault>
        decreases stages.len() - k,
    {
        if k >= stages.len() {
            Ok(self)
        } else if !(stages[k] is Attention) {
            self.emit_stages(stages, k + 1)
        } else {
            match self.emit(State::stage_task(stages[k])) {
                Err(e) => Err(e),
                Ok(s) => s.emit_stages(stages, k + 1),
            }
        }
    }

    /// The state in which a program is staged. Its tape stays.
    pub open spec fn staged_program(
        stages: Seq<Stage>,
        tape: int,
        devices: Seq<Dev>,
        links: Seq<Link>,
    ) -> Result<State, Fault> {
        let ms = program_mats(stages);
        if devices.len() == 0 {
            Err(Fault::NoDevice)
        } else {
            match State::start(devices, links, mats_len(ms, ms.len() as int) * 4 + tape) {
                Err(e) => Err(e),
                Ok(s) => match s.place_params(ms, 0) {
                    Err(e) => Err(e),
                    Ok(s2) => match s2.place_tape("program-tape"@, tape) {
                        Err(e) => Err(e),
                        Ok(s3) => match s3.emit_mats(ms, 0) {
                            Err(e) => Err(e),
                            Ok(s4) => s4.emit_stages(stages, 0),
                        },
                    },
                },
            }
        }
    }
}

/// The first matrix from number `k` on with this name.
pub open spec fn named(ms: Seq<Mat>, name: Seq<char>, k: int) -> int
    decreases ms.len() - k,
{
    if k >= ms.len() {
        ms.len() as int
    } else if ms[k].name == name {
        k
    } else {
        named(ms, name, k + 1)
    }
}

/// The plan of a Mixtral model.
pub open spec fn mixtral_plan(
    c: MixtralConfig,
    batch: int,
    seq: int,
    devices: Seq<Dev>,
    links: Seq<Link>,
) -> Result<Plan, Fault> {
    match State::staged_mixtral(c, batch, seq, devices, links) {
        Err(e) => Err(e),
        Ok(s) => Ok(s.flush()),
    }
}

/// The plan of a program.
pub open spec fn program_plan(stages: Seq<Stage>, tape: int, devices: Seq<Dev>, links: Seq<Link>) -> Result<Plan, Fault> {
    match State::staged_program(stages, tape, devices, links) {
        Err(e) => Err(e),
        Ok(s) => Ok(s.flush()),
    }
}

// ----- kernels to load -----

pub open spec fn noted(ks: Seq<Kernel>, k: Kernel) -> Seq<Kernel> {
    if k == Kernel::CpuRuntime || ks.contains(k) {
        ks
    } else {
        ks.push(k)
    }
}

pub open spec fn noted_phase(ks: Seq<Kernel>, phase: Seq<Kernel>, n: int) -> Seq<Kernel>
    decreases n,
{
    if n <= 0 {
        ks
    } else {
        noted(noted_phase(ks, phase, n - 1), phase[n - 1])
    }
}

pub open spec fn noted_phases(ks: Seq<Kernel>, ps: Seq<Seq<Kernel>>, n: int) -> Seq<Kernel>
    decreases n,
{
    if n <= 0 {
        ks
    } else {
        noted_phase(noted_phases(ks, ps, n - 1), ps[n - 1], ps[n - 1].len() as int)
    }
}

/// The GPU kernels of the first `n` windows, each once, in the order in which
/// they come.
pub open spec fn gpu_kernels(ws: Seq<Win>, n: int) -> Seq<Kernel>
    decreases n,
{
    if n <= 0 {
        Seq::empty()
    } else {
        noted_phases(gpu_kernels(ws, n - 1), ws[n - 1].phases, ws[n - 1].phases.len() as int)
    }
}

} // verus!
