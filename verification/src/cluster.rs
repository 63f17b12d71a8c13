//! Stage a compiled model onto a heterogeneous cluster.
//!
//! Each device has a kind, a buffer budget, and a code budget. Parameter
//! bytes are homed in buffer memory. The live tape is homed there too. A
//! compute window runs on one device only when its resident bytes fit the
//! buffer budget that is still free and each kernel phase fits the code
//! budget. Windows tile the batch, the contraction, and the output until
//! that is true. The adjoint of a tile is applied while the tile is
//! resident, so the full adjoint buffer does not have to sit next to the
//! parameters.
//!
//! [`crate::theory::plans`] says what each step does to the plan, and holds
//! the laws.
use vstd::prelude::*;
use crate::kernel::Program;
use crate::mixtral::MixtralConfig;
use crate::text;
use crate::theory::plans::{Dev, Fault, Leg, Move, Place, Plan, Win};
use crate::theory::routes::{Entry, Trip};

pub use crate::schedule::{stage_mixtral, stage_program};

verus! {

/// Bytes of one CUDA kernel in the code-memory model. A phase may load
/// several kernels when their sum fits the device.
pub const KERNEL_CODE_BYTES: u64 = 8 * 1024;

/// Code budget of the CPU interpreter. A CPU device executes a window when
/// its code budget covers this runtime and its buffer covers the window.
pub const CPU_RUNTIME_BYTES: u64 = 64 * 1024;

#[derive(Clone, Copy, Debug, PartialEq, Eq, Structural)]
pub enum DeviceKind {
    Cpu,
    Gpu,
}

/// An undirected link. Bytes move in either direction.
#[derive(Clone, Copy, Debug, PartialEq, Eq, Structural)]
pub struct Link {
    pub a: usize,
    pub b: usize,
}

#[derive(Clone, Copy, Debug, PartialEq, Eq, Structural)]
pub enum Kernel {
    CpuRuntime,
    GemmFwd,
    GemmDx,
    GemmDw,
    GemmDb,
    ReluBwd,
    Add,
    AttnFwd,
    AttnBwd,
    RmsNorm,
    RmsNormBwd,
    Linear,
    LinearDx,
    LinearDw,
    Rope,
    GqaFwd,
    GqaBwd,
    Router,
    RouterBwd,
    Silu,
    SiluBwd,
    Embed,
    EmbedBwd,
    Ce,
    Sgd,
}

#[derive(Clone, Copy, Debug, PartialEq, Eq, Structural)]
pub enum HomeKind {
    Param,
    Tape,
}

/// What a hop carries.
#[derive(Clone, Copy, Debug, PartialEq, Eq, Structural)]
pub enum HopKind {
    Param,
    Adjoint,
    Activation,
}

/// Which way a window runs. The schedule is every forward window, then the
/// backward windows in reverse, then the parameter update.
#[derive(Clone, Copy, Debug, PartialEq, Eq, Structural)]
pub enum Pass {
    Fwd,
    Bwd,
}

/// The operation a window performs. Tile bounds select the rows, columns,
/// and batch items of that operation.
#[derive(Clone, Copy, Debug, PartialEq, Eq, Structural)]
pub enum Exec {
    Embed,
    RmsNorm,
    Linear,
    RopeQ,
    RopeK,
    Gqa,
    AddAttn,
    AddMoe,
    Router,
    Silu,
    Mix,
    Loss,
    Sgd,
}

/// What a staged matrix is in its model.
#[derive(Clone, Copy, Debug, PartialEq, Eq, Structural)]
pub enum Role {
    Embed,
    AttnNorm,
    Query,
    Key,
    Value,
    Output,
    FfnNorm,
    Router,
    Gate(usize),
    Up(usize),
    Down(usize),
    FinalNorm,
    LmHead,
    Gemm(usize),
    Bias(usize),
}


#[derive(Clone, Debug, PartialEq, Eq)]
pub struct Device {
    pub name: String,
    pub kind: DeviceKind,
    pub buffer_bytes: u64,
    pub code_bytes: u64,
}

impl View for Device {
    type V = Dev;

    open spec fn view(&self) -> Dev {
        Dev { name: self.name@, kind: self.kind, buffer: self.buffer_bytes as int, code: self.code_bytes as int }
    }
}

#[derive(Clone, Debug)]
pub struct Cluster {
    pub devices: Vec<Device>,
    /// Who can exchange a buffer with whom. `Cluster::devices` fills this
    /// from the device list: CPUs form a fabric, each GPU attaches to one
    /// CPU, and GPUs on the same CPU can also reach each other. A cluster
    /// with no CPU peers every GPU.
    pub links: Vec<Link>,
}

impl Cluster {
    pub open spec fn devs(self) -> Seq<Dev> {
        crate::theory::listing::views(self.devices@)
    }
}

impl Kernel {
    pub fn code_bytes(self) -> (r: u64)
        ensures
            r == crate::theory::plans::code_len(self),
    {
        match self {
            Kernel::CpuRuntime => CPU_RUNTIME_BYTES,
            _ => KERNEL_CODE_BYTES,
        }
    }

    pub fn name(self) -> (r: &'static str)
        ensures
            r@ == crate::theory::plans::kernel_name(self),
    {
        match self {
            Kernel::CpuRuntime => "cpu_runtime",
            Kernel::GemmFwd => "fwd_gemm",
            Kernel::GemmDx => "bwd_dx",
            Kernel::GemmDw => "bwd_dw",
            Kernel::GemmDb => "bwd_db",
            Kernel::ReluBwd => "bwd_relu",
            Kernel::Add => "add",
            Kernel::AttnFwd => "fwd_attn",
            Kernel::AttnBwd => "bwd_attn",
            Kernel::RmsNorm => "k_rmsnorm",
            Kernel::RmsNormBwd => "k_rmsnorm_bwd",
            Kernel::Linear => "k_linear",
            Kernel::LinearDx => "k_linear_dx",
            Kernel::LinearDw => "k_linear_dw",
            Kernel::Rope => "k_rope",
            Kernel::GqaFwd => "k_gqa_fwd",
            Kernel::GqaBwd => "k_gqa_bwd",
            Kernel::Router => "k_router",
            Kernel::RouterBwd => "k_router_bwd",
            Kernel::Silu => "k_silu_mul",
            Kernel::SiluBwd => "k_silu_bwd",
            Kernel::Embed => "k_embed",
            Kernel::EmbedBwd => "k_embed_bwd",
            Kernel::Ce => "k_ce",
            Kernel::Sgd => "k_sgd",
        }
    }
}

/// The number by which a program names what a hop carries.
pub open spec fn hop_number(k: HopKind) -> int {
    match k {
        HopKind::Param => 0,
        HopKind::Adjoint => 1,
        HopKind::Activation => 2,
    }
}

impl HopKind {
    pub fn code(self) -> (r: u8)
        ensures
            r == hop_number(self),
    {
        match self {
            HopKind::Param => 0,
            HopKind::Adjoint => 1,
            HopKind::Activation => 2,
        }
    }
}

/// The number by which a program names an operation.
pub open spec fn exec_number(e: Exec) -> int {
    match e {
        Exec::Embed => 1,
        Exec::RmsNorm => 2,
        Exec::Linear => 3,
        Exec::RopeQ => 4,
        Exec::RopeK => 5,
        Exec::Gqa => 6,
        Exec::AddAttn => 7,
        Exec::AddMoe => 8,
        Exec::Router => 9,
        Exec::Silu => 10,
        Exec::Mix => 11,
        Exec::Loss => 12,
        Exec::Sgd => 13,
    }
}

impl Exec {
    pub fn code(self) -> (r: u8)
        ensures
            r == exec_number(self),
    {
        match self {
            Exec::Embed => 1,
            Exec::RmsNorm => 2,
            Exec::Linear => 3,
            Exec::RopeQ => 4,
            Exec::RopeK => 5,
            Exec::Gqa => 6,
            Exec::AddAttn => 7,
            Exec::AddMoe => 8,
            Exec::Router => 9,
            Exec::Silu => 10,
            Exec::Mix => 11,
            Exec::Loss => 12,
            Exec::Sgd => 13,
        }
    }
}

/// A contiguous rectangle of a matrix, or a row-group of a tape, resident
/// on one device.
#[derive(Clone, Debug)]
pub struct Home {
    pub kind: HomeKind,
    pub name: String,
    pub device: usize,
    pub row_begin: u64,
    pub row_end: u64,
    pub col_begin: u64,
    pub col_end: u64,
    pub stride: u64,
}

impl View for Home {
    type V = Place;

    open spec fn view(&self) -> Place {
        Place {
            kind: self.kind,
            name: self.name@,
            device: self.device as int,
            row_begin: self.row_begin as int,
            row_end: self.row_end as int,
            col_begin: self.col_begin as int,
            col_end: self.col_end as int,
            stride: self.stride as int,
        }
    }
}

pub fn rectangle(row_begin: u64, row_end: u64, col_begin: u64, col_end: u64) -> (r: u64)
    ensures
        r == crate::theory::plans::area(row_begin as int, row_end as int, col_begin as int, col_end as int),
{
    let rows: u64 = if row_begin < row_end {
        row_end - row_begin
    } else {
        0
    };
    let cols: u64 = if col_begin < col_end {
        col_end - col_begin
    } else {
        0
    };
    proof {
        let m = u64::MAX as int;
        assert(0 <= rows * cols <= m * m) by (nonlinear_arith)
            requires 0 <= rows <= m, 0 <= cols <= m;
        assert(m * m <= u128::MAX) by (nonlinear_arith)
            requires m == u64::MAX;
    }
    let area: u128 = rows as u128 * cols as u128;
    if area > u64::MAX as u128 {
        u64::MAX
    } else {
        area as u64
    }
}

impl Home {
    /// The number of elements, as far as a word can count them.
    pub fn elems(&self) -> (r: u64)
        ensures
            r == crate::theory::plans::area(self@.row_begin, self@.row_end, self@.col_begin, self@.col_end),
    {
        rectangle(self.row_begin, self.row_end, self.col_begin, self.col_end)
    }

    pub fn bytes(&self) -> (r: u64)
        requires
            crate::theory::plans::held_bytes(self@) <= u64::MAX,
        ensures
            r == crate::theory::plans::held_bytes(self@),
    {
        let n: u64 = self.elems();
        match self.kind {
            HomeKind::Param => n * 4,
            HomeKind::Tape => n,
        }
    }
}

#[derive(Clone, Copy, Debug, PartialEq, Eq, Structural)]
pub struct Transfer {
    pub from: usize,
    pub to: usize,
    pub bytes: u64,
}

impl View for Transfer {
    type V = Move;

    open spec fn view(&self) -> Move {
        Move { from: self.from as int, to: self.to as int, bytes: self.bytes as int }
    }
}

/// One hop of a routed message. A longer route is a sequence of these.
#[derive(Clone, Copy, Debug, PartialEq, Eq, Structural)]
pub struct Hop {
    pub from: usize,
    pub to: usize,
    pub bytes: u64,
    pub kind: HopKind,
    pub offset: u64,
    pub elems: u64,
    pub row_begin: u64,
    pub row_end: u64,
    pub col_begin: u64,
    pub col_end: u64,
    pub stride: u64,
}

impl View for Hop {
    type V = Leg;

    open spec fn view(&self) -> Leg {
        Leg {
            from: self.from as int,
            to: self.to as int,
            bytes: self.bytes as int,
            kind: self.kind,
            offset: self.offset as int,
            elems: self.elems as int,
            row_begin: self.row_begin as int,
            row_end: self.row_end as int,
            col_begin: self.col_begin as int,
            col_end: self.col_end as int,
            stride: self.stride as int,
        }
    }
}

/// One tiled piece of work, run on `device`.
#[derive(Clone, Debug)]
pub struct Window {
    pub name: String,
    pub device: usize,
    pub code_phases: Vec<Vec<Kernel>>,
    /// Bytes resident on `device` for this window, including homes already
    /// stored there and the transient tape, activations, and adjoint tile.
    pub resident_bytes: u64,
    pub tape_bytes: u64,
    pub param_bytes: u64,
    pub pass: Pass,
    pub op: Exec,
    pub param_offset: u64,
    pub batch_begin: u64,
    pub batch_end: u64,
    pub row_begin: u64,
    pub row_end: u64,
    pub col_begin: u64,
    pub col_end: u64,
    pub din: u64,
    pub dout: u64,
    pub home: usize,
    pub layer: u32,
    pub expert: u32,
    /// Messages that deliver this window's inputs, in hop order.
    pub inbound: Vec<Hop>,
    /// Messages that carry its outputs back, in hop order.
    pub outbound: Vec<Hop>,
}

impl View for Window {
    type V = Win;

    open spec fn view(&self) -> Win {
        Win {
            name: self.name@,
            device: self.device as int,
            phases: crate::theory::listing::views(self.code_phases@),
            resident: self.resident_bytes as int,
            tape: self.tape_bytes as int,
            param: self.param_bytes as int,
            pass: self.pass,
            op: self.op,
            offset: self.param_offset as int,
            batch_begin: self.batch_begin as int,
            batch_end: self.batch_end as int,
            row_begin: self.row_begin as int,
            row_end: self.row_end as int,
            col_begin: self.col_begin as int,
            col_end: self.col_end as int,
            din: self.din as int,
            dout: self.dout as int,
            home: self.home as int,
            layer: self.layer as int,
            expert: self.expert as int,
            inbound: crate::theory::listing::views(self.inbound@),
            outbound: crate::theory::listing::views(self.outbound@),
        }
    }
}

/// The numbers of a list of words.
pub open spec fn amounts(s: Seq<u64>) -> Seq<int> {
    Seq::new(s.len(), |i: int| s[i] as int)
}

#[derive(Clone, Debug)]
pub struct StagePlan {
    pub homes: Vec<Home>,
    pub windows: Vec<Window>,
    pub transfers: Vec<Transfer>,
    pub peak_bytes: Vec<u64>,
}

impl View for StagePlan {
    type V = Plan;

    open spec fn view(&self) -> Plan {
        Plan {
            homes: crate::theory::listing::views(self.homes@),
            windows: crate::theory::listing::views(self.windows@),
            transfers: crate::theory::listing::views(self.transfers@),
            peak: amounts(self.peak_bytes@),
        }
    }
}

#[derive(Clone, Debug)]
pub struct Compiled {
    pub plan: StagePlan,
    pub gpu_kernels: Vec<Kernel>,
}

#[derive(Clone, Debug, PartialEq, Eq)]
pub enum StageError {
    NoDevice,
    ParamsExceedCluster { params: u64, capacity: u64 },
    TapeExceedsCluster { tape: u64, free: u64 },
    TileExceedsDevices { need: u64, largest: u64 },
    CodeExceedsDevices { kernel: &'static str, need: u64, largest: u64 },
    /// `bytes` must move from `from` to `to`, and every path has an
    /// intermediate whose free buffer is smaller than the message.
    RouteUnavailable { from: usize, to: usize, bytes: u64 },
}

impl View for StageError {
    type V = Fault;

    open spec fn view(&self) -> Fault {
        match *self {
            StageError::NoDevice => Fault::NoDevice,
            StageError::ParamsExceedCluster { params, capacity } => Fault::ParamsExceedCluster {
                params: params as int,
                capacity: capacity as int,
            },
            StageError::TapeExceedsCluster { tape, free } => Fault::TapeExceedsCluster { tape: tape as int, free: free as int },
            StageError::TileExceedsDevices { need, largest } => Fault::TileExceedsDevices {
                need: need as int,
                largest: largest as int,
            },
            StageError::CodeExceedsDevices { kernel, need, largest } => Fault::CodeExceedsDevices {
                kernel: kernel@,
                need: need as int,
                largest: largest as int,
            },
            StageError::RouteUnavailable { from, to, bytes } => Fault::RouteUnavailable {
                from: from as int,
                to: to as int,
                bytes: bytes as int,
            },
        }
    }
}

// ----- the fabric -----

/// The positions of the devices of one kind among the first `n`.
pub open spec fn of_kind(ds: Seq<Dev>, kind: DeviceKind, n: int) -> Seq<usize>
    decreases n,
{
    if n <= 0 {
        Seq::empty()
    } else if ds[n - 1].kind == kind {
        of_kind(ds, kind, n - 1).push((n - 1) as usize)
    } else {
        of_kind(ds, kind, n - 1)
    }
}

/// A link between each two of a group.
pub open spec fn peers(group: Seq<usize>) -> Seq<Link> {
    crate::theory::listing::cat(group.len() as int, |i: int| peers_of(group, i, group.len() as int))
}

/// The links of member `i` with the members after it, before member `n`.
pub open spec fn peers_of(group: Seq<usize>, i: int, n: int) -> Seq<Link> {
    if n <= i + 1 {
        Seq::empty()
    } else {
        Seq::new((n - 1 - i) as nat, |d: int| Link { a: group[i], b: group[i + 1 + d] })
    }
}

/// The GPUs among the first `n` that attach to host `h`.
pub open spec fn hosted(gpus: Seq<usize>, hosts: int, h: int, n: int) -> Seq<usize>
    decreases n,
{
    if n <= 0 {
        Seq::empty()
    } else if (n - 1) % hosts == h {
        hosted(gpus, hosts, h, n - 1).push(gpus[n - 1])
    } else {
        hosted(gpus, hosts, h, n - 1)
    }
}

/// The fabric implied by a device list.
pub open spec fn fabric(ds: Seq<Dev>) -> Seq<Link> {
    let cpus = of_kind(ds, DeviceKind::Cpu, ds.len() as int);
    let gpus = of_kind(ds, DeviceKind::Gpu, ds.len() as int);
    let hosts = cpus.len() as int;
    if hosts == 0 {
        peers(cpus) + peers(gpus)
    } else {
        peers(cpus) + Seq::new(gpus.len(), |i: int| Link { a: gpus[i], b: cpus[i % hosts] }) + crate::theory::listing::cat(
            hosts,
            |h: int| peers(hosted(gpus, hosts, h, gpus.len() as int)),
        )
    }
}

/// Each two of a group are peers.
proof fn lemma_peer_in(group: Seq<usize>, i: int, j: int)
    requires
        0 <= i < j < group.len(),
    ensures
        peers(group).contains(Link { a: group[i], b: group[j] }),
{
    let n = group.len() as int;
    let f = |i: int| peers_of(group, i, n);
    crate::theory::listing::lemma_cat(n, f);
    assert(f(i)[j - i - 1] == (Link { a: group[i], b: group[j] }));
    assert(f(i).contains(Link { a: group[i], b: group[j] }));
}

/// Peers are two of the group.
proof fn lemma_peer_out(group: Seq<usize>, l: Link) -> (r: (int, int))
    requires
        peers(group).contains(l),
    ensures
        0 <= r.0 < r.1 < group.len(),
        l == (Link { a: group[r.0], b: group[r.1] }),
{
    let n = group.len() as int;
    let f = |i: int| peers_of(group, i, n);
    crate::theory::listing::lemma_cat(n, f);
    let k = peers(group).index_of(l);
    assert(crate::theory::listing::cat(n, f)[k] == l);
    let i = choose|i: int| 0 <= i < n && (#[trigger] f(i)).contains(crate::theory::listing::cat(n, f)[k]);
    assert(f(i).contains(l));
    let d = f(i).index_of(l);
    assert(f(i)[d] == l);
    (i, i + 1 + d)
}

/// Where GPU number `k` stands among those of its host.
proof fn lemma_hosted_in(gpus: Seq<usize>, hosts: int, h: int, n: int, k: int) -> (p: int)
    requires
        0 <= k < n <= gpus.len(),
        k % hosts == h,
    ensures
        0 <= p < hosted(gpus, hosts, h, n).len(),
        hosted(gpus, hosts, h, n)[p] == gpus[k],
        forall|m: int| k < m <= n ==> p < (#[trigger] hosted(gpus, hosts, h, m)).len(),
        p == hosted(gpus, hosts, h, k).len(),
    decreases n,
{
    if k == n - 1 {
        hosted(gpus, hosts, h, k).len() as int
    } else {
        let p = lemma_hosted_in(gpus, hosts, h, n - 1, k);
        assert forall|m: int| k < m <= n implies p < (#[trigger] hosted(gpus, hosts, h, m)).len() by {
            if m == n {
                assert(p < hosted(gpus, hosts, h, n - 1).len());
            }
        }
        p
    }
}

/// Which GPU stands at position `p` among those of a host.
proof fn lemma_hosted_out(gpus: Seq<usize>, hosts: int, h: int, n: int, p: int) -> (k: int)
    requires
        0 <= n <= gpus.len(),
        0 <= p < hosted(gpus, hosts, h, n).len(),
    ensures
        0 <= k < n,
        k % hosts == h,
        hosted(gpus, hosts, h, n)[p] == gpus[k],
        hosted(gpus, hosts, h, k).len() == p,
    decreases n,
{
    if (n - 1) % hosts == h && p == hosted(gpus, hosts, h, n - 1).len() {
        n - 1
    } else {
        lemma_hosted_out(gpus, hosts, h, n - 1, p)
    }
}

proof fn lemma_hosted_grows(gpus: Seq<usize>, hosts: int, h: int, k: int, m: int)
    requires
        0 <= k <= m <= gpus.len(),
    ensures
        hosted(gpus, hosts, h, k).len() <= hosted(gpus, hosts, h, m).len(),
    decreases m,
{
    if k < m {
        lemma_hosted_grows(gpus, hosts, h, k, m - 1);
    }
}

/// One kind of link of a fabric with CPUs.
pub open spec fn fabric_link(cpus: Seq<usize>, gpus: Seq<usize>, l: Link) -> bool {
    ||| exists|i: int, j: int| 0 <= i < j < cpus.len() && l == (Link { a: #[trigger] cpus[i], b: #[trigger] cpus[j] })
    ||| exists|k: int| 0 <= k < gpus.len() && l == (Link { a: #[trigger] gpus[k], b: cpus[k % (cpus.len() as int)] })
    ||| exists|k: int, m: int|
        0 <= k < m < gpus.len() && k % (cpus.len() as int) == m % (cpus.len() as int) && l == (Link {
            a: #[trigger] gpus[k],
            b: #[trigger] gpus[m],
        })
}

/// The fabric of a list with CPUs links each two CPUs, each GPU with one CPU
/// in turn, and each two GPUs of the same CPU. It links nothing else.
pub proof fn law_fabric(ds: Seq<Dev>, l: Link)
    requires
        of_kind(ds, DeviceKind::Cpu, ds.len() as int).len() > 0,
    ensures
        fabric(ds).contains(l) <==> fabric_link(
            of_kind(ds, DeviceKind::Cpu, ds.len() as int),
            of_kind(ds, DeviceKind::Gpu, ds.len() as int),
            l,
        ),
{
    let cpus = of_kind(ds, DeviceKind::Cpu, ds.len() as int);
    let gpus = of_kind(ds, DeviceKind::Gpu, ds.len() as int);
    let hosts = cpus.len() as int;
    let n = gpus.len() as int;
    let f = |h: int| peers(hosted(gpus, hosts, h, n));
    let attach = Seq::new(gpus.len(), |i: int| Link { a: gpus[i], b: cpus[i % hosts] });
    let groups = crate::theory::listing::cat(hosts, f);
    let all = fabric(ds);
    assert(all == peers(cpus) + attach + groups);
    crate::theory::listing::lemma_cat(hosts, f);
    let a = peers(cpus).len() as int;
    let b = attach.len() as int;
    if all.contains(l) {
        let x = all.index_of(l);
        assert(all[x] == l);
        if x < a {
            assert(peers(cpus)[x] == l);
            let (i, j) = lemma_peer_out(cpus, l);
            assert(l == (Link { a: cpus[i], b: cpus[j] }));
        } else if x < a + b {
            assert(attach[x - a] == l);
            assert(l == (Link { a: gpus[x - a], b: cpus[(x - a) % hosts] }));
        } else {
            let y = x - a - b;
            assert(groups[y] == l);
            let h = choose|h: int| 0 <= h < hosts && (#[trigger] f(h)).contains(groups[y]);
            let g = hosted(gpus, hosts, h, n);
            assert(f(h).contains(l));
            let (p, q) = lemma_peer_out(g, l);
            let k = lemma_hosted_out(gpus, hosts, h, n, p);
            let m = lemma_hosted_out(gpus, hosts, h, n, q);
            if m <= k {
                lemma_hosted_grows(gpus, hosts, h, m, k);
            }
            assert(l == (Link { a: gpus[k], b: gpus[m] }));
        }
    }
    if exists|i: int, j: int| 0 <= i < j < cpus.len() && l == (Link { a: #[trigger] cpus[i], b: #[trigger] cpus[j] }) {
        let (i, j) = choose|i: int, j: int|
            0 <= i < j < cpus.len() && l == (Link { a: #[trigger] cpus[i], b: #[trigger] cpus[j] });
        lemma_peer_in(cpus, i, j);
        let x = peers(cpus).index_of(l);
        assert(peers(cpus)[x] == l);
        assert(all[x] == l);
    }
    if exists|k: int| 0 <= k < gpus.len() && l == (Link { a: #[trigger] gpus[k], b: cpus[k % hosts] }) {
        let k = choose|k: int| 0 <= k < gpus.len() && l == (Link { a: #[trigger] gpus[k], b: cpus[k % hosts] });
        assert(attach[k] == l);
        assert(all[a + k] == l);
    }
    if exists|k: int, m: int|
        0 <= k < m < gpus.len() && k % hosts == m % hosts && l == (Link { a: #[trigger] gpus[k], b: #[trigger] gpus[m] }) {
        let (k, m) = choose|k: int, m: int|
            0 <= k < m < gpus.len() && k % hosts == m % hosts && l == (Link { a: #[trigger] gpus[k], b: #[trigger] gpus[m] });
        let h = k % hosts;
        assert(0 <= h < hosts) by (nonlinear_arith)
            requires h == k % hosts, hosts > 0;
        let g = hosted(gpus, hosts, h, n);
        let p = lemma_hosted_in(gpus, hosts, h, n, k);
        let q = lemma_hosted_in(gpus, hosts, h, n, m);
        assert(p < hosted(gpus, hosts, h, m).len());
        lemma_peer_in(g, p, q);
        assert(f(h).contains(l));
        let y = groups.index_of(l);
        assert(groups[y] == l);
        assert(all[a + b + y] == l);
    }
}

fn connect_all(links: &mut Vec<Link>, group: &Vec<usize>)
    ensures
        final(links)@ == old(links)@ + peers(group@),
{
    let ghost start = links@;
    let ghost f = |i: int| peers_of(group@, i, group@.len() as int);
    let n: usize = group.len();
    let mut i: usize = 0;
    assert(links@ =~= start + crate::theory::listing::cat(0, f));
    while i < n
        invariant
            i <= n,
            n == group@.len(),
            f == (|i: int| peers_of(group@, i, group@.len() as int)),
            links@ == start + crate::theory::listing::cat(i as int, f),
        decreases n - i,
    {
        let ghost before = links@;
        let mut j: usize = i + 1;
        assert(links@ =~= before + peers_of(group@, i as int, j as int));
        while j < n
            invariant
                i < n,
                i + 1 <= j <= n,
                n == group@.len(),
                links@ == before + peers_of(group@, i as int, j as int),
            decreases n - j,
        {
            links.push(Link { a: group[i], b: group[j] });
            assert(links@ =~= before + peers_of(group@, i as int, j + 1));
            j = j + 1;
        }
        assert(links@ =~= start + crate::theory::listing::cat(i + 1, f));
        i = i + 1;
    }
}

/// The fabric implied by a device list.
pub fn derive_links(devices: &[Device]) -> (r: Vec<Link>)
    ensures
        r@ == fabric(crate::theory::listing::views(devices@)),
{
    let ghost ds = crate::theory::listing::views(devices@);
    let n: usize = devices.len();
    let mut cpus: Vec<usize> = Vec::new();
    let mut gpus: Vec<usize> = Vec::new();
    let mut i: usize = 0;
    while i < n
        invariant
            i <= n,
            n == devices@.len(),
            ds == crate::theory::listing::views(devices@),
            cpus@ == of_kind(ds, DeviceKind::Cpu, i as int),
            gpus@ == of_kind(ds, DeviceKind::Gpu, i as int),
        decreases n - i,
    {
        assert(ds[i as int] == devices@[i as int]@);
        if devices[i].kind == DeviceKind::Cpu {
            cpus.push(i);
        } else {
            gpus.push(i);
        }
        i = i + 1;
    }
    let mut links: Vec<Link> = Vec::new();
    connect_all(&mut links, &cpus);
    assert(links@ =~= peers(cpus@));
    if cpus.len() == 0 {
        connect_all(&mut links, &gpus);
        return links;
    }
    let hosts: usize = cpus.len();
    let ghost own = links@;
    let ghost attach = Seq::new(gpus@.len(), |i: int| Link { a: gpus@[i], b: cpus@[i % (hosts as int)] });
    let mut g: usize = 0;
    assert(links@ =~= own + attach.take(0));
    while g < gpus.len()
        invariant
            g <= gpus@.len(),
            hosts == cpus@.len(),
            hosts > 0,
            attach == Seq::new(gpus@.len(), |i: int| Link { a: gpus@[i], b: cpus@[i % (hosts as int)] }),
            links@ == own + attach.take(g as int),
        decreases gpus.len() - g,
    {
        links.push(Link { a: gpus[g], b: cpus[g % hosts] });
        assert(links@ =~= own + attach.take(g + 1));
        g = g + 1;
    }
    let ghost f = |h: int| peers(hosted(gpus@, hosts as int, h, gpus@.len() as int));
    let mut h: usize = 0;
    assert(attach.take(g as int) =~= attach);
    assert(links@ =~= own + attach + crate::theory::listing::cat(0, f));
    while h < hosts
        invariant
            h <= hosts,
            hosts > 0,
            f == (|h: int| peers(hosted(gpus@, hosts as int, h, gpus@.len() as int))),
            links@ == own + attach + crate::theory::listing::cat(h as int, f),
        decreases hosts - h,
    {
        let group = on_host(&gpus, hosts, h);
        connect_all(&mut links, &group);
        assert(links@ =~= own + attach + crate::theory::listing::cat(h + 1, f));
        h = h + 1;
    }
    links
}

fn on_host(gpus: &Vec<usize>, hosts: usize, h: usize) -> (r: Vec<usize>)
    requires
        hosts > 0,
    ensures
        r@ == hosted(gpus@, hosts as int, h as int, gpus@.len() as int),
{
    let mut r: Vec<usize> = Vec::new();
    let mut i: usize = 0;
    while i < gpus.len()
        invariant
            i <= gpus@.len(),
            hosts > 0,
            r@ == hosted(gpus@, hosts as int, h as int, i as int),
        decreases gpus.len() - i,
    {
        if i % hosts == h {
            r.push(gpus[i]);
        }
        i = i + 1;
    }
    r
}

impl Cluster {
    pub fn devices(devices: Vec<Device>) -> (r: Cluster)
        ensures
            r.devices == devices,
            r.links@ == fabric(r.devs()),
    {
        let links = derive_links(devices.as_slice());
        Cluster { devices, links }
    }

    /// Stage on an explicit fabric. The compiler still chooses the routes.
    pub fn linked(devices: Vec<Device>, links: Vec<Link>) -> (r: Cluster)
        ensures
            r.devices == devices,
            r.links == links,
    {
        Cluster { devices, links }
    }
}

// ----- routes -----

pub open spec fn entries(s: Seq<(usize, usize)>) -> Seq<Entry> {
    Seq::new(s.len(), |i: int| Entry { node: s[i].0 as int, parent: s[i].1 as int })
}

pub open spec fn stops(s: Seq<usize>) -> Seq<int> {
    Seq::new(s.len(), |i: int| s[i] as int)
}

fn neighbors(links: &[Link], n: usize, x: usize) -> (r: Vec<usize>)
    ensures
        stops(r@) == crate::theory::routes::neighbors(links@, n as int, x as int, links@.len() as int),
{
    let mut r: Vec<usize> = Vec::new();
    let mut i: usize = 0;
    assert(stops(r@) =~= Seq::<int>::empty());
    while i < links.len()
        invariant
            i <= links@.len(),
            stops(r@) == crate::theory::routes::neighbors(links@, n as int, x as int, i as int),
        decreases links.len() - i,
    {
        let link: Link = links[i];
        let ghost before = r@;
        if link.a < n && link.b < n && link.a != link.b {
            if link.a == x {
                r.push(link.b);
                assert(stops(r@) =~= stops(before).push(link.b as int));
            } else if link.b == x {
                r.push(link.a);
                assert(stops(r@) =~= stops(before).push(link.a as int));
            }
        }
        i = i + 1;
    }
    r
}

/// The list of positions says where each node was reached.
spec fn reflects(place: Seq<Option<usize>>, order: Seq<Entry>, n: int) -> bool {
    &&& place.len() == n
    &&& forall|v: int|
        0 <= v < n ==> match #[trigger] place[v] {
            Some(i) => i < order.len() && order[i as int].node == v,
            None => !crate::theory::routes::seen(order, v),
        }
}

fn trace_back(order: &Vec<(usize, usize)>, i: usize) -> (r: Vec<usize>)
    requires
        i < order@.len(),
        forall|k: int| 0 < k < order@.len() ==> (#[trigger] order@[k]).1 < k,
    ensures
        stops(r@) == crate::theory::routes::trace(entries(order@), i as int),
    decreases i,
{
    let node: usize = order[i].0;
    if i == 0 {
        let r: Vec<usize> = vec![node];
        assert(stops(r@) =~= seq![node as int]);
        return r;
    }
    let parent: usize = order[i].1;
    let mut r = trace_back(order, parent);
    let ghost before = r@;
    r.push(node);
    assert(stops(r@) =~= stops(before).push(node as int));
    r
}

/// Shortest path whose intermediate devices have `free` bytes available.
pub fn route_message(links: &[Link], free: &[u64], from: usize, to: usize, bytes: u64) -> (r: Result<Vec<usize>, StageError>)
    ensures
        ({
            let t = Trip {
                links: links@,
                free: amounts(free@),
                from: from as int,
                to: to as int,
                bytes: bytes as int,
            };
            match r {
                Ok(p) => t.route() == Some(stops(p@)),
                Err(e) => t.route() is None && e@ == (Fault::RouteUnavailable {
                    from: from as int,
                    to: to as int,
                    bytes: bytes as int,
                }),
            }
        }),
{
    let ghost t = Trip { links: links@, free: amounts(free@), from: from as int, to: to as int, bytes: bytes as int };
    if from == to || bytes == 0 {
        let p: Vec<usize> = vec![from];
        assert(stops(p@) =~= seq![from as int]);
        return Ok(p);
    }
    let n: usize = free.len();
    if from >= n || to >= n {
        return Err(StageError::RouteUnavailable { from, to, bytes });
    }
    let mut place: Vec<Option<usize>> = Vec::new();
    let mut v: usize = 0;
    while v < n
        invariant
            v <= n,
            place@.len() == v,
            forall|k: int| 0 <= k < v ==> (#[trigger] place@[k]) is None,
        decreases n - v,
    {
        place.push(None);
        v = v + 1;
    }
    let mut order: Vec<(usize, usize)> = vec![(from, 0usize)];
    place.set(from, Some(0));
    let mut head: usize = 0;
    proof {
        assert(entries(order@) =~= seq![Entry { node: from as int, parent: 0 }]);
        crate::theory::routes::lemma_start(t);
        crate::theory::routes::lemma_distinct(t, entries(order@), 0);
        assert(reflects(place@, entries(order@), n as int));
    }
    while head < order.len() && order[head].0 != to
        invariant
            t == (Trip { links: links@, free: amounts(free@), from: from as int, to: to as int, bytes: bytes as int }),
            n == free@.len(),
            from < n,
            to < n,
            head <= order@.len() <= n,
            t.sound(entries(order@), head as int),
            t.closed_below(entries(order@), head as int),
            t.run(entries(order@), head as int) == t.search(),
            reflects(place@, entries(order@), n as int),
        decreases n - head,
    {
        let ghost before = entries(order@);
        let node: usize = order[head].0;
        let ns = neighbors(links, n, node);
        assert(before[head as int].node == node);
        assert(stops(ns@) == t.around(node as int));
        let mut k: usize = 0;
        proof {
            crate::theory::routes::lemma_neighbors(t.links, t.nodes(), node as int, t.links.len() as int);
            assert forall|j: int| 0 <= j < ns@.len() implies 0 <= #[trigger] ns@[j] < n by {
                assert(stops(ns@)[j] == ns@[j]);
                assert(0 <= t.around(node as int)[j] < n);
            }
        }
        while k < ns.len()
            invariant
                t == (Trip { links: links@, free: amounts(free@), from: from as int, to: to as int, bytes: bytes as int }),
                n == free@.len(),
                to < n,
                head < before.len() <= n,
                before[head as int].node == node,
                k <= ns@.len(),
                stops(ns@) == t.around(node as int),
                forall|j: int| 0 <= j < ns@.len() ==> 0 <= #[trigger] ns@[j] < n,
                entries(order@) == t.visit(before, head as int, k as int),
                reflects(place@, entries(order@), n as int),
            decreases ns.len() - k,
        {
            let next: usize = ns[k];
            assert(stops(ns@)[k as int] == next);
            assert(t.free[next as int] == free@[next as int]);
            let ghost mid = entries(order@);
            let fresh = match place[next] {
                Some(at) => {
                    assert(crate::theory::routes::seen(mid, next as int)) by {
                        assert(mid[at as int].node == next);
                    }
                    false
                },
                None => next == to || free[next] >= bytes,
            };
            if fresh {
                let at: usize = order.len();
                order.push((next, head));
                place.set(next, Some(at));
                proof {
                    let now = entries(order@);
                    assert(now =~= mid.push(Entry { node: next as int, parent: head as int }));
                    assert forall|v: int| 0 <= v < n implies match #[trigger] place@[v] {
                        Some(i) => i < now.len() && now[i as int].node == v,
                        None => !crate::theory::routes::seen(now, v),
                    } by {
                        if v != next && place@[v] is None {
                            assert(!crate::theory::routes::seen(mid, v));
                            assert forall|i: int| 0 <= i < now.len() implies (#[trigger] now[i]).node != v by {
                                if i < mid.len() {
                                    assert(now[i] == mid[i]);
                                }
                            }
                        }
                    }
                }
            }
            k = k + 1;
        }
        proof {
            crate::theory::routes::lemma_step(t, before, head as int);
            crate::theory::routes::lemma_distinct(t, entries(order@), head + 1);
        }
        head = head + 1;
    }
    let ghost end = entries(order@);
    assert(end == t.search());
    match place[to] {
        None => Err(StageError::RouteUnavailable { from, to, bytes }),
        Some(i) => {
            proof {
                assert(end[i as int].node == to);
                assert(crate::theory::routes::seen(end, to as int));
                let q = crate::theory::routes::position(end, to as int);
                assert(end[q].node == to);
                assert(q == i) by {
                    if q < i {
                        assert(end[q].node != end[i as int].node);
                    } else if i < q {
                        assert(end[i as int].node != end[q].node);
                    }
                }
                assert forall|k: int| 0 < k < order@.len() implies (#[trigger] order@[k]).1 < k by {
                    assert(end[k].parent < k);
                }
            }
            Ok(trace_back(&order, i))
        },
    }
}


// ----- compiled plans -----

/// Stage `cfg` at `batch` by `seq` and record the kernels each GPU must load.
pub fn compile_mixtral(cfg: &MixtralConfig, batch: u64, seq: u64, cluster: &Cluster) -> (r: Result<Compiled, StageError>)
    requires
        crate::schedule::model_stageable(*cfg, batch as int, seq as int, cluster.devs()),
    ensures
        ({
            let want = crate::theory::plans::mixtral_plan(*cfg, batch as int, seq as int, cluster.devs(), cluster.links@);
            match r {
                Ok(c) => {
                    &&& want == Ok::<Plan, Fault>(c.plan@)
                    &&& c.gpu_kernels@ == crate::theory::plans::gpu_kernels(c.plan@.windows, c.plan@.windows.len() as int)
                },
                Err(e) => want == Err::<Plan, Fault>(e@),
            }
        }),
{
    match stage_mixtral(cfg, batch, seq, cluster) {
        Ok(plan) => Ok(finish(plan)),
        Err(e) => Err(e),
    }
}

/// Stage a [`Program`]. Its tape stays resident for the whole schedule
/// because a skip reads an earlier save.
pub fn compile_program(prog: &Program, cluster: &Cluster) -> (r: Result<Compiled, StageError>)
    requires
        crate::schedule::program_stageable_on(prog.stages@, prog.tape_f32 as int, prog.tape_u8 as int, cluster.devs()),
    ensures
        ({
            let want = crate::theory::plans::program_plan(
                prog.stages@,
                prog.tape_f32 * 4 + prog.tape_u8,
                cluster.devs(),
                cluster.links@,
            );
            match r {
                Ok(c) => {
                    &&& want == Ok::<Plan, Fault>(c.plan@)
                    &&& c.gpu_kernels@ == crate::theory::plans::gpu_kernels(c.plan@.windows, c.plan@.windows.len() as int)
                },
                Err(e) => want == Err::<Plan, Fault>(e@),
            }
        }),
{
    match stage_program(prog, cluster) {
        Ok(plan) => Ok(finish(plan)),
        Err(e) => Err(e),
    }
}

fn has_kernel(ks: &Vec<Kernel>, k: Kernel) -> (r: bool)
    ensures
        r == ks@.contains(k),
{
    let mut i: usize = 0;
    while i < ks.len()
        invariant
            i <= ks@.len(),
            forall|j: int| 0 <= j < i ==> #[trigger] ks@[j] != k,
        decreases ks.len() - i,
    {
        if ks[i] == k {
            assert(ks@[i as int] == k);
            return true;
        }
        i = i + 1;
    }
    false
}

/// The plan with the GPU kernels that it loads, each once.
fn finish(plan: StagePlan) -> (r: Compiled)
    ensures
        r.plan == plan,
        r.gpu_kernels@ == crate::theory::plans::gpu_kernels(plan@.windows, plan@.windows.len() as int),
{
    let ghost ws = plan@.windows;
    let mut ks: Vec<Kernel> = Vec::new();
    let mut i: usize = 0;
    while i < plan.windows.len()
        invariant
            i <= plan.windows@.len(),
            ws == plan@.windows,
            ks@ == crate::theory::plans::gpu_kernels(ws, i as int),
        decreases plan.windows.len() - i,
    {
        let phases: &Vec<Vec<Kernel>> = &plan.windows[i].code_phases;
        let ghost before = ks@;
        let ghost ps = ws[i as int].phases;
        assert(ps == crate::theory::listing::views(phases@));
        let mut p: usize = 0;
        while p < phases.len()
            invariant
                p <= phases@.len(),
                ps == crate::theory::listing::views(phases@),
                ks@ == crate::theory::plans::noted_phases(before, ps, p as int),
            decreases phases.len() - p,
        {
            let phase: &Vec<Kernel> = &phases[p];
            let ghost mid = ks@;
            assert(ps[p as int] == phase@);
            let mut k: usize = 0;
            while k < phase.len()
                invariant
                    k <= phase@.len(),
                    ks@ == crate::theory::plans::noted_phase(mid, phase@, k as int),
                decreases phase.len() - k,
            {
                let kernel: Kernel = phase[k];
                if kernel != Kernel::CpuRuntime && !has_kernel(&ks, kernel) {
                    ks.push(kernel);
                }
                k = k + 1;
            }
            p = p + 1;
        }
        i = i + 1;
    }
    Compiled { plan, gpu_kernels: ks }
}

/// The homes on a device and its peak stay in its buffer.
pub open spec fn device_clear(p: Plan, ds: Seq<Dev>, i: int) -> bool {
    &&& crate::theory::plan_laws::stored(p.homes, i) <= ds[i].buffer
    &&& i < p.peak.len() ==> p.peak[i] <= ds[i].buffer
}

/// The device of a window has the buffer and the code for it.
pub open spec fn window_clear(p: Plan, ds: Seq<Dev>, i: int) -> bool {
    crate::theory::plan_laws::window_fault(p.windows[i], ds[p.windows[i].device]) is None
}

/// A window names a device of the cluster, and the code that it loads there
/// is a number that a word holds.
pub open spec fn window_readable(w: Win, ds: Seq<Dev>) -> bool {
    &&& 0 <= w.device < ds.len()
    &&& w.resident <= ds[w.device].buffer ==> forall|k: int|
        0 <= k < w.phases.len() ==> crate::theory::plans::load(#[trigger] w.phases[k]) <= u64::MAX
}

/// As far as the check of a plan goes, it adds numbers that words hold, and
/// the windows name devices of the cluster. It stops at the first fault.
pub open spec fn checkable(p: Plan, ds: Seq<Dev>, elems: int) -> bool {
    &&& crate::theory::plan_laws::param_elems(p.homes) <= u64::MAX
    &&& crate::theory::plan_laws::param_elems(p.homes) == elems ==> {
        &&& forall|i: int|
            0 <= i < ds.len() && (forall|j: int| 0 <= j < i ==> #[trigger] device_clear(p, ds, j))
                ==> #[trigger] crate::theory::plan_laws::stored(p.homes, i) <= u64::MAX
        &&& (forall|j: int| 0 <= j < ds.len() ==> #[trigger] device_clear(p, ds, j)) ==> forall|i: int|
            0 <= i < p.windows.len() && (forall|j: int| 0 <= j < i ==> #[trigger] window_clear(p, ds, j))
                ==> window_readable(#[trigger] p.windows[i], ds)
    }
}

/// A plan that a cluster can carry out can be checked.
pub proof fn law_good_plans_are_checkable(p: Plan, ds: Seq<Dev>, links: Seq<Link>, elems: int)
    requires
        crate::theory::plan_laws::good_devices(ds),
        crate::theory::plan_laws::good_plan(p, ds, links),
        crate::theory::plan_laws::param_elems(p.homes) <= u64::MAX,
    ensures
        checkable(p, ds, elems),
{
    assert forall|i: int| 0 <= i < p.windows.len() implies window_readable(#[trigger] p.windows[i], ds) by {
        assert(crate::theory::plan_laws::good_window(p.windows[i], ds, links));
        assert(ds[p.windows[i].device].code <= u64::MAX);
    }
}

fn message(template: &str, args: &Vec<String>) -> (r: String)
    ensures
        r@ == text::filled(template@, text::texts(args@)),
{
    let mut out = String::new();
    text::push_filled(&mut out, template, args.as_slice());
    assert(out@ =~= text::filled(template@, text::texts(args@)));
    out
}

proof fn lemma_take_home(homes: Seq<Place>, k: int, d: int)
    requires
        0 <= k < homes.len(),
    ensures
        crate::theory::plan_laws::stored(homes.take(k + 1), d) == crate::theory::plan_laws::stored(homes.take(k), d) + if homes[k].device
            == d {
            crate::theory::plans::held_bytes(homes[k])
        } else {
            0
        },
        crate::theory::plan_laws::param_elems(homes.take(k + 1)) == crate::theory::plan_laws::param_elems(homes.take(k))
            + if homes[k].kind == HomeKind::Param {
            crate::theory::plans::area(homes[k].row_begin, homes[k].row_end, homes[k].col_begin, homes[k].col_end)
        } else {
            0
        },
{
    assert(homes.take(k + 1).drop_last() =~= homes.take(k));
}

/// What the first homes hold is no more than what all of them hold.
proof fn lemma_take_less(homes: Seq<Place>, k: int, d: int)
    requires
        0 <= k <= homes.len(),
    ensures
        0 <= crate::theory::plan_laws::stored(homes.take(k), d) <= crate::theory::plan_laws::stored(homes, d),
        0 <= crate::theory::plan_laws::param_elems(homes.take(k)) <= crate::theory::plan_laws::param_elems(homes),
    decreases homes.len() - k,
{
    if k == homes.len() {
        assert(homes.take(k) =~= homes);
        lemma_held_nonneg(homes, d);
    } else {
        lemma_take_less(homes, k + 1, d);
        lemma_take_home(homes, k, d);
        lemma_area_nonneg(homes[k]);
        lemma_held_nonneg(homes.take(k), d);
    }
}

proof fn lemma_area_nonneg(h: Place)
    ensures
        0 <= crate::theory::plans::area(h.row_begin, h.row_end, h.col_begin, h.col_end),
        0 <= crate::theory::plans::held_bytes(h),
{
    let a = crate::theory::plans::most(h.row_end - h.row_begin, 0);
    let b = crate::theory::plans::most(h.col_end - h.col_begin, 0);
    assert(0 <= a * b) by (nonlinear_arith)
        requires 0 <= a, 0 <= b;
}

proof fn lemma_held_nonneg(homes: Seq<Place>, d: int)
    ensures
        0 <= crate::theory::plan_laws::stored(homes, d),
        0 <= crate::theory::plan_laws::param_elems(homes),
    decreases homes.len(),
{
    if homes.len() > 0 {
        lemma_held_nonneg(homes.drop_last(), d);
        lemma_area_nonneg(homes.last());
    }
}

fn code_load(phase: &Vec<Kernel>) -> (r: u64)
    requires
        crate::theory::plans::load(phase@) <= u64::MAX,
    ensures
        r == crate::theory::plans::load(phase@),
{
    let ghost ks = phase@;
    let mut sum: u64 = 0;
    let mut i: usize = 0;
    assert(ks.take(0) =~= Seq::<Kernel>::empty());
    while i < phase.len()
        invariant
            i <= ks.len(),
            ks == phase@,
            crate::theory::plans::load(ks) <= u64::MAX,
            sum == crate::theory::plans::load(ks.take(i as int)),
        decreases phase.len() - i,
    {
        proof {
            assert(ks.take(i + 1) =~= ks.take(i as int).push(ks[i as int]));
            crate::theory::plan_laws::lemma_load_push(ks.take(i as int), ks[i as int]);
            lemma_load_part(ks, i + 1);
        }
        sum = sum + phase[i].code_bytes();
        i = i + 1;
    }
    assert(ks.take(i as int) =~= ks);
    sum
}

proof fn lemma_load_part(ks: Seq<Kernel>, k: int)
    requires
        0 <= k <= ks.len(),
    ensures
        crate::theory::plans::load(ks.take(k)) <= crate::theory::plans::load(ks),
    decreases ks.len() - k,
{
    if k == ks.len() {
        assert(ks.take(k) =~= ks);
    } else {
        lemma_load_part(ks, k + 1);
        assert(ks.take(k + 1) =~= ks.take(k).push(ks[k]));
        crate::theory::plan_laws::lemma_load_push(ks.take(k), ks[k]);
    }
}

impl StagePlan {
    /// The elements of the parameter homes.
    pub fn param_elems(&self) -> (r: u64)
        requires
            crate::theory::plan_laws::param_elems(self@.homes) <= u64::MAX,
        ensures
            r == crate::theory::plan_laws::param_elems(self@.homes),
    {
        let ghost homes = self@.homes;
        let mut sum: u64 = 0;
        let mut k: usize = 0;
        assert(homes.take(0) =~= Seq::<Place>::empty());
        while k < self.homes.len()
            invariant
                k <= homes.len(),
                homes == self@.homes,
                crate::theory::plan_laws::param_elems(homes) <= u64::MAX,
                sum == crate::theory::plan_laws::param_elems(homes.take(k as int)),
            decreases self.homes.len() - k,
        {
            proof {
                lemma_take_home(homes, k as int, 0);
                lemma_take_less(homes, k + 1, 0);
                assert(homes[k as int] == self.homes@[k as int]@);
            }
            if self.homes[k].kind == HomeKind::Param {
                sum = sum + self.homes[k].elems();
            }
            k = k + 1;
        }
        assert(homes.take(k as int) =~= homes);
        sum
    }

    /// The bytes that the homes on a device hold.
    fn stored(&self, d: usize) -> (r: u64)
        requires
            crate::theory::plan_laws::stored(self@.homes, d as int) <= u64::MAX,
        ensures
            r == crate::theory::plan_laws::stored(self@.homes, d as int),
    {
        let ghost homes = self@.homes;
        let mut sum: u64 = 0;
        let mut k: usize = 0;
        assert(homes.take(0) =~= Seq::<Place>::empty());
        while k < self.homes.len()
            invariant
                k <= homes.len(),
                homes == self@.homes,
                crate::theory::plan_laws::stored(homes, d as int) <= u64::MAX,
                sum == crate::theory::plan_laws::stored(homes.take(k as int), d as int),
            decreases self.homes.len() - k,
        {
            proof {
                lemma_take_home(homes, k as int, d as int);
                lemma_take_less(homes, k + 1, d as int);
                assert(homes[k as int] == self.homes@[k as int]@);
                lemma_take_less(homes, k as int, d as int);
            }
            if self.homes[k].device == d {
                sum = sum + self.homes[k].bytes();
            }
            k = k + 1;
        }
        assert(homes.take(k as int) =~= homes);
        sum
    }

    fn device_fault(&self, cluster: &Cluster, i: usize) -> (r: Option<String>)
        requires
            i < cluster.devices@.len(),
            crate::theory::plan_laws::stored(self@.homes, i as int) <= u64::MAX,
        ensures
            r is None ==> device_clear(self@, cluster.devs(), i as int),
            ({
                let rest = crate::theory::plan_laws::device_fault(self@, cluster.devs(), i + 1);
                crate::theory::plan_laws::device_fault(self@, cluster.devs(), i as int) == match r {
                    Some(e) => Some(e@),
                    None => rest,
                }
            }),
    {
        let ghost ds = cluster.devs();
        let dev: &Device = &cluster.devices[i];
        assert(ds[i as int] == dev@);
        let stored: u64 = self.stored(i);
        if stored > dev.buffer_bytes {
            let args: Vec<String> = vec![dev.name.clone(), text::decimal(stored), text::decimal(dev.buffer_bytes)];
            assert(text::texts(args@) =~= seq![dev@.name, text::dec(stored as int), text::dec(dev@.buffer)]);
            return Some(message("$a stores $b bytes with a buffer of $c", &args));
        }
        let peak: u64 = if i < self.peak_bytes.len() {
            self.peak_bytes[i]
        } else {
            0
        };
        if peak > dev.buffer_bytes {
            let args: Vec<String> = vec![dev.name.clone(), text::decimal(peak), text::decimal(dev.buffer_bytes)];
            assert(text::texts(args@) =~= seq![dev@.name, text::dec(peak as int), text::dec(dev@.buffer)]);
            return Some(message("$a peaks at $b bytes with a buffer of $c", &args));
        }
        None
    }

    fn window_fault(&self, cluster: &Cluster, i: usize) -> (r: Option<String>)
        requires
            i < self.windows@.len(),
            window_readable(self@.windows[i as int], cluster.devs()),
        ensures
            crate::theory::plan_laws::window_fault(self@.windows[i as int], cluster.devs()[self@.windows[i as int].device])
                == match r {
                Some(e) => Some(e@),
                None => None::<Seq<char>>,
            },
    {
        let ghost ds = cluster.devs();
        let w: &Window = &self.windows[i];
        let ghost wv = self@.windows[i as int];
        assert(wv == w@);
        let dev: &Device = &cluster.devices[w.device];
        assert(ds[wv.device] == dev@);
        if w.resident_bytes > dev.buffer_bytes {
            let args: Vec<String> = vec![w.name.clone(), text::decimal(w.resident_bytes), dev.name.clone()];
            assert(text::texts(args@) =~= seq![wv.name, text::dec(wv.resident), dev@.name]);
            return Some(message("window $a uses $b bytes on $c", &args));
        }
        let mut k: usize = 0;
        while k < w.code_phases.len()
            invariant
                k <= w.code_phases@.len(),
                i < self.windows@.len(),
                wv == self@.windows[i as int],
                wv == w@,
                dev@ == cluster.devs()[wv.device],
                window_readable(wv, cluster.devs()),
                wv.resident <= dev@.buffer,
                crate::theory::plan_laws::phase_fault(wv, dev@, 0) == crate::theory::plan_laws::phase_fault(wv, dev@, k as int),
            decreases w.code_phases.len() - k,
        {
            assert(wv.phases[k as int] == w.code_phases@[k as int]@);
            assert(crate::theory::plans::load(wv.phases[k as int]) <= u64::MAX);
            let code: u64 = code_load(&w.code_phases[k]);
            if code > dev.code_bytes {
                let args: Vec<String> = vec![w.name.clone(), text::decimal(code), dev.name.clone()];
                assert(text::texts(args@) =~= seq![wv.name, text::dec(code as int), dev@.name]);
                return Some(message("window $a loads $b code bytes on $c", &args));
            }
            k = k + 1;
        }
        None
    }

    /// Whether a cluster can carry out the plan for a model of so many
    /// parameters, and what is wrong where it cannot.
    pub fn check(&self, cluster: &Cluster, param_elems: u64) -> (r: Result<(), String>)
        requires
            checkable(self@, cluster.devs(), param_elems as int),
        ensures
            crate::theory::plan_laws::plan_fault(self@, cluster.devs(), param_elems as int) == match r {
                Ok(u) => None::<Seq<char>>,
                Err(e) => Some(e@),
            },
    {
        let ghost p = self@;
        let ghost ds = cluster.devs();
        let covered: u64 = self.param_elems();
        if covered != param_elems {
            let args: Vec<String> = vec![text::decimal(covered), text::decimal(param_elems)];
            assert(text::texts(args@) =~= seq![text::dec(covered as int), text::dec(param_elems as int)]);
            return Err(message("parameter homes cover $a elements, model has $b", &args));
        }
        let mut i: usize = 0;
        while i < cluster.devices.len()
            invariant
                i <= cluster.devices@.len(),
                p == self@,
                ds == cluster.devs(),
                checkable(p, ds, param_elems as int),
                crate::theory::plan_laws::param_elems(p.homes) == param_elems,
                forall|j: int| 0 <= j < i ==> #[trigger] device_clear(p, ds, j),
                crate::theory::plan_laws::device_fault(p, ds, 0) == crate::theory::plan_laws::device_fault(p, ds, i as int),
            decreases cluster.devices.len() - i,
        {
            assert(crate::theory::plan_laws::stored(p.homes, i as int) <= u64::MAX);
            match self.device_fault(cluster, i) {
                Some(e) => {
                    return Err(e);
                },
                None => {},
            }
            i = i + 1;
        }
        let mut k: usize = 0;
        while k < self.windows.len()
            invariant
                k <= self.windows@.len(),
                p == self@,
                ds == cluster.devs(),
                checkable(p, ds, param_elems as int),
                crate::theory::plan_laws::param_elems(p.homes) == param_elems,
                crate::theory::plan_laws::device_fault(p, ds, 0) is None,
                forall|j: int| 0 <= j < ds.len() ==> #[trigger] device_clear(p, ds, j),
                forall|j: int| 0 <= j < k ==> #[trigger] window_clear(p, ds, j),
                crate::theory::plan_laws::windows_fault(p.windows, ds, 0) == crate::theory::plan_laws::windows_fault(
                    p.windows,
                    ds,
                    k as int,
                ),
            decreases self.windows.len() - k,
        {
            assert(window_readable(p.windows[k as int], ds));
            match self.window_fault(cluster, k) {
                Some(e) => {
                    return Err(e);
                },
                None => {},
            }
            k = k + 1;
        }
        Ok(())
    }
}

} // verus!
