//! The planner: the steps of [`crate::theory::plans`] on machine words.
use vstd::prelude::*;
use vstd::string::StringExecFns;
use crate::cluster::{
    Cluster, Device, DeviceKind, Exec, Home, HomeKind, Hop, HopKind, Kernel, Pass, Role,
    StageError, Transfer, Window, CPU_RUNTIME_BYTES,
};
use crate::theory::plans::{Fault, Job, Leg, Mat, Scan, State, Win};

verus! {

/// A matrix of parameters and the kernels that work on it.
pub struct Matrix {
    pub name: String,
    pub role: Role,
    pub layer: usize,
    pub rows: u64,
    pub cols: u64,
    pub batch: u64,
    pub extra: u64,
    pub offset: u64,
    pub fwd: Vec<Kernel>,
    pub bwd: Vec<Kernel>,
    pub mask_per_col: bool,
}

impl View for Matrix {
    type V = Mat;

    open spec fn view(&self) -> Mat {
        Mat {
            name: self.name@,
            role: self.role,
            layer: self.layer as int,
            rows: self.rows as int,
            cols: self.cols as int,
            batch: self.batch as int,
            extra: self.extra as int,
            offset: self.offset as int,
            fwd: self.fwd@,
            bwd: self.bwd@,
            mask: self.mask_per_col,
        }
    }
}

/// Work that asks for a device.
pub struct Work {
    pub name: String,
    pub op: Exec,
    pub footprint: u64,
    pub home: Option<usize>,
    pub param_bytes: u64,
    pub tape_bytes: u64,
    pub placing: Vec<Kernel>,
    pub fwd: Vec<Kernel>,
    pub bwd: Vec<Kernel>,
    pub param_offset: u64,
    pub batch_begin: u64,
    pub batch_end: u64,
    pub row_begin: u64,
    pub row_end: u64,
    pub col_begin: u64,
    pub col_end: u64,
    pub din: u64,
    pub dout: u64,
    pub layer: u32,
    pub expert: u32,
}

impl View for Work {
    type V = Job;

    open spec fn view(&self) -> Job {
        Job {
            name: self.name@,
            op: self.op,
            footprint: self.footprint as int,
            home: match self.home {
                Some(h) => Some(h as int),
                None => None,
            },
            param: self.param_bytes as int,
            tape: self.tape_bytes as int,
            placing: self.placing@,
            fwd: self.fwd@,
            bwd: self.bwd@,
            offset: self.param_offset as int,
            batch_begin: self.batch_begin as int,
            batch_end: self.batch_end as int,
            row_begin: self.row_begin as int,
            row_end: self.row_end as int,
            col_begin: self.col_begin as int,
            col_end: self.col_end as int,
            din: self.din as int,
            dout: self.dout as int,
            layer: self.layer as int,
            expert: self.expert as int,
        }
    }
}

/// A plan in the making on a cluster.
pub struct Planner<'a> {
    pub cluster: &'a Cluster,
    pub free: Vec<u64>,
    pub home_bytes: Vec<u64>,
    pub peak: Vec<u64>,
    pub homes: Vec<Home>,
    pub tape_marks: Vec<usize>,
    pub windows: Vec<Window>,
    pub later: Vec<Window>,
    pub tail: Vec<Window>,
    pub transfers: Vec<Transfer>,
}

impl<'a> View for Planner<'a> {
    type V = State;

    open spec fn view(&self) -> State {
        State {
            devices: self.cluster.devs(),
            links: self.cluster.links@,
            free: crate::cluster::amounts(self.free@),
            held: crate::cluster::amounts(self.home_bytes@),
            peak: crate::cluster::amounts(self.peak@),
            homes: crate::theory::listing::views(self.homes@),
            marks: crate::cluster::stops(self.tape_marks@),
            windows: crate::theory::listing::views(self.windows@),
            later: crate::theory::listing::views(self.later@),
            tail: crate::theory::listing::views(self.tail@),
            transfers: crate::theory::listing::views(self.transfers@),
        }
    }
}

/// The planner did what the step says.
pub open spec fn agrees(r: Result<(), StageError>, after: State, want: Result<State, Fault>) -> bool {
    match r {
        Ok(u) => want == Ok::<State, Fault>(after),
        Err(e) => want == Err::<State, Fault>(e@),
    }
}

pub fn copy_kernels(ks: &Vec<Kernel>) -> (r: Vec<Kernel>)
    ensures
        r@ == ks@,
{
    let mut r: Vec<Kernel> = Vec::new();
    let mut i: usize = 0;
    while i < ks.len()
        invariant
            i <= ks@.len(),
            r@ == ks@.take(i as int),
        decreases ks.len() - i,
    {
        let k: Kernel = ks[i];
        r.push(k);
        assert(ks@.take(i + 1) =~= ks@.take(i as int).push(ks@[i as int]));
        i = i + 1;
    }
    assert(ks@.take(i as int) =~= ks@);
    r
}

pub fn both_kernels(a: &Vec<Kernel>, b: &Vec<Kernel>) -> (r: Vec<Kernel>)
    ensures
        r@ == a@ + b@,
{
    let mut r = copy_kernels(a);
    let mut i: usize = 0;
    assert(r@ =~= a@ + b@.take(0));
    while i < b.len()
        invariant
            i <= b@.len(),
            r@ == a@ + b@.take(i as int),
        decreases b.len() - i,
    {
        let k: Kernel = b[i];
        r.push(k);
        assert(r@ =~= a@ + b@.take(i + 1));
        i = i + 1;
    }
    assert(b@.take(i as int) =~= b@);
    r
}

/// The phases in which a device loads the kernels, where it can.
pub fn code_phases(dev: &Device, kernels: &Vec<Kernel>) -> (r: Option<Vec<Vec<Kernel>>>)
    ensures
        match r {
            Some(ps) => crate::theory::plans::phases(dev@, kernels@) == Some(crate::theory::listing::views(ps@)),
            None => crate::theory::plans::phases(dev@, kernels@) is None,
        },
{
    let ghost ks = kernels@;
    match dev.kind {
        DeviceKind::Cpu => if dev.code_bytes >= CPU_RUNTIME_BYTES {
            let one: Vec<Kernel> = vec![Kernel::CpuRuntime];
            let ps: Vec<Vec<Kernel>> = vec![one];
            assert(crate::theory::listing::views(ps@) =~= seq![seq![Kernel::CpuRuntime]]) by {
                assert(ps@[0]@ =~= seq![Kernel::CpuRuntime]);
            }
            Some(ps)
        } else {
            None
        },
        DeviceKind::Gpu => {
            let budget: u64 = dev.code_bytes;
            let mut done: Vec<Vec<Kernel>> = Vec::new();
            let mut cur: Vec<Kernel> = Vec::new();
            let mut used: u64 = 0;
            let mut i: usize = 0;
            assert(crate::theory::listing::views(done@) =~= Seq::<Seq<Kernel>>::empty());
            while i < kernels.len()
                invariant
                    i <= ks.len(),
                    ks == kernels@,
                    budget == dev.code_bytes,
                    dev.kind == DeviceKind::Gpu,
                    used == crate::theory::plans::load(cur@),
                    used <= budget,
                    (crate::theory::listing::views(done@), cur@) == crate::theory::plans::packed(ks, budget as int, i as int),
                    forall|k: int| 0 <= k < i ==> crate::theory::plans::code_len(#[trigger] ks[k]) <= budget,
                decreases kernels.len() - i,
            {
                let kernel: Kernel = kernels[i];
                let bytes: u64 = kernel.code_bytes();
                if bytes > budget {
                    assert(crate::theory::plans::code_len(ks[i as int]) > dev@.code);
                    return None;
                }
                if bytes > budget - used && cur.len() > 0 {
                    let ghost before = done@;
                    let full = cur;
                    cur = Vec::new();
                    done.push(full);
                    used = 0;
                    proof {
                        crate::theory::listing::lemma_views_push(before, full);
                        crate::theory::plan_laws::lemma_load_push(Seq::empty(), kernel);
                        assert(Seq::<Kernel>::empty().push(kernel) =~= seq![kernel]);
                    }
                } else {
                    proof {
                        crate::theory::plan_laws::lemma_load_push(cur@, kernel);
                        if cur@.len() == 0 {
                            assert(cur@ =~= Seq::<Kernel>::empty());
                        }
                    }
                }
                cur.push(kernel);
                used = used + bytes;
                i = i + 1;
            }
            let ghost before = done@;
            if cur.len() > 0 {
                let last = cur;
                done.push(last);
                proof {
                    crate::theory::listing::lemma_views_push(before, last);
                }
            }
            Some(done)
        },
    }
}

fn loads(dev: &Device, kernel: Kernel) -> (r: bool)
    ensures
        r == crate::theory::plans::kernel_fits(dev@, kernel),
{
    match dev.kind {
        DeviceKind::Cpu => dev.code_bytes >= CPU_RUNTIME_BYTES,
        DeviceKind::Gpu => dev.code_bytes >= kernel.code_bytes(),
    }
}

pub fn largest_of(xs: &Vec<u64>) -> (r: u64)
    ensures
        r == crate::theory::plans::largest(crate::cluster::amounts(xs@), xs@.len() as int),
{
    let mut r: u64 = 0;
    let mut i: usize = 0;
    while i < xs.len()
        invariant
            i <= xs@.len(),
            r == crate::theory::plans::largest(crate::cluster::amounts(xs@), i as int),
        decreases xs.len() - i,
    {
        if r < xs[i] {
            r = xs[i];
        }
        i = i + 1;
    }
    r
}

pub fn largest_code(c: &Cluster) -> (r: u64)
    ensures
        r == crate::theory::plans::largest(crate::theory::plans::codes(c.devs()), c.devs().len() as int),
{
    let ghost ds = c.devs();
    let mut r: u64 = 0;
    let mut i: usize = 0;
    while i < c.devices.len()
        invariant
            i <= ds.len(),
            ds == c.devs(),
            r == crate::theory::plans::largest(crate::theory::plans::codes(ds), i as int),
        decreases c.devices.len() - i,
    {
        assert(crate::theory::plans::codes(ds)[i as int] == c.devices@[i as int].code_bytes);
        if r < c.devices[i].code_bytes {
            r = c.devices[i].code_bytes;
        }
        i = i + 1;
    }
    r
}

pub fn largest_buffer(c: &Cluster) -> (r: u64)
    ensures
        r == crate::theory::plans::largest(crate::theory::plans::buffers(c.devs()), c.devs().len() as int),
{
    let ghost ds = c.devs();
    let mut r: u64 = 0;
    let mut i: usize = 0;
    while i < c.devices.len()
        invariant
            i <= ds.len(),
            ds == c.devs(),
            r == crate::theory::plans::largest(crate::theory::plans::buffers(ds), i as int),
        decreases c.devices.len() - i,
    {
        assert(crate::theory::plans::buffers(ds)[i as int] == c.devices@[i as int].buffer_bytes);
        if r < c.devices[i].buffer_bytes {
            r = c.devices[i].buffer_bytes;
        }
        i = i + 1;
    }
    r
}

/// The hops of a message along a path.
fn expand_path(path: &Vec<usize>, kind: HopKind, w: &Window) -> (r: Vec<Hop>)
    requires
        path@.len() >= 1,
    ensures
        crate::theory::listing::views(r@) == crate::theory::plans::legs(crate::cluster::stops(path@), kind, w@),
{
    let bytes: u64 = match kind {
        HopKind::Activation => w.tape_bytes,
        _ => w.param_bytes,
    };
    let elems: u64 = match kind {
        HopKind::Activation => bytes / 4,
        _ => crate::cluster::rectangle(w.row_begin, w.row_end, w.col_begin, w.col_end),
    };
    let ghost p = crate::cluster::stops(path@);
    let ghost want = crate::theory::plans::legs(p, kind, w@);
    let mut r: Vec<Hop> = Vec::new();
    let hops: usize = path.len() - 1;
    let mut i: usize = 0;
    while i < hops
        invariant
            i <= hops,
            hops == path@.len() - 1,
            p == crate::cluster::stops(path@),
            want == crate::theory::plans::legs(p, kind, w@),
            r@.len() == i,
            bytes == match kind {
                HopKind::Activation => w@.tape,
                _ => w@.param,
            },
            elems == match kind {
                HopKind::Activation => (bytes as int) / 4,
                _ => crate::theory::plans::area(w@.row_begin, w@.row_end, w@.col_begin, w@.col_end),
            },
            forall|k: int| 0 <= k < i ==> #[trigger] r@[k]@ == want[k],
        decreases hops - i,
    {
        let hop = Hop {
            from: path[i],
            to: path[i + 1],
            bytes,
            kind,
            offset: w.param_offset,
            elems,
            row_begin: w.row_begin,
            row_end: w.row_end,
            col_begin: w.col_begin,
            col_end: w.col_end,
            stride: w.dout,
        };
        assert(hop@ == want[i as int]) by {
            assert(p[i as int] == path@[i as int]);
            assert(p[i + 1] == path@[i + 1]);
        }
        r.push(hop);
        i = i + 1;
    }
    assert(crate::theory::listing::views(r@) =~= want);
    r
}

fn extend_hops(a: &mut Vec<Hop>, b: &Vec<Hop>)
    ensures
        crate::theory::listing::views(final(a)@) == crate::theory::listing::views(old(a)@) + crate::theory::listing::views(b@),
{
    let ghost start = a@;
    let mut i: usize = 0;
    assert(a@ =~= start + b@.take(0));
    while i < b.len()
        invariant
            i <= b@.len(),
            a@ == start + b@.take(i as int),
        decreases b.len() - i,
    {
        let h: Hop = b[i];
        a.push(h);
        assert(a@ =~= start + b@.take(i + 1));
        i = i + 1;
    }
    assert(b@.take(i as int) =~= b@);
    proof {
        crate::theory::listing::lemma_views_add(start, b@);
    }
}

impl<'a> Planner<'a> {
    /// A planner for so many persistent bytes.
    pub fn new(cluster: &'a Cluster, persistent: u64) -> (r: Result<Planner<'a>, StageError>)
        requires
            crate::theory::plans::capacity(cluster.devs(), cluster.devs().len() as int) <= u64::MAX,
        ensures
            match r {
                Ok(p) => p.cluster == cluster && State::start(cluster.devs(), cluster.links@, persistent as int) == Ok::<
                    State,
                    Fault,
                >(p@),
                Err(e) => State::start(cluster.devs(), cluster.links@, persistent as int) == Err::<State, Fault>(e@),
            },
    {
        let ghost ds = cluster.devs();
        let n: usize = cluster.devices.len();
        let ghost f = |i: int| ds[i].buffer;
        let mut capacity: u64 = 0;
        let mut free: Vec<u64> = Vec::new();
        let mut home_bytes: Vec<u64> = Vec::new();
        let mut peak: Vec<u64> = Vec::new();
        let mut i: usize = 0;
        while i < n
            invariant
                i <= n,
                n == ds.len(),
                n == cluster.devices@.len(),
                ds == cluster.devs(),
                f == (|i: int| ds[i].buffer),
                crate::theory::sums::sum(n as int, f) <= u64::MAX,
                capacity == crate::theory::sums::sum(i as int, f),
                free@.len() == i,
                home_bytes@.len() == i,
                peak@.len() == i,
                forall|k: int| 0 <= k < i ==> #[trigger] free@[k] == ds[k].buffer,
                forall|k: int| 0 <= k < i ==> #[trigger] home_bytes@[k] == 0,
                forall|k: int| 0 <= k < i ==> #[trigger] peak@[k] == 0,
            decreases n - i,
        {
            let buffer: u64 = cluster.devices[i].buffer_bytes;
            proof {
                assert(ds[i as int].buffer == buffer);
                assert(f(i as int) == buffer);
                assert forall|k: int| 0 <= k < n implies #[trigger] f(k) >= 0 by {
                    assert(ds[k] == cluster.devices@[k]@);
                }
                crate::theory::sums::lemma_sum_part(n as int, f, i as int);
            }
            capacity = capacity + buffer;
            free.push(buffer);
            home_bytes.push(0);
            peak.push(0);
            i = i + 1;
        }
        if persistent > capacity {
            return Err(StageError::ParamsExceedCluster { params: persistent, capacity });
        }
        let p = Planner {
            cluster,
            free,
            home_bytes,
            peak,
            homes: Vec::new(),
            tape_marks: Vec::new(),
            windows: Vec::new(),
            later: Vec::new(),
            tail: Vec::new(),
            transfers: Vec::new(),
        };
        assert(p@ =~= State::fresh(ds, cluster.links@));
        Ok(p)
    }

    // ----- messages -----

    pub fn route(&self, from: usize, to: usize, bytes: u64) -> (r: Result<Vec<usize>, StageError>)
        ensures
            match r {
                Ok(p) => self@.route(from as int, to as int, bytes as int) == Ok::<Seq<int>, Fault>(crate::cluster::stops(p@)),
                Err(e) => self@.route(from as int, to as int, bytes as int) == Err::<Seq<int>, Fault>(e@),
            },
    {
        crate::cluster::route_message(self.cluster.links.as_slice(), self.free.as_slice(), from, to, bytes)
    }

    /// Where an activation waits.
    pub fn activation_home_for(&self, bytes: u64) -> (r: Option<usize>)
        requires
            self@.balanced(),
        ensures
            self@.activation_home(bytes as int) == match r {
                Some(h) => Some(h as int),
                None => None::<int>,
            },
            r matches Some(h) ==> h < self@.count(),
    {
        if bytes == 0 {
            return None;
        }
        let ghost free = self@.free;
        let ghost devices = self@.devices;
        let ghost ok = |i: int| free[i] >= bytes as int;
        let ghost key = |i: int|
            free[i] * 2 + if devices[i].kind == DeviceKind::Cpu {
                1int
            } else {
                0int
            };
        let n: usize = self.cluster.devices.len();
        let mut best: Option<usize> = None;
        let mut i: usize = 0;
        while i < n
            invariant
                i <= n,
                n == self@.count(),
                n == self.cluster.devices@.len(),
                n == self.free@.len(),
                free == self@.free,
                devices == self@.devices,
                ok == (|i: int| free[i] >= bytes as int),
                key == (|i: int|
                    free[i] * 2 + if devices[i].kind == DeviceKind::Cpu {
                        1int
                    } else {
                        0int
                    }),
                best matches Some(b) ==> b < i,
                crate::theory::plans::last_max(i as int, ok, key) == match best {
                    Some(b) => Some(b as int),
                    None => None::<int>,
                },
            decreases n - i,
        {
            assert(free[i as int] == self.free@[i as int]);
            assert(devices[i as int].kind == self.cluster.devices@[i as int].kind);
            if self.free[i] >= bytes {
                let replace = match best {
                    None => true,
                    Some(b) => {
                        assert(free[b as int] == self.free@[b as int]);
                        assert(devices[b as int].kind == self.cluster.devices@[b as int].kind);
                        self.free[b] < self.free[i] || (self.free[b] == self.free[i] && (self.cluster.devices[i].kind
                            == DeviceKind::Cpu || self.cluster.devices[b].kind != DeviceKind::Cpu))
                    },
                };
                if replace {
                    best = Some(i);
                }
            }
            i = i + 1;
        }
        best
    }

    /// Why an activation cannot come to a device.
    pub fn activation_fault(&self, device: usize, bytes: u64) -> (r: Option<StageError>)
        requires
            self@.balanced(),
        ensures
            self@.activation_fault(device as int, bytes as int) == match r {
                Some(e) => Some(e@),
                None => None::<Fault>,
            },
    {
        match self.activation_home_for(bytes) {
            None => None,
            Some(h) => if h == device {
                None
            } else {
                match self.route(h, device, bytes) {
                    Ok(_) => None,
                    Err(e) => Some(e),
                }
            },
        }
    }

    fn messages(&self, w: &Window, inbound: bool) -> (r: Result<Vec<Hop>, StageError>)
        requires
            self@.balanced(),
        ensures
            match r {
                Ok(hops) => self@.messages(w@, inbound) == Ok::<Seq<Leg>, Fault>(crate::theory::listing::views(hops@)),
                Err(e) => self@.messages(w@, inbound) == Err::<Seq<Leg>, Fault>(e@),
            },
    {
        proof {
            crate::theory::plan_laws::lemma_route_links(self@, w@.home, w@.device, w@.param);
            crate::theory::plan_laws::lemma_route_links(self@, w@.device, w@.home, w@.param);
        }
        let mut hops: Vec<Hop> = Vec::new();
        assert(crate::theory::listing::views(hops@) =~= Seq::<Leg>::empty());
        if w.param_bytes > 0 && w.home != w.device {
            if inbound {
                match self.route(w.home, w.device, w.param_bytes) {
                    Err(e) => {
                        return Err(e);
                    },
                    Ok(p) => {
                        hops = expand_path(&p, HopKind::Param, w);
                        if w.op == Exec::Sgd {
                            let more = expand_path(&p, HopKind::Adjoint, w);
                            extend_hops(&mut hops, &more);
                        }
                    },
                }
            } else if w.pass == Pass::Bwd || w.op == Exec::Sgd {
                match self.route(w.device, w.home, w.param_bytes) {
                    Err(e) => {
                        return Err(e);
                    },
                    Ok(p) => {
                        let kind = if w.pass == Pass::Bwd {
                            HopKind::Adjoint
                        } else {
                            HopKind::Param
                        };
                        hops = expand_path(&p, kind, w);
                    },
                }
            }
        }
        assert(self@.param_legs(w@, inbound) == Ok::<Seq<Leg>, Fault>(crate::theory::listing::views(hops@)));
        let ghost first = crate::theory::listing::views(hops@);
        match self.activation_home_for(w.tape_bytes) {
            None => {
                assert(first + Seq::<Leg>::empty() =~= first);
            },
            Some(h) => {
                let from: usize = if inbound {
                    h
                } else {
                    w.device
                };
                let to: usize = if inbound {
                    w.device
                } else {
                    h
                };
                if from != to {
                    proof {
                        crate::theory::plan_laws::lemma_route_links(self@, from as int, to as int, w@.tape);
                    }
                    match self.route(from, to, w.tape_bytes) {
                        Err(e) => {
                            return Err(e);
                        },
                        Ok(p) => {
                            let more = expand_path(&p, HopKind::Activation, w);
                            extend_hops(&mut hops, &more);
                        },
                    }
                } else {
                    assert(first + Seq::<Leg>::empty() =~= first);
                }
            },
        }
        Ok(hops)
    }

    fn note_moves(&mut self, hops: &Vec<Hop>)
        ensures
            final(self)@ == (State {
                transfers: old(self)@.transfers + crate::theory::plans::moves(crate::theory::listing::views(hops@)),
                ..old(self)@
            }),
            final(self).cluster == old(self).cluster,
    {
        let ghost s0 = self@;
        let ghost ms = crate::theory::plans::moves(crate::theory::listing::views(hops@));
        let mut i: usize = 0;
        assert(self@.transfers =~= s0.transfers + ms.take(0));
        while i < hops.len()
            invariant
                i <= hops@.len(),
                ms == crate::theory::plans::moves(crate::theory::listing::views(hops@)),
                self@ == (State { transfers: s0.transfers + ms.take(i as int), ..s0 }),
                self.cluster == old(self).cluster,
            decreases hops.len() - i,
        {
            let ghost before = self.transfers@;
            let t = Transfer { from: hops[i].from, to: hops[i].to, bytes: hops[i].bytes };
            self.transfers.push(t);
            proof {
                crate::theory::listing::lemma_views_push(before, t);
                assert(ms[i as int] == t@);
                assert(self@.transfers =~= s0.transfers + ms.take(i + 1));
            }
            i = i + 1;
        }
        assert(ms.take(i as int) =~= ms);
    }

    /// The window with its messages, which are noted as transfers.
    pub fn annotate(&mut self, window: Window) -> (r: Result<Window, StageError>)
        requires
            old(self)@.balanced(),
            window@.inbound.len() == 0,
            window@.outbound.len() == 0,
        ensures
            final(self).cluster == old(self).cluster,
            match r {
                Ok(w) => {
                    &&& old(self)@.annotated(window@) == Ok::<Win, Fault>(w@)
                    &&& final(self)@ == (State { transfers: old(self)@.moved(w@), ..old(self)@ })
                },
                Err(e) => old(self)@.annotated(window@) == Err::<Win, Fault>(e@),
            },
    {
        let mut window = window;
        let inbound = match self.messages(&window, true) {
            Ok(h) => h,
            Err(e) => {
                return Err(e);
            },
        };
        let outbound = match self.messages(&window, false) {
            Ok(h) => h,
            Err(e) => {
                return Err(e);
            },
        };
        self.note_moves(&inbound);
        self.note_moves(&outbound);
        window.inbound = inbound;
        window.outbound = outbound;
        Ok(window)
    }

    /// Add a window to its pass.
    fn push_annotated(&mut self, window: Window) -> (r: Result<(), StageError>)
        requires
            old(self)@.balanced(),
            window@.inbound.len() == 0,
            window@.outbound.len() == 0,
        ensures
            final(self).cluster == old(self).cluster,
            agrees(r, final(self)@, old(self)@.post(window@)),
    {
        let w = match self.annotate(window) {
            Ok(w) => w,
            Err(e) => {
                return Err(e);
            },
        };
        if w.pass == Pass::Fwd {
            proof {
                crate::theory::listing::lemma_views_push(self.windows@, w);
            }
            self.windows.push(w);
        } else {
            proof {
                crate::theory::listing::lemma_views_push(self.later@, w);
            }
            self.later.push(w);
        }
        Ok(())
    }
}


// ----- homes -----

pub proof fn lemma_amounts_set(s: Seq<u64>, i: int, x: u64)
    requires
        0 <= i < s.len(),
    ensures
        crate::cluster::amounts(s.update(i, x)) == crate::cluster::amounts(s).update(i, x as int),
{
    assert(crate::cluster::amounts(s.update(i, x)) =~= crate::cluster::amounts(s).update(i, x as int));
}

impl<'a> Planner<'a> {
    /// The device for a home: a CPU where one has room, and the one with the
    /// most free bytes.
    fn pick(&self, need: u64) -> (r: Option<usize>)
        requires
            self@.balanced(),
        ensures
            self@.pick(need as int) == match r {
                Some(d) => Some(d as int),
                None => None::<int>,
            },
            r matches Some(d) ==> d < self@.count(),
    {
        let ghost free = self@.free;
        let ghost devices = self@.devices;
        let n: usize = self.cluster.devices.len();
        let ghost on_cpu = |i: int| devices[i].kind == DeviceKind::Cpu && free[i] >= need as int;
        let ghost any = |i: int| free[i] >= need as int;
        let ghost key = |i: int| free[i];
        let mut cpu: Option<usize> = None;
        let mut best: Option<usize> = None;
        let mut i: usize = 0;
        while i < n
            invariant
                i <= n,
                n == self@.count(),
                n == self.cluster.devices@.len(),
                n == self.free@.len(),
                free == self@.free,
                devices == self@.devices,
                on_cpu == (|i: int| devices[i].kind == DeviceKind::Cpu && free[i] >= need as int),
                any == (|i: int| free[i] >= need as int),
                key == (|i: int| free[i]),
                cpu matches Some(b) ==> b < i,
                best matches Some(b) ==> b < i,
                crate::theory::plans::last_max(i as int, on_cpu, key) == match cpu {
                    Some(b) => Some(b as int),
                    None => None::<int>,
                },
                crate::theory::plans::last_max(i as int, any, key) == match best {
                    Some(b) => Some(b as int),
                    None => None::<int>,
                },
            decreases n - i,
        {
            assert(free[i as int] == self.free@[i as int]);
            assert(devices[i as int].kind == self.cluster.devices@[i as int].kind);
            if self.free[i] >= need {
                if self.cluster.devices[i].kind == DeviceKind::Cpu {
                    let replace = match cpu {
                        None => true,
                        Some(b) => {
                            assert(free[b as int] == self.free@[b as int]);
                            self.free[b] <= self.free[i]
                        },
                    };
                    if replace {
                        cpu = Some(i);
                    }
                }
                let replace = match best {
                    None => true,
                    Some(b) => {
                        assert(free[b as int] == self.free@[b as int]);
                        self.free[b] <= self.free[i]
                    },
                };
                if replace {
                    best = Some(i);
                }
            }
            i = i + 1;
        }
        if cpu.is_some() {
            cpu
        } else {
            best
        }
    }

    /// Put a home on its device.
    pub fn put(&mut self, home: Home, bytes: u64)
        requires
            old(self)@.sound(),
            crate::theory::plan_laws::good_home(home@, old(self)@.count()),
            bytes == crate::theory::plans::held_bytes(home@),
            bytes <= old(self)@.free[home@.device],
            home.kind == HomeKind::Tape || old(self)@.marks.len() == 0,
        ensures
            final(self).cluster == old(self).cluster,
            final(self)@ == old(self)@.put(home@, bytes as int),
            final(self)@.sound(),
            final(self)@.marks == old(self)@.marks,
    {
        let ghost s0 = self@;
        let d: usize = home.device;
        proof {
            crate::theory::plan_laws::lemma_put(s0, home@, bytes as int);
            lemma_amounts_set(self.free@, d as int, (self.free@[d as int] - bytes) as u64);
            assert(s0.free[d as int] + s0.held[d as int] == s0.devices[d as int].buffer);
            lemma_amounts_set(self.home_bytes@, d as int, (self.home_bytes@[d as int] + bytes) as u64);
            crate::theory::listing::lemma_views_push(self.homes@, home);
        }
        let free: u64 = self.free[d] - bytes;
        self.free.set(d, free);
        let held: u64 = self.home_bytes[d] + bytes;
        self.home_bytes.set(d, held);
        proof {
            lemma_amounts_set(self.peak@, d as int, held);
            assert(self.peak@.update(d as int, self.peak@[d as int]) =~= self.peak@);
            lemma_amounts_set(self.peak@, d as int, self.peak@[d as int]);
        }
        if self.peak[d] < held {
            self.peak.set(d, held);
        }
        self.homes.push(home);
    }

    /// Place one row piece by piece.
    fn place_row(&mut self, kind: HomeKind, name: &String, row: u64, cols: u64, elem: u64) -> (r: Result<(), StageError>)
        requires
            old(self)@.sound(),
            row < u64::MAX,
            elem == crate::theory::plan_laws::elem_size(kind),
            cols * elem <= u64::MAX,
            kind == HomeKind::Tape || old(self)@.marks.len() == 0,
        ensures
            final(self).cluster == old(self).cluster,
            agrees(r, final(self)@, old(self)@.place_cols(kind, name@, row as int, cols as int, elem as int, 0)),
            r is Ok ==> final(self)@.sound() && final(self)@.marks == old(self)@.marks,
    {
        let ghost want = self@.place_cols(kind, name@, row as int, cols as int, elem as int, 0);
        let mut col: u64 = 0;
        while col < cols
            invariant
                self.cluster == old(self).cluster,
                self@.sound(),
                self@.marks == old(self)@.marks,
                row < u64::MAX,
                elem == crate::theory::plan_laws::elem_size(kind),
                cols * elem <= u64::MAX,
                kind == HomeKind::Tape || self@.marks.len() == 0,
                col <= cols,
                want == self@.place_cols(kind, name@, row as int, cols as int, elem as int, col as int),
                want == old(self)@.place_cols(kind, name@, row as int, cols as int, elem as int, 0),
            decreases cols - col,
        {
            let dev: usize = match self.pick(elem) {
                Some(d) => d,
                None => {
                    return Err(StageError::TapeExceedsCluster { tape: cols * elem, free: largest_of(&self.free) });
                },
            };
            proof {
                crate::theory::plan_laws::lemma_cols_piece(self@, kind, name@, row as int, cols as int, col as int);
            }
            let room: u64 = self.free[dev] / elem;
            let take: u64 = if room <= cols - col {
                room
            } else {
                cols - col
            };
            let home = Home {
                kind,
                name: name.clone(),
                device: dev,
                row_begin: row,
                row_end: row + 1,
                col_begin: col,
                col_end: col + take,
                stride: cols,
            };
            self.put(home, take * elem);
            col = col + take;
        }
        Ok(())
    }

    /// Place a rectangle: whole rows where a device takes them.
    fn place_rect(&mut self, kind: HomeKind, name: &String, rows: u64, cols: u64, elem: u64) -> (r: Result<(), StageError>)
        requires
            old(self)@.sound(),
            elem == crate::theory::plan_laws::elem_size(kind),
            cols * elem <= u64::MAX,
            rows > 0 ==> cols > 0,
            kind == HomeKind::Tape || old(self)@.marks.len() == 0,
        ensures
            final(self).cluster == old(self).cluster,
            agrees(r, final(self)@, old(self)@.place_rows(kind, name@, rows as int, cols as int, elem as int, 0)),
            r is Ok ==> final(self)@.sound() && final(self)@.marks == old(self)@.marks,
    {
        let ghost want = self@.place_rows(kind, name@, rows as int, cols as int, elem as int, 0);
        let mut row: u64 = 0;
        while row < rows
            invariant
                self.cluster == old(self).cluster,
                self@.sound(),
                self@.marks == old(self)@.marks,
                elem == crate::theory::plan_laws::elem_size(kind),
                cols * elem <= u64::MAX,
                rows > 0 ==> cols > 0,
                kind == HomeKind::Tape || self@.marks.len() == 0,
                row <= rows,
                want == self@.place_rows(kind, name@, rows as int, cols as int, elem as int, row as int),
                want == old(self)@.place_rows(kind, name@, rows as int, cols as int, elem as int, 0),
            decreases rows - row,
        {
            let row_bytes: u64 = cols * elem;
            match self.pick(row_bytes) {
                Some(dev) => {
                    proof {
                        crate::theory::plan_laws::lemma_rows_piece(self@, kind, name@, rows as int, cols as int, row as int);
                    }
                    let room: u64 = self.free[dev] / row_bytes;
                    let some: u64 = if room <= rows - row {
                        room
                    } else {
                        rows - row
                    };
                    let fit: u64 = if some < 1 {
                        1
                    } else {
                        some
                    };
                    let take: u64 = if fit <= rows - row {
                        fit
                    } else {
                        rows - row
                    };
                    let home = Home {
                        kind,
                        name: name.clone(),
                        device: dev,
                        row_begin: row,
                        row_end: row + take,
                        col_begin: 0,
                        col_end: cols,
                        stride: cols,
                    };
                    self.put(home, take * cols * elem);
                    row = row + take;
                },
                None => {
                    match self.place_row(kind, name, row, cols, elem) {
                        Ok(_) => {},
                        Err(e) => {
                            return Err(e);
                        },
                    }
                    row = row + 1;
                },
            }
        }
        Ok(())
    }

    pub fn place_param(&mut self, m: &Matrix) -> (r: Result<(), StageError>)
        requires
            old(self)@.sound(),
            old(self)@.marks.len() == 0,
            crate::theory::plan_laws::good_mat(m@),
            m@.cols * 4 <= u64::MAX,
        ensures
            final(self).cluster == old(self).cluster,
            agrees(r, final(self)@, old(self)@.place_param(m@)),
            r is Ok ==> final(self)@.sound() && final(self)@.marks == old(self)@.marks,
    {
        self.place_rect(HomeKind::Param, &m.name, m.rows, m.cols, 4)
    }

    pub fn place_tape(&mut self, name: &String, bytes: u64) -> (r: Result<(), StageError>)
        requires
            old(self)@.sound(),
        ensures
            final(self).cluster == old(self).cluster,
            agrees(r, final(self)@, old(self)@.place_tape(name@, bytes as int)),
            r is Ok ==> final(self)@.sound(),
    {
        let ghost s0 = self@;
        proof {
            crate::theory::plan_laws::lemma_place_tape(s0, name@, bytes as int);
        }
        let mark: usize = self.homes.len();
        if bytes > 0 {
            match self.place_rect(HomeKind::Tape, name, 1, bytes, 1) {
                Ok(_) => {},
                Err(e) => {
                    return Err(e);
                },
            }
        }
        let ghost before = self.tape_marks@;
        self.tape_marks.push(mark);
        assert(self@.marks =~= crate::cluster::stops(before).push(mark as int));
        Ok(())
    }

    /// Take the last homes back until `mark` are left.
    fn drop_homes(&mut self, mark: usize)
        requires
            old(self)@.sound(),
            old(self)@.marks.len() == 0,
            forall|k: int| mark <= k < old(self)@.homes.len() ==> (#[trigger] old(self)@.homes[k]).kind == HomeKind::Tape,
        ensures
            final(self).cluster == old(self).cluster,
            final(self)@ == old(self)@.drop_homes(mark as int),
    {
        let ghost want = self@.drop_homes(mark as int);
        while self.homes.len() > mark
            invariant
                self.cluster == old(self).cluster,
                self@.sound(),
                self@.marks.len() == 0,
                forall|k: int| mark <= k < self@.homes.len() ==> (#[trigger] self@.homes[k]).kind == HomeKind::Tape,
                want == self@.drop_homes(mark as int),
            decreases self.homes@.len(),
        {
            let ghost s = self@;
            proof {
                assert(s.homes[s.homes.len() - 1].kind == HomeKind::Tape);
                crate::theory::plan_laws::lemma_drop_home(s);
            }
            let ghost homes = self.homes@;
            match self.homes.pop() {
                None => {},
                Some(home) => {
                    proof {
                        assert(home@ == s.homes.last());
                        assert(self@.homes =~= s.homes.drop_last());
                    }
                    let bytes: u64 = home.bytes();
                    let d: usize = home.device;
                    proof {
                        assert(crate::theory::plan_laws::good_home(s.homes[s.homes.len() - 1], s.count()));
                        lemma_amounts_set(self.free@, d as int, (self.free@[d as int] + bytes) as u64);
                        lemma_amounts_set(self.home_bytes@, d as int, (self.home_bytes@[d as int] - bytes) as u64);
                    }
                    let free: u64 = self.free[d] + bytes;
                    self.free.set(d, free);
                    let held: u64 = self.home_bytes[d] - bytes;
                    self.home_bytes.set(d, held);
                    proof {
                        assert(self@.marks =~= Seq::<int>::empty());
                        assert(s.marks =~= Seq::<int>::empty());
                        assert forall|k: int| mark <= k < self@.homes.len() implies (#[trigger] self@.homes[k]).kind
                            == HomeKind::Tape by {
                            assert(self@.homes[k] == s.homes[k]);
                        }
                    }
                },
            }
        }
    }

    /// Take every tape back.
    pub fn release_tapes(&mut self)
        requires
            old(self)@.sound(),
        ensures
            final(self).cluster == old(self).cluster,
            final(self)@ == old(self)@.release(),
    {
        let ghost want = self@.release();
        while self.tape_marks.len() > 0
            invariant
                self.cluster == old(self).cluster,
                self@.sound(),
                want == self@.release(),
            decreases self.tape_marks@.len(),
        {
            let ghost s = self@;
            proof {
                crate::theory::plan_laws::lemma_release_one(s);
            }
            let mut marks: Vec<usize> = Vec::new();
            core::mem::swap(&mut marks, &mut self.tape_marks);
            let ghost all = marks@;
            match marks.pop() {
                None => {},
                Some(mark) => {
                    proof {
                        assert(mark == s.marks.last());
                        assert(self@.marks =~= Seq::<int>::empty());
                        assert(self@ == (State { marks: Seq::empty(), ..s }));
                        assert forall|k: int| mark <= k < self@.homes.len() implies (#[trigger] self@.homes[k]).kind
                            == HomeKind::Tape by {
                            assert(s.marks[s.marks.len() - 1] >= 0 && s.homes[k].kind == HomeKind::Tape);
                        }
                        crate::theory::plan_laws::lemma_drop_unmarked(State { marks: s.marks.drop_last(), ..s }, mark as int);
                    }
                    self.drop_homes(mark);
                    self.tape_marks = marks;
                    assert(self@.marks =~= s.marks.drop_last());
                },
            }
        }
    }

    /// The device that holds an element of a matrix.
    pub fn home_device(&self, name: &String, row: u64, col: u64) -> (r: usize)
        requires
            self@.sound(),
        ensures
            r == self@.home_of(name@, row as int, col as int, 0),
            r < self@.count(),
    {
        let mut k: usize = 0;
        while k < self.homes.len()
            invariant
                self@.sound(),
                k <= self.homes@.len(),
                self@.home_of(name@, row as int, col as int, 0) == self@.home_of(name@, row as int, col as int, k as int),
            decreases self.homes.len() - k,
        {
            let h: &Home = &self.homes[k];
            assert(self@.homes[k as int] == h@);
            if h.kind == HomeKind::Param && h.name == *name && row >= h.row_begin && row < h.row_end && col >= h.col_begin && col
                < h.col_end {
                assert(crate::theory::plan_laws::good_home(self@.homes[k as int], self@.count()));
                return h.device;
            }
            k = k + 1;
        }
        0
    }
}

// ----- windows -----

impl<'a> Planner<'a> {
    /// The bytes on a device while it runs the work.
    fn resident(&self, i: usize, w: &Work) -> (r: u128)
        requires
            self@.balanced(),
            i < self@.count(),
            w.param_bytes <= w.footprint,
        ensures
            r == self@.resident(i as int, w@),
    {
        let sum: u128 = self.home_bytes[i] as u128 + w.footprint as u128;
        match w.home {
            Some(h) => if h == i {
                sum - w.param_bytes as u128
            } else {
                sum
            },
            None => sum,
        }
    }

    fn job_fault(&self, i: usize, w: &Work) -> (r: Option<StageError>)
        requires
            self@.balanced(),
        ensures
            self@.job_fault(i as int, w@) == match r {
                Some(e) => Some(e@),
                None => None::<Fault>,
            },
    {
        if let Some(h) = w.home {
            if w.param_bytes > 0 && h != i {
                if let Err(e) = self.route(h, i, w.param_bytes) {
                    return Some(e);
                }
            }
        }
        self.activation_fault(i, w.tape_bytes)
    }

    fn better(&self, i: usize, k: usize, w: &Work) -> (r: bool)
        requires
            self@.balanced(),
            i < self@.count(),
            k < self@.count(),
            w.param_bytes <= w.footprint,
        ensures
            r == self@.better(i as int, k as int, w@),
    {
        let cpu_i = self.cluster.devices[i].kind == DeviceKind::Cpu;
        let cpu_k = self.cluster.devices[k].kind == DeviceKind::Cpu;
        (!cpu_i && cpu_k) || (cpu_i == cpu_k && self.resident(i, w) < self.resident(k, w))
    }

    fn no_device_loads(&self, kernel: Kernel) -> (r: bool)
        ensures
            r == self@.no_device_loads(kernel),
    {
        let mut i: usize = 0;
        while i < self.cluster.devices.len()
            invariant
                i <= self.cluster.devices@.len(),
                forall|k: int| 0 <= k < i ==> !crate::theory::plans::kernel_fits(#[trigger] self@.devices[k], kernel),
            decreases self.cluster.devices.len() - i,
        {
            assert(self@.devices[i as int] == self.cluster.devices@[i as int]@);
            if loads(&self.cluster.devices[i], kernel) {
                return false;
            }
            i = i + 1;
        }
        true
    }

    /// The device on which work runs.
    fn place_window(&self, w: &Work) -> (r: Result<usize, StageError>)
        requires
            self@.balanced(),
            w.param_bytes <= w.footprint,
        ensures
            match r {
                Ok(d) => self@.place(w@) == Ok::<int, Fault>(d as int) && d < self@.count(),
                Err(e) => self@.place(w@) == Err::<int, Fault>(e@),
            },
    {
        let n: usize = self.cluster.devices.len();
        let mut best: Option<usize> = None;
        let mut blocked: Option<StageError> = None;
        let mut i: usize = 0;
        while i < n
            invariant
                i <= n,
                n == self@.count(),
                n == self.cluster.devices@.len(),
                self@.balanced(),
                w.param_bytes <= w.footprint,
                best matches Some(b) ==> b < i,
                self@.scan(w@, i as int) == (Scan {
                    best: match best {
                        Some(b) => Some(b as int),
                        None => None,
                    },
                    blocked: match blocked {
                        Some(e) => Some(e@),
                        None => None,
                    },
                }),
            decreases n - i,
        {
            let dev: &Device = &self.cluster.devices[i];
            assert(self@.devices[i as int] == dev@);
            let phases = code_phases(dev, &w.placing);
            if phases.is_some() && self.resident(i, w) <= dev.buffer_bytes as u128 {
                match self.job_fault(i, w) {
                    Some(e) => {
                        blocked = Some(e);
                    },
                    None => {
                        let replace = match best {
                            None => true,
                            Some(b) => self.better(i, b, w),
                        };
                        if replace {
                            best = Some(i);
                        }
                    },
                }
            }
            i = i + 1;
        }
        if let Some(d) = best {
            return Ok(d);
        }
        if let Some(e) = blocked {
            return Err(e);
        }
        let mut k: usize = 0;
        while k < w.placing.len()
            invariant
                k <= w.placing@.len(),
                n == self@.count(),
                self@.scan(w@, n as int) == (Scan { best: None, blocked: None }),
                self@.too_large(w.placing@, 0) == self@.too_large(w.placing@, k as int),
            decreases w.placing.len() - k,
        {
            let kernel: Kernel = w.placing[k];
            if self.no_device_loads(kernel) {
                return Err(
                    StageError::CodeExceedsDevices {
                        kernel: kernel.name(),
                        need: kernel.code_bytes(),
                        largest: largest_code(self.cluster),
                    },
                );
            }
            k = k + 1;
        }
        Err(StageError::TileExceedsDevices { need: w.footprint, largest: largest_of(&self.free) })
    }

    fn window_of(&self, w: &Work, device: usize, resident: u64, pass: Pass, code_phases: Vec<Vec<Kernel>>) -> (r: Window)
        ensures
            r@ == w@.window(device as int, resident as int, pass, crate::theory::listing::views(code_phases@)),
    {
        let home: usize = match w.home {
            Some(h) => h,
            None => device,
        };
        let r = Window {
            name: w.name.clone(),
            device,
            code_phases,
            resident_bytes: resident,
            tape_bytes: w.tape_bytes,
            param_bytes: w.param_bytes,
            pass,
            op: w.op,
            param_offset: w.param_offset,
            batch_begin: w.batch_begin,
            batch_end: w.batch_end,
            row_begin: w.row_begin,
            row_end: w.row_end,
            col_begin: w.col_begin,
            col_end: w.col_end,
            din: w.din,
            dout: w.dout,
            home,
            layer: w.layer,
            expert: w.expert,
            inbound: Vec::new(),
            outbound: Vec::new(),
        };
        assert(r@ =~= w@.window(device as int, resident as int, pass, crate::theory::listing::views(code_phases@)));
        r
    }

    /// Place work, and add its window and its adjoint.
    pub fn run(&mut self, w: &Work) -> (r: Result<(), StageError>)
        requires
            old(self)@.sound(),
            crate::theory::plan_laws::good_job(w@, old(self)@.count()),
        ensures
            final(self).cluster == old(self).cluster,
            agrees(r, final(self)@, old(self)@.work(w@)),
            r is Ok ==> final(self)@.sound() && old(self)@.same_homes(final(self)@),
    {
        let ghost s0 = self@;
        proof {
            crate::theory::plan_laws::lemma_work(s0, w@);
            crate::theory::plan_laws::lemma_scan(s0, w@, s0.count());
        }
        let device: usize = match self.place_window(w) {
            Ok(d) => d,
            Err(e) => {
                return Err(e);
            },
        };
        let resident: u64 = self.resident(device, w) as u64;
        proof {
            lemma_amounts_set(self.peak@, device as int, resident);
            assert(s0.peaked(device as int, s0.peak[device as int]).peak =~= s0.peak);
        }
        if self.peak[device] < resident {
            self.peak.set(device, resident);
        }
        let ghost s1 = s0.peaked(device as int, resident as int);
        proof {
            assert(self@ =~= s1);
            let dev = s0.devices[device as int];
            assert(dev == self.cluster.devices@[device as int]@);
            crate::theory::plan_laws::lemma_fewer_kernels(dev, w@.placing, w@.fwd);
            crate::theory::plan_laws::lemma_fewer_kernels(dev, w@.placing, w@.bwd);
            assert(s1.balanced()) by {
                assert forall|i: int| 0 <= i < s1.count() implies 0 <= #[trigger] s1.peak[i] <= s1.devices[i].buffer by {
                    assert(0 <= s0.peak[i] <= s0.devices[i].buffer);
                    assert(0 <= s0.held[device as int]);
                }
                assert forall|i: int| 0 <= i < s1.count() implies {
                    &&& 0 <= #[trigger] s1.free[i]
                    &&& s1.free[i] + s1.held[i] == s1.devices[i].buffer
                } by {
                    assert(0 <= s0.free[i]);
                }
            }
        }
        match code_phases(&self.cluster.devices[device], &w.fwd) {
            None => Ok(()),
            Some(fwd) => match code_phases(&self.cluster.devices[device], &w.bwd) {
                None => Ok(()),
                Some(bwd) => {
                    let first = self.window_of(w, device, resident, Pass::Fwd, fwd);
                    match self.push_annotated(first) {
                        Ok(_) => {},
                        Err(e) => {
                            return Err(e);
                        },
                    }
                    assert(self@.balanced());
                    let second = self.window_of(w, device, resident, Pass::Bwd, bwd);
                    self.push_annotated(second)
                },
            },
        }
    }
}

} // verus!
