//! The schedule of a model: its matrices, its tasks cut into tiles, and the
//! jobs between them.
use vstd::prelude::*;
use vstd::string::StringExecFns;
use crate::cluster::{Cluster, Device, Exec, Home, HomeKind, Kernel, Pass, Role, StageError, StagePlan, Window, KERNEL_CODE_BYTES};
use crate::kernel::{Program, Stage};
use crate::mixtral::{Layout, LayerLayout, MixtralConfig};
use crate::planner::{Matrix, Planner, Work};
use crate::text;
use crate::theory::plans::{Dev, Fault, Mat, Plan, State, Task};

verus! {

// ----- tasks -----

/// Work that is cut into tiles.
pub enum Piece<'b> {
    Linear { matrix: &'b Matrix },
    Attention { name: String, queries: u64, keys: u64, dim: u64, layer: u32, fwd: Vec<Kernel>, bwd: Vec<Kernel> },
    Loss { tokens: u64, vocab: u64 },
}

impl<'b> View for Piece<'b> {
    type V = Task;

    open spec fn view(&self) -> Task {
        match *self {
            Piece::Linear { matrix } => Task::Linear { matrix: matrix@ },
            Piece::Attention { name, queries, keys, dim, layer, fwd, bwd } => Task::Attention {
                name: name@,
                queries: queries as int,
                keys: keys as int,
                dim: dim as int,
                layer: layer as int,
                fwd: fwd@,
                bwd: bwd@,
            },
            Piece::Loss { tokens, vocab } => Task::Loss { tokens: tokens as int, vocab: vocab as int },
        }
    }
}

/// The task as a single tile takes no more bytes than a word can count.
pub open spec fn countable(t: Task) -> bool {
    let (a, b, c) = t.full();
    t.need(a, b, c) <= u64::MAX
}

proof fn lemma_grows(a: int, b: int, x: int, y: int)
    requires
        0 <= a <= x,
        0 <= b <= y,
    ensures
        0 <= a * b <= x * y,
{
    assert(0 <= a * b <= x * y) by (nonlinear_arith)
        requires 0 <= a <= x, 0 <= b <= y;
}

/// A smaller tile takes no more bytes.
proof fn lemma_need_grows(t: Task, a: int, b: int, c: int)
    requires
        0 <= a <= t.full().0,
        0 <= b <= t.full().1,
        0 <= c <= t.full().2,
    ensures
        t.need(a, b, c) <= t.need(t.full().0, t.full().1, t.full().2),
{
    let (x, y, z) = t.full();
    lemma_grows(a, b, x, y);
    lemma_grows(a, c, x, z);
    lemma_grows(b, c, y, z);
}

fn linear_footprint(rows: u64, din: u64, dout: u64, mask: bool) -> (r: u64)
    requires
        crate::theory::plans::linear_need(rows as int, din as int, dout as int, mask) <= u64::MAX,
    ensures
        r == crate::theory::plans::linear_need(rows as int, din as int, dout as int, mask),
{
    proof {
        crate::theory::plan_laws::lemma_needs(rows as int, din as int, dout as int, mask);
    }
    let x: u64 = rows * din;
    let y: u64 = rows * dout;
    let w: u64 = din * dout;
    (x + x + y + w + w) * 4 + if mask {
        y
    } else {
        0
    }
}

fn attn_footprint(queries: u64, keys: u64, dim: u64) -> (r: u64)
    requires
        crate::theory::plans::attention_need(queries as int, keys as int, dim as int) <= u64::MAX,
    ensures
        r == crate::theory::plans::attention_need(queries as int, keys as int, dim as int),
{
    proof {
        crate::theory::plan_laws::lemma_needs(queries as int, keys as int, dim as int, false);
    }
    let q: u64 = queries * dim;
    let k: u64 = keys * dim;
    let p: u64 = queries * keys;
    (q + q + k + k + p + p) * 4
}

impl<'b> Piece<'b> {
    fn need(&self, a: u64, b: u64, c: u64) -> (r: u64)
        requires
            crate::theory::plan_laws::good_task(self@),
            self@.need(a as int, b as int, c as int) <= u64::MAX,
        ensures
            r == self@.need(a as int, b as int, c as int),
    {
        match self {
            Piece::Linear { matrix } => linear_footprint(a, b, c, matrix.mask_per_col) + matrix.extra,
            Piece::Attention { .. } => attn_footprint(a, b, c),
            Piece::Loss { .. } => linear_footprint(a, b, c, false),
        }
    }

    fn cutting(&self) -> (r: Vec<Kernel>)
        ensures
            r@ == self@.cutting(),
    {
        match self {
            Piece::Attention { fwd, bwd, .. } => crate::planner::both_kernels(fwd, bwd),
            _ => {
                let r: Vec<Kernel> = vec![Kernel::Linear, Kernel::LinearDx, Kernel::LinearDw];
                assert(r@ =~= seq![Kernel::Linear, Kernel::LinearDx, Kernel::LinearDw]);
                r
            },
        }
    }

    fn sizes(&self) -> (r: (u64, u64, u64))
        ensures
            (r.0 as int, r.1 as int, r.2 as int) == self@.sizes(),
    {
        match self {
            Piece::Linear { matrix } => (matrix.batch, matrix.rows, matrix.cols),
            Piece::Attention { queries, keys, dim, .. } => (*queries, *keys, *dim),
            Piece::Loss { tokens, vocab } => (*tokens, 1, *vocab),
        }
    }

    fn extents(&self) -> (r: (u64, u64, u64))
        ensures
            (r.0 as int, r.1 as int, r.2 as int) == self@.extents(),
    {
        match self {
            Piece::Linear { matrix } => (matrix.batch, matrix.rows, matrix.cols),
            Piece::Attention { queries, keys, dim, .. } => (*queries, *dim, *keys),
            Piece::Loss { tokens, vocab } => (*tokens, 1, *vocab),
        }
    }

    fn steps(&self, t: (u64, u64, u64)) -> (r: (u64, u64, u64))
        ensures
            (r.0 as int, r.1 as int, r.2 as int) == self@.steps((t.0 as int, t.1 as int, t.2 as int)),
    {
        match self {
            Piece::Linear { .. } => t,
            Piece::Attention { .. } => (t.0, t.2, t.1),
            Piece::Loss { .. } => (t.0, 1, t.2),
        }
    }
}

fn at_least_one(x: u64) -> (r: u64)
    ensures
        r == crate::theory::plans::most(x as int, 1),
{
    if x < 1 {
        1
    } else {
        x
    }
}

fn step_to(from: u64, step: u64, end: u64) -> (r: u64)
    requires
        from < end,
        step >= 1,
    ensures
        r == crate::theory::plans::least(from + step, end as int),
        from < r <= end,
{
    if end - from <= step {
        end
    } else {
        from + step
    }
}

/// The number that goes with a matrix in its windows.
fn matrix_expert(role: Role) -> (r: u32)
    ensures
        r == crate::theory::plans::role_code(role),
{
    match role {
        Role::FfnNorm => 1,
        Role::FinalNorm => 2,
        Role::Gate(e) | Role::Up(e) | Role::Down(e) | Role::Gemm(e) | Role::Bias(e) => if e as u64 <= u32::MAX as u64 {
            e as u32
        } else {
            0
        },
        _ => 0,
    }
}

fn exec_of(kernel: Kernel) -> (r: Exec)
    ensures
        r == crate::theory::plans::exec_of(kernel),
{
    match kernel {
        Kernel::Embed | Kernel::EmbedBwd => Exec::Embed,
        Kernel::RmsNorm | Kernel::RmsNormBwd => Exec::RmsNorm,
        _ => Exec::Linear,
    }
}

fn label(template: &str, args: &Vec<String>) -> (r: String)
    ensures
        r@ == text::filled(template@, text::texts(args@)),
{
    let mut out = String::new();
    text::push_filled(&mut out, template, args.as_slice());
    assert(out@ =~= text::filled(template@, text::texts(args@)));
    out
}

/// A label with one number.
fn label1(template: &str, a: u64) -> (r: String)
    ensures
        r@ == crate::theory::plans::layer_name(template@, a as int),
{
    let args: Vec<String> = vec![text::decimal(a)];
    assert(text::texts(args@) =~= seq![text::dec(a as int)]);
    label(template, &args)
}

/// A label with two numbers.
fn label2(template: &str, a: u64, b: u64) -> (r: String)
    ensures
        r@ == crate::theory::plans::expert_name(template@, a as int, b as int),
{
    let args: Vec<String> = vec![text::decimal(a), text::decimal(b)];
    assert(text::texts(args@) =~= seq![text::dec(a as int), text::dec(b as int)]);
    label(template, &args)
}

/// A label with a name and three ranges.
fn label7(name: &String, a: (u64, u64), b: (u64, u64), c: (u64, u64)) -> (r: String)
    ensures
        r@ == text::filled(
            "$a[$b:$c,$d:$e,$f:$g]"@,
            seq![
                name@,
                text::dec(a.0 as int),
                text::dec(a.1 as int),
                text::dec(b.0 as int),
                text::dec(b.1 as int),
                text::dec(c.0 as int),
                text::dec(c.1 as int),
            ],
        ),
{
    let args: Vec<String> = vec![
        name.clone(),
        text::decimal(a.0),
        text::decimal(a.1),
        text::decimal(b.0),
        text::decimal(b.1),
        text::decimal(c.0),
        text::decimal(c.1),
    ];
    assert(text::texts(args@) =~= seq![
        name@,
        text::dec(a.0 as int),
        text::dec(a.1 as int),
        text::dec(b.0 as int),
        text::dec(b.1 as int),
        text::dec(c.0 as int),
        text::dec(c.1 as int),
    ]);
    label("$a[$b:$c,$d:$e,$f:$g]", &args)
}

impl<'a> Planner<'a> {
    fn tile_fits(&self, i: usize, need: u64, kernels: &Vec<Kernel>) -> (r: bool)
        requires
            self@.balanced(),
            i < self@.count(),
        ensures
            r == self@.tile_fits(i as int, need as int, kernels@),
    {
        let dev: &Device = &self.cluster.devices[i];
        assert(self@.devices[i as int] == dev@);
        self.home_bytes[i] as u128 + need as u128 <= dev.buffer_bytes as u128 && crate::planner::code_phases(
            dev,
            kernels,
        ).is_some()
    }

    fn some_device_fits(&self, need: u64, kernels: &Vec<Kernel>) -> (r: bool)
        requires
            self@.balanced(),
        ensures
            r == self@.some_fits(need as int, kernels@),
    {
        let n: usize = self.cluster.devices.len();
        let mut i: usize = 0;
        while i < n
            invariant
                i <= n,
                n == self@.count(),
                self@.balanced(),
                forall|k: int|
                    0 <= k < i ==> !(#[trigger] self@.tile_fits(k, need as int, kernels@) && self@.activation_fault(
                        k,
                        need as int,
                    ) is None),
            decreases n - i,
        {
            if self.tile_fits(i, need, kernels) && self.activation_fault(i, need).is_none() {
                return true;
            }
            i = i + 1;
        }
        false
    }

    fn memory_and_code_fit(&self, need: u64, kernels: &Vec<Kernel>) -> (r: bool)
        requires
            self@.balanced(),
        ensures
            r == self@.memory_fits(need as int, kernels@),
    {
        let n: usize = self.cluster.devices.len();
        let mut i: usize = 0;
        while i < n
            invariant
                i <= n,
                n == self@.count(),
                self@.balanced(),
                forall|k: int| 0 <= k < i ==> !#[trigger] self@.tile_fits(k, need as int, kernels@),
            decreases n - i,
        {
            if self.tile_fits(i, need, kernels) {
                return true;
            }
            i = i + 1;
        }
        false
    }

    fn blocked_route(&self, need: u64) -> (r: StageError)
        requires
            self@.balanced(),
            self@.count() > 0,
        ensures
            r@ == self@.blocked_route(need as int),
    {
        let from: usize = match self.activation_home_for(need) {
            Some(h) => h,
            None => 0,
        };
        let n: usize = self.cluster.devices.len();
        let mut i: usize = 0;
        while i < n
            invariant
                i <= n,
                n == self@.count(),
                n == self.cluster.devices@.len(),
                self@.balanced(),
                from == match self@.activation_home(need as int) {
                    Some(h) => h,
                    None => 0,
                },
                self@.other_with_room(from as int, need as int, 0) == self@.other_with_room(from as int, need as int, i as int),
            decreases n - i,
        {
            assert(self@.devices[i as int] == self.cluster.devices@[i as int]@);
            if self.home_bytes[i] as u128 + need as u128 <= self.cluster.devices[i].buffer_bytes as u128 && i != from {
                return StageError::RouteUnavailable { from, to: i, bytes: need };
            }
            i = i + 1;
        }
        StageError::RouteUnavailable { from, to: from, bytes: need }
    }

    /// The largest tile, halving the largest side, for which some device has
    /// room.
    fn fit(&self, p: &Piece) -> (r: Result<(u64, u64, u64), StageError>)
        requires
            self@.balanced(),
            self@.count() > 0,
            crate::theory::plan_laws::good_task(p@),
            countable(p@),
        ensures
            ({
                let (a, b, c) = p@.full();
                match r {
                    Ok(t) => {
                        &&& self@.shrink(p@, a, b, c) == Ok::<(int, int, int), Fault>((t.0 as int, t.1 as int, t.2 as int))
                        &&& 1 <= t.0 <= a
                        &&& 1 <= t.1 <= b
                        &&& 1 <= t.2 <= c
                    },
                    Err(e) => self@.shrink(p@, a, b, c) == Err::<(int, int, int), Fault>(e@),
                }
            }),
    {
        let ghost t = p@;
        let ghost full = t.full();
        let kernels = p.cutting();
        let sizes: (u64, u64, u64) = p.sizes();
        let mut a: u64 = at_least_one(sizes.0);
        let mut b: u64 = at_least_one(sizes.1);
        let mut c: u64 = at_least_one(sizes.2);
        loop
            invariant
                self@.balanced(),
                self@.count() > 0,
                crate::theory::plan_laws::good_task(t),
                countable(t),
                t == p@,
                full == t.full(),
                kernels@ == t.cutting(),
                1 <= a <= full.0,
                1 <= b <= full.1,
                1 <= c <= full.2,
                self@.shrink(t, full.0, full.1, full.2) == self@.shrink(t, a as int, b as int, c as int),
            decreases a + b + c,
        {
            proof {
                lemma_need_grows(t, a as int, b as int, c as int);
            }
            let need: u64 = p.need(a, b, c);
            if self.some_device_fits(need, &kernels) {
                return Ok((a, b, c));
            }
            if c >= a && c >= b && c > 1 {
                c = c / 2 + c % 2;
            } else if a >= b && a > 1 {
                a = a / 2 + a % 2;
            } else if b > 1 {
                b = b / 2 + b % 2;
            } else if self.memory_and_code_fit(need, &kernels) {
                return Err(self.blocked_route(need));
            } else {
                return Err(StageError::TileExceedsDevices { need, largest: crate::planner::largest_buffer(self.cluster) });
            }
        }
    }

    fn linear_tile(&self, m: &Matrix, a: (u64, u64), b: (u64, u64), c: (u64, u64)) -> (r: Work)
        requires
            self@.sound(),
            crate::theory::plan_laws::good_mat(m@),
            countable(Task::Linear { matrix: m@ }),
            a.0 <= a.1 <= m.batch,
            b.0 <= b.1 <= m.rows,
            c.0 <= c.1 <= m.cols,
        ensures
            r@ == self@.tile(
                Task::Linear { matrix: m@ },
                (a.0 as int, a.1 as int),
                (b.0 as int, b.1 as int),
                (c.0 as int, c.1 as int),
            ),
    {
        let ghost t = Task::Linear { matrix: m@ };
        let rows: u64 = a.1 - a.0;
        let k: u64 = b.1 - b.0;
        let w: u64 = c.1 - c.0;
        proof {
            lemma_need_grows(t, rows as int, k as int, w as int);
            crate::theory::plan_laws::lemma_needs(rows as int, k as int, w as int, m.mask_per_col);
        }
        let footprint: u64 = linear_footprint(rows, k, w, m.mask_per_col) + m.extra;
        let mask: u64 = if m.mask_per_col {
            rows * w
        } else {
            0
        };
        let home: usize = self.home_device(&m.name, b.0, c.0);
        Work {
            name: label7(&m.name, a, b, c),
            op: exec_of(m.fwd[0]),
            footprint,
            home: Some(home),
            param_bytes: k * w * 4,
            tape_bytes: rows * k * 4 + rows * w * 4 + mask,
            placing: crate::planner::both_kernels(&m.fwd, &m.bwd),
            fwd: crate::planner::copy_kernels(&m.fwd),
            bwd: crate::planner::copy_kernels(&m.bwd),
            param_offset: m.offset,
            batch_begin: a.0,
            batch_end: a.1,
            row_begin: b.0,
            row_end: b.1,
            col_begin: c.0,
            col_end: c.1,
            din: m.rows,
            dout: m.cols,
            layer: m.layer as u32,
            expert: matrix_expert(m.role),
        }
    }

    /// The work of one tile.
    fn tile(&self, p: &Piece, a: (u64, u64), b: (u64, u64), c: (u64, u64)) -> (r: Work)
        requires
            self@.sound(),
            crate::theory::plan_laws::good_task(p@),
            countable(p@),
            a.0 <= a.1 <= p@.extents().0,
            b.0 <= b.1 <= p@.extents().1,
            c.0 <= c.1 <= p@.extents().2,
        ensures
            r@ == self@.tile(p@, (a.0 as int, a.1 as int), (b.0 as int, b.1 as int), (c.0 as int, c.1 as int)),
    {
        let ghost t = p@;
        let ghost want = self@.tile(t, (a.0 as int, a.1 as int), (b.0 as int, b.1 as int), (c.0 as int, c.1 as int));
        match p {
            Piece::Linear { matrix } => self.linear_tile(matrix, a, b, c),
            Piece::Attention { name, queries, keys, dim, layer, fwd, bwd } => {
                let rows: u64 = a.1 - a.0;
                let kn: u64 = c.1 - c.0;
                let wide: u64 = b.1 - b.0;
                proof {
                    lemma_need_grows(t, rows as int, kn as int, wide as int);
                    crate::theory::plan_laws::lemma_needs(rows as int, kn as int, wide as int, false);
                }
                Work {
                    name: label7(name, a, c, b),
                    op: Exec::Gqa,
                    footprint: attn_footprint(rows, kn, wide),
                    home: None,
                    param_bytes: 0,
                    tape_bytes: rows * kn * 4,
                    placing: crate::planner::both_kernels(fwd, bwd),
                    fwd: crate::planner::copy_kernels(fwd),
                    bwd: crate::planner::copy_kernels(bwd),
                    param_offset: 0,
                    batch_begin: a.0,
                    batch_end: a.1,
                    row_begin: c.0,
                    row_end: c.1,
                    col_begin: b.0,
                    col_end: b.1,
                    din: *keys,
                    dout: *dim,
                    layer: *layer,
                    expert: 0,
                }
            },
            Piece::Loss { tokens, vocab } => {
                let rows: u64 = a.1 - a.0;
                let wide: u64 = c.1 - c.0;
                proof {
                    lemma_need_grows(t, rows as int, 1, wide as int);
                    crate::theory::plan_laws::lemma_needs(rows as int, 1, wide as int, false);
                }
                let args: Vec<String> = vec![
                    text::decimal(a.0),
                    text::decimal(a.1),
                    text::decimal(c.0),
                    text::decimal(c.1),
                ];
                assert(text::texts(args@) =~= seq![
                    text::dec(a.0 as int),
                    text::dec(a.1 as int),
                    text::dec(c.0 as int),
                    text::dec(c.1 as int),
                ]);
                let placing: Vec<Kernel> = vec![Kernel::Ce, Kernel::Sgd];
                let fwd: Vec<Kernel> = vec![Kernel::Ce];
                let bwd: Vec<Kernel> = vec![Kernel::Ce];
                let r = Work {
                    name: label("loss[$a:$b,$c:$d]", &args),
                    op: Exec::Loss,
                    footprint: linear_footprint(rows, 1, wide, false),
                    home: None,
                    param_bytes: 0,
                    tape_bytes: rows * wide * 4,
                    placing,
                    fwd,
                    bwd,
                    param_offset: 0,
                    batch_begin: a.0,
                    batch_end: a.1,
                    row_begin: 0,
                    row_end: 1,
                    col_begin: c.0,
                    col_end: c.1,
                    din: 1,
                    dout: *vocab,
                    layer: 0,
                    expert: 0,
                };
                assert(r@ =~= want);
                r
            },
        }
    }

    fn tiles_c(&mut self, p: &Piece, st: (u64, u64, u64), a: (u64, u64), b: (u64, u64)) -> (r: Result<(), StageError>)
        requires
            old(self)@.sound(),
            crate::theory::plan_laws::good_task(p@),
            countable(p@),
            st.2 >= 1,
            a.0 <= a.1 <= p@.extents().0,
            b.0 <= b.1 <= p@.extents().1,
        ensures
            final(self).cluster == old(self).cluster,
            crate::planner::agrees(
                r,
                final(self)@,
                old(self)@.tiles_c(
                    p@,
                    (st.0 as int, st.1 as int, st.2 as int),
                    (a.0 as int, a.1 as int),
                    (b.0 as int, b.1 as int),
                    0,
                ),
            ),
            r is Ok ==> final(self)@.sound() && old(self)@.same_homes(final(self)@),
    {
        let ghost s0 = self@;
        let ghost stv = (st.0 as int, st.1 as int, st.2 as int);
        let ghost av = (a.0 as int, a.1 as int);
        let ghost bv = (b.0 as int, b.1 as int);
        let ghost want = s0.tiles_c(p@, stv, av, bv, 0);
        let end: u64 = p.extents().2;
        let mut c: u64 = 0;
        while c < end
            invariant
                self.cluster == old(self).cluster,
                s0 == old(self)@,
                self@.sound(),
                s0.same_homes(self@),
                crate::theory::plan_laws::good_task(p@),
                countable(p@),
                st.2 >= 1,
                a.0 <= a.1 <= p@.extents().0,
                b.0 <= b.1 <= p@.extents().1,
                c <= end,
                end == p@.extents().2,
                stv == (st.0 as int, st.1 as int, st.2 as int),
                av == (a.0 as int, a.1 as int),
                bv == (b.0 as int, b.1 as int),
                want == s0.tiles_c(p@, stv, av, bv, 0),
                want == self@.tiles_c(p@, stv, av, bv, c as int),
            decreases end - c,
        {
            let next: u64 = step_to(c, st.2, end);
            let work = self.tile(p, a, b, (c, next));
            proof {
                crate::theory::plan_laws::lemma_tile(self@, p@, av, bv, (c as int, next as int));
            }
            match self.run(&work) {
                Ok(_) => {},
                Err(e) => {
                    return Err(e);
                },
            }
            c = next;
        }
        Ok(())
    }

    fn tiles_b(&mut self, p: &Piece, st: (u64, u64, u64), a: (u64, u64)) -> (r: Result<(), StageError>)
        requires
            old(self)@.sound(),
            crate::theory::plan_laws::good_task(p@),
            countable(p@),
            st.1 >= 1,
            st.2 >= 1,
            a.0 <= a.1 <= p@.extents().0,
        ensures
            final(self).cluster == old(self).cluster,
            crate::planner::agrees(
                r,
                final(self)@,
                old(self)@.tiles_b(p@, (st.0 as int, st.1 as int, st.2 as int), (a.0 as int, a.1 as int), 0),
            ),
            r is Ok ==> final(self)@.sound() && old(self)@.same_homes(final(self)@),
    {
        let ghost s0 = self@;
        let ghost stv = (st.0 as int, st.1 as int, st.2 as int);
        let ghost av = (a.0 as int, a.1 as int);
        let ghost want = s0.tiles_b(p@, stv, av, 0);
        let end: u64 = p.extents().1;
        let mut b: u64 = 0;
        while b < end
            invariant
                self.cluster == old(self).cluster,
                s0 == old(self)@,
                self@.sound(),
                s0.same_homes(self@),
                crate::theory::plan_laws::good_task(p@),
                countable(p@),
                st.1 >= 1,
                st.2 >= 1,
                a.0 <= a.1 <= p@.extents().0,
                b <= end,
                end == p@.extents().1,
                stv == (st.0 as int, st.1 as int, st.2 as int),
                av == (a.0 as int, a.1 as int),
                want == s0.tiles_b(p@, stv, av, 0),
                want == self@.tiles_b(p@, stv, av, b as int),
            decreases end - b,
        {
            let next: u64 = step_to(b, st.1, end);
            match self.tiles_c(p, st, a, (b, next)) {
                Ok(_) => {},
                Err(e) => {
                    return Err(e);
                },
            }
            b = next;
        }
        Ok(())
    }

    /// Cut a task into tiles that fit, and place them all.
    pub fn emit(&mut self, p: &Piece) -> (r: Result<(), StageError>)
        requires
            old(self)@.sound(),
            crate::theory::plan_laws::good_task(p@),
            countable(p@),
        ensures
            final(self).cluster == old(self).cluster,
            crate::planner::agrees(r, final(self)@, old(self)@.emit(p@)),
            r is Ok ==> final(self)@.sound() && old(self)@.same_homes(final(self)@),
    {
        let ghost s0 = self@;
        let tile: (u64, u64, u64) = match self.fit(p) {
            Ok(t) => t,
            Err(e) => {
                return Err(e);
            },
        };
        let st: (u64, u64, u64) = p.steps(tile);
        let ghost stv = (st.0 as int, st.1 as int, st.2 as int);
        let ghost want = s0.tiles_a(p@, stv, 0);
        assert(s0.emit(p@) == want);
        let end: u64 = p.extents().0;
        let mut a: u64 = 0;
        while a < end
            invariant
                self.cluster == old(self).cluster,
                s0 == old(self)@,
                self@.sound(),
                s0.same_homes(self@),
                crate::theory::plan_laws::good_task(p@),
                countable(p@),
                st.0 >= 1,
                st.1 >= 1,
                st.2 >= 1,
                a <= end,
                end == p@.extents().0,
                stv == (st.0 as int, st.1 as int, st.2 as int),
                want == s0.emit(p@),
                want == self@.tiles_a(p@, stv, a as int),
            decreases end - a,
        {
            let next: u64 = step_to(a, st.0, end);
            match self.tiles_b(p, st, (a, next)) {
                Ok(_) => {},
                Err(e) => {
                    return Err(e);
                },
            }
            a = next;
        }
        Ok(())
    }
}

// ----- matrices -----

fn linear_matrix(name: String, role: Role, layer: usize, rows: u64, cols: u64, n: u64, offset: usize) -> (r: Matrix)
    ensures
        r@ == crate::theory::plans::linear_mat(name@, role, layer as int, rows as int, cols as int, n as int, offset as int),
{
    let fwd: Vec<Kernel> = vec![Kernel::Linear];
    let bwd: Vec<Kernel> = vec![Kernel::LinearDx, Kernel::LinearDw];
    let r = Matrix {
        name,
        role,
        layer,
        rows,
        cols,
        batch: n,
        extra: 0,
        offset: offset as u64,
        fwd,
        bwd,
        mask_per_col: false,
    };
    assert(r@ =~= crate::theory::plans::linear_mat(
        name@,
        role,
        layer as int,
        rows as int,
        cols as int,
        n as int,
        offset as int,
    ));
    r
}

fn norm_matrix(name: String, role: Role, layer: usize, dim: u64, n: u64, offset: usize) -> (r: Matrix)
    ensures
        r@ == crate::theory::plans::norm_mat(name@, role, layer as int, dim as int, n as int, offset as int),
{
    let fwd: Vec<Kernel> = vec![Kernel::RmsNorm];
    let bwd: Vec<Kernel> = vec![Kernel::RmsNormBwd];
    let r = Matrix {
        name,
        role,
        layer,
        rows: dim,
        cols: 1,
        batch: n,
        extra: 0,
        offset: offset as u64,
        fwd,
        bwd,
        mask_per_col: false,
    };
    assert(r@ =~= crate::theory::plans::norm_mat(name@, role, layer as int, dim as int, n as int, offset as int));
    r
}

/// The matrices of a layer, in the order of the parameter buffer.
fn layer_matrices(cfg: &MixtralConfig, place: &LayerLayout, l: usize, n: u64) -> (r: Vec<Matrix>)
    requires
        cfg.q_width() <= usize::MAX,
        cfg.kv_width() <= usize::MAX,
        place@ == cfg.layer_places(l as int),
    ensures
        crate::theory::listing::views(r@) == crate::theory::plans::layer_mats(*cfg, l as int, n as int),
{
    let dim: u64 = cfg.dim as u64;
    let q: u64 = cfg.q_dim() as u64;
    let kv: u64 = cfg.kv_dim() as u64;
    let inter: u64 = cfg.intermediate as u64;
    let lx: u64 = l as u64;
    let ghost c = *cfg;
    let mut out: Vec<Matrix> = vec![
        norm_matrix(label1("L$a-attn-norm", lx), Role::AttnNorm, l, dim, n, place.attn_norm),
        linear_matrix(label1("L$a-q", lx), Role::Query, l, dim, q, n, place.q),
        linear_matrix(label1("L$a-k", lx), Role::Key, l, dim, kv, n, place.k),
        linear_matrix(label1("L$a-v", lx), Role::Value, l, dim, kv, n, place.v),
        linear_matrix(label1("L$a-o", lx), Role::Output, l, q, dim, n, place.o),
        norm_matrix(label1("L$a-ffn-norm", lx), Role::FfnNorm, l, dim, n, place.ffn_norm),
        linear_matrix(label1("L$a-router", lx), Role::Router, l, dim, cfg.experts as u64, n, place.router),
    ];
    let ghost front = crate::theory::plans::front_mats(c, l as int, n as int);
    let ghost f = |e: int| crate::theory::plans::expert_mats(c, l as int, n as int, e);
    let mut e: usize = 0;
    assert(crate::theory::listing::views(out@) =~= front + crate::theory::listing::cat(0, f));
    assert(crate::mixtral::offsets(place.gate@).len() == c.experts);
    assert(crate::mixtral::offsets(place.up@).len() == c.experts);
    assert(crate::mixtral::offsets(place.down@).len() == c.experts);
    while e < cfg.experts
        invariant
            e <= cfg.experts,
            c == *cfg,
            place@ == c.layer_places(l as int),
            place.gate@.len() == c.experts,
            place.up@.len() == c.experts,
            place.down@.len() == c.experts,
            dim == c.dim,
            inter == c.intermediate,
            lx == l,
            front == crate::theory::plans::front_mats(c, l as int, n as int),
            f == (|e: int| crate::theory::plans::expert_mats(c, l as int, n as int, e)),
            crate::theory::listing::views(out@) == front + crate::theory::listing::cat(e as int, f),
        decreases cfg.experts - e,
    {
        let ghost before = out@;
        let ex: u64 = e as u64;
        assert(crate::mixtral::offsets(place.gate@)[e as int] == place.gate@[e as int]);
        assert(crate::mixtral::offsets(place.up@)[e as int] == place.up@[e as int]);
        assert(crate::mixtral::offsets(place.down@)[e as int] == place.down@[e as int]);
        out.push(linear_matrix(label2("L$a-gate-$b", lx, ex), Role::Gate(e), l, dim, inter, n, place.gate[e]));
        out.push(linear_matrix(label2("L$a-up-$b", lx, ex), Role::Up(e), l, dim, inter, n, place.up[e]));
        out.push(linear_matrix(label2("L$a-down-$b", lx, ex), Role::Down(e), l, inter, dim, n, place.down[e]));
        proof {
            let more = crate::theory::plans::expert_mats(c, l as int, n as int, e as int);
            assert(crate::theory::listing::views(out@) =~= crate::theory::listing::views(before) + more);
            assert(crate::theory::listing::views(out@) =~= front + crate::theory::listing::cat(e + 1, f));
        }
        e = e + 1;
    }
    out
}

fn embed_matrix(cfg: &MixtralConfig, n: u64) -> (r: Matrix)
    requires
        n * cfg.dim * 4 <= u64::MAX,
    ensures
        r@ == crate::theory::plans::embed_mat(*cfg, n as int),
{
    let fwd: Vec<Kernel> = vec![Kernel::Embed];
    let bwd: Vec<Kernel> = vec![Kernel::EmbedBwd];
    let dim: u64 = cfg.dim as u64;
    proof {
        crate::theory::plan_laws::lemma_products(*cfg, n as int);
    }
    let r = Matrix {
        name: String::from_str("embed"),
        role: Role::Embed,
        layer: 0,
        rows: cfg.vocab as u64,
        cols: dim,
        batch: 1,
        extra: n * dim * 4,
        offset: 0,
        fwd,
        bwd,
        mask_per_col: false,
    };
    assert(r@ =~= crate::theory::plans::embed_mat(*cfg, n as int));
    r
}

/// Every matrix of the model, in the order of the parameter buffer.
fn mixtral_matrices(cfg: &MixtralConfig, lay: &Layout, n: u64) -> (r: Vec<Matrix>)
    requires
        cfg.fits(),
        lay@ == cfg.places(),
        n * cfg.dim * 4 <= u64::MAX,
    ensures
        crate::theory::listing::views(r@) == crate::theory::plans::mixtral_mats(*cfg, n as int),
{
    let ghost c = *cfg;
    let dim: u64 = cfg.dim as u64;
    let mut out: Vec<Matrix> = vec![embed_matrix(cfg, n)];
    let ghost first = seq![crate::theory::plans::embed_mat(c, n as int)];
    let ghost f = |l: int| crate::theory::plans::layer_mats(c, l, n as int);
    let mut l: usize = 0;
    assert(crate::theory::listing::views(out@) =~= first + crate::theory::listing::cat(0, f));
    assert(lay@.layers.len() == c.layers);
    while l < cfg.layers
        invariant
            l <= cfg.layers,
            c == *cfg,
            cfg.fits(),
            lay@ == c.places(),
            lay.layers@.len() == c.layers,
            f == (|l: int| crate::theory::plans::layer_mats(c, l, n as int)),
            crate::theory::listing::views(out@) == first + crate::theory::listing::cat(l as int, f),
        decreases cfg.layers - l,
    {
        let ghost before = out@;
        assert(lay@.layers[l as int] == c.layer_places(l as int));
        let mut more = layer_matrices(cfg, &lay.layers[l], l, n);
        let ghost added = more@;
        out.append(&mut more);
        proof {
            crate::theory::listing::lemma_views_add(before, added);
            assert(crate::theory::listing::views(out@) =~= first + crate::theory::listing::cat(l + 1, f));
        }
        l = l + 1;
    }
    let ghost before = out@;
    out.push(norm_matrix(String::from_str("final-norm"), Role::FinalNorm, 0, dim, n, lay.final_norm));
    out.push(linear_matrix(String::from_str("lm-head"), Role::LmHead, 0, dim, cfg.vocab as u64, n, lay.lm_head));
    assert(crate::theory::listing::views(out@) =~= crate::theory::plans::mixtral_mats(c, n as int));
    out
}

fn program_matrices(prog: &Program) -> (r: Vec<Matrix>)
    ensures
        crate::theory::listing::views(r@) == crate::theory::plans::program_mats(prog.stages@),
{
    let ghost stages = prog.stages@;
    let ghost f = |i: int| crate::theory::plans::stage_mats(stages[i], i);
    let mut out: Vec<Matrix> = Vec::new();
    let mut i: usize = 0;
    assert(crate::theory::listing::views(out@) =~= crate::theory::listing::cat(0, f));
    while i < prog.stages.len()
        invariant
            i <= stages.len(),
            stages == prog.stages@,
            f == (|i: int| crate::theory::plans::stage_mats(stages[i], i)),
            crate::theory::listing::views(out@) == crate::theory::listing::cat(i as int, f),
        decreases prog.stages.len() - i,
    {
        let ghost before = crate::theory::listing::views(out@);
        match prog.stages[i] {
            Stage::Gemm { batch, din, dout, relu, .. } => {
                let bwd: Vec<Kernel> = if relu {
                    vec![Kernel::ReluBwd, Kernel::GemmDx, Kernel::GemmDw, Kernel::GemmDb]
                } else {
                    vec![Kernel::GemmDx, Kernel::GemmDw, Kernel::GemmDb]
                };
                let fwd: Vec<Kernel> = vec![Kernel::GemmFwd];
                let weight = Matrix {
                    name: label1("gemm-$a", i as u64),
                    role: Role::Gemm(i),
                    layer: 0,
                    rows: din as u64,
                    cols: dout as u64,
                    batch: batch as u64,
                    extra: 0,
                    offset: 0,
                    fwd,
                    bwd,
                    mask_per_col: relu,
                };
                let fwd: Vec<Kernel> = vec![Kernel::GemmFwd];
                let bwd: Vec<Kernel> = vec![Kernel::GemmDb];
                let bias = Matrix {
                    name: label1("bias-$a", i as u64),
                    role: Role::Bias(i),
                    layer: 0,
                    rows: 1,
                    cols: dout as u64,
                    batch: batch as u64,
                    extra: 0,
                    offset: 0,
                    fwd,
                    bwd,
                    mask_per_col: false,
                };
                proof {
                    let want = crate::theory::plans::stage_mats(stages[i as int], i as int);
                    assert(weight@ =~= want[0]);
                    assert(bias@ =~= want[1]);
                    crate::theory::listing::lemma_views_push(out@, weight);
                    crate::theory::listing::lemma_views_push(out@.push(weight), bias);
                    assert(before.push(weight@).push(bias@) =~= before + want);
                }
                out.push(weight);
                out.push(bias);
            },
            _ => {
                assert(before + Seq::<Mat>::empty() =~= before);
            },
        }
        i = i + 1;
    }
    out
}

/// The parameters of a list of matrices.
fn parameters(ms: &Vec<Matrix>) -> (r: u64)
    requires
        crate::theory::plans::mats_len(crate::theory::listing::views(ms@), ms@.len() as int) <= u64::MAX,
    ensures
        r == crate::theory::plans::mats_len(crate::theory::listing::views(ms@), ms@.len() as int),
{
    let ghost vs = crate::theory::listing::views(ms@);
    let ghost f = |i: int| vs[i].rows * vs[i].cols;
    let n: usize = ms.len();
    let mut total: u64 = 0;
    let mut i: usize = 0;
    assert forall|k: int| 0 <= k < n implies #[trigger] f(k) >= 0 by {
        let m = vs[k];
        assert(m == ms@[k]@);
        assert(m.rows * m.cols >= 0) by (nonlinear_arith)
            requires m.rows >= 0, m.cols >= 0;
    }
    while i < n
        invariant
            i <= n,
            n == ms@.len(),
            vs == crate::theory::listing::views(ms@),
            f == (|i: int| vs[i].rows * vs[i].cols),
            forall|k: int| 0 <= k < n ==> #[trigger] f(k) >= 0,
            crate::theory::sums::sum(n as int, f) <= u64::MAX,
            total == crate::theory::sums::sum(i as int, f),
        decreases n - i,
    {
        proof {
            crate::theory::sums::lemma_sum_part(n as int, f, i as int);
            assert(vs[i as int] == ms@[i as int]@);
            assert(f(i as int) == ms@[i as int].rows * ms@[i as int].cols);
        }
        total = total + ms[i].rows * ms[i].cols;
        i = i + 1;
    }
    total
}

/// The bytes that one layer saves for its adjoint.
fn layer_tape_bytes(cfg: &MixtralConfig, n: u64, seq: u64) -> (r: u64)
    requires
        cfg.q_width() <= usize::MAX,
        cfg.kv_width() <= usize::MAX,
        n > 0 ==> seq > 0,
        crate::theory::plans::tape_need(*cfg, n as int, seq as int) <= u64::MAX,
    ensures
        r == crate::theory::plans::tape_need(*cfg, n as int, seq as int),
{
    let dim: u64 = cfg.dim as u64;
    let q: u64 = cfg.q_dim() as u64;
    let kv: u64 = cfg.kv_dim() as u64;
    let heads: u64 = cfg.heads as u64;
    let experts: u64 = cfg.experts as u64;
    let inter: u64 = cfg.intermediate as u64;
    let topk: u64 = cfg.top_k as u64;
    proof {
        crate::theory::plan_laws::lemma_products(*cfg, n as int);
        lemma_tape_terms(n as int, seq as int, heads as int, experts as int, inter as int, topk as int);
    }
    let floats: u64 = n * dim + n + n * q + n * kv + n * kv + n * heads * seq + n * q + n * dim + n + n * experts + n * topk + n
        * topk + experts * n * inter + experts * n * inter;
    floats * 4 + n * topk * 8
}

proof fn lemma_tape_terms(n: int, seq: int, heads: int, experts: int, inter: int, topk: int)
    requires
        0 <= n,
        0 <= seq,
        0 <= heads,
        0 <= experts,
        0 <= inter,
        0 <= topk,
        n > 0 ==> seq > 0,
    ensures
        0 <= n * topk,
        0 <= n * heads <= n * heads * seq,
        experts * n == n * experts,
        0 <= experts * n,
        0 <= experts * n * inter,
{
    assert(0 <= n * topk && 0 <= n * heads && experts * n == n * experts && 0 <= experts * n) by (nonlinear_arith)
        requires 0 <= n, 0 <= topk, 0 <= heads, 0 <= experts;
    let nh = n * heads;
    let en = experts * n;
    assert(0 <= en * inter) by (nonlinear_arith)
        requires 0 <= en, 0 <= inter;
    if n > 0 {
        assert(nh <= nh * seq) by (nonlinear_arith)
            requires 0 <= nh, seq >= 1;
    } else {
        assert(nh == 0) by (nonlinear_arith)
            requires nh == n * heads, n == 0;
        assert(nh * seq == 0) by (nonlinear_arith)
            requires nh == 0;
    }
}

// ----- jobs -----

fn simple_work(
    name: String,
    op: Exec,
    fwd: Kernel,
    bwd: Kernel,
    footprint: u64,
    layer: u32,
    expert: u32,
    n: u64,
    width: u64,
) -> (r: Work)
    ensures
        r@ == crate::theory::plans::simple_job(
            name@,
            op,
            fwd,
            bwd,
            footprint as int,
            layer as int,
            expert as int,
            n as int,
            width as int,
        ),
{
    let placing: Vec<Kernel> = vec![fwd, bwd];
    let first: Vec<Kernel> = vec![fwd];
    let second: Vec<Kernel> = vec![bwd];
    let r = Work {
        name,
        op,
        footprint,
        home: None,
        param_bytes: 0,
        tape_bytes: footprint,
        placing,
        fwd: first,
        bwd: second,
        param_offset: 0,
        batch_begin: 0,
        batch_end: n,
        row_begin: 0,
        row_end: width,
        col_begin: 0,
        col_end: width,
        din: width,
        dout: width,
        layer,
        expert,
    };
    assert(r@ =~= crate::theory::plans::simple_job(
        name@,
        op,
        fwd,
        bwd,
        footprint as int,
        layer as int,
        expert as int,
        n as int,
        width as int,
    ));
    r
}

impl<'a> Planner<'a> {
    fn emit_rope(&mut self, layer: u32, query: bool, n: u64, width: u64) -> (r: Result<(), StageError>)
        requires
            old(self)@.sound(),
            0 <= n * width * 2 * 4 <= u64::MAX,
        ensures
            final(self).cluster == old(self).cluster,
            crate::planner::agrees(
                r,
                final(self)@,
                old(self)@.work(crate::theory::plans::rope_job(layer as int, query, n as int, width as int)),
            ),
            r is Ok ==> final(self)@.sound() && old(self)@.same_homes(final(self)@),
    {
        let name = if query {
            label1("L$a-rope-q", layer as u64)
        } else {
            label1("L$a-rope-k", layer as u64)
        };
        let op = if query {
            Exec::RopeQ
        } else {
            Exec::RopeK
        };
        let work = simple_work(name, op, Kernel::Rope, Kernel::Rope, n * width * 2 * 4, layer, 0, n, width);
        assert(work@ == crate::theory::plans::rope_job(layer as int, query, n as int, width as int));
        assert(work@.placing[0] == Kernel::Rope);
        self.run(&work)
    }

    fn emit_residual(&mut self, layer: u32, attn: bool, n: u64, dim: u64) -> (r: Result<(), StageError>)
        requires
            old(self)@.sound(),
            0 <= n * dim * 2 * 4 <= u64::MAX,
        ensures
            final(self).cluster == old(self).cluster,
            crate::planner::agrees(
                r,
                final(self)@,
                old(self)@.work(crate::theory::plans::residual_job(layer as int, attn, n as int, dim as int)),
            ),
            r is Ok ==> final(self)@.sound() && old(self)@.same_homes(final(self)@),
    {
        let name = if attn {
            label1("L$a-add-attn", layer as u64)
        } else {
            label1("L$a-add-moe", layer as u64)
        };
        let op = if attn {
            Exec::AddAttn
        } else {
            Exec::AddMoe
        };
        let work = simple_work(name, op, Kernel::Add, Kernel::Add, n * dim * 2 * 4, layer, 0, n, dim);
        proof {
            crate::theory::plan_laws::lemma_residual_job(layer as int, attn, n as int, dim as int, self@.count());
        }
        self.run(&work)
    }

    fn emit_router(&mut self, layer: u32, n: u64, dim: u64, experts: u64) -> (r: Result<(), StageError>)
        requires
            old(self)@.sound(),
            0 <= n * dim,
            0 <= n * experts,
            (n * dim + n * experts * 4) * 4 <= u64::MAX,
        ensures
            final(self).cluster == old(self).cluster,
            crate::planner::agrees(
                r,
                final(self)@,
                old(self)@.work(crate::theory::plans::router_job(layer as int, n as int, dim as int, experts as int)),
            ),
            r is Ok ==> final(self)@.sound() && old(self)@.same_homes(final(self)@),
    {
        let work = simple_work(
            label1("L$a-router-gate", layer as u64),
            Exec::Router,
            Kernel::Router,
            Kernel::RouterBwd,
            (n * dim + n * experts * 4) * 4,
            layer,
            0,
            n,
            experts,
        );
        proof {
            crate::theory::plan_laws::lemma_router_job(layer as int, n as int, dim as int, experts as int, self@.count());
        }
        self.run(&work)
    }

    fn emit_silu(&mut self, layer: u32, expert: u32, n: u64, inter: u64) -> (r: Result<(), StageError>)
        requires
            old(self)@.sound(),
            0 <= n * inter * 4 * 4 <= u64::MAX,
        ensures
            final(self).cluster == old(self).cluster,
            crate::planner::agrees(
                r,
                final(self)@,
                old(self)@.work(crate::theory::plans::silu_job(layer as int, expert as int, n as int, inter as int)),
            ),
            r is Ok ==> final(self)@.sound() && old(self)@.same_homes(final(self)@),
    {
        let work = simple_work(
            label2("L$a-silu-$b", layer as u64, expert as u64),
            Exec::Silu,
            Kernel::Silu,
            Kernel::SiluBwd,
            n * inter * 4 * 4,
            layer,
            expert,
            n,
            inter,
        );
        proof {
            crate::theory::plan_laws::lemma_silu_job(layer as int, expert as int, n as int, inter as int, self@.count());
        }
        self.run(&work)
    }

    fn emit_mix(&mut self, layer: u32, n: u64, dim: u64, experts: u64) -> (r: Result<(), StageError>)
        requires
            old(self)@.sound(),
            experts + 2 <= u64::MAX,
            0 <= n * dim <= u64::MAX,
            0 <= n * dim * (experts + 2) * 4 <= u64::MAX,
        ensures
            final(self).cluster == old(self).cluster,
            crate::planner::agrees(
                r,
                final(self)@,
                old(self)@.work(crate::theory::plans::mix_job(layer as int, n as int, dim as int, experts as int)),
            ),
            r is Ok ==> final(self)@.sound() && old(self)@.same_homes(final(self)@),
    {
        let work = simple_work(
            label1("L$a-mix", layer as u64),
            Exec::Mix,
            Kernel::Add,
            Kernel::Add,
            n * dim * (experts + 2) * 4,
            layer,
            0,
            n,
            dim,
        );
        proof {
            crate::theory::plan_laws::lemma_mix_job(layer as int, n as int, dim as int, experts as int, self@.count());
        }
        self.run(&work)
    }

    fn emit_embed(&mut self, m: &Matrix, n: u64) -> (r: Result<(), StageError>)
        requires
            old(self)@.sound(),
            0 <= m.rows * m.cols,
            0 <= n * m.cols,
            m.rows * m.cols * 4 + n * m.cols * 4 <= u64::MAX,
        ensures
            final(self).cluster == old(self).cluster,
            crate::planner::agrees(r, final(self)@, old(self)@.work(old(self)@.embed_job(m@, n as int))),
            r is Ok ==> final(self)@.sound() && old(self)@.same_homes(final(self)@),
    {
        let table: u64 = m.rows * m.cols * 4;
        let activation: u64 = n * m.cols * 4;
        let placing: Vec<Kernel> = vec![Kernel::Embed, Kernel::EmbedBwd];
        let fwd: Vec<Kernel> = vec![Kernel::Embed];
        let bwd: Vec<Kernel> = vec![Kernel::EmbedBwd];
        let home: usize = self.home_device(&m.name, 0, 0);
        let work = Work {
            name: label1("embed[0:$a]", n),
            op: Exec::Embed,
            footprint: table + activation,
            home: Some(home),
            param_bytes: table,
            tape_bytes: activation,
            placing,
            fwd,
            bwd,
            param_offset: m.offset,
            batch_begin: 0,
            batch_end: n,
            row_begin: 0,
            row_end: m.rows,
            col_begin: 0,
            col_end: m.cols,
            din: m.rows,
            dout: m.cols,
            layer: 0,
            expert: 0,
        };
        proof {
            assert(work@ =~= self@.embed_job(m@, n as int));
            crate::theory::plan_laws::lemma_embed_job(self@, m@, n as int);
        }
        self.run(&work)
    }
}


// ----- a Mixtral model -----

/// The sizes of the jobs of a layer.
pub open spec fn layer_jobs_countable(c: MixtralConfig, n: int, seq: int) -> bool {
    &&& n * c.q_width() * 2 * 4 <= u64::MAX
    &&& n * c.kv_width() * 2 * 4 <= u64::MAX
    &&& n * c.dim * 2 * 4 <= u64::MAX
    &&& (n * c.dim + n * c.experts * 4) * 4 <= u64::MAX
    &&& n * c.intermediate * 4 * 4 <= u64::MAX
    &&& c.experts + 2 <= u64::MAX
    &&& n * c.dim * (c.experts + 2) * 4 <= u64::MAX
    &&& countable(State::attention_task(c, n, seq, 0))
    &&& crate::theory::plans::tape_need(c, n, seq) <= u64::MAX
    &&& c.q_width() <= usize::MAX
    &&& c.kv_width() <= usize::MAX
}

/// Every size that staging the model computes is a number that a word holds,
/// and no matrix has empty rows.
pub open spec fn stageable(c: MixtralConfig, batch: int, seq: int) -> bool {
    let n = batch * seq;
    &&& n <= u64::MAX
    &&& c.fits()
    &&& c.total() * 4 <= u64::MAX
    &&& crate::theory::plan_laws::good_config(c, n)
    &&& c.layers > 0 ==> layer_jobs_countable(c, n, seq)
    &&& forall|l: int, i: int|
        0 <= l < c.layers && 0 <= i < crate::theory::plans::layer_mats(c, l, n).len() ==> countable(
            Task::Linear { matrix: #[trigger] crate::theory::plans::layer_mats(c, l, n)[i] },
        )
    &&& c.vocab * c.dim * 4 + n * c.dim * 4 <= u64::MAX
    &&& countable(Task::Linear { matrix: crate::theory::plans::final_mat(c, n) })
    &&& countable(Task::Linear { matrix: crate::theory::plans::head_mat(c, n) })
    &&& countable(Task::Loss { tokens: n, vocab: c.vocab as int })
}

/// The sizes that staging computes before it compares the parameters with the
/// cluster are numbers that words hold.
pub open spec fn parameters_counted(c: MixtralConfig, batch: int, seq: int) -> bool {
    &&& batch * seq <= u64::MAX
    &&& c.fits()
    &&& c.total() * 4 <= u64::MAX
    &&& batch * seq * c.dim * 4 <= u64::MAX
}

/// As far as staging the model on these devices goes, it computes numbers that
/// words hold. It stops where there are no devices, and where the parameters
/// exceed them.
pub open spec fn model_stageable(c: MixtralConfig, batch: int, seq: int, ds: Seq<Dev>) -> bool {
    let all = crate::theory::plans::capacity(ds, ds.len() as int);
    &&& all <= u64::MAX
    &&& ds.len() > 0 ==> {
        &&& parameters_counted(c, batch, seq)
        &&& c.total() * 4 <= all ==> stageable(c, batch, seq)
    }
}

/// The attention task of another layer differs in its name only.
proof fn lemma_attention_countable(c: MixtralConfig, n: int, seq: int, l: int)
    requires
        countable(State::attention_task(c, n, seq, 0)),
    ensures
        countable(State::attention_task(c, n, seq, l)),
{
}

impl<'a> Planner<'a> {
    fn follow(&mut self, cfg: &MixtralConfig, n: u64, seq: u64, l: usize, role: Role) -> (r: Result<(), StageError>)
        requires
            old(self)@.sound(),
            layer_jobs_countable(*cfg, n as int, seq as int),
        ensures
            final(self).cluster == old(self).cluster,
            crate::planner::agrees(r, final(self)@, old(self)@.follow(*cfg, n as int, seq as int, l as int, role)),
            r is Ok ==> final(self)@.sound() && old(self)@.same_homes(final(self)@),
    {
        proof {
            crate::theory::plan_laws::lemma_products(*cfg, n as int);
        }
        let lx: u32 = l as u32;
        match role {
            Role::Value => {
                match self.emit_rope(lx, true, n, cfg.q_dim() as u64) {
                    Ok(_) => {},
                    Err(e) => {
                        return Err(e);
                    },
                }
                match self.emit_rope(lx, false, n, cfg.kv_dim() as u64) {
                    Ok(_) => {},
                    Err(e) => {
                        return Err(e);
                    },
                }
                let fwd: Vec<Kernel> = vec![Kernel::GqaFwd];
                let bwd: Vec<Kernel> = vec![Kernel::GqaBwd];
                let layer: u32 = if l as u64 <= u32::MAX as u64 {
                    l as u32
                } else {
                    0
                };
                let p = Piece::Attention {
                    name: label1("L$a-gqa", l as u64),
                    queries: n,
                    keys: seq,
                    dim: cfg.head_dim as u64,
                    layer,
                    fwd,
                    bwd,
                };
                proof {
                    assert(fwd@ =~= seq![Kernel::GqaFwd]);
                    assert(bwd@ =~= seq![Kernel::GqaBwd]);
                    assert(p@ == State::attention_task(*cfg, n as int, seq as int, l as int));
                    lemma_attention_countable(*cfg, n as int, seq as int, l as int);
                }
                self.emit(&p)
            },
            Role::Output => self.emit_residual(lx, true, n, cfg.dim as u64),
            Role::Router => self.emit_router(lx, n, cfg.dim as u64, cfg.experts as u64),
            Role::Up(e) => if e as u64 <= u32::MAX as u64 {
                self.emit_silu(lx, e as u32, n, cfg.intermediate as u64)
            } else {
                Ok(())
            },
            _ => Ok(()),
        }
    }

    fn emit_layer(&mut self, cfg: &MixtralConfig, place: &LayerLayout, n: u64, seq: u64, l: usize) -> (r: Result<(), StageError>)
        requires
            old(self)@.sound(),
            l < cfg.layers,
            place@ == cfg.layer_places(l as int),
            layer_jobs_countable(*cfg, n as int, seq as int),
            crate::theory::plan_laws::good_config(*cfg, n as int),
            forall|i: int|
                0 <= i < crate::theory::plans::layer_mats(*cfg, l as int, n as int).len() ==> countable(
                    Task::Linear { matrix: #[trigger] crate::theory::plans::layer_mats(*cfg, l as int, n as int)[i] },
                ),
        ensures
            final(self).cluster == old(self).cluster,
            crate::planner::agrees(r, final(self)@, old(self)@.emit_layer(*cfg, n as int, seq as int, l as int)),
            r is Ok ==> final(self)@.sound() && old(self)@.same_homes(final(self)@),
    {
        let ghost s0 = self@;
        let ghost c = *cfg;
        let ghost nv = n as int;
        let ghost sv = seq as int;
        let ms = layer_matrices(cfg, place, l, n);
        let ghost vs = crate::theory::listing::views(ms@);
        assert(vs == crate::theory::plans::layer_mats(c, l as int, nv));
        let ghost want = s0.emit_members(c, nv, sv, l as int, vs, 0);
        let mut k: usize = 0;
        while k < ms.len()
            invariant
                self.cluster == old(self).cluster,
                s0 == old(self)@,
                self@.sound(),
                s0.same_homes(self@),
                c == *cfg,
                nv == n,
                sv == seq,
                l < c.layers,
                layer_jobs_countable(c, nv, sv),
                crate::theory::plan_laws::good_config(c, nv),
                vs == crate::theory::listing::views(ms@),
                vs == crate::theory::plans::layer_mats(c, l as int, nv),
                forall|i: int|
                    0 <= i < crate::theory::plans::layer_mats(c, l as int, nv).len() ==> countable(
                        Task::Linear { matrix: #[trigger] crate::theory::plans::layer_mats(c, l as int, nv)[i] },
                    ),
                k <= ms@.len(),
                want == s0.emit_members(c, nv, sv, l as int, vs, 0),
                want == self@.emit_members(c, nv, sv, l as int, vs, k as int),
            decreases ms.len() - k,
        {
            let m: &Matrix = &ms[k];
            let p = Piece::Linear { matrix: m };
            proof {
                assert(vs[k as int] == m@);
                assert(countable(Task::Linear { matrix: crate::theory::plans::layer_mats(c, l as int, nv)[k as int] }));
                assert(crate::theory::plan_laws::good_mat(crate::theory::plans::layer_mats(c, l as int, nv)[k as int]));
            }
            match self.emit(&p) {
                Ok(_) => {},
                Err(e) => {
                    return Err(e);
                },
            }
            match self.follow(cfg, n, seq, l, m.role) {
                Ok(_) => {},
                Err(e) => {
                    return Err(e);
                },
            }
            k = k + 1;
        }
        proof {
            crate::theory::plan_laws::lemma_products(c, nv);
        }
        match self.emit_mix(l as u32, n, cfg.dim as u64, cfg.experts as u64) {
            Ok(_) => {},
            Err(e) => {
                return Err(e);
            },
        }
        self.emit_residual(l as u32, false, n, cfg.dim as u64)
    }

    fn place_params(&mut self, ms: &Vec<Matrix>) -> (r: Result<(), StageError>)
        requires
            old(self)@.sound(),
            old(self)@.marks.len() == 0,
            forall|i: int|
                0 <= i < ms@.len() ==> crate::theory::plan_laws::good_mat((#[trigger] ms@[i])@) && ms@[i]@.cols * 4 <= u64::MAX,
        ensures
            final(self).cluster == old(self).cluster,
            crate::planner::agrees(r, final(self)@, old(self)@.place_params(crate::theory::listing::views(ms@), 0)),
            r is Ok ==> final(self)@.sound() && final(self)@.marks == old(self)@.marks,
    {
        let ghost s0 = self@;
        let ghost vs = crate::theory::listing::views(ms@);
        let ghost want = s0.place_params(vs, 0);
        let mut k: usize = 0;
        while k < ms.len()
            invariant
                self.cluster == old(self).cluster,
                s0 == old(self)@,
                self@.sound(),
                self@.marks == s0.marks,
                s0.marks.len() == 0,
                vs == crate::theory::listing::views(ms@),
                forall|i: int|
                    0 <= i < ms@.len() ==> crate::theory::plan_laws::good_mat((#[trigger] ms@[i])@) && ms@[i]@.cols * 4
                        <= u64::MAX,
                k <= ms@.len(),
                want == s0.place_params(vs, 0),
                want == self@.place_params(vs, k as int),
            decreases ms.len() - k,
        {
            assert(vs[k as int] == ms@[k as int]@);
            match self.place_param(&ms[k]) {
                Ok(_) => {},
                Err(e) => {
                    return Err(e);
                },
            }
            k = k + 1;
        }
        Ok(())
    }

    fn place_tapes(&mut self, cfg: &MixtralConfig, n: u64, seq: u64) -> (r: Result<(), StageError>)
        requires
            old(self)@.sound(),
            n > 0 ==> seq > 0,
            cfg.layers > 0 ==> layer_jobs_countable(*cfg, n as int, seq as int),
        ensures
            final(self).cluster == old(self).cluster,
            crate::planner::agrees(r, final(self)@, old(self)@.place_tapes(*cfg, n as int, seq as int, 0)),
            r is Ok ==> final(self)@.sound(),
    {
        let ghost s0 = self@;
        let ghost want = s0.place_tapes(*cfg, n as int, seq as int, 0);
        let mut l: usize = 0;
        while l < cfg.layers
            invariant
                self.cluster == old(self).cluster,
                s0 == old(self)@,
                self@.sound(),
                n > 0 ==> seq > 0,
                cfg.layers > 0 ==> layer_jobs_countable(*cfg, n as int, seq as int),
                l <= cfg.layers,
                want == s0.place_tapes(*cfg, n as int, seq as int, 0),
                want == self@.place_tapes(*cfg, n as int, seq as int, l as int),
            decreases cfg.layers - l,
        {
            let name = label1("layer-$a", l as u64);
            match self.place_tape(&name, layer_tape_bytes(cfg, n, seq)) {
                Ok(_) => {},
                Err(e) => {
                    return Err(e);
                },
            }
            l = l + 1;
        }
        Ok(())
    }

    /// Every window of the model, without the update.
    fn emit_mixtral(&mut self, cfg: &MixtralConfig, lay: &Layout, batch: u64, n: u64, seq: u64) -> (r: Result<(), StageError>)
        requires
            old(self)@.sound(),
            lay@ == cfg.places(),
            n == batch * seq,
            stageable(*cfg, batch as int, seq as int),
        ensures
            final(self).cluster == old(self).cluster,
            crate::planner::agrees(r, final(self)@, old(self)@.emit_mixtral(*cfg, n as int, seq as int)),
            r is Ok ==> final(self)@.sound() && old(self)@.same_homes(final(self)@),
    {
        let ghost s0 = self@;
        let ghost c = *cfg;
        let ghost nv = n as int;
        let ghost sv = seq as int;
        proof {
            crate::theory::plan_laws::lemma_products(c, nv);
        }
        let embed = embed_matrix(cfg, n);
        match self.emit_embed(&embed, n) {
            Ok(_) => {},
            Err(e) => {
                return Err(e);
            },
        }
        let ghost s1 = self@;
        let ghost want = s1.emit_layers(c, nv, sv, 0);
        assert(lay@.layers.len() == c.layers);
        let mut l: usize = 0;
        while l < cfg.layers
            invariant
                self.cluster == old(self).cluster,
                s0 == old(self)@,
                self@.sound(),
                s0.same_homes(self@),
                c == *cfg,
                nv == n,
                sv == seq,
                n == batch * seq,
                lay@ == c.places(),
                lay.layers@.len() == c.layers,
                stageable(c, batch as int, seq as int),
                l <= cfg.layers,
                s0.work(s0.embed_job(crate::theory::plans::embed_mat(c, nv), nv)) == Ok::<State, Fault>(s1),
                want == s1.emit_layers(c, nv, sv, 0),
                want == self@.emit_layers(c, nv, sv, l as int),
            decreases cfg.layers - l,
        {
            proof {
                assert(lay@.layers[l as int] == c.layer_places(l as int));
                assert forall|i: int| 0 <= i < crate::theory::plans::layer_mats(c, l as int, nv).len() implies countable(
                    Task::Linear { matrix: #[trigger] crate::theory::plans::layer_mats(c, l as int, nv)[i] },
                ) by {
                }
            }
            match self.emit_layer(cfg, &lay.layers[l], n, seq, l) {
                Ok(_) => {},
                Err(e) => {
                    return Err(e);
                },
            }
            l = l + 1;
        }
        let norm = norm_matrix(String::from_str("final-norm"), Role::FinalNorm, 0, cfg.dim as u64, n, lay.final_norm);
        match self.emit(&Piece::Linear { matrix: &norm }) {
            Ok(_) => {},
            Err(e) => {
                return Err(e);
            },
        }
        let head = linear_matrix(
            String::from_str("lm-head"),
            Role::LmHead,
            0,
            cfg.dim as u64,
            cfg.vocab as u64,
            n,
            lay.lm_head,
        );
        match self.emit(&Piece::Linear { matrix: &head }) {
            Ok(_) => {},
            Err(e) => {
                return Err(e);
            },
        }
        self.emit(&Piece::Loss { tokens: n, vocab: cfg.vocab as u64 })
    }

    // ----- the update -----

    fn updates(&self, d: usize, home: usize, bytes: u64, sgd: &Vec<Kernel>) -> (r: bool)
        requires
            d < self@.count(),
            self@.held.len() == self@.count(),
            sgd@ == seq![Kernel::Sgd],
        ensures
            r == self@.updates(d as int, home as int, bytes as int),
    {
        let dev: &Device = &self.cluster.devices[d];
        assert(self@.devices[d as int] == dev@);
        assert(self@.held[d as int] == self.home_bytes@[d as int]);
        let resident: u128 = self.home_bytes[d] as u128 + bytes as u128;
        crate::planner::code_phases(dev, sgd).is_some() && (d == home || (resident <= dev.buffer_bytes as u128 && self.route(
            home,
            d,
            bytes,
        ).is_ok()))
    }

    fn no_updater(&self) -> (r: StageError)
        ensures
            r@ == self@.no_updater(),
    {
        StageError::CodeExceedsDevices {
            kernel: "k_sgd",
            need: KERNEL_CODE_BYTES,
            largest: crate::planner::largest_code(self.cluster),
        }
    }

    /// The device that updates a home.
    fn sgd_device(&self, home: usize, bytes: u64, sgd: &Vec<Kernel>) -> (r: Result<usize, StageError>)
        requires
            home < self@.count(),
            self@.held.len() == self@.count(),
            sgd@ == seq![Kernel::Sgd],
        ensures
            match r {
                Ok(d) => self@.sgd_device(home as int, bytes as int) == Ok::<int, Fault>(d as int) && d < self@.count()
                    && self@.updates(d as int, home as int, bytes as int),
                Err(e) => self@.sgd_device(home as int, bytes as int) == Err::<int, Fault>(e@),
            },
    {
        if self.updates(home, home, bytes, sgd) {
            return Ok(home);
        }
        let n: usize = self.cluster.devices.len();
        let mut i: usize = 0;
        while i < n
            invariant
                i <= n,
                n == self@.count(),
                home < n,
                self@.held.len() == n,
                sgd@ == seq![Kernel::Sgd],
                !self@.updates(home as int, home as int, bytes as int),
                self@.updater(home as int, bytes as int, 0) == self@.updater(home as int, bytes as int, i as int),
            decreases n - i,
        {
            if self.updates(i, home, bytes, sgd) {
                return Ok(i);
            }
            i = i + 1;
        }
        Err(self.no_updater())
    }

    fn update_home(&mut self, ms: &Vec<Matrix>, k: usize) -> (r: Result<(), StageError>)
        requires
            old(self)@.sound(),
            k < old(self)@.homes.len(),
            old(self)@.homes[k as int].kind == HomeKind::Param,
            crate::theory::plan_laws::owned(old(self)@.homes, crate::theory::listing::views(ms@)),
        ensures
            final(self).cluster == old(self).cluster,
            crate::planner::agrees(
                r,
                final(self)@,
                old(self)@.update_home(crate::theory::listing::views(ms@), old(self)@.homes[k as int]),
            ),
            r is Ok ==> final(self)@.sound() && old(self)@.same_homes(final(self)@),
    {
        let ghost s0 = self@;
        let ghost vs = crate::theory::listing::views(ms@);
        let ghost h = s0.homes[k as int];
        proof {
            assert(crate::theory::plan_laws::good_home(h, s0.count()));
            crate::theory::plan_laws::lemma_update_home(s0, vs, k as int);
        }
        let home: &Home = &self.homes[k];
        assert(home@ == h);
        let bytes: u64 = home.bytes();
        let sgd: Vec<Kernel> = vec![Kernel::Sgd];
        assert(sgd@ =~= seq![Kernel::Sgd]);
        let device: usize = match self.sgd_device(home.device, bytes, &sgd) {
            Ok(d) => d,
            Err(e) => {
                return Err(e);
            },
        };
        let at: usize = find_matrix(ms, &home.name);
        let m: &Matrix = &ms[at];
        assert(vs[at as int] == m@);
        let args: Vec<String> = vec![
            home.name.clone(),
            text::decimal(home.row_begin),
            text::decimal(home.row_end),
            text::decimal(home.col_begin),
            text::decimal(home.col_end),
        ];
        assert(text::texts(args@) =~= seq![
            h.name,
            text::dec(h.row_begin),
            text::dec(h.row_end),
            text::dec(h.col_begin),
            text::dec(h.col_end),
        ]);
        assert(s0.devices[device as int] == self.cluster.devices@[device as int]@);
        match crate::planner::code_phases(&self.cluster.devices[device], &sgd) {
            None => Ok(()),
            Some(code_phases) => {
                let window = Window {
                    name: label("sgd-$a[$b:$c,$d:$e]", &args),
                    device,
                    code_phases,
                    resident_bytes: bytes,
                    tape_bytes: 0,
                    param_bytes: bytes,
                    pass: Pass::Fwd,
                    op: Exec::Sgd,
                    param_offset: m.offset,
                    batch_begin: 0,
                    batch_end: 0,
                    row_begin: home.row_begin,
                    row_end: home.row_end,
                    col_begin: home.col_begin,
                    col_end: home.col_end,
                    din: m.rows,
                    dout: m.cols,
                    home: home.device,
                    layer: m.layer as u32,
                    expert: matrix_expert(m.role),
                    inbound: Vec::new(),
                    outbound: Vec::new(),
                };
                assert(window@ =~= s0.sgd_window(h, vs[at as int], device as int));
                match self.annotate(window) {
                    Err(e) => Err(e),
                    Ok(w) => {
                        proof {
                            crate::theory::listing::lemma_views_push(self.tail@, w);
                        }
                        self.tail.push(w);
                        Ok(())
                    },
                }
            },
        }
    }

    /// The updates of all parameter homes.
    fn emit_sgd(&mut self, ms: &Vec<Matrix>) -> (r: Result<(), StageError>)
        requires
            old(self)@.sound(),
            crate::theory::plan_laws::owned(old(self)@.homes, crate::theory::listing::views(ms@)),
        ensures
            final(self).cluster == old(self).cluster,
            crate::planner::agrees(r, final(self)@, old(self)@.emit_sgd(crate::theory::listing::views(ms@))),
            r is Ok ==> final(self)@.sound() && old(self)@.same_homes(final(self)@),
    {
        let ghost s0 = self@;
        let ghost vs = crate::theory::listing::views(ms@);
        let ghost want = s0.update_homes(vs, 0);
        let n: usize = self.homes.len();
        let mut placed = false;
        let mut k: usize = 0;
        while k < n
            invariant
                self.cluster == old(self).cluster,
                s0 == old(self)@,
                self@.sound(),
                s0.same_homes(self@),
                vs == crate::theory::listing::views(ms@),
                crate::theory::plan_laws::owned(s0.homes, vs),
                n == s0.homes.len(),
                n == self.homes@.len(),
                k <= n,
                placed <==> exists|i: int| 0 <= i < k && (#[trigger] s0.homes[i]).kind == HomeKind::Param,
                want == s0.update_homes(vs, 0),
                want == self@.update_homes(vs, k as int),
            decreases n - k,
        {
            assert(self@.homes[k as int] == self.homes@[k as int]@);
            assert(s0.homes[k as int] == self@.homes[k as int]);
            if self.homes[k].kind == HomeKind::Param {
                match self.update_home(ms, k) {
                    Ok(_) => {},
                    Err(e) => {
                        return Err(e);
                    },
                }
                assert(self.homes@.len() == self@.homes.len());
                placed = true;
            }
            k = k + 1;
        }
        if placed {
            Ok(())
        } else {
            Err(self.no_updater())
        }
    }

    /// The schedule: forward windows, backward windows in reverse, updates.
    pub fn flush(self) -> (r: StagePlan)
        ensures
            r@ == self@.flush(),
    {
        let ghost s = self@;
        let mut windows = self.windows;
        let mut later = self.later;
        let mut tail = self.tail;
        let ghost all = later@;
        let ghost first = windows@;
        let ghost last = tail@;
        let n: usize = later.len();
        let mut k: usize = 0;
        assert(crate::theory::listing::views(windows@) =~= s.windows + s.later.reverse().take(0));
        while k < n
            invariant
                k <= n,
                n == all.len(),
                later@ == all.take(n - k),
                s.later == crate::theory::listing::views(all),
                crate::theory::listing::views(windows@) == s.windows + s.later.reverse().take(k as int),
            decreases n - k,
        {
            let ghost before = windows@;
            match later.pop() {
                None => {},
                Some(w) => {
                    proof {
                        crate::theory::listing::lemma_views_push(before, w);
                        assert(w@ == s.later.reverse()[k as int]);
                        assert(s.later.reverse().take(k + 1) =~= s.later.reverse().take(k as int).push(w@));
                        assert(s.windows + s.later.reverse().take(k + 1) =~= (s.windows + s.later.reverse().take(
                            k as int,
                        )).push(w@));
                        assert(later@ =~= all.take(n - (k + 1)));
                    }
                    windows.push(w);
                },
            }
            k = k + 1;
        }
        assert(s.later.reverse().take(k as int) =~= s.later.reverse());
        let ghost mid = windows@;
        windows.append(&mut tail);
        proof {
            crate::theory::listing::lemma_views_add(mid, last);
        }
        let r = StagePlan { homes: self.homes, windows, transfers: self.transfers, peak_bytes: self.peak };
        assert(r@ =~= s.flush());
        r
    }
}

/// The matrix with this name.
fn find_matrix(ms: &Vec<Matrix>, name: &String) -> (r: usize)
    requires
        0 <= crate::theory::plans::named(crate::theory::listing::views(ms@), name@, 0) < ms@.len(),
    ensures
        r == crate::theory::plans::named(crate::theory::listing::views(ms@), name@, 0),
        r < ms@.len(),
{
    let ghost vs = crate::theory::listing::views(ms@);
    let mut k: usize = 0;
    while k < ms.len()
        invariant
            k <= ms@.len(),
            vs == crate::theory::listing::views(ms@),
            0 <= crate::theory::plans::named(vs, name@, 0) < ms@.len(),
            crate::theory::plans::named(vs, name@, 0) == crate::theory::plans::named(vs, name@, k as int),
        decreases ms.len() - k,
    {
        assert(vs[k as int] == ms@[k as int]@);
        if ms[k].name == *name {
            return k;
        }
        k = k + 1;
    }
    0
}

// ----- staging -----

/// Stage a Mixtral model.
pub fn stage_mixtral(cfg: &MixtralConfig, batch: u64, seq: u64, cluster: &Cluster) -> (r: Result<StagePlan, StageError>)
    requires
        model_stageable(*cfg, batch as int, seq as int, cluster.devs()),
    ensures
        ({
            let want = crate::theory::plans::mixtral_plan(*cfg, batch as int, seq as int, cluster.devs(), cluster.links@);
            match r {
                Ok(p) => want == Ok::<Plan, Fault>(p@),
                Err(e) => want == Err::<Plan, Fault>(e@),
            }
        }),
{
    let ghost c = *cfg;
    let ghost nv = batch * seq;
    let ghost ds = cluster.devs();
    if cluster.devices.len() == 0 {
        return Err(StageError::NoDevice);
    }
    proof {
        assert(0 <= batch * seq) by (nonlinear_arith);
        crate::theory::plan_laws::lemma_products(c, nv);
        crate::theory::plan_laws::law_matrices_fill_the_buffer(c, nv);
        assert forall|i: int| 0 <= i < ds.len() implies 0 <= (#[trigger] ds[i]).buffer <= u64::MAX && 0 <= ds[i].code
            <= u64::MAX by {
            assert(ds[i] == cluster.devices@[i]@);
        }
        crate::theory::plan_laws::lemma_fresh(ds, cluster.links@);
    }
    let n: u64 = batch * seq;
    let lay = crate::mixtral::layout(cfg);
    let ms = mixtral_matrices(cfg, &lay, n);
    let ghost vs = crate::theory::listing::views(ms@);
    assert(vs == crate::theory::plans::mixtral_mats(c, nv));
    assert(vs.len() == ms@.len());
    let param_bytes: u64 = parameters(&ms) * 4;
    let mut planner = match Planner::new(cluster, param_bytes) {
        Ok(p) => p,
        Err(e) => {
            return Err(e);
        },
    };
    let ghost s0 = planner@;
    proof {
        crate::theory::plan_laws::lemma_good_mats(c, nv);
        if nv > 0 {
            assert(seq > 0) by (nonlinear_arith)
                requires batch * seq > 0, batch >= 0, seq >= 0;
        }
        assert forall|i: int| 0 <= i < ms@.len() implies crate::theory::plan_laws::good_mat((#[trigger] ms@[i])@)
            && ms@[i]@.cols * 4 <= u64::MAX by {
            assert(vs[i] == ms@[i]@);
            assert(crate::theory::plan_laws::good_mat(crate::theory::plans::mixtral_mats(c, nv)[i]));
            lemma_row_bytes(c, batch as int, seq as int, i);
        }
        assert(crate::theory::plans::mats_len(vs, 0) == 0);
        crate::theory::plan_laws::lemma_place_params(s0, vs, 0);
    }
    match planner.place_params(&ms) {
        Ok(_) => {},
        Err(e) => {
            return Err(e);
        },
    }
    let ghost s1 = planner@;
    proof {
        if c.layers == 0 {
            lemma_no_tapes(s1, c, nv, seq as int);
        } else {
            assert(0 <= crate::theory::plans::tape_need(c, nv, seq as int)) by {
                lemma_tape_terms(
                    nv,
                    seq as int,
                    c.heads as int,
                    c.experts as int,
                    c.intermediate as int,
                    c.top_k as int,
                );
            }
            crate::theory::plan_laws::lemma_place_tapes(s1, vs, c, nv, seq as int, 0);
        }
    }
    match planner.place_tapes(cfg, n, seq) {
        Ok(_) => {},
        Err(e) => {
            return Err(e);
        },
    }
    match planner.emit_mixtral(cfg, &lay, batch, n, seq) {
        Ok(_) => {},
        Err(e) => {
            return Err(e);
        },
    }
    match planner.emit_sgd(&ms) {
        Ok(_) => {},
        Err(e) => {
            return Err(e);
        },
    }
    planner.release_tapes();
    Ok(planner.flush())
}

proof fn lemma_no_tapes(s: State, c: MixtralConfig, n: int, seq: int)
    requires
        c.layers == 0,
    ensures
        s.place_tapes(c, n, seq, 0) == Ok::<State, Fault>(s),
{
}

/// A row of a matrix that can be staged takes no more bytes than a word can
/// count.
proof fn lemma_row_bytes(c: MixtralConfig, batch: int, seq: int, i: int)
    requires
        stageable(c, batch, seq),
        0 <= batch * seq,
        0 <= i < crate::theory::plans::mixtral_mats(c, batch * seq).len(),
    ensures
        crate::theory::plans::mixtral_mats(c, batch * seq)[i].cols * 4 <= u64::MAX,
{
    let n = batch * seq;
    let ms = crate::theory::plans::mixtral_mats(c, n);
    let f = |l: int| crate::theory::plans::layer_mats(c, l, n);
    let mid = crate::theory::listing::cat(c.layers as int, f);
    crate::theory::listing::lemma_cat(c.layers as int, f);
    let m = ms[i];
    if i == 0 {
        let v = c.vocab as int;
        let d = c.dim as int;
        let nd = n * d;
        crate::theory::plan_laws::lemma_products(c, n);
        if v > 0 {
            assert(d <= v * d) by (nonlinear_arith)
                requires v >= 1, d >= 0;
        } else {
            // The language-model head has the same width.
            lemma_cols_bound(crate::theory::plans::head_mat(c, n));
            lemma_rows_bound(crate::theory::plans::head_mat(c, n));
        }
    } else if i < 1 + mid.len() {
        let x = mid[i - 1];
        let l = choose|l: int| 0 <= l < c.layers && (#[trigger] f(l)).contains(mid[i - 1]);
        assert(f(l).contains(x));
        let k = f(l).index_of(x);
        assert(f(l)[k] == x);
        assert(countable(Task::Linear { matrix: crate::theory::plans::layer_mats(c, l, n)[k] }));
        assert(crate::theory::plan_laws::good_mat(crate::theory::plans::layer_mats(c, l, n)[k]));
        lemma_cols_bound(x);
        assert(ms[i] == x);
    } else if i == 1 + mid.len() {
        assert(ms[i] == crate::theory::plans::final_mat(c, n));
    } else {
        assert(ms[i] == crate::theory::plans::head_mat(c, n));
        lemma_cols_bound(crate::theory::plans::head_mat(c, n));
    }
}

proof fn lemma_cols_bound(m: Mat)
    requires
        crate::theory::plan_laws::good_mat(m),
        countable(Task::Linear { matrix: m }),
    ensures
        m.cols * 4 <= u64::MAX,
{
    let (a, b, c) = (Task::Linear { matrix: m }).full();
    crate::theory::plan_laws::lemma_needs(a, b, c, m.mask);
    assert(c <= b * c) by (nonlinear_arith)
        requires b >= 1, c >= 1;
}

proof fn lemma_rows_bound(m: Mat)
    requires
        crate::theory::plan_laws::good_mat(m),
        countable(Task::Linear { matrix: m }),
    ensures
        m.rows * 4 <= u64::MAX,
{
    let (a, b, c) = (Task::Linear { matrix: m }).full();
    crate::theory::plan_laws::lemma_needs(a, b, c, m.mask);
    assert(b <= b * c) by (nonlinear_arith)
        requires b >= 1, c >= 1;
}

/// Every size that staging the program computes is a number that a word
/// holds, and no matrix has empty rows.
pub open spec fn program_stageable(stages: Seq<Stage>, tape_f32: int, tape_u8: int) -> bool {
    let ms = crate::theory::plans::program_mats(stages);
    &&& program_bytes(stages, tape_f32, tape_u8) <= u64::MAX
    &&& forall|i: int|
        0 <= i < ms.len() ==> crate::theory::plan_laws::good_mat(#[trigger] ms[i]) && countable(Task::Linear { matrix: ms[i] })
    &&& forall|i: int|
        0 <= i < stages.len() && (#[trigger] stages[i]) is Attention ==> countable(State::stage_task(stages[i]))
}

/// The bytes of the parameters and the tape of a program.
pub open spec fn program_bytes(stages: Seq<Stage>, tape_f32: int, tape_u8: int) -> int {
    let ms = crate::theory::plans::program_mats(stages);
    crate::theory::plans::mats_len(ms, ms.len() as int) * 4 + (tape_f32 * 4 + tape_u8)
}

/// As far as staging the program on these devices goes, it computes numbers
/// that words hold. It stops where there are no devices, and where parameters
/// and tape exceed them.
pub open spec fn program_stageable_on(stages: Seq<Stage>, tape_f32: int, tape_u8: int, ds: Seq<Dev>) -> bool {
    let all = crate::theory::plans::capacity(ds, ds.len() as int);
    let bytes = program_bytes(stages, tape_f32, tape_u8);
    &&& all <= u64::MAX
    &&& ds.len() > 0 ==> {
        &&& bytes <= u64::MAX
        &&& bytes <= all ==> program_stageable(stages, tape_f32, tape_u8)
    }
}

/// Stage a program.
pub fn stage_program(prog: &Program, cluster: &Cluster) -> (r: Result<StagePlan, StageError>)
    requires
        program_stageable_on(prog.stages@, prog.tape_f32 as int, prog.tape_u8 as int, cluster.devs()),
    ensures
        ({
            let want = crate::theory::plans::program_plan(
                prog.stages@,
                prog.tape_f32 * 4 + prog.tape_u8,
                cluster.devs(),
                cluster.links@,
            );
            match r {
                Ok(p) => want == Ok::<Plan, Fault>(p@),
                Err(e) => want == Err::<Plan, Fault>(e@),
            }
        }),
{
    let ghost ds = cluster.devs();
    let ghost stages = prog.stages@;
    if cluster.devices.len() == 0 {
        return Err(StageError::NoDevice);
    }
    proof {
        assert forall|i: int| 0 <= i < ds.len() implies 0 <= (#[trigger] ds[i]).buffer <= u64::MAX && 0 <= ds[i].code
            <= u64::MAX by {
            assert(ds[i] == cluster.devices@[i]@);
        }
        crate::theory::plan_laws::lemma_fresh(ds, cluster.links@);
    }
    let ms = program_matrices(prog);
    let ghost vs = crate::theory::listing::views(ms@);
    assert(vs.len() == ms@.len());
    proof {
        assert(crate::theory::plans::mats_len(vs, vs.len() as int) >= 0) by {
            let f = |i: int| vs[i].rows * vs[i].cols;
            assert forall|k: int| 0 <= k < vs.len() implies #[trigger] f(k) >= 0 by {
                let m = vs[k];
                assert(m == ms@[k]@);
                assert(m.rows * m.cols >= 0) by (nonlinear_arith)
                    requires m.rows >= 0, m.cols >= 0;
            }
            crate::theory::sums::lemma_sum_part(vs.len() as int, f, 0);
        }
    }
    let tape: u64 = prog.tape_f32 as u64 * 4 + prog.tape_u8 as u64;
    let param_bytes: u64 = parameters(&ms) * 4;
    let mut planner = match Planner::new(cluster, param_bytes + tape) {
        Ok(p) => p,
        Err(e) => {
            return Err(e);
        },
    };
    let ghost s0 = planner@;
    proof {
        assert forall|i: int| 0 <= i < ms@.len() implies crate::theory::plan_laws::good_mat((#[trigger] ms@[i])@)
            && ms@[i]@.cols * 4 <= u64::MAX by {
            assert(vs[i] == ms@[i]@);
            assert(crate::theory::plan_laws::good_mat(crate::theory::plans::program_mats(stages)[i]));
            lemma_cols_bound(vs[i]);
        }
    }
    match planner.place_params(&ms) {
        Ok(_) => {},
        Err(e) => {
            return Err(e);
        },
    }
    let name = String::from_str("program-tape");
    match planner.place_tape(&name, tape) {
        Ok(_) => {},
        Err(e) => {
            return Err(e);
        },
    }
    let ghost s1 = planner@;
    let ghost want = s1.emit_mats(vs, 0);
    let ghost whole = crate::theory::plans::program_plan(stages, prog.tape_f32 * 4 + prog.tape_u8, ds, cluster.links@);
    assert(whole == match want {
        Err(e) => Err::<Plan, Fault>(e),
        Ok(s) => match s.emit_stages(stages, 0) {
            Err(e) => Err(e),
            Ok(t) => Ok(t.flush()),
        },
    });
    let mut k: usize = 0;
    while k < ms.len()
        invariant
            planner.cluster == cluster,
            planner@.sound(),
            stages == prog.stages@,
            program_stageable(stages, prog.tape_f32 as int, prog.tape_u8 as int),
            vs == crate::theory::listing::views(ms@),
            vs == crate::theory::plans::program_mats(stages),
            k <= ms@.len(),
            whole == crate::theory::plans::program_plan(stages, prog.tape_f32 * 4 + prog.tape_u8, cluster.devs(), cluster.links@),
            want == planner@.emit_mats(vs, k as int),
            want is Err ==> whole == Err::<Plan, Fault>(want->Err_0),
        decreases ms.len() - k,
    {
        proof {
            assert(vs[k as int] == ms@[k as int]@);
            assert(crate::theory::plan_laws::good_mat(crate::theory::plans::program_mats(stages)[k as int]));
        }
        match planner.emit(&Piece::Linear { matrix: &ms[k] }) {
            Ok(_) => {},
            Err(e) => {
                return Err(e);
            },
        }
        k = k + 1;
    }
    let ghost s2 = planner@;
    let ghost rest = s2.emit_stages(stages, 0);
    let mut i: usize = 0;
    while i < prog.stages.len()
        invariant
            planner.cluster == cluster,
            planner@.sound(),
            stages == prog.stages@,
            program_stageable(stages, prog.tape_f32 as int, prog.tape_u8 as int),
            i <= stages.len(),
            whole == crate::theory::plans::program_plan(stages, prog.tape_f32 * 4 + prog.tape_u8, cluster.devs(), cluster.links@),
            rest == planner@.emit_stages(stages, i as int),
            rest is Err ==> whole == Err::<Plan, Fault>(rest->Err_0),
        decreases prog.stages.len() - i,
    {
        if let Stage::Attention { batch, tokens, dim, .. } = prog.stages[i] {
            proof {
                assert(stages[i as int] is Attention);
                let t = State::stage_task(stages[i as int]);
                assert(countable(t));
                crate::theory::plan_laws::lemma_stage_task(stages[i as int]);
                lemma_queries_bound(t);
            }
            let fwd: Vec<Kernel> = vec![Kernel::AttnFwd];
            let bwd: Vec<Kernel> = vec![Kernel::AttnBwd];
            assert(fwd@ =~= seq![Kernel::AttnFwd]);
            assert(bwd@ =~= seq![Kernel::AttnBwd]);
            let p = Piece::Attention {
                name: String::from_str("attention"),
                queries: batch as u64 * tokens as u64,
                keys: tokens as u64,
                dim: dim as u64,
                layer: 0,
                fwd,
                bwd,
            };
            assert(p@ == State::stage_task(stages[i as int]));
            match planner.emit(&p) {
                Ok(_) => {},
                Err(e) => {
                    return Err(e);
                },
            }
        }
        i = i + 1;
    }
    Ok(planner.flush())
}

proof fn lemma_queries_bound(t: Task)
    requires
        t is Attention,
        crate::theory::plan_laws::good_task(t),
        countable(t),
    ensures
        0 <= t->queries <= u64::MAX,
{
    let (a, b, c) = t.full();
    crate::theory::plan_laws::lemma_needs(a, b, c, false);
    assert(a <= a * c) by (nonlinear_arith)
        requires a >= 1, c >= 1;
}

} // verus!
