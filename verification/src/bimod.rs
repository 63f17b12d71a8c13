//! Closed dependent optics for `GF(2)`-vector spaces.
//!
//! For the delooping of `(FinVect, ⊗)`, the internal-hom form is
//! `Hom(X, [Y', X'] ⊗ Y)`. Over `F₂` the set of such maps has cardinality
//! `2^{dim X · dim Y' · dim X' · dim Y}`. For dimensions at most 1, the coend
//! over residuals of dimension at most 1 has the same number of equivalence
//! classes.
use vstd::prelude::*;
use crate::finset;
use crate::finset::Mor;
use crate::vect;
use crate::vect::Lin;
use crate::theory::fun::Fun;
use crate::theory::linear::Gf;

verus! {

/// `dim Hom(X, [Y', X'] ⊗ Y)`.
pub fn closed_dimension(dx: u32, dy: u32, dxp: u32, dyp: u32) -> (r: u32)
    requires
        dx * dyp <= u32::MAX,
        dx * dyp * dxp <= u32::MAX,
        dx * dyp * dxp * dy <= u32::MAX,
    ensures
        r == dx * dyp * dxp * dy,
{
    proof {
        assert(0 <= dx * dyp) by (nonlinear_arith) requires dx >= 0, dyp >= 0;
        assert(0 <= dx * dyp * dxp) by (nonlinear_arith) requires 0 <= dx * dyp, dxp >= 0;
        assert(0 <= dx * dyp * dxp * dy) by (nonlinear_arith) requires 0 <= dx * dyp * dxp, dy >= 0;
    }
    dx * dyp * dxp * dy
}

/// A point of the coend: a residual of dimension `dm`, a map `X → M ⊗ Y` and a
/// map `M ⊗ Y' → X'`.
#[verifier::ext_equal]
pub struct Point {
    pub dm: int,
    pub l: Gf,
    pub r: Gf,
}

/// A point of the coend, in machine words.
#[derive(Debug)]
pub struct Optic {
    pub dm: u32,
    pub l: Lin,
    pub r: Lin,
}

impl View for Optic {
    type V = Point;

    open spec fn view(&self) -> Point {
        Point { dm: self.dm as int, l: self.l@, r: self.r@ }
    }
}

impl Optic {
    pub open spec fn wf(&self, dx: int, dy: int, dxp: int, dyp: int) -> bool {
        &&& self.dm <= 1
        &&& self.l.wf()
        &&& self.r.wf()
        &&& self.l.dom == dx
        &&& self.l.cod == self.dm * dy
        &&& self.r.dom == self.dm * dyp
        &&& self.r.cod == dxp
    }
}

/// A map of residuals `m` that slides from `a` to `b`:
/// `(m ⊗ Y) ∘ l_a = l_b` and `r_a = r_b ∘ (m ⊗ Y')`.
pub open spec fn slides_by(a: Point, b: Point, dy: int, dyp: int, m: Gf) -> bool {
    &&& Gf::kron(m, Gf::id(dy)).o(a.l) == b.l
    &&& a.r == b.r.o(Gf::kron(m, Gf::id(dyp)))
}

/// Some map of residuals slides from `a` to `b`.
pub open spec fn slides(a: Point, b: Point, dy: int, dyp: int) -> bool {
    exists|m: Gf| #[trigger] slides_by(a, b, dy, dyp, m) && m.wf() && m.dom == a.dm && m.cod == b.dm
}

/// Every labelling that is constant along slides agrees on `i` and `j`: the
/// points are equivalent in the coend.
pub open spec fn linked(ps: Seq<Point>, dy: int, dyp: int, i: int, j: int) -> bool {
    forall|h: Seq<int>| #[trigger] constant(ps, dy, dyp, h) ==> h[i] == h[j]
}

/// A labelling of the points that does not change along slides.
pub open spec fn constant(ps: Seq<Point>, dy: int, dyp: int, h: Seq<int>) -> bool {
    h.len() == ps.len() && forall|a: int, b: int|
        0 <= a < ps.len() && 0 <= b < ps.len() && slides(#[trigger] ps[a], #[trigger] ps[b], dy, dyp) ==> h[a] == h[b]
}

/// `q` numbers the classes of equivalent points, and there are `n` of them.
pub open spec fn numbers_classes(ps: Seq<Point>, dy: int, dyp: int, n: int, q: Fun) -> bool {
    &&& q.hom(ps.len() as int, n)
    &&& q.onto()
    &&& forall|i: int, j: int|
        0 <= i < ps.len() && 0 <= j < ps.len() ==> (#[trigger] q.map[i] == #[trigger] q.map[j] <==> linked(
            ps,
            dy,
            dyp,
            i,
            j,
        ))
}

/// The points with residual of dimension `dm` and the given first map.
pub open spec fn points_from(dx: int, dxp: int, dyp: int, dm: int, l: Gf) -> Seq<Point> {
    let rs = Gf::all(dm * dyp, dxp);
    Seq::new(rs.len(), |k: int| Point { dm, l, r: rs[k] })
}

/// The points with residual of dimension `dm`.
pub open spec fn points_at(dx: int, dy: int, dxp: int, dyp: int, dm: int) -> Seq<Point> {
    let ls = Gf::all(dx, dm * dy);
    crate::theory::listing::cat(ls.len() as int, |k: int| points_from(dx, dxp, dyp, dm, ls[k]))
}

/// The points with residual of dimension at most 1.
pub open spec fn points(dx: int, dy: int, dxp: int, dyp: int) -> Seq<Point> {
    crate::theory::listing::cat(2, |dm: int| points_at(dx, dy, dxp, dyp, dm))
}

/// The points and the pairs of points fit in machine words, and so do the maps.
pub open spec fn points_fit(dx: int, dy: int, dxp: int, dyp: int) -> bool {
    &&& dx * dy < 32
    &&& dyp * dxp < 32
    &&& dy <= 32
    &&& dyp <= 32
    &&& dxp <= 32
    &&& points(dx, dy, dxp, dyp).len() * points(dx, dy, dxp, dyp).len() <= u32::MAX
}

proof fn lemma_cat_len(n: int, f: spec_fn(int) -> Seq<Point>, each: int)
    requires
        n >= 0,
        forall|i: int| 0 <= i < n ==> (#[trigger] f(i)).len() == each,
    ensures
        crate::theory::listing::cat(n, f).len() == n * each,
    decreases n,
{
    if n > 0 {
        lemma_cat_len(n - 1, f, each);
        assert(f(n - 1).len() == each);
        assert((n - 1) * each + each == n * each) by (nonlinear_arith);
    } else {
        assert(0 * each == 0);
    }
}

proof fn lemma_points_at_len(dx: int, dy: int, dxp: int, dyp: int, dm: int)
    requires
        dx >= 0,
        dy >= 0,
        dxp >= 0,
        dyp >= 0,
        dm >= 0,
    ensures
        points_at(dx, dy, dxp, dyp, dm).len() == vstd::arithmetic::power2::pow2((dx * (dm * dy)) as nat)
            * vstd::arithmetic::power2::pow2((dm * dyp * dxp) as nat),
{
    assert(dm * dy >= 0 && dm * dyp >= 0) by (nonlinear_arith)
        requires dm >= 0, dy >= 0, dyp >= 0;
    crate::theory::linear::law_all_maps(dx, dm * dy);
    crate::theory::linear::law_all_maps(dm * dyp, dxp);
    let ls = Gf::all(dx, dm * dy);
    let f = |k: int| points_from(dx, dxp, dyp, dm, ls[k]);
    lemma_cat_len(ls.len() as int, f, Gf::all(dm * dyp, dxp).len() as int);
}

/// There are few points where no space has more than one dimension.
pub proof fn law_points_fit(dx: int, dy: int, dxp: int, dyp: int)
    requires
        0 <= dx <= 1,
        0 <= dy <= 1,
        0 <= dxp <= 1,
        0 <= dyp <= 1,
    ensures
        points_fit(dx, dy, dxp, dyp),
        points(dx, dy, dxp, dyp).len() == 1 + vstd::arithmetic::power2::pow2((dx * dy) as nat)
            * vstd::arithmetic::power2::pow2((dyp * dxp) as nat),
{
    let f = |dm: int| points_at(dx, dy, dxp, dyp, dm);
    lemma_points_at_len(dx, dy, dxp, dyp, 0);
    lemma_points_at_len(dx, dy, dxp, dyp, 1);
    assert(0 <= dx * dy <= 1 && 0 <= dyp * dxp <= 1 && dx * (0 * dy) == 0 && 0 * dyp * dxp == 0) by (nonlinear_arith)
        requires 0 <= dx <= 1, 0 <= dy <= 1, 0 <= dxp <= 1, 0 <= dyp <= 1;
    assert(1 * dy == dy && 1 * dyp == dyp);
    vstd::arithmetic::power2::lemma2_to64();
    assert(crate::theory::listing::cat(0, f).len() == 0);
    assert(crate::theory::listing::cat(1, f) == crate::theory::listing::cat(0, f) + f(0));
    assert(crate::theory::listing::cat(2, f) == crate::theory::listing::cat(1, f) + f(1));
    let n = points(dx, dy, dxp, dyp).len() as int;
    let a = vstd::arithmetic::power2::pow2((dx * dy) as nat) as int;
    let b = vstd::arithmetic::power2::pow2((dyp * dxp) as nat) as int;
    assert(n == 1 + a * b);
    assert(a * b <= 4) by (nonlinear_arith)
        requires 1 <= a <= 2, 1 <= b <= 2;
    assert(n * n <= 25) by (nonlinear_arith)
        requires 0 <= n <= 5;
}

fn list_points(dx: u32, dy: u32, dxp: u32, dyp: u32) -> (r: Vec<Optic>)
    requires
        points_fit(dx as int, dy as int, dxp as int, dyp as int),
    ensures
        crate::theory::listing::views(r@) == points(dx as int, dy as int, dxp as int, dyp as int),
        forall|k: int| 0 <= k < r@.len() ==> (#[trigger] r@[k]).wf(dx as int, dy as int, dxp as int, dyp as int),
{
    let ghost f = |dm: int| points_at(dx as int, dy as int, dxp as int, dyp as int, dm);
    let mut out: Vec<Optic> = Vec::new();
    let mut dm: u32 = 0;
    assert(crate::theory::listing::views(out@) =~= crate::theory::listing::cat(0, f));
    while dm < 2
        invariant
            dm <= 2,
            points_fit(dx as int, dy as int, dxp as int, dyp as int),
            f == (|dm: int| points_at(dx as int, dy as int, dxp as int, dyp as int, dm)),
            crate::theory::listing::views(out@) == crate::theory::listing::cat(dm as int, f),
            forall|k: int| 0 <= k < out@.len() ==> (#[trigger] out@[k]).wf(dx as int, dy as int, dxp as int, dyp as int),
        decreases 2 - dm,
    {
        proof {
            assert(dx * (dm * dy) < 32 && (dm * dyp) * dxp < 32 && dm * dy <= 32 && dm * dyp <= 32) by (nonlinear_arith)
                requires
                    dm == 0 || dm == 1,
                    dx * dy < 32,
                    dyp * dxp < 32,
                    dy <= 32,
                    dyp <= 32;
            assert(0 <= dm * dy && 0 <= dm * dyp) by (nonlinear_arith) requires dm >= 0, dy >= 0, dyp >= 0;
        }
        let ls = vect::all(dx, dm * dy);
        let rs = vect::all(dm * dyp, dxp);
        let ghost lv = Gf::all(dx as int, dm * dy);
        let ghost rv = Gf::all(dm * dyp, dxp as int);
        let ghost before = crate::theory::listing::views(out@);
        let ghost g = |k: int| points_from(dx as int, dxp as int, dyp as int, dm as int, lv[k]);
        let mut a: usize = 0;
        proof {
            assert(before + crate::theory::listing::cat(0, g) =~= before);
            assert(lv.len() == ls@.len());
            assert(rv.len() == rs@.len());
        }
        while a < ls.len()
            invariant
                a <= ls.len(),
                dm < 2,
                lv.len() == ls@.len(),
                rv.len() == rs@.len(),
                crate::theory::listing::views(ls@) == lv,
                crate::theory::listing::views(rs@) == rv,
                rv == Gf::all(dm * dyp, dxp as int),
                forall|k: int| 0 <= k < ls@.len() ==> (#[trigger] ls@[k]).wf() && ls@[k].dom == dx && ls@[k].cod == dm * dy,
                forall|k: int| 0 <= k < rs@.len() ==> (#[trigger] rs@[k]).wf() && rs@[k].dom == dm * dyp && rs@[k].cod == dxp,
                g == (|k: int| points_from(dx as int, dxp as int, dyp as int, dm as int, lv[k])),
                crate::theory::listing::views(out@) == before + crate::theory::listing::cat(a as int, g),
                forall|k: int|
                    0 <= k < out@.len() ==> (#[trigger] out@[k]).wf(dx as int, dy as int, dxp as int, dyp as int),
            decreases ls.len() - a,
        {
            let ghost done = crate::theory::listing::views(out@);
            let ghost block = g(a as int);
            let mut b: usize = 0;
            assert(done + block.take(0) =~= done);
            while b < rs.len()
                invariant
                    a < ls.len(),
                    b <= rs.len(),
                    dm < 2,
                    rv.len() == rs@.len(),
                    crate::theory::listing::views(ls@) == lv,
                    crate::theory::listing::views(rs@) == rv,
                    rv == Gf::all(dm * dyp, dxp as int),
                    forall|k: int|
                        0 <= k < ls@.len() ==> (#[trigger] ls@[k]).wf() && ls@[k].dom == dx && ls@[k].cod == dm * dy,
                    forall|k: int|
                        0 <= k < rs@.len() ==> (#[trigger] rs@[k]).wf() && rs@[k].dom == dm * dyp && rs@[k].cod == dxp,
                    block == points_from(dx as int, dxp as int, dyp as int, dm as int, lv[a as int]),
                    crate::theory::listing::views(out@) == done + block.take(b as int),
                    forall|k: int|
                        0 <= k < out@.len() ==> (#[trigger] out@[k]).wf(dx as int, dy as int, dxp as int, dyp as int),
                decreases rs.len() - b,
            {
                assert(ls@[a as int].wf() && rs@[b as int].wf());
                let p = Optic { dm, l: ls[a].clone(), r: rs[b].clone() };
                proof {
                    crate::theory::listing::lemma_views_push(out@, p);
                    assert(crate::theory::listing::views(ls@)[a as int] == ls@[a as int]@);
                    assert(crate::theory::listing::views(rs@)[b as int] == rs@[b as int]@);
                    assert(p@ =~= block[b as int]);
                    assert(done + block.take(b + 1) =~= (done + block.take(b as int)).push(p@));
                }
                out.push(p);
                b = b + 1;
            }
            proof {
                assert(block.take(b as int) =~= block);
                assert(before + crate::theory::listing::cat(a as int, g) + g(a as int) =~= before
                    + crate::theory::listing::cat(a + 1, g));
            }
            a = a + 1;
        }
        dm = dm + 1;
    }
    out
}

/// Whether some map of residuals slides from `a` to `b`.
fn has_slide(a: &Optic, b: &Optic, dx: u32, dy: u32, dxp: u32, dyp: u32) -> (r: bool)
    requires
        a.wf(dx as int, dy as int, dxp as int, dyp as int),
        b.wf(dx as int, dy as int, dxp as int, dyp as int),
        dy <= 32,
        dyp <= 32,
        dxp <= 32,
    ensures
        r == slides(a@, b@, dy as int, dyp as int),
{
    proof {
        assert(a.dm * b.dm < 32 && a.dm * dy <= 32 && b.dm * dy <= 32 && a.dm * dyp <= 32 && b.dm * dyp <= 32) by (nonlinear_arith)
            requires a.dm <= 1, b.dm <= 1, dy <= 32, dyp <= 32, a.dm >= 0, b.dm >= 0;
        crate::theory::linear::law_all_maps(a.dm as int, b.dm as int);
    }
    let maps = vect::all(a.dm, b.dm);
    let ghost all = Gf::all(a.dm as int, b.dm as int);
    let iy = vect::identity(dy);
    let iyp = vect::identity(dyp);
    let mut k: usize = 0;
    while k < maps.len()
        invariant
            k <= maps.len(),
            a.wf(dx as int, dy as int, dxp as int, dyp as int),
            b.wf(dx as int, dy as int, dxp as int, dyp as int),
            dy <= 32,
            dyp <= 32,
            dxp <= 32,
            a.dm * dy <= 32,
            b.dm * dy <= 32,
            a.dm * dyp <= 32,
            b.dm * dyp <= 32,
            iy.wf(),
            iyp.wf(),
            iy@ == Gf::id(dy as int),
            iyp@ == Gf::id(dyp as int),
            all == Gf::all(a.dm as int, b.dm as int),
            crate::theory::listing::views(maps@) == all,
            forall|f: Gf| #[trigger] all.contains(f) <==> f.wf() && f.dom == a.dm && f.cod == b.dm,
            forall|j: int| 0 <= j < maps@.len() ==> (#[trigger] maps@[j]).wf() && maps@[j].dom == a.dm && maps@[j].cod == b.dm,
            forall|j: int| 0 <= j < k ==> !slides_by(a@, b@, dy as int, dyp as int, #[trigger] maps@[j]@),
        decreases maps.len() - k,
    {
        let m: &Lin = &maps[k];
        assert(maps@[k as int].wf());
        assert(iy@.dom == dy && iyp@.dom == dyp && iy@.cod == dy && iyp@.cod == dyp);
        let m_y = vect::kronecker(m, &iy);
        let m_yp = vect::kronecker(m, &iyp);
        assert(m_y@.dom == a.dm * dy && m_y@.cod == b.dm * dy);
        assert(m_yp@.dom == a.dm * dyp && m_yp@.cod == b.dm * dyp);
        let left = vect::compose(&m_y, &a.l);
        let right = vect::compose(&b.r, &m_yp);
        let ok = left == b.l && a.r == right;
        proof {
            if left@ == b.l@ {
                vect::lemma_lin_ext(&left, &b.l);
            }
            if a.r@ == right@ {
                vect::lemma_lin_ext(&a.r, &right);
            }
            assert(ok == slides_by(a@, b@, dy as int, dyp as int, m@));
        }
        if ok {
            proof {
                assert(all[k as int] == m@);
                assert(all.contains(m@));
            }
            return true;
        }
        k = k + 1;
    }
    proof {
        if slides(a@, b@, dy as int, dyp as int) {
            let m = choose|m: Gf| #[trigger] slides_by(a@, b@, dy as int, dyp as int, m) && m.wf() && m.dom == a@.dm && m.cod
                == b@.dm;
            assert(all.contains(m));
            let j = choose|j: int| 0 <= j < all.len() && all[j] == m;
            assert(crate::theory::listing::views(maps@)[j] == maps@[j]@);
        }
    }
    false
}

/// The number of classes of the coend over residuals of dimension at most 1.
pub fn classes(dx: u32, dy: u32, dxp: u32, dyp: u32) -> (r: usize)
    requires
        points_fit(dx as int, dy as int, dxp as int, dyp as int),
    ensures
        exists|q: Fun| #[trigger]
            numbers_classes(points(dx as int, dy as int, dxp as int, dyp as int), dy as int, dyp as int, r as int, q),
        dx <= 1 && dy <= 1 && dxp <= 1 && dyp <= 1 ==> r == vstd::arithmetic::power2::pow2((dx * dyp * dxp * dy) as nat),
{
    let ps = list_points(dx, dy, dxp, dyp);
    let ghost pts = points(dx as int, dy as int, dxp as int, dyp as int);
    let ghost n = ps@.len() as int;
    proof {
        assert(pts.len() == ps@.len());
        if n > u32::MAX {
            assert(n * n > u32::MAX) by (nonlinear_arith) requires n > u32::MAX;
        }
    }
    let size: u32 = ps.len() as u32;
    let mut src: Vec<u32> = Vec::new();
    let mut dst: Vec<u32> = Vec::new();
    let mut i: u32 = 0;
    while i < size
        invariant
            i <= size,
            size == ps@.len(),
            n == size,
            n * n <= u32::MAX,
            points_fit(dx as int, dy as int, dxp as int, dyp as int),
            pts == crate::theory::listing::views(ps@),
            forall|k: int| 0 <= k < ps@.len() ==> (#[trigger] ps@[k]).wf(dx as int, dy as int, dxp as int, dyp as int),
            src@.len() == dst@.len(),
            src@.len() <= i * n,
            edges_ok(pts, dy as int, dyp as int, src@, dst@),
            forall|a: int, b: int|
                0 <= a < i && 0 <= b < n && slides(#[trigger] pts[a], #[trigger] pts[b], dy as int, dyp as int) ==> edge(
                    src@,
                    dst@,
                    a,
                    b,
                ),
        decreases size - i,
    {
        let mut j: u32 = 0;
        let ghost start = src@.len();
        while j < size
            invariant
                i < size,
                j <= size,
                size == ps@.len(),
                n == size,
                n * n <= u32::MAX,
                points_fit(dx as int, dy as int, dxp as int, dyp as int),
                pts == crate::theory::listing::views(ps@),
                forall|k: int| 0 <= k < ps@.len() ==> (#[trigger] ps@[k]).wf(dx as int, dy as int, dxp as int, dyp as int),
                src@.len() == dst@.len(),
                start <= i * n,
                src@.len() <= start + j,
                edges_ok(pts, dy as int, dyp as int, src@, dst@),
                forall|a: int, b: int|
                    0 <= a < i && 0 <= b < n && slides(#[trigger] pts[a], #[trigger] pts[b], dy as int, dyp as int)
                        ==> edge(src@, dst@, a, b),
                forall|b: int|
                    0 <= b < j && slides(pts[i as int], #[trigger] pts[b], dy as int, dyp as int) ==> edge(
                        src@,
                        dst@,
                        i as int,
                        b,
                    ),
            decreases size - j,
        {
            assert(ps@[i as int].wf(dx as int, dy as int, dxp as int, dyp as int));
            assert(ps@[j as int].wf(dx as int, dy as int, dxp as int, dyp as int));
            assert(pts[i as int] == ps@[i as int]@ && pts[j as int] == ps@[j as int]@);
            if has_slide(&ps[i as usize], &ps[j as usize], dx, dy, dxp, dyp) {
                let ghost old_src = src@;
                let ghost old_dst = dst@;
                src.push(i);
                dst.push(j);
                proof {
                    lemma_edge_push(old_src, old_dst, i, j);
                }
            }
            j = j + 1;
        }
        proof {
            assert((i + 1) * n == i * n + n) by (nonlinear_arith);
        }
        i = i + 1;
    }
    proof {
        assert(size * n == n * n);
        assert forall|x: int| 0 <= x < dst@.len() implies #[trigger] dst@[x] < size by {
            assert(edge_ok(pts, dy as int, dyp as int, src@[x], dst@[x]));
        }
    }
    let edges: u32 = src.len() as u32;
    let f = Mor { dom: edges, cod: size, map: src };
    let g = Mor { dom: edges, cod: size, map: dst };
    let q = finset::coequalizer(&f, &g);
    proof {
        let h = q.proj@;
        let dyi = dy as int;
        let dypi = dyp as int;
        crate::theory::colimits::lemma_coeq(f@, g@);
        assert forall|s: Seq<int>| #[trigger] constant(pts, dyi, dypi, s) implies crate::theory::colimits::respects(s, f@, g@) by {
            assert forall|x: int| 0 <= x < f@.dom implies s[#[trigger] f@.map[x]] == s[g@.map[x]] by {
                assert(edge_ok(pts, dyi, dypi, src@[x], dst@[x]));
                assert(slides(pts[src@[x] as int], pts[dst@[x] as int], dyi, dypi));
            }
        }
        assert(constant(pts, dyi, dypi, h.map)) by {
            assert forall|a: int, b: int|
                0 <= a < pts.len() && 0 <= b < pts.len() && slides(#[trigger] pts[a], #[trigger] pts[b], dyi, dypi)
                implies h.map[a] == h.map[b] by {
                assert(edge(src@, dst@, a, b));
                let x = choose|x: int| 0 <= x < src@.len() && #[trigger] src@[x] == a && dst@[x] == b;
                assert(f@.map[x] == a && g@.map[x] == b);
            }
        }
        assert forall|a: int, b: int| 0 <= a < pts.len() && 0 <= b < pts.len() implies (#[trigger] h.map[a]
            == #[trigger] h.map[b] <==> linked(pts, dyi, dypi, a, b)) by {
            if h.map[a] == h.map[b] {
                assert(crate::theory::colimits::glued(f@, g@, a, b));
                assert forall|s: Seq<int>| #[trigger] constant(pts, dyi, dypi, s) implies s[a] == s[b] by {
                    assert(crate::theory::colimits::respects(s, f@, g@));
                }
            }
        }
        assert(numbers_classes(pts, dyi, dypi, q.obj as int, h));
        if dx <= 1 && dy <= 1 && dxp <= 1 && dyp <= 1 {
            law_class_count(dx as int, dyi, dxp as int, dypi, q.obj as int, h);
        }
    }
    q.obj as usize
}

/// The pair is one of the listed edges.
pub open spec fn edge(src: Seq<u32>, dst: Seq<u32>, a: int, b: int) -> bool {
    exists|x: int| 0 <= x < src.len() && #[trigger] src[x] == a && dst[x] == b
}

pub open spec fn edge_ok(ps: Seq<Point>, dy: int, dyp: int, a: u32, b: u32) -> bool {
    a < ps.len() && b < ps.len() && slides(ps[a as int], ps[b as int], dy, dyp)
}

/// Every listed edge joins points by a slide.
pub open spec fn edges_ok(ps: Seq<Point>, dy: int, dyp: int, src: Seq<u32>, dst: Seq<u32>) -> bool {
    forall|x: int| 0 <= x < src.len() ==> edge_ok(ps, dy, dyp, #[trigger] src[x], dst[x])
}

proof fn lemma_edge_push(src: Seq<u32>, dst: Seq<u32>, i: u32, j: u32)
    requires
        src.len() == dst.len(),
    ensures
        edge(src.push(i), dst.push(j), i as int, j as int),
        forall|a: int, b: int| #[trigger] edge(src, dst, a, b) ==> edge(src.push(i), dst.push(j), a, b),
{
    let s = src.push(i);
    let d = dst.push(j);
    assert(s[src.len() as int] == i && d[src.len() as int] == j);
    assert forall|a: int, b: int| #[trigger] edge(src, dst, a, b) implies edge(s, d, a, b) by {
        let x = choose|x: int| 0 <= x < src.len() && #[trigger] src[x] == a && dst[x] == b;
        assert(s[x] == a && d[x] == b);
    }
}

/// The map `X → [Y', X'] ⊗ Y` that a point of the coend is: its coefficient at
/// `x`, `y`, `x'` and `y'` is `Σ_m l[(m, y), x] · r[x', (m, y')]`.
pub open spec fn closed_form(p: Point, dy: int, dyp: int, x: int, y: int, xp: int, yp: int) -> bool {
    crate::theory::sums::parity(p.dm, |m: int| p.l.e(m * dy + y, x) && p.r.e(xp, m * dyp + yp))
}

/// Points that are joined by a slide have the same closed form: the closed
/// form is a function on the coend.
pub proof fn law_closed_form_invariant(a: Point, b: Point, dx: int, dy: int, dxp: int, dyp: int, x: int, y: int, xp: int, yp: int)
    requires
        a.dm >= 0,
        b.dm >= 0,
        a.l.wf(),
        b.l.wf(),
        a.r.wf(),
        b.r.wf(),
        a.l.dom == dx,
        b.l.dom == dx,
        a.l.cod == a.dm * dy,
        b.l.cod == b.dm * dy,
        a.r.dom == a.dm * dyp,
        b.r.dom == b.dm * dyp,
        a.r.cod == dxp,
        b.r.cod == dxp,
        slides(a, b, dy, dyp),
        0 <= x < dx,
        0 <= y < dy,
        0 <= xp < dxp,
        0 <= yp < dyp,
    ensures
        closed_form(a, dy, dyp, x, y, xp, yp) == closed_form(b, dy, dyp, x, y, xp, yp),
{
    let m = choose|m: Gf| #[trigger] slides_by(a, b, dy, dyp, m) && m.wf() && m.dom == a.dm && m.cod == b.dm;
    let t = |i: int, j: int| m.e(j, i) && a.l.e(i * dy + y, x) && b.r.e(xp, j * dyp + yp);
    // Σ_i l_a[(i, y), x] · r_a[x', (i, y')], with r_a = r_b ∘ (m ⊗ Y')
    let fa = |i: int| a.l.e(i * dy + y, x) && a.r.e(xp, i * dyp + yp);
    let fa2 = |i: int| crate::theory::sums::parity(b.dm, |j: int| t(i, j));
    assert forall|i: int| 0 <= i < a.dm implies #[trigger] fa(i) == fa2(i) by {
        lemma_after_kron(b.r, m, dyp, xp, i, yp);
        let row = |j: int| m.e(j, i) && b.r.e(xp, j * dyp + yp);
        crate::theory::sums::lemma_parity_scale(b.dm, a.l.e(i * dy + y, x), row);
        crate::theory::sums::lemma_parity_ext(b.dm, |j: int| a.l.e(i * dy + y, x) && row(j), |j: int| t(i, j));
        crate::theory::sums::lemma_parity_ext(b.dm, row, |j: int| m.e(j, i) && b.r.e(xp, j * dyp + yp));
    }
    crate::theory::sums::lemma_parity_ext(a.dm, fa, fa2);
    // Σ_j l_b[(j, y), x] · r_b[x', (j, y')], with l_b = (m ⊗ Y) ∘ l_a
    let fb = |j: int| b.l.e(j * dy + y, x) && b.r.e(xp, j * dyp + yp);
    let fb2 = |j: int| crate::theory::sums::parity(a.dm, |i: int| t(i, j));
    assert forall|j: int| 0 <= j < b.dm implies #[trigger] fb(j) == fb2(j) by {
        lemma_before_kron(a.l, m, dy, j, y, x);
        let col = |i: int| m.e(j, i) && a.l.e(i * dy + y, x);
        crate::theory::sums::lemma_parity_scale(a.dm, b.r.e(xp, j * dyp + yp), col);
        crate::theory::sums::lemma_parity_ext(a.dm, |i: int| b.r.e(xp, j * dyp + yp) && col(i), |i: int| t(i, j));
        crate::theory::sums::lemma_parity_ext(a.dm, col, |i: int| m.e(j, i) && a.l.e(i * dy + y, x));
    }
    crate::theory::sums::lemma_parity_ext(b.dm, fb, fb2);
    crate::theory::sums::lemma_parity_swap(a.dm, b.dm, t);
    crate::theory::sums::lemma_parity_ext(a.dm, fa2, |i: int| crate::theory::sums::parity(b.dm, |j: int| t(i, j)));
    crate::theory::sums::lemma_parity_ext(b.dm, fb2, |j: int| crate::theory::sums::parity(a.dm, |i: int| t(i, j)));
    crate::theory::sums::lemma_parity_ext(a.dm, fa, |i: int| a.l.e(i * dy + y, x) && a.r.e(xp, i * dyp + yp));
    crate::theory::sums::lemma_parity_ext(b.dm, fb, |j: int| b.l.e(j * dy + y, x) && b.r.e(xp, j * dyp + yp));
}

/// A coefficient of `r ∘ (m ⊗ Y)`.
proof fn lemma_after_kron(r: Gf, m: Gf, d: int, row: int, i: int, y: int)
    requires
        r.wf(),
        m.wf(),
        d >= 0,
        r.dom == m.cod * d,
        0 <= row < r.cod,
        0 <= i < m.dom,
        0 <= y < d,
    ensures
        r.o(Gf::kron(m, Gf::id(d))).e(row, i * d + y) == crate::theory::sums::parity(
            m.cod,
            |j: int| m.e(j, i) && r.e(row, j * d + y),
        ),
{
    let k = Gf::kron(m, Gf::id(d));
    crate::theory::linear::lemma_kron(m, Gf::id(d));
    crate::theory::limits::lemma_pair_index(m.dom, d, i, y);
    let c = i * d + y;
    let full = |s: int| r.e(row, s) && k.e(s, c);
    let g = |j: int, v: int| m.e(j, i) && v == y && r.e(row, j * d + v);
    let flat = |s: int| g(s / d, s % d);
    assert forall|s: int| 0 <= s < r.dom implies #[trigger] full(s) == flat(s) by {
        crate::theory::limits::lemma_unpair(m.cod, d, s);
    }
    crate::theory::sums::lemma_parity_ext(r.dom, full, flat);
    crate::theory::linear::lemma_parity_pairs(m.cod, d, g);
    let outer = |j: int| crate::theory::sums::parity(d, |v: int| g(j, v));
    let want = |j: int| m.e(j, i) && r.e(row, j * d + y);
    assert forall|j: int| 0 <= j < m.cod implies #[trigger] outer(j) == want(j) by {
        crate::theory::sums::lemma_parity_one(d, y, |v: int| g(j, v));
    }
    crate::theory::sums::lemma_parity_ext(m.cod, outer, want);
    crate::theory::sums::lemma_parity_ext(m.cod, outer, |j: int| crate::theory::sums::parity(d, |v: int| g(j, v)));
    crate::theory::sums::lemma_parity_ext(m.cod, want, |j: int| m.e(j, i) && r.e(row, j * d + y));
    crate::theory::sums::lemma_parity_ext(r.dom, full, |s: int| r.e(row, s) && k.e(s, c));
}

/// A coefficient of `(m ⊗ Y) ∘ l`.
proof fn lemma_before_kron(l: Gf, m: Gf, d: int, j: int, y: int, x: int)
    requires
        l.wf(),
        m.wf(),
        d >= 0,
        l.cod == m.dom * d,
        0 <= j < m.cod,
        0 <= y < d,
        0 <= x < l.dom,
    ensures
        Gf::kron(m, Gf::id(d)).o(l).e(j * d + y, x) == crate::theory::sums::parity(
            m.dom,
            |i: int| m.e(j, i) && l.e(i * d + y, x),
        ),
{
    let k = Gf::kron(m, Gf::id(d));
    crate::theory::linear::lemma_kron(m, Gf::id(d));
    crate::theory::limits::lemma_pair_index(m.cod, d, j, y);
    let c = j * d + y;
    let full = |s: int| k.e(c, s) && l.e(s, x);
    let g = |i: int, v: int| m.e(j, i) && v == y && l.e(i * d + v, x);
    let flat = |s: int| g(s / d, s % d);
    assert forall|s: int| 0 <= s < k.dom implies #[trigger] full(s) == flat(s) by {
        crate::theory::limits::lemma_unpair(m.dom, d, s);
    }
    crate::theory::sums::lemma_parity_ext(k.dom, full, flat);
    crate::theory::linear::lemma_parity_pairs(m.dom, d, g);
    let outer = |i: int| crate::theory::sums::parity(d, |v: int| g(i, v));
    let want = |i: int| m.e(j, i) && l.e(i * d + y, x);
    assert forall|i: int| 0 <= i < m.dom implies #[trigger] outer(i) == want(i) by {
        crate::theory::sums::lemma_parity_one(d, y, |v: int| g(i, v));
    }
    crate::theory::sums::lemma_parity_ext(m.dom, outer, want);
    crate::theory::sums::lemma_parity_ext(m.dom, outer, |i: int| crate::theory::sums::parity(d, |v: int| g(i, v)));
    crate::theory::sums::lemma_parity_ext(m.dom, want, |i: int| m.e(j, i) && l.e(i * d + y, x));
    crate::theory::sums::lemma_parity_ext(k.dom, full, |s: int| k.e(c, s) && l.e(s, x));
}

// ----- counting the classes -----

/// A point over spaces of these dimensions, with a residual of dimension at
/// most 1.
pub open spec fn point_ok(p: Point, dx: int, dy: int, dxp: int, dyp: int) -> bool {
    &&& 0 <= p.dm <= 1
    &&& p.l.wf() && p.l.dom == dx && p.l.cod == p.dm * dy
    &&& p.r.wf() && p.r.dom == p.dm * dyp && p.r.cod == dxp
}

proof fn lemma_points(dx: int, dy: int, dxp: int, dyp: int)
    requires
        dx >= 0,
        dy >= 0,
        dxp >= 0,
        dyp >= 0,
    ensures
        forall|p: Point| #[trigger] points(dx, dy, dxp, dyp).contains(p) <==> point_ok(p, dx, dy, dxp, dyp),
{
    let f = |dm: int| points_at(dx, dy, dxp, dyp, dm);
    let ps = points(dx, dy, dxp, dyp);
    crate::theory::listing::lemma_cat(2, f);
    assert forall|dm: int, p: Point| 0 <= dm <= 1 implies (#[trigger] points_at(dx, dy, dxp, dyp, dm).contains(p) <==> p.dm == dm
        && point_ok(p, dx, dy, dxp, dyp)) by {
        assert(dm * dy >= 0 && dm * dyp >= 0) by (nonlinear_arith)
            requires dm >= 0, dy >= 0, dyp >= 0;
        crate::theory::linear::law_all_maps(dx, dm * dy);
        crate::theory::linear::law_all_maps(dm * dyp, dxp);
        let ls = Gf::all(dx, dm * dy);
        let rs = Gf::all(dm * dyp, dxp);
        let g = |k: int| points_from(dx, dxp, dyp, dm, ls[k]);
        let at = points_at(dx, dy, dxp, dyp, dm);
        crate::theory::listing::lemma_cat(ls.len() as int, g);
        if at.contains(p) {
            let k = choose|k: int| 0 <= k < at.len() && at[k] == p;
            let a = choose|a: int| 0 <= a < ls.len() && (#[trigger] g(a)).contains(at[k]);
            let row = g(a);
            let b = choose|b: int| 0 <= b < row.len() && #[trigger] row[b] == at[k];
            assert(ls.contains(ls[a]));
            assert(rs.contains(rs[b]));
        }
        if p.dm == dm && point_ok(p, dx, dy, dxp, dyp) {
            assert(ls.contains(p.l) && rs.contains(p.r));
            let a = choose|a: int| 0 <= a < ls.len() && ls[a] == p.l;
            let b = choose|b: int| 0 <= b < rs.len() && rs[b] == p.r;
            assert(g(a)[b] == p);
            assert(g(a).contains(p));
        }
    }
    assert forall|p: Point| #[trigger] ps.contains(p) <==> point_ok(p, dx, dy, dxp, dyp) by {
        if ps.contains(p) {
            let k = choose|k: int| 0 <= k < ps.len() && ps[k] == p;
            let dm = choose|dm: int| 0 <= dm < 2 && (#[trigger] f(dm)).contains(ps[k]);
            assert(points_at(dx, dy, dxp, dyp, dm).contains(p));
        }
        if point_ok(p, dx, dy, dxp, dyp) {
            assert(points_at(dx, dy, dxp, dyp, p.dm).contains(p));
            assert(f(p.dm).contains(p));
        }
    }
}

/// The point without a residual.
pub open spec fn zero_point(dx: int, dxp: int) -> Point {
    Point { dm: 0, l: Gf::zero(dx, 0), r: Gf::zero(0, dxp) }
}

/// A point whose first or second map is zero is joined to the point without a
/// residual.
proof fn lemma_joined_to_zero(p: Point, dx: int, dy: int, dxp: int, dyp: int)
    requires
        dx >= 0,
        dy >= 0,
        dxp >= 0,
        dyp >= 0,
        point_ok(p, dx, dy, dxp, dyp),
        p.l == Gf::zero(dx, p.dm * dy) || p.r == Gf::zero(p.dm * dyp, dxp),
    ensures
        slides(zero_point(dx, dxp), p, dy, dyp) || slides(p, zero_point(dx, dxp), dy, dyp),
{
    let z = zero_point(dx, dxp);
    assert(0 * dy == 0 && 0 * dyp == 0);
    if p.l == Gf::zero(dx, p.dm * dy) {
        let m = Gf::zero(0, p.dm);
        crate::theory::linear::lemma_kron(m, Gf::id(dy));
        crate::theory::linear::lemma_kron(m, Gf::id(dyp));
        crate::theory::linear::lemma_gf_ext(Gf::kron(m, Gf::id(dy)).o(z.l), p.l);
        crate::theory::linear::lemma_gf_ext(z.r, p.r.o(Gf::kron(m, Gf::id(dyp))));
        assert(slides_by(z, p, dy, dyp, m));
    } else {
        let m = Gf::zero(p.dm, 0);
        crate::theory::linear::lemma_kron(m, Gf::id(dy));
        crate::theory::linear::lemma_kron(m, Gf::id(dyp));
        crate::theory::linear::lemma_gf_ext(Gf::kron(m, Gf::id(dy)).o(p.l), z.l);
        crate::theory::linear::lemma_gf_ext(p.r, z.r.o(Gf::kron(m, Gf::id(dyp))));
        assert(slides_by(p, z, dy, dyp, m));
    }
}

proof fn lemma_slides_self(p: Point, dx: int, dy: int, dxp: int, dyp: int)
    requires
        dx >= 0,
        dy >= 0,
        dxp >= 0,
        dyp >= 0,
        point_ok(p, dx, dy, dxp, dyp),
    ensures
        slides(p, p, dy, dyp),
{
    let m = Gf::id(p.dm);
    crate::theory::linear::law_kron_identity(p.dm, dy);
    crate::theory::linear::law_kron_identity(p.dm, dyp);
    crate::theory::linear::law_linear_category(Gf::id(p.l.cod), Gf::id(p.l.cod), p.l);
    crate::theory::linear::law_linear_category(Gf::id(p.r.cod), Gf::id(p.r.cod), p.r);
    assert(slides_by(p, p, dy, dyp, m));
}

/// Points that a slide joins are equivalent.
proof fn lemma_linked(ps: Seq<Point>, dy: int, dyp: int, i: int, j: int)
    requires
        0 <= i < ps.len(),
        0 <= j < ps.len(),
        slides(ps[i], ps[j], dy, dyp) || slides(ps[j], ps[i], dy, dyp),
    ensures
        linked(ps, dy, dyp, i, j),
{
    assert forall|h: Seq<int>| #[trigger] constant(ps, dy, dyp, h) implies h[i] == h[j] by {
        assert(slides(ps[i], ps[j], dy, dyp) ==> h[i] == h[j]);
        assert(slides(ps[j], ps[i], dy, dyp) ==> h[j] == h[i]);
    }
}

/// Over spaces of dimension at most 1, a point has a zero map, or each space has
/// dimension 1 and its closed form is the identity.
proof fn lemma_point_cases(p: Point, dx: int, dy: int, dxp: int, dyp: int)
    requires
        0 <= dx <= 1,
        0 <= dy <= 1,
        0 <= dxp <= 1,
        0 <= dyp <= 1,
        point_ok(p, dx, dy, dxp, dyp),
    ensures
        ({
            ||| p.l == Gf::zero(dx, p.dm * dy)
            ||| p.r == Gf::zero(p.dm * dyp, dxp)
            ||| dx == 1 && dy == 1 && dxp == 1 && dyp == 1 && p.dm == 1 && p.l == Gf::id(1) && p.r == Gf::id(1)
        }),
{
    let n = p.dm * dy;
    let k = p.dm * dyp;
    assert(p.dm == 0 ==> n == 0 && k == 0) by (nonlinear_arith)
        requires n == p.dm * dy, k == p.dm * dyp;
    assert(p.dm == 1 ==> n == dy && k == dyp) by (nonlinear_arith)
        requires n == p.dm * dy, k == p.dm * dyp;
    if dx == 0 || n == 0 || !p.l.e(0, 0) {
        crate::theory::linear::lemma_gf_ext(p.l, Gf::zero(dx, n));
    } else if dxp == 0 || k == 0 || !p.r.e(0, 0) {
        crate::theory::linear::lemma_gf_ext(p.r, Gf::zero(k, dxp));
    } else {
        crate::theory::linear::lemma_gf_ext(p.l, Gf::id(1));
        crate::theory::linear::lemma_gf_ext(p.r, Gf::id(1));
    }
}

/// Over spaces of dimension at most 1, the coend has as many classes as there
/// are maps `X → [Y', X'] ⊗ Y`.
pub proof fn law_class_count(dx: int, dy: int, dxp: int, dyp: int, n: int, q: Fun)
    requires
        0 <= dx <= 1,
        0 <= dy <= 1,
        0 <= dxp <= 1,
        0 <= dyp <= 1,
        numbers_classes(points(dx, dy, dxp, dyp), dy, dyp, n, q),
    ensures
        n == vstd::arithmetic::power2::pow2((dx * dyp * dxp * dy) as nat),
{
    let ps = points(dx, dy, dxp, dyp);
    let z = zero_point(dx, dxp);
    lemma_points(dx, dy, dxp, dyp);
    vstd::arithmetic::power2::lemma2_to64();
    assert(0 * dy == 0 && 0 * dyp == 0);
    assert(point_ok(z, dx, dy, dxp, dyp));
    assert(ps.contains(z));
    let at = choose|i: int| 0 <= i < ps.len() && ps[i] == z;
    let full = dx == 1 && dy == 1 && dxp == 1 && dyp == 1;
    let d = dx * dyp * dxp * dy;
    assert(full ==> d == 1) by (nonlinear_arith)
        requires d == dx * dyp * dxp * dy, full == (dx == 1 && dy == 1 && dxp == 1 && dyp == 1);
    assert(!full ==> d == 0) by (nonlinear_arith)
        requires
            d == dx * dyp * dxp * dy,
            full == (dx == 1 && dy == 1 && dxp == 1 && dyp == 1),
            0 <= dx <= 1,
            0 <= dy <= 1,
            0 <= dxp <= 1,
            0 <= dyp <= 1;
    let one = Point { dm: 1, l: Gf::id(1), r: Gf::id(1) };
    assert forall|i: int| 0 <= i < ps.len() implies #[trigger] q.map[i] == q.map[at] || (full && ps[i] == one) by {
        assert(ps.contains(ps[i]));
        lemma_point_cases(ps[i], dx, dy, dxp, dyp);
        if !(full && ps[i] == one) {
            lemma_joined_to_zero(ps[i], dx, dy, dxp, dyp);
            lemma_linked(ps, dy, dyp, i, at);
        }
    }
    assert(q.map[at] < n);
    if !full {
        if n > 1 {
            let c: int = if q.map[at] == 0 { 1 } else { 0 };
            assert(q.hits(c, q.pre(c)));
        }
    } else {
        assert(point_ok(one, 1, 1, 1, 1));
        assert(ps.contains(one));
        let u = choose|i: int| 0 <= i < ps.len() && ps[i] == one;
        assert forall|i: int| 0 <= i < ps.len() && ps[i] == one implies #[trigger] q.map[i] == q.map[u] by {
            lemma_slides_self(one, 1, 1, 1, 1);
            lemma_linked(ps, dy, dyp, i, u);
        }
        // The closed form tells the two classes apart.
        let h = Seq::new(ps.len(), |i: int| if closed_form(ps[i], 1, 1, 0, 0, 0, 0) { 1int } else { 0 });
        assert forall|a: int, b: int|
            0 <= a < ps.len() && 0 <= b < ps.len() && slides(#[trigger] ps[a], #[trigger] ps[b], dy, dyp) implies h[a] == h[b] by {
            assert(ps.contains(ps[a]) && ps.contains(ps[b]));
            law_closed_form_invariant(ps[a], ps[b], 1, 1, 1, 1, 0, 0, 0, 0);
        }
        assert(constant(ps, dy, dyp, h));
        reveal_with_fuel(crate::theory::sums::parity, 2);
        assert(!closed_form(z, 1, 1, 0, 0, 0, 0));
        assert(closed_form(one, 1, 1, 0, 0, 0, 0));
        assert(h[at] != h[u]);
        assert(!linked(ps, dy, dyp, at, u));
        assert(q.map[at] != q.map[u]);
        if n > 2 {
            let a = q.map[at];
            let b = q.map[u];
            let c: int = if a != 0 && b != 0 {
                0
            } else if a != 1 && b != 1 {
                1
            } else {
                2
            };
            assert(q.hits(c, q.pre(c)));
        }
    }
}

} // verus!
