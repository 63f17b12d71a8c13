//! Polynomial optics (Milewski, *Compound Optics*).
//!
//! A polynomial is a finite coproduct of representables `s × y^t`. A map sends
//! each source coefficient to a target position and a function from the target
//! directions back to the source directions. The ommatidium residual is the direction function, stored as a 0-1
//! matrix of positions, and matrix multiplication in [`crate::fibre`] reproduces
//! composition of those residuals.
use vstd::prelude::*;
use crate::fibre::Matrix;
use crate::finset;
use crate::finset::Mor;
use crate::span;
use crate::theory::fun::Fun;
use crate::theory::polynomials::Ch;
use crate::theory::polynomials::PMap;
use crate::theory::polynomials::Pol;

verus! {

#[derive(Eq, Debug)]
pub struct Poly {
    /// `(coefficient cardinality, direction cardinality)` per position.
    pub positions: Vec<(u32, u32)>,
}

impl View for Poly {
    type V = Pol;

    open spec fn view(&self) -> Pol {
        Pol { positions: finset::int_pairs(self.positions@) }
    }
}

impl Clone for Poly {
    fn clone(&self) -> (r: Poly)
        ensures
            r@ == self@,
    {
        let positions = clone_pairs(&self.positions);
        Poly { positions }
    }
}

/// A copy of a list of pairs.
fn clone_pairs(ps: &Vec<(u32, u32)>) -> (r: Vec<(u32, u32)>)
    ensures
        r@ == ps@,
{
    let mut out: Vec<(u32, u32)> = Vec::new();
    let mut k: usize = 0;
    while k < ps.len()
        invariant
            k <= ps.len(),
            out@ == ps@.take(k as int),
        decreases ps.len() - k,
    {
        let p: (u32, u32) = ps[k];
        out.push(p);
        assert(ps@.take(k + 1) =~= ps@.take(k as int).push(ps@[k as int]));
        k = k + 1;
    }
    assert(ps@.take(k as int) =~= ps@);
    out
}

impl PartialEq for Poly {
    fn eq(&self, other: &Poly) -> (r: bool) {
        proof {
            assert(self@.positions.len() == self.positions@.len());
            assert(other@.positions.len() == other.positions@.len());
        }
        if self.positions.len() != other.positions.len() {
            return false;
        }
        let mut k: usize = 0;
        while k < self.positions.len()
            invariant
                k <= self.positions@.len(),
                self.positions@.len() == other.positions@.len(),
                forall|j: int| 0 <= j < k ==> #[trigger] self@.positions[j] == other@.positions[j],
            decreases self.positions.len() - k,
        {
            let a: (u32, u32) = self.positions[k];
            let b: (u32, u32) = other.positions[k];
            assert(self@.positions[k as int] == (a.0 as int, a.1 as int));
            assert(other@.positions[k as int] == (b.0 as int, b.1 as int));
            if a.0 != b.0 || a.1 != b.1 {
                return false;
            }
            k = k + 1;
        }
        assert(self@.positions =~= other@.positions);
        true
    }
}

impl vstd::std_specs::cmp::PartialEqSpecImpl for Poly {
    open spec fn obeys_eq_spec() -> bool {
        true
    }

    open spec fn eq_spec(&self, other: &Poly) -> bool {
        self@ == other@
    }
}

#[derive(Eq, Debug)]
pub struct Choice {
    pub target: usize,
    /// `b_target → t_source`.
    pub dirs: Mor,
}

impl View for Choice {
    type V = Ch;

    open spec fn view(&self) -> Ch {
        Ch { target: self.target as int, dirs: self.dirs@ }
    }
}

impl Clone for Choice {
    fn clone(&self) -> (r: Choice)
        ensures
            r@ == self@,
    {
        Choice { target: self.target, dirs: self.dirs.clone() }
    }
}

impl PartialEq for Choice {
    fn eq(&self, other: &Choice) -> (r: bool) {
        self.target == other.target && self.dirs == other.dirs
    }
}

impl vstd::std_specs::cmp::PartialEqSpecImpl for Choice {
    open spec fn obeys_eq_spec() -> bool {
        true
    }

    open spec fn eq_spec(&self, other: &Choice) -> bool {
        self@ == other@
    }
}

#[derive(Eq, Debug)]
pub struct PolyMap {
    pub dom: Poly,
    pub cod: Poly,
    /// For each source position, one choice per coefficient element.
    pub on: Vec<Vec<Choice>>,
}

/// The choices that nested lists hold.
pub open spec fn nested(on: Seq<Vec<Choice>>) -> Seq<Seq<Ch>> {
    Seq::new(on.len(), |k: int| crate::theory::listing::views(on[k]@))
}

impl View for PolyMap {
    type V = PMap;

    open spec fn view(&self) -> PMap {
        PMap { dom: self.dom@, cod: self.cod@, on: nested(self.on@) }
    }
}

/// A copy of a list of choices.
fn clone_choices(cs: &Vec<Choice>) -> (r: Vec<Choice>)
    ensures
        crate::theory::listing::views(r@) == crate::theory::listing::views(cs@),
{
    let ghost all = crate::theory::listing::views(cs@);
    let mut out: Vec<Choice> = Vec::new();
    let mut k: usize = 0;
    assert(crate::theory::listing::views(out@) =~= all.take(0));
    while k < cs.len()
        invariant
            k <= cs.len(),
            all == crate::theory::listing::views(cs@),
            crate::theory::listing::views(out@) == all.take(k as int),
        decreases cs.len() - k,
    {
        let c = cs[k].clone();
        proof {
            crate::theory::listing::lemma_views_push(out@, c);
            assert(all.take(k + 1) =~= all.take(k as int).push(all[k as int]));
        }
        out.push(c);
        k = k + 1;
    }
    assert(all.take(k as int) =~= all);
    out
}

/// A copy of nested lists of choices.
fn clone_nested(on: &Vec<Vec<Choice>>) -> (r: Vec<Vec<Choice>>)
    ensures
        nested(r@) == nested(on@),
{
    let mut out: Vec<Vec<Choice>> = Vec::new();
    let mut k: usize = 0;
    while k < on.len()
        invariant
            k <= on.len(),
            out@.len() == k,
            forall|j: int| 0 <= j < k ==> crate::theory::listing::views((#[trigger] out@[j])@)
                == crate::theory::listing::views(on@[j]@),
        decreases on.len() - k,
    {
        out.push(clone_choices(&on[k]));
        k = k + 1;
    }
    assert(nested(out@) =~= nested(on@));
    out
}

impl Clone for PolyMap {
    fn clone(&self) -> (r: PolyMap)
        ensures
            r@ == self@,
    {
        PolyMap { dom: self.dom.clone(), cod: self.cod.clone(), on: clone_nested(&self.on) }
    }
}

/// Whether two lists hold the same choices.
fn same_choices(a: &Vec<Choice>, b: &Vec<Choice>) -> (r: bool)
    ensures
        r == (crate::theory::listing::views(a@) == crate::theory::listing::views(b@)),
{
    let ghost va = crate::theory::listing::views(a@);
    let ghost vb = crate::theory::listing::views(b@);
    assert(va.len() == a@.len() && vb.len() == b@.len());
    if a.len() != b.len() {
        return false;
    }
    let mut k: usize = 0;
    while k < a.len()
        invariant
            k <= a.len(),
            a@.len() == b@.len(),
            va == crate::theory::listing::views(a@),
            vb == crate::theory::listing::views(b@),
            forall|j: int| 0 <= j < k ==> #[trigger] va[j] == vb[j],
        decreases a.len() - k,
    {
        assert(va[k as int] == a@[k as int]@ && vb[k as int] == b@[k as int]@);
        if !(a[k] == b[k]) {
            return false;
        }
        k = k + 1;
    }
    assert(va =~= vb);
    true
}

impl PartialEq for PolyMap {
    fn eq(&self, other: &PolyMap) -> (r: bool) {
        proof {
            assert(self@.on.len() == self.on@.len());
            assert(other@.on.len() == other.on@.len());
        }
        if !(self.dom == other.dom && self.cod == other.cod && self.on.len() == other.on.len()) {
            return false;
        }
        let mut k: usize = 0;
        while k < self.on.len()
            invariant
                k <= self.on@.len(),
                self.on@.len() == other.on@.len(),
                forall|j: int| 0 <= j < k ==> #[trigger] self@.on[j] == other@.on[j],
            decreases self.on.len() - k,
        {
            assert(self@.on[k as int] == crate::theory::listing::views(self.on@[k as int]@));
            assert(other@.on[k as int] == crate::theory::listing::views(other.on@[k as int]@));
            if !same_choices(&self.on[k], &other.on[k]) {
                return false;
            }
            k = k + 1;
        }
        assert(self@.on =~= other@.on);
        true
    }
}

impl vstd::std_specs::cmp::PartialEqSpecImpl for PolyMap {
    open spec fn obeys_eq_spec() -> bool {
        true
    }

    open spec fn eq_spec(&self, other: &PolyMap) -> bool {
        self@ == other@
    }
}

impl PolyMap {
    pub open spec fn wf(&self) -> bool {
        self@.wf()
    }

    /// Whether there is one choice for each coefficient, and each choice joins
    /// the directions of its target to those of its source.
    pub fn check(&self) -> (ok: bool)
        ensures
            ok == self.wf(),
    {
        proof {
            assert(self@.on.len() == self.on@.len());
            assert(self@.dom.positions.len() == self.dom.positions@.len());
            assert(self@.cod.positions.len() == self.cod.positions@.len());
        }
        if self.on.len() != self.dom.positions.len() {
            return false;
        }
        let mut k: usize = 0;
        while k < self.on.len()
            invariant
                k <= self.on@.len(),
                self.on@.len() == self.dom.positions@.len(),
                forall|j: int| 0 <= j < k ==> (#[trigger] self@.on[j]).len() == self@.dom.positions[j].0,
                forall|j: int, i: int|
                    0 <= j < k && 0 <= i < self@.on[j].len() ==> PMap::fits(
                        self@.cod,
                        self@.dom.positions[j].1,
                        #[trigger] self@.on[j][i],
                    ),
            decreases self.on.len() - k,
        {
            let choices: &Vec<Choice> = &self.on[k];
            let p: (u32, u32) = self.dom.positions[k];
            proof {
                assert(self@.on[k as int] == crate::theory::listing::views(choices@));
                assert(self@.on[k as int].len() == choices@.len());
                assert(self@.dom.positions[k as int] == (p.0 as int, p.1 as int));
            }
            if choices.len() != p.0 as usize {
                return false;
            }
            let mut i: usize = 0;
            while i < choices.len()
                invariant
                    k < self.on@.len(),
                    self.on@.len() == self.dom.positions@.len(),
                    choices@ == self.on@[k as int]@,
                    self@.on[k as int] == crate::theory::listing::views(choices@),
                    self@.dom.positions[k as int] == (p.0 as int, p.1 as int),
                    i <= choices@.len(),
                    forall|l: int|
                        0 <= l < i ==> PMap::fits(self@.cod, p.1 as int, #[trigger] self@.on[k as int][l]),
                decreases choices.len() - i,
            {
                let choice: &Choice = &choices[i];
                proof {
                    assert(self@.on[k as int][i as int] == choice@);
                    assert(self@.cod.positions.len() == self.cod.positions@.len());
                }
                if choice.target >= self.cod.positions.len() {
                    return false;
                }
                let b: u32 = self.cod.positions[choice.target].1;
                assert(self@.cod.positions[choice.target as int].1 == b);
                if !(choice.dirs.dom == b && choice.dirs.cod == p.1 && choice.dirs.check()) {
                    return false;
                }
                i = i + 1;
            }
            k = k + 1;
        }
        true
    }
}

/// Each coefficient stays where it is.
pub fn identity(p: &Poly) -> (r: PolyMap)
    ensures
        r@ == PMap::id(p@),
        r.wf(),
{
    let ghost want = PMap::id(p@);
    let mut on: Vec<Vec<Choice>> = Vec::new();
    let mut k: usize = 0;
    while k < p.positions.len()
        invariant
            k <= p.positions@.len(),
            want == PMap::id(p@),
            on@.len() == k,
            forall|j: int| 0 <= j < k ==> crate::theory::listing::views((#[trigger] on@[j])@) == want.on[j],
        decreases p.positions.len() - k,
    {
        let q: (u32, u32) = p.positions[k];
        assert(p@.positions[k as int] == (q.0 as int, q.1 as int));
        let mut choices: Vec<Choice> = Vec::new();
        let mut i: u32 = 0;
        while i < q.0
            invariant
                i <= q.0,
                choices@.len() == i,
                forall|l: int| 0 <= l < i ==> (#[trigger] choices@[l])@ == (Ch { target: k as int, dirs: Fun::id(q.1 as int) }),
            decreases q.0 - i,
        {
            choices.push(Choice { target: k, dirs: finset::id(q.1) });
            i = i + 1;
        }
        assert(crate::theory::listing::views(choices@) =~= want.on[k as int]);
        on.push(choices);
        k = k + 1;
    }
    let r = PolyMap { dom: p.clone(), cod: p.clone(), on };
    proof {
        assert(r@.on =~= want.on);
        crate::theory::polynomials::lemma_identity(p@);
    }
    r
}

/// The composite of two maps. Each choice of `inner` is followed by the first
/// choice of `outer` at its target: `outer.dirs: b_target → t_mid` comes first,
/// then `choice.dirs: t_mid → t_source`.
pub fn compose(outer: &PolyMap, inner: &PolyMap) -> (r: PolyMap)
    requires
        outer.wf(),
        inner.wf(),
        inner@.cod == outer@.dom,
        inner@.lands(),
    ensures
        r@ == outer@.o(inner@),
        r.wf(),
{
    let ghost want = outer@.o(inner@);
    proof {
        crate::theory::polynomials::lemma_compose(outer@, inner@);
    }
    let mut on: Vec<Vec<Choice>> = Vec::new();
    let mut k: usize = 0;
    while k < inner.on.len()
        invariant
            k <= inner.on@.len(),
            outer.wf(),
            inner.wf(),
            inner@.cod == outer@.dom,
            inner@.lands(),
            want == outer@.o(inner@),
            on@.len() == k,
            forall|j: int| 0 <= j < k ==> crate::theory::listing::views((#[trigger] on@[j])@) == want.on[j],
        decreases inner.on.len() - k,
    {
        let choices: &Vec<Choice> = &inner.on[k];
        assert(inner@.on[k as int] == crate::theory::listing::views(choices@));
        let mut out: Vec<Choice> = Vec::new();
        let mut i: usize = 0;
        while i < choices.len()
            invariant
                k < inner.on@.len(),
                i <= choices@.len(),
                outer.wf(),
                inner.wf(),
                inner@.cod == outer@.dom,
                inner@.lands(),
                choices@ == inner.on@[k as int]@,
                inner@.on[k as int] == crate::theory::listing::views(choices@),
                out@.len() == i,
                forall|l: int| 0 <= l < i ==> (#[trigger] out@[l])@ == outer@.follow(inner@.on[k as int][l]),
            decreases choices.len() - i,
        {
            let choice: &Choice = &choices[i];
            proof {
                let c = inner@.on[k as int][i as int];
                assert(c == choice@);
                assert(PMap::fits(inner@.cod, inner@.dom.positions[k as int].1, c));
                assert(inner@.cod.positions[c.target].0 > 0);
                assert(outer@.on.len() == outer.on@.len());
                assert(outer@.on[c.target].len() == outer@.dom.positions[c.target].0);
                assert(outer@.on[c.target] == crate::theory::listing::views(outer.on@[c.target]@));
                assert(PMap::fits(outer@.cod, outer@.dom.positions[c.target].1, outer@.on[c.target][0]));
            }
            let next: &Choice = &outer.on[choice.target][0];
            assert(outer@.on[choice.target as int][0] == next@);
            out.push(Choice { target: next.target, dirs: finset::compose(&choice.dirs, &next.dirs) });
            i = i + 1;
        }
        assert(crate::theory::listing::views(out@) =~= want.on[k as int]);
        on.push(out);
        k = k + 1;
    }
    let r = PolyMap { dom: inner.dom.clone(), cod: outer.cod.clone(), on };
    assert(r@.on =~= want.on);
    r
}

/// Residual matrix of a polynomial map. Entry `(n, k)` is 1 when the first
/// coefficient of source position `k` is sent to target position `n`.
pub fn residual(map: &PolyMap) -> (r: Matrix)
    requires
        map.wf(),
        map@.cod.positions.len() <= u32::MAX,
        map@.dom.positions.len() <= u32::MAX,
        map@.cod.positions.len() * map@.dom.positions.len() <= u32::MAX,
    ensures
        r@ == map@.residual(),
        r.wf(),
{
    proof {
        assert(map@.cod.positions.len() == map.cod.positions@.len());
        assert(map@.dom.positions.len() == map.dom.positions@.len());
        assert(map@.on.len() == map.on@.len());
        assert(0 <= map.cod.positions@.len() * map.dom.positions@.len()) by (nonlinear_arith);
    }
    let rows: u32 = map.cod.positions.len() as u32;
    let cols: u32 = map.dom.positions.len() as u32;
    let total: u32 = rows * cols;
    let mut blocks: Vec<u32> = Vec::new();
    let mut t: u32 = 0;
    while t < total
        invariant
            map.wf(),
            t <= total,
            total == rows * cols,
            cols == map.on@.len(),
            blocks@.len() == t,
            forall|j: int| 0 <= j < t ==> blocks@[j] == map@.residual().blocks[j],
            map@.residual().blocks.len() == total,
            rows == map@.cod.positions.len(),
            cols == map@.dom.positions.len(),
        decreases total - t,
    {
        proof {
            crate::theory::limits::lemma_unpair(rows as int, cols as int, t as int);
        }
        let n: u32 = t / cols;
        let k: u32 = t % cols;
        let choices: &Vec<Choice> = &map.on[k as usize];
        proof {
            assert(map@.on[k as int] == crate::theory::listing::views(choices@));
            assert(map@.on[k as int].len() == choices@.len());
        }
        let hit: bool = if choices.len() > 0 {
            assert(map@.on[k as int][0] == choices@[0]@);
            choices[0].target == n as usize
        } else {
            false
        };
        blocks.push(if hit { 1 } else { 0 });
        t = t + 1;
    }
    let r = Matrix { rows, cols, blocks };
    assert(r@.blocks =~= map@.residual().blocks);
    r
}

/// The position lists that polynomials hold.
pub open spec fn pols_of(ps: Seq<Poly>) -> Seq<Seq<(int, int)>> {
    Seq::new(ps.len(), |k: int| ps[k]@.positions)
}

/// Append the polynomials that begin with position `(s, t)`.
fn append_prefixed(out: &mut Vec<Poly>, rest: &Vec<Poly>, s: u32, t: u32)
    ensures
        pols_of(final(out)@) == pols_of(old(out)@) + crate::theory::polynomials::prefixed(
            (s as int, t as int),
            pols_of(rest@),
        ),
{
    let ghost before = pols_of(out@);
    let ghost add = crate::theory::polynomials::prefixed((s as int, t as int), pols_of(rest@));
    let mut k: usize = 0;
    assert(before + add.take(0) =~= before);
    while k < rest.len()
        invariant
            k <= rest@.len(),
            add == crate::theory::polynomials::prefixed((s as int, t as int), pols_of(rest@)),
            pols_of(out@) == before + add.take(k as int),
        decreases rest.len() - k,
    {
        let mut positions: Vec<(u32, u32)> = Vec::new();
        positions.push((s, t));
        let src: &Vec<(u32, u32)> = &rest[k].positions;
        let mut i: usize = 0;
        while i < src.len()
            invariant
                i <= src@.len(),
                positions@ == seq![(s, t)] + src@.take(i as int),
            decreases src.len() - i,
        {
            let p: (u32, u32) = src[i];
            positions.push(p);
            assert(src@.take(i + 1) =~= src@.take(i as int).push(src@[i as int]));
            assert(positions@ =~= seq![(s, t)] + src@.take(i + 1));
            i = i + 1;
        }
        let ghost old_out = out@;
        let p = Poly { positions };
        proof {
            assert(src@.take(i as int) =~= src@);
            assert(pols_of(rest@)[k as int] == finset::int_pairs(src@));
            assert(p@.positions =~= add[k as int]);
        }
        out.push(p);
        proof {
            assert(pols_of(out@) =~= pols_of(old_out).push(p@.positions));
            assert(before + add.take(k + 1) =~= (before + add.take(k as int)).push(add[k as int]));
        }
        k = k + 1;
    }
    assert(add.take(k as int) =~= add);
}

/// The polynomials with at most `max_positions` positions and cardinalities at
/// most `max_card`, in dictionary order of their positions.
pub fn polys(max_positions: usize, max_card: u32) -> (r: Vec<Poly>)
    requires
        max_card < u32::MAX,
    ensures
        pols_of(r@) == crate::theory::polynomials::position_lists(max_positions as nat, max_card + 1),
    decreases max_positions,
{
    let mut out: Vec<Poly> = Vec::new();
    out.push(Poly { positions: Vec::new() });
    let ghost empty = Seq::<(int, int)>::empty();
    proof {
        assert(out@[0]@.positions =~= empty);
        assert(pols_of(out@) =~= seq![empty]);
    }
    if max_positions == 0 {
        return out;
    }
    let rest = polys(max_positions - 1, max_card);
    let ghost c = max_card + 1;
    let ghost lists = pols_of(rest@);
    let ghost f = |v: int| crate::theory::polynomials::prefixed(crate::theory::polynomials::nth_pair(c, v), lists);
    assert(seq![empty] + crate::theory::listing::cat(0, f) =~= seq![empty]);
    let mut s: u32 = 0;
    while s <= max_card
        invariant
            max_card < u32::MAX,
            s <= c,
            c == max_card + 1,
            lists == pols_of(rest@),
            f == (|v: int| crate::theory::polynomials::prefixed(crate::theory::polynomials::nth_pair(c, v), lists)),
            pols_of(out@) == seq![empty] + crate::theory::listing::cat(s * c, f),
        decreases c - s,
    {
        let mut t: u32 = 0;
        while t <= max_card
            invariant
                max_card < u32::MAX,
                s <= max_card,
                t <= c,
                c == max_card + 1,
                lists == pols_of(rest@),
                f == (|v: int| crate::theory::polynomials::prefixed(crate::theory::polynomials::nth_pair(c, v), lists)),
                pols_of(out@) == seq![empty] + crate::theory::listing::cat(s * c + t, f),
            decreases c - t,
        {
            proof {
                crate::theory::limits::lemma_pair_index(c, c, s as int, t as int);
                let v = s * c + t;
                assert(f(v) == crate::theory::polynomials::prefixed((s as int, t as int), lists));
                assert(crate::theory::listing::cat(v + 1, f) == crate::theory::listing::cat(v, f) + f(v));
                assert(seq![empty] + crate::theory::listing::cat(v, f) + f(v) =~= seq![empty] + crate::theory::listing::cat(
                    v + 1,
                    f,
                ));
            }
            append_prefixed(&mut out, &rest, s, t);
            t = t + 1;
        }
        proof {
            assert(s * c + c == (s + 1) * c) by (nonlinear_arith);
        }
        s = s + 1;
    }
    out
}

/// The options for one coefficient.
fn list_options(cod: &Poly, t: u32) -> (r: Vec<Choice>)
    ensures
        crate::theory::listing::views(r@) == crate::theory::polynomials::options(cod@, t as int),
{
    let ghost f = |n: int| crate::theory::polynomials::choices_to(cod@, t as int, n);
    let mut out: Vec<Choice> = Vec::new();
    let mut n: usize = 0;
    assert(crate::theory::listing::views(out@) =~= crate::theory::listing::cat(0, f));
    while n < cod.positions.len()
        invariant
            n <= cod.positions@.len(),
            f == (|n: int| crate::theory::polynomials::choices_to(cod@, t as int, n)),
            crate::theory::listing::views(out@) == crate::theory::listing::cat(n as int, f),
        decreases cod.positions.len() - n,
    {
        let p: (u32, u32) = cod.positions[n];
        let ghost before = crate::theory::listing::views(out@);
        let ghost block = f(n as int);
        assert(cod@.positions[n as int] == (p.0 as int, p.1 as int));
        if p.0 != 0 {
            let all = finset::morphisms(p.1, t);
            let ghost fs = span::all_funs(p.1 as int, t as int);
            let mut k: usize = 0;
            proof {
                assert(span::funs_of(all@) =~= fs);
                assert(before + block.take(0) =~= before);
            }
            while k < all.len()
                invariant
                    k <= all@.len(),
                    fs == span::all_funs(p.1 as int, t as int),
                    span::funs_of(all@) == fs,
                    block == crate::theory::polynomials::choices_to(cod@, t as int, n as int),
                    cod@.positions[n as int] == (p.0 as int, p.1 as int),
                    p.0 != 0,
                    crate::theory::listing::views(out@) == before + block.take(k as int),
                decreases all.len() - k,
            {
                let c = Choice { target: n, dirs: all[k].clone() };
                proof {
                    assert(span::funs_of(all@)[k as int] == all@[k as int]@);
                    crate::theory::listing::lemma_views_push(out@, c);
                    assert(c@ =~= block[k as int]);
                    assert(before + block.take(k + 1) =~= (before + block.take(k as int)).push(c@));
                }
                out.push(c);
                k = k + 1;
            }
            proof {
                assert(span::funs_of(all@).len() == all@.len());
                assert(block.take(k as int) =~= block);
            }
        } else {
            assert(before + block =~= before);
        }
        n = n + 1;
    }
    out
}

/// Each list, extended by each option in turn.
fn extend_choices(ls: &Vec<Vec<Choice>>, opts: &Vec<Choice>) -> (r: Vec<Vec<Choice>>)
    ensures
        nested(r@) == crate::theory::polynomials::extended(nested(ls@), crate::theory::listing::views(opts@)),
{
    let ghost vs = crate::theory::listing::views(opts@);
    let ghost ns = nested(ls@);
    let ghost f = |k: int| Seq::new(vs.len(), |v: int| ns[k].push(vs[v]));
    let mut out: Vec<Vec<Choice>> = Vec::new();
    let mut k: usize = 0;
    assert(nested(out@) =~= crate::theory::listing::cat(0, f));
    while k < ls.len()
        invariant
            k <= ls@.len(),
            vs == crate::theory::listing::views(opts@),
            ns == nested(ls@),
            f == (|k: int| Seq::new(vs.len(), |v: int| ns[k].push(vs[v]))),
            nested(out@) == crate::theory::listing::cat(k as int, f),
        decreases ls.len() - k,
    {
        let ghost before = nested(out@);
        let ghost block = f(k as int);
        let mut v: usize = 0;
        assert(before + block.take(0) =~= before);
        while v < opts.len()
            invariant
                k < ls@.len(),
                v <= opts@.len(),
                vs == crate::theory::listing::views(opts@),
                ns == nested(ls@),
                block == Seq::new(vs.len(), |v: int| ns[k as int].push(vs[v])),
                nested(out@) == before + block.take(v as int),
            decreases opts.len() - v,
        {
            let mut next = clone_choices(&ls[k]);
            let c = opts[v].clone();
            proof {
                crate::theory::listing::lemma_views_push(next@, c);
                assert(vs[v as int] == opts@[v as int]@);
                assert(ns[k as int] == crate::theory::listing::views(ls@[k as int]@));
            }
            next.push(c);
            let ghost old_out = out@;
            let ghost nv = crate::theory::listing::views(next@);
            out.push(next);
            proof {
                assert(nested(out@) =~= nested(old_out).push(nv));
                assert(before + block.take(v + 1) =~= (before + block.take(v as int)).push(block[v as int]));
            }
            v = v + 1;
        }
        assert(block.take(v as int) =~= block);
        k = k + 1;
    }
    out
}

/// The choices for `s` coefficients of a position with `t` directions.
fn choices_at(s: u32, t: u32, cod: &Poly) -> (r: Vec<Vec<Choice>>)
    ensures
        nested(r@) == crate::theory::polynomials::choice_lists(cod@, s as nat, t as int),
{
    let opts = list_options(cod, t);
    let mut out: Vec<Vec<Choice>> = Vec::new();
    out.push(Vec::new());
    proof {
        assert(crate::theory::listing::views(out@[0]@) =~= Seq::<Ch>::empty());
        assert(nested(out@) =~= seq![Seq::<Ch>::empty()]);
    }
    let mut i: u32 = 0;
    while i < s
        invariant
            i <= s,
            crate::theory::listing::views(opts@) == crate::theory::polynomials::options(cod@, t as int),
            nested(out@) == crate::theory::polynomials::choice_lists(cod@, i as nat, t as int),
        decreases s - i,
    {
        out = extend_choices(&out, &opts);
        i = i + 1;
    }
    out
}

/// The nested choices that a list of candidates holds.
pub open spec fn candidates(acc: Seq<Vec<Vec<Choice>>>) -> Seq<Seq<Seq<Ch>>> {
    Seq::new(acc.len(), |k: int| nested(acc[k]@))
}

/// Each candidate, extended by each block in turn.
fn extend_blocks(acc: &Vec<Vec<Vec<Choice>>>, blocks: &Vec<Vec<Choice>>) -> (r: Vec<Vec<Vec<Choice>>>)
    ensures
        candidates(r@) == crate::theory::polynomials::extended(candidates(acc@), nested(blocks@)),
{
    let ghost vs = nested(blocks@);
    let ghost ns = candidates(acc@);
    let ghost f = |k: int| Seq::new(vs.len(), |v: int| ns[k].push(vs[v]));
    let mut out: Vec<Vec<Vec<Choice>>> = Vec::new();
    let mut k: usize = 0;
    assert(candidates(out@) =~= crate::theory::listing::cat(0, f));
    while k < acc.len()
        invariant
            k <= acc@.len(),
            vs == nested(blocks@),
            ns == candidates(acc@),
            f == (|k: int| Seq::new(vs.len(), |v: int| ns[k].push(vs[v]))),
            candidates(out@) == crate::theory::listing::cat(k as int, f),
        decreases acc.len() - k,
    {
        let ghost before = candidates(out@);
        let ghost block = f(k as int);
        let mut v: usize = 0;
        assert(before + block.take(0) =~= before);
        while v < blocks.len()
            invariant
                k < acc@.len(),
                v <= blocks@.len(),
                vs == nested(blocks@),
                ns == candidates(acc@),
                block == Seq::new(vs.len(), |v: int| ns[k as int].push(vs[v])),
                candidates(out@) == before + block.take(v as int),
            decreases blocks.len() - v,
        {
            let mut next = clone_nested(&acc[k]);
            let c = clone_choices(&blocks[v]);
            let ghost old_next = next@;
            let ghost cv = crate::theory::listing::views(c@);
            next.push(c);
            proof {
                assert(nested(next@) =~= nested(old_next).push(cv));
                assert(vs[v as int] == crate::theory::listing::views(blocks@[v as int]@));
                assert(ns[k as int] == nested(acc@[k as int]@));
            }
            let ghost old_out = out@;
            let ghost nv = nested(next@);
            out.push(next);
            proof {
                assert(candidates(out@) =~= candidates(old_out).push(nv));
                assert(before + block.take(v + 1) =~= (before + block.take(v as int)).push(block[v as int]));
            }
            v = v + 1;
        }
        assert(block.take(v as int) =~= block);
        k = k + 1;
    }
    out
}

/// Every map `dom → cod` that sends coefficients to positions that have some.
pub fn hom(dom: &Poly, cod: &Poly) -> (r: Vec<PolyMap>)
    ensures
        crate::theory::listing::views(r@) == crate::theory::polynomials::all_maps(dom@, cod@),
{
    let mut acc: Vec<Vec<Vec<Choice>>> = Vec::new();
    acc.push(Vec::new());
    proof {
        assert(nested(acc@[0]@) =~= Seq::<Seq<Ch>>::empty());
        assert(candidates(acc@) =~= seq![Seq::<Seq<Ch>>::empty()]);
    }
    let mut k: usize = 0;
    while k < dom.positions.len()
        invariant
            k <= dom.positions@.len(),
            candidates(acc@) == crate::theory::polynomials::on_lists(dom@, cod@, k as nat),
        decreases dom.positions.len() - k,
    {
        let p: (u32, u32) = dom.positions[k];
        assert(dom@.positions[k as int] == (p.0 as int, p.1 as int));
        let blocks = choices_at(p.0, p.1, cod);
        acc = extend_blocks(&acc, &blocks);
        k = k + 1;
    }
    let ghost ons = crate::theory::polynomials::on_lists(dom@, cod@, dom@.positions.len());
    let mut out: Vec<PolyMap> = Vec::new();
    let mut j: usize = 0;
    assert(dom@.positions.len() == dom.positions@.len());
    while j < acc.len()
        invariant
            j <= acc@.len(),
            candidates(acc@) == ons,
            out@.len() == j,
            forall|i: int| 0 <= i < j ==> (#[trigger] out@[i])@ == (PMap { dom: dom@, cod: cod@, on: ons[i] }),
        decreases acc.len() - j,
    {
        let m = PolyMap { dom: dom.clone(), cod: cod.clone(), on: clone_nested(&acc[j]) };
        assert(candidates(acc@)[j as int] == nested(acc@[j as int]@));
        out.push(m);
        j = j + 1;
    }
    assert(crate::theory::listing::views(out@) =~= crate::theory::polynomials::all_maps(dom@, cod@));
    out
}

} // verus!
