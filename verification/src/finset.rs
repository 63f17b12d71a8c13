//! Skeletal finite sets.
//!
//! Objects are cardinalities. A morphism `n → m` is a function, stored as a
//! table of length `n` with values in `0..m`. Product indices use
//! `i * rhs + j`. Coproduct indices lay the left summand in `0..left` and the
//! right summand after it.
//!
//! Cardinality bound used by the exhaustive tests: [`MAX_CARD`].
use vstd::prelude::*;
use crate::theory::fun::Fun;
use crate::theory::limits::Prod;
use crate::theory::limits::Pull;
use crate::theory::limits::Eqz;
use crate::theory::colimits::Sum;
use crate::theory::colimits::Push;

verus! {

/// Largest cardinality iterated by the exhaustive tests.
pub const MAX_CARD: u32 = 2;

/// An object of the skeletal category of finite sets: a cardinality.
#[derive(Clone, Copy, PartialEq, Eq, Hash, Debug, PartialOrd, Ord)]
pub struct Obj(pub u32);

/// A function between finite sets.
#[derive(Eq, Hash, Debug)]
pub struct Mor {
    pub dom: u32,
    pub cod: u32,
    pub map: Vec<u32>,
}

impl View for Mor {
    type V = Fun;

    open spec fn view(&self) -> Fun {
        Fun { dom: self.dom as int, cod: self.cod as int, map: crate::theory::fun::ints(self.map@) }
    }
}

impl Clone for Mor {
    fn clone(&self) -> (r: Mor)
        ensures
            r@ == self@,
    {
        let r = Mor { dom: self.dom, cod: self.cod, map: self.map.clone() };
        assert(r.map@ =~= self.map@);
        r
    }
}

/// Whether two tables hold the same entries.
pub fn same_words(a: &Vec<u32>, b: &Vec<u32>) -> (r: bool)
    ensures
        r == (a@ == b@),
{
    if a.len() != b.len() {
        return false;
    }
    let mut i: usize = 0;
    while i < a.len()
        invariant
            i <= a.len(),
            a.len() == b.len(),
            forall|j: int| 0 <= j < i ==> a@[j] == b@[j],
        decreases a.len() - i,
    {
        if a[i] != b[i] {
            return false;
        }
        i = i + 1;
    }
    assert(a@ =~= b@);
    true
}

impl PartialEq for Mor {
    fn eq(&self, other: &Mor) -> (r: bool) {
        let r = self.dom == other.dom && self.cod == other.cod && same_words(&self.map, &other.map);
        proof {
            lemma_same_mor(*self, *other);
        }
        r
    }
}

impl vstd::std_specs::cmp::PartialEqSpecImpl for Mor {
    open spec fn obeys_eq_spec() -> bool {
        true
    }

    open spec fn eq_spec(&self, other: &Mor) -> bool {
        self@ == other@
    }
}

proof fn lemma_same_mor(a: Mor, b: Mor)
    ensures
        a@ == b@ <==> a.dom == b.dom && a.cod == b.cod && a.map@ == b.map@,
{
    if a@ == b@ {
        assert(a@.map.len() == a.map@.len());
        assert(b@.map.len() == b.map@.len());
        assert forall|i: int| 0 <= i < a.map@.len() implies a.map@[i] == b.map@[i] by {
            assert(a@.map[i] == a.map@[i] as int);
            assert(b@.map[i] == b.map@[i] as int);
        }
        assert(a.map@ =~= b.map@);
    }
}

impl Mor {
    /// The table is that of a function `dom → cod`.
    pub open spec fn wf(&self) -> bool {
        self@.wf()
    }

    pub fn apply(&self, i: u32) -> (r: u32)
        requires
            i < self@.map.len(),
        ensures
            r == self@.map[i as int],
    {
        self.map[i as usize]
    }

    /// Whether the table is that of a function `dom → cod`.
    pub fn check(&self) -> (ok: bool)
        ensures
            ok == self.wf(),
    {
        if self.map.len() != self.dom as usize {
            return false;
        }
        let mut i: usize = 0;
        while i < self.map.len()
            invariant
                i <= self.map.len(),
                self.map.len() == self.dom,
                forall|j: int| 0 <= j < i ==> self.map@[j] < self.cod,
            decreases self.map.len() - i,
        {
            if self.map[i] >= self.cod {
                assert(self@.map[i as int] == self.map@[i as int]);
                return false;
            }
            i = i + 1;
        }
        true
    }
}

pub fn id(a: u32) -> (r: Mor)
    ensures
        r@ == Fun::id(a as int),
{
    let mut map: Vec<u32> = Vec::new();
    let mut i: u32 = 0;
    while i < a
        invariant
            i <= a,
            map@.len() == i,
            forall|j: int| 0 <= j < i ==> map@[j] == j,
        decreases a - i,
    {
        map.push(i);
        i = i + 1;
    }
    Mor { dom: a, cod: a, map }
}

/// `g ∘ f`, applying `f` first.
pub fn compose(g: &Mor, f: &Mor) -> (r: Mor)
    requires
        f.cod == g.dom,
        g@.map.len() >= g.dom,
        forall|i: int| 0 <= i < f@.map.len() ==> #[trigger] f@.map[i] < f.cod,
    ensures
        r@ == g@.o(f@),
{
    let mut map: Vec<u32> = Vec::new();
    let mut i: usize = 0;
    while i < f.map.len()
        invariant
            i <= f.map.len(),
            map@.len() == i,
            f.cod == g.dom,
            g@.map.len() >= g.dom,
            forall|j: int| 0 <= j < f@.map.len() ==> #[trigger] f@.map[j] < f.cod,
            forall|j: int| 0 <= j < i ==> map@[j] == g.map@[f.map@[j] as int],
        decreases f.map.len() - i,
    {
        assert(f@.map[i as int] == f.map@[i as int]);
        map.push(g.apply(f.map[i]));
        i = i + 1;
    }
    Mor { dom: f.dom, cod: g.cod, map }
}

/// Whether the function is a bijection.
pub fn is_iso(f: &Mor) -> (r: bool)
    requires
        f.wf(),
    ensures
        r == f@.iso(),
{
    if f.dom != f.cod {
        return false;
    }
    let mut seen: Vec<bool> = vec![false; f.cod as usize];
    let mut i: usize = 0;
    while i < f.map.len()
        invariant
            i <= f.map.len(),
            f.wf(),
            f.dom == f.cod,
            seen@.len() == f.cod,
            forall|j: int| 0 <= j < i ==> #[trigger] seen@[f@.map[j]],
            forall|c: int| 0 <= c < f.cod && #[trigger] seen@[c] ==> exists|j: int| 0 <= j < i && #[trigger] f@.map[j] == c,
            forall|j: int, k: int| 0 <= j < k < i ==> #[trigger] f@.map[j] != #[trigger] f@.map[k],
        decreases f.map.len() - i,
    {
        let v: u32 = f.map[i];
        assert(f@.map[i as int] == v);
        if seen[v as usize] {
            assert(!f@.injective()) by {
                let j = choose|j: int| 0 <= j < i && #[trigger] f@.map[j] == v;
                assert(f@.map[j] == f@.map[i as int]);
            }
            return false;
        }
        seen.set(v as usize, true);
        i = i + 1;
    }
    true
}

pub fn inverse(f: &Mor) -> (r: Mor)
    requires
        f.wf(),
        f@.iso(),
    ensures
        r@ == f@.inv(),
{
    let mut map: Vec<u32> = vec![0; f.cod as usize];
    let mut i: u32 = 0;
    while i < f.dom
        invariant
            i <= f.dom,
            f.wf(),
            f@.iso(),
            map@.len() == f.cod,
            forall|j: int| 0 <= j < i ==> map@[#[trigger] f@.map[j]] == j,
        decreases f.dom - i,
    {
        let v: u32 = f.map[i as usize];
        assert(f@.map[i as int] == v);
        map.set(v as usize, i);
        i = i + 1;
    }
    let r = Mor { dom: f.cod, cod: f.dom, map };
    proof {
        crate::theory::fun::law_inverse(f@);
        assert forall|c: int| 0 <= c < f.cod implies r@.map[c] == f@.pre(c) by {
            assert(f@.hits(c, f@.pre(c)));
            assert(map@[f@.map[f@.pre(c)]] == f@.pre(c));
        }
    }
    r
}

/// Every function `dom → cod`, in lexicographic order of the table.
pub fn morphisms(dom: u32, cod: u32) -> (r: Vec<Mor>)
    ensures
        r@.len() == crate::theory::limits::tables(dom as nat, cod as int).len(),
        forall|k: int| 0 <= k < r@.len() ==> (#[trigger] r@[k])@ == (Fun {
            dom: dom as int,
            cod: cod as int,
            map: crate::theory::limits::tables(dom as nat, cod as int)[k],
        }),
        forall|k: int| 0 <= k < r@.len() ==> (#[trigger] r@[k]).wf(),
{
    let mut cur: Vec<Vec<u32>> = Vec::new();
    cur.push(Vec::new());
    let mut n: u32 = 0;
    proof {
        assert(crate::theory::fun::ints(cur@[0]@) =~= Seq::<int>::empty());
    }
    while n < dom
        invariant
            n <= dom,
            tables_are(cur@, crate::theory::limits::tables(n as nat, cod as int)),
        decreases dom - n,
    {
        cur = extend_tables(&cur, cod);
        n = n + 1;
    }
    let mut out: Vec<Mor> = Vec::new();
    let mut k: usize = 0;
    while k < cur.len()
        invariant
            k <= cur.len(),
            out@.len() == k,
            tables_are(cur@, crate::theory::limits::tables(dom as nat, cod as int)),
            forall|j: int| 0 <= j < k ==> (#[trigger] out@[j])@ == (Fun {
                dom: dom as int,
                cod: cod as int,
                map: crate::theory::limits::tables(dom as nat, cod as int)[j],
            }),
        decreases cur.len() - k,
    {
        let t: Vec<u32> = cur[k].clone();
        assert(t@ =~= cur@[k as int]@);
        out.push(Mor { dom, cod, map: t });
        k = k + 1;
    }
    proof {
        crate::theory::limits::law_tables(dom as nat, cod as int);
    }
    out
}

/// The machine tables hold the listed ones, in order.
pub open spec fn tables_are(v: Seq<Vec<u32>>, ts: Seq<Seq<int>>) -> bool {
    v.len() == ts.len() && forall|i: int| 0 <= i < v.len() ==> crate::theory::fun::ints((#[trigger] v[i])@) == ts[i]
}

fn extend_tables(cur: &Vec<Vec<u32>>, cod: u32) -> (r: Vec<Vec<u32>>)
    ensures
        forall|ts: Seq<Seq<int>>| tables_are(cur@, ts) ==> tables_are(
            r@,
            #[trigger] crate::theory::limits::extend_all(ts, cod as int),
        ),
{
    let ghost ts = Seq::new(cur@.len(), |i: int| crate::theory::fun::ints(cur@[i]@));
    let mut out: Vec<Vec<u32>> = Vec::new();
    let mut k: usize = 0;
    proof {
        assert(ts.take(0) =~= Seq::<Seq<int>>::empty());
    }
    while k < cur.len()
        invariant
            k <= cur.len(),
            ts.len() == cur@.len(),
            forall|i: int| 0 <= i < ts.len() ==> #[trigger] ts[i] == crate::theory::fun::ints(cur@[i]@),
            tables_are(out@, crate::theory::limits::extend_all(ts.take(k as int), cod as int)),
        decreases cur.len() - k,
    {
        let ghost done = out@;
        let ghost prev = ts.take(k as int);
        let ghost block = Seq::new(cod as nat, |v: int| ts[k as int].push(v));
        let mut v: u32 = 0;
        while v < cod
            invariant
                v <= cod,
                k < cur.len(),
                out@.len() == done.len() + v,
                forall|i: int| 0 <= i < done.len() ==> out@[i] == done[i],
                forall|i: int| 0 <= i < v ==> crate::theory::fun::ints((#[trigger] out@[done.len() + i])@) == crate::theory::fun::ints(
                    cur@[k as int]@,
                ).push(i),
            decreases cod - v,
        {
            let mut t: Vec<u32> = cur[k].clone();
            assert(t@ =~= cur@[k as int]@);
            t.push(v);
            assert(crate::theory::fun::ints(t@) =~= crate::theory::fun::ints(cur@[k as int]@).push(v as int));
            out.push(t);
            v = v + 1;
        }
        proof {
            let next = ts.take(k + 1);
            assert(next.drop_last() =~= prev);
            assert(next.last() == ts[k as int]);
            let e = crate::theory::limits::extend_all(next, cod as int);
            assert(e == crate::theory::limits::extend_all(prev, cod as int) + block);
            assert forall|i: int| 0 <= i < out@.len() implies crate::theory::fun::ints((#[trigger] out@[i])@) == e[i] by {
                if i < done.len() {
                    assert(out@[i] == done[i]);
                } else {
                    let w = i - done.len();
                    assert(crate::theory::fun::ints(out@[done.len() + w]@) == crate::theory::fun::ints(cur@[k as int]@).push(w));
                    assert(e[i] == block[w]);
                }
            }
        }
        k = k + 1;
    }
    proof {
        assert(ts.take(k as int) =~= ts);
        assert forall|us: Seq<Seq<int>>| tables_are(cur@, us) implies tables_are(
            out@,
            #[trigger] crate::theory::limits::extend_all(us, cod as int),
        ) by {
            assert(us =~= ts);
        }
    }
    out
}

/// Every table of length `len` with values below `cod`, in counting order: the
/// first entry changes fastest.
pub fn counted_tables(len: u32, cod: u32) -> (r: Vec<Vec<u32>>)
    ensures
        tables_are(r@, crate::theory::limits::counted(len as nat, cod as int)),
{
    let all = morphisms(len, cod);
    let ghost ts = crate::theory::limits::tables(len as nat, cod as int);
    proof {
        crate::theory::limits::law_tables(len as nat, cod as int);
    }
    let mut out: Vec<Vec<u32>> = Vec::new();
    let mut k: usize = 0;
    while k < all.len()
        invariant
            k <= all.len(),
            ts == crate::theory::limits::tables(len as nat, cod as int),
            all@.len() == ts.len(),
            forall|j: int| 0 <= j < all@.len() ==> (#[trigger] all@[j])@ == (Fun {
                dom: len as int,
                cod: cod as int,
                map: ts[j],
            }),
            forall|j: int| 0 <= j < all@.len() ==> (#[trigger] all@[j]).wf(),
            out@.len() == k,
            forall|j: int| 0 <= j < k ==> crate::theory::fun::ints((#[trigger] out@[j])@) == ts[j].reverse(),
        decreases all.len() - k,
    {
        let m: &Mor = &all[k];
        let mut t: Vec<u32> = Vec::new();
        let mut i: u32 = len;
        assert(m@.map == ts[k as int]);
        while i > 0
            invariant
                i <= len,
                m.wf(),
                m@.map == ts[k as int],
                m.dom == len,
                t@.len() == len - i,
                forall|j: int| 0 <= j < t@.len() ==> t@[j] == ts[k as int][len - 1 - j],
            decreases i,
        {
            i = i - 1;
            t.push(m.apply(i));
        }
        assert(crate::theory::fun::ints(t@) =~= ts[k as int].reverse());
        out.push(t);
        k = k + 1;
    }
    out
}

/// The cardinalities up to `max`, in increasing order.
pub fn objects_up_to(max: u32) -> (r: Vec<u32>)
    ensures
        r@ == Seq::new(max as nat + 1, |i: int| i as u32),
{
    let mut out: Vec<u32> = Vec::new();
    let mut i: u32 = 0;
    while i < max
        invariant
            i <= max,
            out@ == Seq::new(i as nat, |j: int| j as u32),
        decreases max - i,
    {
        out.push(i);
        assert(out@ =~= Seq::new((i + 1) as nat, |j: int| j as u32));
        i = i + 1;
    }
    out.push(max);
    assert(out@ =~= Seq::new(max as nat + 1, |j: int| j as u32));
    out
}

// ----- limits -----

pub fn terminal() -> (r: u32)
    ensures
        r == 1,
{
    1
}

pub fn to_terminal(dom: u32) -> (r: Mor)
    ensures
        r@ == Fun::bang(dom as int),
{
    let map: Vec<u32> = vec![0; dom as usize];
    Mor { dom, cod: 1, map }
}

/// `A × B`, with `index(i, j) = i * b + j`.
#[derive(Debug)]
pub struct Product {
    pub obj: u32,
    pub fst: Mor,
    pub snd: Mor,
    pub left: u32,
    pub right: u32,
}

impl View for Product {
    type V = Prod;

    open spec fn view(&self) -> Prod {
        Prod {
            obj: self.obj as int,
            fst: self.fst@,
            snd: self.snd@,
            left: self.left as int,
            right: self.right as int,
        }
    }
}

/// The product, up to the largest cardinality a machine word can hold.
pub fn product(a: u32, b: u32) -> (r: Product)
    ensures
        r@ == Prod::of(a as int, b as int),
{
    let obj: u32 = saturating_mul(a, b);
    let mut fst_map: Vec<u32> = Vec::new();
    let mut snd_map: Vec<u32> = Vec::new();
    let mut k: u32 = 0;
    while k < obj
        invariant
            k <= obj,
            obj == crate::theory::fun::sat_mul(a as int, b as int),
            fst_map@.len() == k,
            snd_map@.len() == k,
            forall|j: int| 0 <= j < k ==> fst_map@[j] == j / b as int,
            forall|j: int| 0 <= j < k ==> snd_map@[j] == j % b as int,
        decreases obj - k,
    {
        if b == 0 {
            assert(a * b == 0) by (nonlinear_arith) requires b == 0;
            fst_map.push(0);
            snd_map.push(0);
        } else {
            fst_map.push(k / b);
            snd_map.push(k % b);
        }
        k = k + 1;
    }
    let r = Product {
        obj,
        fst: Mor { dom: obj, cod: a, map: fst_map },
        snd: Mor { dom: obj, cod: b, map: snd_map },
        left: a,
        right: b,
    };
    assert(r@.fst =~= Prod::of(a as int, b as int).fst);
    assert(r@.snd =~= Prod::of(a as int, b as int).snd);
    r
}

fn saturating_mul(a: u32, b: u32) -> (r: u32)
    ensures
        r == crate::theory::fun::sat_mul(a as int, b as int),
{
    assert(a as int * b as int <= 0xffff_ffff * 0xffff_ffff) by (nonlinear_arith)
        requires a <= 0xffff_ffff, b <= 0xffff_ffff;
    assert(0 <= a as int * b as int) by (nonlinear_arith)
        requires a >= 0, b >= 0;
    let p: u64 = a as u64 * b as u64;
    if p > u32::MAX as u64 {
        u32::MAX
    } else {
        p as u32
    }
}

/// The index of the pair `(i, j)` in a product whose right factor has
/// `b_card` elements.
pub fn pair_index(b_card: u32, i: u32, j: u32) -> (r: u32)
    requires
        i * b_card + j <= u32::MAX,
    ensures
        r == i * b_card + j,
{
    assert(0 <= i * b_card <= u32::MAX) by (nonlinear_arith)
        requires i * b_card + j <= u32::MAX, i >= 0, b_card >= 0, j >= 0;
    i * b_card + j
}

/// Mediator of `f: Z → A` and `g: Z → B` into `A × B`.
pub fn pair(f: &Mor, g: &Mor) -> (r: Mor)
    requires
        f.dom == g.dom,
        f@.map.len() >= f.dom,
        g@.map.len() >= g.dom,
        forall|z: int| 0 <= z < f.dom ==> #[trigger] f@.map[z] * g.cod + g@.map[z] <= u32::MAX,
    ensures
        r@ == Prod::pair(f@, g@),
{
    let b: u32 = g.cod;
    let mut map: Vec<u32> = Vec::new();
    let mut z: u32 = 0;
    while z < f.dom
        invariant
            z <= f.dom,
            map@.len() == z,
            b == g.cod,
            f.dom == g.dom,
            f@.map.len() >= f.dom,
            g@.map.len() >= g.dom,
            forall|w: int| 0 <= w < f.dom ==> #[trigger] f@.map[w] * g.cod + g@.map[w] <= u32::MAX,
            forall|w: int| 0 <= w < z ==> map@[w] == f@.map[w] * b + g@.map[w],
        decreases f.dom - z,
    {
        assert(f@.map[z as int] * g.cod + g@.map[z as int] <= u32::MAX);
        map.push(pair_index(b, f.apply(z), g.apply(z)));
        z = z + 1;
    }
    let cod: u32 = saturating_mul(f.cod, b);
    let r = Mor { dom: f.dom, cod, map };
    assert(r@ =~= Prod::pair(f@, g@));
    r
}

#[derive(Debug)]
pub struct Pullback {
    pub apex: u32,
    /// Apex → domain of `left_leg`.
    pub to_left: Mor,
    /// Apex → domain of `right_leg`.
    pub to_right: Mor,
    pub pairs: Vec<(u32, u32)>,
}

/// The entries of a list of pairs of machine words.
pub open spec fn int_pairs(s: Seq<(u32, u32)>) -> Seq<(int, int)> {
    Seq::new(s.len(), |i: int| (s[i].0 as int, s[i].1 as int))
}

impl View for Pullback {
    type V = Pull;

    open spec fn view(&self) -> Pull {
        Pull {
            apex: self.apex as int,
            to_left: self.to_left@,
            to_right: self.to_right@,
            pairs: int_pairs(self.pairs@),
        }
    }
}

/// Pullback of `left_leg: X → Z` and `right_leg: Y → Z`. Its apex has at most
/// one element for each pair: see [`crate::theory::limits::law_pullback_size`].
pub fn pullback(left_leg: &Mor, right_leg: &Mor) -> (r: Pullback)
    requires
        left_leg.wf(),
        right_leg.wf(),
        left_leg.cod == right_leg.cod,
        Pull::of(left_leg@, right_leg@).apex <= u32::MAX,
    ensures
        r@ == Pull::of(left_leg@, right_leg@),
{
    let ghost f = left_leg@;
    let ghost g = right_leg@;
    let mut pairs: Vec<(u32, u32)> = Vec::new();
    let mut lefts: Vec<u32> = Vec::new();
    let mut rights: Vec<u32> = Vec::new();
    let mut x: u32 = 0;
    while x < left_leg.dom
        invariant
            x <= left_leg.dom,
            left_leg.wf(),
            right_leg.wf(),
            f == left_leg@,
            g == right_leg@,
            int_pairs(pairs@) == Pull::rows(f, g, x as int),
            lefts@ == Seq::new(pairs@.len(), |i: int| pairs@[i].0),
            rights@ == Seq::new(pairs@.len(), |i: int| pairs@[i].1),
        decreases left_leg.dom - x,
    {
        let ghost done = int_pairs(pairs@);
        let mut y: u32 = 0;
        proof {
            assert(done + Seq::<(int, int)>::empty() =~= done);
        }
        while y < right_leg.dom
            invariant
                y <= right_leg.dom,
                x < left_leg.dom,
                left_leg.wf(),
                right_leg.wf(),
                f == left_leg@,
                g == right_leg@,
                int_pairs(pairs@) == done + Pull::row(f, g, x as int, y as int),
                lefts@ == Seq::new(pairs@.len(), |i: int| pairs@[i].0),
                rights@ == Seq::new(pairs@.len(), |i: int| pairs@[i].1),
            decreases right_leg.dom - y,
        {
            if left_leg.apply(x) == right_leg.apply(y) {
                let ghost before = int_pairs(pairs@);
                pairs.push((x, y));
                assert(int_pairs(pairs@) =~= before.push((x as int, y as int)));
                lefts.push(x);
                rights.push(y);
                assert(lefts@ =~= Seq::new(pairs@.len(), |i: int| pairs@[i].0));
                assert(rights@ =~= Seq::new(pairs@.len(), |i: int| pairs@[i].1));
                assert(int_pairs(pairs@) =~= done + Pull::row(f, g, x as int, y + 1));
            }
            y = y + 1;
        }
        x = x + 1;
    }
    proof {
        reveal(Pull::pairs_of);
        assert(int_pairs(pairs@).len() == pairs@.len());
    }
    let apex: u32 = pairs.len() as u32;
    let r = Pullback {
        apex,
        to_left: Mor { dom: apex, cod: left_leg.dom, map: lefts },
        to_right: Mor { dom: apex, cod: right_leg.dom, map: rights },
        pairs,
    };
    proof {
        let p = Pull::of(f, g);
        assert forall|i: int| 0 <= i < p.pairs.len() implies r@.to_left.map[i] == p.to_left.map[i]
            && r@.to_right.map[i] == p.to_right.map[i] by {
            assert(int_pairs(r.pairs@)[i] == p.pairs[i]);
        }
        assert(r@.to_left =~= p.to_left);
        assert(r@.to_right =~= p.to_right);
    }
    r
}

/// Inclusion of the pullback into the product, for the chosen index order.
pub fn pullback_into_product(pb: &Pullback, right_card: u32) -> (r: Mor)
    requires
        forall|i: int| 0 <= i < pb.pairs@.len() ==> (#[trigger] pb.pairs@[i]).0 * right_card + pb.pairs@[i].1 <= u32::MAX,
    ensures
        r@ == pb@.into_product(right_card as int),
{
    let mut map: Vec<u32> = Vec::new();
    let mut i: usize = 0;
    while i < pb.pairs.len()
        invariant
            i <= pb.pairs.len(),
            map@.len() == i,
            forall|j: int| 0 <= j < pb.pairs@.len() ==> (#[trigger] pb.pairs@[j]).0 * right_card + pb.pairs@[j].1 <= u32::MAX,
            forall|j: int| 0 <= j < i ==> map@[j] == pb.pairs@[j].0 * right_card + pb.pairs@[j].1,
        decreases pb.pairs.len() - i,
    {
        let p: (u32, u32) = pb.pairs[i];
        map.push(pair_index(right_card, p.0, p.1));
        i = i + 1;
    }
    let cod: u32 = saturating_mul(pb.to_left.cod, right_card);
    let r = Mor { dom: pb.apex, cod, map };
    assert(r@ =~= pb@.into_product(right_card as int));
    r
}

/// Mediator into a pullback. `p` lands in the left object, `q` in the right,
/// and the two composites into the cospan codomain agree.
pub fn pullback_mediator(pb: &Pullback, p: &Mor, q: &Mor) -> (r: Mor)
    requires
        p.dom == q.dom,
        p@.map.len() >= p.dom,
        q@.map.len() >= q.dom,
        pb.pairs@.len() <= u32::MAX,
        forall|w: int| 0 <= w < p.dom ==> pb@.lists(#[trigger] p@.map[w], q@.map[w]),
    ensures
        r@ == pb@.med(p@, q@),
{
    let mut map: Vec<u32> = Vec::new();
    let mut w: u32 = 0;
    while w < p.dom
        invariant
            w <= p.dom,
            p.dom == q.dom,
            p@.map.len() >= p.dom,
            q@.map.len() >= q.dom,
            pb.pairs@.len() <= u32::MAX,
            forall|v: int| 0 <= v < p.dom ==> pb@.lists(#[trigger] p@.map[v], q@.map[v]),
            map@.len() == w,
            forall|v: int| 0 <= v < w ==> map@[v] == pb@.ix(p@.map[v], q@.map[v]),
        decreases p.dom - w,
    {
        let x: u32 = p.apply(w);
        let y: u32 = q.apply(w);
        assert(pb@.lists(p@.map[w as int], q@.map[w as int]));
        map.push(pair_position(pb, x, y));
        w = w + 1;
    }
    let r = Mor { dom: p.dom, cod: pb.apex, map };
    assert(r@ =~= pb@.med(p@, q@));
    r
}

/// Where a pair is listed in a pullback.
pub fn pair_position(pb: &Pullback, x: u32, y: u32) -> (r: u32)
    requires
        pb.pairs@.len() <= u32::MAX,
        pb@.lists(x as int, y as int),
    ensures
        r == pb@.ix(x as int, y as int),
        pb@.last_at(x as int, y as int, r as int),
{
    let mut i: usize = pb.pairs.len();
    let ghost want = pb@.ix(x as int, y as int);
    while i > 0
        invariant
            0 < i <= pb.pairs@.len(),
            pb.pairs@.len() <= u32::MAX,
            pb@.last_at(x as int, y as int, want),
            want == pb@.ix(x as int, y as int),
            want < i,
        decreases i,
    {
        i = i - 1;
        let p: (u32, u32) = pb.pairs[i];
        assert(pb@.pairs[i as int] == (p.0 as int, p.1 as int));
        if p.0 == x && p.1 == y {
            return i as u32;
        }
        assert(want != i);
    }
    0
}

#[derive(Debug)]
pub struct Equalizer {
    pub obj: u32,
    pub incl: Mor,
    pub elements: Vec<u32>,
}

impl View for Equalizer {
    type V = Eqz;

    open spec fn view(&self) -> Eqz {
        Eqz { obj: self.obj as int, incl: self.incl@, elements: crate::theory::fun::ints(self.elements@) }
    }
}

/// Equalizer of a parallel pair `f, g: X → Y`.
pub fn equalizer(f: &Mor, g: &Mor) -> (r: Equalizer)
    requires
        f.dom == g.dom,
        f.cod == g.cod,
        f@.map.len() >= f.dom,
        g@.map.len() >= g.dom,
    ensures
        r@ == Eqz::of(f@, g@),
{
    let mut elements: Vec<u32> = Vec::new();
    let mut x: u32 = 0;
    proof {
        assert(crate::theory::fun::ints(elements@) =~= Seq::<int>::empty());
    }
    while x < f.dom
        invariant
            x <= f.dom,
            f.dom == g.dom,
            f@.map.len() >= f.dom,
            g@.map.len() >= g.dom,
            crate::theory::fun::ints(elements@) == Eqz::upto(f@, g@, x as int),
        decreases f.dom - x,
    {
        if f.apply(x) == g.apply(x) {
            elements.push(x);
            assert(crate::theory::fun::ints(elements@) =~= Eqz::upto(f@, g@, x as int).push(x as int));
        }
        x = x + 1;
    }
    proof {
        crate::theory::limits::lemma_eqz_upto(f@, g@, f.dom as int);
        assert(crate::theory::fun::ints(elements@).len() == elements@.len());
    }
    let obj: u32 = elements.len() as u32;
    let map: Vec<u32> = elements.clone();
    assert(map@ =~= elements@);
    Equalizer { obj, incl: Mor { dom: obj, cod: f.dom, map }, elements }
}

/// The function through which `h` factors over an equalizer.
pub fn equalizer_mediator(eq: &Equalizer, h: &Mor) -> (r: Mor)
    requires
        h@.map.len() >= h.dom,
        eq.elements@.len() <= u32::MAX,
        forall|i: int| 0 <= i < eq.elements@.len() ==> #[trigger] eq.elements@[i] < eq.incl.cod,
        forall|w: int| 0 <= w < h.dom ==> crate::theory::fun::ints(eq.elements@).contains(#[trigger] h@.map[w]),
    ensures
        r@ == eq@.med(h@),
{
    let mut index_of: Vec<Option<u32>> = vec![None; eq.incl.cod as usize];
    let mut i: u32 = 0;
    while (i as usize) < eq.elements.len()
        invariant
            i <= eq.elements@.len(),
            eq.elements@.len() <= u32::MAX,
            index_of@.len() == eq.incl.cod,
            forall|j: int| 0 <= j < eq.elements@.len() ==> #[trigger] eq.elements@[j] < eq.incl.cod,
            forall|j: int| 0 <= j < i ==> (#[trigger] index_of@[eq.elements@[j] as int]) is Some,
            forall|x: int| 0 <= x < eq.incl.cod && (#[trigger] index_of@[x]) is Some ==> {
                let k = index_of@[x]->0;
                0 <= k < i && eq.elements@[k as int] == x && forall|l: int| k < l < i ==> eq.elements@[l] != x
            },
        decreases eq.elements@.len() - i,
    {
        index_of.set(eq.elements[i as usize] as usize, Some(i));
        i = i + 1;
    }
    let mut map: Vec<u32> = Vec::new();
    let mut w: u32 = 0;
    while w < h.dom
        invariant
            w <= h.dom,
            map@.len() == w,
            h@.map.len() >= h.dom,
            index_of@.len() == eq.incl.cod,
            eq.elements@.len() <= u32::MAX,
            forall|j: int| 0 <= j < eq.elements@.len() ==> #[trigger] eq.elements@[j] < eq.incl.cod,
            forall|v: int| 0 <= v < h.dom ==> crate::theory::fun::ints(eq.elements@).contains(#[trigger] h@.map[v]),
            forall|j: int| 0 <= j < eq.elements@.len() ==> (#[trigger] index_of@[eq.elements@[j] as int]) is Some,
            forall|x: int| 0 <= x < eq.incl.cod && (#[trigger] index_of@[x]) is Some ==> {
                let k = index_of@[x]->0;
                0 <= k < eq.elements@.len() && eq.elements@[k as int] == x && forall|l: int| k < l < eq.elements@.len()
                    ==> eq.elements@[l] != x
            },
            forall|v: int| 0 <= v < w ==> map@[v] == eq@.ix(h@.map[v]),
        decreases h.dom - w,
    {
        let x: u32 = h.apply(w);
        proof {
            let es = crate::theory::fun::ints(eq.elements@);
            assert(es.contains(h@.map[w as int]));
            let j = choose|j: int| 0 <= j < es.len() && es[j] == h@.map[w as int];
            assert(eq.elements@[j] == x);
            assert(index_of@[eq.elements@[j] as int] is Some);
        }
        let found: Option<u32> = index_of[x as usize];
        let k: u32 = found.unwrap();
        proof {
            assert(eq@.last_at(x as int, k as int));
            let k2 = eq@.ix(x as int);
            assert(eq@.last_at(x as int, k2));
            assert(k == k2);
        }
        map.push(k);
        w = w + 1;
    }
    let r = Mor { dom: h.dom, cod: eq.obj, map };
    assert(r@ =~= eq@.med(h@));
    r
}

// ----- colimits -----

pub fn initial() -> (r: u32)
    ensures
        r == 0,
{
    0
}

pub fn from_initial(cod: u32) -> (r: Mor)
    ensures
        r@ == (Fun { dom: 0, cod: cod as int, map: Seq::empty() }),
{
    let r = Mor { dom: 0, cod, map: Vec::new() };
    assert(r@.map =~= Seq::<int>::empty());
    r
}

#[derive(Debug)]
pub struct Coproduct {
    pub obj: u32,
    pub inl: Mor,
    pub inr: Mor,
    pub left: u32,
    pub right: u32,
}

impl View for Coproduct {
    type V = Sum;

    open spec fn view(&self) -> Sum {
        Sum {
            obj: self.obj as int,
            inl: self.inl@,
            inr: self.inr@,
            left: self.left as int,
            right: self.right as int,
        }
    }
}

pub fn coproduct(a: u32, b: u32) -> (r: Coproduct)
    requires
        a + b <= u32::MAX,
    ensures
        r@ == Sum::of(a as int, b as int),
{
    let obj: u32 = a + b;
    let left = id(a);
    let mut map: Vec<u32> = Vec::new();
    let mut j: u32 = 0;
    while j < b
        invariant
            j <= b,
            a + b <= u32::MAX,
            map@.len() == j,
            forall|k: int| 0 <= k < j ==> map@[k] == a + k,
        decreases b - j,
    {
        map.push(a + j);
        j = j + 1;
    }
    let r = Coproduct {
        obj,
        inl: Mor { dom: a, cod: obj, map: left.map },
        inr: Mor { dom: b, cod: obj, map },
        left: a,
        right: b,
    };
    proof {
        let s = Sum::of(a as int, b as int);
        assert forall|i: int| 0 <= i < a implies r@.inl.map[i] == i by {
            assert(left@.map[i] == i);
        }
        assert(left@.map.len() == a);
        assert(r@.inl =~= s.inl);
        assert(r@.inr =~= s.inr);
    }
    r
}

/// Mediator out of `A ⊔ B`.
pub fn copair(f: &Mor, g: &Mor) -> (r: Mor)
    requires
        f.cod == g.cod,
        f.dom + g.dom <= u32::MAX,
    ensures
        r@ == Sum::copair(f@, g@),
{
    let mut map: Vec<u32> = f.map.clone();
    assert(map@ =~= f.map@);
    let mut i: usize = 0;
    while i < g.map.len()
        invariant
            i <= g.map.len(),
            map@ == f.map@ + g.map@.take(i as int),
        decreases g.map.len() - i,
    {
        map.push(g.map[i]);
        i = i + 1;
        assert(map@ =~= f.map@ + g.map@.take(i as int));
    }
    let r = Mor { dom: f.dom + g.dom, cod: f.cod, map };
    assert(g.map@.take(i as int) =~= g.map@);
    assert(r@ =~= Sum::copair(f@, g@));
    r
}

/// Tag of an element of `A ⊔ B`: `Ok(i)` lies in the left summand.
pub fn coproduct_side(left: u32, index: u32) -> (r: Result<u32, u32>)
    ensures
        index < left ==> r == Ok::<u32, u32>(index),
        index >= left ==> r == Err::<u32, u32>((index - left) as u32),
{
    if index < left {
        Ok(index)
    } else {
        Err(index - left)
    }
}

/// A forest of classes: each element points towards the root of its class.
struct UnionFind {
    parent: Vec<u32>,
    /// Falls along every pointer that does not point at itself.
    height: Ghost<Seq<nat>>,
}

impl UnionFind {
    spec fn wf(&self) -> bool {
        &&& self.height@.len() == self.parent@.len()
        &&& forall|x: int| 0 <= x < self.parent@.len() ==> {
            let p = #[trigger] self.parent@[x] as int;
            p < self.parent@.len() && (p != x ==> self.height@[p] < self.height@[x])
        }
    }

    /// The root of the class of `x`.
    spec fn root(&self, x: int) -> int
        decreases self.height@[x],
        when self.wf() && 0 <= x < self.parent@.len()
    {
        if self.parent@[x] == x {
            x
        } else {
            self.root(self.parent@[x] as int)
        }
    }

    proof fn lemma_root(&self, x: int)
        requires
            self.wf(),
            0 <= x < self.parent@.len(),
        ensures
            0 <= self.root(x) < self.parent@.len(),
            self.parent@[self.root(x)] == self.root(x),
            self.root(self.root(x)) == self.root(x),
            self.height@[self.root(x)] <= self.height@[x],
            self.root(x) != x ==> self.height@[self.root(x)] < self.height@[x],
        decreases self.height@[x],
    {
        if self.parent@[x] != x {
            self.lemma_root(self.parent@[x] as int);
        }
    }

    /// Redirecting a pointer to the root of its class keeps every root.
    proof fn lemma_compress(&self, next: &UnionFind, at: int, y: int)
        requires
            self.wf(),
            next.wf(),
            0 <= at < self.parent@.len(),
            0 <= y < self.parent@.len(),
            next.height@ == self.height@,
            next.parent@ == self.parent@.update(at, self.root(at) as u32),
        ensures
            next.root(y) == self.root(y),
        decreases self.height@[y],
    {
        self.lemma_root(y);
        self.lemma_root(at);
        if y == at {
            let r = self.root(at);
            if r != at {
                assert(next.parent@[r] == r);
                assert(next.root(r) == r);
            }
        } else if self.parent@[y] != y {
            self.lemma_compress(next, at, self.parent@[y] as int);
        }
    }

    /// Hanging the root `b` under the root `a` merges the two classes.
    proof fn lemma_link(&self, next: &UnionFind, a: int, b: int, y: int)
        requires
            self.wf(),
            next.wf(),
            0 <= a < self.parent@.len(),
            0 <= b < self.parent@.len(),
            a != b,
            self.parent@[a] == a,
            self.parent@[b] == b,
            0 <= y < self.parent@.len(),
            next.parent@ == self.parent@.update(b, a as u32),
        ensures
            next.root(y) == if self.root(y) == b {
                a
            } else {
                self.root(y)
            },
        decreases self.height@[y],
    {
        if y == b {
            assert(next.root(a) == a);
        } else if self.parent@[y] != y {
            self.lemma_link(next, a, b, self.parent@[y] as int);
        }
    }

    fn new(n: u32) -> (r: UnionFind)
        ensures
            r.wf(),
            r.parent@.len() == n,
            forall|x: int| 0 <= x < n ==> #[trigger] r.root(x) == x,
    {
        let start = id(n);
        proof {
            assert(start@.map.len() == n);
            assert forall|x: int| 0 <= x < n implies start.map@[x] == x by {
                assert(start@.map[x] == x);
            }
        }
        UnionFind { parent: start.map, height: Ghost(Seq::new(n as nat, |i: int| 0nat)) }
    }

    fn find(&mut self, x: u32) -> (r: u32)
        requires
            old(self).wf(),
            x < old(self).parent@.len(),
        ensures
            final(self).wf(),
            final(self).parent@.len() == old(self).parent@.len(),
            r == old(self).root(x as int),
            r < old(self).parent@.len(),
            forall|y: int| 0 <= y < old(self).parent@.len() ==> #[trigger] final(self).root(y) == old(self).root(y),
    {
        let mut root: u32 = x;
        while self.parent[root as usize] != root
            invariant
                self.wf(),
                *self == *old(self),
                x < self.parent@.len(),
                root < self.parent@.len(),
                self.root(root as int) == self.root(x as int),
            decreases self.height@[root as int],
        {
            root = self.parent[root as usize];
        }
        let mut cur: u32 = x;
        proof {
            self.lemma_root(x as int);
        }
        while self.parent[cur as usize] != root
            invariant
                self.wf(),
                self.parent@.len() == old(self).parent@.len(),
                self.height@ == old(self).height@,
                old(self).wf(),
                cur < self.parent@.len(),
                root < self.parent@.len(),
                self.root(cur as int) == root,
                self.parent@[root as int] == root,
                forall|y: int| 0 <= y < self.parent@.len() ==> #[trigger] self.root(y) == old(self).root(y),
            decreases self.height@[cur as int],
        {
            let next: u32 = self.parent[cur as usize];
            let ghost before = *self;
            proof {
                before.lemma_root(cur as int);
            }
            self.parent.set(cur as usize, root);
            proof {
                assert(self.wf());
                assert forall|y: int| 0 <= y < self.parent@.len() implies #[trigger] self.root(y) == before.root(y) by {
                    before.lemma_compress(self, cur as int, y);
                }
                assert(before.root(next as int) == before.root(cur as int));
                assert(self.root(next as int) == before.root(next as int));
            }
            cur = next;
        }
        root
    }

    fn union(&mut self, a: u32, b: u32)
        requires
            old(self).wf(),
            a < old(self).parent@.len(),
            b < old(self).parent@.len(),
        ensures
            final(self).wf(),
            final(self).parent@.len() == old(self).parent@.len(),
            forall|y: int| 0 <= y < old(self).parent@.len() ==> #[trigger] final(self).root(y) == if old(self).root(y)
                == old(self).root(b as int) {
                old(self).root(a as int)
            } else {
                old(self).root(y)
            },
    {
        let pa: u32 = self.find(a);
        let pb: u32 = self.find(b);
        proof {
            self.lemma_root(a as int);
            self.lemma_root(b as int);
        }
        if pa != pb {
            let ghost before = *self;
            let ghost lift = before.height@[pa as int] + 1;
            self.parent.set(pb as usize, pa);
            self.height = Ghost(Seq::new(before.height@.len(), |y: int| if before.root(y) == pb {
                (before.height@[y] + lift) as nat
            } else {
                before.height@[y]
            }));
            proof {
                assert(before.root(pa as int) == pa);
                assert(before.root(pb as int) == pb);
                assert forall|y: int| 0 <= y < self.parent@.len() implies {
                    let p = #[trigger] self.parent@[y] as int;
                    p < self.parent@.len() && (p != y ==> self.height@[p] < self.height@[y])
                } by {
                    if y != pb {
                        let p = before.parent@[y] as int;
                        assert(before.root(p) == before.root(y));
                    }
                }
                assert forall|y: int| 0 <= y < self.parent@.len() implies #[trigger] self.root(y) == if before.root(y)
                    == pb {
                    pa as int
                } else {
                    before.root(y)
                } by {
                    before.lemma_link(self, pa as int, pb as int, y);
                }
            }
        }
    }
}

#[derive(Debug)]
pub struct Coequalizer {
    pub obj: u32,
    pub proj: Mor,
}

/// Coequalizer of a parallel pair `f, g: X → Y`, as a quotient of `Y`.
/// Classes are numbered in the order of their first elements.
pub fn coequalizer(f: &Mor, g: &Mor) -> (r: Coequalizer)
    requires
        f.wf(),
        g.wf(),
        f.dom == g.dom,
        f.cod == g.cod,
    ensures
        r.proj@ == Fun::coeq(f@, g@),
        r.obj == r.proj.cod,
{
    let ghost ff = f@;
    let ghost gg = g@;
    let n: u32 = f.cod;
    let mut uf = UnionFind::new(n);
    let mut x: u32 = 0;
    while x < f.dom
        invariant
            x <= f.dom,
            f.wf(),
            g.wf(),
            ff == f@,
            gg == g@,
            f.dom == g.dom,
            f.cod == g.cod,
            n == f.cod,
            uf.wf(),
            uf.parent@.len() == n,
            forall|z: int| 0 <= z < x ==> uf.root(#[trigger] ff.map[z]) == uf.root(gg.map[z]),
            forall|h: Seq<int>, y: int|
                crate::theory::colimits::respects(h, ff, gg) && 0 <= y < n ==> #[trigger] h[y] == h[#[trigger] uf.root(y)],
        decreases f.dom - x,
    {
        let a: u32 = f.apply(x);
        let b: u32 = g.apply(x);
        let ghost before = uf;
        proof {
            assert(ff.map[x as int] == a);
            assert(gg.map[x as int] == b);
        }
        uf.union(a, b);
        proof {
            assert forall|h: Seq<int>, y: int| crate::theory::colimits::respects(h, ff, gg) && 0 <= y < n implies #[trigger] h[y]
                == h[#[trigger] uf.root(y)] by {
                assert(h[ff.map[x as int]] == h[gg.map[x as int]]);
                assert(h[a as int] == h[before.root(a as int)]);
                assert(h[b as int] == h[before.root(b as int)]);
                assert(h[y] == h[before.root(y)]);
            }
            assert forall|z: int| 0 <= z < x + 1 implies uf.root(#[trigger] ff.map[z]) == uf.root(gg.map[z]) by {
                if z < x {
                    assert(before.root(ff.map[z]) == before.root(gg.map[z]));
                }
            }
        }
        x = x + 1;
    }
    let ghost roots = uf;
    proof {
        assert forall|y: int, z: int| 0 <= y < n && 0 <= z < n implies (#[trigger] crate::theory::colimits::glued(ff, gg, y, z)
            <==> uf.root(y) == uf.root(z)) by {
            let labels = Seq::new(n as nat, |k: int| uf.root(k));
            assert(crate::theory::colimits::respects(labels, ff, gg)) by {
                assert forall|k: int| 0 <= k < ff.dom implies labels[#[trigger] ff.map[k]] == labels[gg.map[k]] by {
                    assert(uf.root(ff.map[k]) == uf.root(gg.map[k]));
                }
            }
            if crate::theory::colimits::glued(ff, gg, y, z) {
                assert(labels[y] == labels[z]);
            }
            if uf.root(y) == uf.root(z) {
                assert forall|h: Seq<int>| #[trigger] crate::theory::colimits::respects(h, ff, gg) implies h[y] == h[z] by {
                    assert(h[y] == h[uf.root(y)]);
                    assert(h[z] == h[uf.root(z)]);
                }
            }
        }
    }
    let mut root_index: Vec<Option<u32>> = vec![None; n as usize];
    let mut next: u32 = 0;
    let mut map: Vec<u32> = Vec::new();
    let mut y: u32 = 0;
    while y < n
        invariant
            y <= n,
            n == ff.cod,
            uf.wf(),
            uf.parent@.len() == n,
            roots.wf(),
            roots.parent@.len() == n,
            forall|k: int| 0 <= k < n ==> #[trigger] uf.root(k) == roots.root(k),
            forall|k: int, z: int| 0 <= k < n && 0 <= z < n ==> (#[trigger] crate::theory::colimits::glued(ff, gg, k, z)
                <==> roots.root(k) == roots.root(z)),
            root_index@.len() == n,
            next == crate::theory::colimits::leaders(ff, gg, y as int),
            next <= y,
            map@.len() == y,
            forall|k: int| 0 <= k < y ==> map@[k] == crate::theory::colimits::leaders(
                ff,
                gg,
                #[trigger] crate::theory::colimits::rep(ff, gg, k),
            ),
            forall|k: int| 0 <= k < y ==> root_index@[#[trigger] roots.root(k)] == Some(map@[k]),
            forall|r: int| 0 <= r < n && (#[trigger] root_index@[r]) is Some ==> exists|k: int|
                0 <= k < y && #[trigger] roots.root(k) == r,
        decreases n - y,
    {
        proof {
            crate::theory::colimits::lemma_rep(ff, gg, y as int);
            crate::theory::colimits::lemma_glued_equiv(ff, gg);
            roots.lemma_root(y as int);
        }
        let r: u32 = uf.find(y);
        let ghost lead = crate::theory::colimits::rep(ff, gg, y as int);
        let found: Option<u32> = root_index[r as usize];
        match found {
            Some(i) => {
                proof {
                    let k = choose|k: int| 0 <= k < y && #[trigger] roots.root(k) == r;
                    assert(crate::theory::colimits::glued(ff, gg, k, y as int));
                    crate::theory::colimits::lemma_rep(ff, gg, k);
                    crate::theory::colimits::lemma_leads_unique(
                        ff,
                        gg,
                        k,
                        crate::theory::colimits::rep(ff, gg, k),
                        y as int,
                        lead,
                    );
                    assert(root_index@[roots.root(k)] == Some(map@[k]));
                    assert(!crate::theory::colimits::leader(ff, gg, y as int));
                }
                map.push(i);
            },
            None => {
                proof {
                    assert forall|z: int| 0 <= z < y implies !#[trigger] crate::theory::colimits::glued(ff, gg, z, y as int) by {
                        assert(root_index@[roots.root(z)] == Some(map@[z]));
                    }
                    assert(crate::theory::colimits::leader(ff, gg, y as int));
                    assert(crate::theory::colimits::leads(ff, gg, y as int, y as int));
                    crate::theory::colimits::lemma_leads_unique(ff, gg, y as int, y as int, y as int, lead);
                }
                let ghost before = root_index@;
                let ghost listed = map@;
                root_index.set(r as usize, Some(next));
                map.push(next);
                next = next + 1;
                proof {
                    assert forall|k: int| 0 <= k < y + 1 implies root_index@[#[trigger] roots.root(k)] == Some(map@[k]) by {
                        roots.lemma_root(k);
                        if k < y {
                            assert(before[roots.root(k)] == Some(listed[k]));
                        }
                    }
                }
            },
        }
        y = y + 1;
    }
    let r = Coequalizer { obj: next, proj: Mor { dom: n, cod: next, map } };
    proof {
        reveal(Fun::coeq);
        assert(r.proj@ =~= Fun::coeq(ff, gg));
    }
    r
}

/// Mediator out of a coequalizer. `h: Y → W` must identify `f` and `g`.
pub fn coequalizer_mediator(q: &Coequalizer, h: &Mor) -> (r: Mor)
    requires
        q.proj.wf(),
        q.obj == q.proj.cod,
        q.proj@.onto(),
        h.dom == q.proj.dom,
        h@.map.len() >= h.dom,
        q.proj@.kernel_of(h@),
    ensures
        r@ == q.proj@.desc(h@),
{
    let mut class_image: Vec<Option<u32>> = vec![None; q.obj as usize];
    let mut y: u32 = 0;
    while y < h.dom
        invariant
            y <= h.dom,
            q.proj.wf(),
            q.obj == q.proj.cod,
            h.dom == q.proj.dom,
            h@.map.len() >= h.dom,
            class_image@.len() == q.obj,
            forall|k: int| 0 <= k < y ==> (#[trigger] class_image@[q.proj@.map[k]]) is Some,
            forall|c: int| 0 <= c < q.obj && (#[trigger] class_image@[c]) is Some ==> exists|k: int|
                0 <= k < y && #[trigger] q.proj@.map[k] == c && class_image@[c]->0 == h@.map[k],
        decreases h.dom - y,
    {
        let c: u32 = q.proj.apply(y);
        let image: u32 = h.apply(y);
        let ghost before = class_image@;
        proof {
            assert(q.proj@.map[y as int] == c);
        }
        let seen: Option<u32> = class_image[c as usize];
        if seen.is_none() {
            class_image.set(c as usize, Some(image));
        }
        proof {
            assert forall|d: int| 0 <= d < q.obj && (#[trigger] class_image@[d]) is Some implies exists|k: int|
                0 <= k < y + 1 && #[trigger] q.proj@.map[k] == d && class_image@[d]->0 == h@.map[k] by {
                if before[d] is Some {
                    let k = choose|k: int| 0 <= k < y && #[trigger] q.proj@.map[k] == d && before[d]->0 == h@.map[k];
                    assert(q.proj@.map[k] == d);
                } else {
                    assert(q.proj@.map[y as int] == d);
                }
            }
        }
        y = y + 1;
    }
    let mut map: Vec<u32> = Vec::new();
    let mut c: u32 = 0;
    while c < q.obj
        invariant
            c <= q.obj,
            q.proj.wf(),
            q.obj == q.proj.cod,
            q.proj@.onto(),
            h.dom == q.proj.dom,
            h@.map.len() >= h.dom,
            q.proj@.kernel_of(h@),
            class_image@.len() == q.obj,
            forall|k: int| 0 <= k < h.dom ==> (#[trigger] class_image@[q.proj@.map[k]]) is Some,
            forall|d: int| 0 <= d < q.obj && (#[trigger] class_image@[d]) is Some ==> exists|k: int|
                0 <= k < h.dom && #[trigger] q.proj@.map[k] == d && class_image@[d]->0 == h@.map[k],
            map@.len() == c,
            forall|d: int| 0 <= d < c ==> map@[d] == h@.map[q.proj@.pre(d)],
        decreases q.obj - c,
    {
        proof {
            let k = q.proj@.pre(c as int);
            assert(q.proj@.hits(c as int, k));
            assert(class_image@[q.proj@.map[k]] is Some);
            let j = choose|j: int| 0 <= j < h.dom && #[trigger] q.proj@.map[j] == c && class_image@[c as int]->0 == h@.map[j];
            assert(q.proj@.map[j] == q.proj@.map[k]);
        }
        let image: Option<u32> = class_image[c as usize];
        map.push(image.unwrap());
        c = c + 1;
    }
    let r = Mor { dom: q.obj, cod: h.cod, map };
    assert(r@ =~= q.proj@.desc(h@));
    r
}

#[derive(Debug)]
pub struct Pushout {
    pub apex: u32,
    pub from_left: Mor,
    pub from_right: Mor,
}

impl View for Pushout {
    type V = Push;

    open spec fn view(&self) -> Push {
        Push { apex: self.apex as int, from_left: self.from_left@, from_right: self.from_right@ }
    }
}

/// Pushout of `left_leg: Z → X` and `right_leg: Z → Y`.
pub fn pushout(left_leg: &Mor, right_leg: &Mor) -> (r: Pushout)
    requires
        left_leg.wf(),
        right_leg.wf(),
        left_leg.dom == right_leg.dom,
        left_leg.cod + right_leg.cod <= u32::MAX,
    ensures
        r@ == Push::of(left_leg@, right_leg@),
{
    let sum = coproduct(left_leg.cod, right_leg.cod);
    let to_sum_l = compose(&sum.inl, left_leg);
    let to_sum_r = compose(&sum.inr, right_leg);
    let q = coequalizer(&to_sum_l, &to_sum_r);
    proof {
        crate::theory::colimits::lemma_coeq(to_sum_l@, to_sum_r@);
    }
    Pushout { apex: q.obj, from_left: compose(&q.proj, &sum.inl), from_right: compose(&q.proj, &sum.inr) }
}

/// Mediator out of a pushout of the functions whose codomains have
/// `left_card` and `r.dom` elements.
pub fn pushout_mediator(po: &Pushout, p: &Mor, r: &Mor, left_card: u32) -> (m: Mor)
    requires
        po.from_left.wf(),
        po.from_right.wf(),
        po.from_left.cod == po.apex,
        po.from_right.cod == po.apex,
        p.wf(),
        r.wf(),
        p.cod == r.cod,
        po.from_left.dom == left_card,
        p.dom == left_card,
        po.from_right.dom == r.dom,
        left_card + r.dom <= u32::MAX,
        Sum::copair(po@.from_left, po@.from_right).onto(),
        Sum::copair(po@.from_left, po@.from_right).kernel_of(Sum::copair(p@, r@)),
    ensures
        m@ == po@.med(p@, r@),
{
    let h = copair(p, r);
    // from_left and from_right together are the projection of the quotient.
    let proj = copair(&po.from_left, &po.from_right);
    proof {
        crate::theory::colimits::law_coproduct(po.from_left@, po.from_right@);
        crate::theory::colimits::law_coproduct(p@, r@);
        assert(h@.map.len() == h.map@.len());
    }
    let q = Coequalizer { obj: po.apex, proj };
    coequalizer_mediator(&q, &h)
}

/// Canonical distributivity isomorphism `A × (B ⊔ C) → (A × B) ⊔ (A × C)`.
pub fn distribute_product_coproduct(a: u32, b: u32, c: u32) -> (r: Mor)
    requires
        b + c <= u32::MAX,
        a * (b + c) <= u32::MAX,
    ensures
        r@ == Fun::distribute(a as int, b as int, c as int),
{
    let n: u32 = b + c;
    proof {
        assert(a * n == a * b + a * c) by (nonlinear_arith) requires n == b + c;
        assert(a * b >= 0 && a * c >= 0) by (nonlinear_arith) requires a >= 0, b >= 0, c >= 0;
    }
    let ab: u32 = a * b;
    let ac: u32 = a * c;
    let ghost d = Fun::distribute(a as int, b as int, c as int);
    let mut map: Vec<u32> = Vec::new();
    let mut i: u32 = 0;
    proof {
        assert(0 * n == 0);
    }
    while i < a
        invariant
            i <= a,
            n == b + c,
            a * n == ab + ac,
            ab + ac <= u32::MAX,
            ab == a * b,
            ac == a * c,
            d == Fun::distribute(a as int, b as int, c as int),
            map@.len() == i * n,
            forall|k: int| 0 <= k < map@.len() ==> map@[k] == d.map[k],
        decreases a - i,
    {
        let mut k: u32 = 0;
        while k < n
            invariant
                k <= n,
                i < a,
                n == b + c,
                a * n == ab + ac,
                ab + ac <= u32::MAX,
                ab == a * b,
                ac == a * c,
                d == Fun::distribute(a as int, b as int, c as int),
                map@.len() == i * n + k,
                forall|j: int| 0 <= j < map@.len() ==> map@[j] == d.map[j],
            decreases n - k,
        {
            proof {
                crate::theory::limits::lemma_pair_index(a as int, n as int, i as int, k as int);
                if k < b {
                    crate::theory::limits::lemma_pair_index(a as int, b as int, i as int, k as int);
                } else {
                    crate::theory::limits::lemma_pair_index(a as int, c as int, i as int, k - b);
                }
            }
            let idx: u32 = if k < b {
                pair_index(b, i, k)
            } else {
                ab + pair_index(c, i, k - b)
            };
            map.push(idx);
            k = k + 1;
        }
        assert((i + 1) * n == i * n + n) by (nonlinear_arith);
        i = i + 1;
    }
    let r = Mor { dom: a * n, cod: ab + ac, map };
    assert(r@ =~= d);
    r
}

} // verus!
