//! Commutative monoids, modules, and the tensor product over a monoid.
//!
//! `X ⊗_B Y` is the coequalizer of the two actions `X × B × Y ⇉ X × Y`.
//! Coequalizers are preserved by the cartesian product:
//! [`crate::theory::monoids`] proves that stability.
use vstd::prelude::*;
use crate::finset;
use crate::finset::Mor;
use crate::theory::limits::Prod;
use crate::theory::monoids::Mod;
use crate::theory::monoids::Mon;

verus! {

#[derive(Eq, Debug)]
pub struct CMon {
    pub carrier: u32,
    pub unit: u32,
    /// Row-major, index `i * carrier + j` is `i · j`.
    pub mul: Vec<u32>,
}

impl View for CMon {
    type V = Mon;

    open spec fn view(&self) -> Mon {
        Mon { carrier: self.carrier as int, unit: self.unit as int, mul: crate::theory::fun::ints(self.mul@) }
    }
}

impl Clone for CMon {
    fn clone(&self) -> (r: CMon)
        ensures
            r@ == self@,
    {
        let mul = self.mul.clone();
        assert(mul@ =~= self.mul@);
        CMon { carrier: self.carrier, unit: self.unit, mul }
    }
}

impl PartialEq for CMon {
    fn eq(&self, other: &CMon) -> (r: bool) {
        proof {
            lemma_ints_eq(self.mul@, other.mul@);
        }
        self.carrier == other.carrier && self.unit == other.unit && finset::same_words(&self.mul, &other.mul)
    }
}

impl vstd::std_specs::cmp::PartialEqSpecImpl for CMon {
    open spec fn obeys_eq_spec() -> bool {
        true
    }

    open spec fn eq_spec(&self, other: &CMon) -> bool {
        self@ == other@
    }
}

/// Two tables of machine words are equal when their numbers are.
pub proof fn lemma_ints_eq(s: Seq<u32>, t: Seq<u32>)
    ensures
        crate::theory::fun::ints(s) == crate::theory::fun::ints(t) <==> s == t,
{
    if crate::theory::fun::ints(s) == crate::theory::fun::ints(t) {
        assert(s.len() == crate::theory::fun::ints(s).len());
        assert(t.len() == crate::theory::fun::ints(t).len());
        assert forall|i: int| 0 <= i < s.len() implies s[i] == t[i] by {
            assert(crate::theory::fun::ints(s)[i] == s[i]);
            assert(crate::theory::fun::ints(t)[i] == t[i]);
        }
        assert(s =~= t);
    }
}

/// Commutativity and associativity at `i` and `j`.
pub open spec fn cell_ok(m: Mon, i: int, j: int) -> bool {
    &&& m.m(i, j) == m.m(j, i)
    &&& forall|k: int| #[trigger] m.has(k) ==> m.m(m.m(i, j), k) == m.m(i, m.m(j, k))
}

/// The laws of a commutative monoid at `i`.
pub open spec fn row_ok(m: Mon, i: int) -> bool {
    &&& m.m(m.unit, i) == i
    &&& m.m(i, m.unit) == i
    &&& forall|j: int| #[trigger] m.has(j) ==> cell_ok(m, i, j)
}

impl CMon {
    pub open spec fn shaped(&self) -> bool {
        self@.shaped()
    }

    pub open spec fn wf(&self) -> bool {
        self@.wf()
    }

    /// `i · j`.
    pub fn mul(&self, i: u32, j: u32) -> (r: u32)
        requires
            i * self.carrier + j < self.mul@.len(),
            i * self.carrier + j <= u32::MAX,
        ensures
            r == self@.m(i as int, j as int),
    {
        proof {
            assert(0 <= i * self.carrier) by (nonlinear_arith) requires i >= 0, self.carrier >= 0;
        }
        self.mul[(i * self.carrier + j) as usize]
    }

    /// The same, for elements of a total table.
    fn times(&self, i: u32, j: u32) -> (r: u32)
        requires
            self.shaped(),
            self.carrier * self.carrier <= u32::MAX,
            i < self.carrier,
            j < self.carrier,
        ensures
            r == self@.m(i as int, j as int),
            r < self.carrier,
    {
        proof {
            crate::theory::monoids::lemma_mul(self@, i as int, j as int);
            crate::theory::limits::lemma_pair_index(self.carrier as int, self.carrier as int, i as int, j as int);
        }
        self.mul(i, j)
    }

    fn check_cell(&self, i: u32, j: u32) -> (ok: bool)
        requires
            self.shaped(),
            self.carrier * self.carrier <= u32::MAX,
            i < self.carrier,
            j < self.carrier,
        ensures
            ok == cell_ok(self@, i as int, j as int),
    {
        let ij: u32 = self.times(i, j);
        if ij != self.times(j, i) {
            return false;
        }
        let mut k: u32 = 0;
        while k < self.carrier
            invariant
                self.shaped(),
                self.carrier * self.carrier <= u32::MAX,
                i < self.carrier,
                j < self.carrier,
                k <= self.carrier,
                ij == self@.m(i as int, j as int),
                ij < self.carrier,
                forall|l: int| 0 <= l < k ==> self@.m(ij as int, l) == self@.m(i as int, #[trigger] self@.m(j as int, l)),
            decreases self.carrier - k,
        {
            let jk: u32 = self.times(j, k);
            if self.times(ij, k) != self.times(i, jk) {
                assert(self@.has(k as int));
                return false;
            }
            k = k + 1;
        }
        true
    }

    fn check_row(&self, i: u32) -> (ok: bool)
        requires
            self.shaped(),
            self.carrier * self.carrier <= u32::MAX,
            i < self.carrier,
        ensures
            ok == row_ok(self@, i as int),
    {
        if self.times(self.unit, i) != i || self.times(i, self.unit) != i {
            return false;
        }
        let mut j: u32 = 0;
        while j < self.carrier
            invariant
                self.shaped(),
                self.carrier * self.carrier <= u32::MAX,
                i < self.carrier,
                j <= self.carrier,
                forall|l: int| 0 <= l < j ==> #[trigger] cell_ok(self@, i as int, l),
            decreases self.carrier - j,
        {
            if !self.check_cell(i, j) {
                assert(self@.has(j as int));
                return false;
            }
            j = j + 1;
        }
        true
    }

    /// Whether this is a commutative monoid.
    pub fn check(&self) -> (ok: bool)
        requires
            self.carrier * self.carrier <= u32::MAX,
        ensures
            ok == self.wf(),
    {
        proof {
            assert(0 <= self.carrier * self.carrier) by (nonlinear_arith);
            assert(self@.mul.len() == self.mul@.len());
        }
        if self.unit >= self.carrier || self.mul.len() != (self.carrier * self.carrier) as usize {
            return false;
        }
        if !below(&self.mul, self.carrier) {
            return false;
        }
        let mut i: u32 = 0;
        while i < self.carrier
            invariant
                self.shaped(),
                self.carrier * self.carrier <= u32::MAX,
                i <= self.carrier,
                forall|l: int| 0 <= l < i ==> #[trigger] row_ok(self@, l),
            decreases self.carrier - i,
        {
            if !self.check_row(i) {
                proof {
                    if self.wf() {
                        assert(self@.has(i as int));
                        assert forall|j: int| #[trigger] self@.has(j) implies cell_ok(self@, i as int, j) by {
                        }
                        assert(row_ok(self@, i as int));
                    }
                }
                return false;
            }
            i = i + 1;
        }
        proof {
            assert forall|a: int| #[trigger] self@.has(a) implies self@.m(self@.unit, a) == a && self@.m(a, self@.unit) == a by {
                assert(row_ok(self@, a));
            }
            assert forall|a: int, b: int| #[trigger] self@.has(a) && #[trigger] self@.has(b) implies self@.m(a, b) == self@.m(
                b,
                a,
            ) by {
                assert(row_ok(self@, a));
                assert(cell_ok(self@, a, b));
            }
            assert forall|a: int, b: int, c: int| #[trigger]
                self@.has(a) && #[trigger] self@.has(b) && #[trigger] self@.has(c) implies self@.m(self@.m(a, b), c) == self@.m(
                a,
                self@.m(b, c),
            ) by {
                assert(row_ok(self@, a));
                assert(cell_ok(self@, a, b));
            }
        }
        true
    }
}

/// Whether every entry of the table is below `n`.
fn below(table: &Vec<u32>, n: u32) -> (ok: bool)
    ensures
        ok == forall|k: int|
            0 <= k < crate::theory::fun::ints(table@).len() ==> 0 <= #[trigger] crate::theory::fun::ints(table@)[k] < n,
{
    let ghost t = crate::theory::fun::ints(table@);
    let mut k: usize = 0;
    while k < table.len()
        invariant
            k <= table.len(),
            t == crate::theory::fun::ints(table@),
            forall|l: int| 0 <= l < k ==> 0 <= #[trigger] t[l] < n,
        decreases table.len() - k,
    {
        if table[k] >= n {
            assert(t[k as int] == table@[k as int]);
            return false;
        }
        k = k + 1;
    }
    true
}

#[derive(Eq, Debug)]
pub struct Module {
    pub scalar: CMon,
    pub carrier: u32,
    /// Index `s * carrier + x`.
    pub act: Vec<u32>,
}

impl View for Module {
    type V = Mod;

    open spec fn view(&self) -> Mod {
        Mod { scalar: self.scalar@, carrier: self.carrier as int, act: crate::theory::fun::ints(self.act@) }
    }
}

impl Clone for Module {
    fn clone(&self) -> (r: Module)
        ensures
            r@ == self@,
    {
        let act = self.act.clone();
        assert(act@ =~= self.act@);
        Module { scalar: self.scalar.clone(), carrier: self.carrier, act }
    }
}

impl PartialEq for Module {
    fn eq(&self, other: &Module) -> (r: bool) {
        proof {
            lemma_ints_eq(self.act@, other.act@);
        }
        self.scalar == other.scalar && self.carrier == other.carrier && finset::same_words(&self.act, &other.act)
    }
}

impl vstd::std_specs::cmp::PartialEqSpecImpl for Module {
    open spec fn obeys_eq_spec() -> bool {
        true
    }

    open spec fn eq_spec(&self, other: &Module) -> bool {
        self@ == other@
    }
}

/// Products act in turn on `x`, for the first scalar `s`.
pub open spec fn act_ok(m: Mod, x: int, s: int) -> bool {
    forall|t: int| #[trigger] m.scalar.has(t) ==> m.a(m.scalar.m(s, t), x) == m.a(s, m.a(t, x))
}

/// The laws of a module at `x`.
pub open spec fn element_ok(m: Mod, x: int) -> bool {
    &&& m.a(m.scalar.unit, x) == x
    &&& forall|s: int| #[trigger] m.scalar.has(s) ==> act_ok(m, x, s)
}

/// The tables of a monoid and of a module over it fit in machine words.
pub open spec fn tables_fit(m: Mod) -> bool {
    m.scalar.carrier * m.scalar.carrier <= u32::MAX && m.scalar.carrier * m.carrier <= u32::MAX
}

impl Module {
    pub open spec fn shaped(&self) -> bool {
        self@.shaped()
    }

    pub open spec fn wf(&self) -> bool {
        self@.wf()
    }

    /// `s · x`.
    pub fn act(&self, s: u32, x: u32) -> (r: u32)
        requires
            s * self.carrier + x < self.act@.len(),
            s * self.carrier + x <= u32::MAX,
        ensures
            r == self@.a(s as int, x as int),
    {
        proof {
            assert(0 <= s * self.carrier) by (nonlinear_arith) requires s >= 0, self.carrier >= 0;
        }
        self.act[(s * self.carrier + x) as usize]
    }

    /// The same, for elements of a total table.
    pub(crate) fn times(&self, s: u32, x: u32) -> (r: u32)
        requires
            self.shaped(),
            tables_fit(self@),
            s < self.scalar.carrier,
            x < self.carrier,
        ensures
            r == self@.a(s as int, x as int),
            r < self.carrier,
    {
        proof {
            crate::theory::monoids::lemma_act(self@, s as int, x as int);
            crate::theory::limits::lemma_pair_index(self.scalar.carrier as int, self.carrier as int, s as int, x as int);
        }
        self.act(s, x)
    }

    fn check_scalar(&self, x: u32, s: u32) -> (ok: bool)
        requires
            self.shaped(),
            tables_fit(self@),
            s < self.scalar.carrier,
            x < self.carrier,
        ensures
            ok == act_ok(self@, x as int, s as int),
    {
        let mut t: u32 = 0;
        while t < self.scalar.carrier
            invariant
                self.shaped(),
                tables_fit(self@),
                s < self.scalar.carrier,
                x < self.carrier,
                t <= self.scalar.carrier,
                forall|l: int| 0 <= l < t ==> self@.a(#[trigger] self@.scalar.m(s as int, l), x as int) == self@.a(
                    s as int,
                    self@.a(l, x as int),
                ),
            decreases self.scalar.carrier - t,
        {
            let st: u32 = self.scalar.times(s, t);
            let tx: u32 = self.times(t, x);
            if self.times(st, x) != self.times(s, tx) {
                assert(self@.scalar.has(t as int));
                return false;
            }
            t = t + 1;
        }
        true
    }

    fn check_element(&self, x: u32) -> (ok: bool)
        requires
            self.shaped(),
            tables_fit(self@),
            x < self.carrier,
        ensures
            ok == element_ok(self@, x as int),
    {
        if self.times(self.scalar.unit, x) != x {
            return false;
        }
        let mut s: u32 = 0;
        while s < self.scalar.carrier
            invariant
                self.shaped(),
                tables_fit(self@),
                x < self.carrier,
                s <= self.scalar.carrier,
                forall|l: int| 0 <= l < s ==> #[trigger] act_ok(self@, x as int, l),
            decreases self.scalar.carrier - s,
        {
            if !self.check_scalar(x, s) {
                assert(self@.scalar.has(s as int));
                return false;
            }
            s = s + 1;
        }
        true
    }

    /// Whether this is a module over a commutative monoid.
    pub fn check(&self) -> (ok: bool)
        requires
            tables_fit(self@),
        ensures
            ok == self.wf(),
    {
        if !self.scalar.check() {
            return false;
        }
        proof {
            assert(0 <= self.scalar.carrier * self.carrier) by (nonlinear_arith)
                requires self.scalar.carrier >= 0, self.carrier >= 0;
            assert(self@.act.len() == self.act@.len());
        }
        if self.act.len() != (self.scalar.carrier * self.carrier) as usize {
            return false;
        }
        if !below(&self.act, self.carrier) {
            return false;
        }
        let mut x: u32 = 0;
        while x < self.carrier
            invariant
                self.shaped(),
                self.scalar.wf(),
                tables_fit(self@),
                x <= self.carrier,
                forall|l: int| 0 <= l < x ==> #[trigger] element_ok(self@, l),
            decreases self.carrier - x,
        {
            if !self.check_element(x) {
                proof {
                    if self.wf() {
                        assert(self@.has(x as int));
                        assert forall|s: int| #[trigger] self@.scalar.has(s) implies act_ok(self@, x as int, s) by {
                        }
                        assert(element_ok(self@, x as int));
                    }
                }
                return false;
            }
            x = x + 1;
        }
        proof {
            assert forall|e: int| #[trigger] self@.has(e) implies self@.a(self@.scalar.unit, e) == e by {
                assert(element_ok(self@, e));
            }
            assert forall|s: int, t: int, e: int| #[trigger]
                self@.scalar.has(s) && #[trigger] self@.scalar.has(t) && #[trigger] self@.has(e) implies self@.a(
                self@.scalar.m(s, t),
                e,
            ) == self@.a(s, self@.a(t, e)) by {
                assert(element_ok(self@, e));
                assert(act_ok(self@, e, s));
            }
        }
        true
    }
}

// ----- listings -----

/// Every multiplication table on `carrier` elements with the given unit, in
/// counting order.
pub open spec fn mul_tables(carrier: int, unit: int) -> Seq<Mon> {
    let ts = crate::theory::limits::counted((carrier * carrier) as nat, carrier);
    Seq::new(ts.len(), |k: int| Mon { carrier, unit, mul: ts[k] })
}

/// The commutative monoids on `carrier` elements with the given unit.
pub open spec fn monoids_with(carrier: int, unit: int) -> Seq<Mon> {
    mul_tables(carrier, unit).filter(|m: Mon| m.wf())
}

/// The commutative monoids on `carrier` elements.
pub open spec fn monoids_on(carrier: int) -> Seq<Mon> {
    crate::theory::listing::cat(carrier, |unit: int| monoids_with(carrier, unit))
}

/// The commutative monoids with at most `max` elements.
pub open spec fn all_monoids(max: int) -> Seq<Mon> {
    crate::theory::listing::cat(max, |i: int| monoids_on(i + 1))
}

proof fn lemma_monoids_distinct(max: int)
    ensures
        all_monoids(max).no_duplicates(),
{
    let f = |i: int| monoids_on(i + 1);
    assert forall|i: int| 0 <= i < max implies (#[trigger] f(i)).no_duplicates() && forall|k: int|
        0 <= k < f(i).len() ==> (#[trigger] f(i)[k]).carrier == i + 1 by {
        let carrier = i + 1;
        let g = |unit: int| monoids_with(carrier, unit);
        let keep = |m: Mon| m.wf();
        let n = (carrier * carrier) as nat;
        let ts = crate::theory::limits::counted(n, carrier);
        crate::theory::limits::law_counted(n, carrier);
        assert forall|unit: int| 0 <= unit < carrier implies (#[trigger] g(unit)).no_duplicates() && forall|k: int|
            0 <= k < g(unit).len() ==> (#[trigger] g(unit)[k]).carrier == carrier && g(unit)[k].unit == unit by {
            let tables = mul_tables(carrier, unit);
            assert forall|j: int, k: int| 0 <= j < tables.len() && 0 <= k < tables.len() && j != k implies tables[j]
                != tables[k] by {
                assert(tables[j].mul == ts[j] && tables[k].mul == ts[k]);
            }
            crate::theory::listing::lemma_filter_distinct(tables, keep);
            crate::slice::lemma_filter_members(tables, keep);
            let row = g(unit);
            assert forall|k: int| 0 <= k < row.len() implies (#[trigger] row[k]).carrier == carrier && row[k].unit == unit by {
                assert(row.contains(row[k]));
                assert(tables.contains(row[k]));
            }
        }
        crate::theory::listing::lemma_cat_labelled(carrier, g, |m: Mon| m.unit, |unit: int| unit);
        crate::theory::listing::lemma_cat_all(carrier, g, |m: Mon| m.carrier == carrier);
    }
    crate::theory::listing::lemma_cat_labelled(max, f, |m: Mon| m.carrier, |i: int| i + 1);
}

/// The listing holds the commutative monoids with at most `max` elements, each
/// once, and nothing else.
pub proof fn law_monoids(max: int)
    ensures
        all_monoids(max).no_duplicates(),
        forall|m: Mon| #[trigger] all_monoids(max).contains(m) <==> m.wf() && m.carrier <= max,
{
    lemma_monoids_distinct(max);
    let f = |i: int| monoids_on(i + 1);
    crate::theory::listing::lemma_cat(max, f);
    let all = all_monoids(max);
    assert forall|m: Mon| #[trigger] all.contains(m) implies m.wf() && m.carrier <= max by {
        let k = choose|k: int| 0 <= k < all.len() && all[k] == m;
        let i = choose|i: int| 0 <= i < max && (#[trigger] f(i)).contains(all[k]);
        lemma_monoids_on(i + 1);
        assert(monoids_on(i + 1).contains(m));
    }
    assert forall|m: Mon| m.wf() && m.carrier <= max implies #[trigger] all.contains(m) by {
        lemma_monoids_on(m.carrier);
        assert(monoids_on(m.carrier).contains(m));
        assert(f(m.carrier - 1).contains(m));
    }
}

proof fn lemma_monoids_on(carrier: int)
    requires
        carrier > 0,
    ensures
        forall|m: Mon| #[trigger] monoids_on(carrier).contains(m) <==> m.wf() && m.carrier == carrier,
{
    let f = |unit: int| monoids_with(carrier, unit);
    crate::theory::listing::lemma_cat(carrier, f);
    let all = monoids_on(carrier);
    let n = (carrier * carrier) as nat;
    assert(carrier * carrier >= 0) by (nonlinear_arith);
    let ts = crate::theory::limits::counted(n, carrier);
    crate::theory::limits::law_counted(n, carrier);
    assert forall|m: Mon| #[trigger] all.contains(m) implies m.wf() && m.carrier == carrier by {
        let k = choose|k: int| 0 <= k < all.len() && all[k] == m;
        let unit = choose|unit: int| 0 <= unit < carrier && (#[trigger] f(unit)).contains(all[k]);
        crate::slice::lemma_filter_members(mul_tables(carrier, unit), |m: Mon| m.wf());
        assert(monoids_with(carrier, unit).contains(m));
        assert(mul_tables(carrier, unit).contains(m));
    }
    assert forall|m: Mon| m.wf() && m.carrier == carrier implies #[trigger] all.contains(m) by {
        assert(crate::theory::limits::is_table(m.mul, n as int, carrier));
        assert(ts.contains(m.mul));
        let k = choose|k: int| 0 <= k < ts.len() && ts[k] == m.mul;
        assert(mul_tables(carrier, m.unit)[k] == m);
        crate::slice::lemma_filter_members(mul_tables(carrier, m.unit), |m: Mon| m.wf());
        assert(monoids_with(carrier, m.unit).contains(m));
        assert(f(m.unit).contains(m));
    }
}

fn monoids_at(carrier: u32, unit: u32) -> (r: Vec<CMon>)
    requires
        carrier * carrier <= u32::MAX,
    ensures
        crate::theory::listing::views(r@) == monoids_with(carrier as int, unit as int),
{
    proof {
        assert(0 <= carrier * carrier) by (nonlinear_arith);
    }
    let tables = finset::counted_tables(carrier * carrier, carrier);
    let ghost all = mul_tables(carrier as int, unit as int);
    let ghost keep = |m: Mon| m.wf();
    let mut out: Vec<CMon> = Vec::new();
    let mut k: usize = 0;
    proof {
        reveal(Seq::filter);
        assert(all.take(0).filter(keep) =~= Seq::<Mon>::empty());
        assert(crate::theory::listing::views(out@) =~= all.take(0).filter(keep));
    }
    while k < tables.len()
        invariant
            k <= tables.len(),
            carrier * carrier <= u32::MAX,
            all == mul_tables(carrier as int, unit as int),
            keep == (|m: Mon| m.wf()),
            finset::tables_are(
                tables@,
                crate::theory::limits::counted((carrier * carrier) as nat, carrier as int),
            ),
            all.len() == tables@.len(),
            crate::theory::listing::views(out@) == all.take(k as int).filter(keep),
        decreases tables.len() - k,
    {
        let mul = tables[k].clone();
        assert(mul@ =~= tables@[k as int]@);
        let m = CMon { carrier, unit, mul };
        proof {
            assert(m@ =~= all[k as int]);
            crate::span::lemma_filter_step(all, k as int, keep);
            crate::theory::listing::lemma_views_push(out@, m);
        }
        if m.check() {
            out.push(m);
        }
        k = k + 1;
    }
    assert(all.take(k as int) =~= all);
    out
}

/// The commutative monoids with at most `max` elements, by cardinality, then
/// unit, then multiplication table in counting order.
pub fn monoids_up_to(max: u32) -> (r: Vec<CMon>)
    requires
        max * max <= u32::MAX,
    ensures
        crate::theory::listing::views(r@) == all_monoids(max as int),
        forall|k: int| 0 <= k < r@.len() ==> (#[trigger] r@[k]).wf() && r@[k].carrier <= max,
{
    let ghost f = |i: int| monoids_on(i + 1);
    let mut out: Vec<CMon> = Vec::new();
    let mut i: u32 = 0;
    assert(crate::theory::listing::views(out@) =~= crate::theory::listing::cat(0, f));
    while i < max
        invariant
            i <= max,
            max * max <= u32::MAX,
            f == (|i: int| monoids_on(i + 1)),
            crate::theory::listing::views(out@) == crate::theory::listing::cat(i as int, f),
        decreases max - i,
    {
        let carrier: u32 = i + 1;
        let ghost before = crate::theory::listing::views(out@);
        let ghost g = |unit: int| monoids_with(carrier as int, unit);
        let mut unit: u32 = 0;
        proof {
            assert(carrier * carrier <= max * max) by (nonlinear_arith) requires 0 <= carrier <= max;
            assert(before + crate::theory::listing::cat(0, g) =~= before);
        }
        while unit < carrier
            invariant
                unit <= carrier,
                carrier * carrier <= u32::MAX,
                g == (|unit: int| monoids_with(carrier as int, unit)),
                crate::theory::listing::views(out@) == before + crate::theory::listing::cat(unit as int, g),
            decreases carrier - unit,
        {
            let mut some = monoids_at(carrier, unit);
            proof {
                crate::theory::listing::lemma_views_add(out@, some@);
                assert(before + crate::theory::listing::cat(unit as int, g) + g(unit as int) =~= before
                    + crate::theory::listing::cat(unit + 1, g));
            }
            out.append(&mut some);
            unit = unit + 1;
        }
        i = i + 1;
    }
    proof {
        law_monoids(max as int);
        assert forall|k: int| 0 <= k < out@.len() implies (#[trigger] out@[k]).wf() && out@[k].carrier <= max by {
            assert(crate::theory::listing::views(out@)[k] == out@[k]@);
            assert(all_monoids(max as int).contains(out@[k]@));
        }
    }
    out
}

/// Every action table of `scalar` on `carrier` elements, in counting order.
pub open spec fn act_tables(scalar: Mon, carrier: int) -> Seq<Mod> {
    let ts = crate::theory::limits::counted((scalar.carrier * carrier) as nat, carrier);
    Seq::new(ts.len(), |k: int| Mod { scalar, carrier, act: ts[k] })
}

/// The modules over `scalar` on `carrier` elements; the empty set always has one.
pub open spec fn modules_on(scalar: Mon, carrier: int) -> Seq<Mod> {
    if carrier == 0 {
        seq![Mod { scalar, carrier: 0, act: Seq::empty() }]
    } else {
        act_tables(scalar, carrier).filter(|m: Mod| m.wf())
    }
}

/// The modules over `scalar` with at most `max` elements.
pub open spec fn all_modules(scalar: Mon, max: int) -> Seq<Mod> {
    crate::theory::listing::cat(max + 1, |carrier: int| modules_on(scalar, carrier))
}

proof fn lemma_modules_distinct(scalar: Mon, max: int)
    requires
        scalar.wf(),
    ensures
        all_modules(scalar, max).no_duplicates(),
{
    let f = |carrier: int| modules_on(scalar, carrier);
    assert forall|carrier: int| 0 <= carrier < max + 1 implies (#[trigger] f(carrier)).no_duplicates() && forall|k: int|
        0 <= k < f(carrier).len() ==> (#[trigger] f(carrier)[k]).carrier == carrier by {
        let tables = act_tables(scalar, carrier);
        if carrier > 0 {
            let n = (scalar.carrier * carrier) as nat;
            let ts = crate::theory::limits::counted(n, carrier);
            crate::theory::limits::law_counted(n, carrier);
            assert forall|j: int, k: int| 0 <= j < tables.len() && 0 <= k < tables.len() && j != k implies tables[j]
                != tables[k] by {
                assert(tables[j].act == ts[j] && tables[k].act == ts[k]);
            }
            crate::theory::listing::lemma_filter_distinct(tables, |m: Mod| m.wf());
        }
        lemma_modules_on(scalar, carrier);
        let row = f(carrier);
        assert forall|k: int| 0 <= k < row.len() implies (#[trigger] row[k]).carrier == carrier by {
            assert(modules_on(scalar, carrier).contains(row[k]));
        }
    }
    crate::theory::listing::lemma_cat_labelled(max + 1, f, |m: Mod| m.carrier, |i: int| i);
}

/// Over a commutative monoid the listing holds the modules with at most `max`
/// elements, each once, and nothing else.
pub proof fn law_modules(scalar: Mon, max: int)
    requires
        scalar.wf(),
    ensures
        all_modules(scalar, max).no_duplicates(),
        forall|m: Mod| #[trigger] all_modules(scalar, max).contains(m) <==> m.wf() && m.scalar == scalar && m.carrier <= max,
{
    lemma_modules_distinct(scalar, max);
    let f = |carrier: int| modules_on(scalar, carrier);
    crate::theory::listing::lemma_cat(max + 1, f);
    let all = all_modules(scalar, max);
    assert forall|m: Mod| #[trigger] all.contains(m) implies m.wf() && m.scalar == scalar && m.carrier <= max by {
        let k = choose|k: int| 0 <= k < all.len() && all[k] == m;
        let c = choose|c: int| 0 <= c < max + 1 && (#[trigger] f(c)).contains(all[k]);
        lemma_modules_on(scalar, c);
        assert(modules_on(scalar, c).contains(m));
    }
    assert forall|m: Mod| m.wf() && m.scalar == scalar && m.carrier <= max implies #[trigger] all.contains(m) by {
        lemma_modules_on(scalar, m.carrier);
        assert(modules_on(scalar, m.carrier).contains(m));
        assert(f(m.carrier).contains(m));
    }
}

proof fn lemma_modules_on(scalar: Mon, carrier: int)
    requires
        scalar.wf(),
        carrier >= 0,
    ensures
        forall|m: Mod| #[trigger] modules_on(scalar, carrier).contains(m) <==> m.wf() && m.scalar == scalar && m.carrier
            == carrier,
{
    let on = modules_on(scalar, carrier);
    let n = (scalar.carrier * carrier) as nat;
    assert(scalar.carrier * carrier >= 0) by (nonlinear_arith) requires scalar.carrier >= 0, carrier >= 0;
    if carrier == 0 {
        assert(scalar.carrier * carrier == 0) by (nonlinear_arith) requires carrier == 0;
        let empty = Mod { scalar, carrier: 0, act: Seq::empty() };
        assert(on[0] == empty);
        assert forall|m: Mod| #[trigger] on.contains(m) <==> m.wf() && m.scalar == scalar && m.carrier == carrier by {
            if m.wf() && m.scalar == scalar && m.carrier == carrier {
                assert(m.act =~= Seq::<int>::empty());
                assert(on[0] == m);
            }
        }
    } else {
        let ts = crate::theory::limits::counted(n, carrier);
        crate::theory::limits::law_counted(n, carrier);
        crate::slice::lemma_filter_members(act_tables(scalar, carrier), |m: Mod| m.wf());
        assert forall|m: Mod| m.wf() && m.scalar == scalar && m.carrier == carrier implies #[trigger] on.contains(m) by {
            assert(crate::theory::limits::is_table(m.act, n as int, carrier));
            assert(ts.contains(m.act));
            let k = choose|k: int| 0 <= k < ts.len() && ts[k] == m.act;
            assert(act_tables(scalar, carrier)[k] == m);
        }
        assert forall|m: Mod| #[trigger] on.contains(m) implies m.wf() && m.scalar == scalar && m.carrier == carrier by {
            assert(act_tables(scalar, carrier).contains(m));
        }
    }
}

fn modules_at(scalar: &CMon, carrier: u32) -> (r: Vec<Module>)
    requires
        scalar.carrier * scalar.carrier <= u32::MAX,
        scalar.carrier * carrier <= u32::MAX,
    ensures
        crate::theory::listing::views(r@) == modules_on(scalar@, carrier as int),
{
    let mut out: Vec<Module> = Vec::new();
    if carrier == 0 {
        let m = Module { scalar: scalar.clone(), carrier: 0, act: Vec::new() };
        proof {
            crate::theory::listing::lemma_views_push(out@, m);
            assert(m@.act =~= Seq::<int>::empty());
        }
        out.push(m);
        assert(crate::theory::listing::views(out@) =~= modules_on(scalar@, 0));
        return out;
    }
    proof {
        assert(0 <= scalar.carrier * carrier) by (nonlinear_arith) requires scalar.carrier >= 0, carrier >= 0;
    }
    let tables = finset::counted_tables(scalar.carrier * carrier, carrier);
    let ghost all = act_tables(scalar@, carrier as int);
    let ghost keep = |m: Mod| m.wf();
    let mut k: usize = 0;
    proof {
        reveal(Seq::filter);
        assert(all.take(0).filter(keep) =~= Seq::<Mod>::empty());
        assert(crate::theory::listing::views(out@) =~= all.take(0).filter(keep));
    }
    while k < tables.len()
        invariant
            k <= tables.len(),
            scalar.carrier * scalar.carrier <= u32::MAX,
            scalar.carrier * carrier <= u32::MAX,
            all == act_tables(scalar@, carrier as int),
            keep == (|m: Mod| m.wf()),
            finset::tables_are(
                tables@,
                crate::theory::limits::counted((scalar.carrier * carrier) as nat, carrier as int),
            ),
            all.len() == tables@.len(),
            crate::theory::listing::views(out@) == all.take(k as int).filter(keep),
        decreases tables.len() - k,
    {
        let act = tables[k].clone();
        assert(act@ =~= tables@[k as int]@);
        let m = Module { scalar: scalar.clone(), carrier, act };
        proof {
            assert(m@ =~= all[k as int]);
            crate::span::lemma_filter_step(all, k as int, keep);
            crate::theory::listing::lemma_views_push(out@, m);
        }
        if m.check() {
            out.push(m);
        }
        k = k + 1;
    }
    assert(all.take(k as int) =~= all);
    out
}

/// The modules over `scalar` with at most `max_carrier` elements, by
/// cardinality, then action table in counting order.
pub fn modules_over(scalar: &CMon, max_carrier: u32) -> (r: Vec<Module>)
    requires
        scalar.carrier * scalar.carrier <= u32::MAX,
        scalar.carrier * max_carrier <= u32::MAX,
        max_carrier < u32::MAX,
    ensures
        crate::theory::listing::views(r@) == all_modules(scalar@, max_carrier as int),
        scalar.wf() ==> forall|k: int|
            0 <= k < r@.len() ==> (#[trigger] r@[k]).wf() && r@[k].scalar@ == scalar@ && r@[k].carrier <= max_carrier,
{
    let ghost f = |carrier: int| modules_on(scalar@, carrier);
    let mut out: Vec<Module> = Vec::new();
    let mut carrier: u32 = 0;
    assert(crate::theory::listing::views(out@) =~= crate::theory::listing::cat(0, f));
    while carrier <= max_carrier
        invariant
            carrier <= max_carrier + 1,
            max_carrier < u32::MAX,
            scalar.carrier * scalar.carrier <= u32::MAX,
            scalar.carrier * max_carrier <= u32::MAX,
            f == (|carrier: int| modules_on(scalar@, carrier)),
            crate::theory::listing::views(out@) == crate::theory::listing::cat(carrier as int, f),
        decreases max_carrier + 1 - carrier,
    {
        proof {
            assert(scalar.carrier * carrier <= scalar.carrier * max_carrier) by (nonlinear_arith)
                requires 0 <= carrier <= max_carrier, scalar.carrier >= 0;
        }
        let mut some = modules_at(scalar, carrier);
        proof {
            crate::theory::listing::lemma_views_add(out@, some@);
        }
        out.append(&mut some);
        carrier = carrier + 1;
    }
    proof {
        if scalar.wf() {
            law_modules(scalar@, max_carrier as int);
            assert forall|k: int| 0 <= k < out@.len() implies (#[trigger] out@[k]).wf() && out@[k].scalar@ == scalar@
                && out@[k].carrier <= max_carrier by {
                assert(crate::theory::listing::views(out@)[k] == out@[k]@);
                assert(all_modules(scalar@, max_carrier as int).contains(out@[k]@));
            }
        }
    }
    out
}

// ----- homomorphisms -----

/// Whether `f` is a homomorphism of monoids `dom → cod`.
pub fn is_monoid_hom(f: &Mor, dom: &CMon, cod: &CMon) -> (r: bool)
    requires
        f.wf(),
        dom.shaped(),
        cod.shaped(),
        dom.carrier * dom.carrier <= u32::MAX,
        cod.carrier * cod.carrier <= u32::MAX,
    ensures
        r == Mon::is_hom(f@, dom@, cod@),
{
    if f.dom != dom.carrier || f.cod != cod.carrier {
        return false;
    }
    if f.apply(dom.unit) != cod.unit {
        return false;
    }
    let mut i: u32 = 0;
    while i < dom.carrier
        invariant
            f.wf(),
            dom.shaped(),
            cod.shaped(),
            dom.carrier * dom.carrier <= u32::MAX,
            cod.carrier * cod.carrier <= u32::MAX,
            f.dom == dom.carrier,
            f.cod == cod.carrier,
            i <= dom.carrier,
            forall|a: int, b: int| 0 <= a < i && 0 <= b < dom.carrier ==> f@.map[#[trigger] dom@.m(a, b)] == cod@.m(
                f@.map[a],
                f@.map[b],
            ),
        decreases dom.carrier - i,
    {
        let mut j: u32 = 0;
        while j < dom.carrier
            invariant
                f.wf(),
                dom.shaped(),
                cod.shaped(),
                dom.carrier * dom.carrier <= u32::MAX,
                cod.carrier * cod.carrier <= u32::MAX,
                f.dom == dom.carrier,
                f.cod == cod.carrier,
                i < dom.carrier,
                j <= dom.carrier,
                forall|b: int| 0 <= b < j ==> f@.map[#[trigger] dom@.m(i as int, b)] == cod@.m(f@.map[i as int], f@.map[b]),
            decreases dom.carrier - j,
        {
            let ij: u32 = dom.times(i, j);
            if f.apply(ij) != cod.times(f.apply(i), f.apply(j)) {
                assert(dom@.has(i as int) && dom@.has(j as int));
                return false;
            }
            j = j + 1;
        }
        i = i + 1;
    }
    true
}

/// Whether `f` is a module homomorphism `x → y` over the same monoid.
pub fn is_module_hom(f: &Mor, x: &Module, y: &Module) -> (r: bool)
    requires
        f.wf(),
        x.shaped(),
        y.shaped(),
        tables_fit(x@),
        tables_fit(y@),
    ensures
        r == Mod::is_hom(f@, x@, y@),
{
    if !(x.scalar == y.scalar) || f.dom != x.carrier || f.cod != y.carrier {
        return false;
    }
    let mut s: u32 = 0;
    while s < x.scalar.carrier
        invariant
            f.wf(),
            x.shaped(),
            y.shaped(),
            tables_fit(x@),
            tables_fit(y@),
            x.scalar@ == y.scalar@,
            f.dom == x.carrier,
            f.cod == y.carrier,
            s <= x.scalar.carrier,
            forall|a: int, b: int| 0 <= a < s && 0 <= b < x.carrier ==> f@.map[#[trigger] x@.a(a, b)] == y@.a(a, f@.map[b]),
        decreases x.scalar.carrier - s,
    {
        assert(x.scalar@.carrier == y.scalar@.carrier);
        let mut e: u32 = 0;
        while e < x.carrier
            invariant
                f.wf(),
                x.shaped(),
                y.shaped(),
                tables_fit(x@),
                tables_fit(y@),
                x.scalar.carrier == y.scalar.carrier,
                f.dom == x.carrier,
                f.cod == y.carrier,
                s < x.scalar.carrier,
                e <= x.carrier,
                forall|b: int| 0 <= b < e ==> f@.map[#[trigger] x@.a(s as int, b)] == y@.a(s as int, f@.map[b]),
            decreases x.carrier - e,
        {
            let se: u32 = x.times(s, e);
            if f.apply(se) != y.times(s, f.apply(e)) {
                assert(x@.scalar.has(s as int) && x@.has(e as int));
                return false;
            }
            e = e + 1;
        }
        s = s + 1;
    }
    true
}

// ----- the tensor product -----

/// The product of the carriers, and its product with the scalars, fit in
/// machine words.
pub open spec fn tensor_fits(x: Mod, y: Mod) -> bool {
    &&& tables_fit(x)
    &&& tables_fit(y)
    &&& x.carrier * y.carrier <= u32::MAX
    &&& (x.carrier * y.carrier) * x.scalar.carrier <= u32::MAX
}

/// `X ⊗_B Y` and the quotient projection `X × Y → X ⊗_B Y`.
pub fn tensor(x: &Module, y: &Module) -> (r: (u32, Mor))
    requires
        x.shaped(),
        y.shaped(),
        x.scalar@ == y.scalar@,
        tensor_fits(x@, y@),
    ensures
        r.1@ == crate::theory::monoids::tensor_proj(x@, y@),
        r.0 == r.1.cod,
        r.1.wf(),
{
    let ghost want_left = crate::theory::monoids::bal_left(x@, y@);
    let ghost want_right = crate::theory::monoids::bal_right(x@, y@);
    proof {
        crate::theory::monoids::lemma_bal(x@, y@);
        crate::theory::monoids::lemma_tensor(x@, y@);
        assert(x.scalar@.carrier == y.scalar@.carrier);
        assert(0 <= x.carrier * y.carrier) by (nonlinear_arith) requires x.carrier >= 0, y.carrier >= 0;
        assert(0 <= (x.carrier * y.carrier) * x.scalar.carrier) by (nonlinear_arith)
            requires 0 <= x.carrier * y.carrier, x.scalar.carrier >= 0;
    }
    let prod = finset::product(x.carrier, y.carrier);
    let triple = finset::product(prod.obj, x.scalar.carrier);
    let mut left: Vec<u32> = Vec::new();
    let mut right: Vec<u32> = Vec::new();
    let mut k: u32 = 0;
    while k < triple.obj
        invariant
            k <= triple.obj,
            x.shaped(),
            y.shaped(),
            x.scalar.carrier == y.scalar.carrier,
            tensor_fits(x@, y@),
            prod@ == Prod::of(x.carrier as int, y.carrier as int),
            prod.obj == x.carrier * y.carrier,
            triple@ == Prod::of(prod.obj as int, x.scalar.carrier as int),
            triple.obj == prod.obj * x.scalar.carrier,
            want_left == crate::theory::monoids::bal_left(x@, y@),
            want_right == crate::theory::monoids::bal_right(x@, y@),
            left@.len() == k,
            right@.len() == k,
            forall|j: int| 0 <= j < k ==> left@[j] == want_left.map[j],
            forall|j: int| 0 <= j < k ==> right@[j] == want_right.map[j],
        decreases triple.obj - k,
    {
        proof {
            crate::theory::limits::lemma_unpair(prod.obj as int, x.scalar.carrier as int, k as int);
            crate::theory::limits::lemma_unpair(x.carrier as int, y.carrier as int, k as int / x.scalar.carrier as int);
        }
        let pair: u32 = triple.fst.apply(k);
        let b: u32 = triple.snd.apply(k);
        let xe: u32 = prod.fst.apply(pair);
        let ye: u32 = prod.snd.apply(pair);
        let bx: u32 = x.times(b, xe);
        let by: u32 = y.times(b, ye);
        proof {
            crate::theory::limits::lemma_pair_index(x.carrier as int, y.carrier as int, bx as int, ye as int);
            crate::theory::limits::lemma_pair_index(x.carrier as int, y.carrier as int, xe as int, by as int);
        }
        left.push(finset::pair_index(y.carrier, bx, ye));
        right.push(finset::pair_index(y.carrier, xe, by));
        k = k + 1;
    }
    let l = Mor { dom: triple.obj, cod: prod.obj, map: left };
    let r = Mor { dom: triple.obj, cod: prod.obj, map: right };
    proof {
        assert(l@ =~= want_left);
        assert(r@ =~= want_right);
    }
    let q = finset::coequalizer(&l, &r);
    (q.obj, q.proj)
}

} // verus!
