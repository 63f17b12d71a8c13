//! Closed dependent optics.
//!
//! For slices, `M ↦ M ×_B Y'` has right adjoint `Y' ⊲ –`, the dependent
//! function space. The fibre over `(a, b)` is the set of functions
//! `Y'_b → X'_a`. The coend of witnesses collapses to a single slice hom
//! `X → (Y' ⊲ X') ×_B Y`.
use vstd::prelude::*;
use crate::dlens;
use crate::dlens::DLens;
use crate::finset;
use crate::finset::Mor;
use crate::optic::Family;
use crate::slice::SliceMor;
use crate::slice::SliceObj;
use crate::theory::closed::CloLens;
use crate::theory::closed::Entry;
use crate::theory::closed::Expo;
use crate::theory::fun::Fun;
use crate::theory::slices::Over;
use crate::theory::optics::Fam;

verus! {

/// The dependent function space `Y' ⊲ X'`. An element is a pair `(a, b)` and a
/// table of a function from the fibre of `Y'` over `b` to the fibre of `X'` over `a`.
#[derive(Debug)]
pub struct Exponential {
    /// Base `A × B`, index `a * b_card + b`.
    pub obj: SliceObj,
    pub a_card: u32,
    pub b_card: u32,
    /// For each element of the total space, the function table on the ordered fibre of `Y'`.
    pub tables: Vec<Vec<u32>>,
    pub y_prime: SliceObj,
    pub x_prime: SliceObj,
}

impl View for Exponential {
    type V = Expo;

    open spec fn view(&self) -> Expo {
        Expo {
            obj: self.obj@,
            a_card: self.a_card as int,
            b_card: self.b_card as int,
            tables: Seq::new(self.tables@.len(), |e: int| crate::theory::fun::ints(self.tables@[e]@)),
            y_prime: self.y_prime@,
            x_prime: self.x_prime@,
        }
    }
}

impl Exponential {
    pub open spec fn wf(&self) -> bool {
        &&& self.y_prime.wf()
        &&& self.x_prime.wf()
        &&& self@ == Expo::of(self.y_prime@, self.x_prime@)
        &&& self.a_card * self.b_card <= u32::MAX
    }
}

/// The function space fits in machine words.
pub open spec fn expo_fits(y: Over, x: Over) -> bool {
    x.base * y.base <= u32::MAX && crate::theory::closed::entries(y, x).len() <= u32::MAX
}

/// The elements over `p`, in increasing order.
pub fn fiber(leg: &Mor, p: u32) -> (r: Vec<u32>)
    requires
        leg.wf(),
    ensures
        crate::theory::fun::ints(r@) == crate::theory::closed::fibre(leg@, p as int),
{
    let ghost k = Fun { dom: leg@.dom, cod: leg@.cod, map: Seq::new(leg@.dom as nat, |i: int| p as int) };
    let mut out: Vec<u32> = Vec::new();
    let mut i: u32 = 0;
    assert(crate::theory::fun::ints(out@) =~= crate::theory::limits::Eqz::upto(leg@, k, 0));
    while i < leg.dom
        invariant
            i <= leg.dom,
            leg.wf(),
            k == (Fun { dom: leg@.dom, cod: leg@.cod, map: Seq::new(leg@.dom as nat, |i: int| p as int) }),
            crate::theory::fun::ints(out@) == crate::theory::limits::Eqz::upto(leg@, k, i as int),
        decreases leg.dom - i,
    {
        if leg.apply(i) == p {
            out.push(i);
            assert(crate::theory::fun::ints(out@) =~= crate::theory::limits::Eqz::upto(leg@, k, i as int).push(i as int));
        }
        i = i + 1;
    }
    out
}

/// Where `y` stands in the list.
fn position(list: &Vec<u32>, y: u32) -> (r: usize)
    requires
        crate::theory::fun::ints(list@).contains(y as int),
        crate::theory::fun::ints(list@).no_duplicates(),
    ensures
        r < list@.len(),
        r == crate::theory::fun::ints(list@).index_of(y as int),
{
    let ghost s = crate::theory::fun::ints(list@);
    let ghost k = s.index_of(y as int);
    let mut i: usize = 0;
    while i < list.len() && list[i] != y
        invariant
            i <= list.len(),
            s == crate::theory::fun::ints(list@),
            0 <= k < s.len(),
            s[k] == y,
            forall|j: int| 0 <= j < i ==> s[j] != y,
        decreases list.len() - i,
    {
        i = i + 1;
    }
    assert(i <= k);
    assert(s[i as int] == y);
    i
}

/// The place of `y` in its own fibre.
fn place_of(leg: &Mor, y: u32) -> (r: usize)
    requires
        leg.wf(),
        y < leg.dom,
    ensures
        r == crate::theory::closed::place(leg@, y as int),
        r < crate::theory::closed::fibre(leg@, leg@.map[y as int]).len(),
{
    let b: u32 = leg.apply(y);
    let list = fiber(leg, b);
    proof {
        crate::theory::closed::lemma_fibre(leg@, b as int);
        crate::theory::closed::lemma_place(leg@, y as int);
        assert(crate::theory::closed::fibre(leg@, b as int).contains(y as int));
    }
    position(&list, y)
}

/// The legs of the listed entries.
pub open spec fn entry_legs(es: Seq<Entry>, b_card: int) -> Seq<int> {
    Seq::new(es.len(), |e: int| es[e].a * b_card + es[e].b)
}

pub open spec fn entry_tables(es: Seq<Entry>) -> Seq<Seq<int>> {
    Seq::new(es.len(), |e: int| es[e].table)
}

/// What has been listed so far: one leg and one table for each entry.
pub open spec fn listed(legs: Seq<u32>, tables: Seq<Vec<u32>>, es: Seq<Entry>, b_card: int) -> bool {
    &&& crate::theory::fun::ints(legs) == entry_legs(es, b_card)
    &&& finset::tables_are(tables, entry_tables(es))
}

/// Append the functions from the fibre over `b` to the fibre over `a`.
fn append_block(legs: &mut Vec<u32>, tables: &mut Vec<Vec<u32>>, y: &SliceObj, x: &SliceObj, a: u32, b: u32, done: Ghost<
    Seq<Entry>,
>)
    requires
        y.wf(),
        x.wf(),
        a < x.base,
        b < y.base,
        x.base * y.base <= u32::MAX,
        listed(old(legs)@, old(tables)@, done@, y.base as int),
    ensures
        listed(
            final(legs)@,
            final(tables)@,
            done@ + crate::theory::closed::block(y@, x@, a as int, b as int),
            y.base as int,
        ),
{
    let from = fiber(&y.leg, b);
    let to = fiber(&x.leg, a);
    let ghost bl = crate::theory::closed::block(y@, x@, a as int, b as int);
    proof {
        crate::theory::closed::lemma_fibre(y@.leg, b as int);
        crate::theory::closed::lemma_fibre(x@.leg, a as int);
        assert(crate::theory::fun::ints(from@).len() == from@.len());
        assert(crate::theory::fun::ints(to@).len() == to@.len());
        crate::theory::limits::law_counted(from@.len(), to@.len() as int);
        crate::theory::limits::lemma_pair_index(x.base as int, y.base as int, a as int, b as int);
    }
    let all = finset::counted_tables(from.len() as u32, to.len() as u32);
    let ghost ts = crate::theory::limits::counted(from@.len(), to@.len() as int);
    let leg: u32 = finset::pair_index(y.base, a, b);
    let mut k: usize = 0;
    assert(done@ + bl.take(0) =~= done@);
    while k < all.len()
        invariant
            k <= all.len(),
            bl == crate::theory::closed::block(y@, x@, a as int, b as int),
            ts == crate::theory::limits::counted(from@.len(), to@.len() as int),
            crate::theory::fun::ints(from@) == crate::theory::closed::fibre(y@.leg, b as int),
            crate::theory::fun::ints(to@) == crate::theory::closed::fibre(x@.leg, a as int),
            finset::tables_are(all@, ts),
            bl.len() == ts.len(),
            forall|i: int| 0 <= i < ts.len() ==> crate::theory::limits::is_table(
                #[trigger] ts[i],
                from@.len() as int,
                to@.len() as int,
            ),
            leg == a * y.base + b,
            listed(legs@, tables@, done@ + bl.take(k as int), y.base as int),
        decreases all.len() - k,
    {
        let cur: &Vec<u32> = &all[k];
        let mut t: Vec<u32> = Vec::new();
        let mut i: usize = 0;
        proof {
            assert(crate::theory::fun::ints(cur@) == ts[k as int]);
            assert(crate::theory::limits::is_table(ts[k as int], from@.len() as int, to@.len() as int));
            assert(crate::theory::fun::ints(cur@).len() == cur@.len());
        }
        while i < cur.len()
            invariant
                i <= cur.len(),
                crate::theory::fun::ints(cur@) == ts[k as int],
                crate::theory::limits::is_table(ts[k as int], from@.len() as int, to@.len() as int),
                crate::theory::fun::ints(to@) == crate::theory::closed::fibre(x@.leg, a as int),
                t@.len() == i,
                forall|j: int| 0 <= j < i ==> t@[j] == crate::theory::closed::fibre(x@.leg, a as int)[ts[k as int][j]],
            decreases cur.len() - i,
        {
            assert(0 <= ts[k as int][i as int] < to@.len());
            assert(crate::theory::fun::ints(cur@)[i as int] == cur@[i as int]);
            let v: u32 = to[cur[i] as usize];
            assert(crate::theory::fun::ints(to@)[ts[k as int][i as int]] == v);
            t.push(v);
            i = i + 1;
        }
        let ghost before = done@ + bl.take(k as int);
        let ghost after = done@ + bl.take(k + 1);
        let ghost old_legs = legs@;
        let ghost old_tables = tables@;
        let ghost table = t@;
        proof {
            assert(crate::theory::fun::ints(cur@).len() == from@.len());
            assert(crate::theory::fun::ints(t@) =~= bl[k as int].table);
            assert(after =~= before.push(bl[k as int]));
        }
        tables.push(t);
        legs.push(leg);
        proof {
            assert(crate::theory::fun::ints(legs@) =~= crate::theory::fun::ints(old_legs).push(leg as int));
            assert(entry_legs(after, y.base as int) =~= entry_legs(before, y.base as int).push(leg as int));
            assert(entry_tables(after) =~= entry_tables(before).push(bl[k as int].table));
            assert forall|j: int| 0 <= j < tables@.len() implies crate::theory::fun::ints((#[trigger] tables@[j])@)
                == entry_tables(after)[j] by {
                if j < old_tables.len() {
                    assert(tables@[j] == old_tables[j]);
                    assert(crate::theory::fun::ints(old_tables[j]@) == entry_tables(before)[j]);
                }
            }
        }
        k = k + 1;
    }
    assert(bl.take(k as int) =~= bl);
}

/// `Y' ⊲ X'`.
pub fn exponential(y_prime: &SliceObj, x_prime: &SliceObj) -> (r: Exponential)
    requires
        y_prime.wf(),
        x_prime.wf(),
        expo_fits(y_prime@, x_prime@),
    ensures
        r@ == Expo::of(y_prime@, x_prime@),
        r.wf(),
{
    let a_card: u32 = x_prime.base;
    let b_card: u32 = y_prime.base;
    let ghost y = y_prime@;
    let ghost x = x_prime@;
    let ghost fa = |a: int| crate::theory::closed::row(y, x, a);
    proof {
        assert(0 <= a_card * b_card) by (nonlinear_arith) requires a_card >= 0, b_card >= 0;
    }
    let base: u32 = finset::product(a_card, b_card).obj;
    let mut tables: Vec<Vec<u32>> = Vec::new();
    let mut legs: Vec<u32> = Vec::new();
    let mut a: u32 = 0;
    proof {
        let none = Seq::<Entry>::empty();
        assert(crate::theory::fun::ints(legs@) =~= entry_legs(none, b_card as int));
        assert(entry_tables(none) =~= Seq::<Seq<int>>::empty());
    }
    while a < a_card
        invariant
            a <= a_card,
            a_card == x_prime.base,
            b_card == y_prime.base,
            a_card * b_card <= u32::MAX,
            y_prime.wf(),
            x_prime.wf(),
            y == y_prime@,
            x == x_prime@,
            fa == (|a: int| crate::theory::closed::row(y, x, a)),
            listed(legs@, tables@, crate::theory::listing::cat(a as int, fa), b_card as int),
        decreases a_card - a,
    {
        let ghost fb = |b: int| crate::theory::closed::block(y, x, a as int, b);
        let ghost before = crate::theory::listing::cat(a as int, fa);
        let mut b: u32 = 0;
        assert(before + crate::theory::listing::cat(0, fb) =~= before);
        while b < b_card
            invariant
                b <= b_card,
                a < a_card,
                a_card == x_prime.base,
                b_card == y_prime.base,
                a_card * b_card <= u32::MAX,
                y_prime.wf(),
                x_prime.wf(),
                y == y_prime@,
                x == x_prime@,
                fb == (|b: int| crate::theory::closed::block(y, x, a as int, b)),
                listed(legs@, tables@, before + crate::theory::listing::cat(b as int, fb), b_card as int),
            decreases b_card - b,
        {
            let ghost done = before + crate::theory::listing::cat(b as int, fb);
            append_block(&mut legs, &mut tables, y_prime, x_prime, a, b, Ghost(done));
            proof {
                assert(done + fb(b as int) =~= before + crate::theory::listing::cat(b + 1, fb));
            }
            b = b + 1;
        }
        proof {
            assert(crate::theory::listing::cat(b_card as int, fb) == crate::theory::closed::row(y, x, a as int));
            assert(crate::theory::listing::cat(a + 1, fa) == before + fa(a as int));
        }
        a = a + 1;
    }
    proof {
        assert(crate::theory::fun::ints(legs@).len() == legs@.len());
    }
    let total: u32 = tables.len() as u32;
    let r = Exponential {
        obj: SliceObj { base, total, leg: Mor { dom: total, cod: base, map: legs } },
        a_card,
        b_card,
        tables,
        y_prime: y_prime.clone(),
        x_prime: x_prime.clone(),
    };
    proof {
        let es = crate::theory::closed::entries(y, x);
        let want = Expo::of(y, x);
        assert(r@.obj.leg =~= want.obj.leg);
        assert forall|e: int| 0 <= e < es.len() implies r@.tables[e] == want.tables[e] by {
            assert(crate::theory::fun::ints(r.tables@[e]@) == entry_tables(es)[e]);
        }
        assert(r@.tables =~= want.tables);
    }
    r
}

/// The component in `A` of each function.
fn over_a(exp: &Exponential) -> (r: Mor)
    requires
        exp.wf(),
    ensures
        r@ == crate::theory::closed::to_a(exp.y_prime@, exp.x_prime@),
        r.wf(),
{
    let ghost es = crate::theory::closed::entries(exp.y_prime@, exp.x_prime@);
    proof {
        crate::theory::closed::lemma_expo(exp.y_prime@, exp.x_prime@);
    }
    let mut map: Vec<u32> = Vec::new();
    let mut e: u32 = 0;
    while e < exp.obj.total
        invariant
            e <= exp.obj.total,
            exp.wf(),
            exp@.obj.wf(),
            es == crate::theory::closed::entries(exp.y_prime@, exp.x_prime@),
            es.len() == exp.obj.total,
            forall|j: int| 0 <= j < es.len() ==> crate::theory::closed::is_entry(
                exp.y_prime@,
                exp.x_prime@,
                #[trigger] es[j],
            ),
            map@.len() == e,
            forall|j: int| 0 <= j < e ==> map@[j] == es[j].a,
        decreases exp.obj.total - e,
    {
        proof {
            assert(crate::theory::closed::is_entry(exp.y_prime@, exp.x_prime@, es[e as int]));
            crate::theory::limits::lemma_pair_index(
                exp.a_card as int,
                exp.b_card as int,
                es[e as int].a,
                es[e as int].b,
            );
            assert(exp@.obj.leg.map[e as int] == es[e as int].a * exp.b_card + es[e as int].b);
        }
        let ab: u32 = exp.obj.leg.apply(e);
        map.push(ab / exp.b_card);
        e = e + 1;
    }
    let r = Mor { dom: exp.obj.total, cod: exp.a_card, map };
    assert(r@ =~= crate::theory::closed::to_a(exp.y_prime@, exp.x_prime@));
    r
}

/// The component in `B` of each function.
fn over_b(exp: &Exponential) -> (r: Mor)
    requires
        exp.wf(),
    ensures
        r@ == crate::theory::closed::to_b(exp.y_prime@, exp.x_prime@),
        r.wf(),
{
    let ghost es = crate::theory::closed::entries(exp.y_prime@, exp.x_prime@);
    proof {
        crate::theory::closed::lemma_expo(exp.y_prime@, exp.x_prime@);
    }
    let mut map: Vec<u32> = Vec::new();
    let mut e: u32 = 0;
    while e < exp.obj.total
        invariant
            e <= exp.obj.total,
            exp.wf(),
            exp@.obj.wf(),
            es == crate::theory::closed::entries(exp.y_prime@, exp.x_prime@),
            es.len() == exp.obj.total,
            forall|j: int| 0 <= j < es.len() ==> crate::theory::closed::is_entry(
                exp.y_prime@,
                exp.x_prime@,
                #[trigger] es[j],
            ),
            map@.len() == e,
            forall|j: int| 0 <= j < e ==> map@[j] == es[j].b,
        decreases exp.obj.total - e,
    {
        proof {
            assert(crate::theory::closed::is_entry(exp.y_prime@, exp.x_prime@, es[e as int]));
            crate::theory::limits::lemma_pair_index(
                exp.a_card as int,
                exp.b_card as int,
                es[e as int].a,
                es[e as int].b,
            );
            assert(exp@.obj.leg.map[e as int] == es[e as int].a * exp.b_card + es[e as int].b);
        }
        let ab: u32 = exp.obj.leg.apply(e);
        map.push(ab % exp.b_card);
        e = e + 1;
    }
    let r = Mor { dom: exp.obj.total, cod: exp.b_card, map };
    assert(r@ =~= crate::theory::closed::to_b(exp.y_prime@, exp.x_prime@));
    r
}

/// The value of function `e` at place `pos`.
fn value_at(exp: &Exponential, e: u32, pos: usize) -> (r: u32)
    requires
        exp.wf(),
        e < exp.obj.total,
        pos < crate::theory::closed::entries(exp.y_prime@, exp.x_prime@)[e as int].table.len(),
    ensures
        r == crate::theory::closed::entries(exp.y_prime@, exp.x_prime@)[e as int].table[pos as int],
{
    let ghost es = crate::theory::closed::entries(exp.y_prime@, exp.x_prime@);
    proof {
        assert(exp@.tables.len() == es.len());
        assert(exp@.tables[e as int] == es[e as int].table);
        assert(crate::theory::fun::ints(exp.tables@[e as int]@) == es[e as int].table);
        assert(crate::theory::fun::ints(exp.tables@[e as int]@).len() == exp.tables@[e as int]@.len());
    }
    exp.tables[e as usize][pos]
}

/// Evaluation `(Y' ⊲ X') ×_B Y' → X'`.
pub fn counit(exp: &Exponential) -> (r: SliceMor)
    requires
        exp.wf(),
        crate::theory::closed::ev_pull(exp.y_prime@, exp.x_prime@).apex <= u32::MAX,
    ensures
        r@ == crate::theory::closed::ev(exp.y_prime@, exp.x_prime@),
        r.wf(),
{
    let ghost y = exp.y_prime@;
    let ghost x = exp.x_prime@;
    let ghost es = crate::theory::closed::entries(y, x);
    let ghost want = crate::theory::closed::ev(y, x);
    proof {
        crate::theory::closed::law_ev(y, x);
        crate::theory::closed::lemma_expo(y, x);
        crate::theory::limits::lemma_pull(crate::theory::closed::to_b(y, x), y.leg);
    }
    let to_a = over_a(exp);
    let to_b = over_b(exp);
    let pb = finset::pullback(&to_b, &exp.y_prime.leg);
    let mut map: Vec<u32> = Vec::new();
    let mut k: u32 = 0;
    while k < pb.apex
        invariant
            k <= pb.apex,
            exp.wf(),
            y == exp.y_prime@,
            x == exp.x_prime@,
            es == crate::theory::closed::entries(y, x),
            want == crate::theory::closed::ev(y, x),
            pb@ == crate::theory::closed::ev_pull(y, x),
            map@.len() == k,
            forall|j: int| 0 <= j < k ==> map@[j] == want.map.map[j],
        decreases pb.apex - k,
    {
        proof {
            crate::theory::closed::lemma_expo(y, x);
            crate::theory::limits::lemma_pull(crate::theory::closed::to_b(y, x), y.leg);
        }
        let e: u32 = pb.to_left.apply(k);
        let v: u32 = pb.to_right.apply(k);
        proof {
            assert(pb@.to_left.map[k as int] == e && pb@.to_right.map[k as int] == v);
            assert(crate::theory::closed::to_b(y, x).map[e as int] == es[e as int].b);
            assert(crate::theory::closed::is_entry(y, x, es[e as int]));
        }
        let pos: usize = place_of(&exp.y_prime.leg, v);
        map.push(value_at(exp, e, pos));
        k = k + 1;
    }
    let r = SliceMor {
        dom: SliceObj { base: exp.x_prime.base, total: pb.apex, leg: finset::compose(&to_a, &pb.to_left) },
        cod: exp.x_prime.clone(),
        map: Mor { dom: pb.apex, cod: exp.x_prime.total, map },
    };
    assert(r@ =~= want);
    r
}

/// A closed dependent lens is a slice map `X → (Y' ⊲ X') ×_B Y` over `A`.
#[derive(Eq, Debug)]
pub struct Closed {
    pub dom: Family,
    pub cod: Family,
    pub map: SliceMor,
}

impl View for Closed {
    type V = CloLens;

    open spec fn view(&self) -> CloLens {
        CloLens { dom: self.dom@, cod: self.cod@, map: self.map@ }
    }
}

impl Clone for Closed {
    fn clone(&self) -> (r: Closed)
        ensures
            r@ == self@,
    {
        Closed { dom: self.dom.clone(), cod: self.cod.clone(), map: self.map.clone() }
    }
}

impl PartialEq for Closed {
    fn eq(&self, other: &Closed) -> (r: bool) {
        self.dom == other.dom && self.cod == other.cod && self.map == other.map
    }
}

impl vstd::std_specs::cmp::PartialEqSpecImpl for Closed {
    open spec fn obeys_eq_spec() -> bool {
        true
    }

    open spec fn eq_spec(&self, other: &Closed) -> bool {
        self@ == other@
    }
}

impl Closed {
    pub open spec fn wf(&self) -> bool {
        self@.wf()
    }
}

/// The function space and its product with `Y` fit in machine words.
pub open spec fn closed_fits(dom: Fam, cod: Fam) -> bool {
    &&& expo_fits(cod.backward, dom.backward)
    &&& crate::theory::closed::clo_pull(dom, cod).apex <= u32::MAX
}

/// `(Y' ⊲ X') ×_B Y`, over `A` and as a pullback.
fn closed_codomain(exp: &Exponential, dom: &Family, cod: &Family) -> (r: (SliceObj, finset::Pullback))
    requires
        dom.wf(),
        cod.wf(),
        exp.wf(),
        exp.y_prime@ == cod@.backward,
        exp.x_prime@ == dom@.backward,
        closed_fits(dom@, cod@),
    ensures
        r.0@ == crate::theory::closed::clo_codomain(dom@, cod@),
        r.1@ == crate::theory::closed::clo_pull(dom@, cod@),
        r.1.pairs@.len() <= u32::MAX,
        r.0.wf(),
{
    proof {
        crate::theory::closed::lemma_clo_codomain(dom@, cod@);
        crate::theory::closed::lemma_expo(cod@.backward, dom@.backward);
        crate::theory::limits::lemma_pull(
            crate::theory::closed::to_b(cod@.backward, dom@.backward),
            cod@.forward.leg,
        );
    }
    let to_a = over_a(exp);
    let to_b = over_b(exp);
    let pb = finset::pullback(&to_b, &cod.forward.leg);
    proof {
        assert(finset::int_pairs(pb.pairs@).len() == pb.pairs@.len());
    }
    let obj = SliceObj { base: dom.forward.base, total: pb.apex, leg: finset::compose(&to_a, &pb.to_left) };
    (obj, pb)
}

/// The function that the put is at `x`, as a table on the fibre of `Y'` over
/// the base point of the focus.
fn put_table(lens: &DLens, put_pb: &finset::Pullback, x: u32, b: u32) -> (r: Vec<u32>)
    requires
        lens.wf(),
        put_pb@ == lens@.pb(),
        put_pb.pairs@.len() <= u32::MAX,
        x < lens.dom.forward.total,
        b == lens@.cod.forward.leg.map[lens@.get.map[x as int]],
    ensures
        crate::theory::fun::ints(r@) == CloLens::put_entry(lens@, x as int).table,
{
    let list = fiber(&lens.cod.backward.leg, b);
    let ghost leg = lens@.cod.backward.leg;
    proof {
        crate::theory::closed::lemma_fibre(leg, b as int);
        assert(crate::theory::fun::ints(list@).len() == list@.len());
    }
    let mut table: Vec<u32> = Vec::new();
    let mut i: usize = 0;
    while i < list.len()
        invariant
            i <= list.len(),
            lens.wf(),
            put_pb@ == lens@.pb(),
            put_pb.pairs@.len() <= u32::MAX,
            x < lens.dom.forward.total,
            b == lens@.cod.forward.leg.map[lens@.get.map[x as int]],
            leg == lens@.cod.backward.leg,
            crate::theory::fun::ints(list@) == crate::theory::closed::fibre(leg, b as int),
            table@.len() == i,
            forall|j: int| 0 <= j < i ==> table@[j] == lens@.put_at(x as int, crate::theory::closed::fibre(leg, b as int)[j]),
        decreases list.len() - i,
    {
        let v: u32 = list[i];
        proof {
            crate::theory::closed::lemma_fibre(leg, b as int);
            assert(crate::theory::fun::ints(list@)[i as int] == v);
        }
        table.push(dlens::put_apply(lens, put_pb, x, v));
        i = i + 1;
    }
    assert(crate::theory::fun::ints(table@) =~= CloLens::put_entry(lens@, x as int).table);
    table
}

/// The element of the function space with the given components and table.
fn find_function(exp: &Exponential, to_a: &Mor, to_b: &Mor, a: u32, b: u32, table: &Vec<u32>) -> (r: u32)
    requires
        exp.wf(),
        to_a.wf(),
        to_b.wf(),
        to_a@ == crate::theory::closed::to_a(exp.y_prime@, exp.x_prime@),
        to_b@ == crate::theory::closed::to_b(exp.y_prime@, exp.x_prime@),
        crate::theory::closed::is_entry(
            exp.y_prime@,
            exp.x_prime@,
            (Entry { a: a as int, b: b as int, table: crate::theory::fun::ints(table@) }),
        ),
    ensures
        r < exp.obj.total,
        r == crate::theory::closed::at(
            exp.y_prime@,
            exp.x_prime@,
            (Entry { a: a as int, b: b as int, table: crate::theory::fun::ints(table@) }),
        ),
{
    let ghost want = Entry { a: a as int, b: b as int, table: crate::theory::fun::ints(table@) };
    let ghost es = crate::theory::closed::entries(exp.y_prime@, exp.x_prime@);
    let ghost k = crate::theory::closed::at(exp.y_prime@, exp.x_prime@, want);
    proof {
        crate::theory::closed::lemma_expo(exp.y_prime@, exp.x_prime@);
    }
    let mut e: u32 = 0;
    while e < exp.obj.total
        invariant
            e <= exp.obj.total,
            exp.wf(),
            to_a.wf(),
            to_b.wf(),
            to_a@ == crate::theory::closed::to_a(exp.y_prime@, exp.x_prime@),
            to_b@ == crate::theory::closed::to_b(exp.y_prime@, exp.x_prime@),
            es == crate::theory::closed::entries(exp.y_prime@, exp.x_prime@),
            want == (Entry { a: a as int, b: b as int, table: crate::theory::fun::ints(table@) }),
            k == crate::theory::closed::at(exp.y_prime@, exp.x_prime@, want),
            e <= k < es.len(),
            es[k] == want,
            forall|j: int| 0 <= j < es.len() ==> crate::theory::closed::at(exp.y_prime@, exp.x_prime@, #[trigger] es[j]) == j,
        decreases exp.obj.total - e,
    {
        proof {
            assert(exp@.tables.len() == es.len());
            assert(exp@.tables[e as int] == es[e as int].table);
            assert(crate::theory::fun::ints(exp.tables@[e as int]@) == es[e as int].table);
        }
        if to_a.apply(e) == a && to_b.apply(e) == b && finset::same_words(&exp.tables[e as usize], table) {
            proof {
                assert(es[e as int] =~= want);
            }
            return e;
        }
        proof {
            if e == k {
                let s = exp.tables@[e as int]@;
                assert(crate::theory::fun::ints(s) == crate::theory::fun::ints(table@));
                assert(s.len() == crate::theory::fun::ints(s).len());
                assert(table@.len() == crate::theory::fun::ints(table@).len());
                assert forall|i: int| 0 <= i < s.len() implies s[i] == table@[i] by {
                    assert(crate::theory::fun::ints(s)[i] == s[i]);
                    assert(crate::theory::fun::ints(table@)[i] == table@[i]);
                }
                assert(s =~= table@);
            }
        }
        e = e + 1;
    }
    0
}

/// Send a dependent lens to the slice map that packages its get and its put.
pub fn from_lens(lens: &DLens) -> (r: Closed)
    requires
        lens.wf(),
        closed_fits(lens@.dom, lens@.cod),
    ensures
        r@ == CloLens::from(lens@),
        r.wf(),
{
    let ghost y = lens@.cod.backward;
    let ghost xp = lens@.dom.backward;
    let ghost want = CloLens::from(lens@);
    proof {
        crate::theory::closed::lemma_from(lens@);
        crate::theory::optics::lemma_lens(lens@);
        assert(lens.put.dom@.total == lens@.pb().apex);
    }
    let exp = exponential(&lens.cod.backward, &lens.dom.backward);
    let codomain = closed_codomain(&exp, &lens.dom, &lens.cod);
    let pb = codomain.1;
    let to_a = over_a(&exp);
    let to_b = over_b(&exp);
    let put_pb = dlens::put_domain(&lens.dom, &lens.cod, &lens.get).1;
    let mut map: Vec<u32> = Vec::new();
    let mut x: u32 = 0;
    while x < lens.dom.forward.total
        invariant
            x <= lens.dom.forward.total,
            lens.wf(),
            y == lens@.cod.backward,
            xp == lens@.dom.backward,
            want == CloLens::from(lens@),
            exp.wf(),
            exp.y_prime@ == y,
            exp.x_prime@ == xp,
            to_a.wf(),
            to_b.wf(),
            to_a@ == crate::theory::closed::to_a(y, xp),
            to_b@ == crate::theory::closed::to_b(y, xp),
            pb@ == crate::theory::closed::clo_pull(lens@.dom, lens@.cod),
            pb.pairs@.len() <= u32::MAX,
            put_pb@ == lens@.pb(),
            put_pb.pairs@.len() <= u32::MAX,
            map@.len() == x,
            forall|j: int| 0 <= j < x ==> map@[j] == want.map.map.map[j],
        decreases lens.dom.forward.total - x,
    {
        let v: u32 = lens.get.apply(x);
        let b: u32 = lens.cod.forward.leg.apply(v);
        let a: u32 = lens.dom.forward.leg.apply(x);
        let table = put_table(lens, &put_pb, x, b);
        proof {
            crate::theory::closed::lemma_from(lens@);
            let e = CloLens::put_entry(lens@, x as int);
            assert(e == (Entry { a: a as int, b: b as int, table: crate::theory::fun::ints(table@) }));
        }
        let e: u32 = find_function(&exp, &to_a, &to_b, a, b, &table);
        proof {
            crate::theory::limits::lemma_pull(to_b@, lens@.cod.forward.leg);
            let i = pb@.ix(e as int, v as int);
            assert(pb@.to_left.map[i] == e);
        }
        map.push(finset::pair_position(&pb, e, v));
        x = x + 1;
    }
    let r = Closed {
        dom: lens.dom.clone(),
        cod: lens.cod.clone(),
        map: SliceMor {
            dom: lens.dom.forward.clone(),
            cod: codomain.0,
            map: Mor { dom: lens.dom.forward.total, cod: pb.apex, map },
        },
    };
    assert(r@.map.map =~= want.map.map);
    r
}

/// The lens whose get and put a closed lens packages.
pub fn to_lens(closed: &Closed) -> (r: DLens)
    requires
        closed.wf(),
        closed_fits(closed@.dom, closed@.cod),
        closed@.lens().pb().apex <= u32::MAX,
    ensures
        r@ == closed@.lens(),
        r.wf(),
{
    let ghost c = closed@;
    let ghost y = c.cod.backward;
    let ghost xp = c.dom.backward;
    let ghost want = c.lens();
    let ghost es = crate::theory::closed::entries(y, xp);
    proof {
        crate::theory::closed::lemma_clo_lens(c);
        crate::theory::optics::lemma_lens(want);
    }
    let exp = exponential(&closed.cod.backward, &closed.dom.backward);
    let pb = closed_codomain(&exp, &closed.dom, &closed.cod).1;
    proof {
        crate::theory::closed::lemma_clo_codomain(c.dom, c.cod);
    }
    let get = finset::compose(&pb.to_right, &closed.map.map);
    let domain = dlens::put_domain(&closed.dom, &closed.cod, &get);
    let put_pb = domain.1;
    let mut map: Vec<u32> = Vec::new();
    let mut k: u32 = 0;
    while k < put_pb.apex
        invariant
            k <= put_pb.apex,
            closed.wf(),
            c == closed@,
            y == c.cod.backward,
            xp == c.dom.backward,
            want == c.lens(),
            want.wf(),
            es == crate::theory::closed::entries(y, xp),
            exp.wf(),
            exp.y_prime@ == y,
            exp.x_prime@ == xp,
            pb@ == crate::theory::closed::clo_pull(c.dom, c.cod),
            put_pb@ == want.pb(),
            map@.len() == k,
            forall|j: int| 0 <= j < k ==> map@[j] == want.put.map.map[j],
        decreases put_pb.apex - k,
    {
        proof {
            crate::theory::closed::lemma_clo_lens(c);
            crate::theory::closed::lemma_clo_codomain(c.dom, c.cod);
            crate::theory::optics::lemma_lens(want);
        }
        let x: u32 = put_pb.to_left.apply(k);
        let v: u32 = put_pb.to_right.apply(k);
        proof {
            assert(want.pb().to_left.map[k as int] == x && want.pb().to_right.map[k as int] == v);
            assert(crate::theory::optics::fits_put(c.dom, c.cod, c.get(), x as int, v as int));
            assert(want.put_at(x as int, v as int) == want.put.map.map[k as int]);
        }
        let j: u32 = closed.map.map.apply(x);
        let e: u32 = pb.to_left.apply(j);
        assert(c.entry(x as int) == es[e as int]);
        let pos: usize = place_of(&closed.cod.backward.leg, v);
        map.push(value_at(&exp, e, pos));
        k = k + 1;
    }
    let put_map = Mor { dom: put_pb.apex, cod: closed.dom.backward.total, map };
    assert(put_map@ =~= want.put.map);
    DLens {
        dom: closed.dom.clone(),
        cod: closed.cod.clone(),
        get,
        put: SliceMor { dom: domain.0, cod: closed.dom.backward.clone(), map: put_map },
    }
}

} // verus!
