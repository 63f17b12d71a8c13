//! The mathematical model of finite functions.
//!
//! A [`Fun`] is a function between the finite sets `0..dom` and `0..cod`.
//! Every construction of the library is described by what it does to such
//! functions: composition, the chosen limits and colimits, and the maps that
//! mediate into or out of them.
use vstd::prelude::*;

verus! {

/// A function `0..dom → 0..cod`, as the sequence of its values.
#[verifier::ext_equal]
pub struct Fun {
    pub dom: int,
    pub cod: int,
    pub map: Seq<int>,
}

/// The values of a table of machine words.
pub open spec fn ints(s: Seq<u32>) -> Seq<int> {
    Seq::new(s.len(), |i: int| s[i] as int)
}

/// A cardinality that a machine word can hold.
pub open spec fn fits(n: int) -> bool {
    0 <= n <= u32::MAX
}

/// Multiplication that stops at the largest machine word.
pub open spec fn sat_mul(a: int, b: int) -> int {
    if a * b > u32::MAX {
        u32::MAX as int
    } else {
        a * b
    }
}

impl Fun {
    /// The table has one entry per element of the domain, each in the codomain.
    pub open spec fn wf(self) -> bool {
        &&& self.dom >= 0
        &&& self.cod >= 0
        &&& self.map.len() == self.dom
        &&& forall|i: int| 0 <= i < self.dom ==> 0 <= #[trigger] self.map[i] < self.cod
    }

    /// A well-formed function with the given ends.
    pub open spec fn hom(self, dom: int, cod: int) -> bool {
        self.wf() && self.dom == dom && self.cod == cod
    }

    pub open spec fn id(n: int) -> Fun {
        Fun { dom: n, cod: n, map: Seq::new(n as nat, |i: int| i) }
    }

    /// `self ∘ f`.
    pub open spec fn o(self, f: Fun) -> Fun {
        Fun { dom: f.dom, cod: self.cod, map: Seq::new(f.map.len(), |i: int| self.map[f.map[i]]) }
    }

    pub open spec fn injective(self) -> bool {
        forall|i: int, j: int|
            0 <= i < self.dom && 0 <= j < self.dom && #[trigger] self.map[i] == #[trigger] self.map[j]
                ==> i == j
    }

    /// Every element of the codomain is a value.
    pub open spec fn onto(self) -> bool {
        forall|c: int| 0 <= c < self.cod ==> #[trigger] self.hits(c, self.pre(c))
    }

    pub open spec fn hits(self, c: int, i: int) -> bool {
        0 <= i < self.dom && self.map[i] == c
    }

    /// Some element that the function sends to `c`.
    pub open spec fn pre(self, c: int) -> int {
        choose|i: int| self.hits(c, i)
    }

    /// A bijection between sets of the same cardinality.
    pub open spec fn iso(self) -> bool {
        self.dom == self.cod && self.injective()
    }

    /// The function that sends a value back to an element it comes from.
    pub open spec fn inv(self) -> Fun {
        Fun { dom: self.cod, cod: self.dom, map: Seq::new(self.cod as nat, |c: int| self.pre(c)) }
    }

    /// The constant function to the one-element set.
    pub open spec fn bang(n: int) -> Fun {
        Fun { dom: n, cod: 1, map: Seq::new(n as nat, |i: int| 0) }
    }

    /// `h` is constant on the fibres of this function.
    pub open spec fn kernel_of(self, h: Fun) -> bool {
        forall|i: int, j: int|
            0 <= i < self.dom && 0 <= j < self.dom && #[trigger] self.map[i] == #[trigger] self.map[j]
                ==> h.map[i] == h.map[j]
    }

    /// The function `u` with `u ∘ self = h`, when this function is onto and
    /// `h` is constant on its fibres.
    pub open spec fn desc(self, h: Fun) -> Fun {
        Fun { dom: self.cod, cod: h.cod, map: Seq::new(self.cod as nat, |c: int| h.map[self.pre(c)]) }
    }
}

// ----- categories -----

/// Identities are neutral for composition.
pub proof fn law_identity(f: Fun)
    requires
        f.wf(),
    ensures
        f.o(Fun::id(f.dom)) == f,
        Fun::id(f.cod).o(f) == f,
        Fun::id(f.dom).wf(),
{
}

/// Composition is associative.
pub proof fn law_associative(h: Fun, g: Fun, f: Fun)
    requires
        f.wf(),
        g.wf(),
        h.wf(),
        f.cod == g.dom,
        g.cod == h.dom,
    ensures
        h.o(g.o(f)) == h.o(g).o(f),
        g.o(f).hom(f.dom, g.cod),
{
}

/// A function that is injective between sets of one cardinality is onto, and
/// its inverse undoes it on both sides.
pub proof fn law_inverse(f: Fun)
    requires
        f.wf(),
        f.iso(),
    ensures
        f.onto(),
        f.inv().hom(f.cod, f.dom),
        f.inv().iso(),
        f.inv().o(f) == Fun::id(f.dom),
        f.o(f.inv()) == Fun::id(f.cod),
{
    lemma_pigeon(f);
    assert forall|c: int| 0 <= c < f.cod implies #[trigger] f.hits(c, f.pre(c)) by {
        let i = choose|i: int| f.hits(c, i);
        assert(f.map.contains(c));
        let k = choose|k: int| 0 <= k < f.map.len() && f.map[k] == c;
        assert(f.hits(c, k));
    }
    let g = f.inv();
    assert forall|c: int| 0 <= c < g.dom implies 0 <= #[trigger] g.map[c] < g.cod && f.map[g.map[c]] == c by {
        assert(f.hits(c, f.pre(c)));
    }
    assert forall|i: int| 0 <= i < f.dom implies g.map[#[trigger] f.map[i]] == i by {
        let c = f.map[i];
        assert(f.hits(c, f.pre(c)));
    }
    assert(g.injective()) by {
        assert forall|i: int, j: int| 0 <= i < g.dom && 0 <= j < g.dom && #[trigger] g.map[i] == #[trigger] g.map[j]
            implies i == j by {
            assert(f.map[g.map[i]] == i);
            assert(f.map[g.map[j]] == j);
        }
    }
    assert(g.o(f) =~= Fun::id(f.dom));
    assert(f.o(g) =~= Fun::id(f.cod));
}

/// A function with a two-sided inverse is a bijection.
pub proof fn lemma_two_sided(f: Fun, g: Fun)
    requires
        f.wf(),
        g.wf(),
        g.dom == f.cod,
        g.cod == f.dom,
        g.o(f) == Fun::id(f.dom),
        f.o(g) == Fun::id(f.cod),
    ensures
        f.iso(),
        g.iso(),
        f.inv() == g,
{
    assert forall|i: int| 0 <= i < f.dom implies g.map[#[trigger] f.map[i]] == i by {
        assert(g.o(f).map[i] == g.map[f.map[i]]);
        assert(Fun::id(f.dom).map[i] == i);
    }
    assert forall|i: int| 0 <= i < g.dom implies f.map[#[trigger] g.map[i]] == i by {
        assert(f.o(g).map[i] == f.map[g.map[i]]);
        assert(Fun::id(f.cod).map[i] == i);
    }
    assert(f.injective());
    assert(g.injective());
    lemma_inj_le(f);
    lemma_inj_le(g);
    law_inverse(f);
    assert(f.inv() =~= g) by {
        assert forall|c: int| 0 <= c < f.cod implies f.inv().map[c] == #[trigger] g.map[c] by {
            assert(f.hits(c, f.pre(c)));
        }
    }
}

/// The numbers below `n`.
pub open spec fn below(n: int) -> Set<int> {
    vstd::set_lib::set_int_range(0, n)
}

/// An injective function needs a codomain at least as large as its domain.
pub proof fn lemma_inj_le(f: Fun)
    requires
        f.wf(),
        f.injective(),
    ensures
        f.dom <= f.cod,
        f.map.to_set().len() == f.dom,
        f.map.to_set().subset_of(below(f.cod)),
{
    assert(f.map.no_duplicates());
    f.map.unique_seq_to_set();
    vstd::set_lib::lemma_int_range(0, f.cod);
    assert(f.map.to_set().subset_of(below(f.cod)));
    vstd::set_lib::lemma_len_subset(f.map.to_set(), below(f.cod));
}

/// A function that is injective and onto is a bijection.
pub proof fn lemma_bijective(f: Fun)
    requires
        f.wf(),
        f.injective(),
        f.onto(),
    ensures
        f.iso(),
{
    let g = f.inv();
    assert forall|c: int| 0 <= c < g.dom implies 0 <= #[trigger] g.map[c] < g.cod && f.map[g.map[c]] == c by {
        assert(f.hits(c, f.pre(c)));
    }
    lemma_inj_le(f);
    lemma_inj_le(g);
}

proof fn lemma_pigeon(f: Fun)
    requires
        f.wf(),
        f.iso(),
    ensures
        forall|c: int| 0 <= c < f.cod ==> #[trigger] f.map.contains(c),
{
    lemma_inj_le(f);
    vstd::set_lib::lemma_int_range(0, f.cod);
    vstd::set_lib::lemma_subset_equality(f.map.to_set(), below(f.cod));
    assert forall|c: int| 0 <= c < f.cod implies #[trigger] f.map.contains(c) by {
        assert(below(f.cod).contains(c));
        assert(f.map.to_set().contains(c));
    }
}

/// A function that is constant on the fibres of an onto function factors
/// through it, in one way only.
pub proof fn lemma_desc(q: Fun, h: Fun)
    requires
        q.wf(),
        h.wf(),
        q.dom == h.dom,
        q.onto(),
        q.kernel_of(h),
    ensures
        q.desc(h).hom(q.cod, h.cod),
        q.desc(h).o(q) == h,
        forall|i: int| 0 <= i < q.dom ==> q.desc(h).map[#[trigger] q.map[i]] == h.map[i],
{
    assert forall|c: int| 0 <= c < q.cod implies 0 <= #[trigger] q.desc(h).map[c] < h.cod by {
        assert(q.hits(c, q.pre(c)));
    }
    assert forall|i: int| 0 <= i < q.dom implies q.desc(h).map[#[trigger] q.map[i]] == h.map[i] by {
        let c = q.map[i];
        assert(q.hits(c, q.pre(c)));
    }
    assert(q.desc(h).o(q) =~= h);
}

/// Functions out of the codomain of an onto function are equal as soon as they
/// agree after it.
pub proof fn lemma_onto_epi(q: Fun, u: Fun, v: Fun)
    requires
        q.wf(),
        q.onto(),
        u.wf(),
        v.wf(),
        u.dom == q.cod,
        v.dom == q.cod,
        u.cod == v.cod,
        u.o(q) == v.o(q),
    ensures
        u == v,
{
    assert forall|c: int| 0 <= c < q.cod implies u.map[c] == v.map[c] by {
        let i = q.pre(c);
        assert(q.hits(c, i));
        assert(u.o(q).map[i] == u.map[q.map[i]]);
        assert(v.o(q).map[i] == v.map[q.map[i]]);
    }
    assert(u =~= v);
}

/// What it means, element by element, that a square commutes.
pub proof fn lemma_square(a: Fun, b: Fun, c: Fun, d: Fun)
    requires
        b.wf(),
        d.wf(),
        a.o(b) == c.o(d),
    ensures
        b.dom == d.dom,
        forall|i: int| 0 <= i < b.dom ==> a.map[#[trigger] b.map[i]] == c.map[d.map[i]],
        forall|i: int| 0 <= i < b.dom ==> a.map[b.map[i]] == c.map[#[trigger] d.map[i]],
{
    assert forall|i: int| 0 <= i < b.dom implies a.map[b.map[i]] == c.map[d.map[i]] by {
        assert(a.o(b).map[i] == a.map[b.map[i]]);
        assert(c.o(d).map[i] == c.map[d.map[i]]);
    }
}

} // verus!
