//! The chosen colimits of finite sets, and their universal properties.
use vstd::prelude::*;
use crate::theory::fun::Fun;
use crate::theory::limits::Prod;
use crate::theory::limits::Eqz;

verus! {

// ----- coproducts -----

/// `A ⊔ B`, with the left summand first.
#[verifier::ext_equal]
pub struct Sum {
    pub obj: int,
    pub inl: Fun,
    pub inr: Fun,
    pub left: int,
    pub right: int,
}

impl Sum {
    pub open spec fn of(a: int, b: int) -> Sum {
        Sum {
            obj: a + b,
            inl: Fun { dom: a, cod: a + b, map: Seq::new(a as nat, |i: int| i) },
            inr: Fun { dom: b, cod: a + b, map: Seq::new(b as nat, |j: int| a + j) },
            left: a,
            right: b,
        }
    }

    /// The mediator of `f: A → C` and `g: B → C` out of `A ⊔ B`.
    pub open spec fn copair(f: Fun, g: Fun) -> Fun {
        Fun { dom: f.dom + g.dom, cod: f.cod, map: f.map + g.map }
    }
}

/// The coproduct is a coproduct: copairing is the only mediator out of it.
pub proof fn law_coproduct(f: Fun, g: Fun)
    requires
        f.wf(),
        g.wf(),
        f.cod == g.cod,
    ensures
        Sum::of(f.dom, g.dom).inl.hom(f.dom, f.dom + g.dom),
        Sum::of(f.dom, g.dom).inr.hom(g.dom, f.dom + g.dom),
        Sum::copair(f, g).hom(f.dom + g.dom, f.cod),
        Sum::copair(f, g).o(Sum::of(f.dom, g.dom).inl) == f,
        Sum::copair(f, g).o(Sum::of(f.dom, g.dom).inr) == g,
        forall|m: Fun|
            #[trigger] m.hom(f.dom + g.dom, f.cod) && m.o(Sum::of(f.dom, g.dom).inl) == f
                && m.o(Sum::of(f.dom, g.dom).inr) == g ==> m == Sum::copair(f, g),
{
    let s = Sum::of(f.dom, g.dom);
    let c = Sum::copair(f, g);
    assert(c.wf()) by {
        assert forall|i: int| 0 <= i < c.dom implies 0 <= #[trigger] c.map[i] < c.cod by {
            if i < f.dom {
                assert(c.map[i] == f.map[i]);
            } else {
                assert(c.map[i] == g.map[i - f.dom]);
            }
        }
    }
    assert(c.o(s.inl) =~= f);
    assert(c.o(s.inr) =~= g);
    assert forall|m: Fun| #[trigger] m.hom(f.dom + g.dom, f.cod) && m.o(s.inl) == f && m.o(s.inr) == g
        implies m == c by {
        assert forall|i: int| 0 <= i < c.dom implies m.map[i] == c.map[i] by {
            if i < f.dom {
                assert(m.o(s.inl).map[i] == m.map[s.inl.map[i]]);
            } else {
                let j = i - f.dom;
                assert(m.o(s.inr).map[j] == m.map[s.inr.map[j]]);
            }
        }
        assert(m =~= c);
    }
}

// ----- coequalizers -----

/// A labelling that gives both values of each `x` the same label.
pub open spec fn respects(h: Seq<int>, f: Fun, g: Fun) -> bool {
    h.len() == f.cod && forall|x: int| 0 <= x < f.dom ==> h[#[trigger] f.map[x]] == h[g.map[x]]
}

/// `a` and `b` lie in one class of the least equivalence relation that
/// relates `f(x)` to `g(x)`: no labelling that respects the pair tells them
/// apart.
pub open spec fn glued(f: Fun, g: Fun, a: int, b: int) -> bool {
    forall|h: Seq<int>| #[trigger] respects(h, f, g) ==> h[a] == h[b]
}

/// The first element of its class.
pub open spec fn leader(f: Fun, g: Fun, y: int) -> bool {
    forall|z: int| 0 <= z < y ==> !#[trigger] glued(f, g, z, y)
}

/// How many classes begin below `n`.
pub open spec fn leaders(f: Fun, g: Fun, n: int) -> int
    decreases n,
{
    if n <= 0 {
        0
    } else {
        leaders(f, g, n - 1) + if leader(f, g, n - 1) {
            1int
        } else {
            0
        }
    }
}

pub open spec fn leads(f: Fun, g: Fun, y: int, z: int) -> bool {
    0 <= z <= y && glued(f, g, z, y) && leader(f, g, z)
}

/// The first element of the class of `y`.
pub open spec fn rep(f: Fun, g: Fun, y: int) -> int {
    choose|z: int| leads(f, g, y, z)
}

impl Fun {
    /// The projection onto the coequalizer of `f` and `g`. Classes are
    /// numbered in the order of their first elements.
    #[verifier::opaque]
    pub open spec fn coeq(f: Fun, g: Fun) -> Fun {
        Fun {
            dom: f.cod,
            cod: leaders(f, g, f.cod),
            map: Seq::new(f.cod as nat, |y: int| leaders(f, g, rep(f, g, y))),
        }
    }
}

pub proof fn lemma_glued_equiv(f: Fun, g: Fun)
    ensures
        forall|a: int| #[trigger] glued(f, g, a, a),
        forall|a: int, b: int| #[trigger] glued(f, g, a, b) ==> glued(f, g, b, a),
        forall|a: int, b: int, c: int| #[trigger] glued(f, g, a, b) && #[trigger] glued(f, g, b, c) ==> glued(f, g, a, c),
{
}

pub proof fn lemma_rep(f: Fun, g: Fun, y: int)
    requires
        y >= 0,
    ensures
        leads(f, g, y, rep(f, g, y)),
{
    lemma_glued_equiv(f, g);
    lemma_rep_from(f, g, y, 0);
}

proof fn lemma_rep_from(f: Fun, g: Fun, y: int, z: int)
    requires
        0 <= z <= y,
        forall|k: int| 0 <= k < z ==> !#[trigger] glued(f, g, k, y),
    ensures
        exists|w: int| leads(f, g, y, w),
    decreases y - z,
{
    lemma_glued_equiv(f, g);
    if glued(f, g, z, y) {
        assert(leads(f, g, y, z)) by {
            assert forall|k: int| 0 <= k < z implies !#[trigger] glued(f, g, k, z) by {
                if glued(f, g, k, z) {
                    assert(glued(f, g, k, y));
                }
            }
        }
    } else {
        assert(z < y);
        lemma_rep_from(f, g, y, z + 1);
    }
}

/// The first element of a class is determined by the class.
pub proof fn lemma_leads_unique(f: Fun, g: Fun, y1: int, z1: int, y2: int, z2: int)
    requires
        leads(f, g, y1, z1),
        leads(f, g, y2, z2),
        glued(f, g, y1, y2),
    ensures
        z1 == z2,
{
    lemma_glued_equiv(f, g);
    assert(glued(f, g, z1, y2));
    assert(glued(f, g, y2, z2));
    assert(glued(f, g, z1, z2));
    assert(glued(f, g, z2, z1));
}

pub proof fn lemma_leaders_mono(f: Fun, g: Fun, a: int, b: int)
    requires
        0 <= a <= b,
    ensures
        0 <= leaders(f, g, a) <= leaders(f, g, b),
        leaders(f, g, b) <= leaders(f, g, a) + (b - a),
        a < b && leader(f, g, a) ==> leaders(f, g, a) < leaders(f, g, b),
    decreases b - a, a,
{
    if a == b {
        if a > 0 {
            lemma_leaders_mono(f, g, a - 1, a - 1);
        }
    } else {
        lemma_leaders_mono(f, g, a, b - 1);
        if a == b - 1 {
        }
    }
}

proof fn lemma_leader_of_number(f: Fun, g: Fun, n: int, c: int)
    requires
        n >= 0,
        0 <= c < leaders(f, g, n),
    ensures
        exists|y: int| 0 <= y < n && #[trigger] leader(f, g, y) && leaders(f, g, y) == c,
    decreases n,
{
    if n > 0 {
        if c < leaders(f, g, n - 1) {
            lemma_leader_of_number(f, g, n - 1, c);
        } else {
            assert(leader(f, g, n - 1));
        }
    }
}

/// What the projection identifies, and that it is onto.
pub proof fn lemma_coeq(f: Fun, g: Fun)
    requires
        f.wf(),
        g.wf(),
        f.dom == g.dom,
        f.cod == g.cod,
    ensures
        Fun::coeq(f, g).wf(),
        Fun::coeq(f, g).dom == f.cod,
        Fun::coeq(f, g).cod <= f.cod,
        Fun::coeq(f, g).onto(),
        forall|x: int| 0 <= x < f.dom ==> Fun::coeq(f, g).map[#[trigger] f.map[x]] == Fun::coeq(f, g).map[g.map[x]],
        forall|x: int| 0 <= x < f.dom ==> Fun::coeq(f, g).map[f.map[x]] == Fun::coeq(f, g).map[#[trigger] g.map[x]],
        forall|a: int, b: int|
            0 <= a < f.cod && 0 <= b < f.cod && #[trigger] Fun::coeq(f, g).map[a] == #[trigger] Fun::coeq(f, g).map[b]
                ==> glued(f, g, a, b),
{
    reveal(Fun::coeq);
    let q = Fun::coeq(f, g);
    let n = f.cod;
    lemma_leaders_mono(f, g, 0, n);
    assert forall|y: int| 0 <= y < n implies 0 <= #[trigger] q.map[y] < q.cod && q.map[y] == leaders(f, g, rep(f, g, y))
        && leads(f, g, y, rep(f, g, y)) by {
        lemma_rep(f, g, y);
        lemma_leaders_mono(f, g, rep(f, g, y), n);
    }
    assert forall|x: int| 0 <= x < f.dom implies q.map[#[trigger] f.map[x]] == q.map[g.map[x]] by {
        let a = f.map[x];
        let b = g.map[x];
        assert(glued(f, g, a, b)) by {
            assert forall|h: Seq<int>| #[trigger] respects(h, f, g) implies h[a] == h[b] by {
                assert(h[f.map[x]] == h[g.map[x]]);
            }
        }
        assert(0 <= q.map[a] && 0 <= q.map[b]);
        lemma_leads_unique(f, g, a, rep(f, g, a), b, rep(f, g, b));
    }
    assert forall|a: int, b: int| 0 <= a < n && 0 <= b < n && #[trigger] q.map[a] == #[trigger] q.map[b]
        implies glued(f, g, a, b) by {
        let za = rep(f, g, a);
        let zb = rep(f, g, b);
        if za < zb {
            lemma_leaders_mono(f, g, za, zb);
        }
        if zb < za {
            lemma_leaders_mono(f, g, zb, za);
        }
        lemma_glued_equiv(f, g);
        assert(glued(f, g, za, a));
        assert(glued(f, g, a, za));
    }
    assert forall|c: int| 0 <= c < q.cod implies #[trigger] q.hits(c, q.pre(c)) by {
        lemma_leader_of_number(f, g, n, c);
        let y = choose|y: int| 0 <= y < n && #[trigger] leader(f, g, y) && leaders(f, g, y) == c;
        lemma_glued_equiv(f, g);
        assert(leads(f, g, y, y));
        lemma_leads_unique(f, g, y, y, y, rep(f, g, y));
        assert(q.hits(c, y));
    }
}

/// A function that identifies `f` and `g` is constant on the classes.
pub proof fn lemma_coeq_kernel(f: Fun, g: Fun, h: Fun)
    requires
        f.wf(),
        g.wf(),
        f.dom == g.dom,
        f.cod == g.cod,
        h.wf(),
        h.dom == f.cod,
        h.o(f) == h.o(g),
    ensures
        Fun::coeq(f, g).kernel_of(h),
{
    lemma_coeq(f, g);
    crate::theory::fun::lemma_square(h, f, h, g);
    assert(respects(h.map, f, g));
}

/// The coequalizer is a coequalizer: a function that identifies the pair
/// factors through the projection in exactly one way.
pub proof fn law_coequalizer(f: Fun, g: Fun, h: Fun)
    requires
        f.wf(),
        g.wf(),
        f.dom == g.dom,
        f.cod == g.cod,
        h.wf(),
        h.dom == f.cod,
        h.o(f) == h.o(g),
    ensures
        Fun::coeq(f, g).o(f) == Fun::coeq(f, g).o(g),
        Fun::coeq(f, g).desc(h).hom(Fun::coeq(f, g).cod, h.cod),
        Fun::coeq(f, g).desc(h).o(Fun::coeq(f, g)) == h,
        forall|m: Fun| #[trigger] m.hom(Fun::coeq(f, g).cod, h.cod) && m.o(Fun::coeq(f, g)) == h
            ==> m == Fun::coeq(f, g).desc(h),
{
    let q = Fun::coeq(f, g);
    lemma_coeq(f, g);
    lemma_coeq_kernel(f, g, h);
    crate::theory::fun::lemma_desc(q, h);
    assert(q.o(f) =~= q.o(g));
    assert forall|m: Fun| #[trigger] m.hom(q.cod, h.cod) && m.o(q) == h implies m == q.desc(h) by {
        crate::theory::fun::lemma_onto_epi(q, m, q.desc(h));
    }
}

// ----- pushouts -----

/// The pushout of two functions with a common domain.
#[verifier::ext_equal]
pub struct Push {
    pub apex: int,
    pub from_left: Fun,
    pub from_right: Fun,
}

impl Push {
    /// The quotient of `X ⊔ Y` that the pushout of `f: Z → X` and `g: Z → Y` is.
    pub open spec fn quotient(f: Fun, g: Fun) -> Fun {
        Fun::coeq(Sum::of(f.cod, g.cod).inl.o(f), Sum::of(f.cod, g.cod).inr.o(g))
    }

    pub open spec fn of(f: Fun, g: Fun) -> Push {
        let q = Push::quotient(f, g);
        let s = Sum::of(f.cod, g.cod);
        Push { apex: q.cod, from_left: q.o(s.inl), from_right: q.o(s.inr) }
    }

    /// The mediator of `p` and `r` out of the pushout.
    pub open spec fn med(self, p: Fun, r: Fun) -> Fun {
        Sum::copair(self.from_left, self.from_right).desc(Sum::copair(p, r))
    }
}

/// The square of a pushout commutes, and its legs together are onto.
pub proof fn lemma_push(f: Fun, g: Fun)
    requires
        f.wf(),
        g.wf(),
        f.dom == g.dom,
    ensures
        Push::of(f, g).from_left.hom(f.cod, Push::of(f, g).apex),
        Push::of(f, g).from_right.hom(g.cod, Push::of(f, g).apex),
        0 <= Push::of(f, g).apex <= f.cod + g.cod,
        forall|z: int| 0 <= z < f.dom ==> Push::of(f, g).from_left.map[#[trigger] f.map[z]]
            == Push::of(f, g).from_right.map[g.map[z]],
        forall|z: int| 0 <= z < f.dom ==> Push::of(f, g).from_left.map[f.map[z]]
            == Push::of(f, g).from_right.map[#[trigger] g.map[z]],
        Sum::copair(Push::of(f, g).from_left, Push::of(f, g).from_right) == Push::quotient(f, g),
        Push::quotient(f, g).onto(),
        Push::quotient(f, g).hom(f.cod + g.cod, Push::of(f, g).apex),
{
    let s = Sum::of(f.cod, g.cod);
    let fl = s.inl.o(f);
    let gr = s.inr.o(g);
    let q = Push::quotient(f, g);
    let p = Push::of(f, g);
    lemma_coeq(fl, gr);
    assert forall|z: int| 0 <= z < f.dom implies p.from_left.map[#[trigger] f.map[z]] == p.from_right.map[g.map[z]] by {
        assert(fl.map[z] == f.map[z]);
        assert(gr.map[z] == f.cod + g.map[z]);
        assert(q.map[fl.map[z]] == q.map[gr.map[z]]);
    }
    assert(Sum::copair(p.from_left, p.from_right) =~= q);
}

/// A pushout has no more elements than the two sets that it glues. This bounds
/// the apex of a composite cospan and of a reindexed coslice.
pub broadcast proof fn law_pushout_size(f: Fun, g: Fun)
    requires
        f.wf(),
        g.wf(),
        f.dom == g.dom,
    ensures
        0 <= (#[trigger] Push::of(f, g)).apex <= f.cod + g.cod,
{
    lemma_push(f, g);
}

/// Each element of a pushout comes from one of its legs.
pub proof fn lemma_push_cases(f: Fun, g: Fun, c: int) -> (r: (bool, int))
    requires
        f.wf(),
        g.wf(),
        f.dom == g.dom,
        0 <= c < Push::of(f, g).apex,
    ensures
        r.0 ==> 0 <= r.1 < f.cod && Push::of(f, g).from_left.map[r.1] == c,
        !r.0 ==> 0 <= r.1 < g.cod && Push::of(f, g).from_right.map[r.1] == c,
{
    lemma_push(f, g);
    let q = Push::quotient(f, g);
    let y = q.pre(c);
    assert(q.hits(c, y));
    if y < f.cod {
        (true, y)
    } else {
        (false, y - f.cod)
    }
}

/// Functions out of a pushout are equal as soon as they agree on both legs.
pub proof fn lemma_push_epi(f: Fun, g: Fun, u: Fun, v: Fun)
    requires
        f.wf(),
        g.wf(),
        f.dom == g.dom,
        u.wf(),
        v.wf(),
        u.dom == Push::of(f, g).apex,
        v.dom == Push::of(f, g).apex,
        u.cod == v.cod,
        forall|i: int| 0 <= i < f.cod ==> u.map[#[trigger] Push::of(f, g).from_left.map[i]]
            == v.map[Push::of(f, g).from_left.map[i]],
        forall|i: int| 0 <= i < g.cod ==> u.map[#[trigger] Push::of(f, g).from_right.map[i]]
            == v.map[Push::of(f, g).from_right.map[i]],
    ensures
        u == v,
{
    assert forall|c: int| 0 <= c < u.dom implies u.map[c] == v.map[c] by {
        let r = lemma_push_cases(f, g, c);
    }
    assert(u =~= v);
}

/// The mediator out of a pushout, on its two legs.
pub proof fn lemma_push_med(f: Fun, g: Fun, p: Fun, r: Fun)
    requires
        f.wf(),
        g.wf(),
        f.dom == g.dom,
        p.wf(),
        r.wf(),
        p.dom == f.cod,
        r.dom == g.cod,
        p.cod == r.cod,
        forall|z: int| 0 <= z < f.dom ==> p.map[#[trigger] f.map[z]] == r.map[g.map[z]],
    ensures
        Push::of(f, g).med(p, r).hom(Push::of(f, g).apex, p.cod),
        forall|i: int| 0 <= i < f.cod ==> Push::of(f, g).med(p, r).map[#[trigger] Push::of(f, g).from_left.map[i]]
            == p.map[i],
        forall|i: int| 0 <= i < g.cod ==> Push::of(f, g).med(p, r).map[#[trigger] Push::of(f, g).from_right.map[i]]
            == r.map[i],
        Push::quotient(f, g).kernel_of(Sum::copair(p, r)),
{
    lemma_push(f, g);
    law_coproduct(p, r);
    let s = Sum::of(f.cod, g.cod);
    let h = Sum::copair(p, r);
    let q = Push::quotient(f, g);
    assert(h.o(s.inl.o(f)) =~= h.o(s.inr.o(g))) by {
        assert forall|z: int| 0 <= z < f.dom implies h.o(s.inl.o(f)).map[z] == h.o(s.inr.o(g)).map[z] by {
            assert(s.inl.o(f).map[z] == f.map[z]);
            assert(s.inr.o(g).map[z] == f.cod + g.map[z]);
            assert(p.map[f.map[z]] == r.map[g.map[z]]);
        }
    }
    lemma_coeq_kernel(s.inl.o(f), s.inr.o(g), h);
    crate::theory::fun::lemma_desc(q, h);
    let m = Push::of(f, g).med(p, r);
    assert forall|i: int| 0 <= i < f.cod implies m.map[#[trigger] Push::of(f, g).from_left.map[i]] == p.map[i] by {
        assert(Push::of(f, g).from_left.map[i] == q.map[i]);
        assert(m.map[q.map[i]] == h.map[i]);
    }
    assert forall|i: int| 0 <= i < g.cod implies m.map[#[trigger] Push::of(f, g).from_right.map[i]] == r.map[i] by {
        assert(Push::of(f, g).from_right.map[i] == q.map[f.cod + i]);
        assert(m.map[q.map[f.cod + i]] == h.map[f.cod + i]);
    }
}

/// The pushout is a pushout: its square commutes, and each commuting square
/// under the same functions factors through it in exactly one way.
pub proof fn law_pushout(f: Fun, g: Fun, p: Fun, r: Fun)
    requires
        f.wf(),
        g.wf(),
        f.dom == g.dom,
        p.wf(),
        r.wf(),
        p.dom == f.cod,
        r.dom == g.cod,
        p.cod == r.cod,
        p.o(f) == r.o(g),
    ensures
        Push::of(f, g).from_left.o(f) == Push::of(f, g).from_right.o(g),
        Push::of(f, g).med(p, r).hom(Push::of(f, g).apex, p.cod),
        Push::of(f, g).med(p, r).o(Push::of(f, g).from_left) == p,
        Push::of(f, g).med(p, r).o(Push::of(f, g).from_right) == r,
        forall|m: Fun|
            #[trigger] m.hom(Push::of(f, g).apex, p.cod) && m.o(Push::of(f, g).from_left) == p
                && m.o(Push::of(f, g).from_right) == r ==> m == Push::of(f, g).med(p, r),
{
    lemma_push(f, g);
    crate::theory::fun::lemma_square(p, f, r, g);
    lemma_push_med(f, g, p, r);
    let po = Push::of(f, g);
    assert(po.from_left.o(f) =~= po.from_right.o(g));
    assert(po.med(p, r).o(po.from_left) =~= p);
    assert(po.med(p, r).o(po.from_right) =~= r);
    assert forall|m: Fun| #[trigger] m.hom(po.apex, p.cod) && m.o(po.from_left) == p && m.o(po.from_right) == r
        implies m == po.med(p, r) by {
        crate::theory::fun::lemma_square(m, po.from_left, po.med(p, r), po.from_left);
        crate::theory::fun::lemma_square(m, po.from_right, po.med(p, r), po.from_right);
        lemma_push_epi(f, g, m, po.med(p, r));
    }
}

// ----- distributivity -----

impl Fun {
    /// The canonical function `A × (B ⊔ C) → (A × B) ⊔ (A × C)`.
    pub open spec fn distribute(a: int, b: int, c: int) -> Fun {
        Fun {
            dom: a * (b + c),
            cod: a * b + a * c,
            map: Seq::new((a * (b + c)) as nat, |k: int| {
                let i = k / (b + c);
                let j = k % (b + c);
                if j < b {
                    i * b + j
                } else {
                    a * b + (i * c + (j - b))
                }
            }),
        }
    }
}

/// Products distribute over coproducts: the canonical function is a bijection,
/// and it keeps the projection to `A`.
pub proof fn law_distribute(a: int, b: int, c: int)
    requires
        a >= 0,
        b >= 0,
        c >= 0,
        a * (b + c) <= u32::MAX,
    ensures
        Fun::distribute(a, b, c).wf(),
        Fun::distribute(a, b, c).iso(),
        Sum::copair(Prod::of(a, b).fst, Prod::of(a, c).fst).o(Fun::distribute(a, b, c)) == Prod::of(a, b + c).fst,
        Prod::of(a, b + c).fst.o(Fun::distribute(a, b, c).inv())
            == Sum::copair(Prod::of(a, b).fst, Prod::of(a, c).fst),
{
    let d = Fun::distribute(a, b, c);
    let n = b + c;
    assert(a * n == a * b + a * c) by (nonlinear_arith) requires n == b + c;
    assert(a * b >= 0 && a * c >= 0) by (nonlinear_arith) requires a >= 0, b >= 0, c >= 0;
    let fa = Prod::of(a, b).fst;
    let fc = Prod::of(a, c).fst;
    let cp = Sum::copair(fa, fc);
    assert forall|k: int| 0 <= k < d.dom implies 0 <= #[trigger] d.map[k] < d.cod && cp.map[d.map[k]] == k / n by {
        crate::theory::limits::lemma_unpair(a, n, k);
        let i = k / n;
        let j = k % n;
        if j < b {
            crate::theory::limits::lemma_pair_index(a, b, i, j);
            assert(cp.map[d.map[k]] == fa.map[i * b + j]);
        } else {
            crate::theory::limits::lemma_pair_index(a, c, i, j - b);
            assert(cp.map[d.map[k]] == fc.map[i * c + (j - b)]);
        }
    }
    assert forall|k1: int, k2: int| 0 <= k1 < d.dom && 0 <= k2 < d.dom && #[trigger] d.map[k1] == #[trigger] d.map[k2]
        implies k1 == k2 by {
        crate::theory::limits::lemma_unpair(a, n, k1);
        crate::theory::limits::lemma_unpair(a, n, k2);
        let (i1, j1) = (k1 / n, k1 % n);
        let (i2, j2) = (k2 / n, k2 % n);
        if j1 < b {
            crate::theory::limits::lemma_pair_index(a, b, i1, j1);
        } else {
            crate::theory::limits::lemma_pair_index(a, c, i1, j1 - b);
        }
        if j2 < b {
            crate::theory::limits::lemma_pair_index(a, b, i2, j2);
        } else {
            crate::theory::limits::lemma_pair_index(a, c, i2, j2 - b);
        }
    }
    let f = Prod::of(a, n).fst;
    assert(cp.o(d) =~= f);
    crate::theory::fun::law_inverse(d);
    let e = d.inv();
    assert(f.o(e) =~= cp) by {
        assert forall|k: int| 0 <= k < d.cod implies f.o(e).map[k] == cp.map[k] by {
            assert(d.o(e).map[k] == d.map[e.map[k]]);
            assert(cp.o(d).map[e.map[k]] == cp.map[d.map[e.map[k]]]);
        }
    }
}

/// Two strictly increasing sequences with the same members are equal.
pub proof fn lemma_increasing_unique(s: Seq<int>, t: Seq<int>)
    requires
        forall|i: int, j: int| 0 <= i < j < s.len() ==> #[trigger] s[i] < #[trigger] s[j],
        forall|i: int, j: int| 0 <= i < j < t.len() ==> #[trigger] t[i] < #[trigger] t[j],
        forall|i: int| 0 <= i < s.len() ==> t.contains(#[trigger] s[i]),
        forall|i: int| 0 <= i < t.len() ==> s.contains(#[trigger] t[i]),
    ensures
        s == t,
    decreases s.len(),
{
    if s.len() == 0 {
        if t.len() > 0 {
            assert(s.contains(t[0]));
        }
        assert(s =~= t);
    } else {
        assert(t.contains(s[s.len() - 1]));
        let k = choose|k: int| 0 <= k < t.len() && t[k] == s[s.len() - 1];
        assert(s.contains(t[t.len() - 1]));
        let m = choose|m: int| 0 <= m < s.len() && s[m] == t[t.len() - 1];
        if k < t.len() - 1 {
            assert(t[k] < t[t.len() - 1]);
            if m < s.len() - 1 {
                assert(s[m] < s[s.len() - 1]);
            }
        }
        assert(s.last() == t.last());
        let s1 = s.drop_last();
        let t1 = t.drop_last();
        assert forall|i: int| 0 <= i < s1.len() implies t1.contains(#[trigger] s1[i]) by {
            assert(t.contains(s[i]));
            let j = choose|j: int| 0 <= j < t.len() && t[j] == s[i];
            assert(s[i] < s[s.len() - 1]);
            assert(t1[j] == s1[i]);
        }
        assert forall|i: int| 0 <= i < t1.len() implies s1.contains(#[trigger] t1[i]) by {
            assert(s.contains(t[i]));
            let j = choose|j: int| 0 <= j < s.len() && s[j] == t[i];
            assert(t[i] < t[t.len() - 1]);
            assert(s1[j] == t1[i]);
        }
        lemma_increasing_unique(s1, t1);
        assert(s =~= s1.push(s.last()));
        assert(t =~= t1.push(t.last()));
    }
}

/// Multiplying by a set keeps equalizers: the equalizer of `f × A` and
/// `g × A` has the same elements, in the same order, as the product of the
/// equalizer of `f` and `g` with `A`.
pub proof fn law_product_preserves_equalizers(f: Fun, g: Fun, a: int)
    requires
        f.wf(),
        g.wf(),
        f.dom == g.dom,
        f.cod == g.cod,
        a >= 0,
        f.dom * a <= u32::MAX,
        f.cod * a <= u32::MAX,
    ensures
        ({
            let eq = Eqz::of(f, g);
            let left = Prod::of(eq.obj, a);
            let xa = Prod::of(f.dom, a);
            let f_id = Prod::pair(f.o(xa.fst), xa.snd);
            let g_id = Prod::pair(g.o(xa.fst), xa.snd);
            let right = Eqz::of(f_id, g_id);
            let incl_left = Prod::pair(eq.incl.o(left.fst), left.snd);
            right.obj == left.obj && right.elements == incl_left.map && f_id.cod == f.cod * a
        }),
{
    let eq = Eqz::of(f, g);
    let left = Prod::of(eq.obj, a);
    let xa = Prod::of(f.dom, a);
    let f_id = Prod::pair(f.o(xa.fst), xa.snd);
    let g_id = Prod::pair(g.o(xa.fst), xa.snd);
    let right = Eqz::of(f_id, g_id);
    let incl_left = Prod::pair(eq.incl.o(left.fst), left.snd);
    let n = f.dom * a;
    let m = eq.obj * a;
    crate::theory::limits::lemma_eqz_upto(f, g, f.dom);
    assert(0 <= n) by (nonlinear_arith) requires f.dom >= 0, a >= 0, n == f.dom * a;
    assert(0 <= m <= n) by (nonlinear_arith)
        requires 0 <= eq.obj <= f.dom, a >= 0, n == f.dom * a, m == eq.obj * a;
    crate::theory::limits::lemma_eqz_upto(f_id, g_id, n);
    let t = incl_left.map;
    assert forall|k: int| 0 <= k < n implies #[trigger] f_id.map[k] == f.map[k / a] * a + k % a
        && g_id.map[k] == g.map[k / a] * a + k % a && (f_id.map[k] == g_id.map[k] <==> f.map[k / a] == g.map[k / a]) by {
        crate::theory::limits::lemma_unpair(f.dom, a, k);
        crate::theory::limits::lemma_pair_index(f.cod, a, f.map[k / a], k % a);
        crate::theory::limits::lemma_pair_index(f.cod, a, g.map[k / a], k % a);
    }
    assert forall|k: int| 0 <= k < m implies #[trigger] t[k] == eq.elements[k / a] * a + k % a && 0 <= t[k] < n
        && t[k] / a == eq.elements[k / a] && t[k] % a == k % a && 0 <= k / a < eq.obj by {
        crate::theory::limits::lemma_unpair(eq.obj, a, k);
        crate::theory::limits::lemma_pair_index(f.dom, a, eq.elements[k / a], k % a);
    }
    assert forall|i: int, j: int| 0 <= i < j < t.len() implies #[trigger] t[i] < #[trigger] t[j] by {
        crate::theory::limits::lemma_unpair(eq.obj, a, i);
        crate::theory::limits::lemma_unpair(eq.obj, a, j);
        let (x1, y1) = (eq.elements[i / a], i % a);
        let (x2, y2) = (eq.elements[j / a], j % a);
        if i / a > j / a {
            assert((i / a) * a >= (j / a) * a + a) by (nonlinear_arith) requires i / a >= j / a + 1, a > 0;
        }
        if i / a < j / a {
            assert(x1 < x2);
            assert(x1 * a + a <= x2 * a) by (nonlinear_arith) requires x1 + 1 <= x2, a > 0;
        }
    }
    assert forall|k: int| 0 <= k < t.len() implies right.elements.contains(#[trigger] t[k]) by {
        let v = t[k];
        assert(f_id.map[v] == g_id.map[v]);
    }
    assert forall|k: int| 0 <= k < right.elements.len() implies t.contains(#[trigger] right.elements[k]) by {
        let v = right.elements[k];
        crate::theory::limits::lemma_unpair(f.dom, a, v);
        assert(f_id.map[v] == g_id.map[v]);
        assert(f.map[v / a] == g.map[v / a]);
        assert(eq.elements.contains(v / a));
        let e = choose|e: int| 0 <= e < eq.elements.len() && eq.elements[e] == v / a;
        crate::theory::limits::lemma_pair_index(eq.obj, a, e, v % a);
        assert(t[e * a + v % a] == v);
    }
    lemma_increasing_unique(right.elements, t);
}

} // verus!
