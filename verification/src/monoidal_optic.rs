//! Dependent monoidal lenses and prisms.
//!
//! On `(FinSet, ×)` every object is a commutative comonoid via the diagonal, so
//! a monoidal lens is an ordinary dependent lens: the index runs over all
//! functions `X → Y` and the backward leg is a map of comodules
//! `X ⊗_B Y' → X'`, i.e. a slice map out of the pullback.
//!
//! A monoidal prism is indexed by monoid homomorphisms `Y' → X'`, with
//! backward data a module map into `X' ⊗_B Y`. These maps are the
//! module homomorphisms, the dual of `Comod_A(X ⊗_B Y', X')`.
use vstd::prelude::*;
use crate::comonoid;
use crate::dlens::DLens;
use crate::finset;
use crate::finset::Coequalizer;
use crate::finset::Mor;
use crate::monoid;
use crate::monoid::CMon;
use crate::monoid::Module;
use crate::slice::SliceObj;
use crate::span;
use crate::theory::fun::Fun;
use crate::theory::limits::Prod;
use crate::theory::monoids::Datum;
use crate::theory::monoids::Mod;
use crate::theory::monoids::Mon;
use crate::theory::optics::Lens;
use crate::theory::slices::Over;

verus! {

/// `X` over `B`, through the get.
pub open spec fn over_focus(l: Lens) -> Over {
    Over { base: l.cod.backward.base, total: l.dom.forward.total, leg: l.cod.forward.leg.o(l.get) }
}

/// The monoidal-lens normal form of a dependent lens, viewed through `⊗_B`.
pub fn as_comodule_put(lens: &DLens) -> (r: SliceObj)
    requires
        lens.wf(),
    ensures
        r@ == crate::theory::monoidal::tensor_over(over_focus(lens@), lens@.cod.backward),
        r.wf(),
{
    proof {
        law_monoidal_lens(lens@);
        crate::theory::optics::lemma_lens(lens@);
        assert(lens.put.dom@.total == lens@.pb().apex);
    }
    let y_prime = &lens.cod.backward;
    let x_as_b = SliceObj {
        base: y_prime.base,
        total: lens.dom.forward.total,
        leg: finset::compose(&lens.cod.forward.leg, &lens.get),
    };
    comonoid::tensor(&x_as_b, y_prime)
}

/// The tensor over `B` is the domain of the put of a dependent lens: it has the
/// same elements, and the put sees them over `A` through the first projection.
pub proof fn law_monoidal_lens(l: Lens)
    requires
        l.wf(),
    ensures
        over_focus(l).wf(),
        crate::theory::monoidal::tensor_over(over_focus(l), l.cod.backward).total == l.put.dom.total,
        l.pb() == crate::theory::limits::Pull::of(over_focus(l).leg, l.cod.backward.leg),
        l.put.dom.leg == l.dom.forward.leg.o(l.pb().to_left),
{
    crate::theory::optics::lemma_lens(l);
}

/// The action `A ⊗_A M → M` of a module is well defined: `(a, m) ↦ a · m`
/// takes equal values on `(b · a, m)` and `(a, b · m)`, and so factors through
/// the tensor product with the regular module.
pub fn action_descends(module: &Module) -> (r: bool)
    requires
        module.shaped(),
        monoid::tensor_fits(module@.scalar.regular(), module@),
    ensures
        r == crate::theory::monoids::descends(module@),
{
    let ghost m = module@;
    let ghost reg = m.scalar.regular();
    let ghost action = crate::theory::monoids::action(m);
    proof {
        crate::theory::monoids::lemma_regular(m.scalar);
        crate::theory::monoids::lemma_action(m);
        crate::theory::monoids::lemma_tensor(reg, m);
    }
    let regular = regular_module(&module.scalar);
    let proj = monoid::tensor(&regular, module).1;
    let mut b: u32 = 0;
    while b < module.scalar.carrier
        invariant
            b <= module.scalar.carrier,
            module.shaped(),
            regular.shaped(),
            monoid::tensor_fits(reg, m),
            m == module@,
            reg == regular@,
            reg == m.scalar.regular(),
            regular.carrier == module.scalar.carrier,
            action == crate::theory::monoids::action(m),
            proj@ == crate::theory::monoids::tensor_proj(reg, m),
            proj.wf(),
            forall|c: int, a: int, e: int|
                0 <= c < b && 0 <= a < reg.carrier && 0 <= e < m.carrier ==> action.map[#[trigger] reg.a(c, a) * m.carrier + e]
                    == action.map[a * m.carrier + #[trigger] m.a(c, e)],
        decreases module.scalar.carrier - b,
    {
        let mut a: u32 = 0;
        while a < regular.carrier
            invariant
                b < module.scalar.carrier,
                a <= regular.carrier,
                module.shaped(),
                regular.shaped(),
                monoid::tensor_fits(reg, m),
                m == module@,
                reg == regular@,
                reg == m.scalar.regular(),
                regular.carrier == module.scalar.carrier,
                action == crate::theory::monoids::action(m),
                proj@ == crate::theory::monoids::tensor_proj(reg, m),
                proj.wf(),
                forall|c: int, e: int|
                    0 <= c < a && 0 <= e < m.carrier ==> action.map[#[trigger] reg.a(b as int, c) * m.carrier + e]
                        == action.map[c * m.carrier + #[trigger] m.a(b as int, e)],
            decreases regular.carrier - a,
        {
            let mut e: u32 = 0;
            while e < module.carrier
                invariant
                    b < module.scalar.carrier,
                    a < regular.carrier,
                    e <= module.carrier,
                    module.shaped(),
                    regular.shaped(),
                    monoid::tensor_fits(reg, m),
                    m == module@,
                    reg == regular@,
                    reg == m.scalar.regular(),
                    regular.carrier == module.scalar.carrier,
                    action == crate::theory::monoids::action(m),
                    proj@ == crate::theory::monoids::tensor_proj(reg, m),
                    proj.wf(),
                    forall|c: int|
                        0 <= c < e ==> action.map[reg.a(b as int, a as int) * m.carrier + c] == action.map[a * m.carrier
                            + #[trigger] m.a(b as int, c)],
                decreases module.carrier - e,
            {
                let ba: u32 = regular.times(b, a);
                let be: u32 = module.times(b, e);
                proof {
                    crate::theory::monoids::lemma_action(m);
                    crate::theory::monoids::lemma_tensor(reg, m);
                    assert(m.scalar.has(ba as int) && m.has(e as int));
                    assert(m.scalar.has(a as int) && m.has(be as int));
                    crate::theory::limits::lemma_pair_index(
                        regular.carrier as int,
                        module.carrier as int,
                        ba as int,
                        e as int,
                    );
                    crate::theory::limits::lemma_pair_index(
                        regular.carrier as int,
                        module.carrier as int,
                        a as int,
                        be as int,
                    );
                    assert(reg.scalar.has(b as int) && reg.has(a as int));
                }
                let left: u32 = finset::pair_index(module.carrier, ba, e);
                let right: u32 = finset::pair_index(module.carrier, a, be);
                if module.times(ba, e) != module.times(a, be) || proj.apply(left) != proj.apply(right) {
                    return false;
                }
                e = e + 1;
            }
            a = a + 1;
        }
        b = b + 1;
    }
    proof {
        assert forall|c: int, a: int, e: int| #[trigger]
            reg.scalar.has(c) && #[trigger] reg.has(a) && #[trigger] m.has(e) implies action.map[reg.a(c, a) * m.carrier + e]
            == action.map[a * m.carrier + m.a(c, e)] by {
        }
    }
    true
}

/// The monoid as a module over itself.
pub fn regular_module(monoid: &CMon) -> (r: Module)
    requires
        monoid.shaped(),
        monoid.carrier * monoid.carrier <= u32::MAX,
    ensures
        r@ == monoid@.regular(),
        r.shaped(),
        monoid.wf() ==> r.wf(),
{
    let ghost reg = monoid@.regular();
    proof {
        crate::theory::monoids::lemma_regular(monoid@);
        if monoid.wf() {
            crate::theory::monoids::law_regular_module(monoid@);
        }
    }
    let act = monoid.mul.clone();
    let r = Module { scalar: monoid.clone(), carrier: monoid.carrier, act };
    proof {
        assert(act@ =~= monoid.mul@);
        assert forall|k: int| 0 <= k < reg.act.len() implies r@.act[k] == reg.act[k] by {
            crate::theory::limits::lemma_unpair(monoid.carrier as int, monoid.carrier as int, k);
        }
        assert(r@.act =~= reg.act);
    }
    r
}

/// The regular module of `base_a`, with the scalars of `base_b` acting through
/// `back`.
fn restrict(base_a: &CMon, base_b: &CMon, back: &Mor) -> (r: Module)
    requires
        base_a.shaped(),
        base_b.shaped(),
        back@.hom(base_b.carrier as int, base_a.carrier as int),
        base_a.carrier * base_a.carrier <= u32::MAX,
        base_b.carrier * base_a.carrier <= u32::MAX,
    ensures
        r@ == Mod::restricted(base_a@, base_b@, back@),
        r.shaped(),
{
    let ghost want = Mod::restricted(base_a@, base_b@, back@);
    let regular = regular_module(base_a);
    proof {
        crate::theory::monoids::lemma_restricted(base_a@, base_b@, back@);
        crate::theory::monoids::lemma_regular(base_a@);
        assert(0 <= base_b.carrier * base_a.carrier) by (nonlinear_arith)
            requires base_a.carrier >= 0, base_b.carrier >= 0;
    }
    let n: u32 = base_b.carrier * base_a.carrier;
    let mut act: Vec<u32> = Vec::new();
    let mut k: u32 = 0;
    while k < n
        invariant
            k <= n,
            n == base_b.carrier * base_a.carrier,
            base_a.shaped(),
            base_a.carrier * base_a.carrier <= u32::MAX,
            regular.shaped(),
            regular@ == base_a@.regular(),
            back@.hom(base_b.carrier as int, base_a.carrier as int),
            want == Mod::restricted(base_a@, base_b@, back@),
            act@.len() == k,
            forall|j: int| 0 <= j < k ==> act@[j] == want.act[j],
        decreases n - k,
    {
        proof {
            crate::theory::limits::lemma_unpair(base_b.carrier as int, base_a.carrier as int, k as int);
            crate::theory::monoids::lemma_regular(base_a@);
        }
        let s: u32 = k / base_a.carrier;
        let e: u32 = k % base_a.carrier;
        let t: u32 = back.apply(s);
        proof {
            assert(base_a@.has(t as int) && base_a@.has(e as int));
            assert(regular@.scalar == base_a@);
            assert(regular.scalar@.carrier == base_a@.carrier);
            assert(regular@.carrier == base_a@.carrier);
        }
        act.push(regular.times(t, e));
        k = k + 1;
    }
    let r = Module { scalar: base_b.clone(), carrier: base_a.carrier, act };
    assert(r@.act =~= want.act);
    r
}

/// One summand of a monoidal prism: a monoid homomorphism `B → A` and a module
/// homomorphism `X → A ⊗_B Y`, where `A` is the regular `A`-module, on which
/// `B` acts through the homomorphism.
#[derive(Debug)]
pub struct PrismData {
    pub back: Mor,
    pub into_tensor: Mor,
}

impl View for PrismData {
    type V = Datum;

    open spec fn view(&self) -> Datum {
        Datum { back: self.back@, into: self.into_tensor@ }
    }
}

/// The module homomorphisms `X → A ⊗_B Y`, in lexicographic order.
pub open spec fn linear_maps(a: Mon, b: Mon, back: Fun, x: Mod, y: Mod) -> Seq<Fun> {
    let n = crate::theory::monoids::tensor_proj(Mod::restricted(a, b, back), y).cod;
    span::all_funs(x.carrier, n).filter(|f: Fun| crate::theory::monoids::is_linear(a, b, back, x, y, f))
}

/// The prisms over one function `B → A`: none unless it is a homomorphism.
pub open spec fn prisms_over(a: Mon, b: Mon, back: Fun, x: Mod, y: Mod) -> Seq<Datum> {
    if Mon::is_hom(back, b, a) {
        let fs = linear_maps(a, b, back, x, y);
        Seq::new(fs.len(), |k: int| Datum { back, into: fs[k] })
    } else {
        Seq::empty()
    }
}

pub open spec fn all_prisms(a: Mon, b: Mon, x: Mod, y: Mod) -> Seq<Datum> {
    let backs = span::all_funs(b.carrier, a.carrier);
    crate::theory::listing::cat(backs.len() as int, |k: int| prisms_over(a, b, backs[k], x, y))
}

proof fn lemma_prisms_distinct(a: Mon, b: Mon, x: Mod, y: Mod)
    requires
        a.wf(),
        b.wf(),
        x.wf(),
        y.wf(),
        x.scalar == a,
        y.scalar == b,
    ensures
        all_prisms(a, b, x, y).no_duplicates(),
{
    let backs = span::all_funs(b.carrier, a.carrier);
    let f = |k: int| prisms_over(a, b, backs[k], x, y);
    span::lemma_all_funs(b.carrier, a.carrier);
    assert forall|i: int| 0 <= i < backs.len() implies (#[trigger] f(i)).no_duplicates() by {
        let back = backs[i];
        assert(back.hom(b.carrier, a.carrier));
        if Mon::is_hom(back, b, a) {
            lemma_linear_maps(a, b, back, x, y);
            let (row, fs) = (f(i), linear_maps(a, b, back, x, y));
            assert forall|k: int, m: int| 0 <= k < row.len() && 0 <= m < row.len() && k != m implies row[k] != row[m] by {
                assert(row[k].into == fs[k] && row[m].into == fs[m]);
            }
        }
    }
    crate::theory::listing::lemma_cat_labelled(backs.len() as int, f, |d: Datum| d.back, |i: int| backs[i]);
}

/// The listing holds exactly the pairs of a monoid homomorphism and a module
/// homomorphism into the tensor product along it, each once.
pub proof fn law_prisms(a: Mon, b: Mon, x: Mod, y: Mod)
    requires
        a.wf(),
        b.wf(),
        x.wf(),
        y.wf(),
        x.scalar == a,
        y.scalar == b,
    ensures
        all_prisms(a, b, x, y).no_duplicates(),
        forall|d: Datum| #[trigger] all_prisms(a, b, x, y).contains(d) <==> {
            &&& d.back.wf()
            &&& Mon::is_hom(d.back, b, a)
            &&& d.into.hom(x.carrier, crate::theory::monoids::tensor_proj(Mod::restricted(a, b, d.back), y).cod)
            &&& crate::theory::monoids::is_linear(a, b, d.back, x, y, d.into)
        },
{
    lemma_prisms_distinct(a, b, x, y);
    let backs = span::all_funs(b.carrier, a.carrier);
    let f = |k: int| prisms_over(a, b, backs[k], x, y);
    let all = all_prisms(a, b, x, y);
    span::lemma_all_funs(b.carrier, a.carrier);
    crate::theory::listing::lemma_cat(backs.len() as int, f);
    assert forall|d: Datum| #[trigger] all.contains(d) implies {
        &&& d.back.wf()
        &&& Mon::is_hom(d.back, b, a)
        &&& d.into.hom(x.carrier, crate::theory::monoids::tensor_proj(Mod::restricted(a, b, d.back), y).cod)
        &&& crate::theory::monoids::is_linear(a, b, d.back, x, y, d.into)
    } by {
        let k = choose|k: int| 0 <= k < all.len() && all[k] == d;
        let i = choose|i: int| 0 <= i < backs.len() && (#[trigger] f(i)).contains(all[k]);
        let back = backs[i];
        assert(back.hom(b.carrier, a.carrier));
        let over = prisms_over(a, b, back, x, y);
        assert(over.contains(d));
        let j = choose|j: int| 0 <= j < over.len() && over[j] == d;
        lemma_linear_maps(a, b, back, x, y);
        assert(linear_maps(a, b, back, x, y).contains(linear_maps(a, b, back, x, y)[j]));
    }
    assert forall|d: Datum|
        {
            &&& d.back.wf()
            &&& Mon::is_hom(d.back, b, a)
            &&& d.into.hom(x.carrier, crate::theory::monoids::tensor_proj(Mod::restricted(a, b, d.back), y).cod)
            &&& crate::theory::monoids::is_linear(a, b, d.back, x, y, d.into)
        } implies #[trigger] all.contains(d) by {
        assert(d.back.hom(b.carrier, a.carrier));
        assert(backs.contains(d.back));
        let i = choose|i: int| 0 <= i < backs.len() && backs[i] == d.back;
        lemma_linear_maps(a, b, d.back, x, y);
        let fs = linear_maps(a, b, d.back, x, y);
        assert(fs.contains(d.into));
        let j = choose|j: int| 0 <= j < fs.len() && fs[j] == d.into;
        assert(prisms_over(a, b, d.back, x, y)[j] == d);
        assert(f(i).contains(d));
    }
}

proof fn lemma_linear_maps(a: Mon, b: Mon, back: Fun, x: Mod, y: Mod)
    requires
        a.wf(),
        b.wf(),
        x.wf(),
        y.wf(),
        y.scalar == b,
        back.wf(),
        Mon::is_hom(back, b, a),
    ensures
        linear_maps(a, b, back, x, y).no_duplicates(),
        forall|f: Fun| #[trigger] linear_maps(a, b, back, x, y).contains(f) <==> f.hom(
            x.carrier,
            crate::theory::monoids::tensor_proj(Mod::restricted(a, b, back), y).cod,
        ) && crate::theory::monoids::is_linear(a, b, back, x, y, f),
{
    let n = crate::theory::monoids::tensor_proj(Mod::restricted(a, b, back), y).cod;
    let all = span::all_funs(x.carrier, n);
    crate::theory::monoids::law_restricted_module(a, b, back);
    crate::theory::monoids::lemma_tensor(Mod::restricted(a, b, back), y);
    span::lemma_all_funs(x.carrier, n);
    crate::slice::lemma_filter_members(all, |f: Fun| crate::theory::monoids::is_linear(a, b, back, x, y, f));
    crate::theory::listing::lemma_filter_distinct(all, |f: Fun| crate::theory::monoids::is_linear(a, b, back, x, y, f));
    assert forall|f: Fun| #[trigger] linear_maps(a, b, back, x, y).contains(f) implies f.hom(x.carrier, n) by {
        let k = choose|k: int| 0 <= k < all.len() && all[k] == f;
        assert(all[k].hom(x.carrier, n));
    }
}

/// The action of the scalar `s` on the classes of the tensor product.
fn scaled(base_a: &CMon, base_b: &CMon, back: &Mor, y: &Module, q: &Coequalizer, s: u32) -> (r: Mor)
    requires
        base_a.wf(),
        base_b.wf(),
        y.wf(),
        y.scalar@ == base_b@,
        back.wf(),
        Mon::is_hom(back@, base_b@, base_a@),
        s < base_a.carrier,
        base_a.carrier * base_a.carrier <= u32::MAX,
        base_a.carrier * y.carrier <= u32::MAX,
        q.proj@ == crate::theory::monoids::tensor_proj(Mod::restricted(base_a@, base_b@, back@), y@),
        q.obj == q.proj.cod,
        q.proj.wf(),
    ensures
        r@ == crate::theory::monoids::tensor_scale(base_a@, base_b@, back@, y@, s as int),
        r.wf(),
        r.dom == q.obj,
        r.cod == q.obj,
{
    let ghost a = base_a@;
    let ghost want = crate::theory::monoids::scale(a, y@, s as int);
    proof {
        assert(a.has(s as int));
        crate::theory::monoids::lemma_tensor_scale(a, base_b@, back@, y@, s as int);
        crate::theory::monoids::lemma_scale(a, y@, s as int);
        assert(0 <= base_a.carrier * y.carrier) by (nonlinear_arith) requires base_a.carrier >= 0, y.carrier >= 0;
    }
    let prod = finset::product(base_a.carrier, y.carrier);
    let regular = regular_module(base_a);
    let mut map: Vec<u32> = Vec::new();
    let mut k: u32 = 0;
    while k < prod.obj
        invariant
            k <= prod.obj,
            a == base_a@,
            base_a.wf(),
            regular.shaped(),
            regular@ == a.regular(),
            base_a.carrier * base_a.carrier <= u32::MAX,
            base_a.carrier * y.carrier <= u32::MAX,
            s < base_a.carrier,
            prod@ == Prod::of(base_a.carrier as int, y.carrier as int),
            prod.obj == base_a.carrier * y.carrier,
            want == crate::theory::monoids::scale(a, y@, s as int),
            map@.len() == k,
            forall|j: int| 0 <= j < k ==> map@[j] == want.map[j],
        decreases prod.obj - k,
    {
        proof {
            crate::theory::limits::lemma_unpair(base_a.carrier as int, y.carrier as int, k as int);
            crate::theory::monoids::lemma_regular(a);
        }
        let e: u32 = prod.fst.apply(k);
        let v: u32 = prod.snd.apply(k);
        proof {
            assert(a.has(s as int) && a.has(e as int));
            assert(regular@.scalar == a && regular@.carrier == a.carrier);
            assert(regular.scalar@.carrier == a.carrier);
        }
        let se: u32 = regular.times(s, e);
        proof {
            crate::theory::limits::lemma_pair_index(base_a.carrier as int, y.carrier as int, se as int, v as int);
        }
        map.push(finset::pair_index(y.carrier, se, v));
        k = k + 1;
    }
    let m = Mor { dom: prod.obj, cod: prod.obj, map };
    assert(m@ =~= want);
    let h = finset::compose(&q.proj, &m);
    finset::coequalizer_mediator(q, &h)
}

/// Whether `f` is a homomorphism of modules into the tensor product, given the
/// action of each scalar.
fn linear(base_a: &CMon, x: &Module, acts: &Vec<Mor>, f: &Mor, all: Ghost<(Mon, Fun, Mod)>) -> (r: bool)
    requires
        x.wf(),
        x.scalar@ == base_a@,
        monoid::tables_fit(x@),
        f.wf(),
        f.dom == x.carrier,
        acts@.len() == base_a.carrier,
        forall|s: int| 0 <= s < acts@.len() ==> (#[trigger] acts@[s]).wf() && acts@[s].dom == f.cod && acts@[s]@
            == crate::theory::monoids::tensor_scale(base_a@, all@.0, all@.1, all@.2, s),
    ensures
        r == crate::theory::monoids::is_linear(base_a@, all@.0, all@.1, x@, all@.2, f@),
{
    assert(x.scalar@.carrier == base_a@.carrier);
    let mut s: u32 = 0;
    while s < base_a.carrier
        invariant
            s <= base_a.carrier,
            x.wf(),
            x.scalar.carrier == base_a.carrier,
            monoid::tables_fit(x@),
            f.wf(),
            f.dom == x.carrier,
            acts@.len() == base_a.carrier,
            forall|s: int| 0 <= s < acts@.len() ==> (#[trigger] acts@[s]).wf() && acts@[s].dom == f.cod && acts@[s]@
                == crate::theory::monoids::tensor_scale(base_a@, all@.0, all@.1, all@.2, s),
            forall|t: int, e: int|
                0 <= t < s && 0 <= e < x.carrier ==> f@.map[#[trigger] x@.a(t, e)] == crate::theory::monoids::tensor_scale(
                    base_a@,
                    all@.0,
                    all@.1,
                    all@.2,
                    t,
                ).map[f@.map[e]],
        decreases base_a.carrier - s,
    {
        let act: &Mor = &acts[s as usize];
        assert(acts@[s as int].wf());
        let mut e: u32 = 0;
        while e < x.carrier
            invariant
                s < base_a.carrier,
                e <= x.carrier,
                x.wf(),
                x.scalar.carrier == base_a.carrier,
                monoid::tables_fit(x@),
                f.wf(),
                f.dom == x.carrier,
                act.wf(),
                act.dom == f.cod,
                act@ == crate::theory::monoids::tensor_scale(base_a@, all@.0, all@.1, all@.2, s as int),
                forall|d: int| 0 <= d < e ==> f@.map[#[trigger] x@.a(s as int, d)] == act@.map[f@.map[d]],
            decreases x.carrier - e,
        {
            let se: u32 = x.times(s, e);
            if f.apply(se) != act.apply(f.apply(e)) {
                assert(base_a@.has(s as int) && x@.has(e as int));
                return false;
            }
            e = e + 1;
        }
        s = s + 1;
    }
    true
}

/// What the listing of prisms builds fits in machine words.
pub open spec fn prism_fits(a: Mon, b: Mon, x: Mod, y: Mod) -> bool {
    &&& a.carrier * a.carrier <= u32::MAX
    &&& b.carrier * b.carrier <= u32::MAX
    &&& b.carrier * a.carrier <= u32::MAX
    &&& monoid::tables_fit(x)
    &&& monoid::tables_fit(y)
    &&& a.carrier * y.carrier <= u32::MAX
    &&& (a.carrier * y.carrier) * b.carrier <= u32::MAX
}

/// The prisms over one monoid homomorphism.
fn prisms_at(base_a: &CMon, base_b: &CMon, x: &Module, y: &Module, back: &Mor) -> (r: Vec<PrismData>)
    requires
        base_a.wf(),
        base_b.wf(),
        x.wf(),
        y.wf(),
        x.scalar@ == base_a@,
        y.scalar@ == base_b@,
        prism_fits(base_a@, base_b@, x@, y@),
        back.wf(),
        Mon::is_hom(back@, base_b@, base_a@),
    ensures
        crate::theory::listing::views(r@) == prisms_over(base_a@, base_b@, back@, x@, y@),
{
    let restricted = restrict(base_a, base_b, back);
    proof {
        assert(restricted@.scalar == base_b@);
        assert(restricted@.carrier == base_a@.carrier);
        assert(restricted.scalar@.carrier == base_b@.carrier);
        crate::theory::monoids::lemma_tensor(restricted@, y@);
    }
    let quotient = monoid::tensor(&restricted, y);
    let n: u32 = quotient.0;
    let q = Coequalizer { obj: n, proj: quotient.1 };
    let mut acts: Vec<Mor> = Vec::new();
    let mut s: u32 = 0;
    while s < base_a.carrier
        invariant
            s <= base_a.carrier,
            base_a.wf(),
            base_b.wf(),
            y.wf(),
            y.scalar@ == base_b@,
            prism_fits(base_a@, base_b@, x@, y@),
            back.wf(),
            Mon::is_hom(back@, base_b@, base_a@),
            q.proj@ == crate::theory::monoids::tensor_proj(Mod::restricted(base_a@, base_b@, back@), y@),
            q.obj == q.proj.cod,
            q.proj.wf(),
            acts@.len() == s,
            forall|t: int| 0 <= t < s ==> (#[trigger] acts@[t]).wf() && acts@[t].dom == q.obj && acts@[t]@
                == crate::theory::monoids::tensor_scale(base_a@, base_b@, back@, y@, t),
        decreases base_a.carrier - s,
    {
        acts.push(scaled(base_a, base_b, back, y, &q, s));
        s = s + 1;
    }
    let all = finset::morphisms(x.carrier, n);
    let ghost fs = span::all_funs(x.carrier as int, n as int);
    let ghost keep = |f: Fun| crate::theory::monoids::is_linear(base_a@, base_b@, back@, x@, y@, f);
    let mut out: Vec<PrismData> = Vec::new();
    let mut k: usize = 0;
    proof {
        assert(span::funs_of(all@) =~= fs);
        reveal(Seq::filter);
        assert(fs.take(0).filter(keep) =~= Seq::<Fun>::empty());
    }
    while k < all.len()
        invariant
            k <= all.len(),
            x.wf(),
            x.scalar@ == base_a@,
            monoid::tables_fit(x@),
            fs == span::funs_of(all@),
            keep == (|f: Fun| crate::theory::monoids::is_linear(base_a@, base_b@, back@, x@, y@, f)),
            forall|j: int| 0 <= j < all@.len() ==> (#[trigger] all@[j]).wf() && all@[j].dom == x.carrier && all@[j].cod == n,
            acts@.len() == base_a.carrier,
            forall|t: int| 0 <= t < acts@.len() ==> (#[trigger] acts@[t]).wf() && acts@[t].dom == n && acts@[t]@
                == crate::theory::monoids::tensor_scale(base_a@, base_b@, back@, y@, t),
            out@.len() == fs.take(k as int).filter(keep).len(),
            forall|j: int| 0 <= j < out@.len() ==> (#[trigger] out@[j])@ == (Datum {
                back: back@,
                into: fs.take(k as int).filter(keep)[j],
            }),
        decreases all.len() - k,
    {
        let into_tensor = all[k].clone();
        proof {
            assert(all@[k as int].wf());
            assert(into_tensor@ == fs[k as int]);
            span::lemma_filter_step(fs, k as int, keep);
        }
        if linear(base_a, x, &acts, &into_tensor, Ghost((base_b@, back@, y@))) {
            out.push(PrismData { back: back.clone(), into_tensor });
        }
        k = k + 1;
    }
    proof {
        assert(fs.take(k as int) =~= fs);
        assert(crate::theory::listing::views(out@) =~= prisms_over(base_a@, base_b@, back@, x@, y@));
    }
    out
}

/// The monoidal prisms: for each monoid homomorphism `base_b → base_a`, in
/// lexicographic order, the module homomorphisms from `x` into the tensor of the
/// regular module with `y`.
pub fn prism_data(base_a: &CMon, base_b: &CMon, x: &Module, y: &Module) -> (r: Vec<PrismData>)
    requires
        base_a.wf(),
        base_b.wf(),
        x.wf(),
        y.wf(),
        x.scalar@ == base_a@,
        y.scalar@ == base_b@,
        prism_fits(base_a@, base_b@, x@, y@),
    ensures
        crate::theory::listing::views(r@) == all_prisms(base_a@, base_b@, x@, y@),
{
    let backs = finset::morphisms(base_b.carrier, base_a.carrier);
    let ghost fs = span::all_funs(base_b.carrier as int, base_a.carrier as int);
    let ghost f = |k: int| prisms_over(base_a@, base_b@, fs[k], x@, y@);
    let mut out: Vec<PrismData> = Vec::new();
    let mut k: usize = 0;
    proof {
        assert(span::funs_of(backs@) =~= fs);
        assert(crate::theory::listing::views(out@) =~= crate::theory::listing::cat(0, f));
    }
    while k < backs.len()
        invariant
            k <= backs.len(),
            base_a.wf(),
            base_b.wf(),
            x.wf(),
            y.wf(),
            x.scalar@ == base_a@,
            y.scalar@ == base_b@,
            prism_fits(base_a@, base_b@, x@, y@),
            fs == span::funs_of(backs@),
            forall|j: int| 0 <= j < backs@.len() ==> (#[trigger] backs@[j]).wf(),
            f == (|k: int| prisms_over(base_a@, base_b@, fs[k], x@, y@)),
            crate::theory::listing::views(out@) == crate::theory::listing::cat(k as int, f),
        decreases backs.len() - k,
    {
        let back: &Mor = &backs[k];
        proof {
            assert(backs@[k as int].wf());
            assert(fs[k as int] == back@);
        }
        if monoid::is_monoid_hom(back, base_b, base_a) {
            let mut some = prisms_at(base_a, base_b, x, y, back);
            proof {
                crate::theory::listing::lemma_views_add(out@, some@);
            }
            out.append(&mut some);
        } else {
            assert(crate::theory::listing::cat(k as int, f) + f(k as int) =~= crate::theory::listing::cat(k as int, f));
        }
        k = k + 1;
    }
    out
}

} // verus!
