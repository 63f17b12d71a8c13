//! Reverse-mode differentiation agrees with forward mode.
use vstd::prelude::*;
use crate::ad::Expr;
use crate::ad::Tape;
use crate::theory::rationals::Rat;

verus! {

/// Every constant and every variable that evaluation at `env` reads is in
/// lowest terms.
pub open spec fn sound(e: Expr, env: Seq<Rat>) -> bool
    decreases e,
{
    match e {
        Expr::Var(i) => env[i as int].wf(),
        Expr::Const(q) => q@.wf(),
        Expr::Neg(a) => sound(*a, env),
        Expr::Add(a, b) => sound(*a, env) && sound(*b, env),
        Expr::Mul(a, b) => sound(*a, env) && sound(*b, env),
        Expr::Let(a, b) => sound(*a, env) && sound(*b, seq![crate::ad::eval(*a, env)] + env),
        Expr::IfEq(a, b, t, f) => sound(*a, env) && sound(*b, env) && if crate::ad::eval(*a, env) == crate::ad::eval(*b, env) {
            sound(*t, env)
        } else {
            sound(*f, env)
        },
    }
}

pub open spec fn all_wf(s: Seq<Rat>) -> bool {
    forall|i: int| 0 <= i < s.len() ==> (#[trigger] s[i]).wf()
}

/// The values of dual numbers.
pub open spec fn firsts(env: Seq<(Rat, Rat)>) -> Seq<Rat> {
    Seq::new(env.len(), |i: int| env[i].0)
}

/// The derivatives of dual numbers.
pub open spec fn seconds(env: Seq<(Rat, Rat)>) -> Seq<Rat> {
    Seq::new(env.len(), |i: int| env[i].1)
}

/// The product of two numbers.
#[verifier::opaque]
pub open spec fn prod(x: real, y: real) -> real {
    x * y
}

/// What products obey.
proof fn lemma_prod(x: real, y: real, z: real)
    ensures
        prod(x, y) == prod(y, x),
        prod(x, y + z) == prod(x, y) + prod(x, z),
        prod(x, y - z) == prod(x, y) - prod(x, z),
        prod(x, -y) == -prod(x, y),
        prod(prod(x, y), z) == prod(x, prod(y, z)),
        prod(x, 0real) == 0real,
        prod(1real, x) == x,
{
    reveal(prod);
    assert(x * y == y * x) by (nonlinear_arith);
    assert(x * (y + z) == x * y + x * z) by (nonlinear_arith);
    assert(x * (y - z) == x * y - x * z) by (nonlinear_arith);
    assert(x * (-y) == -(x * y)) by (nonlinear_arith);
    assert((x * y) * z == x * (y * z)) by (nonlinear_arith);
    assert(x * 0real == 0real) by (nonlinear_arith);
    assert(1real * x == x) by (nonlinear_arith);
}

/// The operations on fractions, by their values.
proof fn lemma_values(a: Rat, b: Rat)
    requires
        a.wf(),
        b.wf(),
    ensures
        a.plus(b).wf(),
        a.times(b).wf(),
        a.negated().wf(),
        a.plus(b).val() == a.val() + b.val(),
        a.times(b).val() == prod(a.val(), b.val()),
        a.negated().val() == -a.val(),
{
    crate::theory::rationals::lemma_rat_ops(a, b);
    reveal(prod);
}

/// `Σ_i a_i · b_i`.
pub open spec fn dot(a: Seq<Rat>, b: Seq<Rat>) -> real
    decreases a.len(),
{
    if a.len() == 0 {
        0real
    } else {
        prod(a[0].val(), b[0].val()) + dot(a.skip(1), b.skip(1))
    }
}

proof fn lemma_dot_update(d: Seq<Rat>, b: Seq<Rat>, i: int, x: Rat)
    requires
        d.len() == b.len(),
        0 <= i < b.len(),
    ensures
        dot(d, b.update(i, x)) == dot(d, b) + prod(d[i].val(), x.val() - b[i].val()),
    decreases d.len(),
{
    let c = b.update(i, x);
    if i == 0 {
        assert(c.skip(1) =~= b.skip(1));
        lemma_prod(d[0].val(), x.val(), b[0].val());
    } else {
        assert(c.skip(1) =~= b.skip(1).update(i - 1, x));
        lemma_dot_update(d.skip(1), b.skip(1), i - 1, x);
        assert(d.skip(1)[i - 1] == d[i] && b.skip(1)[i - 1] == b[i]);
    }
}

proof fn lemma_dot_merged(d: Seq<Rat>, acc: Seq<Rat>, more: Seq<Rat>)
    requires
        d.len() == acc.len(),
        more.len() == acc.len() + 1,
        all_wf(acc),
        all_wf(more),
    ensures
        dot(d, crate::ad::merged(acc, more, acc.len() as int)) == dot(d, acc) + dot(d, more.skip(1)),
        all_wf(crate::ad::merged(acc, more, acc.len() as int)),
    decreases d.len(),
{
    let n = acc.len() as int;
    let m = crate::ad::merged(acc, more, n);
    assert forall|i: int| 0 <= i < m.len() implies (#[trigger] m[i]).wf() && m[i].val() == acc[i].val() + more[i + 1].val() by {
        lemma_values(acc[i], more[i + 1]);
    }
    if n > 0 {
        let acc2 = acc.skip(1);
        let more2 = more.skip(1);
        assert forall|i: int| 0 <= i < acc2.len() implies (#[trigger] acc2[i]).wf() by {
            assert(acc2[i] == acc[i + 1]);
        }
        assert forall|i: int| 0 <= i < more2.len() implies (#[trigger] more2[i]).wf() by {
            assert(more2[i] == more[i + 1]);
        }
        lemma_dot_merged(d.skip(1), acc2, more2);
        assert(m.skip(1) =~= crate::ad::merged(acc2, more2, acc2.len() as int));
        assert(m[0].val() == acc[0].val() + more[1].val());
        assert(more2[0] == more[1]);
        lemma_prod(d[0].val(), acc[0].val(), more[1].val());
    }
}

proof fn lemma_dot_zeros(d: Seq<Rat>)
    ensures
        dot(d, crate::ad::zeros(d.len())) == 0real,
        all_wf(crate::ad::zeros(d.len())),
    decreases d.len(),
{
    crate::theory::rationals::lemma_rat_units();
    if d.len() > 0 {
        lemma_dot_zeros(d.skip(1));
        assert(crate::ad::zeros(d.len()).skip(1) =~= crate::ad::zeros(d.skip(1).len()));
        lemma_prod(d[0].val(), 0real, 0real);
    }
}

/// The direction of coordinate `i`.
pub open spec fn unit(n: nat, i: int) -> Seq<Rat> {
    Seq::new(n, |j: int| if j == i { Rat::one() } else { Rat::zero() })
}

proof fn lemma_dot_unit(n: nat, i: int, b: Seq<Rat>)
    requires
        b.len() == n,
    ensures
        0 <= i < n ==> dot(unit(n, i), b) == b[i].val(),
        !(0 <= i < n) ==> dot(unit(n, i), b) == 0real,
    decreases n,
{
    crate::theory::rationals::lemma_rat_units();
    if n > 0 {
        let u = unit(n, i);
        assert(u.skip(1) =~= unit((n - 1) as nat, i - 1));
        lemma_dot_unit((n - 1) as nat, i - 1, b.skip(1));
        lemma_prod(b[0].val(), 0real, 0real);
    }
}

/// The first part of a dual number is the value.
pub proof fn law_dual_value(e: Expr, env: Seq<(Rat, Rat)>)
    requires
        crate::ad::scoped(e, env.len()),
    ensures
        crate::ad::dual(e, env).0 == crate::ad::eval(e, firsts(env)),
    decreases e,
{
    match e {
        Expr::Var(i) => {},
        Expr::Const(q) => {},
        Expr::Neg(a) => {
            law_dual_value(*a, env);
        },
        Expr::Add(a, b) => {
            law_dual_value(*a, env);
            law_dual_value(*b, env);
        },
        Expr::Mul(a, b) => {
            law_dual_value(*a, env);
            law_dual_value(*b, env);
        },
        Expr::Let(a, b) => {
            law_dual_value(*a, env);
            let ext = seq![crate::ad::dual(*a, env)] + env;
            law_dual_value(*b, ext);
            assert(firsts(ext) =~= seq![crate::ad::eval(*a, firsts(env))] + firsts(env));
        },
        Expr::IfEq(a, b, t, f) => {
            law_dual_value(*a, env);
            law_dual_value(*b, env);
            law_dual_value(*t, env);
            law_dual_value(*f, env);
        },
    }
}

/// The backward pass pairs with each direction as the derivative in that
/// direction does: `⟨dir, pulled⟩ = ⟨dir, acc⟩ + cot · derivative`.
pub proof fn law_adjoint(e: Expr, t: Tape, env: Seq<(Rat, Rat)>, cot: Rat, acc: Seq<Rat>)
    requires
        crate::ad::scoped(e, env.len()),
        sound(e, firsts(env)),
        all_wf(seconds(env)),
        crate::ad::records(e, firsts(env), t),
        cot.wf(),
        all_wf(acc),
        acc.len() == env.len(),
    ensures
        dot(seconds(env), crate::ad::pulled(e, t, cot, acc)) == dot(seconds(env), acc) + prod(cot.val(), crate::ad::dual(e, env).1.val()),
        all_wf(crate::ad::pulled(e, t, cot, acc)),
        crate::ad::pulled(e, t, cot, acc).len() == acc.len(),
        crate::ad::dual(e, env).0.wf(),
        crate::ad::dual(e, env).1.wf(),
    decreases e,
{
    let d = seconds(env);
    let c = cot.val();
    crate::theory::rationals::lemma_rat_units();
    crate::ad::lemma_pulled_len(e, t, cot, acc);
    match (e, t) {
        (Expr::Var(i), Tape::Var(j)) => {
            let k = i as int;
            lemma_values(acc[k], cot);
            lemma_dot_update(d, acc, k, acc[k].plus(cot));
            assert(firsts(env)[k].wf() && seconds(env)[k].wf());
            lemma_prod(d[k].val(), c, 0real);
        },
        (Expr::Const(q), Tape::Const) => {
            lemma_prod(c, 0real, 0real);
        },
        (Expr::Neg(a), Tape::Neg(ta)) => {
            lemma_values(cot, cot);
            law_adjoint(*a, *ta, env, cot.negated(), acc);
            let v = crate::ad::dual(*a, env);
            lemma_values(v.0, v.0);
            lemma_values(v.1, v.1);
            let x = v.1.val();
            lemma_prod(c, x, 0real);
            lemma_prod(x, c, 0real);
            lemma_prod(-c, x, 0real);
        },
        (Expr::Add(a, b), Tape::Add(ta, tb)) => {
            law_adjoint(*a, *ta, env, cot, acc);
            law_adjoint(*b, *tb, env, cot, crate::ad::pulled(*a, *ta, cot, acc));
            let v = crate::ad::dual(*a, env);
            let w = crate::ad::dual(*b, env);
            lemma_values(v.0, w.0);
            lemma_values(v.1, w.1);
            lemma_prod(c, v.1.val(), w.1.val());
        },
        (Expr::Mul(a, b), Tape::Mul(x, y, ta, tb)) => {
            let v = crate::ad::dual(*a, env);
            let w = crate::ad::dual(*b, env);
            law_dual_value(*a, env);
            law_dual_value(*b, env);
            // Both factors are values of expressions, and so in lowest terms.
            law_adjoint(*a, *ta, env, cot, acc);
            law_adjoint(*b, *tb, env, cot, acc);
            lemma_values(cot, y@);
            lemma_values(cot, x@);
            law_adjoint(*a, *ta, env, cot.times(y@), acc);
            law_adjoint(*b, *tb, env, cot.times(x@), crate::ad::pulled(*a, *ta, cot.times(y@), acc));
            lemma_values(v.0, w.0);
            lemma_values(v.0, w.1);
            lemma_values(v.1, w.0);
            lemma_values(v.0.times(w.1), v.1.times(w.0));
            let (p, q, r, s) = (v.0.val(), v.1.val(), w.0.val(), w.1.val());
            lemma_prod(c, prod(p, s), prod(q, r));
            lemma_prod(c, p, s);
            lemma_prod(q, r, 0real);
            lemma_prod(c, r, q);
        },
        (Expr::Let(a, b), Tape::Let(ta, tb)) => {
            let v = crate::ad::dual(*a, env);
            law_dual_value(*a, env);
            law_adjoint(*a, *ta, env, cot, acc);
            let ext = seq![v] + env;
            assert(firsts(ext) =~= seq![crate::ad::eval(*a, firsts(env))] + firsts(env));
            assert forall|i: int| 0 <= i < ext.len() implies (#[trigger] seconds(ext)[i]).wf() by {
                if i > 0 {
                    assert(seconds(ext)[i] == seconds(env)[i - 1]);
                }
            }
            let zs = crate::ad::zeros(acc.len() + 1);
            lemma_dot_zeros(seconds(ext));
            assert(zs =~= crate::ad::zeros(seconds(ext).len()));
            law_adjoint(*b, *tb, ext, cot, zs);
            let inner = crate::ad::pulled(*b, *tb, cot, zs);
            assert(inner[0].wf());
            lemma_dot_merged(d, acc, inner);
            let m = crate::ad::merged(acc, inner, acc.len() as int);
            law_adjoint(*a, *ta, env, inner[0], m);
            assert(seconds(ext).skip(1) =~= d);
            assert(seconds(ext)[0] == v.1);
            lemma_prod(v.1.val(), inner[0].val(), 0real);
        },
        (Expr::IfEq(a, b, u, w), Tape::IfEq { then_branch, branch }) => {
            law_dual_value(*a, env);
            law_dual_value(*b, env);
            if then_branch {
                law_adjoint(*u, *branch, env, cot, acc);
            } else {
                law_adjoint(*w, *branch, env, cot, acc);
            }
        },
        _ => {},
    }
}

/// The values at a point, with the direction of coordinate `i`.
pub open spec fn along(env: Seq<Rat>, i: int) -> Seq<(Rat, Rat)> {
    Seq::new(env.len(), |j: int| (env[j], unit(env.len(), i)[j]))
}

/// Cotangents agree with dual numbers: with cotangent 1, coordinate `i` of the
/// backward pass is the derivative in direction `i`, as the same fraction.
pub proof fn law_cotangents_match_dual_numbers(e: Expr, t: Tape, env: Seq<Rat>, i: int)
    requires
        crate::ad::scoped(e, env.len()),
        sound(e, env),
        crate::ad::records(e, env, t),
        0 <= i < env.len(),
    ensures
        crate::ad::pulled(e, t, Rat::one(), crate::ad::zeros(env.len()))[i] == crate::ad::dual(e, along(env, i)).1,
        crate::ad::dual(e, along(env, i)).0 == crate::ad::eval(e, env),
{
    let duals = along(env, i);
    let zs = crate::ad::zeros(env.len());
    crate::theory::rationals::lemma_rat_units();
    assert(firsts(duals) =~= env);
    assert(seconds(duals) =~= unit(env.len(), i));
    assert forall|j: int| 0 <= j < seconds(duals).len() implies (#[trigger] seconds(duals)[j]).wf() by {
    }
    lemma_dot_zeros(seconds(duals));
    law_dual_value(e, duals);
    law_adjoint(e, t, duals, Rat::one(), zs);
    let p = crate::ad::pulled(e, t, Rat::one(), zs);
    lemma_dot_unit(env.len(), i, p);
    lemma_prod(crate::ad::dual(e, duals).1.val(), 0real, 0real);
    assert(p[i].wf());
    crate::theory::rationals::lemma_unique(p[i], crate::ad::dual(e, duals).1);
}

} // verus!
