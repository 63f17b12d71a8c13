//! Reverse-mode differentiation with an explicit residual.
//!
//! Each primitive is a lens whose residual stores only what the backward map
//! reads. Addition stores nothing about its inputs. Multiplication stores both
//! factors and not the product. A conditional stores only the branch that was
//! taken. Cotangents are exact rationals and agree with forward-mode dual numbers.
use vstd::prelude::*;
use crate::theory::rationals::Rat;

verus! {

/// A rational number in lowest terms, with a positive denominator.
#[derive(Clone, Copy, PartialEq, Eq, Debug, Structural)]
pub struct Q {
    n: i64,
    d: i64,
}

impl View for Q {
    type V = Rat;

    closed spec fn view(&self) -> Rat {
        Rat { n: self.n as int, d: self.d as int }
    }
}

pub open spec fn in_range(x: int) -> bool {
    i64::MIN <= x <= i64::MAX
}

/// The terms of the sum of two fractions fit in machine words.
pub open spec fn sum_fits(a: Rat, b: Rat) -> bool {
    &&& in_range(a.n * b.d)
    &&& in_range(b.n * a.d)
    &&& in_range(a.n * b.d + b.n * a.d)
    &&& a.n * b.d + b.n * a.d > i64::MIN
    &&& in_range(a.d * b.d)
}

/// The terms of the product of two fractions fit in machine words.
pub open spec fn product_fits(a: Rat, b: Rat) -> bool {
    in_range(a.n * b.n) && a.n * b.n > i64::MIN && in_range(a.d * b.d)
}

impl Q {
    #[verifier::type_invariant]
    spec fn lowest(self) -> bool {
        self@.wf() && self.n > i64::MIN
    }

    /// `n / d` in lowest terms.
    pub fn new(n: i64, d: i64) -> (r: Q)
        requires
            d != 0,
            n > i64::MIN,
            d > i64::MIN,
        ensures
            r@ == Rat::norm(n as int, d as int),
            r@.wf(),
    {
        let m: i64 = if d < 0 { -n } else { n };
        let e: i64 = if d < 0 { -d } else { d };
        let a: i64 = if m < 0 { -m } else { m };
        let g: i64 = gcd(a, e);
        proof {
            crate::theory::rationals::lemma_norm(n as int, d as int);
            let (p, q, u, v) = crate::theory::rationals::lemma_gcd(a as int, e as int);
            vstd::arithmetic::div_mod::lemma_div_pos_is_pos(a as int, g as int);
            vstd::arithmetic::div_mod::lemma_div_is_ordered_by_denominator(a as int, 1, g as int);
            vstd::arithmetic::div_mod::lemma_div_is_ordered_by_denominator(e as int, 1, g as int);
        }
        let k: i64 = a / g;
        Q { n: if m < 0 { -k } else { k }, d: e / g }
    }

    pub fn add(self, o: Q) -> (r: Q)
        requires
            sum_fits(self@, o@),
        ensures
            r@ == self@.plus(o@),
            r@.wf(),
    {
        proof {
            use_type_invariant(self);
            use_type_invariant(o);
            assert(self.d * o.d > 0) by (nonlinear_arith) requires self.d > 0, o.d > 0;
        }
        Q::new(self.n * o.d + o.n * self.d, self.d * o.d)
    }

    pub fn mul(self, o: Q) -> (r: Q)
        requires
            product_fits(self@, o@),
        ensures
            r@ == self@.times(o@),
            r@.wf(),
    {
        proof {
            use_type_invariant(self);
            use_type_invariant(o);
            assert(self.d * o.d > 0) by (nonlinear_arith) requires self.d > 0, o.d > 0;
        }
        Q::new(self.n * o.n, self.d * o.d)
    }

    pub fn neg(self) -> (r: Q)
        ensures
            r@ == self@.negated(),
            r@.wf(),
    {
        proof {
            use_type_invariant(self);
        }
        Q::new(-self.n, self.d)
    }
}

/// The greatest common divisor, by Euclid's algorithm.
fn gcd(a: i64, b: i64) -> (r: i64)
    requires
        a >= 0,
        b >= 0,
    ensures
        r == crate::theory::rationals::gcd(a as int, b as int),
        r >= 1,
{
    let mut x: i64 = a;
    let mut y: i64 = b;
    while y != 0
        invariant
            x >= 0,
            y >= 0,
            crate::theory::rationals::gcd(x as int, y as int) == crate::theory::rationals::gcd(a as int, b as int),
        decreases y,
    {
        let r: i64 = x % y;
        x = y;
        y = r;
    }
    if x > 1 {
        x
    } else {
        1
    }
}

#[derive(Debug)]
pub enum Expr {
    Var(usize),
    Const(Q),
    Neg(Box<Expr>),
    Add(Box<Expr>, Box<Expr>),
    Mul(Box<Expr>, Box<Expr>),
    /// `let x = e1 in e2`, with `x` at de Bruijn index 0 in `e2`.
    Let(Box<Expr>, Box<Expr>),
    IfEq(Box<Expr>, Box<Expr>, Box<Expr>, Box<Expr>),
}

#[derive(Debug)]
pub enum Tape {
    Var(usize),
    Const,
    Neg(Box<Tape>),
    Add(Box<Tape>, Box<Tape>),
    Mul(Q, Q, Box<Tape>, Box<Tape>),
    Let(Box<Tape>, Box<Tape>),
    IfEq { then_branch: bool, branch: Box<Tape> },
}

impl Clone for Expr {
    fn clone(&self) -> (r: Expr)
        ensures
            r == *self,
        decreases self,
    {
        match self {
            Expr::Var(i) => Expr::Var(*i),
            Expr::Const(q) => Expr::Const(*q),
            Expr::Neg(a) => Expr::Neg(Box::new((&**a).clone())),
            Expr::Add(a, b) => Expr::Add(Box::new((&**a).clone()), Box::new((&**b).clone())),
            Expr::Mul(a, b) => Expr::Mul(Box::new((&**a).clone()), Box::new((&**b).clone())),
            Expr::Let(a, b) => Expr::Let(Box::new((&**a).clone()), Box::new((&**b).clone())),
            Expr::IfEq(a, b, t, e) => Expr::IfEq(
                Box::new((&**a).clone()),
                Box::new((&**b).clone()),
                Box::new((&**t).clone()),
                Box::new((&**e).clone()),
            ),
        }
    }
}

impl Clone for Tape {
    fn clone(&self) -> (r: Tape)
        ensures
            r == *self,
        decreases self,
    {
        match self {
            Tape::Var(i) => Tape::Var(*i),
            Tape::Const => Tape::Const,
            Tape::Neg(a) => Tape::Neg(Box::new((&**a).clone())),
            Tape::Add(a, b) => Tape::Add(Box::new((&**a).clone()), Box::new((&**b).clone())),
            Tape::Mul(x, y, a, b) => Tape::Mul(*x, *y, Box::new((&**a).clone()), Box::new((&**b).clone())),
            Tape::Let(a, b) => Tape::Let(Box::new((&**a).clone()), Box::new((&**b).clone())),
            Tape::IfEq { then_branch, branch } => Tape::IfEq {
                then_branch: *then_branch,
                branch: Box::new((&**branch).clone()),
            },
        }
    }
}

// ----- the forward pass -----

/// Every variable names one of `n` values.
pub open spec fn scoped(e: Expr, n: nat) -> bool
    decreases e,
{
    match e {
        Expr::Var(i) => i < n,
        Expr::Const(q) => true,
        Expr::Neg(a) => scoped(*a, n),
        Expr::Add(a, b) => scoped(*a, n) && scoped(*b, n),
        Expr::Mul(a, b) => scoped(*a, n) && scoped(*b, n),
        Expr::Let(a, b) => scoped(*a, n) && scoped(*b, n + 1),
        Expr::IfEq(a, b, t, f) => scoped(*a, n) && scoped(*b, n) && scoped(*t, n) && scoped(*f, n),
    }
}

/// The value of an expression.
pub open spec fn eval(e: Expr, env: Seq<Rat>) -> Rat
    decreases e,
{
    match e {
        Expr::Var(i) => env[i as int],
        Expr::Const(q) => q@,
        Expr::Neg(a) => eval(*a, env).negated(),
        Expr::Add(a, b) => eval(*a, env).plus(eval(*b, env)),
        Expr::Mul(a, b) => eval(*a, env).times(eval(*b, env)),
        Expr::Let(a, b) => eval(*b, seq![eval(*a, env)] + env),
        Expr::IfEq(a, b, t, f) => if eval(*a, env) == eval(*b, env) {
            eval(*t, env)
        } else {
            eval(*f, env)
        },
    }
}

/// No step of the evaluation overflows.
pub open spec fn eval_fits(e: Expr, env: Seq<Rat>) -> bool
    decreases e,
{
    match e {
        Expr::Var(i) => true,
        Expr::Const(q) => true,
        Expr::Neg(a) => eval_fits(*a, env),
        Expr::Add(a, b) => eval_fits(*a, env) && eval_fits(*b, env) && sum_fits(eval(*a, env), eval(*b, env)),
        Expr::Mul(a, b) => eval_fits(*a, env) && eval_fits(*b, env) && product_fits(eval(*a, env), eval(*b, env)),
        Expr::Let(a, b) => eval_fits(*a, env) && eval_fits(*b, seq![eval(*a, env)] + env),
        Expr::IfEq(a, b, t, f) => eval_fits(*a, env) && eval_fits(*b, env) && if eval(*a, env) == eval(*b, env) {
            eval_fits(*t, env)
        } else {
            eval_fits(*f, env)
        },
    }
}

/// The tape is the residual of the expression at `env`: it has the
/// expression's shape, both factors of each product, and the branch taken at
/// each conditional.
pub open spec fn records(e: Expr, env: Seq<Rat>, t: Tape) -> bool
    decreases e,
{
    match (e, t) {
        (Expr::Var(i), Tape::Var(j)) => i == j,
        (Expr::Const(q), Tape::Const) => true,
        (Expr::Neg(a), Tape::Neg(ta)) => records(*a, env, *ta),
        (Expr::Add(a, b), Tape::Add(ta, tb)) => records(*a, env, *ta) && records(*b, env, *tb),
        (Expr::Mul(a, b), Tape::Mul(x, y, ta, tb)) => {
            &&& x@ == eval(*a, env)
            &&& y@ == eval(*b, env)
            &&& records(*a, env, *ta)
            &&& records(*b, env, *tb)
        },
        (Expr::Let(a, b), Tape::Let(ta, tb)) => records(*a, env, *ta) && records(*b, seq![eval(*a, env)] + env, *tb),
        (Expr::IfEq(a, b, u, v), Tape::IfEq { then_branch, branch }) => {
            &&& then_branch == (eval(*a, env) == eval(*b, env))
            &&& records(
                if then_branch {
                    *u
                } else {
                    *v
                },
                env,
                *branch,
            )
        },
        _ => false,
    }
}

/// A new value in front of the others.
fn extend(v: Q, env: &[Q]) -> (r: Vec<Q>)
    ensures
        crate::theory::listing::views(r@) == seq![v@] + crate::theory::listing::views(env@),
        r@.len() == env@.len() + 1,
{
    let mut out: Vec<Q> = Vec::new();
    out.push(v);
    let mut i: usize = 0;
    while i < env.len()
        invariant
            i <= env@.len(),
            out@ == seq![v] + env@.take(i as int),
        decreases env.len() - i,
    {
        let q: Q = env[i];
        out.push(q);
        assert(env@.take(i + 1) =~= env@.take(i as int).push(env@[i as int]));
        assert(out@ =~= seq![v] + env@.take(i + 1));
        i = i + 1;
    }
    assert(env@.take(i as int) =~= env@);
    assert(crate::theory::listing::views(out@) =~= seq![v@] + crate::theory::listing::views(env@));
    out
}

/// The value of an expression, and its residual.
pub fn forward(expr: &Expr, env: &[Q]) -> (r: (Q, Tape))
    requires
        scoped(*expr, env@.len()),
        eval_fits(*expr, crate::theory::listing::views(env@)),
    ensures
        r.0@ == eval(*expr, crate::theory::listing::views(env@)),
        r.0@.wf(),
        records(*expr, crate::theory::listing::views(env@), r.1),
        crate::theory::reverse::sound(*expr, crate::theory::listing::views(env@)),
    decreases *expr,
{
    let ghost rats = crate::theory::listing::views(env@);
    match expr {
        Expr::Var(i) => {
            let v: Q = env[*i];
            proof {
                use_type_invariant(v);
                assert(rats[*i as int] == env@[*i as int]@);
            }
            (v, Tape::Var(*i))
        },
        Expr::Const(q) => {
            let v: Q = *q;
            proof {
                use_type_invariant(v);
            }
            (v, Tape::Const)
        },
        Expr::Neg(e) => {
            let (v, t) = forward(e, env);
            (v.neg(), Tape::Neg(Box::new(t)))
        },
        Expr::Add(a, b) => {
            let (va, ta) = forward(a, env);
            let (vb, tb) = forward(b, env);
            (va.add(vb), Tape::Add(Box::new(ta), Box::new(tb)))
        },
        Expr::Mul(a, b) => {
            let (va, ta) = forward(a, env);
            let (vb, tb) = forward(b, env);
            (va.mul(vb), Tape::Mul(va, vb, Box::new(ta), Box::new(tb)))
        },
        Expr::Let(bound, body) => {
            let (vb, tb) = forward(bound, env);
            let ext = extend(vb, env);
            let (v, tbody) = forward(body, ext.as_slice());
            (v, Tape::Let(Box::new(tb), Box::new(tbody)))
        },
        Expr::IfEq(c1, c2, t, e) => {
            let (v1, t1) = forward(c1, env);
            let (v2, t2) = forward(c2, env);
            if v1 == v2 {
                let (v, tape) = forward(t, env);
                (v, Tape::IfEq { then_branch: true, branch: Box::new(tape) })
            } else {
                let (v, tape) = forward(e, env);
                (v, Tape::IfEq { then_branch: false, branch: Box::new(tape) })
            }
        },
    }
}

// ----- the backward pass -----

/// The tape has the shape of the expression.
pub open spec fn shaped(e: Expr, t: Tape) -> bool
    decreases e,
{
    match (e, t) {
        (Expr::Var(i), Tape::Var(j)) => i == j,
        (Expr::Const(q), Tape::Const) => true,
        (Expr::Neg(a), Tape::Neg(ta)) => shaped(*a, *ta),
        (Expr::Add(a, b), Tape::Add(ta, tb)) => shaped(*a, *ta) && shaped(*b, *tb),
        (Expr::Mul(a, b), Tape::Mul(x, y, ta, tb)) => shaped(*a, *ta) && shaped(*b, *tb),
        (Expr::Let(a, b), Tape::Let(ta, tb)) => shaped(*a, *ta) && shaped(*b, *tb),
        (Expr::IfEq(a, b, u, v), Tape::IfEq { then_branch, branch }) => shaped(
            if then_branch {
                *u
            } else {
                *v
            },
            *branch,
        ),
        _ => false,
    }
}

/// `n` zeros.
pub open spec fn zeros(n: nat) -> Seq<Rat> {
    Seq::new(n, |i: int| Rat::zero())
}

/// The first `k` sums of `acc` and the entries of `more` after its first.
pub open spec fn merged(acc: Seq<Rat>, more: Seq<Rat>, k: int) -> Seq<Rat> {
    Seq::new(acc.len(), |i: int| if i < k { acc[i].plus(more[i + 1]) } else { acc[i] })
}

/// What the backward pass adds up: `acc` with the cotangent pulled back along
/// the expression. It reads the residual and the cotangent only.
pub open spec fn pulled(e: Expr, t: Tape, cot: Rat, acc: Seq<Rat>) -> Seq<Rat>
    decreases e,
{
    match (e, t) {
        (Expr::Var(i), Tape::Var(j)) => acc.update(i as int, acc[i as int].plus(cot)),
        (Expr::Const(q), Tape::Const) => acc,
        (Expr::Neg(a), Tape::Neg(ta)) => pulled(*a, *ta, cot.negated(), acc),
        (Expr::Add(a, b), Tape::Add(ta, tb)) => pulled(*b, *tb, cot, pulled(*a, *ta, cot, acc)),
        (Expr::Mul(a, b), Tape::Mul(x, y, ta, tb)) => pulled(
            *b,
            *tb,
            cot.times(x@),
            pulled(*a, *ta, cot.times(y@), acc),
        ),
        (Expr::Let(a, b), Tape::Let(ta, tb)) => {
            let inner = pulled(*b, *tb, cot, zeros(acc.len() + 1));
            pulled(*a, *ta, inner[0], merged(acc, inner, acc.len() as int))
        },
        (Expr::IfEq(a, b, u, v), Tape::IfEq { then_branch, branch }) => pulled(
            if then_branch {
                *u
            } else {
                *v
            },
            *branch,
            cot,
            acc,
        ),
        _ => acc,
    }
}

/// No step of the backward pass overflows.
pub open spec fn pull_fits(e: Expr, t: Tape, cot: Rat, acc: Seq<Rat>) -> bool
    decreases e,
{
    match (e, t) {
        (Expr::Var(i), Tape::Var(j)) => sum_fits(acc[i as int], cot),
        (Expr::Const(q), Tape::Const) => true,
        (Expr::Neg(a), Tape::Neg(ta)) => pull_fits(*a, *ta, cot.negated(), acc),
        (Expr::Add(a, b), Tape::Add(ta, tb)) => pull_fits(*a, *ta, cot, acc) && pull_fits(
            *b,
            *tb,
            cot,
            pulled(*a, *ta, cot, acc),
        ),
        (Expr::Mul(a, b), Tape::Mul(x, y, ta, tb)) => {
            &&& product_fits(cot, y@)
            &&& product_fits(cot, x@)
            &&& pull_fits(*a, *ta, cot.times(y@), acc)
            &&& pull_fits(*b, *tb, cot.times(x@), pulled(*a, *ta, cot.times(y@), acc))
        },
        (Expr::Let(a, b), Tape::Let(ta, tb)) => {
            let inner = pulled(*b, *tb, cot, zeros(acc.len() + 1));
            &&& pull_fits(*b, *tb, cot, zeros(acc.len() + 1))
            &&& forall|i: int| 0 <= i < acc.len() ==> sum_fits(#[trigger] acc[i], inner[i + 1])
            &&& pull_fits(*a, *ta, inner[0], merged(acc, inner, acc.len() as int))
        },
        (Expr::IfEq(a, b, u, v), Tape::IfEq { then_branch, branch }) => pull_fits(
            if then_branch {
                *u
            } else {
                *v
            },
            *branch,
            cot,
            acc,
        ),
        _ => true,
    }
}

pub proof fn lemma_pulled_len(e: Expr, t: Tape, cot: Rat, acc: Seq<Rat>)
    requires
        scoped(e, acc.len()),
    ensures
        pulled(e, t, cot, acc).len() == acc.len(),
    decreases e,
{
    match (e, t) {
        (Expr::Neg(a), Tape::Neg(ta)) => {
            lemma_pulled_len(*a, *ta, cot.negated(), acc);
        },
        (Expr::Add(a, b), Tape::Add(ta, tb)) => {
            lemma_pulled_len(*a, *ta, cot, acc);
            lemma_pulled_len(*b, *tb, cot, pulled(*a, *ta, cot, acc));
        },
        (Expr::Mul(a, b), Tape::Mul(x, y, ta, tb)) => {
            lemma_pulled_len(*a, *ta, cot.times(y@), acc);
            lemma_pulled_len(*b, *tb, cot.times(x@), pulled(*a, *ta, cot.times(y@), acc));
        },
        (Expr::Let(a, b), Tape::Let(ta, tb)) => {
            let inner = pulled(*b, *tb, cot, zeros(acc.len() + 1));
            lemma_pulled_len(*a, *ta, inner[0], merged(acc, inner, acc.len() as int));
        },
        (Expr::IfEq(a, b, u, v), Tape::IfEq { then_branch, branch }) => {
            if then_branch {
                lemma_pulled_len(*u, *branch, cot, acc);
            } else {
                lemma_pulled_len(*v, *branch, cot, acc);
            }
        },
        _ => {},
    }
}

fn zero_list(n: usize) -> (r: Vec<Q>)
    ensures
        crate::theory::listing::views(r@) == zeros(n as nat),
{
    let zero = Q::new(0, 1);
    proof {
        crate::theory::rationals::lemma_rat_units();
    }
    let mut out: Vec<Q> = Vec::new();
    let mut i: usize = 0;
    while i < n
        invariant
            i <= n,
            zero@ == Rat::zero(),
            out@.len() == i,
            forall|j: int| 0 <= j < i ==> (#[trigger] out@[j])@ == Rat::zero(),
        decreases n - i,
    {
        out.push(zero);
        i = i + 1;
    }
    assert(crate::theory::listing::views(out@) =~= zeros(n as nat));
    out
}

fn add_at(acc: &mut Vec<Q>, i: usize, v: Q)
    requires
        i < old(acc)@.len(),
        sum_fits(old(acc)@[i as int]@, v@),
    ensures
        crate::theory::listing::views(final(acc)@) == crate::theory::listing::views(old(acc)@).update(
            i as int,
            crate::theory::listing::views(old(acc)@)[i as int].plus(v@),
        ),
{
    let q: Q = acc[i];
    acc.set(i, q.add(v));
    assert(crate::theory::listing::views(acc@) =~= crate::theory::listing::views(old(acc)@).update(
        i as int,
        crate::theory::listing::views(old(acc)@)[i as int].plus(v@),
    ));
}

/// Pull the cotangent back, adding to `acc`.
fn pull(expr: &Expr, tape: &Tape, cot: Q, acc: &mut Vec<Q>)
    requires
        shaped(*expr, *tape),
        scoped(*expr, old(acc)@.len()),
        old(acc)@.len() + depth(*expr) <= usize::MAX,
        pull_fits(*expr, *tape, cot@, crate::theory::listing::views(old(acc)@)),
    ensures
        crate::theory::listing::views(final(acc)@) == pulled(
            *expr,
            *tape,
            cot@,
            crate::theory::listing::views(old(acc)@),
        ),
        final(acc)@.len() == old(acc)@.len(),
    decreases *expr,
{
    let ghost start = crate::theory::listing::views(acc@);
    proof {
        lemma_pulled_len(*expr, *tape, cot@, start);
    }
    match expr {
        Expr::Var(i) => {
            assert(start[*i as int] == acc@[*i as int]@);
            add_at(acc, *i, cot);
        },
        Expr::Const(_) => {},
        Expr::Neg(e) => {
            if let Tape::Neg(t) = tape {
                pull(e, t, cot.neg(), acc);
            }
        },
        Expr::Add(a, b) => {
            if let Tape::Add(ta, tb) = tape {
                pull(a, ta, cot, acc);
                pull(b, tb, cot, acc);
            }
        },
        Expr::Mul(a, b) => {
            if let Tape::Mul(x, y, ta, tb) = tape {
                pull(a, ta, cot.mul(*y), acc);
                pull(b, tb, cot.mul(*x), acc);
            }
        },
        Expr::Let(bound, body) => {
            if let Tape::Let(tb, tbody) = tape {
                let n: usize = acc.len();
                let mut inner = zero_list(n + 1);
                assert(inner@.len() == crate::theory::listing::views(inner@).len());
                pull(body, tbody, cot, &mut inner);
                let ghost more = crate::theory::listing::views(inner@);
                let mut i: usize = 0;
                assert(merged(start, more, 0) =~= start);
                while i < n
                    invariant
                        i <= n,
                        n == acc@.len(),
                        inner@.len() == n + 1,
                        start.len() == n,
                        more == crate::theory::listing::views(inner@),
                        forall|j: int| 0 <= j < start.len() ==> sum_fits(#[trigger] start[j], more[j + 1]),
                        crate::theory::listing::views(acc@) == merged(start, more, i as int),
                    decreases n - i,
                {
                    let v: Q = inner[i + 1];
                    proof {
                        assert(more[i + 1] == v@);
                        assert(crate::theory::listing::views(acc@)[i as int] == acc@[i as int]@);
                        assert(acc@[i as int]@ == start[i as int]);
                        assert(merged(start, more, i + 1) =~= merged(start, more, i as int).update(
                            i as int,
                            start[i as int].plus(more[i + 1]),
                        ));
                    }
                    let ghost before = acc@;
                    add_at(acc, i, v);
                    proof {
                        assert(crate::theory::listing::views(acc@).len() == crate::theory::listing::views(before).len());
                    }
                    i = i + 1;
                }
                let bound_cot: Q = inner[0];
                assert(more[0] == bound_cot@);
                pull(bound, tb, bound_cot, acc);
            }
        },
        Expr::IfEq(_, _, then_e, else_e) => {
            if let Tape::IfEq { then_branch, branch } = tape {
                if *then_branch {
                    pull(then_e, branch, cot, acc);
                } else {
                    pull(else_e, branch, cot, acc);
                }
            }
        },
    }
}

/// How many `let`s enclose a subexpression at most.
pub open spec fn depth(e: Expr) -> nat
    decreases e,
{
    match e {
        Expr::Var(i) => 0,
        Expr::Const(q) => 0,
        Expr::Neg(a) => depth(*a),
        Expr::Add(a, b) => larger(depth(*a), depth(*b)),
        Expr::Mul(a, b) => larger(depth(*a), depth(*b)),
        Expr::Let(a, b) => larger(depth(*a), 1 + depth(*b)),
        Expr::IfEq(a, b, t, f) => larger(depth(*t), depth(*f)),
    }
}

pub open spec fn larger(a: nat, b: nat) -> nat {
    if a < b {
        b
    } else {
        a
    }
}

/// The cotangent of each value of the environment.
pub fn backward(expr: &Expr, tape: &Tape, cot: Q, env_len: usize) -> (r: Vec<Q>)
    requires
        shaped(*expr, *tape),
        scoped(*expr, env_len as nat),
        env_len + depth(*expr) <= usize::MAX,
        pull_fits(*expr, *tape, cot@, zeros(env_len as nat)),
    ensures
        crate::theory::listing::views(r@) == pulled(*expr, *tape, cot@, zeros(env_len as nat)),
        r@.len() == env_len,
{
    let mut acc = zero_list(env_len);
    assert(acc@.len() == crate::theory::listing::views(acc@).len());
    pull(expr, tape, cot, &mut acc);
    acc
}

// ----- what a residual stores -----

/// The scalars that a tape holds.
pub open spec fn stored(t: Tape) -> Seq<Rat>
    decreases t,
{
    match t {
        Tape::Var(i) => Seq::empty(),
        Tape::Const => Seq::empty(),
        Tape::Neg(a) => stored(*a),
        Tape::Add(a, b) => stored(*a) + stored(*b),
        Tape::Mul(x, y, a, b) => seq![x@, y@] + stored(*a) + stored(*b),
        Tape::Let(a, b) => stored(*a) + stored(*b),
        Tape::IfEq { then_branch, branch } => stored(*branch),
    }
}

/// Rational scalars stored for the backward pass, not the shape of the tape.
pub fn stored_scalars(tape: &Tape) -> (r: Vec<Q>)
    ensures
        crate::theory::listing::views(r@) == stored(*tape),
    decreases *tape,
{
    match tape {
        Tape::Var(_) => {
            let out: Vec<Q> = Vec::new();
            assert(crate::theory::listing::views(out@) =~= Seq::<Rat>::empty());
            out
        },
        Tape::Const => {
            let out: Vec<Q> = Vec::new();
            assert(crate::theory::listing::views(out@) =~= Seq::<Rat>::empty());
            out
        },
        Tape::Neg(t) => stored_scalars(t),
        Tape::Add(a, b) => {
            let mut v = stored_scalars(a);
            let mut w = stored_scalars(b);
            proof {
                crate::theory::listing::lemma_views_add(v@, w@);
            }
            v.append(&mut w);
            v
        },
        Tape::Let(a, b) => {
            let mut v = stored_scalars(a);
            let mut w = stored_scalars(b);
            proof {
                crate::theory::listing::lemma_views_add(v@, w@);
            }
            v.append(&mut w);
            v
        },
        Tape::Mul(x, y, a, b) => {
            let mut out: Vec<Q> = Vec::new();
            out.push(*x);
            out.push(*y);
            assert(crate::theory::listing::views(out@) =~= seq![x@, y@]);
            let mut v = stored_scalars(a);
            proof {
                crate::theory::listing::lemma_views_add(out@, v@);
            }
            out.append(&mut v);
            let mut w = stored_scalars(b);
            proof {
                crate::theory::listing::lemma_views_add(out@, w@);
            }
            out.append(&mut w);
            out
        },
        Tape::IfEq { then_branch, branch } => stored_scalars(branch),
    }
}

/// What the backward pass reads of the values at `env`: the factors of each
/// product on the branches that are taken, and nothing else.
pub open spec fn needed(e: Expr, env: Seq<Rat>) -> Seq<Rat>
    decreases e,
{
    match e {
        Expr::Var(i) => Seq::empty(),
        Expr::Const(q) => Seq::empty(),
        Expr::Neg(a) => needed(*a, env),
        Expr::Add(a, b) => needed(*a, env) + needed(*b, env),
        Expr::Mul(a, b) => seq![eval(*a, env), eval(*b, env)] + needed(*a, env) + needed(*b, env),
        Expr::Let(a, b) => needed(*a, env) + needed(*b, seq![eval(*a, env)] + env),
        Expr::IfEq(a, b, t, f) => if eval(*a, env) == eval(*b, env) {
            needed(*t, env)
        } else {
            needed(*f, env)
        },
    }
}

/// A residual stores exactly what the backward pass reads, and has the shape
/// that the backward pass expects.
pub proof fn law_residual(e: Expr, env: Seq<Rat>, t: Tape)
    requires
        records(e, env, t),
    ensures
        stored(t) == needed(e, env),
        shaped(e, t),
    decreases e,
{
    match (e, t) {
        (Expr::Neg(a), Tape::Neg(ta)) => {
            law_residual(*a, env, *ta);
        },
        (Expr::Add(a, b), Tape::Add(ta, tb)) => {
            law_residual(*a, env, *ta);
            law_residual(*b, env, *tb);
        },
        (Expr::Mul(a, b), Tape::Mul(x, y, ta, tb)) => {
            law_residual(*a, env, *ta);
            law_residual(*b, env, *tb);
        },
        (Expr::Let(a, b), Tape::Let(ta, tb)) => {
            law_residual(*a, env, *ta);
            law_residual(*b, seq![eval(*a, env)] + env, *tb);
        },
        (Expr::IfEq(a, b, u, v), Tape::IfEq { then_branch, branch }) => {
            if then_branch {
                law_residual(*u, env, *branch);
            } else {
                law_residual(*v, env, *branch);
            }
        },
        _ => {},
    }
}

// ----- dual numbers -----

/// A dual number `re + eps · ε`.
#[derive(Clone, Copy, Debug)]
pub struct Dual {
    pub re: Q,
    pub eps: Q,
}

impl View for Dual {
    type V = (Rat, Rat);

    open spec fn view(&self) -> (Rat, Rat) {
        (self.re@, self.eps@)
    }
}

/// The value and the derivative of an expression.
pub open spec fn dual(e: Expr, env: Seq<(Rat, Rat)>) -> (Rat, Rat)
    decreases e,
{
    match e {
        Expr::Var(i) => env[i as int],
        Expr::Const(q) => (q@, Rat::zero()),
        Expr::Neg(a) => {
            let v = dual(*a, env);
            (v.0.negated(), v.1.negated())
        },
        Expr::Add(a, b) => {
            let v = dual(*a, env);
            let w = dual(*b, env);
            (v.0.plus(w.0), v.1.plus(w.1))
        },
        Expr::Mul(a, b) => {
            let v = dual(*a, env);
            let w = dual(*b, env);
            (v.0.times(w.0), v.0.times(w.1).plus(v.1.times(w.0)))
        },
        Expr::Let(a, b) => dual(*b, seq![dual(*a, env)] + env),
        Expr::IfEq(a, b, t, f) => if dual(*a, env).0 == dual(*b, env).0 {
            dual(*t, env)
        } else {
            dual(*f, env)
        },
    }
}

/// No step of the evaluation in dual numbers overflows.
pub open spec fn dual_fits(e: Expr, env: Seq<(Rat, Rat)>) -> bool
    decreases e,
{
    match e {
        Expr::Var(i) => true,
        Expr::Const(q) => true,
        Expr::Neg(a) => dual_fits(*a, env),
        Expr::Add(a, b) => {
            let v = dual(*a, env);
            let w = dual(*b, env);
            dual_fits(*a, env) && dual_fits(*b, env) && sum_fits(v.0, w.0) && sum_fits(v.1, w.1)
        },
        Expr::Mul(a, b) => {
            let v = dual(*a, env);
            let w = dual(*b, env);
            &&& dual_fits(*a, env)
            &&& dual_fits(*b, env)
            &&& product_fits(v.0, w.0)
            &&& product_fits(v.0, w.1)
            &&& product_fits(v.1, w.0)
            &&& sum_fits(v.0.times(w.1), v.1.times(w.0))
        },
        Expr::Let(a, b) => dual_fits(*a, env) && dual_fits(*b, seq![dual(*a, env)] + env),
        Expr::IfEq(a, b, t, f) => dual_fits(*a, env) && dual_fits(*b, env) && if dual(*a, env).0 == dual(*b, env).0 {
            dual_fits(*t, env)
        } else {
            dual_fits(*f, env)
        },
    }
}

/// A new dual number in front of the others.
fn extend_dual(v: Dual, env: &[Dual]) -> (r: Vec<Dual>)
    ensures
        crate::theory::listing::views(r@) == seq![v@] + crate::theory::listing::views(env@),
        r@.len() == env@.len() + 1,
{
    let mut out: Vec<Dual> = Vec::new();
    out.push(v);
    let mut i: usize = 0;
    while i < env.len()
        invariant
            i <= env@.len(),
            out@ == seq![v] + env@.take(i as int),
        decreases env.len() - i,
    {
        let q: Dual = env[i];
        out.push(q);
        assert(env@.take(i + 1) =~= env@.take(i as int).push(env@[i as int]));
        assert(out@ =~= seq![v] + env@.take(i + 1));
        i = i + 1;
    }
    assert(env@.take(i as int) =~= env@);
    assert(crate::theory::listing::views(out@) =~= seq![v@] + crate::theory::listing::views(env@));
    out
}

/// Forward-mode differentiation.
pub fn dual_eval(expr: &Expr, env: &[Dual]) -> (r: Dual)
    requires
        scoped(*expr, env@.len()),
        dual_fits(*expr, crate::theory::listing::views(env@)),
    ensures
        r@ == dual(*expr, crate::theory::listing::views(env@)),
    decreases *expr,
{
    let ghost duals = crate::theory::listing::views(env@);
    match expr {
        Expr::Var(i) => {
            assert(duals[*i as int] == env@[*i as int]@);
            env[*i]
        },
        Expr::Const(q) => {
            let zero = Q::new(0, 1);
            proof {
                crate::theory::rationals::lemma_rat_units();
            }
            Dual { re: *q, eps: zero }
        },
        Expr::Neg(e) => {
            let v = dual_eval(e, env);
            Dual { re: v.re.neg(), eps: v.eps.neg() }
        },
        Expr::Add(a, b) => {
            let va = dual_eval(a, env);
            let vb = dual_eval(b, env);
            Dual { re: va.re.add(vb.re), eps: va.eps.add(vb.eps) }
        },
        Expr::Mul(a, b) => {
            let va = dual_eval(a, env);
            let vb = dual_eval(b, env);
            Dual { re: va.re.mul(vb.re), eps: va.re.mul(vb.eps).add(va.eps.mul(vb.re)) }
        },
        Expr::Let(bound, body) => {
            let vb = dual_eval(bound, env);
            let ext = extend_dual(vb, env);
            dual_eval(body, ext.as_slice())
        },
        Expr::IfEq(c1, c2, t, e) => {
            let v1 = dual_eval(c1, env);
            let v2 = dual_eval(c2, env);
            if v1.re == v2.re {
                dual_eval(t, env)
            } else {
                dual_eval(e, env)
            }
        },
    }
}

} // verus!
