use dependent_optics::ad::{backward, dual_eval, forward, stored_scalars, Dual, Expr, Q};

fn q(n: i64) -> Q {
    Q::new(n, 1)
}

fn catalogue() -> Vec<(Expr, usize)> {
    let x = || Expr::Var(0);
    let y = || Expr::Var(1);
    vec![
        (
            Expr::Add(
                Box::new(Expr::Mul(Box::new(x()), Box::new(x()))),
                Box::new(y()),
            ),
            2,
        ),
        (
            Expr::Let(
                Box::new(Expr::Mul(Box::new(Expr::Var(0)), Box::new(Expr::Var(1)))),
                Box::new(Expr::Add(Box::new(Expr::Var(0)), Box::new(Expr::Var(0)))),
            ),
            2,
        ),
        (Expr::Var(0), 2),
        (
            Expr::IfEq(
                Box::new(x()),
                Box::new(Expr::Const(q(0))),
                Box::new(y()),
                Box::new(Expr::Mul(Box::new(x()), Box::new(y()))),
            ),
            2,
        ),
        (Expr::Add(Box::new(x()), Box::new(y())), 2),
        (Expr::Mul(Box::new(x()), Box::new(y())), 2),
        (Expr::Neg(Box::new(x())), 1),
    ]
}

#[test]
fn residuals_store_only_what_the_backward_pass_reads() {
    let env = [q(3), q(4)];
    let (_v, add) = forward(
        &Expr::Add(Box::new(Expr::Var(0)), Box::new(Expr::Var(1))),
        &env,
    );
    assert!(stored_scalars(&add).is_empty(), "addition stores no primal");
    let (_v, neg) = forward(&Expr::Neg(Box::new(Expr::Var(0))), &env);
    assert!(stored_scalars(&neg).is_empty());
    let (_v, mul) = forward(
        &Expr::Mul(Box::new(Expr::Var(0)), Box::new(Expr::Var(1))),
        &env,
    );
    assert_eq!(stored_scalars(&mul), vec![q(3), q(4)]);
    let (_v, proj) = forward(&Expr::Var(0), &env);
    assert!(
        stored_scalars(&proj).is_empty(),
        "a projection stores nothing"
    );
    let (_v, branch_then) = forward(
        &Expr::IfEq(
            Box::new(Expr::Var(0)),
            Box::new(Expr::Const(q(3))),
            Box::new(Expr::Var(1)),
            Box::new(Expr::Mul(Box::new(Expr::Var(0)), Box::new(Expr::Var(1)))),
        ),
        &env,
    );
    assert!(
        stored_scalars(&branch_then).is_empty(),
        "taken branch is a projection"
    );
    let (_v, branch_else) = forward(
        &Expr::IfEq(
            Box::new(Expr::Var(0)),
            Box::new(Expr::Const(q(0))),
            Box::new(Expr::Var(1)),
            Box::new(Expr::Mul(Box::new(Expr::Var(0)), Box::new(Expr::Var(1)))),
        ),
        &env,
    );
    assert_eq!(stored_scalars(&branch_else), vec![q(3), q(4)]);
}

#[test]
fn cotangents_match_dual_numbers() {
    for (expr, arity) in catalogue() {
        let coords = [-2, -1, 0, 1, 2];
        let points: Vec<Vec<Q>> = if arity == 1 {
            coords.iter().map(|x| vec![q(*x)]).collect()
        } else {
            coords
                .iter()
                .flat_map(|x| coords.iter().map(move |y| vec![q(*x), q(*y)]))
                .collect()
        };
        for point in points {
            for dir in 0..arity {
                let mut dual_env = Vec::new();
                for (i, v) in point.iter().enumerate() {
                    dual_env.push(Dual {
                        re: *v,
                        eps: if i == dir { q(1) } else { q(0) },
                    });
                }
                let dual = dual_eval(&expr, &dual_env);
                let (value, tape) = forward(&expr, &point);
                assert_eq!(value, dual.re);
                let cot = backward(&expr, &tape, q(1), arity);
                assert_eq!(cot[dir], dual.eps, "direction {dir} at {point:?}");
                // The backward pass is determined by the residual and the
                // cotangent, which is the representative-free interface.
                let again = backward(&expr, &tape, q(1), arity);
                assert_eq!(again, cot);
            }
        }
    }
}
