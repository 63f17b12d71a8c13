use dependent_optics::fibre::{Matrix, act, identity, matrices, multiply};

#[test]
fn identity_and_multiplication_act_as_a_pseudofunctor_on_cardinalities() {
    for n in 0..=2 {
        let id = identity(n);
        for family in families(n, 2) {
            assert_eq!(act(&id, &family), family, "identity matrix");
        }
    }
    for rows in 0..=2 {
        for mid in 0..=2 {
            for cols in 0..=2 {
                for a in matrices(rows, mid, 1) {
                    for b in matrices(mid, cols, 1) {
                        let ab = multiply(&a, &b);
                        for y in families(cols, 1) {
                            let via_mul = act(&ab, &y);
                            let via_act = act(&a, &act(&b, &y));
                            assert_eq!(via_mul, via_act, "matrix action");
                        }
                        // Identity laws for the bicategory on cardinalities.
                        if mid == rows {
                            assert_eq!(multiply(&a, &identity(mid)), a);
                        }
                    }
                }
            }
        }
    }
}

#[test]
fn terminal_index_is_a_cartesian_residual() {
    for m in 0..=2 {
        for y in 0..=2 {
            let matrix = Matrix {
                rows: 1,
                cols: 1,
                blocks: vec![m],
            };
            assert_eq!(act(&matrix, &[y]), vec![m * y]);
        }
    }
}

fn families(n: u32, max_part: u32) -> Vec<Vec<u32>> {
    if n == 0 {
        return vec![vec![]];
    }
    let mut cur = vec![0u32; n as usize];
    let mut out = Vec::new();
    loop {
        out.push(cur.clone());
        let mut i = 0;
        loop {
            if i == n as usize {
                return out;
            }
            cur[i] += 1;
            if cur[i] <= max_part {
                break;
            }
            cur[i] = 0;
            i += 1;
        }
    }
}
