use lab1::matrix::{BlockMatrix, Tile, BLOCK};
use lab1::multiply::{matmul, mul_add_tile, mul_add_tile_lanes};

fn fma(acc: i64, x: &i64, y: &i64) -> i64 {
    acc + x * y
}

fn tile_from(f: impl Fn(usize, usize) -> i64) -> Tile<i64> {
    let mut t = [[0i64; BLOCK]; BLOCK];
    for r in 0..BLOCK {
        for s in 0..BLOCK {
            t[r][s] = f(r, s);
        }
    }
    t
}

#[test]
fn scalar_times_identity() {
    let mut c = [[0.0f32; BLOCK]; BLOCK];
    let a = [[2.0f32; BLOCK]; BLOCK];
    let mut b = [[0.0f32; BLOCK]; BLOCK];
    for i in 0..BLOCK {
        b[i][i] = 1.0;
    }
    mul_add_tile(&mut c, &a, &b, |acc: f32, x: &f32, y: &f32| acc + *x * *y);
    for i in 0..BLOCK {
        for j in 0..BLOCK {
            assert!((c[i][j] - a[i][j]).abs() < 1e-5);
        }
    }
}

#[test]
fn tile_times_identity() {
    let a = tile_from(|_, _| 2);
    let b = tile_from(|r, s| if r == s { 1 } else { 0 });
    let mut c = tile_from(|_, _| 0);
    mul_add_tile(&mut c, &a, &b, fma);
    assert_eq!(c, a);
}

#[test]
fn tile_accumulates_into_existing_values() {
    let a = tile_from(|r, s| (r * 3 + s) as i64 - 7);
    let b = tile_from(|r, s| (r as i64) - 2 * (s as i64));
    let c0 = tile_from(|r, s| (r + s) as i64);
    let mut c = c0;
    mul_add_tile(&mut c, &a, &b, fma);
    for r in 0..BLOCK {
        for s in 0..BLOCK {
            let mut want = c0[r][s];
            for k in 0..BLOCK {
                want += a[r][k] * b[k][s];
            }
            assert_eq!(c[r][s], want);
        }
    }
}

#[test]
fn tile_update_order_is_k_ascending() {
    // A non-commutative step records the order in which k reaches each scalar.
    let a = tile_from(|_, k| k as i64);
    let b = tile_from(|_, _| 0);
    let mut c = tile_from(|_, _| 0);
    mul_add_tile(&mut c, &a, &b, |acc: i64, x: &i64, _y: &i64| acc * 16 + x);
    let mut want = 0i64;
    for k in 0..BLOCK {
        want = want * 16 + k as i64;
    }
    assert!(c.iter().all(|row| row.iter().all(|&v| v == want)));
}

#[test]
fn matmul_of_scalars_is_the_matrix_product() {
    let a = BlockMatrix { rows: 2, cols: 3, data: vec![1i64, 2, 3, 4, 5, 6] };
    let b = BlockMatrix { rows: 3, cols: 2, data: vec![7i64, 8, 9, 10, 11, 12] };
    let c = matmul(&a, &b, 0i64, fma);
    assert_eq!(c.rows, 2);
    assert_eq!(c.cols, 2);
    assert_eq!(c.data, vec![58, 64, 139, 154]);
}

#[test]
fn matmul_starts_every_tile_at_zero() {
    let a = BlockMatrix { rows: 1, cols: 1, data: vec![3i64] };
    let b = BlockMatrix { rows: 1, cols: 1, data: vec![4i64] };
    let c = matmul(&a, &b, 100i64, fma);
    assert_eq!(c.data, vec![112]);
}

#[test]
fn matmul_with_empty_inner_dimension_keeps_zero() {
    let a: BlockMatrix<i64> = BlockMatrix { rows: 2, cols: 0, data: vec![] };
    let b: BlockMatrix<i64> = BlockMatrix { rows: 0, cols: 3, data: vec![] };
    let c = matmul(&a, &b, 5i64, fma);
    assert_eq!((c.rows, c.cols), (2, 3));
    assert_eq!(c.data, vec![5; 6]);
}

#[test]
fn matmul_order_is_k_ascending() {
    let a = BlockMatrix { rows: 1, cols: 4, data: vec![1i64, 2, 3, 4] };
    let b = BlockMatrix { rows: 4, cols: 1, data: vec![0i64, 0, 0, 0] };
    let c = matmul(&a, &b, 0i64, |acc: i64, x: &i64, _y: &i64| acc * 10 + x);
    assert_eq!(c.data, vec![1234]);
}

#[test]
fn matmul_of_tiles_matches_flat_product() {
    // 2x2 tiles by 2x1 tiles: a 24x24 by 24x12 product of integers.
    let a_full = |r: usize, c: usize| ((r * 7 + c * 3) % 11) as i64 - 5;
    let b_full = |r: usize, c: usize| ((r * 5 + c * 2) % 13) as i64 - 6;
    let mut a = BlockMatrix::zeros(2, 2, [[0i64; BLOCK]; BLOCK]);
    for i in 0..2 {
        for k in 0..2 {
            *a.get_mut(i, k) = tile_from(|r, s| a_full(i * BLOCK + r, k * BLOCK + s));
        }
    }
    let mut b = BlockMatrix::zeros(2, 1, [[0i64; BLOCK]; BLOCK]);
    for k in 0..2 {
        *b.get_mut(k, 0) = tile_from(|r, s| b_full(k * BLOCK + r, s));
    }
    let kernel = |c: Tile<i64>, x: &Tile<i64>, y: &Tile<i64>| {
        let mut c = c;
        mul_add_tile(&mut c, x, y, fma);
        c
    };
    let c = matmul(&a, &b, [[0i64; BLOCK]; BLOCK], kernel);
    assert_eq!((c.rows, c.cols), (2, 1));
    for i in 0..2 {
        for r in 0..BLOCK {
            for s in 0..BLOCK {
                let mut want = 0;
                for k in 0..2 * BLOCK {
                    want += a_full(i * BLOCK + r, k) * b_full(k, s);
                }
                assert_eq!(c.get(i, 0)[r][s], want);
            }
        }
    }
}

#[test]
fn kernels_computing_the_same_function_agree() {
    let a = BlockMatrix::from_seed(3, 2, 1);
    let b = BlockMatrix::from_seed(2, 3, 2);
    let to_i64 = |m: &BlockMatrix<lab1::matrix::RawBlock>| BlockMatrix {
        rows: m.rows,
        cols: m.cols,
        data: m.data.iter().map(|t| tile_from(|r, s| t.data[r][s] as i64 - 0x40_0000)).collect::<Vec<_>>(),
    };
    let (a, b) = (to_i64(&a), to_i64(&b));
    let plain = |c: Tile<i64>, x: &Tile<i64>, y: &Tile<i64>| {
        let mut c = c;
        mul_add_tile(&mut c, x, y, fma);
        c
    };
    let wrapped = |c: Tile<i64>, x: &Tile<i64>, y: &Tile<i64>| {
        let mut c = c;
        mul_add_tile(&mut c, x, y, |acc: i64, p: &i64, q: &i64| acc.wrapping_add(p.wrapping_mul(*q)));
        c
    };
    let c1 = matmul(&a, &b, [[0i64; BLOCK]; BLOCK], plain);
    let c2 = matmul(&a, &b, [[0i64; BLOCK]; BLOCK], wrapped);
    assert_eq!(c1.data, c2.data);
}

fn lanes_fma(acc: [i64; 4], x: &i64, ys: &[i64; 4]) -> [i64; 4] {
    [acc[0] + x * ys[0], acc[1] + x * ys[1], acc[2] + x * ys[2], acc[3] + x * ys[3]]
}

#[test]
fn lane_tile_matches_scalar_tile() {
    let a = tile_from(|r, s| (r * 5 + s * 3) as i64 % 9 - 4);
    let b = tile_from(|r, s| (r * 2 + s * 7) as i64 % 11 - 5);
    let c0 = tile_from(|r, s| (r as i64) - (s as i64));
    let mut scalar = c0;
    mul_add_tile(&mut scalar, &a, &b, fma);
    let mut lanes = c0;
    mul_add_tile_lanes(&mut lanes, &a, &b, lanes_fma);
    assert_eq!(lanes, scalar);
}

#[test]
fn lane_tile_times_identity_in_floats() {
    let mut c = [[0.0f32; BLOCK]; BLOCK];
    let a = [[2.0f32; BLOCK]; BLOCK];
    let mut b = [[0.0f32; BLOCK]; BLOCK];
    for i in 0..BLOCK {
        b[i][i] = 1.0;
    }
    mul_add_tile_lanes(&mut c, &a, &b, |acc: [f32; 4], x: &f32, ys: &[f32; 4]| {
        [acc[0] + *x * ys[0], acc[1] + *x * ys[1], acc[2] + *x * ys[2], acc[3] + *x * ys[3]]
    });
    for i in 0..BLOCK {
        for j in 0..BLOCK {
            assert!((c[i][j] - a[i][j]).abs() < 1e-5);
        }
    }
}

#[test]
fn lane_groups_cover_each_row_in_three_steps_per_k() {
    // Count the steps each lane group receives and record the order of k.
    let a = tile_from(|_, k| k as i64);
    let b = tile_from(|_, _| 0);
    let mut c = tile_from(|_, _| 0);
    mul_add_tile_lanes(&mut c, &a, &b, |acc: [i64; 4], x: &i64, _ys: &[i64; 4]| {
        [acc[0] * 16 + x, acc[1] * 16 + x, acc[2] * 16 + x, acc[3] * 16 + x]
    });
    let mut want = 0i64;
    for k in 0..BLOCK {
        want = want * 16 + k as i64;
    }
    assert!(c.iter().all(|row| row.iter().all(|&v| v == want)));
}
