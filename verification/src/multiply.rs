//! Multiply-accumulate schedules: scalars inside one tile, one at a time or four adjacent ones
//! at a time, and tiles inside a block matrix.
//!
//! The loops run `i`, then `k`, then `j`, and update the output cell `(i, j)` with the
//! element pair `(a[i][k], b[k][j])`. The arithmetic of one update is supplied by the caller
//! as a step function, so the schedule is stated for any element type: every output cell is
//! the fold of the step over `k = 0, 1, ...` in ascending order.
use vstd::prelude::*;
use crate::matrix::{BLOCK, BlockMatrix, Tile, flat_index, lemma_flat_index_bounds, lemma_flat_index_injective};

verus! {

/// `states` records a run of `step` over the pairs `(xs[k], ys[k])`, `k` ascending, from `init`:
/// `states[0] == init` and each `states[k + 1]` is a possible result of
/// `step(states[k], &xs[k], &ys[k])`.
pub open spec fn is_trace<S, X, Y, F: Fn(S, &X, &Y) -> S>(
    step: F,
    init: S,
    xs: Seq<X>,
    ys: Seq<Y>,
    states: Seq<S>,
) -> bool {
    &&& ys.len() == xs.len()
    &&& states.len() == xs.len() + 1
    &&& states[0] == init
    &&& forall|k: int|
        #![trigger states[k], xs[k]]
        0 <= k < xs.len() ==> call_ensures(step, (states[k], &xs[k], &ys[k]), states[k + 1])
}

/// `acc` is a possible outcome of folding `step` over the pairs `(xs[k], ys[k])`, `k` ascending,
/// starting from `init`: `acc_0 = init` and `acc_(k+1) = step(acc_k, &xs[k], &ys[k])`.
pub open spec fn accumulates<S, X, Y, F: Fn(S, &X, &Y) -> S>(
    step: F,
    init: S,
    xs: Seq<X>,
    ys: Seq<Y>,
    acc: S,
) -> bool {
    exists|states: Seq<S>| #[trigger] is_trace(step, init, xs, ys, states) && states.last() == acc
}

/// Folding over no pairs leaves the start value.
pub proof fn lemma_accumulates_empty<S, X, Y, F: Fn(S, &X, &Y) -> S>(
    step: F,
    init: S,
    xs: Seq<X>,
    ys: Seq<Y>,
)
    requires
        xs.len() == 0,
        ys.len() == 0,
    ensures
        accumulates(step, init, xs, ys, init),
{
    assert(is_trace(step, init, xs, ys, seq![init]));
}

/// Folding one more pair extends an accumulation by one step.
pub proof fn lemma_accumulates_push<S, X, Y, F: Fn(S, &X, &Y) -> S>(
    step: F,
    init: S,
    xs: Seq<X>,
    ys: Seq<Y>,
    prev: S,
    x: X,
    y: Y,
    next: S,
)
    requires
        accumulates(step, init, xs, ys, prev),
        call_ensures(step, (prev, &x, &y), next),
    ensures
        accumulates(step, init, xs.push(x), ys.push(y), next),
{
    let states = choose|states: Seq<S>| #[trigger] is_trace(step, init, xs, ys, states) && states.last() == prev;
    let longer = states.push(next);
    assert forall|k: int|
        #![trigger longer[k], xs.push(x)[k]]
        0 <= k < xs.push(x).len() implies call_ensures(
            step,
            (longer[k], &xs.push(x)[k], &ys.push(y)[k]),
            longer[k + 1],
        ) by {
        if k < xs.len() {
            assert(states[k] == longer[k]);
            assert(xs[k] == xs.push(x)[k]);
        }
    }
    assert(is_trace(step, init, xs.push(x), ys.push(y), longer));
}

/// Left fold of `f` over the pairs `(xs[k], ys[k])`, `k` ascending, starting from `init`.
pub open spec fn fold_pairs<S, X, Y>(f: spec_fn(S, X, Y) -> S, init: S, xs: Seq<X>, ys: Seq<Y>) -> S
    decreases xs.len(),
{
    if xs.len() == 0 {
        init
    } else {
        f(fold_pairs(f, init, xs.drop_last(), ys.drop_last()), xs.last(), ys.last())
    }
}

/// Every outcome of `step(acc, &x, &y)` is `f(acc, x, y)`.
pub open spec fn computes<S, X, Y, F: Fn(S, &X, &Y) -> S>(step: F, f: spec_fn(S, X, Y) -> S) -> bool {
    forall|acc: S, x: X, y: Y, r: S| #[trigger] call_ensures(step, (acc, &x, &y), r) ==> r == f(acc, x, y)
}

proof fn lemma_trace_prefix<S, X, Y, F: Fn(S, &X, &Y) -> S>(
    step: F,
    f: spec_fn(S, X, Y) -> S,
    init: S,
    xs: Seq<X>,
    ys: Seq<Y>,
    states: Seq<S>,
    j: int,
)
    requires
        computes(step, f),
        is_trace(step, init, xs, ys, states),
        0 <= j <= xs.len(),
    ensures
        states[j] == fold_pairs(f, init, xs.take(j), ys.take(j)),
    decreases j,
{
    if j > 0 {
        lemma_trace_prefix(step, f, init, xs, ys, states, j - 1);
        assert(xs.take(j).drop_last() =~= xs.take(j - 1));
        assert(ys.take(j).drop_last() =~= ys.take(j - 1));
        assert(call_ensures(step, (states[j - 1], &xs[j - 1], &ys[j - 1]), states[j]));
    }
}

/// When every step is a function `f` of its inputs, an accumulation is exactly the left fold
/// of `f`: the schedule leaves no freedom in the result.
pub proof fn lemma_accumulates_is_fold<S, X, Y, F: Fn(S, &X, &Y) -> S>(
    step: F,
    f: spec_fn(S, X, Y) -> S,
    init: S,
    xs: Seq<X>,
    ys: Seq<Y>,
    acc: S,
)
    requires
        computes(step, f),
        accumulates(step, init, xs, ys, acc),
    ensures
        acc == fold_pairs(f, init, xs, ys),
{
    let states = choose|states: Seq<S>| #[trigger] is_trace(step, init, xs, ys, states) && states.last() == acc;
    lemma_trace_prefix(step, f, init, xs, ys, states, xs.len() as int);
    assert(xs.take(xs.len() as int) =~= xs);
    assert(ys.take(ys.len() as int) =~= ys);
}

/// Two step functions that compute the same function accumulate to the same value.
pub proof fn lemma_accumulates_agree<S, X, Y, F: Fn(S, &X, &Y) -> S, G: Fn(S, &X, &Y) -> S>(
    step1: F,
    step2: G,
    f: spec_fn(S, X, Y) -> S,
    init: S,
    xs: Seq<X>,
    ys: Seq<Y>,
    acc1: S,
    acc2: S,
)
    requires
        computes(step1, f),
        computes(step2, f),
        accumulates(step1, init, xs, ys, acc1),
        accumulates(step2, init, xs, ys, acc2),
    ensures
        acc1 == acc2,
{
    lemma_accumulates_is_fold(step1, f, init, xs, ys, acc1);
    lemma_accumulates_is_fold(step2, f, init, xs, ys, acc2);
}

/// The first `len` scalars of row `r` of a tile.
pub open spec fn tile_row<T>(a: Tile<T>, r: int, len: int) -> Seq<T> {
    Seq::new(len as nat, |k: int| a[r][k])
}

/// The first `len` scalars of column `s` of a tile.
pub open spec fn tile_col<T>(b: Tile<T>, s: int, len: int) -> Seq<T> {
    Seq::new(len as nat, |k: int| b[k][s])
}

/// The first `len` tiles of row `i` of a block matrix.
pub open spec fn row_tiles<B>(a: BlockMatrix<B>, i: int, len: int) -> Seq<B> {
    Seq::new(len as nat, |k: int| a.tile(i, k))
}

/// The first `len` tiles of column `j` of a block matrix.
pub open spec fn col_tiles<B>(b: BlockMatrix<B>, j: int, len: int) -> Seq<B> {
    Seq::new(len as nat, |k: int| b.tile(k, j))
}

/// `c` is a possible result of `c0 += a * b` on tiles with the scalar update `fma`: every
/// scalar `(r, s)` is the fold of `fma` over `(a[r][k], b[k][s])`, `k` ascending, from `c0[r][s]`.
pub open spec fn is_tile_product<T, F: Fn(T, &T, &T) -> T>(
    fma: F,
    c0: Tile<T>,
    a: Tile<T>,
    b: Tile<T>,
    c: Tile<T>,
) -> bool {
    forall|r: int, s: int|
        0 <= r < BLOCK && 0 <= s < BLOCK ==> accumulates(
            fma,
            c0[r][s],
            tile_row(a, r, BLOCK as int),
            tile_col(b, s, BLOCK as int),
            #[trigger] c[r][s],
        )
}

/// `c` is a possible result of the block product `a * b` with the tile update `kernel` and the
/// zero tile `zero`: `c` is `a.rows × b.cols`, and every tile `(i, j)` is the fold of `kernel`
/// over `(a(i, k), b(k, j))`, `k` ascending, from `zero`.
pub open spec fn is_product<B, F: Fn(B, &B, &B) -> B>(
    kernel: F,
    zero: B,
    a: BlockMatrix<B>,
    b: BlockMatrix<B>,
    c: BlockMatrix<B>,
) -> bool {
    &&& c.wf()
    &&& c.rows == a.rows
    &&& c.cols == b.cols
    &&& forall|i: int, j: int|
        0 <= i < c.rows && 0 <= j < c.cols ==> accumulates(
            kernel,
            zero,
            row_tiles(a, i, a.cols as int),
            col_tiles(b, j, b.rows as int),
            #[trigger] c.tile(i, j),
        )
}

/// Two tile updates that compute the same scalar function give the same tile product.
pub proof fn lemma_tile_products_agree<T, F: Fn(T, &T, &T) -> T, G: Fn(T, &T, &T) -> T>(
    fma1: F,
    fma2: G,
    f: spec_fn(T, T, T) -> T,
    c0: Tile<T>,
    a: Tile<T>,
    b: Tile<T>,
    c1: Tile<T>,
    c2: Tile<T>,
)
    requires
        computes(fma1, f),
        computes(fma2, f),
        is_tile_product(fma1, c0, a, b, c1),
        is_tile_product(fma2, c0, a, b, c2),
    ensures
        forall|r: int, s: int| 0 <= r < BLOCK && 0 <= s < BLOCK ==> #[trigger] c1[r][s] == c2[r][s],
{
    assert forall|r: int, s: int| 0 <= r < BLOCK && 0 <= s < BLOCK implies #[trigger] c1[r][s] == c2[r][s] by {
        lemma_accumulates_agree(
            fma1,
            fma2,
            f,
            c0[r][s],
            tile_row(a, r, BLOCK as int),
            tile_col(b, s, BLOCK as int),
            c1[r][s],
            c2[r][s],
        );
    }
}

/// Two tile kernels that compute the same function give the same block product, tile for tile.
pub proof fn lemma_products_agree<B, F: Fn(B, &B, &B) -> B, G: Fn(B, &B, &B) -> B>(
    kernel1: F,
    kernel2: G,
    f: spec_fn(B, B, B) -> B,
    zero: B,
    a: BlockMatrix<B>,
    b: BlockMatrix<B>,
    c1: BlockMatrix<B>,
    c2: BlockMatrix<B>,
)
    requires
        computes(kernel1, f),
        computes(kernel2, f),
        is_product(kernel1, zero, a, b, c1),
        is_product(kernel2, zero, a, b, c2),
    ensures
        c1.rows == c2.rows,
        c1.cols == c2.cols,
        c1.data@ == c2.data@,
{
    let n = c1.cols as int;
    assert forall|t: int| 0 <= t < c1.data@.len() implies #[trigger] c1.data@[t] == c2.data@[t] by {
        let i = t / n;
        let j = t % n;
        assert(n > 0) by {
            if n <= 0 {
                assert(c1.rows * c1.cols <= 0) by (nonlinear_arith)
                    requires
                        n <= 0,
                        n == c1.cols,
                ;
            }
        }
        vstd::arithmetic::div_mod::lemma_fundamental_div_mod(t, n);
        let rows = c1.rows as int;
        assert(0 <= i < rows) by (nonlinear_arith)
            requires
                t == n * i + j,
                0 <= j < n,
                0 <= t < rows * n,
        ;
        assert(flat_index(i, j, n) == t) by (nonlinear_arith)
            requires
                t == n * i + j,
        ;
        lemma_accumulates_agree(
            kernel1,
            kernel2,
            f,
            zero,
            row_tiles(a, i, a.cols as int),
            col_tiles(b, j, b.rows as int),
            c1.tile(i, j),
            c2.tile(i, j),
        );
    }
    assert(c1.data@ =~= c2.data@);
}

/// How many `k` steps output cell `(r, s)` has received once the loops stand at `(i, k, j)`
/// of an `i`-`k`-`j` schedule whose inner dimension is `full`.
pub open spec fn progress(r: int, s: int, i: int, k: int, j: int, full: int) -> int {
    if r < i {
        full
    } else if r > i {
        0
    } else if s < j {
        k + 1
    } else {
        k
    }
}

/// Multiply-accumulate of tiles: `c += a * b`, scalar by scalar, with `fma(acc, &x, &y)`
/// standing for `acc + x * y`. Every scalar `c[r][s]` ends as the fold of `fma` over
/// `(a[r][k], b[k][s])`, `k` ascending, starting from its old value.
pub fn mul_add_tile<T: Copy, F: Fn(T, &T, &T) -> T>(
    c: &mut Tile<T>,
    a: &Tile<T>,
    b: &Tile<T>,
    fma: F,
)
    requires
        forall|x: T, y: T, z: T| call_requires(fma, (x, &y, &z)),
    ensures
        is_tile_product(fma, *old(c), *a, *b, *final(c)),
{
    let ghost c0: Tile<T> = *c;
    let ghost full: int = BLOCK as int;
    proof {
        assert forall|r: int, s: int| 0 <= r < BLOCK && 0 <= s < BLOCK implies accumulates(
            fma,
            c0[r][s],
            tile_row(*a, r, progress(r, s, 0, 0, 0, full)),
            tile_col(*b, s, progress(r, s, 0, 0, 0, full)),
            #[trigger] c[r][s],
        ) by {
            lemma_accumulates_empty(fma, c0[r][s], tile_row(*a, r, 0), tile_col(*b, s, 0));
        }
    }
    for i in 0..BLOCK
        invariant
            full == BLOCK,
            forall|x: T, y: T, z: T| call_requires(fma, (x, &y, &z)),
            forall|r: int, s: int|
                0 <= r < BLOCK && 0 <= s < BLOCK ==> accumulates(
                    fma,
                    c0[r][s],
                    tile_row(*a, r, progress(r, s, i as int, 0, 0, full)),
                    tile_col(*b, s, progress(r, s, i as int, 0, 0, full)),
                    #[trigger] c[r][s],
                ),
    {
        for k in 0..BLOCK
            invariant
                0 <= i < BLOCK,
                full == BLOCK,
                forall|x: T, y: T, z: T| call_requires(fma, (x, &y, &z)),
                forall|r: int, s: int|
                    0 <= r < BLOCK && 0 <= s < BLOCK ==> accumulates(
                        fma,
                        c0[r][s],
                        tile_row(*a, r, progress(r, s, i as int, k as int, 0, full)),
                        tile_col(*b, s, progress(r, s, i as int, k as int, 0, full)),
                        #[trigger] c[r][s],
                    ),
        {
            let aik: T = a[i][k];
            for j in 0..BLOCK
                invariant
                    0 <= i < BLOCK,
                    0 <= k < BLOCK,
                    full == BLOCK,
                    aik == a[i as int][k as int],
                    forall|x: T, y: T, z: T| call_requires(fma, (x, &y, &z)),
                    forall|r: int, s: int|
                        0 <= r < BLOCK && 0 <= s < BLOCK ==> accumulates(
                            fma,
                            c0[r][s],
                            tile_row(*a, r, progress(r, s, i as int, k as int, j as int, full)),
                            tile_col(*b, s, progress(r, s, i as int, k as int, j as int, full)),
                            #[trigger] c[r][s],
                        ),
            {
                let ghost before: Tile<T> = *c;
                let cur: T = c[i][j];
                let next: T = fma(cur, &aik, &b[k][j]);
                c[i][j] = next;
                proof {
                    let ii = i as int;
                    let jj = j as int;
                    let kk = k as int;
                    assert(accumulates(
                        fma,
                        c0[ii][jj],
                        tile_row(*a, ii, kk),
                        tile_col(*b, jj, kk),
                        before[ii][jj],
                    ));
                    lemma_accumulates_push(
                        fma,
                        c0[ii][jj],
                        tile_row(*a, ii, kk),
                        tile_col(*b, jj, kk),
                        cur,
                        a[ii][kk],
                        b[kk][jj],
                        next,
                    );
                    assert(tile_row(*a, ii, kk).push(a[ii][kk]) =~= tile_row(*a, ii, kk + 1));
                    assert(tile_col(*b, jj, kk).push(b[kk][jj]) =~= tile_col(*b, jj, kk + 1));
                    assert forall|r: int, s: int|
                        0 <= r < BLOCK && 0 <= s < BLOCK implies accumulates(
                            fma,
                            c0[r][s],
                            tile_row(*a, r, progress(r, s, ii, kk, jj + 1, full)),
                            tile_col(*b, s, progress(r, s, ii, kk, jj + 1, full)),
                            #[trigger] c[r][s],
                        ) by {
                        if r != ii || s != jj {
                            assert(c[r][s] == before[r][s]);
                        }
                    }
                }
            }
        }
        assert forall|r: int, s: int| 0 <= r < BLOCK && 0 <= s < BLOCK implies accumulates(
            fma,
            c0[r][s],
            tile_row(*a, r, progress(r, s, i + 1, 0, 0, full)),
            tile_col(*b, s, progress(r, s, i + 1, 0, 0, full)),
            #[trigger] c[r][s],
        ) by {
            assert(progress(r, s, i as int, BLOCK as int, 0, full) == progress(r, s, i + 1, 0, 0, full));
        }
    }
}

/// Number of scalars handled together by one lane-group step.
pub const LANES: usize = 4;

/// Number of lane groups in one tile row.
pub const LANE_GROUPS: usize = 3;

/// A group of `LANES` adjacent scalars of one tile row.
pub type Lanes<T> = [T; LANES];

/// Lane group `g` of row `r` of a tile: the scalars at columns `4g .. 4g + 4`.
pub open spec fn lane_group<T>(t: Tile<T>, r: int, g: int) -> Lanes<T> {
    [t[r][4 * g], t[r][4 * g + 1], t[r][4 * g + 2], t[r][4 * g + 3]]
}

/// Lane group `g` of the first `len` rows of a tile.
pub open spec fn group_col<T>(b: Tile<T>, g: int, len: int) -> Seq<Lanes<T>> {
    Seq::new(len as nat, |k: int| lane_group(b, k, g))
}

/// `c` is a possible result of `c0 += a * b` on tiles with the lane-group update `step`,
/// `step(acc, &x, &ys)` standing for `acc + x * ys` lane by lane: every lane group `g` of every
/// row `r` is the fold of `step` over `(a[r][k], lane group g of b's row k)`, `k` ascending,
/// from the same lane group of `c0`.
pub open spec fn is_lane_tile_product<T, F: Fn(Lanes<T>, &T, &Lanes<T>) -> Lanes<T>>(
    step: F,
    c0: Tile<T>,
    a: Tile<T>,
    b: Tile<T>,
    c: Tile<T>,
) -> bool {
    forall|r: int, g: int|
        0 <= r < BLOCK && 0 <= g < LANE_GROUPS ==> accumulates(
            step,
            lane_group(c0, r, g),
            tile_row(a, r, BLOCK as int),
            group_col(b, g, BLOCK as int),
            #[trigger] lane_group(c, r, g),
        )
}

/// Multiply-accumulate of tiles, `c += a * b`, four adjacent scalars at a time: for each row `i`
/// and each `k`, the lane groups of row `i` of `c` (columns `0..4`, `4..8`, `8..12`) are replaced
/// by `step(group, &a[i][k], &group of b's row k)`.
pub fn mul_add_tile_lanes<T: Copy, F: Fn(Lanes<T>, &T, &Lanes<T>) -> Lanes<T>>(
    c: &mut Tile<T>,
    a: &Tile<T>,
    b: &Tile<T>,
    step: F,
)
    requires
        forall|x: Lanes<T>, y: T, z: Lanes<T>| call_requires(step, (x, &y, &z)),
    ensures
        is_lane_tile_product(step, *old(c), *a, *b, *final(c)),
{
    let ghost c0: Tile<T> = *c;
    let ghost full: int = BLOCK as int;
    proof {
        assert forall|r: int, g: int| 0 <= r < BLOCK && 0 <= g < LANE_GROUPS implies accumulates(
            step,
            lane_group(c0, r, g),
            tile_row(*a, r, progress(r, g, 0, 0, 0, full)),
            group_col(*b, g, progress(r, g, 0, 0, 0, full)),
            #[trigger] lane_group(*c, r, g),
        ) by {
            lemma_accumulates_empty(step, lane_group(c0, r, g), tile_row(*a, r, 0), group_col(*b, g, 0));
        }
    }
    for i in 0..BLOCK
        invariant
            full == BLOCK,
            forall|x: Lanes<T>, y: T, z: Lanes<T>| call_requires(step, (x, &y, &z)),
            forall|r: int, g: int|
                0 <= r < BLOCK && 0 <= g < LANE_GROUPS ==> accumulates(
                    step,
                    lane_group(c0, r, g),
                    tile_row(*a, r, progress(r, g, i as int, 0, 0, full)),
                    group_col(*b, g, progress(r, g, i as int, 0, 0, full)),
                    #[trigger] lane_group(*c, r, g),
                ),
    {
        for k in 0..BLOCK
            invariant
                0 <= i < BLOCK,
                full == BLOCK,
                forall|x: Lanes<T>, y: T, z: Lanes<T>| call_requires(step, (x, &y, &z)),
                forall|r: int, g: int|
                    0 <= r < BLOCK && 0 <= g < LANE_GROUPS ==> accumulates(
                        step,
                        lane_group(c0, r, g),
                        tile_row(*a, r, progress(r, g, i as int, k as int, 0, full)),
                        group_col(*b, g, progress(r, g, i as int, k as int, 0, full)),
                        #[trigger] lane_group(*c, r, g),
                    ),
        {
            let aik: T = a[i][k];
            for g in 0..LANE_GROUPS
                invariant
                    0 <= i < BLOCK,
                    0 <= k < BLOCK,
                    full == BLOCK,
                    aik == a[i as int][k as int],
                    forall|x: Lanes<T>, y: T, z: Lanes<T>| call_requires(step, (x, &y, &z)),
                    forall|r: int, h: int|
                        0 <= r < BLOCK && 0 <= h < LANE_GROUPS ==> accumulates(
                            step,
                            lane_group(c0, r, h),
                            tile_row(*a, r, progress(r, h, i as int, k as int, g as int, full)),
                            group_col(*b, h, progress(r, h, i as int, k as int, g as int, full)),
                            #[trigger] lane_group(*c, r, h),
                        ),
            {
                let ghost before: Tile<T> = *c;
                let j0: usize = g * LANES;
                let cur: Lanes<T> = [c[i][j0], c[i][j0 + 1], c[i][j0 + 2], c[i][j0 + 3]];
                let bk: Lanes<T> = [b[k][j0], b[k][j0 + 1], b[k][j0 + 2], b[k][j0 + 3]];
                let next: Lanes<T> = step(cur, &aik, &bk);
                c[i][j0] = next[0];
                c[i][j0 + 1] = next[1];
                c[i][j0 + 2] = next[2];
                c[i][j0 + 3] = next[3];
                proof {
                    let ii = i as int;
                    let gg = g as int;
                    let kk = k as int;
                    assert(cur =~= lane_group(before, ii, gg));
                    assert(bk =~= lane_group(*b, kk, gg));
                    assert(next =~= lane_group(*c, ii, gg));
                    lemma_accumulates_push(
                        step,
                        lane_group(c0, ii, gg),
                        tile_row(*a, ii, kk),
                        group_col(*b, gg, kk),
                        cur,
                        a[ii][kk],
                        bk,
                        next,
                    );
                    assert(tile_row(*a, ii, kk).push(a[ii][kk]) =~= tile_row(*a, ii, kk + 1));
                    assert(group_col(*b, gg, kk).push(bk) =~= group_col(*b, gg, kk + 1));
                    assert forall|r: int, h: int|
                        0 <= r < BLOCK && 0 <= h < LANE_GROUPS implies accumulates(
                            step,
                            lane_group(c0, r, h),
                            tile_row(*a, r, progress(r, h, ii, kk, gg + 1, full)),
                            group_col(*b, h, progress(r, h, ii, kk, gg + 1, full)),
                            #[trigger] lane_group(*c, r, h),
                        ) by {
                        if r != ii || h != gg {
                            assert(lane_group(*c, r, h) =~= lane_group(before, r, h));
                        }
                    }
                }
            }
        }
        assert forall|r: int, g: int| 0 <= r < BLOCK && 0 <= g < LANE_GROUPS implies accumulates(
            step,
            lane_group(c0, r, g),
            tile_row(*a, r, progress(r, g, i + 1, 0, 0, full)),
            group_col(*b, g, progress(r, g, i + 1, 0, 0, full)),
            #[trigger] lane_group(*c, r, g),
        ) by {
            assert(progress(r, g, i as int, BLOCK as int, 0, full) == progress(r, g, i + 1, 0, 0, full));
        }
    }
}

/// The lane-group function that applies `f` to each of the `LANES` lanes on its own.
pub open spec fn lanewise<T>(f: spec_fn(T, T, T) -> T) -> spec_fn(Lanes<T>, T, Lanes<T>) -> Lanes<T> {
    |acc: Lanes<T>, x: T, ys: Lanes<T>|
        [f(acc[0], x, ys[0]), f(acc[1], x, ys[1]), f(acc[2], x, ys[2]), f(acc[3], x, ys[3])]
}

/// Lane `l` of a sequence of lane groups.
pub open spec fn lane_of<T>(ys: Seq<Lanes<T>>, l: int) -> Seq<T> {
    Seq::new(ys.len(), |k: int| ys[k][l])
}

proof fn lemma_fold_lanewise<T>(f: spec_fn(T, T, T) -> T, init: Lanes<T>, xs: Seq<T>, ys: Seq<Lanes<T>>, l: int)
    requires
        0 <= l < LANES,
        ys.len() == xs.len(),
    ensures
        fold_pairs(lanewise(f), init, xs, ys)[l] == fold_pairs(f, init[l], xs, lane_of(ys, l)),
    decreases xs.len(),
{
    if xs.len() > 0 {
        lemma_fold_lanewise(f, init, xs.drop_last(), ys.drop_last(), l);
        assert(lane_of(ys.drop_last(), l) =~= lane_of(ys, l).drop_last());
    }
}

/// A lane-group update that applies the scalar update lane by lane gives, scalar for scalar,
/// the same tile product as the scalar update: the four-lane schedule and the scalar schedule
/// agree whenever their arithmetic does.
pub proof fn lemma_lanes_match_scalars<
    T,
    F: Fn(Lanes<T>, &T, &Lanes<T>) -> Lanes<T>,
    G: Fn(T, &T, &T) -> T,
>(
    step: F,
    fma: G,
    f: spec_fn(T, T, T) -> T,
    c0: Tile<T>,
    a: Tile<T>,
    b: Tile<T>,
    c1: Tile<T>,
    c2: Tile<T>,
)
    requires
        computes(step, lanewise(f)),
        computes(fma, f),
        is_lane_tile_product(step, c0, a, b, c1),
        is_tile_product(fma, c0, a, b, c2),
    ensures
        forall|r: int, s: int| 0 <= r < BLOCK && 0 <= s < BLOCK ==> #[trigger] c1[r][s] == c2[r][s],
{
    assert forall|r: int, s: int| 0 <= r < BLOCK && 0 <= s < BLOCK implies #[trigger] c1[r][s] == c2[r][s] by {
        let g = s / 4;
        let l = s % 4;
        assert(s == 4 * g + l);
        let full = BLOCK as int;
        lemma_accumulates_is_fold(
            step,
            lanewise(f),
            lane_group(c0, r, g),
            tile_row(a, r, full),
            group_col(b, g, full),
            lane_group(c1, r, g),
        );
        lemma_fold_lanewise(f, lane_group(c0, r, g), tile_row(a, r, full), group_col(b, g, full), l);
        assert(lane_of(group_col(b, g, full), l) =~= tile_col(b, s, full));
        lemma_accumulates_is_fold(fma, f, c0[r][s], tile_row(a, r, full), tile_col(b, s, full), c2[r][s]);
        assert(lane_group(c1, r, g)[l] == c1[r][s]);
        assert(lane_group(c0, r, g)[l] == c0[r][s]);
    }
}

/// Block matrix product `a * b`, tile by tile, in the `i`-`k`-`j` order: the result starts
/// with every tile equal to `zero`, and each step replaces tile `(i, j)` of the result by
/// `kernel(c_ij, &a_ik, &b_kj)`. Every result tile ends as the fold of `kernel` over
/// `(a(i, k), b(k, j))`, `k` ascending, starting from `zero`.
pub fn matmul<B: Copy, F: Fn(B, &B, &B) -> B>(
    a: &BlockMatrix<B>,
    b: &BlockMatrix<B>,
    zero: B,
    kernel: F,
) -> (c: BlockMatrix<B>)
    requires
        a.wf(),
        b.wf(),
        a.cols == b.rows,
        a.rows * b.cols <= usize::MAX,
        forall|x: B, y: B, z: B| call_requires(kernel, (x, &y, &z)),
    ensures
        is_product(kernel, zero, *a, *b, c),
{
    let l: usize = a.rows;
    let m: usize = a.cols;
    let n: usize = b.cols;
    let mut c: BlockMatrix<B> = BlockMatrix::zeros(l, n, zero);
    let ghost full: int = m as int;
    proof {
        assert forall|r: int, s: int| 0 <= r < l && 0 <= s < n implies accumulates(
            kernel,
            zero,
            row_tiles(*a, r, progress(r, s, 0, 0, 0, full)),
            col_tiles(*b, s, progress(r, s, 0, 0, 0, full)),
            #[trigger] c.tile(r, s),
        ) by {
            lemma_flat_index_bounds(r, s, l as int, n as int);
            lemma_accumulates_empty(kernel, zero, row_tiles(*a, r, 0), col_tiles(*b, s, 0));
        }
    }
    for i in 0..l
        invariant
            l == a.rows,
            m == a.cols,
            full == m,
            n == b.cols,
            a.wf(),
            b.wf(),
            a.cols == b.rows,
            c.wf(),
            c.rows == l,
            c.cols == n,
            forall|x: B, y: B, z: B| call_requires(kernel, (x, &y, &z)),
            forall|r: int, s: int|
                0 <= r < l && 0 <= s < n ==> accumulates(
                    kernel,
                    zero,
                    row_tiles(*a, r, progress(r, s, i as int, 0, 0, full)),
                    col_tiles(*b, s, progress(r, s, i as int, 0, 0, full)),
                    #[trigger] c.tile(r, s),
                ),
    {
        for k in 0..m
            invariant
                l == a.rows,
                m == a.cols,
                full == m,
                n == b.cols,
                a.wf(),
                b.wf(),
                a.cols == b.rows,
                c.wf(),
                c.rows == l,
                c.cols == n,
                0 <= i < l,
                forall|x: B, y: B, z: B| call_requires(kernel, (x, &y, &z)),
                forall|r: int, s: int|
                    0 <= r < l && 0 <= s < n ==> accumulates(
                        kernel,
                        zero,
                        row_tiles(*a, r, progress(r, s, i as int, k as int, 0, full)),
                        col_tiles(*b, s, progress(r, s, i as int, k as int, 0, full)),
                        #[trigger] c.tile(r, s),
                    ),
        {
            let a_ik: &B = a.get_unchecked(i, k);
            for j in 0..n
                invariant
                    l == a.rows,
                    m == a.cols,
                    full == m,
                    n == b.cols,
                    a.wf(),
                    b.wf(),
                    a.cols == b.rows,
                    c.wf(),
                    c.rows == l,
                    c.cols == n,
                    0 <= i < l,
                    0 <= k < m,
                    *a_ik == a.tile(i as int, k as int),
                    forall|x: B, y: B, z: B| call_requires(kernel, (x, &y, &z)),
                    forall|r: int, s: int|
                        0 <= r < l && 0 <= s < n ==> accumulates(
                            kernel,
                            zero,
                            row_tiles(*a, r, progress(r, s, i as int, k as int, j as int, full)),
                            col_tiles(*b, s, progress(r, s, i as int, k as int, j as int, full)),
                            #[trigger] c.tile(r, s),
                        ),
            {
                let ghost before: BlockMatrix<B> = c;
                let b_kj: &B = b.get_unchecked(k, j);
                let c_ij: &mut B = c.get_unchecked_mut(i, j);
                let cur: B = *c_ij;
                let next: B = kernel(cur, a_ik, b_kj);
                *c_ij = next;
                proof {
                    let ii = i as int;
                    let jj = j as int;
                    let kk = k as int;
                    lemma_flat_index_bounds(ii, jj, l as int, n as int);
                    assert(accumulates(
                        kernel,
                        zero,
                        row_tiles(*a, ii, kk),
                        col_tiles(*b, jj, kk),
                        before.tile(ii, jj),
                    ));
                    lemma_accumulates_push(
                        kernel,
                        zero,
                        row_tiles(*a, ii, kk),
                        col_tiles(*b, jj, kk),
                        cur,
                        a.tile(ii, kk),
                        b.tile(kk, jj),
                        next,
                    );
                    assert(row_tiles(*a, ii, kk).push(a.tile(ii, kk)) =~= row_tiles(*a, ii, kk + 1));
                    assert(col_tiles(*b, jj, kk).push(b.tile(kk, jj)) =~= col_tiles(*b, jj, kk + 1));
                    assert forall|r: int, s: int|
                        0 <= r < l && 0 <= s < n implies accumulates(
                            kernel,
                            zero,
                            row_tiles(*a, r, progress(r, s, ii, kk, jj + 1, full)),
                            col_tiles(*b, s, progress(r, s, ii, kk, jj + 1, full)),
                            #[trigger] c.tile(r, s),
                        ) by {
                        lemma_flat_index_bounds(r, s, l as int, n as int);
                        if r != ii || s != jj {
                            if flat_index(r, s, n as int) == flat_index(ii, jj, n as int) {
                                lemma_flat_index_injective(r, s, ii, jj, n as int);
                            }
                            assert(c.tile(r, s) == before.tile(r, s));
                        }
                    }
                }
            }
        }
        assert forall|r: int, s: int| 0 <= r < l && 0 <= s < n implies accumulates(
            kernel,
            zero,
            row_tiles(*a, r, progress(r, s, i + 1, 0, 0, full)),
            col_tiles(*b, s, progress(r, s, i + 1, 0, 0, full)),
            #[trigger] c.tile(r, s),
        ) by {
            assert(progress(r, s, i as int, m as int, 0, full) == progress(r, s, i + 1, 0, 0, full));
        }
    }
    c
}

} // verus!
