//! Square tiles and the row-major outer matrix of tiles.
use vstd::prelude::*;
use vstd::arithmetic::div_mod::lemma_add_mod_noop;

verus! {

/// Side length of one square tile.
pub const BLOCK: usize = 12;

/// Number of scalars in one tile.
pub const BLOCK_AREA: usize = 144;

/// A tile of `BLOCK × BLOCK` scalars, row-major.
pub type Tile<T> = [[T; BLOCK]; BLOCK];

/// Outer matrix whose elements are tiles. Layout: tile `(i, j)` is `data[i * cols + j]`.
pub struct BlockMatrix<B> {
    pub rows: usize,
    pub cols: usize,
    pub data: Vec<B>,
}

/// Position of tile `(row, col)` in the row-major storage of a matrix with `cols` columns.
pub open spec fn flat_index(row: int, col: int, cols: int) -> int {
    row * cols + col
}

/// A valid position `(row, col)` of a `rows × cols` grid lands inside the storage,
/// and distinct positions land on distinct slots.
pub proof fn lemma_flat_index_bounds(row: int, col: int, rows: int, cols: int)
    requires
        0 <= row < rows,
        0 <= col < cols,
    ensures
        0 <= flat_index(row, col, cols) < rows * cols,
        row * cols + cols <= rows * cols,
{
    assert(0 <= row * cols) by (nonlinear_arith)
        requires
            0 <= row,
            0 <= cols,
    ;
    assert((row + 1) * cols <= rows * cols) by (nonlinear_arith)
        requires
            row + 1 <= rows,
            0 <= cols,
    ;
    assert((row + 1) * cols == row * cols + cols) by (nonlinear_arith);
}

/// Distinct positions of a grid with `cols` columns occupy distinct storage slots.
pub proof fn lemma_flat_index_injective(r1: int, c1: int, r2: int, c2: int, cols: int)
    requires
        0 <= c1 < cols,
        0 <= c2 < cols,
        flat_index(r1, c1, cols) == flat_index(r2, c2, cols),
    ensures
        r1 == r2,
        c1 == c2,
{
    if r1 < r2 {
        assert((r1 + 1) * cols <= r2 * cols) by (nonlinear_arith)
            requires
                r1 + 1 <= r2,
                0 <= cols,
        ;
        assert((r1 + 1) * cols == r1 * cols + cols) by (nonlinear_arith);
    } else if r2 < r1 {
        assert((r2 + 1) * cols <= r1 * cols) by (nonlinear_arith)
            requires
                r2 + 1 <= r1,
                0 <= cols,
        ;
        assert((r2 + 1) * cols == r2 * cols + cols) by (nonlinear_arith);
    }
}

impl<B> BlockMatrix<B> {
    /// The storage holds exactly one tile per grid position.
    pub open spec fn wf(&self) -> bool {
        self.data@.len() == self.rows * self.cols
    }

    /// Tile at grid position `(row, col)`.
    pub open spec fn tile(&self, row: int, col: int) -> B {
        self.data@[flat_index(row, col, self.cols as int)]
    }

    /// A `rows × cols` matrix whose every tile is `zero`, the zero tile of its element type.
    pub fn zeros(rows: usize, cols: usize, zero: B) -> (m: Self) where B: Copy
        requires
            rows * cols <= usize::MAX,
        ensures
            m.wf(),
            m.rows == rows,
            m.cols == cols,
            forall|k: int| 0 <= k < m.data@.len() ==> m.data@[k] == zero,
    {
        let total: usize = rows * cols;
        let mut data: Vec<B> = Vec::new();
        while data.len() < total
            invariant
                data@.len() <= total,
                forall|k: int| 0 <= k < data@.len() ==> data@[k] == zero,
            decreases total - data@.len(),
        {
            data.push(zero);
        }
        BlockMatrix { rows, cols, data }
    }

    /// Shared reference to tile `(row, col)`.
    pub fn get(&self, row: usize, col: usize) -> (t: &B)
        requires
            self.wf(),
            row < self.rows,
            col < self.cols,
        ensures
            *t == self.tile(row as int, col as int),
    {
        proof {
            lemma_flat_index_bounds(row as int, col as int, self.rows as int, self.cols as int);
            assert(self.data@.len() == self.data.len());
        }
        &self.data[row * self.cols + col]
    }

    /// Mutable reference to tile `(row, col)`; every other tile stays as it was.
    pub fn get_mut(&mut self, row: usize, col: usize) -> (t: &mut B)
        requires
            old(self).wf(),
            row < old(self).rows,
            col < old(self).cols,
        ensures
            *t == old(self).tile(row as int, col as int),
            final(self).rows == old(self).rows,
            final(self).cols == old(self).cols,
            final(self).data@ == old(self).data@.update(
                flat_index(row as int, col as int, old(self).cols as int),
                *final(t),
            ),
    {
        proof {
            lemma_flat_index_bounds(row as int, col as int, self.rows as int, self.cols as int);
            assert(self.data@.len() == self.data.len());
        }
        let idx: usize = row * self.cols + col;
        &mut self.data[idx]
    }

    /// Shared reference to tile `(row, col)`; callers guarantee the position is in range.
    pub fn get_unchecked(&self, row: usize, col: usize) -> (t: &B)
        requires
            self.wf(),
            row < self.rows,
            col < self.cols,
        ensures
            *t == self.tile(row as int, col as int),
    {
        proof {
            lemma_flat_index_bounds(row as int, col as int, self.rows as int, self.cols as int);
            assert(self.data@.len() == self.data.len());
        }
        &self.data[row * self.cols + col]
    }

    /// Mutable reference to tile `(row, col)`; callers guarantee the position is in range.
    pub fn get_unchecked_mut(&mut self, row: usize, col: usize) -> (t: &mut B)
        requires
            old(self).wf(),
            row < old(self).rows,
            col < old(self).cols,
        ensures
            *t == old(self).tile(row as int, col as int),
            final(self).rows == old(self).rows,
            final(self).cols == old(self).cols,
            final(self).data@ == old(self).data@.update(
                flat_index(row as int, col as int, old(self).cols as int),
                *final(t),
            ),
    {
        proof {
            lemma_flat_index_bounds(row as int, col as int, self.rows as int, self.cols as int);
            assert(self.data@.len() == self.data.len());
        }
        let idx: usize = row * self.cols + col;
        &mut self.data[idx]
    }
}

/// Writing tile `(row, col)` through `get_mut` and reading the matrix back: the written tile is
/// read at `(row, col)`, every other tile is read as before, and the shape stays valid.
pub proof fn lemma_tile_update<B>(m: BlockMatrix<B>, m2: BlockMatrix<B>, row: int, col: int, value: B)
    requires
        m.wf(),
        0 <= row < m.rows,
        0 <= col < m.cols,
        m2.rows == m.rows,
        m2.cols == m.cols,
        m2.data@ == m.data@.update(flat_index(row, col, m.cols as int), value),
    ensures
        m2.wf(),
        m2.tile(row, col) == value,
        forall|r: int, s: int|
            0 <= r < m.rows && 0 <= s < m.cols && (r != row || s != col) ==> #[trigger] m2.tile(r, s)
                == m.tile(r, s),
{
    lemma_flat_index_bounds(row, col, m.rows as int, m.cols as int);
    assert forall|r: int, s: int|
        0 <= r < m.rows && 0 <= s < m.cols && (r != row || s != col) implies #[trigger] m2.tile(r, s)
            == m.tile(r, s) by {
        lemma_flat_index_bounds(r, s, m.rows as int, m.cols as int);
        if flat_index(r, s, m.cols as int) == flat_index(row, col, m.cols as int) {
            lemma_flat_index_injective(r, s, row, col, m.cols as int);
        }
    }
}

/// Multiplier of the linear congruential generator that seeds matrices.
pub const LCG_MUL: u32 = 1664525;

/// Increment of the linear congruential generator that seeds matrices.
pub const LCG_INC: u32 = 1013904223;

/// Mask of the 23 state bits that form one sample.
pub const SAMPLE_MASK: u32 = 0x007F_FFFF;

/// One generator step: `state * LCG_MUL + LCG_INC` modulo `2^32`.
pub open spec fn lcg_next(state: u32) -> u32 {
    ((state * LCG_MUL + LCG_INC) % 0x1_0000_0000) as u32
}

/// Generator state after `n` steps from `seed`.
pub open spec fn lcg_state(seed: u32, n: nat) -> u32
    decreases n,
{
    if n == 0 {
        seed
    } else {
        lcg_next(lcg_state(seed, (n - 1) as nat))
    }
}

/// The sample a state yields: its bits 9 to 31, a value below `2^23`.
pub open spec fn sample_of(state: u32) -> u32 {
    (state >> 9u32) & SAMPLE_MASK
}

/// Sample number `n` (from 0) drawn from `seed`: each sample takes one generator step first.
pub open spec fn seed_sample(seed: u32, n: nat) -> u32 {
    sample_of(lcg_state(seed, n + 1))
}

/// Every sample lies below `2^23`, so `sample / 2^23 - 1/2` lies in `[-1/2, 1/2)`.
pub proof fn lemma_sample_bound(seed: u32, n: nat)
    ensures
        seed_sample(seed, n) < 0x80_0000,
{
    let st = lcg_state(seed, n + 1);
    assert((st >> 9u32) & 0x007F_FFFFu32 <= 0x007F_FFFFu32) by (bit_vector);
}

/// One generator step, with the wrapping arithmetic of `u32`.
fn lcg_step(state: u32) -> (next: u32)
    ensures
        next == lcg_next(state),
{
    let product: u32 = state.wrapping_mul(LCG_MUL);
    let next: u32 = product.wrapping_add(LCG_INC);
    proof {
        let modulus: int = 0x1_0000_0000;
        assert(product as int == (state as int * LCG_MUL as int) % modulus);
        lemma_add_mod_noop(state as int * LCG_MUL as int, LCG_INC as int, modulus);
        assert((LCG_INC as int) % modulus == LCG_INC as int);
        assert((product as int + LCG_INC as int) % modulus == next as int);
    }
    next
}

/// Tile of raw 23-bit samples, row-major; sample `x` stands for the scalar `x / 2^23 - 1/2`.
#[derive(Clone, Copy)]
pub struct RawBlock {
    pub data: [[u32; BLOCK]; BLOCK],
}

impl BlockMatrix<RawBlock> {
    /// Deterministic pseudo-random matrix: tiles are filled in storage order, each tile row by
    /// row, and scalar `(r, s)` of tile `t` is sample number `t * 144 + r * 12 + s` of `seed`.
    pub fn from_seed(rows: usize, cols: usize, seed: u32) -> (m: Self)
        requires
            rows * cols <= usize::MAX,
        ensures
            m.wf(),
            m.rows == rows,
            m.cols == cols,
            forall|t: int, r: int, s: int|
                0 <= t < m.data@.len() && 0 <= r < BLOCK && 0 <= s < BLOCK ==> #[trigger] m.data@[t].data[r][s]
                    == seed_sample(seed, (t * BLOCK_AREA + r * BLOCK + s) as nat),
    {
        let total: usize = rows * cols;
        let mut data: Vec<RawBlock> = Vec::new();
        let mut state: u32 = seed;
        while data.len() < total
            invariant
                data@.len() <= total,
                state == lcg_state(seed, (data@.len() * BLOCK_AREA) as nat),
                forall|t: int, r: int, s: int|
                    0 <= t < data@.len() && 0 <= r < BLOCK && 0 <= s < BLOCK ==> #[trigger] data@[t].data[r][s]
                        == seed_sample(seed, (t * BLOCK_AREA + r * BLOCK + s) as nat),
            decreases total - data@.len(),
        {
            let ghost base: int = data@.len() * BLOCK_AREA;
            let mut block = RawBlock { data: [[0u32; 12]; 12] };
            for i in 0..BLOCK
                invariant
                    base == data@.len() * BLOCK_AREA,
                    state == lcg_state(seed, (base + i * BLOCK) as nat),
                    forall|r: int, s: int|
                        0 <= r < i && 0 <= s < BLOCK ==> #[trigger] block.data[r][s]
                            == seed_sample(seed, (base + r * BLOCK + s) as nat),
            {
                for j in 0..BLOCK
                    invariant
                        0 <= i < BLOCK,
                        base == data@.len() * BLOCK_AREA,
                        state == lcg_state(seed, (base + i * BLOCK + j) as nat),
                        forall|r: int, s: int|
                            (0 <= r < i && 0 <= s < BLOCK) || (r == i && 0 <= s < j)
                                ==> #[trigger] block.data[r][s]
                                == seed_sample(seed, (base + r * BLOCK + s) as nat),
                {
                    state = lcg_step(state);
                    let bits: u32 = (state >> 9u32) & SAMPLE_MASK;
                    block.data[i][j] = bits;
                }
            }
            data.push(block);
        }
        BlockMatrix { rows, cols, data }
    }
}

} // verus!
