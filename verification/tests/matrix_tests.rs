use lab1::matrix::{BlockMatrix, RawBlock, BLOCK, BLOCK_AREA};

fn reference_samples(seed: u32, count: usize) -> Vec<u32> {
    let mut state = seed;
    let mut out = Vec::new();
    for _ in 0..count {
        state = state.wrapping_mul(1664525).wrapping_add(1013904223);
        out.push((state >> 9) & 0x007F_FFFF);
    }
    out
}

#[test]
fn block_constants() {
    assert_eq!(BLOCK, 12);
    assert_eq!(BLOCK_AREA, BLOCK * BLOCK);
}

#[test]
fn zeros_fills_every_tile() {
    let m = BlockMatrix::zeros(3, 4, 7u8);
    assert_eq!(m.rows, 3);
    assert_eq!(m.cols, 4);
    assert_eq!(m.data.len(), 12);
    assert!(m.data.iter().all(|&x| x == 7));
}

#[test]
fn zeros_with_no_rows_is_empty() {
    let m = BlockMatrix::zeros(0, 5, 1i32);
    assert_eq!(m.data.len(), 0);
    assert_eq!(m.cols, 5);
}

#[test]
fn get_uses_row_major_layout() {
    let m = BlockMatrix { rows: 2, cols: 3, data: vec![10, 11, 12, 20, 21, 22] };
    assert_eq!(*m.get(0, 0), 10);
    assert_eq!(*m.get(0, 2), 12);
    assert_eq!(*m.get(1, 0), 20);
    assert_eq!(*m.get(1, 2), 22);
    assert_eq!(*m.get_unchecked(1, 1), 21);
}

#[test]
fn get_mut_changes_only_its_tile() {
    let mut m = BlockMatrix { rows: 2, cols: 2, data: vec![1, 2, 3, 4] };
    *m.get_mut(1, 0) = 30;
    assert_eq!(m.data, vec![1, 2, 30, 4]);
    *m.get_unchecked_mut(0, 1) = 20;
    assert_eq!(m.data, vec![1, 20, 30, 4]);
    assert_eq!((m.rows, m.cols), (2, 2));
}

#[test]
fn from_seed_first_samples() {
    let m = BlockMatrix::from_seed(1, 1, 42);
    assert_eq!(m.data[0].data[0][0], 2116824);
    assert_eq!(m.data[0].data[0][1], 739246);
    assert_eq!(m.data[0].data[0][2], 4842585);
}

#[test]
fn from_seed_order_crosses_tiles() {
    let m = BlockMatrix::from_seed(1, 2, 42);
    assert_eq!(m.data.len(), 2);
    assert_eq!(m.data[0].data[11][11], 321142);
    assert_eq!(m.data[1].data[0][0], 4829135);
    assert_eq!(m.data[1].data[11][11], 2756999);
}

#[test]
fn from_seed_matches_generator_stream() {
    let m = BlockMatrix::from_seed(2, 3, 7);
    let expected = reference_samples(7, 6 * BLOCK_AREA);
    for t in 0..6 {
        for r in 0..BLOCK {
            for s in 0..BLOCK {
                assert_eq!(m.data[t].data[r][s], expected[t * BLOCK_AREA + r * BLOCK + s]);
            }
        }
    }
}

#[test]
fn from_seed_extreme_seeds() {
    let m = BlockMatrix::from_seed(1, 1, 0);
    assert_eq!(m.data[0].data[0][0], 1980281);
    assert_eq!(m.data[0].data[0][1], 2336788);
    let m = BlockMatrix::from_seed(1, 1, u32::MAX);
    assert_eq!(m.data[0].data[0][0], 1977030);
    assert_eq!(m.data[0].data[0][1], 1575910);
}

#[test]
fn from_seed_samples_fit_in_23_bits() {
    let m = BlockMatrix::from_seed(3, 3, 12345);
    for b in &m.data {
        for row in b.data.iter() {
            for &x in row.iter() {
                assert!(x < 0x80_0000);
            }
        }
    }
}

#[test]
fn from_seed_is_deterministic() {
    let a = BlockMatrix::from_seed(2, 2, 99);
    let b = BlockMatrix::from_seed(2, 2, 99);
    let c = BlockMatrix::from_seed(2, 2, 100);
    let same = a.data.iter().zip(b.data.iter()).all(|(x, y)| x.data == y.data);
    let differ = a.data.iter().zip(c.data.iter()).any(|(x, y)| x.data != y.data);
    assert!(same);
    assert!(differ);
}

#[test]
fn raw_block_is_copy() {
    let b = RawBlock { data: [[5u32; BLOCK]; BLOCK] };
    let c = b;
    assert_eq!(b.data, c.data);
}
