use sludge::chunked_grid::{
    from_chunk_and_subindices, to_chunk_and_subindices, ChunkedBitGrid, ChunkedGrid,
    DEFAULT_CHUNK_SIZE,
};

#[test]
fn chunk_split_of_positive_and_negative_cells() {
    assert_eq!(to_chunk_and_subindices(64, (0, 0)), ((0, 0), 0));
    assert_eq!(to_chunk_and_subindices(64, (65, 2)), ((1, 0), 1 + 2 * 64));
    assert_eq!(to_chunk_and_subindices(64, (-1, -1)), ((-1, -1), 63 + 63 * 64));
    assert_eq!(to_chunk_and_subindices(4, (-5, 7)), ((-2, 1), 3 + 3 * 4));
}

#[test]
fn chunk_join_inverts_split() {
    for &(x, y) in &[(0, 0), (65, 2), (-1, -1), (-5, 7), (1000, -1000)] {
        let (chunk, sub) = to_chunk_and_subindices(16, (x, y));
        assert_eq!(from_chunk_and_subindices(16, chunk, sub as u32), (x, y));
    }
    assert_eq!(from_chunk_and_subindices(64, (-1, 2), 65), (-63, 129));
}

#[test]
fn chunked_grid_reads_back_what_was_written() {
    let mut grid: ChunkedGrid<u32> = ChunkedGrid::with_chunk_size(8);
    assert_eq!(grid.get((3, 0)), None);
    grid.set((3, 0), 7);
    assert_eq!(grid.get((3, 0)), Some(&7));
    assert_eq!(grid.get((4, 0)), Some(&0));
    assert_eq!(grid.get((-3, 0)), None);
    grid.set((-3, 0), 9);
    assert_eq!(grid.get((-3, 0)), Some(&9));
    assert_eq!(grid.get((3, 0)), Some(&7));
    let mut fresh: ChunkedGrid<u8> = ChunkedGrid::new();
    fresh.set((DEFAULT_CHUNK_SIZE as i32 - 1, 0), 1);
    assert_eq!(fresh.get((0, 0)), Some(&0));
    assert_eq!(fresh.get((DEFAULT_CHUNK_SIZE as i32, 0)), None);
}

#[test]
fn chunked_bit_grid_set_get_clear_sweep() {
    let mut grid = ChunkedBitGrid::with_chunk_size(8);
    assert!(!grid.get((1, 1)));
    grid.set((1, 1), true);
    grid.set((-20, 3), true);
    assert!(grid.get((1, 1)));
    assert!(grid.get((-20, 3)));
    assert!(!grid.get((1, 2)));
    let mut cells = grid.iter();
    cells.sort();
    assert_eq!(cells, vec![(-20, 3), (1, 1)]);
    grid.set((1, 1), false);
    assert!(!grid.get((1, 1)));
    assert_eq!(grid.iter(), vec![(-20, 3)]);
    grid.clear();
    assert!(grid.iter().is_empty());
    assert!(!grid.get((-20, 3)));
    grid.sweep_chunks();
    assert!(grid.iter().is_empty());
    assert_eq!(grid.chunk_size(), 8);
}

#[test]
fn chunked_bit_grid_union() {
    let mut a = ChunkedBitGrid::with_chunk_size(4);
    let mut b = ChunkedBitGrid::with_chunk_size(4);
    a.set((0, 0), true);
    b.set((1, 0), true);
    b.set((9, 9), true);
    a.bitor_assign(&b);
    let mut cells = a.iter();
    cells.sort();
    assert_eq!(cells, vec![(0, 0), (1, 0), (9, 9)]);

    let mut c = ChunkedBitGrid::with_chunk_size(4);
    c.union_region(&vec![&b], 0, 1, 0, 1);
    assert_eq!(c.iter(), vec![(1, 0)]);
    assert!(!c.get((9, 9)));
}

#[test]
fn chunked_grid_get_mut_changes_the_cell() {
    let mut grid: ChunkedGrid<u32> = ChunkedGrid::with_chunk_size(4);
    assert!(grid.get_mut((1, 0)).is_none());
    grid.set((1, 0), 5);
    *grid.get_mut((1, 0)).unwrap() = 7;
    assert_eq!(grid.get((1, 0)), Some(&7));
    assert_eq!(grid.get((2, 0)), Some(&0));
}

#[test]
fn chunked_grid_chunks_are_square() {
    let mut grid: ChunkedGrid<u32> = ChunkedGrid::with_chunk_size(4);
    grid.set((1, 3), 5);
    assert_eq!(grid.get((1, 3)), Some(&5));
    assert_eq!(grid.get((3, 3)), Some(&0));
    assert_eq!(grid.get((0, 2)), Some(&0));
    assert_eq!(grid.get((4, 3)), None);
    assert_eq!(grid.get((1, 4)), None);
}
