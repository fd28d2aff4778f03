use spektra::grid::{gather_cells, linear_band_map, read_cell, write_column, ColumnStore, NUM_COLS};
use spektra::pipeline::BANDS;

#[test]
fn read_after_write() {
    let mut grid = vec![0i32; 3 * BANDS];
    write_column(&mut grid, 1, &[7, 8, 9]);
    assert_eq!(read_cell(&grid, 1, 0, -1), 7);
    assert_eq!(read_cell(&grid, 1, 2, -1), 9);
    assert_eq!(read_cell(&grid, 1, 3, -1), 0);
    assert_eq!(read_cell(&grid, 0, 0, -1), 0);
    assert_eq!(read_cell(&grid, 2, 0, -1), 0);
}

#[test]
fn read_past_the_end_gives_default() {
    let grid = vec![5i32; BANDS];
    assert_eq!(read_cell(&grid, 0, BANDS - 1, -1), 5);
    assert_eq!(read_cell(&grid, 1, 0, -1), -1);
}

#[test]
fn write_drops_values_past_the_end() {
    let mut grid = vec![0i32; BANDS + 2];
    write_column(&mut grid, 1, &[1, 2, 3, 4]);
    assert_eq!(grid[BANDS], 1);
    assert_eq!(grid[BANDS + 1], 2);
    assert_eq!(grid.len(), BANDS + 2);
}

#[test]
fn long_column_spills_into_the_next() {
    let mut grid = vec![0i32; 2 * BANDS];
    let bands: Vec<i32> = (0..(BANDS as i32 + 1)).collect();
    write_column(&mut grid, 0, &bands);
    assert_eq!(grid[BANDS - 1], BANDS as i32 - 1);
    assert_eq!(grid[BANDS], BANDS as i32);
}

#[test]
fn linear_picture_has_highest_band_on_top() {
    let map = linear_band_map();
    assert_eq!(map.len(), BANDS);
    assert_eq!(map[0], BANDS - 1);
    assert_eq!(map[BANDS - 1], 0);
    let mut grid = vec![0u32; NUM_COLS * BANDS];
    for col in 0..NUM_COLS {
        for band in 0..BANDS {
            grid[col * BANDS + band] = (col * 10000 + band) as u32;
        }
    }
    let cells = gather_cells(&grid, &map, 0);
    assert_eq!(cells.len(), NUM_COLS * BANDS);
    assert_eq!(cells[0], (BANDS - 1) as u32);
    assert_eq!(cells[5], (5 * 10000 + BANDS - 1) as u32);
    assert_eq!(cells[(BANDS - 1) * NUM_COLS + 3], 3 * 10000);
}

#[test]
fn picture_clamps_bands_and_fills_missing_cells() {
    let map = vec![5000usize; BANDS];
    let grid = vec![9u8; BANDS];
    let cells = gather_cells(&grid, &map, 1);
    assert_eq!(cells[0], 9);
    assert_eq!(cells[1], 1);
}

#[test]
fn column_store_tracks_columns() {
    let mut store = ColumnStore::new(-120i32);
    assert_eq!(store.cells_slice().len(), NUM_COLS * BANDS);
    assert_eq!(store.columns_ready(), 0);
    store.receive(4, &[1, 2]);
    assert_eq!(store.columns_ready(), 5);
    store.receive(2, &[3]);
    assert_eq!(store.columns_ready(), 5);
    assert_eq!(read_cell(store.cells_slice(), 4, 1, 0), 2);
    assert_eq!(read_cell(store.cells_slice(), 2, 0, 0), 3);
    assert_eq!(read_cell(store.cells_slice(), 2, 1, 0), -120);
}
