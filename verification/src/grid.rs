//! The spectrogram grid: `NUM_COLS` columns of `BANDS` values, stored
//! column after column, and the row-major picture that is drawn from it.
//!
//! The cell values are decibels in the viewer; nothing here depends on what
//! they are, so the functions are generic over the cell type.

use vstd::prelude::*;
use crate::pipeline::BANDS;

verus! {

/// Number of time columns of the spectrogram.
pub const NUM_COLS: usize = 800;

/// The position of cell (`col`, `band`) in the grid.
pub open spec fn cell_index(col: int, band: int) -> int {
    col * BANDS + band
}

/// The value of cell (`col`, `band`), or `default` where the grid is too
/// short to hold it.
pub open spec fn cell_value<T>(grid: Seq<T>, col: int, band: int, default: T) -> T {
    let i = cell_index(col, band);
    if i < grid.len() {
        grid[i]
    } else {
        default
    }
}

/// The grid after writing `bands` into column `col`, starting at band 0;
/// values that would fall past the end of the grid are dropped.
pub open spec fn with_column<T>(grid: Seq<T>, col: int, bands: Seq<T>) -> Seq<T> {
    Seq::new(
        grid.len(),
        |i: int|
            if cell_index(col, 0) <= i < cell_index(col, 0) + bands.len() {
                bands[i - cell_index(col, 0)]
            } else {
                grid[i]
            },
    )
}

/// Writes one spectrum into column `col` of the grid.
pub fn write_column<T: Copy>(grid: &mut Vec<T>, col: usize, bands: &[T])
    requires
        bands@.len() > 0 ==> cell_index(col as int, bands@.len() - 1) <= usize::MAX,
    ensures
        final(grid)@ == with_column(old(grid)@, col as int, bands@),
{
    let ghost g0 = grid@;
    let n = bands.len();
    let mut band: usize = 0;
    while band < n
        invariant
            n == bands@.len(),
            band <= n,
            n > 0 ==> cell_index(col as int, n - 1) <= usize::MAX,
            grid@.len() == g0.len(),
            forall|i: int|
                0 <= i < g0.len() ==> #[trigger] grid@[i] == if cell_index(col as int, 0) <= i
                    < cell_index(col as int, band as int) {
                    bands@[i - cell_index(col as int, 0)]
                } else {
                    g0[i]
                },
        decreases n - band,
    {
        let gi = col * BANDS + band;
        if gi < grid.len() {
            grid.set(gi, bands[band]);
        }
        band += 1;
    }
    assert(grid@ =~= with_column(g0, col as int, bands@));
}

/// Reads cell (`col`, `band`), or `default` past the end of the grid.
pub fn read_cell<T: Copy>(grid: &[T], col: usize, band: usize, default: T) -> (v: T)
    requires
        cell_index(col as int, band as int) <= usize::MAX,
    ensures
        v == cell_value(grid@, col as int, band as int, default),
{
    let i = col * BANDS + band;
    if i < grid.len() {
        grid[i]
    } else {
        default
    }
}

/// The band shown in picture row `row` on a linear frequency axis: the
/// highest band on the top row, band 0 on the bottom row.
pub open spec fn linear_band(row: int) -> int {
    BANDS - 1 - row
}

/// The bands of all picture rows on a linear frequency axis.
pub fn linear_band_map() -> (m: Vec<usize>)
    ensures
        m@.len() == BANDS,
        forall|row: int| 0 <= row < BANDS ==> #[trigger] m@[row] == linear_band(row),
{
    let mut m: Vec<usize> = Vec::new();
    let mut row: usize = 0;
    while row < BANDS
        invariant
            row <= BANDS,
            m@.len() == row,
            forall|r: int| 0 <= r < row ==> #[trigger] m@[r] == linear_band(r),
        decreases BANDS - row,
    {
        m.push(BANDS - 1 - row);
        row += 1;
    }
    m
}

/// The band actually read for a picture row: the mapped band, limited to
/// the highest band.
pub open spec fn clamp_band(band: int) -> int {
    if band < BANDS - 1 {
        band
    } else {
        BANDS - 1
    }
}

/// A band inside the spectrum is read as it is; a band beyond it reads the
/// highest band.
pub proof fn lemma_clamp_band(band: int)
    requires
        band >= 0,
    ensures
        band < BANDS ==> clamp_band(band) == band,
        band >= BANDS ==> clamp_band(band) == BANDS - 1,
{
}

/// The value shown at picture row `row`, column `col`.
pub open spec fn picture_value<T>(
    grid: Seq<T>,
    band_of_row: Seq<usize>,
    default: T,
    row: int,
    col: int,
) -> T {
    cell_value(grid, col, clamp_band(band_of_row[row] as int), default)
}

/// The picture of the grid, row after row from the top: row `row`,
/// column `col` shows the cell of column `col` in the band that
/// `band_of_row` gives for that row; cells past the end of the grid show
/// `default`.
pub fn gather_cells<T: Copy>(grid: &[T], band_of_row: &[usize], default: T) -> (cells: Vec<T>)
    requires
        band_of_row@.len() == BANDS,
    ensures
        cells@.len() == NUM_COLS * BANDS,
        forall|row: int, col: int|
            0 <= row < BANDS && 0 <= col < NUM_COLS ==> #[trigger] cells@[row * NUM_COLS + col]
                == picture_value(grid@, band_of_row@, default, row, col),
{
    let mut cells: Vec<T> = Vec::new();
    let mut row: usize = 0;
    while row < BANDS
        invariant
            row <= BANDS,
            band_of_row@.len() == BANDS,
            cells@.len() == row * NUM_COLS,
            forall|r: int, c: int|
                0 <= r < row && 0 <= c < NUM_COLS ==> #[trigger] cells@[r * NUM_COLS + c]
                    == picture_value(grid@, band_of_row@, default, r, c),
        decreases BANDS - row,
    {
        let b = band_of_row[row];
        let band = if b < BANDS - 1 {
            b
        } else {
            BANDS - 1
        };
        let mut col: usize = 0;
        while col < NUM_COLS
            invariant
                row < BANDS,
                col <= NUM_COLS,
                band_of_row@.len() == BANDS,
                band == clamp_band(band_of_row@[row as int] as int),
                band < BANDS,
                cells@.len() == row * NUM_COLS + col,
                forall|r: int, c: int|
                    0 <= r < row && 0 <= c < NUM_COLS ==> #[trigger] cells@[r * NUM_COLS + c]
                        == picture_value(grid@, band_of_row@, default, r, c),
                forall|c: int|
                    0 <= c < col ==> #[trigger] cells@[row * NUM_COLS + c] == picture_value(
                        grid@,
                        band_of_row@,
                        default,
                        row as int,
                        c,
                    ),
            decreases NUM_COLS - col,
        {
            assert(cell_index(col as int, band as int) <= usize::MAX) by {
                assert(BANDS == 1025);
                assert(col * BANDS <= NUM_COLS * 1025) by (nonlinear_arith)
                    requires
                        col <= NUM_COLS,
                        BANDS == 1025,
                ;
            }
            let v = read_cell(grid, col, band, default);
            cells.push(v);
            col += 1;
        }
        row += 1;
    }
    cells
}

/// Reading a cell back after writing a column gives the value written to
/// it; the other cells of that column and the cells of other columns keep
/// their values, as long as the column written is no longer than `BANDS`.
pub proof fn lemma_read_after_write<T>(
    grid: Seq<T>,
    col: int,
    bands: Seq<T>,
    c: int,
    band: int,
    default: T,
)
    requires
        0 <= col,
        0 <= c,
        0 <= band < BANDS,
        bands.len() <= BANDS,
    ensures
        c == col && band < bands.len() && cell_index(c, band) < grid.len() ==> cell_value(
            with_column(grid, col, bands),
            c,
            band,
            default,
        ) == bands[band],
        c != col || band >= bands.len() ==> cell_value(with_column(grid, col, bands), c, band, default)
            == cell_value(grid, c, band, default),
{
    if c != col {
        assert(BANDS == 1025);
        if c < col {
            assert(c * BANDS + band < col * BANDS) by (nonlinear_arith)
                requires
                    c < col,
                    0 <= band < BANDS,
                    BANDS == 1025,
            ;
        } else {
            assert(c * BANDS >= (col + 1) * BANDS) by (nonlinear_arith)
                requires
                    c >= col + 1,
                    BANDS == 1025,
            ;
        }
    }
}

/// On a linear frequency axis the picture is the grid turned so that time
/// runs left to right and the highest band is on top.
pub proof fn lemma_linear_picture<T>(grid: Seq<T>, band_of_row: Seq<usize>, default: T, row: int, col: int)
    requires
        band_of_row.len() == BANDS,
        forall|r: int| 0 <= r < BANDS ==> #[trigger] band_of_row[r] == linear_band(r),
        0 <= row < BANDS,
    ensures
        picture_value(grid, band_of_row, default, row, col) == cell_value(
            grid,
            col,
            BANDS - 1 - row,
            default,
        ),
{
    assert(band_of_row[row] == linear_band(row));
}

/// The cells of one view of the spectrogram, and how many columns have
/// arrived so far (one past the highest column received).
pub struct ColumnStore<T> {
    cells: Vec<T>,
    ready: usize,
}

impl<T: Copy> ColumnStore<T> {
    pub closed spec fn cells(&self) -> Seq<T> {
        self.cells@
    }

    pub closed spec fn ready(&self) -> nat {
        self.ready as nat
    }

    /// A store of `NUM_COLS` columns with every cell set to `fill`, no
    /// column received.
    pub fn new(fill: T) -> (s: Self)
        ensures
            s.cells() == Seq::new((NUM_COLS * BANDS) as nat, |i: int| fill),
            s.ready() == 0,
    {
        let mut cells: Vec<T> = Vec::new();
        let n = NUM_COLS * BANDS;
        let mut i: usize = 0;
        while i < n
            invariant
                n == NUM_COLS * BANDS,
                i <= n,
                cells@.len() == i,
                forall|k: int| 0 <= k < i ==> cells@[k] == fill,
            decreases n - i,
        {
            cells.push(fill);
            i += 1;
        }
        let s = ColumnStore { cells, ready: 0 };
        assert(s.cells() =~= Seq::new((NUM_COLS * BANDS) as nat, |i: int| fill));
        s
    }

    /// Records the spectrum of column `col`.
    pub fn receive(&mut self, col: usize, bands: &[T])
        requires
            col < usize::MAX,
            bands@.len() > 0 ==> cell_index(col as int, bands@.len() - 1) <= usize::MAX,
        ensures
            final(self).cells() == with_column(old(self).cells(), col as int, bands@),
            final(self).ready() == if old(self).ready() > col + 1 {
                old(self).ready()
            } else {
                (col + 1) as nat
            },
    {
        write_column(&mut self.cells, col, bands);
        if self.ready < col + 1 {
            self.ready = col + 1;
        }
    }

    /// The cells, column after column.
    pub fn cells_slice(&self) -> (s: &[T])
        ensures
            s@ == self.cells(),
    {
        self.cells.as_slice()
    }

    /// The number of columns received so far.
    pub fn columns_ready(&self) -> (n: usize)
        ensures
            n == self.ready(),
    {
        self.ready
    }
}

} // verus!
