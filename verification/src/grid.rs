//! The 4x4 grid, its model, and the slide of all its lines in one direction.
//!
//! The model of a grid is a `Seq<Seq<nat>>`: four rows of four cells.
use crate::line::{
    lemma_slide_fits, lemma_slide_fixed_or_room, lemma_slide_len, lemma_slide_valid, line_view,
    slide, slide_line,
};
use crate::tile::{is_valid_cell, valid_cell};
use vstd::prelude::*;

verus! {

/// The edge toward which the tiles slide. `Left` and `Up` lead toward index
/// 0 of a row or column, `Right` and `Down` toward index 3.
#[derive(Clone, Copy, Debug, PartialEq, Eq)]
pub enum Direction {
    Left,
    Right,
    Up,
    Down,
}

/// The cells of an executable grid as natural numbers, row by row.
pub open spec fn cells_view(cells: [[u32; 4]; 4]) -> Seq<Seq<nat>> {
    Seq::new(4, |r: int| Seq::new(4, |c: int| cells[r][c] as nat))
}

/// Four rows of four cells.
pub open spec fn well_shaped(g: Seq<Seq<nat>>) -> bool {
    &&& g.len() == 4
    &&& forall|r: int| 0 <= r < 4 ==> (#[trigger] g[r]).len() == 4
}

/// Every cell is empty or holds a power of two, 2 at least.
pub open spec fn valid_grid(g: Seq<Seq<nat>>) -> bool {
    &&& well_shaped(g)
    &&& forall|r: int, c: int| 0 <= r < 4 && 0 <= c < 4 ==> valid_cell(#[trigger] g[r][c])
}

/// Every cell fits in a `u32`.
pub open spec fn fits_cells(g: Seq<Seq<nat>>) -> bool {
    forall|r: int, c: int| 0 <= r < 4 && 0 <= c < 4 ==> #[trigger] g[r][c] <= u32::MAX
}

/// Every cell can be doubled within `u32`.
pub open spec fn headroom(g: Seq<Seq<nat>>) -> bool {
    forall|r: int, c: int| 0 <= r < 4 && 0 <= c < 4 ==> 2 * #[trigger] g[r][c] <= u32::MAX
}

/// Line `i` of the grid, read from the edge that `d` leads to: a row for
/// `Left` and `Right`, a column for `Up` and `Down`.
pub open spec fn line_of(g: Seq<Seq<nat>>, d: Direction, i: int) -> Seq<nat> {
    Seq::new(
        4,
        |k: int|
            match d {
                Direction::Left => g[i][k],
                Direction::Right => g[i][3 - k],
                Direction::Up => g[k][i],
                Direction::Down => g[3 - k][i],
            },
    )
}

/// The grid after every line slid toward the edge that `d` leads to.
pub open spec fn slid(g: Seq<Seq<nat>>, d: Direction) -> Seq<Seq<nat>> {
    Seq::new(
        4,
        |r: int|
            Seq::new(
                4,
                |c: int|
                    match d {
                        Direction::Left => slide(line_of(g, d, r))[c],
                        Direction::Right => slide(line_of(g, d, r))[3 - c],
                        Direction::Up => slide(line_of(g, d, c))[r],
                        Direction::Down => slide(line_of(g, d, c))[3 - r],
                    },
            ),
    )
}

/// Reads line `i` from the edge that `d` leads to.
fn read_line(cells: &[[u32; 4]; 4], d: Direction, i: usize) -> (line: [u32; 4])
    requires
        i < 4,
    ensures
        line_view(line) == line_of(cells_view(*cells), d, i as int),
{
    let mut line: [u32; 4] = [0, 0, 0, 0];
    let mut k: usize = 0;
    while k < 4
        invariant
            i < 4,
            k <= 4,
            forall|j: int|
                0 <= j < k ==> line[j] as nat == line_of(cells_view(*cells), d, i as int)[j],
        decreases 4 - k,
    {
        let v = match d {
            Direction::Left => cells[i][k],
            Direction::Right => cells[i][3 - k],
            Direction::Up => cells[k][i],
            Direction::Down => cells[3 - k][i],
        };
        line[k] = v;
        k = k + 1;
    }
    proof {
        assert(line_view(line) =~= line_of(cells_view(*cells), d, i as int));
    }
    line
}

/// Writes `line` as line `i`, from the edge that `d` leads to.
fn write_line(cells: &mut [[u32; 4]; 4], d: Direction, i: usize, line: [u32; 4])
    requires
        i < 4,
    ensures
        line_of(cells_view(*final(cells)), d, i as int) == line_view(line),
        forall|j: int|
            0 <= j < 4 && j != i ==> line_of(cells_view(*final(cells)), d, j) == line_of(
                cells_view(*old(cells)),
                d,
                j,
            ),
{
    let mut k: usize = 0;
    while k < 4
        invariant
            i < 4,
            k <= 4,
            forall|j: int|
                0 <= j < k ==> line_of(cells_view(*cells), d, i as int)[j] == line[j] as nat,
            forall|j: int|
                0 <= j < 4 && j != i ==> line_of(cells_view(*cells), d, j) == line_of(
                    cells_view(*old(cells)),
                    d,
                    j,
                ),
        decreases 4 - k,
    {
        let ghost before = *cells;
        match d {
            Direction::Left => {
                cells[i][k] = line[k];
            },
            Direction::Right => {
                cells[i][3 - k] = line[k];
            },
            Direction::Up => {
                cells[k][i] = line[k];
            },
            Direction::Down => {
                cells[3 - k][i] = line[k];
            },
        }
        proof {
            assert forall|j: int| 0 <= j < 4 && j != i implies line_of(cells_view(*cells), d, j)
                == line_of(cells_view(*old(cells)), d, j) by {
                assert(line_of(cells_view(*cells), d, j) =~= line_of(cells_view(before), d, j));
            }
        }
        k = k + 1;
    }
    proof {
        assert(line_of(cells_view(*cells), d, i as int) =~= line_view(line));
    }
}

/// Slides every line of `cells` toward the edge that `d` leads to.
fn slide_cells(cells: &[[u32; 4]; 4], d: Direction) -> (out: [[u32; 4]; 4])
    requires
        fits_cells(slid(cells_view(*cells), d)),
    ensures
        cells_view(out) == slid(cells_view(*cells), d),
{
    let ghost g = cells_view(*cells);
    let mut out = *cells;
    let mut i: usize = 0;
    while i < 4
        invariant
            i <= 4,
            g == cells_view(*cells),
            fits_cells(slid(g, d)),
            forall|j: int|
                0 <= j < i ==> line_of(cells_view(out), d, j) == slide(line_of(g, d, j)),
        decreases 4 - i,
    {
        let line = read_line(cells, d, i);
        proof {
            let s = slide(line_of(g, d, i as int));
            lemma_slide_len(line_of(g, d, i as int));
            assert forall|k: int| 0 <= k < 4 implies #[trigger] s[k] <= u32::MAX by {
                match d {
                    Direction::Left => assert(slid(g, d)[i as int][k] == s[k]),
                    Direction::Right => assert(slid(g, d)[i as int][3 - k] == s[k]),
                    Direction::Up => assert(slid(g, d)[k][i as int] == s[k]),
                    Direction::Down => assert(slid(g, d)[3 - k][i as int] == s[k]),
                }
            }
        }
        let moved = slide_line(line);
        write_line(&mut out, d, i, moved);
        i = i + 1;
    }
    proof {
        let h = cells_view(out);
        assert forall|r: int, c: int| 0 <= r < 4 && 0 <= c < 4 implies h[r][c] == slid(
            g,
            d,
        )[r][c] by {
            match d {
                Direction::Left => assert(h[r][c] == line_of(h, d, r)[c]),
                Direction::Right => assert(h[r][c] == line_of(h, d, r)[3 - c]),
                Direction::Up => assert(h[r][c] == line_of(h, d, c)[r]),
                Direction::Down => assert(h[r][c] == line_of(h, d, c)[3 - r]),
            }
        }
        assert(h =~~= slid(g, d));
    }
    out
}

/// A grid whose every cell can be doubled within `u32` fits after the slide
/// in every direction.
pub proof fn lemma_headroom_slides(g: Seq<Seq<nat>>, d: Direction)
    requires
        headroom(g),
    ensures
        fits_cells(slid(g, d)),
{
    assert forall|r: int, c: int| 0 <= r < 4 && 0 <= c < 4 implies #[trigger] slid(g, d)[r][c]
        <= u32::MAX by {
        let i = match d {
            Direction::Left | Direction::Right => r,
            Direction::Up | Direction::Down => c,
        };
        let s = line_of(g, d, i);
        assert forall|k: int| 0 <= k < 4 implies 2 * #[trigger] s[k] <= u32::MAX by {
            match d {
                Direction::Left => assert(2 * g[i][k] <= u32::MAX),
                Direction::Right => assert(2 * g[i][3 - k] <= u32::MAX),
                Direction::Up => assert(2 * g[k][i] <= u32::MAX),
                Direction::Down => assert(2 * g[3 - k][i] <= u32::MAX),
            }
        }
        lemma_slide_fits(s);
        lemma_slide_len(s);
    }
}

/// Sliding a valid grid gives a valid grid.
pub proof fn lemma_slid_valid(g: Seq<Seq<nat>>, d: Direction)
    requires
        valid_grid(g),
    ensures
        valid_grid(slid(g, d)),
{
    assert forall|r: int, c: int| 0 <= r < 4 && 0 <= c < 4 implies valid_cell(
        #[trigger] slid(g, d)[r][c],
    ) by {
        let i = match d {
            Direction::Left | Direction::Right => r,
            Direction::Up | Direction::Down => c,
        };
        let s = line_of(g, d, i);
        assert forall|k: int| 0 <= k < 4 implies valid_cell(#[trigger] s[k]) by {
            match d {
                Direction::Left => assert(valid_cell(g[i][k])),
                Direction::Right => assert(valid_cell(g[i][3 - k])),
                Direction::Up => assert(valid_cell(g[k][i])),
                Direction::Down => assert(valid_cell(g[3 - k][i])),
            }
        }
        lemma_slide_valid(s);
    }
}

/// Tells whether two grids hold the same cells.
fn cells_equal(a: &[[u32; 4]; 4], b: &[[u32; 4]; 4]) -> (same: bool)
    ensures
        same == (cells_view(*a) == cells_view(*b)),
{
    let mut r: usize = 0;
    while r < 4
        invariant
            r <= 4,
            forall|i: int, j: int| 0 <= i < r && 0 <= j < 4 ==> a[i][j] == b[i][j],
        decreases 4 - r,
    {
        let mut c: usize = 0;
        while c < 4
            invariant
                r < 4,
                c <= 4,
                forall|i: int, j: int| 0 <= i < r && 0 <= j < 4 ==> a[i][j] == b[i][j],
                forall|j: int| 0 <= j < c ==> a[r as int][j] == b[r as int][j],
            decreases 4 - c,
        {
            if a[r][c] != b[r][c] {
                proof {
                    assert(cells_view(*a)[r as int][c as int] != cells_view(
                        *b,
                    )[r as int][c as int]);
                }
                return false;
            }
            c = c + 1;
        }
        r = r + 1;
    }
    proof {
        assert(cells_view(*a) =~~= cells_view(*b));
    }
    true
}

/// A grid whose every cell is empty (`0`) or holds a power of two, 2 at
/// least.
#[derive(Clone, Copy, Debug)]
pub struct Grid {
    cells: [[u32; 4]; 4],
}

impl View for Grid {
    type V = Seq<Seq<nat>>;

    closed spec fn view(&self) -> Seq<Seq<nat>> {
        cells_view(self.cells)
    }
}

impl Grid {
    /// What holds of every grid: its cells are valid.
    #[verifier::type_invariant]
    pub open spec fn wf(self) -> bool {
        valid_grid(self@)
    }

    /// The grid with the given cells, row by row, if every cell is valid.
    pub fn new(cells: [[u32; 4]; 4]) -> (made: Option<Grid>)
        ensures
            made is Some <==> valid_grid(cells_view(cells)),
            made matches Some(g) ==> g@ == cells_view(cells),
    {
        let mut r: usize = 0;
        while r < 4
            invariant
                r <= 4,
                forall|i: int, j: int|
                    0 <= i < r && 0 <= j < 4 ==> valid_cell(#[trigger] cells_view(cells)[i][j]),
            decreases 4 - r,
        {
            let mut c: usize = 0;
            while c < 4
                invariant
                    r < 4,
                    c <= 4,
                    forall|i: int, j: int|
                        0 <= i < r && 0 <= j < 4 ==> valid_cell(
                            #[trigger] cells_view(cells)[i][j],
                        ),
                    forall|j: int| 0 <= j < c ==> valid_cell(cells_view(cells)[r as int][j]),
                decreases 4 - c,
            {
                if !is_valid_cell(cells[r][c]) {
                    proof {
                        assert(!valid_cell(cells_view(cells)[r as int][c as int]));
                    }
                    return None;
                }
                c = c + 1;
            }
            r = r + 1;
        }
        Some(Grid { cells })
    }

    /// The cells, row by row.
    pub fn cells(&self) -> (out: [[u32; 4]; 4])
        ensures
            cells_view(out) == self@,
    {
        self.cells
    }

    /// Tells whether every cell can be doubled within `u32`. A grid of which
    /// this holds fits after a slide in every direction.
    pub fn has_headroom(&self) -> (fits: bool)
        ensures
            fits == headroom(self@),
    {
        let mut r: usize = 0;
        while r < 4
            invariant
                r <= 4,
                forall|i: int, j: int|
                    0 <= i < r && 0 <= j < 4 ==> 2 * #[trigger] self@[i][j] <= u32::MAX,
            decreases 4 - r,
        {
            let mut c: usize = 0;
            while c < 4
                invariant
                    r < 4,
                    c <= 4,
                    forall|i: int, j: int|
                        0 <= i < r && 0 <= j < 4 ==> 2 * #[trigger] self@[i][j] <= u32::MAX,
                    forall|j: int| 0 <= j < c ==> 2 * self@[r as int][j] <= u32::MAX,
                decreases 4 - c,
            {
                if self.cells[r][c] > u32::MAX / 2 {
                    proof {
                        assert(2 * self@[r as int][c as int] > u32::MAX);
                    }
                    return false;
                }
                c = c + 1;
            }
            r = r + 1;
        }
        true
    }

    /// The grid after every line slid toward the edge that `d` leads to and
    /// merged its equal neighbours. The grid after the slide has to fit in the
    /// cells; a grid with headroom does in every direction.
    pub fn slide(&self, d: Direction) -> (out: Grid)
        requires
            fits_cells(slid(self@, d)),
        ensures
            out@ == slid(self@, d),
            valid_grid(out@),
    {
        proof {
            use_type_invariant(self);
            lemma_slid_valid(self@, d);
        }
        Grid { cells: slide_cells(&self.cells, d) }
    }
}

/// The cell at row `r` and column `c` equals the cell below it or the cell to
/// its right.
pub open spec fn pair_at(g: Seq<Seq<nat>>, r: int, c: int) -> bool {
    g[r][c] == g[r + 1][c] || g[r][c] == g[r][c + 1]
}

/// Some cell of rows 0 to 2 and columns 0 to 2 equals the cell below it or
/// the cell to its right. Two empty neighbours count as equal.
pub open spec fn any_move(g: Seq<Seq<nat>>) -> bool {
    exists|r: int, c: int| 0 <= r < 3 && 0 <= c < 3 && #[trigger] pair_at(g, r, c)
}

/// Tells whether the scan for an equal pair of neighbours finds one: each
/// cell of rows 0 to 2 and columns 0 to 2 is compared with the cell below it
/// and with the cell to its right. A grid on which it finds none is terminal.
pub fn has_any_move(grid: &Grid) -> (found: bool)
    ensures
        found == any_move(grid@),
{
    let mut row: usize = 0;
    while row < 3
        invariant
            row <= 3,
            forall|i: int, j: int| 0 <= i < row && 0 <= j < 3 ==> !pair_at(grid@, i, j),
        decreases 3 - row,
    {
        let mut col: usize = 0;
        while col < 3
            invariant
                row < 3,
                col <= 3,
                forall|i: int, j: int| 0 <= i < row && 0 <= j < 3 ==> !pair_at(grid@, i, j),
                forall|j: int| 0 <= j < col ==> !pair_at(grid@, row as int, j),
            decreases 3 - col,
        {
            if grid.cells[row][col] == grid.cells[row + 1][col] {
                proof {
                    assert(pair_at(grid@, row as int, col as int));
                }
                return true;
            } else if grid.cells[row][col] == grid.cells[row][col + 1] {
                proof {
                    assert(pair_at(grid@, row as int, col as int));
                }
                return true;
            }
            col = col + 1;
        }
        row = row + 1;
    }
    false
}

/// The sixteen cell positions in row-major order: position `i` stands for
/// row `i / 4` and column `i % 4`.
pub open spec fn positions() -> Seq<int> {
    Seq::new(16, |i: int| i)
}

/// The test that the cell at a position of `g` is empty.
pub open spec fn empty_at(g: Seq<Seq<nat>>) -> spec_fn(int) -> bool {
    |i: int| g[i / 4][i % 4] == 0
}

/// The positions of the empty cells of `g`, in row-major order.
pub open spec fn empty_slots(g: Seq<Seq<nat>>) -> Seq<int> {
    positions().filter(empty_at(g))
}

/// `g` with the cell at row `r` and column `c` set to `v`.
pub open spec fn with_cell(g: Seq<Seq<nat>>, r: int, c: int, v: nat) -> Seq<Seq<nat>> {
    g.update(r, g[r].update(c, v))
}

/// `g` with its `k`-th empty cell, counted from 0 in row-major order, set to
/// twice `factor`.
pub open spec fn placed(g: Seq<Seq<nat>>, k: int, factor: nat) -> Seq<Seq<nat>> {
    let slot = empty_slots(g)[k];
    with_cell(g, slot / 4, slot % 4, 2 * factor)
}

/// `after` is `before` with one empty cell set to 2 or 4, and no other cell
/// changed.
pub open spec fn spawned(before: Seq<Seq<nat>>, after: Seq<Seq<nat>>) -> bool {
    exists|r: int, c: int|
        0 <= r < 4 && 0 <= c < 4 && #[trigger] before[r][c] == 0 && (after == with_cell(
            before,
            r,
            c,
            2,
        ) || after == with_cell(before, r, c, 4))
}

/// The empty positions among the first `n` positions are the first of all
/// empty positions.
pub proof fn lemma_empty_slots_prefix(g: Seq<Seq<nat>>, n: int)
    requires
        0 <= n <= 16,
    ensures
        positions().take(n).filter(empty_at(g)).len() <= empty_slots(g).len(),
        forall|k: int|
            0 <= k < positions().take(n).filter(empty_at(g)).len() ==> empty_slots(g)[k]
                == #[trigger] positions().take(n).filter(empty_at(g))[k],
{
    let head = positions().take(n);
    let tail = positions().skip(n);
    assert(head + tail =~= positions());
    Seq::filter_distributes_over_add(head, tail, empty_at(g));
}

/// The empty positions among the first `n + 1` positions, from those among
/// the first `n`.
pub proof fn lemma_empty_slots_step(g: Seq<Seq<nat>>, n: int)
    requires
        0 <= n < 16,
    ensures
        positions().take(n + 1).filter(empty_at(g)) == if g[n / 4][n % 4] == 0 {
            positions().take(n).filter(empty_at(g)).push(n)
        } else {
            positions().take(n).filter(empty_at(g))
        },
{
    reveal(Seq::filter);
    assert(positions().take(n + 1).drop_last() =~= positions().take(n));
}

/// Placing a tile on the `k`-th empty cell is a spawn, and keeps a valid grid
/// valid.
pub proof fn lemma_placed_spawned(g: Seq<Seq<nat>>, k: int, factor: nat)
    requires
        well_shaped(g),
        0 <= k < empty_slots(g).len(),
        factor == 1 || factor == 2,
    ensures
        spawned(g, placed(g, k, factor)),
        valid_grid(g) ==> valid_grid(placed(g, k, factor)),
{
    let slot = empty_slots(g)[k];
    positions().lemma_filter_pred(empty_at(g), k);
    assert(empty_slots(g).contains(slot));
    positions().lemma_filter_contains_rev(empty_at(g), slot);
    let r = slot / 4;
    let c = slot % 4;
    assert(g[r][c] == 0);
    if valid_grid(g) {
        crate::tile::lemma_two_and_four_are_tiles();
        let h = placed(g, k, factor);
        assert forall|i: int, j: int| 0 <= i < 4 && 0 <= j < 4 implies valid_cell(
            #[trigger] h[i][j],
        ) by {
            assert(valid_cell(g[i][j]));
        }
    }
}

/// A grid with an empty cell has an empty position.
pub proof fn lemma_empty_cell_counts(g: Seq<Seq<nat>>, r: int, c: int)
    requires
        0 <= r < 4,
        0 <= c < 4,
        g[r][c] == 0,
    ensures
        empty_slots(g).len() > 0,
{
    let i = 4 * r + c;
    assert(positions()[i] == i);
    assert(empty_at(g)(positions()[i]));
    positions().lemma_filter_contains(empty_at(g), i);
}

/// A slide that changes the grid leaves an empty cell: room for a new tile.
pub proof fn lemma_changed_leaves_room(g: Seq<Seq<nat>>, d: Direction)
    requires
        well_shaped(g),
        slid(g, d) != g,
    ensures
        empty_slots(slid(g, d)).len() > 0,
{
    let h = slid(g, d);
    if forall|i: int| 0 <= i < 4 ==> slide(#[trigger] line_of(g, d, i)) == line_of(g, d, i) {
        assert forall|r: int, c: int| 0 <= r < 4 && 0 <= c < 4 implies h[r][c] == g[r][c] by {
            match d {
                Direction::Left => assert(line_of(g, d, r)[c] == g[r][c]),
                Direction::Right => assert(line_of(g, d, r)[3 - c] == g[r][c]),
                Direction::Up => assert(line_of(g, d, c)[r] == g[r][c]),
                Direction::Down => assert(line_of(g, d, c)[3 - r] == g[r][c]),
            }
        }
        assert(h =~~= g);
    } else {
        let i = choose|i: int|
            0 <= i < 4 && slide(#[trigger] line_of(g, d, i)) != line_of(g, d, i);
        lemma_slide_fixed_or_room(line_of(g, d, i));
        match d {
            Direction::Left => lemma_empty_cell_counts(h, i, 3),
            Direction::Right => lemma_empty_cell_counts(h, i, 0),
            Direction::Up => lemma_empty_cell_counts(h, 3, i),
            Direction::Down => lemma_empty_cell_counts(h, 0, i),
        }
    }
}

impl Grid {
    /// The number of empty cells.
    pub fn empty_count(&self) -> (n: usize)
        ensures
            n == empty_slots(self@).len(),
            n <= 16,
    {
        let mut n: usize = 0;
        let mut idx: usize = 0;
        proof {
            reveal(Seq::filter);
            assert(positions().take(0) =~= Seq::<int>::empty());
        }
        while idx < 16
            invariant
                idx <= 16,
                n <= idx,
                n == positions().take(idx as int).filter(empty_at(self@)).len(),
            decreases 16 - idx,
        {
            proof {
                lemma_empty_slots_step(self@, idx as int);
            }
            if self.cells[idx / 4][idx % 4] == 0 {
                n = n + 1;
            }
            idx = idx + 1;
        }
        proof {
            assert(positions().take(16) =~= positions());
        }
        n
    }

    /// The grid with a tile of value twice `factor` on its `k`-th empty cell,
    /// counted from 0 in row-major order.
    pub fn place_tile(&self, k: usize, factor: u32) -> (out: Grid)
        requires
            k < empty_slots(self@).len(),
            factor == 1 || factor == 2,
        ensures
            out@ == placed(self@, k as int, factor as nat),
            spawned(self@, out@),
            valid_grid(out@),
    {
        let mut seen: usize = 0;
        let mut idx: usize = 0;
        proof {
            use_type_invariant(self);
            reveal(Seq::filter);
            assert(positions().take(0) =~= Seq::<int>::empty());
        }
        while idx < 15 && !(self.cells[idx / 4][idx % 4] == 0 && seen == k)
            invariant
                idx <= 15,
                seen <= k,
                seen == positions().take(idx as int).filter(empty_at(self@)).len(),
            decreases 15 - idx,
        {
            proof {
                lemma_empty_slots_step(self@, idx as int);
            }
            if self.cells[idx / 4][idx % 4] == 0 {
                seen = seen + 1;
            }
            idx = idx + 1;
        }
        proof {
            lemma_empty_slots_step(self@, idx as int);
            lemma_empty_slots_prefix(self@, idx + 1);
            if idx == 15 {
                assert(positions().take(16) =~= positions());
            }
            let upto = positions().take(idx + 1).filter(empty_at(self@));
            assert(self@[idx as int / 4][idx as int % 4] == 0 && seen == k);
            assert(upto[k as int] == idx);
            assert(empty_slots(self@)[k as int] == idx);
            lemma_placed_spawned(self@, k as int, factor as nat);
        }
        let mut cells = self.cells;
        cells[idx / 4][idx % 4] = 2 * factor;
        proof {
            assert(cells_view(cells) =~~= placed(self@, k as int, factor as nat));
        }
        Grid { cells }
    }
}

impl PartialEq for Grid {
    fn eq(&self, other: &Grid) -> (same: bool) {
        cells_equal(&self.cells, &other.cells)
    }
}

impl Eq for Grid {

}

impl vstd::std_specs::cmp::PartialEqSpecImpl for Grid {
    open spec fn obeys_eq_spec() -> bool {
        true
    }

    open spec fn eq_spec(&self, other: &Grid) -> bool {
        self@ == other@
    }
}

} // verus!
