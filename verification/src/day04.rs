//! A warehouse floor map of empty cells (`.`) and paper rolls (`@`).
//!
//! A roll is accessible when fewer than four of its eight neighbouring
//! cells hold rolls.  `part1` counts the accessible rolls.  `part2`
//! repeatedly takes accessible rolls away — removing a roll can free its
//! neighbours — and counts how many can be taken in all.
//!
//! The floor is held in a `grid::Grid`, reached through trusted wrappers
//! whose contracts speak of `grid_cells`, the grid's rows.

use vstd::prelude::*;

use crate::scan;
use crate::Error;

use std::collections::VecDeque;

verus! {

/// The eight compass directions to a neighbouring cell.
#[derive(Debug, Copy, Clone, Eq, PartialEq, Structural)]
pub enum Direction {
    North,
    Northeast,
    East,
    Southeast,
    South,
    Southwest,
    West,
    Northwest,
}

/// The (row, column) offset a direction stands for.
pub open spec fn dir_offset(d: Direction) -> (int, int) {
    match d {
        Direction::North => (0, -1),
        Direction::Northeast => (1, -1),
        Direction::East => (1, 0),
        Direction::Southeast => (1, 1),
        Direction::South => (0, 1),
        Direction::Southwest => (-1, 1),
        Direction::West => (-1, 0),
        Direction::Northwest => (-1, -1),
    }
}

/// All eight directions, in a fixed order.
pub open spec fn dirs() -> Seq<Direction> {
    seq![
        Direction::North,
        Direction::Northeast,
        Direction::East,
        Direction::Southeast,
        Direction::South,
        Direction::Southwest,
        Direction::West,
        Direction::Northwest,
    ]
}

impl Direction {
    /// The offset this direction stands for.
    pub fn get_offset(&self) -> (r: (isize, isize))
        ensures
            r.0 as int == dir_offset(*self).0,
            r.1 as int == dir_offset(*self).1,
    {
        match self {
            Direction::North => (0, -1),
            Direction::Northeast => (1, -1),
            Direction::East => (1, 0),
            Direction::Southeast => (1, 1),
            Direction::South => (0, 1),
            Direction::Southwest => (-1, 1),
            Direction::West => (-1, 0),
            Direction::Northwest => (-1, -1),
        }
    }

    /// All eight directions, in the order of `dirs`.
    pub fn iter() -> (r: Vec<Direction>)
        ensures
            r@ == dirs(),
    {
        let mut v: Vec<Direction> = Vec::new();
        v.push(Direction::North);
        v.push(Direction::Northeast);
        v.push(Direction::East);
        v.push(Direction::Southeast);
        v.push(Direction::South);
        v.push(Direction::Southwest);
        v.push(Direction::West);
        v.push(Direction::Northwest);
        proof {
            assert(v@ =~= dirs());
        }
        v
    }
}

#[verifier::external_type_specification]
#[verifier::external_body]
#[verifier::reject_recursive_types(T)]
pub struct ExGrid<T>(grid::Grid<T>);

/// The rows of a grid, each row a sequence of cell values.
pub uninterp spec fn grid_cells(g: grid::Grid<u8>) -> Seq<Seq<u8>>;

/// Relies on grid::Grid::from over a vector of equal-length rows: the
/// grid holds exactly those rows.
#[verifier::external_body]
fn grid_from_rows(rows: Vec<Vec<u8>>) -> (g: grid::Grid<u8>)
    requires
        row_views(rows@).len() > 0,
        row_views(rows@)[0].len() > 0,
        uniform(row_views(rows@)),
    ensures
        grid_cells(g).len() == row_views(rows@).len(),
        forall|k: int| 0 <= k < rows@.len() ==> grid_cells(g)[k] == row_views(rows@)[k],
{
    grid::Grid::from(rows)
}

/// Relies on grid::Grid::get: in bounds it returns the cell, out of
/// bounds (or not a `usize` coordinate) nothing.
#[verifier::external_body]
fn grid_get(g: &grid::Grid<u8>, row: i128, col: i128) -> (r: Option<u8>)
    ensures
        (match r {
            Some(v) => 0 <= row < grid_cells(*g).len() && 0 <= col < grid_cells(*g)[row as int].len()
                && v == grid_cells(*g)[row as int][col as int],
            None => !(0 <= row < grid_cells(*g).len() && 0 <= col < grid_cells(
                *g,
            )[row as int].len()),
        }),
{
    g.get(row, col).copied()
}

/// Relies on grid::Grid::rows.
#[verifier::external_body]
fn grid_rows(g: &grid::Grid<u8>) -> (r: usize)
    ensures
        r == grid_cells(*g).len(),
{
    g.rows()
}

/// Relies on grid::Grid::cols: every row of a grid has `cols` cells.
#[verifier::external_body]
fn grid_cols(g: &grid::Grid<u8>) -> (r: usize)
    ensures
        grid_cells(*g).len() > 0 ==> r == grid_cells(*g)[0].len(),
{
    g.cols()
}

/// Relies on grid::Grid::get_mut: writes one cell, keeps the rest.
#[verifier::external_body]
fn grid_set(g: &mut grid::Grid<u8>, row: usize, col: usize, val: u8)
    requires
        row < grid_cells(*old(g)).len(),
        col < grid_cells(*old(g))[row as int].len(),
    ensures
        grid_cells(*final(g)).len() == grid_cells(*old(g)).len(),
        forall|k: int|
            0 <= k < grid_cells(*old(g)).len() ==> grid_cells(*final(g))[k] == (if k == row {
                grid_cells(*old(g))[k].update(col as int, val)
            } else {
                grid_cells(*old(g))[k]
            }),
{
    *g.get_mut(row, col).unwrap() = val;
}

/// One map row: `.` is empty (0), `@` a paper roll (1).
pub open spec fn sp_row(s: Seq<char>, i: int, acc: Seq<u8>) -> Option<(Seq<u8>, int)>
    decreases s.len() - i when 0 <= i <= s.len()
{
    if i < s.len() && s[i] == '.' {
        sp_row(s, i + 1, acc.push(0u8))
    } else if i < s.len() && s[i] == '@' {
        sp_row(s, i + 1, acc.push(1u8))
    } else {
        if acc.len() == 0 {
            None
        } else {
            Some((acc, i))
        }
    }
}

/// Map rows, each with an optional line ending, greedy.
pub open spec fn sp_rows(s: Seq<char>, i: int, acc: Seq<Seq<u8>>) -> Option<(Seq<Seq<u8>>, int)>
    decreases s.len() - i when 0 <= i <= s.len()
{
    match sp_row(s, i, Seq::empty()) {
        Some((row, j)) => {
            let acc2 = acc.push(row);
            let j2 = j + scan::line_end_len(s, j);
            if i < j2 && j2 < s.len() && (s[j2] == '.' || s[j2] == '@') {
                sp_rows(s, j2, acc2)
            } else {
                Some((acc2, j2))
            }
        },
        None => None,
    }
}

/// All rows hold the same number of cells.
pub open spec fn uniform(cells: Seq<Seq<u8>>) -> bool {
    forall|k: int| 0 <= k < cells.len() ==> (#[trigger] cells[k]).len() == cells[0].len()
}

/// The whole input: a rectangle of cells consuming every character.
pub open spec fn parse_floor(s: Seq<char>) -> Option<Seq<Seq<u8>>> {
    match sp_rows(s, 0, Seq::empty()) {
        Some((cells, j)) => if j == s.len() && uniform(cells) {
            Some(cells)
        } else {
            None
        },
        None => None,
    }
}

proof fn lemma_sp_row_len(s: Seq<char>, i: int, acc: Seq<u8>)
    requires
        0 <= i <= s.len(),
        sp_row(s, i, acc) is Some,
    ensures
        sp_row(s, i, acc)->Some_0.0.len() >= 1,
        sp_row(s, i, acc)->Some_0.0.len() >= acc.len(),
    decreases s.len() - i,
{
    if i < s.len() && (s[i] == '.' || s[i] == '@') {
        let c0 = if s[i] == '.' {
            0u8
        } else {
            1u8
        };
        lemma_sp_row_len(s, i + 1, acc.push(c0));
    }
}

/// A parsed row list extends its accumulator with non-empty rows.
proof fn lemma_sp_rows_shape(s: Seq<char>, i: int, acc: Seq<Seq<u8>>)
    requires
        0 <= i <= s.len(),
        sp_rows(s, i, acc) is Some,
    ensures
        sp_rows(s, i, acc)->Some_0.0.len() > acc.len(),
        forall|x: int| 0 <= x < acc.len() ==> sp_rows(s, i, acc)->Some_0.0[x] == acc[x],
        forall|x: int|
            acc.len() <= x < sp_rows(s, i, acc)->Some_0.0.len() ==> (#[trigger] sp_rows(
                s,
                i,
                acc,
            )->Some_0.0[x]).len() >= 1,
    decreases s.len() - i,
{
    match sp_row(s, i, Seq::empty()) {
        Some((row, j)) => {
            lemma_sp_row_len(s, i, Seq::empty());
            let acc2 = acc.push(row);
            let j2 = j + scan::line_end_len(s, j);
            if i < j2 && j2 < s.len() && (s[j2] == '.' || s[j2] == '@') {
                lemma_sp_rows_shape(s, j2, acc2);
                let res = sp_rows(s, j2, acc2)->Some_0.0;
                assert(sp_rows(s, i, acc)->Some_0.0 == res);
                assert forall|x: int| 0 <= x < acc.len() implies res[x] == acc[x] by {
                    assert(res[x] == acc2[x]);
                    assert(acc2[x] == acc[x]);
                }
                assert forall|x: int| acc.len() <= x < res.len() implies (#[trigger] res[x]).len()
                    >= 1 by {
                    if x == acc.len() {
                        assert(res[x] == acc2[x]);
                        assert(acc2[x] == row);
                    }
                }
            } else {
                let res = acc2;
                assert(sp_rows(s, i, acc)->Some_0.0 == res);
                assert forall|x: int| 0 <= x < acc.len() implies res[x] == acc[x] by {
                    assert(acc.push(row)[x] == acc[x]);
                }
                assert forall|x: int| acc.len() <= x < res.len() implies (#[trigger] res[x]).len()
                    >= 1 by {
                    assert(res[x] == row);
                }
            }
        },
        None => {},
    }
}

fn row_at(v: &Vec<char>, i: usize, acc: Vec<u8>) -> (r: Option<(Vec<u8>, usize)>)
    requires
        i <= v@.len(),
    ensures
        (match r {
            Some(p) => i <= p.1 <= v@.len() && sp_row(v@, i as int, acc@) == Some(
                (p.0@, p.1 as int),
            ) && p.0@.len() >= 1,
            None => sp_row(v@, i as int, acc@) is None,
        }),
    decreases v@.len() - i,
{
    if i < v.len() {
        let c = v[i];
        if c == '.' {
            let mut acc2 = acc;
            acc2.push(0);
            return row_at(v, i + 1, acc2);
        }
        if c == '@' {
            let mut acc2 = acc;
            acc2.push(1);
            return row_at(v, i + 1, acc2);
        }
    }
    if acc.len() == 0 {
        None
    } else {
        Some((acc, i))
    }
}

/// Spec views of parsed rows.
pub open spec fn row_views(rows: Seq<Vec<u8>>) -> Seq<Seq<u8>> {
    rows.map_values(|r: Vec<u8>| r@)
}

fn rows_at(v: &Vec<char>, i: usize, acc: Vec<Vec<u8>>) -> (r: Option<(Vec<Vec<u8>>, usize)>)
    requires
        i <= v@.len(),
    ensures
        (match r {
            Some(p) => p.1 <= v@.len() && sp_rows(v@, i as int, row_views(acc@)) == Some(
                (row_views(p.0@), p.1 as int),
            ),
            None => sp_rows(v@, i as int, row_views(acc@)) is None,
        }),
    decreases v@.len() - i,
{
    let vl = v.len();
    match row_at(v, i, Vec::new()) {
        Some((row, j)) => {
            let ghost old_views = row_views(acc@);
            let mut acc2 = acc;
            acc2.push(row);
            proof {
                assert(row_views(acc2@) =~= old_views.push(acc2@[acc2@.len() - 1]@));
            }
            let d = scan::line_end_at(v, j);
            let j2 = j + d;
            if i < j2 && j2 < vl {
                let c = v[j2];
                if c == '.' || c == '@' {
                    return rows_at(v, j2, acc2);
                }
            }
            Some((acc2, j2))
        },
        None => None,
    }
}

fn parse_all(v: &Vec<char>) -> (r: Option<Vec<Vec<u8>>>)
    ensures
        (match r {
            Some(rows) => {
                &&& parse_floor(v@) == Some(row_views(rows@))
                &&& uniform(row_views(rows@))
                &&& row_views(rows@).len() > 0
                &&& row_views(rows@)[0].len() > 0
            },
            None => parse_floor(v@) is None,
        }),
{
    proof {
        assert(row_views(Seq::<Vec<u8>>::empty()) =~= Seq::<Seq<u8>>::empty());
    }
    let vl = v.len();
    match rows_at(v, 0, Vec::new()) {
        Some((rows, j)) => {
            if j != vl {
                return None;
            }
            proof {
                lemma_sp_rows_shape(v@, 0, Seq::<Seq<u8>>::empty());
            }
            // check the rectangle
            let cols = rows[0].len();
            let mut k: usize = 1;
            while k < rows.len()
                invariant
                    1 <= k <= rows@.len(),
                    rows@.len() > 0,
                    j == v@.len(),
                    sp_rows(v@, 0, Seq::<Seq<u8>>::empty()) == Some(
                        (row_views(rows@), j as int),
                    ),
                    cols == row_views(rows@)[0].len(),
                    forall|x: int|
                        0 <= x < k ==> (#[trigger] row_views(rows@)[x]).len() == cols,
                decreases rows@.len() - k,
            {
                if rows[k].len() != cols {
                    assert(row_views(rows@)[k as int] == rows@[k as int]@);
                    assert(row_views(rows@)[k as int].len() != row_views(rows@)[0].len());
                    assert(!uniform(row_views(rows@)));
                    return None;
                }
                assert(row_views(rows@)[k as int] == rows@[k as int]@);
                k = k + 1;
            }
            assert(uniform(row_views(rows@)));
            assert(row_views(rows@)[0].len() > 0);
            Some(rows)
        },
        None => None,
    }
}

/// A paper roll sits at `(r, c)`.
pub open spec fn is_roll(cells: Seq<Seq<u8>>, r: int, c: int) -> bool {
    0 <= r < cells.len() && 0 <= c < cells[r].len() && cells[r][c] == 1
}

/// Rolls among the first `k` of the eight neighbours of `(r, c)`.
pub open spec fn nbr_count(cells: Seq<Seq<u8>>, r: int, c: int, k: int) -> int
    decreases k,
{
    if k <= 0 {
        0
    } else {
        nbr_count(cells, r, c, k - 1) + (if is_roll(
            cells,
            r + dir_offset(dirs()[k - 1]).0,
            c + dir_offset(dirs()[k - 1]).1,
        ) {
            1int
        } else {
            0int
        })
    }
}

/// A roll with fewer than four roll neighbours can be taken away.
pub open spec fn accessible(cells: Seq<Seq<u8>>, r: int, c: int) -> bool {
    is_roll(cells, r, c) && nbr_count(cells, r, c, 8) < 4
}

/// Accessible rolls in row `r` among columns `0..c`.
pub open spec fn acc_row(cells: Seq<Seq<u8>>, r: int, c: int) -> int
    decreases c,
{
    if c <= 0 {
        0
    } else {
        acc_row(cells, r, c - 1) + (if accessible(cells, r, c - 1) {
            1int
        } else {
            0int
        })
    }
}

/// Accessible rolls in rows `0..r`.
pub open spec fn acc_upto(cells: Seq<Seq<u8>>, r: int) -> int
    decreases r,
{
    if r <= 0 {
        0
    } else {
        acc_upto(cells, r - 1) + acc_row(cells, r - 1, cells[r - 1].len() as int)
    }
}

proof fn lemma_acc_row_nonneg(cells: Seq<Seq<u8>>, r: int, c: int)
    ensures
        acc_row(cells, r, c) >= 0,
    decreases c,
{
    if c > 0 {
        lemma_acc_row_nonneg(cells, r, c - 1);
    }
}

/// Counts the rolls around `(r, c)` on the grid.
fn count_neighbours(g: &grid::Grid<u8>, r: usize, c: usize) -> (cnt: u8)
    ensures
        cnt == nbr_count(grid_cells(*g), r as int, c as int, 8),
        cnt <= 8,
{
    let ds = Direction::iter();
    let mut cnt: u8 = 0;
    let mut k: usize = 0;
    while k < 8
        invariant
            k <= 8,
            ds@ == dirs(),
            cnt == nbr_count(grid_cells(*g), r as int, c as int, k as int),
            cnt <= k,
        decreases 8 - k,
    {
        let (dr, dc) = ds[k].get_offset();
        let nr = r as i128 + dr as i128;
        let nc = c as i128 + dc as i128;
        match grid_get(g, nr, nc) {
            Some(cell) => {
                if cell == 1 {
                    cnt = cnt + 1;
                }
            },
            None => {
            },
        }
        k = k + 1;
    }
    cnt
}

/// How many paper rolls are accessible on the floor as parsed.  A count
/// beyond 64 bits cannot be reported.
pub fn part1(input: &str) -> (r: Result<u64, Error>)
    ensures
        (match parse_floor(input@) {
            None => r == Err::<u64, Error>(Error::ParseError),
            Some(cells) => {
                if acc_upto(cells, cells.len() as int) <= u64::MAX {
                    r == Ok::<u64, Error>(acc_upto(cells, cells.len() as int) as u64)
                } else {
                    r == Err::<u64, Error>(Error::UnsolvableError)
                }
            },
        }),
{
    let chars = scan::chars_of(input);
    let rows_vec = match parse_all(&chars) {
        Some(rows) => rows,
        None => {
            return Err(Error::ParseError);
        },
    };
    let ghost cells = row_views(rows_vec@);
    let g = grid_from_rows(rows_vec);
    proof {
        assert(grid_cells(g) =~= cells);
    }
    let nrows = grid_rows(&g);
    let ncols = grid_cols(&g);
    let mut count: u64 = 0;
    let mut r: usize = 0;
    while r < nrows
        invariant
            r <= nrows,
            grid_cells(g) == cells,
            parse_floor(input@) == Some(cells),
            uniform(cells),
            nrows == cells.len(),
            cells.len() > 0,
            ncols == cells[0].len(),
            count == acc_upto(cells, r as int),
        decreases nrows - r,
    {
        let mut c: usize = 0;
        let ghost row_base = count;
        while c < ncols
            invariant
                c <= ncols,
                r < nrows,
                grid_cells(g) == cells,
                uniform(cells),
                nrows == cells.len(),
                cells.len() > 0,
                ncols == cells[0].len(),
                ncols == cells[r as int].len(),
                parse_floor(input@) == Some(cells),
                count == row_base + acc_row(cells, r as int, c as int),
                row_base == acc_upto(cells, r as int),
                row_base >= 0,
            decreases ncols - c,
        {
            let cell = match grid_get(&g, r as i128, c as i128) {
                Some(v) => v,
                None => {
                    proof {
                        assert(false);
                    }
                    0
                },
            };
            if cell == 1 {
                let cnt = count_neighbours(&g, r, c);
                if cnt < 4 {
                    assert(accessible(cells, r as int, c as int));
                    proof {
                        lemma_acc_row_nonneg(cells, r as int, c as int);
                    }
                    match count.checked_add(1) {
                        Some(c2) => {
                            count = c2;
                        },
                        None => {
                            proof {
                                lemma_overflow(cells, r as int, c as int + 1, count as int + 1);
                            }
                            return Err(Error::UnsolvableError);
                        },
                    }
                } else {
                    assert(!accessible(cells, r as int, c as int));
                }
            } else {
                assert(!accessible(cells, r as int, c as int));
            }
            c = c + 1;
        }
        r = r + 1;
    }
    assert(count == acc_upto(cells, cells.len() as int));
    Ok(count)
}

/// Counts only grow when more rows or columns are scanned.
proof fn lemma_acc_row_mono(cells: Seq<Seq<u8>>, r: int, c1: int, c2: int)
    requires
        0 <= c1 <= c2,
    ensures
        acc_row(cells, r, c1) <= acc_row(cells, r, c2),
    decreases c2 - c1,
{
    if c1 < c2 {
        lemma_acc_row_mono(cells, r, c1, c2 - 1);
    }
}

proof fn lemma_acc_upto_mono(cells: Seq<Seq<u8>>, r1: int, r2: int)
    requires
        0 <= r1 <= r2,
    ensures
        acc_upto(cells, r1) <= acc_upto(cells, r2),
    decreases r2 - r1,
{
    if r1 < r2 {
        lemma_acc_upto_mono(cells, r1, r2 - 1);
        lemma_acc_row_nonneg(cells, r2 - 1, cells[r2 - 1].len() as int);
    }
}

/// A partial count past `u64::MAX` puts the total past it too.
proof fn lemma_overflow(cells: Seq<Seq<u8>>, r: int, c: int, partial: int)
    requires
        0 <= r < cells.len(),
        0 <= c <= cells[r].len(),
        partial == acc_upto(cells, r) + acc_row(cells, r, c),
        partial > u64::MAX,
    ensures
        acc_upto(cells, cells.len() as int) > u64::MAX,
{
    lemma_acc_row_mono(cells, r, c, cells[r].len() as int);
    assert(acc_upto(cells, r + 1) >= partial);
    lemma_acc_upto_mono(cells, r + 1, cells.len() as int);
}

/// The floor with the cell at `(r, c)` cleared.
pub open spec fn clear_at(cells: Seq<Seq<u8>>, r: int, c: int) -> Seq<Seq<u8>> {
    if 0 <= r < cells.len() && 0 <= c < cells[r].len() {
        cells.update(r, cells[r].update(c, 0u8))
    } else {
        cells
    }
}

/// The floor after taking away the listed cells, in order.
pub open spec fn cells_after(cells: Seq<Seq<u8>>, rm: Seq<(int, int)>) -> Seq<Seq<u8>>
    decreases rm.len(),
{
    if rm.len() == 0 {
        cells
    } else {
        clear_at(cells_after(cells, rm.drop_last()), rm.last().0, rm.last().1)
    }
}

/// Each listed cell was an accessible roll when its turn came.
pub open spec fn valid_removals(cells: Seq<Seq<u8>>, rm: Seq<(int, int)>) -> bool {
    forall|k: int|
        0 <= k < rm.len() ==> accessible(
            cells_after(cells, rm.take(k)),
            (#[trigger] rm[k]).0,
            rm[k].1,
        )
}

/// No roll on the floor can be taken away.
pub open spec fn no_accessible(cells: Seq<Seq<u8>>) -> bool {
    forall|r: int, c: int| !accessible(cells, r, c)
}

/// Clearing keeps the floor's shape.
proof fn lemma_clear_dims(cells: Seq<Seq<u8>>, r: int, c: int)
    ensures
        clear_at(cells, r, c).len() == cells.len(),
        forall|k: int|
            0 <= k < cells.len() ==> (#[trigger] clear_at(cells, r, c)[k]).len() == cells[k].len(),
{
}

/// Taking a step extends a valid removal sequence.
proof fn lemma_extend_valid(cells: Seq<Seq<u8>>, rm: Seq<(int, int)>, r: int, c: int)
    requires
        valid_removals(cells, rm),
        accessible(cells_after(cells, rm), r, c),
    ensures
        valid_removals(cells, rm.push((r, c))),
        cells_after(cells, rm.push((r, c))) == clear_at(cells_after(cells, rm), r, c),
{
    let rm2 = rm.push((r, c));
    assert(rm2.drop_last() =~= rm);
    assert(rm2.last() == (r, c));
    assert forall|k: int|
        0 <= k < rm2.len() implies accessible(
        cells_after(cells, rm2.take(k)),
        (#[trigger] rm2[k]).0,
        rm2[k].1,
    ) by {
        if k < rm.len() {
            assert(rm2.take(k) =~= rm.take(k));
            assert(rm2[k] == rm[k]);
        } else {
            assert(rm2.take(k) =~= rm);
            assert(rm2[k] == (r, c));
        }
    }
}

/// Clearing one roll changes exactly that cell's roll status.
proof fn lemma_roll_after_clear(cells: Seq<Seq<u8>>, r0: int, c0: int, x: int, y: int)
    requires
        is_roll(cells, r0, c0),
    ensures
        is_roll(clear_at(cells, r0, c0), x, y) == (is_roll(cells, x, y) && !(x == r0 && y == c0)),
{
    lemma_clear_dims(cells, r0, c0);
}

/// Away from the cleared cell, neighbour counts do not change.
proof fn lemma_nbr_same(cells: Seq<Seq<u8>>, r0: int, c0: int, x: int, y: int, k: int)
    requires
        is_roll(cells, r0, c0),
        0 <= k <= 8,
        forall|j: int|
            0 <= j < k ==> !(x + dir_offset(#[trigger] dirs()[j]).0 == r0 && y + dir_offset(
                dirs()[j],
            ).1 == c0),
    ensures
        nbr_count(clear_at(cells, r0, c0), x, y, k) == nbr_count(cells, x, y, k),
    decreases k,
{
    if k > 0 {
        lemma_nbr_same(cells, r0, c0, x, y, k - 1);
        lemma_roll_after_clear(
            cells,
            r0,
            c0,
            x + dir_offset(dirs()[k - 1]).0,
            y + dir_offset(dirs()[k - 1]).1,
        );
    }
}

/// The direction set is closed under reversal.
proof fn lemma_dir_neg(j: int)
    requires
        0 <= j < 8,
    ensures
        exists|j2: int|
            0 <= j2 < 8 && dir_offset(#[trigger] dirs()[j2]).0 == -dir_offset(dirs()[j]).0
                && dir_offset(dirs()[j2]).1 == -dir_offset(dirs()[j]).1,
{
    if j == 0 {
        assert(dir_offset(dirs()[4]).0 == -dir_offset(dirs()[0]).0 && dir_offset(dirs()[4]).1
            == -dir_offset(dirs()[0]).1);
    } else if j == 1 {
        assert(dir_offset(dirs()[5]).0 == -dir_offset(dirs()[1]).0 && dir_offset(dirs()[5]).1
            == -dir_offset(dirs()[1]).1);
    } else if j == 2 {
        assert(dir_offset(dirs()[6]).0 == -dir_offset(dirs()[2]).0 && dir_offset(dirs()[6]).1
            == -dir_offset(dirs()[2]).1);
    } else if j == 3 {
        assert(dir_offset(dirs()[7]).0 == -dir_offset(dirs()[3]).0 && dir_offset(dirs()[7]).1
            == -dir_offset(dirs()[3]).1);
    } else if j == 4 {
        assert(dir_offset(dirs()[0]).0 == -dir_offset(dirs()[4]).0 && dir_offset(dirs()[0]).1
            == -dir_offset(dirs()[4]).1);
    } else if j == 5 {
        assert(dir_offset(dirs()[1]).0 == -dir_offset(dirs()[5]).0 && dir_offset(dirs()[1]).1
            == -dir_offset(dirs()[5]).1);
    } else if j == 6 {
        assert(dir_offset(dirs()[2]).0 == -dir_offset(dirs()[6]).0 && dir_offset(dirs()[2]).1
            == -dir_offset(dirs()[6]).1);
    } else {
        assert(dir_offset(dirs()[3]).0 == -dir_offset(dirs()[7]).0 && dir_offset(dirs()[3]).1
            == -dir_offset(dirs()[7]).1);
    }
}

/// A roll that becomes accessible by clearing `(r0, c0)` neighbours it.
proof fn lemma_new_accessible(cells: Seq<Seq<u8>>, r0: int, c0: int, x: int, y: int)
    requires
        is_roll(cells, r0, c0),
        accessible(clear_at(cells, r0, c0), x, y),
        !accessible(cells, x, y),
    ensures
        exists|j: int|
            0 <= j < 8 && x == r0 + dir_offset(#[trigger] dirs()[j]).0 && y == c0 + dir_offset(
                dirs()[j],
            ).1,
{
    lemma_roll_after_clear(cells, r0, c0, x, y);
    assert(is_roll(cells, x, y));
    assert(nbr_count(cells, x, y, 8) >= 4);
    assert(nbr_count(clear_at(cells, r0, c0), x, y, 8) < 4);
    // some direction from (x, y) hits the cleared cell
    if forall|j: int|
        0 <= j < 8 ==> !(x + dir_offset(#[trigger] dirs()[j]).0 == r0 && y + dir_offset(
            dirs()[j],
        ).1 == c0) {
        lemma_nbr_same(cells, r0, c0, x, y, 8);
    }
    let j = choose|j: int|
        0 <= j < 8 && x + dir_offset(#[trigger] dirs()[j]).0 == r0 && y + dir_offset(dirs()[j]).1
            == c0;
    lemma_dir_neg(j);
    let j2 = choose|j2: int|
        0 <= j2 < 8 && dir_offset(#[trigger] dirs()[j2]).0 == -dir_offset(dirs()[j]).0
            && dir_offset(dirs()[j2]).1 == -dir_offset(dirs()[j]).1;
    assert(x == r0 + dir_offset(dirs()[j2]).0 && y == c0 + dir_offset(dirs()[j2]).1);
}

/// Rolls in `row[0..c)`.
pub open spec fn row_rolls(row: Seq<u8>, c: int) -> int
    decreases c,
{
    if c <= 0 {
        0
    } else {
        row_rolls(row, c - 1) + (if 0 <= c - 1 < row.len() && row[c - 1] == 1 {
            1int
        } else {
            0int
        })
    }
}

/// Rolls in rows `0..r`.
pub open spec fn rolls_upto(cells: Seq<Seq<u8>>, r: int) -> int
    decreases r,
{
    if r <= 0 {
        0
    } else {
        rolls_upto(cells, r - 1) + row_rolls(cells[r - 1], cells[r - 1].len() as int)
    }
}

proof fn lemma_row_rolls_nonneg(row: Seq<u8>, c: int)
    ensures
        row_rolls(row, c) >= 0,
    decreases c,
{
    if c > 0 {
        lemma_row_rolls_nonneg(row, c - 1);
    }
}

proof fn lemma_rolls_nonneg(cells: Seq<Seq<u8>>, r: int)
    ensures
        rolls_upto(cells, r) >= 0,
    decreases r,
{
    if r > 0 {
        lemma_rolls_nonneg(cells, r - 1);
        lemma_row_rolls_nonneg(cells[r - 1], cells[r - 1].len() as int);
    }
}

proof fn lemma_row_rolls_clear(row: Seq<u8>, c0: int, c: int)
    requires
        0 <= c0 < row.len(),
        row[c0] == 1,
    ensures
        row_rolls(row.update(c0, 0u8), c) == row_rolls(row, c) - (if c0 < c {
            1int
        } else {
            0int
        }),
    decreases c,
{
    if c > 0 {
        lemma_row_rolls_clear(row, c0, c - 1);
    }
}

proof fn lemma_rolls_row_swap(cells: Seq<Seq<u8>>, cells2: Seq<Seq<u8>>, r0: int, r: int)
    requires
        cells2.len() == cells.len(),
        forall|k: int| 0 <= k < cells.len() && k != r0 ==> cells2[k] == cells[k],
        0 <= r0 < cells.len(),
        r <= cells.len(),
    ensures
        r <= r0 ==> rolls_upto(cells2, r) == rolls_upto(cells, r),
        r > r0 ==> rolls_upto(cells2, r) == rolls_upto(cells, r) + row_rolls(
            cells2[r0],
            cells2[r0].len() as int,
        ) - row_rolls(cells[r0], cells[r0].len() as int),
    decreases r,
{
    if r > 0 {
        lemma_rolls_row_swap(cells, cells2, r0, r - 1);
        if r - 1 != r0 {
            assert(cells2[r - 1] == cells[r - 1]);
        }
    }
}

/// Taking a roll away lowers the roll count by one.
proof fn lemma_rolls_clear(cells: Seq<Seq<u8>>, r0: int, c0: int)
    requires
        is_roll(cells, r0, c0),
    ensures
        rolls_upto(clear_at(cells, r0, c0), clear_at(cells, r0, c0).len() as int) == rolls_upto(
            cells,
            cells.len() as int,
        ) - 1,
{
    let cells2 = clear_at(cells, r0, c0);
    lemma_clear_dims(cells, r0, c0);
    lemma_rolls_row_swap(cells, cells2, r0, cells.len() as int);
    lemma_row_rolls_clear(cells[r0], c0, cells[r0].len() as int);
    assert(cells2[r0] == cells[r0].update(c0, 0u8));
}

/// Is `(x, y)` listed in the work queue?
pub open spec fn in_queue(q: Seq<(usize, usize)>, x: int, y: int) -> bool {
    exists|i: int| 0 <= i < q.len() && (#[trigger] q[i]).0 == x && q[i].1 == y
}


/// After one worklist step the queue still lists every accessible roll.
proof fn lemma_queue_covers(
    cur: Seq<Seq<u8>>,
    newcells: Seq<Seq<u8>>,
    r0: int,
    c0: int,
    popq: Seq<(usize, usize)>,
    newq: Seq<(usize, usize)>,
    removed: bool,
)
    requires
        popq.len() > 0,
        popq[0].0 == r0,
        popq[0].1 == c0,
        forall|i: int| 0 <= i < popq.len() - 1 ==> newq[i] == popq.subrange(
            1,
            popq.len() as int,
        )[i],
        newq.len() >= popq.len() - 1,
        forall|x: int, y: int| accessible(cur, x, y) ==> in_queue(popq, x, y),
        removed ==> is_roll(cur, r0, c0) && newcells == clear_at(cur, r0, c0) && forall|j: int|
            0 <= j < 8 && 0 <= r0 + dir_offset(#[trigger] dirs()[j]).0 < cur.len() && 0 <= c0
                + dir_offset(dirs()[j]).1 < cur[r0 + dir_offset(dirs()[j]).0].len() ==> in_queue(
                newq,
                r0 + dir_offset(dirs()[j]).0,
                c0 + dir_offset(dirs()[j]).1,
            ),
        !removed ==> newcells == cur && !accessible(cur, r0, c0),
    ensures
        forall|x: int, y: int| accessible(newcells, x, y) ==> in_queue(newq, x, y),
{
    let rest = popq.subrange(1, popq.len() as int);
    assert forall|x: int, y: int| accessible(newcells, x, y) implies in_queue(newq, x, y) by {
        if removed {
            if accessible(cur, x, y) {
                let i = choose|i: int|
                    0 <= i < popq.len() && (#[trigger] popq[i]).0 == x && popq[i].1 == y;
                if i == 0 {
                    lemma_roll_after_clear(cur, r0, c0, x, y);
                    assert(false);
                } else {
                    assert(newq[i - 1] == rest[i - 1]);
                    assert(rest[i - 1] == popq[i]);
                    assert(in_queue(newq, x, y));
                }
            } else {
                lemma_new_accessible(cur, r0, c0, x, y);
                let j = choose|j: int|
                    0 <= j < 8 && x == r0 + dir_offset(#[trigger] dirs()[j]).0 && y == c0
                        + dir_offset(dirs()[j]).1;
                lemma_roll_after_clear(cur, r0, c0, x, y);
                assert(is_roll(cur, x, y));
                assert(0 <= x < cur.len() && 0 <= y < cur[x].len());
                assert(in_queue(newq, x, y));
            }
        } else {
            let i = choose|i: int|
                0 <= i < popq.len() && (#[trigger] popq[i]).0 == x && popq[i].1 == y;
            if i == 0 {
                assert(false);
            } else {
                assert(newq[i - 1] == rest[i - 1]);
                assert(rest[i - 1] == popq[i]);
                assert(in_queue(newq, x, y));
            }
        }
    }
}

/// How many rolls can be taken away, removing accessible rolls until
/// none is left accessible.  The answer is the length of a removal
/// sequence that ends with no roll accessible; a count beyond 64 bits
/// cannot be reported.
#[verifier::rlimit(100)]
pub fn part2(input: &str) -> (res: Result<u64, Error>)
    ensures
        parse_floor(input@) is None ==> res == Err::<u64, Error>(Error::ParseError),
        parse_floor(input@) is Some ==> (match res {
            Ok(v) => exists|rm: Seq<(int, int)>|
                valid_removals(parse_floor(input@)->Some_0, rm) && no_accessible(
                    cells_after(parse_floor(input@)->Some_0, rm),
                ) && v == rm.len(),
            Err(e) => e == Error::UnsolvableError && exists|rm: Seq<(int, int)>|
                valid_removals(parse_floor(input@)->Some_0, rm) && rm.len() > u64::MAX,
        }),
{
    let chars = scan::chars_of(input);
    let rows_vec = match parse_all(&chars) {
        Some(rows) => rows,
        None => {
            return Err(Error::ParseError);
        },
    };
    let ghost cells0 = row_views(rows_vec@);
    let mut g = grid_from_rows(rows_vec);
    proof {
        assert(grid_cells(g) =~= cells0);
    }
    let nrows = grid_rows(&g);
    let ncols = grid_cols(&g);
    let mut queue: VecDeque<(usize, usize)> = VecDeque::new();
    let mut r: usize = 0;
    while r < nrows
        invariant
            r <= nrows,
            grid_cells(g) == cells0,
            uniform(cells0),
            nrows == cells0.len(),
            cells0.len() > 0,
            ncols == cells0[0].len(),
            forall|i: int|
                0 <= i < queue@.len() ==> (#[trigger] queue@[i]).0 < nrows && queue@[i].1 < ncols,
            forall|x: int, y: int|
                0 <= x < r && is_roll(cells0, x, y) ==> in_queue(queue@, x, y),
        decreases nrows - r,
    {
        let mut c: usize = 0;
        while c < ncols
            invariant
                c <= ncols,
                r < nrows,
                grid_cells(g) == cells0,
                uniform(cells0),
                nrows == cells0.len(),
                cells0.len() > 0,
                ncols == cells0[0].len(),
                forall|i: int|
                    0 <= i < queue@.len() ==> (#[trigger] queue@[i]).0 < nrows && queue@[i].1
                        < ncols,
                forall|x: int, y: int|
                    0 <= x < r && is_roll(cells0, x, y) ==> in_queue(queue@, x, y),
                forall|y: int| 0 <= y < c && is_roll(cells0, r as int, y) ==> in_queue(
                    queue@,
                    r as int,
                    y,
                ),
            decreases ncols - c,
        {
            let ghost oldq = queue@;
            match grid_get(&g, r as i128, c as i128) {
                Some(v) => {
                    if v == 1 {
                        queue.push_back((r, c));
                    }
                },
                None => {},
            }
            proof {
                assert forall|x: int, y: int|
                    in_queue(oldq, x, y) implies in_queue(queue@, x, y) by {
                    let i = choose|i: int|
                        0 <= i < oldq.len() && (#[trigger] oldq[i]).0 == x && oldq[i].1 == y;
                    assert(queue@[i] == oldq[i]);
                }
                if is_roll(cells0, r as int, c as int) {
                    assert(queue@[queue@.len() - 1] == (r, c));
                    assert(in_queue(queue@, r as int, c as int));
                }
            }
            c = c + 1;
        }
        r = r + 1;
    }
    let ghost rm = Seq::<(int, int)>::empty();
    let mut count: u64 = 0;
    proof {
        assert(cells_after(cells0, rm) =~= cells0);
    }
    let ghost mut grm = rm;
    loop
        invariant
            grid_cells(g) == cells_after(cells0, grm),
            valid_removals(cells0, grm),
            count == grm.len(),
            parse_floor(input@) == Some(cells0),
            uniform(cells0),
            cells0.len() > 0,
            nrows == cells0.len(),
            ncols == cells0[0].len(),
            grid_cells(g).len() == nrows,
            forall|k: int| 0 <= k < nrows ==> (#[trigger] grid_cells(g)[k]).len() == ncols,
            forall|i: int|
                0 <= i < queue@.len() ==> (#[trigger] queue@[i]).0 < nrows && queue@[i].1 < ncols,
            forall|x: int, y: int|
                accessible(grid_cells(g), x, y) ==> in_queue(queue@, x, y),
        ensures
            no_accessible(grid_cells(g)),
            grid_cells(g) == cells_after(cells0, grm),
            valid_removals(cells0, grm),
            count == grm.len(),
            parse_floor(input@) == Some(cells0),
        decreases rolls_upto(grid_cells(g), grid_cells(g).len() as int), queue@.len(),
    {
        proof {
            lemma_rolls_nonneg(grid_cells(g), grid_cells(g).len() as int);
        }
        let ghost popq = queue@;
        let (r0, c0) = match queue.pop_front() {
            Some(p) => p,
            None => {
                proof {
                    assert forall|x: int, y: int| !accessible(grid_cells(g), x, y) by {
                        if accessible(grid_cells(g), x, y) {
                            assert(in_queue(queue@, x, y));
                        }
                    }
                }
                break ;
            },
        };
        let ghost cur = grid_cells(g);
        let cell = match grid_get(&g, r0 as i128, c0 as i128) {
            Some(v) => v,
            None => {
                proof {
                    assert(false);
                }
                0
            },
        };
        let mut removed = false;
        if cell == 1 {
            let cnt = count_neighbours(&g, r0, c0);
            if cnt < 4 {
                assert(accessible(cur, r0 as int, c0 as int));
                proof {
                    lemma_extend_valid(cells0, grm, r0 as int, c0 as int);
                    grm = grm.push((r0 as int, c0 as int));
                }
                grid_set(&mut g, r0, c0, 0);
                proof {
                    assert(grid_cells(g) =~= clear_at(cur, r0 as int, c0 as int));
                    lemma_rolls_clear(cur, r0 as int, c0 as int);
                    lemma_clear_dims(cur, r0 as int, c0 as int);
                    lemma_rolls_nonneg(grid_cells(g), grid_cells(g).len() as int);
                }
                if count == u64::MAX {
                    proof {
                        assert(valid_removals(cells0, grm));
                        assert(grm.len() == u64::MAX as int + 1);
                        assert(parse_floor(input@)->Some_0 == cells0);
                        assert(exists|rm: Seq<(int, int)>|
                            valid_removals(parse_floor(input@)->Some_0, rm) && rm.len()
                                > u64::MAX);
                    }
                    return Err(Error::UnsolvableError);
                }
                count = count + 1;
                removed = true;
                // queue the eight neighbours for another look
                let ds = Direction::iter();
                let mut k: usize = 0;
                while k < 8
                    invariant
                        k <= 8,
                        ds@ == dirs(),
                        r0 < nrows,
                        c0 < ncols,
                        nrows == grid_cells(g).len(),
                        forall|j: int|
                            0 <= j < grid_cells(g).len() ==> (#[trigger] grid_cells(g)[j]).len()
                                == ncols,
                        forall|i: int|
                            0 <= i < queue@.len() ==> (#[trigger] queue@[i]).0 < nrows
                                && queue@[i].1 < ncols,
                        queue@.len() >= popq.len() - 1,
                        forall|i: int|
                            0 <= i < popq.len() - 1 ==> queue@[i] == popq.subrange(
                                1,
                                popq.len() as int,
                            )[i],
                        forall|j: int|
                            0 <= j < k && 0 <= r0 + dir_offset(#[trigger] dirs()[j]).0 < nrows && 0
                                <= c0 + dir_offset(dirs()[j]).1 < ncols ==> in_queue(
                                queue@,
                                r0 + dir_offset(dirs()[j]).0,
                                c0 + dir_offset(dirs()[j]).1,
                            ),
                    decreases 8 - k,
                {
                    let ghost oldq = queue@;
                    let (dr, dc) = ds[k].get_offset();
                    let nr = r0 as i128 + dr as i128;
                    let nc = c0 as i128 + dc as i128;
                    if 0 <= nr && nr < nrows as i128 && 0 <= nc && nc < ncols as i128 {
                        queue.push_back((nr as usize, nc as usize));
                        proof {
                            assert(queue@[queue@.len() - 1].0 as int == r0 + dir_offset(
                                dirs()[k as int],
                            ).0);
                            assert(queue@[queue@.len() - 1].1 as int == c0 + dir_offset(
                                dirs()[k as int],
                            ).1);
                            assert(in_queue(
                                queue@,
                                r0 + dir_offset(dirs()[k as int]).0,
                                c0 + dir_offset(dirs()[k as int]).1,
                            ));
                        }
                    }
                    proof {
                        assert forall|x: int, y: int|
                            in_queue(oldq, x, y) implies in_queue(queue@, x, y) by {
                            let i = choose|i: int|
                                0 <= i < oldq.len() && (#[trigger] oldq[i]).0 == x && oldq[i].1
                                    == y;
                            assert(queue@[i] == oldq[i]);
                        }
                    }
                    k = k + 1;
                }
            }
        }
        // the queue still lists every accessible roll
        proof {
            lemma_queue_covers(
                cur,
                grid_cells(g),
                r0 as int,
                c0 as int,
                popq,
                queue@,
                removed,
            );
        }
    }
    proof {
        assert(no_accessible(cells_after(cells0, grm)));
    }
    Ok(count)
}

} // verus!
