//! Beams falling through a field of splitters.
//!
//! The map's first row marks beam sources (`S`); below it, a beam passes
//! empty cells (`.`) straight down, and a splitter (`^`) turns it into
//! two beams, one column to each side.  `part1` counts how often a beam
//! meets a splitter; `part2` counts the beams that arrive at the bottom,
//! beams on the same column merging for `part1` but adding for `part2`.

use vstd::prelude::*;

use crate::scan;
use crate::Error;

verus! {

/// One map row: `.` empty (0), `^` splitter (1), `S` source (2).
pub open spec fn sp_row(s: Seq<char>, i: int, acc: Seq<u8>) -> Option<(Seq<u8>, int)>
    decreases s.len() - i when 0 <= i <= s.len()
{
    if i < s.len() && s[i] == '.' {
        sp_row(s, i + 1, acc.push(0u8))
    } else if i < s.len() && s[i] == '^' {
        sp_row(s, i + 1, acc.push(1u8))
    } else if i < s.len() && s[i] == 'S' {
        sp_row(s, i + 1, acc.push(2u8))
    } else {
        if acc.len() == 0 {
            None
        } else {
            Some((acc, i))
        }
    }
}

/// Map rows, each with an optional line ending, greedy.
pub open spec fn sp_rows(s: Seq<char>, i: int, acc: Seq<Seq<u8>>) -> Option<(Seq<Seq<u8>>, int)>
    decreases s.len() - i when 0 <= i <= s.len()
{
    match sp_row(s, i, Seq::empty()) {
        Some((row, j)) => {
            let acc2 = acc.push(row);
            let j2 = j + scan::line_end_len(s, j);
            if i < j2 && j2 < s.len() && (s[j2] == '.' || s[j2] == '^' || s[j2] == 'S') {
                sp_rows(s, j2, acc2)
            } else {
                Some((acc2, j2))
            }
        },
        None => None,
    }
}

/// All rows hold the same number of cells.
pub open spec fn uniform(cells: Seq<Seq<u8>>) -> bool {
    forall|k: int| 0 <= k < cells.len() ==> (#[trigger] cells[k]).len() == cells[0].len()
}

/// The whole input: a rectangle of cells consuming every character.
pub open spec fn parse_field(s: Seq<char>) -> Option<Seq<Seq<u8>>> {
    match sp_rows(s, 0, Seq::empty()) {
        Some((cells, j)) => if j == s.len() && uniform(cells) {
            Some(cells)
        } else {
            None
        },
        None => None,
    }
}

/// Beam counts leaving the first row: one per source.
pub open spec fn start_beams(row: Seq<u8>) -> Seq<int> {
    Seq::new(
        row.len(),
        |j: int|
            if row[j] == 2 {
                1int
            } else {
                0int
            },
    )
}

/// Beam counts after one row: beams pass empty cells straight down and
/// a splitter sends its beams one column to each side.
pub open spec fn step_beams(row: Seq<u8>, act: Seq<int>) -> Seq<int> {
    Seq::new(
        row.len(),
        |j: int|
            (if row[j] == 0 {
                act[j]
            } else {
                0int
            }) + (if j >= 1 && row[j - 1] == 1 {
                act[j - 1]
            } else {
                0int
            }) + (if j + 1 < row.len() && row[j + 1] == 1 {
                act[j + 1]
            } else {
                0int
            }),
    )
}

/// Beam counts after row `r`.
pub open spec fn beams(cells: Seq<Seq<u8>>, r: int) -> Seq<int>
    decreases r,
{
    if r <= 0 {
        start_beams(cells[0])
    } else {
        step_beams(cells[r], beams(cells, r - 1))
    }
}

/// Below the first row, a row may hold no source, and no splitter on
/// the outermost columns (a split there would leave the field).
pub open spec fn row_ok(row: Seq<u8>) -> bool {
    forall|j: int| 0 <= j < row.len() ==> row[j] != 2 && (row[j] == 1 ==> 1 <= j < row.len() - 1)
}

pub open spec fn rows_ok(cells: Seq<Seq<u8>>) -> bool {
    forall|r: int| 1 <= r < cells.len() ==> row_ok(#[trigger] cells[r])
}

/// Merged beams never meet a source or a rim splitter in row `r`.
pub open spec fn step_ok(cells: Seq<Seq<u8>>, r: int) -> bool {
    forall|j: int|
        0 <= j < cells[r].len() && lit(cells, r - 1, j) ==> cells[r][j] != 2 && (cells[r][j] == 1
            ==> 1 <= j < cells[r].len() - 1)
}

/// No beam ever meets a source or a rim splitter below the first row.
pub open spec fn beams_stay(cells: Seq<Seq<u8>>) -> bool {
    forall|r: int| 1 <= r < cells.len() ==> #[trigger] step_ok(cells, r)
}

/// Sum of the first `k` beam counts.
pub open spec fn sum_beams(act: Seq<int>, k: int) -> int
    decreases k,
{
    if k <= 0 {
        0
    } else {
        sum_beams(act, k - 1) + act[k - 1]
    }
}

/// Every beam count along the way fits in 64 bits.
pub open spec fn beams_fit(cells: Seq<Seq<u8>>, upto: int) -> bool {
    forall|r: int, j: int|
        0 <= r < upto && 0 <= j < beams(cells, r).len() ==> #[trigger] beams(cells, r)[j]
            <= u64::MAX
}

/// Does column `j` carry a beam after row `r`? Beams merge.
pub open spec fn lit(cells: Seq<Seq<u8>>, r: int, j: int) -> bool
    decreases r,
{
    if r <= 0 {
        0 <= j < cells[0].len() && cells[0][j] == 2
    } else {
        let row = cells[r];
        ||| (0 <= j < row.len() && row[j] == 0 && lit(cells, r - 1, j))
        ||| (1 <= j && j - 1 < row.len() && row[j - 1] == 1 && lit(cells, r - 1, j - 1))
        ||| (0 <= j + 1 < row.len() && row[j + 1] == 1 && lit(cells, r - 1, j + 1))
    }
}

/// Splitters hit in row `r` among columns `0..k`.
pub open spec fn splits_in(cells: Seq<Seq<u8>>, r: int, k: int) -> int
    decreases k,
{
    if k <= 0 {
        0
    } else {
        splits_in(cells, r, k - 1) + (if cells[r][k - 1] == 1 && lit(cells, r - 1, k - 1) {
            1int
        } else {
            0int
        })
    }
}

/// Splitters hit in rows `1..r`.
pub open spec fn splits_upto(cells: Seq<Seq<u8>>, r: int) -> int
    decreases r,
{
    if r <= 1 {
        0
    } else {
        splits_upto(cells, r - 1) + splits_in(cells, r - 1, cells[r - 1].len() as int)
    }
}

proof fn lemma_splits_in_bounds(cells: Seq<Seq<u8>>, r: int, k: int)
    ensures
        0 <= splits_in(cells, r, k) <= (if k >= 0 {
            k
        } else {
            0
        }),
    decreases k,
{
    if k > 0 {
        lemma_splits_in_bounds(cells, r, k - 1);
    }
}

fn row_at(v: &Vec<char>, i: usize, acc: Vec<u8>) -> (r: Option<(Vec<u8>, usize)>)
    requires
        i <= v@.len(),
    ensures
        (match r {
            Some(p) => i <= p.1 <= v@.len() && sp_row(v@, i as int, acc@) == Some(
                (p.0@, p.1 as int),
            ),
            None => sp_row(v@, i as int, acc@) is None,
        }),
    decreases v@.len() - i,
{
    if i < v.len() {
        let c = v[i];
        if c == '.' || c == '^' || c == 'S' {
            let code: u8 = if c == '.' {
                0
            } else if c == '^' {
                1
            } else {
                2
            };
            let mut acc2 = acc;
            acc2.push(code);
            return row_at(v, i + 1, acc2);
        }
    }
    if acc.len() == 0 {
        None
    } else {
        Some((acc, i))
    }
}

/// Spec views of parsed rows.
pub open spec fn row_views(rows: Seq<Vec<u8>>) -> Seq<Seq<u8>> {
    rows.map_values(|r: Vec<u8>| r@)
}

fn rows_at(v: &Vec<char>, i: usize, acc: Vec<Vec<u8>>) -> (r: Option<(Vec<Vec<u8>>, usize)>)
    requires
        i <= v@.len(),
    ensures
        (match r {
            Some(p) => {
                &&& p.1 <= v@.len()
                &&& sp_rows(v@, i as int, row_views(acc@)) == Some(
                    (row_views(p.0@), p.1 as int),
                )
                &&& p.0@.len() > acc@.len()
            },
            None => sp_rows(v@, i as int, row_views(acc@)) is None,
        }),
    decreases v@.len() - i,
{
    let vl = v.len();
    match row_at(v, i, Vec::new()) {
        Some((row, j)) => {
            let ghost old_views = row_views(acc@);
            let mut acc2 = acc;
            acc2.push(row);
            proof {
                assert(row_views(acc2@) =~= old_views.push(acc2@[acc2@.len() - 1]@));
            }
            let d = scan::line_end_at(v, j);
            let j2 = j + d;
            if i < j2 && j2 < vl {
                let c = v[j2];
                if c == '.' || c == '^' || c == 'S' {
                    return rows_at(v, j2, acc2);
                }
            }
            Some((acc2, j2))
        },
        None => None,
    }
}

fn parse_all(v: &Vec<char>) -> (r: Option<Vec<Vec<u8>>>)
    ensures
        (match r {
            Some(rows) => {
                &&& parse_field(v@) == Some(row_views(rows@))
                &&& uniform(row_views(rows@))
                &&& row_views(rows@).len() > 0
            },
            None => parse_field(v@) is None,
        }),
{
    proof {
        assert(row_views(Seq::<Vec<u8>>::empty()) =~= Seq::<Seq<u8>>::empty());
    }
    let vl = v.len();
    match rows_at(v, 0, Vec::new()) {
        Some((rows, j)) => {
            if j != vl {
                return None;
            }
            let cols = rows[0].len();
            let mut k: usize = 1;
            while k < rows.len()
                invariant
                    1 <= k <= rows@.len(),
                    rows@.len() > 0,
                    j == v@.len(),
                    sp_rows(v@, 0, Seq::<Seq<u8>>::empty()) == Some(
                        (row_views(rows@), j as int),
                    ),
                    cols == row_views(rows@)[0].len(),
                    forall|x: int|
                        0 <= x < k ==> (#[trigger] row_views(rows@)[x]).len() == cols,
                decreases rows@.len() - k,
            {
                if rows[k].len() != cols {
                    assert(row_views(rows@)[k as int] == rows@[k as int]@);
                    assert(!uniform(row_views(rows@)));
                    return None;
                }
                assert(row_views(rows@)[k as int] == rows@[k as int]@);
                k = k + 1;
            }
            assert(uniform(row_views(rows@)));
            Some(rows)
        },
        None => None,
    }
}

/// Checks one row below the first for sources and rim splitters.
fn check_row(row: &Vec<u8>) -> (r: bool)
    ensures
        r == row_ok(row@),
{
    let w = row.len();
    let mut j: usize = 0;
    while j < w
        invariant
            j <= w,
            w == row@.len(),
            forall|x: int|
                0 <= x < j ==> row@[x] != 2 && (row@[x] == 1 ==> 1 <= x < row@.len() - 1),
        decreases w - j,
    {
        let c = row[j];
        if c == 2 {
            return false;
        }
        if c == 1 && (j == 0 || j + 1 == w) {
            return false;
        }
        j = j + 1;
    }
    true
}

/// How often a beam meets a splitter, beams on one column merging.  A
/// source below the first row, a splitter on the rim, or a count beyond
/// 64 bits cannot be answered.
pub fn part1(input: &str) -> (r: Result<u64, Error>)
    ensures
        (match parse_field(input@) {
            None => r == Err::<u64, Error>(Error::ParseError),
            Some(cells) => {
                if beams_stay(cells) && splits_upto(cells, cells.len() as int) <= u64::MAX {
                    r == Ok::<u64, Error>(splits_upto(cells, cells.len() as int) as u64)
                } else {
                    r == Err::<u64, Error>(Error::UnsolvableError)
                }
            },
        }),
{
    let chars = scan::chars_of(input);
    let rows = match parse_all(&chars) {
        Some(rows) => rows,
        None => {
            return Err(Error::ParseError);
        },
    };
    let ghost cells = row_views(rows@);
    let n = rows.len();
    let w = rows[0].len();
    // active columns after the first row
    let mut act: Vec<bool> = Vec::new();
    let mut j: usize = 0;
    while j < w
        invariant
            j <= w,
            rows@.len() > 0,
            w == cells[0].len(),
            cells == row_views(rows@),
            n == rows@.len(),
            act@.len() == j,
            forall|x: int| 0 <= x < j ==> act@[x] == lit(cells, 0, x),
        decreases w - j,
    {
        assert(rows@[0]@ == cells[0]);
        act.push(rows[0][j] == 2);
        j = j + 1;
    }
    let mut count: u64 = 0;
    let mut r: usize = 1;
    while r < n
        invariant
            1 <= r <= n,
            n == rows@.len(),
            cells == row_views(rows@),
            parse_field(input@) == Some(cells),
            uniform(cells),
            n == cells.len(),
            cells.len() > 0,
            w == cells[0].len(),
            act@.len() == w,
            forall|x: int| 0 <= x < w ==> act@[x] == lit(cells, r as int - 1, x),
            forall|x: int| 1 <= x < r ==> #[trigger] step_ok(cells, x),
            count == splits_upto(cells, r as int),
        decreases n - r,
    {
        let row = &rows[r];
        assert(row@ == cells[r as int]);
        // a beam meeting a source or rim splitter would leave the field
        let mut jc: usize = 0;
        while jc < w
            invariant
                jc <= w,
                1 <= r < n,
                n == cells.len(),
                cells == row_views(rows@),
                parse_field(input@) == Some(cells),
                w == cells[0].len(),
                w == cells[r as int].len(),
                row@ == cells[r as int],
                act@.len() == w,
                forall|x: int| 0 <= x < w ==> act@[x] == lit(cells, r as int - 1, x),
                forall|x: int|
                    0 <= x < jc && lit(cells, r as int - 1, x) ==> cells[r as int][x] != 2 && (
                    cells[r as int][x] == 1 ==> 1 <= x < cells[r as int].len() - 1),
            decreases w - jc,
        {
            if act[jc] {
                let c = row[jc];
                if c == 2 || (c == 1 && (jc == 0 || jc + 1 == w)) {
                    assert(!step_ok(cells, r as int));
                    assert(!beams_stay(cells));
                    return Err(Error::UnsolvableError);
                }
            }
            jc = jc + 1;
        }
        assert(step_ok(cells, r as int));
        // count the splitters this row's beams hit
        let mut hits: u64 = 0;
        let mut j2: usize = 0;
        while j2 < w
            invariant
                j2 <= w,
                1 <= r < n,
                n == cells.len(),
                cells == row_views(rows@),
                w == cells[0].len(),
                w == cells[r as int].len(),
                row@ == cells[r as int],
                act@.len() == w,
                forall|x: int| 0 <= x < w ==> act@[x] == lit(cells, r as int - 1, x),
                hits == splits_in(cells, r as int, j2 as int),
                hits <= j2,
            decreases w - j2,
        {
            if row[j2] == 1 && act[j2] {
                hits = hits + 1;
            }
            j2 = j2 + 1;
        }
        match count.checked_add(hits) {
            Some(c2) => {
                count = c2;
            },
            None => {
                proof {
                    lemma_splits_mono(cells, r as int + 1, cells.len() as int);
                }
                return Err(Error::UnsolvableError);
            },
        }
        // the beams leaving this row
        let mut newact: Vec<bool> = Vec::new();
        let mut j3: usize = 0;
        while j3 < w
            invariant
                j3 <= w,
                1 <= r < n,
                n == cells.len(),
                cells == row_views(rows@),
                w == cells[0].len(),
                w == cells[r as int].len(),
                row@ == cells[r as int],
                act@.len() == w,
                forall|x: int| 0 <= x < w ==> act@[x] == lit(cells, r as int - 1, x),
                newact@.len() == j3,
                forall|x: int| 0 <= x < j3 ==> newact@[x] == lit(cells, r as int, x),
            decreases w - j3,
        {
            let pass = row[j3] == 0 && act[j3];
            let from_left = j3 >= 1 && row[j3 - 1] == 1 && act[j3 - 1];
            let from_right = j3 + 1 < w && row[j3 + 1] == 1 && act[j3 + 1];
            proof {
                let rr = r as int;
                let jj = j3 as int;
                assert(lit(cells, rr, jj) == ((0 <= jj < cells[rr].len() && cells[rr][jj] == 0
                    && lit(cells, rr - 1, jj)) || (1 <= jj && jj - 1 < cells[rr].len()
                    && cells[rr][jj - 1] == 1 && lit(cells, rr - 1, jj - 1)) || (0 <= jj + 1
                    < cells[rr].len() && cells[rr][jj + 1] == 1 && lit(cells, rr - 1, jj + 1))));
                assert((pass || from_left || from_right) == lit(cells, rr, jj));
            }
            newact.push(pass || from_left || from_right);
            j3 = j3 + 1;
        }
        act = newact;
        r = r + 1;
    }
    assert(beams_stay(cells));
    assert(count == splits_upto(cells, cells.len() as int));
    Ok(count)
}

/// More rows only add hits.
proof fn lemma_splits_mono(cells: Seq<Seq<u8>>, r1: int, r2: int)
    requires
        1 <= r1 <= r2,
    ensures
        splits_upto(cells, r1) <= splits_upto(cells, r2),
    decreases r2 - r1,
{
    if r1 < r2 {
        lemma_splits_mono(cells, r1, r2 - 1);
        lemma_splits_in_bounds(cells, r2 - 1, cells[r2 - 1].len() as int);
    }
}

/// How many beams reach past the last row, beams on one column adding
/// up.  A source below the first row, a splitter on the rim, or any
/// count beyond 64 bits cannot be answered.
pub fn part2(input: &str) -> (r: Result<u64, Error>)
    ensures
        (match parse_field(input@) {
            None => r == Err::<u64, Error>(Error::ParseError),
            Some(cells) => {
                if rows_ok(cells) && beams_fit(cells, cells.len() as int) && sum_beams(
                    beams(cells, cells.len() as int - 1),
                    cells[0].len() as int,
                ) <= u64::MAX {
                    r == Ok::<u64, Error>(
                        sum_beams(
                            beams(cells, cells.len() as int - 1),
                            cells[0].len() as int,
                        ) as u64,
                    )
                } else {
                    r == Err::<u64, Error>(Error::UnsolvableError)
                }
            },
        }),
{
    let chars = scan::chars_of(input);
    let rows = match parse_all(&chars) {
        Some(rows) => rows,
        None => {
            return Err(Error::ParseError);
        },
    };
    let ghost cells = row_views(rows@);
    let n = rows.len();
    let w = rows[0].len();
    let mut act: Vec<u64> = Vec::new();
    let mut j: usize = 0;
    while j < w
        invariant
            j <= w,
            rows@.len() > 0,
            w == cells[0].len(),
            cells == row_views(rows@),
            n == rows@.len(),
            act@.len() == j,
            forall|x: int| 0 <= x < j ==> act@[x] as int == beams(cells, 0)[x],
        decreases w - j,
    {
        assert(rows@[0]@ == cells[0]);
        if rows[0][j] == 2 {
            act.push(1);
        } else {
            act.push(0);
        }
        j = j + 1;
    }
    let mut r: usize = 1;
    while r < n
        invariant
            1 <= r <= n,
            n == rows@.len(),
            cells == row_views(rows@),
            parse_field(input@) == Some(cells),
            uniform(cells),
            n == cells.len(),
            cells.len() > 0,
            w == cells[0].len(),
            act@.len() == w,
            forall|x: int| 0 <= x < w ==> act@[x] as int == beams(cells, r as int - 1)[x],
            forall|x: int| 1 <= x < r ==> row_ok(#[trigger] cells[x]),
            beams_fit(cells, r as int),
        decreases n - r,
    {
        let row = &rows[r];
        assert(row@ == cells[r as int]);
        if !check_row(row) {
            assert(!rows_ok(cells));
            return Err(Error::UnsolvableError);
        }
        let mut newact: Vec<u64> = Vec::new();
        let mut j3: usize = 0;
        while j3 < w
            invariant
                j3 <= w,
                1 <= r < n,
                n == cells.len(),
                cells == row_views(rows@),
                parse_field(input@) == Some(cells),
                uniform(cells),
                w == cells[0].len(),
                w == cells[r as int].len(),
                row@ == cells[r as int],
                act@.len() == w,
                forall|x: int| 0 <= x < w ==> act@[x] as int == beams(cells, r as int - 1)[x],
                forall|x: int| 1 <= x < r ==> row_ok(#[trigger] cells[x]),
                beams_fit(cells, r as int),
                newact@.len() == j3,
                forall|x: int| 0 <= x < j3 ==> newact@[x] as int == beams(cells, r as int)[x],
            decreases w - j3,
        {
            let pass: u64 = if row[j3] == 0 {
                act[j3]
            } else {
                0
            };
            let from_left: u64 = if j3 >= 1 && row[j3 - 1] == 1 {
                act[j3 - 1]
            } else {
                0
            };
            let from_right: u64 = if j3 + 1 < w && row[j3 + 1] == 1 {
                act[j3 + 1]
            } else {
                0
            };
            let t: u128 = pass as u128 + from_left as u128 + from_right as u128;
            proof {
                let rr = r as int;
                let jj = j3 as int;
                let prev = beams(cells, rr - 1);
                assert(beams(cells, rr) == step_beams(cells[rr], prev));
                assert(beams(cells, rr)[jj] == (if cells[rr][jj] == 0 {
                    prev[jj]
                } else {
                    0int
                }) + (if jj >= 1 && cells[rr][jj - 1] == 1 {
                    prev[jj - 1]
                } else {
                    0int
                }) + (if jj + 1 < cells[rr].len() && cells[rr][jj + 1] == 1 {
                    prev[jj + 1]
                } else {
                    0int
                }));
            }
            assert(t == beams(cells, r as int)[j3 as int]);
            if t > u64::MAX as u128 {
                assert(!beams_fit(cells, cells.len() as int)) by {
                    assert(beams(cells, r as int)[j3 as int] > u64::MAX);
                }
                return Err(Error::UnsolvableError);
            }
            newact.push(#[verifier::truncate] (t as u64));
            j3 = j3 + 1;
        }
        act = newact;
        proof {
            lemma_beams_len(cells, r as int);
            assert forall|rr: int, j: int|
                0 <= rr < r as int + 1 && 0 <= j < beams(cells, rr).len() implies #[trigger] beams(
                cells,
                rr,
            )[j] <= u64::MAX by {
                if rr == r as int {
                    assert(act@[j] as int == beams(cells, rr)[j]);
                }
            }
            assert(beams_fit(cells, r as int + 1));
        }
        r = r + 1;
    }
    assert(rows_ok(cells));
    // sum the beams that leave the last row
    let mut total: u64 = 0;
    let mut j4: usize = 0;
    while j4 < w
        invariant
            j4 <= w,
            w == cells[0].len(),
            act@.len() == w,
            parse_field(input@) == Some(cells),
            uniform(cells),
            cells.len() > 0,
            n == cells.len(),
            rows_ok(cells),
            beams_fit(cells, cells.len() as int),
            forall|x: int| 0 <= x < w ==> act@[x] as int == beams(cells, n as int - 1)[x],
            total == sum_beams(beams(cells, n as int - 1), j4 as int),
        decreases w - j4,
    {
        match total.checked_add(act[j4]) {
            Some(t2) => {
                total = t2;
            },
            None => {
                proof {
                    lemma_sum_beams_mono(cells, n as int - 1, j4 as int + 1, w as int);
                }
                return Err(Error::UnsolvableError);
            },
        }
        j4 = j4 + 1;
    }
    Ok(total)
}

/// Under a rectangular field, every beam vector spans the columns.
proof fn lemma_beams_len(cells: Seq<Seq<u8>>, r: int)
    requires
        uniform(cells),
        cells.len() > 0,
        0 <= r < cells.len(),
    ensures
        beams(cells, r).len() == cells[0].len(),
    decreases r,
{
    if r > 0 {
        lemma_beams_len(cells, r - 1);
    }
}

/// Beam counts are never negative, so partial sums only grow.
proof fn lemma_beams_nonneg(cells: Seq<Seq<u8>>, r: int, j: int)
    requires
        uniform(cells),
        cells.len() > 0,
        0 <= r < cells.len(),
        0 <= j < cells[0].len(),
    ensures
        beams(cells, r)[j] >= 0,
    decreases r,
{
    if r > 0 {
        lemma_beams_len(cells, r - 1);
        let row = cells[r];
        if row[j] == 0 {
            lemma_beams_nonneg(cells, r - 1, j);
        }
        if j >= 1 && row[j - 1] == 1 {
            lemma_beams_nonneg(cells, r - 1, j - 1);
        }
        if j + 1 < row.len() && row[j + 1] == 1 {
            lemma_beams_nonneg(cells, r - 1, j + 1);
        }
    }
}

proof fn lemma_sum_beams_mono(cells: Seq<Seq<u8>>, r: int, k1: int, k2: int)
    requires
        uniform(cells),
        cells.len() > 0,
        0 <= r < cells.len(),
        0 <= k1 <= k2 <= cells[0].len(),
    ensures
        sum_beams(beams(cells, r), k1) <= sum_beams(beams(cells, r), k2),
    decreases k2 - k1,
{
    if k1 < k2 {
        lemma_sum_beams_mono(cells, r, k1, k2 - 1);
        lemma_beams_nonneg(cells, r, k2 - 1);
        lemma_beams_len(cells, r);
    }
}

} // verus!
