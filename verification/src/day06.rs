//! Maths worksheets read by column.
//!
//! `part1`: rows of space-separated numbers, then a row of operators,
//! one per number column; each column is summed or multiplied and the
//! column results added.  `part2`: the numbers are written with their
//! digits stacked vertically; each operator owns a block of digit
//! columns read right to left, blocks separated by one blank column,
//! and every block's column numbers are folded by its operator.

use vstd::prelude::*;

use crate::scan;
use crate::Error;

verus! {

/// A space or tab, as the worksheet pads its columns.
pub open spec fn is_pad(c: char) -> bool {
    c == ' ' || c == '\t'
}

/// Position just after the run of padding starting at `i`.
pub open spec fn pad_end(s: Seq<char>, i: int) -> int
    decreases s.len() - i when 0 <= i <= s.len()
{
    if i < s.len() && is_pad(s[i]) {
        pad_end(s, i + 1)
    } else {
        i
    }
}

/// One row of numbers: each preceded by padding, the row closed by
/// padding and a required line ending.
pub open spec fn sp_numrow(s: Seq<char>, i: int, acc: Seq<u64>) -> Option<(Seq<u64>, int)>
    decreases s.len() - i when 0 <= i <= s.len()
{
    let i2 = pad_end(s, i);
    if 0 <= i2 <= s.len() {
        match scan::spec_u64_at(s, i2) {
            Some((x, j)) => {
                let acc2 = acc.push(x);
                if i < j && j <= s.len() && pad_end(s, j) < s.len() && scan::is_digit(
                    s[pad_end(s, j)],
                ) {
                    sp_numrow(s, j, acc2)
                } else {
                    let j2 = pad_end(s, j);
                    let d = scan::line_end_len(s, j2);
                    if d == 0 {
                        None
                    } else {
                        Some((acc2, j2 + d))
                    }
                }
            },
            None => None,
        }
    } else {
        None
    }
}

/// Number rows, greedy.
pub open spec fn sp_numrows(s: Seq<char>, i: int, acc: Seq<Seq<u64>>) -> Option<
    (Seq<Seq<u64>>, int),
>
    decreases s.len() - i when 0 <= i <= s.len()
{
    match sp_numrow(s, i, Seq::empty()) {
        Some((row, j)) => {
            let acc2 = acc.push(row);
            if i < j && j <= s.len() && sp_numrow(s, j, Seq::empty()) is Some {
                sp_numrows(s, j, acc2)
            } else {
                Some((acc2, j))
            }
        },
        None => None,
    }
}

/// The operator row of `part1`: `+` or `*` each followed by padding.
pub open spec fn sp_oprow(s: Seq<char>, i: int, acc: Seq<u8>) -> Option<(Seq<u8>, int)>
    decreases s.len() - i when 0 <= i <= s.len()
{
    if i < s.len() && (s[i] == '+' || s[i] == '*') {
        let code: u8 = if s[i] == '+' {
            0u8
        } else {
            1u8
        };
        let j = pad_end(s, i + 1);
        let acc2 = acc.push(code);
        if j < s.len() && (s[j] == '+' || s[j] == '*') && i < j {
            sp_oprow(s, j, acc2)
        } else {
            Some((acc2, j + scan::line_end_len(s, j)))
        }
    } else {
        if acc.len() == 0 {
            None
        } else {
            Some((acc, i))
        }
    }
}

/// The whole `part1` input: number rows, one operator row, nothing else.
pub open spec fn parse_sheet(s: Seq<char>) -> Option<(Seq<Seq<u64>>, Seq<u8>)> {
    match sp_numrows(s, 0, Seq::empty()) {
        Some((rows, j)) => match sp_oprow(s, j, Seq::empty()) {
            Some((ops, j2)) => if j2 == s.len() {
                Some((rows, ops))
            } else {
                None
            },
            None => None,
        },
        None => None,
    }
}

/// All rows hold the same number of entries.
pub open spec fn uniform_u64(rows: Seq<Seq<u64>>) -> bool {
    forall|k: int| 0 <= k < rows.len() ==> (#[trigger] rows[k]).len() == rows[0].len()
}

/// Column `c` folded over the first `r` rows: a sum under `+` (0), a
/// product under `*` (1).
pub open spec fn col_fold(rows: Seq<Seq<u64>>, c: int, op: u8, r: int) -> int
    decreases r,
{
    if r <= 0 {
        if op == 0 {
            0
        } else {
            1
        }
    } else {
        let prev = col_fold(rows, c, op, r - 1);
        if op == 0 {
            prev + rows[r - 1][c]
        } else {
            prev * rows[r - 1][c]
        }
    }
}

/// Column results of the first `k` columns, added.
pub open spec fn sheet_total(rows: Seq<Seq<u64>>, ops: Seq<u8>, k: int) -> int
    decreases k,
{
    if k <= 0 {
        0
    } else {
        sheet_total(rows, ops, k - 1) + col_fold(rows, k - 1, ops[k - 1], rows.len() as int)
    }
}

/// Every intermediate column fold and running total stays within 64
/// bits.
pub open spec fn sheet_fit(rows: Seq<Seq<u64>>, ops: Seq<u8>) -> bool {
    &&& forall|c: int, r: int|
        0 <= c < ops.len() && 0 <= r <= rows.len() ==> 0 <= #[trigger] col_fold(
            rows,
            c,
            ops[c],
            r,
        ) <= u64::MAX
    &&& forall|k: int| 0 <= k <= ops.len() ==> 0 <= #[trigger] sheet_total(rows, ops, k) <= u64::MAX
}

fn pad_at(v: &Vec<char>, i: usize) -> (r: usize)
    requires
        i <= v@.len(),
    ensures
        i <= r <= v@.len(),
        r == pad_end(v@, i as int),
        r < v@.len() ==> !is_pad(v@[r as int]),
    decreases v@.len() - i,
{
    if i < v.len() {
        let c = v[i];
        if c == ' ' || c == '\t' {
            return pad_at(v, i + 1);
        }
    }
    i
}

fn numrow_at(v: &Vec<char>, i: usize, acc: Vec<u64>) -> (r: Option<(Vec<u64>, usize)>)
    requires
        i <= v@.len(),
    ensures
        (match r {
            Some(p) => p.1 <= v@.len() && sp_numrow(v@, i as int, acc@) == Some(
                (p.0@, p.1 as int),
            ),
            None => sp_numrow(v@, i as int, acc@) is None,
        }),
    decreases v@.len() - i,
{
    let vl = v.len();
    let i2 = pad_at(v, i);
    match scan::u64_at(v, i2) {
        Some((x, j)) => {
            let mut acc2 = acc;
            acc2.push(x);
            let j2 = pad_at(v, j);
            if j2 < vl {
                let c = v[j2];
                let dd = #[verifier::truncate] (c as u32);
                if 48 <= dd && dd <= 57 {
                    return numrow_at(v, j, acc2);
                }
            }
            let d = scan::line_end_at(v, j2);
            if d == 0 {
                None
            } else {
                Some((acc2, j2 + d))
            }
        },
        None => None,
    }
}

/// Spec views of parsed rows.
pub open spec fn num_views(rows: Seq<Vec<u64>>) -> Seq<Seq<u64>> {
    rows.map_values(|r: Vec<u64>| r@)
}

fn numrows_at(v: &Vec<char>, i: usize, acc: Vec<Vec<u64>>) -> (r: Option<(Vec<Vec<u64>>, usize)>)
    requires
        i <= v@.len(),
    ensures
        (match r {
            Some(p) => {
                &&& p.1 <= v@.len()
                &&& sp_numrows(v@, i as int, num_views(acc@)) == Some(
                    (num_views(p.0@), p.1 as int),
                )
                &&& p.0@.len() > acc@.len()
            },
            None => sp_numrows(v@, i as int, num_views(acc@)) is None,
        }),
    decreases v@.len() - i,
{
    match numrow_at(v, i, Vec::new()) {
        Some((row, j)) => {
            let ghost old_views = num_views(acc@);
            let mut acc2 = acc;
            acc2.push(row);
            proof {
                assert(num_views(acc2@) =~= old_views.push(acc2@[acc2@.len() - 1]@));
            }
            if i < j {
                match numrow_at(v, j, Vec::new()) {
                    Some(_) => numrows_at(v, j, acc2),
                    None => Some((acc2, j)),
                }
            } else {
                Some((acc2, j))
            }
        },
        None => None,
    }
}

fn oprow_at(v: &Vec<char>, i: usize, acc: Vec<u8>) -> (r: Option<(Vec<u8>, usize)>)
    requires
        i <= v@.len(),
    ensures
        (match r {
            Some(p) => p.1 <= v@.len() && sp_oprow(v@, i as int, acc@) == Some(
                (p.0@, p.1 as int),
            ),
            None => sp_oprow(v@, i as int, acc@) is None,
        }),
    decreases v@.len() - i,
{
    let vl = v.len();
    if i < vl && (v[i] == '+' || v[i] == '*') {
        let code: u8 = if v[i] == '+' {
            0
        } else {
            1
        };
        let j = pad_at(v, i + 1);
        let mut acc2 = acc;
        acc2.push(code);
        if j < vl && (v[j] == '+' || v[j] == '*') {
            oprow_at(v, j, acc2)
        } else {
            let d = scan::line_end_at(v, j);
            Some((acc2, j + d))
        }
    } else {
        if acc.len() == 0 {
            None
        } else {
            Some((acc, i))
        }
    }
}

fn parse_part1(v: &Vec<char>) -> (r: Option<(Vec<Vec<u64>>, Vec<u8>)>)
    ensures
        (match r {
            Some(p) => parse_sheet(v@) == Some((num_views(p.0@), p.1@)) && p.0@.len() > 0,
            None => parse_sheet(v@) is None,
        }),
{
    proof {
        assert(num_views(Seq::<Vec<u64>>::empty()) =~= Seq::<Seq<u64>>::empty());
    }
    let vl = v.len();
    match numrows_at(v, 0, Vec::new()) {
        Some((rows, j)) => {
            match oprow_at(v, j, Vec::new()) {
                Some((ops, j2)) => {
                    if j2 == vl {
                        Some((rows, ops))
                    } else {
                        None
                    }
                },
                None => None,
            }
        },
        None => None,
    }
}

/// Each number column summed or multiplied per its operator, the column
/// results added.  The operator row must name every column, the rows
/// must agree in width, and every fold must stay within 64 bits.
pub fn part1(input: &str) -> (r: Result<u64, Error>)
    ensures
        (match parse_sheet(input@) {
            None => r == Err::<u64, Error>(Error::ParseError),
            Some(p) => {
                if uniform_u64(p.0) && p.1.len() == p.0[0].len() && sheet_fit(p.0, p.1) {
                    r == Ok::<u64, Error>(sheet_total(p.0, p.1, p.1.len() as int) as u64)
                } else {
                    r == Err::<u64, Error>(Error::UnsolvableError)
                }
            },
        }),
{
    let chars = scan::chars_of(input);
    let (rows, ops) = match parse_part1(&chars) {
        Some(p) => p,
        None => {
            return Err(Error::ParseError);
        },
    };
    let ghost rs = num_views(rows@);
    let nrows = rows.len();
    let cols = rows[0].len();
    // the sheet must be a rectangle with one operator per column
    let mut k: usize = 0;
    while k < nrows
        invariant
            k <= nrows,
            nrows == rows@.len(),
            nrows > 0,
            rs == num_views(rows@),
            parse_sheet(input@) == Some((rs, ops@)),
            cols == rs[0].len(),
            forall|x: int| 0 <= x < k ==> (#[trigger] rs[x]).len() == cols,
        decreases nrows - k,
    {
        if rows[k].len() != cols {
            assert(rs[k as int] == rows@[k as int]@);
            assert(!uniform_u64(rs));
            return Err(Error::UnsolvableError);
        }
        assert(rs[k as int] == rows@[k as int]@);
        k = k + 1;
    }
    assert(uniform_u64(rs));
    if ops.len() != cols {
        return Err(Error::UnsolvableError);
    }
    let mut total: u64 = 0;
    let mut c: usize = 0;
    while c < cols
        invariant
            c <= cols,
            nrows == rows@.len(),
            rs == num_views(rows@),
            parse_sheet(input@) == Some((rs, ops@)),
            uniform_u64(rs),
            nrows > 0,
            cols == rs[0].len(),
            ops@.len() == cols,
            forall|x: int, rr: int|
                0 <= x < c && 0 <= rr <= nrows ==> 0 <= #[trigger] col_fold(rs, x, ops@[x], rr)
                    <= u64::MAX,
            forall|x: int| 0 <= x <= c ==> 0 <= #[trigger] sheet_total(rs, ops@, x) <= u64::MAX,
            total == sheet_total(rs, ops@, c as int),
        decreases cols - c,
    {
        let op = ops[c];
        let mut acc: u64 = if op == 0 {
            0
        } else {
            1
        };
        let mut rr: usize = 0;
        while rr < nrows
            invariant
                rr <= nrows,
                c < cols,
                nrows == rows@.len(),
                rs == num_views(rows@),
                parse_sheet(input@) == Some((rs, ops@)),
                uniform_u64(rs),
                cols == rs[0].len(),
                ops@.len() == cols,
                op == ops@[c as int],
                forall|x: int, r2: int|
                    0 <= x < c && 0 <= r2 <= nrows ==> 0 <= #[trigger] col_fold(
                        rs,
                        x,
                        ops@[x],
                        r2,
                    ) <= u64::MAX,
                forall|x: int| 0 <= x <= c ==> 0 <= #[trigger] sheet_total(rs, ops@, x)
                    <= u64::MAX,
                forall|r2: int|
                    0 <= r2 <= rr ==> 0 <= #[trigger] col_fold(rs, c as int, op, r2) <= u64::MAX,
                acc == col_fold(rs, c as int, op, rr as int),
            decreases nrows - rr,
        {
            assert(rs[rr as int] == rows@[rr as int]@);
            let x = rows[rr][c];
            let step = if op == 0 {
                acc.checked_add(x)
            } else {
                acc.checked_mul(x)
            };
            match step {
                Some(a2) => {
                    acc = a2;
                },
                None => {
                    assert(!sheet_fit(rs, ops@)) by {
                        assert(col_fold(rs, c as int, op, rr as int + 1) > u64::MAX || col_fold(
                            rs,
                            c as int,
                            op,
                            rr as int + 1,
                        ) < 0);
                    }
                    return Err(Error::UnsolvableError);
                },
            }
            rr = rr + 1;
        }
        match total.checked_add(acc) {
            Some(t2) => {
                total = t2;
            },
            None => {
                assert(!sheet_fit(rs, ops@)) by {
                    assert(sheet_total(rs, ops@, c as int + 1) > u64::MAX);
                }
                return Err(Error::UnsolvableError);
            },
        }
        c = c + 1;
    }
    assert(sheet_fit(rs, ops@));
    Ok(total)
}

/// One digit-picture row: spaces (10) and digits, closed by a required
/// line ending.
pub open spec fn sp_digitrow(s: Seq<char>, i: int, acc: Seq<u8>) -> Option<(Seq<u8>, int)>
    decreases s.len() - i when 0 <= i <= s.len()
{
    if i < s.len() && is_pad(s[i]) {
        sp_digitrow(s, i + 1, acc.push(10u8))
    } else if i < s.len() && scan::is_digit(s[i]) {
        sp_digitrow(s, i + 1, acc.push(scan::digit_val(s[i]) as u8))
    } else {
        if acc.len() == 0 {
            None
        } else {
            let d = scan::line_end_len(s, i);
            if d == 0 {
                None
            } else {
                Some((acc, i + d))
            }
        }
    }
}

/// Digit-picture rows, greedy.
pub open spec fn sp_digitrows(s: Seq<char>, i: int, acc: Seq<Seq<u8>>) -> Option<
    (Seq<Seq<u8>>, int),
>
    decreases s.len() - i when 0 <= i <= s.len()
{
    match sp_digitrow(s, i, Seq::empty()) {
        Some((row, j)) => {
            let acc2 = acc.push(row);
            if i < j && j <= s.len() && sp_digitrow(s, j, Seq::empty()) is Some {
                sp_digitrows(s, j, acc2)
            } else {
                Some((acc2, j))
            }
        },
        None => None,
    }
}

/// Position just after the run of plain spaces starting at `i`.
pub open spec fn space_end(s: Seq<char>, i: int) -> int
    decreases s.len() - i when 0 <= i <= s.len()
{
    if i < s.len() && s[i] == ' ' {
        space_end(s, i + 1)
    } else {
        i
    }
}

/// The operator line of `part2`: `+` or `*`, each followed by at least
/// one space whose count is the operator's operand width.
pub open spec fn sp_sizedops(s: Seq<char>, i: int, acc: Seq<(u8, int)>) -> Option<
    (Seq<(u8, int)>, int),
>
    decreases s.len() - i when 0 <= i <= s.len()
{
    if i < s.len() && (s[i] == '+' || s[i] == '*') {
        let code: u8 = if s[i] == '+' {
            0u8
        } else {
            1u8
        };
        let j = space_end(s, i + 1);
        if j == i + 1 || !(i + 1 <= j <= s.len()) {
            if acc.len() == 0 {
                None
            } else {
                Some((acc, i))
            }
        } else {
            let acc2 = acc.push((code, j - i - 1));
            if j < s.len() && (s[j] == '+' || s[j] == '*') && space_end(s, j + 1) > j + 1 {
                sp_sizedops(s, j, acc2)
            } else {
                Some((acc2, j + scan::line_end_len(s, j)))
            }
        }
    } else {
        if acc.len() == 0 {
            None
        } else {
            Some((acc, i))
        }
    }
}

/// The whole `part2` input: digit rows, one sized-operator line,
/// nothing else.
pub open spec fn parse_picture(s: Seq<char>) -> Option<(Seq<Seq<u8>>, Seq<(u8, int)>)> {
    match sp_digitrows(s, 0, Seq::empty()) {
        Some((rows, j)) => match sp_sizedops(s, j, Seq::empty()) {
            Some((ops, j2)) => if j2 == s.len() {
                Some((rows, ops))
            } else {
                None
            },
            None => None,
        },
        None => None,
    }
}

/// All rows hold the same number of cells.
pub open spec fn uniform_u8(rows: Seq<Seq<u8>>) -> bool {
    forall|k: int| 0 <= k < rows.len() ==> (#[trigger] rows[k]).len() == rows[0].len()
}

/// First row at or below `r` whose cell in column `c` is not a space.
pub open spec fn cstart(cells: Seq<Seq<u8>>, c: int, r: int) -> int
    decreases cells.len() - r when 0 <= r <= cells.len()
{
    if r < cells.len() && cells[r][c] == 10 {
        cstart(cells, c, r + 1)
    } else {
        r
    }
}

/// First row at or below `r` whose cell in column `c` is not a digit.
pub open spec fn cend(cells: Seq<Seq<u8>>, c: int, r: int) -> int
    decreases cells.len() - r when 0 <= r <= cells.len()
{
    if r < cells.len() && cells[r][c] <= 9 {
        cend(cells, c, r + 1)
    } else {
        r
    }
}

/// The number written down column `c`: digits `[a, b)`, top first.
pub open spec fn cval(cells: Seq<Seq<u8>>, c: int, a: int, b: int) -> int
    decreases b - a when a <= b
{
    if a >= b {
        0
    } else {
        cval(cells, c, a, b - 1) * 10 + cells[b - 1][c]
    }
}

/// Column `c` reads as one number: some digits, padded above and below,
/// and the number fits in 64 bits.
pub open spec fn col_ok(cells: Seq<Seq<u8>>, c: int) -> bool {
    let a = cstart(cells, c, 0);
    let b = cend(cells, c, a);
    &&& a < cells.len()
    &&& cstart(cells, c, b) == cells.len()
    &&& 0 <= cval(cells, c, a, b) <= u64::MAX
}

/// The number column `c` holds.
pub open spec fn col_num(cells: Seq<Seq<u8>>, c: int) -> int {
    cval(cells, c, cstart(cells, c, 0), cend(cells, c, cstart(cells, c, 0)))
}

/// Width of the `t`-th block processed from the right: its operator's
/// operand width, plus one for the rightmost block.
pub open spec fn block_width(ops: Seq<(u8, int)>, t: int) -> int {
    ops[ops.len() - 1 - t].1 + (if t == 0 {
        1int
    } else {
        0int
    })
}

/// Stream offset (from the right edge) where block `t` starts; blocks
/// are separated by one skipped column.
pub open spec fn block_off(ops: Seq<(u8, int)>, t: int) -> int
    decreases t,
{
    if t <= 0 {
        0
    } else {
        block_off(ops, t - 1) + block_width(ops, t - 1) + 1
    }
}

/// The blocks and their separators tile the picture exactly.
pub open spec fn layout_ok(cells: Seq<Seq<u8>>, ops: Seq<(u8, int)>) -> bool {
    &&& forall|t: int| 0 <= t < ops.len() ==> (#[trigger] ops[t]).1 >= 1
    &&& block_off(ops, ops.len() - 1) + block_width(ops, ops.len() - 1) == cells[0].len()
}

/// Block `t`'s first `k` column numbers folded by its operator.
pub open spec fn block_fold(cells: Seq<Seq<u8>>, ops: Seq<(u8, int)>, t: int, k: int) -> int
    decreases k,
{
    let op = ops[ops.len() - 1 - t].0;
    if k <= 0 {
        if op == 0 {
            0
        } else {
            1
        }
    } else {
        let prev = block_fold(cells, ops, t, k - 1);
        let col = cells[0].len() - 1 - (block_off(ops, t) + k - 1);
        if op == 0 {
            prev + col_num(cells, col)
        } else {
            prev * col_num(cells, col)
        }
    }
}

/// The first `t` block results, added.
pub open spec fn picture_total(cells: Seq<Seq<u8>>, ops: Seq<(u8, int)>, t: int) -> int
    decreases t,
{
    if t <= 0 {
        0
    } else {
        picture_total(cells, ops, t - 1) + block_fold(cells, ops, t - 1, block_width(ops, t - 1))
    }
}

/// Every used column reads as a number and every fold stays in 64 bits.
pub open spec fn picture_fit(cells: Seq<Seq<u8>>, ops: Seq<(u8, int)>) -> bool {
    &&& forall|t: int, k: int|
        #![trigger block_off(ops, t) + k]
        0 <= t < ops.len() && 0 <= k < block_width(ops, t) ==> col_ok(
            cells,
            cells[0].len() - 1 - (block_off(ops, t) + k),
        )
    &&& forall|t: int, k: int|
        0 <= t < ops.len() && 0 <= k <= block_width(ops, t) ==> 0 <= #[trigger] block_fold(
            cells,
            ops,
            t,
            k,
        ) <= u64::MAX
    &&& forall|t: int|
        0 <= t <= ops.len() ==> 0 <= #[trigger] picture_total(cells, ops, t) <= u64::MAX
}

/// Block offsets stay within the picture when the layout tiles it.
proof fn lemma_off_in_range(cells: Seq<Seq<u8>>, ops: Seq<(u8, int)>, t: int)
    requires
        layout_ok(cells, ops),
        0 <= t < ops.len(),
    ensures
        block_off(ops, t) >= 0,
        block_off(ops, t) + block_width(ops, t) <= cells[0].len(),
    decreases ops.len() - t,
{
    if t == ops.len() - 1 {
        lemma_off_nonneg(ops, t);
    } else {
        lemma_off_in_range(cells, ops, t + 1);
        lemma_off_nonneg(ops, t);
    }
}

proof fn lemma_off_nonneg(ops: Seq<(u8, int)>, t: int)
    requires
        forall|x: int| 0 <= x < ops.len() ==> (#[trigger] ops[x]).1 >= 1,
        0 <= t < ops.len(),
    ensures
        block_off(ops, t) >= 0,
        block_width(ops, t) >= 1,
    decreases t,
{
    if t > 0 {
        lemma_off_nonneg(ops, t - 1);
    }
}

proof fn lemma_cstart_props(cells: Seq<Seq<u8>>, c: int, r: int)
    requires
        0 <= r <= cells.len(),
    ensures
        r <= cstart(cells, c, r) <= cells.len(),
        forall|x: int| r <= x < cstart(cells, c, r) ==> cells[x][c] == 10,
        cstart(cells, c, r) < cells.len() ==> cells[cstart(cells, c, r)][c] != 10,
    decreases cells.len() - r,
{
    if r < cells.len() && cells[r][c] == 10 {
        lemma_cstart_props(cells, c, r + 1);
    }
}

proof fn lemma_cstart_is(cells: Seq<Seq<u8>>, c: int, r: int, p: int)
    requires
        0 <= r <= p <= cells.len(),
        forall|x: int| r <= x < p ==> cells[x][c] == 10,
        p < cells.len() ==> cells[p][c] != 10,
    ensures
        cstart(cells, c, r) == p,
    decreases p - r,
{
    if r < p {
        assert(cells[r][c] == 10);
        lemma_cstart_is(cells, c, r + 1, p);
    }
}

proof fn lemma_cend_is(cells: Seq<Seq<u8>>, c: int, r: int, p: int)
    requires
        0 <= r <= p <= cells.len(),
        forall|x: int| r <= x < p ==> cells[x][c] <= 9,
        p < cells.len() ==> cells[p][c] > 9,
    ensures
        cend(cells, c, r) == p,
    decreases p - r,
{
    if r < p {
        assert(cells[r][c] <= 9);
        lemma_cend_is(cells, c, r + 1, p);
    }
}

/// Spec views of parsed digit rows.
pub open spec fn num8_views(rows: Seq<Vec<u8>>) -> Seq<Seq<u8>> {
    rows.map_values(|r: Vec<u8>| r@)
}

/// A longer digit run never names a smaller number.
proof fn lemma_cval_mono(cells: Seq<Seq<u8>>, c: int, a: int, b1: int, b2: int)
    requires
        a <= b1 <= b2,
        forall|x: int| a <= x < b2 ==> 0 <= cells[x][c],
    ensures
        0 <= cval(cells, c, a, b1) <= cval(cells, c, a, b2),
    decreases b2 - b1 + b1 - a,
{
    if a < b1 {
        lemma_cval_mono(cells, c, a, a, b1 - 1);
    }
    if b1 < b2 {
        lemma_cval_mono(cells, c, a, b1, b2 - 1);
    }
}

/// One cell of the digit picture.
fn cell_at(rows: &Vec<Vec<u8>>, r: usize, c: usize, gc: Ghost<Seq<Seq<u8>>>) -> (x: u8)
    requires
        gc@ == num8_views(rows@),
        r < rows@.len(),
        rows@.len() > 0,
        uniform_u8(gc@),
        c < gc@[0].len(),
    ensures
        x == gc@[r as int][c as int],
{
    proof {
        assert(gc@[r as int] == rows@[r as int]@);
    }
    rows[r][c]
}

/// Reads the number written down column `c`, or nothing when the column
/// is not one padded digit run whose number fits in 64 bits.
fn col_value(rows: &Vec<Vec<u8>>, c: usize, ghost_cells: Ghost<Seq<Seq<u8>>>) -> (r: Option<u64>)
    requires
        ghost_cells@ == num8_views(rows@),
        rows@.len() > 0,
        uniform_u8(ghost_cells@),
        c < ghost_cells@[0].len(),
    ensures
        (match r {
            Some(v) => col_ok(ghost_cells@, c as int) && v == col_num(ghost_cells@, c as int),
            None => !col_ok(ghost_cells@, c as int),
        }),
{
    let ghost cells = ghost_cells@;
    let h = rows.len();
    // padding above the number
    let mut r0: usize = 0;
    while r0 < h && cell_at(rows, r0, c, Ghost(cells)) == 10
        invariant
            r0 <= h,
            h == rows@.len(),
            cells == num8_views(rows@),
            uniform_u8(cells),
            c < cells[0].len(),
            forall|x: int| 0 <= x < r0 ==> cells[x][c as int] == 10,
        decreases h - r0,
    {
        assert(cells[r0 as int] == rows@[r0 as int]@);
        r0 = r0 + 1;
    }
    proof {
        if r0 < h {
            assert(cells[r0 as int] == rows@[r0 as int]@);
        }
        lemma_cstart_is(cells, c as int, 0, r0 as int);
    }
    if r0 == h {
        // a column of spaces holds no number
        assert(!col_ok(cells, c as int));
        return None;
    }
    let ghost a = r0 as int;
    // the digit run
    let mut r1: usize = r0;
    while r1 < h && cell_at(rows, r1, c, Ghost(cells)) <= 9
        invariant
            r0 <= r1 <= h,
            h == rows@.len(),
            cells == num8_views(rows@),
            uniform_u8(cells),
            c < cells[0].len(),
            forall|x: int| r0 <= x < r1 ==> cells[x][c as int] <= 9,
        decreases h - r1,
    {
        assert(cells[r1 as int] == rows@[r1 as int]@);
        r1 = r1 + 1;
    }
    proof {
        if r1 < h {
            assert(cells[r1 as int] == rows@[r1 as int]@);
        }
        lemma_cend_is(cells, c as int, r0 as int, r1 as int);
    }
    let ghost b = r1 as int;
    // only padding may follow
    let mut r2: usize = r1;
    while r2 < h && cell_at(rows, r2, c, Ghost(cells)) == 10
        invariant
            r1 <= r2 <= h,
            h == rows@.len(),
            cells == num8_views(rows@),
            uniform_u8(cells),
            c < cells[0].len(),
            forall|x: int| r1 <= x < r2 ==> cells[x][c as int] == 10,
        decreases h - r2,
    {
        assert(cells[r2 as int] == rows@[r2 as int]@);
        r2 = r2 + 1;
    }
    proof {
        if r2 < h {
            assert(cells[r2 as int] == rows@[r2 as int]@);
        }
        lemma_cstart_is(cells, c as int, r1 as int, r2 as int);
    }
    if r2 < h {
        // the column mixes digits and spaces
        assert(!col_ok(cells, c as int));
        return None;
    }
    // the number itself
    let mut v: u64 = 0;
    let mut rr: usize = r0;
    while rr < r1
        invariant
            r0 <= rr <= r1 <= h,
            h == rows@.len(),
            cells == num8_views(rows@),
            ghost_cells@ == cells,
            uniform_u8(cells),
            c < cells[0].len(),
            a == r0,
            b == r1,
            cstart(cells, c as int, 0) == a,
            cend(cells, c as int, a) == b,
            cstart(cells, c as int, b) == h,
            forall|x: int| r0 <= x < r1 ==> cells[x][c as int] <= 9,
            v == cval(cells, c as int, a, rr as int),
        decreases r1 - rr,
    {
        let d = cell_at(rows, rr, c, Ghost(cells));
        let big: u128 = v as u128 * 10 + d as u128;
        if big > u64::MAX as u128 {
            proof {
                assert(cval(cells, c as int, a, rr as int + 1) == v * 10 + d);
                assert forall|x: int| a <= x < b implies 0 <= cells[x][c as int] by {}
                lemma_cval_mono(cells, c as int, a, rr as int + 1, b);
                assert(cval(cells, c as int, a, b) > u64::MAX);
                assert(!col_ok(cells, c as int));
                assert(!col_ok(ghost_cells@, c as int));
            }
            return None;
        }
        v = #[verifier::truncate] (big as u64);
        rr = rr + 1;
    }
    assert(col_ok(cells, c as int));
    assert(v == col_num(cells, c as int));
    Some(v)
}

fn digitrow_at(v: &Vec<char>, i: usize, acc: Vec<u8>) -> (r: Option<(Vec<u8>, usize)>)
    requires
        i <= v@.len(),
    ensures
        (match r {
            Some(p) => p.1 <= v@.len() && sp_digitrow(v@, i as int, acc@) == Some(
                (p.0@, p.1 as int),
            ),
            None => sp_digitrow(v@, i as int, acc@) is None,
        }),
    decreases v@.len() - i,
{
    if i < v.len() {
        let c = v[i];
        if c == ' ' || c == '\t' {
            let mut acc2 = acc;
            acc2.push(10);
            return digitrow_at(v, i + 1, acc2);
        }
        let dd = #[verifier::truncate] (c as u32);
        if 48 <= dd && dd <= 57 {
            let mut acc2 = acc;
            acc2.push((dd - 48) as u8);
            return digitrow_at(v, i + 1, acc2);
        }
    }
    if acc.len() == 0 {
        None
    } else {
        let d = scan::line_end_at(v, i);
        if d == 0 {
            None
        } else {
            Some((acc, i + d))
        }
    }
}

fn digitrows_at(v: &Vec<char>, i: usize, acc: Vec<Vec<u8>>) -> (r: Option<(Vec<Vec<u8>>, usize)>)
    requires
        i <= v@.len(),
    ensures
        (match r {
            Some(p) => {
                &&& p.1 <= v@.len()
                &&& sp_digitrows(v@, i as int, num8_views(acc@)) == Some(
                    (num8_views(p.0@), p.1 as int),
                )
                &&& p.0@.len() > acc@.len()
            },
            None => sp_digitrows(v@, i as int, num8_views(acc@)) is None,
        }),
    decreases v@.len() - i,
{
    match digitrow_at(v, i, Vec::new()) {
        Some((row, j)) => {
            let ghost old_views = num8_views(acc@);
            let mut acc2 = acc;
            acc2.push(row);
            proof {
                assert(num8_views(acc2@) =~= old_views.push(acc2@[acc2@.len() - 1]@));
            }
            if i < j {
                match digitrow_at(v, j, Vec::new()) {
                    Some(_) => digitrows_at(v, j, acc2),
                    None => Some((acc2, j)),
                }
            } else {
                Some((acc2, j))
            }
        },
        None => None,
    }
}

fn spaces_at(v: &Vec<char>, i: usize) -> (r: usize)
    requires
        i <= v@.len(),
    ensures
        i <= r <= v@.len(),
        r == space_end(v@, i as int),
    decreases v@.len() - i,
{
    if i < v.len() && v[i] == ' ' {
        spaces_at(v, i + 1)
    } else {
        i
    }
}

fn sizedops_at(v: &Vec<char>, i: usize, acc: Vec<(u8, usize)>) -> (r: Option<
    (Vec<(u8, usize)>, usize),
>)
    requires
        i <= v@.len(),
    ensures
        (match r {
            Some(p) => p.1 <= v@.len() && sp_sizedops(v@, i as int, op_views(acc@)) == Some(
                (op_views(p.0@), p.1 as int),
            ) && p.0@.len() >= 1 && p.0@.len() >= acc@.len(),
            None => sp_sizedops(v@, i as int, op_views(acc@)) is None,
        }),
    decreases v@.len() - i,
{
    let vl = v.len();
    if i < vl && (v[i] == '+' || v[i] == '*') {
        let code: u8 = if v[i] == '+' {
            0
        } else {
            1
        };
        let j = spaces_at(v, i + 1);
        if j == i + 1 {
            if acc.len() == 0 {
                None
            } else {
                Some((acc, i))
            }
        } else {
            let ghost old_views = op_views(acc@);
            let mut acc2 = acc;
            acc2.push((code, j - i - 1));
            proof {
                assert(op_views(acc2@) =~= old_views.push((code, j - i - 1 as int)));
            }
            if j < vl && (v[j] == '+' || v[j] == '*') {
                let j2 = spaces_at(v, j + 1);
                if j2 > j + 1 {
                    return sizedops_at(v, j, acc2);
                }
            }
            let d = scan::line_end_at(v, j);
            Some((acc2, j + d))
        }
    } else {
        if acc.len() == 0 {
            None
        } else {
            Some((acc, i))
        }
    }
}

/// Spec views of parsed sized operators.
pub open spec fn op_views(ops: Seq<(u8, usize)>) -> Seq<(u8, int)> {
    ops.map_values(|p: (u8, usize)| (p.0, p.1 as int))
}

fn parse_part2(v: &Vec<char>) -> (r: Option<(Vec<Vec<u8>>, Vec<(u8, usize)>)>)
    ensures
        (match r {
            Some(p) => {
                &&& parse_picture(v@) == Some((num8_views(p.0@), op_views(p.1@)))
                &&& p.0@.len() > 0
                &&& p.1@.len() > 0
            },
            None => parse_picture(v@) is None,
        }),
{
    proof {
        assert(num8_views(Seq::<Vec<u8>>::empty()) =~= Seq::<Seq<u8>>::empty());
        assert(op_views(Seq::<(u8, usize)>::empty()) =~= Seq::<(u8, int)>::empty());
    }
    let vl = v.len();
    match digitrows_at(v, 0, Vec::new()) {
        Some((rows, j)) => {
            match sizedops_at(v, j, Vec::new()) {
                Some((ops, j2)) => {
                    if j2 == vl {
                        Some((rows, ops))
                    } else {
                        None
                    }
                },
                None => None,
            }
        },
        None => None,
    }
}

/// Each operator's block of digit columns, taken right to left and
/// folded; the block results added.  The blocks and their one-column
/// separators must tile the picture, every used column must read as one
/// number, and every fold must stay within 64 bits.
pub fn part2(input: &str) -> (r: Result<u64, Error>)
    ensures
        (match parse_picture(input@) {
            None => r == Err::<u64, Error>(Error::ParseError),
            Some(p) => {
                if uniform_u8(p.0) && layout_ok(p.0, p.1) && picture_fit(p.0, p.1) {
                    r == Ok::<u64, Error>(picture_total(p.0, p.1, p.1.len() as int) as u64)
                } else {
                    r == Err::<u64, Error>(Error::UnsolvableError)
                }
            },
        }),
{
    let chars = scan::chars_of(input);
    let (rows, ops) = match parse_part2(&chars) {
        Some(p) => p,
        None => {
            return Err(Error::ParseError);
        },
    };
    let ghost cells = num8_views(rows@);
    let ghost opsv = op_views(ops@);
    let nrows = rows.len();
    let w = rows[0].len();
    // the picture must be a rectangle
    let mut k: usize = 0;
    while k < nrows
        invariant
            k <= nrows,
            nrows == rows@.len(),
            nrows > 0,
            cells == num8_views(rows@),
            parse_picture(input@) == Some((cells, opsv)),
            opsv == op_views(ops@),
            w == cells[0].len(),
            forall|x: int| 0 <= x < k ==> (#[trigger] cells[x]).len() == w,
        decreases nrows - k,
    {
        if rows[k].len() != w {
            assert(cells[k as int] == rows@[k as int]@);
            assert(!uniform_u8(cells));
            return Err(Error::UnsolvableError);
        }
        assert(cells[k as int] == rows@[k as int]@);
        k = k + 1;
    }
    assert(uniform_u8(cells));
    let m = ops.len();
    assert(m == opsv.len());
    // every operator must own at least one digit column
    let mut t1: usize = 0;
    while t1 < m
        invariant
            t1 <= m,
            m == ops@.len(),
            opsv == op_views(ops@),
            parse_picture(input@) == Some((cells, opsv)),
            cells == num8_views(rows@),
            uniform_u8(cells),
            cells.len() > 0,
            w == cells[0].len(),
            forall|x: int| 0 <= x < t1 ==> (#[trigger] opsv[x]).1 >= 1,
        decreases m - t1,
    {
        proof {
            assert(opsv[t1 as int] == (ops@[t1 as int].0, ops@[t1 as int].1 as int));
        }
        if ops[t1].1 < 1 {
            assert(!layout_ok(cells, opsv));
            return Err(Error::UnsolvableError);
        }
        t1 = t1 + 1;
    }
    // the blocks and separators must tile the width exactly
    let ghost big: int = u64::MAX as int + 1;
    let mut need: u128 = 0;
    let mut t0: usize = 0;
    while t0 < m
        invariant
            t0 <= m,
            m == ops@.len(),
            opsv == op_views(ops@),
            parse_picture(input@) == Some((cells, opsv)),
            need == block_off(opsv, t0 as int),
            need <= t0 * (big + 1),
            big == u64::MAX as int + 1,
            forall|x: int| 0 <= x < opsv.len() ==> (#[trigger] opsv[x]).1 >= 1,
        decreases m - t0,
    {
        proof {
            assert(opsv[m - 1 - t0 as int] == (ops@[m - 1 - t0 as int].0, ops@[m - 1 - t0
                as int].1 as int));
            assert((t0 + 1) * (big + 1) == t0 * (big + 1) + (big + 1)) by (nonlinear_arith);
            assert((t0 as int + 1) * (big + 1) <= (u64::MAX as int) * (big + 1))
                by (nonlinear_arith)
                requires 0 <= t0 as int + 1 <= u64::MAX as int, big >= 0,
            ;
            assert((u64::MAX as int) * (big + 1) <= u128::MAX as int) by (nonlinear_arith)
                requires big == u64::MAX as int + 1,
            ;
        }
        let sz = ops[m - 1 - t0].1;
        let width: u128 = if t0 == 0 {
            sz as u128 + 1
        } else {
            sz as u128
        };
        proof {
            assert(block_width(opsv, t0 as int) == width);
            assert(block_off(opsv, t0 as int + 1) == block_off(opsv, t0 as int) + width + 1);
        }
        need = need + width + 1;
        t0 = t0 + 1;
    }
    // `need` is now one separator past the final block
    if need != w as u128 + 1 {
        assert(block_off(opsv, (m - 1) as int) + block_width(opsv, (m - 1) as int) != w);
        assert(!layout_ok(cells, opsv));
        return Err(Error::UnsolvableError);
    }
    assert(layout_ok(cells, opsv));
    let mut total: u64 = 0;
    let mut t: usize = 0;
    let mut off: usize = 0;
    while t < m
        invariant
            t <= m,
            m == ops@.len(),
            m >= 1,
            nrows == rows@.len(),
            nrows > 0,
            cells == num8_views(rows@),
            opsv == op_views(ops@),
            parse_picture(input@) == Some((cells, opsv)),
            uniform_u8(cells),
            w == cells[0].len(),
            layout_ok(cells, opsv),
            t < m ==> off == block_off(opsv, t as int),
            forall|tt: int, kk: int|
                #![trigger block_off(opsv, tt) + kk]
                0 <= tt < t && 0 <= kk < block_width(opsv, tt) ==> col_ok(
                    cells,
                    cells[0].len() - 1 - (block_off(opsv, tt) + kk),
                ),
            forall|tt: int, kk: int|
                0 <= tt < t && 0 <= kk <= block_width(opsv, tt) ==> 0 <= #[trigger] block_fold(
                    cells,
                    opsv,
                    tt,
                    kk,
                ) <= u64::MAX,
            forall|tt: int| 0 <= tt <= t ==> 0 <= #[trigger] picture_total(cells, opsv, tt)
                <= u64::MAX,
            total == picture_total(cells, opsv, t as int),
        decreases m - t,
    {
        proof {
            lemma_off_in_range(cells, opsv, t as int);
            assert(opsv[m - 1 - t as int] == (ops@[m - 1 - t as int].0, ops@[m - 1 - t
                as int].1 as int));
        }
        let (op, sz) = ops[m - 1 - t];
        let n = if t == 0 {
            sz + 1
        } else {
            sz
        };
        assert(n == block_width(opsv, t as int));
        let mut acc: u64 = if op == 0 {
            0
        } else {
            1
        };
        let mut kk: usize = 0;
        while kk < n
            invariant
                kk <= n,
                t < m,
                m == ops@.len(),
                nrows == rows@.len(),
                nrows > 0,
                cells == num8_views(rows@),
                opsv == op_views(ops@),
                parse_picture(input@) == Some((cells, opsv)),
                uniform_u8(cells),
                w == cells[0].len(),
                layout_ok(cells, opsv),
                off == block_off(opsv, t as int),
                n == block_width(opsv, t as int),
                off + n <= w,
                op == opsv[m - 1 - t as int].0,
                forall|x: int|
                    #![trigger block_off(opsv, t as int) + x]
                    0 <= x < kk ==> col_ok(
                        cells,
                        cells[0].len() - 1 - (block_off(opsv, t as int) + x),
                    ),
                forall|x: int|
                    0 <= x <= kk ==> 0 <= #[trigger] block_fold(cells, opsv, t as int, x)
                        <= u64::MAX,
                acc == block_fold(cells, opsv, t as int, kk as int),
            decreases n - kk,
        {
            let col = w - 1 - (off + kk);
            let cv = match col_value(&rows, col, Ghost(cells)) {
                Some(x) => x,
                None => {
                    assert(!picture_fit(cells, opsv));
                    return Err(Error::UnsolvableError);
                },
            };
            let step = if op == 0 {
                acc.checked_add(cv)
            } else {
                acc.checked_mul(cv)
            };
            match step {
                Some(a2) => {
                    acc = a2;
                },
                None => {
                    assert(!picture_fit(cells, opsv)) by {
                        assert(block_fold(cells, opsv, t as int, kk as int + 1) > u64::MAX
                            || block_fold(cells, opsv, t as int, kk as int + 1) < 0);
                    }
                    return Err(Error::UnsolvableError);
                },
            }
            kk = kk + 1;
        }
        match total.checked_add(acc) {
            Some(t2) => {
                total = t2;
            },
            None => {
                assert(!picture_fit(cells, opsv)) by {
                    assert(picture_total(cells, opsv, t as int + 1) > u64::MAX);
                }
                return Err(Error::UnsolvableError);
            },
        }
        if t + 1 < m {
            proof {
                lemma_off_in_range(cells, opsv, t as int + 1);
            }
            off = off + n + 1;
            proof {
                assert(off == block_off(opsv, t as int + 1));
            }
        }
        t = t + 1;
    }
    assert(picture_fit(cells, opsv));
    Ok(total)
}

} // verus!
