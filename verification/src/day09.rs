//! Red floor tiles on a grid, given as `x,y` coordinate lines.
//!
//! `part1` reports the largest axis-aligned rectangle area spanned by
//! two tiles, counting both end rows and columns.  The day's second
//! part asks which such rectangles a polygon through the tiles covers;
//! that is floating-point geometry and stays outside the verified
//! library.

use vstd::prelude::*;

use crate::scan;
use crate::Error;

verus! {

/// One `x,y` coordinate pair.
pub open spec fn sp_point(s: Seq<char>, i: int) -> Option<((u64, u64), int)> {
    if 0 <= i <= s.len() {
        match scan::spec_u64_at(s, i) {
            Some((x, j)) => if j < s.len() && s[j] == ',' {
                match scan::spec_u64_at(s, j + 1) {
                    Some((y, j2)) => Some(((x, y), j2)),
                    None => None,
                }
            } else {
                None
            },
            None => None,
        }
    } else {
        None
    }
}

/// Coordinate lines, each with an optional line ending, greedy.
pub open spec fn sp_points(s: Seq<char>, i: int, acc: Seq<(u64, u64)>) -> Option<
    (Seq<(u64, u64)>, int),
>
    decreases s.len() - i when 0 <= i <= s.len()
{
    match sp_point(s, i) {
        Some((pt, j)) => {
            let acc2 = acc.push(pt);
            let j2 = j + scan::line_end_len(s, j);
            if i < j2 && j2 < s.len() && scan::is_digit(s[j2]) {
                sp_points(s, j2, acc2)
            } else {
                Some((acc2, j2))
            }
        },
        None => None,
    }
}

/// The whole input: one or more points consuming every character.
pub open spec fn parse_points(s: Seq<char>) -> Option<Seq<(u64, u64)>> {
    match sp_points(s, 0, Seq::empty()) {
        Some((pts, j)) => if j == s.len() {
            Some(pts)
        } else {
            None
        },
        None => None,
    }
}

/// The rectangle spanned by two tiles, both end rows and columns
/// counted.
pub open spec fn area_of(a: (u64, u64), b: (u64, u64)) -> int {
    let dx = if a.0 >= b.0 {
        a.0 - b.0
    } else {
        b.0 - a.0
    };
    let dy = if a.1 >= b.1 {
        a.1 - b.1
    } else {
        b.1 - a.1
    };
    (dx + 1) * (dy + 1)
}

/// `v` is the largest rectangle area any two tiles span.
pub open spec fn is_max_area(pts: Seq<(u64, u64)>, v: int) -> bool {
    &&& exists|i: int, j: int|
        0 <= i < j < pts.len() && v == #[trigger] area_of(pts[i], pts[j])
    &&& forall|i: int, j: int|
        0 <= i < j < pts.len() ==> #[trigger] area_of(pts[i], pts[j]) <= v
}

/// One red tile's coordinates.
#[derive(Debug, Copy, Clone, PartialEq, Eq, Structural)]
pub struct Point(pub u64, pub u64);

impl Point {
    /// The rectangle area this tile spans with `other`.
    pub fn area(&self, other: &Point) -> (r: u64)
        requires
            area_of((self.0, self.1), (other.0, other.1)) <= u64::MAX,
        ensures
            r == area_of((self.0, self.1), (other.0, other.1)),
    {
        let dx = if self.0 >= other.0 {
            self.0 - other.0
        } else {
            other.0 - self.0
        };
        let dy = if self.1 >= other.1 {
            self.1 - other.1
        } else {
            other.1 - self.1
        };
        proof {
            assert((dx as int + 1) * (dy as int + 1) <= u64::MAX);
            assert(dx as int * dy as int + dx as int + dy as int + 1 == (dx as int + 1) * (dy
                as int + 1)) by (nonlinear_arith);
            assert(dx as int * dy as int >= 0) by (nonlinear_arith)
                requires dx >= 0, dy >= 0,
            ;
        }
        (dx * dy) + dx + dy + 1
    }
}

fn point_at(v: &Vec<char>, i: usize) -> (r: Option<((u64, u64), usize)>)
    requires
        i <= v@.len(),
    ensures
        (match r {
            Some(p) => i < p.1 <= v@.len() && sp_point(v@, i as int) == Some(
                ((p.0.0, p.0.1), p.1 as int),
            ),
            None => sp_point(v@, i as int) is None,
        }),
{
    match scan::u64_at(v, i) {
        Some((x, j)) => {
            if j < v.len() && v[j] == ',' {
                match scan::u64_at(v, j + 1) {
                    Some((y, j2)) => Some(((x, y), j2)),
                    None => None,
                }
            } else {
                None
            }
        },
        None => None,
    }
}

fn points_at(v: &Vec<char>, i: usize, acc: Vec<(u64, u64)>) -> (r: Option<
    (Vec<(u64, u64)>, usize),
>)
    requires
        i <= v@.len(),
    ensures
        (match r {
            Some(p) => p.1 <= v@.len() && sp_points(v@, i as int, acc@) == Some(
                (p.0@, p.1 as int),
            ),
            None => sp_points(v@, i as int, acc@) is None,
        }),
    decreases v@.len() - i,
{
    let vl = v.len();
    match point_at(v, i) {
        Some((pt, j)) => {
            let mut acc2 = acc;
            acc2.push(pt);
            let d = scan::line_end_at(v, j);
            let j2 = j + d;
            if i < j2 && j2 < vl {
                let c = v[j2];
                let dd = #[verifier::truncate] (c as u32);
                if 48 <= dd && dd <= 57 {
                    return points_at(v, j2, acc2);
                }
            }
            Some((acc2, j2))
        },
        None => None,
    }
}

fn parse_all(v: &Vec<char>) -> (r: Option<Vec<(u64, u64)>>)
    ensures
        (match r {
            Some(pts) => parse_points(v@) == Some(pts@),
            None => parse_points(v@) is None,
        }),
{
    let vl = v.len();
    match points_at(v, 0, Vec::new()) {
        Some((pts, j)) => {
            if j == vl {
                Some(pts)
            } else {
                None
            }
        },
        None => None,
    }
}

/// The largest rectangle area two tiles span.  Fewer than two tiles, or
/// an area beyond 64 bits, cannot be answered.
pub fn part1(input: &str) -> (r: Result<u64, Error>)
    ensures
        (match parse_points(input@) {
            None => r == Err::<u64, Error>(Error::ParseError),
            Some(pts) => {
                match r {
                    Ok(v) => pts.len() >= 2 && is_max_area(pts, v as int),
                    Err(e) => e == Error::UnsolvableError && (pts.len() < 2 || exists|i: int, j: int|
                        0 <= i < j < pts.len() && #[trigger] area_of(pts[i], pts[j]) > u64::MAX),
                }
            },
        }),
{
    let chars = scan::chars_of(input);
    let pts = match parse_all(&chars) {
        Some(p) => p,
        None => {
            return Err(Error::ParseError);
        },
    };
    let n = pts.len();
    if n < 2 {
        return Err(Error::UnsolvableError);
    }
    let mut best: u64 = 0;
    let mut have = false;
    let mut i: usize = 0;
    while i < n
        invariant
            i <= n,
            n == pts@.len(),
            n >= 2,
            parse_points(input@) == Some(pts@),
            i >= 1 ==> have,
            have ==> exists|a: int, b: int|
                0 <= a < b < n && best == #[trigger] area_of(pts@[a], pts@[b]),
            !have ==> best == 0,
            forall|a: int, b: int|
                0 <= a < b < n && a < i ==> #[trigger] area_of(pts@[a], pts@[b]) <= best,
        decreases n - i,
    {
        let (xa, ya) = pts[i];
        let mut j = i + 1;
        while j < n
            invariant
                i < j <= n,
                i < n,
                n == pts@.len(),
                parse_points(input@) == Some(pts@),
                (xa, ya) == pts@[i as int],
                j > i + 1 ==> have,
                i >= 1 ==> have,
                have ==> exists|a: int, b: int|
                    0 <= a < b < n && best == #[trigger] area_of(pts@[a], pts@[b]),
                !have ==> best == 0,
                forall|a: int, b: int|
                    0 <= a < b < n && a < i ==> #[trigger] area_of(pts@[a], pts@[b]) <= best,
                forall|b: int|
                    i < b < j ==> #[trigger] area_of(pts@[i as int], pts@[b]) <= best,
            decreases n - j,
        {
            let (xb, yb) = pts[j];
            let dx = if xa >= xb {
                xa - xb
            } else {
                xb - xa
            };
            let dy = if ya >= yb {
                ya - yb
            } else {
                yb - ya
            };
            // compute in 128 bits; the result can still be one past the
            // 128-bit range when both sides are full, so test first
            assert(area_of(pts@[i as int], pts@[j as int]) == (dx as int + 1) * (dy as int
                + 1));
            if dx == u64::MAX && dy == u64::MAX {
                proof {
                    assert((u64::MAX as int + 1) * (u64::MAX as int + 1) > u64::MAX)
                        by (nonlinear_arith);
                }
                return Err(Error::UnsolvableError);
            }
            proof {
                if dx < u64::MAX {
                    assert((dx as int + 1) * (dy as int + 1) <= (u64::MAX as int) * (
                    u64::MAX as int + 1)) by (nonlinear_arith)
                        requires dx as int + 1 <= u64::MAX as int, dy as int + 1 <= u64::MAX as int + 1,
                    ;
                } else {
                    assert((dx as int + 1) * (dy as int + 1) <= (u64::MAX as int + 1) * (
                    u64::MAX as int)) by (nonlinear_arith)
                        requires dx as int + 1 <= u64::MAX as int + 1, dy as int + 1 <= u64::MAX as int,
                    ;
                }
                assert((u64::MAX as int + 1) * (u64::MAX as int) <= u128::MAX)
                    by (nonlinear_arith);
            }
            let v: u128 = (dx as u128 + 1) * (dy as u128 + 1);
            assert(v == area_of(pts@[i as int], pts@[j as int]));
            if v > u64::MAX as u128 {
                return Err(Error::UnsolvableError);
            }
            let vv = #[verifier::truncate] (v as u64);
            if !have || vv > best {
                best = vv;
                have = true;
            }
            j = j + 1;
        }
        i = i + 1;
    }
    assert(is_max_area(pts@, best as int));
    Ok(best)
}

} // verus!
