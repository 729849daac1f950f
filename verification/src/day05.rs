//! Freshness ranges and ingredient ids.
//!
//! The input holds inclusive id ranges `lo-hi`, one per line, then a
//! blank line, then a list of ingredient ids.  `part1` counts the
//! ingredients that fall inside some range.  `part2` counts every id
//! covered by the union of the ranges.

use vstd::prelude::*;

use crate::scan;
use crate::Error;

verus! {

/// One inclusive range `lo-hi`.
pub open spec fn sp_range(s: Seq<char>, i: int) -> Option<((u64, u64), int)> {
    if 0 <= i <= s.len() {
        match scan::spec_u64_at(s, i) {
            Some((lo, j)) => if j < s.len() && s[j] == '-' {
                match scan::spec_u64_at(s, j + 1) {
                    Some((hi, j2)) => Some(((lo, hi), j2)),
                    None => None,
                }
            } else {
                None
            },
            None => None,
        }
    } else {
        None
    }
}

/// Range lines, each ending with a line ending, greedy.
pub open spec fn sp_ranges(s: Seq<char>, i: int, acc: Seq<(u64, u64)>) -> Option<
    (Seq<(u64, u64)>, int),
>
    decreases s.len() - i when 0 <= i <= s.len()
{
    match sp_range(s, i) {
        Some((rg, j)) => {
            let d = scan::line_end_len(s, j);
            if d == 0 {
                None
            } else {
                let acc2 = acc.push(rg);
                if i < j + d && j + d <= s.len() && sp_range(s, j + d) is Some {
                    sp_ranges(s, j + d, acc2)
                } else {
                    Some((acc2, j + d))
                }
            }
        },
        None => None,
    }
}

/// Ingredient ids, each with an optional line ending, greedy.
pub open spec fn sp_ings(s: Seq<char>, i: int, acc: Seq<u64>) -> Option<(Seq<u64>, int)>
    decreases s.len() - i when 0 <= i <= s.len()
{
    match scan::spec_u64_at(s, i) {
        Some((x, j)) => {
            let acc2 = acc.push(x);
            let j2 = j + scan::line_end_len(s, j);
            if i < j2 && j2 < s.len() && scan::is_digit(s[j2]) {
                sp_ings(s, j2, acc2)
            } else {
                Some((acc2, j2))
            }
        },
        None => None,
    }
}

/// The whole input: ranges, a blank line, ingredients, nothing else.
pub open spec fn parse_day(s: Seq<char>) -> Option<(Seq<(u64, u64)>, Seq<u64>)> {
    match sp_ranges(s, 0, Seq::empty()) {
        Some((rgs, j)) => {
            let d = scan::line_end_len(s, j);
            if d == 0 {
                None
            } else {
                match sp_ings(s, j + d, Seq::empty()) {
                    Some((ings, j2)) => if j2 == s.len() {
                        Some((rgs, ings))
                    } else {
                        None
                    },
                    None => None,
                }
            }
        },
        None => None,
    }
}

fn range_at(v: &Vec<char>, i: usize) -> (r: Option<((u64, u64), usize)>)
    requires
        i <= v@.len(),
    ensures
        (match r {
            Some(p) => i < p.1 <= v@.len() && sp_range(v@, i as int) == Some(
                ((p.0.0, p.0.1), p.1 as int),
            ),
            None => sp_range(v@, i as int) is None,
        }),
{
    match scan::u64_at(v, i) {
        Some((lo, j)) => {
            if j < v.len() && v[j] == '-' {
                match scan::u64_at(v, j + 1) {
                    Some((hi, j2)) => Some(((lo, hi), j2)),
                    None => None,
                }
            } else {
                None
            }
        },
        None => None,
    }
}

fn ranges_at(v: &Vec<char>, i: usize, acc: Vec<(u64, u64)>) -> (r: Option<(Vec<(u64, u64)>, usize)>)
    requires
        i <= v@.len(),
    ensures
        (match r {
            Some(p) => p.1 <= v@.len() && sp_ranges(v@, i as int, acc@) == Some(
                (p.0@, p.1 as int),
            ),
            None => sp_ranges(v@, i as int, acc@) is None,
        }),
    decreases v@.len() - i,
{
    let vl = v.len();
    match range_at(v, i) {
        Some((rg, j)) => {
            let d = scan::line_end_at(v, j);
            if d == 0 {
                None
            } else {
                let mut acc2 = acc;
                acc2.push(rg);
                match range_at(v, j + d) {
                    Some(_) => ranges_at(v, j + d, acc2),
                    None => Some((acc2, j + d)),
                }
            }
        },
        None => None,
    }
}

fn ings_at(v: &Vec<char>, i: usize, acc: Vec<u64>) -> (r: Option<(Vec<u64>, usize)>)
    requires
        i <= v@.len(),
    ensures
        (match r {
            Some(p) => p.1 <= v@.len() && sp_ings(v@, i as int, acc@) == Some((p.0@, p.1 as int)),
            None => sp_ings(v@, i as int, acc@) is None,
        }),
    decreases v@.len() - i,
{
    let vl = v.len();
    match scan::u64_at(v, i) {
        Some((x, j)) => {
            let mut acc2 = acc;
            acc2.push(x);
            let d = scan::line_end_at(v, j);
            let j2 = j + d;
            if i < j2 && j2 < vl {
                let c = v[j2];
                let dd = #[verifier::truncate] (c as u32);
                if 48 <= dd && dd <= 57 {
                    return ings_at(v, j2, acc2);
                }
            }
            Some((acc2, j2))
        },
        None => None,
    }
}

fn parse_all(v: &Vec<char>) -> (r: Option<(Vec<(u64, u64)>, Vec<u64>)>)
    ensures
        (match r {
            Some(p) => parse_day(v@) == Some((p.0@, p.1@)),
            None => parse_day(v@) is None,
        }),
{
    let vl = v.len();
    match ranges_at(v, 0, Vec::new()) {
        Some((rgs, j)) => {
            let d = scan::line_end_at(v, j);
            if d == 0 {
                return None;
            }
            match ings_at(v, j + d, Vec::new()) {
                Some((ings, j2)) => {
                    if j2 == vl {
                        Some((rgs, ings))
                    } else {
                        None
                    }
                },
                None => None,
            }
        },
        None => None,
    }
}

/// Is id `x` inside some freshness range?
pub open spec fn covered(rgs: Seq<(u64, u64)>, x: int) -> bool {
    exists|k: int| 0 <= k < rgs.len() && (#[trigger] rgs[k]).0 <= x <= rgs[k].1
}

/// Fresh ingredients among the first `i`.
pub open spec fn fresh_upto(rgs: Seq<(u64, u64)>, ings: Seq<u64>, i: int) -> int
    decreases i,
{
    if i <= 0 {
        0
    } else {
        fresh_upto(rgs, ings, i - 1) + (if covered(rgs, ings[i - 1] as int) {
            1int
        } else {
            0int
        })
    }
}

/// How many listed ingredients fall inside some freshness range.
pub fn part1(input: &str) -> (r: Result<u64, Error>)
    ensures
        (match parse_day(input@) {
            None => r == Err::<u64, Error>(Error::ParseError),
            Some(p) => r == Ok::<u64, Error>(fresh_upto(p.0, p.1, p.1.len() as int) as u64),
        }),
{
    let chars = scan::chars_of(input);
    let (rgs, ings) = match parse_all(&chars) {
        Some(p) => p,
        None => {
            return Err(Error::ParseError);
        },
    };
    let n = ings.len();
    let m = rgs.len();
    let mut count: u64 = 0;
    let mut i: usize = 0;
    while i < n
        invariant
            i <= n,
            n == ings@.len(),
            m == rgs@.len(),
            parse_day(input@) == Some((rgs@, ings@)),
            count == fresh_upto(rgs@, ings@, i as int),
            count <= i,
        decreases n - i,
    {
        let x = ings[i];
        let mut hit = false;
        let mut k: usize = 0;
        while k < m
            invariant
                k <= m,
                m == rgs@.len(),
                x == ings@[i as int],
                i < n == ings@.len(),
                hit ==> covered(rgs@, x as int),
                !hit ==> forall|j: int|
                    0 <= j < k ==> !((#[trigger] rgs@[j]).0 <= x as int <= rgs@[j].1),
            decreases m - k,
        {
            let (lo, hi) = rgs[k];
            if lo <= x && x <= hi {
                hit = true;
            }
            k = k + 1;
        }
        if hit {
            count = count + 1;
        } else {
            assert(!covered(rgs@, x as int));
        }
        i = i + 1;
    }
    Ok(count)
}

/// Ids covered by the union of the ranges, among `lo..hi`.
pub open spec fn count_covered(rgs: Seq<(u64, u64)>, lo: int, hi: int) -> int
    decreases hi - lo when lo <= hi
{
    if lo >= hi {
        0
    } else {
        count_covered(rgs, lo, hi - 1) + (if covered(rgs, hi - 1) {
            1int
        } else {
            0int
        })
    }
}

proof fn lemma_count_bounds(rgs: Seq<(u64, u64)>, lo: int, hi: int)
    requires
        lo <= hi,
    ensures
        0 <= count_covered(rgs, lo, hi) <= hi - lo,
    decreases hi - lo,
{
    if lo < hi {
        lemma_count_bounds(rgs, lo, hi - 1);
    }
}

proof fn lemma_count_split(rgs: Seq<(u64, u64)>, lo: int, mid: int, hi: int)
    requires
        lo <= mid <= hi,
    ensures
        count_covered(rgs, lo, hi) == count_covered(rgs, lo, mid) + count_covered(rgs, mid, hi),
    decreases hi - mid,
{
    if mid < hi {
        lemma_count_split(rgs, lo, mid, hi - 1);
    }
}

proof fn lemma_count_all(rgs: Seq<(u64, u64)>, lo: int, hi: int)
    requires
        lo <= hi,
        forall|x: int| lo <= x < hi ==> covered(rgs, x),
    ensures
        count_covered(rgs, lo, hi) == hi - lo,
    decreases hi - lo,
{
    if lo < hi {
        lemma_count_all(rgs, lo, hi - 1);
    }
}

proof fn lemma_count_none(rgs: Seq<(u64, u64)>, lo: int, hi: int)
    requires
        lo <= hi,
        forall|x: int| lo <= x < hi ==> !covered(rgs, x),
    ensures
        count_covered(rgs, lo, hi) == 0,
    decreases hi - lo,
{
    if lo < hi {
        lemma_count_none(rgs, lo, hi - 1);
    }
}

/// Ranges from `i` on with an end beyond `ce`: how much the current
/// union block might still be extended.
spec fn ends_above(rgs: Seq<(u64, u64)>, i: int, ce: int) -> int
    decreases rgs.len() - i when 0 <= i <= rgs.len()
{
    if i >= rgs.len() {
        0
    } else {
        (if rgs[i].1 > ce {
            1int
        } else {
            0int
        }) + ends_above(rgs, i + 1, ce)
    }
}

proof fn lemma_ends_above_nonneg(rgs: Seq<(u64, u64)>, i: int, ce: int)
    requires
        0 <= i <= rgs.len(),
    ensures
        ends_above(rgs, i, ce) >= 0,
    decreases rgs.len() - i,
{
    if i < rgs.len() {
        lemma_ends_above_nonneg(rgs, i + 1, ce);
    }
}

proof fn lemma_ends_above_mono(rgs: Seq<(u64, u64)>, i: int, ce1: int, ce2: int)
    requires
        0 <= i <= rgs.len(),
        ce1 <= ce2,
    ensures
        ends_above(rgs, i, ce2) <= ends_above(rgs, i, ce1),
    decreases rgs.len() - i,
{
    if i < rgs.len() {
        lemma_ends_above_mono(rgs, i + 1, ce1, ce2);
    }
}

/// Extending the block to some range's own end strictly shrinks the
/// count of ranges that could extend it further.
proof fn lemma_ends_above_drop(rgs: Seq<(u64, u64)>, i: int, ce: int, k: int)
    requires
        0 <= i <= k < rgs.len(),
        rgs[k].1 > ce,
    ensures
        ends_above(rgs, i, rgs[k].1 as int) < ends_above(rgs, i, ce),
    decreases rgs.len() - i,
{
    if i == k {
        lemma_ends_above_mono(rgs, i + 1, ce, rgs[k].1 as int);
    } else {
        lemma_ends_above_drop(rgs, i + 1, ce, k);
    }
}

/// First covered id at or past `bound`, if any.
fn find_next(rgs: &Vec<(u64, u64)>, bound: u128) -> (r: Option<u64>)
    requires
        forall|k: int| 0 <= k < rgs@.len() ==> (#[trigger] rgs@[k]).0 <= rgs@[k].1,
    ensures
        (match r {
            Some(nx) => bound <= nx as u128 && covered(rgs@, nx as int) && forall|x: int|
                bound <= x < nx as int ==> !covered(rgs@, x),
            None => forall|x: int| x >= bound ==> !covered(rgs@, x),
        }),
{
    let m = rgs.len();
    let mut best: Option<u64> = None;
    let mut k: usize = 0;
    while k < m
        invariant
            k <= m,
            m == rgs@.len(),
            forall|j: int| 0 <= j < rgs@.len() ==> (#[trigger] rgs@[j]).0 <= rgs@[j].1,
            (match best {
                Some(b) => {
                    &&& bound <= b as u128
                    &&& covered(rgs@, b as int)
                    &&& forall|j: int|
                        0 <= j < k && (#[trigger] rgs@[j]).1 >= bound ==> b as int <= (if rgs@[j].0
                            as u128 >= bound {
                            rgs@[j].0 as int
                        } else {
                            bound as int
                        })
                },
                None => forall|j: int| 0 <= j < k ==> (#[trigger] rgs@[j]).1 < bound,
            }),
        decreases m - k,
    {
        let (lo, hi) = rgs[k];
        if hi as u128 >= bound {
            let cand: u64 = if lo as u128 >= bound {
                lo
            } else {
                #[verifier::truncate] (bound as u64)
            };
            assert(cand as u128 == (if rgs@[k as int].0 as u128 >= bound {
                rgs@[k as int].0 as u128
            } else {
                bound
            }));
            assert(covered(rgs@, cand as int)) by {
                assert(rgs@[k as int].0 <= cand as int <= rgs@[k as int].1);
            }
            match best {
                Some(b) => {
                    if cand < b {
                        best = Some(cand);
                    }
                },
                None => {
                    best = Some(cand);
                },
            }
        }
        k = k + 1;
    }
    proof {
        match best {
            Some(b) => {
                assert forall|x: int| bound <= x < b as int implies !covered(rgs@, x) by {
                    if covered(rgs@, x) {
                        let j = choose|j: int|
                            0 <= j < rgs@.len() && (#[trigger] rgs@[j]).0 <= x <= rgs@[j].1;
                        assert(rgs@[j].1 >= bound);
                    }
                }
            },
            None => {
                assert forall|x: int| x >= bound implies !covered(rgs@, x) by {
                    if covered(rgs@, x) {
                        let j = choose|j: int|
                            0 <= j < rgs@.len() && (#[trigger] rgs@[j]).0 <= x <= rgs@[j].1;
                    }
                }
            },
        }
    }
    best
}

/// How many ids the union of the freshness ranges covers.  An empty
/// range (`lo > hi`), or a total beyond 64 bits, cannot be answered.
pub fn part2(input: &str) -> (r: Result<u64, Error>)
    ensures
        (match parse_day(input@) {
            None => r == Err::<u64, Error>(Error::ParseError),
            Some(p) => {
                if (forall|k: int| 0 <= k < p.0.len() ==> (#[trigger] p.0[k]).0 <= p.0[k].1)
                    && count_covered(p.0, 0, u64::MAX as int + 1) <= u64::MAX {
                    r == Ok::<u64, Error>(count_covered(p.0, 0, u64::MAX as int + 1) as u64)
                } else {
                    r == Err::<u64, Error>(Error::UnsolvableError)
                }
            },
        }),
{
    let chars = scan::chars_of(input);
    let (rgs, _ings) = match parse_all(&chars) {
        Some(p) => p,
        None => {
            return Err(Error::ParseError);
        },
    };
    let m = rgs.len();
    let mut k: usize = 0;
    while k < m
        invariant
            k <= m,
            m == rgs@.len(),
            parse_day(input@) is Some,
            parse_day(input@)->Some_0.0 == rgs@,
            forall|j: int| 0 <= j < k ==> (#[trigger] rgs@[j]).0 <= rgs@[j].1,
        decreases m - k,
    {
        let (lo, hi) = rgs[k];
        if lo > hi {
            return Err(Error::UnsolvableError);
        }
        k = k + 1;
    }
    let ghost top = u64::MAX as int + 1;
    let mut total: u128 = 0;
    let mut bound: u128 = 0;
    loop
        invariant
            m == rgs@.len(),
            parse_day(input@) is Some,
            parse_day(input@)->Some_0.0 == rgs@,
            forall|j: int| 0 <= j < rgs@.len() ==> (#[trigger] rgs@[j]).0 <= rgs@[j].1,
            top == u64::MAX as int + 1,
            bound <= top,
            total == count_covered(rgs@, 0, bound as int),
            total <= bound,
        ensures
            total == count_covered(rgs@, 0, top),
            parse_day(input@) is Some,
            parse_day(input@)->Some_0.0 == rgs@,
        decreases u64::MAX as int + 1 - bound,
    {
        match find_next(&rgs, bound) {
            Some(next) => {
                let mut ce: u64 = next;
                // grow the block while some range overlaps or abuts it
                loop
                    invariant
                        m == rgs@.len(),
                        forall|j: int| 0 <= j < rgs@.len() ==> (#[trigger] rgs@[j]).0 <= rgs@[j].1,
                        next <= ce,
                        forall|x: int| next as int <= x <= ce as int ==> covered(rgs@, x),
                    ensures
                        next <= ce,
                        forall|x: int| next as int <= x <= ce as int ==> covered(rgs@, x),
                        forall|j: int|
                            0 <= j < rgs@.len() ==> !((#[trigger] rgs@[j]).0 as int <= ce as int
                                + 1 && rgs@[j].1 > ce),
                    decreases ends_above(rgs@, 0, ce as int),
                {
                    proof {
                        lemma_ends_above_nonneg(rgs@, 0, ce as int);
                    }
                    let ghost ce0 = ce;
                    let mut changed = false;
                    let mut j: usize = 0;
                    while j < m
                        invariant
                            j <= m,
                            m == rgs@.len(),
                            forall|jj: int|
                                0 <= jj < rgs@.len() ==> (#[trigger] rgs@[jj]).0 <= rgs@[jj].1,
                            next <= ce,
                            ce0 <= ce,
                            forall|x: int| next as int <= x <= ce as int ==> covered(rgs@, x),
                            changed ==> ends_above(rgs@, 0, ce as int) < ends_above(
                                rgs@,
                                0,
                                ce0 as int,
                            ),
                            !changed ==> ce == ce0 && forall|jj: int|
                                0 <= jj < j ==> !((#[trigger] rgs@[jj]).0 as int <= ce as int + 1
                                    && rgs@[jj].1 > ce),
                        decreases m - j,
                    {
                        let (lo, hi) = rgs[j];
                        if lo as u128 <= ce as u128 + 1 && hi > ce {
                            proof {
                                if changed {
                                    lemma_ends_above_drop(rgs@, 0, ce as int, j as int);
                                    lemma_ends_above_mono(rgs@, 0, ce0 as int, ce as int);
                                    assert(ends_above(rgs@, 0, hi as int) < ends_above(
                                        rgs@,
                                        0,
                                        ce0 as int,
                                    ));
                                } else {
                                    lemma_ends_above_drop(rgs@, 0, ce as int, j as int);
                                }
                            }
                            ce = hi;
                            changed = true;
                        }
                        j = j + 1;
                    }
                    if !changed {
                        break ;
                    }
                    proof {
                        lemma_ends_above_nonneg(rgs@, 0, ce as int);
                        assert(ends_above(rgs@, 0, ce as int) < ends_above(rgs@, 0, ce0 as int));
                    }
                }
                // count the finished block and move past it
                proof {
                    lemma_count_split(rgs@, 0, bound as int, next as int);
                    lemma_count_none(rgs@, bound as int, next as int);
                    lemma_count_split(rgs@, 0, next as int, ce as int + 1);
                    lemma_count_all(rgs@, next as int, ce as int + 1);
                    lemma_count_split(rgs@, 0, bound as int, ce as int + 1);
                    lemma_count_bounds(rgs@, 0, bound as int);
                }
                let block: u128 = ce as u128 - next as u128 + 1;
                total = total + block;
                bound = ce as u128 + 1;
                proof {
                    assert(total == count_covered(rgs@, 0, bound as int));
                }
            },
            None => {
                proof {
                    lemma_count_split(rgs@, 0, bound as int, top);
                    lemma_count_none(rgs@, bound as int, top);
                }
                break ;
            },
        }
    }
    if total > u64::MAX as u128 {
        return Err(Error::UnsolvableError);
    }
    Ok(#[verifier::truncate] (total as u64))
}

} // verus!
