//! Invalid product ids: numbers whose decimal digits are some block
//! written twice, such as `55`, `6464` or `123123`.
//!
//! The input is one line of inclusive id ranges `lo-hi` separated by
//! commas.  `part1` sums, over each range, the doubled numbers inside it:
//! for each half-length `k` the numbers `p * (10^k + 1)` with `p` a
//! `k`-digit number, clipped to the range.  `part2` has no assignment
//! yet.

use vstd::prelude::*;

use crate::day03::pow10;
use crate::scan;
use crate::Error;

verus! {

/// One inclusive range `lo-hi`.
pub open spec fn sp_range(s: Seq<char>, i: int) -> Option<((u64, u64), int)> {
    if 0 <= i <= s.len() {
        match scan::spec_u64_at(s, i) {
            Some((lo, j)) => if j < s.len() && s[j] == '-' {
                match scan::spec_u64_at(s, j + 1) {
                    Some((hi, j2)) => Some(((lo, hi), j2)),
                    None => None,
                }
            } else {
                None
            },
            None => None,
        }
    } else {
        None
    }
}

/// Ranges separated by commas, greedy.
pub open spec fn sp_ranges(s: Seq<char>, i: int, acc: Seq<(u64, u64)>) -> Option<
    (Seq<(u64, u64)>, int),
>
    decreases s.len() - i when 0 <= i <= s.len()
{
    match sp_range(s, i) {
        Some((rg, j)) => {
            let acc2 = acc.push(rg);
            if i < j && j < s.len() && s[j] == ',' && sp_range(s, j + 1) is Some {
                sp_ranges(s, j + 1, acc2)
            } else {
                Some((acc2, j))
            }
        },
        None => None,
    }
}

/// The whole input: ranges, an optional line ending, nothing else.
pub open spec fn parse_ranges(s: Seq<char>) -> Option<Seq<(u64, u64)>> {
    match sp_ranges(s, 0, Seq::empty()) {
        Some((rgs, j)) => if j + scan::line_end_len(s, j) == s.len() {
            Some(rgs)
        } else {
            None
        },
        None => None,
    }
}

/// Sum of `p * (10^k + 1)` over `p` in `[plo, phi]`: the doubled numbers
/// with half `p`.
pub open spec fn psum(k: int, plo: int, phi: int) -> int
    decreases phi + 1 - plo when plo <= phi + 1
{
    if plo > phi {
        0
    } else {
        plo * (pow10(k) + 1) + psum(k, plo + 1, phi)
    }
}

/// The doubled numbers of half-length `k` inside `[s, e]`, summed.
pub open spec fn contribution(s: u64, e: u64, k: int) -> int {
    if p_lo(s, k) <= p_hi(e, k) {
        psum(k, p_lo(s, k), p_hi(e, k))
    } else {
        0
    }
}

/// First half value of the smallest doubled number of half-length `k`
/// at or above `s`.
pub open spec fn p_lo(s: u64, k: int) -> int {
    let cl = (s + pow10(k)) / (pow10(k) + 1);
    if cl >= pow10(k - 1) {
        cl
    } else {
        pow10(k - 1)
    }
}

/// First half value of the largest doubled number of half-length `k`
/// at or below `e`.
pub open spec fn p_hi(e: u64, k: int) -> int {
    let fl = e as int / (pow10(k) + 1);
    if fl <= pow10(k) - 1 {
        fl
    } else {
        pow10(k) - 1
    }
}

/// Sum of the doubled numbers inside `[s, e]` over half-lengths `1..=k`.
pub open spec fn ksum(s: u64, e: u64, k: int) -> int
    decreases k,
{
    if k <= 0 {
        0
    } else {
        ksum(s, e, k - 1) + contribution(s, e, k)
    }
}

/// Sum of the doubled numbers over the ranges `rgs[i..]`; ids have at
/// most twenty digits, so half-lengths run to ten.
pub open spec fn total_invalid(rgs: Seq<(u64, u64)>, i: int) -> int
    decreases rgs.len() - i when 0 <= i <= rgs.len()
{
    if i >= rgs.len() {
        0
    } else {
        ksum(rgs[i].0, rgs[i].1, 10) + total_invalid(rgs, i + 1)
    }
}

proof fn lemma_psum_nonneg(k: int, plo: int, phi: int)
    requires
        0 <= plo,
        plo <= phi + 1,
        k >= 0,
    ensures
        psum(k, plo, phi) >= 0,
    decreases phi + 1 - plo,
{
    if plo <= phi {
        crate::day03::lemma_pow10_pos(k);
        assert(plo * (pow10(k) + 1) >= 0) by (nonlinear_arith)
            requires plo >= 0, pow10(k) >= 1,
        ;
        lemma_psum_nonneg(k, plo + 1, phi);
    }
}

proof fn lemma_plo_nonneg(s: u64, k: int)
    requires
        1 <= k,
    ensures
        p_lo(s, k) >= 0,
        p_lo(s, k) >= pow10(k - 1),
{
    crate::day03::lemma_pow10_pos(k - 1);
    crate::day03::lemma_pow10_pos(k);
    assert((s + pow10(k)) / (pow10(k) + 1) >= 0) by (nonlinear_arith)
        requires s >= 0, pow10(k) >= 1,
    ;
}

proof fn lemma_ksum_nonneg(s: u64, e: u64, k: int)
    ensures
        ksum(s, e, k) >= 0,
    decreases k,
{
    if k > 0 {
        lemma_ksum_nonneg(s, e, k - 1);
        lemma_plo_nonneg(s, k);
        if p_lo(s, k) <= p_hi(e, k) {
            lemma_psum_nonneg(k, p_lo(s, k), p_hi(e, k));
        }
        assert(contribution(s, e, k) >= 0);
    }
}

proof fn lemma_total_nonneg(rgs: Seq<(u64, u64)>, i: int)
    requires
        0 <= i <= rgs.len(),
    ensures
        total_invalid(rgs, i) >= 0,
    decreases rgs.len() - i,
{
    if i < rgs.len() {
        lemma_ksum_nonneg(rgs[i].0, rgs[i].1, 10);
        lemma_total_nonneg(rgs, i + 1);
    }
}

fn range_at(v: &Vec<char>, i: usize) -> (r: Option<((u64, u64), usize)>)
    requires
        i <= v@.len(),
    ensures
        (match r {
            Some(p) => i < p.1 <= v@.len() && sp_range(v@, i as int) == Some(
                ((p.0.0, p.0.1), p.1 as int),
            ),
            None => sp_range(v@, i as int) is None,
        }),
{
    match scan::u64_at(v, i) {
        Some((lo, j)) => {
            if j < v.len() && v[j] == '-' {
                match scan::u64_at(v, j + 1) {
                    Some((hi, j2)) => Some(((lo, hi), j2)),
                    None => None,
                }
            } else {
                None
            }
        },
        None => None,
    }
}

fn ranges_at(v: &Vec<char>, i: usize, acc: Vec<(u64, u64)>) -> (r: Option<
    (Vec<(u64, u64)>, usize),
>)
    requires
        i <= v@.len(),
    ensures
        (match r {
            Some(p) => p.1 <= v@.len() && sp_ranges(v@, i as int, acc@) == Some(
                (p.0@, p.1 as int),
            ),
            None => sp_ranges(v@, i as int, acc@) is None,
        }),
    decreases v@.len() - i,
{
    match range_at(v, i) {
        Some((rg, j)) => {
            let mut acc2 = acc;
            acc2.push(rg);
            if j < v.len() && v[j] == ',' {
                match range_at(v, j + 1) {
                    Some(_) => ranges_at(v, j + 1, acc2),
                    None => Some((acc2, j)),
                }
            } else {
                Some((acc2, j))
            }
        },
        None => None,
    }
}

fn parse_all(v: &Vec<char>) -> (r: Option<Vec<(u64, u64)>>)
    ensures
        (match r {
            Some(rgs) => parse_ranges(v@) == Some(rgs@),
            None => parse_ranges(v@) is None,
        }),
{
    let vl = v.len();
    match ranges_at(v, 0, Vec::new()) {
        Some((rgs, j)) => {
            let d = scan::line_end_at(v, j);
            if j + d == vl {
                Some(rgs)
            } else {
                None
            }
        },
        None => None,
    }
}

/// Sums the doubled ids of one range for one half-length `k`, where
/// `pw1 == 10^(k-1)` and `pw == 10^k`.
fn sum_for_k(s: u64, e: u64, pw1: u64, pw: u64, k: usize) -> (r: Option<u64>)
    requires
        1 <= k <= 10,
        pw1 == pow10(k as int - 1),
        pw == pow10(k as int),
    ensures
        (match r {
            Some(v) => v == contribution(s, e, k as int),
            None => contribution(s, e, k as int) > u64::MAX,
        }),
{
    proof {
        crate::day03::lemma_pow10_pos(k as int);
        crate::day03::lemma_pow10_pos(k as int - 1);
    }
    let m: u128 = pw as u128 + 1;
    let cl: u128 = (s as u128 + pw as u128) / m;
    let plo: u128 = if cl >= pw1 as u128 {
        cl
    } else {
        pw1 as u128
    };
    let fl: u128 = e as u128 / m;
    let phi: u128 = if fl <= pw as u128 - 1 {
        fl
    } else {
        pw as u128 - 1
    };
    assert(plo == p_lo(s, k as int));
    assert(phi == p_hi(e, k as int));
    proof {
        lemma_plo_nonneg(s, k as int);
    }
    if plo > phi {
        return Some(0);
    }
    let mut acc: u64 = 0;
    let mut p: u128 = plo;
    while p <= phi
        invariant
            plo <= p <= phi + 1,
            plo == p_lo(s, k as int),
            phi == p_hi(e, k as int),
            phi < pw,
            pw == pow10(k as int),
            m == pow10(k as int) + 1,
            1 <= k <= 10,
            acc + psum(k as int, p as int, phi as int) == psum(
                k as int,
                plo as int,
                phi as int,
            ),
            acc <= u64::MAX,
        decreases phi + 1 - p,
    {
        proof {
            assert(p * m <= phi * m) by (nonlinear_arith)
                requires 0 <= p <= phi, m >= 1,
            ;
            assert(phi * m <= e) by {
                vstd::arithmetic::div_mod::lemma_fundamental_div_mod(e as int, m as int);
                vstd::arithmetic::div_mod::lemma_mod_bound(e as int, m as int);
                assert(phi <= e as int / m as int);
                assert(phi * m <= (e as int / m as int) * m as int) by (nonlinear_arith)
                    requires 0 <= phi <= e as int / m as int, m >= 1,
                ;
            }
        }
        let term: u128 = p * m;
        let acc2: u128 = acc as u128 + term;
        if acc2 > u64::MAX as u128 {
            proof {
                lemma_psum_nonneg(k as int, p as int + 1, phi as int);
                assert(contribution(s, e, k as int) > u64::MAX);
            }
            return None;
        }
        acc = #[verifier::truncate] (acc2 as u64);
        p = p + 1;
    }
    Some(acc)
}

/// Sums the doubled ids inside every range.  A sum beyond 64 bits
/// cannot be reported.
pub fn part1(input: &str) -> (r: Result<u64, Error>)
    ensures
        (match parse_ranges(input@) {
            None => r == Err::<u64, Error>(Error::ParseError),
            Some(rgs) => {
                if total_invalid(rgs, 0) <= u64::MAX {
                    r == Ok::<u64, Error>(total_invalid(rgs, 0) as u64)
                } else {
                    r == Err::<u64, Error>(Error::UnsolvableError)
                }
            },
        }),
{
    let chars = scan::chars_of(input);
    let rgs = match parse_all(&chars) {
        Some(rgs) => rgs,
        None => {
            return Err(Error::ParseError);
        },
    };
    let n = rgs.len();
    let mut total: u64 = 0;
    let mut i: usize = 0;
    while i < n
        invariant
            i <= n,
            n == rgs@.len(),
            parse_ranges(input@) == Some(rgs@),
            total_invalid(rgs@, 0) == total + total_invalid(rgs@, i as int),
        decreases n - i,
    {
        let (s, e) = rgs[i];
        // one range: half-lengths one to ten
        let mut ksofar: u64 = 0;
        let mut pw1: u64 = 1;
        let mut k: usize = 1;
        let mut failed = false;
        while k <= 10
            invariant
                1 <= k <= 11,
                pw1 == pow10(k as int - 1),
                !failed ==> ksofar == ksum(s, e, k as int - 1),
                failed ==> ksum(s, e, 10) > u64::MAX,
            ensures
                !failed ==> ksofar == ksum(s, e, 10),
                failed ==> ksum(s, e, 10) > u64::MAX,
            decreases 10 - k + (if failed {
                0int
            } else {
                1int
            }),
        {
            if failed {
                break ;
            }
            proof {
                crate::day03::lemma_pow10_mono(k as int - 1, 9);
                assert(pow10(9) == 1_000_000_000) by {
                    reveal_with_fuel(pow10, 11);
                }
            }
            let pw: u64 = pw1 * 10;
            assert(pw == pow10(k as int));
            match sum_for_k(s, e, pw1, pw, k) {
                Some(v) => {
                    match ksofar.checked_add(v) {
                        Some(t2) => {
                            ksofar = t2;
                        },
                        None => {
                            proof {
                                assert(ksum(s, e, k as int) > u64::MAX);
                                lemma_ksum_mono(s, e, k as int, 10);
                            }
                            failed = true;
                        },
                    }
                },
                None => {
                    proof {
                        assert(ksum(s, e, k as int) > u64::MAX);
                        lemma_ksum_mono(s, e, k as int, 10);
                    }
                    failed = true;
                },
            }
            if !failed {
                k = k + 1;
                pw1 = pw;
            }
        }
        if failed {
            proof {
                lemma_total_nonneg(rgs@, i as int + 1);
                lemma_total_prefix_nonneg(rgs@, i as int);
            }
            return Err(Error::UnsolvableError);
        }
        match total.checked_add(ksofar) {
            Some(t2) => {
                total = t2;
            },
            None => {
                proof {
                    lemma_total_nonneg(rgs@, i as int + 1);
                }
                return Err(Error::UnsolvableError);
            },
        }
        i = i + 1;
    }
    Ok(total)
}

/// Later half-lengths never subtract from the sum.
proof fn lemma_ksum_mono(s: u64, e: u64, k: int, hi: int)
    requires
        0 <= k <= hi,
    ensures
        ksum(s, e, k) <= ksum(s, e, hi),
    decreases hi - k,
{
    if k < hi {
        lemma_ksum_mono(s, e, k, hi - 1);
        lemma_plo_nonneg(s, hi);
        if p_lo(s, hi) <= p_hi(e, hi) {
            lemma_psum_nonneg(hi, p_lo(s, hi), p_hi(e, hi));
        }
        assert(contribution(s, e, hi) >= 0);
    }
}

/// The sum over earlier ranges never exceeds the total.
proof fn lemma_total_prefix_nonneg(rgs: Seq<(u64, u64)>, i: int)
    requires
        0 <= i < rgs.len(),
    ensures
        ksum(rgs[i].0, rgs[i].1, 10) <= total_invalid(rgs, i),
{
    lemma_total_nonneg(rgs, i + 1);
}

/// The second part has no assignment: the answer is zero for any input.
pub fn part2(_input: &str) -> (r: Result<u64, Error>)
    ensures
        r == Ok::<u64, Error>(0u64),
{
    Ok(0)
}

} // verus!
