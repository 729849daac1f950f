//! Battery banks: lines of decimal digits, one digit per battery.
//!
//! From each bank a fixed number of batteries is chosen, keeping their
//! order; the chosen digits, read left to right, form a joltage number.
//! Each part reports the sum over all banks of the largest joltage that
//! can be formed: from two batteries in `part1`, from twelve in `part2`.

use vstd::prelude::*;

use crate::scan;
use crate::Error;

verus! {

/// Ten to the `k`.
pub open spec fn pow10(k: int) -> int
    decreases k,
{
    if k <= 0 {
        1
    } else {
        10 * pow10(k - 1)
    }
}

/// The largest number formed by `k` digits chosen in order from
/// `b[start..]`: either the first digit is taken or it is skipped.
pub open spec fn best_value(b: Seq<u8>, start: int, k: int) -> int
    decreases b.len() - start when 0 <= start && 0 <= k && start + k <= b.len()
{
    if k <= 0 {
        0
    } else if b.len() - start == k {
        b[start] * pow10(k - 1) + best_value(b, start + 1, k - 1)
    } else {
        let take = b[start] * pow10(k - 1) + best_value(b, start + 1, k - 1);
        let skip = best_value(b, start + 1, k);
        if take >= skip {
            take
        } else {
            skip
        }
    }
}

/// Every entry is a decimal digit.
pub open spec fn digits_ok(b: Seq<u8>) -> bool {
    forall|x: int| 0 <= x < b.len() ==> b[x] <= 9
}

pub proof fn lemma_pow10_pos(k: int)
    ensures
        pow10(k) >= 1,
    decreases k,
{
    if k > 0 {
        lemma_pow10_pos(k - 1);
    }
}

pub proof fn lemma_best_nonneg(b: Seq<u8>, s: int, k: int)
    requires
        0 <= s,
        0 <= k,
        s + k <= b.len(),
    ensures
        best_value(b, s, k) >= 0,
    decreases b.len() - s,
{
    if k > 0 {
        lemma_best_nonneg(b, s + 1, k - 1);
        lemma_pow10_pos(k - 1);
        assert(b[s] * pow10(k - 1) >= 0) by (nonlinear_arith)
            requires b[s] >= 0, pow10(k - 1) >= 1,
        ;
        if b.len() - s > k {
            lemma_best_nonneg(b, s + 1, k);
        }
    }
}

pub proof fn lemma_best_upper(b: Seq<u8>, s: int, k: int)
    requires
        digits_ok(b),
        0 <= s,
        0 <= k,
        s + k <= b.len(),
    ensures
        best_value(b, s, k) <= pow10(k) - 1,
    decreases b.len() - s,
{
    if k > 0 {
        lemma_best_upper(b, s + 1, k - 1);
        lemma_pow10_pos(k - 1);
        assert(b[s] * pow10(k - 1) <= 9 * pow10(k - 1)) by (nonlinear_arith)
            requires b[s] <= 9, pow10(k - 1) >= 1,
        ;
        if b.len() - s > k {
            lemma_best_upper(b, s + 1, k);
        }
    }
}

/// A larger suffix offers every choice a smaller one does.
proof fn lemma_best_mono_start(b: Seq<u8>, s1: int, s2: int, k: int)
    requires
        0 <= s1 <= s2,
        0 <= k,
        s2 + k <= b.len(),
    ensures
        best_value(b, s1, k) >= best_value(b, s2, k),
    decreases s2 - s1,
{
    if s1 < s2 && k > 0 {
        lemma_best_mono_start(b, s1 + 1, s2, k);
    }
}

/// When `m` bounds every digit still eligible as the first pick, the best
/// value is at most `m` in front of the best of one digit fewer.
proof fn lemma_dom(b: Seq<u8>, s: int, rem: int, m: u8)
    requires
        digits_ok(b),
        1 <= rem,
        0 <= s,
        s + rem <= b.len(),
        forall|x: int| s <= x < b.len() - rem + 1 ==> b[x] <= m,
    ensures
        best_value(b, s, rem) <= m * pow10(rem - 1) + best_value(b, s, rem - 1),
    decreases b.len() - s,
{
    lemma_pow10_pos(rem - 1);
    let p = pow10(rem - 1);
    assert(b[s] * p <= m * p) by (nonlinear_arith)
        requires b[s] <= m, p >= 1,
    ;
    lemma_best_mono_start(b, s, s + 1, rem - 1);
    if b.len() - s > rem {
        lemma_dom(b, s + 1, rem, m);
        lemma_best_mono_start(b, s, s + 1, rem - 1);
    }
}

/// The greedy choice is optimal: picking the leftmost maximal digit of
/// the eligible window, then the best continuation, gives the best value.
proof fn lemma_greedy_step(b: Seq<u8>, pos: int, rem: int, ix: int)
    requires
        digits_ok(b),
        1 <= rem,
        0 <= pos <= ix,
        pos + rem <= b.len(),
        ix + rem <= b.len(),
        forall|x: int| pos <= x < b.len() - rem + 1 ==> b[x] <= b[ix],
        forall|x: int| pos <= x < ix ==> b[x] < b[ix],
    ensures
        best_value(b, pos, rem) == b[ix] * pow10(rem - 1) + best_value(b, ix + 1, rem - 1),
    decreases ix - pos,
{
    let p = pow10(rem - 1);
    lemma_pow10_pos(rem - 1);
    if pos == ix {
        if b.len() - pos == rem {
        } else {
            // skipping the maximal digit cannot help
            lemma_dom(b, pos + 1, rem, b[ix]);
            lemma_best_mono_start(b, pos, pos + 1, rem - 1);
        }
    } else {
        // the first digit is strictly smaller: taking it loses to any
        // value that starts with the maximum
        lemma_greedy_step(b, pos + 1, rem, ix);
        lemma_best_upper(b, pos + 1, rem - 1);
        lemma_best_nonneg(b, ix + 1, rem - 1);
        assert(b[pos] * p <= (b[ix] - 1) * p) by (nonlinear_arith)
            requires b[pos] <= b[ix] - 1, p >= 1,
        ;
        assert((b[ix] - 1) * p == b[ix] * p - p) by (nonlinear_arith);
    }
}

/// The largest joltage from choosing `batteries_to_use` batteries of the
/// bank in order.
pub fn get_max_joltage(battery_bank: &Vec<u8>, batteries_to_use: usize) -> (r: u64)
    requires
        batteries_to_use <= battery_bank@.len(),
        batteries_to_use <= 19,
        digits_ok(battery_bank@),
    ensures
        r == best_value(battery_bank@, 0, batteries_to_use as int),
{
    let b = battery_bank;
    let n = b.len();
    let k = batteries_to_use;
    let mut acc: u64 = 0;
    let mut pos: usize = 0;
    let mut rem: usize = k;
    proof {
        lemma_pow10_pos(0);
    }
    while rem > 0
        invariant
            pos + rem <= n,
            n == b@.len(),
            rem <= k <= 19,
            k <= n,
            digits_ok(b@),
            acc <= pow10(k as int - rem as int) - 1,
            best_value(b@, 0, k as int) == acc * pow10(rem as int) + best_value(
                b@,
                pos as int,
                rem as int,
            ),
        decreases rem,
    {
        let hi = n - rem + 1;
        let mut ix = pos;
        let mut m = b[pos];
        let mut x = pos + 1;
        while x < hi
            invariant
                pos <= ix < x <= hi,
                hi <= n,
                n == b@.len(),
                m == b@[ix as int],
                forall|y: int| pos <= y < x ==> b@[y] <= m,
                forall|y: int| pos <= y < ix ==> b@[y] < m,
            decreases hi - x,
        {
            if b[x] > m {
                ix = x;
                m = b[x];
            }
            x = x + 1;
        }
        proof {
            lemma_greedy_step(b@, pos as int, rem as int, ix as int);
            lemma_pow10_pos(rem as int - 1);
            assert(pow10(rem as int) == 10 * pow10(rem as int - 1));
            // the running value stays below ten to the digits taken
            assert(acc * pow10(rem as int) == (acc * 10) * pow10(rem as int - 1))
                by (nonlinear_arith)
                requires pow10(rem as int) == 10 * pow10(rem as int - 1),
            ;
            assert((acc * 10 + m) * pow10(rem as int - 1) == (acc * 10) * pow10(rem as int - 1) + m
                * pow10(rem as int - 1)) by (nonlinear_arith);
            assert(acc * 10 + 9 <= pow10(k as int - rem as int + 1) - 1) by (nonlinear_arith)
                requires acc <= pow10(k as int - rem as int) - 1, pow10(k as int - rem as int + 1) == 10 * pow10(k as int - rem as int),
            ;
            lemma_pow10_bound19(k as int - rem as int + 1);
        }
        acc = acc * 10 + m as u64;
        pos = ix + 1;
        rem = rem - 1;
    }
    proof {
        assert(best_value(b@, pos as int, 0) == 0);
        assert(pow10(0) == 1);
        assert(acc * pow10(0) == acc) by (nonlinear_arith)
            requires pow10(0) == 1,
        ;
        assert(best_value(b@, 0, k as int) == acc);
    }
    acc
}

/// Ten to the nineteenth still fits in 64 bits.
pub proof fn lemma_pow10_bound19(k: int)
    requires
        k <= 19,
    ensures
        pow10(k) - 1 <= u64::MAX,
    decreases k,
{
    if k >= 1 {
        lemma_pow10_bound19(k - 1);
        assert(pow10(19) == 10_000_000_000_000_000_000) by {
            reveal_with_fuel(pow10, 21);
        }
        lemma_pow10_mono(k, 19);
    }
}

pub proof fn lemma_pow10_mono(j: int, k: int)
    requires
        j <= k,
    ensures
        pow10(j) <= pow10(k),
    decreases k - j,
{
    if j < k {
        lemma_pow10_mono(j, k - 1);
        lemma_pow10_pos(k - 1);
    }
}

/// One line of digit batteries.
pub open spec fn sp_bank(s: Seq<char>, i: int, acc: Seq<u8>) -> Option<(Seq<u8>, int)>
    decreases s.len() - i when 0 <= i <= s.len()
{
    if i < s.len() && scan::is_digit(s[i]) {
        sp_bank(s, i + 1, acc.push(scan::digit_val(s[i]) as u8))
    } else {
        if acc.len() == 0 {
            None
        } else {
            Some((acc, i))
        }
    }
}

/// Banks separated by line endings; the list continues only while a
/// separator is followed by another digit.
pub open spec fn sp_banks(s: Seq<char>, i: int, acc: Seq<Seq<u8>>) -> Option<(Seq<Seq<u8>>, int)>
    decreases s.len() - i when 0 <= i <= s.len()
{
    match sp_bank(s, i, Seq::empty()) {
        Some((b, j)) => {
            let acc2 = acc.push(b);
            let d = scan::line_end_len(s, j);
            if i < j && j + d <= s.len() && d > 0 && j + d < s.len() && scan::is_digit(s[j + d]) {
                sp_banks(s, j + d, acc2)
            } else {
                Some((acc2, j))
            }
        },
        None => None,
    }
}

/// The whole input: banks, an optional trailing line ending, nothing else.
pub open spec fn parse_banks(s: Seq<char>) -> Option<Seq<Seq<u8>>> {
    match sp_banks(s, 0, Seq::empty()) {
        Some((banks, j)) => if j + scan::line_end_len(s, j) == s.len() {
            Some(banks)
        } else {
            None
        },
        None => None,
    }
}

fn bank_at(v: &Vec<char>, i: usize, acc: Vec<u8>) -> (r: Option<(Vec<u8>, usize)>)
    requires
        i <= v@.len(),
        digits_ok(acc@),
    ensures
        (match r {
            Some(p) => i <= p.1 <= v@.len() && sp_bank(v@, i as int, acc@) == Some(
                (p.0@, p.1 as int),
            ) && digits_ok(p.0@),
            None => sp_bank(v@, i as int, acc@) is None,
        }),
    decreases v@.len() - i,
{
    if i < v.len() {
        let c = v[i];
        let d = #[verifier::truncate] (c as u32);
        if 48 <= d && d <= 57 {
            let mut acc2 = acc;
            acc2.push((d - 48) as u8);
            return bank_at(v, i + 1, acc2);
        }
    }
    if acc.len() == 0 {
        None
    } else {
        Some((acc, i))
    }
}

/// Spec views of parsed banks.
pub open spec fn bank_views(banks: Seq<Vec<u8>>) -> Seq<Seq<u8>> {
    banks.map_values(|b: Vec<u8>| b@)
}

fn banks_at(v: &Vec<char>, i: usize, acc: Vec<Vec<u8>>) -> (r: Option<(Vec<Vec<u8>>, usize)>)
    requires
        i <= v@.len(),
        forall|x: int| 0 <= x < acc@.len() ==> digits_ok(#[trigger] acc@[x]@),
    ensures
        (match r {
            Some(p) => {
                &&& p.1 <= v@.len()
                &&& sp_banks(v@, i as int, bank_views(acc@)) == Some(
                    (bank_views(p.0@), p.1 as int),
                )
                &&& forall|x: int| 0 <= x < p.0@.len() ==> digits_ok(#[trigger] p.0@[x]@)
            },
            None => sp_banks(v@, i as int, bank_views(acc@)) is None,
        }),
    decreases v@.len() - i,
{
    let vl = v.len();
    match bank_at(v, i, Vec::new()) {
        Some((b, j)) => {
            let ghost old_views = bank_views(acc@);
            let mut acc2 = acc;
            acc2.push(b);
            proof {
                assert(bank_views(acc2@) =~= old_views.push(acc2@[acc2@.len() - 1]@));
            }
            let d = scan::line_end_at(v, j);
            if d > 0 && j + d < vl {
                let c = v[j + d];
                let dd = #[verifier::truncate] (c as u32);
                if 48 <= dd && dd <= 57 {
                    return banks_at(v, j + d, acc2);
                }
            }
            Some((acc2, j))
        },
        None => None,
    }
}

fn parse_all(v: &Vec<char>) -> (r: Option<Vec<Vec<u8>>>)
    ensures
        (match r {
            Some(banks) => parse_banks(v@) == Some(bank_views(banks@)) && forall|x: int|
                0 <= x < banks@.len() ==> digits_ok(#[trigger] banks@[x]@),
            None => parse_banks(v@) is None,
        }),
{
    proof {
        assert(bank_views(Seq::<Vec<u8>>::empty()) =~= Seq::<Seq<u8>>::empty());
    }
    let vl = v.len();
    match banks_at(v, 0, Vec::new()) {
        Some((banks, j)) => {
            let d = scan::line_end_at(v, j);
            if j + d == vl {
                Some(banks)
            } else {
                None
            }
        },
        None => None,
    }
}

/// Sum over banks `i..` of the best `need`-battery joltage.
pub open spec fn total_best(banks: Seq<Seq<u8>>, i: int, need: int) -> int
    decreases banks.len() - i when 0 <= i <= banks.len()
{
    if i >= banks.len() {
        0
    } else {
        best_value(banks[i], 0, need) + total_best(banks, i + 1, need)
    }
}

/// Every bank holds at least `need` batteries.
pub open spec fn banks_ok(banks: Seq<Seq<u8>>, need: int) -> bool {
    forall|k: int| 0 <= k < banks.len() ==> (#[trigger] banks[k]).len() >= need
}

proof fn lemma_total_best_nonneg(banks: Seq<Seq<u8>>, i: int, need: int)
    requires
        0 <= i <= banks.len(),
        0 <= need,
        banks_ok(banks, need),
    ensures
        total_best(banks, i, need) >= 0,
    decreases banks.len() - i,
{
    if i < banks.len() {
        lemma_best_nonneg(banks[i], 0, need);
        lemma_total_best_nonneg(banks, i + 1, need);
    }
}

/// Sums each bank's best `need`-battery joltage; a bank with fewer than
/// `need` batteries, or a sum beyond 64 bits, cannot be answered.
fn solve(input: &str, need: usize) -> (r: Result<u64, Error>)
    requires
        2 <= need <= 19,
    ensures
        (match parse_banks(input@) {
            None => r == Err::<u64, Error>(Error::ParseError),
            Some(banks) => {
                if banks_ok(banks, need as int) && total_best(banks, 0, need as int) <= u64::MAX {
                    r == Ok::<u64, Error>(total_best(banks, 0, need as int) as u64)
                } else {
                    r == Err::<u64, Error>(Error::UnsolvableError)
                }
            },
        }),
{
    let chars = scan::chars_of(input);
    let banks = match parse_all(&chars) {
        Some(b) => b,
        None => {
            return Err(Error::ParseError);
        },
    };
    let ghost bs = bank_views(banks@);
    let n = banks.len();
    let mut total: u64 = 0;
    let mut k: usize = 0;
    while k < n
        invariant
            k <= n,
            n == banks@.len(),
            bs == bank_views(banks@),
            parse_banks(input@) == Some(bs),
            2 <= need <= 19,
            forall|x: int| 0 <= x < banks@.len() ==> digits_ok(#[trigger] banks@[x]@),
            forall|x: int| 0 <= x < k ==> (#[trigger] bs[x]).len() >= need,
            total_best(bs, 0, need as int) == total + total_best(bs, k as int, need as int),
        decreases n - k,
    {
        let bank = &banks[k];
        assert(bank@ == bs[k as int]);
        if bank.len() < need {
            assert(!banks_ok(bs, need as int));
            return Err(Error::UnsolvableError);
        }
        let v = get_max_joltage(bank, need);
        match total.checked_add(v) {
            Some(t2) => {
                total = t2;
            },
            None => {
                proof {
                    if banks_ok(bs, need as int) {
                        lemma_total_best_nonneg(bs, k as int + 1, need as int);
                        lemma_best_nonneg(bs[k as int], 0, need as int);
                        assert(total_best(bs, 0, need as int) > u64::MAX);
                    }
                }
                return Err(Error::UnsolvableError);
            },
        }
        k = k + 1;
    }
    assert(banks_ok(bs, need as int));
    Ok(total)
}

/// Best two-battery joltage per bank, summed.
pub fn part1(input: &str) -> (r: Result<u64, Error>)
    ensures
        (match parse_banks(input@) {
            None => r == Err::<u64, Error>(Error::ParseError),
            Some(banks) => {
                if banks_ok(banks, 2) && total_best(banks, 0, 2) <= u64::MAX {
                    r == Ok::<u64, Error>(total_best(banks, 0, 2) as u64)
                } else {
                    r == Err::<u64, Error>(Error::UnsolvableError)
                }
            },
        }),
{
    solve(input, 2)
}

/// Best twelve-battery joltage per bank, summed.
pub fn part2(input: &str) -> (r: Result<u64, Error>)
    ensures
        (match parse_banks(input@) {
            None => r == Err::<u64, Error>(Error::ParseError),
            Some(banks) => {
                if banks_ok(banks, 12) && total_best(banks, 0, 12) <= u64::MAX {
                    r == Ok::<u64, Error>(total_best(banks, 0, 12) as u64)
                } else {
                    r == Err::<u64, Error>(Error::UnsolvableError)
                }
            },
        }),
{
    solve(input, 12)
}

} // verus!
