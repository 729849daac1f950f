//! Minimum-press search: the fewest button presses, buttons reusable, that
//! raise every wire from zero to exactly its joltage target.
//!
//! Presses only add, so the order of presses never matters: a plan is a
//! per-button press-count vector, and the search's contract states exact
//! minimality of the total press count over all such vectors.

use vstd::prelude::*;

use crate::day10::{bit, JoltageState, Machine, MachineV};

verus! {

/// Total presses in a per-button press-count vector.
pub open spec fn sum_counts(c: Seq<int>) -> int
    decreases c.len(),
{
    if c.len() == 0 {
        0
    } else {
        c[0] + sum_counts(c.drop_first())
    }
}

/// The joltage that pressing `buttons[i..]` per `c` puts on wire `w`.
pub open spec fn applied(buttons: Seq<u64>, i: int, c: Seq<int>, w: int) -> int
    decreases buttons.len() - i when 0 <= i <= buttons.len()
{
    if i >= buttons.len() {
        0
    } else {
        (if 0 < c.len() && bit(buttons[i], w) {
            c[0]
        } else {
            0
        }) + applied(buttons, i + 1, c.drop_first(), w)
    }
}

/// A press-count vector for `buttons[i..]` that yields exactly the
/// target joltage `t`.
pub open spec fn counts_ok(buttons: Seq<u64>, i: int, c: Seq<int>, t: Seq<u64>) -> bool {
    &&& c.len() == buttons.len() - i
    &&& forall|j: int| 0 <= j < c.len() ==> c[j] >= 0
    &&& forall|w: int| 0 <= w < t.len() ==> applied(buttons, i, c, w) == t[w]
}

/// Sum of the first `k` wires' targets.
pub open spec fn sum_prefix(t: Seq<u64>, k: int) -> int
    decreases k,
{
    if k <= 0 {
        0
    } else {
        sum_prefix(t, k - 1) + t[k - 1]
    }
}

/// Every index the button names lies below `rank`.
pub open spec fn button_fits(mask: u64, rank: int) -> bool {
    forall|w: int| bit(mask, w) ==> w < rank
}

/// Buttons from `i` on are non-empty and name only wires below `rank`.
pub open spec fn valid_from(buttons: Seq<u64>, i: int, rank: int) -> bool {
    forall|j: int|
        i <= j < buttons.len() ==> buttons[j] != 0 && button_fits(#[trigger] buttons[j], rank)
}

/// Joltage put on wires `0..rank` in total, by `buttons[i..]` under `c`.
pub open spec fn applied_total(buttons: Seq<u64>, i: int, c: Seq<int>, rank: int) -> int
    decreases rank,
{
    if rank <= 0 {
        0
    } else {
        applied_total(buttons, i, c, rank - 1) + applied(buttons, i, c, rank - 1)
    }
}

/// Joltage put on wires `0..rank` by `c0` presses of one button.
pub open spec fn head_total(mask: u64, c0: int, rank: int) -> int
    decreases rank,
{
    if rank <= 0 {
        0
    } else {
        head_total(mask, c0, rank - 1) + (if bit(mask, rank - 1) {
            c0
        } else {
            0
        })
    }
}

pub proof fn lemma_sum_counts_nonneg(c: Seq<int>)
    requires
        forall|j: int| 0 <= j < c.len() ==> c[j] >= 0,
    ensures
        sum_counts(c) >= 0,
    decreases c.len(),
{
    if c.len() > 0 {
        assert forall|j: int| 0 <= j < c.drop_first().len() implies c.drop_first()[j] >= 0 by {
            assert(c.drop_first()[j] == c[j + 1]);
        }
        lemma_sum_counts_nonneg(c.drop_first());
    }
}

pub proof fn lemma_applied_nonneg(buttons: Seq<u64>, i: int, c: Seq<int>, w: int)
    requires
        0 <= i <= buttons.len(),
        c.len() == buttons.len() - i,
        forall|j: int| 0 <= j < c.len() ==> c[j] >= 0,
    ensures
        applied(buttons, i, c, w) >= 0,
    decreases buttons.len() - i,
{
    if i < buttons.len() {
        assert forall|j: int| 0 <= j < c.drop_first().len() implies c.drop_first()[j] >= 0 by {
            assert(c.drop_first()[j] == c[j + 1]);
        }
        lemma_applied_nonneg(buttons, i + 1, c.drop_first(), w);
    }
}

/// Every nonzero mask names some index.
pub proof fn lemma_nonzero_has_bit(m: u64)
    requires
        m != 0,
    ensures
        exists|w: int| 0 <= w < 64 && bit(m, w),
    decreases m,
{
    if m & 1 == 1 {
        assert((m >> 0u64) & 1 == m & 1) by (bit_vector);
        assert(bit(m, 0));
    } else {
        let m2 = m >> 1u64;
        assert(m != 0 && m & 1 != 1 ==> (m >> 1u64) != 0 && (m >> 1u64) < m) by (bit_vector);
        lemma_nonzero_has_bit(m2);
        let w2 = choose|w: int| 0 <= w < 64 && bit(m2, w);
        assert(((m >> 1u64) >> 63u64) & 1 == 0) by (bit_vector);
        assert(w2 < 63);
        let wu = w2 as u64;
        assert(wu < 63 ==> ((m >> 1u64) >> wu) & 1 == (m >> (wu + 1)) & 1) by (bit_vector);
        assert(bit(m, w2 + 1));
    }
}

pub proof fn lemma_head_total_nonneg(mask: u64, c0: int, rank: int)
    requires
        c0 >= 0,
    ensures
        head_total(mask, c0, rank) >= 0,
    decreases rank,
{
    if rank > 0 {
        lemma_head_total_nonneg(mask, c0, rank - 1);
    }
}

/// One press of a button that names wire `w < rank` contributes at least
/// once to the total over `0..rank`.
pub proof fn lemma_head_total_ge_at(mask: u64, c0: int, rank: int, w: int)
    requires
        c0 >= 0,
        0 <= w < rank,
        bit(mask, w),
    ensures
        head_total(mask, c0, rank) >= c0,
    decreases rank,
{
    if w == rank - 1 {
        lemma_head_total_nonneg(mask, c0, rank - 1);
    } else {
        lemma_head_total_ge_at(mask, c0, rank - 1, w);
    }
}

proof fn lemma_applied_total_zero(buttons: Seq<u64>, i: int, c: Seq<int>, rank: int)
    requires
        i == buttons.len(),
    ensures
        applied_total(buttons, i, c, rank) == 0,
    decreases rank,
{
    if rank > 0 {
        lemma_applied_total_zero(buttons, i, c, rank - 1);
    }
}

/// The total over wires splits into the first button's share and the rest.
proof fn lemma_applied_total_cons(buttons: Seq<u64>, i: int, c: Seq<int>, rank: int)
    requires
        0 <= i < buttons.len(),
        0 < c.len(),
    ensures
        applied_total(buttons, i, c, rank) == head_total(buttons[i], c[0], rank) + applied_total(
            buttons,
            i + 1,
            c.drop_first(),
            rank,
        ),
    decreases rank,
{
    if rank > 0 {
        lemma_applied_total_cons(buttons, i, c, rank - 1);
    }
}

/// Each press adds at least one unit of joltage, so the total press count
/// is at most the total joltage produced.
proof fn lemma_sum_counts_le_total(buttons: Seq<u64>, i: int, c: Seq<int>, rank: int)
    requires
        0 <= i <= buttons.len(),
        c.len() == buttons.len() - i,
        forall|j: int| 0 <= j < c.len() ==> c[j] >= 0,
        valid_from(buttons, i, rank),
    ensures
        sum_counts(c) <= applied_total(buttons, i, c, rank),
    decreases buttons.len() - i,
{
    if i == buttons.len() {
        lemma_applied_total_zero(buttons, i, c, rank);
    } else {
        let rest = c.drop_first();
        assert forall|j: int| 0 <= j < rest.len() implies rest[j] >= 0 by {
            assert(rest[j] == c[j + 1]);
        }
        lemma_sum_counts_le_total(buttons, i + 1, rest, rank);
        lemma_applied_total_cons(buttons, i, c, rank);
        assert(buttons[i] != 0);
        lemma_nonzero_has_bit(buttons[i]);
        let w = choose|w: int| 0 <= w < 64 && bit(buttons[i], w);
        assert(w < rank);
        lemma_head_total_ge_at(buttons[i], c[0], rank, w);
    }
}

/// A plan's total joltage over `0..rank` equals the sum of what it puts on
/// each wire, so when it meets `t` exactly the totals agree.
proof fn lemma_total_matches_target(buttons: Seq<u64>, i: int, c: Seq<int>, t: Seq<u64>, rank: int)
    requires
        counts_ok(buttons, i, c, t),
        0 <= i <= buttons.len(),
        0 <= rank <= t.len(),
    ensures
        applied_total(buttons, i, c, rank) == sum_prefix(t, rank),
    decreases rank,
{
    if rank > 0 {
        lemma_total_matches_target(buttons, i, c, t, rank - 1);
    }
}

pub proof fn lemma_sum_prefix_nonneg(t: Seq<u64>, k: int)
    ensures
        sum_prefix(t, k) >= 0,
    decreases k,
{
    if k > 0 {
        lemma_sum_prefix_nonneg(t, k - 1);
    }
}

pub proof fn lemma_sum_prefix_bound(t: Seq<u64>, k: int)
    requires
        0 <= k,
    ensures
        sum_prefix(t, k) <= k * (u64::MAX as int),
    decreases k,
{
    if k <= 0 {
    } else {
        lemma_sum_prefix_bound(t, k - 1);
        assert((k - 1) * (u64::MAX as int) + (u64::MAX as int) == k * (u64::MAX as int))
            by (nonlinear_arith);
    }
}

/// The press count of any exact plan is at most the target's total.
pub proof fn lemma_plan_le_target(buttons: Seq<u64>, i: int, c: Seq<int>, t: Seq<u64>)
    requires
        0 <= i <= buttons.len(),
        counts_ok(buttons, i, c, t),
        valid_from(buttons, i, t.len() as int),
    ensures
        sum_counts(c) <= sum_prefix(t, t.len() as int),
{
    lemma_sum_counts_le_total(buttons, i, c, t.len() as int);
    lemma_total_matches_target(buttons, i, c, t, t.len() as int);
}

/// Prepending `c0` presses of the next button to a plan for the reduced
/// target gives a plan for the full target.
proof fn lemma_counts_compose(
    buttons: Seq<u64>,
    i: int,
    tail: Seq<int>,
    c0: int,
    t: Seq<u64>,
    cur: Seq<u64>,
)
    requires
        0 <= i < buttons.len(),
        counts_ok(buttons, i + 1, tail, cur),
        c0 >= 0,
        cur.len() == t.len(),
        forall|w: int|
            0 <= w < t.len() ==> cur[w] as int == t[w] as int - (if bit(buttons[i], w) {
                c0
            } else {
                0
            }),
    ensures
        counts_ok(buttons, i, seq![c0] + tail, t),
        sum_counts(seq![c0] + tail) == c0 + sum_counts(tail),
        (seq![c0] + tail)[0] == c0,
{
    let cc = seq![c0] + tail;
    assert(cc.drop_first() =~= tail);
    assert forall|w: int| 0 <= w < t.len() implies applied(buttons, i, cc, w) == t[w] by {
        assert(applied(buttons, i + 1, tail, w) == cur[w]);
    }
}

/// Splitting a plan for the full target into its first button's presses
/// and a plan for the reduced target.
proof fn lemma_counts_decompose(
    buttons: Seq<u64>,
    i: int,
    cc: Seq<int>,
    t: Seq<u64>,
    cur: Seq<u64>,
)
    requires
        0 <= i < buttons.len(),
        counts_ok(buttons, i, cc, t),
        cur.len() == t.len(),
        forall|w: int|
            0 <= w < t.len() ==> cur[w] as int == t[w] as int - (if bit(buttons[i], w) {
                cc[0]
            } else {
                0
            }),
    ensures
        counts_ok(buttons, i + 1, cc.drop_first(), cur),
        sum_counts(cc) == cc[0] + sum_counts(cc.drop_first()),
{
    let tail = cc.drop_first();
    assert forall|j: int| 0 <= j < tail.len() implies tail[j] >= 0 by {
        assert(tail[j] == cc[j + 1]);
    }
    assert forall|w: int| 0 <= w < cur.len() implies applied(buttons, i + 1, tail, w)
        == cur[w] by {
        assert(applied(buttons, i, cc, w) == t[w]);
    }
}

/// In any exact plan, the first button is pressed at most `t[w]` times for
/// each wire `w` it names.
proof fn lemma_head_le(buttons: Seq<u64>, i: int, cc: Seq<int>, t: Seq<u64>, w: int)
    requires
        0 <= i < buttons.len(),
        counts_ok(buttons, i, cc, t),
        0 <= w < t.len(),
        bit(buttons[i], w),
    ensures
        cc[0] <= t[w],
{
    let tail = cc.drop_first();
    assert forall|j: int| 0 <= j < tail.len() implies tail[j] >= 0 by {
        assert(tail[j] == cc[j + 1]);
    }
    lemma_applied_nonneg(buttons, i + 1, tail, w);
    assert(applied(buttons, i, cc, w) == t[w]);
}

/// `t` with the per-wire drop of `c0` presses has total smaller by the
/// button's share.
proof fn lemma_sum_prefix_sub(t: Seq<u64>, cur: Seq<u64>, mask: u64, c0: int, rank: int)
    requires
        cur.len() == t.len(),
        0 <= rank <= t.len(),
        forall|w: int|
            0 <= w < t.len() ==> cur[w] as int == t[w] as int - (if bit(mask, w) {
                c0
            } else {
                0
            }),
    ensures
        sum_prefix(cur, rank) == sum_prefix(t, rank) - head_total(mask, c0, rank),
    decreases rank,
{
    if rank > 0 {
        lemma_sum_prefix_sub(t, cur, mask, c0, rank - 1);
    }
}

fn copy_vec(t: &Vec<u64>) -> (r: Vec<u64>)
    ensures
        r@ == t@,
{
    let mut r: Vec<u64> = Vec::new();
    let mut i: usize = 0;
    while i < t.len()
        invariant
            i <= t@.len(),
            r@ == t@.take(i as int),
        decreases t@.len() - i,
    {
        r.push(t[i]);
        proof {
            assert(r@ =~= t@.take(i + 1));
        }
        i = i + 1;
    }
    proof {
        assert(t@.take(t@.len() as int) =~= t@);
    }
    r
}

fn all_zero(t: &Vec<u64>) -> (r: bool)
    ensures
        r == (forall|w: int| 0 <= w < t@.len() ==> t@[w] == 0u64),
{
    let mut i: usize = 0;
    while i < t.len()
        invariant
            i <= t@.len(),
            forall|w: int| 0 <= w < i ==> t@[w] == 0u64,
        decreases t@.len() - i,
    {
        if t[i] != 0 {
            return false;
        }
        i = i + 1;
    }
    true
}

/// Some index the mask names.
fn find_bit(mask: u64) -> (w: usize)
    requires
        mask != 0,
    ensures
        w < 64,
        bit(mask, w as int),
{
    let mut w: usize = 0;
    while w < 64
        invariant
            w <= 64,
            forall|x: int| 0 <= x < w ==> !bit(mask, x),
        decreases 64 - w,
    {
        let wu = w as u64;
        if (mask >> wu) & 1 == 1 {
            return w;
        }
        w = w + 1;
    }
    proof {
        lemma_nonzero_has_bit(mask);
    }
    assert(false);
    0
}

/// Whether one more press of `mask` stays within target `t`.
fn can_subtract(t: &Vec<u64>, mask: u64) -> (r: bool)
    ensures
        r == (forall|w: int| 0 <= w < t@.len() && bit(mask, w) ==> t@[w] >= 1),
{
    let mut w: usize = 0;
    let lim = if t.len() < 64 {
        t.len()
    } else {
        64
    };
    while w < lim
        invariant
            w <= lim,
            lim <= t@.len(),
            lim <= 64,
            lim >= 64 || lim == t@.len(),
            forall|x: int| 0 <= x < w && bit(mask, x) ==> t@[x] >= 1,
        decreases lim - w,
    {
        let wu = w as u64;
        if (mask >> wu) & 1 == 1 {
            assert(bit(mask, w as int));
            if t[w] == 0 {
                return false;
            }
        }
        w = w + 1;
    }
    true
}

/// One press of `mask` taken off the remaining target.
fn subtract(t: &Vec<u64>, mask: u64) -> (r: Vec<u64>)
    requires
        forall|w: int| 0 <= w < t@.len() && bit(mask, w) ==> t@[w] >= 1,
    ensures
        r@.len() == t@.len(),
        forall|w: int|
            0 <= w < t@.len() ==> r@[w] as int == t@[w] as int - (if bit(mask, w) {
                1int
            } else {
                0int
            }),
{
    let mut r: Vec<u64> = Vec::new();
    let mut w: usize = 0;
    while w < t.len()
        invariant
            w <= t@.len(),
            forall|x: int| 0 <= x < t@.len() && bit(mask, x) ==> t@[x] >= 1,
            r@.len() == w,
            forall|x: int|
                0 <= x < w ==> r@[x] as int == t@[x] as int - (if bit(mask, x) {
                    1int
                } else {
                    0int
                }),
        decreases t@.len() - w,
    {
        let cur = t[w];
        if w < 64 {
            let wu = w as u64;
            if (mask >> wu) & 1 == 1 {
                assert(bit(mask, w as int));
                r.push(cur - 1);
            } else {
                assert(!bit(mask, w as int));
                r.push(cur);
            }
        } else {
            assert(!bit(mask, w as int));
            r.push(cur);
        }
        w = w + 1;
    }
    r
}

/// Minimum total press count over all exact plans for `buttons[i..]` and
/// target `t`, or `None` when no plan is exact.
fn search_joltage(buttons: &Vec<u64>, i: usize, t: &Vec<u64>) -> (r: Option<u128>)
    requires
        i <= buttons@.len(),
        valid_from(buttons@, i as int, t@.len() as int),
    ensures
        (match r {
            Some(k) => {
                &&& exists|c: Seq<int>|
                    counts_ok(buttons@, i as int, c, t@) && sum_counts(c) == k
                &&& forall|c: Seq<int>|
                    counts_ok(buttons@, i as int, c, t@) ==> sum_counts(c) >= k
                &&& k <= sum_prefix(t@, t@.len() as int)
            },
            None => forall|c: Seq<int>| !counts_ok(buttons@, i as int, c, t@),
        }),
    decreases buttons@.len() - i,
{
    let n = buttons.len();
    if i == n {
        if all_zero(t) {
            proof {
                let c0 = Seq::<int>::empty();
                assert forall|w: int| 0 <= w < t@.len() implies applied(
                    buttons@,
                    i as int,
                    c0,
                    w,
                ) == t@[w] by {}
                assert(counts_ok(buttons@, i as int, c0, t@));
                assert(sum_counts(c0) == 0);
                assert forall|c: Seq<int>|
                    counts_ok(buttons@, i as int, c, t@) implies sum_counts(c) >= 0 by {
                    lemma_sum_counts_nonneg(c);
                }
                lemma_sum_prefix_nonneg(t@, t@.len() as int);
            }
            Some(0)
        } else {
            proof {
                let bad = choose|w: int| 0 <= w < t@.len() && t@[w] != 0u64;
                assert forall|c: Seq<int>| !counts_ok(buttons@, i as int, c, t@) by {
                    if counts_ok(buttons@, i as int, c, t@) {
                        assert(applied(buttons@, i as int, c, bad) == t@[bad]);
                    }
                }
            }
            None
        }
    } else {
        let mask = buttons[i];
        assert(mask != 0);
        let w0 = find_bit(mask);
        assert(w0 < t.len()) by {
            assert(button_fits(buttons@[i as int], t@.len() as int));
        }
        let ghost rank = t@.len() as int;
        let tl = t.len();
        assert(rank == tl as int);
        let mut cur = copy_vec(t);
        let mut c: u64 = 0;
        let mut best: Option<u128> = None;
        loop
            invariant_except_break
                (match best {
                    Some(k) => {
                        &&& exists|cc: Seq<int>|
                            counts_ok(buttons@, i as int, cc, t@) && cc[0] < c && sum_counts(cc)
                                == k
                        &&& forall|cc: Seq<int>|
                            counts_ok(buttons@, i as int, cc, t@) && cc[0] < c ==> sum_counts(cc)
                                >= k
                        &&& k <= sum_prefix(t@, rank)
                    },
                    None => forall|cc: Seq<int>|
                        counts_ok(buttons@, i as int, cc, t@) ==> cc[0] >= c,
                }),
            invariant
                i < buttons@.len(),
                buttons@.len() <= usize::MAX,
                valid_from(buttons@, i as int, rank),
                mask == buttons@[i as int],
                rank == t@.len(),
                rank <= usize::MAX,
                w0 < 64,
                bit(mask, w0 as int),
                w0 < t@.len(),
                cur@.len() == t@.len(),
                forall|w: int|
                    0 <= w < t@.len() ==> cur@[w] as int == t@[w] as int - (if bit(mask, w) {
                        c as int
                    } else {
                        0int
                    }),
            ensures
                (match best {
                    Some(k) => {
                        &&& exists|cc: Seq<int>|
                            counts_ok(buttons@, i as int, cc, t@) && sum_counts(cc) == k
                        &&& forall|cc: Seq<int>|
                            counts_ok(buttons@, i as int, cc, t@) ==> sum_counts(cc) >= k
                        &&& k <= sum_prefix(t@, rank)
                    },
                    None => forall|cc: Seq<int>| !counts_ok(buttons@, i as int, cc, t@),
                }),
            decreases t@[w0 as int] - c,
        {
            let sub = search_joltage(buttons, i + 1, &cur);
            let ghost cval = c as int;
            match sub {
                Some(s) => {
                    proof {
                        // candidate fits in u128
                        lemma_sum_prefix_sub(t@, cur@, mask, cval, rank);
                        lemma_head_total_ge_at(mask, cval, rank, w0 as int);
                        assert(s + cval <= sum_prefix(t@, rank));
                        lemma_sum_prefix_bound(t@, rank);
                        assert(rank <= usize::MAX as int);
                        assert(rank * (u64::MAX as int) <= (u64::MAX as int) * (u64::MAX as int))
                            by (nonlinear_arith)
                            requires 0 <= rank <= u64::MAX as int;
                        assert((u64::MAX as int) * (u64::MAX as int) < u128::MAX as int)
                            by (nonlinear_arith);
                    }
                    let cand: u128 = c as u128 + s;
                    proof {
                        // a best plan with head exactly c exists
                        let tail = choose|cc: Seq<int>|
                            counts_ok(buttons@, i + 1, cc, cur@) && sum_counts(cc) == s;
                        lemma_counts_compose(buttons@, i as int, tail, cval, t@, cur@);
                        assert forall|cc: Seq<int>|
                            counts_ok(buttons@, i as int, cc, t@) && cc[0] == cval
                                implies sum_counts(cc) >= cand by {
                            lemma_counts_decompose(buttons@, i as int, cc, t@, cur@);
                        }
                    }
                    let newbest = match best {
                        Some(k) => {
                            if cand < k {
                                cand
                            } else {
                                k
                            }
                        },
                        None => cand,
                    };
                    proof {
                        assert forall|cc: Seq<int>|
                            counts_ok(buttons@, i as int, cc, t@) && cc[0] < c + 1
                                implies sum_counts(cc) >= newbest by {
                            if cc[0] == cval {
                            } else {
                                assert(cc[0] < cval);
                            }
                        }
                    }
                    best = Some(newbest);
                },
                None => {
                    proof {
                        assert forall|cc: Seq<int>|
                            counts_ok(buttons@, i as int, cc, t@) implies cc[0] != cval by {
                            if cc[0] == cval {
                                lemma_counts_decompose(buttons@, i as int, cc, t@, cur@);
                            }
                        }
                    }
                },
            }
            // cover head value c, then move to c + 1 or stop
            if can_subtract(&cur, mask) {
                cur = subtract(&cur, mask);
                assert(cur@[w0 as int] as int == t@[w0 as int] - (c + 1)) by {
                    assert(bit(mask, w0 as int));
                }
                c = c + 1;
            } else {
                proof {
                    let badw = choose|w: int|
                        0 <= w < cur@.len() && bit(mask, w) && !(cur@[w] >= 1);
                    assert(cur@[badw] == 0);
                    assert(t@[badw] as int == cval);
                    assert forall|cc: Seq<int>|
                        counts_ok(buttons@, i as int, cc, t@) implies cc[0] <= cval by {
                        lemma_head_le(buttons@, i as int, cc, t@, badw);
                    }
                }
                break ;
            }
        }
        best
    }
}

/// Every button of the machine is non-empty and names only wires that
/// exist in its joltage target.
pub open spec fn joltage_valid(m: MachineV) -> bool {
    valid_from(m.buttons, 0, m.joltage.len() as int)
}

/// Some plan meets the joltage target exactly, and the machine's buttons
/// are meaningful for its rank.
pub open spec fn joltage_solvable(m: MachineV) -> bool {
    joltage_valid(m) && exists|c: Seq<int>| counts_ok(m.buttons, 0, c, m.joltage)
}

/// `k` is the exact minimum total press count over all exact plans.
pub open spec fn joltage_min_is(m: MachineV, k: int) -> bool {
    &&& joltage_valid(m)
    &&& exists|c: Seq<int>| counts_ok(m.buttons, 0, c, m.joltage) && sum_counts(c) == k
    &&& forall|c: Seq<int>| counts_ok(m.buttons, 0, c, m.joltage) ==> sum_counts(c) >= k
}

/// The minimum press count of a solvable machine.
pub open spec fn joltage_min(m: MachineV) -> int {
    choose|k: int| joltage_min_is(m, k)
}

/// The minimum is unique, so any witness pins `joltage_min` down.
pub proof fn lemma_joltage_min_is(m: MachineV, k: int)
    requires
        joltage_min_is(m, k),
    ensures
        joltage_solvable(m),
        joltage_min(m) == k,
{
    let c1 = choose|c: Seq<int>| counts_ok(m.buttons, 0, c, m.joltage) && sum_counts(c) == k;
    assert(counts_ok(m.buttons, 0, c1, m.joltage));
    let k2 = joltage_min(m);
    assert(joltage_min_is(m, k2));
    let c2 = choose|c: Seq<int>| counts_ok(m.buttons, 0, c, m.joltage) && sum_counts(c) == k2;
    assert(counts_ok(m.buttons, 0, c2, m.joltage));
    assert(sum_counts(c2) >= k);
    assert(sum_counts(c1) >= k2);
}

fn button_fits_exec(mask: u64, rank: usize) -> (r: bool)
    ensures
        r == button_fits(mask, rank as int),
{
    if rank >= 64 {
        proof {
            assert forall|w: int| bit(mask, w) implies w < rank as int by {}
        }
        true
    } else {
        let mut w = rank;
        while w < 64
            invariant
                rank <= w <= 64,
                forall|x: int| rank <= x < w ==> !bit(mask, x),
            decreases 64 - w,
        {
            let wu = w as u64;
            if (mask >> wu) & 1 == 1 {
                assert(bit(mask, w as int));
                return false;
            }
            w = w + 1;
        }
        assert forall|x: int| bit(mask, x) implies x < rank as int by {
            if x >= rank as int {
                assert(!bit(mask, x));
            }
        }
        true
    }
}

/// The fewest presses meeting the machine's joltage target exactly, or
/// `None` when no plan meets it (or a button names a missing wire).
pub fn solve_joltage(m: &Machine) -> (r: Option<u128>)
    ensures
        (match r {
            Some(k) => joltage_solvable(m@) && joltage_min(m@) == k && k <= sum_prefix(
                m@.joltage,
                m@.joltage.len() as int,
            ),
            None => !joltage_solvable(m@),
        }),
{
    let rank = m.joltage.len();
    let mut j: usize = 0;
    while j < m.buttons.len()
        invariant
            j <= m@.buttons.len(),
            rank == m@.joltage.len(),
            forall|x: int|
                0 <= x < j ==> m@.buttons[x] != 0 && button_fits(
                    #[trigger] m@.buttons[x],
                    rank as int,
                ),
        decreases m@.buttons.len() - j,
    {
        let mask = m.buttons[j];
        if mask == 0 {
            return None;
        }
        if !button_fits_exec(mask, rank) {
            return None;
        }
        j = j + 1;
    }
    assert(joltage_valid(m@));
    match search_joltage(&m.buttons, 0, &m.joltage) {
        Some(k) => {
            proof {
                assert(joltage_min_is(m@, k as int));
                lemma_joltage_min_is(m@, k as int);
            }
            Some(k)
        },
        None => None,
    }
}

/// The informed search's distance estimate: the summed absolute gap
/// between the current joltage vector and the target, over wires `0..k`.
pub open spec fn heur_prefix(state: Seq<u64>, target: Seq<u64>, k: int) -> int
    decreases k,
{
    if k <= 0 {
        0
    } else {
        heur_prefix(state, target, k - 1) + (if state[k - 1] <= target[k - 1] {
            target[k - 1] - state[k - 1]
        } else {
            state[k - 1] - target[k - 1]
        })
    }
}

/// The distance estimate, computed: sum over wires of the absolute
/// difference between current and target joltage.
pub fn heuristic(state: &JoltageState, target: &JoltageState) -> (r: u128)
    requires
        state@.len() == target@.len(),
    ensures
        r == heur_prefix(state@, target@, state@.len() as int),
{
    let n = state.0.len();
    let mut sum: u128 = 0;
    let mut w: usize = 0;
    while w < n
        invariant
            w <= n,
            n == state@.len(),
            state@.len() == target@.len(),
            sum == heur_prefix(state@, target@, w as int),
            sum <= w * (u64::MAX as int),
        decreases n - w,
    {
        let s = state.0[w];
        let t = target.0[w];
        let d: u64 = if s <= t {
            t - s
        } else {
            s - t
        };
        proof {
            assert(w * (u64::MAX as int) <= (u64::MAX as int) * (u64::MAX as int))
                by (nonlinear_arith)
                requires 0 <= w as int <= u64::MAX as int;
            assert((u64::MAX as int) * (u64::MAX as int) + (u64::MAX as int) < u128::MAX as int)
                by (nonlinear_arith);
            assert((w as int + 1) * (u64::MAX as int) == w * (u64::MAX as int) + (
            u64::MAX as int)) by (nonlinear_arith);
        }
        sum = sum + d as u128;
        w = w + 1;
    }
    sum
}

/// When every wire is still at or below target, the estimate equals the
/// total joltage still missing.
proof fn lemma_heur_eq_gap(state: Seq<u64>, target: Seq<u64>, diff: Seq<u64>, k: int)
    requires
        state.len() == target.len(),
        diff.len() == state.len(),
        0 <= k <= state.len(),
        forall|w: int| 0 <= w < state.len() ==> state[w] <= target[w],
        forall|w: int| 0 <= w < state.len() ==> #[trigger] diff[w] == target[w] - state[w],
    ensures
        heur_prefix(state, target, k) == sum_prefix(diff, k),
    decreases k,
{
    if k > 0 {
        lemma_heur_eq_gap(state, target, diff, k - 1);
    }
}

/// The estimate never underestimates the true remaining press count: any
/// exact plan from the current state to the target presses at least as
/// often as the missing joltage it must add, and the estimate is exactly
/// that missing joltage.  (The reverse bound does not hold: a button
/// covering several wires closes several units per press.)
pub proof fn lemma_heuristic_never_underestimates(
    buttons: Seq<u64>,
    state: Seq<u64>,
    target: Seq<u64>,
    diff: Seq<u64>,
    c: Seq<int>,
)
    requires
        state.len() == target.len(),
        diff.len() == state.len(),
        forall|w: int| 0 <= w < state.len() ==> state[w] <= target[w],
        forall|w: int| 0 <= w < state.len() ==> #[trigger] diff[w] == target[w] - state[w],
        valid_from(buttons, 0, diff.len() as int),
        counts_ok(buttons, 0, c, diff),
    ensures
        sum_counts(c) <= heur_prefix(state, target, state.len() as int),
{
    lemma_plan_le_target(buttons, 0, c, diff);
    lemma_heur_eq_gap(state, target, diff, state.len() as int);
}

/// A button that raises exactly one wire.
pub open spec fn single_wire(mask: u64) -> bool {
    exists|w: int| bit(mask, w) && (forall|v: int| bit(mask, v) ==> v == w)
}

proof fn lemma_head_total_zero_below(mask: u64, c0: int, rank: int, w: int)
    requires
        forall|v: int| bit(mask, v) ==> v == w,
        rank <= w,
    ensures
        head_total(mask, c0, rank) == 0,
    decreases rank,
{
    if rank > 0 {
        lemma_head_total_zero_below(mask, c0, rank - 1, w);
    }
}

proof fn lemma_head_total_single(mask: u64, c0: int, rank: int, w: int)
    requires
        bit(mask, w),
        forall|v: int| bit(mask, v) ==> v == w,
        0 <= w < rank,
    ensures
        head_total(mask, c0, rank) == c0,
    decreases rank,
{
    if w == rank - 1 {
        lemma_head_total_zero_below(mask, c0, rank - 1, w);
    } else {
        lemma_head_total_single(mask, c0, rank - 1, w);
    }
}

proof fn lemma_sum_eq_total_single(buttons: Seq<u64>, i: int, c: Seq<int>, rank: int)
    requires
        0 <= i <= buttons.len(),
        c.len() == buttons.len() - i,
        valid_from(buttons, i, rank),
        forall|j: int| i <= j < buttons.len() ==> single_wire(#[trigger] buttons[j]),
    ensures
        sum_counts(c) == applied_total(buttons, i, c, rank),
    decreases buttons.len() - i,
{
    if i == buttons.len() {
        lemma_applied_total_zero(buttons, i, c, rank);
    } else {
        lemma_sum_eq_total_single(buttons, i + 1, c.drop_first(), rank);
        lemma_applied_total_cons(buttons, i, c, rank);
        assert(single_wire(buttons[i]));
        let w = choose|w: int| bit(buttons[i], w) && (forall|v: int| bit(buttons[i], v) ==> v == w);
        assert(button_fits(buttons[i], rank));
        lemma_head_total_single(buttons[i], c[0], rank, w);
    }
}

/// On a machine whose buttons each raise a single wire, the estimate is
/// admissible: every exact plan from the current state costs exactly the
/// estimate, so the estimate never exceeds the minimal remaining press
/// count.
pub proof fn lemma_heuristic_admissible_single_wire(
    buttons: Seq<u64>,
    state: Seq<u64>,
    target: Seq<u64>,
    diff: Seq<u64>,
    c: Seq<int>,
)
    requires
        state.len() == target.len(),
        diff.len() == state.len(),
        forall|w: int| 0 <= w < state.len() ==> state[w] <= target[w],
        forall|w: int| 0 <= w < state.len() ==> #[trigger] diff[w] == target[w] - state[w],
        valid_from(buttons, 0, diff.len() as int),
        forall|j: int| 0 <= j < buttons.len() ==> single_wire(#[trigger] buttons[j]),
        counts_ok(buttons, 0, c, diff),
    ensures
        heur_prefix(state, target, state.len() as int) == sum_counts(c),
{
    lemma_sum_eq_total_single(buttons, 0, c, diff.len() as int);
    lemma_total_matches_target(buttons, 0, c, diff, diff.len() as int);
    lemma_heur_eq_gap(state, target, diff, state.len() as int);
}

/// Joltage that a sequence of presses (button indices, in order) puts on
/// wire `w`.
pub open spec fn hits(buttons: Seq<u64>, ps: Seq<int>, w: int) -> int
    decreases ps.len(),
{
    if ps.len() == 0 {
        0
    } else {
        hits(buttons, ps.drop_last(), w) + (if 0 <= ps.last() < buttons.len() && bit(
            buttons[ps.last()],
            w,
        ) {
            1int
        } else {
            0int
        })
    }
}

proof fn lemma_hits_prefix(buttons: Seq<u64>, ps: Seq<int>, k: int, w: int)
    requires
        0 <= k <= ps.len(),
    ensures
        hits(buttons, ps.take(k), w) <= hits(buttons, ps, w),
    decreases ps.len() - k,
{
    if k == ps.len() {
        assert(ps.take(k) =~= ps);
    } else {
        assert(ps.drop_last().take(k) =~= ps.take(k));
        lemma_hits_prefix(buttons, ps.drop_last(), k, w);
    }
}

/// Pruning discards no exact plan: joltage only grows with each press, so
/// along any press sequence that ends exactly on the target, no prefix
/// ever pushes a wire beyond its target value.
pub proof fn lemma_pruning_safe(buttons: Seq<u64>, ps: Seq<int>, t: Seq<u64>, k: int, w: int)
    requires
        forall|x: int| 0 <= x < t.len() ==> hits(buttons, ps, x) == t[x],
        0 <= k <= ps.len(),
        0 <= w < t.len(),
    ensures
        hits(buttons, ps.take(k), w) <= t[w],
{
    lemma_hits_prefix(buttons, ps, k, w);
}

} // verus!
