//! A dial of 100 positions, starting at 50, turned left and right.
//!
//! Each input line is `L<n>` or `R<n>`: a rotation of `n` positions
//! counter-clockwise or clockwise.  Lines are separated by line endings,
//! with no trailing line ending.  A rotation magnitude beyond `i64::MAX`
//! is outside this crate's machine limits and is rejected at parse time.
//!
//! `part1` counts the rotations after which the dial rests on zero;
//! `part2` counts every time the dial touches or passes zero while
//! turning.

use vstd::prelude::*;

use vstd::arithmetic::div_mod::{
    lemma_add_mod_noop, lemma_mod_add_multiples_vanish, lemma_sub_mod_noop,
};

use crate::scan;
use crate::Error;

verus! {

/// One rotation at position `i`: sign from `L`/`R`, magnitude a decimal
/// number no larger than `i64::MAX`.
pub open spec fn sp_rot(s: Seq<char>, i: int) -> Option<(int, int)> {
    if 0 <= i && i < s.len() && (s[i] == 'L' || s[i] == 'R') {
        match scan::spec_u64_at(s, i + 1) {
            Some((v, j)) => if v > i64::MAX as u64 {
                None
            } else {
                Some(
                    (
                        if s[i] == 'L' {
                            -(v as int)
                        } else {
                            v as int
                        },
                        j,
                    ),
                )
            },
            None => None,
        }
    } else {
        None
    }
}

/// Rotations separated by line endings, greedy: the list continues only
/// while a separator is followed by another rotation.
pub open spec fn sp_rots(s: Seq<char>, i: int, acc: Seq<int>) -> Option<(Seq<int>, int)>
    decreases s.len() - i when 0 <= i <= s.len()
{
    match sp_rot(s, i) {
        Some((r, j)) => {
            let acc2 = acc.push(r);
            let d = scan::line_end_len(s, j);
            if i < j && j + d <= s.len() && d > 0 && sp_rot(s, j + d) is Some {
                sp_rots(s, j + d, acc2)
            } else {
                Some((acc2, j))
            }
        },
        None => None,
    }
}

/// The whole input: one or more rotations consuming every character.
pub open spec fn parse_rotations(s: Seq<char>) -> Option<Seq<int>> {
    match sp_rots(s, 0, Seq::empty()) {
        Some((rs, j)) => if j == s.len() {
            Some(rs)
        } else {
            None
        },
        None => None,
    }
}

/// Sum of the first `k` rotations.
pub open spec fn prefix_sum(rs: Seq<int>, k: int) -> int
    decreases k,
{
    if k <= 0 {
        0
    } else {
        prefix_sum(rs, k - 1) + rs[k - 1]
    }
}

/// The dial's position after the first `k` rotations.
pub open spec fn dial_pos(rs: Seq<int>, k: int) -> int {
    (50 + prefix_sum(rs, k)) % 100
}

/// How many of the first `k` rotations leave the dial on zero.
pub open spec fn zeros_upto(rs: Seq<int>, k: int) -> int
    decreases k,
{
    if k <= 0 {
        0
    } else {
        zeros_upto(rs, k - 1) + (if dial_pos(rs, k) == 0 {
            1int
        } else {
            0int
        })
    }
}

fn rot_at(v: &Vec<char>, i: usize) -> (r: Option<(i64, usize)>)
    requires
        i <= v@.len(),
    ensures
        (match r {
            Some(p) => i < p.1 <= v@.len() && sp_rot(v@, i as int) == Some(
                (p.0 as int, p.1 as int),
            ),
            None => sp_rot(v@, i as int) is None,
        }),
{
    if i < v.len() && (v[i] == 'L' || v[i] == 'R') {
        match scan::u64_at(v, i + 1) {
            Some((val, j)) => {
                if val > i64::MAX as u64 {
                    None
                } else {
                    let m = val as i64;
                    if v[i] == 'L' {
                        Some((-m, j))
                    } else {
                        Some((m, j))
                    }
                }
            },
            None => None,
        }
    } else {
        None
    }
}

/// Spec views of parsed rotations.
pub open spec fn rot_views(rs: Seq<i64>) -> Seq<int> {
    rs.map_values(|x: i64| x as int)
}

fn rots_at(v: &Vec<char>, i: usize, acc: Vec<i64>) -> (r: Option<(Vec<i64>, usize)>)
    requires
        i <= v@.len(),
    ensures
        (match r {
            Some(p) => p.1 <= v@.len() && sp_rots(v@, i as int, rot_views(acc@)) == Some(
                (rot_views(p.0@), p.1 as int),
            ),
            None => sp_rots(v@, i as int, rot_views(acc@)) is None,
        }),
    decreases v@.len() - i,
{
    let vl = v.len();
    match rot_at(v, i) {
        Some((r0, j)) => {
            let ghost old_views = rot_views(acc@);
            let mut acc2 = acc;
            acc2.push(r0);
            proof {
                assert(rot_views(acc2@) =~= old_views.push(r0 as int));
            }
            let d = scan::line_end_at(v, j);
            if d > 0 {
                match rot_at(v, j + d) {
                    Some(_) => rots_at(v, j + d, acc2),
                    None => Some((acc2, j)),
                }
            } else {
                Some((acc2, j))
            }
        },
        None => None,
    }
}

fn parse_all(v: &Vec<char>) -> (r: Option<Vec<i64>>)
    ensures
        (match r {
            Some(rs) => parse_rotations(v@) == Some(rot_views(rs@)),
            None => parse_rotations(v@) is None,
        }),
{
    proof {
        assert(rot_views(Seq::<i64>::empty()) =~= Seq::<int>::empty());
    }
    match rots_at(v, 0, Vec::new()) {
        Some((rs, j)) => {
            if j == v.len() {
                Some(rs)
            } else {
                None
            }
        },
        None => None,
    }
}

/// How many rotations leave the dial resting on zero.
pub fn part1(input: &str) -> (r: Result<u64, Error>)
    ensures
        (match parse_rotations(input@) {
            None => r == Err::<u64, Error>(Error::ParseError),
            Some(rs) => r == Ok::<u64, Error>(zeros_upto(rs, rs.len() as int) as u64),
        }),
{
    let chars = scan::chars_of(input);
    let rot_list = match parse_all(&chars) {
        Some(rs) => rs,
        None => {
            return Err(Error::ParseError);
        },
    };
    let ghost rs = rot_views(rot_list@);
    let n = rot_list.len();
    let mut dial: u64 = 50;
    let mut count: u64 = 0;
    let mut k: usize = 0;
    while k < n
        invariant
            k <= n,
            n == rot_list@.len(),
            rs == rot_views(rot_list@),
            parse_rotations(input@) == Some(rs),
            dial < 100,
            dial == dial_pos(rs, k as int),
            count == zeros_upto(rs, k as int),
            count <= k,
        decreases n - k,
    {
        let r0 = rot_list[k];
        assert(rs[k as int] == r0 as int);
        let ghost x = 50 + prefix_sum(rs, k as int);
        let mag: u64 = if r0 < 0 {
            (-(r0 as i128)) as u64
        } else {
            r0 as u64
        };
        let step = mag % 100;
        if r0 < 0 {
            dial = (dial + 100 - step) % 100;
            proof {
                lemma_sub_mod_noop(x, mag as int, 100);
                lemma_mod_add_multiples_vanish(dial as int - 100, 100);
                lemma_add_mod_noop(x % 100, 100 - step as int, 100);
                assert((x - mag) % 100 == (x % 100 + (100 - step as int)) % 100) by {
                    assert((x - mag) % 100 == (x % 100 - mag % 100) % 100);
                    assert(mag as int % 100 == step as int);
                    assert((x % 100 - step as int) % 100 == ((x % 100 - step as int) + 100)
                        % 100) by {
                        lemma_mod_add_multiples_vanish(x % 100 - step as int, 100);
                    }
                }
                assert(dial == (x - mag) % 100);
            }
        } else {
            dial = (dial + step) % 100;
            proof {
                lemma_add_mod_noop(x, mag as int, 100);
                assert((x + mag) % 100 == (x % 100 + mag as int % 100) % 100);
                assert(dial == (x + mag) % 100);
            }
        }
        assert(dial == dial_pos(rs, k as int + 1));
        if dial == 0 {
            count = count + 1;
        }
        k = k + 1;
    }
    assert(count == zeros_upto(rs, rs.len() as int));
    Ok(count)
}

/// Truncated division by 100, as Rust's `/` computes it.
pub open spec fn tdiv100(a: int) -> int {
    if a >= 0 {
        a / 100
    } else {
        -((-a) / 100)
    }
}

/// Truncated remainder by 100, as Rust's `%` computes it.
pub open spec fn trem100(a: int) -> int {
    a - 100 * tdiv100(a)
}

/// One rotation: the dial moves from `d` by `r`; the result is the new
/// dial position and how often zero was touched or passed.
pub open spec fn touch_step(d: int, r: int) -> (int, int) {
    let sum = d + r;
    let q = tdiv100(sum);
    let rem = trem100(sum);
    let aq = if q >= 0 {
        q
    } else {
        -q
    };
    if rem >= 0 {
        (
            rem,
            aq + (if rem == 0 && r < 0 {
                1int
            } else {
                0int
            }),
        )
    } else {
        (
            rem + 100,
            aq + (if d != 0 {
                1int
            } else {
                0int
            }),
        )
    }
}

/// Dial position and accumulated zero touches after `k` rotations.
pub open spec fn touches(rs: Seq<int>, k: int) -> (int, int)
    decreases k,
{
    if k <= 0 {
        (50, 0)
    } else {
        let prev = touches(rs, k - 1);
        let st = touch_step(prev.0, rs[k - 1]);
        (st.0, prev.1 + st.1)
    }
}

/// How often the dial touches or passes zero over all rotations.  A count
/// beyond 64 bits cannot be reported.
pub fn part2(input: &str) -> (r: Result<u64, Error>)
    ensures
        (match parse_rotations(input@) {
            None => r == Err::<u64, Error>(Error::ParseError),
            Some(rs) => {
                if touches(rs, rs.len() as int).1 <= u64::MAX {
                    r == Ok::<u64, Error>(touches(rs, rs.len() as int).1 as u64)
                } else {
                    r == Err::<u64, Error>(Error::UnsolvableError)
                }
            },
        }),
{
    let chars = scan::chars_of(input);
    let rot_list = match parse_all(&chars) {
        Some(rs) => rs,
        None => {
            return Err(Error::ParseError);
        },
    };
    let ghost rs = rot_views(rot_list@);
    let n = rot_list.len();
    let mut dial: u64 = 50;
    let mut count: u64 = 0;
    let mut k: usize = 0;
    while k < n
        invariant
            k <= n,
            n == rot_list@.len(),
            rs == rot_views(rot_list@),
            parse_rotations(input@) == Some(rs),
            dial < 100,
            dial == touches(rs, k as int).0,
            count == touches(rs, k as int).1,
        decreases n - k,
    {
        let r0 = rot_list[k];
        assert(rs[k as int] == r0 as int);
        let ghost st = touch_step(dial as int, r0 as int);
        let inc: u64;
        if r0 >= 0 {
            let sum = dial + r0 as u64;
            let q = sum / 100;
            let rem = sum % 100;
            proof {
                assert(tdiv100(dial as int + r0 as int) == q as int);
                assert(trem100(dial as int + r0 as int) == rem as int);
            }
            inc = q;
            dial = rem;
        } else {
            let mag = (-(r0 as i128)) as u64;
            if mag <= dial {
                let rem = dial - mag;
                proof {
                    assert(tdiv100(dial as int - mag as int) == 0);
                    assert(trem100(dial as int - mag as int) == rem as int);
                }
                inc = if rem == 0 {
                    1
                } else {
                    0
                };
                dial = rem;
            } else {
                let neg = mag - dial;
                let q = neg / 100;
                let nr = neg % 100;
                proof {
                    assert(neg as int == 100 * (q as int) + nr as int);
                    if nr == 0 {
                        assert(tdiv100(dial as int - mag as int) == -(q as int));
                        assert(trem100(dial as int - mag as int) == 0);
                    } else {
                        assert(tdiv100(dial as int - mag as int) == -(q as int));
                        assert(trem100(dial as int - mag as int) == -(nr as int));
                    }
                }
                if nr == 0 {
                    inc = q + 1;
                    dial = 0;
                } else {
                    inc = q + (if dial != 0 {
                        1
                    } else {
                        0
                    });
                    dial = 100 - nr;
                }
            }
        }
        assert(st.0 == dial as int);
        assert(st.1 == inc as int);
        match count.checked_add(inc) {
            Some(c2) => {
                count = c2;
            },
            None => {
                proof {
                    lemma_touches_mono(rs, k as int + 1, rs.len() as int);
                }
                return Err(Error::UnsolvableError);
            },
        }
        k = k + 1;
    }
    Ok(count)
}

/// The touch count never decreases as more rotations run.
proof fn lemma_touches_mono(rs: Seq<int>, k: int, n: int)
    requires
        0 <= k <= n,
    ensures
        touches(rs, k).1 <= touches(rs, n).1,
    decreases n - k,
{
    if k < n {
        lemma_touches_mono(rs, k, n - 1);
        let prev = touches(rs, n - 1);
        let st = touch_step(prev.0, rs[n - 1]);
        assert(st.1 >= 0) by {
            let sum = prev.0 + rs[n - 1];
            if sum >= 0 {
                assert(tdiv100(sum) == sum / 100);
                assert(sum / 100 >= 0);
            } else {
                assert((-sum) / 100 >= 0);
            }
        }
    }
}

} // verus!
