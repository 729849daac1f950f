//! Character-level scanning helpers shared by the day modules.
//!
//! Inputs arrive as `&str`; every parser in this crate works over the
//! string's sequence of characters.  This module turns a string into a
//! `Vec<char>` and reads unsigned decimal numbers out of such a vector.

use vstd::prelude::*;

verus! {

broadcast use vstd::string::group_string_axioms;

use vstd::std_specs::iter::IteratorSpec;

/// A decimal digit character.
pub open spec fn is_digit(c: char) -> bool {
    48 <= c as u32 <= 57
}

/// Numeric value of a digit character.
pub open spec fn digit_val(c: char) -> int {
    c as u32 - 48
}

/// Position just after the run of digits starting at `i`.
pub open spec fn num_end(s: Seq<char>, i: int) -> int
    decreases s.len() - i when 0 <= i <= s.len()
{
    if i < s.len() && is_digit(s[i]) {
        num_end(s, i + 1)
    } else {
        i
    }
}

/// Value of the digit run `s[i..j)`, most significant digit first.
pub open spec fn num_val(s: Seq<char>, i: int, j: int) -> int
    decreases j - i when i <= j
{
    if i >= j {
        0
    } else {
        num_val(s, i, j - 1) * 10 + digit_val(s[j - 1])
    }
}

/// Reading a decimal number at position `i`: the maximal digit run,
/// rejected when empty or when its value does not fit in a `u64`.
pub open spec fn spec_u64_at(s: Seq<char>, i: int) -> Option<(u64, int)> {
    let j = num_end(s, i);
    if j == i {
        None
    } else if num_val(s, i, j) > u64::MAX {
        None
    } else {
        Some((num_val(s, i, j) as u64, j))
    }
}

pub proof fn lemma_num_end(s: Seq<char>, i: int)
    requires
        0 <= i <= s.len(),
    ensures
        i <= num_end(s, i) <= s.len(),
        forall|k: int| i <= k < num_end(s, i) ==> is_digit(s[k]),
        num_end(s, i) < s.len() ==> !is_digit(s[num_end(s, i)]),
    decreases s.len() - i,
{
    if i < s.len() && is_digit(s[i]) {
        lemma_num_end(s, i + 1);
    }
}

/// `num_end` is the unique position bounding a digit run.
pub proof fn lemma_num_end_is(s: Seq<char>, i: int, j: int)
    requires
        0 <= i <= j <= s.len(),
        forall|k: int| i <= k < j ==> is_digit(s[k]),
        j < s.len() ==> !is_digit(s[j]),
    ensures
        num_end(s, i) == j,
    decreases j - i,
{
    if i < j {
        assert(is_digit(s[i]));
        lemma_num_end_is(s, i + 1, j);
    }
}

pub proof fn lemma_num_val_nonneg(s: Seq<char>, i: int, j: int)
    requires
        i <= j,
        forall|k: int| i <= k < j ==> is_digit(s[k]),
    ensures
        num_val(s, i, j) >= 0,
    decreases j - i,
{
    if i < j {
        lemma_num_val_nonneg(s, i, j - 1);
    }
}

/// Extending a digit run never shrinks its value.
pub proof fn lemma_num_val_mono(s: Seq<char>, i: int, j1: int, j2: int)
    requires
        i <= j1 <= j2,
        forall|k: int| i <= k < j2 ==> is_digit(s[k]),
    ensures
        num_val(s, i, j1) <= num_val(s, i, j2),
    decreases j2 - j1,
{
    if j1 < j2 {
        lemma_num_val_mono(s, i, j1, j2 - 1);
        lemma_num_val_nonneg(s, i, j2 - 1);
    }
}

/// Length of a line ending at `i`: 1 for `"\n"`, 2 for `"\r\n"`, else 0.
pub open spec fn line_end_len(s: Seq<char>, i: int) -> int {
    if i < s.len() && s[i] == '\n' {
        1
    } else if i + 1 < s.len() && s[i] == '\r' && s[i + 1] == '\n' {
        2
    } else {
        0
    }
}

/// Reads the line ending at `i`, per `line_end_len`.
pub fn line_end_at(v: &Vec<char>, i: usize) -> (r: usize)
    requires
        i <= v@.len(),
    ensures
        r == line_end_len(v@, i as int),
        i + r <= v@.len(),
{
    if i < v.len() && v[i] == '\n' {
        1
    } else if i < v.len() && i + 1 < v.len() && v[i] == '\r' && v[i + 1] == '\n' {
        2
    } else {
        0
    }
}

/// The characters of a string, as a vector.
pub fn chars_of(s: &str) -> (v: Vec<char>)
    ensures
        v@ == s@,
{
    let mut v: Vec<char> = Vec::new();
    let mut it = s.chars();
    loop
        invariant
            it.obeys_prophetic_iter_laws(),
            v@ + it.remaining() == s@,
            v@.len() <= s@.len(),
        ensures
            v@ == s@,
        decreases s@.len() - v@.len(),
    {
        match it.next() {
            Some(c) => {
                v.push(c);
                proof {
                    assert(v@ + it.remaining() =~= s@);
                }
            },
            None => {
                proof {
                    assert(v@ =~= s@);
                }
                break ;
            },
        }
    }
    v
}

/// Reads the decimal number starting at `i`, per `spec_u64_at`.
pub fn u64_at(v: &Vec<char>, i: usize) -> (r: Option<(u64, usize)>)
    requires
        i <= v@.len(),
    ensures
        (match r {
            Some(p) => i < p.1 <= v@.len() && spec_u64_at(v@, i as int) == Some((p.0, p.1 as int)),
            None => spec_u64_at(v@, i as int) is None,
        }),
{
    proof {
        lemma_num_end(v@, i as int);
    }
    let ghost end = num_end(v@, i as int);
    let mut j = i;
    let mut val: u64 = 0;
    let mut overflow = false;
    loop
        invariant
            i <= j <= v@.len(),
            j <= end <= v@.len(),
            forall|k: int| i <= k < end ==> is_digit(v@[k]),
            end < v@.len() ==> !is_digit(v@[end as int]),
            !overflow ==> val == num_val(v@, i as int, j as int),
            overflow ==> num_val(v@, i as int, j as int) > u64::MAX,
        ensures
            j == end,
            !overflow ==> val == num_val(v@, i as int, j as int),
            overflow ==> num_val(v@, i as int, j as int) > u64::MAX,
        decreases v@.len() - j,
    {
        if j == v.len() {
            proof {
                lemma_num_end_is(v@, i as int, j as int);
            }
            break ;
        }
        let c = v[j];
        let d = #[verifier::truncate] (c as u32);
        if !(48 <= d && d <= 57) {
            proof {
                assert(!is_digit(v@[j as int]));
                lemma_num_end_is(v@, i as int, j as int);
            }
            break ;
        }
        assert(is_digit(v@[j as int]));
        assert(j < end) by {
            if j >= end {
                assert(end < v@.len() && is_digit(v@[end as int]));
            }
        }
        proof {
            lemma_num_val_nonneg(v@, i as int, j as int);
        }
        if !overflow {
            let dig = (d - 48) as u64;
            assert(dig == digit_val(v@[j as int]));
            match val.checked_mul(10) {
                Some(t) => match t.checked_add(dig) {
                    Some(nv) => {
                        val = nv;
                    },
                    None => {
                        overflow = true;
                    },
                },
                None => {
                    overflow = true;
                },
            }
        } else {
            proof {
                lemma_num_val_mono(v@, i as int, j as int, j + 1 as int);
            }
        }
        j = j + 1;
    }
    if j == i {
        proof {
            assert(spec_u64_at(v@, i as int) is None);
        }
        return None;
    }
    if overflow {
        return None;
    }
    Some((val, j))
}

} // verus!
