//! The machine puzzle: indicator lights, toggle buttons, and per-wire
//! joltage targets.
//!
//! One line of input describes one machine:
//!
//! ```text
//! machine := lights ' ' button (' ' button)* ' ' joltage newline?
//! lights  := '[' ('.' | '#')+ ']'
//! button  := '(' index (',' index)* ')'
//! joltage := '{' uint (',' uint)* '}'
//! ```
//!
//! A button's index set is a single canonical set, read in two ways: as the
//! set of lights the button toggles, and as the set of wires whose joltage
//! a press raises by one.  Index sets are held as 64-bit masks, so an index
//! above 63 (or a `#` light beyond position 63) is outside this crate's
//! machine limits and is rejected at parse time.
//!
//! `part1` answers the fewest distinct button presses that turn the lights
//! into the target pattern; `part2` the fewest presses, buttons reusable,
//! that meet the joltage target exactly.

use vstd::prelude::*;

use crate::day10::joltage::{joltage_min, joltage_solvable, solve_joltage};
use crate::day10::lights::{lights_min, lights_solvable, solve_lights};
use crate::day10::parse::{parse_input, views_of};
use crate::scan;
use crate::Error;

pub mod joltage;
pub mod lights;
pub mod parse;

verus! {

/// Does `mask` contain wire/light index `w`?
pub open spec fn bit(mask: u64, w: int) -> bool {
    0 <= w < 64 && (mask >> (w as u64)) & 1 == 1
}

/// The set of lights currently on, as a mask over light indices.
#[derive(Clone, Copy, Debug, PartialEq, Eq, Structural)]
pub struct IndicatorLights(pub u64);

/// The set of indices one button acts on, as a mask.
#[derive(Clone, Copy, Debug, PartialEq, Eq, Structural)]
pub struct ButtonSchematic(pub u64);

/// Per-wire joltage counts.
#[derive(Clone, Debug, PartialEq, Eq)]
pub struct JoltageState(pub Vec<u64>);

/// One parsed machine: target light pattern, button list, joltage target.
pub struct Machine {
    /// Mask of lights that must end up on.
    pub lights: u64,
    /// One index mask per button, in input order.
    pub buttons: Vec<u64>,
    /// Target joltage, one entry per wire.
    pub joltage: Vec<u64>,
}

/// Mathematical model of a machine.
#[verifier::ext_equal]
pub struct MachineV {
    pub lights: u64,
    pub buttons: Seq<u64>,
    pub joltage: Seq<u64>,
}

impl View for Machine {
    type V = MachineV;

    open spec fn view(&self) -> MachineV {
        MachineV { lights: self.lights, buttons: self.buttons@, joltage: self.joltage@ }
    }
}

impl IndicatorLights {
    /// Pressing a button toggles exactly the lights in its index set.
    pub fn apply_button(&self, button: &ButtonSchematic) -> (r: Self)
        ensures
            r.0 == self.0 ^ button.0,
    {
        IndicatorLights(self.0 ^ button.0)
    }
}

/// The joltage increment a button contributes per press: one unit on each
/// of its wires, none elsewhere.
pub open spec fn joltage_delta(mask: u64, rank: int) -> Seq<u64> {
    Seq::new(rank as nat, |w: int| if bit(mask, w) { 1u64 } else { 0u64 })
}

impl ButtonSchematic {
    /// The button's index set read as a joltage increment vector.
    pub fn to_joltage(&self, joltage_rank: usize) -> (r: JoltageState)
        ensures
            r@ == joltage_delta(self.0, joltage_rank as int),
    {
        let mut v: Vec<u64> = Vec::new();
        let mut w: usize = 0;
        while w < joltage_rank
            invariant
                w <= joltage_rank,
                v@.len() == w,
                forall|x: int| 0 <= x < w ==> v@[x] == (if bit(self.0, x) { 1u64 } else { 0u64 }),
            decreases joltage_rank - w,
        {
            if w < 64 && (self.0 >> (w as u64)) & 1 == 1 {
                v.push(1);
            } else {
                v.push(0);
            }
            w = w + 1;
        }
        proof {
            assert(v@ =~= joltage_delta(self.0, joltage_rank as int));
        }
        JoltageState(v)
    }
}

impl View for JoltageState {
    type V = Seq<u64>;

    open spec fn view(&self) -> Seq<u64> {
        self.0@
    }
}

impl JoltageState {
    /// The all-zero joltage vector of the given rank.
    pub fn with_size(size: usize) -> (r: Self)
        ensures
            r@.len() == size,
            forall|w: int| 0 <= w < size ==> r@[w] == 0u64,
    {
        let mut v: Vec<u64> = Vec::new();
        let mut i: usize = 0;
        while i < size
            invariant
                i <= size,
                v@.len() == i,
                forall|w: int| 0 <= w < i ==> v@[w] == 0u64,
            decreases size - i,
        {
            v.push(0);
            i = i + 1;
        }
        JoltageState(v)
    }

    /// Number of wires.
    pub fn rank(&self) -> (r: usize)
        ensures
            r == self@.len(),
    {
        self.0.len()
    }

    /// One press of `button`: each wire in its index set gains one unit.
    pub fn apply_button(&self, button: &ButtonSchematic) -> (r: Self)
        requires
            forall|w: int| 0 <= w < self@.len() ==> self@[w] < u64::MAX,
        ensures
            r@.len() == self@.len(),
            forall|w: int|
                0 <= w < self@.len() ==> r@[w] == self@[w] + (if bit(button.0, w) {
                    1u64
                } else {
                    0u64
                }),
    {
        let n = self.0.len();
        let mut v: Vec<u64> = Vec::new();
        let mut w: usize = 0;
        while w < n
            invariant
                w <= n,
                n == self@.len(),
                forall|x: int| 0 <= x < self@.len() ==> self@[x] < u64::MAX,
                v@.len() == w,
                forall|x: int|
                    0 <= x < w ==> v@[x] == self@[x] + (if bit(button.0, x) {
                        1u64
                    } else {
                        0u64
                    }),
            decreases n - w,
        {
            let cur = self.0[w];
            if w < 64 && (button.0 >> (w as u64)) & 1 == 1 {
                v.push(cur + 1);
            } else {
                v.push(cur);
            }
            w = w + 1;
        }
        JoltageState(v)
    }

    /// Component-wise sum of two joltage vectors of equal rank.
    pub fn add(&self, rhs: &Self) -> (r: Self)
        requires
            self@.len() == rhs@.len(),
            forall|w: int| 0 <= w < self@.len() ==> self@[w] + rhs@[w] <= u64::MAX,
        ensures
            r@.len() == self@.len(),
            forall|w: int| 0 <= w < self@.len() ==> r@[w] == self@[w] + rhs@[w],
    {
        let n = self.0.len();
        let mut v: Vec<u64> = Vec::new();
        let mut w: usize = 0;
        while w < n
            invariant
                w <= n,
                n == self@.len(),
                self@.len() == rhs@.len(),
                forall|x: int| 0 <= x < self@.len() ==> self@[x] + rhs@[x] <= u64::MAX,
                v@.len() == w,
                forall|x: int| 0 <= x < w ==> v@[x] == self@[x] + rhs@[x],
            decreases n - w,
        {
            v.push(self.0[w] + rhs.0[w]);
            w = w + 1;
        }
        JoltageState(v)
    }

    /// Scales every wire's count by `rhs`.
    pub fn mul(&self, rhs: u64) -> (r: Self)
        requires
            forall|w: int| 0 <= w < self@.len() ==> self@[w] * rhs <= u64::MAX,
        ensures
            r@.len() == self@.len(),
            forall|w: int| 0 <= w < self@.len() ==> r@[w] == self@[w] * rhs,
    {
        let n = self.0.len();
        let mut v: Vec<u64> = Vec::new();
        let mut w: usize = 0;
        while w < n
            invariant
                w <= n,
                n == self@.len(),
                forall|x: int| 0 <= x < self@.len() ==> self@[x] * rhs <= u64::MAX,
                v@.len() == w,
                forall|x: int| 0 <= x < w ==> v@[x] == self@[x] * rhs,
            decreases n - w,
        {
            v.push(self.0[w] * rhs);
            w = w + 1;
        }
        JoltageState(v)
    }
}

/// Sum of the distinct-press minima of machines `ms[i..]`.
pub open spec fn lights_total(ms: Seq<MachineV>, i: int) -> int
    decreases ms.len() - i when 0 <= i <= ms.len()
{
    if i >= ms.len() {
        0
    } else {
        lights_min(ms[i]) + lights_total(ms, i + 1)
    }
}

/// Sum of the minimum-press minima of machines `ms[i..]`.
pub open spec fn joltage_total(ms: Seq<MachineV>, i: int) -> int
    decreases ms.len() - i when 0 <= i <= ms.len()
{
    if i >= ms.len() {
        0
    } else {
        joltage_min(ms[i]) + joltage_total(ms, i + 1)
    }
}

pub open spec fn all_lights_solvable(ms: Seq<MachineV>) -> bool {
    forall|k: int| 0 <= k < ms.len() ==> lights_solvable(#[trigger] ms[k])
}

pub open spec fn all_joltage_solvable(ms: Seq<MachineV>) -> bool {
    forall|k: int| 0 <= k < ms.len() ==> joltage_solvable(#[trigger] ms[k])
}

proof fn lemma_lights_total_nonneg(ms: Seq<MachineV>, mins: Seq<u64>, i: int)
    requires
        0 <= i <= ms.len(),
        mins.len() == ms.len(),
        forall|k: int| 0 <= k < ms.len() ==> lights_min(#[trigger] ms[k]) == mins[k],
    ensures
        lights_total(ms, i) >= 0,
    decreases ms.len() - i,
{
    if i < ms.len() {
        lemma_lights_total_nonneg(ms, mins, i + 1);
    }
}

proof fn lemma_joltage_total_nonneg(ms: Seq<MachineV>, mins: Seq<u128>, i: int)
    requires
        0 <= i <= ms.len(),
        mins.len() == ms.len(),
        forall|k: int| 0 <= k < ms.len() ==> joltage_min(#[trigger] ms[k]) == mins[k],
    ensures
        joltage_total(ms, i) >= 0,
    decreases ms.len() - i,
{
    if i < ms.len() {
        lemma_joltage_total_nonneg(ms, mins, i + 1);
    }
}

/// Fewest distinct button presses per machine, summed over the input's
/// machines.  Malformed text is a parse error; a machine no selection of
/// buttons can solve, or a sum beyond 64 bits, cannot be answered.
pub fn part1(input: &str) -> (r: Result<u64, Error>)
    ensures
        (match parse_input(input@) {
            None => r == Err::<u64, Error>(Error::ParseError),
            Some(ms) => {
                if all_lights_solvable(ms) && lights_total(ms, 0) <= u64::MAX {
                    r == Ok::<u64, Error>(lights_total(ms, 0) as u64)
                } else {
                    r == Err::<u64, Error>(Error::UnsolvableError)
                }
            },
        }),
{
    let chars = scan::chars_of(input);
    let ms = match crate::day10::parse::parse_all(&chars) {
        Some(ms) => ms,
        None => {
            return Err(Error::ParseError);
        },
    };
    let ghost msv = views_of(ms@);
    let n = ms.len();
    let mut mins: Vec<u64> = Vec::new();
    let mut idx: usize = 0;
    while idx < n
        invariant
            idx <= n,
            n == ms@.len(),
            msv == views_of(ms@),
            parse_input(input@) == Some(msv),
            msv.len() == n,
            mins@.len() == idx,
            forall|k: int|
                0 <= k < idx ==> lights_solvable(#[trigger] msv[k]) && lights_min(msv[k])
                    == mins@[k],
        decreases n - idx,
    {
        let m = &ms[idx];
        assert(m@ == msv[idx as int]);
        match solve_lights(m) {
            Some(k) => {
                mins.push(k);
            },
            None => {
                assert(!all_lights_solvable(msv));
                return Err(Error::UnsolvableError);
            },
        }
        idx = idx + 1;
    }
    assert(all_lights_solvable(msv));
    let mut total: u64 = 0;
    let mut j: usize = 0;
    while j < n
        invariant
            j <= n,
            n == msv.len(),
            parse_input(input@) == Some(msv),
            mins@.len() == n,
            forall|k: int|
                0 <= k < n ==> lights_solvable(#[trigger] msv[k]) && lights_min(msv[k])
                    == mins@[k],
            lights_total(msv, 0) == total + lights_total(msv, j as int),
        decreases n - j,
    {
        let k = mins[j];
        match total.checked_add(k) {
            Some(t2) => {
                total = t2;
            },
            None => {
                proof {
                    lemma_lights_total_nonneg(msv, mins@, j + 1);
                }
                assert(lights_total(msv, 0) > u64::MAX);
                return Err(Error::UnsolvableError);
            },
        }
        j = j + 1;
    }
    assert(total == lights_total(msv, 0));
    Ok(total)
}

/// Fewest button presses, buttons reusable, to meet each machine's
/// joltage target exactly, summed over the input's machines.
pub fn part2(input: &str) -> (r: Result<u64, Error>)
    ensures
        (match parse_input(input@) {
            None => r == Err::<u64, Error>(Error::ParseError),
            Some(ms) => {
                if all_joltage_solvable(ms) && joltage_total(ms, 0) <= u64::MAX {
                    r == Ok::<u64, Error>(joltage_total(ms, 0) as u64)
                } else {
                    r == Err::<u64, Error>(Error::UnsolvableError)
                }
            },
        }),
{
    let chars = scan::chars_of(input);
    let ms = match crate::day10::parse::parse_all(&chars) {
        Some(ms) => ms,
        None => {
            return Err(Error::ParseError);
        },
    };
    let ghost msv = views_of(ms@);
    let n = ms.len();
    let ghost big = (u64::MAX as int) * (u64::MAX as int);
    let mut mins: Vec<u128> = Vec::new();
    let mut idx: usize = 0;
    while idx < n
        invariant
            idx <= n,
            n == ms@.len(),
            msv == views_of(ms@),
            parse_input(input@) == Some(msv),
            msv.len() == n,
            mins@.len() == idx,
            big == (u64::MAX as int) * (u64::MAX as int),
            forall|k: int|
                0 <= k < idx ==> joltage_solvable(#[trigger] msv[k]) && joltage_min(msv[k])
                    == mins@[k],
            forall|k: int| 0 <= k < idx ==> mins@[k] <= big,
        decreases n - idx,
    {
        let m = &ms[idx];
        assert(m@ == msv[idx as int]);
        let rank = m.joltage.len();
        match solve_joltage(m) {
            Some(k) => {
                proof {
                    crate::day10::joltage::lemma_sum_prefix_bound(m@.joltage, rank as int);
                    assert(rank as int * (u64::MAX as int) <= big) by (nonlinear_arith)
                        requires
                            0 <= rank as int <= u64::MAX as int,
                            big == (u64::MAX as int) * (u64::MAX as int),
                    ;
                }
                mins.push(k);
            },
            None => {
                assert(!all_joltage_solvable(msv));
                return Err(Error::UnsolvableError);
            },
        }
        idx = idx + 1;
    }
    assert(all_joltage_solvable(msv));
    let mut total: u128 = 0;
    let mut j: usize = 0;
    while j < n
        invariant
            j <= n,
            n == msv.len(),
            parse_input(input@) == Some(msv),
            mins@.len() == n,
            total <= u64::MAX,
            big == (u64::MAX as int) * (u64::MAX as int),
            forall|k: int|
                0 <= k < n ==> joltage_solvable(#[trigger] msv[k]) && joltage_min(msv[k])
                    == mins@[k],
            forall|k: int| 0 <= k < n ==> mins@[k] <= big,
            joltage_total(msv, 0) == total + joltage_total(msv, j as int),
        decreases n - j,
    {
        let k = mins[j];
        proof {
            assert((u64::MAX as int) + (u64::MAX as int) * (u64::MAX as int) < u128::MAX as int)
                by (nonlinear_arith);
        }
        let t2: u128 = total + k;
        if t2 > u64::MAX as u128 {
            proof {
                lemma_joltage_total_nonneg(msv, mins@, j + 1);
            }
            assert(joltage_total(msv, 0) > u64::MAX);
            return Err(Error::UnsolvableError);
        }
        total = t2;
        j = j + 1;
    }
    assert(total == joltage_total(msv, 0));
    Ok(total as u64)
}

/// A button's single index set means the same thing under both readings:
/// its joltage delta puts one unit exactly on the wires it contains, and
/// pressing it toggles exactly the lights it contains.
pub proof fn lemma_shared_encoding(b: ButtonSchematic, s: IndicatorLights, rank: int, w: int)
    requires
        0 <= w < rank,
    ensures
        joltage_delta(b.0, rank)[w] == 1u64 <==> bit(b.0, w),
        joltage_delta(b.0, rank)[w] == 0u64 <==> !bit(b.0, w),
        bit(s.0 ^ b.0, w) <==> (bit(s.0, w) != bit(b.0, w)),
{
    if w < 64 {
        let wu = w as u64;
        let a = s.0;
        let bb = b.0;
        assert((((a ^ bb) >> wu) & 1 == 1) == ((((a >> wu) & 1 == 1)) != (((bb >> wu) & 1
            == 1)))) by (bit_vector);
    }
}

/// Applying the same button twice returns the lights to where they were.
pub proof fn lemma_press_twice(s: IndicatorLights, b: ButtonSchematic)
    ensures
        (s.0 ^ b.0) ^ b.0 == s.0,
{
    let a = s.0;
    let bb = b.0;
    assert((a ^ bb) ^ bb == a) by (bit_vector);
}

/// Two presses commute: under XOR the order of button presses does not
/// change the resulting light pattern.
pub proof fn lemma_press_order(s: IndicatorLights, a: ButtonSchematic, b: ButtonSchematic)
    ensures
        (s.0 ^ a.0) ^ b.0 == (s.0 ^ b.0) ^ a.0,
{
    let x = s.0;
    let y = a.0;
    let z = b.0;
    assert((x ^ y) ^ z == (x ^ z) ^ y) by (bit_vector);
}

} // verus!
