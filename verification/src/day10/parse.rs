//! The machine grammar, as a recursive-descent definition over the input's
//! character sequence, and the executable parser proved against it.
//!
//! Every `sp_*` function is the meaning of one grammar production: it
//! returns the parsed value and the position just past it, or `None` when
//! the text does not match.  Lists are greedy; a whole line parses only one
//! way, so these definitions pin the parser down completely.

use vstd::prelude::*;

use crate::day10::{Machine, MachineV};
use crate::scan;

verus! {

/// `('.' | '#')+` after `[`; `pos` is the light index of the next cell.
/// A `#` beyond index 63 does not fit the 64-bit light mask.
pub open spec fn sp_cells(s: Seq<char>, i: int, pos: int, acc: u64) -> Option<(u64, int)>
    decreases s.len() - i when 0 <= i <= s.len()
{
    if i < s.len() && s[i] == '.' {
        sp_cells(s, i + 1, pos + 1, acc)
    } else if i < s.len() && s[i] == '#' {
        if pos >= 64 {
            None
        } else {
            sp_cells(s, i + 1, pos + 1, acc | (1u64 << (pos as u64)))
        }
    } else {
        if pos == 0 {
            None
        } else {
            Some((acc, i))
        }
    }
}

/// `'[' cell+ ']'`, yielding the mask of `#` positions.
pub open spec fn sp_lights(s: Seq<char>, i: int) -> Option<(u64, int)> {
    if 0 <= i && i < s.len() && s[i] == '[' {
        match sp_cells(s, i + 1, 0, 0) {
            Some((mask, j)) => if j < s.len() && s[j] == ']' {
                Some((mask, j + 1))
            } else {
                None
            },
            None => None,
        }
    } else {
        None
    }
}

/// `index (',' index)*`, yielding the button's index mask.
/// An index above 63 does not fit the 64-bit mask.
pub open spec fn sp_indices(s: Seq<char>, i: int, acc: u64) -> Option<(u64, int)>
    decreases s.len() - i when 0 <= i <= s.len()
{
    match scan::spec_u64_at(s, i) {
        Some((val, j)) => if val > 63 {
            None
        } else {
            if j < s.len() && s[j] == ',' {
                if i < j {
                    sp_indices(s, j + 1, acc | (1u64 << val))
                } else {
                    None
                }
            } else {
                Some((acc | (1u64 << val), j))
            }
        },
        None => None,
    }
}

/// `'(' index (',' index)* ')'`.
pub open spec fn sp_button(s: Seq<char>, i: int) -> Option<(u64, int)> {
    if 0 <= i && i < s.len() && s[i] == '(' {
        match sp_indices(s, i + 1, 0) {
            Some((mask, j)) => if j < s.len() && s[j] == ')' {
                Some((mask, j + 1))
            } else {
                None
            },
            None => None,
        }
    } else {
        None
    }
}

/// `uint (',' uint)*`, the joltage entries.
pub open spec fn sp_jolts(s: Seq<char>, i: int, acc: Seq<u64>) -> Option<(Seq<u64>, int)>
    decreases s.len() - i when 0 <= i <= s.len()
{
    match scan::spec_u64_at(s, i) {
        Some((val, j)) => if j < s.len() && s[j] == ',' {
            if i < j {
                sp_jolts(s, j + 1, acc.push(val))
            } else {
                None
            }
        } else {
            Some((acc.push(val), j))
        },
        None => None,
    }
}

/// `'{' uint (',' uint)* '}'`.
pub open spec fn sp_joltage(s: Seq<char>, i: int) -> Option<(Seq<u64>, int)> {
    if 0 <= i && i < s.len() && s[i] == '{' {
        match sp_jolts(s, i + 1, Seq::empty()) {
            Some((ts, j)) => if j < s.len() && s[j] == '}' {
                Some((ts, j + 1))
            } else {
                None
            },
            None => None,
        }
    } else {
        None
    }
}

/// `(' ' button)+`: buttons are collected while a space followed by a
/// well-formed button follows.
pub open spec fn sp_buttons(s: Seq<char>, i: int, acc: Seq<u64>) -> Option<(Seq<u64>, int)>
    decreases s.len() - i when 0 <= i <= s.len()
{
    if i < s.len() && s[i] == ' ' {
        match sp_button(s, i + 1) {
            Some((b, j)) => if i + 1 < j && j <= s.len() {
                sp_buttons(s, j, acc.push(b))
            } else {
                None
            },
            None => if acc.len() == 0 {
                None
            } else {
                Some((acc, i))
            },
        }
    } else {
        if acc.len() == 0 {
            None
        } else {
            Some((acc, i))
        }
    }
}

/// An optional line ending: `"\n"`, `"\r\n"`, or nothing.
pub open spec fn sp_line_opt(s: Seq<char>, i: int) -> int {
    if i < s.len() && s[i] == '\n' {
        i + 1
    } else if i + 1 < s.len() && s[i] == '\r' && s[i + 1] == '\n' {
        i + 2
    } else {
        i
    }
}

/// One machine line: lights, buttons, a space, the joltage target, and an
/// optional line ending.
pub open spec fn sp_machine(s: Seq<char>, i: int) -> Option<(MachineV, int)> {
    match sp_lights(s, i) {
        Some((lmask, j1)) => if j1 <= s.len() {
            match sp_buttons(s, j1, Seq::empty()) {
                Some((bs, j2)) => if j2 < s.len() && s[j2] == ' ' {
                    match sp_joltage(s, j2 + 1) {
                        Some((ts, j3)) => Some(
                            (MachineV { lights: lmask, buttons: bs, joltage: ts }, sp_line_opt(s, j3)),
                        ),
                        None => None,
                    }
                } else {
                    None
                },
                None => None,
            }
        } else {
            None
        },
        None => None,
    }
}

/// `machine+`, greedy.
pub open spec fn sp_machines(s: Seq<char>, i: int, acc: Seq<MachineV>) -> Option<
    (Seq<MachineV>, int),
>
    decreases s.len() - i when 0 <= i <= s.len()
{
    match sp_machine(s, i) {
        Some((m, j)) => if i < j && j <= s.len() {
            sp_machines(s, j, acc.push(m))
        } else {
            None
        },
        None => if acc.len() == 0 {
            None
        } else {
            Some((acc, i))
        },
    }
}

/// The whole input: one or more machines consuming every character.
pub open spec fn parse_input(s: Seq<char>) -> Option<Seq<MachineV>> {
    match sp_machines(s, 0, Seq::empty()) {
        Some((ms, j)) => if j == s.len() {
            Some(ms)
        } else {
            None
        },
        None => None,
    }
}

/// The machine models of a vector of parsed machines.
pub open spec fn views_of(ms: Seq<Machine>) -> Seq<MachineV> {
    ms.map_values(|m: Machine| m@)
}

fn cells_at(v: &Vec<char>, i: usize, pos: usize, acc: u64) -> (r: Option<(u64, usize)>)
    requires
        i <= v@.len(),
        pos <= i,
    ensures
        (match r {
            Some(p) => i <= p.1 <= v@.len() && sp_cells(v@, i as int, pos as int, acc) == Some(
                (p.0, p.1 as int),
            ),
            None => sp_cells(v@, i as int, pos as int, acc) is None,
        }),
    decreases v@.len() - i,
{
    if i < v.len() {
        let c = v[i];
        if c == '.' {
            return cells_at(v, i + 1, pos + 1, acc);
        }
        if c == '#' {
            if pos >= 64 {
                return None;
            }
            return cells_at(v, i + 1, pos + 1, acc | (1u64 << (pos as u64)));
        }
    }
    if pos == 0 {
        None
    } else {
        Some((acc, i))
    }
}

fn lights_at(v: &Vec<char>, i: usize) -> (r: Option<(u64, usize)>)
    requires
        i <= v@.len(),
    ensures
        (match r {
            Some(p) => i < p.1 <= v@.len() && sp_lights(v@, i as int) == Some((p.0, p.1 as int)),
            None => sp_lights(v@, i as int) is None,
        }),
{
    if i < v.len() && v[i] == '[' {
        match cells_at(v, i + 1, 0, 0) {
            Some((mask, j)) => {
                if j < v.len() && v[j] == ']' {
                    Some((mask, j + 1))
                } else {
                    None
                }
            },
            None => None,
        }
    } else {
        None
    }
}

fn indices_at(v: &Vec<char>, i: usize, acc: u64) -> (r: Option<(u64, usize)>)
    requires
        i <= v@.len(),
    ensures
        (match r {
            Some(p) => i < p.1 <= v@.len() && sp_indices(v@, i as int, acc) == Some(
                (p.0, p.1 as int),
            ),
            None => sp_indices(v@, i as int, acc) is None,
        }),
    decreases v@.len() - i,
{
    match scan::u64_at(v, i) {
        Some((val, j)) => {
            if val > 63 {
                return None;
            }
            let acc2 = acc | (1u64 << val);
            if j < v.len() && v[j] == ',' {
                indices_at(v, j + 1, acc2)
            } else {
                Some((acc2, j))
            }
        },
        None => None,
    }
}

fn button_at(v: &Vec<char>, i: usize) -> (r: Option<(u64, usize)>)
    requires
        i <= v@.len(),
    ensures
        (match r {
            Some(p) => i < p.1 <= v@.len() && sp_button(v@, i as int) == Some((p.0, p.1 as int)),
            None => sp_button(v@, i as int) is None,
        }),
{
    if i < v.len() && v[i] == '(' {
        match indices_at(v, i + 1, 0) {
            Some((mask, j)) => {
                if j < v.len() && v[j] == ')' {
                    Some((mask, j + 1))
                } else {
                    None
                }
            },
            None => None,
        }
    } else {
        None
    }
}

fn jolts_at(v: &Vec<char>, i: usize, acc: Vec<u64>) -> (r: Option<(Vec<u64>, usize)>)
    requires
        i <= v@.len(),
    ensures
        (match r {
            Some(p) => i < p.1 <= v@.len() && sp_jolts(v@, i as int, acc@) == Some(
                (p.0@, p.1 as int),
            ),
            None => sp_jolts(v@, i as int, acc@) is None,
        }),
    decreases v@.len() - i,
{
    match scan::u64_at(v, i) {
        Some((val, j)) => {
            let mut acc2 = acc;
            acc2.push(val);
            if j < v.len() && v[j] == ',' {
                jolts_at(v, j + 1, acc2)
            } else {
                Some((acc2, j))
            }
        },
        None => None,
    }
}

fn joltage_at(v: &Vec<char>, i: usize) -> (r: Option<(Vec<u64>, usize)>)
    requires
        i <= v@.len(),
    ensures
        (match r {
            Some(p) => i < p.1 <= v@.len() && sp_joltage(v@, i as int) == Some((p.0@, p.1 as int)),
            None => sp_joltage(v@, i as int) is None,
        }),
{
    if i < v.len() && v[i] == '{' {
        match jolts_at(v, i + 1, Vec::new()) {
            Some((ts, j)) => {
                if j < v.len() && v[j] == '}' {
                    Some((ts, j + 1))
                } else {
                    None
                }
            },
            None => None,
        }
    } else {
        None
    }
}

fn buttons_at(v: &Vec<char>, i: usize, acc: Vec<u64>) -> (r: Option<(Vec<u64>, usize)>)
    requires
        i <= v@.len(),
    ensures
        (match r {
            Some(p) => i <= p.1 <= v@.len() && sp_buttons(v@, i as int, acc@) == Some(
                (p.0@, p.1 as int),
            ),
            None => sp_buttons(v@, i as int, acc@) is None,
        }),
    decreases v@.len() - i,
{
    if i < v.len() && v[i] == ' ' {
        match button_at(v, i + 1) {
            Some((b, j)) => {
                let mut acc2 = acc;
                acc2.push(b);
                buttons_at(v, j, acc2)
            },
            None => {
                if acc.len() == 0 {
                    None
                } else {
                    Some((acc, i))
                }
            },
        }
    } else {
        if acc.len() == 0 {
            None
        } else {
            Some((acc, i))
        }
    }
}

fn line_opt_at(v: &Vec<char>, i: usize) -> (r: usize)
    requires
        i <= v@.len(),
    ensures
        i <= r <= v@.len(),
        r == sp_line_opt(v@, i as int),
{
    if i < v.len() && v[i] == '\n' {
        i + 1
    } else if i < v.len() && i + 1 < v.len() && v[i] == '\r' && v[i + 1] == '\n' {
        i + 2
    } else {
        i
    }
}

fn machine_at(v: &Vec<char>, i: usize) -> (r: Option<(Machine, usize)>)
    requires
        i <= v@.len(),
    ensures
        (match r {
            Some(p) => i < p.1 <= v@.len() && sp_machine(v@, i as int) == Some(
                (p.0@, p.1 as int),
            ),
            None => sp_machine(v@, i as int) is None,
        }),
{
    match lights_at(v, i) {
        Some((lmask, j1)) => {
            match buttons_at(v, j1, Vec::new()) {
                Some((bs, j2)) => {
                    if j2 < v.len() && v[j2] == ' ' {
                        match joltage_at(v, j2 + 1) {
                            Some((ts, j3)) => {
                                let j4 = line_opt_at(v, j3);
                                Some((Machine { lights: lmask, buttons: bs, joltage: ts }, j4))
                            },
                            None => None,
                        }
                    } else {
                        None
                    }
                },
                None => None,
            }
        },
        None => None,
    }
}

fn machines_at(v: &Vec<char>, i: usize, acc: Vec<Machine>) -> (r: Option<(Vec<Machine>, usize)>)
    requires
        i <= v@.len(),
    ensures
        (match r {
            Some(p) => i <= p.1 <= v@.len() && sp_machines(v@, i as int, views_of(acc@)) == Some(
                (views_of(p.0@), p.1 as int),
            ),
            None => sp_machines(v@, i as int, views_of(acc@)) is None,
        }),
    decreases v@.len() - i,
{
    match machine_at(v, i) {
        Some((m, j)) => {
            let ghost old_views = views_of(acc@);
            let mut acc2 = acc;
            acc2.push(m);
            proof {
                assert(views_of(acc2@) =~= old_views.push(m@));
            }
            machines_at(v, j, acc2)
        },
        None => {
            if acc.len() == 0 {
                None
            } else {
                Some((acc, i))
            }
        },
    }
}

/// Parses the whole input into machines, or nothing when the text does not
/// match the grammar.
pub fn parse_all(v: &Vec<char>) -> (r: Option<Vec<Machine>>)
    ensures
        (match r {
            Some(ms) => parse_input(v@) == Some(views_of(ms@)),
            None => parse_input(v@) is None,
        }),
{
    proof {
        assert(views_of(Seq::<Machine>::empty()) =~= Seq::<MachineV>::empty());
    }
    match machines_at(v, 0, Vec::new()) {
        Some((ms, j)) => {
            if j == v.len() {
                Some(ms)
            } else {
                None
            }
        },
        None => None,
    }
}

} // verus!
