//! Distinct-press search: the fewest button presses, each button at most
//! once, that turn the lights from all-off into the target pattern.
//!
//! Pressing toggles by XOR, so the order of presses never matters and a
//! candidate plan is just a selection of buttons.  The search therefore
//! ranges over selections, and its contract states exact minimality over
//! all of them.

use vstd::prelude::*;

use crate::day10::{Machine, MachineV};

verus! {

/// How many buttons a selection presses.
pub open spec fn count_sel(c: Seq<bool>) -> int
    decreases c.len(),
{
    if c.len() == 0 {
        0
    } else {
        (if c[0] {
            1int
        } else {
            0int
        }) + count_sel(c.drop_first())
    }
}

/// The lights toggled by pressing the selected buttons among
/// `buttons[i..]`; `c` holds one choice per remaining button.
pub open spec fn xor_sel(buttons: Seq<u64>, i: int, c: Seq<bool>) -> u64
    decreases buttons.len() - i when 0 <= i <= buttons.len()
{
    if i >= buttons.len() {
        0u64
    } else {
        (if 0 < c.len() && c[0] {
            buttons[i]
        } else {
            0u64
        }) ^ xor_sel(buttons, i + 1, c.drop_first())
    }
}

/// A selection of the buttons in `buttons[i..]` that turns the lights
/// from `acc` into `target`; unless `any` is set, it must press at least
/// one button (counting presses made before `i`).
pub open spec fn sel_ok(
    buttons: Seq<u64>,
    i: int,
    c: Seq<bool>,
    acc: u64,
    any: bool,
    target: u64,
) -> bool {
    &&& c.len() == buttons.len() - i
    &&& (any || count_sel(c) >= 1)
    &&& acc ^ xor_sel(buttons, i, c) == target
}

pub proof fn lemma_count_sel_bounds(c: Seq<bool>)
    ensures
        0 <= count_sel(c) <= c.len(),
    decreases c.len(),
{
    if c.len() > 0 {
        lemma_count_sel_bounds(c.drop_first());
    }
}

/// Prepending one choice to a selection of the remaining buttons.
proof fn lemma_compose(
    buttons: Seq<u64>,
    i: int,
    rest: Seq<bool>,
    b0: bool,
    acc: u64,
    any: bool,
    target: u64,
)
    requires
        0 <= i < buttons.len(),
        b0 ==> sel_ok(buttons, i + 1, rest, acc ^ buttons[i], true, target),
        !b0 ==> sel_ok(buttons, i + 1, rest, acc, any, target),
    ensures
        sel_ok(buttons, i, seq![b0] + rest, acc, any, target),
        count_sel(seq![b0] + rest) == (if b0 {
            1int
        } else {
            0int
        }) + count_sel(rest),
{
    let c = seq![b0] + rest;
    assert(c.drop_first() =~= rest);
    assert(c[0] == b0);
    let x = xor_sel(buttons, i + 1, rest);
    assert(xor_sel(buttons, i, c) == (if b0 {
        buttons[i]
    } else {
        0u64
    }) ^ x);
    let bb = buttons[i];
    if b0 {
        assert((acc ^ bb) ^ x == target ==> acc ^ (bb ^ x) == target) by (bit_vector);
        lemma_count_sel_bounds(rest);
    } else {
        assert(0u64 ^ x == x) by (bit_vector);
    }
}

/// Splitting a selection into its first choice and the rest.
proof fn lemma_decompose(buttons: Seq<u64>, i: int, c: Seq<bool>, acc: u64, any: bool, target: u64)
    requires
        0 <= i < buttons.len(),
        sel_ok(buttons, i, c, acc, any, target),
    ensures
        c.len() >= 1,
        c[0] ==> sel_ok(buttons, i + 1, c.drop_first(), acc ^ buttons[i], true, target)
            && count_sel(c) == 1 + count_sel(c.drop_first()),
        !c[0] ==> sel_ok(buttons, i + 1, c.drop_first(), acc, any, target) && count_sel(c)
            == count_sel(c.drop_first()),
{
    let rest = c.drop_first();
    let x = xor_sel(buttons, i + 1, rest);
    assert(xor_sel(buttons, i, c) == (if c[0] {
        buttons[i]
    } else {
        0u64
    }) ^ x);
    let bb = buttons[i];
    if c[0] {
        assert(acc ^ (bb ^ x) == target ==> (acc ^ bb) ^ x == target) by (bit_vector);
    } else {
        assert(0u64 ^ x == x) by (bit_vector);
    }
}

/// Minimum presses over all selections of `buttons[i..]` meeting `sel_ok`,
/// or `None` when no selection does.
fn search_lights(buttons: &Vec<u64>, i: usize, acc: u64, any: bool, target: u64) -> (r: Option<
    usize,
>)
    requires
        i <= buttons@.len(),
    ensures
        (match r {
            Some(k) => {
                &&& k <= buttons@.len() - i
                &&& exists|c: Seq<bool>|
                    sel_ok(buttons@, i as int, c, acc, any, target) && count_sel(c) == k
                &&& forall|c: Seq<bool>|
                    sel_ok(buttons@, i as int, c, acc, any, target) ==> count_sel(c) >= k
            },
            None => forall|c: Seq<bool>| !sel_ok(buttons@, i as int, c, acc, any, target),
        }),
    decreases buttons@.len() - i,
{
    let n = buttons.len();
    if i == n {
        if any && acc == target {
            proof {
                let c0 = Seq::<bool>::empty();
                assert(acc ^ 0u64 == acc) by (bit_vector);
                assert(sel_ok(buttons@, i as int, c0, acc, any, target));
                assert forall|c: Seq<bool>|
                    sel_ok(buttons@, i as int, c, acc, any, target) implies count_sel(c) >= 0 by {
                    lemma_count_sel_bounds(c);
                }
            }
            Some(0)
        } else {
            proof {
                assert forall|c: Seq<bool>| !sel_ok(
                    buttons@,
                    i as int,
                    c,
                    acc,
                    any,
                    target,
                ) by {
                    if sel_ok(buttons@, i as int, c, acc, any, target) {
                        assert(c.len() == 0);
                        assert(count_sel(c) == 0);
                        assert(acc ^ 0u64 == acc) by (bit_vector);
                    }
                }
            }
            None
        }
    } else {
        let b = buttons[i];
        let skip = search_lights(buttons, i + 1, acc, any, target);
        let press = search_lights(buttons, i + 1, acc ^ b, true, target);
        match (skip, press) {
            (None, None) => {
                proof {
                    assert forall|c: Seq<bool>| !sel_ok(
                        buttons@,
                        i as int,
                        c,
                        acc,
                        any,
                        target,
                    ) by {
                        if sel_ok(buttons@, i as int, c, acc, any, target) {
                            lemma_decompose(buttons@, i as int, c, acc, any, target);
                        }
                    }
                }
                None
            },
            (Some(a), None) => {
                proof {
                    let cs = choose|c: Seq<bool>|
                        sel_ok(buttons@, i + 1, c, acc, any, target) && count_sel(c) == a;
                    lemma_compose(buttons@, i as int, cs, false, acc, any, target);
                    assert forall|c: Seq<bool>|
                        sel_ok(buttons@, i as int, c, acc, any, target) implies count_sel(c)
                        >= a by {
                        lemma_decompose(buttons@, i as int, c, acc, any, target);
                    }
                }
                Some(a)
            },
            (None, Some(p)) => {
                proof {
                    let cp = choose|c: Seq<bool>|
                        sel_ok(buttons@, i + 1, c, acc ^ b, true, target) && count_sel(c) == p;
                    lemma_compose(buttons@, i as int, cp, true, acc, any, target);
                    assert forall|c: Seq<bool>|
                        sel_ok(buttons@, i as int, c, acc, any, target) implies count_sel(c) >= p
                            + 1 by {
                        lemma_decompose(buttons@, i as int, c, acc, any, target);
                    }
                }
                Some(p + 1)
            },
            (Some(a), Some(p)) => {
                let k = if a <= p + 1 {
                    a
                } else {
                    p + 1
                };
                proof {
                    let cs = choose|c: Seq<bool>|
                        sel_ok(buttons@, i + 1, c, acc, any, target) && count_sel(c) == a;
                    lemma_compose(buttons@, i as int, cs, false, acc, any, target);
                    let cp = choose|c: Seq<bool>|
                        sel_ok(buttons@, i + 1, c, acc ^ b, true, target) && count_sel(c) == p;
                    lemma_compose(buttons@, i as int, cp, true, acc, any, target);
                    assert forall|c: Seq<bool>|
                        sel_ok(buttons@, i as int, c, acc, any, target) implies count_sel(c)
                        >= k by {
                        lemma_decompose(buttons@, i as int, c, acc, any, target);
                    }
                }
                Some(k)
            },
        }
    }
}

/// A plan for a machine: a selection of at least one button whose toggles
/// turn all-off lights into the target pattern.
pub open spec fn lights_ok(m: MachineV, c: Seq<bool>) -> bool {
    &&& c.len() == m.buttons.len()
    &&& count_sel(c) >= 1
    &&& xor_sel(m.buttons, 0, c) == m.lights
}

/// Some plan reaches the target pattern.
pub open spec fn lights_solvable(m: MachineV) -> bool {
    exists|c: Seq<bool>| lights_ok(m, c)
}

/// `k` is the exact minimum press count over all plans.
pub open spec fn lights_min_is(m: MachineV, k: int) -> bool {
    &&& exists|c: Seq<bool>| lights_ok(m, c) && count_sel(c) == k
    &&& forall|c: Seq<bool>| lights_ok(m, c) ==> count_sel(c) >= k
}

/// The minimum press count of a solvable machine.
pub open spec fn lights_min(m: MachineV) -> int {
    choose|k: int| lights_min_is(m, k)
}

/// The minimum is unique, so any witness pins `lights_min` down.
pub proof fn lemma_lights_min_is(m: MachineV, k: int)
    requires
        lights_min_is(m, k),
    ensures
        lights_solvable(m),
        lights_min(m) == k,
{
    let c1 = choose|c: Seq<bool>| lights_ok(m, c) && count_sel(c) == k;
    assert(lights_ok(m, c1));
    let k2 = lights_min(m);
    assert(lights_min_is(m, k2));
    let c2 = choose|c: Seq<bool>| lights_ok(m, c) && count_sel(c) == k2;
    assert(lights_ok(m, c2));
    assert(count_sel(c2) >= k);
    assert(count_sel(c1) >= k2);
}

/// The fewest distinct presses reaching the machine's target light
/// pattern, or `None` when no selection of buttons reaches it.
pub fn solve_lights(m: &Machine) -> (r: Option<u64>)
    ensures
        (match r {
            Some(k) => lights_solvable(m@) && lights_min(m@) == k && k <= m@.buttons.len(),
            None => !lights_solvable(m@),
        }),
{
    let res = search_lights(&m.buttons, 0, 0u64, false, m.lights);
    proof {
        assert forall|c: Seq<bool>|
            sel_ok(m@.buttons, 0, c, 0u64, false, m@.lights) == lights_ok(m@, c) by {
            let x = xor_sel(m@.buttons, 0, c);
            assert(0u64 ^ x == x) by (bit_vector);
        }
    }
    match res {
        Some(k) => {
            proof {
                assert(lights_min_is(m@, k as int));
                lemma_lights_min_is(m@, k as int);
            }
            Some(k as u64)
        },
        None => None,
    }
}

} // verus!
