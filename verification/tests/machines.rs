//! The machine model of day 10: shared button encoding, toggle algebra,
//! the search heuristic, pruning, and the error paths.

use aoc25::day10;
use aoc25::day10::joltage::heuristic;
use aoc25::day10::{ButtonSchematic, IndicatorLights, JoltageState};
use aoc25::Error;

#[test]
fn button_encoding_shared() {
    // one index set, read as a joltage delta: one unit exactly on the
    // button's wires
    let b = ButtonSchematic(0b101);
    let delta = b.to_joltage(4);
    assert_eq!(delta.0, vec![1, 0, 1, 0]);
    // and read as a light toggle: exactly the same indices flip
    let off = IndicatorLights(0);
    let on = off.apply_button(&b);
    assert_eq!(on.0, 0b101);
}

#[test]
fn double_press_cancels() {
    let s = IndicatorLights(0b0110);
    let b = ButtonSchematic(0b1010);
    let twice = s.apply_button(&b).apply_button(&b);
    assert_eq!(twice, s);
}

#[test]
fn press_order_irrelevant() {
    let s = IndicatorLights(0b0110);
    let a = ButtonSchematic(0b1010);
    let b = ButtonSchematic(0b0011);
    assert_eq!(
        s.apply_button(&a).apply_button(&b),
        s.apply_button(&b).apply_button(&a)
    );
}

#[test]
fn heuristic_exact_on_single_wire_buttons() {
    // every button raises one wire: the estimate equals the true
    // minimum press count
    let start = JoltageState::with_size(2);
    let target = JoltageState(vec![2, 3]);
    assert_eq!(heuristic(&start, &target), 5);
    assert_eq!(day10::part2("[#] (0) (1) {2,3}"), Ok(5));
}

#[test]
fn heuristic_never_underestimates() {
    // a two-wire button closes two units per press: the estimate stays
    // at or above the true minimum
    let start = JoltageState::with_size(2);
    let target = JoltageState(vec![1, 1]);
    let h = heuristic(&start, &target);
    let min = day10::part2("[#] (0,1) {1,1}").unwrap();
    assert_eq!(h, 2);
    assert_eq!(min, 1);
    assert!(h >= min as u128);
}

#[test]
fn pruning_never_needed_on_exact_plans() {
    // along an exact plan, joltage only climbs and never passes the
    // target at any step
    let target = JoltageState(vec![2, 1]);
    let both = ButtonSchematic(0b11);
    let first = ButtonSchematic(0b01);
    let mut state = JoltageState::with_size(2);
    for button in [&both, &first] {
        state = state.apply_button(button);
        for w in 0..2 {
            assert!(state.0[w] <= target.0[w]);
        }
    }
    assert_eq!(state.0, target.0);
}

#[test]
fn joltage_state_arithmetic() {
    let a = JoltageState(vec![1, 2, 3]);
    let b = JoltageState(vec![10, 0, 1]);
    assert_eq!(a.rank(), 3);
    assert_eq!(a.add(&b).0, vec![11, 2, 4]);
    assert_eq!(a.mul(3).0, vec![3, 6, 9]);
}

#[test]
fn malformed_inputs_are_parse_errors() {
    // unbalanced brackets
    assert_eq!(day10::part1("[.##. (3) {1,2,3,4}"), Err(Error::ParseError));
    // non-numeric index
    assert_eq!(day10::part1("[.#] (a) {1,2}"), Err(Error::ParseError));
    // empty input
    assert_eq!(day10::part1(""), Err(Error::ParseError));
    // trailing text after the last machine
    assert_eq!(day10::part1("[#] (0) {1} x"), Err(Error::ParseError));
    // a joltage value beyond 64 bits
    assert_eq!(
        day10::part2("[#] (0) {18446744073709551616}"),
        Err(Error::ParseError)
    );
    // an index beyond the 64-position machine limit
    assert_eq!(day10::part1("[#] (64) {1}"), Err(Error::ParseError));
    // part2 rejects malformed text the same way
    assert_eq!(day10::part2("[.#"), Err(Error::ParseError));
}

#[test]
fn unsolvable_machines_are_reported() {
    // no selection of buttons reaches the light pattern
    assert_eq!(day10::part1("[#] (1) {1,2}"), Err(Error::UnsolvableError));
    // a wire that no button can reach
    assert_eq!(day10::part2("[#] (0) {1,2}"), Err(Error::UnsolvableError));
    // a button naming a wire beyond the joltage rank
    assert_eq!(day10::part2("[#] (1) {5}"), Err(Error::UnsolvableError));
}

#[test]
fn zero_target_needs_no_press() {
    assert_eq!(day10::part2("[#] (0) {0}"), Ok(0));
}
