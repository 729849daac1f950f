//! Edge cases and error paths of the smaller day solvers.

use aoc25::day01;
use aoc25::day03;
use aoc25::day03::get_max_joltage;
use aoc25::day04;
use aoc25::day05;
use aoc25::Error;

#[test]
fn dial_lands_on_zero() {
    // 50 + 50 wraps exactly to zero
    assert_eq!(day01::part1("R50"), Ok(1));
    // and a left turn of 50 reaches zero directly
    assert_eq!(day01::part1("L50"), Ok(1));
    // a turn that passes zero without resting on it
    assert_eq!(day01::part1("L51"), Ok(0));
}

#[test]
fn dial_touches_zero() {
    // passing zero counts even without resting on it
    assert_eq!(day01::part2("L51"), Ok(1));
    // two full turns pass zero twice
    assert_eq!(day01::part2("R200"), Ok(2));
    // resting on zero counts once
    assert_eq!(day01::part2("R50"), Ok(1));
}

#[test]
fn dial_rejects_bad_text() {
    assert_eq!(day01::part1("X10"), Err(Error::ParseError));
    assert_eq!(day01::part1("L"), Err(Error::ParseError));
    assert_eq!(day01::part1(""), Err(Error::ParseError));
    assert_eq!(day01::part2("L10\n"), Err(Error::ParseError));
}

#[test]
fn best_pair_of_batteries() {
    // the greedy pick: highest digit first, then the best to its right
    assert_eq!(day03::part1("91"), Ok(91));
    assert_eq!(day03::part1("198"), Ok(98));
    // a bank of one battery admits no pair
    assert_eq!(day03::part1("9"), Err(Error::UnsolvableError));
    assert_eq!(day03::part1("9#"), Err(Error::ParseError));
}

#[test]
fn best_selection_keeps_order() {
    let bank = vec![9u8, 8, 7];
    assert_eq!(get_max_joltage(&bank, 2), 98);
    let bank2 = vec![1u8, 9, 1, 8];
    assert_eq!(get_max_joltage(&bank2, 2), 98);
    assert_eq!(get_max_joltage(&bank2, 0), 0);
    // twelve batteries need a bank of twelve
    assert_eq!(day03::part2("11111111111"), Err(Error::UnsolvableError));
    assert_eq!(day03::part2("111111111111"), Ok(111111111111));
}

#[test]
fn lone_roll_is_accessible() {
    assert_eq!(day04::part1("@"), Ok(1));
    assert_eq!(day04::part2("@"), Ok(1));
    assert_eq!(day04::part1("."), Ok(0));
    assert_eq!(day04::part2("."), Ok(0));
}

#[test]
fn crowded_block_opens_from_the_rim() {
    // a 3x3 block: only the four corners have fewer than four roll
    // neighbours; removing rolls frees the rest step by step
    let block = "@@@\n@@@\n@@@";
    assert_eq!(day04::part1(block), Ok(4));
    assert_eq!(day04::part2(block), Ok(9));
}

#[test]
fn ragged_floor_is_rejected() {
    assert_eq!(day04::part1("..\n."), Err(Error::ParseError));
    assert_eq!(day04::part1(""), Err(Error::ParseError));
}

#[test]
fn overlapping_ranges_count_once() {
    assert_eq!(day05::part2("1-5\n3-10\n\n1"), Ok(10));
    // touching ranges merge
    assert_eq!(day05::part2("1-2\n3-4\n\n1"), Ok(4));
    // separate ranges add up
    assert_eq!(day05::part2("1-2\n9-9\n\n1"), Ok(3));
}

#[test]
fn empty_range_cannot_be_counted() {
    assert_eq!(day05::part2("5-3\n\n1"), Err(Error::UnsolvableError));
    // part1 treats an empty range as covering nothing
    assert_eq!(day05::part1("5-3\n\n4"), Ok(0));
}

#[test]
fn ingredient_list_needs_blank_line() {
    assert_eq!(day05::part1("1-2\n1"), Err(Error::ParseError));
    assert_eq!(day05::part1("1-2\n\n"), Err(Error::ParseError));
}

#[test]
fn doubled_ids_in_small_ranges() {
    // 11, 22 are doubled; 12 is not
    assert_eq!(aoc25::day02::part1("11-22"), Ok(33));
    // 6464 sits alone in its range
    assert_eq!(aoc25::day02::part1("6400-6500"), Ok(6464));
    // no doubled number below 11
    assert_eq!(aoc25::day02::part1("1-10"), Ok(0));
    assert_eq!(aoc25::day02::part1("11-22,"), Err(aoc25::Error::ParseError));
}

#[test]
fn beams_split_and_merge() {
    // one source, one splitter: one split, two beams at the bottom
    let field = ".S.\n.^.\n...";
    assert_eq!(aoc25::day07::part1(field), Ok(1));
    assert_eq!(aoc25::day07::part2(field), Ok(2));
    // merged beams split once but count twice
    let deep = ".S.\n.^.\n.^.";
    assert_eq!(aoc25::day07::part1(deep), Ok(1));
    assert_eq!(aoc25::day07::part2(deep), Ok(2));
}

#[test]
fn beams_cannot_leave_the_field() {
    // a splitter on the rim would send a beam outside
    assert_eq!(
        aoc25::day07::part1("S..\n^.."),
        Err(aoc25::Error::UnsolvableError)
    );
    // a source below the first row is not a field
    assert_eq!(
        aoc25::day07::part2("S..\n.S."),
        Err(aoc25::Error::UnsolvableError)
    );
}

#[test]
fn widest_tile_rectangle() {
    assert_eq!(aoc25::day09::part1("0,0\n2,3"), Ok(12));
    assert_eq!(aoc25::day09::part1("5,5"), Err(aoc25::Error::UnsolvableError));
    assert_eq!(aoc25::day09::part1("1,2\nx"), Err(aoc25::Error::ParseError));
    let p = aoc25::day09::Point(0, 0);
    let q = aoc25::day09::Point(4, 9);
    assert_eq!(p.area(&q), 50);
}

#[test]
fn worksheet_columns_fold() {
    // one column summed, one multiplied
    assert_eq!(aoc25::day06::part1("2 3 \n4 5 \n+ * \n"), Ok(21));
    // an operator row that misses a column cannot be applied
    assert_eq!(
        aoc25::day06::part1("2 3 \n4 5 \n+ \n"),
        Err(aoc25::Error::UnsolvableError)
    );
    assert_eq!(aoc25::day06::part1("2 3"), Err(aoc25::Error::ParseError));
}

#[test]
fn worksheet_vertical_digits() {
    // one block of two columns: 12 + 34, written vertically
    assert_eq!(aoc25::day06::part2("13\n24\n+ \n"), Ok(46));
    // two blocks, right to left: 12 + 34, then 7 alone
    assert_eq!(aoc25::day06::part2("7 31\n  42\n* + \n"), Ok(53));
    // a used column of spaces holds no number
    assert_eq!(
        aoc25::day06::part2("1 \n  \n2 \n+ \n"),
        Err(aoc25::Error::UnsolvableError)
    );
}
