//! The day solvers on their sample inputs.

use aoc25::day01;
use aoc25::day03;
use aoc25::day04;
use aoc25::day05;
use aoc25::day08;
use aoc25::day10;

const DAY01_TEST: &str = "L68
L30
R48
L5
R60
L55
L1
L99
R14
L82";

#[test]
fn day01_test_part_one() {
    assert_eq!(day01::part1(DAY01_TEST), Ok(3));
}

#[test]
fn day01_test_part_two() {
    assert_eq!(day01::part2(DAY01_TEST), Ok(6));
}

const DAY03_TEST: &str = "987654321111111
811111111111119
234234234234278
818181911112111";

#[test]
fn day03_test_part_one() {
    assert_eq!(day03::part1(DAY03_TEST), Ok(357));
}

#[test]
fn day03_test_part_two() {
    assert_eq!(day03::part2(DAY03_TEST), Ok(3121910778619));
}

const DAY04_TEST: &str = "..@@.@@@@.
@@@.@.@.@@
@@@@@.@.@@
@.@@@@..@.
@@.@@@@.@@
.@@@@@@@.@
.@.@.@.@@@
@.@@@.@@@@
.@@@@@@@@.
@.@.@@@.@.";

#[test]
fn day04_test_part_one() {
    assert_eq!(day04::part1(DAY04_TEST), Ok(13));
}

#[test]
fn day04_test_part_two() {
    assert_eq!(day04::part2(DAY04_TEST), Ok(43));
}

const DAY05_TEST: &str = "3-5
10-14
16-20
12-18

1
5
8
11
17
32";

#[test]
fn day05_test_part_one() {
    assert_eq!(day05::part1(DAY05_TEST), Ok(3));
}

#[test]
fn day05_test_part_two() {
    assert_eq!(day05::part2(DAY05_TEST), Ok(14));
}

const DAY08_TEST: &str = "162,817,812
57,618,57
906,360,560
592,479,940
352,342,300
466,668,158
542,29,236
431,825,988
739,650,466
52,470,668
216,146,977
819,987,18
117,168,530
805,96,715
346,949,466
970,615,88
941,993,340
862,61,35
984,92,344
425,690,689";

#[test]
fn day08_test_part_two() {
    assert_eq!(day08::part2(DAY08_TEST), Ok(0));
}

const DAY10_TEST: &str = "[.##.] (3) (1,3) (2) (2,3) (0,2) (0,1) {3,5,4,7}
[...#.] (0,2,3,4) (2,3) (0,4) (0,1,2) (1,2,3,4) {7,5,12,7,2}
[.###.#] (0,1,2,3,4) (0,3,4) (0,1,2,4,5) (1,2) {10,11,11,5,10,5}";

#[test]
fn day10_test_part_one() {
    assert_eq!(day10::part1(DAY10_TEST), Ok(7));
}

#[test]
fn day10_test_part_two() {
    assert_eq!(day10::part2(DAY10_TEST), Ok(33));
}

const DAY02_TEST: &str = "11-22,95-115,998-1012,1188511880-1188511890,222220-222224,1698522-1698528,446443-446449,38593856-38593862,565653-565659,824824821-824824827,2121212118-2121212124";

#[test]
fn day02_test_part_one() {
    assert_eq!(aoc25::day02::part1(DAY02_TEST), Ok(1227775554));
}

#[test]
fn day02_test_part_two() {
    assert_eq!(aoc25::day02::part2(DAY02_TEST), Ok(0));
}

const DAY07_TEST: &str = ".......S.......
...............
.......^.......
...............
......^.^......
...............
.....^.^.^.....
...............
....^.^...^....
...............
...^.^...^.^...
...............
..^...^.....^..
.^.^.^.^.^...^.
...............";

#[test]
fn day07_test_part_one() {
    assert_eq!(aoc25::day07::part1(DAY07_TEST), Ok(21));
}

#[test]
fn day07_test_part_two() {
    assert_eq!(aoc25::day07::part2(DAY07_TEST), Ok(40));
}

const DAY09_TEST: &str = "7,1
11,1
11,7
9,7
9,5
2,5
2,3
7,3";

#[test]
fn day09_test_part_one() {
    assert_eq!(aoc25::day09::part1(DAY09_TEST), Ok(50));
}

const DAY06_TEST: &str = "123 328  51 64 
 45 64  387 23 
  6 98  215 314
*   +   *   +  ";

#[test]
fn day06_test_part_one() {
    assert_eq!(aoc25::day06::part1(DAY06_TEST), Ok(4277556));
}

#[test]
fn day06_test_part_two() {
    assert_eq!(aoc25::day06::part2(DAY06_TEST), Ok(3263827));
}
