use aoc::Solution;

const DAY01_INPUT: &str = "L68
L30
R48
L5
R60
L55
L1
L99
R14
L82";

#[test]
fn y2025_day01_part1_example() {
    assert_eq!(aoc::y2025::day01::Day01::solve_part_one(DAY01_INPUT), "3".to_string())
}

#[test]
fn y2025_day01_part2_example() {
    assert_eq!(aoc::y2025::day01::Day01::solve_part_two(DAY01_INPUT), "6".to_string())
}

const DAY05_INPUT: &str = "3-5
10-14
16-20
12-18

1
5
8
11
17
32";

#[test]
fn y2025_day05_part1_example() {
    assert_eq!(aoc::y2025::day05::Day05::solve_part_one(DAY05_INPUT), "3".to_string())
}

#[test]
fn y2025_day05_no_ranges() {
    let ranges: Vec<(u64, u64)> = vec![];
    let ids = vec![1u64, 2, 3];
    assert_eq!(aoc::y2025::day05::Day05::fresh_ids(&ranges, &ids), Vec::<u64>::new());
}

const DAY06_INPUT: &str = "123 328  51 64 
 45 64  387 23 
  6 98  215 314
*   +   *   +  ";

#[test]
fn y2025_day06_part1_example() {
    assert_eq!(aoc::y2025::day06::Day06::solve_part_one(DAY06_INPUT), "4277556".to_string())
}

#[test]
fn y2025_day06_part2_example() {
    assert_eq!(aoc::y2025::day06::Day06::solve_part_two(DAY06_INPUT), "3263827".to_string())
}

const DAY02_INPUT: &str = "11-22,95-115,998-1012,1188511880-1188511890,222220-222224,1698522-1698528,446443-446449,38593856-38593862,565653-565659,824824821-824824827,2121212118-2121212124";

#[test]
fn y2025_day02_part1_example() {
    assert_eq!(aoc::y2025::day02::Day02::solve_part_one(DAY02_INPUT), "1227775554".to_string())
}

#[test]
fn y2025_day02_part2_example() {
    assert_eq!(aoc::y2025::day02::Day02::solve_part_two(DAY02_INPUT), "4174379265".to_string())
}

#[test]
fn y2025_day02_distinct_ids() {
    let ranges = vec![(1u64, 100u64), (1u64, 100u64)];
    // overlapping ranges must not double-count: 11,22,...,99 sum once
    let sum = aoc::y2025::day02::Day02::sum_invalid_ids(&ranges, false);
    assert_eq!(sum, (11..=99).step_by(11).sum::<u64>());
}

const DAY03_INPUT: &str = "987654321111111
811111111111119
234234234234278
818181911112111";

#[test]
fn y2025_day03_part1_example() {
    assert_eq!(aoc::y2025::day03::Day03::solve_part_one(DAY03_INPUT), "357".to_string())
}

#[test]
fn y2025_day03_part2_example() {
    assert_eq!(
        aoc::y2025::day03::Day03::solve_part_two(DAY03_INPUT),
        "3121910778619".to_string()
    )
}

#[test]
fn check_day03_part2_case2() {
    assert_eq!(
        aoc::y2025::day03::Day03::solve_part_two("1111111111111119911111111111111111"),
        "991111111111".to_string()
    )
}

const DAY04_INPUT: &str = "..@@.@@@@.
@@@.@.@.@@
@@@@@.@.@@
@.@@@@..@.
@@.@@@@.@@
.@@@@@@@.@
.@.@.@.@@@
@.@@@.@@@@
.@@@@@@@@.
@.@.@@@.@.";

#[test]
fn day04_check_day04_part1_case1() {
    assert_eq!(aoc::y2025::day04::Day04::solve_part_one(DAY04_INPUT), "13".to_string())
}

#[test]
fn day04_check_day04_part2_case1() {
    assert_eq!(aoc::y2025::day04::Day04::solve_part_two(DAY04_INPUT), "43".to_string())
}

#[test]
fn check_day04_part2_case2() {
    assert_eq!(
        aoc::y2025::day04::Day04::solve_part_two(
            "...
.@.
..."
        ),
        "1".to_string()
    )
}

const DAY07_INPUT: &str = ".......S.......
...............
.......^.......
...............
......^.^......
...............
.....^.^.^.....
...............
....^.^...^....
...............
...^.^...^.^...
...............
..^...^.....^..
...............
.^.^.^.^.^...^.
...............";

#[test]
fn check_day07_part1_case1() {
    assert_eq!(aoc::y2025::day07::Day07::solve_part_one(DAY07_INPUT), "21".to_string())
}

#[test]
fn check_day07_part2_case1() {
    assert_eq!(aoc::y2025::day07::Day07::solve_part_two(DAY07_INPUT), "40".to_string())
}

const DAY08_INPUT: &str = "162,817,812
57,618,57
906,360,560
592,479,940
352,342,300
466,668,158
542,29,236
431,825,988
739,650,466
52,470,668
216,146,977
819,987,18
117,168,530
805,96,715
346,949,466
970,615,88
941,993,340
862,61,35
984,92,344
425,690,689";

#[test]
fn day08_check_day08_part1_case1() {
    let junctions = &mut aoc::y2025::day08::Day08::parse_input(DAY08_INPUT);
    let (groups, _) = aoc::y2025::day08::Day08::circuits(junctions, Some(10));
    let mut sizes: Vec<usize> = groups.iter().map(|c| c.len()).collect();
    sizes.sort();
    sizes.reverse();
    let product: usize = sizes.iter().take(3).product();
    assert_eq!(product.to_string(), "40".to_string())
}

#[test]
fn day08_check_day08_part2_case1() {
    let junctions = &mut aoc::y2025::day08::Day08::parse_input(DAY08_INPUT);
    let (_, log) = aoc::y2025::day08::Day08::circuits(junctions, None);
    let (u, v) = log.last().unwrap();
    assert_eq!((u.0 * v.0).to_string(), "25272".to_string())
}

#[test]
fn y2025_solve_day_dispatch() {
    let r = aoc::y2025::solve::solve_day(&1, DAY01_INPUT);
    assert_eq!(r, Some(("3".to_string(), "6".to_string())));
    assert_eq!(aoc::y2025::solve::solve_day(&9, DAY01_INPUT), None);
}

#[test]
fn y2025_day02_block_round_trip() {
    // a value built of repeated blocks decomposes back into the block
    let unit: u64 = 17;
    let repeats = 3;
    let mut v: u64 = 0;
    for _ in 0..repeats {
        v = v * 100 + unit;
    }
    assert_eq!(v, 171717);
    // every block of the generated value is the unit again
    for p in 0..repeats {
        assert_eq!((v / 100u64.pow(p)) % 100, unit);
    }
    // and the digit count recovers the repeat count
    assert_eq!(v.to_string().len(), 2 * repeats as usize);
}
