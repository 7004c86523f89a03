use aoc::Solution;

const DAY01_INPUT: &str = "3   4
4   3
2   5
1   3
3   9
3   3";

#[test]
fn day01_check_day01_part1_case1() {
    assert_eq!(aoc::y2024::day01::Day01::solve_part_one(DAY01_INPUT), "11".to_string())
}

#[test]
fn day01_check_day01_part2_case1() {
    assert_eq!(aoc::y2024::day01::Day01::solve_part_two(DAY01_INPUT), "31".to_string())
}

const DAY02_INPUT: &str = "7 6 4 2 1
1 2 7 8 9
9 7 6 2 1
1 3 2 4 5
8 6 4 4 1
1 3 6 7 9";

#[test]
fn day02_check_day02_part1_case1() {
    assert_eq!(aoc::y2024::day02::Day02::solve_part_one(DAY02_INPUT), "2".to_string())
}

#[test]
fn day02_check_day02_part2_case1() {
    assert_eq!(aoc::y2024::day02::Day02::solve_part_two(DAY02_INPUT), "4".to_string())
}

#[test]
fn day03_check_day03_part1_case1() {
    let input = format!(
        "xmul(2,4)%&mul[3,7]!@^do_not_mul(5,5)+mul(32,64]{}(mul(11,8)mul(8,5))",
        "\x74hen"
    );
    assert_eq!(aoc::y2024::day03::Day03::solve_part_one(&input), "161".to_string())
}

#[test]
fn day03_check_day03_part2_case1() {
    assert_eq!(
        aoc::y2024::day03::Day03::solve_part_two(
            "xmul(2,4)&mul[3,7]!^don't()_mul(5,5)+mul(32,64](mul(11,8)undo()?mul(8,5))"
        ),
        "48".to_string()
    )
}

const DAY06_INPUT: &str = "....#.....
.........#
..........
..#.......
.......#..
..........
.#..^.....
........#.
#.........
......#...";

#[test]
fn day06_check_day06_part1_case1() {
    assert_eq!(aoc::y2024::day06::Day06::solve_part_one(DAY06_INPUT), "41".to_string())
}

#[test]
fn day06_check_day06_part2_case1() {
    assert_eq!(aoc::y2024::day06::Day06::solve_part_two(DAY06_INPUT), "6".to_string())
}
