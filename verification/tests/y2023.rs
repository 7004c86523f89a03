use aoc::y2023::day18::Day18;
use aoc::y2023::day18::Direction;
use aoc::y2023::day17::Day17;
use aoc::Solution;

const DAY17_INPUT: &str = "2413432311323
3215453535623
3255245654254
3446585845452
4546657867536
1438598798454
4457876987766
3637877979653
4654967986887
4564679986453
1224686865563
2546548887735
4322674655533";

#[test]
fn check_day17_part1_case1() {
    assert_eq!(Day17::solve_part_one(DAY17_INPUT), "102".to_string())
}

#[test]
fn check_day17_part2_case1() {
    assert_eq!(Day17::solve_part_two(DAY17_INPUT), "94".to_string())
}

#[test]
fn day17_search_is_idempotent() {
    let first = Day17::solve_part_one(DAY17_INPUT);
    let second = Day17::solve_part_one(DAY17_INPUT);
    assert_eq!(first, second);
}

#[test]
fn day17_single_cell_grid() {
    let grid = vec![vec![7u32]];
    assert_eq!(Day17::least_heat_loss(&grid, 1, 3), Some(0));
}

#[test]
fn day17_wider_run_limit_no_worse() {
    let mut grid = Day17::parse_input(DAY17_INPUT);
    let narrow = Day17::least_heat_loss(&mut grid, 1, 3).unwrap();
    let wide = Day17::least_heat_loss(&mut grid, 1, 10).unwrap();
    assert!(wide <= narrow);
}

#[test]
fn day17_unreachable_corner() {
    // min_run longer than the grid: no move fits, the corner stays unreached
    let grid = vec![vec![1u32, 2], vec![3, 4]];
    assert_eq!(Day17::least_heat_loss(&grid, 5, 6), None);
}

const DAY02_INPUT: &str = "Game 1: 3 blue, 4 red; 1 red, 2 green, 6 blue; 2 green
Game 2: 1 blue, 2 green; 3 green, 4 blue, 1 red; 1 green, 1 blue
Game 3: 8 green, 6 blue, 20 red; 5 blue, 4 red, 13 green; 5 green, 1 red
Game 4: 1 green, 3 red, 6 blue; 3 green, 6 red; 3 green, 15 blue, 14 red
Game 5: 6 red, 1 blue, 3 green; 2 blue, 1 red, 2 green";

#[test]
fn check_day02_part1_case1() {
    assert_eq!(aoc::y2023::day02::Day02::solve_part_one(DAY02_INPUT), "8".to_string())
}

#[test]
fn check_day02_part2_case1() {
    assert_eq!(aoc::y2023::day02::Day02::solve_part_two(DAY02_INPUT), "2286".to_string())
}

const DAY06_INPUT: &str = "Time:      7  15   30
Distance:  9  40  200";

#[test]
fn check_day06_part1_case1() {
    assert_eq!(aoc::y2023::day06::Day06::solve_part_one(DAY06_INPUT), "288".to_string())
}

#[test]
fn check_day06_part2_case1() {
    assert_eq!(aoc::y2023::day06::Day06::solve_part_two(DAY06_INPUT), "71503".to_string())
}

const DAY09_INPUT: &str = "0 3 6 9 12 15
1 3 6 10 15 21
10 13 16 21 30 45";

#[test]
fn check_day09_part1_case1() {
    assert_eq!(aoc::y2023::day09::Day09::solve_part_one(DAY09_INPUT), "114".to_string())
}

#[test]
fn check_day09_part2_case1() {
    assert_eq!(aoc::y2023::day09::Day09::solve_part_two(DAY09_INPUT), "2".to_string())
}

const DAY18_INPUT: &str = "R 6 (#70c710)
D 5 (#0dc571)
L 2 (#5713f0)
D 2 (#d2c081)
R 2 (#59c680)
D 2 (#411b91)
L 5 (#8ceee2)
U 2 (#caa173)
L 1 (#1b58a2)
U 2 (#caa171)
R 2 (#7807d2)
U 3 (#a77fa3)
L 2 (#015232)
U 2 (#7a21e3)";

#[test]
fn check_day18_part1_case1() {
    assert_eq!(aoc::y2023::day18::Day18::solve_part_one(DAY18_INPUT), "62".to_string())
}

#[test]
fn check_day18_part2_case1() {
    assert_eq!(
        aoc::y2023::day18::Day18::solve_part_two(DAY18_INPUT),
        "952408144115".to_string()
    )
}

#[test]
fn check_day18_interior_volume_case1() {
    let plan = vec![
        (Direction::Right, 2),
        (Direction::Down, 1),
        (Direction::Right, 2),
        (Direction::Up, 1),
        (Direction::Right, 2),
        (Direction::Down, 3),
        (Direction::Left, 2),
        (Direction::Up, 1),
        (Direction::Left, 2),
        (Direction::Down, 1),
        (Direction::Left, 2),
        (Direction::Up, 3),
    ];
    let polygon = Day18::polygon(&plan);
    let boundary = Day18::boundary(&plan);
    let area = Day18::area(&polygon);
    let interior = Day18::interior(area, boundary as i128);
    assert_eq!(interior, 4)
}

#[test]
fn day18_boundary_trace_lattice_points() {
    // R 6, D 5, L 2, D 2, R 2, D 2, L 5, U 2, L 1, U 2, R 2, U 3, L 2, U 2
    let plan = vec![
        (Direction::Right, 6),
        (Direction::Down, 5),
        (Direction::Left, 2),
        (Direction::Down, 2),
        (Direction::Right, 2),
        (Direction::Down, 2),
        (Direction::Left, 5),
        (Direction::Up, 2),
        (Direction::Left, 1),
        (Direction::Up, 2),
        (Direction::Right, 2),
        (Direction::Up, 3),
        (Direction::Left, 2),
        (Direction::Up, 2),
    ];
    assert_eq!(Day18::volume(&plan), 62);
}

const DAY04_INPUT: &str = "Card 1: 41 48 83 86 17 | 83 86  6 31 17  9 48 53
Card 2: 13 32 20 16 61 | 61 30 68 82 17 32 24 19
Card 3:  1 21 53 59 44 | 69 82 63 72 16 21 14  1
Card 4: 41 92 73 84 69 | 59 84 76 51 58  5 54 83
Card 5: 87 83 26 28 32 | 88 30 70 12 93 22 82 36
Card 6: 31 18 13 56 72 | 74 77 10 23 35 67 36 11";

#[test]
fn check_day04_part1_case1() {
    assert_eq!(aoc::y2023::day04::Day04::solve_part_one(DAY04_INPUT), "13".to_string())
}

#[test]
fn check_day04_part2_case1() {
    assert_eq!(aoc::y2023::day04::Day04::solve_part_two(DAY04_INPUT), "30".to_string())
}

const DAY11_INPUT: &str = "...#......
.......#..
#.........
..........
......#...
.#........
.........#
..........
.......#..
#...#.....";

#[test]
fn check_day11_part1_case1() {
    assert_eq!(aoc::y2023::day11::Day11::solve_part_one(DAY11_INPUT), "374".to_string())
}

#[test]
fn day11_part2_factors() {
    // the puzzle's stated mid-size factors for the same example
    let mut g = aoc::y2023::day11::Day11::parse_input(DAY11_INPUT);
    let d10: u64 = aoc::y2023::day11::Day11::distances(&mut g, 10).iter().sum();
    let d100: u64 = aoc::y2023::day11::Day11::distances(&mut g, 100).iter().sum();
    assert_eq!(d10, 1030);
    assert_eq!(d100, 8410);
}

#[test]
fn check_day15_part1_case1() {
    assert_eq!(
        aoc::y2023::day15::Day15::solve_part_one("rn=1,cm-,qp=3,cm=2,qp-,pc=4,ot=9,ab=5,pc-,pc=6,ot=7"),
        "1320".to_string()
    )
}

#[test]
fn day15_part2_focusing_power() {
    assert_eq!(
        aoc::y2023::day15::Day15::solve_part_two("rn=1,cm-,qp=3,cm=2,qp-,pc=4,ot=9,ab=5,pc-,pc=6,ot=7"),
        "145".to_string()
    )
}

const DAY12_INPUT: &str = "???.### 1,1,3
.??..??...?##. 1,1,3
?#?#?#?#?#?#?#? 1,3,1,6
????.#...#... 4,1,1
????.######..#####. 1,6,5
?###???????? 3,2,1";

#[test]
fn check_day12_part1_case1() {
    assert_eq!(aoc::y2023::day12::Day12::solve_part_one(DAY12_INPUT), "21".to_string())
}

#[test]
fn check_day12_part2_case1() {
    assert_eq!(aoc::y2023::day12::Day12::solve_part_two(DAY12_INPUT), "525152".to_string())
}

const DAY13_INPUT: &str = "#.##..##.
..#.##.#.
##......#
##......#
..#.##.#.
..##..##.
#.#.##.#.

#...##..#
#....#..#
..##..###
#####.##.
#####.##.
..##..###
#....#..#";

#[test]
fn check_day13_part1_case1() {
    assert_eq!(aoc::y2023::day13::Day13::solve_part_one(DAY13_INPUT), "405".to_string())
}

#[test]
fn check_day13_part1_case2() {
    assert_eq!(
        aoc::y2023::day13::Day13::solve_part_one(
            "#...#..######.#.#
...#.###.##..#.#.
###....#..#..#.#.
.##.######.###.#.
##..#..#..###....
##..#..#..###....
.##.##########.#.
###....#..#..#.#.
...#.###.##..#.#.
#...#..######.#.#
.##.#.#..#....##.
.##.#.#..#....##.
#...#..######.#.#"
        ),
        "1100".to_string()
    )
}

#[test]
fn check_day13_part2_case1() {
    assert_eq!(aoc::y2023::day13::Day13::solve_part_two(DAY13_INPUT), "400".to_string())
}

const DAY16_INPUT: &str = r".|...\....
|.-.\.....
.....|-...
........|.
..........
.........\
..../.\\..
.-.-/..|..
.|....-|.\
..//.|....";

#[test]
fn check_day16_part1_case1() {
    assert_eq!(aoc::y2023::day16::Day16::solve_part_one(DAY16_INPUT), "46".to_string())
}

#[test]
fn check_day16_part2_case1() {
    assert_eq!(aoc::y2023::day16::Day16::solve_part_two(DAY16_INPUT), "51".to_string())
}

#[test]
fn check_day01_part1_case1() {
    assert_eq!(
        aoc::y2023::day01::Day01::solve_part_one(
            "1abc2
pqr3stu8vwx
a1b2c3d4e5f
treb7uchet"
        ),
        "142".to_string()
    )
}

#[test]
fn check_day01_part1_case2() {
    assert_eq!(
        aoc::y2023::day01::Day01::solve_part_one(
            "two1nine
abcone2threexyz
xtwone3four
4nineeightseven2
zoneight234
7pqrstsixteen"
        ),
        "209".to_string()
    )
}

#[test]
fn check_day01_part2_case1() {
    assert_eq!(
        aoc::y2023::day01::Day01::solve_part_two(
            "two1nine
eightwothree
abcone2threexyz
xtwone3four
4nineeightseven2
zoneight234
7pqrstsixteen"
        ),
        "281".to_string()
    )
}

const DAY14_INPUT: &str = "O....#....
O.OO#....#
.....##...
OO.#O....O
.O.....O#.
O.#..O.#.#
..O..#O..O
.......O..
#....###..
#OO..#....";

#[test]
fn check_day14_part1_case1() {
    assert_eq!(aoc::y2023::day14::Day14::solve_part_one(DAY14_INPUT), "136".to_string())
}

#[test]
fn check_day14_part2_case1() {
    assert_eq!(aoc::y2023::day14::Day14::solve_part_two(DAY14_INPUT), "64".to_string())
}

const DAY21_INPUT: &str = "...........
.....###.#.
.###.##..#.
..#.#...#..
....#.#....
.##..S####.
.##..#...#.
.......##..
.##.#.####.
.##..##.##.
...........";

#[test]
fn check_day21_part1_case1() {
    let (cells, rows, cols) = aoc::y2023::day21::Day21::parse_input(DAY21_INPUT);
    assert_eq!(aoc::y2023::day21::Day21::reachable_in_steps(&cells, rows, cols, 6).len(), 16)
}

#[test]
fn check_day08_part1_case1() {
    assert_eq!(
        aoc::y2023::day08::Day08::solve_part_one(
            "RL

AAA = (BBB, CCC)
BBB = (DDD, EEE)
CCC = (ZZZ, GGG)
DDD = (DDD, DDD)
EEE = (EEE, EEE)
GGG = (GGG, GGG)
ZZZ = (ZZZ, ZZZ)"
        ),
        "2".to_string()
    )
}

#[test]
fn check_day08_part1_case2() {
    assert_eq!(
        aoc::y2023::day08::Day08::solve_part_one(
            "LLR

AAA = (BBB, BBB)
BBB = (AAA, ZZZ)
ZZZ = (ZZZ, ZZZ)"
        ),
        "6".to_string()
    )
}

#[test]
fn check_day08_part2_case1() {
    assert_eq!(
        aoc::y2023::day08::Day08::solve_part_two(
            "LR

11A = (11B, XXX)
11B = (XXX, 11Z)
11Z = (11B, XXX)
22A = (22B, XXX)
22B = (22C, 22C)
22C = (22Z, 22Z)
22Z = (22B, 22B)
XXX = (XXX, XXX)"
        ),
        "6".to_string()
    )
}

const DAY07_INPUT: &str = "32T3K 765
T55J5 684
KK677 28
KTJJT 220
QQQJA 483";

#[test]
fn day07_check_day07_part1_case1() {
    assert_eq!(aoc::y2023::day07::Day07::solve_part_one(DAY07_INPUT), "6440".to_string())
}

#[test]
fn day07_check_day07_part2_case1() {
    assert_eq!(aoc::y2023::day07::Day07::solve_part_two(DAY07_INPUT), "5905".to_string())
}

#[test]
fn day07_total_winnings_ranked() {
    // winnings of an already ranked list: rank times bid, summed
    let (hands, _) = aoc::y2023::day07::Day07::parse_input("32T3K 765\nT55J5 684");
    assert_eq!(aoc::y2023::day07::Day07::total_winnings(&hands), 765 + 2 * 684);
}

const DAY23_INPUT: &str = "#.#####################
#.......#########...###
#######.#########.#.###
###.....#.>.>.###.#.###
###v#####.#v#.###.#.###
###.>...#.#.#.....#...#
###v###.#.#.#########.#
###...#.#.#.......#...#
#####.#.#.#######.#.###
#.....#.#.#.......#...#
#.#####.#.#.#########v#
#.#...#...#...###...>.#
#.#.#v#######v###.###v#
#...#.>.#...>.>.#.###.#
#####v#.#.###v#.#.###.#
#.....#...#...#.#.#...#
#.#########.###.#.#.###
#...###...#...#...#.###
###.###.#.###v#####v###
#...#...#.#.>.>.#.>.###
#.###.###.#.###.#.#v###
#.....###...###...#...#
#####################.#";

#[test]
fn check_day23_part1_case1() {
    assert_eq!(aoc::y2023::day23::Day23::solve_part_one(DAY23_INPUT), "94".to_string())
}

#[test]
fn check_day23_part2_case1() {
    assert_eq!(aoc::y2023::day23::Day23::solve_part_two(DAY23_INPUT), "154".to_string())
}

const DAY22_INPUT: &str = "1,0,1~1,2,1
0,0,2~2,0,2
0,2,3~2,2,3
0,0,4~0,2,4
2,0,5~2,2,5
0,1,6~2,1,6
1,1,8~1,1,9";

#[test]
fn check_day22_part1_case1() {
    assert_eq!(aoc::y2023::day22::Day22::solve_part_one(DAY22_INPUT), "5".to_string())
}

#[test]
fn check_day22_part2_case1() {
    assert_eq!(aoc::y2023::day22::Day22::solve_part_two(DAY22_INPUT), "7".to_string())
}

#[test]
fn solve_day_dispatch() {
    let r = aoc::y2023::solve::solve_day(&17, DAY17_INPUT);
    assert_eq!(r, Some(("102".to_string(), "94".to_string())));
    assert_eq!(aoc::y2023::solve::solve_day(&3, DAY17_INPUT), None);
}

#[test]
fn y2023_day25_component_sizes() {
    let product = aoc::y2023::day25::Day25::solve_part_one(
        "jqt: rhn xhk nvd
rsh: frs pzl lsr
xhk: hfx
cmg: qnr nvd lhk bvb
rhn: xhk bvb hfx
bvb: xhk hfx
pzl: lsr hfx nvd
qnr: nvd
ntq: jqt hfx bvb xhk
nvd: lhk
lsr: lhk
rzs: qnr cmg lsr rsh
frs: qnr lhk lsr",
    );
    assert_eq!(product, "54".to_string())
}

#[test]
fn day17_move_n_stays_total_off_grid() {
    // a move that would leave the grid gives nothing
    assert_eq!(
        aoc::y2023::day17::Day17::move_n(3, aoc::y2023::day17::Direction::N, 1, 1, (4, 4)),
        None
    );
    // an ordinary move lands where the offsets say
    assert_eq!(
        aoc::y2023::day17::Day17::move_n(2, aoc::y2023::day17::Direction::S, 1, 1, (4, 4)),
        Some((3, 1))
    );
    // a start outside the grid can never re-enter it by one straight move
    assert_eq!(
        aoc::y2023::day17::Day17::move_n(1, aoc::y2023::day17::Direction::W, 9, 9, (4, 4)),
        None
    );
}
