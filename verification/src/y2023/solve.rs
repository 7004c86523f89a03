use crate::Solution;
use vstd::prelude::*;

verus! {

/// Whether this year holds a solution for the given day.
pub open spec fn spec_known_day(day: i32) -> bool {
    ||| day == 1
    ||| day == 2
    ||| day == 4
    ||| day == 6
    ||| day == 7
    ||| day == 8
    ||| day == 9
    ||| day == 11
    ||| day == 12
    ||| day == 13
    ||| day == 14
    ||| day == 15
    ||| day == 16
    ||| day == 17
    ||| day == 18
    ||| day == 21
    ||| day == 22
    ||| day == 23
}

/// Runs the selected day's solution on the given puzzle input; `None` for
/// a day this year does not hold.
pub fn solve_day(day: &i32, input: &str) -> (r: Option<(String, String)>)
    ensures
        r.is_some() <==> spec_known_day(*day),
{
    match *day {
        1 => Some(crate::y2023::day01::Day01::solve(input)),
        2 => Some(crate::y2023::day02::Day02::solve(input)),
        4 => Some(crate::y2023::day04::Day04::solve(input)),
        6 => Some(crate::y2023::day06::Day06::solve(input)),
        7 => Some(crate::y2023::day07::Day07::solve(input)),
        8 => Some(crate::y2023::day08::Day08::solve(input)),
        9 => Some(crate::y2023::day09::Day09::solve(input)),
        11 => Some(crate::y2023::day11::Day11::solve(input)),
        12 => Some(crate::y2023::day12::Day12::solve(input)),
        13 => Some(crate::y2023::day13::Day13::solve(input)),
        14 => Some(crate::y2023::day14::Day14::solve(input)),
        15 => Some(crate::y2023::day15::Day15::solve(input)),
        16 => Some(crate::y2023::day16::Day16::solve(input)),
        17 => Some(crate::y2023::day17::Day17::solve(input)),
        18 => Some(crate::y2023::day18::Day18::solve(input)),
        21 => Some(crate::y2023::day21::Day21::solve(input)),
        22 => Some(crate::y2023::day22::Day22::solve(input)),
        23 => Some(crate::y2023::day23::Day23::solve(input)),
        _ => None,
    }
}

} // verus!
