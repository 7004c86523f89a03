use crate::Solution;
use vstd::prelude::*;

verus! {

/// Whether this year holds a solution for the given day.
pub open spec fn spec_known_day(day: i32) -> bool {
    1 <= day <= 8
}

/// Runs the selected day's solution on the given puzzle input; `None` for
/// a day this year does not hold.
pub fn solve_day(day: &i32, input: &str) -> (r: Option<(String, String)>)
    ensures
        r.is_some() <==> spec_known_day(*day),
{
    match *day {
        1 => Some(crate::y2025::day01::Day01::solve(input)),
        2 => Some(crate::y2025::day02::Day02::solve(input)),
        3 => Some(crate::y2025::day03::Day03::solve(input)),
        4 => Some(crate::y2025::day04::Day04::solve(input)),
        5 => Some(crate::y2025::day05::Day05::solve(input)),
        6 => Some(crate::y2025::day06::Day06::solve(input)),
        7 => Some(crate::y2025::day07::Day07::solve(input)),
        8 => Some(crate::y2025::day08::Day08::solve(input)),
        _ => None,
    }
}

} // verus!
