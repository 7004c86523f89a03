use vstd::prelude::*;

pub mod util;
pub mod y2023;
pub mod y2024;
pub mod y2025;

verus! {

/// A puzzle solution: a parser from raw text to a typed structure, and two
/// answer functions over that structure.
pub trait Solution {
    type ParsedInput;

    /// Parse the input into the type used by the solution.
    fn parse_input(input_lines: &str) -> Self::ParsedInput;

    fn part_one(parsed_input: &mut Self::ParsedInput) -> String;

    fn part_two(parsed_input: &mut Self::ParsedInput) -> String;

    fn solve_part_one(input_lines: &str) -> String {
        Self::part_one(&mut Self::parse_input(input_lines))
    }

    fn solve_part_two(input_lines: &str) -> String {
        Self::part_two(&mut Self::parse_input(input_lines))
    }

    /// Compute both answers from one parse of the input.
    fn solve(input_lines: &str) -> (String, String) {
        let mut input = Self::parse_input(input_lines);
        let p1 = Self::part_one(&mut input);
        let p2 = Self::part_two(&mut input);
        (p1, p2)
    }
}

} // verus!
