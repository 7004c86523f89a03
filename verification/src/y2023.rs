pub mod solve;
pub mod day01;
pub mod day02;
pub mod day04;
pub mod day06;
pub mod day07;
pub mod day08;
pub mod day09;
pub mod day11;
pub mod day12;
pub mod day13;
pub mod day14;
pub mod day15;
pub mod day16;
pub mod day17;
pub mod day18;
pub mod day21;
pub mod day22;
pub mod day23;
pub mod day25;
