pub mod day01;
pub mod day02;
pub mod day03;
pub mod day06;
