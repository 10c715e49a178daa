//! Verified solutions to the 2025 advent puzzles.
//!
//! Each `dayNN` module holds the logic of one puzzle as functions on plain
//! values, with contracts that Verus checks. Reading files and printing
//! results is left to the caller.
//!
//! * [`day01`]: the dial of the safe.
//! * [`day02`]: product ids made of a repeated block of digits.
//! * [`day03`]: the greatest joltage of a bank of batteries.
//! * [`day04`]: rolls of paper that can be taken from a grid.
//! * [`day05`]: ranges of fresh ingredient ids.
//! * [`day06`]: a worksheet of sums and products.
//! * [`day07`]: beams split on their way through a manifold.
//! * [`day08`]: junction boxes joined into circuits.
//! * [`day09`]: the greatest rectangle between red tiles.
//! * [`day10`]: machines with indicator lights and joltage counters.
//! * [`day11`]: the routes between the devices of a reactor.
//! * [`text`]: cutting text into lines, tokens and numbers.

pub mod day01;
pub mod day02;
pub mod day03;
pub mod day04;
pub mod day05;
pub mod day06;
pub mod day07;
pub mod day08;
pub mod day09;
pub mod day10;
pub mod day11;
pub mod text;
