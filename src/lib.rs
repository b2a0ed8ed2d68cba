pub mod text;
pub mod day9;
pub mod day10;
pub mod day12;
pub mod day13;
pub mod day14;
pub mod day15;
pub mod day17;
pub mod day23;
pub mod day24;
