pub mod day2;
pub mod driver;
pub mod output;
