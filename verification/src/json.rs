pub mod field;
pub mod parser;
pub mod round_trip;
pub mod stringify;
