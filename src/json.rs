pub mod constants;
pub mod lexer;
pub mod syntactic_analyzer;
pub mod round_trip;
