//! A front end for a small mathematical notation: source text is cut into
//! tokens, and tokens are parsed into literals, variables and function calls.

pub mod ast;
pub mod hometex_std;
pub mod lexer;
pub mod round_trip;
