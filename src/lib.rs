use vstd::prelude::*;

pub mod chars;
pub mod lexer;
pub mod number;
pub mod properties;
pub mod url;

verus! {

pub use crate::lexer::{Lexem, Lexer};
pub use crate::number::NumberLiteral;

} // verus!
