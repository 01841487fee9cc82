use vstd::prelude::*;

pub mod environment;
pub mod lexer;
pub mod num;
pub mod parser;
pub mod program;
pub mod render;
pub mod value;

pub use environment::Environment;
pub use lexer::STok;
pub use lexer::Token;
pub use lexer::TokenError;
pub use lexer::tokenize;
pub use num::Num;
pub use parser::ParseError;
pub use parser::ParseErrorKind;
pub use parser::parse;
pub use program::EvalError;
pub use program::Op;
pub use program::SErr;
pub use program::evaluate;
pub use render::lemma_integer_round_trip;
pub use render::lemma_symbol_round_trip;
pub use value::SpecVal;
pub use value::Value;
