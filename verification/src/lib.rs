//! A lexical-analyzer generator: patterns (regular expressions) are registered
//! together with a token payload, compiled through Thompson's construction into
//! one merged NFA, determinized by subset construction, and driven over input
//! text with maximal-munch matching to produce a token sequence.

pub mod dfa;
pub mod lexer;
pub mod nfa;
pub mod regex;

pub use lexer::Lexer;
pub use lexer::UnrecognizedInputError;
pub use nfa::NFABuilder;
pub use regex::PatternErrorKind;
pub use regex::PatternSyntaxError;
pub use regex::RegexNode;
