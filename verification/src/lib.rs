//! A value model and single-pass scanner for a compact, whitespace-delimited,
//! bracketed notation: null, boolean, numeric, string, array and keyed-map
//! values as nested text. The scanner keeps an explicit stack of open frames,
//! so deep nesting never grows the call stack; every operation's behaviour is
//! stated against a character-by-character specification of the dispatch
//! table and proved.

pub mod args;
pub mod balance;
pub mod constants;
pub mod error;
pub mod expr;
pub mod frame;
pub mod number;
pub mod scanner;
pub mod text;
pub mod val;
