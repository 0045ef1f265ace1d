use vstd::prelude::*;

pub mod builtins;
pub mod completion;
pub mod execution;
pub mod jobs;
pub mod lexer;
pub mod models;
pub mod parser;
pub mod prompt;
pub mod text;
pub mod traits;
pub mod utils;

verus! {

} // verus!
