//! A verified core for parsing and running Bend programs: term syntax,
//! pattern compilation, lexing, and the call-by-need data runtime.
use vstd::prelude::*;

pub mod term;
pub mod text;
pub mod machine;
pub mod eval;
pub mod gc;
pub mod surface;
pub mod lexer;
pub mod book;
pub mod parser;
pub mod paths;
pub mod loader;
pub mod shape;
pub mod host_files;
pub mod numeric_text;
pub mod runtime_clock;
pub mod channels;
pub mod scheduler;
pub mod file_handles;
pub mod packed;
pub mod numeric;
pub mod naturals;
pub mod executable;
pub mod network;
pub mod native;
pub mod driver;

verus! {

} // verus!
