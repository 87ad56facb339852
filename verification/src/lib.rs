pub mod ast;
pub mod build_graph;
pub mod coercion;
pub mod exhaustiveness;
pub mod instantiate;
pub mod introspect_types;
pub mod kinds;
pub mod ordered_map;
pub mod parse_patterns;
pub mod parse_types;
pub mod parser;
pub mod print_patterns;
pub mod prune_unused_poly_vars;
pub mod reachability;
pub mod restamp;
pub mod short_str;
pub mod spans;
pub mod spines;
pub mod strings;
pub mod subsumption;
pub mod templates;
pub mod text;
pub mod tuples;
pub mod type_core;
pub mod type_errors;
pub mod typeck;
pub mod types;
pub mod unification;
pub mod unwindmap;
pub mod vec_index;

pub use crate::build_graph::FileProvider;

use vstd::prelude::*;

verus! {

/// The outcome of compiling a program.
#[derive(Debug, PartialEq, Eq)]
pub enum CompilationResult {
    /// The JavaScript code compiled from the program.
    Success(String),
    /// The error message.
    Error(String),
}

impl CompilationResult {
    /// The outcome as the compiler prints it: a status line, then the code or
    /// the message.
    pub fn render(&self) -> (r: String)
        ensures
            match self {
                CompilationResult::Success(js) => r@ == "SUCCESS\n"@ + js@,
                CompilationResult::Error(msg) => r@ == "ERROR\n"@ + msg@,
            },
    {
        match self {
            CompilationResult::Success(js) => crate::text::concat2("SUCCESS\n", js.as_str()),
            CompilationResult::Error(msg) => crate::text::concat2("ERROR\n", msg.as_str()),
        }
    }
}

} // verus!
