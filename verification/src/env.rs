//! The run's configuration.

use vstd::prelude::*;

verus! {

/// The two directory roots and the verbosity toggle. Reading the process
/// environment is the surrounding program's work; the values arrive here
/// as plain text, and a missing root is a fatal startup error out there.
pub struct Env {
    pub source: String,
    pub target: String,
    pub verbose: bool,
}

} // verus!
