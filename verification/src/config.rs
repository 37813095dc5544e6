//! Process configuration handed in by the surrounding program.

use vstd::prelude::*;

verus! {

/// What the relay needs to run: where the credential store lives, the
/// address to serve on, and the per-identity log capacity.
#[derive(Clone)]
pub struct Config {
    pub db_config: String,
    pub bind_address: String,
    pub logsize: usize,
}

} // verus!
