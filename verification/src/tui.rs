//! The state of the terminal user interface.
use vstd::prelude::*;

verus! {

/// App holds the state of the application
pub struct App {}

impl App {
    /// Creates the application's state.
    pub fn new() -> (a: Self) {
        Self {}
    }
}

} // verus!
