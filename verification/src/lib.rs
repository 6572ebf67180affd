//! A substrate for turn-based, multi-agent simulation environments, plus one
//! concrete environment (Gomoku / five-in-a-row) built on it.
//!
//! The core is a fixed-rank, dynamically shaped, row-major tensor with strided
//! indexing and a two-dimensional valid convolution, and an environment state
//! machine that uses the convolution to detect winning runs on the board.

use vstd::prelude::*;

pub mod agent;
pub mod env;
pub mod gomoku;
pub mod matrix;
pub mod ndarray;
pub mod room;
pub mod session;
pub mod win;

use crate::session::Session;

verus! {

/// The sessions a server currently holds.
pub struct ServerState {
    pub sessions: Vec<Session>,
}

impl ServerState {
    /// A server with no sessions yet.
    pub fn new() -> (r: ServerState)
        ensures
            r.sessions@.len() == 0,
    {
        ServerState { sessions: Vec::new() }
    }
}

} // verus!
