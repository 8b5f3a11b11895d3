//! What handles the traffic of one connection.
//!
//! - [`dispatch`]: the requests that were sent and wait for their response.
//! - [`frame`]: the frame manager, with the frames and navigations it keeps.
//! - [`model`]: what the frame manager holds as plain values, and what each
//!   report of the browser makes of it.
//! - [`tree`]: the frame tree as a mathematical map, and what keeps it a tree.
//! - [`laws`]: what holds of the frame manager whatever the browser reports.

use vstd::prelude::*;

pub mod dispatch;
pub mod frame;
pub mod laws;
pub mod model;
pub mod tree;

verus! {

/// How long a request, a step of a command chain or a navigation may take, in
/// milliseconds.
pub const REQUEST_TIMEOUT: u64 = 20_000;

} // verus!
