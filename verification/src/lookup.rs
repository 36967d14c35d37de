//! Finding servers.

use vstd::prelude::*;
use std::sync::Arc;

verus! {

/// A way to find servers.
pub trait ServersLookup<Addr> {
    /// The addresses of the servers found.
    fn lookup(&self) -> Arc<Vec<Addr>>;
}

} // verus!
