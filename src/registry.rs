use vstd::prelude::*;

verus! {

/// A global object the display server advertises.
#[derive(Clone, Debug)]
pub struct Global {
    /// Numeric name the server gave the global.
    pub name: u32,
    /// Interface the global implements.
    pub interface: String,
    /// Highest version of the interface the server supports.
    pub version: u32,
}

} // verus!
