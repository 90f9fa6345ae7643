use vstd::prelude::*;

pub mod cancel;
pub mod extractor;
pub mod parser;
pub mod paths;
pub mod pattern;
pub mod session;
pub mod text;
pub mod toc;
pub mod types;

verus! {

/// Returns the port number held by the backend state.
pub fn get_port(port: &types::Port) -> (r: u16)
    ensures
        r == port.0,
{
    port.0
}

} // verus!
