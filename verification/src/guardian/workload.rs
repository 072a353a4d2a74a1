//! What kind of work a stream of I/O is.

use vstd::prelude::*;

verus! {

/// The profile of a stream of I/O.
#[derive(Clone, Copy, PartialEq, Eq, Debug, Structural)]
pub enum StreamClass {
    Db,
    Log,
    Stream,
    Meta,
    Vm,
    Vhost,
}

} // verus!
