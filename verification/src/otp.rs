//! The named ports of the node's message dispatcher. The dispatcher
//! itself — threads, channels, sockets — belongs to the surrounding
//! application; the library fixes the port names and their stable
//! indexes, so every component files and finds its mailbox at the same
//! slot.

use vstd::prelude::*;

verus! {

/// A named port of the message dispatcher.
#[derive(Clone, Copy, Debug, PartialEq, Eq, Structural)]
pub enum Port {
    Main,
    Reader,
    State,
    Recycle,
    Sender,
}

/// How many ports there are.
pub const PORT_COUNT: usize = 5;

impl Port {
    /// The slot a port's mailbox sits at, as the specification sees it:
    /// each name to its own index, in declaration order.
    pub open spec fn index_spec(self) -> usize {
        match self {
            Port::Main => 0,
            Port::Reader => 1,
            Port::State => 2,
            Port::Recycle => 3,
            Port::Sender => 4,
        }
    }

    /// The slot a port's mailbox sits at.
    pub fn to_usize(self) -> (r: usize)
        ensures
            r == self.index_spec(),
            r < PORT_COUNT,
    {
        match self {
            Port::Main => 0,
            Port::Reader => 1,
            Port::State => 2,
            Port::Recycle => 3,
            Port::Sender => 4,
        }
    }
}

} // verus!
