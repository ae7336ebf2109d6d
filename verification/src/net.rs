//! Plain networking vocabulary. The sockets themselves are an external
//! collaborator; only the data types shared with it live here.

use vstd::prelude::*;

verus! {

/// A value that can be written onto the wire.
pub trait Serializable {

}

/// A value that can be read back off the wire.
pub trait Deserializable {

}

/// Socket-layer failures.
#[derive(Clone, Copy, Debug, PartialEq, Eq, Structural)]
pub enum Error {
    CantOpen,
    AddrAlreadyInUse,
}

/// Transport flavor of a socket.
#[derive(Clone, Copy, Debug, PartialEq, Eq, Structural)]
pub enum SocketType {
    Stream,
    Datagram,
}

} // verus!
