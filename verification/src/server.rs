//! The HTTP server's configuration.

use vstd::prelude::*;

verus! {

/// An HTTP server listening at a socket address.
pub struct Server<'a> {
    socket_addr: &'a str,
}

impl<'a> Server<'a> {
    /// A server for the socket address `socket_addr`.
    pub fn new(socket_addr: &'a str) -> (res: Self)
        ensures
            res.addr() == socket_addr@,
    {
        Server { socket_addr }
    }

    /// The socket address.
    pub closed spec fn addr(self) -> Seq<char> {
        self.socket_addr@
    }

    /// The socket address the server listens at.
    pub fn socket_addr(&self) -> (res: &'a str)
        ensures
            res@ == self.addr(),
    {
        self.socket_addr
    }
}

} // verus!
