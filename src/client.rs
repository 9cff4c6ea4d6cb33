//! Where a client connects, and with which password.
use vstd::prelude::*;

verus! {

/// The settings a connection is made from.
pub struct Client {
    addr: String,
    password: Option<String>,
}

impl Client {
    /// The server's address.
    pub closed spec fn spec_addr(&self) -> Seq<char> {
        self.addr@
    }

    /// The password to present, if any.
    pub closed spec fn spec_password(&self) -> Option<Seq<char>> {
        match self.password {
            Some(p) => Some(p@),
            None => None,
        }
    }

    /// Settings for the server at `addr`, with an optional password.
    pub fn new(addr: String, password: Option<String>) -> (c: Client)
        ensures
            c.spec_addr() == addr@,
            c.spec_password() == match password {
                Some(p) => Some(p@),
                None => None::<Seq<char>>,
            },
    {
        Client { addr, password }
    }

    /// The server's address.
    pub fn addr(&self) -> (r: &str)
        ensures
            r@ == self.spec_addr(),
    {
        self.addr.as_str()
    }

    /// The password to present, if any.
    pub fn password(&self) -> (r: Option<&str>)
        ensures
            match r {
                Some(p) => self.spec_password() == Some(p@),
                None => self.spec_password() is None,
            },
    {
        match &self.password {
            Some(p) => Some(p.as_str()),
            None => None,
        }
    }
}

} // verus!
