//! Connection parameters of a managed device.
use vstd::prelude::*;

verus! {

/// How to reach and log in to one device: its port and credentials.
#[derive(Clone, Debug)]
pub struct HostParameters {
    port: isize,
    user: String,
    password: String,
}

impl HostParameters {
    pub closed spec fn spec_port(&self) -> isize {
        self.port
    }

    pub closed spec fn spec_user(&self) -> Seq<char> {
        self.user@
    }

    pub closed spec fn spec_password(&self) -> Seq<char> {
        self.password@
    }

    pub fn new(port: isize, user: String, password: String) -> (r: HostParameters)
        ensures
            r.spec_port() == port,
            r.spec_user() == user@,
            r.spec_password() == password@,
    {
        HostParameters { port, user, password }
    }

    pub fn port(&self) -> (r: isize)
        ensures
            r == self.spec_port(),
    {
        self.port
    }

    pub fn user(&self) -> (r: &String)
        ensures
            r@ == self.spec_user(),
    {
        &self.user
    }

    pub fn password(&self) -> (r: &String)
        ensures
            r@ == self.spec_password(),
    {
        &self.password
    }
}

} // verus!
