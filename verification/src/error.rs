use std::time::Duration;
use vstd::prelude::*;

verus! {

#[verifier::external_type_specification]
#[verifier::external_body]
pub struct ExIoError(std::io::Error);

/// Every failure the library reports.
#[derive(Debug)]
pub enum Error {
    Io(std::io::Error),
    VarIntTooLong,
    PacketTooLarge(usize),
    Protocol(String),
    /// Reserved for DNS resolution failures.
    Dns(String),
    /// Reserved for connection timeouts.
    Timeout(Duration),
    MojangApi(String),
    InvalidAddress(String),
}

pub type Result<T> = std::result::Result<T, Error>;

impl Error {
    pub fn protocol(msg: String) -> (res: Self)
        ensures
            res == Error::Protocol(msg),
    {
        Error::Protocol(msg)
    }

    pub fn dns(msg: String) -> (res: Self)
        ensures
            res == Error::Dns(msg),
    {
        Error::Dns(msg)
    }

    pub fn timeout(duration: Duration) -> (res: Self)
        ensures
            res == Error::Timeout(duration),
    {
        Error::Timeout(duration)
    }
}

} // verus!
