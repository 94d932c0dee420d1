//! Error kinds surfaced at the core boundary.
use vstd::prelude::*;

verus! {

/// An error of the dispatch core; each kind carries a human-readable message.
#[derive(Debug, Clone)]
pub enum Error {
    /// Signature invalid or required.
    Auth(String),
    /// Malformed presence data or unknown channel semantics.
    Channel(String),
    /// Socket missing, write failed, or closed.
    Connection(String),
    /// Malformed frame or message.
    Protocol(String),
    /// Broker unreachable.
    Transport(String),
    /// Cluster request expired.
    Timeout(String),
    /// Invalid app or configuration.
    Config(String),
}

impl Error {
    pub open spec fn is_auth(&self) -> bool {
        self is Auth
    }

    pub open spec fn is_channel(&self) -> bool {
        self is Channel
    }

    pub open spec fn is_connection(&self) -> bool {
        self is Connection
    }

    pub open spec fn is_transport(&self) -> bool {
        self is Transport
    }

    pub open spec fn is_protocol(&self) -> bool {
        self is Protocol
    }

    /// The message carried by the error.
    pub fn message(&self) -> (r: String) {
        match self {
            Error::Auth(m) => m.clone(),
            Error::Channel(m) => m.clone(),
            Error::Connection(m) => m.clone(),
            Error::Protocol(m) => m.clone(),
            Error::Transport(m) => m.clone(),
            Error::Timeout(m) => m.clone(),
            Error::Config(m) => m.clone(),
        }
    }
}

} // verus!
