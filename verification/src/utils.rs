use vstd::prelude::*;
use vstd::string::StringExecFns;
use crate::block::{Block, ClientID};

verus! {

/// A batch of blocks travelling between replicas.
pub type Updates = Vec<Block>;

/// Errors surfaced by the engine.
#[derive(Clone, Debug)]
pub enum CRDTError {
    RegisterUserFailed,
    Unknown(String),
    ZKCreateZnodeFailed(String),
    BackgroundSyncFailed(String),
    MalformedPayload(String),
}

impl CRDTError {
    /// A human-readable description of the error.
    pub fn message(&self) -> String {
        match self {
            CRDTError::RegisterUserFailed => {
                let mut s = String::new();
                s.append("cannot register user");
                s
            },
            CRDTError::Unknown(x) => {
                let mut s = String::new();
                s.append("unknown error: ");
                s.append(x.as_str());
                s
            },
            CRDTError::ZKCreateZnodeFailed(x) => {
                let mut s = String::new();
                s.append("failed to create path: ");
                s.append(x.as_str());
                s
            },
            CRDTError::BackgroundSyncFailed(x) => {
                let mut s = String::new();
                s.append("failed to sync in the background ");
                s.append(x.as_str());
                s
            },
            CRDTError::MalformedPayload(x) => {
                let mut s = String::new();
                s.append("malformed payload: ");
                s.append(x.as_str());
                s
            },
        }
    }
}

/// Another replica editing the same document, and where to reach it.
#[derive(Clone, Debug)]
pub struct Peer {
    pub client_id: ClientID,
    pub ip_addr: String,
}

/// Two peers carry the same data.
pub open spec fn peer_like(a: Peer, b: Peer) -> bool {
    a.client_id == b.client_id && a.ip_addr@ == b.ip_addr@
}

impl Peer {
    /// Structural equality of peers.
    pub fn same_as(&self, other: &Peer) -> (r: bool)
        ensures
            r == (self.client_id == other.client_id && self.ip_addr@ == other.ip_addr@),
    {
        self.client_id == other.client_id && self.ip_addr == other.ip_addr
    }
}

} // verus!
