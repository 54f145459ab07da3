use vstd::prelude::*;

verus! {

/// Identifier of a node in the cluster.
pub type NodeId = u64;

/// A client's write command: set `key` to `value`.
#[derive(Clone, Debug)]
pub struct ClientRequest {
    pub key: String,
    pub value: String,
}

/// What a log entry carries.
#[derive(Clone, Debug)]
pub enum EntryPayload {
    /// An entry with no command (a new leader's first entry).
    Blank,
    /// An entry carrying a client command.
    Normal(ClientRequest),
}

/// The unit of replication: a command tagged with its index and term.
#[derive(Clone, Debug)]
pub struct Entry {
    pub index: u64,
    pub term: u64,
    pub payload: EntryPayload,
}

impl ClientRequest {
    pub fn copy(&self) -> (r: ClientRequest)
        ensures
            r == *self,
    {
        ClientRequest { key: self.key.clone(), value: self.value.clone() }
    }
}

impl EntryPayload {
    pub fn copy(&self) -> (r: EntryPayload)
        ensures
            r == *self,
    {
        match self {
            EntryPayload::Blank => EntryPayload::Blank,
            EntryPayload::Normal(req) => EntryPayload::Normal(req.copy()),
        }
    }
}

impl Entry {
    pub fn copy(&self) -> (r: Entry)
        ensures
            r == *self,
    {
        Entry { index: self.index, term: self.term, payload: self.payload.copy() }
    }
}

} // verus!
