use vstd::prelude::*;

use crate::entry::NodeId;
use crate::state_machine::StateMachine;

verus! {

/// What the consensus engine made of a submitted client write.
#[derive(Clone, Copy, Debug, PartialEq, Eq, Structural)]
pub enum WriteOutcome {
    /// The write was committed.
    Committed,
    /// This node is not the leader; the leader is given where known.
    ForwardToLeader(Option<NodeId>),
    /// Any other engine error.
    Failed,
}

/// The engine's answer to "am I still the leader with an up-to-date commit
/// view?", asked before a read.
#[derive(Clone, Copy, Debug, PartialEq, Eq, Structural)]
pub enum LeadershipCheck {
    Confirmed,
    ForwardToLeader(Option<NodeId>),
    Failed,
}

/// The reply to a client write.
#[derive(Clone, Copy, Debug, PartialEq, Eq, Structural)]
pub enum ClientWriteReply {
    Success,
    /// Retry against this leader (none when it is unknown).
    ForwardToLeader(Option<NodeId>),
}

/// The reply to a client read.
#[derive(Debug)]
pub enum ClientReadReply {
    /// The value stored under the key, if any.
    Value(Option<String>),
    /// Retry against this leader (none when it is unknown); no value.
    ForwardToLeader(Option<NodeId>),
}

/// An engine failure surfaced to the client.
#[derive(Clone, Copy, Debug, PartialEq, Eq, Structural)]
pub enum ServiceError {
    WriteFailed,
    ReadFailed,
}

/// The reply to a client write, from what the engine made of it.
pub fn client_write_reply(outcome: WriteOutcome) -> (r: Result<ClientWriteReply, ServiceError>)
    ensures
        outcome == WriteOutcome::Committed ==> r == Ok::<ClientWriteReply, ServiceError>(ClientWriteReply::Success),
        outcome matches WriteOutcome::ForwardToLeader(l) ==> r == Ok::<ClientWriteReply, ServiceError>(
            ClientWriteReply::ForwardToLeader(l),
        ),
        outcome == WriteOutcome::Failed ==> r == Err::<ClientWriteReply, ServiceError>(ServiceError::WriteFailed),
{
    match outcome {
        WriteOutcome::Committed => Ok(ClientWriteReply::Success),
        WriteOutcome::ForwardToLeader(l) => Ok(ClientWriteReply::ForwardToLeader(l)),
        WriteOutcome::Failed => Err(ServiceError::WriteFailed),
    }
}

/// The reply to a client read of `key`. The state machine is read only once
/// the leadership check has succeeded; otherwise the client is sent to the
/// leader with no value.
pub fn client_read_reply(check: LeadershipCheck, sm: &StateMachine, key: &String) -> (r: Result<
    ClientReadReply,
    ServiceError,
>)
    requires
        sm.wf(),
    ensures
        check == LeadershipCheck::Confirmed ==> (r matches Ok(ClientReadReply::Value(v)) && match v {
            Some(x) => sm@.kv.contains_key(key@) && sm@.kv[key@] == x@,
            None => !sm@.kv.contains_key(key@),
        }),
        check matches LeadershipCheck::ForwardToLeader(l) ==> r == Ok::<ClientReadReply, ServiceError>(
            ClientReadReply::ForwardToLeader(l),
        ),
        check == LeadershipCheck::Failed ==> r == Err::<ClientReadReply, ServiceError>(ServiceError::ReadFailed),
{
    match check {
        LeadershipCheck::Confirmed => Ok(ClientReadReply::Value(sm.get(key))),
        LeadershipCheck::ForwardToLeader(l) => Ok(ClientReadReply::ForwardToLeader(l)),
        LeadershipCheck::Failed => Err(ServiceError::ReadFailed),
    }
}

} // verus!
