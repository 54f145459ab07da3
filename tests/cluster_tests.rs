use raft_kv::entry::{ClientRequest, Entry, EntryPayload};
use raft_kv::network::{ClusterConfig, ConfigError, TransportError};
use raft_kv::service::{
    client_read_reply, client_write_reply, ClientReadReply, ClientWriteReply, LeadershipCheck, ServiceError,
    WriteOutcome,
};
use raft_kv::store::Store;

fn addrs(list: &[&str]) -> Vec<String> {
    list.iter().map(|a| a.to_string()).collect()
}

#[test]
fn routing_table_resolves_members() {
    let config = ClusterConfig::new(&vec![1, 2, 3], &addrs(&["0.0.0.0:5001", "0.0.0.0:5002", "0.0.0.0:5003"])).unwrap();
    assert_eq!(config.address_of(2), Ok("0.0.0.0:5002".to_string()));
    assert_eq!(config.address_of(4), Err(TransportError::UnknownPeer));
    assert_eq!(config.members(), vec![1, 2, 3]);
}

#[test]
fn routing_table_rejects_bad_configuration() {
    assert!(matches!(ClusterConfig::new(&vec![1, 2], &addrs(&["a"])), Err(ConfigError::LengthMismatch)));
    assert!(matches!(ClusterConfig::new(&vec![1, 2, 1], &addrs(&["a", "b", "c"])), Err(ConfigError::DuplicateNode)));
}

#[test]
fn write_and_read_on_leader_and_follower() {
    let mut leader = Store::new(1);
    let follower = Store::new(2);
    assert_eq!(client_write_reply(WriteOutcome::Committed), Ok(ClientWriteReply::Success));
    let entry = Entry {
        index: 1,
        term: 1,
        payload: EntryPayload::Normal(ClientRequest { key: "x".to_string(), value: "1".to_string() }),
    };
    leader.append_log(&vec![entry.copy()]).unwrap();
    leader.apply_to_state_machine(&vec![entry]);
    let key = "x".to_string();
    match client_read_reply(LeadershipCheck::Confirmed, leader.read_state_machine(), &key) {
        Ok(ClientReadReply::Value(v)) => assert_eq!(v, Some("1".to_string())),
        other => panic!("unexpected reply {:?}", other),
    }
    match client_read_reply(LeadershipCheck::ForwardToLeader(Some(1)), follower.read_state_machine(), &key) {
        Ok(ClientReadReply::ForwardToLeader(l)) => assert_eq!(l, Some(1)),
        other => panic!("unexpected reply {:?}", other),
    }
}

#[test]
fn write_on_follower_is_forwarded() {
    assert_eq!(client_write_reply(WriteOutcome::ForwardToLeader(Some(3))), Ok(ClientWriteReply::ForwardToLeader(Some(3))));
    assert_eq!(client_write_reply(WriteOutcome::ForwardToLeader(None)), Ok(ClientWriteReply::ForwardToLeader(None)));
}

#[test]
fn engine_failures_surface_as_errors() {
    let store = Store::new(1);
    assert_eq!(client_write_reply(WriteOutcome::Failed), Err(ServiceError::WriteFailed));
    assert!(matches!(
        client_read_reply(LeadershipCheck::Failed, store.read_state_machine(), &"x".to_string()),
        Err(ServiceError::ReadFailed)
    ));
}

#[test]
fn read_of_missing_key_on_leader_has_no_value() {
    let store = Store::new(1);
    match client_read_reply(LeadershipCheck::Confirmed, store.read_state_machine(), &"nope".to_string()) {
        Ok(ClientReadReply::Value(v)) => assert_eq!(v, None),
        other => panic!("unexpected reply {:?}", other),
    }
}
