//! The key-value store.

use raft_consensus::state_machine::{KvCommand, KvOutput, KvStore, StateMachine};

#[test]
fn set_then_delete() {
    let mut kv = KvStore::default();
    kv.apply(&KvCommand::Put {
        key: "a".into(),
        value: "1".into(),
    });
    assert_eq!(kv.map.get("a"), Some(&"1".to_string()));
    let out = kv.apply(&KvCommand::Delete { key: "a".into() });
    assert_eq!(out, KvOutput::Deleted(Some("1".to_string())));
    assert!(!kv.map.contains_key("a"));
}

#[test]
fn setting_again_replaces_and_deleting_nothing_finds_nothing() {
    let mut kv = KvStore::default();
    assert_eq!(
        kv.apply(&KvCommand::Delete { key: "a".into() }),
        KvOutput::Deleted(None)
    );
    for value in ["1", "2"] {
        assert_eq!(
            kv.apply(&KvCommand::Put {
                key: "a".into(),
                value: value.into(),
            }),
            KvOutput::Put
        );
    }
    assert_eq!(kv.map.get("a"), Some(&"2".to_string()));
    assert_eq!(kv.clone(), kv);
}

#[test]
fn set_names_its_key_and_value() {
    assert_eq!(
        raft_consensus::state_machine::set("a", "1"),
        KvCommand::Put {
            key: "a".into(),
            value: "1".into(),
        }
    );
}
