//! The in-memory storage.

use raft_consensus::storage::{LogCommand, LogEntry, MemStorage, Storage};

#[test]
fn append_and_read_back() {
    let mut s: MemStorage<i32> = MemStorage::default();
    assert_eq!(s.last_index(), 0);
    s.append(vec![
        LogEntry {
            term: 1,
            index: 1,
            command: LogCommand::Command(10),
        },
        LogEntry {
            term: 1,
            index: 2,
            command: LogCommand::Command(20),
        },
    ]);
    assert_eq!(s.last_index(), 2);
    assert_eq!(s.term_at(1), Some(1));
    assert_eq!(s.term_at(0), Some(0));
    assert_eq!(s.entry(2).unwrap().command, LogCommand::Command(20));
}

#[test]
fn truncate_from_removes_suffix() {
    let mut s: MemStorage<i32> = MemStorage::default();
    s.append(vec![
        LogEntry {
            term: 1,
            index: 1,
            command: LogCommand::Command(1),
        },
        LogEntry {
            term: 1,
            index: 2,
            command: LogCommand::Command(2),
        },
        LogEntry {
            term: 2,
            index: 3,
            command: LogCommand::Command(3),
        },
    ]);
    s.truncate_from(2);
    assert_eq!(s.last_index(), 1);
    assert_eq!(s.entry(1).unwrap().command, LogCommand::Command(1));
}

#[test]
fn entries_from_is_a_suffix() {
    let mut s: MemStorage<i32> = MemStorage::default();
    s.append(vec![
        LogEntry {
            term: 1,
            index: 1,
            command: LogCommand::Command(1),
        },
        LogEntry {
            term: 1,
            index: 2,
            command: LogCommand::Command(2),
        },
    ]);
    assert_eq!(s.entries_from(2).len(), 1);
    assert_eq!(s.entries_from(3).len(), 0);
    assert_eq!(s.entries_from(1).len(), 2);
}

#[test]
fn terms_and_entries_out_of_range() {
    let mut s: MemStorage<i32> = MemStorage::default();
    assert_eq!((s.last_term(), s.term_at(1), s.voted_for()), (0, None, None));
    s.append(vec![
        LogEntry {
            term: 3,
            index: 1,
            command: LogCommand::NoOp,
        },
        LogEntry {
            term: 4,
            index: 2,
            command: LogCommand::Command(2),
        },
    ]);
    assert_eq!(s.last_term(), 4);
    assert!(s.entry(0).is_none());
    assert!(s.entry(3).is_none());
    assert!(s.entries_from(0).is_empty());
    s.set_term_and_vote(7, Some(2));
    assert_eq!((s.current_term(), s.voted_for()), (7, Some(2)));
    s.truncate_from(3);
    assert_eq!(s.last_index(), 2);
    s.truncate_from(0);
    assert_eq!(s.last_index(), 0);
    assert_eq!((s.current_term(), s.voted_for()), (7, Some(2)));
}
