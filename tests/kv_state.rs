use raft_kv::{Command, KvState};

#[test]
fn test_kv_put_get_delete() {
    let mut state = KvState::new();

    state.apply(Command::Put {
        key: "Anna".to_string(),
        value: "one dollar".to_string(),
    });

    let v = state.get("Anna");
    assert_eq!(v.map(|s| s.as_str()), Some("one dollar"));

    state.apply(Command::Delete {
        key: "Anna".to_string(),
    });

    let v = state.get("Anna");
    assert_eq!(v, None);
}

#[test]
fn put_overwrites_earlier_value() {
    let mut state = KvState::new();
    state.apply(Command::Put { key: "k".into(), value: "first".into() });
    state.apply(Command::Put { key: "k".into(), value: "second".into() });
    assert_eq!(state.get("k").map(|s| s.as_str()), Some("second"));
}

#[test]
fn delete_of_absent_key_is_silent() {
    let mut state = KvState::new();
    state.apply(Command::Put { key: "a".into(), value: "1".into() });
    state.apply(Command::Delete { key: "missing".into() });
    assert_eq!(state.get("a").map(|s| s.as_str()), Some("1"));
    assert_eq!(state.get("missing"), None);
}

#[test]
fn get_command_changes_nothing() {
    let mut state = KvState::new();
    state.apply(Command::Get { key: "a".into() });
    assert_eq!(state.get("a"), None);
    state.apply(Command::Put { key: "a".into(), value: "1".into() });
    state.apply(Command::Get { key: "a".into() });
    assert_eq!(state.get("a").map(|s| s.as_str()), Some("1"));
}

#[test]
fn empty_value_is_distinct_from_absence() {
    let mut state = KvState::new();
    state.apply(Command::Put { key: "".into(), value: "".into() });
    assert_eq!(state.get("").map(|s| s.as_str()), Some(""));
    assert_eq!(state.get("x"), None);
}

#[test]
fn delete_keeps_other_keys() {
    let mut state = KvState::new();
    state.apply(Command::Put { key: "a".into(), value: "1".into() });
    state.apply(Command::Put { key: "b".into(), value: "2".into() });
    state.apply(Command::Put { key: "c".into(), value: "3".into() });
    state.apply(Command::Delete { key: "a".into() });
    assert_eq!(state.get("a"), None);
    assert_eq!(state.get("b").map(|s| s.as_str()), Some("2"));
    assert_eq!(state.get("c").map(|s| s.as_str()), Some("3"));
}

#[test]
fn same_commands_give_same_store() {
    let cmds = vec![
        Command::Put { key: "a".into(), value: "1".into() },
        Command::Put { key: "b".into(), value: "2".into() },
        Command::Delete { key: "a".into() },
        Command::Put { key: "c".into(), value: "3".into() },
    ];
    let mut first = KvState::new();
    let mut second = KvState::new();
    for c in cmds.iter() {
        first.apply(c.clone());
        second.apply(c.clone());
    }
    for k in ["a", "b", "c", "d"] {
        assert_eq!(first.get(k), second.get(k));
    }
}
