use acumen::recall::{channel_of, message_key, same_channel, Key, Pending, MAX_TRIGGERS, RETENTION_MS};

fn key(id: &str) -> Key {
    ("bot".into(), "group".into(), id.into())
}

#[test]
fn follow_recall_tracks_multiple_responses_once() {
    let mut state = Pending::new();
    let now = 5_000_000u64;
    assert!(state.sent(key("1"), &["a".into(), "b".into()], now).is_empty());
    assert!(state.sent(key("1"), &["b".into(), "c".into()], now).is_empty());
    assert_eq!(state.recalled(key("1"), now), vec!["a", "b", "c"]);
    assert!(state.recalled(key("1"), now).is_empty());
    assert_eq!(state.sent(key("1"), &["late".into()], now), vec!["late"]);
    assert!(state.recalled(key("2"), now).is_empty());
    assert_eq!(state.sent(key("2"), &["after".into()], now), vec!["after"]);
}

#[test]
fn follow_recall_is_scoped_and_bounded() {
    let mut state = Pending::new();
    let now = 5_000_000u64;
    state.sent(key("expired"), &["old".into()], now - RETENTION_MS);
    state.sent(key("1"), &["reply".into()], now);
    assert!(!state.contains(&key("expired")));
    assert!(state
        .recalled(("other-bot".into(), "group".into(), "1".into()), now)
        .is_empty());
    assert_eq!(state.recalled(key("1"), now), vec!["reply"]);
    for i in 0..=MAX_TRIGGERS {
        state.recalled(key(&i.to_string()), now);
    }
    assert!(state.len() <= MAX_TRIGGERS);
}

#[test]
fn only_track_responses_in_the_trigger_channel() {
    assert!(same_channel(Some(42), Some(7), Some(42), None));
    assert!(!same_channel(Some(42), Some(7), Some(43), None));
    assert!(!same_channel(Some(42), Some(7), None, Some(7)));
    assert!(same_channel(None, Some(7), None, Some(7)));
    assert!(!same_channel(None, Some(7), None, Some(8)));
    assert!(same_channel(Some(0), Some(7), Some(0), Some(7)));
}

#[test]
fn triggers_are_keyed_by_channel_and_message() {
    assert_eq!(channel_of(Some(42), Some(7)), Some("42".to_string()));
    assert_eq!(channel_of(Some(0), Some(7)), Some("private:7".to_string()));
    assert_eq!(channel_of(None, None), None);
    assert_eq!(message_key(Some("abc"), Some(9)), Some("abc".to_string()));
    assert_eq!(message_key(Some("0"), Some(9)), Some("9".to_string()));
    assert_eq!(message_key(Some(""), Some(0)), None);
}
