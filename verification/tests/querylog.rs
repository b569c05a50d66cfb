//! The query log.

use bulwark::engine::querylog::{QueryAction, QueryLog, QueryLogEntry};

#[test]
fn gate_respects_enabled_and_missing_sink() {
    let mut log = QueryLog::new(false, false);
    assert!(log.push(QueryLogEntry::empty()).is_none());
    log.reconfigure(true, false);
    assert!(log.push(QueryLogEntry::empty()).is_none());
    assert!(log.is_enabled());
}

#[test]
fn push_forwards_to_sink_when_enabled() {
    let mut log = QueryLog::new(true, false);
    log.set_sink();
    let mut e = QueryLogEntry::empty();
    e.id = 42;
    let got = log.push(e).expect("entry forwarded");
    assert_eq!(got.id, 42);

    log.reconfigure(false, false);
    assert!(log.push(QueryLogEntry::empty()).is_none());
}

#[test]
fn anonymize_clears_client_ip_on_push() {
    let mut log = QueryLog::new(true, true);
    log.set_sink();
    let mut e = QueryLogEntry::empty();
    e.client_ip = "10.0.0.1".to_string();
    let got = log.push(e).expect("entry forwarded");
    assert!(
        got.client_ip.is_empty(),
        "client IP dropped when anonymizing"
    );
}

#[test]
fn one_drop_in_4096_warns() {
    let mut log = QueryLog::new(true, false);
    assert_eq!(log.note_drop(), Some(1));
    for _ in 0..4095 {
        assert_eq!(log.note_drop(), None);
    }
    assert_eq!(log.note_drop(), Some(4097));
}

#[test]
fn entries_say_what_was_done() {
    let mut e = QueryLogEntry::empty();
    assert!(e.cached() && !e.is_blocked());
    assert_eq!((e.rule(), e.list_id(), e.upstream()), (None, None, None));
    e.action = QueryAction::Blocked {
        rule: "||ads^".to_string(),
        list_id: 3,
    };
    assert!(e.is_blocked() && !e.cached());
    assert_eq!((e.rule(), e.list_id()), (Some("||ads^"), Some(3)));
    e.allowlisted = true;
    assert!(!e.is_blocked());
    e.action = QueryAction::Rewritten {
        rule: "r".to_string(),
        list_id: 4,
    };
    assert_eq!((e.rule(), e.list_id()), (Some("r"), Some(4)));
    e.action = QueryAction::Forwarded {
        upstream: "1.1.1.1".to_string(),
    };
    assert_eq!(e.upstream(), Some("1.1.1.1"));
}
