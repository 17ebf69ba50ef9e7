use recon::protocol::{
    decode_event, decode_reply, encode_event, encode_reply, encode_start, run_session,
    worker_terminal_event, ErrorLatch, Event, Orchestrator, Reply, StartCommand, StepAction,
};
use recon::registry::Module;
use recon::store::{Database, Object};

fn sample_module() -> Module {
    Module::load(
        "kpcyrd",
        "dns-brute",
        "-- Description: probes names\n-- Version: 0.1\nfunction run() end\n",
    )
    .unwrap()
}

#[test]
fn event_encodings_are_canonical_json() {
    let e = Event::Object(Object::Subdomain {
        domain_id: 1,
        value: "a.example.com".to_string(),
    });
    let line = encode_event(&e);
    assert_eq!(
        line,
        "{\"Object\":{\"Subdomain\":{\"domain_id\":1,\"value\":\"a.example.com\"}}}"
    );
    // an independent JSON reader agrees about the structure
    let v: serde_json::Value = serde_json::from_str(&line).unwrap();
    assert_eq!(v["Object"]["Subdomain"]["domain_id"], 1);
    assert_eq!(v["Object"]["Subdomain"]["value"], "a.example.com");
}

#[test]
fn reply_encodings_are_canonical_json() {
    assert_eq!(encode_reply(&Reply::Id(42)), "{\"Ok\":42}");
    assert_eq!(
        encode_reply(&Reply::Failure("boom".to_string())),
        "{\"Err\":\"boom\"}"
    );
    let v: serde_json::Value = serde_json::from_str(&encode_reply(&Reply::Id(-7))).unwrap();
    assert_eq!(v["Ok"], -7);
}

#[test]
fn start_frame_matches_serde_view() {
    let cmd = StartCommand::new(sample_module(), "\"value\"".to_string());
    let line = encode_start(&cmd);
    let v: serde_json::Value = serde_json::from_str(&line).unwrap();
    assert_eq!(v["module"]["name"], "dns-brute");
    assert_eq!(v["module"]["author"], "kpcyrd");
    assert_eq!(v["module"]["description"], "probes names");
    assert_eq!(v["module"]["version"], "0.1");
    assert!(v["module"]["argument"].is_null());
    assert_eq!(v["arg"], "value");
}

#[test]
fn decode_round_trips() {
    let events = vec![
        Event::Done,
        Event::Error("boom".to_string()),
        Event::Info("note".to_string()),
        Event::Log("line with \"quotes\" and \\ slashes\n".to_string()),
        Event::Object(Object::IpAddr { family: "4".to_string(), value: "1.2.3.4".to_string() }),
        Event::Object(Object::SubdomainIpAddr { subdomain_id: 3, ip_addr_id: -2 }),
    ];
    for e in events {
        let line = encode_event(&e);
        let back = decode_event(&line).unwrap();
        assert_eq!(encode_event(&back), line);
    }
    let line = encode_reply(&Reply::Failure("no".to_string()));
    assert_eq!(encode_reply(&decode_reply(&line).unwrap()), line);
}

#[test]
fn decode_refuses_noncanonical_lines() {
    assert!(decode_event("").is_none());
    assert!(decode_event("Done").is_none());
    assert!(decode_event("{\"Error\":}").is_none());
    assert!(decode_event("{\"Object\":{\"Subdomain\":{\"value\":\"a\",\"domain_id\":1}}}").is_none());
    assert!(decode_reply("{\"Ok\":\"1\"}").is_none());
}

// The module-protocol scenario: a finding arrives as a wire line, the
// orchestrator stores it and answers with its identifier.
#[test]
fn module_protocol_session() {
    let mut db = Database::establish("scope");
    db.insert_domain("example.com").unwrap();
    // make room so the stored subdomain receives identifier 42
    for i in 0..41 {
        db.insert_subdomain(&format!("host{}.example.com", i), "example.com").unwrap();
    }
    let line = "{\"Object\":{\"Subdomain\":{\"domain_id\":1,\"value\":\"a.example.com\"}}}";
    let ev = decode_event(line).unwrap();
    let mut orch = Orchestrator::new();
    let action = orch.step(&mut db, ev);
    match action {
        StepAction::Answer(rep) => assert_eq!(encode_reply(&rep), "{\"Ok\":42}"),
        _ => panic!("a finding must be answered"),
    }
    assert!(!orch.finished());
    let done = decode_event("\"Done\"").unwrap();
    let action = orch.step(&mut db, done);
    assert!(matches!(action, StepAction::Finished));
    assert!(orch.finished());
    assert!(orch.failure().is_none());
    assert_eq!(db.subdomain("a.example.com"), Ok(42));
}

// The child-error scenario: the terminal error ends the session and the
// invocation fails with the child's message.
#[test]
fn child_error_fails_invocation() {
    let mut db = Database::establish("scope");
    let ev = decode_event("{\"Error\":\"boom\"}").unwrap();
    let (replies, failure) = run_session(&mut db, vec![ev]);
    assert_eq!(replies.len(), 0);
    assert_eq!(failure.as_deref(), Some("boom"));
}

// Protocol linearity on a concrete trace: one reply per finding, in
// order, and nothing after the terminal event is consumed.
#[test]
fn session_alternates_and_stops_at_terminal() {
    let mut db = Database::establish("scope");
    db.insert_domain("example.com").unwrap();
    let events = vec![
        Event::Info("starting".to_string()),
        Event::Object(Object::Subdomain { domain_id: 1, value: "a.example.com".to_string() }),
        Event::Object(Object::Subdomain { domain_id: 1, value: "a.example.com".to_string() }),
        Event::Done,
        Event::Object(Object::Subdomain { domain_id: 1, value: "late.example.com".to_string() }),
    ];
    let (replies, failure) = run_session(&mut db, events);
    assert_eq!(replies.len(), 2);
    assert_eq!(encode_reply(&replies[0]), "{\"Ok\":1}");
    assert_eq!(encode_reply(&replies[1]), "{\"Ok\":1}");
    assert!(failure.is_none());
    // the event after Done was never consumed
    assert_eq!(db.subdomain_optional("late.example.com"), Ok(None));
}

#[test]
fn failed_insert_is_answered_with_the_message() {
    let mut db = Database::establish("scope");
    let ev = Event::Object(Object::Subdomain {
        domain_id: 9,
        value: "a.example.com".to_string(),
    });
    let mut orch = Orchestrator::new();
    match orch.step(&mut db, ev) {
        StepAction::Answer(Reply::Failure(m)) => {
            assert_eq!(m, "reference to a missing row");
        },
        _ => panic!("a refused finding must be answered with the error"),
    }
}

#[test]
fn error_latch_keeps_the_first_error() {
    let mut latch = ErrorLatch::new();
    assert!(!latch.is_set());
    latch.set_error("first".to_string());
    latch.set_error("second".to_string());
    let ev = worker_terminal_event(latch, Ok(()));
    assert_eq!(encode_event(&ev), "{\"Error\":\"first\"}");
}

#[test]
fn worker_reports_done_only_without_errors() {
    let ev = worker_terminal_event(ErrorLatch::new(), Ok(()));
    assert_eq!(encode_event(&ev), "\"Done\"");
    let ev = worker_terminal_event(ErrorLatch::new(), Err("script failed".to_string()));
    assert_eq!(encode_event(&ev), "{\"Error\":\"script failed\"}");
}

#[test]
fn control_characters_encode_as_serde_does() {
    let e = Event::Info("a\u{1}b\u{8}c".to_string());
    let line = encode_event(&e);
    assert_eq!(line, "{\"Info\":\"a\\u0001b\\bc\"}");
    // an independent JSON reader recovers the same text
    let v: serde_json::Value = serde_json::from_str(&line).unwrap();
    assert_eq!(v["Info"], "a\u{1}b\u{8}c");
}
