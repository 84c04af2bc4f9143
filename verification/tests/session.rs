use laurent::ping_request;
use laurent::Error;
use laurent::Event;
use laurent::Session;
use laurent::SessionOutput;
use laurent::Signal;
use laurent::Slot;

fn fields(parts: &[&str]) -> Vec<String> {
    parts.iter().map(|p| p.to_string()).collect()
}

#[test]
fn events_reach_a_subscriber_in_wire_order() {
    let mut session = Session::new();
    let data = b"#M,EIN,1,1\r\n#M,EIN,1,0\r\n".to_vec();
    let outs = session.on_bytes(&data).unwrap();
    assert_eq!(
        outs,
        vec![
            SessionOutput::Event(Event::Ein { line: 1, signal: Signal::High }),
            SessionOutput::Event(Event::Ein { line: 1, signal: Signal::Low }),
        ]
    );
}

#[test]
fn marker_frames_never_become_responses_and_responses_never_become_events() {
    let mut session = Session::new();
    let data = b"#M,EIN,2,1\r\n#INF,Laurent-2\r\n".to_vec();
    let outs = session.on_bytes(&data).unwrap();
    assert_eq!(outs.len(), 2);
    assert!(matches!(outs[0], SessionOutput::Event(_)));
    match &outs[1] {
        SessionOutput::Response(parts) => {
            assert_eq!(parts.as_slice(), &["#INF", "Laurent-2"]);
        }
        other => panic!("a plain frame must come back as a response, got {other:?}"),
    }
}

#[test]
fn unknown_marker_payloads_are_dropped_silently() {
    let mut session = Session::new();
    let outs = session.on_bytes(&b"#M,WHAT\r\n#OK\r\n".to_vec()).unwrap();
    assert_eq!(outs, vec![SessionOutput::Response(fields(&["#OK"]))]);
}

#[test]
fn bytes_split_across_reads_stay_one_frame() {
    let mut session = Session::new();
    assert_eq!(session.on_bytes(&b"#IN".to_vec()).unwrap(), vec![]);
    assert_eq!(
        session.on_bytes(&b"F,1\r\n".to_vec()).unwrap(),
        vec![SessionOutput::Response(fields(&["#INF", "1"]))]
    );
}

#[test]
fn overlong_line_does_not_tear_the_session_down() {
    let mut session = Session::new();
    let mut data = vec![b'a'; 1500];
    data.extend_from_slice(b"\r\n#INF,ok\r\n");
    let outs = session.on_bytes(&data).unwrap();
    assert_eq!(outs, vec![SessionOutput::Response(fields(&["#INF", "ok"]))]);
    assert!(!session.is_closed());
}

#[test]
fn commands_encode_for_the_wire() {
    let mut session = Session::new();
    let bytes = session.on_command(&ping_request()).unwrap();
    assert_eq!(bytes.as_slice(), b"$KE\r\n");
}

#[test]
fn invalid_text_closes_the_session_for_everyone() {
    let mut session = Session::new();
    let bad = vec![b'#', b'A', b',', 0xFF, b'\r', b'\n'];
    assert!(matches!(session.on_bytes(&bad), Err(Error::Format)));
    assert!(session.is_closed());
    assert!(matches!(
        session.on_bytes(&b"#OK\r\n".to_vec()),
        Err(Error::Closed)
    ));
    assert!(matches!(
        session.on_command(&ping_request()),
        Err(Error::Closed)
    ));
}

#[test]
fn close_makes_every_later_call_fail_closed() {
    let mut session = Session::new();
    session.close();
    assert!(matches!(
        session.on_bytes(&b"#OK\r\n".to_vec()),
        Err(Error::Closed)
    ));
    assert!(matches!(
        session.on_command(&ping_request()),
        Err(Error::Closed)
    ));
}

#[test]
fn a_second_command_waits_until_the_first_is_taken() {
    let mut gate: Slot<Vec<String>> = Slot::new();
    assert!(gate.put(fields(&["$KE"])).is_ok());
    let refused = gate.put(fields(&["$KE", "RDR", "1"]));
    assert_eq!(refused, Err(fields(&["$KE", "RDR", "1"])));
    assert_eq!(gate.take(), Some(fields(&["$KE"])));
    assert!(gate.put(fields(&["$KE", "RDR", "1"])).is_ok());
    assert_eq!(gate.take(), Some(fields(&["$KE", "RDR", "1"])));
    assert_eq!(gate.take(), None);
}
