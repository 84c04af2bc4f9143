use laurent::authorize_request;
use laurent::authorize_response;
use laurent::cfg_event_request;
use laurent::cfg_event_response;
use laurent::frame_fields_ok;
use laurent::line_signal_request;
use laurent::line_signal_response;
use laurent::ping_request;
use laurent::ping_response;
use laurent::relay_request;
use laurent::relay_response;
use laurent::relay_status_request;
use laurent::relay_status_response;
use laurent::str_sep_free;
use laurent::ClickDelay;
use laurent::Codec;
use laurent::Error;
use laurent::EventKind;
use laurent::RelayAction;
use laurent::Signal;

fn fields(parts: &[&str]) -> Vec<String> {
    parts.iter().map(|p| p.to_string()).collect()
}

#[test]
fn request_builders_render_the_fixed_field_orders() {
    assert_eq!(ping_request(), fields(&["$KE"]));
    assert_eq!(
        authorize_request("Laurent"),
        fields(&["$KE", "PSW", "SET", "Laurent"])
    );
    assert_eq!(
        cfg_event_request(EventKind::Ein, true),
        fields(&["$KE", "MSG", "S", "EIN", "SET", "ON"])
    );
    assert_eq!(
        cfg_event_request(EventKind::Time, false),
        fields(&["$KE", "MSG", "S", "TIME", "SET", "OFF"])
    );
    assert_eq!(relay_status_request(3), fields(&["$KE", "RDR", "3"]));
    assert_eq!(line_signal_request(2), fields(&["$KE", "RD", "2"]));
}

#[test]
fn relay_requests_render_action_codes_and_delays() {
    assert_eq!(
        relay_request(1, RelayAction::On, None),
        fields(&["$KE", "REL", "1", "1"])
    );
    assert_eq!(
        relay_request(2, RelayAction::Off, None),
        fields(&["$KE", "REL", "2", "0"])
    );
    assert_eq!(
        relay_request(2, RelayAction::Toggle, None),
        fields(&["$KE", "REL", "2", "2"])
    );
    assert_eq!(
        relay_request(1, RelayAction::On, Some(ClickDelay::Millis100(5))),
        fields(&["$KE", "REL", "1", "1", ".5"])
    );
    assert_eq!(
        relay_request(1, RelayAction::On, Some(ClickDelay::Seconds(10))),
        fields(&["$KE", "REL", "1", "1", "10"])
    );
}

#[test]
fn separator_checks_guard_the_unescaped_wire() {
    assert!(str_sep_free("Laurent"));
    assert!(!str_sep_free("a,b"));
    assert!(!str_sep_free("a\rb"));
    assert!(!str_sep_free("a\nb"));
    assert!(frame_fields_ok(&fields(&["$KE", "INF"])));
    assert!(!frame_fields_ok(&fields(&[])));
    assert!(!frame_fields_ok(&fields(&["$KE", "a,b"])));
}

#[test]
fn ping_replies() {
    assert_eq!(ping_response(&fields(&["#OK"])), Ok(()));
    assert_eq!(ping_response(&fields(&["#ERR"])), Err(Error::SyntaxError));
    assert_eq!(
        ping_response(&fields(&["#WHAT"])),
        Err(Error::UnknownMessage)
    );
    assert_eq!(
        ping_response(&fields(&["#OK", "x"])),
        Err(Error::UnknownMessage)
    );
}

#[test]
fn authorize_replies() {
    assert_eq!(authorize_response(&fields(&["#PSW", "SET", "OK"])), Ok(()));
    assert_eq!(
        authorize_response(&fields(&["#PSW", "SET", "ERR"])),
        Err(Error::Auth)
    );
    assert_eq!(
        authorize_response(&fields(&["#ERR"])),
        Err(Error::SyntaxError)
    );
    assert_eq!(
        authorize_response(&fields(&["#PSW", "GET", "OK"])),
        Err(Error::UnknownMessage)
    );
}

#[test]
fn cfg_event_replies() {
    assert_eq!(cfg_event_response(&fields(&["#MSG", "SET", "OK"])), Ok(()));
    assert_eq!(
        cfg_event_response(&fields(&["#ERR"])),
        Err(Error::SyntaxError)
    );
    assert_eq!(
        cfg_event_response(&fields(&["#MSG", "SET", "NO"])),
        Err(Error::UnknownMessage)
    );
}

#[test]
fn relay_replies() {
    assert_eq!(relay_response(&fields(&["#REL", "OK"])), Ok(()));
    assert_eq!(relay_response(&fields(&["#ERR"])), Err(Error::SyntaxError));
    assert_eq!(
        relay_response(&fields(&["#REL", "NO"])),
        Err(Error::UnknownMessage)
    );
}

#[test]
fn relay_status_reports_its_own_relay() {
    assert_eq!(relay_status_response(3, &fields(&["#RDR", "3", "1"])), Ok(true));
    assert_eq!(relay_status_response(3, &fields(&["#RDR", "3", "0"])), Ok(false));
}

#[test]
fn relay_status_for_the_wrong_relay_is_unexpected() {
    assert_eq!(
        relay_status_response(3, &fields(&["#RDR", "1", "1"])),
        Err(Error::UnexpectedMessage)
    );
}

#[test]
fn relay_status_error_replies() {
    assert_eq!(
        relay_status_response(3, &fields(&["#RDR", "x", "1"])),
        Err(Error::ParseInt)
    );
    assert_eq!(
        relay_status_response(3, &fields(&["#ERR"])),
        Err(Error::SyntaxError)
    );
    assert_eq!(
        relay_status_response(3, &fields(&["#RD", "3", "1"])),
        Err(Error::UnknownMessage)
    );
}

#[test]
fn line_signal_replies() {
    assert_eq!(
        line_signal_response(3, &fields(&["#RD", "3", "1"])),
        Ok(Signal::High)
    );
    assert_eq!(
        line_signal_response(3, &fields(&["#RD", "3", "0"])),
        Ok(Signal::Low)
    );
    assert_eq!(
        line_signal_response(3, &fields(&["#RD", "2", "1"])),
        Err(Error::UnexpectedMessage)
    );
    assert!(matches!(
        line_signal_response(3, &fields(&["#RD", "3", "5"])),
        Err(Error::InvalidPayload(_))
    ));
    assert_eq!(
        line_signal_response(3, &fields(&["#RDR", "3", "1"])),
        Err(Error::UnknownMessage)
    );
}

#[test]
fn relay_status_straight_off_the_wire() {
    let mut codec = Codec::new();
    let mut bytes = b"#RDR,3,1\r\n".to_vec();
    let reply = codec.decode(&mut bytes).unwrap().expect("one status frame");
    assert_eq!(relay_status_response(3, &reply), Ok(true));
    assert_eq!(
        relay_status_response(1, &reply),
        Err(Error::UnexpectedMessage)
    );
}
