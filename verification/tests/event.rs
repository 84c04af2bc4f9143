use laurent::signal_for_line;
use laurent::ClickDelay;
use laurent::RelayAction;
use laurent::Error;
use laurent::Event;
use laurent::EventKind;
use laurent::Serke;
use laurent::Signal;

fn fields(parts: &[&str]) -> Vec<String> {
    parts.iter().map(|p| p.to_string()).collect()
}

#[test]
fn input_line_change_parses() {
    let msg = fields(&["EIN", "1", "1"]);
    assert_eq!(
        Event::try_from_parts(&msg),
        Ok(Event::Ein { line: 1, signal: Signal::High })
    );
    let msg = fields(&["EIN", "12", "0"]);
    assert_eq!(
        Event::try_from_parts(&msg),
        Ok(Event::Ein { line: 12, signal: Signal::Low })
    );
}

#[test]
fn time_report_parses() {
    let msg = fields(&["TIME", "42"]);
    assert_eq!(Event::try_from_parts(&msg), Ok(Event::Time(42)));
}

#[test]
fn unknown_shapes_are_unknown_messages() {
    assert_eq!(
        Event::try_from_parts(&fields(&["NOPE"])),
        Err(Error::UnknownMessage)
    );
    assert_eq!(
        Event::try_from_parts(&fields(&["EIN", "1"])),
        Err(Error::UnknownMessage)
    );
    assert_eq!(
        Event::try_from_parts(&fields(&["TIME", "1", "2"])),
        Err(Error::UnknownMessage)
    );
    assert_eq!(Event::try_from_parts(&fields(&[])), Err(Error::UnknownMessage));
}

#[test]
fn malformed_line_number_is_a_parse_error() {
    assert_eq!(
        Event::try_from_parts(&fields(&["EIN", "x", "1"])),
        Err(Error::ParseInt)
    );
    assert_eq!(
        Event::try_from_parts(&fields(&["TIME", "soon"])),
        Err(Error::ParseInt)
    );
}

#[test]
fn malformed_signal_is_an_invalid_payload() {
    let r = Event::try_from_parts(&fields(&["EIN", "1", "2"]));
    assert!(matches!(r, Err(Error::InvalidPayload(_))));
}

#[test]
fn signal_parses_its_two_levels() {
    assert_eq!(Signal::parse("1"), Ok(Signal::High));
    assert_eq!(Signal::parse("0"), Ok(Signal::Low));
    let r = Signal::parse("2");
    match r {
        Err(Error::InvalidPayload(m)) => {
            assert_eq!(
                m,
                "The signal level can only be represented as `0` or `1`. Received: `2`"
            );
        }
        other => panic!("expected an invalid payload, got {other:?}"),
    }
}

#[test]
fn signal_from_bool_maps_levels() {
    assert_eq!(Signal::from_bool(true), Signal::High);
    assert_eq!(Signal::from_bool(false), Signal::Low);
}

#[test]
fn event_kind_keywords() {
    assert_eq!(EventKind::Ein.serke(), Some("EIN".to_string()));
    assert_eq!(EventKind::Time.serke(), Some("TIME".to_string()));
    assert_eq!(EventKind::Rele.serke(), Some("RELE".to_string()));
    assert_eq!(EventKind::In.serke(), Some("IN".to_string()));
    assert_eq!(EventKind::Out.serke(), Some("OUT".to_string()));
    assert_eq!(EventKind::Advc.serke(), Some("ADVC".to_string()));
    assert_eq!(EventKind::Pwm.serke(), Some("PWM".to_string()));
    assert_eq!(EventKind::Wt1.serke(), Some("1WT".to_string()));
}

#[test]
fn wire_codes_for_field_values() {
    assert_eq!(Signal::High.serke(), Some("1".to_string()));
    assert_eq!(Signal::Low.serke(), Some("0".to_string()));
    assert_eq!(RelayAction::On.serke(), Some("1".to_string()));
    assert_eq!(RelayAction::Off.serke(), Some("0".to_string()));
    assert_eq!(RelayAction::Toggle.serke(), Some("2".to_string()));
    assert_eq!(ClickDelay::Millis100(7).serke(), Some(".7".to_string()));
    assert_eq!(ClickDelay::Seconds(12).serke(), Some("12".to_string()));
}

#[test]
fn line_watcher_keeps_only_its_own_line() {
    let own = Event::Ein { line: 3, signal: Signal::High };
    let other = Event::Ein { line: 4, signal: Signal::Low };
    let time = Event::Time(7);
    assert_eq!(signal_for_line(3, &own), Some(Signal::High));
    assert_eq!(signal_for_line(3, &other), None);
    assert_eq!(signal_for_line(3, &time), None);
}
