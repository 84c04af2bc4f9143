use vstd::prelude::*;

verus! {

use crate::codec::Serke;
use crate::err::Error;
use crate::lio::spec_parse_signal;
use crate::lio::spec_signal_message;
use crate::lio::Signal;
use crate::text::parse_u32;
use crate::text::str_eq;
use crate::text::u32_of_text;
use crate::text::u32_text;

/// The event classes the device can be told to report.
#[derive(Debug)]
pub enum EventKind {
    Ein,
    Time,
    Rele,
    In,
    Out,
    Advc,
    Pwm,
    Wt1,
}

/// The keyword under which an event class travels on the wire.
pub open spec fn spec_kind_code(k: EventKind) -> Seq<char> {
    match k {
        EventKind::Ein => "EIN"@,
        EventKind::Time => "TIME"@,
        EventKind::Rele => "RELE"@,
        EventKind::In => "IN"@,
        EventKind::Out => "OUT"@,
        EventKind::Advc => "ADVC"@,
        EventKind::Pwm => "PWM"@,
        EventKind::Wt1 => "1WT"@,
    }
}

/// Every event-class keyword is free of the record separators.
pub proof fn lemma_kind_code_sep_free(k: EventKind)
    ensures
        crate::codec::sep_free(spec_kind_code(k)),
{
    reveal_strlit("EIN");
    reveal_strlit("TIME");
    reveal_strlit("RELE");
    reveal_strlit("IN");
    reveal_strlit("OUT");
    reveal_strlit("ADVC");
    reveal_strlit("PWM");
    reveal_strlit("1WT");
}

impl Serke for EventKind {
    open spec fn serke_view(&self) -> Option<Seq<char>> {
        Option::Some(spec_kind_code(*self))
    }

    fn serke(&self) -> (r: Option<String>) {
        match self {
            EventKind::Ein => Some("EIN".to_owned()),
            EventKind::Time => Some("TIME".to_owned()),
            EventKind::Rele => Some("RELE".to_owned()),
            EventKind::In => Some("IN".to_owned()),
            EventKind::Out => Some("OUT".to_owned()),
            EventKind::Advc => Some("ADVC".to_owned()),
            EventKind::Pwm => Some("PWM".to_owned()),
            EventKind::Wt1 => Some("1WT".to_owned()),
        }
    }
}

/// A parsed unsolicited notification from the device.
#[derive(Debug, Clone, PartialEq, Eq, Structural)]
pub enum Event {
    /// A digital input line changed to the given level.
    Ein { line: u32, signal: Signal },
    /// A periodic time report.
    Time(u32),
}

/// Whether the payload fields (the frame without its event marker) have
/// the shape of an input-line change.
pub open spec fn spec_is_ein_shape(parts: Seq<Seq<char>>) -> bool {
    parts.len() == 3 && parts[0] == "EIN"@
}

/// Whether the payload fields have the shape of a time report.
pub open spec fn spec_is_time_shape(parts: Seq<Seq<char>>) -> bool {
    parts.len() == 2 && parts[0] == "TIME"@
}

/// The event, if any, that a payload denotes: an input-line change with
/// a well-formed line number and level, or a time report with a
/// well-formed count.
pub open spec fn spec_event(parts: Seq<Seq<char>>) -> Option<Event> {
    if spec_is_ein_shape(parts) {
        if u32_text(parts[1]) && spec_parse_signal(parts[2]) is Some {
            Option::Some(
                Event::Ein {
                    line: u32_of_text(parts[1]) as u32,
                    signal: spec_parse_signal(parts[2]).unwrap(),
                },
            )
        } else {
            Option::None
        }
    } else if spec_is_time_shape(parts) {
        if u32_text(parts[1]) {
            Option::Some(Event::Time(u32_of_text(parts[1]) as u32))
        } else {
            Option::None
        }
    } else {
        Option::None
    }
}

impl Event {
    /// Reads an event off its payload fields. A payload of an unknown
    /// shape is an unknown message; a known shape with a malformed
    /// number or level reports that field's own error.
    pub fn try_from_parts(msg: &[String]) -> (r: core::result::Result<Event, Error>)
        ensures
            ({
                let p = msg.deep_view();
                &&& spec_event(p) matches Option::Some(e) ==> r == Ok::<Event, Error>(e)
                &&& spec_is_ein_shape(p) ==> {
                    if !u32_text(p[1]) {
                        r == Err::<Event, Error>(Error::ParseInt)
                    } else if spec_parse_signal(p[2]) is None {
                        r matches Err(e) && e matches Error::InvalidPayload(m) && m@
                            == spec_signal_message(p[2])
                    } else {
                        r == Ok::<Event, Error>(spec_event(p).unwrap())
                    }
                }
                &&& spec_is_time_shape(p) && !u32_text(p[1]) ==> r == Err::<Event, Error>(
                    Error::ParseInt,
                )
                &&& !spec_is_ein_shape(p) && !spec_is_time_shape(p) ==> r == Err::<Event, Error>(
                    Error::UnknownMessage,
                )
            }),
    {
        proof {
            assert(msg.deep_view().len() == msg@.len());
            assert(forall|i: int|
                0 <= i < msg@.len() ==> msg.deep_view()[i] == #[trigger] msg@[i]@);
        }
        if msg.len() == 3 && str_eq(msg[0].as_str(), "EIN") {
            let line = match parse_u32(msg[1].as_str()) {
                Ok(v) => v,
                Err(e) => {
                    return Err(e);
                },
            };
            let signal = match Signal::parse(msg[2].as_str()) {
                Ok(s) => s,
                Err(e) => {
                    return Err(e);
                },
            };
            Ok(Event::Ein { line, signal })
        } else if msg.len() == 2 && str_eq(msg[0].as_str(), "TIME") {
            let time = match parse_u32(msg[1].as_str()) {
                Ok(v) => v,
                Err(e) => {
                    return Err(e);
                },
            };
            Ok(Event::Time(time))
        } else {
            Err(Error::UnknownMessage)
        }
    }
}


/// The decision a line watcher applies to each event from its
/// subscription: an input-line change on its own line yields that
/// signal, and every other event is passed over.
pub fn signal_for_line(line: u32, event: &Event) -> (r: Option<Signal>)
    ensures
        match *event {
            Event::Ein { line: l, signal: s } => r == (if l == line {
                Option::Some(s)
            } else {
                Option::None::<Signal>
            }),
            Event::Time(_) => r is None,
        },
{
    match event {
        Event::Ein { line: l, signal } => {
            if *l == line {
                Some(*signal)
            } else {
                None
            }
        },
        Event::Time(_) => None,
    }
}

} // verus!
