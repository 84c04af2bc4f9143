use vstd::prelude::*;
use vstd::string::StringExecFns;

verus! {

use crate::codec::Serke;
use crate::err::Error;
use crate::text::dec_chars;
use crate::text::str_eq;
use crate::text::u32_string;

/// The two levels a digital input line can report.
#[derive(Debug, Clone, Copy, PartialEq, Eq, Structural)]
pub enum Signal {
    High,
    Low,
}

/// The wire text of a signal level.
pub open spec fn spec_signal_code(s: Signal) -> Seq<char> {
    match s {
        Signal::High => "1"@,
        Signal::Low => "0"@,
    }
}

/// Which signal level, if any, a payload field denotes.
pub open spec fn spec_parse_signal(v: Seq<char>) -> Option<Signal> {
    if v == "1"@ {
        Option::Some(Signal::High)
    } else if v == "0"@ {
        Option::Some(Signal::Low)
    } else {
        Option::None
    }
}

/// The message carried by the error for a malformed signal field.
pub open spec fn spec_signal_message(v: Seq<char>) -> Seq<char> {
    "The signal level can only be represented as `0` or `1`. Received: `"@ + v + "`"@
}

impl Signal {
    pub fn from_bool(value: bool) -> (r: Signal)
        ensures
            r == (if value { Signal::High } else { Signal::Low }),
    {
        match value {
            true => Signal::High,
            false => Signal::Low,
        }
    }

    /// Reads a signal level off its wire text: `1` is high, `0` is low,
    /// and anything else is an invalid payload.
    pub fn parse(value: &str) -> (r: core::result::Result<Signal, Error>)
        ensures
            match spec_parse_signal(value@) {
                Option::Some(sig) => r == Ok::<Signal, Error>(sig),
                Option::None => r matches Err(e) && e matches Error::InvalidPayload(m) && m@
                    == spec_signal_message(value@),
            },
    {
        if str_eq(value, "1") {
            Ok(Signal::High)
        } else if str_eq(value, "0") {
            Ok(Signal::Low)
        } else {
            let mut m = "The signal level can only be represented as `0` or `1`. Received: `"
                .to_owned();
            m.append(value);
            m.append("`");
            Err(Error::InvalidPayload(m))
        }
    }
}

impl Serke for Signal {
    open spec fn serke_view(&self) -> Option<Seq<char>> {
        Option::Some(spec_signal_code(*self))
    }

    fn serke(&self) -> (r: Option<String>) {
        match self {
            Signal::High => Some("1".to_owned()),
            Signal::Low => Some("0".to_owned()),
        }
    }
}

/// What a relay can be told to do.
#[derive(Debug)]
pub enum RelayAction {
    On,
    Off,
    Toggle,
}

/// The fixed wire code of a relay action.
pub open spec fn spec_action_code(a: RelayAction) -> Seq<char> {
    match a {
        RelayAction::On => "1"@,
        RelayAction::Off => "0"@,
        RelayAction::Toggle => "2"@,
    }
}

impl Serke for RelayAction {
    open spec fn serke_view(&self) -> Option<Seq<char>> {
        Option::Some(spec_action_code(*self))
    }

    fn serke(&self) -> (r: Option<String>) {
        match self {
            RelayAction::On => Some("1".to_owned()),
            RelayAction::Off => Some("0".to_owned()),
            RelayAction::Toggle => Some("2".to_owned()),
        }
    }
}

/// An optional delay for a relay click: either a count of
/// hundred-millisecond steps behind a sub-second marker, or a plain
/// count of seconds.
#[derive(Debug)]
pub enum ClickDelay {
    Millis100(u32),
    Seconds(u32),
}

/// The wire text of a click delay.
pub open spec fn spec_delay_code(d: ClickDelay) -> Seq<char> {
    match d {
        ClickDelay::Millis100(m) => "."@ + dec_chars(m as nat),
        ClickDelay::Seconds(s) => dec_chars(s as nat),
    }
}

impl Serke for ClickDelay {
    open spec fn serke_view(&self) -> Option<Seq<char>> {
        Option::Some(spec_delay_code(*self))
    }

    fn serke(&self) -> (r: Option<String>) {
        match self {
            ClickDelay::Millis100(m) => {
                let mut s = ".".to_owned();
                s.append(u32_string(*m).as_str());
                Some(s)
            },
            ClickDelay::Seconds(secs) => Some(u32_string(*secs)),
        }
    }
}

} // verus!
