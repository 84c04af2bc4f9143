use vstd::prelude::*;

verus! {

use crate::codec::frame_ok;
use crate::codec::sep_free;
use crate::codec::Serke;
use crate::err::Error;
use crate::event::lemma_kind_code_sep_free;
use crate::event::EventKind;
use crate::lio::spec_action_code;
use crate::lio::spec_delay_code;
use crate::lio::spec_parse_signal;
use crate::lio::spec_signal_message;
use crate::lio::ClickDelay;
use crate::lio::RelayAction;
use crate::lio::Signal;
use crate::text::dec_chars;
use crate::text::is_digit;
use crate::text::lemma_dec_chars_digits;
use crate::text::parse_u32;
use crate::text::str_eq;
use crate::text::u32_of_text;
use crate::text::u32_string;
use crate::text::u32_text;

/// A run of decimal digits contains none of the record separators.
pub proof fn lemma_digits_sep_free(s: Seq<char>)
    requires
        forall|i: int| 0 <= i < s.len() ==> is_digit(#[trigger] s[i]),
    ensures
        sep_free(s),
{
    assert forall|i: int| 0 <= i < s.len() implies s[i] != ',' && s[i] != '\r' && s[i] != '\n' by {
        assert(',' as u32 == 44);
        assert('\r' as u32 == 13);
        assert('\n' as u32 == 10);
    }
}

/// Checks at run time what [`sep_free`] states: that a field contains
/// no comma, carriage return or line feed.
pub fn str_sep_free(s: &str) -> (r: bool)
    ensures
        r == sep_free(s@),
{
    let n = vstd::string::StrSliceExecFns::unicode_len(s);
    let mut i: usize = 0;
    while i < n
        invariant
            n == s@.len(),
            0 <= i <= n,
            forall|k: int| 0 <= k < i ==> s@[k] != ',' && s@[k] != '\r' && s@[k] != '\n',
        decreases n - i,
    {
        let c = vstd::string::StrSliceExecFns::get_char(s, i);
        if c == ',' || c == '\r' || c == '\n' {
            return false;
        }
        i += 1;
    }
    true
}

/// Checks at run time what [`frame_ok`] states of a field vector.
pub fn frame_fields_ok(fields: &Vec<String>) -> (r: bool)
    ensures
        r == frame_ok(fields.deep_view()),
{
    let ghost dv = fields.deep_view();
    proof {
        assert(dv.len() == fields@.len());
        assert(forall|i: int| 0 <= i < fields@.len() ==> dv[i] == #[trigger] fields@[i]@);
    }
    if fields.len() == 0 {
        return false;
    }
    let mut i: usize = 0;
    while i < fields.len()
        invariant
            dv == fields.deep_view(),
            dv.len() == fields@.len(),
            forall|k: int| 0 <= k < fields@.len() ==> dv[k] == #[trigger] fields@[k]@,
            0 <= i <= fields@.len(),
            fields@.len() > 0,
            forall|k: int| 0 <= k < i ==> sep_free(#[trigger] dv[k]),
        decreases fields@.len() - i,
    {
        if !str_sep_free(fields[i].as_str()) {
            return false;
        }
        i += 1;
    }
    true
}

/// The liveness-check request: the bare selector.
pub fn ping_request() -> (r: Vec<String>)
    ensures
        r.deep_view() == seq!["$KE"@],
        frame_ok(r.deep_view()),
{
    let mut v: Vec<String> = Vec::new();
    v.push("$KE".to_owned());
    proof {
        reveal_strlit("$KE");
        assert(v.deep_view() =~= seq!["$KE"@]);
        assert(sep_free("$KE"@));
    }
    v
}

/// The credential-setting request around the given password, which must
/// be free of the record separators.
pub fn authorize_request(pwd: &str) -> (r: Vec<String>)
    requires
        sep_free(pwd@),
    ensures
        r.deep_view() == seq!["$KE"@, "PSW"@, "SET"@, pwd@],
        frame_ok(r.deep_view()),
{
    let mut v: Vec<String> = Vec::new();
    v.push("$KE".to_owned());
    v.push("PSW".to_owned());
    v.push("SET".to_owned());
    v.push(pwd.to_owned());
    proof {
        reveal_strlit("$KE");
        reveal_strlit("PSW");
        reveal_strlit("SET");
        assert(v.deep_view() =~= seq!["$KE"@, "PSW"@, "SET"@, pwd@]);
        assert(sep_free("$KE"@));
        assert(sep_free("PSW"@));
        assert(sep_free("SET"@));
    }
    v
}

/// The event-reporting configuration request for one event class.
pub fn cfg_event_request(kind: EventKind, enabled: bool) -> (r: Vec<String>)
    ensures
        r.deep_view() == seq![
            "$KE"@,
            "MSG"@,
            "S"@,
            crate::event::spec_kind_code(kind),
            "SET"@,
            (if enabled { "ON"@ } else { "OFF"@ }),
        ],
        frame_ok(r.deep_view()),
{
    let mut v: Vec<String> = Vec::new();
    v.push("$KE".to_owned());
    v.push("MSG".to_owned());
    v.push("S".to_owned());
    let code = match kind.serke() {
        Some(c) => c,
        None => unreached(),
    };
    v.push(code);
    v.push("SET".to_owned());
    let state = if enabled {
        "ON".to_owned()
    } else {
        "OFF".to_owned()
    };
    v.push(state);
    proof {
        reveal_strlit("$KE");
        reveal_strlit("MSG");
        reveal_strlit("S");
        reveal_strlit("SET");
        reveal_strlit("ON");
        reveal_strlit("OFF");
        lemma_kind_code_sep_free(kind);
        assert(v.deep_view() =~= seq![
            "$KE"@,
            "MSG"@,
            "S"@,
            crate::event::spec_kind_code(kind),
            "SET"@,
            (if enabled { "ON"@ } else { "OFF"@ }),
        ]);
        assert(sep_free("$KE"@));
        assert(sep_free("MSG"@));
        assert(sep_free("S"@));
        assert(sep_free("SET"@));
        assert(sep_free("ON"@));
        assert(sep_free("OFF"@));
    }
    v
}

/// The relay-action request: relay id as decimal text, the action's
/// fixed code, and the optional click delay.
pub fn relay_request(relay: u32, action: RelayAction, delay: Option<ClickDelay>) -> (r: Vec<
    String,
>)
    ensures
        ({
            let head = seq!["$KE"@, "REL"@, dec_chars(relay as nat), spec_action_code(action)];
            match delay {
                Option::Some(d) => r.deep_view() == head.push(spec_delay_code(d)),
                Option::None => r.deep_view() == head,
            }
        }),
        frame_ok(r.deep_view()),
{
    let mut v: Vec<String> = Vec::new();
    v.push("$KE".to_owned());
    v.push("REL".to_owned());
    v.push(u32_string(relay));
    let code = match action.serke() {
        Some(c) => c,
        None => unreached(),
    };
    v.push(code);
    match &delay {
        Some(d) => {
            let dcode = match d.serke() {
                Some(c) => c,
                None => unreached(),
            };
            v.push(dcode);
        },
        None => {},
    }
    proof {
        reveal_strlit("$KE");
        reveal_strlit("REL");
        reveal_strlit(".");
        reveal_strlit("0");
        reveal_strlit("1");
        reveal_strlit("2");
        lemma_dec_chars_digits(relay as nat);
        lemma_digits_sep_free(dec_chars(relay as nat));
        assert(sep_free("$KE"@));
        assert(sep_free("REL"@));
        assert(sep_free(spec_action_code(action)));
        let head = seq!["$KE"@, "REL"@, dec_chars(relay as nat), spec_action_code(action)];
        match delay {
            Option::Some(d) => {
                match d {
                    ClickDelay::Millis100(m) => {
                        lemma_dec_chars_digits(m as nat);
                        assert('.' as u32 == 46);
                        assert(sep_free(spec_delay_code(d)));
                    },
                    ClickDelay::Seconds(secs) => {
                        lemma_dec_chars_digits(secs as nat);
                        lemma_digits_sep_free(dec_chars(secs as nat));
                    },
                }
                assert(v.deep_view() =~= head.push(spec_delay_code(d)));
            },
            Option::None => {
                assert(v.deep_view() =~= head);
            },
        }
    }
    v
}

/// The relay-status query for one relay id.
pub fn relay_status_request(relay: u32) -> (r: Vec<String>)
    ensures
        r.deep_view() == seq!["$KE"@, "RDR"@, dec_chars(relay as nat)],
        frame_ok(r.deep_view()),
{
    let mut v: Vec<String> = Vec::new();
    v.push("$KE".to_owned());
    v.push("RDR".to_owned());
    v.push(u32_string(relay));
    proof {
        reveal_strlit("$KE");
        reveal_strlit("RDR");
        lemma_dec_chars_digits(relay as nat);
        lemma_digits_sep_free(dec_chars(relay as nat));
        assert(v.deep_view() =~= seq!["$KE"@, "RDR"@, dec_chars(relay as nat)]);
        assert(sep_free("$KE"@));
        assert(sep_free("RDR"@));
    }
    v
}

/// The input-line signal query for one line id.
pub fn line_signal_request(line: u32) -> (r: Vec<String>)
    ensures
        r.deep_view() == seq!["$KE"@, "RD"@, dec_chars(line as nat)],
        frame_ok(r.deep_view()),
{
    let mut v: Vec<String> = Vec::new();
    v.push("$KE".to_owned());
    v.push("RD".to_owned());
    v.push(u32_string(line));
    proof {
        reveal_strlit("$KE");
        reveal_strlit("RD");
        lemma_dec_chars_digits(line as nat);
        lemma_digits_sep_free(dec_chars(line as nat));
        assert(v.deep_view() =~= seq!["$KE"@, "RD"@, dec_chars(line as nat)]);
        assert(sep_free("$KE"@));
        assert(sep_free("RD"@));
    }
    v
}


/// Interprets the reply to a liveness check: the bare acknowledgement
/// is success, the generic error reply a syntax error, anything else an
/// unknown message.
pub fn ping_response(parts: &Vec<String>) -> (r: core::result::Result<(), Error>)
    ensures
        ({
            let p = parts.deep_view();
            &&& p == seq!["#OK"@] ==> r == Ok::<(), Error>(())
            &&& p == seq!["#ERR"@] ==> r == Err::<(), Error>(Error::SyntaxError)
            &&& (p != seq!["#OK"@] && p != seq!["#ERR"@]) ==> r == Err::<(), Error>(
                Error::UnknownMessage,
            )
        }),
{
    let ghost p = parts.deep_view();
    proof {
        assert(p.len() == parts@.len());
        assert(forall|i: int| 0 <= i < parts@.len() ==> p[i] == #[trigger] parts@[i]@);
    }
    proof {
        reveal_strlit("#OK");
        reveal_strlit("#ERR");
        assert(seq!["#OK"@].len() == 1 && seq!["#OK"@][0] == "#OK"@);
        assert(seq!["#ERR"@].len() == 1 && seq!["#ERR"@][0] == "#ERR"@);
    }
    if parts.len() == 1 && str_eq(parts[0].as_str(), "#OK") {
        proof {
            assert(p =~= seq!["#OK"@]);
        }
        Ok(())
    } else if parts.len() == 1 && str_eq(parts[0].as_str(), "#ERR") {
        proof {
            assert(p =~= seq!["#ERR"@]);
        }
        Err(Error::SyntaxError)
    } else {
        Err(Error::UnknownMessage)
    }
}

/// Interprets the reply to a credential-setting request; the device's
/// explicit rejection is an authorization failure.
pub fn authorize_response(parts: &Vec<String>) -> (r: core::result::Result<(), Error>)
    ensures
        ({
            let p = parts.deep_view();
            &&& p == seq!["#PSW"@, "SET"@, "OK"@] ==> r == Ok::<(), Error>(())
            &&& p == seq!["#PSW"@, "SET"@, "ERR"@] ==> r == Err::<(), Error>(Error::Auth)
            &&& p == seq!["#ERR"@] ==> r == Err::<(), Error>(Error::SyntaxError)
            &&& (p != seq!["#PSW"@, "SET"@, "OK"@] && p != seq!["#PSW"@, "SET"@, "ERR"@] && p
                != seq!["#ERR"@]) ==> r == Err::<(), Error>(Error::UnknownMessage)
        }),
{
    let ghost p = parts.deep_view();
    proof {
        assert(p.len() == parts@.len());
        assert(forall|i: int| 0 <= i < parts@.len() ==> p[i] == #[trigger] parts@[i]@);
    }
    proof {
        reveal_strlit("#PSW");
        reveal_strlit("SET");
        reveal_strlit("OK");
        reveal_strlit("ERR");
        reveal_strlit("#ERR");
        let ok3 = seq!["#PSW"@, "SET"@, "OK"@];
        let err3 = seq!["#PSW"@, "SET"@, "ERR"@];
        assert(ok3.len() == 3 && ok3[0] == "#PSW"@ && ok3[1] == "SET"@ && ok3[2] == "OK"@);
        assert(err3.len() == 3 && err3[0] == "#PSW"@ && err3[1] == "SET"@ && err3[2] == "ERR"@);
        assert(seq!["#ERR"@].len() == 1 && seq!["#ERR"@][0] == "#ERR"@);
    }
    if parts.len() == 3 && str_eq(parts[0].as_str(), "#PSW") && str_eq(parts[1].as_str(), "SET")
        && str_eq(parts[2].as_str(), "OK") {
        proof {
            assert(p =~= seq!["#PSW"@, "SET"@, "OK"@]);
        }
        Ok(())
    } else if parts.len() == 3 && str_eq(parts[0].as_str(), "#PSW") && str_eq(
        parts[1].as_str(),
        "SET",
    ) && str_eq(parts[2].as_str(), "ERR") {
        proof {
            assert(p =~= seq!["#PSW"@, "SET"@, "ERR"@]);
        }
        Err(Error::Auth)
    } else if parts.len() == 1 && str_eq(parts[0].as_str(), "#ERR") {
        proof {
            assert(p =~= seq!["#ERR"@]);
        }
        Err(Error::SyntaxError)
    } else {
        Err(Error::UnknownMessage)
    }
}

/// Interprets the reply to an event-configuration request.
pub fn cfg_event_response(parts: &Vec<String>) -> (r: core::result::Result<(), Error>)
    ensures
        ({
            let p = parts.deep_view();
            &&& p == seq!["#MSG"@, "SET"@, "OK"@] ==> r == Ok::<(), Error>(())
            &&& p == seq!["#ERR"@] ==> r == Err::<(), Error>(Error::SyntaxError)
            &&& (p != seq!["#MSG"@, "SET"@, "OK"@] && p != seq!["#ERR"@]) ==> r == Err::<
                (),
                Error,
            >(Error::UnknownMessage)
        }),
{
    let ghost p = parts.deep_view();
    proof {
        assert(p.len() == parts@.len());
        assert(forall|i: int| 0 <= i < parts@.len() ==> p[i] == #[trigger] parts@[i]@);
    }
    proof {
        reveal_strlit("#MSG");
        reveal_strlit("SET");
        reveal_strlit("OK");
        reveal_strlit("#ERR");
        let ok3 = seq!["#MSG"@, "SET"@, "OK"@];
        assert(ok3.len() == 3 && ok3[0] == "#MSG"@ && ok3[1] == "SET"@ && ok3[2] == "OK"@);
        assert(seq!["#ERR"@].len() == 1 && seq!["#ERR"@][0] == "#ERR"@);
    }
    if parts.len() == 3 && str_eq(parts[0].as_str(), "#MSG") && str_eq(parts[1].as_str(), "SET")
        && str_eq(parts[2].as_str(), "OK") {
        proof {
            assert(p =~= seq!["#MSG"@, "SET"@, "OK"@]);
        }
        Ok(())
    } else if parts.len() == 1 && str_eq(parts[0].as_str(), "#ERR") {
        proof {
            assert(p =~= seq!["#ERR"@]);
        }
        Err(Error::SyntaxError)
    } else {
        Err(Error::UnknownMessage)
    }
}

/// Interprets the reply to a relay-action request.
pub fn relay_response(parts: &Vec<String>) -> (r: core::result::Result<(), Error>)
    ensures
        ({
            let p = parts.deep_view();
            &&& p == seq!["#REL"@, "OK"@] ==> r == Ok::<(), Error>(())
            &&& p == seq!["#ERR"@] ==> r == Err::<(), Error>(Error::SyntaxError)
            &&& (p != seq!["#REL"@, "OK"@] && p != seq!["#ERR"@]) ==> r == Err::<(), Error>(
                Error::UnknownMessage,
            )
        }),
{
    let ghost p = parts.deep_view();
    proof {
        assert(p.len() == parts@.len());
        assert(forall|i: int| 0 <= i < parts@.len() ==> p[i] == #[trigger] parts@[i]@);
    }
    proof {
        reveal_strlit("#REL");
        reveal_strlit("OK");
        reveal_strlit("#ERR");
        let ok2 = seq!["#REL"@, "OK"@];
        assert(ok2.len() == 2 && ok2[0] == "#REL"@ && ok2[1] == "OK"@);
        assert(seq!["#ERR"@].len() == 1 && seq!["#ERR"@][0] == "#ERR"@);
    }
    if parts.len() == 2 && str_eq(parts[0].as_str(), "#REL") && str_eq(parts[1].as_str(), "OK") {
        proof {
            assert(p =~= seq!["#REL"@, "OK"@]);
        }
        Ok(())
    } else if parts.len() == 1 && str_eq(parts[0].as_str(), "#ERR") {
        proof {
            assert(p =~= seq!["#ERR"@]);
        }
        Err(Error::SyntaxError)
    } else {
        Err(Error::UnknownMessage)
    }
}

/// Whether a reply has the shape of a status report under the given
/// tag: the tag, an id field, and a state field.
pub open spec fn spec_status_shape(p: Seq<Seq<char>>, tag: Seq<char>) -> bool {
    p.len() == 3 && p[0] == tag
}

/// Interprets the reply to a relay-status query for `relay`. A report
/// for a different relay is an unexpected message: with no request ids
/// on the wire it signals a desynchronized exchange.
pub fn relay_status_response(relay: u32, parts: &Vec<String>) -> (r: core::result::Result<
    bool,
    Error,
>)
    ensures
        ({
            let p = parts.deep_view();
            &&& spec_status_shape(p, "#RDR"@) ==> {
                if !u32_text(p[1]) {
                    r == Err::<bool, Error>(Error::ParseInt)
                } else if u32_of_text(p[1]) == relay {
                    r == Ok::<bool, Error>(p[2] == "1"@)
                } else {
                    r == Err::<bool, Error>(Error::UnexpectedMessage)
                }
            }
            &&& p == seq!["#ERR"@] ==> r == Err::<bool, Error>(Error::SyntaxError)
            &&& (!spec_status_shape(p, "#RDR"@) && p != seq!["#ERR"@]) ==> r == Err::<
                bool,
                Error,
            >(Error::UnknownMessage)
        }),
{
    let ghost p = parts.deep_view();
    proof {
        assert(p.len() == parts@.len());
        assert(forall|i: int| 0 <= i < parts@.len() ==> p[i] == #[trigger] parts@[i]@);
    }
    proof {
        reveal_strlit("#RDR");
        reveal_strlit("#ERR");
        assert(seq!["#ERR"@].len() == 1 && seq!["#ERR"@][0] == "#ERR"@);
    }
    if parts.len() == 3 && str_eq(parts[0].as_str(), "#RDR") {
        match parse_u32(parts[1].as_str()) {
            Ok(rid) => {
                if rid == relay {
                    Ok(str_eq(parts[2].as_str(), "1"))
                } else {
                    Err(Error::UnexpectedMessage)
                }
            },
            Err(e) => Err(e),
        }
    } else if parts.len() == 1 && str_eq(parts[0].as_str(), "#ERR") {
        proof {
            assert(p =~= seq!["#ERR"@]);
        }
        Err(Error::SyntaxError)
    } else {
        Err(Error::UnknownMessage)
    }
}

/// Interprets the reply to an input-line signal query for `line`, with
/// the same unexpected-message rule as the relay-status reply.
pub fn line_signal_response(line: u32, parts: &Vec<String>) -> (r: core::result::Result<
    Signal,
    Error,
>)
    ensures
        ({
            let p = parts.deep_view();
            &&& spec_status_shape(p, "#RD"@) ==> {
                if !u32_text(p[1]) {
                    r == Err::<Signal, Error>(Error::ParseInt)
                } else if u32_of_text(p[1]) == line {
                    match spec_parse_signal(p[2]) {
                        Option::Some(sig) => r == Ok::<Signal, Error>(sig),
                        Option::None => r matches Err(e) && e matches Error::InvalidPayload(m)
                            && m@ == spec_signal_message(p[2]),
                    }
                } else {
                    r == Err::<Signal, Error>(Error::UnexpectedMessage)
                }
            }
            &&& p == seq!["#ERR"@] ==> r == Err::<Signal, Error>(Error::SyntaxError)
            &&& (!spec_status_shape(p, "#RD"@) && p != seq!["#ERR"@]) ==> r == Err::<
                Signal,
                Error,
            >(Error::UnknownMessage)
        }),
{
    let ghost p = parts.deep_view();
    proof {
        assert(p.len() == parts@.len());
        assert(forall|i: int| 0 <= i < parts@.len() ==> p[i] == #[trigger] parts@[i]@);
    }
    proof {
        reveal_strlit("#RD");
        reveal_strlit("#ERR");
        assert(seq!["#ERR"@].len() == 1 && seq!["#ERR"@][0] == "#ERR"@);
    }
    if parts.len() == 3 && str_eq(parts[0].as_str(), "#RD") {
        match parse_u32(parts[1].as_str()) {
            Ok(lid) => {
                if lid == line {
                    Signal::parse(parts[2].as_str())
                } else {
                    Err(Error::UnexpectedMessage)
                }
            },
            Err(e) => Err(e),
        }
    } else if parts.len() == 1 && str_eq(parts[0].as_str(), "#ERR") {
        proof {
            assert(p =~= seq!["#ERR"@]);
        }
        Err(Error::SyntaxError)
    } else {
        Err(Error::UnknownMessage)
    }
}

} // verus!
