//! Client-side protocol engine for a relay/IO controller that speaks a
//! line-oriented text protocol (comma-separated fields, CRLF-terminated)
//! over a single persistent byte-stream connection.
//!
//! The crate provides the framing codec, the frame classifier and event
//! model, the per-command request builders and response matchers, and a
//! session multiplexer that fans one duplex byte stream into serialized
//! request/response exchanges and a broadcast stream of device events.

mod codec;
mod err;
mod event;
mod gw;
mod lio;
mod session;
mod text;
mod utils;

pub use codec::{Codec, Serke, JoinParts, sep_free, frame_ok, spec_join, spec_split, spec_encoded, strip_cr, spec_scan, ScanStep, lemma_split_join, lemma_join_split, lemma_join_push};
pub use err::Error;
pub use event::{Event, EventKind, signal_for_line, spec_kind_code, spec_event, spec_is_ein_shape, spec_is_time_shape, lemma_kind_code_sep_free};
pub use gw::{str_sep_free, frame_fields_ok, ping_request, authorize_request, cfg_event_request, relay_request, relay_status_request, line_signal_request, ping_response, authorize_response, cfg_event_response, relay_response, relay_status_response, line_signal_response, spec_status_shape, lemma_digits_sep_free};
pub use lio::{Signal, RelayAction, ClickDelay, spec_signal_code, spec_parse_signal, spec_signal_message, spec_action_code, spec_delay_code};
pub use session::{Session, SessionOutput, Slot, GateState, GateAction, gate_step, gate_run, lemma_commands_serialize, SessionItem, DrainResult, output_view, outputs_view, spec_classify, spec_drain, spec_outputs, spec_line_items, lines_valid, lemma_classification_exclusive};
pub use utils::{is_event, spec_event_marker};
pub use text::{find_first, is_digit, digit_val, digit_char, dec_digits, dec_val, u32_text, u32_of_text, dec_chars, str_eq, parse_u32, u32_string};
