use vstd::prelude::*;

verus! {

use crate::codec::frame_ok;
use crate::codec::lemma_join_split;
use crate::codec::lemma_scan_shrinks;
use crate::codec::spec_encoded;
use crate::codec::spec_scan;
use crate::codec::spec_split;
use crate::codec::Codec;
use crate::err::Error;
use crate::event::spec_event;
use crate::event::Event;
use crate::utils::is_event;
use crate::utils::spec_event_marker;
use vstd::utf8::decode_utf8;
use vstd::utf8::valid_utf8;

/// One thing the session hands on after ingesting bytes: a parsed
/// device event for the broadcast side, or a raw response frame for the
/// single pending command.
#[derive(Debug, PartialEq)]
pub enum SessionOutput {
    Event(Event),
    Response(Vec<String>),
}

/// The mathematical shadow of a [`SessionOutput`].
pub ghost enum SessionItem {
    Event { event: Event },
    Response { fields: Seq<Seq<char>> },
}

pub open spec fn output_view(o: SessionOutput) -> SessionItem {
    match o {
        SessionOutput::Event(e) => SessionItem::Event { event: e },
        SessionOutput::Response(v) => SessionItem::Response { fields: v.deep_view() },
    }
}

pub open spec fn outputs_view(outs: Seq<SessionOutput>) -> Seq<SessionItem> {
    outs.map_values(|o: SessionOutput| output_view(o))
}

/// How a decoded frame is dispatched: a frame whose tag field is the
/// event marker goes to the event side — and is dropped entirely if its
/// payload parses as no known event — while every other frame is a
/// response. No frame ever goes both ways.
pub open spec fn spec_classify(fields: Seq<Seq<char>>) -> Option<SessionItem> {
    if fields.len() > 0 && fields[0] == spec_event_marker() {
        match spec_event(fields.drop_first()) {
            Option::Some(e) => Option::Some(SessionItem::Event { event: e }),
            Option::None => Option::None,
        }
    } else {
        Option::Some(SessionItem::Response { fields })
    }
}

/// What repeated scanning does to the buffered bytes: the state the
/// scanner is left in, the bytes still unconsumed, and every extracted
/// line, in arrival order.
pub ghost struct DrainResult {
    pub disc: bool,
    pub rest: Seq<u8>,
    pub lines: Seq<Seq<u8>>,
}

pub open spec fn spec_drain(disc: bool, buf: Seq<u8>, max: nat) -> DrainResult
    decreases buf.len(),
    via spec_drain_decreases
{
    let s = spec_scan(disc, buf, max);
    match s.line {
        Option::Some(l) => {
            let d = spec_drain(s.disc, s.rest, max);
            DrainResult { disc: d.disc, rest: d.rest, lines: seq![l] + d.lines }
        },
        Option::None => DrainResult { disc: s.disc, rest: s.rest, lines: Seq::empty() },
    }
}

#[via_fn]
proof fn spec_drain_decreases(disc: bool, buf: Seq<u8>, max: nat) {
    lemma_scan_shrinks(disc, buf, max);
}

/// Whether every extracted line is valid text.
pub open spec fn lines_valid(lines: Seq<Seq<u8>>) -> bool {
    forall|i: int| 0 <= i < lines.len() ==> valid_utf8(#[trigger] lines[i])
}

/// The classified outputs of a run of valid lines, in arrival order.
pub open spec fn spec_outputs(lines: Seq<Seq<u8>>) -> Seq<SessionItem>
    decreases lines.len(),
{
    if lines.len() == 0 {
        Seq::empty()
    } else {
        let rest = spec_outputs(lines.drop_first());
        match spec_classify(spec_split(decode_utf8(lines.first()))) {
            Option::Some(item) => seq![item] + rest,
            Option::None => rest,
        }
    }
}

/// The classified items that one more line appends to the output run.
pub open spec fn spec_line_items(l: Seq<u8>) -> Seq<SessionItem> {
    match spec_classify(spec_split(decode_utf8(l))) {
        Option::Some(item) => seq![item],
        Option::None => Seq::empty(),
    }
}

proof fn lemma_outputs_push(lines: Seq<Seq<u8>>, l: Seq<u8>)
    ensures
        spec_outputs(lines.push(l)) == spec_outputs(lines) + spec_line_items(l),
    decreases lines.len(),
{
    let pushed = lines.push(l);
    if lines.len() == 0 {
        assert(pushed.first() == l);
        assert(pushed.drop_first() =~= Seq::<Seq<u8>>::empty());
        assert(spec_outputs(Seq::<Seq<u8>>::empty()) == Seq::<SessionItem>::empty());
        assert(spec_outputs(lines) == Seq::<SessionItem>::empty());
        match spec_classify(spec_split(decode_utf8(l))) {
            Option::Some(item) => {
                assert(spec_outputs(pushed) =~= spec_outputs(lines) + spec_line_items(l));
            },
            Option::None => {
                assert(spec_outputs(pushed) =~= spec_outputs(lines) + spec_line_items(l));
            },
        }
    } else {
        lemma_outputs_push(lines.drop_first(), l);
        assert(pushed.first() == lines.first());
        assert(pushed.drop_first() =~= lines.drop_first().push(l));
        assert(spec_outputs(pushed.drop_first()) == spec_outputs(lines.drop_first())
            + spec_line_items(l));
        match spec_classify(spec_split(decode_utf8(lines.first()))) {
            Option::Some(item) => {
                assert(spec_outputs(pushed) =~= spec_outputs(lines) + spec_line_items(l));
            },
            Option::None => {
                assert(spec_outputs(pushed) =~= spec_outputs(lines) + spec_line_items(l));
            },
        }
    }
}

/// Law: classification is exclusive. A frame whose tag is the event
/// marker is never handed on as a response, and a frame whose tag is
/// anything else never reaches the event side.
pub proof fn lemma_classification_exclusive(fields: Seq<Seq<char>>)
    requires
        fields.len() > 0,
    ensures
        fields[0] == spec_event_marker() ==> !(spec_classify(fields) matches Option::Some(
            SessionItem::Response { fields: f },
        )),
        fields[0] != spec_event_marker() ==> !(spec_classify(fields) matches Option::Some(
            SessionItem::Event { event: e },
        )),
{
}

/// The protocol side of one connection: the codec, the unconsumed
/// byte buffer, and whether the session has been torn down. The driver
/// loop that owns the transport feeds bytes in and carries commands
/// out; everything it decides is decided here.
#[derive(Debug)]
pub struct Session {
    codec: Codec,
    buf: Vec<u8>,
    closed: bool,
}

impl Session {
    pub closed spec fn wf(&self) -> bool {
        self.codec.wf(self.buf@)
    }

    pub closed spec fn disc(&self) -> bool {
        self.codec.disc()
    }

    pub closed spec fn pending(&self) -> Seq<u8> {
        self.buf@
    }

    pub closed spec fn max(&self) -> nat {
        self.codec.max()
    }

    pub closed spec fn spec_closed(&self) -> bool {
        self.closed
    }

    /// A fresh session around a fresh codec: open, nothing buffered.
    pub fn new() -> (s: Session)
        ensures
            s.wf(),
            !s.spec_closed(),
            !s.disc(),
            s.pending() == Seq::<u8>::empty(),
            s.max() == 1024,
    {
        Session { codec: Codec::new(), buf: Vec::new(), closed: false }
    }

    pub fn is_closed(&self) -> (r: bool)
        ensures
            r == self.spec_closed(),
    {
        self.closed
    }

    /// Tears the session down; every later operation fails with the
    /// closed-session error.
    pub fn close(&mut self)
        requires
            old(self).wf(),
        ensures
            final(self).wf(),
            final(self).spec_closed(),
            final(self).pending() == old(self).pending(),
            final(self).max() == old(self).max(),
    {
        self.closed = true;
    }

    /// Encodes one command frame for the wire. The session does not
    /// write: the driver loop owns the transport and sends the returned
    /// bytes itself.
    pub fn on_command(&mut self, fields: &Vec<String>) -> (r: core::result::Result<Vec<u8>, Error>)
        requires
            old(self).wf(),
            frame_ok(fields.deep_view()),
        ensures
            final(self).wf(),
            old(self).spec_closed() ==> r == Err::<Vec<u8>, Error>(Error::Closed) && *final(self)
                == *old(self),
            !old(self).spec_closed() ==> (*final(self) == *old(self) && (r matches Ok(b) && b@
                == spec_encoded(fields.deep_view()))),
    {
        if self.closed {
            return Err(Error::Closed);
        }
        let mut out: Vec<u8> = Vec::new();
        match self.codec.encode(fields, &mut out) {
            Ok(_) => {
                proof {
                    assert(out@ =~= spec_encoded(fields.deep_view()));
                }
                Ok(out)
            },
            Err(_) => unreached(),
        }
    }

    /// Ingests bytes read from the transport and hands back everything
    /// they complete, classified and in arrival order. A line that is
    /// not valid text is fatal: the session closes and the caller gets
    /// the format error; once closed, every call fails with the
    /// closed-session error.
    pub fn on_bytes(&mut self, data: &Vec<u8>) -> (r: core::result::Result<
        Vec<SessionOutput>,
        Error,
    >)
        requires
            old(self).wf(),
        ensures
            final(self).wf(),
            old(self).spec_closed() ==> r == Err::<Vec<SessionOutput>, Error>(Error::Closed)
                && *final(self) == *old(self),
            !old(self).spec_closed() ==> ({
                let d = spec_drain(old(self).disc(), old(self).pending() + data@, old(self).max());
                if lines_valid(d.lines) {
                    &&& r matches Ok(outs) && outputs_view(outs@) == spec_outputs(d.lines)
                    &&& !final(self).spec_closed()
                    &&& final(self).disc() == d.disc
                    &&& final(self).pending() == d.rest
                    &&& final(self).max() == old(self).max()
                } else {
                    &&& r == Err::<Vec<SessionOutput>, Error>(Error::Format)
                    &&& final(self).spec_closed()
                }
            }),
    {
        if self.closed {
            return Err(Error::Closed);
        }
        let ghost max0 = self.codec.max();
        let ghost buf_start = self.buf@ + data@;
        let mut k: usize = 0;
        while k < data.len()
            invariant
                0 <= k <= data@.len(),
                self.codec.wf(self.buf@),
                self.codec == old(self).codec,
                self.closed == false,
                self.buf@ == old(self).buf@ + data@.take(k as int),
            decreases data@.len() - k,
        {
            let b = data[k];
            proof {
                self.codec.lemma_wf_grow(self.buf@, seq![b]);
                assert(self.buf@ + seq![b] =~= self.buf@.push(b));
                assert(old(self).buf@ + data@.take(k + 1) =~= (old(self).buf@ + data@.take(
                    k as int,
                )).push(data@[k as int]));
            }
            self.buf.push(b);
            k += 1;
        }
        proof {
            assert(data@.take(data@.len() as int) =~= data@);
            assert(self.buf@ == buf_start);
        }
        let ghost d = spec_drain(old(self).disc(), buf_start, max0);
        let ghost mut processed: Seq<Seq<u8>> = Seq::empty();
        let mut outs: Vec<SessionOutput> = Vec::new();
        proof {
            assert(outputs_view(outs@) =~= spec_outputs(processed));
        }
        loop
            invariant
                !old(self).spec_closed(),
                self.codec.wf(self.buf@),
                self.closed == false,
                self.codec.max() == max0,
                d == spec_drain(old(self).disc(), old(self).pending() + data@, old(self).max()),
                max0 == old(self).max(),
                ({
                    let cur = spec_drain(self.codec.disc(), self.buf@, max0);
                    d == DrainResult {
                        disc: cur.disc,
                        rest: cur.rest,
                        lines: processed + cur.lines,
                    }
                }),
                lines_valid(processed),
                outputs_view(outs@) == spec_outputs(processed),
            decreases self.buf@.len(),
        {
            let ghost disc0 = self.codec.disc();
            let ghost buf0 = self.buf@;
            proof {
                lemma_scan_shrinks(disc0, buf0, max0);
            }
            let step = self.codec.decode(&mut self.buf);
            let ghost s = spec_scan(disc0, buf0, max0);
            match step {
                Ok(Some(fields)) => {
                    let ghost l = s.line.unwrap();
                    let ghost dv = fields.deep_view();
                    let ghost pre = processed;
                    let ghost pre_outs = outs@;
                    proof {
                        lemma_join_split(decode_utf8(l));
                        assert(dv.len() == fields@.len());
                        assert(forall|i: int|
                            0 <= i < fields@.len() ==> dv[i] == #[trigger] fields@[i]@);
                        assert(fields@.len() > 0);
                    }
                    if is_event(fields[0].as_str()) {
                        let mut tail: Vec<String> = Vec::new();
                        let mut t: usize = 1;
                        proof {
                            assert(tail.deep_view() =~= dv.subrange(1, 1));
                        }
                        while t < fields.len()
                            invariant
                                1 <= t <= fields@.len(),
                                dv == fields.deep_view(),
                                dv.len() == fields@.len(),
                                forall|i: int|
                                    0 <= i < fields@.len() ==> dv[i] == #[trigger] fields@[i]@,
                                tail.deep_view() == dv.subrange(1, t as int),
                            decreases fields@.len() - t,
                        {
                            let ghost tpre = tail.deep_view();
                            tail.push(fields[t].clone());
                            proof {
                                assert(tail.deep_view() =~= tpre.push(dv[t as int]));
                                assert(tail.deep_view() =~= dv.subrange(1, t + 1));
                            }
                            t += 1;
                        }
                        proof {
                            assert(tail.deep_view() =~= dv.drop_first());
                        }
                        let tslice = tail.as_slice();
                        proof {
                            assert(tslice.deep_view() =~= tail.deep_view());
                        }
                        match Event::try_from_parts(tslice) {
                            Ok(ev) => {
                                proof {
                                    assert(spec_event(dv.drop_first()) == Option::Some(ev));
                                    assert(spec_classify(dv) == Option::Some(
                                        SessionItem::Event { event: ev },
                                    ));
                                }
                                outs.push(SessionOutput::Event(ev));
                                proof {
                                    assert(outputs_view(outs@) =~= outputs_view(pre_outs).push(
                                        output_view(SessionOutput::Event(ev)),
                                    ));
                                    assert(outputs_view(outs@) =~= outputs_view(pre_outs)
                                        + spec_line_items(l));
                                }
                            },
                            Err(_) => {
                                proof {
                                    assert(spec_event(dv.drop_first()) is None);
                                    assert(spec_classify(dv) is None);
                                    assert(outputs_view(outs@) =~= outputs_view(pre_outs)
                                        + spec_line_items(l));
                                }
                            },
                        }
                    } else {
                        proof {
                            assert(spec_classify(dv) == Option::Some(
                                SessionItem::Response { fields: dv },
                            ));
                        }
                        outs.push(SessionOutput::Response(fields));
                        proof {
                            assert(outputs_view(outs@) =~= outputs_view(pre_outs).push(
                                output_view(SessionOutput::Response(fields)),
                            ));
                            assert(outputs_view(outs@) =~= outputs_view(pre_outs)
                                + spec_line_items(l));
                        }
                    }
                    proof {
                        processed = pre.push(l);
                        lemma_outputs_push(pre, l);
                        assert(outputs_view(outs@) == spec_outputs(processed));
                        assert(lines_valid(processed)) by {
                            assert(forall|i: int|
                                0 <= i < pre.len() ==> #[trigger] processed[i] == pre[i]);
                            assert(processed[processed.len() - 1] == l);
                        }
                        let cur = spec_drain(self.codec.disc(), self.buf@, max0);
                        assert(spec_drain(disc0, buf0, max0) == DrainResult {
                            disc: cur.disc,
                            rest: cur.rest,
                            lines: seq![l] + cur.lines,
                        });
                        assert(pre + (seq![l] + cur.lines) =~= processed + cur.lines);
                    }
                },
                Ok(None) => {
                    proof {
                        assert(spec_drain(disc0, buf0, max0) == DrainResult {
                            disc: s.disc,
                            rest: s.rest,
                            lines: Seq::<Seq<u8>>::empty(),
                        });
                        assert(d.lines =~= processed);
                    }
                    return Ok(outs);
                },
                Err(_) => {
                    let ghost l = s.line.unwrap();
                    proof {
                        assert(!valid_utf8(l));
                        let pre = processed;
                        processed = pre.push(l);
                        let cur = spec_drain(self.codec.disc(), self.buf@, max0);
                        assert(spec_drain(disc0, buf0, max0) == DrainResult {
                            disc: cur.disc,
                            rest: cur.rest,
                            lines: seq![l] + cur.lines,
                        });
                        assert(pre + (seq![l] + cur.lines) =~= processed + cur.lines);
                        assert(d.lines == processed + cur.lines);
                        assert(d.lines[pre.len() as int] == l);
                        assert(!lines_valid(d.lines));
                    }
                    self.closed = true;
                    return Err(Error::Format);
                },
            }
        }
    }
}


/// A capacity-one slot: the model of the command and the response
/// channel, each bounded to a single place so that at most one
/// exchange is ever in flight.
#[derive(Debug)]
pub struct Slot<T> {
    value: Option<T>,
}

impl<T> Slot<T> {
    pub closed spec fn contents(&self) -> Option<T> {
        self.value
    }

    pub fn new() -> (s: Slot<T>)
        ensures
            s.contents() is None,
    {
        Slot { value: None }
    }

    pub fn is_empty(&self) -> (r: bool)
        ensures
            r == (self.contents() is None),
    {
        self.value.is_none()
    }

    /// Accepts the item only while the slot is empty; a full slot
    /// refuses and hands the item back untouched.
    pub fn put(&mut self, item: T) -> (r: core::result::Result<(), T>)
        ensures
            match r {
                Ok(_) => old(self).contents() is None && final(self).contents() == Option::Some(
                    item,
                ),
                Err(back) => old(self).contents() is Some && *final(self) == *old(self) && back
                    == item,
            },
    {
        if self.value.is_none() {
            self.value = Some(item);
            Ok(())
        } else {
            Err(item)
        }
    }

    /// Empties the slot, handing out whatever it held.
    pub fn take(&mut self) -> (r: Option<T>)
        ensures
            r == old(self).contents(),
            final(self).contents() is None,
    {
        self.value.take()
    }
}

/// The caller side of the exchange discipline, as a transition system:
/// submitting a command opens an exchange, consuming its response
/// closes it, and nothing else is possible.
pub ghost enum GateState {
    Idle,
    AwaitingResponse,
}

pub ghost enum GateAction {
    Submit,
    ConsumeResponse,
}

pub open spec fn gate_step(s: GateState, a: GateAction) -> Option<GateState> {
    match (s, a) {
        (GateState::Idle, GateAction::Submit) => Option::Some(GateState::AwaitingResponse),
        (GateState::AwaitingResponse, GateAction::ConsumeResponse) => Option::Some(
            GateState::Idle,
        ),
        _ => Option::None,
    }
}

/// The state that a trace of actions ends in, when each action in turn
/// is allowed by the discipline.
pub open spec fn gate_run(s: GateState, trace: Seq<GateAction>) -> Option<GateState>
    decreases trace.len(),
{
    if trace.len() == 0 {
        Option::Some(s)
    } else {
        match gate_step(s, trace.first()) {
            Option::Some(s2) => gate_run(s2, trace.drop_first()),
            Option::None => Option::None,
        }
    }
}

proof fn lemma_gate_run_split(s: GateState, trace: Seq<GateAction>, n: int)
    requires
        0 <= n <= trace.len(),
    ensures
        gate_run(s, trace) == (match gate_run(s, trace.take(n)) {
            Option::Some(m) => gate_run(m, trace.skip(n)),
            Option::None => Option::None::<GateState>,
        }),
    decreases n,
{
    if n == 0 {
        assert(trace.take(0) =~= Seq::<GateAction>::empty());
        assert(trace.skip(0) =~= trace);
    } else {
        assert(trace.take(n).first() == trace.first());
        assert(trace.take(n).drop_first() =~= trace.drop_first().take(n - 1));
        assert(trace.skip(n) =~= trace.drop_first().skip(n - 1));
        match gate_step(s, trace.first()) {
            Option::Some(s2) => {
                lemma_gate_run_split(s2, trace.drop_first(), n - 1);
            },
            Option::None => {},
        }
    }
}

/// Law: command exchanges serialize. In any allowed trace that starts
/// idle, the action right after a submission consumes that submission's
/// response — so a second command is never submitted before the first
/// response has been consumed.
pub proof fn lemma_commands_serialize(trace: Seq<GateAction>, i: int, j: int)
    requires
        gate_run(GateState::Idle, trace) is Some,
        0 <= i < j < trace.len(),
        trace[i] == GateAction::Submit,
        trace[j] == GateAction::Submit,
    ensures
        i + 1 < j,
        trace[i + 1] == GateAction::ConsumeResponse,
{
    lemma_gate_run_split(GateState::Idle, trace, i);
    let m = gate_run(GateState::Idle, trace.take(i));
    assert(m is Some);
    assert(trace.skip(i).first() == trace[i]);
    assert(gate_step(m.unwrap(), GateAction::Submit) is Some);
    assert(m.unwrap() == GateState::Idle);
    assert(trace.skip(i).drop_first() =~= trace.skip(i + 1));
    assert(gate_run(GateState::AwaitingResponse, trace.skip(i + 1)) is Some);
    assert(trace.skip(i + 1).len() > 0);
    assert(trace.skip(i + 1).first() == trace[i + 1]);
    assert(gate_step(GateState::AwaitingResponse, trace[i + 1]) is Some);
    assert(trace[i + 1] == GateAction::ConsumeResponse);
}

} // verus!
