use crate::buffer::fitting_prefix_len;
use crate::parse::{parse_response, Framing, ParseOutcome, StatusParts};
use vstd::prelude::*;

verus! {

/// One callback delivered to the response handler.
pub enum Event {
    /// The status callback: version, code and reason of the status line.
    Status { version: u8, code: u16, reason: Seq<u8> },
    /// A body fragment.
    Data { bytes: Seq<u8> },
    /// The end-of-body sentinel.
    End,
    /// The error signal.
    Error,
}

/// Why a request failed.
#[derive(Clone, Copy, Debug, PartialEq, Eq, Structural)]
pub enum RequestError {
    /// The serialized request did not fit the outbound buffer.
    RequestTooLarge,
    /// The sink refused bytes, or stopped making progress, before the whole
    /// request was sent.
    SendFailed,
    /// The scratch buffer filled up before the response head was complete.
    HeadersTooLarge,
    /// The response head does not match the grammar.
    MalformedResponse,
    /// The peer closed the connection while the head was still incomplete.
    ClosedInHeaders,
}

/// The framing phase of the request state machine.
pub enum Phase {
    /// Accumulating the status line and header block.
    Headers,
    /// A `Content-Length` was seen; `remaining` bytes are still owed.
    Fixed { remaining: nat },
    /// No `Content-Length`: body bytes flow until the peer closes.
    Unbounded,
    /// The response is finished; stray bytes go to the scratch buffer.
    Done,
    /// The request failed.
    Failed { why: RequestError },
}

/// Everything the framing machine remembers, at the specification level.
#[verifier::ext_equal]
pub struct Model {
    pub phase: Phase,
    /// Contents of the scratch buffer.
    pub buf: Seq<u8>,
    /// Capacity of the scratch buffer.
    pub cap: nat,
}

pub open spec fn init_model(cap: nat) -> Model {
    Model { phase: Phase::Headers, buf: Seq::empty(), cap }
}

/// The outcome of feeding the machine: the next model and the events handed
/// to the handler, in order.
#[verifier::ext_equal]
pub struct Step {
    pub m: Model,
    pub events: Seq<Event>,
}

pub open spec fn status_event(st: StatusParts) -> Event {
    Event::Status { version: st.version, code: st.code, reason: st.reason }
}

pub open spec fn phase_of_framing(f: Framing) -> Phase {
    match f {
        Framing::Fixed { n } => Phase::Fixed { remaining: n },
        Framing::Unbounded => Phase::Unbounded,
    }
}

pub open spec fn phase_rank(p: Phase) -> nat {
    if p is Headers {
        1
    } else {
        0
    }
}

/// Feed one data fragment to the machine.
pub open spec fn step_data(m: Model, frag: Seq<u8>) -> Step
    decreases phase_rank(m.phase),
{
    match m.phase {
        Phase::Headers => {
            let app = fitting_prefix_len(m.cap, m.buf.len(), frag.len());
            let nbuf = m.buf + frag.take(app as int);
            match parse_response(nbuf) {
                ParseOutcome::Incomplete => {
                    if app < frag.len() {
                        Step {
                            m: Model {
                                phase: Phase::Failed { why: RequestError::HeadersTooLarge },
                                buf: Seq::empty(),
                                cap: m.cap,
                            },
                            events: seq![Event::Error],
                        }
                    } else {
                        Step {
                            m: Model { phase: Phase::Headers, buf: nbuf, cap: m.cap },
                            events: Seq::empty(),
                        }
                    }
                },
                ParseOutcome::Malformed => Step {
                    m: Model {
                        phase: Phase::Failed { why: RequestError::MalformedResponse },
                        buf: Seq::empty(),
                        cap: m.cap,
                    },
                    events: seq![Event::Error],
                },
                ParseOutcome::Complete { used, status, framing } => {
                    let leftover = frag.skip(used - m.buf.len());
                    let first = Model {
                        phase: phase_of_framing(framing),
                        buf: Seq::empty(),
                        cap: m.cap,
                    };
                    let rest = step_data(first, leftover);
                    Step { m: rest.m, events: seq![status_event(status)] + rest.events }
                },
            }
        },
        Phase::Fixed { remaining } => {
            if frag.len() >= remaining {
                Step {
                    m: Model { phase: Phase::Done, buf: m.buf, cap: m.cap },
                    events: seq![
                        Event::Data { bytes: frag.take(remaining as int) },
                        Event::End,
                    ],
                }
            } else {
                Step {
                    m: Model {
                        phase: Phase::Fixed { remaining: (remaining - frag.len()) as nat },
                        buf: m.buf,
                        cap: m.cap,
                    },
                    events: seq![Event::Data { bytes: frag }],
                }
            }
        },
        Phase::Unbounded => Step { m, events: seq![Event::Data { bytes: frag }] },
        Phase::Done => {
            let app = fitting_prefix_len(m.cap, m.buf.len(), frag.len());
            Step {
                m: Model { phase: Phase::Done, buf: m.buf + frag.take(app as int), cap: m.cap },
                events: Seq::empty(),
            }
        },
        Phase::Failed { why } => Step { m, events: Seq::empty() },
    }
}

/// Feed the close signal to the machine.
pub open spec fn step_close(m: Model) -> Step {
    match m.phase {
        Phase::Headers => Step {
            m: Model {
                phase: Phase::Failed { why: RequestError::ClosedInHeaders },
                buf: Seq::empty(),
                cap: m.cap,
            },
            events: seq![Event::Error],
        },
        Phase::Fixed { remaining } => Step { m, events: Seq::empty() },
        Phase::Unbounded => Step {
            m: Model { phase: Phase::Done, buf: m.buf, cap: m.cap },
            events: seq![Event::End],
        },
        Phase::Done => Step { m, events: Seq::empty() },
        Phase::Failed { why } => Step { m, events: Seq::empty() },
    }
}

/// The machine's internal invariant: the scratch buffer is bounded, holds an
/// undecided head exactly in the header phase, and is empty in the body and
/// failed phases.
pub open spec fn model_inv(m: Model) -> bool {
    &&& m.buf.len() <= m.cap
    &&& (m.phase is Headers ==> parse_response(m.buf) is Incomplete)
    &&& (m.phase is Fixed ==> m.buf.len() == 0 && 1 <= m.phase->Fixed_remaining
        <= usize::MAX)
    &&& (m.phase is Unbounded ==> m.buf.len() == 0)
    &&& (m.phase is Failed ==> m.buf.len() == 0)
}

/// After the head is parsed, the machine enters the framing phase with an
/// empty scratch buffer; one dispatch of the leftover bytes lands it in a
/// state that satisfies the invariant.
pub proof fn lemma_step_after_head_inv(framing: Framing, cap: nat, frag: Seq<u8>)
    requires
        framing matches Framing::Fixed { n } ==> n <= usize::MAX,
    ensures
        ({
            let first = Model { phase: phase_of_framing(framing), buf: Seq::empty(), cap };
            model_inv(step_data(first, frag).m)
        }),
{
}

/// A parsed head always carries a bounded `Content-Length`.
pub proof fn lemma_complete_framing_bound(b: Seq<u8>)
    requires
        parse_response(b) matches ParseOutcome::Complete { framing: Framing::Fixed { n }, .. },
    ensures
        parse_response(b)->Complete_framing->Fixed_n <= usize::MAX,
{
}

pub proof fn lemma_step_data_inv(m: Model, frag: Seq<u8>)
    requires
        model_inv(m),
    ensures
        model_inv(step_data(m, frag).m),
{
    match m.phase {
        Phase::Headers => {
            let app = fitting_prefix_len(m.cap, m.buf.len(), frag.len());
            let nbuf = m.buf + frag.take(app as int);
            match parse_response(nbuf) {
                ParseOutcome::Incomplete => {},
                ParseOutcome::Malformed => {},
                ParseOutcome::Complete { used, status, framing } => {
                    if framing matches Framing::Fixed { n } {
                        lemma_complete_framing_bound(nbuf);
                    }
                    lemma_step_after_head_inv(framing, m.cap, frag.skip(used - m.buf.len()));
                },
            }
        },
        _ => {},
    }
}

/// Feed a sequence of data fragments, collecting all events.
pub open spec fn run_data(m: Model, frags: Seq<Seq<u8>>) -> Step
    decreases frags.len(),
{
    if frags.len() == 0 {
        Step { m, events: Seq::empty() }
    } else {
        let first = step_data(m, frags[0]);
        let rest = run_data(first.m, frags.skip(1));
        Step { m: rest.m, events: first.events + rest.events }
    }
}

/// All fragments, joined back into the byte stream they came from.
pub open spec fn concat_frags(frags: Seq<Seq<u8>>) -> Seq<u8>
    decreases frags.len(),
{
    if frags.len() == 0 {
        Seq::empty()
    } else {
        frags[0] + concat_frags(frags.skip(1))
    }
}

/// The bytes of all `Data` events, joined in order.
pub open spec fn data_concat(events: Seq<Event>) -> Seq<u8>
    decreases events.len(),
{
    if events.len() == 0 {
        Seq::empty()
    } else {
        (match events[0] {
            Event::Data { bytes } => bytes,
            _ => Seq::empty(),
        }) + data_concat(events.skip(1))
    }
}

/// The non-`Data` events, in order.
pub open spec fn control_events(events: Seq<Event>) -> Seq<Event>
    decreases events.len(),
{
    if events.len() == 0 {
        Seq::empty()
    } else if events[0] is Data {
        control_events(events.skip(1))
    } else {
        seq![events[0]] + control_events(events.skip(1))
    }
}

/// What a handler can observe of an event sequence, when body fragments are
/// taken by content rather than by boundary: the control events and the
/// joined body bytes.
pub struct Observation {
    pub control: Seq<Event>,
    pub body: Seq<u8>,
}

pub open spec fn observe(events: Seq<Event>) -> Observation {
    Observation { control: control_events(events), body: data_concat(events) }
}

pub proof fn lemma_data_concat_add(a: Seq<Event>, b: Seq<Event>)
    ensures
        data_concat(a + b) == data_concat(a) + data_concat(b),
    decreases a.len(),
{
    if a.len() == 0 {
        assert(a + b =~= b);
        assert(data_concat(a) + data_concat(b) =~= data_concat(b));
    } else {
        assert((a + b).skip(1) =~= a.skip(1) + b);
        lemma_data_concat_add(a.skip(1), b);
        assert(data_concat(a + b) =~= data_concat(a) + data_concat(b));
    }
}

pub proof fn lemma_control_events_add(a: Seq<Event>, b: Seq<Event>)
    ensures
        control_events(a + b) == control_events(a) + control_events(b),
    decreases a.len(),
{
    if a.len() == 0 {
        assert(a + b =~= b);
        assert(control_events(a) + control_events(b) =~= control_events(b));
    } else {
        assert((a + b).skip(1) =~= a.skip(1) + b);
        lemma_control_events_add(a.skip(1), b);
        if a[0] is Data {
        } else {
            assert(control_events(a + b) =~= control_events(a) + control_events(b));
        }
    }
}

/// Models that cannot be told apart by any future events: same phase and
/// capacity, and the same scratch contents except in the terminal phase,
/// where the scratch buffer is a write-only overflow area.
pub open spec fn model_equiv(m1: Model, m2: Model) -> bool {
    &&& m1.cap == m2.cap
    &&& m1.phase == m2.phase
    &&& (!(m1.phase is Done) ==> m1.buf == m2.buf)
}

/// The most recent `Status` event, if any.
pub open spec fn last_status(events: Seq<Event>) -> Option<Event>
    decreases events.len(),
{
    if events.len() == 0 {
        None
    } else if events.last() is Status {
        Some(events.last())
    } else {
        last_status(events.drop_last())
    }
}

/// True once the end-of-body sentinel has been seen.
pub open spec fn has_end(events: Seq<Event>) -> bool {
    exists|i: int| 0 <= i < events.len() && events[i] is End
}

pub open spec fn status_version(events: Seq<Event>) -> u8 {
    match last_status(events) {
        Some(Event::Status { version, .. }) => version,
        _ => 0,
    }
}

pub open spec fn status_code(events: Seq<Event>) -> u16 {
    match last_status(events) {
        Some(Event::Status { code, .. }) => code,
        _ => 0,
    }
}

pub open spec fn status_reason(events: Seq<Event>) -> Seq<u8> {
    match last_status(events) {
        Some(Event::Status { reason, .. }) => reason,
        _ => Seq::empty(),
    }
}

/// How each kind of event moves the derived views of an event history.
pub proof fn lemma_event_push(s: Seq<Event>, e: Event)
    ensures
        last_status(s.push(e)) == (if e is Status {
            Some(e)
        } else {
            last_status(s)
        }),
        has_end(s.push(e)) == (has_end(s) || e is End),
        data_concat(s.push(e)) == (match e {
            Event::Data { bytes } => data_concat(s) + bytes,
            _ => data_concat(s),
        }),
        control_events(s.push(e)) == (if e is Data {
            control_events(s)
        } else {
            control_events(s).push(e)
        }),
{
    assert(s.push(e).drop_last() =~= s);
    assert(s.push(e).last() == e);
    assert(s.push(e) =~= s + seq![e]);
    lemma_data_concat_add(s, seq![e]);
    lemma_control_events_add(s, seq![e]);
    assert(seq![e].skip(1) =~= Seq::<Event>::empty());
    assert(data_concat(Seq::<Event>::empty()) == Seq::<u8>::empty());
    assert(control_events(Seq::<Event>::empty()) == Seq::<Event>::empty());
    assert(seq![e][0] == e);
    match e {
        Event::Data { bytes } => {
            assert(data_concat(seq![e]) == bytes + Seq::<u8>::empty());
            assert(bytes + Seq::<u8>::empty() =~= bytes);
            assert(control_events(seq![e]) == Seq::<Event>::empty());
            assert(control_events(s) + Seq::<Event>::empty() =~= control_events(s));
        },
        _ => {
            assert(data_concat(seq![e]) == Seq::<u8>::empty() + Seq::<u8>::empty());
            assert(Seq::<u8>::empty() + Seq::<u8>::empty() =~= Seq::<u8>::empty());
            assert(data_concat(s) + Seq::<u8>::empty() =~= data_concat(s));
            assert(control_events(seq![e]) == seq![e] + Seq::<Event>::empty());
            assert(seq![e] + Seq::<Event>::empty() =~= seq![e]);
            assert(control_events(s) + seq![e] =~= control_events(s).push(e));
        },
    }
    if has_end(s) {
        let i = choose|i: int| 0 <= i < s.len() && s[i] is End;
        assert(s.push(e)[i] is End);
    }
    if e is End {
        assert(s.push(e)[s.len() as int] is End);
    }
    if has_end(s.push(e)) && !(e is End) {
        let i = choose|i: int| 0 <= i < s.push(e).len() && s.push(e)[i] is End;
        assert(s[i] is End);
    }
}

} // verus!
