use crate::model::{
    concat_frags, control_events, data_concat, init_model, model_equiv, model_inv, observe,
    run_data, status_event, step_close, step_data, Event, Model, Phase,
    lemma_control_events_add, lemma_data_concat_add, lemma_event_push, lemma_step_data_inv,
};
use crate::parse::{
    lemma_complete_used_bounds, lemma_incomplete_head_ends_beyond, lemma_parse_response_extend,
    parse_response, Framing, ParseOutcome,
};
use vstd::prelude::*;

verus! {

// This module holds the engine's laws: what a handler observes does not
// depend on how the response byte stream was cut into fragments, and the
// body a handler receives under each framing is exactly the body that was
// sent.
proof fn lemma_observe_empty()
    ensures
        data_concat(Seq::<Event>::empty()) == Seq::<u8>::empty(),
        control_events(Seq::<Event>::empty()) == Seq::<Event>::empty(),
{
}

proof fn lemma_observe1(e: Event)
    ensures
        data_concat(seq![e]) == (match e {
            Event::Data { bytes } => bytes,
            _ => Seq::<u8>::empty(),
        }),
        control_events(seq![e]) == (if e is Data {
            Seq::<Event>::empty()
        } else {
            seq![e]
        }),
{
    assert(seq![e] =~= Seq::<Event>::empty().push(e));
    lemma_event_push(Seq::<Event>::empty(), e);
    assert(data_concat(Seq::<Event>::empty()) + (match e {
        Event::Data { bytes } => bytes,
        _ => Seq::<u8>::empty(),
    }) =~= (match e {
        Event::Data { bytes } => bytes,
        _ => Seq::<u8>::empty(),
    }));
    assert(control_events(Seq::<Event>::empty()).push(e) =~= seq![e]);
}

proof fn lemma_observe2(e1: Event, e2: Event)
    ensures
        data_concat(seq![e1, e2]) == (match e1 {
            Event::Data { bytes } => bytes,
            _ => Seq::<u8>::empty(),
        }) + (match e2 {
            Event::Data { bytes } => bytes,
            _ => Seq::<u8>::empty(),
        }),
        !(e1 is Data) && !(e2 is Data) ==> control_events(seq![e1, e2]) == seq![e1, e2],
        e1 is Data && !(e2 is Data) ==> control_events(seq![e1, e2]) == seq![e2],
{
    assert(seq![e1, e2] =~= seq![e1] + seq![e2]);
    lemma_data_concat_add(seq![e1], seq![e2]);
    lemma_control_events_add(seq![e1], seq![e2]);
    lemma_observe1(e1);
    lemma_observe1(e2);
    if !(e1 is Data) && !(e2 is Data) {
        assert(seq![e1] + seq![e2] =~= seq![e1, e2]);
    }
    if e1 is Data && !(e2 is Data) {
        assert(Seq::<Event>::empty() + seq![e2] =~= seq![e2]);
    }
}

/// Composing a step with later fragments, for the phases after the head:
/// feeding `a + b` at once is indistinguishable from feeding `a` then `b`.
proof fn lemma_step_split_nonheader(m: Model, a: Seq<u8>, b: Seq<u8>)
    requires
        !(m.phase is Headers),
    ensures
        ({
            let s_ab = step_data(m, a + b);
            let s_a = step_data(m, a);
            let s_b = step_data(s_a.m, b);
            &&& model_equiv(s_ab.m, s_b.m)
            &&& observe(s_ab.events) == observe(s_a.events + s_b.events)
        }),
{
    let s_ab = step_data(m, a + b);
    let s_a = step_data(m, a);
    let s_b = step_data(s_a.m, b);
    lemma_data_concat_add(s_a.events, s_b.events);
    lemma_control_events_add(s_a.events, s_b.events);
    match m.phase {
        Phase::Headers => {},
        Phase::Fixed { remaining } => {
            if a.len() >= remaining {
                // the body completes within `a`; `b` lands in the overflow
                assert((a + b).take(remaining as int) =~= a.take(remaining as int));
                lemma_observe2(
                    Event::Data { bytes: a.take(remaining as int) },
                    Event::End,
                );
                lemma_observe_empty();
                assert(observe(s_ab.events) == observe(s_a.events + s_b.events)) by {
                    assert(data_concat(s_a.events) + data_concat(s_b.events) =~= data_concat(
                        s_ab.events,
                    ));
                    assert(control_events(s_a.events) + control_events(s_b.events)
                        =~= control_events(s_ab.events));
                }
            } else if a.len() + b.len() >= remaining {
                // the body completes within `b`
                let r2 = (remaining - a.len()) as nat;
                assert((a + b).take(remaining as int) =~= a + b.take(r2 as int));
                lemma_observe2(
                    Event::Data { bytes: (a + b).take(remaining as int) },
                    Event::End,
                );
                lemma_observe1(Event::Data { bytes: a });
                lemma_observe2(Event::Data { bytes: b.take(r2 as int) }, Event::End);
                assert(data_concat(s_ab.events) =~= data_concat(s_a.events) + data_concat(
                    s_b.events,
                ));
                assert(control_events(s_ab.events) =~= control_events(s_a.events)
                    + control_events(s_b.events));
            } else {
                // still counting down
                lemma_observe1(Event::Data { bytes: a + b });
                lemma_observe1(Event::Data { bytes: a });
                lemma_observe1(Event::Data { bytes: b });
                assert(data_concat(s_ab.events) =~= data_concat(s_a.events) + data_concat(
                    s_b.events,
                ));
                assert(control_events(s_ab.events) =~= control_events(s_a.events)
                    + control_events(s_b.events));
            }
        },
        Phase::Unbounded => {
            lemma_observe1(Event::Data { bytes: a + b });
            lemma_observe1(Event::Data { bytes: a });
            lemma_observe1(Event::Data { bytes: b });
            assert(data_concat(s_ab.events) =~= data_concat(s_a.events) + data_concat(
                s_b.events,
            ));
            assert(control_events(s_ab.events) =~= control_events(s_a.events) + control_events(
                s_b.events,
            ));
        },
        Phase::Done => {
            lemma_observe_empty();
            assert(s_a.events + s_b.events =~= Seq::<Event>::empty());
        },
        Phase::Failed { why } => {
            lemma_observe_empty();
            assert(s_a.events + s_b.events =~= Seq::<Event>::empty());
        },
    }
}

/// Feeding `a + b` in one fragment is indistinguishable from feeding `a`
/// then `b`, from any state that satisfies the machine invariant.
#[verifier::rlimit(90)]
#[verifier::spinoff_prover]
proof fn lemma_step_split(m: Model, a: Seq<u8>, b: Seq<u8>)
    requires
        model_inv(m),
    ensures
        ({
            let s_ab = step_data(m, a + b);
            let s_a = step_data(m, a);
            let s_b = step_data(s_a.m, b);
            &&& model_equiv(s_ab.m, s_b.m)
            &&& observe(s_ab.events) == observe(s_a.events + s_b.events)
        }),
{
    if !(m.phase is Headers) {
        lemma_step_split_nonheader(m, a, b);
    } else {
        let cap = m.cap;
        let buf = m.buf;
        let app_a = crate::buffer::fitting_prefix_len(cap, buf.len(), a.len());
        let app_ab = crate::buffer::fitting_prefix_len(cap, buf.len(), (a + b).len());
        let nbuf_a = buf + a.take(app_a as int);
        let nbuf_ab = buf + (a + b).take(app_ab as int);
        assert(app_a <= app_ab && app_ab - app_a <= b.len() && app_a <= a.len());
        let ext = b.take(app_ab - app_a);
        assert(nbuf_ab =~= nbuf_a + ext) by {
            if a.len() <= cap - buf.len() {
                assert(app_a == a.len());
            } else {
                assert(app_a == cap - buf.len() && app_ab == app_a);
            }
        }
        let s_ab = step_data(m, a + b);
        let s_a = step_data(m, a);
        let s_b = step_data(s_a.m, b);
        lemma_data_concat_add(s_a.events, s_b.events);
        lemma_control_events_add(s_a.events, s_b.events);
        match parse_response(nbuf_a) {
            ParseOutcome::Complete { used, status, framing } => {
                lemma_parse_response_extend(nbuf_a, ext);
                assert(parse_response(nbuf_ab) == parse_response(nbuf_a));
                lemma_incomplete_head_ends_beyond(buf, a.take(app_a as int));
                lemma_complete_used_bounds(nbuf_a);
                let d = used - buf.len();
                assert(0 < d <= app_a);
                let leftover_a = a.skip(d);
                assert((a + b).skip(d) =~= leftover_a + b);
                let first = Model {
                    phase: crate::model::phase_of_framing(framing),
                    buf: Seq::empty(),
                    cap,
                };
                let rest_a = step_data(first, leftover_a);
                let rest_ab = step_data(first, leftover_a + b);
                assert(s_a.m == rest_a.m);
                assert(s_a.events == seq![status_event(status)] + rest_a.events);
                assert(s_ab.m == rest_ab.m);
                assert(s_ab.events == seq![status_event(status)] + rest_ab.events);
                lemma_step_split_nonheader(first, leftover_a, b);
                assert(model_equiv(rest_ab.m, step_data(rest_a.m, b).m));
                assert(observe(rest_ab.events) == observe(rest_a.events + s_b.events));
                lemma_observe1(status_event(status));
                lemma_data_concat_add(seq![status_event(status)], rest_ab.events);
                lemma_control_events_add(seq![status_event(status)], rest_ab.events);
                lemma_data_concat_add(
                    seq![status_event(status)],
                    rest_a.events + s_b.events,
                );
                lemma_control_events_add(
                    seq![status_event(status)],
                    rest_a.events + s_b.events,
                );
                assert(s_a.events + s_b.events =~= seq![status_event(status)] + (rest_a.events
                    + s_b.events));
                assert(data_concat(s_ab.events) == data_concat(s_a.events + s_b.events)) by {
                    assert(Seq::<u8>::empty() + data_concat(rest_ab.events) =~= data_concat(
                        rest_ab.events,
                    ));
                    assert(Seq::<u8>::empty() + data_concat(rest_a.events + s_b.events)
                        =~= data_concat(rest_a.events + s_b.events));
                }
                assert(control_events(s_ab.events) == control_events(s_a.events + s_b.events))
                    by {
                    assert(observe(rest_ab.events).control == observe(
                        rest_a.events + s_b.events,
                    ).control);
                }
            },
            ParseOutcome::Malformed => {
                lemma_parse_response_extend(nbuf_a, ext);
                lemma_observe1(Event::Error);
                lemma_observe_empty();
                assert(s_a.events + s_b.events =~= seq![Event::Error]);
            },
            ParseOutcome::Incomplete => {
                if app_a < a.len() {
                    // `a` alone already overflows the scratch buffer
                    assert(app_a == cap - buf.len());
                    assert(app_ab == app_a);
                    assert(ext =~= Seq::<u8>::empty());
                    assert(nbuf_a + ext =~= nbuf_a);
                    assert(parse_response(nbuf_ab) is Incomplete);
                    assert(app_ab < (a + b).len());
                    lemma_observe1(Event::Error);
                    lemma_observe_empty();
                    assert(s_a.events + s_b.events =~= seq![Event::Error]);
                } else {
                    // `a` is absorbed whole and the head is still incomplete
                    assert(app_a == a.len());
                    assert(s_a.events =~= Seq::<Event>::empty());
                    assert(s_a.m == Model { phase: Phase::Headers, buf: nbuf_a, cap });
                    let app_b = crate::buffer::fitting_prefix_len(cap, nbuf_a.len(), b.len());
                    assert(app_b == app_ab - app_a);
                    assert(nbuf_a + b.take(app_b as int) =~= nbuf_ab);
                    match parse_response(nbuf_ab) {
                        ParseOutcome::Incomplete => {
                            assert((app_ab < (a + b).len()) == (app_b < b.len()));
                            if app_ab < (a + b).len() {
                                lemma_observe1(Event::Error);
                                lemma_observe_empty();
                                assert(s_a.events + s_b.events =~= seq![Event::Error]);
                            } else {
                                lemma_observe_empty();
                                assert(s_a.events + s_b.events =~= Seq::<Event>::empty());
                            }
                        },
                        ParseOutcome::Malformed => {
                            lemma_observe1(Event::Error);
                            lemma_observe_empty();
                            assert(s_a.events + s_b.events =~= seq![Event::Error]);
                        },
                        ParseOutcome::Complete { used: used2, status: status2, framing: framing2 } => {
                            lemma_incomplete_head_ends_beyond(nbuf_a, b.take(app_b as int));
                            lemma_complete_used_bounds(nbuf_ab);
                            assert(used2 > nbuf_a.len());
                            assert((a + b).skip(used2 - buf.len()) =~= b.skip(
                                used2 - nbuf_a.len(),
                            ));
                            assert(s_ab.m == s_b.m);
                            assert(s_ab.events == s_b.events);
                            assert(s_a.events + s_b.events =~= s_b.events);
                        },
                    }
                }
            },
        }
    }
}

/// Feeding no bytes changes nothing observable.
proof fn lemma_step_empty(m: Model)
    requires
        model_inv(m),
    ensures
        model_equiv(step_data(m, Seq::empty()).m, m),
        observe(step_data(m, Seq::empty()).events) == observe(Seq::<Event>::empty()),
{
    let s = step_data(m, Seq::<u8>::empty());
    lemma_observe_empty();
    match m.phase {
        Phase::Headers => {
            assert(m.buf + Seq::<u8>::empty().take(0) =~= m.buf);
            assert(s.m =~= m);
        },
        Phase::Fixed { remaining } => {
            lemma_observe1(Event::Data { bytes: Seq::empty() });
            assert(s.m =~= m);
        },
        Phase::Unbounded => {
            lemma_observe1(Event::Data { bytes: Seq::empty() });
        },
        Phase::Done => {
            assert(m.buf + Seq::<u8>::empty().take(0) =~= m.buf);
        },
        Phase::Failed { why } => {},
    }
}

/// An equal observation of the tail gives an equal observation of the whole.
proof fn lemma_observe_prefix(x: Seq<Event>, y1: Seq<Event>, y2: Seq<Event>)
    requires
        observe(y1) == observe(y2),
    ensures
        observe(x + y1) == observe(x + y2),
{
    lemma_data_concat_add(x, y1);
    lemma_data_concat_add(x, y2);
    lemma_control_events_add(x, y1);
    lemma_control_events_add(x, y2);
}

/// Running a fragment list is indistinguishable from one step over the whole
/// byte stream.
proof fn lemma_run_vs_concat(m: Model, frags: Seq<Seq<u8>>)
    requires
        model_inv(m),
    ensures
        ({
            let r = run_data(m, frags);
            let s = step_data(m, concat_frags(frags));
            &&& model_equiv(r.m, s.m)
            &&& observe(r.events) == observe(s.events)
            &&& model_inv(r.m)
        }),
    decreases frags.len(),
{
    if frags.len() == 0 {
        lemma_step_empty(m);
    } else {
        let f0 = frags[0];
        let rest = frags.skip(1);
        let first = step_data(m, f0);
        lemma_step_data_inv(m, f0);
        lemma_run_vs_concat(first.m, rest);
        lemma_step_split(m, f0, concat_frags(rest));
        let r = run_data(m, frags);
        let s = step_data(m, concat_frags(frags));
        let tail_step = step_data(first.m, concat_frags(rest));
        assert(observe(run_data(first.m, rest).events) == observe(tail_step.events));
        lemma_observe_prefix(first.events, run_data(first.m, rest).events, tail_step.events);
        assert(observe(s.events) == observe(first.events + tail_step.events));
    }
}

/// Idempotence under fragmentation: the same response byte stream, split at
/// any two sets of boundaries, gives the handler the same observation — the
/// same control events around the same body bytes — leaves machines that
/// cannot be told apart, and reacts to a following close in the same way.
pub proof fn lemma_fragmentation_independent(cap: nat, fs1: Seq<Seq<u8>>, fs2: Seq<Seq<u8>>)
    requires
        concat_frags(fs1) == concat_frags(fs2),
    ensures
        ({
            let r1 = run_data(init_model(cap), fs1);
            let r2 = run_data(init_model(cap), fs2);
            &&& observe(r1.events) == observe(r2.events)
            &&& model_equiv(r1.m, r2.m)
            &&& step_close(r1.m).events == step_close(r2.m).events
            &&& model_equiv(step_close(r1.m).m, step_close(r2.m).m)
        }),
{
    let m = init_model(cap);
    assert(model_inv(m));
    lemma_run_vs_concat(m, fs1);
    lemma_run_vs_concat(m, fs2);
    let r1 = run_data(m, fs1);
    let r2 = run_data(m, fs2);
    assert(model_equiv(r1.m, r2.m));
    match r1.m.phase {
        Phase::Unbounded => {
            assert(step_close(r1.m).m =~= step_close(r2.m).m);
        },
        Phase::Headers => {
            assert(step_close(r1.m).m =~= step_close(r2.m).m);
        },
        _ => {},
    }
}

/// Completion is terminal: once the machine is done, further fragments and
/// close signals keep it done and hand the handler nothing.
pub proof fn lemma_complete_is_terminal(m: Model, frag: Seq<u8>)
    requires
        m.phase is Done,
    ensures
        step_data(m, frag).m.phase is Done,
        step_data(m, frag).events == Seq::<Event>::empty(),
        step_close(m).m.phase is Done,
        step_close(m).events == Seq::<Event>::empty(),
{
}

/// A response with `Content-Length` equal to its body, delivered across any
/// fragmentation: the handler observes the status once, body bytes whose
/// concatenation is exactly the body, and the end-of-body sentinel once, and
/// the request completes.
pub proof fn lemma_fixed_length_delivery(
    cap: nat,
    head: Seq<u8>,
    body: Seq<u8>,
    frags: Seq<Seq<u8>>,
)
    requires
        head.len() <= cap,
        parse_response(head) matches ParseOutcome::Complete { used, status, framing } && used
            == head.len() && framing == (Framing::Fixed { n: body.len() as nat }),
        concat_frags(frags) == head + body,
    ensures
        ({
            let r = run_data(init_model(cap), frags);
            &&& r.m.phase is Done
            &&& control_events(r.events) == seq![
                status_event(parse_response(head)->Complete_status),
                Event::End,
            ]
            &&& data_concat(r.events) == body
        }),
{
    let m = init_model(cap);
    assert(model_inv(m));
    lemma_run_vs_concat(m, frags);
    let stream = head + body;
    let s = step_data(m, stream);
    let status = parse_response(head)->Complete_status;
    let app = crate::buffer::fitting_prefix_len(cap, 0, stream.len());
    let taken = stream.take(app as int);
    assert(head.len() <= app <= stream.len());
    assert(taken =~= head + stream.subrange(head.len() as int, app as int));
    lemma_parse_response_extend(head, stream.subrange(head.len() as int, app as int));
    assert(Seq::<u8>::empty() + taken =~= taken);
    assert(parse_response(Seq::<u8>::empty() + taken) == parse_response(head));
    let leftover = stream.skip(head.len() as int);
    assert(leftover =~= body);
    let first = Model { phase: Phase::Fixed { remaining: body.len() as nat }, buf: Seq::empty(), cap };
    let rest = step_data(first, body);
    assert(body.take(body.len() as int) =~= body);
    assert(rest.m.phase is Done);
    assert(rest.events == seq![Event::Data { bytes: body }, Event::End]);
    assert(s.events == seq![status_event(status)] + seq![
        Event::Data { bytes: body },
        Event::End,
    ]);
    assert(s.events =~= seq![
        status_event(status),
        Event::Data { bytes: body },
        Event::End,
    ]);
    lemma_observe1(status_event(status));
    lemma_observe2(Event::Data { bytes: body }, Event::End);
    lemma_data_concat_add(seq![status_event(status)], seq![
        Event::Data { bytes: body },
        Event::End,
    ]);
    lemma_control_events_add(seq![status_event(status)], seq![
        Event::Data { bytes: body },
        Event::End,
    ]);
    assert(data_concat(s.events) =~= body);
    assert(control_events(s.events) =~= seq![status_event(status), Event::End]);
    let r = run_data(m, frags);
    assert(observe(r.events) == observe(s.events));
    assert(r.m.phase == s.m.phase);
}

/// A response without a usable `Content-Length`, delivered across any
/// fragmentation and then closed: the handler observes the status once and
/// body bytes whose concatenation is exactly what arrived after the head;
/// the end-of-body sentinel comes exactly at the close, and only then.
pub proof fn lemma_close_delimited_delivery(
    cap: nat,
    head: Seq<u8>,
    body: Seq<u8>,
    frags: Seq<Seq<u8>>,
)
    requires
        head.len() <= cap,
        parse_response(head) matches ParseOutcome::Complete { used, status, framing } && used
            == head.len() && framing is Unbounded,
        concat_frags(frags) == head + body,
    ensures
        ({
            let r = run_data(init_model(cap), frags);
            let c = step_close(r.m);
            &&& control_events(r.events) == seq![
                status_event(parse_response(head)->Complete_status),
            ]
            &&& data_concat(r.events) == body
            &&& c.events == seq![Event::End]
            &&& c.m.phase is Done
        }),
{
    let m = init_model(cap);
    assert(model_inv(m));
    lemma_run_vs_concat(m, frags);
    let stream = head + body;
    let s = step_data(m, stream);
    let status = parse_response(head)->Complete_status;
    let app = crate::buffer::fitting_prefix_len(cap, 0, stream.len());
    let taken = stream.take(app as int);
    assert(head.len() <= app <= stream.len());
    assert(taken =~= head + stream.subrange(head.len() as int, app as int));
    lemma_parse_response_extend(head, stream.subrange(head.len() as int, app as int));
    assert(Seq::<u8>::empty() + taken =~= taken);
    assert(parse_response(Seq::<u8>::empty() + taken) == parse_response(head));
    let leftover = stream.skip(head.len() as int);
    assert(leftover =~= body);
    let first = Model { phase: Phase::Unbounded, buf: Seq::empty(), cap };
    let rest = step_data(first, body);
    assert(rest.m.phase is Unbounded);
    assert(rest.events == seq![Event::Data { bytes: body }]);
    assert(s.events =~= seq![status_event(status), Event::Data { bytes: body }]);
    lemma_observe2(status_event(status), Event::Data { bytes: body });
    assert(seq![status_event(status), Event::Data { bytes: body }] =~= seq![
        status_event(status),
    ] + seq![Event::Data { bytes: body }]);
    lemma_data_concat_add(seq![status_event(status)], seq![Event::Data { bytes: body }]);
    lemma_control_events_add(seq![status_event(status)], seq![Event::Data { bytes: body }]);
    lemma_observe1(status_event(status));
    lemma_observe1(Event::Data { bytes: body });
    assert(data_concat(s.events) =~= body);
    assert(control_events(s.events) =~= seq![status_event(status)]);
    let r = run_data(m, frags);
    assert(observe(r.events) == observe(s.events));
    assert(r.m.phase == s.m.phase);
    assert(r.m.phase is Unbounded);
}

/// With no payload and no headers, the serialized request is exactly
/// `METHOD SP PATH SP "HTTP/1.1" CRLF CRLF`.
pub proof fn lemma_serialized_bare_request(method: Seq<u8>, path: Seq<u8>)
    ensures
        crate::serial::serialized_request(method, path, Seq::empty(), None) == method
            + crate::serial::sp() + path + crate::serial::http_version_tag()
            + crate::serial::crlf(),
{
    assert(crate::serial::headers_bytes(Seq::<(Seq<u8>, Seq<u8>)>::empty())
        =~= Seq::<u8>::empty());
    assert(crate::serial::serialized_request(method, path, Seq::empty(), None) =~= method
        + crate::serial::sp() + path + crate::serial::http_version_tag()
        + crate::serial::crlf());
}

/// With payload `p` and headers `hs`, the serialized request is the request
/// line, then `Content-Length: <len of p>`, then each header in order, then
/// the blank line, then the payload bytes.
pub proof fn lemma_serialized_with_payload(
    method: Seq<u8>,
    path: Seq<u8>,
    hs: Seq<(Seq<u8>, Seq<u8>)>,
    p: Seq<u8>,
)
    ensures
        crate::serial::serialized_request(method, path, hs, Some(p))
            == crate::serial::request_line(method, path) + crate::serial::content_length_header(
            p.len(),
        ) + crate::serial::headers_bytes(hs) + crate::serial::crlf() + p,
{
    assert(crate::serial::serialized_request(method, path, hs, Some(p))
        =~= crate::serial::request_line(method, path) + crate::serial::content_length_header(
        p.len(),
    ) + crate::serial::headers_bytes(hs) + crate::serial::crlf() + p);
}

} // verus!
