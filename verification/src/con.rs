use crate::buffer::ByteBuffer;
use crate::handler::{NoOpResponseHandler, Response, ResponseHandler};
use crate::model::{
    init_model, model_inv, step_close, step_data, Event, Model, Phase, RequestError,
};
use crate::parse::{
    lemma_complete_used_bounds, lemma_incomplete_head_ends_beyond, parse_response,
    parse_response_exec, Framing, Parsed, ParseOutcome,
};
use crate::serial::{opt_headers_view, serialized_head, serialized_request, write_head};
use crate::sink::{send_all, Sink};
use vstd::prelude::*;
use vstd::string::StringSliceAdditionalSpecFns;

verus! {

/// The byte view of an optional payload.
pub open spec fn opt_payload_view(p: Option<&[u8]>) -> Option<Seq<u8>> {
    match p {
        Some(x) => Some(x@),
        None => None,
    }
}

/// A connection: owner of the fixed-capacity inbound scratch buffer that is
/// used only while a response head is being assembled. It is consumed by
/// building a request and handed back by [`Request::complete`], so exactly
/// one request can be in flight per connection.
pub struct HttpConnection<const IN: usize> {
    inbound: ByteBuffer<IN>,
}

impl<const IN: usize> HttpConnection<IN> {
    /// Contents of the scratch buffer.
    pub closed spec fn buf(&self) -> Seq<u8> {
        self.inbound@
    }

    pub fn new() -> (r: Self)
        ensures
            r.buf() == Seq::<u8>::empty(),
    {
        HttpConnection { inbound: ByteBuffer::new() }
    }

    /// Start configuring a request. No bytes move until `execute`.
    pub fn begin<'req>(self, method: &'static str, path: &'static str) -> (r: RequestBuilder<
        'req,
        IN,
        NoOpResponseHandler,
    >)
        ensures
            r.method_bytes() == method.spec_bytes(),
            r.path_bytes() == path.spec_bytes(),
            r.headers_view() == Seq::<(Seq<u8>, Seq<u8>)>::empty(),
            r.handler_events() == Seq::<Event>::empty(),
            r.handler_inv(),
    {
        RequestBuilder {
            connection: self,
            method,
            path,
            headers: None,
            handler: NoOpResponseHandler::new(),
        }
    }

    /// Start configuring a `POST` request.
    pub fn post<'req>(self, path: &'static str) -> (r: RequestBuilder<
        'req,
        IN,
        NoOpResponseHandler,
    >)
        ensures
            r.method_bytes() == "POST".spec_bytes(),
            r.path_bytes() == path.spec_bytes(),
            r.headers_view() == Seq::<(Seq<u8>, Seq<u8>)>::empty(),
            r.handler_events() == Seq::<Event>::empty(),
            r.handler_inv(),
    {
        self.begin("POST", path)
    }
}

/// An ordered configuration step: method and path, then headers, then the
/// handler, then `execute` or `execute_with`, which performs the one send.
pub struct RequestBuilder<'req, const IN: usize, R: ResponseHandler> {
    connection: HttpConnection<IN>,
    method: &'static str,
    path: &'static str,
    headers: Option<&'req [(&'req str, &'req str)]>,
    handler: R,
}

impl<'req, const IN: usize, R: ResponseHandler> RequestBuilder<'req, IN, R> {
    pub closed spec fn method_bytes(&self) -> Seq<u8> {
        self.method.spec_bytes()
    }

    pub closed spec fn path_bytes(&self) -> Seq<u8> {
        self.path.spec_bytes()
    }

    pub closed spec fn headers_view(&self) -> Seq<(Seq<u8>, Seq<u8>)> {
        opt_headers_view(self.headers)
    }

    pub closed spec fn handler_events(&self) -> Seq<Event> {
        self.handler.events()
    }

    pub closed spec fn handler_inv(&self) -> bool {
        self.handler.inv()
    }

    /// Replace the header list. The headers are borrowed, never copied, and
    /// are written in the order given.
    pub fn headers(self, headers: &'req [(&'req str, &'req str)]) -> (r: Self)
        ensures
            r.method_bytes() == self.method_bytes(),
            r.path_bytes() == self.path_bytes(),
            r.headers_view() == crate::serial::headers_view(headers@),
            r.handler_events() == self.handler_events(),
            r.handler_inv() == self.handler_inv(),
    {
        RequestBuilder { headers: Some(headers), ..self }
    }

    /// Replace the response handler.
    pub fn handler<RN: ResponseHandler>(self, handler: RN) -> (r: RequestBuilder<'req, IN, RN>)
        ensures
            r.method_bytes() == self.method_bytes(),
            r.path_bytes() == self.path_bytes(),
            r.headers_view() == self.headers_view(),
            r.handler_events() == handler.events(),
            r.handler_inv() == handler.inv(),
    {
        RequestBuilder {
            connection: self.connection,
            method: self.method,
            path: self.path,
            headers: self.headers,
            handler,
        }
    }

    /// Send the request without a payload and hand back the request state
    /// machine that will consume the response.
    pub fn execute<S: Sink, const OUT: usize>(self, sink: &mut S) -> (req: Request<IN, R>)
        ensures
            req.events() == self.handler_events(),
            self.handler_inv() ==> req.wf(),
            ({
                let ser = serialized_request(
                    self.method_bytes(),
                    self.path_bytes(),
                    self.headers_view(),
                    None,
                );
                match req.model().phase {
                    Phase::Headers => req.model() == init_model(IN as nat)
                        && final(sink).accepted() == old(sink).accepted() + ser,
                    Phase::Failed { why: RequestError::RequestTooLarge } => ser.len() > OUT
                        && final(sink).accepted() == old(sink).accepted(),
                    Phase::Failed { why: RequestError::SendFailed } => exists|k: int|
                        0 <= k <= ser.len() && final(sink).accepted() == old(sink).accepted()
                            + ser.take(k),
                    _ => false,
                }
            }),
    {
        self.execute_with::<S, OUT>(sink, None)
    }

    /// Serialize the request — request line, a `Content-Length` header when a
    /// payload is given, the caller headers in order, the blank line, then
    /// the payload — and send it through the sink, once. When the
    /// serialization buffer of capacity `OUT` overflows or the sink fails,
    /// the returned request is in the failed state and reports
    /// [`RequestError::SendFailed`]; some prefix of the request may have
    /// reached the sink.
    pub fn execute_with<S: Sink, const OUT: usize>(self, sink: &mut S, payload: Option<&[u8]>) -> (req:
        Request<IN, R>)
        ensures
            req.events() == self.handler_events(),
            self.handler_inv() ==> req.wf(),
            ({
                let ser = serialized_request(
                    self.method_bytes(),
                    self.path_bytes(),
                    self.headers_view(),
                    opt_payload_view(payload),
                );
                match req.model().phase {
                    Phase::Headers => req.model() == init_model(IN as nat)
                        && final(sink).accepted() == old(sink).accepted() + ser,
                    Phase::Failed { why: RequestError::RequestTooLarge } => ser.len() > OUT
                        && final(sink).accepted() == old(sink).accepted(),
                    Phase::Failed { why: RequestError::SendFailed } => exists|k: int|
                        0 <= k <= ser.len() && final(sink).accepted() == old(sink).accepted()
                            + ser.take(k),
                    _ => false,
                }
            }),
    {
        let RequestBuilder { mut connection, method, path, headers, handler } = self;
        connection.inbound.clear();
        let ghost ser = serialized_request(
            method.spec_bytes(),
            path.spec_bytes(),
            opt_headers_view(headers),
            opt_payload_view(payload),
        );
        let content_length: Option<usize> = match payload {
            Some(p) => Some(p.len()),
            None => None,
        };
        let mut out = ByteBuffer::<OUT>::new();
        let ok = write_head(&mut out, method, path, headers, content_length);
        let ghost head = serialized_head(
            method.spec_bytes(),
            path.spec_bytes(),
            opt_headers_view(headers),
            match content_length {
                Some(n) => Some(n as nat),
                None => None,
            },
        );
        let mut failed_why = RequestError::SendFailed;
        let sent: bool;
        if ok {
            proof {
                assert(out@ == head);
                assert(ser.take(head.len() as int) =~= head);
                assert(ser =~= head + (match opt_payload_view(payload) {
                    Some(p) => p,
                    None => Seq::<u8>::empty(),
                }));
            }
            if send_all(sink, out.as_slice()) {
                match payload {
                    Some(p) => {
                        let all = send_all(sink, p);
                        proof {
                            if all {
                                assert(old(sink).accepted() + head + p@ =~= old(sink).accepted()
                                    + ser);
                            } else {
                                let k = choose|k: int|
                                    0 <= k <= p@.len() && sink.accepted() == (old(sink).accepted()
                                        + head) + p@.take(k);
                                assert(sink.accepted() =~= old(sink).accepted() + ser.take(
                                    head.len() + k,
                                ));
                            }
                        }
                        sent = all;
                    },
                    None => {
                        proof {
                            assert(old(sink).accepted() + head =~= old(sink).accepted() + ser);
                        }
                        sent = true;
                    },
                }
            } else {
                proof {
                    let k = choose|k: int|
                        0 <= k <= head.len() && sink.accepted() == old(sink).accepted()
                            + head.take(k);
                    assert(head.take(k) =~= ser.take(k));
                }
                sent = false;
            }
        } else {
            // the head alone does not fit the outbound buffer
            failed_why = RequestError::RequestTooLarge;
            proof {
                assert(head.len() <= ser.len());
                assert(ser.len() > OUT);
            }
            sent = false;
        }
        let state: State = if sent {
            State::Header
        } else {
            State::Failed(failed_why)
        };
        let req = Request { connection, handler, state };
        proof {
            assert(req.events() == self.handler_events());
            if sent {
                assert(req.model() =~= init_model(IN as nat));
                assert(req.model().phase is Headers);
                assert(sink.accepted() == old(sink).accepted() + ser);
            } else if failed_why == RequestError::SendFailed {
                assert(req.model().phase == (Phase::Failed { why: RequestError::SendFailed }));
                assert(exists|k: int|
                    0 <= k <= ser.len() && sink.accepted() == old(sink).accepted() + ser.take(k));
            } else {
                assert(req.model().phase == (Phase::Failed {
                    why: RequestError::RequestTooLarge,
                }));
                assert(sink.accepted() == old(sink).accepted());
            }
            assert(ser == serialized_request(
                self.method_bytes(),
                self.path_bytes(),
                self.headers_view(),
                opt_payload_view(payload),
            ));
        }
        req
    }
}

/// The framing state of an in-flight request.
enum State {
    Header,
    Payload(usize),
    UnlimitedPayload,
    Complete,
    Failed(RequestError),
}

/// An in-flight request: owns the connection and the handler, follows the
/// response through its framing phases as fragments are pushed in, and hands
/// both back on completion.
pub struct Request<const IN: usize, R: ResponseHandler> {
    connection: HttpConnection<IN>,
    handler: R,
    state: State,
}

impl<const IN: usize, R: ResponseHandler> Request<IN, R> {
    /// The specification-level state of the framing machine.
    pub closed spec fn model(&self) -> Model {
        Model {
            phase: match self.state {
                State::Header => Phase::Headers,
                State::Payload(rem) => Phase::Fixed { remaining: rem as nat },
                State::UnlimitedPayload => Phase::Unbounded,
                State::Complete => Phase::Done,
                State::Failed(why) => Phase::Failed { why },
            },
            buf: self.connection.inbound@,
            cap: IN as nat,
        }
    }

    /// The events the handler has received so far.
    pub closed spec fn events(&self) -> Seq<Event> {
        self.handler.events()
    }

    /// Well-formedness: the machine invariant holds of the model and the
    /// handler is well formed.
    pub closed spec fn wf(&self) -> bool {
        model_inv(self.model()) && self.handler.inv()
    }

    /// True once the whole response has been consumed.
    pub fn is_complete(&self) -> (r: bool)
        ensures
            r == (self.model().phase is Done),
    {
        match self.state {
            State::Complete => true,
            _ => false,
        }
    }

    /// The failure of this request, when it has failed.
    pub fn failure(&self) -> (r: Option<RequestError>)
        ensures
            match self.model().phase {
                Phase::Failed { why } => r == Some(why),
                _ => r is None,
            },
    {
        match self.state {
            State::Failed(why) => Some(why),
            _ => None,
        }
    }

    /// Feed one inbound fragment. The fragment may end anywhere — in the
    /// middle of the status line, a header, or the body — and the machine
    /// advances exactly as [`step_data`] describes.
    pub fn push_data(&mut self, data: &[u8])
        ensures
            old(self).wf() ==> {
                let step = step_data(old(self).model(), data@);
                &&& final(self).wf()
                &&& final(self).model() == step.m
                &&& final(self).events() == old(self).events() + step.events
            },
    {
        match self.state {
            State::Header => self.push_header(data),
            State::Payload(rem) => self.push_sized_payload(rem, data),
            State::UnlimitedPayload => self.push_payload(data),
            State::Complete => self.push_complete_payload(data),
            State::Failed(_) => {
                proof {
                    assert(self.events() + Seq::<Event>::empty() =~= self.events());
                }
            },
        }
    }

    /// Feed the close signal: the peer will send nothing more. During an
    /// unbounded body this completes the response; during header assembly it
    /// fails the request; elsewhere it is a no-op, as [`step_close`]
    /// describes.
    pub fn push_close(&mut self)
        ensures
            old(self).wf() ==> {
                let step = step_close(old(self).model());
                &&& final(self).wf()
                &&& final(self).model() == step.m
                &&& final(self).events() == old(self).events() + step.events
            },
    {
        match self.state {
            State::Header => {
                self.fail(RequestError::ClosedInHeaders);
                proof {
                    assert(old(self).events().push(Event::Error) =~= old(self).events() + seq![
                        Event::Error,
                    ]);
                }
            },
            State::UnlimitedPayload => {
                self.handler.more_payload(Ok(None));
                self.state = State::Complete;
                proof {
                    assert(old(self).events().push(Event::End) =~= old(self).events() + seq![
                        Event::End,
                    ]);
                }
            },
            State::Payload(_) | State::Complete | State::Failed(_) => {
                proof {
                    assert(self.events() + Seq::<Event>::empty() =~= self.events());
                }
            },
        }
    }

    /// Dissolve the request: hand the connection and the handler back to the
    /// caller, for reuse and inspection.
    pub fn complete(self) -> (r: (HttpConnection<IN>, R))
        ensures
            r.1.events() == self.events(),
            self.wf() ==> r.1.inv(),
    {
        (self.connection, self.handler)
    }

    /// Fail the request: terminal state, cleared scratch buffer, and the
    /// error signal to the handler.
    fn fail(&mut self, why: RequestError)
        ensures
            final(self).model() == (Model {
                phase: Phase::Failed { why },
                buf: Seq::<u8>::empty(),
                cap: IN as nat,
            }),
            final(self).handler.events() == old(self).handler.events().push(Event::Error),
            old(self).handler.inv() ==> final(self).handler.inv(),
    {
        self.state = State::Failed(why);
        self.connection.inbound.clear();
        self.handler.more_payload(Err(()));
    }

    /// Body bytes under `Content-Length` framing, `rem` of them still owed.
    fn push_sized_payload(&mut self, rem: usize, data: &[u8])
        requires
            old(self).state matches State::Payload(r) && r == rem,
        ensures
            final(self).model() == step_data(old(self).model(), data@).m,
            final(self).handler.events() == old(self).handler.events() + step_data(
                old(self).model(),
                data@,
            ).events,
            old(self).handler.inv() ==> final(self).handler.inv(),
            final(self).connection.inbound@ == old(self).connection.inbound@,
    {
        if data.len() >= rem {
            self.handler.more_payload(Ok(Some(&data[0..rem])));
            self.state = State::Complete;
            self.handler.more_payload(Ok(None));
            proof {
                assert(data@.subrange(0, rem as int) == data@.take(rem as int));
                assert(old(self).handler.events().push(
                    Event::Data { bytes: data@.take(rem as int) },
                ).push(Event::End) =~= old(self).handler.events() + seq![
                    Event::Data { bytes: data@.take(rem as int) },
                    Event::End,
                ]);
            }
        } else {
            self.handler.more_payload(Ok(Some(data)));
            self.state = State::Payload(rem - data.len());
            proof {
                assert(old(self).handler.events().push(Event::Data { bytes: data@ }) =~= old(
                    self,
                ).handler.events() + seq![Event::Data { bytes: data@ }]);
            }
        }
    }

    /// Body bytes under close-delimited framing: forwarded verbatim.
    fn push_payload(&mut self, data: &[u8])
        requires
            old(self).state is UnlimitedPayload,
        ensures
            final(self).model() == step_data(old(self).model(), data@).m,
            final(self).handler.events() == old(self).handler.events() + step_data(
                old(self).model(),
                data@,
            ).events,
            old(self).handler.inv() ==> final(self).handler.inv(),
            final(self).connection.inbound@ == old(self).connection.inbound@,
    {
        self.handler.more_payload(Ok(Some(data)));
        proof {
            assert(old(self).handler.events().push(Event::Data { bytes: data@ }) =~= old(
                self,
            ).handler.events() + seq![Event::Data { bytes: data@ }]);
        }
    }

    /// Bytes after completion: kept in the scratch buffer, reserved for a
    /// hypothetical pipelined successor, never handed to the handler.
    fn push_complete_payload(&mut self, data: &[u8])
        requires
            old(self).state is Complete,
        ensures
            final(self).model() == step_data(old(self).model(), data@).m,
            final(self).handler.events() == old(self).handler.events(),
            old(self).handler.inv() ==> final(self).handler.inv(),
    {
        let _ = self.connection.inbound.append_prefix(data);
        proof {
            assert(self.handler.events() + Seq::<Event>::empty() =~= self.handler.events());
            assert(final(self).model() =~= step_data(old(self).model(), data@).m);
        }
    }

    /// Fragment during header assembly: append what fits, try to parse the
    /// head, and on completion deliver the status and re-dispatch the
    /// leftover bytes of this same fragment under the new framing state.
    fn push_header(&mut self, data: &[u8])
        requires
            old(self).state is Header,
        ensures
            old(self).wf() ==> {
                let step = step_data(old(self).model(), data@);
                &&& final(self).wf()
                &&& final(self).model() == step.m
                &&& final(self).events() == old(self).events() + step.events
            },
    {
        let ghost m0 = self.model();
        let ghost old_events = self.handler.events();
        let appended = self.connection.inbound.append_prefix(data);
        let ghost nbuf = self.connection.inbound@;
        match parse_response_exec(self.connection.inbound.as_slice()) {
            Parsed::Incomplete => {
                if appended < data.len() {
                    self.fail(RequestError::HeadersTooLarge);
                    proof {
                        assert(old_events.push(Event::Error) =~= old_events + seq![Event::Error]);
                    }
                } else {
                    proof {
                        assert(self.events() + Seq::<Event>::empty() =~= self.events());
                    }
                }
            },
            Parsed::Malformed => {
                self.fail(RequestError::MalformedResponse);
                proof {
                    assert(old_events.push(Event::Error) =~= old_events + seq![Event::Error]);
                }
            },
            Parsed::Complete { used, version, code, reason, content_length } => {
                let buf_len = self.connection.inbound.len();
                let old_len = if buf_len >= appended {
                    buf_len - appended
                } else {
                    0
                };
                let start0 = if used >= old_len {
                    used - old_len
                } else {
                    0
                };
                let start = if start0 <= data.len() {
                    start0
                } else {
                    data.len()
                };
                proof {
                    if old(self).wf() {
                        lemma_incomplete_head_ends_beyond(m0.buf, data@.take(appended as int));
                        lemma_complete_used_bounds(nbuf);
                        assert(m0.buf + data@.take(appended as int) == nbuf);
                        assert(used > m0.buf.len());
                        assert(used <= nbuf.len());
                        assert(old_len == m0.buf.len());
                        assert(start0 == used - old_len);
                        assert(start0 <= appended);
                        assert(start == start0);
                    }
                }
                self.state = match content_length {
                    Some(n) => State::Payload(n),
                    None => State::UnlimitedPayload,
                };
                self.handler.response(Response { version, code, reason });
                self.connection.inbound.clear();
                let rest = &data[start..data.len()];
                let ghost mid_events = self.handler.events();
                let ghost m1 = self.model();
                proof {
                    if old(self).wf() {
                        let spec_step = step_data(m0, data@);
                        let spec_parsed = parse_response(nbuf);
                        let spec_used = spec_parsed->Complete_used;
                        let status = spec_parsed->Complete_status;
                        let framing = spec_parsed->Complete_framing;
                        assert(spec_used == used);
                        assert(rest@ == data@.skip(start as int));
                        assert(m1 == Model {
                            phase: crate::model::phase_of_framing(framing),
                            buf: Seq::<u8>::empty(),
                            cap: IN as nat,
                        });
                        assert(mid_events == old_events.push(crate::model::status_event(status)));
                    }
                }
                match self.state {
                    State::Payload(rem) => self.push_sized_payload(rem, rest),
                    State::UnlimitedPayload => self.push_payload(rest),
                    _ => {},
                }
                proof {
                    if old(self).wf() {
                        let spec_parsed = parse_response(nbuf);
                        let status = spec_parsed->Complete_status;
                        let spec_framing = spec_parsed->Complete_framing;
                        let rest_step = step_data(m1, data@.skip(start as int));
                        if spec_framing matches Framing::Fixed { n } {
                            crate::model::lemma_complete_framing_bound(nbuf);
                        }
                        crate::model::lemma_step_after_head_inv(
                            spec_framing,
                            IN as nat,
                            data@.skip(start as int),
                        );
                        assert(final(self).model() == rest_step.m);
                        assert(final(self).events() == mid_events + rest_step.events);
                        assert(old_events + (seq![crate::model::status_event(status)]
                            + rest_step.events) =~= (old_events.push(
                            crate::model::status_event(status),
                        )) + rest_step.events);
                    }
                }
            },
        }
    }
}

} // verus!
