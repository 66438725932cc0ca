use crate::buffer::ByteBuffer;
use crate::model::{
    data_concat, has_end, last_status, status_code, status_reason, status_version, Event,
    lemma_event_push,
};
use vstd::prelude::*;
use vstd::string::{StringExecFns, StringSliceAdditionalSpecFns};
use vstd::utf8::encode_utf8;

verus! {

/// The status information of a response, handed to the handler exactly once.
/// The reason phrase borrows from the engine's scratch buffer and is only
/// valid for the duration of the callback.
pub struct Response<'r> {
    pub version: u8,
    pub code: u16,
    pub reason: &'r str,
}

/// The event that one `more_payload` argument stands for.
pub open spec fn event_of_signal(payload: Result<Option<&[u8]>, ()>) -> Event {
    match payload {
        Ok(Some(d)) => Event::Data { bytes: d@ },
        Ok(None) => Event::End,
        Err(_) => Event::Error,
    }
}

/// The event that one `response` argument stands for.
pub open spec fn event_of_response(response: Response<'_>) -> Event {
    Event::Status {
        version: response.version,
        code: response.code,
        reason: response.reason.spec_bytes(),
    }
}

/// A consumer of response events.
///
/// The engine calls `response` exactly once per request with the parsed
/// status line, then `more_payload` one or more times: body fragments as
/// `Ok(Some(bytes))`, the end-of-body sentinel as `Ok(None)`, and the error
/// signal as `Err(())`. The `events` view records the calls received, so
/// that what a handler observed can be spoken about precisely.
pub trait ResponseHandler: Sized {
    /// The events this handler has received, in order. A handler that keeps
    /// no record may leave the default, and then cannot satisfy the
    /// contracts below; every handler of this crate overrides it.
    open spec fn events(&self) -> Seq<Event> {
        Seq::empty()
    }

    /// The handler's own well-formedness, tying its queryable state to the
    /// events it has received.
    open spec fn inv(&self) -> bool {
        true
    }

    /// Receive the parsed status line.
    fn response(&mut self, response: Response<'_>)
        ensures
            final(self).events() == old(self).events().push(event_of_response(response)),
            old(self).inv() ==> final(self).inv(),
    ;

    /// Receive a body fragment, the end-of-body sentinel, or the error
    /// signal.
    fn more_payload(&mut self, payload: Result<Option<&[u8]>, ()>)
        ensures
            final(self).events() == old(self).events().push(event_of_signal(payload)),
            old(self).inv() ==> final(self).inv(),
    ;
}

/// A response handler that discards everything it is given.
pub struct NoOpResponseHandler {
    seen: Ghost<Seq<Event>>,
}

impl NoOpResponseHandler {
    pub fn new() -> (r: Self)
        ensures
            r.events() == Seq::<Event>::empty(),
    {
        NoOpResponseHandler { seen: Ghost(Seq::empty()) }
    }
}

impl ResponseHandler for NoOpResponseHandler {
    closed spec fn events(&self) -> Seq<Event> {
        self.seen@
    }

    open spec fn inv(&self) -> bool {
        true
    }

    fn response(&mut self, response: Response<'_>) {
        proof {
            self.seen@ = self.seen@.push(event_of_response(response));
        }
    }

    fn more_payload(&mut self, payload: Result<Option<&[u8]>, ()>) {
        proof {
            self.seen@ = self.seen@.push(event_of_signal(payload));
        }
    }
}

/// The reason phrase a buffering handler of reason capacity `nr` retains:
/// the phrase of the last status event when it fits, nothing otherwise.
pub open spec fn retained_reason(events: Seq<Event>, nr: nat) -> Seq<u8> {
    if status_reason(events).len() <= nr {
        status_reason(events)
    } else {
        Seq::empty()
    }
}

/// A response handler that buffers everything: the status fields, and the
/// body in a buffer of capacity `N`. The reason phrase is kept when it is at
/// most `NR` bytes long. A body fragment that would overflow the buffer is
/// dropped whole; a caller that needs every byte sizes `N` to the largest
/// expected body.
pub struct BufferResponseHandler<const N: usize, const NR: usize> {
    version: u8,
    code: u16,
    reason: Option<String>,
    payload: ByteBuffer<N>,
    complete: bool,
    seen: Ghost<Seq<Event>>,
}

impl<const N: usize, const NR: usize> BufferResponseHandler<N, NR> {
    /// What this handler's queryable state promises relative to the events
    /// it has received.
    pub closed spec fn wf(&self) -> bool {
        &&& self.complete == has_end(self.seen@)
        &&& self.version == status_version(self.seen@)
        &&& self.code == status_code(self.seen@)
        &&& (match self.reason {
            Some(s) => encode_utf8(s@) == retained_reason(self.seen@, NR as nat) && last_status(
                self.seen@,
            ) is Some,
            None => retained_reason(self.seen@, NR as nat) == Seq::<u8>::empty(),
        })
        &&& (data_concat(self.seen@).len() <= N ==> self.payload@ == data_concat(self.seen@))
    }

    pub fn new() -> (r: Self)
        ensures
            r.events() == Seq::<Event>::empty(),
            r.inv(),
    {
        let r = BufferResponseHandler {
            version: 0u8,
            code: 0u16,
            reason: None,
            payload: ByteBuffer::new(),
            complete: false,
            seen: Ghost(Seq::empty()),
        };
        proof {
            assert(!has_end(r.seen@));
            assert(data_concat(r.seen@) =~= Seq::<u8>::empty());
        }
        r
    }

    /// True once the end-of-body sentinel has arrived.
    pub fn is_complete(&self) -> (r: bool)
        ensures
            self.inv() ==> r == has_end(self.events()),
    {
        self.complete
    }

    /// The status code of the response, `0` before any status arrived.
    pub fn code(&self) -> (r: u16)
        ensures
            self.inv() ==> r == status_code(self.events()),
    {
        self.code
    }

    /// The minor HTTP version of the response, `0` before any status
    /// arrived.
    pub fn version(&self) -> (r: u8)
        ensures
            self.inv() ==> r == status_version(self.events()),
    {
        self.version
    }

    /// The retained reason phrase, `""` when none arrived or it did not fit.
    pub fn reason(&self) -> (r: &str)
        ensures
            self.inv() ==> r.spec_bytes() == retained_reason(self.events(), NR as nat),
    {
        match &self.reason {
            Some(s) => s.as_str(),
            None => {
                let r = "";
                proof {
                    reveal_strlit("");
                    assert(r.spec_bytes() =~= Seq::<u8>::empty());
                }
                r
            },
        }
    }

    /// The accumulated body bytes.
    pub fn payload(&self) -> (r: &[u8])
        ensures
            self.inv() && data_concat(self.events()).len() <= N ==> r@ == data_concat(
                self.events(),
            ),
    {
        self.payload.as_slice()
    }
}

impl<const N: usize, const NR: usize> ResponseHandler for BufferResponseHandler<N, NR> {
    closed spec fn events(&self) -> Seq<Event> {
        self.seen@
    }

    closed spec fn inv(&self) -> bool {
        self.wf()
    }

    fn response(&mut self, response: Response<'_>) {
        proof {
            lemma_event_push(self.seen@, event_of_response(response));
        }
        self.version = response.version;
        self.code = response.code;
        let reason_bytes = response.reason.as_bytes();
        if reason_bytes.len() <= NR {
            self.reason = Some(String::from_str(response.reason));
        } else {
            self.reason = None;
        }
        proof {
            self.seen@ = self.seen@.push(event_of_response(response));
        }
    }

    fn more_payload(&mut self, payload: Result<Option<&[u8]>, ()>) {
        proof {
            lemma_event_push(self.seen@, event_of_signal(payload));
        }
        match payload {
            Ok(Some(data)) => {
                let _ = self.payload.try_extend(data);
            },
            Ok(None) => {
                self.complete = true;
            },
            Err(_) => {},
        }
        proof {
            self.seen@ = self.seen@.push(event_of_signal(payload));
        }
    }
}

} // verus!
