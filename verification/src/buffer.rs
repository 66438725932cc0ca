use vstd::prelude::*;

verus! {

/// A byte vector whose length never exceeds the compile-time capacity `N`.
///
/// Every buffer of the engine (the inbound scratch buffer, the outbound
/// serialization buffer, the accumulated response body) is one of these, so
/// the memory spent on a request is decided by the caller at construction
/// time. Appends that would exceed the capacity are refused, never grown.
pub struct ByteBuffer<const N: usize> {
    data: Vec<u8>,
}

impl<const N: usize> View for ByteBuffer<N> {
    type V = Seq<u8>;

    closed spec fn view(&self) -> Seq<u8> {
        self.data@
    }
}

/// Number of further bytes a buffer of capacity `cap` holding `len` bytes can
/// take from a fragment of length `extra`: the longest prefix that still fits.
pub open spec fn fitting_prefix_len(cap: nat, len: nat, extra: nat) -> nat {
    if len >= cap {
        0
    } else if extra <= cap - len {
        extra
    } else {
        (cap - len) as nat
    }
}

impl<const N: usize> ByteBuffer<N> {
    pub fn new() -> (r: Self)
        ensures
            r@ == Seq::<u8>::empty(),
    {
        ByteBuffer { data: Vec::new() }
    }

    pub fn len(&self) -> (n: usize)
        ensures
            n == self@.len(),
    {
        self.data.len()
    }

    pub fn is_empty(&self) -> (r: bool)
        ensures
            r == (self@.len() == 0),
    {
        self.data.len() == 0
    }

    pub fn clear(&mut self)
        ensures
            final(self)@ == Seq::<u8>::empty(),
    {
        self.data.clear();
    }

    pub fn as_slice(&self) -> (r: &[u8])
        ensures
            r@ == self@,
    {
        self.data.as_slice()
    }

    /// Append the whole slice, or nothing at all when it does not fit.
    pub fn try_extend(&mut self, data: &[u8]) -> (r: Result<(), ()>)
        ensures
            old(self)@.len() + data@.len() <= N ==> r is Ok,
            r is Ok ==> final(self)@ == old(self)@ + data@ && old(self)@.len() + data@.len()
                <= N,
            r is Err ==> final(self)@ == old(self)@,
    {
        if data.len() <= N && self.data.len() <= N - data.len() {
            self.data.extend_from_slice(data);
            Ok(())
        } else {
            Err(())
        }
    }

    /// Append a single byte when it fits.
    pub fn try_push(&mut self, b: u8) -> (r: Result<(), ()>)
        ensures
            old(self)@.len() < N ==> r is Ok,
            r is Ok ==> final(self)@ == old(self)@.push(b) && old(self)@.len() < N,
            r is Err ==> final(self)@ == old(self)@,
    {
        if self.data.len() < N {
            self.data.push(b);
            Ok(())
        } else {
            Err(())
        }
    }

    /// Append the longest prefix of `data` that fits, and say how long it was.
    pub fn append_prefix(&mut self, data: &[u8]) -> (n: usize)
        ensures
            n == fitting_prefix_len(N as nat, old(self)@.len(), data@.len()),
            final(self)@ == old(self)@ + data@.take(n as int),
    {
        let room: usize = if self.data.len() >= N {
            0
        } else {
            N - self.data.len()
        };
        let n: usize = if data.len() <= room {
            data.len()
        } else {
            room
        };
        self.data.extend_from_slice(&data[0..n]);
        assert(self@ == old(self)@ + data@.take(n as int));
        n
    }
}

} // verus!
