use crate::buffer::ByteBuffer;
use vstd::prelude::*;

verus! {

/// A sink to send HTTP requests to.
///
/// `send` hands bytes to the transport, which may accept any prefix
/// atomically (`Ok(n)`, the first `n` bytes were taken) or refuse
/// (`Err(())`, nothing was taken). The engine loops until everything is
/// accepted or the sink fails. The `accepted` view is all bytes the sink has
/// taken so far, in order.
pub trait Sink: Sized {
    /// All bytes this sink has accepted, in order. A sink that keeps no
    /// record may leave the default, and then promises nothing through it.
    open spec fn accepted(&self) -> Seq<u8> {
        Seq::empty()
    }

    fn send(&mut self, data: &[u8]) -> (r: Result<usize, ()>)
        ensures
            match r {
                Ok(n) => n <= data@.len() && final(self).accepted() == old(self).accepted()
                    + data@.take(n as int),
                Err(()) => final(self).accepted() == old(self).accepted(),
            },
    ;
}

/// A buffer is a sink: a slice is accepted whole while it fits.
impl<const N: usize> Sink for ByteBuffer<N> {
    closed spec fn accepted(&self) -> Seq<u8> {
        self@
    }

    fn send(&mut self, data: &[u8]) -> (r: Result<usize, ()>) {
        match self.try_extend(data) {
            Ok(()) => {
                let n = data.len();
                proof {
                    assert(data@.take(n as int) =~= data@);
                }
                Ok(n)
            },
            Err(()) => Err(()),
        }
    }
}

/// Send all of `data`, looping over partial acceptance. When the sink fails,
/// some prefix of `data` has been accepted.
#[verifier::loop_isolation(false)]
pub fn send_all<S: Sink>(sink: &mut S, data: &[u8]) -> (ok: bool)
    ensures
        ok ==> final(sink).accepted() == old(sink).accepted() + data@,
        !ok ==> exists|k: int|
            0 <= k <= data@.len() && final(sink).accepted() == old(sink).accepted() + data@.take(
                k,
            ),
{
    let mut pos: usize = 0;
    while pos < data.len()
        invariant
            pos <= data@.len(),
            sink.accepted() == old(sink).accepted() + data@.take(pos as int),
        decreases data@.len() - pos,
    {
        let chunk = &data[pos..data.len()];
        match sink.send(chunk) {
            Ok(n) => {
                proof {
                    assert(data@.take(pos as int) + chunk@.take(n as int) =~= data@.take(
                        pos + n,
                    ));
                }
                if n == 0 {
                    // a sink that takes nothing of a non-empty slice makes no
                    // progress: report failure rather than spin
                    return false;
                }
                pos = pos + n;
            },
            Err(()) => {
                return false;
            },
        }
    }
    proof {
        assert(data@.take(pos as int) =~= data@);
    }
    true
}

} // verus!
