use crate::con::Request;
use crate::handler::ResponseHandler;
use vstd::prelude::*;

verus! {

/// A source of data for the HTTP response: the external pump that reads the
/// transport and pushes fragments into the request until it is complete or
/// the transport fails.
pub trait Source: Sized {
    type Error;

    /// Forward data from this source to the request until the request is
    /// complete or a read error occurs.
    fn pipe_data<const IN: usize, R: ResponseHandler>(
        &mut self,
        request: &mut Request<IN, R>,
    ) -> Result<(), Self::Error>;
}

} // verus!
