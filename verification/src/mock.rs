use vstd::prelude::*;

verus! {

/// A network stack that does nothing, for examples and documentation.
pub struct MockStack {}

/// The socket of [`MockStack`].
pub struct MockSocket {}

/// The error of [`MockStack`]. The mock never raises it.
#[derive(Clone, Copy, Debug)]
pub enum MockError {
    Never,
}

/// A connected pair of mock stack and mock socket.
pub fn mock_connection() -> (MockStack, MockSocket) {
    (MockStack {  }, MockSocket {  })
}

} // verus!
