use vstd::bytes::*;
use vstd::prelude::*;

use crate::codec::parser::{le_u64, parse_agrees, put_u64, spec_le_u64, ParseError};

verus! {

/// A logical clock that orders successive versions of a node: a 64 bit counter, encoded in
/// eight little-endian bytes.
#[derive(Debug, Clone, Copy, PartialEq, Eq, Structural)]
pub struct VectorClock {
    pub counter: u64,
}

impl VectorClock {
    /// The clock of a new node.
    pub fn initialize() -> (r: VectorClock)
        ensures
            r.counter == 0,
    {
        VectorClock { counter: 0 }
    }

    pub fn encode(&self, out: &mut Vec<u8>) -> (r: usize)
        ensures
            final(out)@ == old(out)@ + spec_u64_to_le_bytes(self.counter),
            r == 8,
    {
        put_u64(out, self.counter);
        8
    }

    pub fn parse(input: &[u8]) -> (res: Result<(&[u8], VectorClock), ParseError>)
        ensures
            parse_agrees(input@, res, spec_le_u64(input@), |c: VectorClock| c.counter),
    {
        let (rest, counter) = le_u64(input)?;
        Ok((rest, VectorClock { counter }))
    }
}

} // verus!
