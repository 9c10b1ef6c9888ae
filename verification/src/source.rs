//! The byte view of the whole input: loaded once, read-only afterwards,
//! shareable across workers. An empty input is rejected at construction.

use vstd::prelude::*;

use crate::error::AggError;

verus! {

/// A read-only view of the whole input's bytes.
pub struct Mmap {
    data: Vec<u8>,
}

impl View for Mmap {
    type V = Seq<u8>;

    closed spec fn view(&self) -> Seq<u8> {
        self.data@
    }
}

impl Mmap {
    /// Wrap the input's bytes; a zero-length input is an `Empty` error.
    pub fn from_bytes(data: Vec<u8>) -> (r: Result<Mmap, AggError>)
        ensures
            match r {
                Ok(m) => data@.len() >= 1 && m@ == data@,
                Err(e) => e == AggError::Empty && data@.len() == 0,
            },
    {
        if data.len() == 0 {
            Err(AggError::Empty)
        } else {
            Ok(Mmap { data })
        }
    }

    /// The number of bytes in the view.
    pub fn len(&self) -> (n: usize)
        ensures
            n == self@.len(),
    {
        self.data.len()
    }

    /// The bytes themselves, borrowed read-only.
    pub fn as_bytes(&self) -> (s: &[u8])
        ensures
            s@ == self@,
    {
        self.data.as_slice()
    }
}

} // verus!
