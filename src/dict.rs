//! The payload file (`.dict`).
use vstd::prelude::*;
use vstd::slice::slice_to_vec;

use crate::result::DictError;

verus! {

/// The payload of a dictionary: entries are windows of it.
pub struct Dict {
    dictf: Vec<u8>,
}

impl Dict {
    /// The bytes of the `.dict` file.
    pub closed spec fn content(&self) -> Seq<u8> {
        self.dictf@
    }

    /// Holds the bytes of a `.dict` file.
    pub fn open(content: Vec<u8>) -> (r: Dict)
        ensures
            r.content() == content@,
    {
        Dict { dictf: content }
    }

    /// The `length` bytes from `start`, or `Io` when the file ends before.
    pub fn read(&self, start: u64, length: usize) -> (r: Result<Vec<u8>, DictError>)
        ensures
            start + length <= self.content().len() ==> (r matches Ok(v) && v@ == self.content().subrange(start as int, start + length)),
            start + length > self.content().len() ==> (r matches Err(DictError::Io(_))),
    {
        let n = self.dictf.len();
        if start > n as u64 || length > n - start as usize {
            return Err(DictError::Io(String::from_str("the .dict file ends inside an entry")));
        }
        let s = start as usize;
        Ok(slice_to_vec(&self.dictf.as_slice()[s..s + length]))
    }
}

} // verus!
