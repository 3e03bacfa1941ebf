use crate::object::indirect::id::Id;
use crate::parse::error::ParseErr;
use vstd::prelude::*;

verus! {

/// An error that stops one object in use from being read, while the others
/// are read on.
#[derive(Debug, PartialEq)]
pub enum ObjectRecoverable<'buffer> {
    /// The object number, generation number, offset and the length of the
    /// buffer, where the offset is zero or not in the buffer.
    OutOfBounds(u64, u16, u64, usize),
    /// The object number and generation number that the cross-reference
    /// table gives, and the identifier found at the offset.
    MismatchedId(u64, u16, Id),
    /// The object number, generation number, increment number and offset,
    /// the buffer, and the error of the object read there.
    Parse(u64, u16, u64, u64, &'buffer [u8], ParseErr<'buffer>),
}

} // verus!
