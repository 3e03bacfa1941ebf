use crate::parse::Span;
use vstd::prelude::*;

verus! {

/// An error in the entries of a dictionary: the key, the dictionary and why.
#[derive(Debug, PartialEq, Clone, Copy)]
pub struct ObjectErr {
    pub key: &'static [u8],
    pub dictionary_span: Span,
    pub code: ObjectErrorCode,
}

#[derive(Debug, PartialEq, Clone, Copy)]
pub enum ObjectErrorCode {
    Value { expected: &'static [u8], value_span: Span },
    Type { expected_type: &'static str, value_span: Span },
    CyclicReference(u64, u16),
    MissingReferencedObject(u64, u16),
    ReferenceToStream(u64, u16),
    MissingRequiredEntry,
}

impl ObjectErr {
    pub fn new(key: &'static [u8], dictionary_span: Span, code: ObjectErrorCode) -> (err: Self)
        ensures
            err.key == key,
            err.dictionary_span == dictionary_span,
            err.code == code,
    {
        Self { key, dictionary_span, code }
    }
}

} // verus!
