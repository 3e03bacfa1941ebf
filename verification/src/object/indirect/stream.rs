use crate::object::direct::dictionary::dictionary_ok;
use crate::object::direct::dictionary::dictionary_err;
use crate::object::direct::dictionary::resolved_usize;
use crate::object::direct::dictionary::Dictionary;
use crate::object::direct::DICTIONARY_OPEN;
use crate::object::error::ObjectErr;
use crate::process::encoding::decode_outcome;
use crate::process::encoding::decoding_supported;
use crate::process::encoding::error::EncodingErr;
use crate::process::encoding::error::EncodingErrorCode;
use crate::process::encoding::Encoding;
use crate::parse::character_set::eol_marker;
use crate::parse::character_set::eol_marker_len;
use crate::parse::character_set::scan_white_space_or_comment;
use crate::parse::character_set::white_space_or_comment_end;
use crate::parse::error::failure;
use crate::parse::error::recoverable;
use crate::parse::error::ParseErr;
use crate::parse::error::ParseError;
use crate::parse::error::ParseErrorCode;
use crate::parse::has_tag;
use crate::parse::tag_at;
use crate::parse::ErrorKind;
use crate::parse::Span;
use crate::parse::KW_ENDSTREAM;
use crate::parse::KW_STREAM;
use crate::pdf::objects::InUseEntry;
use crate::pdf::objects::InUseObjects;
use crate::pdf::objects::ObjectKey;
use crate::process::filter::error::FilterErr;
use crate::process::filter::filtering::chain_defilter_allowed;
use crate::process::filter::filtering::chain_defilter_outcome;
use crate::process::filter::filtering::chain_filter_allowed;
use crate::process::filter::filtering::chain_filter_outcome;
use crate::process::filter::filtering::chain_new_allowed;
use crate::process::filter::filtering::spec_chain_new;
use crate::process::filter::filtering::FilteringChain;
use vstd::prelude::*;
use vstd::slice::slice_subrange;

verus! {

pub const KEY_LENGTH: [u8; 6] = [76, 101, 110, 103, 116, 104];
pub const KEY_F: [u8; 1] = [70];
pub const KEY_FILTER: [u8; 6] = [70, 105, 108, 116, 101, 114];
pub const KEY_DECODEPARMS: [u8; 11] = [68, 101, 99, 111, 100, 101, 80, 97, 114, 109, 115];
pub const KEY_FFILTER: [u8; 7] = [70, 70, 105, 108, 116, 101, 114];
pub const KEY_FDECODEPARMS: [u8; 12] = [70, 68, 101, 99, 111, 100, 101, 80, 97, 114, 109, 115];
pub const KEY_DL: [u8; 2] = [68, 76];

/// REFERENCE: [7.3.8 Stream objects, p31]: a dictionary, then the keyword
/// `stream`, an end-of-line marker, `Length` bytes of data, and the keyword
/// `endstream`.
#[derive(Debug, PartialEq)]
pub struct Stream<'buffer> {
    pub dictionary: Dictionary<'buffer>,
    pub data: &'buffer [u8],
    pub span: Span,
}

/// Where the data of the stream whose dictionary is `d` starts: after the
/// keyword `stream` and its end-of-line marker, if they are there.
pub open spec fn data_start(s: Seq<u8>, d: Dictionary) -> int {
    let n = white_space_or_comment_end(s, d.span.end as int) + KW_STREAM@.len();
    let cr = if n < s.len() && s[n] == 13 { 1int } else { 0int };
    n + cr + 1
}

/// The outcome of reading the rest of a stream whose dictionary `d` was read
/// at `offset`, with the objects in use `m`.
pub open spec fn stream_after_dictionary(
    s: Seq<u8>,
    offset: int,
    d: Dictionary,
    m: Map<ObjectKey, InUseEntry>,
    r: Result<Stream, ParseErr>,
) -> bool {
    let w = white_space_or_comment_end(s, d.span.end as int);
    let n = w + KW_STREAM@.len();
    let cr = if n < s.len() && s[n] == 13 { 1int } else { 0int };
    let a = data_start(s, d);
    if !has_tag(s, w, KW_STREAM@) {
        recoverable(r, s.skip(w), "Stream"@, ParseErrorCode::NotFound(ErrorKind::Tag))
    } else if !(n + cr < s.len() && s[n + cr] == 10) {
        recoverable(r, s.skip(n + cr), "Stream"@, ParseErrorCode::NotFound(ErrorKind::Char))
    } else {
        let key: &'static [u8] = &KEY_LENGTH;
        let dict_bytes = s.subrange(d.span.start as int, d.span.end as int);
        match resolved_usize(d, key, m) {
            Err(err) => failure(r, dict_bytes, "Stream"@, ParseErrorCode::Object(err)),
            Ok(len) => if a + len > s.len() {
                failure(r, s.skip(a), "Stream"@, ParseErrorCode::StreamData(ErrorKind::Eof))
            } else {
                let b = a + len;
                let c = b + eol_marker_len(s, b);
                if !has_tag(s, c, KW_ENDSTREAM@) {
                    failure(r, s.skip(c), "Stream"@, ParseErrorCode::MissingClosing(ErrorKind::Tag))
                } else {
                    r matches Ok(st) && st.dictionary == d && st.data@ == s.subrange(a, b) && st.span == Span {
                        start: offset as usize,
                        end: white_space_or_comment_end(s, c + KW_ENDSTREAM@.len()) as usize,
                    }
                }
            },
        }
    }
}

/// The outcome of reading a stream at `offset`, with the objects in use
/// `m`.
pub open spec fn stream_outcome(s: Seq<u8>, offset: int, m: Map<ObjectKey, InUseEntry>, r: Result<Stream, ParseErr>) -> bool {
    if !has_tag(s, offset, DICTIONARY_OPEN@) {
        recoverable(r, s.skip(offset), "Dictionary"@, ParseErrorCode::NotFound(ErrorKind::Tag))
    } else {
        (r matches Err(e) && dictionary_err(s, offset, e))
            || exists|d: Dictionary| #[trigger] dictionary_ok(s, offset, d) && stream_after_dictionary(s, offset, d, m, r)
    }
}

/// The data of no stream at `offset` is in another file: a dictionary read
/// there has no `F` entry.
pub open spec fn no_file_data(s: Seq<u8>, offset: int) -> bool {
    forall|d: Dictionary| #[trigger] dictionary_ok(s, offset, d) ==> d.spec_get(KEY_F@) is None
}

impl<'buffer> Stream<'buffer> {
    pub fn new(dictionary: Dictionary<'buffer>, data: &'buffer [u8], span: Span) -> (stream: Self)
        ensures
            stream.dictionary == dictionary,
            stream.data == data,
            stream.span == span,
    {
        Self { dictionary, data, span }
    }

    pub fn span(&self) -> (span: Span)
        ensures
            span == self.span,
    {
        self.span
    }

    /// The filters that the stream's dictionary names.
    pub fn filter_chain(&self) -> (r: Result<FilteringChain, FilterErr>)
        requires
            chain_new_allowed(self.dictionary),
        ensures
            match spec_chain_new(self.dictionary) {
                Ok(fs) => (r matches Ok(chain) && chain.0@ == fs),
                Err(e) => r == Err::<FilteringChain, FilterErr>(e),
            },
    {
        FilteringChain::new(&self.dictionary)
    }

    /// Decodes the stream's data with its filters.
    pub fn defilter(&self) -> (r: Result<Vec<u8>, FilterErr>)
        requires
            chain_new_allowed(self.dictionary),
            forall|fs: Seq<_>| spec_chain_new(self.dictionary) == Ok::<_, FilterErr>(fs) ==> chain_defilter_allowed(fs, 0, self.data@),
        ensures
            match spec_chain_new(self.dictionary) {
                Ok(fs) => chain_defilter_outcome(fs, 0, self.data@, r),
                Err(e) => r == Err::<Vec<u8>, FilterErr>(e),
            },
    {
        let chain = self.filter_chain()?;
        chain.defilter(self.data)
    }

    /// Decodes the stream's data with its filters, as far as each can decode
    /// what it is given without a panic: `None` where one cannot.
    pub fn checked_defilter(&self) -> (r: Option<Result<Vec<u8>, FilterErr>>)
        requires
            chain_new_allowed(self.dictionary),
        ensures
            match spec_chain_new(self.dictionary) {
                Ok(fs) => {
                    &&& r matches Some(x) ==> chain_defilter_outcome(fs, 0, self.data@, x)
                    &&& chain_defilter_allowed(fs, 0, self.data@) ==> r is Some
                },
                Err(e) => r == Some(Err::<Vec<u8>, FilterErr>(e)),
            },
    {
        match self.filter_chain() {
            Ok(chain) => chain.checked_defilter(self.data),
            Err(e) => Some(Err(e)),
        }
    }

    /// Encodes `buffer` with the stream's filters.
    pub fn filter_buffer(&self, buffer: &[u8]) -> (r: Result<Vec<u8>, FilterErr>)
        requires
            chain_new_allowed(self.dictionary),
            forall|fs: Seq<_>| spec_chain_new(self.dictionary) == Ok::<_, FilterErr>(fs) ==> chain_filter_allowed(fs, fs.len(), buffer@),
        ensures
            match spec_chain_new(self.dictionary) {
                Ok(fs) => chain_filter_outcome(fs, fs.len(), buffer@, r),
                Err(e) => r == Err::<Vec<u8>, FilterErr>(e),
            },
    {
        let chain = self.filter_chain()?;
        chain.filter(buffer)
    }

    /// Decodes `buffer` with the stream's filters.
    pub fn defilter_buffer(&self, buffer: &[u8]) -> (r: Result<Vec<u8>, FilterErr>)
        requires
            chain_new_allowed(self.dictionary),
            forall|fs: Seq<_>| spec_chain_new(self.dictionary) == Ok::<_, FilterErr>(fs) ==> chain_defilter_allowed(fs, 0, buffer@),
        ensures
            match spec_chain_new(self.dictionary) {
                Ok(fs) => chain_defilter_outcome(fs, 0, buffer@, r),
                Err(e) => r == Err::<Vec<u8>, FilterErr>(e),
            },
    {
        let chain = self.filter_chain()?;
        chain.defilter(buffer)
    }

    /// Decodes the stream's data with its filters, then as text in
    /// `encoding`.
    pub fn decode(&self, encoding: Encoding) -> (r: Result<String, EncodingErr<'buffer>>)
        requires
            chain_new_allowed(self.dictionary),
            forall|fs: Seq<_>| spec_chain_new(self.dictionary) == Ok::<_, FilterErr>(fs) ==> chain_defilter_allowed(fs, 0, self.data@),
            forall|fs: Seq<_>, d: Result<Vec<u8>, FilterErr>|
                spec_chain_new(self.dictionary) == Ok::<_, FilterErr>(fs) && #[trigger] chain_defilter_outcome(fs, 0, self.data@, d)
                    ==> (d matches Ok(v) ==> decoding_supported(encoding, v@)),
        ensures
            match spec_chain_new(self.dictionary) {
                Ok(fs) => exists|d: Result<Vec<u8>, FilterErr>|
                    #[trigger] chain_defilter_outcome(fs, 0, self.data@, d) && decode_outcome(
                        encoding,
                        match d {
                            Ok(v) => Ok(v@),
                            Err(e) => Err(EncodingErr { buffer: self.data, code: EncodingErrorCode::Filter(e) }),
                        },
                        self.data@,
                        r,
                    ),
                Err(e) => r == Err::<String, EncodingErr>(
                    EncodingErr { buffer: self.data, code: EncodingErrorCode::Filter(e) },
                ),
            },
    {
        let chain = match self.filter_chain() {
            Ok(chain) => chain,
            Err(err) => return Err(EncodingErr::new(self.data, EncodingErrorCode::Filter(err))),
        };
        let defiltered = chain.defilter(self.data);
        let ghost d = defiltered;
        let transferred = match defiltered {
            Ok(v) => Ok(v),
            Err(err) => Err(EncodingErr::new(self.data, EncodingErrorCode::Filter(err))),
        };
        encoding.decode(transferred, self.data)
    }

    /// Parses a stream at `offset`. Once the keyword `stream` and its
    /// end-of-line marker are read, an error is a failure of the stream.
    pub fn parse(buffer: &'buffer [u8], offset: usize, parsed_objects: &InUseObjects<'buffer>) -> (r: Result<
        Self,
        ParseErr<'buffer>,
    >)
        requires
            offset <= buffer@.len(),
            buffer@.len() <= usize::MAX,
            no_file_data(buffer@, offset as int),
        ensures
            stream_outcome(buffer@, offset as int, parsed_objects@, r),
            r matches Ok(st) ==> st.span.start == offset && offset < st.span.end <= buffer@.len(),
    {
        let ghost s = buffer@;
        let dictionary = Dictionary::parse(buffer, offset)?;
        let ghost d = dictionary;
        assert(dictionary_ok(s, offset as int, d));
        let w = scan_white_space_or_comment(buffer, dictionary.span.end);
        if !tag_at(buffer, w, &KW_STREAM) {
            return Err(
                ParseErr::Recoverable(
                    ParseError::new(
                        slice_subrange(buffer, w, buffer.len()),
                        "Stream",
                        ParseErrorCode::NotFound(ErrorKind::Tag),
                    ),
                ),
            );
        }
        let n = w + 6;
        let cr: usize = if n < buffer.len() && buffer[n] == 13 { 1 } else { 0 };
        if !(n + cr < buffer.len() && buffer[n + cr] == 10) {
            return Err(
                ParseErr::Recoverable(
                    ParseError::new(
                        slice_subrange(buffer, n + cr, buffer.len()),
                        "Stream",
                        ParseErrorCode::NotFound(ErrorKind::Char),
                    ),
                ),
            );
        }
        let a = n + cr + 1;
        let length = match dictionary.required_resolve_usize(&KEY_LENGTH, parsed_objects) {
            Ok(length) => length,
            Err(err) => {
                let span = dictionary.span;
                return Err(
                    ParseErr::Failure(
                        ParseError::new(
                            slice_subrange(buffer, span.start, span.end),
                            "Stream",
                            ParseErrorCode::Object(err),
                        ),
                    ),
                );
            },
        };
        proof {
            assert(dictionary.spec_get(KEY_F@) is None);
        }
        if length > buffer.len() - a {
            return Err(
                ParseErr::Failure(
                    ParseError::new(
                        slice_subrange(buffer, a, buffer.len()),
                        "Stream",
                        ParseErrorCode::StreamData(ErrorKind::Eof),
                    ),
                ),
            );
        }
        let b = a + length;
        let data = slice_subrange(buffer, a, b);
        let c = b + eol_marker(buffer, b);
        if !tag_at(buffer, c, &KW_ENDSTREAM) {
            return Err(
                ParseErr::Failure(
                    ParseError::new(
                        slice_subrange(buffer, c, buffer.len()),
                        "Stream",
                        ParseErrorCode::MissingClosing(ErrorKind::Tag),
                    ),
                ),
            );
        }
        let end = scan_white_space_or_comment(buffer, c + 9);
        Ok(Self { dictionary, data, span: Span { start: offset, end } })
    }
}

} // verus!
