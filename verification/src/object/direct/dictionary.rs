use super::array::Array;
use super::direct_err;
use super::direct_ok;
use super::direct_outcome;
use super::name::spec_name_escape;
use super::name::Name;
use super::numeric::Numeric;
use super::DirectValue;
use super::DICTIONARY_CLOSE;
use super::DICTIONARY_OPEN;
use crate::object::error::ObjectErr;
use crate::object::error::ObjectErrorCode;
use crate::object::indirect::reference::Reference;
use crate::parse::bytes_eq;
use crate::pdf::objects::resolve_reference;
use crate::pdf::objects::InUseEntry;
use crate::pdf::objects::InUseObjects;
use crate::pdf::objects::ObjectKey;
use crate::parse::character_set::run_end;
use crate::parse::character_set::scan_white_space_or_comment;
use crate::parse::character_set::white_space_or_comment_end;
use crate::parse::character_set::ByteClass;
use crate::parse::error::failure;
use crate::parse::error::recoverable;
use crate::parse::error::ParseErr;
use crate::parse::error::ParseError;
use crate::parse::error::ParseErrorCode;
use crate::parse::has_tag;
use crate::parse::tag_at;
use crate::parse::ErrorKind;
use crate::parse::Span;
use crate::process::filter::predictor::bytes_to_vec;
use vstd::prelude::*;
use vstd::slice::slice_subrange;

verus! {

/// REFERENCE: [7.3.7 Dictionary objects, p30-31]: the entries in the order
/// in which they were read, each key with its escapes resolved. A key read
/// again stands for its last value.
#[derive(Debug, PartialEq)]
pub struct Dictionary<'buffer> {
    pub entries: Vec<(Vec<u8>, DirectValue<'buffer>)>,
    pub span: Span,
}

/// The key that a name with the bytes `raw` stands for: its escapes
/// resolved, or the bytes themselves when they cannot be.
#[verifier::opaque]
pub open spec fn escaped_key(raw: Seq<u8>) -> Seq<u8> {
    match spec_name_escape(raw) {
        Ok(escaped) => escaped,
        Err(_) => raw,
    }
}

/// The end of the name at `p`.
pub open spec fn key_end(s: Seq<u8>, p: int) -> int {
    run_end(s, p + 1, ByteClass::PrintableRegular)
}

/// Where the `k`th entry of `entries` starts, the first at `start` and each
/// other after the white space and comments that follow the value before.
pub open spec fn entry_position(s: Seq<u8>, entries: Seq<(Vec<u8>, DirectValue)>, start: int, k: int) -> int {
    if k <= 0 {
        start
    } else {
        white_space_or_comment_end(s, entries[k - 1].1.spec_span().end as int)
    }
}

/// The entry `entry` is read at `p`: a name, white space or comments, and
/// a value.
#[verifier::opaque]
pub open spec fn entry_ok(s: Seq<u8>, p: int, entry: (Vec<u8>, DirectValue)) -> bool {
    &&& 0 <= p < s.len() && s[p] == 47
    &&& entry.0@ == escaped_key(s.subrange(p + 1, key_end(s, p)))
    &&& direct_ok(s, white_space_or_comment_end(s, key_end(s, p)), entry.1)
}

/// Each of `entries` is read where it starts, and no `>>` is there.
pub open spec fn entries_ok(s: Seq<u8>, entries: Seq<(Vec<u8>, DirectValue)>, start: int) -> bool {
    forall|k: int|
        #![trigger entries[k]]
        0 <= k < entries.len() ==> !has_tag(s, entry_position(s, entries, start, k), DICTIONARY_CLOSE@)
            && entry_ok(s, entry_position(s, entries, start, k), entries[k])
}

/// Adding an entry read where the next one starts keeps every entry read
/// where it starts.
pub proof fn lemma_entries_push(
    s: Seq<u8>,
    entries: Seq<(Vec<u8>, DirectValue)>,
    pushed: Seq<(Vec<u8>, DirectValue)>,
    start: int,
)
    requires
        pushed.len() == entries.len() + 1,
        forall|k: int| 0 <= k < entries.len() ==> pushed[k] == entries[k],
        entries_ok(s, entries, start),
        !has_tag(s, entry_position(s, entries, start, entries.len() as int), DICTIONARY_CLOSE@),
        entry_ok(s, entry_position(s, entries, start, entries.len() as int), pushed[entries.len() as int]),
    ensures
        entries_ok(s, pushed, start),
{
    assert forall|k: int| 0 <= k < pushed.len() implies !has_tag(s, entry_position(s, pushed, start, k), DICTIONARY_CLOSE@)
        && entry_ok(s, entry_position(s, pushed, start, k), pushed[k]) by {
        if k < entries.len() {
            assert(entries[k] == pushed[k]);
        }
        if k > 0 {
            assert(pushed[k - 1] == entries[k - 1]);
        }
    }
}

/// The dictionary `d` is what a parser reads at `offset`: `<<`, white space
/// or comments, then entries, each followed by white space or comments, up
/// to the first `>>` where a key would start.
pub open spec fn dictionary_ok(s: Seq<u8>, offset: int, d: Dictionary) -> bool
    decreases d, d.entries@.len() + 1,
{
    let entries = d.entries@;
    let start = white_space_or_comment_end(s, offset + 2);
    &&& has_tag(s, offset, DICTIONARY_OPEN@)
    &&& d.span.start == offset
    &&& forall|k: int|
        #![trigger entries[k]]
        0 <= k < entries.len() ==> !has_tag(s, entry_position(s, entries, start, k), DICTIONARY_CLOSE@) && {
            let p = entry_position(s, entries, start, k);
            &&& 0 <= p < s.len() && s[p] == 47
            &&& entries[k].0@ == escaped_key(s.subrange(p + 1, key_end(s, p)))
            &&& direct_ok(s, white_space_or_comment_end(s, key_end(s, p)), entries[k].1)
        }
    &&& has_tag(s, entry_position(s, entries, start, entries.len() as int), DICTIONARY_CLOSE@)
    &&& d.span.end == entry_position(s, entries, start, entries.len() as int) + 2
}

/// Entries read up to a closing `>>` make a dictionary.
pub proof fn lemma_dictionary_ok(s: Seq<u8>, offset: int, d: Dictionary, start: int)
    requires
        has_tag(s, offset, DICTIONARY_OPEN@),
        d.span.start == offset,
        start == white_space_or_comment_end(s, offset + 2),
        entries_ok(s, d.entries@, start),
        has_tag(s, entry_position(s, d.entries@, start, d.entries@.len() as int), DICTIONARY_CLOSE@),
        d.span.end == entry_position(s, d.entries@, start, d.entries@.len() as int) + 2,
    ensures
        dictionary_ok(s, offset, d),
{
    let entries = d.entries@;
    assert forall|k: int| 0 <= k < entries.len() implies !has_tag(s, entry_position(s, entries, start, k), DICTIONARY_CLOSE@) && {
        let p = entry_position(s, entries, start, k);
        &&& 0 <= p < s.len() && s[p] == 47
        &&& entries[k].0@ == escaped_key(s.subrange(p + 1, key_end(s, p)))
        &&& direct_ok(s, white_space_or_comment_end(s, key_end(s, p)), entries[k].1)
    } by {
        reveal(entry_ok);
        assert(entry_ok(s, entry_position(s, entries, start, k), entries[k]));
    }
}

/// The index of the last of the first `k` entries whose key is `key`.
/// The keys of the entries, in order.
pub open spec fn entry_keys(entries: Seq<(Vec<u8>, DirectValue)>) -> Seq<Seq<u8>> {
    entries.map_values(|e: (Vec<u8>, DirectValue)| e.0@)
}

pub open spec fn last_entry(entries: Seq<(Vec<u8>, DirectValue)>, key: Seq<u8>, k: int) -> Option<int>
    decreases k,
{
    if k <= 0 {
        None
    } else if entries[k - 1].0@ == key {
        Some(k - 1)
    } else {
        last_entry(entries, key, k - 1)
    }
}

/// A found entry is one of the first `k` and has the key.
pub proof fn lemma_last_entry(entries: Seq<(Vec<u8>, DirectValue)>, key: Seq<u8>, k: int)
    ensures
        last_entry(entries, key, k) matches Some(j) ==> 0 <= j < k && entries[j].0@ == key,
    decreases k,
{
    if k > 0 {
        lemma_last_entry(entries, key, k - 1);
    }
}

/// The `k`th entry is the last of its key, and its value is not null: it
/// stays when null values are taken as absent.
pub open spec fn live_entry(entries: Seq<(Vec<u8>, DirectValue)>, k: int) -> bool {
    &&& last_entry(entries, entries[k].0@, entries.len() as int) == Some(k)
    &&& !(entries[k].1 is Null)
}

/// The indices of the live entries among the first `k`, in order.
pub open spec fn live_indices(entries: Seq<(Vec<u8>, DirectValue)>, k: nat) -> Seq<int>
    decreases k,
{
    if k == 0 {
        Seq::empty()
    } else if live_entry(entries, k - 1) {
        live_indices(entries, (k - 1) as nat).push(k - 1)
    } else {
        live_indices(entries, (k - 1) as nat)
    }
}

/// The error of a missing required entry of `key`.
pub open spec fn missing_entry(key: &'static [u8], d: Dictionary) -> ObjectErr {
    ObjectErr { key, dictionary_span: d.span, code: ObjectErrorCode::MissingRequiredEntry }
}

/// The error of an entry of `key` whose value is not of the expected type.
pub open spec fn wrong_type(key: &'static [u8], d: Dictionary, value: DirectValue, expected_type: &'static str) -> ObjectErr {
    ObjectErr { key, dictionary_span: d.span, code: ObjectErrorCode::Type { value_span: value.spec_span(), expected_type } }
}

/// The `usize` that `v`, the value of `key` in `d`, stands for.
pub open spec fn usize_of(d: Dictionary, key: &'static [u8], v: DirectValue) -> Result<usize, ObjectErr> {
    match v.spec_as_usize() {
        Some(n) => Ok(n),
        None => Err(wrong_type(key, d, v, "usize")),
    }
}

/// The `usize` of `key` in `d`, where a reference stands for the value of
/// the object in use, among `m`, that it refers to.
pub open spec fn resolved_usize(d: Dictionary, key: &'static [u8], m: Map<ObjectKey, InUseEntry>) -> Result<
    usize,
    ObjectErr,
> {
    match d.spec_get(key@) {
        None => Err(missing_entry(key, d)),
        Some(DirectValue::Reference(rf)) => match resolve_reference(
            m,
            (rf.id.object_number, rf.id.generation_number),
            m.len(),
        ) {
            Ok(v) => usize_of(d, key, v),
            Err(code) => Err(ObjectErr { key, dictionary_span: d.span, code }),
        },
        Some(v) => usize_of(d, key, v),
    }
}

/// The parser fails at `offset` with `e`: after entries read where they
/// start, no key is where the next one would start, or the value after the
/// key cannot be read. The failure carries the input and error of what
/// could not be read.
#[verifier::opaque]
pub open spec fn dictionary_err(s: Seq<u8>, offset: int, e: ParseErr) -> bool
    decreases s.len() - offset, 0nat,
{
    let start = white_space_or_comment_end(s, offset + 2);
    ||| exists|entries: Seq<(Vec<u8>, DirectValue)>|
        #![trigger entries_ok(s, entries, start)]
        {
            let p = entry_position(s, entries, start, entries.len() as int);
            &&& offset < p <= s.len()
            &&& entries_ok(s, entries, start)
            &&& !has_tag(s, p, DICTIONARY_CLOSE@)
            &&& !(p < s.len() && s[p] == 47)
            &&& e matches ParseErr::Failure(f) && f.buffer@ == s.skip(p) && f.object@ == "Dictionary"@ && f.code
                == ParseErrorCode::RecMissingClosing(Box::new(ParseErrorCode::NotFound(ErrorKind::Char)))
        }
    ||| exists|entries: Seq<(Vec<u8>, DirectValue)>, de: ParseErr|
        #![trigger entries_ok(s, entries, start), de.spec_error()]
        {
            let p = entry_position(s, entries, start, entries.len() as int);
            let q = white_space_or_comment_end(s, key_end(s, p));
            &&& offset < p < s.len()
            &&& entries_ok(s, entries, start)
            &&& !has_tag(s, p, DICTIONARY_CLOSE@)
            &&& s[p] == 47
            &&& offset < q <= s.len()
            &&& direct_err(s, q, de)
            &&& e matches ParseErr::Failure(f) && f.buffer@ == de.spec_error().buffer@ && f.object@ == "Dictionary"@
                && (f.code matches ParseErrorCode::RecMissingValue(key, code) && key@ == s.subrange(p + 1, key_end(s, p))
                && *code == de.spec_error().code)
        }
}

impl<'buffer> Dictionary<'buffer> {
    pub fn new(entries: Vec<(Vec<u8>, DirectValue<'buffer>)>, span: Span) -> (d: Self)
        ensures
            d.entries == entries,
            d.span == span,
    {
        Self { entries, span }
    }

    pub fn span(&self) -> (span: Span)
        ensures
            span == self.span,
    {
        self.span
    }

    /// The keys of the entries, each once.
    pub open spec fn spec_keys(&self) -> Set<Seq<u8>> {
        entry_keys(self.entries@).to_set()
    }

    /// The number of keys of the dictionary, each counted once.
    pub fn len(&self) -> (n: usize)
        ensures
            self.spec_keys().finite(),
            n == self.spec_keys().len(),
    {
        let ghost keys = entry_keys(self.entries@);
        let mut n: usize = 0;
        let mut i: usize = 0;
        assert(keys.take(0).to_set() =~= Set::<Seq<u8>>::empty());
        while i < self.entries.len()
            invariant
                i <= self.entries@.len(),
                keys == entry_keys(self.entries@),
                n <= i,
                keys.take(i as int).to_set().finite(),
                n == keys.take(i as int).to_set().len(),
            decreases self.entries@.len() - i,
        {
            let mut seen = false;
            let mut j: usize = 0;
            while j < i
                invariant
                    j <= i < self.entries@.len(),
                    keys == entry_keys(self.entries@),
                    seen <==> exists|k: int| 0 <= k < j && keys[k] == keys[i as int],
                decreases i - j,
            {
                assert(keys[j as int] == self.entries@[j as int].0@);
                assert(keys[i as int] == self.entries@[i as int].0@);
                if bytes_eq(self.entries[j].0.as_slice(), self.entries[i].0.as_slice()) {
                    seen = true;
                }
                j = j + 1;
            }
            proof {
                let before = keys.take(i as int);
                assert(keys.take(i + 1) =~= before.push(keys[i as int]));
                let pushed = before.push(keys[i as int]);
                assert forall|x: Seq<u8>| #[trigger] pushed.to_set().contains(x) <==> before.to_set().insert(
                    keys[i as int],
                ).contains(x) by {
                    if pushed.to_set().contains(x) {
                        let k = choose|k: int| 0 <= k < pushed.len() && pushed[k] == x;
                        if k < before.len() {
                            assert(before[k] == x);
                        }
                    }
                    if before.to_set().contains(x) {
                        let k = choose|k: int| 0 <= k < before.len() && before[k] == x;
                        assert(pushed[k] == x);
                    }
                    if x == keys[i as int] {
                        assert(pushed[before.len() as int] == x);
                    }
                }
                assert(pushed.to_set() =~= before.to_set().insert(keys[i as int]));
                assert(before.to_set().contains(keys[i as int]) <==> seen) by {
                    if seen {
                        let k = choose|k: int| 0 <= k < i && keys[k] == keys[i as int];
                        assert(before[k] == keys[i as int]);
                    }
                    if before.to_set().contains(keys[i as int]) {
                        let k = choose|k: int| 0 <= k < before.len() && before[k] == keys[i as int];
                        assert(keys[k] == keys[i as int]);
                    }
                }
            }
            if !seen {
                n = n + 1;
            }
            i = i + 1;
        }
        assert(keys.take(i as int) =~= keys);
        n
    }

    /// The value that `key` stands for: that of its last entry.
    pub open spec fn spec_get(&self, key: Seq<u8>) -> Option<DirectValue<'buffer>> {
        match last_entry(self.entries@, key, self.entries@.len() as int) {
            Some(k) => Some(self.entries@[k].1),
            None => None,
        }
    }

    #[verifier::rlimit(60)]
    /// Parses a dictionary at `offset`. Once `<<` is read, an error in a key
    /// or a value is a failure of the dictionary.
    pub fn parse(buffer: &'buffer [u8], offset: usize) -> (r: Result<Self, ParseErr<'buffer>>)
        requires
            offset <= buffer@.len(),
            buffer@.len() <= usize::MAX,
        ensures
            !has_tag(buffer@, offset as int, DICTIONARY_OPEN@) ==> recoverable(
                r,
                buffer@.skip(offset as int),
                "Dictionary"@,
                ParseErrorCode::NotFound(ErrorKind::Tag),
            ),
            has_tag(buffer@, offset as int, DICTIONARY_OPEN@) ==> match r {
                Ok(d) => dictionary_ok(buffer@, offset as int, d),
                Err(e) => dictionary_err(buffer@, offset as int, e),
            },
            has_tag(buffer@, offset as int, DICTIONARY_OPEN@) ==> !(r matches Err(ParseErr::Recoverable(_))),
            r matches Ok(d) ==> d.span.start == offset && offset < d.span.end <= buffer@.len(),
        decreases buffer@.len() - offset, 1nat,
    {
        if !tag_at(buffer, offset, &DICTIONARY_OPEN) {
            return Err(
                ParseErr::Recoverable(
                    ParseError::new(
                        slice_subrange(buffer, offset, buffer.len()),
                        "Dictionary",
                        ParseErrorCode::NotFound(ErrorKind::Tag),
                    ),
                ),
            );
        }
        let ghost s = buffer@;
        let start = scan_white_space_or_comment(buffer, offset + 2);
        let mut p = start;
        let mut entries: Vec<(Vec<u8>, DirectValue<'buffer>)> = Vec::new();
        loop
            invariant
                offset < start <= p <= buffer@.len(),
                has_tag(buffer@, offset as int, DICTIONARY_OPEN@),
                buffer@.len() <= usize::MAX,
                s == buffer@,
                start == white_space_or_comment_end(s, offset + 2),
                p == entry_position(s, entries@, start as int, entries@.len() as int),
                entries_ok(s, entries@, start as int),
            decreases buffer@.len() - p,
        {
            if tag_at(buffer, p, &DICTIONARY_CLOSE) {
                let d = Dictionary { entries, span: Span { start: offset, end: p + 2 } };
                assert(d.entries@ == entries@);
                proof {
                    lemma_dictionary_ok(s, offset as int, d, start as int);
                }
                return Ok(d);
            }
            let key = match Name::parse(buffer, p) {
                Ok(key) => key,
                Err(err) => {
                    let b = err.buffer();
                    let code = err.code();
                    let e = ParseErr::Failure(
                        ParseError::new(b, "Dictionary", ParseErrorCode::RecMissingClosing(Box::new(code))),
                    );
                    assert(dictionary_err(s, offset as int, e)) by {
                        reveal(dictionary_err);
                        assert(entries_ok(s, entries@, start as int));
                    }
                    return Err(e);
                },
            };
            let q = scan_white_space_or_comment(buffer, key.span.end);
            let value = match DirectValue::parse(buffer, q) {
                Ok(value) => value,
                Err(err) => {
                    let ghost de = err;
                    let b = err.buffer();
                    let code = err.code();
                    let e = ParseErr::Failure(
                        ParseError::new(
                            b,
                            "Dictionary",
                            ParseErrorCode::RecMissingValue(bytes_to_vec(key.value), Box::new(code)),
                        ),
                    );
                    assert(dictionary_err(s, offset as int, e)) by {
                        reveal(dictionary_err);
                        assert(0 <= p < s.len() && s[p as int] == 47);
                        crate::parse::character_set::lemma_run_end_bounds(s, p + 1, ByteClass::PrintableRegular);
                        assert(key.span.end == key_end(s, p as int));
                        assert(q == white_space_or_comment_end(s, key_end(s, p as int)));
                        assert(key.value@ == s.subrange(p + 1, key_end(s, p as int)));
                        assert(direct_outcome(s, white_space_or_comment_end(s, key_end(s, p as int)), Err(de)));
                        assert(direct_err(s, white_space_or_comment_end(s, key_end(s, p as int)), de));
                        assert(entries_ok(s, entries@, start as int));
                    }
                    return Err(e);
                },
            };
            let escaped = match key.escape() {
                Ok(escaped) => escaped,
                Err(_) => bytes_to_vec(key.value),
            };
            let end = value.span().end;
            let ghost old_entries = entries@;
            let entry = (escaped, value);
            assert(entry_ok(s, p as int, entry)) by {
                reveal(entry_ok);
                reveal(escaped_key);
                crate::parse::character_set::lemma_run_end_bounds(s, p + 1, ByteClass::PrintableRegular);
                assert(key.value@ == s.subrange(p + 1, key_end(s, p as int)));
            }
            entries.push(entry);
            proof {
                lemma_entries_push(s, old_entries, entries@, start as int);
            }
            p = scan_white_space_or_comment(buffer, end);
        }
    }

    /// REFERENCE: [7.3.7 Dictionary objects, p30] and [7.3.9 Null object,
    /// p33]: the entries that a reader sees, each key with its last value,
    /// an entry whose value is null being the same as no entry.
    pub fn escape(&self) -> (r: Vec<(&Vec<u8>, &DirectValue<'buffer>)>)
        ensures
            ({
                let live = live_indices(self.entries@, self.entries@.len());
                &&& r@.len() == live.len()
                &&& forall|i: int|
                    0 <= i < live.len() ==> #[trigger] r@[i] == (&self.entries@[live[i]].0, &self.entries@[live[i]].1)
            }),
    {
        let mut r: Vec<(&Vec<u8>, &DirectValue<'buffer>)> = Vec::new();
        let mut k: usize = 0;
        while k < self.entries.len()
            invariant
                k <= self.entries@.len(),
                ({
                    let live = live_indices(self.entries@, k as nat);
                    &&& r@.len() == live.len()
                    &&& forall|i: int|
                        0 <= i < live.len() ==> #[trigger] r@[i] == (&self.entries@[live[i]].0, &self.entries@[live[i]].1)
                }),
            decreases self.entries@.len() - k,
        {
            let entry = &self.entries[k];
            let ghost live = live_indices(self.entries@, k as nat);
            let last = self.last_index(entry.0.as_slice());
            let is_null = match &entry.1 {
                DirectValue::Null(_) => true,
                _ => false,
            };
            let is_last = match last {
                Some(j) => j == k,
                None => false,
            };
            if is_last && !is_null {
                r.push((&entry.0, &entry.1));
                proof {
                    lemma_last_entry(self.entries@, self.entries@[k as int].0@, self.entries@.len() as int);
                    assert(*entry == self.entries@[k as int]);
                    assert(last_entry(self.entries@, self.entries@[k as int].0@, self.entries@.len() as int) == Some(k as int));
                    assert(!(self.entries@[k as int].1 is Null));
                    assert(live_entry(self.entries@, k as int));
                    assert(live_indices(self.entries@, (k + 1) as nat) == live.push(k as int));
                    assert forall|i: int| 0 <= i < live.len() + 1 implies #[trigger] r@[i] == (
                        &self.entries@[live.push(k as int)[i]].0,
                        &self.entries@[live.push(k as int)[i]].1,
                    ) by {
                        if i < live.len() {
                            assert(live.push(k as int)[i] == live[i]);
                        }
                    }
                }
            } else {
                proof {
                    lemma_last_entry(self.entries@, self.entries@[k as int].0@, self.entries@.len() as int);
                    assert(!live_entry(self.entries@, k as int));
                }
            }
            k = k + 1;
        }
        r
    }

    /// The index of the last entry of `key`.
    pub fn last_index(&self, key: &[u8]) -> (r: Option<usize>)
        ensures
            match last_entry(self.entries@, key@, self.entries@.len() as int) {
                Some(k) => r == Some(k as usize),
                None => r is None,
            },
    {
        let mut k: usize = self.entries.len();
        while k > 0
            invariant
                k <= self.entries@.len(),
                last_entry(self.entries@, key@, self.entries@.len() as int) == last_entry(self.entries@, key@, k as int),
            decreases k,
        {
            k = k - 1;
            if bytes_eq(self.entries[k].0.as_slice(), key) {
                return Some(k);
            }
        }
        None
    }

    /// The value of the last entry of `key`.
    pub fn opt_get(&self, key: &[u8]) -> (r: Option<&DirectValue<'buffer>>)
        ensures
            match self.spec_get(key@) {
                Some(v) => r == Some(&v),
                None => r is None,
            },
    {
        let mut k: usize = self.entries.len();
        while k > 0
            invariant
                k <= self.entries@.len(),
                last_entry(self.entries@, key@, self.entries@.len() as int) == last_entry(self.entries@, key@, k as int),
            decreases k,
        {
            k = k - 1;
            if bytes_eq(self.entries[k].0.as_slice(), key) {
                return Some(&self.entries[k].1);
            }
        }
        None
    }

    /// The value of `key`, which is required.
    pub fn required_get(&self, key: &'static [u8]) -> (r: Result<&DirectValue<'buffer>, ObjectErr>)
        ensures
            match self.spec_get(key@) {
                Some(v) => r == Ok::<&DirectValue, ObjectErr>(&v),
                None => r == Err::<&DirectValue, ObjectErr>(missing_entry(key, *self)),
            },
    {
        match self.opt_get(key) {
            Some(v) => Ok(v),
            None => Err(ObjectErr::new(key, self.span, ObjectErrorCode::MissingRequiredEntry)),
        }
    }

    /// The array of `key`, if there is one.
    pub fn opt_array(&self, key: &'static [u8]) -> (r: Result<Option<&Array<'buffer>>, ObjectErr>)
        ensures
            match self.spec_get(key@) {
                None => r == Ok::<Option<&Array>, ObjectErr>(None),
                Some(DirectValue::Array(a)) => r == Ok::<Option<&Array>, ObjectErr>(Some(&a)),
                Some(v) => r == Err::<Option<&Array>, ObjectErr>(wrong_type(key, *self, v, "Array")),
            },
    {
        match self.opt_get(key) {
            None => Ok(None),
            Some(v) => match v.as_array() {
                Some(a) => Ok(Some(a)),
                None => Err(
                    ObjectErr::new(
                        key,
                        self.span,
                        ObjectErrorCode::Type { value_span: v.span(), expected_type: "Array" },
                    ),
                ),
            },
        }
    }

    /// The array of `key`, which is required.
    pub fn required_array(&self, key: &'static [u8]) -> (r: Result<&Array<'buffer>, ObjectErr>)
        ensures
            match self.spec_get(key@) {
                None => r == Err::<&Array, ObjectErr>(missing_entry(key, *self)),
                Some(DirectValue::Array(a)) => r == Ok::<&Array, ObjectErr>(&a),
                Some(v) => r == Err::<&Array, ObjectErr>(wrong_type(key, *self, v, "Array")),
            },
    {
        match self.opt_array(key) {
            Ok(Some(a)) => Ok(a),
            Ok(None) => Err(ObjectErr::new(key, self.span, ObjectErrorCode::MissingRequiredEntry)),
            Err(e) => Err(e),
        }
    }

    /// The name of `key`, if there is one.
    pub fn opt_name(&self, key: &'static [u8]) -> (r: Result<Option<&Name<'buffer>>, ObjectErr>)
        ensures
            match self.spec_get(key@) {
                None => r == Ok::<Option<&Name>, ObjectErr>(None),
                Some(DirectValue::Name(n)) => r == Ok::<Option<&Name>, ObjectErr>(Some(&n)),
                Some(v) => r == Err::<Option<&Name>, ObjectErr>(wrong_type(key, *self, v, "Name")),
            },
    {
        match self.opt_get(key) {
            None => Ok(None),
            Some(v) => match v.as_name() {
                Some(n) => Ok(Some(n)),
                None => Err(
                    ObjectErr::new(
                        key,
                        self.span,
                        ObjectErrorCode::Type { value_span: v.span(), expected_type: "Name" },
                    ),
                ),
            },
        }
    }

    /// The name of `key`, which is required.
    pub fn required_name(&self, key: &'static [u8]) -> (r: Result<&Name<'buffer>, ObjectErr>)
        ensures
            match self.spec_get(key@) {
                None => r == Err::<&Name, ObjectErr>(missing_entry(key, *self)),
                Some(DirectValue::Name(n)) => r == Ok::<&Name, ObjectErr>(&n),
                Some(v) => r == Err::<&Name, ObjectErr>(wrong_type(key, *self, v, "Name")),
            },
    {
        match self.opt_name(key) {
            Ok(Some(n)) => Ok(n),
            Ok(None) => Err(ObjectErr::new(key, self.span, ObjectErrorCode::MissingRequiredEntry)),
            Err(e) => Err(e),
        }
    }

    /// The `u64` of `key`, if there is one.
    pub fn opt_u64(&self, key: &'static [u8]) -> (r: Result<Option<u64>, ObjectErr>)
        ensures
            match self.spec_get(key@) {
                None => r == Ok::<Option<u64>, ObjectErr>(None),
                Some(v) => match v.spec_as_u64() {
                    Some(n) => r == Ok::<Option<u64>, ObjectErr>(Some(n)),
                    None => r == Err::<Option<u64>, ObjectErr>(wrong_type(key, *self, v, "u64")),
                },
            },
    {
        match self.opt_get(key) {
            None => Ok(None),
            Some(v) => match v.as_u64() {
                Some(n) => Ok(Some(n)),
                None => Err(
                    ObjectErr::new(
                        key,
                        self.span,
                        ObjectErrorCode::Type { value_span: v.span(), expected_type: "u64" },
                    ),
                ),
            },
        }
    }

    /// The `u64` of `key`, which is required.
    pub fn required_u64(&self, key: &'static [u8]) -> (r: Result<u64, ObjectErr>)
        ensures
            match self.spec_get(key@) {
                None => r == Err::<u64, ObjectErr>(missing_entry(key, *self)),
                Some(v) => match v.spec_as_u64() {
                    Some(n) => r == Ok::<u64, ObjectErr>(n),
                    None => r == Err::<u64, ObjectErr>(wrong_type(key, *self, v, "u64")),
                },
            },
    {
        match self.opt_u64(key) {
            Ok(Some(n)) => Ok(n),
            Ok(None) => Err(ObjectErr::new(key, self.span, ObjectErrorCode::MissingRequiredEntry)),
            Err(e) => Err(e),
        }
    }

    /// The `usize` of `key`, if there is one.
    pub fn opt_usize(&self, key: &'static [u8]) -> (r: Result<Option<usize>, ObjectErr>)
        ensures
            match self.spec_get(key@) {
                None => r == Ok::<Option<usize>, ObjectErr>(None),
                Some(v) => match v.spec_as_usize() {
                    Some(n) => r == Ok::<Option<usize>, ObjectErr>(Some(n)),
                    None => r == Err::<Option<usize>, ObjectErr>(wrong_type(key, *self, v, "usize")),
                },
            },
    {
        match self.opt_get(key) {
            None => Ok(None),
            Some(v) => match v.as_usize() {
                Some(n) => Ok(Some(n)),
                None => Err(
                    ObjectErr::new(
                        key,
                        self.span,
                        ObjectErrorCode::Type { value_span: v.span(), expected_type: "usize" },
                    ),
                ),
            },
        }
    }

    /// The `usize` of `key`, which is required.
    pub fn required_usize(&self, key: &'static [u8]) -> (r: Result<usize, ObjectErr>)
        ensures
            match self.spec_get(key@) {
                None => r == Err::<usize, ObjectErr>(missing_entry(key, *self)),
                Some(v) => match v.spec_as_usize() {
                    Some(n) => r == Ok::<usize, ObjectErr>(n),
                    None => r == Err::<usize, ObjectErr>(wrong_type(key, *self, v, "usize")),
                },
            },
    {
        match self.opt_usize(key) {
            Ok(Some(n)) => Ok(n),
            Ok(None) => Err(ObjectErr::new(key, self.span, ObjectErrorCode::MissingRequiredEntry)),
            Err(e) => Err(e),
        }
    }

    /// The `usize` of `key`, which is required, where a reference stands
    /// for the value of the object in use that it refers to.
    pub fn required_resolve_usize(&self, key: &'static [u8], parsed_objects: &InUseObjects<'buffer>) -> (r: Result<
        usize,
        ObjectErr,
    >)
        ensures
            parsed_objects@.dom().finite(),
            r == resolved_usize(*self, key, parsed_objects@),
    {
        proof {
            parsed_objects.lemma_finite();
        }
        let value = match self.required_get(key) {
            Ok(v) => v,
            Err(e) => return Err(e),
        };
        let value = match value {
            DirectValue::Reference(rf) => match parsed_objects.resolve(rf.id.object_number, rf.id.generation_number) {
                Ok(v) => v,
                Err(code) => return Err(ObjectErr::new(key, self.span, code)),
            },
            _ => value,
        };
        match value.as_usize() {
            Some(n) => Ok(n),
            None => Err(
                ObjectErr::new(
                    key,
                    self.span,
                    ObjectErrorCode::Type { value_span: value.span(), expected_type: "usize" },
                ),
            ),
        }
    }

    /// The reference of `key`, if there is one.
    pub fn opt_reference(&self, key: &'static [u8]) -> (r: Result<Option<&Reference>, ObjectErr>)
        ensures
            match self.spec_get(key@) {
                None => r == Ok::<Option<&Reference>, ObjectErr>(None),
                Some(DirectValue::Reference(rf)) => r == Ok::<Option<&Reference>, ObjectErr>(Some(&rf)),
                Some(v) => r == Err::<Option<&Reference>, ObjectErr>(wrong_type(key, *self, v, "Reference")),
            },
    {
        match self.opt_get(key) {
            None => Ok(None),
            Some(v) => match v.as_reference() {
                Some(rf) => Ok(Some(rf)),
                None => Err(
                    ObjectErr::new(
                        key,
                        self.span,
                        ObjectErrorCode::Type { value_span: v.span(), expected_type: "Reference" },
                    ),
                ),
            },
        }
    }
}

} // verus!
