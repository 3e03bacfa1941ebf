pub mod accounting;
pub mod error;
pub mod objects;
pub mod spans;

use self::error::ObjectRecoverable;
use self::objects::InUseEntry;
use self::objects::InUseObjects;
use self::objects::ObjectKey;
use crate::object::indirect::object::object_data_in_buffer;
use crate::object::indirect::object::object_outcome;
use crate::object::indirect::object::IndirectObject;
use crate::parse::error::ParseErr;
use vstd::prelude::*;

verus! {

/// An object in use as the cross-reference table gives it: its object
/// number, its generation number, the number of the increment of the file
/// that holds it, and its offset.
pub type ObjectSpecifier = (u64, u16, u64, u64);

/// The objects that a later increment of the file replaced, each with the
/// number of the increment that holds it.
pub type OverriddenObjects<'buffer> = Vec<(IndirectObject<'buffer>, u64)>;

/// What reading the objects in use has built so far: the objects in use,
/// the overridden objects, the errors, and the objects in use whose reading
/// failed in the current round, with the error of each.
pub type ReadState<'buffer> = (
    Map<ObjectKey, InUseEntry<'buffer>>,
    Seq<(IndirectObject<'buffer>, u64)>,
    Seq<ObjectRecoverable<'buffer>>,
    Seq<(ObjectSpecifier, Option<ParseErr<'buffer>>)>,
);

/// The bytes of a PDF file.
pub struct PdfBuilder {
    buffer: Vec<u8>,
    buffer_len: usize,
}

/// The offset of `sp` is not one at which an object can be read: it is
/// zero or past the end of the buffer.
pub open spec fn out_of_bounds(sp: ObjectSpecifier, buffer_len: usize) -> bool {
    sp.3 == 0 || sp.3 >= buffer_len
}

/// The state after handling `sp`, where `r` is what reading at its offset
/// gave. An object read is kept under its key unless an object of a later
/// increment is already there; the other one is overridden.
pub open spec fn read_step<'b>(
    st: ReadState<'b>,
    sp: ObjectSpecifier,
    r: Result<IndirectObject<'b>, ParseErr<'b>>,
    buffer_len: usize,
) -> ReadState<'b> {
    let (m, overridden, errors, erroneous) = st;
    if out_of_bounds(sp, buffer_len) {
        (m, overridden, errors.push(ObjectRecoverable::OutOfBounds(sp.0, sp.1, sp.3, buffer_len)), erroneous)
    } else {
        match r {
            Err(e) => (m, overridden, errors, erroneous.push((sp, Some(e)))),
            Ok(obj) => {
                let k = (sp.0, sp.1);
                let errors = if obj.id.object_number != sp.0 || obj.id.generation_number != sp.1 {
                    errors.push(ObjectRecoverable::MismatchedId(sp.0, sp.1, obj.id))
                } else {
                    errors
                };
                if !m.contains_key(k) {
                    (m.insert(k, (obj, sp.2)), overridden, errors, erroneous)
                } else if sp.2 >= m[k].1 {
                    (m.insert(k, (obj, sp.2)), overridden.push(m[k]), errors, erroneous)
                } else {
                    (m, overridden.push((obj, sp.2)), errors, erroneous)
                }
            },
        }
    }
}

/// The state after handling, in order, the objects in use of `tp`, where
/// `rs` holds what reading at the offset of each gave.
pub open spec fn read_round<'b>(
    st: ReadState<'b>,
    tp: Seq<(ObjectSpecifier, Option<ParseErr<'b>>)>,
    rs: Seq<Result<IndirectObject<'b>, ParseErr<'b>>>,
    buffer_len: usize,
) -> ReadState<'b>
    decreases tp.len(),
{
    if tp.len() == 0 {
        st
    } else {
        read_step(read_round(st, tp.drop_last(), rs.drop_last(), buffer_len), tp.last().0, rs.last(), buffer_len)
    }
}

/// Each result of `rs` is what reading `s` gives at the offset of its
/// object in use in `tp`, with the objects in use at that point of the
/// round.
pub open spec fn round_reads<'b>(
    s: Seq<u8>,
    st: ReadState<'b>,
    tp: Seq<(ObjectSpecifier, Option<ParseErr<'b>>)>,
    rs: Seq<Result<IndirectObject<'b>, ParseErr<'b>>>,
    buffer_len: usize,
) -> bool
    decreases tp.len(),
{
    &&& rs.len() == tp.len()
    &&& tp.len() > 0 ==> {
        &&& round_reads(s, st, tp.drop_last(), rs.drop_last(), buffer_len)
        &&& !out_of_bounds(tp.last().0, buffer_len) ==> object_outcome(
            s,
            tp.last().0.3 as int,
            read_round(st, tp.drop_last(), rs.drop_last(), buffer_len).0,
            rs.last(),
        )
    }
}

/// `errors` are the errors of the objects in `erroneous`, in order, where
/// `s` was read.
pub open spec fn parse_errors<'b>(
    s: Seq<u8>,
    erroneous: Seq<(ObjectSpecifier, Option<ParseErr<'b>>)>,
    errors: Seq<ObjectRecoverable<'b>>,
) -> bool {
    &&& errors.len() == erroneous.len()
    &&& forall|i: int|
        0 <= i < errors.len() ==> {
            let (sp, e) = #[trigger] erroneous[i];
            errors[i] matches ObjectRecoverable::Parse(o, g, n, off, b, err) && o == sp.0 && g == sp.1 && n == sp.2
                && off == sp.3 && b@ == s && e == Some(err)
        }
}

/// `fin` is what reading the objects in use `tp` of `s` in rounds gives,
/// from `st`: each round reads again those whose reading failed in the
/// previous round, until none fails or none more is read. Then the errors
/// of those that failed are added.
pub open spec fn read_rounds<'b>(
    s: Seq<u8>,
    st: ReadState<'b>,
    tp: Seq<(ObjectSpecifier, Option<ParseErr<'b>>)>,
    buffer_len: usize,
    fin: ReadState<'b>,
) -> bool
    decreases tp.len(),
{
    &&& st.3.len() == 0
    &&& exists|rs: Seq<Result<IndirectObject<'b>, ParseErr<'b>>>|
        #[trigger] round_reads(s, st, tp, rs, buffer_len) && {
            let next = read_round(st, tp, rs, buffer_len);
            if next.3.len() == 0 || next.3.len() >= tp.len() {
                &&& fin.0 == next.0
                &&& fin.1 == next.1
                &&& fin.3.len() == 0
                &&& fin.2.len() >= next.2.len()
                &&& fin.2.take(next.2.len() as int) == next.2
                &&& parse_errors(s, next.3, fin.2.skip(next.2.len() as int))
            } else {
                read_rounds(s, (next.0, next.1, next.2, Seq::empty()), next.3, buffer_len, fin)
            }
        }
}

/// Each object in use of `tp` that can be read has its data in `s`.
pub open spec fn readable<'b>(s: Seq<u8>, tp: Seq<(ObjectSpecifier, Option<ParseErr<'b>>)>, buffer_len: usize) -> bool {
    forall|i: int|
        0 <= i < tp.len() && !out_of_bounds(#[trigger] tp[i].0, buffer_len) ==> object_data_in_buffer(
            s,
            tp[i].0.3 as int,
        )
}

impl PdfBuilder {
    #[verifier::type_invariant]
    spec fn length_kept(self) -> bool {
        self.buffer_len == self.buffer@.len()
    }

    /// The bytes of the file.
    pub closed spec fn spec_buffer(self) -> Seq<u8> {
        self.buffer@
    }

    /// The number of bytes of the file.
    pub closed spec fn spec_buffer_len(self) -> usize {
        self.buffer_len
    }

    pub fn new(buffer: Vec<u8>) -> (builder: Self)
        ensures
            builder.spec_buffer() == buffer@,
            builder.spec_buffer_len() == buffer@.len(),
    {
        let buffer_len = buffer.len();
        Self { buffer, buffer_len }
    }

    /// Reads the objects in use of `in_use`. An object whose reading fails
    /// is read again in a later round, once others that it may refer to are
    /// read, until no more can be read. The errors are added to `errors`.
    pub fn parse_objects<'b>(
        &'b self,
        in_use: Vec<(ObjectSpecifier, Option<ParseErr<'b>>)>,
        errors: &mut Vec<ObjectRecoverable<'b>>,
    ) -> (r: (InUseObjects<'b>, OverriddenObjects<'b>))
        requires
            readable(self.spec_buffer(), in_use@, self.spec_buffer_len()),
        ensures
            read_rounds(
                self.spec_buffer(),
                (Map::empty(), Seq::empty(), old(errors)@, Seq::empty()),
                in_use@,
                self.spec_buffer_len(),
                (r.0@, r.1@, final(errors)@, Seq::empty()),
            ),
    {
        proof {
            use_type_invariant(self);
        }
        let buffer: &'b [u8] = self.buffer.as_slice();
        let buffer_len = self.buffer_len;
        let ghost s = buffer@;
        let ghost init: ReadState<'b> = (Map::empty(), Seq::empty(), errors@, Seq::empty());
        let mut in_use_objects = InUseObjects::new();
        let mut overridden: OverriddenObjects<'b> = Vec::new();
        let mut to_parse = in_use;
        let mut erroneous: Vec<(ObjectSpecifier, Option<ParseErr<'b>>)> = Vec::new();
        loop
            invariant
                init == (
                    Map::<ObjectKey, InUseEntry<'b>>::empty(),
                    Seq::<(IndirectObject<'b>, u64)>::empty(),
                    old(errors)@,
                    Seq::<(ObjectSpecifier, Option<ParseErr<'b>>)>::empty(),
                ),
                s == buffer@,
                s == self.spec_buffer(),
                buffer_len == self.spec_buffer_len(),
                buffer_len == s.len(),
                s.len() <= usize::MAX,
                erroneous@.len() == 0,
                readable(s, to_parse@, buffer_len),
                forall|fin: ReadState<'b>|
                    #[trigger] read_rounds(
                        s,
                        (in_use_objects@, overridden@, errors@, erroneous@),
                        to_parse@,
                        buffer_len,
                        fin,
                    ) ==> read_rounds(s, init, in_use@, buffer_len, fin),
            decreases to_parse@.len(),
        {
            let ghost start: ReadState<'b> = (in_use_objects@, overridden@, errors@, erroneous@);
            let ghost mut rs: Seq<Result<IndirectObject<'b>, ParseErr<'b>>> = Seq::empty();
            let mut i: usize = 0;
            while i < to_parse.len()
                invariant
                    s == buffer@,
                    buffer_len == s.len(),
                    s.len() <= usize::MAX,
                    i <= to_parse@.len(),
                    erroneous@.len() <= i,
                    readable(s, to_parse@, buffer_len),
                    forall|j: int| 0 <= j < erroneous@.len() ==> (#[trigger] erroneous@[j]).1 is Some,
                    forall|j: int|
                        0 <= j < erroneous@.len() ==> !out_of_bounds((#[trigger] erroneous@[j]).0, buffer_len)
                            && object_data_in_buffer(s, erroneous@[j].0.3 as int),
                    round_reads(s, start, to_parse@.take(i as int), rs, buffer_len),
                    (in_use_objects@, overridden@, errors@, erroneous@) == read_round(
                        start,
                        to_parse@.take(i as int),
                        rs,
                        buffer_len,
                    ),
                decreases to_parse@.len() - i,
            {
                let ghost before: ReadState<'b> = (in_use_objects@, overridden@, errors@, erroneous@);
                let sp: ObjectSpecifier = to_parse[i].0;
                let ghost mut r: Result<IndirectObject<'b>, ParseErr<'b>> = vstd::pervasive::arbitrary();
                if sp.3 == 0 || sp.3 >= buffer_len as u64 {
                    errors.push(ObjectRecoverable::OutOfBounds(sp.0, sp.1, sp.3, buffer_len));
                } else {
                    let offset = sp.3 as usize;
                    assert(object_data_in_buffer(s, offset as int));
                    let result = IndirectObject::parse(buffer, offset, &in_use_objects);
                    proof {
                        r = result;
                    }
                    match result {
                        Err(err) => {
                            erroneous.push((sp, Some(err)));
                        },
                        Ok(object) => {
                            let parsed_id = object.id;
                            if parsed_id.object_number != sp.0 || parsed_id.generation_number != sp.1 {
                                errors.push(ObjectRecoverable::MismatchedId(sp.0, sp.1, parsed_id));
                            }
                            match in_use_objects.insert((sp.0, sp.1), (object, sp.2)) {
                                None => {},
                                Some((overridden_object, overridden_increment)) => {
                                    if sp.2 >= overridden_increment {
                                        overridden.push((overridden_object, overridden_increment));
                                    } else {
                                        match in_use_objects.insert(
                                            (sp.0, sp.1),
                                            (overridden_object, overridden_increment),
                                        ) {
                                            Some(new_entry) => overridden.push(new_entry),
                                            None => {},
                                        }
                                    }
                                },
                            }
                        },
                    }
                }
                proof {
                    let tp = to_parse@.take(i as int + 1);
                    assert(tp.drop_last() =~= to_parse@.take(i as int));
                    assert(tp.last() == to_parse@[i as int]);
                    let rs2 = rs.push(r);
                    assert(rs2.drop_last() =~= rs);
                    assert(read_step(before, sp, r, buffer_len).0 =~= in_use_objects@);
                    rs = rs2;
                }
                i = i + 1;
            }
            proof {
                assert(to_parse@.take(to_parse@.len() as int) =~= to_parse@);
            }
            if erroneous.len() == 0 || to_parse.len() == erroneous.len() {
                let ghost kept = errors@;
                let ghost failed = erroneous@;
                for item in it: erroneous.into_iter()
                    invariant
                        it.seq() == failed,
                        forall|j: int| 0 <= j < failed.len() ==> (#[trigger] failed[j]).1 is Some,
                        s == buffer@,
                        errors@.len() == kept.len() + it.index(),
                        errors@.take(kept.len() as int) == kept,
                        parse_errors(s, failed.take(it.index() as int), errors@.skip(kept.len() as int)),
                {
                    let ghost before = errors@;
                    let (sp, err) = item;
                    if let Some(err) = err {
                        errors.push(ObjectRecoverable::Parse(sp.0, sp.1, sp.2, sp.3, buffer, err));
                    }
                    proof {
                        assert(errors@.take(kept.len() as int) =~= before.take(kept.len() as int));
                        let n = it.index() as int;
                        assert(failed.take(n + 1) =~= failed.take(n).push(failed[n]));
                        assert(errors@.skip(kept.len() as int) =~= before.skip(kept.len() as int).push(
                            errors@.last(),
                        ));
                    }
                }
                proof {
                    assert(failed.take(failed.len() as int) =~= failed);
                    let fin: ReadState<'b> = (in_use_objects@, overridden@, errors@, Seq::empty());
                    assert(round_reads(s, start, to_parse@, rs, buffer_len));
                    assert(read_rounds(s, start, to_parse@, buffer_len, fin));
                }
                return (in_use_objects, overridden);
            }
            let ghost prev_tp = to_parse@;
            to_parse = erroneous;
            erroneous = Vec::new();
            proof {
                assert forall|fin: ReadState<'b>|
                    #[trigger] read_rounds(
                        s,
                        (in_use_objects@, overridden@, errors@, erroneous@),
                        to_parse@,
                        buffer_len,
                        fin,
                    ) implies read_rounds(s, init, in_use@, buffer_len, fin) by {
                    assert(round_reads(s, start, prev_tp, rs, buffer_len));
                    assert(read_rounds(s, start, prev_tp, buffer_len, fin));
                }
            }
        }
    }
}

} // verus!
