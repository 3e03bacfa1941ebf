use super::error::ObjectRecoverable;
use super::objects::InUseEntry;
use super::objects::ObjectKey;
use super::parse_errors;
use super::read_round;
use super::read_rounds;
use super::read_step;
use super::round_reads;
use super::ObjectSpecifier;
use super::ReadState;
use crate::object::indirect::object::IndirectObject;
use crate::parse::error::ParseErr;
use vstd::prelude::*;

verus! {

/// The number of the errors of `errors` that stand for an object in use:
/// all but the mismatched identifiers.
pub open spec fn object_errors(errors: Seq<ObjectRecoverable>) -> nat
    decreases errors.len(),
{
    if errors.len() == 0 {
        0
    } else {
        object_errors(errors.drop_last()) + if errors.last() is MismatchedId {
            0nat
        } else {
            1nat
        }
    }
}

/// The number of objects in use that `st` accounts for: the objects in use,
/// the overridden objects, the errors that stand for an object, and those
/// to be read again.
pub open spec fn accounted(st: ReadState) -> nat {
    st.0.len() + st.1.len() + object_errors(st.2) + st.3.len()
}

proof fn lemma_object_errors_push(errors: Seq<ObjectRecoverable>, e: ObjectRecoverable)
    ensures
        object_errors(errors.push(e)) == object_errors(errors) + if e is MismatchedId {
            0nat
        } else {
            1nat
        },
{
    assert(errors.push(e).drop_last() =~= errors);
}

proof fn lemma_object_errors_split(errors: Seq<ObjectRecoverable>, k: int)
    requires
        0 <= k <= errors.len(),
    ensures
        object_errors(errors) == object_errors(errors.take(k)) + object_errors(errors.skip(k)),
    decreases errors.len(),
{
    if k == errors.len() {
        assert(errors.take(k) =~= errors);
        assert(errors.skip(k).len() == 0);
    } else {
        let rest = errors.drop_last();
        lemma_object_errors_split(rest, k);
        assert(rest.take(k) =~= errors.take(k));
        assert(errors.skip(k).drop_last() =~= rest.skip(k));
        assert(errors.skip(k).last() == errors.last());
    }
}

proof fn lemma_parse_errors_count(s: Seq<u8>, erroneous: Seq<(ObjectSpecifier, Option<ParseErr>)>, errors: Seq<ObjectRecoverable>)
    requires
        parse_errors(s, erroneous, errors),
    ensures
        object_errors(errors) == errors.len(),
    decreases errors.len(),
{
    if errors.len() > 0 {
        let n = errors.len() - 1;
        assert(erroneous[n] == erroneous[n]);
        assert(parse_errors(s, erroneous.drop_last(), errors.drop_last())) by {
            assert forall|i: int| 0 <= i < errors.drop_last().len() implies #[trigger] erroneous.drop_last()[i]
                == erroneous[i] by {}
        }
        lemma_parse_errors_count(s, erroneous.drop_last(), errors.drop_last());
    }
}

proof fn lemma_step_accounts<'b>(
    st: ReadState<'b>,
    sp: ObjectSpecifier,
    r: Result<IndirectObject<'b>, ParseErr<'b>>,
    buffer_len: usize,
)
    requires
        st.0.dom().finite(),
    ensures
        read_step(st, sp, r, buffer_len).0.dom().finite(),
        accounted(read_step(st, sp, r, buffer_len)) == accounted(st) + 1,
{
    if let Ok(obj) = r {
        lemma_object_errors_push(st.2, ObjectRecoverable::MismatchedId(sp.0, sp.1, obj.id));
    }
    lemma_object_errors_push(st.2, ObjectRecoverable::OutOfBounds(sp.0, sp.1, sp.3, buffer_len));
}

proof fn lemma_round_accounts<'b>(
    st: ReadState<'b>,
    tp: Seq<(ObjectSpecifier, Option<ParseErr<'b>>)>,
    rs: Seq<Result<IndirectObject<'b>, ParseErr<'b>>>,
    buffer_len: usize,
)
    requires
        st.0.dom().finite(),
    ensures
        read_round(st, tp, rs, buffer_len).0.dom().finite(),
        accounted(read_round(st, tp, rs, buffer_len)) == accounted(st) + tp.len(),
    decreases tp.len(),
{
    if tp.len() > 0 {
        lemma_round_accounts(st, tp.drop_last(), rs.drop_last(), buffer_len);
        lemma_step_accounts(read_round(st, tp.drop_last(), rs.drop_last(), buffer_len), tp.last().0, rs.last(), buffer_len);
    }
}

proof fn lemma_rounds_account<'b>(
    s: Seq<u8>,
    st: ReadState<'b>,
    tp: Seq<(ObjectSpecifier, Option<ParseErr<'b>>)>,
    buffer_len: usize,
    fin: ReadState<'b>,
)
    requires
        read_rounds(s, st, tp, buffer_len, fin),
        st.0.dom().finite(),
    ensures
        fin.0.dom().finite(),
        fin.3.len() == 0,
        accounted(fin) == accounted(st) + tp.len(),
    decreases tp.len(),
{
    let rs = choose|rs: Seq<Result<IndirectObject<'b>, ParseErr<'b>>>|
        #[trigger] round_reads(s, st, tp, rs, buffer_len) && {
            let next = read_round(st, tp, rs, buffer_len);
            if next.3.len() == 0 || next.3.len() >= tp.len() {
                &&& fin.0 == next.0
                &&& fin.1 == next.1
                &&& fin.3.len() == 0
                &&& fin.2.len() >= next.2.len()
                &&& fin.2.take(next.2.len() as int) == next.2
                &&& parse_errors(s, next.3, fin.2.skip(next.2.len() as int))
            } else {
                read_rounds(s, (next.0, next.1, next.2, Seq::empty()), next.3, buffer_len, fin)
            }
        };
    let next = read_round(st, tp, rs, buffer_len);
    lemma_round_accounts(st, tp, rs, buffer_len);
    if next.3.len() == 0 || next.3.len() >= tp.len() {
        let k = next.2.len() as int;
        lemma_object_errors_split(fin.2, k);
        lemma_parse_errors_count(s, next.3, fin.2.skip(k));
    } else {
        lemma_rounds_account(s, (next.0, next.1, next.2, Seq::empty()), next.3, buffer_len, fin);
    }
}

/// Reading the objects in use accounts for each of them once: each ends up
/// among the objects in use, among the overridden objects, or in an error
/// other than a mismatched identifier.
pub proof fn lemma_each_object_accounted<'b>(
    s: Seq<u8>,
    in_use: Seq<(ObjectSpecifier, Option<ParseErr<'b>>)>,
    buffer_len: usize,
    errors: Seq<ObjectRecoverable<'b>>,
    fin: ReadState<'b>,
)
    requires
        read_rounds(s, (Map::empty(), Seq::empty(), errors, Seq::empty()), in_use, buffer_len, fin),
    ensures
        fin.0.dom().finite(),
        fin.0.len() + fin.1.len() + object_errors(fin.2) == object_errors(errors) + in_use.len(),
{
    let st: ReadState<'b> = (Map::<ObjectKey, InUseEntry<'b>>::empty(), Seq::empty(), errors, Seq::empty());
    assert(st.0.dom() =~= Set::empty());
    lemma_rounds_account(s, st, in_use, buffer_len, fin);
}

} // verus!
