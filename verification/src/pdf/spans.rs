use crate::parse::Span;
use vstd::prelude::*;

verus! {

/// `a` comes no later than `b`: by the first element, then by the second.
pub open spec fn pair_le(a: (usize, usize), b: (usize, usize)) -> bool {
    a.0 < b.0 || (a.0 == b.0 && a.1 <= b.1)
}

/// The start and end of each span.
pub open spec fn span_pairs(spans: Seq<Span>) -> Seq<(usize, usize)> {
    spans.map_values(|s: Span| (s.start, s.end))
}

/// `sorted` holds the starts and ends of `spans`, in increasing order.
pub open spec fn sorted_pairs(spans: Seq<Span>, sorted: Seq<(usize, usize)>) -> bool {
    &&& sorted.to_multiset() == span_pairs(spans).to_multiset()
    &&& forall|i: int, j: int| 0 <= i < j < sorted.len() ==> pair_le(#[trigger] sorted[i], #[trigger] sorted[j])
}

/// Sorts `pairs` in increasing order, by the first element and then the
/// second.
///
/// Calls `<[(usize, usize)]>::sort_unstable`, which std documents to sort
/// the slice, tuples being ordered lexicographically. The contract states
/// that the result is a permutation of the input and is in that order.
#[verifier::external_body]
fn sort_pairs(pairs: &mut Vec<(usize, usize)>)
    ensures
        final(pairs)@.to_multiset() == old(pairs)@.to_multiset(),
        forall|i: int, j: int|
            0 <= i < j < final(pairs)@.len() ==> pair_le(#[trigger] final(pairs)@[i], #[trigger] final(pairs)@[j]),
{
    pairs.sort_unstable();
}

/// The joined spans, the spans between them, and the start and end of the
/// span being joined, after the first `k` of the `sorted` starts and ends.
pub open spec fn join_prefix(sorted: Seq<(usize, usize)>, k: nat) -> (Seq<Span>, Seq<Span>, usize, usize)
    decreases k,
{
    if k == 0 || k > sorted.len() {
        (Seq::empty(), Seq::empty(), 0, 0)
    } else {
        let (parsed, not_parsed, prev_start, prev_end) = join_prefix(sorted, (k - 1) as nat);
        let (start, end) = sorted[k - 1];
        if start <= prev_end {
            (parsed, not_parsed, prev_start, if end > prev_end { end } else { prev_end })
        } else {
            (
                if prev_start != prev_end { parsed.push(Span { start: prev_start, end: prev_end }) } else { parsed },
                not_parsed.push(Span { start: prev_end, end: start }),
                start,
                end,
            )
        }
    }
}

/// The spans that the `sorted` starts and ends join into, and the spans
/// between them up to `buffer_len`.
pub open spec fn joined(sorted: Seq<(usize, usize)>, buffer_len: usize) -> (Seq<Span>, Seq<Span>) {
    let (parsed, not_parsed, prev_start, prev_end) = join_prefix(sorted, sorted.len());
    (
        if prev_start != prev_end { parsed.push(Span { start: prev_start, end: prev_end }) } else { parsed },
        if prev_end != buffer_len { not_parsed.push(Span { start: prev_end, end: buffer_len }) } else { not_parsed },
    )
}

/// Joins the spans that overlap or touch, in increasing order, and gives
/// the joined spans and the spans between them, from the start of the
/// buffer to `buffer_len`.
pub fn join_spans(spans: Vec<Span>, buffer_len: usize) -> (r: (Vec<Span>, Vec<Span>))
    ensures
        exists|sorted: Seq<(usize, usize)>|
            #[trigger] sorted_pairs(spans@, sorted) && r.0@ == joined(sorted, buffer_len).0 && r.1@ == joined(
                sorted,
                buffer_len,
            ).1,
{
    let mut pairs: Vec<(usize, usize)> = Vec::new();
    let mut i: usize = 0;
    while i < spans.len()
        invariant
            i <= spans@.len(),
            pairs@ == span_pairs(spans@).take(i as int),
        decreases spans@.len() - i,
    {
        pairs.push((spans[i].start, spans[i].end));
        i = i + 1;
        assert(pairs@ =~= span_pairs(spans@).take(i as int));
    }
    assert(pairs@ =~= span_pairs(spans@));
    sort_pairs(&mut pairs);
    let mut parsed: Vec<Span> = Vec::new();
    let mut not_parsed: Vec<Span> = Vec::new();
    let mut prev_start: usize = 0;
    let mut prev_end: usize = 0;
    let mut k: usize = 0;
    while k < pairs.len()
        invariant
            k <= pairs@.len(),
            (parsed@, not_parsed@, prev_start, prev_end) == join_prefix(pairs@, k as nat),
        decreases pairs@.len() - k,
    {
        let (start, end) = pairs[k];
        if start <= prev_end {
            if end > prev_end {
                prev_end = end;
            }
        } else {
            if prev_start != prev_end {
                parsed.push(Span { start: prev_start, end: prev_end });
            }
            not_parsed.push(Span { start: prev_end, end: start });
            prev_start = start;
            prev_end = end;
        }
        k = k + 1;
    }
    if prev_start != prev_end {
        parsed.push(Span { start: prev_start, end: prev_end });
    }
    if prev_end != buffer_len {
        not_parsed.push(Span { start: prev_end, end: buffer_len });
    }
    assert(sorted_pairs(spans@, pairs@));
    (parsed, not_parsed)
}

/// Some span of `spans` holds the offset `x`.
pub open spec fn covers(spans: Seq<Span>, x: int) -> bool {
    exists|i: int| 0 <= i < spans.len() && (#[trigger] spans[i]).start <= x < spans[i].end
}

/// Some pair of `pairs`, taken as a start and an end, holds the offset `x`.
pub open spec fn covers_pairs(pairs: Seq<(usize, usize)>, x: int) -> bool {
    exists|i: int| 0 <= i < pairs.len() && (#[trigger] pairs[i]).0 <= x < pairs[i].1
}

proof fn lemma_covers_push(spans: Seq<Span>, s: Span, x: int)
    ensures
        covers(spans.push(s), x) <==> covers(spans, x) || (s.start <= x < s.end),
{
    let pushed = spans.push(s);
    if covers(pushed, x) {
        let i = choose|i: int| 0 <= i < pushed.len() && (#[trigger] pushed[i]).start <= x < pushed[i].end;
        if i < spans.len() {
            assert(spans[i] == pushed[i]);
        }
    }
    if covers(spans, x) {
        let i = choose|i: int| 0 <= i < spans.len() && (#[trigger] spans[i]).start <= x < spans[i].end;
        assert(pushed[i] == spans[i]);
    }
    if s.start <= x < s.end {
        assert(pushed[spans.len() as int] == s);
    }
}

proof fn lemma_covers_pairs_take(pairs: Seq<(usize, usize)>, k: int, x: int)
    requires
        0 < k <= pairs.len(),
    ensures
        covers_pairs(pairs.take(k), x) <==> covers_pairs(pairs.take(k - 1), x) || (pairs[k - 1].0 <= x < pairs[k
            - 1].1),
{
    let t = pairs.take(k);
    let u = pairs.take(k - 1);
    if covers_pairs(t, x) {
        let i = choose|i: int| 0 <= i < t.len() && (#[trigger] t[i]).0 <= x < t[i].1;
        if i < k - 1 {
            assert(u[i] == t[i]);
        }
    }
    if covers_pairs(u, x) {
        let i = choose|i: int| 0 <= i < u.len() && (#[trigger] u[i]).0 <= x < u[i].1;
        assert(t[i] == u[i]);
    }
    if pairs[k - 1].0 <= x < pairs[k - 1].1 {
        assert(t[k - 1] == pairs[k - 1]);
    }
}

/// What joining the first `k` pairs has built, seen from the offset `x`:
/// before the span being joined, the joined spans hold `x` exactly when a
/// pair does, and the spans between them exactly when none does; the span
/// being joined is held by the pairs, and nothing after it is.
proof fn lemma_join_prefix(sorted: Seq<(usize, usize)>, k: nat, buffer_len: usize, x: int)
    requires
        k <= sorted.len(),
        0 <= x,
        forall|i: int, j: int| 0 <= i < j < sorted.len() ==> pair_le(#[trigger] sorted[i], #[trigger] sorted[j]),
        forall|i: int| 0 <= i < sorted.len() ==> (#[trigger] sorted[i]).0 <= sorted[i].1 <= buffer_len,
    ensures
        ({
            let (parsed, not_parsed, prev_start, prev_end) = join_prefix(sorted, k);
            &&& prev_start <= prev_end <= buffer_len
            &&& k == 0 ==> prev_start == 0
            &&& k > 0 ==> prev_start <= sorted[k - 1].0
            &&& x < prev_start ==> (covers(parsed, x) <==> covers_pairs(sorted.take(k as int), x))
            &&& x < prev_start ==> (covers(not_parsed, x) <==> !covers_pairs(sorted.take(k as int), x))
            &&& prev_start <= x < prev_end ==> covers_pairs(sorted.take(k as int), x)
            &&& prev_end <= x ==> !covers_pairs(sorted.take(k as int), x)
            &&& prev_start <= x ==> !covers(parsed, x) && !covers(not_parsed, x)
        }),
    decreases k,
{
    if k == 0 {
        assert(sorted.take(0).len() == 0);
    } else {
        lemma_join_prefix(sorted, (k - 1) as nat, buffer_len, x);
        let (parsed, not_parsed, prev_start, prev_end) = join_prefix(sorted, (k - 1) as nat);
        let (start, end) = sorted[k - 1];
        lemma_covers_pairs_take(sorted, k as int, x);
        if k > 1 {
            assert(pair_le(sorted[k - 2], sorted[k - 1]));
        }
        if start > prev_end {
            lemma_covers_push(parsed, Span { start: prev_start, end: prev_end }, x);
            lemma_covers_push(not_parsed, Span { start: prev_end, end: start }, x);
        }
    }
}

/// Joining spans that lie in a buffer splits the buffer in two: an offset
/// in the buffer is in a joined span exactly when it is in one of the
/// spans, and in a span between them exactly when it is in none.
pub proof fn lemma_join_partitions(spans: Seq<Span>, sorted: Seq<(usize, usize)>, buffer_len: usize, x: int)
    requires
        sorted_pairs(spans, sorted),
        forall|i: int| 0 <= i < spans.len() ==> (#[trigger] spans[i]).start <= spans[i].end <= buffer_len,
        0 <= x < buffer_len,
    ensures
        covers(joined(sorted, buffer_len).0, x) <==> covers(spans, x),
        covers(joined(sorted, buffer_len).1, x) <==> !covers(spans, x),
{
    let pairs = span_pairs(spans);
    assert forall|i: int| 0 <= i < sorted.len() implies (#[trigger] sorted[i]).0 <= sorted[i].1 <= buffer_len by {
        assert(sorted.contains(sorted[i]));
        vstd::seq_lib::to_multiset_contains(sorted, sorted[i]);
        vstd::seq_lib::to_multiset_contains(pairs, sorted[i]);
        let j = choose|j: int| 0 <= j < pairs.len() && pairs[j] == sorted[i];
        assert(spans[j].start <= spans[j].end <= buffer_len);
    }
    assert(covers_pairs(sorted, x) <==> covers(spans, x)) by {
        if covers_pairs(sorted, x) {
            let i = choose|i: int| 0 <= i < sorted.len() && (#[trigger] sorted[i]).0 <= x < sorted[i].1;
            assert(sorted.contains(sorted[i]));
            vstd::seq_lib::to_multiset_contains(sorted, sorted[i]);
            vstd::seq_lib::to_multiset_contains(pairs, sorted[i]);
            let j = choose|j: int| 0 <= j < pairs.len() && pairs[j] == sorted[i];
            assert(spans[j].start <= x < spans[j].end);
        }
        if covers(spans, x) {
            let j = choose|j: int| 0 <= j < spans.len() && (#[trigger] spans[j]).start <= x < spans[j].end;
            assert(pairs.contains(pairs[j]));
            vstd::seq_lib::to_multiset_contains(sorted, pairs[j]);
            vstd::seq_lib::to_multiset_contains(pairs, pairs[j]);
            let i = choose|i: int| 0 <= i < sorted.len() && sorted[i] == pairs[j];
            assert(sorted[i].0 <= x < sorted[i].1);
        }
    }
    lemma_join_prefix(sorted, sorted.len(), buffer_len, x);
    assert(sorted.take(sorted.len() as int) =~= sorted);
    let (parsed, not_parsed, prev_start, prev_end) = join_prefix(sorted, sorted.len());
    lemma_covers_push(parsed, Span { start: prev_start, end: prev_end }, x);
    lemma_covers_push(not_parsed, Span { start: prev_end, end: buffer_len }, x);
}

} // verus!
