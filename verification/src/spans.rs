//! Consumed-span accounting.
//!
//! Every byte the engine consumes belongs to exactly one span: either a span
//! that produced a token, or a span that was skipped. These definitions say
//! what it means for a run of spans to cover an interval seamlessly, and
//! prove the conservation law: covering spans account for every byte, with
//! no gap and no overlap.

use vstd::prelude::*;

verus! {

/// One consumed stretch of input, in byte offsets.
pub struct Span {
    /// Where the stretch begins.
    pub lo: int,
    /// Where it ends (exclusive).
    pub hi: int,
    /// Whether a token was emitted for it (false: it was skipped).
    pub emitted: bool,
}

/// The spans tile the interval `[from, to)` exactly: each is non-empty, each
/// begins where its predecessor ended, the first begins at `from` and the
/// last ends at `to`.
pub open spec fn spans_cover(h: Seq<Span>, from: int, to: int) -> bool
    decreases h.len(),
{
    if h.len() == 0 {
        from == to
    } else {
        spans_cover(h.drop_last(), from, h.last().lo) && h.last().lo < h.last().hi
            && h.last().hi == to
    }
}

/// The total byte length of the spans.
pub open spec fn spans_len(h: Seq<Span>) -> int
    decreases h.len(),
{
    if h.len() == 0 {
        0
    } else {
        spans_len(h.drop_last()) + (h.last().hi - h.last().lo)
    }
}

/// The subsequence of spans that produced tokens, in order.
pub open spec fn emitted_spans(h: Seq<Span>) -> Seq<Span>
    decreases h.len(),
{
    if h.len() == 0 {
        Seq::empty()
    } else if h.last().emitted {
        emitted_spans(h.drop_last()).push(h.last())
    } else {
        emitted_spans(h.drop_last())
    }
}

/// The subsequence of spans that were skipped, in order.
pub open spec fn skipped_spans(h: Seq<Span>) -> Seq<Span>
    decreases h.len(),
{
    if h.len() == 0 {
        Seq::empty()
    } else if h.last().emitted {
        skipped_spans(h.drop_last())
    } else {
        skipped_spans(h.drop_last()).push(h.last())
    }
}

/// The total length of covering spans is exactly the interval's length.
pub proof fn lemma_conservation(h: Seq<Span>, from: int, to: int)
    requires
        spans_cover(h, from, to),
    ensures
        spans_len(h) == to - from,
        from <= to,
    decreases h.len(),
{
    if h.len() > 0 {
        lemma_conservation(h.drop_last(), from, h.last().lo);
    }
}

/// Law: covering spans sit inside their interval, in order and without gaps
/// or overlaps — each begins exactly where the one before it ended.
pub proof fn lemma_cover_structure(h: Seq<Span>, from: int, to: int)
    requires
        spans_cover(h, from, to),
    ensures
        from <= to,
        forall|i: int| 0 <= i < h.len() ==> from <= (#[trigger] h[i]).lo < h[i].hi <= to,
        forall|i: int| 0 <= i < h.len() - 1 ==> (#[trigger] h[i]).hi == h[i + 1].lo,
        h.len() > 0 ==> h[0].lo == from && h.last().hi == to,
    decreases h.len(),
{
    if h.len() > 0 {
        let d = h.drop_last();
        lemma_cover_structure(d, from, h.last().lo);
        assert(forall|i: int| 0 <= i < h.len() - 1 ==> h[i] == (#[trigger] d[i]));
        assert forall|i: int| 0 <= i < h.len() implies from <= (#[trigger] h[i]).lo < h[i].hi
            <= to by {
            if i < h.len() - 1 {
                assert(h[i] == d[i]);
                assert(from <= d[i].lo < d[i].hi <= h.last().lo);
            }
        }
        assert forall|i: int| 0 <= i < h.len() - 1 implies (#[trigger] h[i]).hi == h[i + 1].lo by {
            if i < h.len() - 2 {
                assert(h[i] == d[i] && h[i + 1] == d[i + 1]);
                assert(d[i].hi == d[i + 1].lo);
            } else {
                assert(h[i] == d[i]);
                assert(d.len() > 0 && d[i] == d.last());
                assert(d.last().hi == h.last().lo);
            }
        }
        if h.len() == 1 {
            assert(spans_cover(d, from, h.last().lo));
            assert(d.len() == 0);
            assert(from == h.last().lo);
            assert(h[0] == h.last());
        } else {
            assert(h[0] == d[0]);
            assert(d[0].lo == from);
        }
        assert(h[0].lo == from && h.last().hi == to);
    }
}

/// Every span is either emitted or skipped, so the two groups' lengths sum
/// to the whole.
pub proof fn lemma_emitted_skipped_partition(h: Seq<Span>)
    ensures
        spans_len(emitted_spans(h)) + spans_len(skipped_spans(h)) == spans_len(h),
    decreases h.len(),
{
    if h.len() > 0 {
        lemma_emitted_skipped_partition(h.drop_last());
        if h.last().emitted {
            assert(emitted_spans(h.drop_last()).push(h.last()).drop_last() =~= emitted_spans(
                h.drop_last(),
            ));
        } else {
            assert(skipped_spans(h.drop_last()).push(h.last()).drop_last() =~= skipped_spans(
                h.drop_last(),
            ));
        }
    }
}

/// Law: conservation. For spans that cover an interval seamlessly, the bytes
/// of the emitted (token) spans and the bytes of the skipped spans together
/// account for every byte of the interval, with no gap and no overlap.
pub proof fn lemma_conservation_of_bytes(h: Seq<Span>, from: int, to: int)
    requires
        spans_cover(h, from, to),
    ensures
        spans_len(emitted_spans(h)) + spans_len(skipped_spans(h)) == to - from,
{
    lemma_conservation(h, from, to);
    lemma_emitted_skipped_partition(h);
}

/// Two covering runs laid end to end cover the combined interval.
pub proof fn lemma_cover_extend(h: Seq<Span>, delta: Seq<Span>, from: int, mid: int, to: int)
    requires
        spans_cover(h, from, mid),
        spans_cover(delta, mid, to),
    ensures
        spans_cover(h + delta, from, to),
    decreases delta.len(),
{
    if delta.len() == 0 {
        assert(h + delta =~= h);
    } else {
        lemma_cover_extend(h, delta.drop_last(), from, mid, delta.last().lo);
        assert((h + delta).drop_last() =~= h + delta.drop_last());
        assert((h + delta).last() == delta.last());
    }
}

/// Emission filtering distributes over concatenation.
pub proof fn lemma_emitted_concat(a: Seq<Span>, b: Seq<Span>)
    ensures
        emitted_spans(a + b) == emitted_spans(a) + emitted_spans(b),
    decreases b.len(),
{
    if b.len() == 0 {
        assert(a + b =~= a);
        assert(emitted_spans(a) + emitted_spans(b) =~= emitted_spans(a));
    } else {
        lemma_emitted_concat(a, b.drop_last());
        assert((a + b).drop_last() =~= a + b.drop_last());
        assert((a + b).last() == b.last());
        if b.last().emitted {
            assert(emitted_spans(a) + emitted_spans(b) =~= (emitted_spans(a) + emitted_spans(
                b.drop_last(),
            )).push(b.last()));
        }
    }
}

} // verus!
