//! Claims: the positions of the text that the matches have touched, as a
//! set, and as the bitmap that a scan keeps, with one flag for each byte of
//! the text.

use vstd::prelude::*;
use crate::span::Span;

verus! {

/// The positions that are marked in a bitmap.
pub open spec fn claimed_positions(bitmap: Seq<bool>) -> Set<int> {
    Set::new(|p: int| 0 <= p < bitmap.len() && bitmap[p])
}

/// The positions that are claimed once `spans` had their turn, where
/// `claimed` was claimed before.
pub open spec fn claim_spans(claimed: Set<int>, spans: Seq<Span>) -> Set<int>
    decreases spans.len(),
{
    if spans.len() == 0 {
        claimed
    } else {
        claim_spans(claimed, spans.drop_last()).union(spans.last().positions())
    }
}

/// A claim is never taken back: what was claimed before stays claimed, and
/// each span that had its turn is claimed in full.
pub proof fn lemma_claim_spans_grows(claimed: Set<int>, spans: Seq<Span>)
    ensures
        claimed.subset_of(claim_spans(claimed, spans)),
        forall|k: int|
            0 <= k < spans.len() ==> (#[trigger] spans[k]).positions().subset_of(
                claim_spans(claimed, spans),
            ),
    decreases spans.len(),
{
    if spans.len() > 0 {
        let front = spans.drop_last();
        lemma_claim_spans_grows(claimed, front);
        assert forall|k: int| 0 <= k < spans.len() implies (#[trigger] spans[k]).positions().subset_of(
            claim_spans(claimed, spans),
        ) by {
            if k < front.len() {
                assert(front[k] == spans[k]);
            }
        }
    }
}

/// Marks every position of `span` in the bitmap and tells whether all of
/// them were unmarked before. The positions are marked whatever the answer.
pub fn claim(matched: &mut Vec<bool>, span: Span) -> (free: bool)
    requires
        span.start < span.end ==> span.end <= old(matched).len(),
    ensures
        final(matched).len() == old(matched).len(),
        claimed_positions(final(matched)@) == claimed_positions(old(matched)@).union(
            span.positions(),
        ),
        free <==> claimed_positions(old(matched)@).disjoint(span.positions()),
{
    let mut free = true;
    let mut i: usize = span.start;
    while i < span.end
        invariant
            span.start < span.end ==> span.end <= matched.len(),
            matched.len() == old(matched).len(),
            span.start <= i,
            i <= span.end || i == span.start,
            forall|p: int|
                0 <= p < matched.len() ==> matched[p] == (old(matched)[p] || span.start <= p < i),
            free <==> forall|p: int| span.start <= p < i ==> !old(matched)[p],
        decreases span.end - i,
    {
        if matched[i] {
            free = false;
        }
        matched[i] = true;
        i += 1;
    }
    proof {
        assert(claimed_positions(matched@) =~= claimed_positions(old(matched)@).union(
            span.positions(),
        ));
        if free {
            assert(claimed_positions(old(matched)@).disjoint(span.positions()));
        } else {
            let p = choose|p: int| span.start <= p < i && old(matched)[p];
            assert(claimed_positions(old(matched)@).contains(p) && span.positions().contains(p));
        }
    }
    free
}

} // verus!
