//! Tokens, and the order in which a scan returns them.

use vstd::prelude::*;
use crate::span::Span;

verus! {

/// A classified region of a text: what the handler made of a match, and the
/// byte offsets `[start, end)` of the match.
#[derive(Debug)]
pub struct Token<T> {
    pub toktype: T,
    pub start: usize,
    pub end: usize,
}

impl<T> Token<T> {
    /// The span of the text that the token stands for.
    pub open spec fn span(self) -> Span {
        Span { start: self.start, end: self.end }
    }

    /// The classification that the handler gave.
    pub fn toktype(&self) -> (toktype: &T)
        ensures
            *toktype == self.toktype,
    {
        &self.toktype
    }

    /// The byte offset at which the token starts.
    pub fn start(&self) -> (start: usize)
        ensures
            start == self.start,
    {
        self.start
    }

    /// The byte offset just behind the token.
    pub fn end(&self) -> (end: usize)
        ensures
            end == self.end,
    {
        self.end
    }
}

/// No token starts before one that stands in front of it.
pub open spec fn ordered_by_start<T>(toks: Seq<Token<T>>) -> bool {
    forall|i: int, j: int| 0 <= i < j < toks.len() ==> toks[i].start <= toks[j].start
}

/// Where a token that starts at `start` goes into `toks`: behind the last
/// token that does not start later.
pub open spec fn insertion_point<T>(toks: Seq<Token<T>>, start: usize) -> int
    decreases toks.len(),
{
    if toks.len() > 0 && toks.last().start > start {
        insertion_point(toks.drop_last(), start)
    } else {
        toks.len() as int
    }
}

/// The tokens ordered by their start. Tokens with the same start keep the
/// order in which they stand in `toks`.
pub open spec fn sort_by_start<T>(toks: Seq<Token<T>>) -> Seq<Token<T>>
    decreases toks.len(),
{
    if toks.len() == 0 {
        toks
    } else {
        let sorted = sort_by_start(toks.drop_last());
        sorted.insert(insertion_point(sorted, toks.last().start), toks.last())
    }
}

/// The insertion point lies within the sequence, every token from it on
/// starts later than `start`, and the token before it does not.
pub proof fn lemma_insertion_point<T>(toks: Seq<Token<T>>, start: usize)
    ensures
        0 <= insertion_point(toks, start) <= toks.len(),
        forall|i: int| insertion_point(toks, start) <= i < toks.len() ==> toks[i].start > start,
        insertion_point(toks, start) > 0 ==> toks[insertion_point(toks, start) - 1].start <= start,
    decreases toks.len(),
{
    if toks.len() > 0 && toks.last().start > start {
        let front = toks.drop_last();
        lemma_insertion_point(front, start);
        assert forall|i: int| insertion_point(toks, start) <= i < toks.len() implies toks[i].start
            > start by {
            if i < front.len() {
                assert(front[i] == toks[i]);
            }
        }
    }
}

/// Sorting keeps the number of tokens.
pub proof fn lemma_sort_len<T>(toks: Seq<Token<T>>)
    ensures
        sort_by_start(toks).len() == toks.len(),
    decreases toks.len(),
{
    if toks.len() > 0 {
        let sorted = sort_by_start(toks.drop_last());
        lemma_sort_len(toks.drop_last());
        lemma_insertion_point(sorted, toks.last().start);
    }
}

/// The sorted tokens are ordered by their start.
pub proof fn lemma_sort_ordered<T>(toks: Seq<Token<T>>)
    ensures
        ordered_by_start(sort_by_start(toks)),
    decreases toks.len(),
{
    if toks.len() > 0 {
        let sorted = sort_by_start(toks.drop_last());
        let last = toks.last();
        let at = insertion_point(sorted, last.start);
        lemma_sort_ordered(toks.drop_last());
        lemma_insertion_point(sorted, last.start);
        let out = sorted.insert(at, last);
        assert forall|i: int, j: int| 0 <= i < j < out.len() implies out[i].start
            <= out[j].start by {
            if at > 0 && i < at {
                assert(sorted[i].start <= sorted[at - 1].start);
            }
        }
    }
}

/// Sorting rearranges the tokens: each token occurs as often after it as
/// before it.
pub proof fn lemma_sort_permutes<T>(toks: Seq<Token<T>>)
    ensures
        sort_by_start(toks).to_multiset() == toks.to_multiset(),
    decreases toks.len(),
{
    broadcast use vstd::seq_lib::group_to_multiset_ensures;

    if toks.len() > 0 {
        let front = toks.drop_last();
        let sorted = sort_by_start(front);
        let last = toks.last();
        lemma_sort_permutes(front);
        lemma_insertion_point(sorted, last.start);
        vstd::seq_lib::to_multiset_insert(sorted, insertion_point(sorted, last.start), last);
        assert(toks =~= front.push(last));
        assert(toks.to_multiset() =~= front.to_multiset().insert(last));
    } else {
        assert(sort_by_start(toks) =~= toks);
    }
}

/// The tokens that start at `start`, in the order in which they stand in
/// `toks`.
pub open spec fn starting_at<T>(toks: Seq<Token<T>>, start: usize) -> Seq<Token<T>> {
    toks.filter(|tok: Token<T>| tok.start == start)
}

/// Where no token starts at `start`, none is left of those that do.
proof fn lemma_none_starting_at<T>(toks: Seq<Token<T>>, start: usize)
    requires
        forall|i: int| 0 <= i < toks.len() ==> (#[trigger] toks[i]).start != start,
    ensures
        starting_at(toks, start) == Seq::<Token<T>>::empty(),
    decreases toks.len(),
{
    reveal(Seq::filter);
    if toks.len() > 0 {
        let front = toks.drop_last();
        assert forall|i: int| 0 <= i < front.len() implies (#[trigger] front[i]).start != start by {
            assert(front[i] == toks[i]);
        }
        lemma_none_starting_at(front, start);
        assert(toks.last() == toks[toks.len() - 1]);
    }
}

/// Stability. Sorting leaves the tokens that start at the same position in
/// the order in which they were given.
pub proof fn lemma_sort_stable<T>(toks: Seq<Token<T>>, start: usize)
    ensures
        starting_at(sort_by_start(toks), start) == starting_at(toks, start),
    decreases toks.len(),
{
    reveal(Seq::filter);
    if toks.len() > 0 {
        let pred = |tok: Token<T>| tok.start == start;
        let front = toks.drop_last();
        let last = toks.last();
        let sorted = sort_by_start(front);
        let at = insertion_point(sorted, last.start);
        let head = sorted.take(at);
        let tail = sorted.skip(at);
        let one = seq![last];
        lemma_sort_stable(front, start);
        lemma_insertion_point(sorted, last.start);
        assert(sorted =~= head + tail);
        assert(sorted.insert(at, last) =~= head + one + tail);
        Seq::filter_distributes_over_add(head, tail, pred);
        Seq::filter_distributes_over_add(head, one, pred);
        Seq::filter_distributes_over_add(head + one, tail, pred);
        assert(one.drop_last() =~= Seq::<Token<T>>::empty());
        assert(one.drop_last().filter(pred) =~= Seq::<Token<T>>::empty());
        if last.start == start {
            assert(one.filter(pred) =~= one);
            lemma_none_starting_at(tail, start);
            assert(starting_at(toks, start) =~= front.filter(pred).push(last));
            assert(starting_at(sort_by_start(toks), start) =~= head.filter(pred) + one);
            assert(head.filter(pred) + tail.filter(pred) =~= head.filter(pred));
        } else {
            assert(one.filter(pred) =~= Seq::<Token<T>>::empty());
            assert(starting_at(sort_by_start(toks), start) =~= head.filter(pred) + tail.filter(
                pred,
            ));
        }
    }
}

/// The sorted tokens are the given tokens: each sorted token is one of
/// them, and each of them is among the sorted tokens.
pub proof fn lemma_sort_members<T>(toks: Seq<Token<T>>)
    ensures
        forall|i: int|
            0 <= i < sort_by_start(toks).len() ==> toks.contains(#[trigger] sort_by_start(toks)[i]),
        forall|i: int| 0 <= i < toks.len() ==> sort_by_start(toks).contains(#[trigger] toks[i]),
{
    broadcast use vstd::seq_lib::group_to_multiset_ensures;

    lemma_sort_permutes(toks);
    let sorted = sort_by_start(toks);
    assert forall|i: int| 0 <= i < sorted.len() implies toks.contains(#[trigger] sorted[i]) by {
        assert(sorted.contains(sorted[i]));
        assert(sorted.to_multiset().contains(sorted[i]));
    }
    assert forall|i: int| 0 <= i < toks.len() implies sorted.contains(#[trigger] toks[i]) by {
        assert(toks.contains(toks[i]));
        assert(toks.to_multiset().contains(toks[i]));
    }
}

/// No two tokens share a position of the text.
pub open spec fn apart<T>(toks: Seq<Token<T>>) -> bool {
    forall|i: int, j: int|
        0 <= i < toks.len() && 0 <= j < toks.len() && i != j ==> !(#[trigger] toks[i]).span().overlaps(
            (#[trigger] toks[j]).span(),
        )
}

/// Tokens that share no position share none once they are sorted.
pub proof fn lemma_sort_apart<T>(toks: Seq<Token<T>>)
    requires
        apart(toks),
    ensures
        apart(sort_by_start(toks)),
    decreases toks.len(),
{
    if toks.len() > 0 {
        let front = toks.drop_last();
        let last = toks.last();
        let sorted = sort_by_start(front);
        let at = insertion_point(sorted, last.start);
        let out = sorted.insert(at, last);
        assert(apart(front)) by {
            assert forall|i: int, j: int|
                0 <= i < front.len() && 0 <= j < front.len() && i != j implies !(
                #[trigger] front[i]).span().overlaps((#[trigger] front[j]).span()) by {
                assert(front[i] == toks[i] && front[j] == toks[j]);
            }
        }
        lemma_sort_apart(front);
        lemma_sort_members(front);
        lemma_insertion_point(sorted, last.start);
        assert forall|i: int| 0 <= i < sorted.len() implies !(#[trigger] sorted[i]).span().overlaps(
            last.span(),
        ) && !last.span().overlaps(sorted[i].span()) by {
            assert(front.contains(sorted[i]));
            let j = choose|j: int| 0 <= j < front.len() && front[j] == sorted[i];
            assert(toks[j] == sorted[i]);
            assert(toks[toks.len() - 1] == last);
        }
        assert forall|i: int, j: int|
            0 <= i < out.len() && 0 <= j < out.len() && i != j implies !(#[trigger] out[i]).span().overlaps(
            (#[trigger] out[j]).span(),
        ) by {
            if i != at && j != at {
                let a = if i < at { i } else { i - 1 };
                let b = if j < at { j } else { j - 1 };
                assert(out[i] == sorted[a] && out[j] == sorted[b]);
            } else if i == at {
                let b = if j < at { j } else { j - 1 };
                assert(out[j] == sorted[b]);
            } else {
                let a = if i < at { i } else { i - 1 };
                assert(out[i] == sorted[a]);
            }
        }
    }
}

/// Orders the tokens by their start. Tokens with the same start keep their
/// order.
pub fn sort_tokens<T>(toks: &mut Vec<Token<T>>)
    ensures
        final(toks)@ == sort_by_start(old(toks)@),
{
    let ghost given = toks@;
    let mut i: usize = 0;
    while i < toks.len()
        invariant
            i <= toks.len(),
            toks.len() == given.len(),
            toks@.take(i as int) == sort_by_start(given.take(i as int)),
            toks@.skip(i as int) == given.skip(i as int),
        decreases toks.len() - i,
    {
        let ghost before = toks@;
        let ghost sorted = before.take(i as int);
        let tok = toks.remove(i);
        let mut at: usize = i;
        proof {
            assert(before.remove(i as int).take(i as int) =~= sorted);
            assert(sorted.take(at as int) =~= sorted);
        }
        while at > 0 && toks[at - 1].start > tok.start
            invariant
                at <= i,
                i <= toks.len(),
                toks@.take(i as int) == sorted,
                insertion_point(sorted, tok.start) == insertion_point(
                    sorted.take(at as int),
                    tok.start,
                ),
            decreases at,
        {
            proof {
                assert(sorted.take(at as int).drop_last() =~= sorted.take(at - 1));
            }
            at -= 1;
        }
        proof {
            assert(given.take(i + 1).drop_last() =~= given.take(i as int));
            assert(given.take(i + 1).last() == given[i as int]);
            assert(tok == given.skip(i as int)[0]);
        }
        toks.insert(at, tok);
        proof {
            assert(toks@.take(i + 1) =~= sorted.insert(at as int, tok));
            assert forall|k: int| i < k < given.len() implies #[trigger] toks@[k] == given[k] by {
                assert(toks@[k] == before[k]);
                assert(before.skip(i as int)[k - i] == given.skip(i as int)[k - i]);
            }
            assert(toks@.skip(i + 1) =~= given.skip(i + 1));
        }
        i += 1;
    }
    proof {
        assert(toks@.take(i as int) =~= toks@);
        assert(given.take(i as int) =~= given);
    }
}

} // verus!
