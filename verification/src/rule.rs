//! Rules: a compiled pattern bound to the handler that classifies its
//! matches.

use vstd::prelude::*;
use crate::claims::{claim, claim_spans, claimed_positions};
use crate::engine::regex_spans;
use crate::span::{Match, Span, byte_len, match_at, span_in_text};
use crate::token::Token;

verus! {

/// A handler classifies matches: it takes every well-formed match, and what
/// it returns for a match is settled by the match alone.
pub open spec fn is_classifier<T, H: Fn(&Match) -> Option<T>>(handler: H) -> bool {
    &&& forall|m: Match| m.wf() ==> #[trigger] call_requires(handler, (&m,))
    &&& forall|m: Match, a: Option<T>, b: Option<T>|
        #![trigger call_ensures(handler, (&m,), a), call_ensures(handler, (&m,), b)]
        call_ensures(handler, (&m,), a) && call_ensures(handler, (&m,), b) ==> a == b
}

/// What the handler returns for a match.
pub open spec fn classify<T, H: Fn(&Match) -> Option<T>>(handler: H, m: Match) -> Option<T> {
    choose|out: Option<T>| call_ensures(handler, (&m,), out)
}

/// Whether the handler has an answer for a match: what [`classify`] names is
/// then something that the handler returns for it. A handler that was
/// called with a match has an answer for it.
pub open spec fn answers<T, H: Fn(&Match) -> Option<T>>(handler: H, m: Match) -> bool {
    call_ensures(handler, (&m,), classify::<T, H>(handler, m))
}

/// A pattern and the handler for its matches.
#[derive(Debug)]
pub struct LexerRule<H> {
    pub pat: regex::Regex,
    pub handler: H,
}

impl<H> LexerRule<H> {
    /// The spans that the pattern of the rule matches in `text`, in the
    /// order in which the pattern yields them.
    pub open spec fn matches(self, text: &str) -> Seq<Span> {
        regex_spans(self.pat, text@)
    }
}

impl<T, H: Fn(&Match) -> Option<T>> LexerRule<H> {
    /// A rule is well formed when its handler classifies matches.
    pub open spec fn wf(self) -> bool {
        is_classifier::<T, H>(self.handler)
    }

    /// The token that the rule gives for `span`, where `claimed` was claimed
    /// before: none where the span touches a claimed position, and none
    /// where the handler returns `None`.
    pub open spec fn token_for(self, text: &str, claimed: Set<int>, span: Span) -> Option<
        Token<T>,
    > {
        if claimed.disjoint(span.positions()) {
            match classify::<T, H>(self.handler, match_at(text, span)) {
                Some(toktype) => Some(Token { toktype, start: span.start, end: span.end }),
                None => None,
            }
        } else {
            None
        }
    }

    /// The token that the rule gives for `span`, as a sequence of one token
    /// or of none.
    pub open spec fn emit(self, text: &str, claimed: Set<int>, span: Span) -> Seq<Token<T>> {
        match self.token_for(text, claimed, span) {
            Some(tok) => seq![tok],
            None => Seq::empty(),
        }
    }

    /// The tokens that the rule gives for `spans`, taken one after the
    /// other, where `claimed` was claimed before the first of them.
    pub open spec fn collect(self, text: &str, claimed: Set<int>, spans: Seq<Span>) -> Seq<
        Token<T>,
    >
        decreases spans.len(),
    {
        if spans.len() == 0 {
            Seq::empty()
        } else {
            let front = spans.drop_last();
            self.collect(text, claimed, front) + self.emit(
                text,
                claim_spans(claimed, front),
                spans.last(),
            )
        }
    }

    /// Calls the handler of the rule on a match.
    pub fn handle(&self, match_item: &Match) -> (out: Option<T>)
        requires
            self.wf(),
            match_item.wf(),
        ensures
            out == classify::<T, H>(self.handler, *match_item),
            answers::<T, H>(self.handler, *match_item),
    {
        (self.handler)(match_item)
    }

    /// Gives the matches at `spans` their turn, one after the other: each
    /// claims its positions in `matched`, and each that touches no position
    /// claimed before its turn is handed to the handler, whose token, if it
    /// returns one, is added to `toks`. The handler has then answered for
    /// each of those matches.
    pub fn claim_matches(
        &self,
        text: &str,
        spans: &Vec<Span>,
        matched: &mut Vec<bool>,
        toks: &mut Vec<Token<T>>,
    )
        requires
            self.wf(),
            old(matched).len() == byte_len(text@),
            forall|k: int| 0 <= k < spans@.len() ==> span_in_text(#[trigger] spans@[k], text@),
        ensures
            final(matched).len() == old(matched).len(),
            claimed_positions(final(matched)@) == claim_spans(
                claimed_positions(old(matched)@),
                spans@,
            ),
            final(toks)@ == old(toks)@ + self.collect(
                text,
                claimed_positions(old(matched)@),
                spans@,
            ),
            forall|k: int|
                0 <= k < spans@.len() && claim_spans(
                    claimed_positions(old(matched)@),
                    spans@.take(k),
                ).disjoint((#[trigger] spans@[k]).positions()) ==> answers::<T, H>(
                    self.handler,
                    match_at(text, spans@[k]),
                ),
    {
        let ghost claimed = claimed_positions(matched@);
        let ghost given = toks@;
        let mut k: usize = 0;
        proof {
            assert(spans@.take(0) =~= Seq::<Span>::empty());
            assert(given + self.collect(text, claimed, spans@.take(0)) =~= given);
        }
        while k < spans.len()
            invariant
                self.wf(),
                k <= spans.len(),
                matched.len() == byte_len(text@),
                forall|i: int| 0 <= i < spans@.len() ==> span_in_text(#[trigger] spans@[i], text@),
                claimed_positions(matched@) == claim_spans(claimed, spans@.take(k as int)),
                toks@ == given + self.collect(text, claimed, spans@.take(k as int)),
                forall|j: int|
                    0 <= j < k && claim_spans(claimed, spans@.take(j)).disjoint(
                        (#[trigger] spans@[j]).positions(),
                    ) ==> answers::<T, H>(self.handler, match_at(text, spans@[j])),
            decreases spans.len() - k,
        {
            let span = spans[k];
            let ghost before = claimed_positions(matched@);
            proof {
                assert(span_in_text(spans@[k as int], text@));
                assert(spans@.take(k + 1).drop_last() =~= spans@.take(k as int));
                assert(spans@.take(k + 1).last() == span);
            }
            let free = claim(matched, span);
            if free {
                let match_item = Match { haystack: text, start: span.start, end: span.end };
                assert(match_item == match_at(text, span));
                if let Some(toktype) = self.handle(&match_item) {
                    toks.push(Token { toktype, start: span.start, end: span.end });
                }
            }
            proof {
                let emitted = self.emit(text, before, span);
                assert(toks@ =~= given + self.collect(text, claimed, spans@.take(k as int))
                    + emitted);
                assert(toks@ =~= given + self.collect(text, claimed, spans@.take(k + 1)));
            }
            k += 1;
        }
        proof {
            assert(spans@.take(k as int) =~= spans@);
        }
    }
}

} // verus!
