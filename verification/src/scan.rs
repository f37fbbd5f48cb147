//! What a scan returns, stated over the matches that the rules find.
//!
//! The rules take their turn in the order of their registration, and each
//! rule takes its matches in the order in which its pattern yields them. A
//! match claims every position that it covers. It is classified only if none
//! of its positions was claimed before its turn.

use vstd::prelude::*;
use crate::claims::claim_spans;
use crate::rule::LexerRule;
use crate::span::Match;
use crate::token::{Token, sort_by_start};

verus! {

/// The positions of `text` that the matches of `rules` claim.
pub open spec fn claimed_by<H>(rules: Seq<LexerRule<H>>, text: &str) -> Set<int>
    decreases rules.len(),
{
    if rules.len() == 0 {
        Set::empty()
    } else {
        claim_spans(claimed_by(rules.drop_last(), text), rules.last().matches(text))
    }
}

/// Whether `rules[r]` has a match with index `k` in `text`.
pub open spec fn is_match<H>(rules: Seq<LexerRule<H>>, text: &str, r: int, k: int) -> bool {
    0 <= r < rules.len() && 0 <= k < rules[r].matches(text).len()
}

/// The positions that are claimed when match `k` of `rules[r]` has its turn:
/// those of the matches of the rules before it, and those of the matches
/// that the rule itself found before this one.
pub open spec fn claimed_before<H>(rules: Seq<LexerRule<H>>, text: &str, r: int, k: int) -> Set<
    int,
> {
    claim_spans(claimed_by(rules.take(r), text), rules[r].matches(text).take(k))
}

/// Whether match `k` of `rules[r]` touches no position that is claimed when
/// it has its turn. Only such a match is handed to the handler.
pub open spec fn unclaimed<H>(rules: Seq<LexerRule<H>>, text: &str, r: int, k: int) -> bool {
    claimed_before(rules, text, r, k).disjoint(rules[r].matches(text)[k].positions())
}

/// The tokens that `rules` give for `text`, in the order in which they are
/// collected: rule by rule, and match by match within a rule.
pub open spec fn collected<T, H: Fn(&Match) -> Option<T>>(
    rules: Seq<LexerRule<H>>,
    text: &str,
) -> Seq<Token<T>>
    decreases rules.len(),
{
    if rules.len() == 0 {
        Seq::empty()
    } else {
        let front = rules.drop_last();
        collected(front, text) + rules.last().collect(
            text,
            claimed_by(front, text),
            rules.last().matches(text),
        )
    }
}

/// The token that match `k` of `rules[r]` gives, if it gives one.
pub open spec fn token_of<T, H: Fn(&Match) -> Option<T>>(
    rules: Seq<LexerRule<H>>,
    text: &str,
    r: int,
    k: int,
) -> Option<Token<T>> {
    rules[r].token_for(text, claimed_before(rules, text, r, k), rules[r].matches(text)[k])
}

/// The result of scanning `text` with `rules`: the collected tokens, ordered
/// by their start.
pub open spec fn scan<T, H: Fn(&Match) -> Option<T>>(rules: Seq<LexerRule<H>>, text: &str) -> Seq<
    Token<T>,
> {
    sort_by_start(collected(rules, text))
}

} // verus!
