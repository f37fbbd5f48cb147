//! Laws of the scan: what holds of its result for every list of rules and
//! every text.

use vstd::prelude::*;
use crate::claims::{claim_spans, lemma_claim_spans_grows};
use crate::rule::{LexerRule, classify};
use crate::scan::{claimed_before, claimed_by, collected, is_match, scan, token_of, unclaimed};
use crate::span::{Match, Span, match_at};
use crate::token::{
    Token, apart, lemma_sort_apart, lemma_sort_members, lemma_sort_ordered, ordered_by_start,
};

verus! {

/// Every token covers claimed positions only.
pub open spec fn within<T>(toks: Seq<Token<T>>, claimed: Set<int>) -> bool {
    forall|i: int| 0 <= i < toks.len() ==> (#[trigger] toks[i]).span().positions().subset_of(claimed)
}

/// No token covers a claimed position.
pub open spec fn outside<T>(toks: Seq<Token<T>>, claimed: Set<int>) -> bool {
    forall|i: int| 0 <= i < toks.len() ==> claimed.disjoint((#[trigger] toks[i]).span().positions())
}

/// What the rules up to some rule have claimed, all the rules have claimed.
pub proof fn lemma_claimed_by_grows<H>(rules: Seq<LexerRule<H>>, text: &str, r: int)
    requires
        0 <= r <= rules.len(),
    ensures
        claimed_by(rules.take(r), text).subset_of(claimed_by(rules, text)),
    decreases rules.len(),
{
    if r == rules.len() {
        assert(rules.take(r) =~= rules);
    } else {
        let front = rules.drop_last();
        lemma_claimed_by_grows(front, text, r);
        assert(front.take(r) =~= rules.take(r));
        lemma_claim_spans_grows(claimed_by(front, text), rules.last().matches(text));
    }
}

/// When a match has its turn, every match that had its turn before it is
/// claimed in full.
pub proof fn lemma_earlier_match_claimed<H>(
    rules: Seq<LexerRule<H>>,
    text: &str,
    r1: int,
    k1: int,
    r2: int,
    k2: int,
)
    requires
        is_match(rules, text, r1, k1),
        is_match(rules, text, r2, k2),
        r1 < r2 || (r1 == r2 && k1 < k2),
    ensures
        rules[r1].matches(text)[k1].positions().subset_of(claimed_before(rules, text, r2, k2)),
{
    let earlier = rules[r1].matches(text);
    let later = rules[r2].matches(text);
    let base = claimed_by(rules.take(r2), text);
    lemma_claim_spans_grows(base, later.take(k2));
    if r1 < r2 {
        let upto = rules.take(r1 + 1);
        assert(upto.last() == rules[r1]);
        lemma_claim_spans_grows(claimed_by(upto.drop_last(), text), earlier);
        lemma_claimed_by_grows(rules.take(r2), text, r1 + 1);
        assert(rules.take(r2).take(r1 + 1) =~= upto);
    } else {
        assert(later.take(k2)[k1] == earlier[k1]);
    }
}

/// Priority. Where two matches overlap, the one that has its turn later,
/// because its rule was registered later or, within one rule, because it was
/// found later, is not classified and gives no token, whatever its length
/// and wherever it starts.
pub proof fn lemma_earlier_match_wins<T, H: Fn(&Match) -> Option<T>>(
    rules: Seq<LexerRule<H>>,
    text: &str,
    r1: int,
    k1: int,
    r2: int,
    k2: int,
)
    requires
        is_match(rules, text, r1, k1),
        is_match(rules, text, r2, k2),
        r1 < r2 || (r1 == r2 && k1 < k2),
        rules[r1].matches(text)[k1].overlaps(rules[r2].matches(text)[k2]),
    ensures
        !unclaimed(rules, text, r2, k2),
        token_of::<T, H>(rules, text, r2, k2) is None,
{
    let first = rules[r1].matches(text)[k1];
    let second = rules[r2].matches(text)[k2];
    lemma_earlier_match_claimed(rules, text, r1, k1, r2, k2);
    let p = choose|p: int| first.positions().contains(p) && second.positions().contains(p);
    assert(claimed_before(rules, text, r2, k2).contains(p));
}

/// The tokens that a rule gives for its spans cover only what is claimed
/// after them, cover nothing that was claimed before them, and share no
/// position with each other.
pub proof fn lemma_collect_bounds<T, H: Fn(&Match) -> Option<T>>(
    rule: LexerRule<H>,
    text: &str,
    claimed: Set<int>,
    spans: Seq<Span>,
)
    ensures
        within(rule.collect(text, claimed, spans), claim_spans(claimed, spans)),
        outside(rule.collect(text, claimed, spans), claimed),
        apart(rule.collect(text, claimed, spans)),
    decreases spans.len(),
{
    if spans.len() > 0 {
        let front = spans.drop_last();
        let last = spans.last();
        let before = claim_spans(claimed, front);
        let earlier = rule.collect(text, claimed, front);
        let emitted = rule.emit(text, before, last);
        let toks = rule.collect(text, claimed, spans);
        lemma_collect_bounds(rule, text, claimed, front);
        lemma_claim_spans_grows(claimed, front);
        assert(toks == earlier + emitted);
        assert forall|i: int| 0 <= i < toks.len() implies (#[trigger] toks[i]).span().positions().subset_of(
            claim_spans(claimed, spans),
        ) && claimed.disjoint(toks[i].span().positions()) by {
            if i < earlier.len() {
                assert(toks[i] == earlier[i]);
            } else {
                assert(toks[i] == emitted[i - earlier.len()]);
                assert(toks[i].span() == last);
            }
        }
        assert forall|i: int, j: int|
            0 <= i < toks.len() && 0 <= j < toks.len() && i != j implies !(#[trigger] toks[i]).span().overlaps(
            (#[trigger] toks[j]).span(),
        ) by {
            if i < earlier.len() && j < earlier.len() {
                assert(toks[i] == earlier[i] && toks[j] == earlier[j]);
            } else if i < earlier.len() {
                assert(toks[i] == earlier[i]);
                assert(toks[j] == emitted[j - earlier.len()]);
                assert(toks[j].span() == last);
            } else {
                assert(toks[j] == earlier[j]);
                assert(toks[i] == emitted[i - earlier.len()]);
                assert(toks[i].span() == last);
            }
        }
    }
}

/// The collected tokens cover only what the rules have claimed, and share
/// no position with each other.
pub proof fn lemma_collected_bounds<T, H: Fn(&Match) -> Option<T>>(
    rules: Seq<LexerRule<H>>,
    text: &str,
)
    ensures
        within(collected::<T, H>(rules, text), claimed_by(rules, text)),
        apart(collected::<T, H>(rules, text)),
    decreases rules.len(),
{
    if rules.len() > 0 {
        let front = rules.drop_last();
        let rule = rules.last();
        let before = claimed_by(front, text);
        let spans = rule.matches(text);
        let earlier = collected::<T, H>(front, text);
        let added = rule.collect(text, before, spans);
        let toks = collected::<T, H>(rules, text);
        lemma_collected_bounds::<T, H>(front, text);
        lemma_collect_bounds(rule, text, before, spans);
        lemma_claim_spans_grows(before, spans);
        assert(toks == earlier + added);
        assert forall|i: int| 0 <= i < toks.len() implies (#[trigger] toks[i]).span().positions().subset_of(
            claimed_by(rules, text),
        ) by {
            if i < earlier.len() {
                assert(toks[i] == earlier[i]);
            } else {
                assert(toks[i] == added[i - earlier.len()]);
            }
        }
        assert forall|i: int, j: int|
            0 <= i < toks.len() && 0 <= j < toks.len() && i != j implies !(#[trigger] toks[i]).span().overlaps(
            (#[trigger] toks[j]).span(),
        ) by {
            if i < earlier.len() && j < earlier.len() {
                assert(toks[i] == earlier[i] && toks[j] == earlier[j]);
            } else if i < earlier.len() {
                assert(toks[i] == earlier[i]);
                assert(toks[j] == added[j - earlier.len()]);
            } else if j < earlier.len() {
                assert(toks[j] == earlier[j]);
                assert(toks[i] == added[i - earlier.len()]);
            } else {
                assert(toks[i] == added[i - earlier.len()]);
                assert(toks[j] == added[j - earlier.len()]);
            }
        }
    }
}

/// Whether `tok` is the token that the rule gives for `spans[k]`, where
/// `claimed` was claimed before the first of `spans`.
pub open spec fn collects<T, H: Fn(&Match) -> Option<T>>(
    rule: LexerRule<H>,
    text: &str,
    claimed: Set<int>,
    spans: Seq<Span>,
    k: int,
    tok: Token<T>,
) -> bool {
    0 <= k < spans.len() && rule.token_for(text, claim_spans(claimed, spans.take(k)), spans[k])
        == Some(tok)
}

/// Whether `tok` is the token that match `k` of `rules[r]` gives.
pub open spec fn gives<T, H: Fn(&Match) -> Option<T>>(
    rules: Seq<LexerRule<H>>,
    text: &str,
    r: int,
    k: int,
    tok: Token<T>,
) -> bool {
    is_match(rules, text, r, k) && token_of::<T, H>(rules, text, r, k) == Some(tok)
}

/// Whether `tok` is the token that the rule gives for one of `spans`.
pub open spec fn collects_some<T, H: Fn(&Match) -> Option<T>>(
    rule: LexerRule<H>,
    text: &str,
    claimed: Set<int>,
    spans: Seq<Span>,
    tok: Token<T>,
) -> bool {
    exists|k: int| collects(rule, text, claimed, spans, k, tok)
}

/// Whether `tok` is the token that a match of one of `rules` gives.
pub open spec fn stems_from_match<T, H: Fn(&Match) -> Option<T>>(
    rules: Seq<LexerRule<H>>,
    text: &str,
    tok: Token<T>,
) -> bool {
    exists|r: int, k: int| gives(rules, text, r, k, tok)
}

/// The tokens that a rule gives for its spans are the tokens of the single
/// spans: each token stems from a span, and each span that gives a token
/// has it among them.
pub proof fn lemma_collect_exact<T, H: Fn(&Match) -> Option<T>>(
    rule: LexerRule<H>,
    text: &str,
    claimed: Set<int>,
    spans: Seq<Span>,
)
    ensures
        forall|i: int|
            0 <= i < rule.collect(text, claimed, spans).len() ==> collects_some(
                rule,
                text,
                claimed,
                spans,
                #[trigger] rule.collect(text, claimed, spans)[i],
            ),
        forall|k: int, tok: Token<T>| #[trigger]
            collects(rule, text, claimed, spans, k, tok) ==> rule.collect(
                text,
                claimed,
                spans,
            ).contains(tok),
    decreases spans.len(),
{
    let toks = rule.collect(text, claimed, spans);
    if spans.len() > 0 {
        let front = spans.drop_last();
        let last = spans.last();
        let before = claim_spans(claimed, front);
        let earlier = rule.collect(text, claimed, front);
        let emitted = rule.emit(text, before, last);
        lemma_collect_exact(rule, text, claimed, front);
        assert(toks == earlier + emitted);
        assert(spans.take(spans.len() - 1) =~= front);
        assert forall|i: int| 0 <= i < toks.len() implies collects_some(
            rule,
            text,
            claimed,
            spans,
            #[trigger] toks[i],
        ) by {
            if i < earlier.len() {
                assert(toks[i] == earlier[i]);
                let k = choose|k: int| collects(rule, text, claimed, front, k, earlier[i]);
                assert(front.take(k) =~= spans.take(k));
                assert(front[k] == spans[k]);
                assert(collects(rule, text, claimed, spans, k, toks[i]));
            } else {
                assert(toks[i] == emitted[i - earlier.len()]);
                assert(collects(rule, text, claimed, spans, spans.len() - 1, toks[i]));
            }
        }
        assert forall|k: int, tok: Token<T>| #[trigger]
            collects(rule, text, claimed, spans, k, tok) implies toks.contains(tok) by {
            if k < front.len() {
                assert(front.take(k) =~= spans.take(k));
                assert(front[k] == spans[k]);
                assert(collects(rule, text, claimed, front, k, tok));
                let i = choose|i: int| 0 <= i < earlier.len() && earlier[i] == tok;
                assert(toks[i] == tok);
            } else {
                assert(emitted[0] == tok);
                assert(toks[earlier.len() as int] == tok);
            }
        }
    }
}

/// The collected tokens are the tokens of the single matches.
pub proof fn lemma_collected_exact<T, H: Fn(&Match) -> Option<T>>(
    rules: Seq<LexerRule<H>>,
    text: &str,
)
    ensures
        forall|i: int|
            0 <= i < collected::<T, H>(rules, text).len() ==> stems_from_match(
                rules,
                text,
                #[trigger] collected::<T, H>(rules, text)[i],
            ),
        forall|r: int, k: int, tok: Token<T>| #[trigger]
            gives(rules, text, r, k, tok) ==> collected::<T, H>(rules, text).contains(tok),
    decreases rules.len(),
{
    let toks = collected::<T, H>(rules, text);
    if rules.len() > 0 {
        let front = rules.drop_last();
        let rule = rules.last();
        let at = rules.len() - 1;
        let before = claimed_by(front, text);
        let spans = rule.matches(text);
        let earlier = collected::<T, H>(front, text);
        let added = rule.collect(text, before, spans);
        lemma_collected_exact::<T, H>(front, text);
        lemma_collect_exact(rule, text, before, spans);
        assert(toks == earlier + added);
        assert(rules.take(at) =~= front);
        assert forall|i: int| 0 <= i < toks.len() implies stems_from_match(
            rules,
            text,
            #[trigger] toks[i],
        ) by {
            if i < earlier.len() {
                assert(toks[i] == earlier[i]);
                let (r, k) = choose|r: int, k: int| gives(front, text, r, k, earlier[i]);
                assert(front.take(r) =~= rules.take(r));
                assert(front[r] == rules[r]);
                assert(gives(rules, text, r, k, toks[i]));
            } else {
                let tok = added[i - earlier.len()];
                assert(toks[i] == tok);
                let k = choose|k: int| collects(rule, text, before, spans, k, tok);
                assert(gives(rules, text, at, k, toks[i]));
            }
        }
        assert forall|r: int, k: int, tok: Token<T>| #[trigger]
            gives(rules, text, r, k, tok) implies toks.contains(tok) by {
            if r < at {
                assert(front.take(r) =~= rules.take(r));
                assert(front[r] == rules[r]);
                assert(gives(front, text, r, k, tok));
                let i = choose|i: int| 0 <= i < earlier.len() && earlier[i] == tok;
                assert(toks[i] == tok);
            } else {
                assert(collects(rule, text, before, spans, k, tok));
                let i = choose|i: int| 0 <= i < added.len() && added[i] == tok;
                assert(toks[earlier.len() + i] == tok);
            }
        }
    }
}

/// The tokens of a scan are the tokens of the matches: each token is what
/// the handler of a rule made of a match of that rule that was unclaimed at
/// its turn, with the span of that match, and each such match has its token
/// in the result.
pub proof fn lemma_scan_exact<T, H: Fn(&Match) -> Option<T>>(rules: Seq<LexerRule<H>>, text: &str)
    ensures
        forall|i: int|
            0 <= i < scan::<T, H>(rules, text).len() ==> stems_from_match(
                rules,
                text,
                #[trigger] scan::<T, H>(rules, text)[i],
            ),
        forall|r: int, k: int, tok: Token<T>| #[trigger]
            gives(rules, text, r, k, tok) ==> scan::<T, H>(rules, text).contains(tok),
{
    let toks = collected::<T, H>(rules, text);
    let sorted = scan::<T, H>(rules, text);
    lemma_collected_exact::<T, H>(rules, text);
    lemma_sort_members(toks);
    assert forall|i: int| 0 <= i < sorted.len() implies stems_from_match(
        rules,
        text,
        #[trigger] sorted[i],
    ) by {
        assert(toks.contains(sorted[i]));
        let j = choose|j: int| 0 <= j < toks.len() && toks[j] == sorted[i];
        let (r, k) = choose|r: int, k: int| gives(rules, text, r, k, toks[j]);
        assert(gives(rules, text, r, k, sorted[i]));
    }
    assert forall|r: int, k: int, tok: Token<T>| #[trigger]
        gives(rules, text, r, k, tok) implies sorted.contains(tok) by {
        assert(toks.contains(tok));
        let j = choose|j: int| 0 <= j < toks.len() && toks[j] == tok;
        assert(sorted.contains(toks[j]));
    }
}

/// Priority, told of the tokens. A token of the scan that shares a position
/// with a match stems from that match or from one that had its turn before
/// it: what a match has touched never goes to a later rule, nor to a later
/// match of its own rule.
pub proof fn lemma_overlapping_token_is_not_later<T, H: Fn(&Match) -> Option<T>>(
    rules: Seq<LexerRule<H>>,
    text: &str,
    r1: int,
    k1: int,
    i: int,
) -> (origin: (int, int))
    requires
        is_match(rules, text, r1, k1),
        0 <= i < scan::<T, H>(rules, text).len(),
        scan::<T, H>(rules, text)[i].span().overlaps(rules[r1].matches(text)[k1]),
    ensures
        gives(rules, text, origin.0, origin.1, scan::<T, H>(rules, text)[i]),
        origin.0 < r1 || (origin.0 == r1 && origin.1 <= k1),
{
    let tok = scan::<T, H>(rules, text)[i];
    lemma_scan_exact::<T, H>(rules, text);
    assert(stems_from_match(rules, text, tok));
    let (r, k) = choose|r: int, k: int| gives(rules, text, r, k, tok);
    if r1 < r || (r1 == r && k1 < k) {
        let p = choose|p: int|
            tok.span().positions().contains(p) && rules[r1].matches(text)[k1].positions().contains(
                p,
            );
        assert(rules[r].matches(text)[k].positions().contains(p));
        lemma_earlier_match_wins::<T, H>(rules, text, r1, k1, r, k);
    }
    (r, k)
}

/// Non-overlap. No two tokens of a scan share a position of the text.
pub proof fn lemma_scan_apart<T, H: Fn(&Match) -> Option<T>>(rules: Seq<LexerRule<H>>, text: &str)
    ensures
        apart(scan::<T, H>(rules, text)),
{
    lemma_collected_bounds::<T, H>(rules, text);
    lemma_sort_apart(collected::<T, H>(rules, text));
}

/// Ordering. No token of a scan starts before one that stands in front of
/// it.
pub proof fn lemma_scan_ordered<T, H: Fn(&Match) -> Option<T>>(
    rules: Seq<LexerRule<H>>,
    text: &str,
)
    ensures
        ordered_by_start(scan::<T, H>(rules, text)),
{
    lemma_sort_ordered(collected::<T, H>(rules, text));
}

/// Determinism. Two lists of the same rules give the same tokens for the
/// same text.
pub proof fn lemma_scan_deterministic<T, H: Fn(&Match) -> Option<T>>(
    first: Seq<LexerRule<H>>,
    second: Seq<LexerRule<H>>,
    text: &str,
)
    requires
        first.len() == second.len(),
        forall|r: int| 0 <= r < first.len() ==> first[r] == second[r],
    ensures
        scan::<T, H>(first, text) == scan::<T, H>(second, text),
{
    assert(first =~= second);
}

/// Suppression. Where a match with at least one position is unclaimed at
/// its turn and the handler of its rule returns `None` for it, no token of
/// the scan has the span of that match.
pub proof fn lemma_suppressed_match_gives_no_token<T, H: Fn(&Match) -> Option<T>>(
    rules: Seq<LexerRule<H>>,
    text: &str,
    r: int,
    k: int,
)
    requires
        is_match(rules, text, r, k),
        unclaimed(rules, text, r, k),
        rules[r].matches(text)[k].start < rules[r].matches(text)[k].end,
        classify::<T, H>(rules[r].handler, match_at(text, rules[r].matches(text)[k])) is None,
    ensures
        forall|i: int|
            0 <= i < scan::<T, H>(rules, text).len() ==> (#[trigger] scan::<T, H>(
                rules,
                text,
            )[i]).span() != rules[r].matches(text)[k],
{
    let toks = scan::<T, H>(rules, text);
    let target = rules[r].matches(text)[k];
    lemma_scan_exact::<T, H>(rules, text);
    assert forall|i: int| 0 <= i < toks.len() implies (#[trigger] toks[i]).span() != target by {
        if toks[i].span() == target {
            assert(stems_from_match(rules, text, toks[i]));
            let (q, j) = choose|q: int, j: int| gives(rules, text, q, j, toks[i]);
            assert(rules[q].matches(text)[j] == target);
            assert(target.positions().contains(target.start as int));
            if r < q || (r == q && k < j) {
                lemma_earlier_match_wins::<T, H>(rules, text, r, k, q, j);
            } else if q < r || (q == r && j < k) {
                lemma_earlier_match_wins::<T, H>(rules, text, q, j, r, k);
            }
        }
    }
}

/// Within one rule: where the handler returns `None` for each span, the
/// rule gives no token.
proof fn lemma_collect_nothing<T, H: Fn(&Match) -> Option<T>>(
    rule: LexerRule<H>,
    text: &str,
    claimed: Set<int>,
    spans: Seq<Span>,
)
    requires
        forall|k: int|
            0 <= k < spans.len() ==> classify::<T, H>(
                rule.handler,
                match_at(text, #[trigger] spans[k]),
            ) is None,
    ensures
        rule.collect(text, claimed, spans) == Seq::<Token<T>>::empty(),
    decreases spans.len(),
{
    if spans.len() > 0 {
        let front = spans.drop_last();
        assert forall|k: int| 0 <= k < front.len() implies classify::<T, H>(
            rule.handler,
            match_at(text, #[trigger] front[k]),
        ) is None by {
            assert(front[k] == spans[k]);
        }
        lemma_collect_nothing(rule, text, claimed, front);
        assert(spans.last() == spans[spans.len() - 1]);
    }
}

/// Where the handlers return `None` for every match of every rule, a scan
/// gives no token.
pub proof fn lemma_nothing_classified_no_tokens<T, H: Fn(&Match) -> Option<T>>(
    rules: Seq<LexerRule<H>>,
    text: &str,
)
    requires
        forall|r: int, k: int| #[trigger]
            is_match(rules, text, r, k) ==> classify::<T, H>(
                rules[r].handler,
                match_at(text, rules[r].matches(text)[k]),
            ) is None,
    ensures
        scan::<T, H>(rules, text) == Seq::<Token<T>>::empty(),
    decreases rules.len(),
{
    if rules.len() > 0 {
        let front = rules.drop_last();
        let rule = rules.last();
        assert forall|r: int, k: int| #[trigger] is_match(front, text, r, k) implies classify::<
            T,
            H,
        >(front[r].handler, match_at(text, front[r].matches(text)[k])) is None by {
            assert(front[r] == rules[r]);
            assert(is_match(rules, text, r, k));
        }
        lemma_nothing_classified_no_tokens::<T, H>(front, text);
        assert forall|k: int| 0 <= k < rule.matches(text).len() implies classify::<T, H>(
            rule.handler,
            match_at(text, #[trigger] rule.matches(text)[k]),
        ) is None by {
            assert(is_match(rules, text, rules.len() - 1, k));
        }
        lemma_collect_nothing(rule, text, claimed_by(front, text), rule.matches(text));
        assert(collected::<T, H>(rules, text) =~= Seq::<Token<T>>::empty());
    }
}

/// An empty text gives no token, unless a pattern matches in it and the
/// handler makes a token of that match.
pub proof fn lemma_empty_text_no_tokens<T, H: Fn(&Match) -> Option<T>>(
    rules: Seq<LexerRule<H>>,
    text: &str,
)
    requires
        text@.len() == 0,
        forall|r: int, k: int| #[trigger]
            is_match(rules, text, r, k) ==> classify::<T, H>(
                rules[r].handler,
                match_at(text, rules[r].matches(text)[k]),
            ) is None,
    ensures
        scan::<T, H>(rules, text) == Seq::<Token<T>>::empty(),
{
    lemma_nothing_classified_no_tokens::<T, H>(rules, text);
}

/// Without rules a scan gives no token, whatever the text.
pub proof fn lemma_no_rules_no_tokens<T, H: Fn(&Match) -> Option<T>>(
    rules: Seq<LexerRule<H>>,
    text: &str,
)
    requires
        rules.len() == 0,
    ensures
        scan::<T, H>(rules, text) == Seq::<Token<T>>::empty(),
{
}

} // verus!
