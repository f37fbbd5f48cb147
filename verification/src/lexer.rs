//! The scanner: an ordered list of rules, and the scan of a text with them.

use vstd::prelude::*;
use crate::claims::claimed_positions;
use crate::engine::{compile, describe, find_spans, pattern_compiles, regex_source};
use crate::laws::{gives, lemma_scan_apart, lemma_scan_exact, stems_from_match};
use crate::rule::{LexerRule, answers, is_classifier};
use crate::scan::{claimed_by, collected, is_match, scan, unclaimed};
use crate::span::{Match, byte_len, match_at, span_in_text};
use crate::token::{Token, apart, lemma_sort_ordered, ordered_by_start, sort_tokens};

verus! {

/// Why a pattern was not taken as a rule.
#[derive(Debug)]
pub struct PatternError {
    /// The message with which the pattern was rejected.
    pub message: String,
}

/// An ordered list of rules. The order is that of their registration, and
/// it decides which rule has the first claim on a position of the text.
#[derive(Debug)]
pub struct Lexer<H> {
    rules: Vec<LexerRule<H>>,
}

impl<H> View for Lexer<H> {
    type V = Seq<LexerRule<H>>;

    closed spec fn view(&self) -> Seq<LexerRule<H>> {
        self.rules@
    }
}

/// Whether `after` is the list `before` with one rule behind it that holds
/// `handler` and a regex compiled from `pat`.
pub open spec fn is_extension<H>(
    after: Seq<LexerRule<H>>,
    before: Seq<LexerRule<H>>,
    pat: Seq<char>,
    handler: H,
) -> bool {
    &&& after.len() == before.len() + 1
    &&& after.drop_last() == before
    &&& after.last().handler == handler
    &&& regex_source(after.last().pat) == pat
}

impl<T, H: Fn(&Match) -> Option<T>> Lexer<H> {
    /// A lexer is well formed when each of its rules is.
    pub open spec fn wf(self) -> bool {
        forall|r: int| 0 <= r < self@.len() ==> (#[trigger] self@[r]).wf()
    }

    /// Creates a lexer without rules.
    pub fn new() -> (lexer: Self)
        ensures
            lexer@ == Seq::<LexerRule<H>>::empty(),
            lexer.wf(),
    {
        Lexer { rules: Vec::new() }
    }

    /// Adds a rule behind those that are registered: the pattern `pat`,
    /// compiled, with `handler` for its matches.
    pub fn rule(&mut self, pat: &str, handler: H)
        requires
            old(self).wf(),
            is_classifier::<T, H>(handler),
            pattern_compiles(pat@),
        ensures
            final(self).wf(),
            is_extension(final(self)@, old(self)@, pat@, handler),
    {
        match compile(pat) {
            Ok(pat) => {
                self.rules.push(LexerRule { pat, handler });
                proof {
                    assert(self@.drop_last() =~= old(self)@);
                }
            },
            Err(_) => {
                vstd::pervasive::unreached()
            },
        }
    }

    /// Adds a rule as [`Lexer::rule`] does where the pattern compiles, and
    /// leaves the lexer as it is where it does not.
    pub fn try_rule(&mut self, pat: &str, handler: H) -> (added: Result<(), PatternError>)
        requires
            old(self).wf(),
            is_classifier::<T, H>(handler),
        ensures
            final(self).wf(),
            added is Ok <==> pattern_compiles(pat@),
            added is Ok ==> is_extension(final(self)@, old(self)@, pat@, handler),
            added is Err ==> final(self)@ == old(self)@,
    {
        match compile(pat) {
            Ok(_) => {
                self.rule(pat, handler);
                Ok(())
            },
            Err(err) => Err(PatternError { message: describe(&err) }),
        }
    }

    /// Scans `s` with the registered rules, which stay as they are, and
    /// returns the tokens, ordered by their start. No two of the tokens
    /// share a position of `s`, and the span of each fits `s`. The handler
    /// of a rule has answered for each match of the rule that was unclaimed
    /// at its turn.
    pub fn lex(&mut self, s: &str) -> (toks: Vec<Token<T>>)
        requires
            old(self).wf(),
        ensures
            *final(self) == *old(self),
            toks@ == scan::<T, H>(old(self)@, s),
            ordered_by_start(toks@),
            apart(toks@),
            forall|i: int| 0 <= i < toks@.len() ==> span_in_text((#[trigger] toks@[i]).span(), s@),
            forall|r: int, k: int|
                #![trigger is_match(old(self)@, s, r, k)]
                is_match(old(self)@, s, r, k) && unclaimed(old(self)@, s, r, k) ==> answers::<T, H>(
                    old(self)@[r].handler,
                    match_at(s, old(self)@[r].matches(s)[k]),
                ),
    {
        let mut toks: Vec<Token<T>> = Vec::new();
        let mut matched = vec![false; s.as_bytes().len()];
        proof {
            assert(claimed_positions(matched@) =~= Set::<int>::empty());
            assert(self@.take(0) =~= Seq::<LexerRule<H>>::empty());
        }
        let mut r: usize = 0;
        while r < self.rules.len()
            invariant
                self.wf(),
                *self == *old(self),
                r <= self.rules.len(),
                matched.len() == byte_len(s@),
                claimed_positions(matched@) == claimed_by(self@.take(r as int), s),
                toks@ == collected::<T, H>(self@.take(r as int), s),
                forall|q: int, k: int|
                    0 <= q < r && 0 <= k < self@[q].matches(s).len() ==> span_in_text(
                        #[trigger] self@[q].matches(s)[k],
                        s@,
                    ),
                forall|q: int, k: int|
                    #![trigger is_match(self@, s, q, k)]
                    q < r && is_match(self@, s, q, k) && unclaimed(self@, s, q, k) ==> answers::<
                        T,
                        H,
                    >(self@[q].handler, match_at(s, self@[q].matches(s)[k])),
            decreases self.rules.len() - r,
        {
            let rule = &self.rules[r];
            proof {
                assert(self@[r as int].wf());
                assert(self@.take(r + 1).drop_last() =~= self@.take(r as int));
                assert(self@.take(r + 1).last() == *rule);
            }
            let spans = find_spans(&rule.pat, s);
            rule.claim_matches(s, &spans, &mut matched, &mut toks);
            r += 1;
        }
        proof {
            assert(self@.take(r as int) =~= self@);
            lemma_sort_ordered(toks@);
            lemma_scan_apart::<T, H>(self@, s);
            lemma_scan_exact::<T, H>(self@, s);
            let sorted = scan::<T, H>(self@, s);
            assert forall|i: int| 0 <= i < sorted.len() implies span_in_text(
                (#[trigger] sorted[i]).span(),
                s@,
            ) by {
                assert(stems_from_match(self@, s, sorted[i]));
                let (q, k) = choose|q: int, k: int| gives(self@, s, q, k, sorted[i]);
                assert(sorted[i].span() == self@[q].matches(s)[k]);
            }
        }
        sort_tokens(&mut toks);
        toks
    }
}

} // verus!
