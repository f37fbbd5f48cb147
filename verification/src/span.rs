//! Byte spans of a text, the positions they cover, and the matches that a
//! handler is given.

use vstd::prelude::*;
use vstd::string::StringSliceAdditionalSpecFns;
use vstd::utf8::{
    decode_utf8, encode_utf8, encode_utf8_decode_utf8, encode_utf8_valid_utf8, is_char_boundary,
    is_char_boundary_iff_not_is_continuation_byte, is_char_boundary_start_end_of_seq,
};

verus! {

/// A half-open range `[start, end)` of byte offsets into a text.
#[derive(Clone, Copy, Debug, PartialEq, Eq)]
pub struct Span {
    pub start: usize,
    pub end: usize,
}

impl Span {
    /// The positions that the span covers. An empty span covers none.
    pub open spec fn positions(self) -> Set<int> {
        Set::new(|p: int| self.start <= p < self.end)
    }

    /// Two spans overlap when they share a position.
    pub open spec fn overlaps(self, other: Span) -> bool {
        exists|p: int| self.positions().contains(p) && other.positions().contains(p)
    }
}

/// Two spans overlap exactly when neither is empty and each starts before
/// the other ends.
pub proof fn lemma_overlaps(a: Span, b: Span)
    ensures
        a.overlaps(b) <==> a.start < a.end && b.start < b.end && a.start < b.end && b.start
            < a.end,
{
    if a.start < a.end && b.start < b.end && a.start < b.end && b.start < a.end {
        let p: int = if a.start < b.start {
            b.start as int
        } else {
            a.start as int
        };
        assert(a.positions().contains(p) && b.positions().contains(p));
    }
}

/// The number of bytes that a text takes, which is the number of its
/// positions.
pub open spec fn byte_len(text: Seq<char>) -> nat {
    encode_utf8(text).len()
}

/// A span fits a text when it is ordered, ends within the text, and starts
/// and ends where a character of the text starts or the text ends.
pub open spec fn span_in_text(span: Span, text: Seq<char>) -> bool {
    &&& span.start <= span.end <= byte_len(text)
    &&& is_char_boundary(encode_utf8(text), span.start as int)
    &&& is_char_boundary(encode_utf8(text), span.end as int)
}

/// A character boundary of a text is one of each prefix of the text that
/// reaches it and itself ends on a character boundary.
proof fn lemma_boundary_in_prefix(text: Seq<char>, head: Seq<char>, start: int, end: int)
    requires
        0 <= start <= end <= encode_utf8(text).len(),
        is_char_boundary(encode_utf8(text), start),
        encode_utf8(head) == encode_utf8(text).subrange(0, end),
    ensures
        is_char_boundary(encode_utf8(head), start),
{
    let bytes = encode_utf8(text);
    let prefix = encode_utf8(head);
    encode_utf8_valid_utf8(text);
    encode_utf8_valid_utf8(head);
    if start == end {
        is_char_boundary_start_end_of_seq(prefix);
    } else {
        is_char_boundary_iff_not_is_continuation_byte(bytes, start);
        is_char_boundary_iff_not_is_continuation_byte(prefix, start);
    }
}

/// One occurrence of a pattern in a text: the text that was searched and the
/// byte offsets between which the pattern matched.
#[derive(Debug)]
pub struct Match<'h> {
    pub haystack: &'h str,
    pub start: usize,
    pub end: usize,
}

impl<'h> Match<'h> {
    /// The span of the match.
    pub open spec fn span(self) -> Span {
        Span { start: self.start, end: self.end }
    }

    /// A match is well formed when its span fits the text it refers to.
    pub open spec fn wf(self) -> bool {
        span_in_text(self.span(), self.haystack@)
    }

    /// The characters of the text between the offsets of the match.
    pub open spec fn matched_text(self) -> Seq<char> {
        decode_utf8(encode_utf8(self.haystack@).subrange(self.start as int, self.end as int))
    }

    /// The byte offset at which the match starts.
    pub fn start(&self) -> (start: usize)
        ensures
            start == self.start,
    {
        self.start
    }

    /// The byte offset just behind the match.
    pub fn end(&self) -> (end: usize)
        ensures
            end == self.end,
    {
        self.end
    }

    /// The part of the text that matched.
    pub fn as_str(&self) -> (text: &'h str)
        requires
            self.wf(),
        ensures
            text@ == self.matched_text(),
    {
        let (head, _) = self.haystack.split_at(self.end);
        proof {
            lemma_boundary_in_prefix(self.haystack@, head@, self.start as int, self.end as int);
        }
        let (_, tail) = head.split_at(self.start);
        proof {
            encode_utf8_decode_utf8(tail@);
            assert(tail.spec_bytes() =~= encode_utf8(self.haystack@).subrange(
                self.start as int,
                self.end as int,
            ));
        }
        tail
    }
}

/// The match that a handler is given for `span` in `text`.
pub open spec fn match_at<'h>(text: &'h str, span: Span) -> Match<'h> {
    Match { haystack: text, start: span.start, end: span.end }
}

} // verus!
