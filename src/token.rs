//! Tokens, and their production from the character spans of a segmenter.

use vstd::prelude::*;
use vstd::utf8::*;
use crate::offsets::{
    byte_offset,
    lemma_byte_offset_boundary,
    lemma_byte_offset_mono,
    lemma_encode_injective,
    lemma_encode_take,
    offset_index,
};

verus! {

/// A term of the text: a borrowed slice, its byte bounds in the text, and its
/// ordinal in the token stream.
#[derive(Debug, Clone, Copy)]
pub struct Token<'a> {
    pub term: &'a str,
    pub start_offset: usize,
    pub end_offset: usize,
    pub position: usize,
}

/// The mathematical content of a token.
pub struct TokenView {
    pub term: Seq<char>,
    pub start_offset: int,
    pub end_offset: int,
    pub position: int,
}

impl<'a> View for Token<'a> {
    type V = TokenView;

    open spec fn view(&self) -> TokenView {
        TokenView {
            term: self.term@,
            start_offset: self.start_offset as int,
            end_offset: self.end_offset as int,
            position: self.position as int,
        }
    }
}

/// The views of a sequence of tokens.
pub open spec fn token_views<'a>(toks: Seq<Token<'a>>) -> Seq<TokenView> {
    toks.map_values(|t: Token<'a>| t@)
}

/// A span `[start, end)` of character ordinals that names a non-empty word of `s`.
pub open spec fn span_valid(s: Seq<char>, span: (usize, usize)) -> bool {
    span.0 < span.1 <= s.len()
}

/// Every span lies within `s`.
pub open spec fn spans_valid(s: Seq<char>, spans: Seq<(usize, usize)>) -> bool {
    forall|k: int| 0 <= k < spans.len() ==> span_valid(s, #[trigger] spans[k])
}

/// The token that the span emitted `k`-th gives on the text `s`.
pub open spec fn token_for(s: Seq<char>, span: (usize, usize), k: int) -> TokenView {
    TokenView {
        term: s.subrange(span.0 as int, span.1 as int),
        start_offset: byte_offset(s, span.0 as int),
        end_offset: byte_offset(s, span.1 as int),
        position: k,
    }
}

/// The token stream for the spans of `s`, one token per span, in span order.
pub open spec fn tokens_of(s: Seq<char>, spans: Seq<(usize, usize)>) -> Seq<TokenView> {
    Seq::new(spans.len(), |k: int| token_for(s, spans[k], k))
}

/// The offset index of `s` as the builder leaves it.
pub open spec fn is_offset_index(s: Seq<char>, offsets: Seq<usize>) -> bool {
    &&& offsets.len() == s.len() + 1
    &&& forall|i: int| 0 <= i <= s.len() ==> offsets[i] as int == byte_offset(s, i)
}

/// Cuts `text` at the byte offsets of the character ordinals `i` and `j`.
fn slice_between<'a>(text: &'a str, start: usize, end: usize, i: Ghost<int>, j: Ghost<int>) -> (r: &'a str)
    requires
        0 <= i@ <= j@ <= text@.len(),
        start as int == byte_offset(text@, i@),
        end as int == byte_offset(text@, j@),
    ensures
        r@ == text@.subrange(i@, j@),
{
    let ghost s = text@;
    proof {
        lemma_byte_offset_boundary(s, j@);
        lemma_byte_offset_mono(s, j@, s.len() as int);
        lemma_encode_take(s, j@);
    }
    let (head, _tail) = text.split_at(end);
    proof {
        assert(encode_utf8(head@) == encode_utf8(s.take(j@)));
        lemma_encode_injective(head@, s.take(j@));
        assert(head@.take(i@) =~= s.take(i@));
        lemma_byte_offset_boundary(head@, i@);
        lemma_byte_offset_mono(head@, i@, head@.len() as int);
        lemma_encode_take(head@, i@);
    }
    let (_lead, r) = head.split_at(start);
    proof {
        assert(encode_utf8(r@) == encode_utf8(head@.skip(i@)));
        lemma_encode_injective(r@, head@.skip(i@));
        assert(head@.skip(i@) =~= s.subrange(i@, j@));
    }
    r
}

/// Turns each span, in the order given, into the token that it names: the
/// span's ends are looked up in the offset index, the term is the text between
/// them, and the position counts the tokens emitted before it.
pub fn emit_tokens<'a>(text: &'a str, offsets: &Vec<usize>, spans: &Vec<(usize, usize)>) -> (r: Vec<Token<'a>>)
    requires
        is_offset_index(text@, offsets@),
        spans_valid(text@, spans@),
    ensures
        token_views(r@) == tokens_of(text@, spans@),
{
    let ghost s = text@;
    let mut r: Vec<Token<'a>> = Vec::new();
    for k in 0..spans.len()
        invariant
            s == text@,
            is_offset_index(s, offsets@),
            spans_valid(s, spans@),
            r@.len() == k,
            forall|m: int| 0 <= m < k ==> (#[trigger] r@[m])@ == token_for(s, spans@[m], m),
    {
        let (start, end) = spans[k];
        assert(span_valid(s, spans@[k as int]));
        let start_offset = offsets[start];
        let end_offset = offsets[end];
        let term = slice_between(text, start_offset, end_offset, Ghost(start as int), Ghost(end as int));
        r.push(Token { term, start_offset, end_offset, position: k });
    }
    assert(token_views(r@) =~= tokens_of(s, spans@));
    r
}

/// Whether every span names a non-empty run of the `n` characters of a text.
pub fn spans_in_range(n: usize, spans: &Vec<(usize, usize)>) -> (b: bool)
    ensures
        b <==> forall|k: int| 0 <= k < spans@.len() ==> (#[trigger] spans@[k]).0 < spans@[k].1 <= n,
{
    for k in 0..spans.len()
        invariant
            forall|m: int| 0 <= m < k ==> (#[trigger] spans@[m]).0 < spans@[m].1 <= n,
    {
        let (start, end) = spans[k];
        if !(start < end && end <= n) {
            return false;
        }
    }
    true
}

/// The token stream of `text` for the spans that a segmenter emitted on it, or
/// `None` when a span does not lie within the text.
pub fn tokens_from_spans<'a>(text: &'a str, spans: &Vec<(usize, usize)>) -> (r: Option<Vec<Token<'a>>>)
    ensures
        r is Some <==> spans_valid(text@, spans@),
        r matches Some(toks) ==> token_views(toks@) == tokens_of(text@, spans@),
{
    let offsets = offset_index(text);
    let n = offsets.len() - 1;
    if spans_in_range(n, spans) {
        Some(emit_tokens(text, &offsets, spans))
    } else {
        None
    }
}

} // verus!
