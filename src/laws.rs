//! Properties of the token stream, stated over its model and proved.

use vstd::prelude::*;
use vstd::utf8::*;
use crate::offsets::{
    byte_offset,
    lemma_byte_offset_boundary,
    lemma_byte_offset_mono,
    lemma_encode_take,
};
use crate::token::{span_valid, spans_valid, token_for, token_views, tokens_of, Token, TokenView};

verus! {

/// The terms of a token stream written one after another.
pub open spec fn joined_terms(ts: Seq<TokenView>) -> Seq<char>
    decreases ts.len(),
{
    if ts.len() == 0 {
        Seq::empty()
    } else {
        joined_terms(ts.drop_last()) + ts.last().term
    }
}

/// The parts of `s` that the spans name, written one after another.
pub open spec fn joined_spans(s: Seq<char>, spans: Seq<(usize, usize)>) -> Seq<char>
    decreases spans.len(),
{
    if spans.len() == 0 {
        Seq::empty()
    } else {
        joined_spans(s, spans.drop_last()) + s.subrange(spans.last().0 as int, spans.last().1 as int)
    }
}

/// The spans cover `s` from its start to its end, each beginning where the
/// one before it ends.
pub open spec fn spans_tile(s: Seq<char>, spans: Seq<(usize, usize)>) -> bool {
    if spans.len() == 0 {
        s.len() == 0
    } else {
        &&& spans[0].0 == 0
        &&& spans.last().1 == s.len()
        &&& forall|k: int| 0 <= k < spans.len() - 1 ==> (#[trigger] spans[k]).1 == spans[k + 1].0
    }
}

/// The bytes of the characters `[i, j)` of `s` are the bytes of its encoding
/// between their offsets.
pub proof fn lemma_encode_subrange(s: Seq<char>, i: int, j: int)
    requires
        0 <= i <= j <= s.len(),
    ensures
        encode_utf8(s.subrange(i, j)) == encode_utf8(s).subrange(byte_offset(s, i), byte_offset(s, j)),
{
    let p = s.take(j);
    lemma_encode_take(s, j);
    lemma_encode_take(p, i);
    assert(p.take(i) =~= s.take(i));
    assert(p.skip(i) =~= s.subrange(i, j));
    lemma_byte_offset_mono(s, i, j);
    assert(encode_utf8(s).take(byte_offset(s, j)).skip(byte_offset(s, i))
        =~= encode_utf8(s).subrange(byte_offset(s, i), byte_offset(s, j)));
}

/// Every token lies within the text: its start is at most its end, its end
/// at most the text's byte length, both fall on character boundaries, and the
/// term is exactly the text's bytes between them.
pub proof fn lemma_tokens_within_text(s: Seq<char>, spans: Seq<(usize, usize)>)
    requires
        spans_valid(s, spans),
    ensures
        forall|k: int|
            #![trigger tokens_of(s, spans)[k]]
            0 <= k < spans.len() ==> {
                let t = tokens_of(s, spans)[k];
                &&& 0 <= t.start_offset <= t.end_offset <= encode_utf8(s).len()
                &&& is_char_boundary(encode_utf8(s), t.start_offset)
                &&& is_char_boundary(encode_utf8(s), t.end_offset)
                &&& encode_utf8(t.term) == encode_utf8(s).subrange(t.start_offset, t.end_offset)
            },
{
    assert forall|k: int| #![trigger tokens_of(s, spans)[k]] 0 <= k < spans.len() implies {
        let t = tokens_of(s, spans)[k];
        &&& 0 <= t.start_offset <= t.end_offset <= encode_utf8(s).len()
        &&& is_char_boundary(encode_utf8(s), t.start_offset)
        &&& is_char_boundary(encode_utf8(s), t.end_offset)
        &&& encode_utf8(t.term) == encode_utf8(s).subrange(t.start_offset, t.end_offset)
    } by {
        let (a, b) = spans[k];
        assert(span_valid(s, spans[k]));
        lemma_byte_offset_mono(s, 0, a as int);
        lemma_byte_offset_mono(s, a as int, b as int);
        lemma_byte_offset_mono(s, b as int, s.len() as int);
        lemma_byte_offset_boundary(s, a as int);
        lemma_byte_offset_boundary(s, b as int);
        lemma_encode_subrange(s, a as int, b as int);
    }
}

/// Positions run `0, 1, ..., n - 1` in stream order, one token per span.
pub proof fn lemma_positions_contiguous(s: Seq<char>, spans: Seq<(usize, usize)>)
    ensures
        tokens_of(s, spans).len() == spans.len(),
        forall|k: int| 0 <= k < spans.len() ==> #[trigger] tokens_of(s, spans)[k].position == k,
{
}

/// An empty text gives an empty token stream: no span lies within it.
pub proof fn lemma_empty_text(spans: Seq<(usize, usize)>)
    requires
        spans_valid(Seq::<char>::empty(), spans),
    ensures
        tokens_of(Seq::<char>::empty(), spans).len() == 0,
{
    if spans.len() > 0 {
        assert(span_valid(Seq::<char>::empty(), spans[0]));
    }
}

/// Spans that coincide or overlap give tokens that coincide or overlap in
/// the same way, each kept with a position of its own: nothing is merged.
pub proof fn lemma_overlaps_kept(s: Seq<char>, spans: Seq<(usize, usize)>, a: int, b: int)
    requires
        spans_valid(s, spans),
        0 <= a < spans.len(),
        0 <= b < spans.len(),
        a != b,
    ensures
        tokens_of(s, spans)[a].position != tokens_of(s, spans)[b].position,
        spans[a] == spans[b] ==> {
            &&& tokens_of(s, spans)[a].start_offset == tokens_of(s, spans)[b].start_offset
            &&& tokens_of(s, spans)[a].end_offset == tokens_of(s, spans)[b].end_offset
            &&& tokens_of(s, spans)[a].term == tokens_of(s, spans)[b].term
        },
        (spans[a].0 < spans[b].1 && spans[b].0 < spans[a].1) ==> {
            &&& tokens_of(s, spans)[a].start_offset < tokens_of(s, spans)[b].end_offset
            &&& tokens_of(s, spans)[b].start_offset < tokens_of(s, spans)[a].end_offset
        },
{
    assert(span_valid(s, spans[a]));
    assert(span_valid(s, spans[b]));
    if spans[a].0 < spans[b].1 {
        lemma_byte_offset_mono(s, spans[a].0 as int, spans[b].1 as int);
    }
    if spans[b].0 < spans[a].1 {
        lemma_byte_offset_mono(s, spans[b].0 as int, spans[a].1 as int);
    }
}

/// The stream follows the spans' order: the `k`-th token comes from the
/// `k`-th span, and the spans emitted first give the tokens emitted first.
pub proof fn lemma_span_order_kept(s: Seq<char>, spans: Seq<(usize, usize)>, n: int)
    requires
        0 <= n <= spans.len(),
    ensures
        tokens_of(s, spans.take(n)) == tokens_of(s, spans).take(n),
        forall|k: int| 0 <= k < spans.len() ==> #[trigger] tokens_of(s, spans)[k] == token_for(s, spans[k], k),
{
    assert(tokens_of(s, spans.take(n)) =~= tokens_of(s, spans).take(n));
}

/// Writing the terms out in position order gives the parts of the text that
/// the spans name, in the spans' order.
pub proof fn lemma_joined_terms(s: Seq<char>, spans: Seq<(usize, usize)>)
    ensures
        joined_terms(tokens_of(s, spans)) == joined_spans(s, spans),
    decreases spans.len(),
{
    if spans.len() > 0 {
        let shorter = spans.drop_last();
        lemma_joined_terms(s, shorter);
        assert(tokens_of(s, spans).drop_last() =~= tokens_of(s, shorter));
    }
}

/// Where the spans tile the text, writing the terms out in position order
/// gives the text back.
pub proof fn lemma_tiling_round_trip(s: Seq<char>, spans: Seq<(usize, usize)>)
    requires
        spans_valid(s, spans),
        spans_tile(s, spans),
    ensures
        joined_terms(tokens_of(s, spans)) == s,
{
    lemma_joined_terms(s, spans);
    if spans.len() == 0 {
        assert(s =~= Seq::<char>::empty());
    } else {
        lemma_joined_prefix(s, spans, spans.len() as int);
        assert(spans.take(spans.len() as int) =~= spans);
        assert(s.subrange(0, s.len() as int) =~= s);
    }
}

/// The first `m` spans of a tiling join to the text up to the end of the
/// `m`-th span.
proof fn lemma_joined_prefix(s: Seq<char>, spans: Seq<(usize, usize)>, m: int)
    requires
        spans_valid(s, spans),
        spans_tile(s, spans),
        1 <= m <= spans.len(),
    ensures
        joined_spans(s, spans.take(m)) == s.subrange(0, spans[m - 1].1 as int),
    decreases m,
{
    let p = spans.take(m);
    assert(span_valid(s, spans[m - 1]));
    assert(p.drop_last() =~= spans.take(m - 1));
    assert(p.last() == spans[m - 1]);
    assert(joined_spans(s, p) == joined_spans(s, spans.take(m - 1)) + s.subrange(
        spans[m - 1].0 as int,
        spans[m - 1].1 as int,
    ));
    if m == 1 {
        assert(spans.take(0) =~= Seq::<(usize, usize)>::empty());
        assert(joined_spans(s, spans.take(0)) == Seq::<char>::empty());
        assert(s.subrange(0, spans[0].1 as int) =~= Seq::<char>::empty() + s.subrange(0, spans[0].1 as int));
    } else {
        lemma_joined_prefix(s, spans, m - 1);
        assert(spans[m - 2].1 == spans[m - 1].0);
        assert(span_valid(s, spans[m - 2]));
        assert(s.subrange(0, spans[m - 1].1 as int) =~= s.subrange(0, spans[m - 2].1 as int)
            + s.subrange(spans[m - 1].0 as int, spans[m - 1].1 as int));
    }
}

/// Producing tokens twice from the same text and the same spans gives the
/// same stream: the same terms, offsets and positions. The tokenizer's spans
/// are `search_spans_of` of the text alone, so two of its calls on one text,
/// by the same tokenizer or by any other, agree in this way.
pub proof fn lemma_same_input_same_tokens<'a, 'b>(
    text1: &'a str,
    text2: &'b str,
    spans: Seq<(usize, usize)>,
    r1: Seq<Token<'a>>,
    r2: Seq<Token<'b>>,
)
    requires
        text1@ == text2@,
        token_views(r1) == tokens_of(text1@, spans),
        token_views(r2) == tokens_of(text2@, spans),
    ensures
        r1.len() == r2.len(),
        forall|k: int|
            #![trigger r1[k], r2[k]]
            0 <= k < r1.len() ==> {
                &&& r1[k].term@ == r2[k].term@
                &&& r1[k].start_offset == r2[k].start_offset
                &&& r1[k].end_offset == r2[k].end_offset
                &&& r1[k].position == r2[k].position
            },
{
    assert(token_views(r1).len() == r1.len());
    assert(token_views(r2).len() == r2.len());
    assert forall|k: int| #![trigger r1[k], r2[k]] 0 <= k < r1.len() implies {
        &&& r1[k].term@ == r2[k].term@
        &&& r1[k].start_offset == r2[k].start_offset
        &&& r1[k].end_offset == r2[k].end_offset
        &&& r1[k].position == r2[k].position
    } by {
        assert(token_views(r1)[k] == r1[k]@);
        assert(token_views(r2)[k] == r2[k]@);
    }
}

} // verus!
