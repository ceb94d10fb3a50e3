//! The tokenizer that segments text with jieba's dictionary segmenter.

use vstd::prelude::*;
use vstd::utf8::encode_utf8;
use jieba_rs::Jieba;
use crate::laws::lemma_empty_text;
use crate::offsets::offset_index;
use crate::token::{emit_tokens, spans_valid, token_views, tokens_of, Token};

verus! {

/// The segmenter, held as an opaque value.
#[verifier::external_type_specification]
#[verifier::external_body]
pub struct ExJieba(Jieba);

/// Relies on jieba_rs::Jieba::new: it builds a segmenter over the embedded
/// default dictionary; nothing is stated of its contents.
pub assume_specification[ Jieba::new ]() -> Jieba;

/// Relies on jieba_rs::Jieba's derived `Clone`, which copies the dictionary;
/// nothing is stated of the copy.
pub assume_specification[ <Jieba as Clone>::clone ](j: &Jieba) -> Jieba;

/// The character spans that jieba's search mode, over its default
/// dictionary and with the HMM for unknown words, emits on a text, in order.
pub uninterp spec fn search_spans_of(s: Seq<char>) -> Seq<(usize, usize)>;

/// Segments text in search mode, which emits both compound words and the
/// words inside them, and turns the result into byte-offset tokens.
#[derive(Clone)]
pub struct JiebaTokenizer {
    jieba: Jieba,
}

impl JiebaTokenizer {
    /// Relies on jieba_rs::Jieba::tokenize in search mode, with the HMM on,
    /// over the default dictionary (the only one a tokenizer is built with):
    /// the character span (`start`, `end`) of each word it emits, in emission
    /// order. Each base word covers at least one character of the text and
    /// the sub-words lie inside their word. jieba records a character's byte
    /// offset within a run as a `u32`, hence the bound on the text's length.
    #[verifier::external_body]
    fn search_spans(&self, text: &str) -> (r: Vec<(usize, usize)>)
        requires
            encode_utf8(text@).len() <= u32::MAX,
        ensures
            r@ == search_spans_of(text@),
            spans_valid(text@, r@),
    {
        self.jieba.tokenize(text, jieba_rs::TokenizeMode::Search, true).into_iter().map(|t| (t.start, t.end)).collect()
    }

    /// A tokenizer over jieba's default dictionary.
    pub fn new() -> (r: JiebaTokenizer) {
        JiebaTokenizer { jieba: Jieba::new() }
    }

    /// The token stream of `text`: one token per span that the segmenter
    /// emits, in its order, positions counted from 0.
    pub fn tokenize<'a>(&self, text: &'a str) -> (r: Vec<Token<'a>>)
        requires
            encode_utf8(text@).len() <= u32::MAX,
        ensures
            spans_valid(text@, search_spans_of(text@)),
            token_views(r@) == tokens_of(text@, search_spans_of(text@)),
            text@.len() == 0 ==> r@.len() == 0,
    {
        let spans = self.search_spans(text);
        let offsets = offset_index(text);
        let r = emit_tokens(text, &offsets, &spans);
        proof {
            assert(token_views(r@).len() == r@.len());
            if text@.len() == 0 {
                assert(text@ =~= Seq::<char>::empty());
                lemma_empty_text(spans@);
            }
        }
        r
    }
}

} // verus!
