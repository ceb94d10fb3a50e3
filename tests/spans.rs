use jieba_tokenizer::offsets::offset_index;
use jieba_tokenizer::token::{emit_tokens, spans_in_range, tokens_from_spans, Token};

fn parts<'a>(tokens: &[Token<'a>]) -> Vec<(&'a str, usize, usize, usize)> {
    tokens.iter().map(|t| (t.term, t.start_offset, t.end_offset, t.position)).collect()
}

#[test]
fn spans_tiling_the_text() {
    let text = "你今天很帅！";
    let tokens = tokens_from_spans(text, &vec![(0, 1), (1, 3), (3, 5), (5, 6)]).unwrap();
    assert_eq!(
        parts(&tokens),
        vec![("你", 0, 3, 0), ("今天", 3, 9, 1), ("很帅", 9, 15, 2), ("！", 15, 18, 3)]
    );
    let joined: String = tokens.iter().map(|t| t.term).collect();
    assert_eq!(joined, text);
}

#[test]
fn nested_and_repeated_spans_are_all_kept() {
    let text = "长江大桥";
    let tokens = tokens_from_spans(text, &vec![(0, 2), (2, 4), (0, 4), (0, 4)]).unwrap();
    assert_eq!(
        parts(&tokens),
        vec![("长江", 0, 6, 0), ("大桥", 6, 12, 1), ("长江大桥", 0, 12, 2), ("长江大桥", 0, 12, 3)]
    );
}

#[test]
fn order_of_spans_is_kept() {
    let text = "ab你";
    let tokens = tokens_from_spans(text, &vec![(2, 3), (0, 1), (1, 3)]).unwrap();
    assert_eq!(parts(&tokens), vec![("你", 2, 5, 0), ("a", 0, 1, 1), ("b你", 1, 5, 2)]);
}

#[test]
fn skipped_text_is_left_out() {
    let text = "a，b";
    let tokens = tokens_from_spans(text, &vec![(0, 1), (2, 3)]).unwrap();
    assert_eq!(parts(&tokens), vec![("a", 0, 1, 0), ("b", 4, 5, 1)]);
}

#[test]
fn last_span_reaches_the_sentinel() {
    let text = "é😀";
    let tokens = tokens_from_spans(text, &vec![(1, 2)]).unwrap();
    assert_eq!(parts(&tokens), vec![("😀", 2, 6, 0)]);
}

#[test]
fn empty_text_without_spans() {
    assert!(tokens_from_spans("", &vec![]).unwrap().is_empty());
}

#[test]
fn no_spans_no_tokens() {
    assert!(tokens_from_spans("你好", &vec![]).unwrap().is_empty());
}

#[test]
fn span_past_the_end_is_refused() {
    assert!(tokens_from_spans("你好", &vec![(0, 1), (1, 3)]).is_none());
    assert!(tokens_from_spans("", &vec![(0, 1)]).is_none());
}

#[test]
fn empty_or_reversed_span_is_refused() {
    assert!(tokens_from_spans("你好", &vec![(1, 1)]).is_none());
    assert!(tokens_from_spans("你好", &vec![(2, 1)]).is_none());
}

#[test]
fn spans_in_range_checks_every_span() {
    assert!(spans_in_range(2, &vec![(0, 1), (0, 2), (1, 2)]));
    assert!(spans_in_range(0, &vec![]));
    assert!(!spans_in_range(2, &vec![(0, 1), (2, 3)]));
    assert!(!spans_in_range(2, &vec![(1, 1)]));
    assert!(!spans_in_range(2, &vec![(2, 1)]));
}

#[test]
fn emit_tokens_reads_the_offset_index() {
    let text = "a你b";
    let offsets = offset_index(text);
    let tokens = emit_tokens(text, &offsets, &vec![(1, 2), (0, 3)]);
    assert_eq!(parts(&tokens), vec![("你", 1, 4, 0), ("a你b", 0, 5, 1)]);
}
