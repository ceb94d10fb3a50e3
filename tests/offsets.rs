use jieba_tokenizer::offsets::{offset_index, utf8_width};

#[test]
fn offset_index_of_three_byte_characters() {
    assert_eq!(offset_index("你今天很帅！"), vec![0, 3, 6, 9, 12, 15, 18]);
}

#[test]
fn offset_index_of_empty_text_is_the_sentinel() {
    assert_eq!(offset_index(""), vec![0]);
}

#[test]
fn offset_index_of_mixed_widths() {
    assert_eq!(offset_index("aé你😀b"), vec![0, 1, 3, 6, 10, 11]);
}

#[test]
fn offset_index_of_ascii() {
    assert_eq!(offset_index("abc"), vec![0, 1, 2, 3]);
}

#[test]
fn utf8_widths_match_the_encoding() {
    for c in ['a', '\u{7f}', '\u{80}', 'é', '\u{7ff}', '\u{800}', '你', '\u{ffff}', '\u{10000}', '😀', '\u{10ffff}'] {
        assert_eq!(utf8_width(c), c.len_utf8(), "{:?}", c);
    }
    assert_eq!(utf8_width('a'), 1);
    assert_eq!(utf8_width('é'), 2);
    assert_eq!(utf8_width('你'), 3);
    assert_eq!(utf8_width('😀'), 4);
}
