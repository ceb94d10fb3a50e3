use jieba_tokenizer::tokenizer::JiebaTokenizer;

#[test]
fn test_jieba_tokenizing() {
    let tokenizer = JiebaTokenizer::new();

    let text = "你今天很帅！";
    let tokens = tokenizer.tokenize(text);

    println!("{:?}", tokens);

    assert_eq!(tokens.len(), 4);

    assert_eq!(tokens[0].term, "你");
    assert_eq!(tokens[0].start_offset, 0);
    assert_eq!(tokens[0].end_offset, 3);
    assert_eq!(tokens[0].position, 0);

    assert_eq!(tokens[1].term, "今天");
    assert_eq!(tokens[1].start_offset, 3);
    assert_eq!(tokens[1].end_offset, 9);
    assert_eq!(tokens[1].position, 1);

    assert_eq!(tokens[2].term, "很帅");
    assert_eq!(tokens[2].start_offset, 9);
    assert_eq!(tokens[2].end_offset, 15);
    assert_eq!(tokens[2].position, 2);

    assert_eq!(tokens[3].term, "！");
    assert_eq!(tokens[3].start_offset, 15);
    assert_eq!(tokens[3].end_offset, 18);
    assert_eq!(tokens[3].position, 3);
}

#[test]
fn search_mode_keeps_nested_words() {
    let tokenizer = JiebaTokenizer::new();
    let text = "南京市长江大桥";
    let tokens = tokenizer.tokenize(text);
    let got: Vec<(&str, usize, usize, usize)> =
        tokens.iter().map(|t| (t.term, t.start_offset, t.end_offset, t.position)).collect();
    assert_eq!(
        got,
        vec![
            ("南京", 0, 6, 0),
            ("京市", 3, 9, 1),
            ("南京市", 0, 9, 2),
            ("长江", 9, 15, 3),
            ("大桥", 15, 21, 4),
            ("长江大桥", 9, 21, 5),
        ]
    );
}

#[test]
fn empty_text_gives_no_tokens() {
    let tokenizer = JiebaTokenizer::new();
    let tokens = tokenizer.tokenize("");
    assert!(tokens.is_empty());
}

#[test]
fn tokenizing_twice_gives_the_same_stream() {
    let tokenizer = JiebaTokenizer::new();
    let text = "小明硕士毕业于中国科学院计算所";
    let a = tokenizer.tokenize(text);
    let b = tokenizer.clone().tokenize(text);
    assert_eq!(a.len(), b.len());
    for (x, y) in a.iter().zip(b.iter()) {
        assert_eq!(x.term, y.term);
        assert_eq!(x.start_offset, y.start_offset);
        assert_eq!(x.end_offset, y.end_offset);
        assert_eq!(x.position, y.position);
    }
}

#[test]
fn tokens_slice_the_text_at_character_boundaries() {
    let tokenizer = JiebaTokenizer::new();
    let text = "我是拖拉机学院手扶拖拉机专业的。well-known 3.14";
    let tokens = tokenizer.tokenize(text);
    assert!(!tokens.is_empty());
    for (k, t) in tokens.iter().enumerate() {
        assert_eq!(t.position, k);
        assert!(t.start_offset <= t.end_offset && t.end_offset <= text.len());
        assert!(text.is_char_boundary(t.start_offset));
        assert!(text.is_char_boundary(t.end_offset));
        assert_eq!(&text[t.start_offset..t.end_offset], t.term);
    }
}
