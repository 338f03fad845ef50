use saya::text::is_blank;
use saya::tokenizer::JiebaTokenizer;

fn words(text: &str) -> Vec<(String, usize)> {
    let t = JiebaTokenizer::new();
    let mut c = t.token_stream(text);
    let mut out = Vec::new();
    while c.advance() {
        let tok = c.token();
        out.push((tok.text.clone(), tok.position));
    }
    out
}

#[test]
fn english_words_get_consecutive_positions() {
    let w = words("the quick brown fox");
    let texts: Vec<&str> = w.iter().map(|(t, _)| t.as_str()).collect();
    assert!(texts.contains(&"brown"));
    for (i, (_, p)) in w.iter().enumerate() {
        assert_eq!(*p, i);
    }
}

#[test]
fn chinese_text_is_segmented() {
    let w = words("我们去公园散步");
    let texts: Vec<&str> = w.iter().map(|(t, _)| t.as_str()).collect();
    assert!(texts.contains(&"公园"), "{texts:?}");
}

#[test]
fn exhausted_cursor_stays_exhausted() {
    let t = JiebaTokenizer::new();
    let mut c = t.token_stream("");
    assert!(!c.advance());
    assert!(!c.advance());
}

#[test]
fn blank_queries_are_recognised() {
    assert!(is_blank(""));
    assert!(is_blank("   \t\n"));
    assert!(is_blank("\u{3000}"));
    assert!(!is_blank("  brown "));
    assert!(!is_blank("公园"));
}

#[test]
fn every_unicode_white_space_counts_as_blank() {
    let all = "\t\n\u{b}\u{c}\r \u{85}\u{a0}\u{1680}\u{2000}\u{200a}\u{2028}\u{2029}\u{202f}\u{205f}\u{3000}";
    assert!(is_blank(all));
    assert!(!is_blank("\u{200b}"));
}
