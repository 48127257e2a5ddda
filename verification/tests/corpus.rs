use cryptogpt::corpus::{corpus_from_jsonl, join_record_texts, CorpusError};
use cryptogpt::text::{chars_of, is_white_space, same_text, trim_chars};

#[test]
fn corpus_joins_texts_with_newlines() {
    let raw = "{\"text\": \"First Citizen:\"}\n{\"text\": \"Before we proceed\"}\n";
    assert_eq!(corpus_from_jsonl(raw).unwrap(), "First Citizen:\nBefore we proceed");
}

#[test]
fn corpus_skips_blank_lines_and_records_without_text() {
    let raw = "\n   \n  {\"text\": \"a\"}  \r\n{\"other\": 1}\n{\"text\": 5}\n[1, 2]\n{\"text\":\"b\\nc\"}";
    assert_eq!(corpus_from_jsonl(raw).unwrap(), "a\nb\nc");
}

#[test]
fn corpus_of_nothing_is_empty() {
    assert_eq!(corpus_from_jsonl("").unwrap(), "");
    assert_eq!(corpus_from_jsonl("\n\n \t\n").unwrap(), "");
}

#[test]
fn corpus_keeps_empty_texts() {
    assert_eq!(corpus_from_jsonl("{\"text\":\"\"}\n{\"text\":\"x\"}").unwrap(), "\nx");
}

#[test]
fn corpus_rejects_a_line_that_is_not_json() {
    let r = corpus_from_jsonl("{\"text\": \"a\"}\nnot json\n{\"text\": \"b\"}\n");
    assert!(matches!(r, Err(CorpusError::Json(_))));
    let r = corpus_from_jsonl("{\"text\": \"a\"} trailing");
    assert!(r.is_err());
}

#[test]
fn chars_of_lists_characters() {
    let v = chars_of("héllo, 世界");
    assert_eq!(v, vec!['h', 'é', 'l', 'l', 'o', ',', ' ', '世', '界']);
    assert_eq!(chars_of(""), Vec::<char>::new());
}

#[test]
fn trim_uses_unicode_white_space() {
    let v = chars_of("\u{3000}\u{a0}x\u{200B}\t");
    assert_eq!(trim_chars(&v, 0, v.len()), vec!['x', '\u{200B}']);
    let raw = "\u{3000}{\"text\": \"wide\"}\u{2029}\n";
    assert_eq!(corpus_from_jsonl(raw).unwrap(), "wide");
}

#[test]
fn trim_removes_outer_white_space() {
    let v = chars_of("  a b \t\r");
    assert_eq!(trim_chars(&v, 0, v.len()), vec!['a', ' ', 'b']);
    assert_eq!(trim_chars(&v, 3, 5), vec!['b']);
    assert_eq!(trim_chars(&v, 0, 2), Vec::<char>::new());
}

#[test]
fn same_text_compares_characters() {
    assert!(same_text("tiny", "tiny"));
    assert!(!same_text("tiny", "tin"));
    assert!(!same_text("tiny", "tinY"));
    assert!(same_text("", ""));
}

#[test]
fn join_record_texts_skips_records_without_text() {
    let records = vec![
        None,
        Some("a".to_string()),
        None,
        Some(String::new()),
        Some("b c".to_string()),
    ];
    assert_eq!(join_record_texts(&records), "a\n\nb c");
    assert_eq!(join_record_texts(&vec![None, None]), "");
    assert_eq!(join_record_texts(&vec![]), "");
    assert_eq!(join_record_texts(&vec![Some("only".to_string())]), "only");
}

#[test]
fn corpus_reads_only_the_text_key() {
    let raw = "{\"txt\": \"no\", \"text\": \"yes\"}\n{\"Text\": \"no\"}\n{\"texts\": \"no\"}";
    assert_eq!(corpus_from_jsonl(raw).unwrap(), "yes");
}

#[test]
fn white_space_matches_std_for_every_char() {
    for c in (0u32..=0x10FFFF).filter_map(char::from_u32) {
        assert_eq!(is_white_space(c), c.is_whitespace(), "{:?}", c);
    }
}
