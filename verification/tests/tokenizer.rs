use cryptogpt::dataset::CharTokenizer;

#[test]
fn from_text_builds_sorted_unique_vocab() {
    let tok = CharTokenizer::from_text("hello");
    assert_eq!(tok.vocab_string(), "ehlo");
    assert_eq!(tok.vocab_size(), 4);
}

#[test]
fn from_text_of_empty_text_is_empty() {
    let tok = CharTokenizer::from_text("");
    assert_eq!(tok.vocab_size(), 0);
    assert_eq!(tok.vocab_string(), "");
    assert_eq!(tok.encode("abc"), Vec::<i64>::new());
}

#[test]
fn from_text_sorts_by_code_point() {
    let tok = CharTokenizer::from_text("ba\nB é!");
    assert_eq!(tok.vocab_string(), "\n !Babé");
}

#[test]
fn encode_gives_positions() {
    let tok = CharTokenizer::from_text("hello");
    assert_eq!(tok.encode("hello"), vec![1, 0, 2, 2, 3]);
}

#[test]
fn encode_drops_unknown_chars() {
    let tok = CharTokenizer::from_text("abc");
    assert_eq!(tok.encode("axbyc"), vec![0, 1, 2]);
    assert_eq!(tok.encode("xyz"), Vec::<i64>::new());
}

#[test]
fn decode_gives_chars() {
    let tok = CharTokenizer::from_text("hello");
    assert_eq!(tok.decode(&[1, 0, 2, 2, 3]), "hello");
}

#[test]
fn decode_drops_ids_outside_vocab() {
    let tok = CharTokenizer::from_text("abc");
    assert_eq!(tok.decode(&[0, -1, 5, 2, 3, i64::MIN, i64::MAX]), "ac");
}

#[test]
fn decode_of_encode_is_identity_on_training_text() {
    let text = "To be, or not to be: that is the question.\nÀ bientôt — 猫!";
    let tok = CharTokenizer::from_text(text);
    let ids = tok.encode(text);
    assert_eq!(ids.len(), text.chars().count());
    assert_eq!(tok.decode(&ids), text);
}

#[test]
fn decode_of_encode_keeps_known_chars() {
    let tok = CharTokenizer::from_text("abc");
    assert_eq!(tok.decode(&tok.encode("a-b-c-d")), "abc");
}

#[test]
fn encode_of_decode_is_identity_on_valid_ids() {
    let tok = CharTokenizer::from_text("the quick brown fox");
    let ids: Vec<i64> = vec![3, 0, 7, 7, 1, (tok.vocab_size() - 1) as i64];
    assert_eq!(tok.encode(&tok.decode(&ids)), ids);
}

#[test]
fn repeated_char_encodes_to_last_position() {
    let tok = CharTokenizer::from_vocab_string("abca");
    assert_eq!(tok.vocab_size(), 4);
    assert_eq!(tok.encode("cab"), vec![2, 3, 1]);
    assert_eq!(tok.decode(&[0, 3]), "aa");
}

#[test]
fn from_vocab_keeps_order() {
    let tok = CharTokenizer::from_vocab(vec!['z', 'y', 'x']);
    assert_eq!(tok.vocab_string(), "zyx");
    assert_eq!(tok.encode("xyz"), vec![2, 1, 0]);
}

#[test]
fn persisted_vocab_rebuilds_the_same_tokenizer() {
    let text = "ROMEO:\nBut, soft! what light through yonder window breaks?";
    let tok = CharTokenizer::from_text(text);
    let saved = tok.vocab_string();
    let rebuilt = CharTokenizer::from_vocab_string(&saved);
    assert_eq!(rebuilt.vocab_string(), saved);
    assert_eq!(rebuilt.encode(text), tok.encode(text));
    let ids = tok.encode("what light");
    assert_eq!(rebuilt.decode(&ids), tok.decode(&ids));
}

#[test]
fn encode_is_character_by_character() {
    let tok = CharTokenizer::from_text("abcdef");
    let mut joined = tok.encode("abz");
    joined.extend(tok.encode("qfe"));
    assert_eq!(tok.encode("abzqfe"), joined);
}

#[test]
fn encoded_ids_are_positions_of_vocab() {
    let tok = CharTokenizer::from_text("mississippi river");
    for id in tok.encode("a mississippi mystery") {
        assert!(0 <= id && (id as usize) < tok.vocab_size());
    }
}

#[test]
fn clone_keeps_the_vocabulary() {
    let tok = CharTokenizer::from_vocab_string("abca");
    let copy = tok.clone();
    assert_eq!(copy.vocab_string(), "abca");
    assert_eq!(copy.encode("cab"), tok.encode("cab"));
}
