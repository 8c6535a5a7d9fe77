use miniinfer::bpe::merge_once;
use miniinfer::byte_level::{bytes_to_unicode, clean_decoded_tokens, encode_bytes_to_unicode, unicode_to_bytes};
use miniinfer::error::MiniInferError;
use miniinfer::gpt2_tokenizer::{pre_tokenize_text, Gpt2Tokenizer};
use miniinfer::merges::MergeTable;
use miniinfer::tokenizer::{TinyTokenizer, Tokenizer};

fn tiny_vocab() -> Vec<(String, usize)> {
    vec![("hello".to_string(), 0), ("world".to_string(), 1)]
}

fn tiny_space_vocab() -> Vec<(String, usize)> {
    vec![("hello".to_string(), 0), ("Ġworld".to_string(), 1)]
}

fn merge_table(rules: &[(&str, &str, usize)]) -> MergeTable {
    let mut merges = MergeTable::new();
    for (left, right, rank) in rules {
        merges.insert(left.to_string(), right.to_string(), *rank);
    }
    merges
}

fn hello_merges() -> MergeTable {
    merge_table(&[("h", "e", 0), ("he", "l", 1), ("hel", "l", 2), ("hell", "o", 3)])
}

fn hello_world_merges() -> MergeTable {
    merge_table(&[
        ("h", "e", 0),
        ("he", "l", 1),
        ("hel", "l", 2),
        ("hell", "o", 3),
        ("Ġ", "w", 4),
        ("Ġw", "o", 5),
        ("Ġwo", "r", 6),
        ("Ġwor", "l", 7),
        ("Ġworl", "d", 8),
    ])
}

fn strings(items: &[&str]) -> Vec<String> {
    items.iter().map(|s| s.to_string()).collect()
}

#[test]
fn builds_lookup_maps_from_valid_vocab() {
    let tokenizer = Gpt2Tokenizer::from_vocab_map(tiny_vocab()).expect("valid vocab should build tokenizer");

    assert_eq!(tokenizer.token_to_id("hello"), Some(0));
    assert_eq!(tokenizer.token_to_id("world"), Some(1));
    assert_eq!(tokenizer.id_to_token(0), Some("hello"));
    assert_eq!(tokenizer.id_to_token(1), Some("world"));
}

#[test]
fn unknown_lookups_return_none() {
    let tokenizer = Gpt2Tokenizer::from_vocab_map(tiny_vocab()).expect("valid vocab should build tokenizer");

    assert_eq!(tokenizer.token_to_id("missing"), None);
    assert_eq!(tokenizer.id_to_token(2), None);
}

#[test]
fn rejects_non_contiguous_vocab_ids() {
    let vocab = vec![("hello".to_string(), 0), ("world".to_string(), 2)];

    let err = Gpt2Tokenizer::from_vocab_map(vocab)
        .map(|_| ())
        .expect_err("non-contiguous vocab IDs should fail");

    assert_eq!(
        err,
        MiniInferError::InvalidConfig { message: "vocab id 2 is out of range for vocab length 2".to_string() }
    );
}

#[test]
fn rejects_vocab_with_missing_id() {
    let vocab = vec![("hello".to_string(), 1), ("world".to_string(), 1)];

    let err = Gpt2Tokenizer::from_vocab_map(vocab).map(|_| ()).expect_err("missing id should fail");

    assert_eq!(err, MiniInferError::InvalidConfig { message: "vocab id 0 is missing".to_string() });
}

#[test]
fn parse_merges_text_assigns_ranks_to_valid_merges() {
    let merges = Gpt2Tokenizer::parse_merges_text("#version: 0.2\nh e\nhe llo\nĠ world\n")
        .expect("valid merges should parse");

    assert_eq!(merges.get("h", "e"), Some(0));
    assert_eq!(merges.get("he", "llo"), Some(1));
    assert_eq!(merges.get("Ġ", "world"), Some(2));
}

#[test]
fn parse_merges_text_skips_empty_lines_and_version_header() {
    let merges = Gpt2Tokenizer::parse_merges_text("#version: 0.2\n\nh e\n\nhe llo\n")
        .expect("valid merges should parse");

    assert_eq!(merges.get("h", "e"), Some(0));
    assert_eq!(merges.get("he", "llo"), Some(1));
}

#[test]
fn parse_merges_text_keeps_hash_prefixed_merge_rules() {
    let merges = Gpt2Tokenizer::parse_merges_text("#version: 0.2\n# #\n## ##\n")
        .expect("valid hash-prefixed merges should parse");

    assert_eq!(merges.get("#", "#"), Some(0));
    assert_eq!(merges.get("##", "##"), Some(1));
}

#[test]
fn parse_merges_text_rejects_malformed_lines() {
    let err = Gpt2Tokenizer::parse_merges_text("h e extra")
        .map(|_| ())
        .expect_err("malformed merge line should fail");

    assert_eq!(err, MiniInferError::InvalidConfig { message: "invalid merge line: h e extra".to_string() });
}

#[test]
fn merge_rank_returns_rank_for_known_pair() {
    let merges = Gpt2Tokenizer::parse_merges_text("h e\nhe llo\n").expect("valid merges should parse");
    let tokenizer = Gpt2Tokenizer::from_vocab_and_merges(tiny_vocab(), merges)
        .expect("valid vocab and merges should build tokenizer");

    assert_eq!(tokenizer.merge_rank("h", "e"), Some(0));
    assert_eq!(tokenizer.merge_rank("he", "llo"), Some(1));
    assert_eq!(tokenizer.merge_rank("missing", "pair"), None);
}

#[test]
fn merge_once_merges_best_ranked_pair() {
    let pieces = strings(&["h", "e", "l", "l", "o"]);

    let merges = merge_table(&[("h", "e", 0), ("l", "l", 1)]);

    let output = merge_once(&pieces, &merges).expect("one merge should apply");

    assert_eq!(output, strings(&["he", "l", "l", "o"]));
}

#[test]
fn merge_once_prefers_lowest_rank_anywhere() {
    let pieces = strings(&["a", "b", "c", "d"]);
    let merges = merge_table(&[("a", "b", 5), ("c", "d", 1)]);

    assert_eq!(merge_once(&pieces, &merges), Some(strings(&["a", "b", "cd"])));
    assert_eq!(merge_once(&strings(&["x"]), &merges), None);
}

#[test]
fn apply_bpe_merges_applies_merges_until_no_more() {
    let pieces = strings(&["h", "e", "l", "l", "o"]);

    let tokenizer = Gpt2Tokenizer::from_vocab_and_merges(tiny_vocab(), hello_merges())
        .expect("valid vocab and merges should build tokenizer");
    let output = tokenizer.apply_bpe_merges(&pieces);

    assert_eq!(output, vec!["hello".to_string()]);
}

#[test]
fn tokenize_word_applies_bpe_merges_to_word() {
    let tokenizer = Gpt2Tokenizer::from_vocab_and_merges(tiny_vocab(), hello_merges())
        .expect("valid vocab and merges should build tokenizer");
    let hello = tokenizer.tokenize_word("hello");

    assert_eq!(hello, vec!["hello".to_string()]);

    let cat = tokenizer.tokenize_word("cat");
    assert_eq!(cat, strings(&["c", "a", "t"]));
}

#[test]
fn encode_word_returns_token_ids_for_known_tokens() {
    let tokenizer = Gpt2Tokenizer::from_vocab_and_merges(tiny_vocab(), hello_merges())
        .expect("valid vocab and merges should build tokenizer");
    let token_ids = tokenizer.encode_word("hello").expect("encoding should succeed");

    assert_eq!(token_ids, vec![0]);
}

#[test]
fn encode_word_ids_spell_the_byte_level_word() {
    let vocab = vec![
        ("Ġ".to_string(), 0),
        ("w".to_string(), 1),
        ("Ġw".to_string(), 2),
        ("o".to_string(), 3),
        ("r".to_string(), 4),
        ("ld".to_string(), 5),
    ];
    let merges = merge_table(&[("Ġ", "w", 0), ("l", "d", 1)]);
    let tokenizer = Gpt2Tokenizer::from_vocab_and_merges(vocab, merges)
        .expect("valid vocab and merges should build tokenizer");

    let ids = tokenizer.encode_word(" world").expect("encoding should succeed");
    assert_eq!(ids, vec![2, 3, 4, 5]);
    let spelled: String = ids
        .iter()
        .map(|&id| tokenizer.id_to_token(id).expect("id should name a token"))
        .collect();
    assert_eq!(spelled, encode_bytes_to_unicode(" world"));
}

#[test]
fn gpt2_tokenizer_encode_uses_bpe_word_tokens() {
    let tokenizer = Gpt2Tokenizer::from_vocab_and_merges(tiny_space_vocab(), hello_world_merges())
        .expect("valid vocab and merges should build tokenizer");

    let token_ids = tokenizer.encode("hello world").expect("encoding should succeed");

    assert_eq!(token_ids, vec![0, 1]);
}

#[test]
fn gpt2_tokenizer_decode_joins_tokens_with_spaces() {
    let tokenizer = Gpt2Tokenizer::from_vocab_and_merges(tiny_space_vocab(), MergeTable::new())
        .expect("valid vocab should build tokenizer");

    let text = tokenizer.decode(&[0, 1]).expect("decoding should succeed");

    assert_eq!(text, "hello world");
}

#[test]
fn gpt2_tokenizer_decode_after_encode_gives_back_the_text() {
    let tokenizer = Gpt2Tokenizer::from_vocab_and_merges(tiny_space_vocab(), hello_world_merges())
        .expect("valid vocab and merges should build tokenizer");

    let ids = tokenizer.encode("hello world").expect("encoding should succeed");

    assert_eq!(tokenizer.decode(&ids).expect("decoding should succeed"), "hello world");
}

#[test]
fn clean_decoded_tokens_decodes_byte_unicode_text() {
    assert_eq!(clean_decoded_tokens("helloĠworld").expect("byte-unicode decode should succeed"), "hello world");
    assert_eq!(clean_decoded_tokens("Ġhello").expect("byte-unicode decode should succeed"), " hello");
    assert_eq!(clean_decoded_tokens("hello").expect("byte-unicode decode should succeed"), "hello");

    let encoded = encode_bytes_to_unicode("é");
    assert_eq!(clean_decoded_tokens(&encoded).expect("byte-unicode decode should succeed"), "é");
}

#[test]
fn clean_decoded_tokens_rejects_invalid_byte_unicode_text() {
    assert_eq!(clean_decoded_tokens("hello☃"), Err(MiniInferError::InvalidInput));
    assert_eq!(clean_decoded_tokens("ÿ"), Err(MiniInferError::InvalidInput));
}

#[test]
fn byte_level_round_trip_of_mixed_text() {
    let text = "naïve café — 漢字 ok\n";
    assert_eq!(clean_decoded_tokens(&encode_bytes_to_unicode(text)), Ok(text.to_string()));
}

#[test]
fn gpt2_tokenizer_encode_rejects_unknown_bpe_piece() {
    let tokenizer = Gpt2Tokenizer::from_vocab_and_merges(tiny_vocab(), MergeTable::new())
        .expect("valid vocab should build tokenizer");

    let err = tokenizer.encode("cat").expect_err("unknown BPE piece should fail");

    assert_eq!(err, MiniInferError::InvalidInput);
}

#[test]
fn gpt2_tokenizer_decode_rejects_out_of_bounds_token_id() {
    let tokenizer = Gpt2Tokenizer::from_vocab_and_merges(tiny_vocab(), MergeTable::new())
        .expect("valid vocab should build tokenizer");

    let err = tokenizer.decode(&[0, 2]).expect_err("out-of-bounds token ID should fail");

    assert_eq!(err, MiniInferError::IndexOutOfBounds { index: 2, len: 2 });
}

#[test]
fn bytes_to_unicode_maps_all_bytes() {
    let mapping = bytes_to_unicode();

    assert_eq!(mapping.len(), 256);
}

#[test]
fn bytes_to_unicode_keeps_printable_ascii_bytes() {
    let mapping = bytes_to_unicode();

    assert_eq!(mapping.get(&b'!'), Some(&'!'));
    assert_eq!(mapping.get(&b'A'), Some(&'A'));
    assert_eq!(mapping.get(&b'~'), Some(&'~'));
}

#[test]
fn bytes_to_unicode_maps_space_and_newline_to_gpt2_markers() {
    let mapping = bytes_to_unicode();

    assert_eq!(mapping.get(&b' '), Some(&'Ġ'));
    assert_eq!(mapping.get(&b'\n'), Some(&'Ċ'));
}

#[test]
fn bytes_to_unicode_outputs_unique_chars() {
    let mapping = bytes_to_unicode();
    let mut seen = std::collections::HashSet::new();

    for character in mapping.values() {
        assert!(seen.insert(*character));
    }

    assert_eq!(seen.len(), 256);
}

#[test]
fn unicode_to_bytes_reverses_gpt2_markers() {
    let mapping = unicode_to_bytes();

    assert_eq!(mapping.get(&'Ġ'), Some(&b' '));
    assert_eq!(mapping.get(&'Ċ'), Some(&b'\n'));
    assert_eq!(mapping.get(&'A'), Some(&b'A'));
    assert_eq!(mapping.get(&'~'), Some(&b'~'));
}

#[test]
fn byte_unicode_maps_round_trip_all_bytes() {
    let byte_to_char = bytes_to_unicode();
    let char_to_byte = unicode_to_bytes();

    for byte in 0u8..=u8::MAX {
        let character = byte_to_char.get(&byte).expect("every byte should map to a character");

        assert_eq!(char_to_byte.get(character), Some(&byte));
    }
}

#[test]
fn pre_tokenize_text_splits_categories_and_preserves_spaces() {
    assert_eq!(pre_tokenize_text("hello"), vec!["hello".to_string()]);
    assert_eq!(pre_tokenize_text("hello world"), vec!["hello".to_string(), " world".to_string()]);
    assert_eq!(pre_tokenize_text(" hello"), vec![" hello".to_string()]);
    assert_eq!(pre_tokenize_text(""), Vec::<String>::new());
    assert_eq!(
        pre_tokenize_text("hello, world!"),
        vec!["hello".to_string(), ",".to_string(), " world".to_string(), "!".to_string()]
    );
    assert_eq!(pre_tokenize_text("abc123"), vec!["abc".to_string(), "123".to_string()]);
    assert_eq!(
        pre_tokenize_text("hi  there"),
        vec!["hi".to_string(), " ".to_string(), " there".to_string()]
    );
}

#[test]
fn test_encode_decode() {
    let vocab = vec!["hello".to_string(), "world".to_string()];
    let tokenizer = TinyTokenizer::new(vocab);

    let text = "hello world";
    let token_ids = tokenizer.encode(text).expect("Encoding failed");
    assert_eq!(token_ids, vec![0, 1]);

    let decoded_text = tokenizer.decode(&token_ids).expect("Decoding failed");
    assert_eq!(decoded_text, text);
}

#[test]
fn encode_reject_unknown_token() {
    let vocab = vec!["hello".to_string(), "world".to_string()];
    let tokenizer = TinyTokenizer::new(vocab);

    let text = "hello unknown";
    let err = tokenizer.encode(text).expect_err("unknown token should fail");

    assert_eq!(err, MiniInferError::InvalidInput);
}

#[test]
fn decode_reject_out_of_bounds() {
    let vocab = vec!["hello".to_string(), "world".to_string()];
    let tokenizer = TinyTokenizer::new(vocab);

    let token_ids = vec![0, 2];
    let err = tokenizer.decode(&token_ids).expect_err("out-of-bounds token ID should fail");

    assert_eq!(err, MiniInferError::IndexOutOfBounds { index: 2, len: 2 });
}

#[test]
fn encode_empty_string() {
    let vocab = vec!["hello".to_string(), "world".to_string()];
    let tokenizer = TinyTokenizer::new(vocab);

    let text = "";
    let token_ids = tokenizer.encode(text).expect("Encoding failed");
    assert_eq!(token_ids, Vec::<usize>::new());
}

#[test]
fn decode_empty_token_ids() {
    let vocab = vec!["hello".to_string(), "world".to_string()];
    let tokenizer = TinyTokenizer::new(vocab);

    let token_ids = Vec::<usize>::new();
    let decoded_text = tokenizer.decode(&token_ids).expect("Decoding failed");
    assert_eq!(decoded_text, "");
}

#[test]
fn tiny_decode_after_encode_normalizes_spacing() {
    let tokenizer = TinyTokenizer::new(vec!["a".to_string(), "b".to_string(), "a".to_string()]);

    let ids = tokenizer.encode("  b\ta \n b ").expect("Encoding failed");
    assert_eq!(ids, vec![1, 0, 1]);
    assert_eq!(tokenizer.decode(&ids).expect("Decoding failed"), "b a b");
}

#[test]
fn vocab_lists_tokens_in_id_order() {
    let vocab = vec![("world".to_string(), 1), ("hello".to_string(), 0)];
    let tokenizer = Gpt2Tokenizer::from_vocab_map(vocab).expect("valid vocab should build tokenizer");
    assert_eq!(tokenizer.vocab(), &["hello".to_string(), "world".to_string()]);

    let tiny = TinyTokenizer::new(strings(&["a", "b", "c"]));
    assert_eq!(tiny.vocab(), &["a".to_string(), "b".to_string(), "c".to_string()]);
}

#[test]
fn from_vocab_file_loads_valid_json() {
    let tokenizer = Gpt2Tokenizer::from_vocab_json(r#"{"hello":0,"world":1}"#)
        .expect("valid vocab should build tokenizer");
    assert_eq!(tokenizer.token_to_id("hello"), Some(0));
    assert_eq!(tokenizer.token_to_id("world"), Some(1));
    assert_eq!(tokenizer.id_to_token(0), Some("hello"));
    assert_eq!(tokenizer.id_to_token(1), Some("world"));
}

#[test]
fn from_vocab_json_reports_bad_vocabularies() {
    match Gpt2Tokenizer::from_vocab_json("not json").map(|_| ()) {
        Err(MiniInferError::InvalidConfig { message }) => assert!(message.starts_with("Invalid vocab: ")),
        other => panic!("unexpected result: {other:?}"),
    }
    assert_eq!(
        Gpt2Tokenizer::from_vocab_json(r#"{"hello":0,"world":2}"#).map(|_| ()),
        Err(MiniInferError::InvalidConfig { message: "vocab id 2 is out of range for vocab length 2".to_string() })
    );
    assert_eq!(
        Gpt2Tokenizer::from_vocab_json(r#"{"hello":1,"world":1}"#).map(|_| ()),
        Err(MiniInferError::InvalidConfig { message: "vocab id 0 is missing".to_string() })
    );
}

#[test]
fn rejects_vocab_with_duplicate_token() {
    let vocab = vec![("a".to_string(), 0), ("a".to_string(), 1)];
    assert_eq!(
        Gpt2Tokenizer::from_vocab_map(vocab).map(|_| ()),
        Err(MiniInferError::InvalidConfig { message: "duplicate vocab token a".to_string() })
    );
}

#[test]
fn ids_and_tokens_name_each_other() {
    let vocab = vec![("world".to_string(), 1), ("hello".to_string(), 0), ("!".to_string(), 2)];
    let tokenizer = Gpt2Tokenizer::from_vocab_and_merges(vocab.clone(), MergeTable::new())
        .expect("valid vocab should build tokenizer");
    for id in 0..vocab.len() {
        let token = tokenizer.id_to_token(id).expect("every id names a token");
        assert_eq!(tokenizer.token_to_id(token), Some(id));
    }
    for (token, id) in &vocab {
        assert_eq!(tokenizer.id_to_token(tokenizer.token_to_id(token).expect("known token")), Some(token.as_str()));
        assert_eq!(tokenizer.token_to_id(token), Some(*id));
    }
    assert_eq!(tokenizer.id_to_token(3), None);
}
