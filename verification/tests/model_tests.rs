use rust_bpe::token_config::TokenConfig;
use rust_bpe::tokenizer::Tokenizer;
use rust_bpe::trie::TrieNode;
use rust_bpe::BpeError;

fn reserved_vocab() -> Vec<String> {
    TokenConfig::new().get_values()
}

fn untrained_model(extra: &[&str]) -> Tokenizer {
    let mut vocab = reserved_vocab();
    for t in extra {
        vocab.push((*t).to_string());
    }
    Tokenizer::from_snapshot(vocab, Vec::new(), TokenConfig::new()).unwrap()
}

#[test]
fn config_defaults() {
    let config = TokenConfig::new();
    let values = config.get_values();
    assert_eq!(
        values,
        vec!["<|sot|>", "<|eot|>", "<|eos|>", "<pad>", "<mask>", "<unk>", " ", "\n", "\r"]
    );
    assert_eq!(config.get_indices(), vec![0, 1, 2, 3, 4, 5, 6, 7, 8]);
    assert!(config.is_eos("<|eos|>"));
    assert!(!config.is_eos("<|eot|>"));
    assert!(config.is_special_token("<pad>"));
    assert!(config.is_special_token(" "));
    assert!(!config.is_special_token("pad"));
    assert!(!config.is_special_token(""));
}

#[test]
fn config_set_indices() {
    let mut config = TokenConfig::new();
    config.set_indices(vec![10, 11, 12, 13, 14, 15, 16, 17, 18]);
    assert_eq!(config.get_indices(), vec![10, 11, 12, 13, 14, 15, 16, 17, 18]);
    assert_eq!(config.get_values()[5], "<unk>");
}

#[test]
fn trie_longest_prefix() {
    let mut trie = TrieNode::new();
    trie.insert("ab", 0);
    trie.insert("abc", 1);
    trie.insert("b", 2);
    let text: Vec<char> = "abcx".chars().collect();
    assert_eq!(trie.find_longest_prefix(&text, 0), Some((3, 1)));
    assert_eq!(trie.find_longest_prefix(&text, 1), Some((1, 2)));
    assert_eq!(trie.find_longest_prefix(&text, 2), None);
    let short: Vec<char> = "ab".chars().collect();
    assert_eq!(trie.find_longest_prefix(&short, 0), Some((2, 0)));
    assert_eq!(trie.find_longest_prefix(&short, 2), None);
}

#[test]
fn trie_insert_overwrites_index() {
    let mut trie = TrieNode::new();
    trie.insert("tok", 4);
    trie.insert("tok", 7);
    let text: Vec<char> = "tok".chars().collect();
    assert_eq!(trie.find_longest_prefix(&text, 0), Some((3, 7)));
}

#[test]
fn clean_text_lowercases_only() {
    assert_eq!(Tokenizer::clean_text("AbC dE"), "abc de");
    assert_eq!(Tokenizer::clean_text("Line\nBreak\r"), "line\nbreak\r");
    assert_eq!(Tokenizer::clean_text(""), "");
}

#[test]
fn clean_text_idempotent() {
    let once = Tokenizer::clean_text("The QUICK brown FOX!");
    let twice = Tokenizer::clean_text(&once);
    assert_eq!(once, twice);
}

#[test]
fn encode_empty_and_decode_empty() {
    let model = untrained_model(&["h", "i"]);
    assert_eq!(model.tokenize(""), Vec::<usize>::new());
    assert_eq!(model.detokenize(&Vec::new()), "");
}

#[test]
fn single_character_round_trip() {
    let model = untrained_model(&["a"]);
    let tokens = model.tokenize("a");
    assert_eq!(tokens.len(), 1);
    assert_eq!(tokens[0], model.get_index("a").unwrap());
    assert_eq!(model.detokenize(&tokens), "a");
}

#[test]
fn unknown_character_emits_unknown_index() {
    let model = untrained_model(&["a"]);
    let tokens = model.tokenize("z");
    assert_eq!(tokens, vec![5]);
    assert!(model.detokenize(&tokens).contains("<unk>"));
    let mixed = model.tokenize("aza");
    let a = model.get_index("a").unwrap();
    assert_eq!(mixed, vec![a, 5, a]);
    assert_eq!(model.detokenize(&mixed), "a<unk>a");
}

#[test]
fn untrained_hello_world_encoding() {
    let model = untrained_model(&["h", "e", "l", "o", "w", "r", "d"]);
    let h = model.get_index("h").unwrap();
    let e = model.get_index("e").unwrap();
    let l = model.get_index("l").unwrap();
    let o = model.get_index("o").unwrap();
    let w = model.get_index("w").unwrap();
    let r = model.get_index("r").unwrap();
    let d = model.get_index("d").unwrap();
    let sp = 6;
    let tokens = model.tokenize("hello world");
    assert_eq!(tokens, vec![h, e, l, l, o, sp, w, o, r, l, d]);
    assert_eq!(model.detokenize(&tokens), "hello world");
}

#[test]
fn token_index_maps_are_inverse() {
    let model = untrained_model(&["x", "y", "zq"]);
    for index in 0..model.vocab_size() {
        let token = model.get_token(index).unwrap();
        assert_eq!(model.get_index(&token), Some(index));
    }
    assert_eq!(model.get_token(model.vocab_size()), None);
    assert_eq!(model.get_index("absent"), None);
}

#[test]
fn get_tokens_rejects_unknown_index() {
    let model = untrained_model(&["a"]);
    assert_eq!(model.get_tokens(&vec![0, 999]), Err(BpeError::UnknownIndex));
    let ok = model.get_tokens(&vec![5, 6]).unwrap();
    assert_eq!(ok, vec!["<unk>", " "]);
}

#[test]
fn get_indices_rejects_unknown_token() {
    let model = untrained_model(&["a"]);
    assert_eq!(
        model.get_indices(&vec!["a".to_string(), "nope".to_string()]),
        Err(BpeError::UnknownToken)
    );
    let ok = model.get_indices(&vec!["<unk>".to_string(), "a".to_string()]).unwrap();
    assert_eq!(ok.len(), 2);
    assert_eq!(ok[0], 5);
}

#[test]
fn decode_end_of_sentence_rules() {
    let model = untrained_model(&["a"]);
    let eos = 2;
    let space = 6;
    let a = model.get_index("a").unwrap();
    assert_eq!(model.detokenize(&vec![eos]), " ");
    assert_eq!(model.detokenize(&vec![eos, space]), " ");
    assert_eq!(model.detokenize(&vec![a, eos, a]), "a a");
    assert_eq!(model.detokenize(&vec![0]), "<|sot|>");
}

#[test]
fn detokenize_skips_invalid_indices() {
    let model = untrained_model(&["a"]);
    let a = model.get_index("a").unwrap();
    assert_eq!(model.detokenize(&vec![a, 4242, a]), "aa");
}

#[test]
fn snapshot_round_trip_is_structural() {
    let model = untrained_model(&["q", "w"]);
    let reloaded = Tokenizer::from_snapshot(
        model.get_vocabulary(),
        model.get_merge_rules(),
        model.get_config(),
    )
    .unwrap();
    assert_eq!(reloaded.get_vocabulary(), model.get_vocabulary());
    assert_eq!(reloaded.get_merge_rules(), model.get_merge_rules());
    assert_eq!(reloaded.get_config().get_indices(), model.get_config().get_indices());
    assert_eq!(reloaded.get_config().get_values(), model.get_config().get_values());
    assert_eq!(reloaded.tokenize("qw"), model.tokenize("qw"));
}

#[test]
fn snapshot_rejects_duplicates() {
    let mut vocab = reserved_vocab();
    vocab.push("a".to_string());
    vocab.push("a".to_string());
    let r = Tokenizer::from_snapshot(vocab, Vec::new(), TokenConfig::new());
    assert!(matches!(r, Err(BpeError::InvalidSnapshot)));
}

#[test]
fn snapshot_rejects_empty_token() {
    let mut vocab = reserved_vocab();
    vocab.push(String::new());
    let r = Tokenizer::from_snapshot(vocab, Vec::new(), TokenConfig::new());
    assert!(r.is_err());
}

#[test]
fn snapshot_rejects_dangling_rule() {
    let vocab = reserved_vocab();
    let rules = vec![("a".to_string(), "b".to_string())];
    let r = Tokenizer::from_snapshot(vocab, rules, TokenConfig::new());
    assert!(r.is_err());
}

#[test]
fn snapshot_rejects_misaligned_reserved_index() {
    let mut config = TokenConfig::new();
    config.set_indices(vec![1, 0, 2, 3, 4, 5, 6, 7, 8]);
    let r = Tokenizer::from_snapshot(reserved_vocab(), Vec::new(), config);
    assert!(r.is_err());
}

#[test]
fn pad_sequences_pads_and_truncates() {
    let model = untrained_model(&[]);
    let padded = model.pad_sequences(&vec![vec![1, 2, 3, 4], vec![7]], 3);
    assert_eq!(padded, vec![vec![1, 2, 3], vec![7, 0, 0]]);
}
