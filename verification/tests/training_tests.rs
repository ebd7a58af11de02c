use rust_bpe::tokenizer::Tokenizer;
use rust_bpe::trainer::Trainer;
use rust_bpe::trainer::count_pairs;
use rust_bpe::trainer::merge_stream;
use rust_bpe::BpeError;

fn has_token(model: &Tokenizer, token: &str) -> bool {
    model.get_index(token).is_some()
}

#[test]
fn merge_is_non_overlapping() {
    // An (f, s, s) triple merges once and keeps the trailing s.
    assert_eq!(merge_stream(&vec![1, 2, 2], 1, 2, 9), vec![9, 2]);
    // The same triple mid-stream.
    assert_eq!(merge_stream(&vec![3, 1, 2, 2, 4], 1, 2, 9), vec![3, 9, 2, 4]);
    // Overlapping (f, s, f, s) merges twice.
    assert_eq!(merge_stream(&vec![1, 2, 1, 2], 1, 2, 9), vec![9, 9]);
    // (f, f, s) merges only the adjacent pair.
    assert_eq!(merge_stream(&vec![1, 1, 2], 1, 2, 9), vec![1, 9]);
    assert_eq!(merge_stream(&Vec::new(), 1, 2, 9), Vec::<usize>::new());
}

#[test]
fn empty_corpus_trains_to_initial_model() {
    let model = Tokenizer::train_cpu("", 3);
    assert!(model.get_merge_rules().is_empty());
    assert_eq!(model.vocab_size(), 9);
    let single = Tokenizer::train_cpu("x", 5);
    assert!(single.get_merge_rules().is_empty());
    assert_eq!(single.vocab_size(), 10);
}

#[test]
fn unicode_whitespace_separates_words() {
    let mut tr = Trainer::init_fresh("a\u{a0}b\u{2003}c");
    // Non-break space and em space separate words like an ASCII space.
    assert_eq!(tr.stream, vec![9, 6, 10, 6, 11]);
    assert!(tr.step().is_some());
}

#[test]
fn pair_counts_are_exact() {
    let counts = count_pairs(&vec![1, 2, 1, 2, 3]);
    let lookup = |a: usize, b: usize| -> Option<usize> {
        counts.iter().find(|e| e.0 == a && e.1 == b).map(|e| e.2)
    };
    assert_eq!(lookup(1, 2), Some(2));
    assert_eq!(lookup(2, 1), Some(1));
    assert_eq!(lookup(2, 3), Some(1));
    assert_eq!(lookup(3, 1), None);
    assert_eq!(counts.len(), 3);
    assert!(count_pairs(&vec![7]).is_empty());
}

#[test]
fn ab_corpus_one_iteration() {
    // Corpus "ab ab ab": initial stream a b _ a b _ a b, winner (a, b)
    // with count 3, so the stream shrinks by 3.
    let mut tr = Trainer::init_fresh("ab ab ab");
    let a = 9;
    let b = 10;
    let space = 6;
    assert_eq!(tr.stream, vec![a, b, space, a, b, space, a, b]);
    let merged = tr.step();
    assert_eq!(merged, Some((a, b)));
    assert_eq!(tr.stream.len(), 5);
    assert_eq!(tr.stream, vec![11, space, 11, space, 11]);
    let model = tr.finish();
    assert!(has_token(&model, "ab"));
    assert_eq!(model.get_merge_rules(), vec![("a".to_string(), "b".to_string())]);
}

#[test]
fn aaa_corpus_two_iterations() {
    // Corpus "aaa": first winner (a, a) with count 2 gives "aa" and the
    // stream [aa, a]; the second merge gives "aaa".
    let mut tr = Trainer::init_fresh("aaa");
    let a = 9;
    assert_eq!(tr.stream, vec![a, a, a]);
    assert_eq!(tr.step(), Some((a, a)));
    assert_eq!(tr.stream, vec![10, a]);
    assert_eq!(tr.step(), Some((10, a)));
    assert_eq!(tr.stream, vec![11]);
    let model = tr.finish();
    assert!(has_token(&model, "a"));
    assert!(has_token(&model, "aa"));
    assert!(has_token(&model, "aaa"));
}

#[test]
fn stream_length_never_grows() {
    let mut tr = Trainer::init_fresh("banana bandana banana");
    let mut last = tr.stream.len();
    loop {
        match tr.step() {
            Some(_) => {
                assert!(tr.stream.len() < last);
                last = tr.stream.len();
            }
            None => {
                assert_eq!(tr.stream.len(), last);
                assert!(tr.stream.len() < 2);
                break;
            }
        }
    }
}

#[test]
fn vocabulary_growth_is_bounded() {
    let init = Trainer::init_fresh("ab ab ab").token_list.len();
    for iterations in [0usize, 1, 2, 5] {
        let model = Tokenizer::train_cpu("ab ab ab", iterations);
        assert!(model.vocab_size() <= init + iterations);
    }
}

#[test]
fn zero_iterations_keeps_characters_only() {
    let model = Tokenizer::train_cpu("hi", 0);
    assert!(has_token(&model, "h"));
    assert!(has_token(&model, "i"));
    assert!(has_token(&model, "<unk>"));
    assert!(has_token(&model, " "));
    assert!(model.get_merge_rules().is_empty());
    // Reload from its own snapshot and encode.
    let reloaded = Tokenizer::from_snapshot(
        model.get_vocabulary(),
        model.get_merge_rules(),
        model.get_config(),
    )
    .unwrap();
    let h = reloaded.get_index("h").unwrap();
    let i = reloaded.get_index("i").unwrap();
    assert_eq!(reloaded.tokenize("hi"), vec![h, i]);
}

#[test]
fn repeated_word_becomes_one_token() {
    let model = Tokenizer::train_cpu("the the the the", 2);
    assert!(has_token(&model, "the"));
    let the = model.get_index("the").unwrap();
    assert_eq!(model.tokenize("the"), vec![the]);
}

#[test]
fn vocabulary_has_no_duplicates_after_training() {
    let model = Tokenizer::train_cpu("abra kadabra abra kadabra", 20);
    let mut vocab = model.get_vocabulary();
    vocab.sort();
    assert!(!vocab.windows(2).any(|w| w[0] == w[1]));
}

#[test]
fn training_ignores_case_and_collapses_spaces() {
    let mut tr = Trainer::init_fresh("  A  b \n c ");
    // Leading and trailing whitespace emit no separator; runs collapse.
    assert_eq!(tr.stream, vec![9, 6, 10, 6, 11]);
    let model = tr.finish();
    assert!(has_token(&model, "a"));
    assert!(!has_token(&model, "A"));
}

#[test]
fn validate_tokenizer_round_trip() {
    let text = "The quick brown fox jumps over the lazy dog, \
                while pack_my_box_with_five_dozen_liquor_jugs! \
                Testing, 1234... How's that? #Tokenizer-Challenge!";
    let model = Tokenizer::train_cpu(text, 50);

    let mut vocab = model.get_vocabulary();
    vocab.sort();
    assert!(!vocab.windows(2).any(|w| w[0] == w[1]));

    let tokens = model.tokenize(text);
    let token_vals = model.get_tokens(&tokens).unwrap();
    let token_indices = model.get_indices(&token_vals).unwrap();
    assert_eq!(token_indices, tokens);

    let detokenized = model.detokenize(&tokens);
    let expected = Tokenizer::clean_text(text);
    assert_eq!(detokenized.trim(), expected.trim());
    assert_eq!(detokenized, expected);
}

#[test]
fn resume_training_extends_model() {
    let base = Tokenizer::train_cpu("ab ab ab", 0);
    let resumed = Tokenizer::train_resume("ab ab", 1, &base).unwrap();
    assert!(resumed.get_index("ab").is_some());
    assert!(resumed.vocab_size() <= base.vocab_size() + 1);
    // The merge actually happened, and the base model is a prefix.
    assert_eq!(resumed.get_merge_rules(), vec![("a".to_string(), "b".to_string())]);
    let base_vocab = base.get_vocabulary();
    let resumed_vocab = resumed.get_vocabulary();
    assert_eq!(&resumed_vocab[..base_vocab.len()], &base_vocab[..]);
}

#[test]
fn resume_rejects_unknown_character() {
    let base = Tokenizer::train_cpu("hi", 0);
    assert!(matches!(
        Tokenizer::train_resume("hix", 1, &base),
        Err(BpeError::UnknownCharacter)
    ));
    assert!(Tokenizer::train_resume("hi ih", 1, &base).is_ok());
}

#[test]
fn encode_decode_round_trip_on_trained_model() {
    let corpus = "hello world wonderful world";
    let model = Tokenizer::train_cpu(corpus, 10);
    for text in ["hello world", "HELLO WORLD", "low dew", "hello  world"] {
        let tokens = model.tokenize(text);
        assert_eq!(model.detokenize(&tokens), Tokenizer::clean_text(text));
    }
}
