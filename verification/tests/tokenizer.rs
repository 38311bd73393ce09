use bpe::errors::TokenizerError;
use bpe::model::BpeModel;
use bpe::trainer::BpeTrainer;

#[test]
fn test_encoding_decoding() -> Result<(), TokenizerError> {
    let mut model = BpeModel::new();
    model.vocab.push("a".into());
    model.vocab.push("b".into());
    model.vocab.push("</w>".into());
    model.vocab.push("aa".into());
    model.vocab.push("bb".into());
    model.merges = vec![("a".into(), "a".into()), ("b".into(), "b".into())];

    let encoded = model.encode("aaabbb")?;
    assert_eq!(encoded, vec![3, 0, 4, 1, 2]);

    let decoded = model.decode(&encoded)?;
    assert_eq!(decoded, "aaabbb");
    Ok(())
}

#[test]
fn test_integration() -> Result<(), TokenizerError> {
    let corpus = "low low low low low low water";
    let trainer = BpeTrainer::new(3);
    let model = trainer.train(corpus)?;

    let encoded = model.encode("lower")?;
    let decoded = model.decode(&encoded)?;
    assert_eq!(decoded, "lower");
    Ok(())
}

#[test]
fn test_trainer() -> Result<(), TokenizerError> {
    let corpus = "aaabbb";
    let trainer = BpeTrainer::new(2);
    let model = trainer.train(corpus)?;

    assert_eq!(model.merges, vec![
        ("a".to_string(), "a".to_string()),
        ("b".to_string(), "b".to_string())
    ]);

    assert!(model.vocab.contains(&"aa".to_string()));
    assert!(model.vocab.contains(&"bb".to_string()));

    let encoded = model.encode(corpus)?;
    let decoded = model.decode(&encoded)?;
    assert_eq!(decoded, "aaabbb");
    Ok(())
}

#[test]
fn trained_vocab_assigns_sequential_ids_in_first_appearance_order() {
    let trainer = BpeTrainer::new(2);
    let model = trainer.train("aaabbb").unwrap();
    assert_eq!(
        model.vocab,
        vec![
            "a".to_string(),
            "b".to_string(),
            "</w>".to_string(),
            "aa".to_string(),
            "bb".to_string()
        ]
    );
}

#[test]
fn encode_unknown_codepoint_fails_naming_the_symbol() {
    let trainer = BpeTrainer::new(2);
    let model = trainer.train("aaabbb").unwrap();
    match model.encode("abc") {
        Err(TokenizerError::VocabError(msg)) => {
            assert_eq!(msg, "Token 'c' not in vocabulary");
        }
        Ok(_) => panic!("encoding an unknown codepoint must fail"),
    }
}

#[test]
fn decode_id_past_the_maximum_fails_naming_the_id() {
    let trainer = BpeTrainer::new(2);
    let model = trainer.train("aaabbb").unwrap();
    let max_id = (model.vocab.len() - 1) as u32;
    match model.decode(&[max_id + 1]) {
        Err(TokenizerError::VocabError(msg)) => {
            assert_eq!(msg, "ID '5' not found");
        }
        Ok(_) => panic!("decoding an unassigned id must fail"),
    }
}

#[test]
fn decode_large_id_renders_its_digits() {
    let model = BpeModel::new();
    match model.decode(&[4294967295]) {
        Err(TokenizerError::VocabError(msg)) => {
            assert_eq!(msg, "ID '4294967295' not found");
        }
        Ok(_) => panic!("decoding into an empty vocabulary must fail"),
    }
}

#[test]
fn error_message_carries_the_category_prefix() {
    let trainer = BpeTrainer::new(0);
    let model = trainer.train("a").unwrap();
    match model.encode("z") {
        Err(e) => assert_eq!(e.message(), "Vocabulary error: Token 'z' not in vocabulary"),
        Ok(_) => panic!("encoding an unknown codepoint must fail"),
    }
}

#[test]
fn empty_corpus_trains_an_empty_model() {
    let trainer = BpeTrainer::new(5);
    let model = trainer.train("").unwrap();
    assert!(model.merges.is_empty());
    assert!(model.vocab.is_empty());
    assert_eq!(model.decode(&[]).unwrap(), "");
}

#[test]
fn training_stops_early_when_pairs_run_out() {
    let trainer = BpeTrainer::new(10);
    let model = trainer.train("ab").unwrap();
    assert_eq!(
        model.merges,
        vec![
            ("a".to_string(), "b".to_string()),
            ("ab".to_string(), "</w>".to_string())
        ]
    );
}

#[test]
fn encode_of_fully_reduced_text_is_the_plain_segmentation() {
    let trainer = BpeTrainer::new(2);
    let model = trainer.train("aaabbb").unwrap();
    // "ab" never matches a learned rule, so its ids are the raw symbols'
    let encoded = model.encode("ab").unwrap();
    assert_eq!(encoded, vec![0, 1, 2]);
}

#[test]
fn encode_applies_rules_in_learn_order() -> Result<(), TokenizerError> {
    let corpus = "low low low low low low water";
    let trainer = BpeTrainer::new(3);
    let model = trainer.train(corpus)?;
    assert_eq!(
        model.merges,
        vec![
            ("l".to_string(), "o".to_string()),
            ("lo".to_string(), "w".to_string()),
            ("low".to_string(), "</w>".to_string())
        ]
    );
    let encoded = model.encode("low")?;
    let decoded = model.decode(&encoded)?;
    assert_eq!(decoded, "low");
    Ok(())
}

#[test]
fn encode_whitespace_not_in_vocabulary_fails() {
    let trainer = BpeTrainer::new(0);
    let model = trainer.train("low water").unwrap();
    match model.encode("low water") {
        Err(TokenizerError::VocabError(msg)) => {
            assert_eq!(msg, "Token ' ' not in vocabulary");
        }
        Ok(_) => panic!("a space is never in a trained vocabulary"),
    }
}

#[test]
fn decode_turns_markers_into_spaces_and_trims() {
    let mut model = BpeModel::new();
    model.vocab.push("a".into());
    model.vocab.push("</w>".into());
    assert_eq!(model.decode(&[0, 1, 0, 1]).unwrap(), "a a");
    assert_eq!(model.decode(&[1, 0, 1]).unwrap(), "a");
}

#[test]
fn add_merge_registers_the_merged_symbol_once() {
    let mut model = BpeModel::new();
    model.vocab.push("x".into());
    model.add_merge(("x".into(), "x".into()));
    assert_eq!(model.vocab, vec!["x".to_string(), "xx".to_string()]);
    model.add_merge(("x".into(), "x".into()));
    assert_eq!(model.vocab, vec!["x".to_string(), "xx".to_string()]);
    assert_eq!(model.merges.len(), 2);
}

#[test]
fn preprocess_splits_on_unicode_whitespace() {
    let trainer = BpeTrainer::new(0);
    // U+00A0 (no-break space) separates words just as an ASCII space does
    let model = trainer.train("a\u{a0}b").unwrap();
    assert_eq!(
        model.vocab,
        vec!["a".to_string(), "</w>".to_string(), "b".to_string()]
    );
}

#[test]
fn decode_trims_unicode_whitespace() {
    let mut model = BpeModel::new();
    model.vocab.push("a".into());
    model.vocab.push("\u{a0}".into());
    model.vocab.push("\u{2028}".into());
    assert_eq!(model.decode(&[1, 0, 1]).unwrap(), "a");
    assert_eq!(model.decode(&[2, 0, 2]).unwrap(), "a");
}

#[test]
fn round_trip_preserves_single_word_text() {
    let trainer = BpeTrainer::new(4);
    let model = trainer.train("banana bandana").unwrap();
    let encoded = model.encode("banana").unwrap();
    let decoded = model.decode(&encoded).unwrap();
    assert_eq!(decoded, "banana");
}
