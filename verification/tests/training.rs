use simple_llm::multi_train::{self, top_token_ids};
use simple_llm::tokenizer::{Token, Tokenizer};
use simple_llm::training::{self, build_bpe_tokenizer_from_text, snapshot_schedule};

#[test]
fn snapshot_schedule_spreads_snapshots_evenly_from_epoch_zero() {
    assert_eq!(snapshot_schedule(10, 4), vec![0, 2, 5, 7]);
    assert_eq!(snapshot_schedule(100, 5), vec![0, 20, 40, 60, 80]);
}

#[test]
fn snapshot_schedule_takes_equal_epochs_once() {
    assert_eq!(snapshot_schedule(2, 5), vec![0, 1]);
    assert_eq!(snapshot_schedule(1, 3), vec![0]);
}

#[test]
fn snapshot_schedule_is_empty_without_epochs_or_snapshots() {
    assert!(snapshot_schedule(0, 3).is_empty());
    assert!(snapshot_schedule(10, 0).is_empty());
}

#[test]
fn parameter_counts_sum_every_layer() {
    let counts = training::ParameterCounts {
        embedding: 12,
        attention: 48,
        output: 12,
    };
    assert_eq!(counts.total(), 72);

    let counts = multi_train::ParameterCounts {
        embedding: 3,
        attention: 0,
        output: 5,
    };
    assert_eq!(counts.total(), 8);
}

#[test]
fn top_token_ids_rank_by_key_then_by_smaller_id() {
    assert_eq!(top_token_ids(&[0, 5, 0], 3), vec![1, 0, 2]);
    assert_eq!(top_token_ids(&[3, 7, 7, 1], 3), vec![1, 2, 0]);
    assert_eq!(top_token_ids(&[-4, -1, -9], 1), vec![1]);
}

#[test]
fn top_token_ids_are_limited_by_the_vocabulary() {
    assert_eq!(top_token_ids(&[2, 1], 10), vec![0, 1]);
    assert!(top_token_ids(&[2, 1], 0).is_empty());
    assert!(top_token_ids(&[], 4).is_empty());
}

#[test]
fn both_bpe_builders_learn_tokenizers_that_roundtrip_their_text() {
    let text = "one two three. one two three. one two three.";
    let first = build_bpe_tokenizer_from_text(text, 280);
    let second = multi_train::build_tokenizer_from_text(text, 280);

    assert_eq!(first.vocab, second.vocab);
    for tokenizer in [&first, &second] {
        let ids = tokenizer.encode(text);
        assert_eq!(tokenizer.decode(&ids), text);
        assert!(ids.len() < text.len());
        assert!(tokenizer.vocab_size() <= 280);
        assert!(tokenizer.vocab_size() > 256);
    }
}

#[test]
fn a_target_at_or_below_the_byte_vocabulary_learns_nothing() {
    let tokenizer = build_bpe_tokenizer_from_text("aaaa", 200);

    assert_eq!(tokenizer.vocab_size(), 256);
    assert_eq!(tokenizer.encode("aaaa"), vec![97, 97, 97, 97]);
}

#[test]
fn tokens_keep_their_id_and_span() {
    assert_eq!(Token::new(3, 0, 4), Token::new(3, 0, 4));
    assert_ne!(Token::new(3, 0, 4), Token::new(4, 0, 4));
    assert_ne!(Token::new(3, 0, 4), Token::new(3, 1, 4));
    assert_ne!(Token::new(3, 0, 4), Token::new(3, 0, 5));
}

#[test]
fn snapshot_schedules_start_at_zero_and_are_never_longer_than_needed() {
    for epochs in 1..12 {
        for count in 1..12 {
            let schedule = snapshot_schedule(epochs, count);
            assert_eq!(schedule[0], 0);
            assert!(schedule.len() <= count.min(epochs));
        }
    }
}
