use simple_llm::bpe_tokenizer::{
    build_tokenizer, iteration, merge_ids, tokenize_text, train, BpeTokenizer, TokenizerState,
};
use simple_llm::multi_train::build_tokenizer_from_text;
use simple_llm::pair_table::PairTable;
use simple_llm::tokenizer::Tokenizer;

fn base_tokenizer() -> BpeTokenizer {
    build_tokenizer(TokenizerState {
        merge: PairTable::new(),
        data_as_tokens: Vec::new(),
        next_id: 256,
    })
}

fn tokenizer_with_merges(merges: &[((u32, u32), u32)]) -> BpeTokenizer {
    let next_id = merges
        .iter()
        .map(|(_, id)| *id)
        .max()
        .map_or(256, |id| id + 1);
    let mut table = PairTable::new();
    for &(pair, id) in merges {
        table.insert(pair, id);
    }
    build_tokenizer(TokenizerState {
        merge: table,
        data_as_tokens: Vec::new(),
        next_id,
    })
}

#[test]
fn base_encoder_uses_utf8_bytes() {
    let tokenizer = base_tokenizer();
    let text = "blå";
    let expected: Vec<u32> = text.bytes().map(u32::from).collect();

    let ids = tokenizer.encode(text);

    assert_eq!(ids, expected);
    assert_eq!(tokenizer.decode(&ids), text);
    assert_eq!(tokenizer.vocab_size(), 256);
}

#[test]
fn angle_bracketed_text_is_encoded_as_ordinary_bytes() {
    let tokenizer = base_tokenizer();
    let text = "a<MARKER>b";

    assert_eq!(
        tokenizer.encode(text),
        text.bytes().map(u32::from).collect::<Vec<_>>()
    );
    assert_eq!(tokenizer.decode(&tokenizer.encode(text)), text);
}

#[test]
fn merges_are_applied_by_learned_priority_until_no_pair_remains() {
    let tokenizer = tokenizer_with_merges(&[
        ((u32::from(b'a'), u32::from(b'b')), 256),
        ((256, u32::from(b'c')), 257),
        ((u32::from(b'b'), u32::from(b'c')), 258),
    ]);

    assert_eq!(tokenizer.encode("abc"), vec![257]);
    assert_eq!(tokenizer.decode(&[257]), "abc");
}

#[test]
fn a_merge_replaces_non_overlapping_occurrences() {
    let tokenizer = tokenizer_with_merges(&[((u32::from(b'a'), u32::from(b'a')), 256)]);

    assert_eq!(tokenizer.encode("aaaaa"), vec![256, 256, u32::from(b'a')]);
}

#[test]
fn angle_bracketed_text_can_be_merged() {
    let tokenizer = tokenizer_with_merges(&[((u32::from(b'<'), u32::from(b'E')), 256)]);

    assert_eq!(
        tokenizer.encode("<EX>"),
        vec![256, u32::from(b'X'), u32::from(b'>')]
    );
}

#[test]
fn decode_reconstructs_base_and_merged_tokens_and_skips_unknown_ids() {
    let tokenizer = tokenizer_with_merges(&[((u32::from(b'H'), u32::from(b'i')), 256)]);

    assert_eq!(tokenizer.decode(&[256, u32::from(b'!'), 999]), "Hi!");
}

#[test]
fn merge_ids_replaces_pairs_without_overlapping() {
    let mut tokens = vec![1, 1, 1, 1, 1];

    merge_ids(&mut tokens, &1, &1, 2);

    assert_eq!(tokens, vec![2, 2, 1]);
}

#[test]
fn training_iteration_selects_the_most_frequent_pair() {
    let state = TokenizerState {
        merge: PairTable::new(),
        data_as_tokens: vec![
            u32::from(b'a'),
            u32::from(b'b'),
            u32::from(b'a'),
            u32::from(b'b'),
        ],
        next_id: 256,
    };

    let (was_merged, state) = iteration(state);

    assert!(was_merged);
    assert_eq!(
        state.merge.get(&(u32::from(b'a'), u32::from(b'b'))),
        Some(&256)
    );
    assert_eq!(state.data_as_tokens, vec![256, 256]);
    assert_eq!(state.next_id, 257);
}

#[test]
fn trained_tokenizer_roundtrips_text_and_respects_target_vocab_size() {
    let text = "abababab";
    let state = train(text, 258);

    assert!(state.next_id <= 258);

    let tokenizer = build_tokenizer(state);
    let ids = tokenizer.encode(text);
    assert_eq!(tokenizer.decode(&ids), text);
}

#[test]
fn tokenize_text_gives_one_id_per_utf8_byte() {
    assert_eq!(tokenize_text("å!"), vec![0xc3, 0xa5, 0x21]);
    assert!(tokenize_text("").is_empty());
}

#[test]
fn merge_ids_leaves_data_without_the_pair_unchanged() {
    let mut tokens = vec![1, 2, 1, 3];
    merge_ids(&mut tokens, &2, &2, 9);
    assert_eq!(tokens, vec![1, 2, 1, 3]);

    let mut empty: Vec<u32> = Vec::new();
    merge_ids(&mut empty, &1, &1, 9);
    assert!(empty.is_empty());
}

#[test]
fn merge_ids_merges_a_pair_of_different_ids_wherever_it_occurs() {
    let mut tokens = vec![1, 2, 2, 1, 2, 1];
    merge_ids(&mut tokens, &1, &2, 7);
    assert_eq!(tokens, vec![7, 2, 7, 1]);
}

#[test]
fn iteration_stops_when_no_pair_occurs_twice() {
    let state = TokenizerState {
        merge: PairTable::new(),
        data_as_tokens: vec![1, 2, 3, 4],
        next_id: 256,
    };

    let (was_merged, state) = iteration(state);

    assert!(!was_merged);
    assert_eq!(state.data_as_tokens, vec![1, 2, 3, 4]);
    assert_eq!(state.next_id, 256);
    assert!(state.merge.entries().is_empty());
}

#[test]
fn training_stops_early_when_nothing_repeats() {
    let state = train("abcd", 300);

    assert_eq!(state.next_id, 256);
    assert_eq!(state.data_as_tokens, tokenize_text("abcd"));
}

#[test]
fn training_learns_nested_merges_in_id_order() {
    let state = train("aaaaaaaa", 300);

    assert_eq!(state.merge.get(&(97, 97)), Some(&256));
    assert_eq!(state.merge.get(&(256, 256)), Some(&257));
    assert_eq!(state.next_id, 258);
    assert_eq!(state.data_as_tokens, vec![257, 257]);

    let tokenizer = build_tokenizer(state);
    assert_eq!(tokenizer.vocab_size(), 258);
    assert_eq!(tokenizer.encode("aaaaaa"), vec![257, 256]);
    assert_eq!(tokenizer.decode(&[257, 256]), "aaaaaa");
}

#[test]
fn a_trained_tokenizer_roundtrips_unseen_unicode_text() {
    let tokenizer = build_tokenizer_from_text("blåbær og blåbær og blåbær", 270);
    let text = "blå crème brûlée, blåbær!";

    let ids = tokenizer.encode(text);

    assert!(ids.len() < text.len());
    assert_eq!(tokenizer.decode(&ids), text);
    assert!(tokenizer.vocab_size() <= 270);
}

#[test]
fn decode_replaces_invalid_utf8_with_the_replacement_character() {
    let tokenizer = base_tokenizer();

    assert_eq!(tokenizer.decode(&[0x61, 0xff, 0x62]), "a\u{FFFD}b");
    assert_eq!(tokenizer.decode(&[]), "");
}

#[test]
fn iteration_breaks_ties_by_the_smallest_pair() {
    let state = TokenizerState {
        merge: PairTable::new(),
        data_as_tokens: vec![97, 98, 99, 97, 98, 99],
        next_id: 256,
    };

    let (was_merged, state) = iteration(state);

    assert!(was_merged);
    assert_eq!(state.merge.entries(), vec![((97, 98), 256)]);
    assert_eq!(state.data_as_tokens, vec![256, 99, 256, 99]);
}

#[test]
fn equal_states_give_equal_training_rounds() {
    for _ in 0..5 {
        let first = iteration(TokenizerState {
            merge: PairTable::new(),
            data_as_tokens: vec![5, 6, 7, 8, 5, 6, 7, 8],
            next_id: 300,
        });
        assert!(first.0);
        assert_eq!(first.1.merge.entries(), vec![((5, 6), 300)]);
        assert_eq!(first.1.data_as_tokens, vec![300, 7, 8, 300, 7, 8]);
        assert_eq!(first.1.next_id, 301);
    }
}

#[test]
fn a_round_without_repeated_pairs_leaves_the_last_id_alone() {
    let state = TokenizerState {
        merge: PairTable::new(),
        data_as_tokens: vec![1, 2, 3],
        next_id: u32::MAX,
    };

    let (was_merged, state) = iteration(state);

    assert!(!was_merged);
    assert_eq!(state.data_as_tokens, vec![1, 2, 3]);
    assert_eq!(state.next_id, u32::MAX);
}

#[test]
fn training_twice_gives_the_same_rules() {
    let text = "one two three. one two three. one two three.";
    let first = train(text, 280);
    let second = train(text, 280);

    let mut first_rules = first.merge.entries();
    let mut second_rules = second.merge.entries();
    first_rules.sort();
    second_rules.sort();
    assert_eq!(first_rules, second_rules);
    assert_eq!(first.data_as_tokens, second.data_as_tokens);
    assert_eq!(first.next_id, second.next_id);
    assert_eq!(first.next_id as usize, 256 + first_rules.len());
}

#[test]
fn encoding_the_training_text_gives_the_trained_data() {
    let text = "blåbær og blåbær og blåbær";
    let state = train(text, 270);
    let trained = state.data_as_tokens.clone();

    let tokenizer = build_tokenizer(state);

    assert_eq!(tokenizer.encode(text), trained);
    assert_eq!(tokenizer.decode(&trained), text);
}

#[test]
fn merged_data_expands_back_into_the_original() {
    let original = vec![4, 5, 4, 5, 5, 4];
    let mut data = original.clone();
    merge_ids(&mut data, &4, &5, 9);

    assert_eq!(data, vec![9, 9, 5, 4]);
    let expanded: Vec<u32> = data
        .iter()
        .flat_map(|&t| if t == 9 { vec![4, 5] } else { vec![t] })
        .collect();
    assert_eq!(expanded, original);
    assert_eq!(data.len(), original.len() - data.iter().filter(|&&t| t == 9).count());
}
