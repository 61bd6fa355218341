use simple_llm::sliding_window::sliding_windows;

#[test]
fn creates_overlapping_sequences_with_next_token_as_target() {
    let tokens = [1, 2, 3, 4, 5];

    let windows: Vec<_> = sliding_windows(&tokens, 3);

    assert_eq!(windows, vec![(&tokens[0..3], 4), (&tokens[1..4], 5)]);
}

#[test]
fn returns_no_windows_when_sequence_is_too_short() {
    let tokens = [1, 2, 3];

    assert_eq!(sliding_windows(&tokens, 3).len(), 0);
}

#[test]
fn zero_length_windows_pair_every_token_with_an_empty_context() {
    let tokens = [7, 8];
    let empty: &[u32] = &[];

    assert_eq!(sliding_windows(&tokens, 0), vec![(empty, 7), (empty, 8)]);
}

#[test]
fn a_sequence_one_longer_than_the_window_gives_exactly_one_window() {
    let tokens = [4, 5, 6];

    assert_eq!(sliding_windows(&tokens, 2), vec![(&tokens[0..2], 6)]);
}
