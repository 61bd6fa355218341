use simple_llm::arguments::{
    parse_arg_list, parse_unsigned, Args, ArgsError, TokenizerKind, DEFAULT_SEED,
};

#[test]
fn tokenizer_kind_defaults_to_word() {
    assert_eq!(TokenizerKind::default(), TokenizerKind::Word);
}

#[test]
fn default_seed_is_stable() {
    assert_eq!(DEFAULT_SEED, 42);
}

#[test]
fn tokenizer_kind_parses_supported_cli_values() {
    assert_eq!("word".parse(), Ok(TokenizerKind::Word));
    assert_eq!("bpe".parse(), Ok(TokenizerKind::Bpe));
}

#[test]
fn tokenizer_kind_rejects_unsupported_cli_values() {
    let error = "characters"
        .parse::<TokenizerKind>()
        .expect_err("unsupported tokenizer should fail");

    assert_eq!(
        error,
        "Invalid tokenizer: characters. Expected 'word' or 'bpe'"
    );
}

#[test]
fn tokenizer_kind_names_round_trip_through_the_parser() {
    for kind in [TokenizerKind::Word, TokenizerKind::Bpe] {
        assert_eq!(TokenizerKind::from_cli_value(kind.name()), Ok(kind));
    }
    assert_eq!(TokenizerKind::Word.name(), "word");
    assert_eq!(TokenizerKind::Bpe.name(), "bpe");
}

#[test]
fn tokenizer_kind_parsing_is_case_sensitive_and_rejects_empty_names() {
    assert_eq!(
        TokenizerKind::from_cli_value("BPE"),
        Err("Invalid tokenizer: BPE. Expected 'word' or 'bpe'".to_string())
    );
    assert_eq!(
        TokenizerKind::from_cli_value(""),
        Err("Invalid tokenizer: . Expected 'word' or 'bpe'".to_string())
    );
}


fn strings(items: &[&str]) -> Vec<String> {
    items.iter().map(|item| item.to_string()).collect()
}

#[test]
fn a_file_and_a_prompt_use_the_default_settings() {
    let args = parse_arg_list(&strings(&["training.txt", "hello"])).unwrap();

    assert_eq!(
        args,
        Args {
            tokenizer: TokenizerKind::Word,
            vocab_size: 256,
            epochs: 100,
            seq_len: 3,
            d_model: 8,
            learning_rate: None,
            seed: DEFAULT_SEED,
            trace: false,
            file_paths: strings(&["training.txt"]),
            prompt: "hello".to_string(),
        }
    );
}

#[test]
fn options_set_their_values_and_the_last_positional_is_the_prompt() {
    let args = parse_arg_list(&strings(&[
        "-tokenizer=bpe",
        "-vocab=300",
        "-seq-len=20",
        "a.txt",
        "-epochs=7",
        "b.txt",
        "-d-model=16",
        "-seed=9",
        "-learning-rate=0.05",
        "a b",
    ]))
    .unwrap();

    assert_eq!(args.tokenizer, TokenizerKind::Bpe);
    assert_eq!(args.vocab_size, 300);
    assert_eq!(args.seq_len, 20);
    assert_eq!(args.epochs, 7);
    assert_eq!(args.d_model, 16);
    assert_eq!(args.seed, 9);
    assert_eq!(args.learning_rate, Some("0.05".to_string()));
    assert_eq!(args.file_paths, strings(&["a.txt", "b.txt"]));
    assert_eq!(args.prompt, "a b");
}

#[test]
fn numbers_that_do_not_read_fall_back_to_the_defaults() {
    let args = parse_arg_list(&strings(&[
        "-vocab=abc",
        "-epochs=-3",
        "-seq-len=",
        "-d-model= 4",
        "-seed=18446744073709551616",
        "f.txt",
        "p",
    ]))
    .unwrap();

    assert_eq!(args.vocab_size, 256);
    assert_eq!(args.epochs, 100);
    assert_eq!(args.seq_len, 3);
    assert_eq!(args.d_model, 8);
    assert_eq!(args.seed, DEFAULT_SEED);

    let args = parse_arg_list(&strings(&["-vocab=4294967296", "f.txt", "p"])).unwrap();
    assert_eq!(args.vocab_size, 256);
    let args = parse_arg_list(&strings(&["-vocab=4294967295", "-seq-len=+5", "f.txt", "p"])).unwrap();
    assert_eq!(args.vocab_size, u32::MAX);
    assert_eq!(args.seq_len, 5);
}

#[test]
fn the_last_learning_rate_given_is_kept_as_text() {
    let args = parse_arg_list(&strings(&[
        "-learning-rate=0.05",
        "-learning-rate=fast",
        "f.txt",
        "p",
    ]))
    .unwrap();

    assert_eq!(args.learning_rate, Some("fast".to_string()));
}

#[test]
fn refused_command_lines_give_their_error() {
    assert_eq!(parse_arg_list(&[]), Err(ArgsError::MissingArguments));
    assert_eq!(
        parse_arg_list(&strings(&["-tokenizer=characters", "f.txt", "p"])),
        Err(ArgsError::InvalidTokenizer(
            "Invalid tokenizer: characters. Expected 'word' or 'bpe'".to_string()
        ))
    );
    assert_eq!(
        parse_arg_list(&strings(&["f.txt", "-count=3", "p"])),
        Err(ArgsError::UnknownOption("-count=3".to_string()))
    );
    assert_eq!(
        parse_arg_list(&strings(&["-tokenizer", "f.txt", "p"])),
        Err(ArgsError::UnknownOption("-tokenizer".to_string()))
    );
    assert_eq!(
        parse_arg_list(&strings(&["-seed=7"])),
        Err(ArgsError::NoTrainingFiles)
    );
}

#[test]
fn the_first_refused_argument_decides_the_error() {
    assert_eq!(
        parse_arg_list(&strings(&["-x", "-tokenizer=none", "f.txt", "p"])),
        Err(ArgsError::UnknownOption("-x".to_string()))
    );
}

#[test]
fn a_single_positional_argument_is_the_prompt() {
    let args = parse_arg_list(&strings(&["only"])).unwrap();

    assert!(args.file_paths.is_empty());
    assert_eq!(args.prompt, "only");
}

#[test]
fn unsigned_numbers_read_as_rust_reads_them() {
    assert_eq!(parse_unsigned("0", 10), Some(0));
    assert_eq!(parse_unsigned("007", 10), Some(7));
    assert_eq!(parse_unsigned("+5", 10), Some(5));
    assert_eq!(parse_unsigned("10", 10), Some(10));
    assert_eq!(parse_unsigned("11", 10), None);
    assert_eq!(parse_unsigned("", 10), None);
    assert_eq!(parse_unsigned("+", 10), None);
    assert_eq!(parse_unsigned("-5", 10), None);
    assert_eq!(parse_unsigned(" 5", 10), None);
    assert_eq!(parse_unsigned("5 ", 10), None);
    assert_eq!(parse_unsigned("٣", 10), None);
    assert_eq!(parse_unsigned("18446744073709551615", u64::MAX), Some(u64::MAX));
    assert_eq!(parse_unsigned("18446744073709551616", u64::MAX), None);
    assert_eq!(parse_unsigned("99999999999999999999999", u64::MAX), None);
}

#[test]
fn the_trace_flag_asks_for_the_prediction_trace() {
    let args = parse_arg_list(&strings(&["-trace", "-epochs=6000", "kommuner_demo.txt", "bergen ligger i"])).unwrap();

    assert!(args.trace);
    assert_eq!(args.epochs, 6000);
    assert_eq!(args.file_paths, strings(&["kommuner_demo.txt"]));
    assert_eq!(args.prompt, "bergen ligger i");

    assert_eq!(
        parse_arg_list(&strings(&["-trace=yes", "f.txt", "p"])),
        Err(ArgsError::UnknownOption("-trace=yes".to_string()))
    );
}
