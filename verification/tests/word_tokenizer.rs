use simple_llm::tokenizer::Tokenizer;
use simple_llm::word_tokenizer::{is_delimiter, split_words, WordTokenizer};

#[test]
fn delimiter_recognizes_whitespace_and_supported_punctuation() {
    for delimiter in [' ', '\t', '\n', ',', '.', '!', '?'] {
        assert!(
            is_delimiter(delimiter),
            "{delimiter:?} should be a delimiter"
        );
    }
    for non_delimiter in ['a', '7', '-', '\'', 'å'] {
        assert!(
            !is_delimiter(non_delimiter),
            "{non_delimiter:?} should not be a delimiter"
        );
    }
}

#[test]
fn split_words_separates_words_and_each_punctuation_mark() {
    assert_eq!(
        split_words("Hei,\tverden! Hva? Ja..."),
        vec!["Hei", ",", "verden", "!", "Hva", "?", "Ja", ".", ".", "."]
    );
}

#[test]
fn split_words_preserves_unicode_inside_words_and_ignores_empty_segments() {
    assert_eq!(
        split_words("  blåbær   og\n crème brûlée  "),
        vec!["blåbær", "og", "crème", "brûlée"]
    );
    assert!(split_words(" \t\n").is_empty());
}

#[test]
fn build_assigns_unique_tokens_in_first_seen_order() {
    let tokenizer = WordTokenizer::build("hei verden hei !");

    assert_eq!(tokenizer.vocab_size(), 3);
    assert_eq!(tokenizer.word(0), Some("hei"));
    assert_eq!(tokenizer.word(1), Some("verden"));
    assert_eq!(tokenizer.word(2), Some("!"));
    assert_eq!(tokenizer.word(3), None);
}

#[test]
fn encode_uses_vocabulary_ids_for_words_and_punctuation() {
    let tokenizer = WordTokenizer::build("Hei, verden! Hei?");

    assert_eq!(tokenizer.encode("Hei,\nverden?"), vec![0, 1, 2, 4]);
}

#[test]
fn encode_skips_unknown_tokens_and_is_case_sensitive() {
    let tokenizer = WordTokenizer::build("kjent !");

    assert_eq!(tokenizer.encode("ukjent kjent KJENT !"), vec![0, 1]);
}

#[test]
fn angle_bracketed_text_is_treated_as_an_ordinary_word() {
    let tokenizer = WordTokenizer::build("før <MARKER> etter");

    let ids = tokenizer.encode("før <MARKER> etter");

    assert_eq!(ids, vec![0, 1, 2]);
    assert_eq!(tokenizer.decode(&ids), "før <MARKER> etter");
}

#[test]
fn decode_joins_words_and_attaches_punctuation() {
    let tokenizer = WordTokenizer::build("Hei, verden!");

    assert_eq!(tokenizer.decode(&[0, 1, 2, 3]), "Hei, verden!");
    assert_eq!(tokenizer.decode(&[0, 1, 99, 2, 3]), "Hei, verden!");
}

#[test]
fn encode_decode_roundtrip_normalizes_whitespace_without_changing_tokens() {
    let tokenizer = WordTokenizer::build("Hei, verden! Hvordan går det?");
    let input = "Hei,\n\nverden!  Hvordan\tgår det?";

    let decoded = tokenizer.decode(&tokenizer.encode(input));

    assert_eq!(decoded, "Hei, verden! Hvordan går det?");
    assert_eq!(split_words(&decoded), split_words(input));
}

#[test]
fn split_words_treats_other_unicode_whitespace_as_a_delimiter() {
    assert!(is_delimiter('\u{00A0}'));
    assert!(is_delimiter('\u{3000}'));
    assert_eq!(split_words("a\u{00A0}b\u{3000}c"), vec!["a", "b", "c"]);
}

#[test]
fn an_empty_text_gives_an_empty_vocabulary() {
    let tokenizer = WordTokenizer::build("");

    assert_eq!(tokenizer.vocab_size(), 0);
    assert_eq!(tokenizer.word(0), None);
    assert!(tokenizer.encode("hei").is_empty());
    assert_eq!(tokenizer.decode(&[0, 1]), "");
}

#[test]
fn decode_starts_with_punctuation_without_a_leading_space() {
    let tokenizer = WordTokenizer::build("! hei ?");

    assert_eq!(tokenizer.decode(&[0, 1, 2, 0]), "! hei?!");
}

#[test]
fn a_known_text_survives_encode_then_decode_then_encode() {
    let tokenizer = WordTokenizer::build("one two three. one two three.");
    let ids = tokenizer.encode("three two one.");

    assert_eq!(ids, vec![2, 1, 0, 3]);
    assert_eq!(tokenizer.encode(&tokenizer.decode(&ids)), ids);
}

#[test]
fn whitespace_is_the_unicode_white_space_set() {
    for white in ['\u{9}', '\u{b}', '\u{c}', '\r', '\u{85}', '\u{1680}', '\u{2000}', '\u{200a}', '\u{2028}', '\u{2029}', '\u{202f}', '\u{205f}'] {
        assert!(is_delimiter(white), "{white:?} should be a delimiter");
    }
    for other in ['\u{200b}', '\u{180e}', '\u{feff}', '_'] {
        assert!(!is_delimiter(other), "{other:?} should not be a delimiter");
    }
}

#[test]
fn words_concatenate_to_the_text_without_whitespace() {
    let text = "  Hei,\tverden!  blå bær? ";
    let words = split_words(text);

    assert_eq!(words.concat(), text.chars().filter(|c| !c.is_whitespace()).collect::<String>());
}

#[test]
fn splitting_the_space_joined_words_gives_the_same_words() {
    let words = split_words("Hei,\n\nverden!  Hvordan\tgår det?");

    assert_eq!(split_words(&words.join(" ")), words);
}
