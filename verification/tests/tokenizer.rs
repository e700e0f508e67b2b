use auralis::tokenizer::CharTokenizer;

#[test]
fn roundtrip() {
    let t = CharTokenizer::fit("hola rust");
    assert_eq!(t.decode(&t.encode("hola")), "hola");
}

#[test]
fn fitted_vocabulary_is_the_distinct_characters_plus_newline_and_space() {
    let t = CharTokenizer::fit("abba");
    assert_eq!(t.vocab_size(), 4);
    assert_eq!(CharTokenizer::fit("a b\n").vocab_size(), 4);
    assert_eq!(CharTokenizer::fit("").vocab_size(), 2);
    assert_eq!(t.decode(&t.encode("abab")), "abab");
}
