use router::casing::{to_case, NameCase};

#[test]
fn should_convert_an_ident_to_kebab_case() {
    assert_eq!(to_case("String", &NameCase::Lower), "string".to_string());
    assert_eq!(to_case("TwoWords", &NameCase::Lower), "two-words".to_string());
    assert_eq!(
        to_case("SomeManyWordsHere", &NameCase::Lower),
        "some-many-words-here".to_string(),
    );
}

#[test]
fn should_convert_an_ident_to_sentence_case() {
    assert_eq!(to_case("someWords", &NameCase::Sentence), "Some-words".to_string());
    assert_eq!(to_case("Word", &NameCase::Sentence), "Word".to_string());
}
