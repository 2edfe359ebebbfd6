use genealogy_core::relationship::format_relationship;
use genealogy_core::text::{push_decimal, same_text};
use genealogy_core::types::{parse_sex, sex_word, Sex};

#[test]
fn the_first_degrees_have_their_own_words() {
    assert_eq!(format_relationship(0), "Même personne");
    assert_eq!(format_relationship(1), "Lien parent/enfant");
    assert_eq!(format_relationship(2), "Fratrie ou grand-parent");
    assert_eq!(format_relationship(3), "Oncle/Tante ou arrière-grand-parent");
}

#[test]
fn further_degrees_are_given_as_a_number() {
    assert_eq!(format_relationship(4), "Relation au 4e degré");
    assert_eq!(format_relationship(10), "Relation au 10e degré");
    assert_eq!(format_relationship(305), "Relation au 305e degré");
    assert_eq!(format_relationship(u32::MAX), "Relation au 4294967295e degré");
}

#[test]
fn numbers_are_written_in_decimal_without_leading_zeros() {
    let mut text = String::from("n=");
    push_decimal(&mut text, 0);
    assert_eq!(text, "n=0");
    push_decimal(&mut text, 9);
    push_decimal(&mut text, 1000);
    push_decimal(&mut text, 4294967295);
    assert_eq!(text, "n=0910004294967295");
}

#[test]
fn three_spellings_of_each_sex_are_read() {
    assert_eq!(parse_sex("Male"), Sex::Male);
    assert_eq!(parse_sex("male"), Sex::Male);
    assert_eq!(parse_sex("M"), Sex::Male);
    assert_eq!(parse_sex("Female"), Sex::Female);
    assert_eq!(parse_sex("female"), Sex::Female);
    assert_eq!(parse_sex("F"), Sex::Female);
}

#[test]
fn any_other_word_reads_as_unknown() {
    assert_eq!(parse_sex("Unknown"), Sex::Unknown);
    assert_eq!(parse_sex(""), Sex::Unknown);
    assert_eq!(parse_sex("m"), Sex::Unknown);
    assert_eq!(parse_sex("MALE"), Sex::Unknown);
    assert_eq!(parse_sex("f"), Sex::Unknown);
    assert_eq!(parse_sex(" Male"), Sex::Unknown);
}

#[test]
fn the_stored_word_of_a_sex_reads_back() {
    assert_eq!(sex_word(Sex::Male), "Male");
    assert_eq!(sex_word(Sex::Female), "Female");
    assert_eq!(sex_word(Sex::Unknown), "Unknown");
    assert_eq!(parse_sex(sex_word(Sex::Male)), Sex::Male);
    assert_eq!(parse_sex(sex_word(Sex::Female)), Sex::Female);
    assert_eq!(parse_sex(sex_word(Sex::Unknown)), Sex::Unknown);
}

#[test]
fn texts_are_the_same_when_their_characters_are() {
    assert!(same_text("", ""));
    assert!(same_text("arrière", "arrière"));
    assert!(!same_text("Male", "male"));
    assert!(!same_text("M", "Ma"));
}
