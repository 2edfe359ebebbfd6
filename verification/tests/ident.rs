use genealogy_core::ident::{
    ids_to_person_ids, parse_nullable_person_id, parse_optional_person_id,
    parse_optional_wizard_id, parse_uuid, snapshot_key, FamilyId, PersonId, WizardId,
};

const TEXT: &str = "550e8400-e29b-41d4-a716-446655440000";
const VALUE: u128 = 0x550e8400e29b41d4a716446655440000;

#[test]
fn a_uuid_is_read_as_its_128_bits() {
    assert_eq!(parse_uuid(TEXT).unwrap(), VALUE);
    assert_eq!(PersonId::parse(TEXT).unwrap(), PersonId(VALUE));
    assert_eq!(FamilyId::parse(TEXT).unwrap(), FamilyId(VALUE));
    assert_eq!(WizardId::parse(TEXT).unwrap(), WizardId(VALUE));
    assert_eq!(parse_uuid("550E8400E29B41D4A716446655440000").unwrap(), VALUE);
    assert_eq!(parse_uuid("00000000-0000-0000-0000-000000000001").unwrap(), 1);
}

#[test]
fn a_text_that_is_no_uuid_is_rejected_with_a_reason() {
    let error = parse_uuid("not-a-uuid").unwrap_err();
    assert!(!error.reason.is_empty());
    assert!(PersonId::parse("").is_err());
    assert!(PersonId::parse("550e8400-e29b-41d4-a716-44665544000").is_err());
    assert!(FamilyId::parse("550e8400-e29b-41d4-a716-44665544000g").is_err());
    assert!(WizardId::parse("person:1").is_err());
}

#[test]
fn an_identifier_is_written_as_a_hyphenated_uuid() {
    assert_eq!(PersonId(VALUE).to_text(), TEXT);
    assert_eq!(FamilyId(1).to_text(), "00000000-0000-0000-0000-000000000001");
    assert_eq!(WizardId(u128::MAX).to_text(), "ffffffff-ffff-ffff-ffff-ffffffffffff");
    assert_eq!(PersonId::parse(&PersonId(12345).to_text()).unwrap(), PersonId(12345));
}

#[test]
fn the_snapshot_key_names_the_person() {
    assert_eq!(snapshot_key(PersonId(VALUE)), "person:550e8400-e29b-41d4-a716-446655440000");
    assert_ne!(snapshot_key(PersonId(1)), snapshot_key(PersonId(2)));
}

#[test]
fn an_identifier_that_is_left_out_is_read_as_none() {
    assert_eq!(parse_optional_person_id(None).unwrap(), None);
    assert_eq!(parse_optional_person_id(Some(TEXT)).unwrap(), Some(PersonId(VALUE)));
    assert!(parse_optional_person_id(Some("x")).is_err());
    assert_eq!(parse_optional_wizard_id(None).unwrap(), None);
    assert_eq!(parse_optional_wizard_id(Some(TEXT)).unwrap(), Some(WizardId(VALUE)));
    assert!(parse_optional_wizard_id(Some("x")).is_err());
}

#[test]
fn a_nullable_identifier_tells_left_out_from_emptied() {
    assert_eq!(parse_nullable_person_id(None).unwrap(), None);
    assert_eq!(parse_nullable_person_id(Some(None)).unwrap(), Some(None));
    assert_eq!(parse_nullable_person_id(Some(Some(TEXT))).unwrap(), Some(Some(PersonId(VALUE))));
    assert!(parse_nullable_person_id(Some(Some("x"))).is_err());
}

#[test]
fn a_list_of_identifiers_is_read_whole_or_not_at_all() {
    let texts = vec![TEXT.to_string(), "00000000-0000-0000-0000-000000000002".to_string()];
    assert_eq!(ids_to_person_ids(&texts).unwrap(), vec![PersonId(VALUE), PersonId(2)]);
    assert_eq!(ids_to_person_ids(&vec![]).unwrap(), vec![]);
    let texts = vec![TEXT.to_string(), "oops".to_string(), TEXT.to_string()];
    assert!(ids_to_person_ids(&texts).is_err());
}
