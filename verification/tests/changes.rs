use genealogy_core::changes::{ColumnWrite, FamilyChanges, FamilyColumn, PersonColumn, PersonUpdate};
use genealogy_core::ident::{PersonId, WizardId};
use genealogy_core::types::Sex;

fn no_update() -> PersonUpdate {
    PersonUpdate {
        first_name: None,
        surname: None,
        surname_prefix: None,
        sex: None,
        notes: None,
        public: None,
        updated_by: None,
    }
}

fn set(column: PersonColumn) -> ColumnWrite<PersonColumn> {
    ColumnWrite { column, clears: false }
}

#[test]
fn an_update_that_names_nothing_has_no_changes() {
    let update = no_update();
    assert!(!update.has_changes());
    assert_eq!(update.column_writes(), vec![]);
    assert_eq!(update.privacy_change(true), None);
}

#[test]
fn each_named_field_is_a_change() {
    let mut update = no_update();
    update.notes = Some(None);
    assert!(update.has_changes());
    let mut update = no_update();
    update.updated_by = Some(WizardId(1));
    assert!(update.has_changes());
    let mut update = no_update();
    update.sex = Some(Sex::Female);
    assert!(update.has_changes());
}

#[test]
fn column_writes_follow_the_order_of_the_columns() {
    let update = PersonUpdate {
        first_name: Some("Ada".to_string()),
        surname: Some("Lovelace".to_string()),
        surname_prefix: Some(None),
        sex: Some(Sex::Female),
        notes: Some(Some("countess".to_string())),
        public: Some(false),
        updated_by: Some(WizardId(7)),
    };
    assert_eq!(
        update.column_writes(),
        vec![
            set(PersonColumn::FirstName),
            set(PersonColumn::Surname),
            ColumnWrite { column: PersonColumn::SurnamePrefix, clears: true },
            set(PersonColumn::Sex),
            set(PersonColumn::Notes),
            set(PersonColumn::Public),
            set(PersonColumn::UpdatedBy),
        ]
    );
    let mut update = no_update();
    update.surname = Some("Byron".to_string());
    update.notes = Some(None);
    assert_eq!(
        update.column_writes(),
        vec![set(PersonColumn::Surname), ColumnWrite { column: PersonColumn::Notes, clears: true }]
    );
}

#[test]
fn a_privacy_change_is_logged_only_when_the_setting_differs() {
    let update = PersonUpdate::privacy(false, Some(WizardId(3)));
    assert!(update.has_changes());
    assert_eq!(update.public, Some(false));
    assert_eq!(update.updated_by, Some(WizardId(3)));
    assert_eq!(update.privacy_change(true), Some((true, false)));
    assert_eq!(update.privacy_change(false), None);
    assert_eq!(
        update.column_writes(),
        vec![set(PersonColumn::Public), set(PersonColumn::UpdatedBy)]
    );
    let update = PersonUpdate::privacy(true, None);
    assert_eq!(update.privacy_change(false), Some((false, true)));
    assert_eq!(update.column_writes(), vec![set(PersonColumn::Public)]);
}

#[test]
fn family_changes_that_name_nothing_have_no_changes() {
    let changes = FamilyChanges::default();
    assert!(!changes.has_changes());
    assert!(!changes.touches_parentage());
    assert_eq!(changes.column_writes(), vec![]);
    assert_eq!(changes.father_after(Some(PersonId(1))), Some(PersonId(1)));
    assert_eq!(changes.mother_after(None), None);
}

#[test]
fn children_are_a_change_of_parentage_and_no_column() {
    let changes = FamilyChanges::children_only(vec![PersonId(1), PersonId(2)]);
    assert!(changes.has_changes());
    assert!(changes.touches_parentage());
    assert_eq!(changes.column_writes(), vec![]);
    assert_eq!(changes.children, Some(vec![PersonId(1), PersonId(2)]));
}

#[test]
fn privacy_is_a_change_and_no_change_of_parentage() {
    let changes = FamilyChanges::privacy(true);
    assert!(changes.has_changes());
    assert!(!changes.touches_parentage());
    assert_eq!(
        changes.column_writes(),
        vec![ColumnWrite { column: FamilyColumn::Public, clears: false }]
    );
}

#[test]
fn a_named_parent_replaces_and_an_emptied_one_removes() {
    let changes = FamilyChanges {
        father_id: Some(Some(PersonId(5))),
        mother_id: Some(None),
        children: None,
        notes: Some(Some("moved".to_string())),
        public: None,
    };
    assert!(changes.touches_parentage());
    assert_eq!(changes.father_after(Some(PersonId(1))), Some(PersonId(5)));
    assert_eq!(changes.father_after(None), Some(PersonId(5)));
    assert_eq!(changes.mother_after(Some(PersonId(2))), None);
    assert_eq!(
        changes.column_writes(),
        vec![
            ColumnWrite { column: FamilyColumn::Father, clears: false },
            ColumnWrite { column: FamilyColumn::Mother, clears: true },
            ColumnWrite { column: FamilyColumn::Notes, clears: false },
        ]
    );
}
