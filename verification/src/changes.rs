//! Partial changes to person and family records, and what they ask of the
//! record store.
//!
//! A change names, field by field, what is to be written. A field that is
//! left out stays as it is. For a field that can be empty, a change can also
//! ask for the field to be emptied.

use vstd::prelude::*;
use crate::ident::{FamilyId, PersonId, WizardId};
use crate::types::Sex;

verus! {

/// A column of a person record that a change can write.
#[derive(Clone, Copy, Debug, PartialEq, Eq, Structural)]
pub enum PersonColumn {
    FirstName,
    Surname,
    SurnamePrefix,
    Sex,
    Notes,
    Public,
    UpdatedBy,
}

/// A column of a family record that a change can write.
#[derive(Clone, Copy, Debug, PartialEq, Eq, Structural)]
pub enum FamilyColumn {
    Father,
    Mother,
    Notes,
    Public,
}

/// One write to a column: a new value, or the column emptied.
#[derive(Clone, Copy, Debug, PartialEq, Eq, Structural)]
pub struct ColumnWrite<C> {
    /// The column written.
    pub column: C,
    /// Whether the column is emptied instead of given a value.
    pub clears: bool,
}

/// A partial change to a person record.
pub struct PersonUpdate {
    pub first_name: Option<String>,
    pub surname: Option<String>,
    pub surname_prefix: Option<Option<String>>,
    pub sex: Option<Sex>,
    pub notes: Option<Option<String>>,
    pub public: Option<bool>,
    pub updated_by: Option<WizardId>,
}

/// The write that a field asks for: none where the field is left out.
pub open spec fn write_of<C, T>(column: C, field: Option<T>) -> Seq<ColumnWrite<C>> {
    match field {
        Some(_) => seq![ColumnWrite { column, clears: false }],
        None => Seq::empty(),
    }
}

/// The write that a field which can be emptied asks for.
pub open spec fn write_of_nullable<C, T>(column: C, field: Option<Option<T>>) -> Seq<
    ColumnWrite<C>,
> {
    match field {
        Some(Some(_)) => seq![ColumnWrite { column, clears: false }],
        Some(None) => seq![ColumnWrite { column, clears: true }],
        None => Seq::empty(),
    }
}

fn push_write<C: Copy, T>(writes: &mut Vec<ColumnWrite<C>>, column: C, field: &Option<T>)
    ensures
        final(writes)@ == old(writes)@ + write_of(column, *field),
{
    if field.is_some() {
        writes.push(ColumnWrite { column, clears: false });
    }
    assert(writes@ =~= old(writes)@ + write_of(column, *field));
}

fn push_nullable_write<C: Copy, T>(
    writes: &mut Vec<ColumnWrite<C>>,
    column: C,
    field: &Option<Option<T>>,
)
    ensures
        final(writes)@ == old(writes)@ + write_of_nullable(column, *field),
{
    match field {
        Some(inner) => {
            writes.push(ColumnWrite { column, clears: inner.is_none() });
        },
        None => {},
    }
    assert(writes@ =~= old(writes)@ + write_of_nullable(column, *field));
}

impl PersonUpdate {
    /// Whether the change names any field.
    pub open spec fn changes_something(&self) -> bool {
        self.first_name is Some || self.surname is Some || self.surname_prefix is Some || self.sex
            is Some || self.notes is Some || self.public is Some || self.updated_by is Some
    }

    /// The column writes that the change asks for, in the order of the
    /// columns.
    pub open spec fn writes(&self) -> Seq<ColumnWrite<PersonColumn>> {
        write_of(PersonColumn::FirstName, self.first_name) + write_of(
            PersonColumn::Surname,
            self.surname,
        ) + write_of_nullable(PersonColumn::SurnamePrefix, self.surname_prefix) + write_of(
            PersonColumn::Sex,
            self.sex,
        ) + write_of_nullable(PersonColumn::Notes, self.notes) + write_of(
            PersonColumn::Public,
            self.public,
        ) + write_of(PersonColumn::UpdatedBy, self.updated_by)
    }

    /// Whether the change names any field. A change that names none asks
    /// only for the record to be read.
    pub fn has_changes(&self) -> (r: bool)
        ensures
            r == self.changes_something(),
            r == (self.writes().len() > 0),
    {
        self.first_name.is_some() || self.surname.is_some() || self.surname_prefix.is_some()
            || self.sex.is_some() || self.notes.is_some() || self.public.is_some()
            || self.updated_by.is_some()
    }

    /// The column writes that the change asks for, in the order of the
    /// columns.
    pub fn column_writes(&self) -> (writes: Vec<ColumnWrite<PersonColumn>>)
        ensures
            writes@ == self.writes(),
    {
        let mut writes: Vec<ColumnWrite<PersonColumn>> = Vec::new();
        push_write(&mut writes, PersonColumn::FirstName, &self.first_name);
        push_write(&mut writes, PersonColumn::Surname, &self.surname);
        push_nullable_write(&mut writes, PersonColumn::SurnamePrefix, &self.surname_prefix);
        push_write(&mut writes, PersonColumn::Sex, &self.sex);
        push_nullable_write(&mut writes, PersonColumn::Notes, &self.notes);
        push_write(&mut writes, PersonColumn::Public, &self.public);
        push_write(&mut writes, PersonColumn::UpdatedBy, &self.updated_by);
        assert(writes@ =~= self.writes());
        writes
    }

    /// The change of privacy that is to be logged: the old and the new
    /// setting, where the change names a setting that differs from the one
    /// the record had.
    pub fn privacy_change(&self, previous_public: bool) -> (change: Option<(bool, bool)>)
        ensures
            change == (match self.public {
                Some(new_public) => if new_public != previous_public {
                    Some((previous_public, new_public))
                } else {
                    None
                },
                None => None,
            }),
    {
        match self.public {
            Some(new_public) => {
                if new_public != previous_public {
                    Some((previous_public, new_public))
                } else {
                    None
                }
            },
            None => None,
        }
    }

    /// The change that sets the privacy of a person and nothing else but who
    /// made the change.
    pub fn privacy(public: bool, updated_by: Option<WizardId>) -> (update: Self)
        ensures
            update.public == Some(public),
            update.updated_by == updated_by,
            update.first_name is None,
            update.surname is None,
            update.surname_prefix is None,
            update.sex is None,
            update.notes is None,
    {
        PersonUpdate {
            first_name: None,
            surname: None,
            surname_prefix: None,
            sex: None,
            notes: None,
            public: Some(public),
            updated_by,
        }
    }
}

/// A family that is to be created.
pub struct FamilyDraft {
    pub id: FamilyId,
    pub father_id: Option<PersonId>,
    pub mother_id: Option<PersonId>,
    pub children: Vec<PersonId>,
    pub notes: Option<String>,
    pub public: bool,
}

/// A partial change to a family record.
pub struct FamilyChanges {
    pub father_id: Option<Option<PersonId>>,
    pub mother_id: Option<Option<PersonId>>,
    pub children: Option<Vec<PersonId>>,
    pub notes: Option<Option<String>>,
    pub public: Option<bool>,
}

impl Default for FamilyChanges {
    /// The change that names no field.
    fn default() -> (changes: Self)
        ensures
            changes.father_id is None,
            changes.mother_id is None,
            changes.children is None,
            changes.notes is None,
            changes.public is None,
    {
        FamilyChanges { father_id: None, mother_id: None, children: None, notes: None, public: None }
    }
}

/// The person who holds a parent slot after a change: the one the change
/// names, or the one who held the slot where the change leaves it out.
pub open spec fn slot_after(current: Option<PersonId>, change: Option<Option<PersonId>>) -> Option<
    PersonId,
> {
    match change {
        Some(named) => named,
        None => current,
    }
}

impl FamilyChanges {
    /// Whether the change names any field.
    pub open spec fn changes_something(&self) -> bool {
        self.father_id is Some || self.mother_id is Some || self.children is Some || self.notes
            is Some || self.public is Some
    }

    /// Whether the change names the father, the mother or the children.
    pub open spec fn changes_parentage(&self) -> bool {
        self.father_id is Some || self.mother_id is Some || self.children is Some
    }

    /// The column writes that the change asks for, in the order of the
    /// columns. The children are kept apart from the family's own columns.
    pub open spec fn writes(&self) -> Seq<ColumnWrite<FamilyColumn>> {
        write_of_nullable(FamilyColumn::Father, self.father_id) + write_of_nullable(
            FamilyColumn::Mother,
            self.mother_id,
        ) + write_of_nullable(FamilyColumn::Notes, self.notes) + write_of(
            FamilyColumn::Public,
            self.public,
        )
    }

    /// Whether the change names any field. A change that names none asks
    /// only for the record to be read.
    pub fn has_changes(&self) -> (r: bool)
        ensures
            r == self.changes_something(),
    {
        self.father_id.is_some() || self.mother_id.is_some() || self.children.is_some()
            || self.notes.is_some() || self.public.is_some()
    }

    /// Whether the change names the father, the mother or the children, so
    /// that the edges of the family have to be brought to the graph index.
    pub fn touches_parentage(&self) -> (r: bool)
        ensures
            r == self.changes_parentage(),
    {
        self.father_id.is_some() || self.mother_id.is_some() || self.children.is_some()
    }

    /// The column writes that the change asks for, in the order of the
    /// columns.
    pub fn column_writes(&self) -> (writes: Vec<ColumnWrite<FamilyColumn>>)
        ensures
            writes@ == self.writes(),
            writes@.len() > 0 <==> (self.father_id is Some || self.mother_id is Some || self.notes
                is Some || self.public is Some),
    {
        let mut writes: Vec<ColumnWrite<FamilyColumn>> = Vec::new();
        push_nullable_write(&mut writes, FamilyColumn::Father, &self.father_id);
        push_nullable_write(&mut writes, FamilyColumn::Mother, &self.mother_id);
        push_nullable_write(&mut writes, FamilyColumn::Notes, &self.notes);
        push_write(&mut writes, FamilyColumn::Public, &self.public);
        assert(writes@ =~= self.writes());
        writes
    }

    /// The father after the change, given the father before it.
    pub fn father_after(&self, current: Option<PersonId>) -> (father: Option<PersonId>)
        ensures
            father == slot_after(current, self.father_id),
    {
        match self.father_id {
            Some(named) => named,
            None => current,
        }
    }

    /// The mother after the change, given the mother before it.
    pub fn mother_after(&self, current: Option<PersonId>) -> (mother: Option<PersonId>)
        ensures
            mother == slot_after(current, self.mother_id),
    {
        match self.mother_id {
            Some(named) => named,
            None => current,
        }
    }

    /// The change that sets the privacy of a family and nothing else.
    pub fn privacy(public: bool) -> (changes: Self)
        ensures
            changes.public == Some(public),
            changes.father_id is None,
            changes.mother_id is None,
            changes.children is None,
            changes.notes is None,
    {
        FamilyChanges {
            father_id: None,
            mother_id: None,
            children: None,
            notes: None,
            public: Some(public),
        }
    }

    /// The change that sets the children of a family and nothing else.
    pub fn children_only(children: Vec<PersonId>) -> (changes: Self)
        ensures
            changes.children == Some(children),
            changes.father_id is None,
            changes.mother_id is None,
            changes.notes is None,
            changes.public is None,
    {
        FamilyChanges {
            father_id: None,
            mother_id: None,
            children: Some(children),
            notes: None,
            public: None,
        }
    }
}

} // verus!
