//! Identifiers of persons, families and record keepers.
//!
//! Each identifier is a 128-bit value, unique and stable for the lifetime of
//! what it names. The library only ever compares identifiers; it attaches no
//! meaning to the bits. In text an identifier is written as a UUID.

use vstd::prelude::*;
use vstd::string::StringExecFns;

verus! {

/// Identifies one person.
#[derive(Clone, Copy, Debug, PartialEq, Eq, Hash, Structural)]
pub struct PersonId(pub u128);

/// Identifies one family unit: two parents and their children.
#[derive(Clone, Copy, Debug, PartialEq, Eq, Hash, Structural)]
pub struct FamilyId(pub u128);

/// Identifies one record keeper.
#[derive(Clone, Copy, Debug, PartialEq, Eq, Hash, Structural)]
pub struct WizardId(pub u128);

/// A set of persons has as many members as the set of their 128-bit values.
pub proof fn lemma_persons_counted(values: Set<u128>, persons: Set<PersonId>)
    requires
        values.finite(),
        forall|p: PersonId| persons.contains(p) <==> values.contains(p.0),
    ensures
        persons.finite(),
        persons.len() == values.len(),
{
    let wrap = |value: u128| PersonId(value);
    assert(values.map(wrap) =~= persons) by {
        assert forall|p: PersonId| persons.contains(p) implies values.map(wrap).contains(p) by {
            assert(values.contains(p.0) && wrap(p.0) == p);
        }
    }
    vstd::set_lib::lemma_map_size(values, persons, wrap);
}

/// The error of the `uuid` crate for a text that is no UUID.
#[verifier::external_type_specification]
#[verifier::external_body]
pub struct ExUuidError(uuid::Error);

/// The 128-bit value that `Uuid::parse_str` of the `uuid` crate reads from a
/// text, or `None` where it rejects the text.
pub uninterp spec fn parsed_uuid(text: Seq<char>) -> Option<u128>;

/// The text that the `uuid` crate writes for the UUID of a 128-bit value:
/// lower-case hexadecimal digits in five groups separated by hyphens.
pub uninterp spec fn hyphenated_uuid(value: u128) -> Seq<char>;

/// Reads a UUID from a text.
///
/// Trusted: this is `Uuid::parse_str` of the `uuid` crate, followed by
/// `Uuid::as_u128`. What it reads depends on the text alone, and it fails
/// on exactly the texts it rejects.
#[verifier::external_body]
fn read_uuid(text: &str) -> (r: Result<u128, uuid::Error>)
    ensures
        r is Ok <==> parsed_uuid(text@) is Some,
        r is Ok ==> r->Ok_0 == parsed_uuid(text@)->Some_0,
{
    match uuid::Uuid::parse_str(text) {
        Ok(id) => Ok(id.as_u128()),
        Err(error) => Err(error),
    }
}

/// Writes the UUID of a 128-bit value.
///
/// Trusted: this is `Uuid::from_u128` of the `uuid` crate, followed by its
/// `Display`, which writes the hyphenated lower-case form. What it writes
/// depends on the value alone.
#[verifier::external_body]
fn write_uuid(value: u128) -> (text: String)
    ensures
        text@ == hyphenated_uuid(value),
{
    uuid::Uuid::from_u128(value).to_string()
}

/// What the `uuid` crate says of a text that it rejected.
///
/// Trusted: this is the `Display` of `uuid::Error`. Nothing is claimed of
/// the wording.
#[verifier::external_body]
fn uuid_error_text(error: &uuid::Error) -> (text: String) {
    error.to_string()
}

/// A text that was to name a person, a family or a record keeper and is no
/// UUID.
#[derive(Clone, Debug)]
pub struct InvalidId {
    /// Why the text was rejected, in words.
    pub reason: String,
}

/// What a text names, given what was read from it: the value read, or the
/// error with its wording.
pub fn id_from_reading(reading: Result<u128, String>) -> (r: Result<u128, InvalidId>)
    ensures
        match reading {
            Ok(value) => r is Ok && r->Ok_0 == value,
            Err(reason) => r is Err && r->Err_0.reason == reason,
        },
{
    match reading {
        Ok(value) => Ok(value),
        Err(reason) => Err(InvalidId { reason }),
    }
}

/// Reads the 128-bit value of an identifier from its text.
pub fn parse_uuid(text: &str) -> (r: Result<u128, InvalidId>)
    ensures
        r is Ok <==> parsed_uuid(text@) is Some,
        r is Ok ==> r->Ok_0 == parsed_uuid(text@)->Some_0,
{
    let reading = match read_uuid(text) {
        Ok(value) => Ok(value),
        Err(error) => Err(uuid_error_text(&error)),
    };
    id_from_reading(reading)
}

impl PersonId {
    /// Reads a person identifier from its text.
    pub fn parse(text: &str) -> (r: Result<PersonId, InvalidId>)
        ensures
            r is Ok <==> parsed_uuid(text@) is Some,
            r is Ok ==> r->Ok_0 == PersonId(parsed_uuid(text@)->Some_0),
    {
        match parse_uuid(text) {
            Ok(value) => Ok(PersonId(value)),
            Err(e) => Err(e),
        }
    }

    /// The identifier as text.
    pub fn to_text(&self) -> (text: String)
        ensures
            text@ == hyphenated_uuid(self.0),
    {
        write_uuid(self.0)
    }
}

impl FamilyId {
    /// Reads a family identifier from its text.
    pub fn parse(text: &str) -> (r: Result<FamilyId, InvalidId>)
        ensures
            r is Ok <==> parsed_uuid(text@) is Some,
            r is Ok ==> r->Ok_0 == FamilyId(parsed_uuid(text@)->Some_0),
    {
        match parse_uuid(text) {
            Ok(value) => Ok(FamilyId(value)),
            Err(e) => Err(e),
        }
    }

    /// The identifier as text.
    pub fn to_text(&self) -> (text: String)
        ensures
            text@ == hyphenated_uuid(self.0),
    {
        write_uuid(self.0)
    }
}

impl WizardId {
    /// Reads a record keeper's identifier from its text.
    pub fn parse(text: &str) -> (r: Result<WizardId, InvalidId>)
        ensures
            r is Ok <==> parsed_uuid(text@) is Some,
            r is Ok ==> r->Ok_0 == WizardId(parsed_uuid(text@)->Some_0),
    {
        match parse_uuid(text) {
            Ok(value) => Ok(WizardId(value)),
            Err(e) => Err(e),
        }
    }

    /// The identifier as text.
    pub fn to_text(&self) -> (text: String)
        ensures
            text@ == hyphenated_uuid(self.0),
    {
        write_uuid(self.0)
    }
}

/// Reads a person identifier that may be left out.
pub fn parse_optional_person_id(value: Option<&str>) -> (r: Result<Option<PersonId>, InvalidId>)
    ensures
        match value {
            None => r is Ok && r->Ok_0 is None,
            Some(text) => (r is Ok <==> parsed_uuid(text@) is Some) && (r is Ok ==> r->Ok_0 == Some(
                PersonId(parsed_uuid(text@)->Some_0),
            )),
        },
{
    match value {
        Some(text) => match PersonId::parse(text) {
            Ok(id) => Ok(Some(id)),
            Err(e) => Err(e),
        },
        None => Ok(None),
    }
}

/// Reads a person identifier that may be left out or given as empty: left
/// out means no change, empty means that the person is to be removed.
pub fn parse_nullable_person_id(value: Option<Option<&str>>) -> (r: Result<
    Option<Option<PersonId>>,
    InvalidId,
>)
    ensures
        match value {
            None => r is Ok && r->Ok_0 is None,
            Some(None) => r is Ok && r->Ok_0 == Some(None::<PersonId>),
            Some(Some(text)) => (r is Ok <==> parsed_uuid(text@) is Some) && (r is Ok ==> r->Ok_0
                == Some(Some(PersonId(parsed_uuid(text@)->Some_0)))),
        },
{
    match value {
        Some(Some(text)) => match PersonId::parse(text) {
            Ok(id) => Ok(Some(Some(id))),
            Err(e) => Err(e),
        },
        Some(None) => Ok(Some(None)),
        None => Ok(None),
    }
}

/// Reads a record keeper's identifier that may be left out.
pub fn parse_optional_wizard_id(value: Option<&str>) -> (r: Result<Option<WizardId>, InvalidId>)
    ensures
        match value {
            None => r is Ok && r->Ok_0 is None,
            Some(text) => (r is Ok <==> parsed_uuid(text@) is Some) && (r is Ok ==> r->Ok_0 == Some(
                WizardId(parsed_uuid(text@)->Some_0),
            )),
        },
{
    match value {
        Some(text) => match WizardId::parse(text) {
            Ok(id) => Ok(Some(id)),
            Err(e) => Err(e),
        },
        None => Ok(None),
    }
}

/// Reads a list of person identifiers. The list is read only where every
/// text of it is a UUID.
pub fn ids_to_person_ids(texts: &Vec<String>) -> (r: Result<Vec<PersonId>, InvalidId>)
    ensures
        r is Ok <==> forall|i: int| 0 <= i < texts.len() ==> parsed_uuid(#[trigger] texts[i]@) is Some,
        r is Ok ==> r->Ok_0.len() == texts.len() && forall|i: int|
            0 <= i < texts.len() ==> (#[trigger] r->Ok_0[i]) == PersonId(
                parsed_uuid(texts[i]@)->Some_0,
            ),
{
    let mut ids: Vec<PersonId> = Vec::new();
    let mut i: usize = 0;
    while i < texts.len()
        invariant
            i <= texts.len(),
            ids.len() == i,
            forall|j: int| 0 <= j < i ==> parsed_uuid(#[trigger] texts[j]@) is Some,
            forall|j: int|
                0 <= j < i ==> (#[trigger] ids[j]) == PersonId(parsed_uuid(texts[j]@)->Some_0),
        decreases texts.len() - i,
    {
        match PersonId::parse(texts[i].as_str()) {
            Ok(id) => {
                ids.push(id);
            },
            Err(e) => {
                return Err(e);
            },
        }
        i = i + 1;
    }
    Ok(ids)
}

/// The key under which the snapshot of a person is cached.
pub open spec fn snapshot_key_text(person: PersonId) -> Seq<char> {
    "person:"@ + hyphenated_uuid(person.0)
}

/// The key under which the snapshot of `person` is cached.
pub fn snapshot_key(person: PersonId) -> (key: String)
    ensures
        key@ == snapshot_key_text(person),
{
    let mut key = String::from_str("person:");
    let id = person.to_text();
    key.append(id.as_str());
    key
}

} // verus!
