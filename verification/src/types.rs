//! Plain record types that accompany persons.

use vstd::prelude::*;
use crate::text::same_text;

verus! {

/// The sex recorded for a person.
#[derive(Clone, Copy, Debug, PartialEq, Eq, Structural)]
pub enum Sex {
    Male,
    Female,
    Unknown,
}

/// The kind of a life event.
#[derive(Clone, Debug)]
pub enum EventType {
    Birth,
    Baptism,
    Death,
    Burial,
    Marriage,
    Divorce,
    Engagement,
    Custom(String),
}

/// What a record keeper may do.
#[derive(Clone, Copy, Debug, PartialEq, Eq, Structural)]
pub enum Permission {
    ReadAll,
    WriteOwn,
    WriteAll,
    DeleteOwn,
    DeleteAll,
    ManageWizards,
}

/// A reference to a picture of a person.
#[derive(Clone, Debug)]
pub struct ImageReference {
    pub url: String,
    pub description: Option<String>,
    pub is_primary: bool,
}

/// The sex that a stored word stands for.
pub open spec fn sex_of_text(input: Seq<char>) -> Sex {
    if input == "Male"@ || input == "male"@ || input == "M"@ {
        Sex::Male
    } else if input == "Female"@ || input == "female"@ || input == "F"@ {
        Sex::Female
    } else {
        Sex::Unknown
    }
}

/// Reads the sex from the word under which the record store keeps it.
/// Any word but the three spellings of each sex reads as unknown.
pub fn parse_sex(input: &str) -> (sex: Sex)
    ensures
        sex == sex_of_text(input@),
{
    if same_text(input, "Male") || same_text(input, "male") || same_text(input, "M") {
        Sex::Male
    } else if same_text(input, "Female") || same_text(input, "female") || same_text(input, "F") {
        Sex::Female
    } else {
        Sex::Unknown
    }
}

/// The word under which the record store keeps a sex.
pub open spec fn sex_text(sex: Sex) -> Seq<char> {
    match sex {
        Sex::Male => "Male"@,
        Sex::Female => "Female"@,
        Sex::Unknown => "Unknown"@,
    }
}

/// The word under which the record store keeps `sex`.
pub fn sex_word(sex: Sex) -> (word: &'static str)
    ensures
        word@ == sex_text(sex),
{
    match sex {
        Sex::Male => "Male",
        Sex::Female => "Female",
        Sex::Unknown => "Unknown",
    }
}

} // verus!
