//! Wording for the degree of kinship between two persons.

use vstd::prelude::*;
use vstd::string::StringExecFns;
use crate::text::{decimal, push_decimal};

verus! {

/// The wording for a kinship of the given degree, that is the number of
/// parent links on the shortest chain between the two persons.
pub open spec fn relationship_text(degree: nat) -> Seq<char> {
    if degree == 0 {
        "Même personne"@
    } else if degree == 1 {
        "Lien parent/enfant"@
    } else if degree == 2 {
        "Fratrie ou grand-parent"@
    } else if degree == 3 {
        "Oncle/Tante ou arrière-grand-parent"@
    } else {
        "Relation au "@ + decimal(degree) + "e degré"@
    }
}

/// Words the degree of kinship: a fixed phrase for the degrees 0 to 3, and
/// the degree as a number beyond.
pub fn format_relationship(degree: u32) -> (text: String)
    ensures
        text@ == relationship_text(degree as nat),
{
    if degree == 0 {
        String::from_str("Même personne")
    } else if degree == 1 {
        String::from_str("Lien parent/enfant")
    } else if degree == 2 {
        String::from_str("Fratrie ou grand-parent")
    } else if degree == 3 {
        String::from_str("Oncle/Tante ou arrière-grand-parent")
    } else {
        let mut text = String::from_str("Relation au ");
        push_decimal(&mut text, degree);
        text.append("e degré");
        text
    }
}

} // verus!
