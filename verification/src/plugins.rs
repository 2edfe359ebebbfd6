//! What a plugin declares of itself, and which plugins serve a request.

use vstd::prelude::*;

verus! {

/// What a plugin can do.
#[derive(Clone, Debug)]
pub enum PluginCapability {
    /// An analysis of one person.
    PersonInsights,
    /// An analysis of one family.
    FamilyInsights,
    /// An export in the format of the given label.
    Export(String),
}

/// What a plugin declares of itself.
#[derive(Clone, Debug)]
pub struct PluginMetadata {
    pub name: String,
    pub version: String,
    pub author: Option<String>,
    pub description: Option<String>,
    pub capabilities: Vec<PluginCapability>,
}

/// Two capabilities are the same: the same kind, and for an export the same
/// label.
pub open spec fn same_capability(a: PluginCapability, b: PluginCapability) -> bool {
    match (a, b) {
        (PluginCapability::PersonInsights, PluginCapability::PersonInsights) => true,
        (PluginCapability::FamilyInsights, PluginCapability::FamilyInsights) => true,
        (PluginCapability::Export(x), PluginCapability::Export(y)) => x@ == y@,
        _ => false,
    }
}

/// One of `capabilities` is `wanted`.
pub open spec fn offers(capabilities: Seq<PluginCapability>, wanted: PluginCapability) -> bool {
    exists|i: int| 0 <= i < capabilities.len() && same_capability(#[trigger] capabilities[i], wanted)
}

/// Whether two capabilities are the same.
pub fn capability_matches(a: &PluginCapability, b: &PluginCapability) -> (same: bool)
    ensures
        same == same_capability(*a, *b),
{
    match a {
        PluginCapability::PersonInsights => match b {
            PluginCapability::PersonInsights => true,
            _ => false,
        },
        PluginCapability::FamilyInsights => match b {
            PluginCapability::FamilyInsights => true,
            _ => false,
        },
        PluginCapability::Export(x) => match b {
            PluginCapability::Export(y) => *x == *y,
            _ => false,
        },
    }
}

/// Whether one of `capabilities` is `wanted`.
pub fn supports(capabilities: &Vec<PluginCapability>, wanted: &PluginCapability) -> (found: bool)
    ensures
        found == offers(capabilities@, *wanted),
{
    let mut i: usize = 0;
    while i < capabilities.len()
        invariant
            i <= capabilities.len(),
            forall|j: int| 0 <= j < i ==> !same_capability(#[trigger] capabilities[j], *wanted),
        decreases capabilities.len() - i,
    {
        if capability_matches(&capabilities[i], wanted) {
            return true;
        }
        i = i + 1;
    }
    false
}

/// The positions, in the order of registration, of the plugins among
/// `registered` that offer `wanted`: those are the plugins to run.
pub fn plugins_to_run(registered: &Vec<PluginMetadata>, wanted: &PluginCapability) -> (chosen: Vec<
    usize,
>)
    ensures
        forall|k: int|
            0 <= k < chosen.len() ==> (#[trigger] chosen[k]) < registered.len() && offers(
                registered[chosen[k] as int].capabilities@,
                *wanted,
            ),
        forall|k: int, m: int| 0 <= k < m < chosen.len() ==> chosen[k] < chosen[m],
        forall|i: int|
            0 <= i < registered.len() && offers((#[trigger] registered[i]).capabilities@, *wanted)
                ==> chosen@.contains(i as usize),
{
    let mut chosen: Vec<usize> = Vec::new();
    let mut i: usize = 0;
    while i < registered.len()
        invariant
            i <= registered.len(),
            forall|k: int|
                0 <= k < chosen.len() ==> (#[trigger] chosen[k]) < i && offers(
                    registered[chosen[k] as int].capabilities@,
                    *wanted,
                ),
            forall|k: int, m: int| 0 <= k < m < chosen.len() ==> chosen[k] < chosen[m],
            forall|j: int|
                0 <= j < i && offers((#[trigger] registered[j]).capabilities@, *wanted)
                    ==> chosen@.contains(j as usize),
        decreases registered.len() - i,
    {
        let ghost before = chosen@;
        if supports(&registered[i].capabilities, wanted) {
            chosen.push(i);
            proof {
                assert(chosen@[before.len() as int] == i);
            }
        }
        proof {
            assert forall|j: int|
                0 <= j < i + 1 && offers((#[trigger] registered[j]).capabilities@, *wanted)
                    implies chosen@.contains(j as usize) by {
                if j < i {
                    let k = choose|k: int| 0 <= k < before.len() && before[k] == j as usize;
                    assert(chosen@[k] == j as usize);
                }
            }
        }
        i = i + 1;
    }
    chosen
}

} // verus!
