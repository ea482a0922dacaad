//! When the `latest` link of an artifact tree is replaced.
use vstd::prelude::*;
use vstd::string::StringExecFns;

verus! {

/// What stands in the `latest` slot.
#[derive(Clone, Copy, Debug, PartialEq, Eq, Structural)]
pub enum Slot {
    /// Nothing yet.
    Free,
    /// A link of an earlier run.
    Symlink,
    /// A real directory or file.
    Other,
}

/// What to do with the slot before linking.
#[derive(Clone, Copy, Debug, PartialEq, Eq, Structural)]
pub enum Step {
    /// Link right away.
    Create,
    /// Remove the link that is there, and link if that succeeded.
    RemoveAndCreate,
    /// Leave what is there untouched and warn, so a misnamed run is never lost.
    Refuse,
}

/// Whether the `latest` link is refreshed for a run in a directory of this `name`, which has
/// a parent or not: linking `latest` to itself would delete the run just saved.
pub fn refresh_latest(has_parent: bool, name: Option<&str>) -> (refreshes: bool)
    ensures
        refreshes == (has_parent && name is Some && name->0@ != "latest"@),
{
    match name {
        None => false,
        Some(text) => {
            let slot = String::from_str("latest");
            has_parent && String::from_str(text) != slot
        },
    }
}

/// What to do with a slot in this state: only a link gives way, never what it is not.
pub fn replace_latest_link(slot: Slot) -> (step: Step)
    ensures
        step == (match slot {
            Slot::Free => Step::Create,
            Slot::Symlink => Step::RemoveAndCreate,
            Slot::Other => Step::Refuse,
        }),
{
    match slot {
        Slot::Free => Step::Create,
        Slot::Symlink => Step::RemoveAndCreate,
        Slot::Other => Step::Refuse,
    }
}

/// Nothing but a link is ever removed, and nothing that is not one is ever linked over.
pub proof fn only_links_give_way(slot: Slot, step: Step)
    requires
        call_ensures(replace_latest_link, (slot,), step),
    ensures
        step is RemoveAndCreate <==> slot is Symlink,
        step is Refuse <==> slot is Other,
        step is Create <==> slot is Free,
{
}

/// A run that is itself named `latest`, or that has no name or no parent, is not linked to; any
/// other is.
pub proof fn latest_never_links_to_itself(
    has_parent: bool,
    name: Option<&str>,
    refreshes: bool,
)
    requires
        call_ensures(refresh_latest, (has_parent, name), refreshes),
    ensures
        name is None || !has_parent ==> !refreshes,
        has_parent && name is Some ==> (refreshes <==> name->0@ != seq![
            'l',
            'a',
            't',
            'e',
            's',
            't',
        ]),
{
    reveal_strlit("latest");
    assert("latest"@ =~= seq!['l', 'a', 't', 'e', 's', 't']);
}

} // verus!
