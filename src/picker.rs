use vstd::prelude::*;
use crate::alias::{Alias, AliasError, valid_name, valid_command};
use crate::store::{AliasStore, insertion_point};

verus! {

/// What the picker shows the user first.
#[derive(Debug)]
pub enum PickerPrompt {
    /// No alias exists: offer to create one instead of an empty menu.
    OfferCreate,
    /// A menu of the aliases' names, in the store's order; never empty.
    Menu(Vec<String>),
}

/// What the user did in the picker.
#[derive(Debug)]
pub enum PickerEvent {
    /// Confirmed the menu entry at this index.
    Chosen(usize),
    /// Quit the menu.
    Cancelled,
    /// Declined to create a first alias.
    CreateDeclined,
    /// Entered a name and command for a new alias.
    CreateEntered(String, String),
}

/// The prompt for the store's current aliases.
pub fn picker_prompt(store: &AliasStore) -> (r: PickerPrompt)
    requires
        store.wf(),
    ensures
        r is OfferCreate <==> store.entries().len() == 0,
        match r {
            PickerPrompt::Menu(names) => {
                &&& names@.len() > 0
                &&& names@.len() == store.entries().len()
                &&& forall|i: int| 0 <= i < names@.len() ==> #[trigger] names@[i]@ == store.entries()[i].0
            },
            PickerPrompt::OfferCreate => true,
        },
{
    let aliases = store.list();
    let n = aliases.len();
    if n == 0 {
        return PickerPrompt::OfferCreate;
    }
    let mut names: Vec<String> = Vec::new();
    let mut i: usize = 0;
    while i < n
        invariant
            n == aliases@.len(),
            aliases@.map_values(|a: Alias| a@) == store.entries(),
            i <= n,
            names@.len() == i,
            forall|j: int| 0 <= j < i ==> #[trigger] names@[j]@ == store.entries()[j].0,
        decreases n - i,
    {
        names.push(aliases[i].name.clone());
        assert(aliases@.map_values(|a: Alias| a@)[i as int] == aliases@[i as int]@);
        i = i + 1;
    }
    PickerPrompt::Menu(names)
}

/// Settles the picker on `event`: the command to hand off, or `None` when the
/// user chose nothing. A new alias entered by the user is created first and
/// then selected.
pub fn pick(store: &mut AliasStore, event: PickerEvent) -> (r: Result<Option<String>, AliasError>)
    requires
        old(store).wf(),
    ensures
        final(store).wf(),
        match event {
            PickerEvent::Chosen(i) => {
                &&& final(store).entries() == old(store).entries()
                &&& if i < old(store).entries().len() {
                    r is Ok && r->Ok_0 is Some && r->Ok_0->Some_0@ == old(store).entries()[i as int].1
                } else {
                    r == Err::<Option<String>, AliasError>(AliasError::NotFound)
                }
            },
            PickerEvent::Cancelled | PickerEvent::CreateDeclined => {
                &&& final(store).entries() == old(store).entries()
                &&& r == Ok::<Option<String>, AliasError>(None)
            },
            PickerEvent::CreateEntered(name, command) => {
                &&& r is Ok <==> (valid_name(name@) && valid_command(command@)
                    && !old(store)@.contains_key(name@))
                &&& match r {
                    Ok(c) => {
                        &&& c is Some && c->Some_0@ == command@
                        &&& final(store).entries() == old(store).entries().insert(
                            insertion_point(old(store).entries(), name@),
                            (name@, command@),
                        )
                        &&& final(store)@ == old(store)@.insert(name@, command@)
                    },
                    Err(e) => {
                        &&& final(store).entries() == old(store).entries()
                        &&& e == if !valid_name(name@) {
                            AliasError::InvalidName
                        } else if !valid_command(command@) {
                            AliasError::InvalidCommand
                        } else {
                            AliasError::DuplicateName
                        }
                    },
                }
            },
        },
{
    match event {
        PickerEvent::Chosen(i) => {
            let aliases = store.list();
            if i < aliases.len() {
                assert(aliases@.map_values(|a: Alias| a@)[i as int] == aliases@[i as int]@);
                Ok(Some(aliases[i].command.clone()))
            } else {
                Err(AliasError::NotFound)
            }
        },
        PickerEvent::Cancelled => Ok(None),
        PickerEvent::CreateDeclined => Ok(None),
        PickerEvent::CreateEntered(name, command) => {
            match store.create(name.as_str(), command.as_str()) {
                Ok(a) => Ok(Some(a.command)),
                Err(e) => Err(e),
            }
        },
    }
}

} // verus!
