use vstd::prelude::*;
use crate::alias::{Alias, AliasError, valid_name, valid_command};
use crate::store::{AliasStore, insertion_point};

verus! {

/// What one invocation asks of the registry.
#[derive(Debug)]
pub enum Request {
    /// Activate the alias of this name.
    Activate(String),
    /// Show every alias.
    List,
    /// Add an alias with this name and command.
    Create(String, String),
    /// Remove the alias of this name.
    Delete(String),
}

/// What the caller does once a request has been decided.
#[derive(Debug)]
pub enum Action {
    /// Write this command to the hand-off file.
    Publish(String),
    /// Show these aliases.
    Show(Vec<Alias>),
    /// Nothing more: the store has been changed as asked.
    Stored,
}

/// The command to hand off for the alias named `name`.
pub fn activate(store: &AliasStore, name: &str) -> (r: Result<String, AliasError>)
    requires
        store.wf(),
    ensures
        r is Ok <==> store@.contains_key(name@),
        match r {
            Ok(c) => c@ == store@[name@],
            Err(e) => e == AliasError::NotFound,
        },
{
    match store.get(name) {
        Ok(a) => Ok(a.command),
        Err(e) => Err(e),
    }
}

/// Decides `request` against the store, changing it where the request asks.
pub fn route(store: &mut AliasStore, request: Request) -> (r: Result<Action, AliasError>)
    requires
        old(store).wf(),
    ensures
        final(store).wf(),
        match request {
            Request::Activate(name) => {
                &&& final(store).entries() == old(store).entries()
                &&& r is Ok <==> old(store)@.contains_key(name@)
                &&& match r {
                    Ok(Action::Publish(c)) => c@ == old(store)@[name@],
                    Ok(_) => false,
                    Err(e) => e == AliasError::NotFound,
                }
            },
            Request::List => {
                &&& final(store).entries() == old(store).entries()
                &&& r is Ok && r->Ok_0 is Show
                &&& r->Ok_0->Show_0@.map_values(|a: Alias| a@) == old(store).entries()
            },
            Request::Create(name, command) => {
                &&& r is Ok <==> (valid_name(name@) && valid_command(command@)
                    && !old(store)@.contains_key(name@))
                &&& match r {
                    Ok(a) => {
                        &&& a is Stored
                        &&& final(store).entries() == old(store).entries().insert(
                            insertion_point(old(store).entries(), name@),
                            (name@, command@),
                        )
                        &&& final(store)@ == old(store)@.insert(name@, command@)
                    },
                    Err(e) => {
                        &&& final(store).entries() == old(store).entries()
                        &&& e == if !valid_name(name@) {
                            AliasError::InvalidName
                        } else if !valid_command(command@) {
                            AliasError::InvalidCommand
                        } else {
                            AliasError::DuplicateName
                        }
                    },
                }
            },
            Request::Delete(name) => {
                &&& r is Ok <==> old(store)@.contains_key(name@)
                &&& match r {
                    Ok(a) => {
                        &&& a is Stored
                        &&& final(store).entries() == old(store).entries().remove(
                            insertion_point(old(store).entries(), name@),
                        )
                        &&& final(store)@ == old(store)@.remove(name@)
                    },
                    Err(e) => e == AliasError::NotFound && final(store).entries() == old(
                        store,
                    ).entries(),
                }
            },
        },
{
    match request {
        Request::Activate(name) => match activate(store, name.as_str()) {
            Ok(c) => Ok(Action::Publish(c)),
            Err(e) => Err(e),
        },
        Request::List => Ok(Action::Show(store.list())),
        Request::Create(name, command) => match store.create(name.as_str(), command.as_str()) {
            Ok(_) => Ok(Action::Stored),
            Err(e) => Err(e),
        },
        Request::Delete(name) => match store.delete(name.as_str()) {
            Ok(_) => Ok(Action::Stored),
            Err(e) => Err(e),
        },
    }
}

} // verus!
