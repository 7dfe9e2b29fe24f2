//! The registry of identities: a global scope that holds them under their
//! ids, and an optional local scope in which one of them is active.
//!
//! Activation reads the global scope and writes the local one. The two are
//! separate scopes, and nothing makes the step atomic: what was written is
//! given back, so that a caller can tell how far a run of writes came.

use crate::config::{written, Config};
use crate::error::RegistryError;
use crate::identity::{Identity, IdentityView};
use crate::registry::{
    active, current, fetched, identity_keys, list, listed, namespace_prefix, removable,
    remove_all_active,
};
use crate::codec::encoded;
use crate::text::texts;
use vstd::prelude::*;

verus! {

/// What activating `id` writes, or why nothing is written: the failure of
/// the lookup if it fails, `NoSuchIdentity` where `id` is not listed,
/// `NoLocalScope` where there is no local scope, and otherwise the fields of
/// the identity under the bare namespace, without the id.
pub open spec fn activation(
    global: Map<Seq<char>, Seq<char>>,
    has_local: bool,
    id: Seq<char>,
) -> Result<Seq<(Seq<char>, Seq<char>)>, RegistryError> {
    match fetched(global, id) {
        Err(e) => Err(e),
        Ok(None) => Err(RegistryError::NoSuchIdentity),
        Ok(Some(identity)) => if has_local {
            Ok(identity.entries(namespace_prefix()))
        } else {
            Err(RegistryError::NoLocalScope)
        },
    }
}

/// What a selection settles: nothing for an empty one, its item for a single
/// one, and `AmbiguousSelection` for more than one item.
pub open spec fn chosen(selected: Seq<Seq<char>>) -> Result<Option<Seq<char>>, RegistryError> {
    if selected.len() == 0 {
        Ok(None)
    } else if selected.len() == 1 {
        Ok(Some(selected[0]))
    } else {
        Err(RegistryError::AmbiguousSelection)
    }
}

/// Settles what was selected from a list of ids.
pub fn choose_one(selected: &Vec<String>) -> (r: Result<Option<String>, RegistryError>)
    ensures
        match r {
            Ok(Some(id)) => chosen(texts(selected@)) == Ok::<Option<Seq<char>>, RegistryError>(
                Some(id@),
            ),
            Ok(None) => chosen(texts(selected@)) == Ok::<Option<Seq<char>>, RegistryError>(None),
            Err(e) => chosen(texts(selected@)) == Err::<Option<Seq<char>>, RegistryError>(e),
        },
{
    if selected.len() == 0 {
        Ok(None)
    } else if selected.len() > 1 {
        Err(RegistryError::AmbiguousSelection)
    } else {
        Ok(Some(selected[0].clone()))
    }
}

/// The registry: the global scope, and the local scope if there is one.
#[derive(Debug)]
pub struct Manager {
    pub global_config: Config,
    pub local_config: Option<Config>,
}

impl Manager {
    /// The entries of the global scope.
    pub open spec fn global(&self) -> Map<Seq<char>, Seq<char>> {
        self.global_config@
    }

    /// The entries of the local scope, if there is one.
    pub open spec fn local(&self) -> Option<Map<Seq<char>, Seq<char>>> {
        match self.local_config {
            Some(config) => Some(config@),
            None => None,
        }
    }

    /// A registry over the given scopes.
    pub fn new(global_config: Config, local_config: Option<Config>) -> (r: Manager)
        ensures
            r.global_config == global_config,
            r.local_config == local_config,
    {
        Manager { global_config, local_config }
    }

    /// Stores `identity` in the global scope, over whatever the scope holds
    /// under the same keys, and gives the entries that were written.
    pub fn add(&mut self, identity: &Identity) -> (r: Result<Vec<(String, String)>, RegistryError>)
        ensures
            final(self).local() == old(self).local(),
            match r {
                Ok(pairs) => identity@.encodable() && pairs.deep_view() == encoded(identity@)
                    && final(self).global() == written(old(self).global(), encoded(identity@)),
                Err(e) => !identity@.encodable() && e == RegistryError::EncodingError
                    && final(self).global() == old(self).global(),
            },
    {
        crate::registry::add(&mut self.global_config, identity)
    }

    /// The keys of the global scope that can belong to an identity.
    pub fn identity_keys(&self) -> (r: Vec<String>)
        ensures
            texts(r@).no_duplicates(),
            texts(r@).to_set() == crate::registry::candidates(self.global()),
    {
        identity_keys(&self.global_config)
    }

    /// The ids of the identities of the global scope, each once, in no
    /// particular order.
    pub fn get_all(&self) -> (r: Vec<String>)
        ensures
            texts(r@).no_duplicates(),
            texts(r@).to_set() == listed(self.global()),
    {
        list(&self.global_config)
    }

    /// The identity `identity` of the global scope: `None` where it is not
    /// listed, `Inconsistent` where it is listed but its name or its email is
    /// missing.
    pub fn get(&self, identity: &str) -> (r: Result<Option<Identity>, RegistryError>)
        ensures
            match r {
                Ok(Some(found)) => fetched(self.global(), identity@) == Ok::<
                    Option<IdentityView>,
                    RegistryError,
                >(Some(found@)),
                Ok(None) => fetched(self.global(), identity@) == Ok::<
                    Option<IdentityView>,
                    RegistryError,
                >(None),
                Err(e) => fetched(self.global(), identity@) == Err::<
                    Option<IdentityView>,
                    RegistryError,
                >(e),
            },
    {
        crate::registry::get(&self.global_config, identity)
    }

    /// Deletes the identity `identity` from the global scope: every key under
    /// its prefix but the protected ones. Gives the keys that were deleted,
    /// none where there was nothing to remove.
    pub fn remove_from_global(&mut self, identity: &str) -> (r: Vec<String>)
        ensures
            texts(r@).no_duplicates(),
            texts(r@).to_set() == removable(old(self).global(), identity@),
            final(self).global() == old(self).global().remove_keys(
                removable(old(self).global(), identity@),
            ),
            final(self).local() == old(self).local(),
    {
        crate::registry::remove(&mut self.global_config, identity)
    }

    /// Clears whatever identity is active in the local scope: deletes every
    /// key under the namespace and gives the keys that were deleted. Fails
    /// with `NoLocalScope` where there is no local scope.
    pub fn remove(&mut self) -> (r: Result<Vec<String>, RegistryError>)
        ensures
            final(self).global() == old(self).global(),
            match r {
                Ok(keys) => old(self).local() is Some && texts(keys@).no_duplicates() && texts(
                    keys@,
                ).to_set() == active(old(self).local()->0) && final(self).local() == Some(
                    old(self).local()->0.remove_keys(active(old(self).local()->0)),
                ),
                Err(e) => old(self).local() is None && e == RegistryError::NoLocalScope
                    && final(self).local() is None,
            },
    {
        match &mut self.local_config {
            Some(config) => Ok(remove_all_active(config)),
            None => Err(RegistryError::NoLocalScope),
        }
    }

    /// Makes the identity `identity_name` of the global scope the active one
    /// of the local scope: writes its fields under the bare namespace, over
    /// what is there, and gives the entries that were written. Nothing is
    /// cleared first: a field that the identity lacks is left as the local
    /// scope has it.
    pub fn use_identity(&mut self, identity_name: &str) -> (r: Result<
        Vec<(String, String)>,
        RegistryError,
    >)
        ensures
            final(self).global() == old(self).global(),
            match r {
                Ok(pairs) => activation(
                    old(self).global(),
                    old(self).local() is Some,
                    identity_name@,
                ) == Ok::<Seq<(Seq<char>, Seq<char>)>, RegistryError>(pairs.deep_view())
                    && final(self).local() == Some(
                    written(old(self).local()->0, pairs.deep_view()),
                ),
                Err(e) => activation(old(self).global(), old(self).local() is Some, identity_name@)
                    == Err::<Seq<(Seq<char>, Seq<char>)>, RegistryError>(e) && final(self).local()
                    == old(self).local(),
            },
    {
        let found = match self.get(identity_name) {
            Ok(Some(identity)) => identity,
            Ok(None) => {
                return Err(RegistryError::NoSuchIdentity);
            },
            Err(e) => {
                return Err(e);
            },
        };
        match &mut self.local_config {
            Some(config) => {
                match found.iter() {
                    Ok(entries) => {
                        let pairs = entries.collect();
                        config.write_all(&pairs);
                        Ok(pairs)
                    },
                    Err(e) => Err(e),
                }
            },
            None => Err(RegistryError::NoLocalScope),
        }
    }

    /// Activates what was selected from the list of ids: nothing for an empty
    /// selection, the identity for a single one.
    pub fn select_identity(&mut self, selected: &Vec<String>) -> (r: Result<
        Option<Vec<(String, String)>>,
        RegistryError,
    >)
        ensures
            final(self).global() == old(self).global(),
            match chosen(texts(selected@)) {
                Ok(Some(id)) => match r {
                    Ok(Some(pairs)) => activation(old(self).global(), old(self).local() is Some, id)
                        == Ok::<Seq<(Seq<char>, Seq<char>)>, RegistryError>(pairs.deep_view())
                        && final(self).local() == Some(
                        written(old(self).local()->0, pairs.deep_view()),
                    ),
                    Ok(None) => false,
                    Err(e) => activation(old(self).global(), old(self).local() is Some, id)
                        == Err::<Seq<(Seq<char>, Seq<char>)>, RegistryError>(e)
                        && final(self).local() == old(self).local(),
                },
                Ok(None) => r == Ok::<Option<Vec<(String, String)>>, RegistryError>(None)
                    && final(self).local() == old(self).local(),
                Err(e) => r == Err::<Option<Vec<(String, String)>>, RegistryError>(e)
                    && final(self).local() == old(self).local(),
            },
    {
        match choose_one(selected) {
            Ok(Some(id)) => match self.use_identity(id.as_str()) {
                Ok(pairs) => Ok(Some(pairs)),
                Err(e) => Err(e),
            },
            Ok(None) => Ok(None),
            Err(e) => Err(e),
        }
    }

    /// The name and the email of the identity that is active in the local
    /// scope, where there is a local scope and it holds both.
    pub fn current_identity(&self) -> (r: Option<(String, String)>)
        ensures
            r.deep_view() == match self.local() {
                Some(scope) => current(scope),
                None => None,
            },
    {
        match &self.local_config {
            Some(config) => crate::registry::current_identity(config),
            None => None,
        }
    }
}

} // verus!
