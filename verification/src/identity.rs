//! An identity and the entries that store it.

use crate::codec::{ConfigKey, NAMESPACE, SEPARATOR};
use crate::error::RegistryError;
use crate::path::{path_text, path_to_str};
use std::path::PathBuf;
use vstd::prelude::*;

verus! {

/// One named identity.
///
/// `id` names the identity within a scope and may hold separators
/// (`work.client-a`). A missing signing key and an empty one mean the same.
#[derive(Debug, Clone, PartialEq)]
pub struct Identity {
    pub id: String,
    pub name: String,
    pub email: String,
    pub signing_key: Option<String>,
    pub ssh_key: Option<PathBuf>,
}

/// An identity as plain text. `ssh_key` is `Some(None)` for a path that is
/// not valid Unicode and so has no text.
pub ghost struct IdentityView {
    pub id: Seq<char>,
    pub name: Seq<char>,
    pub email: Seq<char>,
    pub signing_key: Option<Seq<char>>,
    pub ssh_key: Option<Option<Seq<char>>>,
}

impl IdentityView {
    /// The identity with every field at its zero value.
    pub open spec fn empty() -> IdentityView {
        IdentityView {
            id: Seq::empty(),
            name: Seq::empty(),
            email: Seq::empty(),
            signing_key: None,
            ssh_key: None,
        }
    }

    /// Whether every field can be stored as text.
    pub open spec fn encodable(self) -> bool {
        !(self.ssh_key matches Some(None))
    }

    /// The entries that store the fields of this identity under `prefix`, in
    /// the order in which they are written: name, email, then the signing key
    /// and the SSH key where there is one.
    pub open spec fn entries(self, prefix: Seq<char>) -> Seq<(Seq<char>, Seq<char>)> {
        seq![
            (prefix + ConfigKey::Name.word(), self.name),
            (prefix + ConfigKey::Email.word(), self.email),
        ] + (match self.signing_key {
            Some(key) => seq![(prefix + ConfigKey::SigningKey.word(), key)],
            None => seq![],
        }) + (match self.ssh_key {
            Some(Some(path)) => seq![(prefix + ConfigKey::SshKey.word(), path)],
            _ => seq![],
        })
    }
}

impl View for Identity {
    type V = IdentityView;

    open spec fn view(&self) -> IdentityView {
        IdentityView {
            id: self.id@,
            name: self.name@,
            email: self.email@,
            signing_key: match self.signing_key {
                Some(key) => Some(key@),
                None => None,
            },
            ssh_key: match self.ssh_key {
                Some(path) => Some(path_text(path)),
                None => None,
            },
        }
    }
}

impl Default for Identity {
    fn default() -> (r: Identity)
        ensures
            r@ == IdentityView::empty(),
    {
        Identity {
            id: String::new(),
            name: String::new(),
            email: String::new(),
            signing_key: None,
            ssh_key: None,
        }
    }
}

impl Identity {
    /// The entries that store this identity under `prefix`, or
    /// `EncodingError` where the path of the SSH key has no text.
    pub fn entries(&self, prefix: &str) -> (r: Result<Vec<(String, String)>, RegistryError>)
        ensures
            match r {
                Ok(pairs) => self@.encodable() && pairs.deep_view() == self@.entries(prefix@),
                Err(e) => !self@.encodable() && e == RegistryError::EncodingError,
            },
    {
        let mut items: Vec<(String, String)> = Vec::new();
        items.push((prefix.to_owned().concat(ConfigKey::Name.as_str()), self.name.clone()));
        items.push((prefix.to_owned().concat(ConfigKey::Email.as_str()), self.email.clone()));
        if let Some(key) = &self.signing_key {
            items.push((prefix.to_owned().concat(ConfigKey::SigningKey.as_str()), key.clone()));
        }
        if let Some(path) = &self.ssh_key {
            match path_to_str(path) {
                Some(text) => {
                    items.push(
                        (prefix.to_owned().concat(ConfigKey::SshKey.as_str()), text.to_owned()),
                    );
                },
                None => {
                    return Err(RegistryError::EncodingError);
                },
            }
        }
        Ok(items)
    }

    /// Walks the entries that make this identity the active one of a scope:
    /// its fields directly under the namespace, without the id. Fails with
    /// `EncodingError` where the path of the SSH key has no text.
    pub fn iter(&self) -> (r: Result<IdentityIterator, RegistryError>)
        ensures
            match r {
                Ok(it) => self@.encodable() && it@ == self@.entries(NAMESPACE@ + seq![SEPARATOR]),
                Err(e) => !self@.encodable() && e == RegistryError::EncodingError,
            },
    {
        proof {
            reveal_strlit(".");
            assert("."@ =~= seq![SEPARATOR]);
        }
        let prefix = NAMESPACE.to_owned().concat(".");
        match self.entries(prefix.as_str()) {
            Ok(items) => {
                let it = IdentityIterator { idx: 0, items };
                Ok(it)
            },
            Err(_) => Err(RegistryError::EncodingError),
        }
    }
}

/// Walks the entries of an identity in order.
#[derive(Debug)]
pub struct IdentityIterator {
    idx: usize,
    items: Vec<(String, String)>,
}

impl View for IdentityIterator {
    type V = Seq<(Seq<char>, Seq<char>)>;

    /// The entries that have not been handed out yet.
    closed spec fn view(&self) -> Seq<(Seq<char>, Seq<char>)> {
        self.items.deep_view().skip(self.idx as int)
    }
}

impl IdentityIterator {
    #[verifier::type_invariant]
    spec fn within(self) -> bool {
        self.idx <= self.items.len()
    }

    /// Hands out the next entry, or `None` once all have been handed out.
    pub fn next(&mut self) -> (r: Option<(String, String)>)
        ensures
            match r {
                Some(pair) => old(self)@.len() > 0 && pair.deep_view() == old(self)@[0]
                    && final(self)@ == old(self)@.drop_first(),
                None => old(self)@.len() == 0 && final(self)@ == old(self)@,
            },
    {
        proof {
            use_type_invariant(&*self);
        }
        if self.idx >= self.items.len() {
            return None;
        }
        let pair = (self.items[self.idx].0.clone(), self.items[self.idx].1.clone());
        self.idx += 1;
        Some(pair)
    }

    /// The entries that have not been handed out yet, in order.
    pub fn collect(self) -> (r: Vec<(String, String)>)
        ensures
            r.deep_view() == self@,
    {
        proof {
            use_type_invariant(&self);
        }
        let mut rest: Vec<(String, String)> = Vec::new();
        let mut i: usize = self.idx;
        while i < self.items.len()
            invariant
                self.idx <= i <= self.items.len(),
                rest.deep_view() == self.items.deep_view().subrange(self.idx as int, i as int),
            decreases self.items.len() - i,
        {
            let ghost before = rest.deep_view();
            let pair = (self.items[i].0.clone(), self.items[i].1.clone());
            rest.push(pair);
            assert(rest.deep_view() =~= before.push(self.items.deep_view()[i as int]));
            i += 1;
        }
        rest
    }
}

} // verus!
