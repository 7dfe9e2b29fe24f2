//! The failures that the registry reports.

use crate::text::{join, joined, keys_of, texts};
use vstd::prelude::*;

verus! {

/// Why an operation on identities did not go through.
#[derive(Debug, PartialEq, Eq)]
pub enum RegistryError {
    /// A point read or removal named a key that the scope does not hold.
    NotFound,
    /// An identity is listed, yet its name or its email is missing.
    Inconsistent,
    /// A run of writes or removals stopped part-way; `written` names the keys
    /// that went through, in the order in which they were handled.
    PartialWriteError { written: Vec<String> },
    /// More than one identity was selected.
    AmbiguousSelection,
    /// No identity of that id is listed.
    NoSuchIdentity,
    /// The registry has no local scope.
    NoLocalScope,
    /// The path of an SSH key is not valid Unicode, so no value can be stored
    /// for it.
    EncodingError,
}

/// The first `done` of `keys`, or all of them where there are fewer.
pub open spec fn handled(keys: Seq<Seq<char>>, done: nat) -> Seq<Seq<char>> {
    if done <= keys.len() {
        keys.take(done as int)
    } else {
        keys
    }
}

/// What a failure says to the person at the terminal.
pub open spec fn message_of(e: RegistryError) -> Seq<char> {
    match e {
        RegistryError::NotFound => "no such key"@,
        RegistryError::Inconsistent => "identity is listed but its name or email is missing"@,
        RegistryError::PartialWriteError { written } => "stopped part-way, after: "@ + joined(
            texts(written@),
            ", "@,
        ),
        RegistryError::AmbiguousSelection => "multiple item selection not supported"@,
        RegistryError::NoSuchIdentity => "no such identity"@,
        RegistryError::NoLocalScope => "no local config set"@,
        RegistryError::EncodingError => "path of the SSH key is not valid Unicode"@,
    }
}

impl RegistryError {
    /// The failure of a run of writes of which the first `done` went through.
    pub fn partial_write(pairs: &Vec<(String, String)>, done: usize) -> (r: RegistryError)
        ensures
            r matches RegistryError::PartialWriteError { written } && texts(written@) == handled(
                keys_of(pairs.deep_view()),
                done as nat,
            ),
    {
        let ghost all = keys_of(pairs.deep_view());
        let mut written: Vec<String> = Vec::new();
        let mut i: usize = 0;
        while i < pairs.len() && i < done
            invariant
                i <= pairs.len(),
                i <= done,
                all == keys_of(pairs.deep_view()),
                texts(written@) == all.take(i as int),
            decreases pairs.len() - i,
        {
            let ghost before = texts(written@);
            written.push(pairs[i].0.clone());
            assert(texts(written@) =~= before.push(all[i as int]));
            i += 1;
        }
        RegistryError::PartialWriteError { written }
    }

    /// The failure of a run of removals of which the first `done` went
    /// through.
    pub fn partial_removal(keys: &Vec<String>, done: usize) -> (r: RegistryError)
        ensures
            r matches RegistryError::PartialWriteError { written } && texts(written@) == handled(
                texts(keys@),
                done as nat,
            ),
    {
        let ghost all = texts(keys@);
        let mut written: Vec<String> = Vec::new();
        let mut i: usize = 0;
        while i < keys.len() && i < done
            invariant
                i <= keys.len(),
                i <= done,
                all == texts(keys@),
                texts(written@) == all.take(i as int),
            decreases keys.len() - i,
        {
            let ghost before = texts(written@);
            written.push(keys[i].clone());
            assert(texts(written@) =~= before.push(all[i as int]));
            i += 1;
        }
        RegistryError::PartialWriteError { written }
    }

    /// What this failure says to the person at the terminal.
    pub fn message(&self) -> (r: String)
        ensures
            r@ == message_of(*self),
    {
        match self {
            RegistryError::NotFound => "no such key".to_owned(),
            RegistryError::Inconsistent => {
                "identity is listed but its name or email is missing".to_owned()
            },
            RegistryError::PartialWriteError { written } => {
                let keys = join(written.as_slice(), ", ");
                "stopped part-way, after: ".to_owned().concat(keys.as_str())
            },
            RegistryError::AmbiguousSelection => "multiple item selection not supported".to_owned(),
            RegistryError::NoSuchIdentity => "no such identity".to_owned(),
            RegistryError::NoLocalScope => "no local config set".to_owned(),
            RegistryError::EncodingError => "path of the SSH key is not valid Unicode".to_owned(),
        }
    }
}

} // verus!
