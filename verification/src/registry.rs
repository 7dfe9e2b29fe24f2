//! The operations on the identities of one scope: listing, lookup, storing
//! and removal, and what holds between them.
//!
//! An operation that changes a scope gives back what it wrote or deleted, in
//! the order in which it did so. A caller that keeps the scope in a file
//! repeats exactly that on the file. The store has no transactions: where the
//! file refuses one of the writes, the ones before it stay, and
//! [`RegistryError::partial_write`] or [`RegistryError::partial_removal`]
//! names them.

use crate::codec::{
    decode, decode_id, decoded, decoded_id, encode, encoded, field_key, fields, identity_prefix,
    key_of, lemma_decode_field_key, lemma_decoded_id_prefix, lemma_field_words, lemma_last_field,
    prefix_of, ConfigKey, NAMESPACE, SEPARATOR,
};
use crate::config::{
    enumerates, lemma_filter_all, lemma_filter_names, lemma_filter_push, under, written, Config,
};
use crate::error::RegistryError;
use crate::identity::{Identity, IdentityView};
use crate::text::{
    contains, eq_ignore_ascii_case, keys_of, lemma_segments_concat, lemma_segments_nonempty,
    lemma_segments_single, lowercase, segments, split, texts,
};
use vstd::prelude::*;

verus! {

/// The last segment of a key that is never deleted with an identity.
pub const PROTECTED: &'static str = "useconfigonly";

/// What every key under the namespace starts with.
pub open spec fn namespace_prefix() -> Seq<char> {
    NAMESPACE@ + seq![SEPARATOR]
}

/// The id that a key stands for, if it belongs to an identity.
pub open spec fn owner(key: Seq<char>) -> Option<Seq<char>> {
    match decoded_id(key, NAMESPACE@) {
        Some((id, _)) => Some(id),
        None => None,
    }
}

/// The ids of a scope: those for which the scope holds at least one key that
/// stands for them.
pub open spec fn listed(scope: Map<Seq<char>, Seq<char>>) -> Set<Seq<char>> {
    Set::new(
        |id: Seq<char>|
            exists|key: Seq<char>| #[trigger] scope.contains_key(key) && owner(key) == Some(id),
    )
}

/// The keys of a scope that can belong to an identity: under the namespace,
/// with at least one segment for the id and one for the field after it.
pub open spec fn candidates(scope: Map<Seq<char>, Seq<char>>) -> Set<Seq<char>> {
    Set::new(
        |key: Seq<char>|
            scope.contains_key(key) && namespace_prefix().is_prefix_of(key) && segments(
                key.skip(namespace_prefix().len() as int),
                SEPARATOR,
            ).len() >= 2,
    )
}

/// Whether a key is kept when an identity is removed: its last segment,
/// folded to lower case, is [`PROTECTED`].
pub open spec fn protected(key: Seq<char>) -> bool {
    lowercase(segments(key, SEPARATOR).last()) == PROTECTED@
}

/// The keys that go when the identity `id` is removed from a scope: those
/// that start with the prefix of `id` and are not protected.
pub open spec fn removable(scope: Map<Seq<char>, Seq<char>>, id: Seq<char>) -> Set<Seq<char>> {
    Set::new(
        |key: Seq<char>|
            scope.contains_key(key) && identity_prefix(NAMESPACE@, id).is_prefix_of(key)
                && !protected(key),
    )
}

/// The keys of a scope under the namespace: what stores its active identity.
pub open spec fn active(scope: Map<Seq<char>, Seq<char>>) -> Set<Seq<char>> {
    Set::new(|key: Seq<char>| scope.contains_key(key) && namespace_prefix().is_prefix_of(key))
}

/// Whether a scope holds both the name and the email of `id`.
pub open spec fn complete(scope: Map<Seq<char>, Seq<char>>, id: Seq<char>) -> bool {
    scope.contains_key(field_key(NAMESPACE@, id, ConfigKey::Name)) && scope.contains_key(
        field_key(NAMESPACE@, id, ConfigKey::Email),
    )
}

/// The identity `id` as a scope stores it: name and email as they stand, the
/// signing key unless it is missing or empty, the SSH key if there is one.
pub open spec fn assembled(scope: Map<Seq<char>, Seq<char>>, id: Seq<char>) -> IdentityView {
    let signing = field_key(NAMESPACE@, id, ConfigKey::SigningKey);
    let ssh = field_key(NAMESPACE@, id, ConfigKey::SshKey);
    IdentityView {
        id,
        name: scope[field_key(NAMESPACE@, id, ConfigKey::Name)],
        email: scope[field_key(NAMESPACE@, id, ConfigKey::Email)],
        signing_key: if scope.contains_key(signing) && scope[signing].len() > 0 {
            Some(scope[signing])
        } else {
            None
        },
        ssh_key: if scope.contains_key(ssh) {
            Some(Some(scope[ssh]))
        } else {
            None
        },
    }
}

/// What looking up `id` in a scope gives: nothing where `id` is not listed,
/// `Inconsistent` where it is listed without its name or its email, and the
/// identity as stored otherwise.
pub open spec fn fetched(scope: Map<Seq<char>, Seq<char>>, id: Seq<char>) -> Result<
    Option<IdentityView>,
    RegistryError,
> {
    if !listed(scope).contains(id) {
        Ok(None)
    } else if !complete(scope, id) {
        Err(RegistryError::Inconsistent)
    } else {
        Ok(Some(assembled(scope, id)))
    }
}

/// The name and the email of the identity that is active in a scope, where
/// the scope holds both.
pub open spec fn current(scope: Map<Seq<char>, Seq<char>>) -> Option<(Seq<char>, Seq<char>)> {
    let name = namespace_prefix() + ConfigKey::Name.word();
    let email = namespace_prefix() + ConfigKey::Email.word();
    if scope.contains_key(name) && scope.contains_key(email) {
        Some((scope[name], scope[email]))
    } else {
        None
    }
}

/// Whether `key` is deleted when its identity is removed. Some keys under an
/// identity are settings of the store itself and stay: those whose last
/// segment is [`PROTECTED`], in whatever case it is written.
pub fn should_remove_key(key: &str) -> (r: bool)
    ensures
        r == !protected(key@),
{
    let parts = split(key, SEPARATOR);
    proof {
        lemma_segments_nonempty(key@, SEPARATOR);
        lemma_lowercase_protected();
    }
    let last = parts[parts.len() - 1].as_str();
    assert(last@ == segments(key@, SEPARATOR).last()) by {
        assert(texts(parts@).last() == parts@.last()@);
    }
    !eq_ignore_ascii_case(last, PROTECTED)
}

/// The keys of a scope that can belong to an identity, each once.
pub fn identity_keys(scope: &Config) -> (r: Vec<String>)
    ensures
        texts(r@).no_duplicates(),
        texts(r@).to_set() == candidates(scope@),
{
    proof {
        reveal_strlit(".");
        assert("."@ =~= seq![SEPARATOR]);
    }
    let prefix = NAMESPACE.to_owned().concat(".");
    let start = prefix.as_str().unicode_len();
    let entries = scope.entries(Some(prefix.as_str()));
    let ghost all = keys_of(entries.deep_view());
    let ghost keep = |k: Seq<char>| segments(k.skip(start as int), SEPARATOR).len() >= 2;
    let mut keys: Vec<String> = Vec::new();
    let mut i: usize = 0;
    proof {
        reveal(Seq::filter);
        assert(all.take(0) =~= Seq::empty());
    }
    while i < entries.len()
        invariant
            i <= entries.len(),
            all == keys_of(entries.deep_view()),
            start == prefix@.len(),
            enumerates(entries.deep_view(), under(scope@, Some(prefix@))),
            forall|k: Seq<char>|
                #[trigger] keep(k) == (segments(k.skip(start as int), SEPARATOR).len() >= 2),
            texts(keys@) == all.take(i as int).filter(keep),
        decreases entries.len() - i,
    {
        proof {
            lemma_filter_push(all.take(i as int), all[i as int], keep);
            assert(all.take(i + 1) =~= all.take(i as int).push(all[i as int]));
            assert(under(scope@, Some(prefix@)).contains_pair(
                entries.deep_view()[i as int].0,
                entries.deep_view()[i as int].1,
            ));
        }
        let name = entries[i].0.as_str();
        let body = name.substring_char(start, name.unicode_len());
        assert(body@ =~= name@.skip(start as int));
        if split(body, SEPARATOR).len() >= 2 {
            let ghost before = texts(keys@);
            keys.push(entries[i].0.clone());
            assert(texts(keys@) =~= before.push(all[i as int]));
        }
        i += 1;
    }
    proof {
        assert(all.take(entries.len() as int) =~= all);
        lemma_filter_names(entries.deep_view(), under(scope@, Some(prefix@)), keep);
        assert(under(scope@, Some(prefix@)).dom().filter(keep) =~= candidates(scope@));
    }
    keys
}

/// The ids of the identities of a scope, each once, in no particular order.
/// An id is listed as soon as one of its fields is stored.
pub fn list(scope: &Config) -> (r: Vec<String>)
    ensures
        texts(r@).no_duplicates(),
        texts(r@).to_set() == listed(scope@),
{
    let keys = identity_keys(scope);
    let ghost all = texts(keys@);
    let mut ids: Vec<String> = Vec::new();
    let mut i: usize = 0;
    while i < keys.len()
        invariant
            i <= keys.len(),
            all == texts(keys@),
            texts(ids@).no_duplicates(),
            forall|a: int|
                0 <= a < ids.len() ==> exists|j: int|
                    0 <= j < i && owner(#[trigger] all[j]) == Some((#[trigger] texts(ids@)[a])),
            forall|j: int|
                0 <= j < i && owner(#[trigger] all[j]) is Some ==> texts(ids@).contains(
                    owner(all[j])->0,
                ),
        decreases keys.len() - i,
    {
        assert(all[i as int] == keys@[i as int]@);
        if let Some((id, _)) = decode_id(keys[i].as_str(), NAMESPACE) {
            if !contains(&ids, id.as_str()) {
                let ghost before = texts(ids@);
                ids.push(id);
                assert(texts(ids@) =~= before.push(id@));
                assert forall|j: int|
                    0 <= j < i + 1 && owner(#[trigger] all[j]) is Some implies texts(ids@).contains(
                    owner(all[j])->0,
                ) by {
                    if j < i {
                        let a = before.index_of(owner(all[j])->0);
                        assert(texts(ids@)[a] == owner(all[j])->0);
                    } else {
                        assert(texts(ids@)[before.len() as int] == id@);
                    }
                }
                assert forall|a: int| 0 <= a < ids.len() implies exists|j: int|
                    0 <= j < i + 1 && owner(#[trigger] all[j]) == Some(
                        (#[trigger] texts(ids@)[a]),
                    ) by {
                    if a < before.len() {
                        assert(texts(ids@)[a] == before[a]);
                        let j = choose|j: int|
                            0 <= j < i && owner(#[trigger] all[j]) == Some(before[a]);
                        assert(owner(all[j]) == Some(texts(ids@)[a]));
                    } else {
                        assert(owner(all[i as int]) == Some(texts(ids@)[a]));
                    }
                }
            }
        }
        i += 1;
    }
    proof {
        let out = texts(ids@);
        assert forall|id: Seq<char>| out.to_set().contains(id) <==> listed(scope@).contains(
            id,
        ) by {
            if out.contains(id) {
                let a = out.index_of(id);
                let j = choose|j: int|
                    0 <= j < keys.len() && owner(#[trigger] all[j]) == Some(out[a]);
                assert(all.to_set().contains(all[j]));
                assert(scope@.contains_key(all[j]));
            }
            if listed(scope@).contains(id) {
                let key = choose|key: Seq<char>|
                    #[trigger] scope@.contains_key(key) && owner(key) == Some(id);
                lemma_owner_candidate(scope@, key);
                assert(all.to_set().contains(key));
                let j = all.index_of(key);
                assert(owner(all[j]) is Some);
            }
        }
        assert(out.to_set() =~= listed(scope@));
    }
    ids
}

/// The identity `id` of a scope: `None` where `id` is not listed,
/// `Inconsistent` where it is listed but its name or its email is missing.
pub fn get(scope: &Config, id: &str) -> (r: Result<Option<Identity>, RegistryError>)
    ensures
        match r {
            Ok(Some(found)) => fetched(scope@, id@) == Ok::<Option<IdentityView>, RegistryError>(
                Some(found@),
            ),
            Ok(None) => fetched(scope@, id@) == Ok::<Option<IdentityView>, RegistryError>(None),
            Err(e) => fetched(scope@, id@) == Err::<Option<IdentityView>, RegistryError>(e),
        },
{
    let ids = list(scope);
    if !contains(&ids, id) {
        return Ok(None);
    }
    assert(texts(ids@).to_set().contains(id@));
    let name = scope.get_string(key_of(NAMESPACE, id, ConfigKey::Name).as_str());
    let email = scope.get_string(key_of(NAMESPACE, id, ConfigKey::Email).as_str());
    match (name, email) {
        (Ok(name), Ok(email)) => {
            let mut pairs: Vec<(ConfigKey, String)> = Vec::new();
            pairs.push((ConfigKey::Name, name));
            pairs.push((ConfigKey::Email, email));
            if let Ok(key) = scope.get_string(
                key_of(NAMESPACE, id, ConfigKey::SigningKey).as_str(),
            ) {
                pairs.push((ConfigKey::SigningKey, key));
            }
            if let Ok(path) = scope.get_string(key_of(NAMESPACE, id, ConfigKey::SshKey).as_str()) {
                pairs.push((ConfigKey::SshKey, path));
            }
            let found = decode(id, &pairs);
            proof {
                lemma_decoded_reads(scope@, id@, fields(pairs@));
            }
            Ok(Some(found))
        },
        _ => Err(RegistryError::Inconsistent),
    }
}

/// Stores `identity` in a scope, over whatever the scope holds under the same
/// keys, and gives the entries that were written. A field that the identity
/// lacks is left as the scope has it.
pub fn add(scope: &mut Config, identity: &Identity) -> (r: Result<
    Vec<(String, String)>,
    RegistryError,
>)
    ensures
        match r {
            Ok(pairs) => identity@.encodable() && pairs.deep_view() == encoded(identity@)
                && final(scope)@ == written(old(scope)@, encoded(identity@)),
            Err(e) => !identity@.encodable() && e == RegistryError::EncodingError && final(scope)@
                == old(scope)@,
        },
{
    match encode(identity) {
        Ok(pairs) => {
            scope.write_all(&pairs);
            Ok(pairs)
        },
        Err(e) => Err(e),
    }
}

/// Deletes the identity `id` from a scope: every key under the prefix of `id`
/// but the protected ones. Gives the keys that were deleted, none where there
/// was nothing to remove.
pub fn remove(scope: &mut Config, id: &str) -> (r: Vec<String>)
    ensures
        texts(r@).no_duplicates(),
        texts(r@).to_set() == removable(old(scope)@, id@),
        final(scope)@ == old(scope)@.remove_keys(removable(old(scope)@, id@)),
{
    let prefix = prefix_of(NAMESPACE, id);
    let entries = scope.entries(Some(prefix.as_str()));
    let ghost all = keys_of(entries.deep_view());
    let ghost keep = |k: Seq<char>| !protected(k);
    let mut keys: Vec<String> = Vec::new();
    let mut i: usize = 0;
    proof {
        reveal(Seq::filter);
        assert(all.take(0) =~= Seq::empty());
    }
    while i < entries.len()
        invariant
            i <= entries.len(),
            all == keys_of(entries.deep_view()),
            forall|k: Seq<char>| #[trigger] keep(k) == !protected(k),
            texts(keys@) == all.take(i as int).filter(keep),
        decreases entries.len() - i,
    {
        proof {
            lemma_filter_push(all.take(i as int), all[i as int], keep);
            assert(all.take(i + 1) =~= all.take(i as int).push(all[i as int]));
        }
        if should_remove_key(entries[i].0.as_str()) {
            let ghost before = texts(keys@);
            keys.push(entries[i].0.clone());
            assert(texts(keys@) =~= before.push(all[i as int]));
        }
        i += 1;
    }
    proof {
        assert(all.take(entries.len() as int) =~= all);
        lemma_filter_names(entries.deep_view(), under(scope@, Some(prefix@)), keep);
        assert(under(scope@, Some(prefix@)).dom().filter(keep) =~= removable(scope@, id@));
    }
    scope.remove_all(&keys);
    keys
}

/// Clears whatever identity is active in a scope: deletes every key under the
/// namespace, protected or not, and gives the keys that were deleted.
pub fn remove_all_active(scope: &mut Config) -> (r: Vec<String>)
    ensures
        texts(r@).no_duplicates(),
        texts(r@).to_set() == active(old(scope)@),
        final(scope)@ == old(scope)@.remove_keys(active(old(scope)@)),
{
    proof {
        reveal_strlit(".");
        assert("."@ =~= seq![SEPARATOR]);
    }
    let prefix = NAMESPACE.to_owned().concat(".");
    let entries = scope.entries(Some(prefix.as_str()));
    let ghost all = keys_of(entries.deep_view());
    let mut keys: Vec<String> = Vec::new();
    let mut i: usize = 0;
    while i < entries.len()
        invariant
            i <= entries.len(),
            all == keys_of(entries.deep_view()),
            texts(keys@) == all.take(i as int),
        decreases entries.len() - i,
    {
        let ghost before = texts(keys@);
        keys.push(entries[i].0.clone());
        assert(texts(keys@) =~= before.push(all[i as int]));
        assert(all.take(i + 1) =~= all.take(i as int).push(all[i as int]));
        i += 1;
    }
    proof {
        assert(all.take(entries.len() as int) =~= all);
        let keep = |k: Seq<char>| true;
        lemma_filter_names(entries.deep_view(), under(scope@, Some(prefix@)), keep);
        lemma_filter_all(all, keep);
        assert(under(scope@, Some(prefix@)).dom().filter(keep) =~= active(scope@));
    }
    scope.remove_all(&keys);
    keys
}

/// The name and the email of the identity that is active in a scope, where
/// the scope holds both.
pub fn current_identity(scope: &Config) -> (r: Option<(String, String)>)
    ensures
        r.deep_view() == current(scope@),
{
    proof {
        reveal_strlit(".");
        assert("."@ =~= seq![SEPARATOR]);
    }
    let prefix = NAMESPACE.to_owned().concat(".");
    let name = scope.get_entry(prefix.clone().concat(ConfigKey::Name.as_str()).as_str());
    let email = scope.get_entry(prefix.clone().concat(ConfigKey::Email.as_str()).as_str());
    match (name, email) {
        (Ok(name), Ok(email)) => Some((name.1, email.1)),
        _ => None,
    }
}

/// [`PROTECTED`] is written in lower case.
proof fn lemma_lowercase_protected()
    ensures
        lowercase(PROTECTED@) == PROTECTED@,
{
    reveal_strlit("useconfigonly");
    assert(lowercase(PROTECTED@) =~= PROTECTED@);
}

/// A key that stands for an identity is a candidate.
proof fn lemma_owner_candidate(scope: Map<Seq<char>, Seq<char>>, key: Seq<char>)
    requires
        scope.contains_key(key),
        owner(key) is Some,
    ensures
        candidates(scope).contains(key),
{
    lemma_last_field(segments(key.skip(namespace_prefix().len() as int), SEPARATOR));
}

/// Decoding what the point reads of a complete identity gave is the identity
/// as the scope stores it.
proof fn lemma_decoded_reads(
    scope: Map<Seq<char>, Seq<char>>,
    id: Seq<char>,
    pairs: Seq<(ConfigKey, Seq<char>)>,
)
    requires
        complete(scope, id),
        pairs =~= seq![
            (ConfigKey::Name, scope[field_key(NAMESPACE@, id, ConfigKey::Name)]),
            (ConfigKey::Email, scope[field_key(NAMESPACE@, id, ConfigKey::Email)]),
        ] + (if scope.contains_key(field_key(NAMESPACE@, id, ConfigKey::SigningKey)) {
            seq![
                (ConfigKey::SigningKey, scope[field_key(NAMESPACE@, id, ConfigKey::SigningKey)]),
            ]
        } else {
            seq![]
        }) + (if scope.contains_key(field_key(NAMESPACE@, id, ConfigKey::SshKey)) {
            seq![(ConfigKey::SshKey, scope[field_key(NAMESPACE@, id, ConfigKey::SshKey)])]
        } else {
            seq![]
        }),
    ensures
        decoded(id, pairs) == assembled(scope, id),
{
    let signing = field_key(NAMESPACE@, id, ConfigKey::SigningKey);
    let ssh = field_key(NAMESPACE@, id, ConfigKey::SshKey);
    let g0 = Seq::<(ConfigKey, Seq<char>)>::empty();
    let g1 = g0.push((ConfigKey::Name, scope[field_key(NAMESPACE@, id, ConfigKey::Name)]));
    let g2 = g1.push((ConfigKey::Email, scope[field_key(NAMESPACE@, id, ConfigKey::Email)]));
    let g3 = if scope.contains_key(signing) {
        g2.push((ConfigKey::SigningKey, scope[signing]))
    } else {
        g2
    };
    let g4 = if scope.contains_key(ssh) {
        g3.push((ConfigKey::SshKey, scope[ssh]))
    } else {
        g3
    };
    assert(pairs =~= g4);
    assert(g1.drop_last() =~= g0);
    assert(g2.drop_last() =~= g1);
    assert(decoded(id, g0) == IdentityView { id, ..IdentityView::empty() });
    assert(decoded(id, g1) == IdentityView { id, name: g1[0].1, ..IdentityView::empty() });
    assert(decoded(id, g2) == IdentityView {
        id,
        name: g1[0].1,
        email: g2[1].1,
        ..IdentityView::empty()
    });
    if scope.contains_key(signing) {
        assert(g3.drop_last() =~= g2);
    }
    let d3 = decoded(id, g3);
    assert(d3.ssh_key is None && d3.signing_key == assembled(scope, id).signing_key);
    if scope.contains_key(ssh) {
        assert(g4.drop_last() =~= g3);
    }
}

/// Writing entries adds their keys to those of the mapping, and changes no
/// other key.
pub proof fn lemma_written_keys(
    m: Map<Seq<char>, Seq<char>>,
    pairs: Seq<(Seq<char>, Seq<char>)>,
    key: Seq<char>,
)
    ensures
        written(m, pairs).contains_key(key) <==> m.contains_key(key) || keys_of(pairs).contains(
            key,
        ),
        !keys_of(pairs).contains(key) && m.contains_key(key) ==> written(m, pairs)[key] == m[key],
    decreases pairs.len(),
{
    if pairs.len() > 0 {
        let init = pairs.drop_last();
        lemma_written_keys(m, init, key);
        assert(keys_of(pairs)[pairs.len() - 1] == pairs.last().0);
        if keys_of(init).contains(key) {
            let j = keys_of(init).index_of(key);
            assert(keys_of(pairs)[j] == key);
        }
        if keys_of(pairs).contains(key) {
            let j = keys_of(pairs).index_of(key);
            if j < init.len() {
                assert(keys_of(init)[j] == key);
            }
        }
    }
}

/// Every key that an identity is stored under stands for its id.
pub proof fn lemma_encoded_owner(identity: IdentityView, i: int)
    requires
        0 <= i < encoded(identity).len(),
    ensures
        owner(encoded(identity)[i].0) == Some(identity.id),
{
    lemma_decode_field_key(NAMESPACE@, identity.id, ConfigKey::Name);
    lemma_decode_field_key(NAMESPACE@, identity.id, ConfigKey::Email);
    lemma_decode_field_key(NAMESPACE@, identity.id, ConfigKey::SigningKey);
    lemma_decode_field_key(NAMESPACE@, identity.id, ConfigKey::SshKey);
}

/// After an identity is added to a scope, the scope lists its id beside the
/// ids that it listed before: the whole id, whatever separators it holds.
pub proof fn lemma_list_after_add(scope: Map<Seq<char>, Seq<char>>, identity: IdentityView)
    requires
        identity.encodable(),
    ensures
        listed(written(scope, encoded(identity))) == listed(scope).insert(identity.id),
{
    let pairs = encoded(identity);
    let after = written(scope, pairs);
    let first = field_key(NAMESPACE@, identity.id, ConfigKey::Name);
    assert(pairs[0].0 == first);
    assert(keys_of(pairs)[0] == first);
    assert forall|id: Seq<char>| listed(after).contains(id) <==> listed(scope).insert(
        identity.id,
    ).contains(id) by {
        if listed(after).contains(id) {
            let key = choose|key: Seq<char>|
                #[trigger] after.contains_key(key) && owner(key) == Some(id);
            lemma_written_keys(scope, pairs, key);
            if keys_of(pairs).contains(key) {
                let j = keys_of(pairs).index_of(key);
                lemma_encoded_owner(identity, j);
            } else {
                assert(scope.contains_key(key));
            }
        }
        if listed(scope).contains(id) {
            let key = choose|key: Seq<char>|
                #[trigger] scope.contains_key(key) && owner(key) == Some(id);
            lemma_written_keys(scope, pairs, key);
            assert(after.contains_key(key));
        }
        if id == identity.id {
            lemma_written_keys(scope, pairs, first);
            lemma_encoded_owner(identity, 0);
            assert(after.contains_key(first));
        }
    }
    assert(listed(after) =~= listed(scope).insert(identity.id));
}

/// After an identity is removed from a scope, looking it up finds nothing,
/// provided that none of the keys that stand for it is protected.
pub proof fn lemma_get_after_remove(scope: Map<Seq<char>, Seq<char>>, id: Seq<char>)
    requires
        forall|key: Seq<char>|
            #[trigger] scope.contains_key(key) && owner(key) == Some(id) ==> !protected(key),
    ensures
        fetched(scope.remove_keys(removable(scope, id)), id) == Ok::<
            Option<IdentityView>,
            RegistryError,
        >(None),
{
    let after = scope.remove_keys(removable(scope, id));
    if listed(after).contains(id) {
        let key = choose|key: Seq<char>|
            #[trigger] after.contains_key(key) && owner(key) == Some(id);
        assert(scope.contains_key(key));
        let field = decoded_id(key, NAMESPACE@).unwrap().1;
        lemma_decoded_id_prefix(key, NAMESPACE@, id, field);
        assert(removable(scope, id).contains(key));
    }
}

/// Removing an identity from a scope that holds nothing under its prefix, or
/// protected keys only, deletes nothing and changes nothing.
pub proof fn lemma_remove_absent(scope: Map<Seq<char>, Seq<char>>, id: Seq<char>)
    requires
        forall|key: Seq<char>|
            #[trigger] scope.contains_key(key) && identity_prefix(NAMESPACE@, id).is_prefix_of(key)
                ==> protected(key),
    ensures
        removable(scope, id) == Set::<Seq<char>>::empty(),
        scope.remove_keys(removable(scope, id)) == scope,
{
    assert(removable(scope, id) =~= Set::<Seq<char>>::empty());
    assert(scope.remove_keys(removable(scope, id)) =~= scope);
}

/// Two fields of one identity are stored under two keys.
pub proof fn lemma_field_keys_differ(prefix: Seq<char>, a: ConfigKey, b: ConfigKey)
    requires
        a != b,
    ensures
        prefix + a.word() != prefix + b.word(),
{
    lemma_field_words(a);
    lemma_field_words(b);
    if prefix + a.word() == prefix + b.word() {
        assert((prefix + a.word()).skip(prefix.len() as int) =~= a.word());
        assert((prefix + b.word()).skip(prefix.len() as int) =~= b.word());
    }
}

/// What a scope holds under the key of a field after the entries of an
/// identity were written under `prefix`: the value of the identity where it
/// has one for the field, and what the scope held before where it has none.
pub proof fn lemma_written_field(
    scope: Map<Seq<char>, Seq<char>>,
    identity: IdentityView,
    prefix: Seq<char>,
    field: ConfigKey,
)
    requires
        identity.encodable(),
    ensures
        ({
            let after = written(scope, identity.entries(prefix));
            let key = prefix + field.word();
            match field {
                ConfigKey::Name => after.contains_pair(key, identity.name),
                ConfigKey::Email => after.contains_pair(key, identity.email),
                ConfigKey::SigningKey => match identity.signing_key {
                    Some(value) => after.contains_pair(key, value),
                    None => after.contains_key(key) == scope.contains_key(key) && (
                    scope.contains_key(key) ==> after[key] == scope[key]),
                },
                ConfigKey::SshKey => match identity.ssh_key {
                    Some(path) => after.contains_pair(key, path->0),
                    None => after.contains_key(key) == scope.contains_key(key) && (
                    scope.contains_key(key) ==> after[key] == scope[key]),
                },
            }
        }),
{
    let none = Seq::<(Seq<char>, Seq<char>)>::empty();
    let two = none.push((prefix + ConfigKey::Name.word(), identity.name)).push(
        (prefix + ConfigKey::Email.word(), identity.email),
    );
    let three = match identity.signing_key {
        Some(value) => two.push((prefix + ConfigKey::SigningKey.word(), value)),
        None => two,
    };
    let four = match identity.ssh_key {
        Some(Some(path)) => three.push((prefix + ConfigKey::SshKey.word(), path)),
        _ => three,
    };
    assert(identity.entries(prefix) =~= four);
    assert(none.push((prefix + ConfigKey::Name.word(), identity.name)).drop_last() =~= none);
    assert(two.drop_last() =~= none.push((prefix + ConfigKey::Name.word(), identity.name)));
    if identity.signing_key is Some {
        assert(three.drop_last() =~= two);
    }
    if identity.ssh_key is Some {
        assert(four.drop_last() =~= three);
    }
    lemma_field_keys_differ(prefix, ConfigKey::Name, ConfigKey::Email);
    lemma_field_keys_differ(prefix, ConfigKey::Name, ConfigKey::SigningKey);
    lemma_field_keys_differ(prefix, ConfigKey::Name, ConfigKey::SshKey);
    lemma_field_keys_differ(prefix, ConfigKey::Email, ConfigKey::SigningKey);
    lemma_field_keys_differ(prefix, ConfigKey::Email, ConfigKey::SshKey);
    lemma_field_keys_differ(prefix, ConfigKey::SigningKey, ConfigKey::SshKey);
    let w1 = written(scope, none.push((prefix + ConfigKey::Name.word(), identity.name)));
    let w2 = written(scope, two);
    let w3 = written(scope, three);
    let w4 = written(scope, four);
    assert(written(scope, none) == scope);
    assert(w1 == scope.insert(prefix + ConfigKey::Name.word(), identity.name));
    assert(w2 == w1.insert(prefix + ConfigKey::Email.word(), identity.email));
    assert(w3 == match identity.signing_key {
        Some(value) => w2.insert(prefix + ConfigKey::SigningKey.word(), value),
        None => w2,
    });
    assert(w4 == match identity.ssh_key {
        Some(Some(path)) => w3.insert(prefix + ConfigKey::SshKey.word(), path),
        _ => w3,
    });
}

/// After an identity is added to a scope, looking it up finds it: with its
/// name and its email, with its signing key unless that is empty, and with
/// what the scope held before for an optional field that it lacks.
pub proof fn lemma_get_after_add(scope: Map<Seq<char>, Seq<char>>, identity: IdentityView)
    requires
        identity.encodable(),
    ensures
        fetched(written(scope, encoded(identity)), identity.id) == Ok::<
            Option<IdentityView>,
            RegistryError,
        >(
            Some(
                IdentityView {
                    id: identity.id,
                    name: identity.name,
                    email: identity.email,
                    signing_key: match identity.signing_key {
                        Some(key) => if key.len() > 0 {
                            Some(key)
                        } else {
                            None
                        },
                        None => assembled(scope, identity.id).signing_key,
                    },
                    ssh_key: match identity.ssh_key {
                        Some(path) => Some(path),
                        None => assembled(scope, identity.id).ssh_key,
                    },
                },
            ),
        ),
{
    let prefix = identity_prefix(NAMESPACE@, identity.id);
    lemma_list_after_add(scope, identity);
    lemma_written_field(scope, identity, prefix, ConfigKey::Name);
    lemma_written_field(scope, identity, prefix, ConfigKey::Email);
    lemma_written_field(scope, identity, prefix, ConfigKey::SigningKey);
    lemma_written_field(scope, identity, prefix, ConfigKey::SshKey);
}

/// After an identity is activated in a scope, its name and its email are
/// those of the active identity of the scope.
pub proof fn lemma_current_after_activation(
    scope: Map<Seq<char>, Seq<char>>,
    identity: IdentityView,
)
    requires
        identity.encodable(),
    ensures
        current(written(scope, identity.entries(namespace_prefix()))) == Some(
            (identity.name, identity.email),
        ),
{
    lemma_written_field(scope, identity, namespace_prefix(), ConfigKey::Name);
    lemma_written_field(scope, identity, namespace_prefix(), ConfigKey::Email);
}

/// Whether a key is protected is decided by what follows its last separator.
pub proof fn lemma_protected_last(head: Seq<char>, last: Seq<char>)
    requires
        !last.contains(SEPARATOR),
    ensures
        protected(head + seq![SEPARATOR] + last) == (lowercase(last) == PROTECTED@),
{
    lemma_segments_concat(head, last, SEPARATOR);
    lemma_segments_single(last, SEPARATOR);
}

/// No key that stores a field of an identity is protected.
pub proof fn lemma_field_key_unprotected(namespace: Seq<char>, id: Seq<char>, field: ConfigKey)
    ensures
        !protected(field_key(namespace, id, field)),
{
    let head = namespace + seq![SEPARATOR] + id;
    lemma_field_words(field);
    lemma_protected_last(head, field.word());
    assert(field_key(namespace, id, field) =~= head + seq![SEPARATOR] + field.word());
    reveal_strlit("useconfigonly");
    reveal_strlit("name");
    reveal_strlit("email");
    reveal_strlit("signingkey");
    reveal_strlit("sshkey");
    assert(lowercase(field.word()).len() == field.word().len());
}

/// An identity that is added to a scope which did not list its id, and then
/// removed, is gone: looking it up finds nothing.
pub proof fn lemma_get_after_add_and_remove(
    scope: Map<Seq<char>, Seq<char>>,
    identity: IdentityView,
)
    requires
        identity.encodable(),
        !listed(scope).contains(identity.id),
    ensures
        ({
            let added = written(scope, encoded(identity));
            fetched(added.remove_keys(removable(added, identity.id)), identity.id) == Ok::<
                Option<IdentityView>,
                RegistryError,
            >(None)
        }),
{
    let pairs = encoded(identity);
    let added = written(scope, pairs);
    assert forall|key: Seq<char>|
        #[trigger] added.contains_key(key) && owner(key) == Some(identity.id) implies !protected(
        key,
    ) by {
        lemma_written_keys(scope, pairs, key);
        if keys_of(pairs).contains(key) {
            lemma_field_key_unprotected(NAMESPACE@, identity.id, ConfigKey::Name);
            lemma_field_key_unprotected(NAMESPACE@, identity.id, ConfigKey::Email);
            lemma_field_key_unprotected(NAMESPACE@, identity.id, ConfigKey::SigningKey);
            lemma_field_key_unprotected(NAMESPACE@, identity.id, ConfigKey::SshKey);
            let j = keys_of(pairs).index_of(key);
            assert(pairs[j].0 == key);
        } else {
            assert(scope.contains_key(key));
        }
    }
    lemma_get_after_remove(added, identity.id);
}

/// What stays when an identity is removed from a scope: every protected key,
/// and every key that does not start with the prefix of the identity, each
/// with its value. Nothing else stays.
pub proof fn lemma_remove_keeps(scope: Map<Seq<char>, Seq<char>>, id: Seq<char>, key: Seq<char>)
    ensures
        ({
            let after = scope.remove_keys(removable(scope, id));
            &&& after.contains_key(key) <==> scope.contains_key(key) && (protected(key)
                || !identity_prefix(NAMESPACE@, id).is_prefix_of(key))
            &&& after.contains_key(key) ==> after[key] == scope[key]
        }),
{
}

/// Removing an identity a second time deletes nothing.
pub proof fn lemma_remove_twice(scope: Map<Seq<char>, Seq<char>>, id: Seq<char>)
    ensures
        removable(scope.remove_keys(removable(scope, id)), id) == Set::<Seq<char>>::empty(),
{
    let after = scope.remove_keys(removable(scope, id));
    assert(removable(after, id) =~= Set::<Seq<char>>::empty());
}

} // verus!
