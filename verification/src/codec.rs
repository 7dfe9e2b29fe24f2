//! The namespace codec: between an identity and the `(key, value)` entries
//! that stand for it under a namespace.

use crate::error::RegistryError;
use crate::identity::{Identity, IdentityView};
use crate::path::path_from_string;
use crate::text::{
    has_prefix, join, joined, lemma_joined_concat, lemma_joined_segments, lemma_segments_concat,
    lemma_segments_nonempty, lemma_segments_single, segments, split, str_eq, texts,
};
use vstd::prelude::*;
use vstd::slice::slice_subrange;

verus! {

/// The namespace under which every identity key lives.
pub const NAMESPACE: &'static str = "user";

/// What separates the segments of a key.
pub const SEPARATOR: char = '.';

/// The fields of an identity, each the last segment of the key that stores it.
/// The set is closed: it is what tells where an id ends within a key, since
/// an id may itself hold separators.
#[derive(Clone, Copy, Debug, PartialEq, Eq, Hash, Structural)]
pub enum ConfigKey {
    Name,
    Email,
    SigningKey,
    SshKey,
}

impl ConfigKey {
    /// The key segment of this field.
    pub open spec fn word(self) -> Seq<char> {
        match self {
            ConfigKey::Name => "name"@,
            ConfigKey::Email => "email"@,
            ConfigKey::SigningKey => "signingkey"@,
            ConfigKey::SshKey => "sshkey"@,
        }
    }

    /// The field that a key segment names, if any.
    pub open spec fn parse(word: Seq<char>) -> Option<ConfigKey> {
        if word == "name"@ {
            Some(ConfigKey::Name)
        } else if word == "email"@ {
            Some(ConfigKey::Email)
        } else if word == "signingkey"@ {
            Some(ConfigKey::SigningKey)
        } else if word == "sshkey"@ {
            Some(ConfigKey::SshKey)
        } else {
            None
        }
    }

    /// The key segment of this field.
    pub fn as_str(&self) -> (r: &'static str)
        ensures
            r@ == self.word(),
    {
        match self {
            ConfigKey::Name => "name",
            ConfigKey::Email => "email",
            ConfigKey::SigningKey => "signingkey",
            ConfigKey::SshKey => "sshkey",
        }
    }

    /// Reads a key segment as a field.
    pub fn from_str(s: &str) -> (r: Option<ConfigKey>)
        ensures
            r == ConfigKey::parse(s@),
    {
        if str_eq(s, "name") {
            Some(ConfigKey::Name)
        } else if str_eq(s, "email") {
            Some(ConfigKey::Email)
        } else if str_eq(s, "signingkey") {
            Some(ConfigKey::SigningKey)
        } else if str_eq(s, "sshkey") {
            Some(ConfigKey::SshKey)
        } else {
            None
        }
    }
}

/// Every field is read back from its own segment, and no segment of a field
/// holds a separator.
pub proof fn lemma_field_words(field: ConfigKey)
    ensures
        ConfigKey::parse(field.word()) == Some(field),
        !field.word().contains(SEPARATOR),
{
    reveal_strlit("name");
    reveal_strlit("email");
    reveal_strlit("signingkey");
    reveal_strlit("sshkey");
    assert("name"@.len() == 4 && "email"@.len() == 5 && "signingkey"@.len() == 10
        && "sshkey"@.len() == 6);
}

/// The index of the last segment that names a field, or -1 if none does.
pub open spec fn last_field(segs: Seq<Seq<char>>) -> int
    decreases segs.len(),
{
    if segs.len() == 0 {
        -1
    } else if ConfigKey::parse(segs.last()) is Some {
        segs.len() - 1
    } else {
        last_field(segs.drop_last())
    }
}

/// The id and the field that a full key stands for. The key must start with
/// the namespace and a separator. What follows is cut into segments; the last
/// segment that names a field is the field, and the segments before it, joined
/// again, are the id. A key with no such segment, or with no segment before
/// it, belongs to no identity.
pub open spec fn decoded_id(key: Seq<char>, namespace: Seq<char>) -> Option<
    (Seq<char>, ConfigKey),
> {
    let prefix = namespace + seq![SEPARATOR];
    if prefix.is_prefix_of(key) {
        let segs = segments(key.skip(prefix.len() as int), SEPARATOR);
        let at = last_field(segs);
        if at >= 1 {
            Some((joined(segs.take(at), seq![SEPARATOR]), ConfigKey::parse(segs[at])->0))
        } else {
            None
        }
    } else {
        None
    }
}

/// Reads the id and the field out of a full key of `namespace`.
pub fn decode_id(full_key: &str, namespace: &str) -> (r: Option<(String, ConfigKey)>)
    ensures
        match r {
            Some((id, field)) => decoded_id(full_key@, namespace@) == Some((id@, field)),
            None => decoded_id(full_key@, namespace@) is None,
        },
{
    proof {
        reveal_strlit(".");
        assert("."@ =~= seq![SEPARATOR]);
    }
    let prefix = namespace.to_owned().concat(".");
    if !has_prefix(full_key, prefix.as_str()) {
        return None;
    }
    let body = full_key.substring_char(prefix.as_str().unicode_len(), full_key.unicode_len());
    assert(body@ =~= full_key@.skip(prefix@.len() as int));
    let segs = split(body, SEPARATOR);
    let ghost all = texts(segs@);
    let mut at: usize = segs.len();
    assert(all.take(at as int) =~= all);
    while at > 0
        invariant
            at <= segs.len(),
            all == texts(segs@),
            all == segments(full_key@.skip((namespace@ + seq![SEPARATOR]).len() as int), SEPARATOR),
            (namespace@ + seq![SEPARATOR]).is_prefix_of(full_key@),
            "."@ == seq![SEPARATOR],
            last_field(all) == last_field(all.take(at as int)),
        decreases at,
    {
        at -= 1;
        assert(all.take(at + 1).drop_last() =~= all.take(at as int));
        assert(all.take(at + 1).last() == segs@[at as int]@);
        match ConfigKey::from_str(segs[at].as_str()) {
            Some(field) => {
                if at == 0 {
                    return None;
                }
                let id = join(slice_subrange(segs.as_slice(), 0, at), ".");
                assert(texts(segs@.subrange(0, at as int)) =~= all.take(at as int));
                return Some((id, field));
            },
            None => {},
        }
    }
    None
}

/// What every key of an identity `id` of `namespace` starts with.
pub open spec fn identity_prefix(namespace: Seq<char>, id: Seq<char>) -> Seq<char> {
    namespace + seq![SEPARATOR] + id + seq![SEPARATOR]
}

/// The key that stores `field` of the identity `id` of `namespace`.
pub open spec fn field_key(namespace: Seq<char>, id: Seq<char>, field: ConfigKey) -> Seq<char> {
    identity_prefix(namespace, id) + field.word()
}

/// The entries that store an identity under [`NAMESPACE`].
pub open spec fn encoded(identity: IdentityView) -> Seq<(Seq<char>, Seq<char>)> {
    identity.entries(identity_prefix(NAMESPACE@, identity.id))
}

/// `identity` with `field` set from a stored value. An empty signing key
/// reads as no signing key.
pub open spec fn with_field(
    identity: IdentityView,
    field: ConfigKey,
    value: Seq<char>,
) -> IdentityView {
    match field {
        ConfigKey::Name => IdentityView { name: value, ..identity },
        ConfigKey::Email => IdentityView { email: value, ..identity },
        ConfigKey::SigningKey => IdentityView {
            signing_key: if value.len() == 0 {
                None
            } else {
                Some(value)
            },
            ..identity
        },
        ConfigKey::SshKey => IdentityView { ssh_key: Some(Some(value)), ..identity },
    }
}

/// The identity `id` built from `(field, value)` pairs. A field without a
/// pair stays at its zero value; of two pairs for one field the later counts.
pub open spec fn decoded(id: Seq<char>, pairs: Seq<(ConfigKey, Seq<char>)>) -> IdentityView
    decreases pairs.len(),
{
    if pairs.len() == 0 {
        IdentityView { id, ..IdentityView::empty() }
    } else {
        with_field(decoded(id, pairs.drop_last()), pairs.last().0, pairs.last().1)
    }
}

/// The `(field, value)` pairs of the entries whose key stands for the
/// identity `id` of `namespace`, in the order of the entries.
pub open spec fn grouped(
    entries: Seq<(Seq<char>, Seq<char>)>,
    namespace: Seq<char>,
    id: Seq<char>,
) -> Seq<(ConfigKey, Seq<char>)>
    decreases entries.len(),
{
    if entries.len() == 0 {
        seq![]
    } else {
        let rest = grouped(entries.drop_last(), namespace, id);
        match decoded_id(entries.last().0, namespace) {
            Some((owner, field)) => if owner == id {
                rest.push((field, entries.last().1))
            } else {
                rest
            },
            None => rest,
        }
    }
}

/// The fields and texts of a sequence of `(field, value)` pairs.
pub open spec fn fields(pairs: Seq<(ConfigKey, String)>) -> Seq<(ConfigKey, Seq<char>)> {
    pairs.map_values(|p: (ConfigKey, String)| (p.0, p.1@))
}

/// The key of a field of an identity is read back as that id and that field,
/// whatever the id holds.
pub proof fn lemma_decode_field_key(namespace: Seq<char>, id: Seq<char>, field: ConfigKey)
    ensures
        decoded_id(field_key(namespace, id, field), namespace) == Some((id, field)),
{
    let prefix = namespace + seq![SEPARATOR];
    let key = field_key(namespace, id, field);
    let body = id + seq![SEPARATOR] + field.word();
    assert(key =~= prefix + body);
    assert(key.skip(prefix.len() as int) =~= body);
    lemma_segments_concat(id, field.word(), SEPARATOR);
    lemma_field_words(field);
    lemma_segments_single(field.word(), SEPARATOR);
    lemma_segments_nonempty(id, SEPARATOR);
    let segs = segments(body, SEPARATOR);
    assert(segs.last() == field.word());
    assert(segs.take(segs.len() - 1) =~= segments(id, SEPARATOR));
    lemma_joined_segments(id, SEPARATOR);
}

/// The index that [`last_field`] gives is that of a segment naming a field.
pub proof fn lemma_last_field(segs: Seq<Seq<char>>)
    ensures
        -1 <= last_field(segs) < segs.len(),
        last_field(segs) >= 0 ==> ConfigKey::parse(segs[last_field(segs)]) is Some,
    decreases segs.len(),
{
    if segs.len() > 0 && ConfigKey::parse(segs.last()) is None {
        lemma_last_field(segs.drop_last());
    }
}

/// A key that stands for the identity `id` starts with the prefix of `id`.
pub proof fn lemma_decoded_id_prefix(
    key: Seq<char>,
    namespace: Seq<char>,
    id: Seq<char>,
    field: ConfigKey,
)
    requires
        decoded_id(key, namespace) == Some((id, field)),
    ensures
        identity_prefix(namespace, id).is_prefix_of(key),
{
    let prefix = namespace + seq![SEPARATOR];
    let body = key.skip(prefix.len() as int);
    let segs = segments(body, SEPARATOR);
    let at = last_field(segs);
    lemma_last_field(segs);
    assert(segs =~= segs.take(at) + segs.skip(at));
    lemma_joined_concat(segs.take(at), segs.skip(at), seq![SEPARATOR]);
    lemma_joined_segments(body, SEPARATOR);
    assert(body == id + seq![SEPARATOR] + joined(segs.skip(at), seq![SEPARATOR]));
    assert(key =~= prefix + body);
    assert(identity_prefix(namespace, id) =~= prefix + (id + seq![SEPARATOR]));
    assert(identity_prefix(namespace, id).is_prefix_of(key)) by {
        let p = identity_prefix(namespace, id);
        assert(key.subrange(0, p.len() as int) =~= p);
    }
}

/// Encoding an identity and decoding its entries gives the identity back,
/// whatever its id holds, as long as its signing key is not the empty text.
pub proof fn lemma_round_trip(identity: IdentityView)
    requires
        identity.encodable(),
        identity.signing_key != Some(Seq::<char>::empty()),
    ensures
        decoded(identity.id, grouped(encoded(identity), NAMESPACE@, identity.id)) == identity,
{
    lemma_decode_encoded(identity);
}

/// An empty signing key is not kept: encoding an identity that holds one and
/// decoding its entries gives the identity without a signing key.
pub proof fn lemma_empty_signing_key_clears(identity: IdentityView)
    requires
        identity.encodable(),
        identity.signing_key == Some(Seq::<char>::empty()),
    ensures
        decoded(identity.id, grouped(encoded(identity), NAMESPACE@, identity.id))
            == (IdentityView { signing_key: None, ..identity }),
{
    lemma_decode_encoded(identity);
}

/// What decoding the entries of an encodable identity gives: the identity,
/// with an empty signing key read as none.
pub proof fn lemma_decode_encoded(identity: IdentityView)
    requires
        identity.encodable(),
    ensures
        decoded(identity.id, grouped(encoded(identity), NAMESPACE@, identity.id))
            == (IdentityView {
            signing_key: if identity.signing_key == Some(Seq::<char>::empty()) {
                None
            } else {
                identity.signing_key
            },
            ..identity
        }),
{
    let ns = NAMESPACE@;
    let id = identity.id;
    let none = Seq::<(Seq<char>, Seq<char>)>::empty();
    let name = (field_key(ns, id, ConfigKey::Name), identity.name);
    let email = (field_key(ns, id, ConfigKey::Email), identity.email);
    let two = none.push(name).push(email);
    lemma_grouped_push(none, ns, id, name.0, name.1, ConfigKey::Name);
    lemma_grouped_push(none.push(name), ns, id, email.0, email.1, ConfigKey::Email);
    let g0 = Seq::<(ConfigKey, Seq<char>)>::empty();
    let g2 = g0.push((ConfigKey::Name, identity.name)).push((ConfigKey::Email, identity.email));
    assert(grouped(two, ns, id) == g2);
    lemma_decoded_push(id, g0, ConfigKey::Name, identity.name);
    lemma_decoded_push(
        id,
        g0.push((ConfigKey::Name, identity.name)),
        ConfigKey::Email,
        identity.email,
    );
    let three = match identity.signing_key {
        Some(key) => two.push((field_key(ns, id, ConfigKey::SigningKey), key)),
        None => two,
    };
    let g3 = match identity.signing_key {
        Some(key) => g2.push((ConfigKey::SigningKey, key)),
        None => g2,
    };
    if let Some(key) = identity.signing_key {
        let signing = field_key(ns, id, ConfigKey::SigningKey);
        lemma_grouped_push(two, ns, id, signing, key, ConfigKey::SigningKey);
        lemma_decoded_push(id, g2, ConfigKey::SigningKey, key);
    }
    assert(grouped(three, ns, id) == g3);
    let four = match identity.ssh_key {
        Some(Some(path)) => three.push((field_key(ns, id, ConfigKey::SshKey), path)),
        _ => three,
    };
    let g4 = match identity.ssh_key {
        Some(Some(path)) => g3.push((ConfigKey::SshKey, path)),
        _ => g3,
    };
    if let Some(Some(path)) = identity.ssh_key {
        let ssh = field_key(ns, id, ConfigKey::SshKey);
        lemma_grouped_push(three, ns, id, ssh, path, ConfigKey::SshKey);
        lemma_decoded_push(id, g3, ConfigKey::SshKey, path);
    }
    assert(encoded(identity) =~= four);
    assert(grouped(four, ns, id) == g4);
    let kept = if identity.signing_key == Some(Seq::<char>::empty()) {
        None
    } else {
        identity.signing_key
    };
    if let Some(key) = identity.signing_key {
        if key.len() == 0 {
            assert(key =~= Seq::<char>::empty());
        }
    }
    assert(decoded(id, g0) == IdentityView { id, ..IdentityView::empty() });
    assert(decoded(id, g2) == IdentityView {
        id,
        name: identity.name,
        email: identity.email,
        ..IdentityView::empty()
    });
    assert(decoded(id, g3) == IdentityView {
        id,
        name: identity.name,
        email: identity.email,
        signing_key: kept,
        ssh_key: None,
    });
    assert(decoded(id, g4) == IdentityView { signing_key: kept, ..identity });
}

/// One more entry of the identity `id` adds its pair to the group.
proof fn lemma_grouped_push(
    entries: Seq<(Seq<char>, Seq<char>)>,
    namespace: Seq<char>,
    id: Seq<char>,
    key: Seq<char>,
    value: Seq<char>,
    field: ConfigKey,
)
    requires
        key == field_key(namespace, id, field),
    ensures
        grouped(entries.push((key, value)), namespace, id) == grouped(entries, namespace, id).push(
            (field, value),
        ),
{
    lemma_decode_field_key(namespace, id, field);
    assert(entries.push((key, value)).drop_last() =~= entries);
}

/// One more pair sets its field on what the pairs before it gave.
proof fn lemma_decoded_push(
    id: Seq<char>,
    pairs: Seq<(ConfigKey, Seq<char>)>,
    field: ConfigKey,
    value: Seq<char>,
)
    ensures
        decoded(id, pairs.push((field, value))) == with_field(decoded(id, pairs), field, value),
{
    assert(pairs.push((field, value)).drop_last() =~= pairs);
}

/// What every key of the identity `id` of `namespace` starts with.
pub fn prefix_of(namespace: &str, id: &str) -> (r: String)
    ensures
        r@ == identity_prefix(namespace@, id@),
{
    proof {
        reveal_strlit(".");
        assert("."@ =~= seq![SEPARATOR]);
    }
    namespace.to_owned().concat(".").concat(id).concat(".")
}

/// The key that stores `field` of the identity `id` of `namespace`.
pub fn key_of(namespace: &str, id: &str, field: ConfigKey) -> (r: String)
    ensures
        r@ == field_key(namespace@, id@, field),
{
    prefix_of(namespace, id).concat(field.as_str())
}

/// The entries that store `identity` under [`NAMESPACE`]: its name and its
/// email, then its signing key and its SSH key where it has one. Fails with
/// `EncodingError` where the path of the SSH key has no text.
pub fn encode(identity: &Identity) -> (r: Result<Vec<(String, String)>, RegistryError>)
    ensures
        match r {
            Ok(pairs) => identity@.encodable() && pairs.deep_view() == encoded(identity@),
            Err(e) => !identity@.encodable() && e == RegistryError::EncodingError,
        },
{
    let prefix = prefix_of(NAMESPACE, identity.id.as_str());
    identity.entries(prefix.as_str())
}

/// Picks the entries of the identity `id` of `namespace` and gives each as
/// its field and its value.
pub fn group(entries: &Vec<(String, String)>, namespace: &str, id: &str) -> (r: Vec<
    (ConfigKey, String),
>)
    ensures
        fields(r@) == grouped(entries.deep_view(), namespace@, id@),
{
    let mut pairs: Vec<(ConfigKey, String)> = Vec::new();
    let mut i: usize = 0;
    assert(entries.deep_view().take(0) =~= Seq::empty());
    assert(fields(pairs@) =~= Seq::empty());
    while i < entries.len()
        invariant
            i <= entries.len(),
            fields(pairs@) == grouped(entries.deep_view().take(i as int), namespace@, id@),
        decreases entries.len() - i,
    {
        assert(entries.deep_view().take(i + 1).drop_last() =~= entries.deep_view().take(i as int));
        assert(entries.deep_view().take(i + 1).last() == entries.deep_view()[i as int]);
        if let Some((owner, field)) = decode_id(entries[i].0.as_str(), namespace) {
            if str_eq(owner.as_str(), id) {
                let ghost before = fields(pairs@);
                pairs.push((field, entries[i].1.clone()));
                assert(fields(pairs@) =~= before.push((field, entries@[i as int].1@)));
            }
        }
        i += 1;
    }
    assert(entries.deep_view().take(entries.len() as int) =~= entries.deep_view());
    pairs
}

/// Builds the identity `id` from its `(field, value)` pairs. A field without
/// a pair stays at its zero value, and an empty signing key reads as none.
pub fn decode(id: &str, pairs: &Vec<(ConfigKey, String)>) -> (r: Identity)
    ensures
        r@ == decoded(id@, fields(pairs@)),
{
    let mut identity = Identity::default();
    identity.id = id.to_owned();
    let mut i: usize = 0;
    assert(fields(pairs@).take(0) =~= Seq::empty());
    while i < pairs.len()
        invariant
            i <= pairs.len(),
            identity@ == decoded(id@, fields(pairs@).take(i as int)),
        decreases pairs.len() - i,
    {
        assert(fields(pairs@).take(i + 1).drop_last() =~= fields(pairs@).take(i as int));
        assert(fields(pairs@).take(i + 1).last() == (pairs@[i as int].0, pairs@[i as int].1@));
        let value = pairs[i].1.clone();
        match pairs[i].0 {
            ConfigKey::Name => {
                identity.name = value;
            },
            ConfigKey::Email => {
                identity.email = value;
            },
            ConfigKey::SigningKey => {
                if value.as_str().is_empty() {
                    identity.signing_key = None;
                } else {
                    identity.signing_key = Some(value);
                }
            },
            ConfigKey::SshKey => {
                identity.ssh_key = Some(path_from_string(value));
            },
        }
        i += 1;
    }
    assert(fields(pairs@).take(pairs.len() as int) =~= fields(pairs@));
    identity
}

} // verus!
