use git_identity::codec::{
    decode, decode_id, encode, group, key_of, prefix_of, ConfigKey, NAMESPACE, SEPARATOR,
};
use git_identity::identity::Identity;
use std::path::PathBuf;

fn identity(id: &str, signing_key: Option<&str>, ssh_key: Option<&str>) -> Identity {
    Identity {
        id: id.to_string(),
        name: "Alice".to_string(),
        email: "a@x.com".to_string(),
        signing_key: signing_key.map(|s| s.to_string()),
        ssh_key: ssh_key.map(PathBuf::from),
    }
}

fn pair(key: &str, value: &str) -> (String, String) {
    (key.to_string(), value.to_string())
}

fn round_trip(identity: &Identity) -> Identity {
    let entries = encode(identity).unwrap();
    decode(&identity.id, &group(&entries, NAMESPACE, &identity.id))
}

#[test]
fn key_layout() {
    assert_eq!(NAMESPACE, "user");
    assert_eq!(SEPARATOR, '.');
    assert_eq!(prefix_of("user", "work.client-a"), "user.work.client-a.");
    assert_eq!(key_of("user", "work", ConfigKey::Name), "user.work.name");
    assert_eq!(key_of("user", "work", ConfigKey::Email), "user.work.email");
    assert_eq!(key_of("user", "work", ConfigKey::SigningKey), "user.work.signingkey");
    assert_eq!(key_of("user", "a.b", ConfigKey::SshKey), "user.a.b.sshkey");
}

#[test]
fn field_words() {
    assert_eq!(ConfigKey::Name.as_str(), "name");
    assert_eq!(ConfigKey::Email.as_str(), "email");
    assert_eq!(ConfigKey::SigningKey.as_str(), "signingkey");
    assert_eq!(ConfigKey::SshKey.as_str(), "sshkey");
    assert_eq!(ConfigKey::from_str("name"), Some(ConfigKey::Name));
    assert_eq!(ConfigKey::from_str("email"), Some(ConfigKey::Email));
    assert_eq!(ConfigKey::from_str("signingkey"), Some(ConfigKey::SigningKey));
    assert_eq!(ConfigKey::from_str("sshkey"), Some(ConfigKey::SshKey));
    assert_eq!(ConfigKey::from_str("useconfigonly"), None);
    assert_eq!(ConfigKey::from_str("Name"), None);
    assert_eq!(ConfigKey::from_str(""), None);
}

#[test]
fn encode_emits_name_and_email_first() {
    assert_eq!(
        encode(&identity("a", None, None)).unwrap(),
        vec![pair("user.a.name", "Alice"), pair("user.a.email", "a@x.com")]
    );
}

#[test]
fn encode_emits_optional_fields_when_present() {
    assert_eq!(
        encode(&identity("work.client-a", Some("ABCD"), Some("/home/a/.ssh/id_rsa"))).unwrap(),
        vec![
            pair("user.work.client-a.name", "Alice"),
            pair("user.work.client-a.email", "a@x.com"),
            pair("user.work.client-a.signingkey", "ABCD"),
            pair("user.work.client-a.sshkey", "/home/a/.ssh/id_rsa"),
        ]
    );
    assert_eq!(encode(&identity("a", Some("K"), None)).unwrap().len(), 3);
    assert_eq!(
        encode(&identity("a", None, Some("/k"))).unwrap()[2],
        pair("user.a.sshkey", "/k")
    );
}

#[test]
fn encode_keeps_an_empty_signing_key() {
    assert_eq!(encode(&identity("a", Some(""), None)).unwrap()[2], pair("user.a.signingkey", ""));
}

#[test]
fn decode_id_reads_plain_ids() {
    assert_eq!(decode_id("user.a.name", "user"), Some(("a".to_string(), ConfigKey::Name)));
    assert_eq!(decode_id("user.a.email", "user"), Some(("a".to_string(), ConfigKey::Email)));
    assert_eq!(
        decode_id("user.a.signingkey", "user"),
        Some(("a".to_string(), ConfigKey::SigningKey))
    );
    assert_eq!(decode_id("user.a.sshkey", "user"), Some(("a".to_string(), ConfigKey::SshKey)));
}

#[test]
fn decode_id_keeps_dotted_ids_whole() {
    assert_eq!(
        decode_id("user.work.client-a.email", "user"),
        Some(("work.client-a".to_string(), ConfigKey::Email))
    );
    assert_eq!(decode_id("user.a.b.c.name", "user"), Some(("a.b.c".to_string(), ConfigKey::Name)));
}

#[test]
fn decode_id_ignores_keys_without_id() {
    assert_eq!(decode_id("user.name", "user"), None);
    assert_eq!(decode_id("user.email", "user"), None);
    assert_eq!(decode_id("user.name.other", "user"), None);
}

#[test]
fn decode_id_ignores_keys_without_field() {
    assert_eq!(decode_id("user.work.useconfigonly", "user"), None);
    assert_eq!(decode_id("user.work.Name", "user"), None);
    assert_eq!(decode_id("user.a.b.c", "user"), None);
    assert_eq!(decode_id("user.", "user"), None);
}

#[test]
fn decode_id_ignores_keys_of_other_namespaces() {
    assert_eq!(decode_id("core.a.name", "user"), None);
    assert_eq!(decode_id("username.a.name", "user"), None);
    assert_eq!(decode_id("user", "user"), None);
    assert_eq!(decode_id("", "user"), None);
    assert_eq!(decode_id("core.a.name", "core"), Some(("a".to_string(), ConfigKey::Name)));
}

#[test]
fn decode_id_takes_the_last_field_word() {
    assert_eq!(decode_id("user.name.name", "user"), Some(("name".to_string(), ConfigKey::Name)));
    assert_eq!(
        decode_id("user.email.name.sshkey", "user"),
        Some(("email.name".to_string(), ConfigKey::SshKey))
    );
    assert_eq!(decode_id("user.work.name.extra", "user"), Some(("work".to_string(), ConfigKey::Name)));
    assert_eq!(
        decode_id("user.work.email.useconfigonly", "user"),
        Some(("work".to_string(), ConfigKey::Email))
    );
}

#[test]
fn decode_id_accepts_an_empty_id_segment() {
    assert_eq!(decode_id("user..name", "user"), Some(("".to_string(), ConfigKey::Name)));
}

#[test]
fn decode_sets_each_field() {
    let found = decode(
        "work",
        &vec![
            (ConfigKey::Name, "Alice".to_string()),
            (ConfigKey::Email, "a@x.com".to_string()),
            (ConfigKey::SigningKey, "ABCD".to_string()),
            (ConfigKey::SshKey, "/k".to_string()),
        ],
    );
    assert_eq!(found, identity("work", Some("ABCD"), Some("/k")));
}

#[test]
fn decode_leaves_missing_fields_at_zero() {
    assert_eq!(decode("work", &vec![]), Identity { id: "work".to_string(), ..Identity::default() });
    let only_email = decode("work", &vec![(ConfigKey::Email, "a@x.com".to_string())]);
    assert_eq!(only_email.name, "");
    assert_eq!(only_email.email, "a@x.com");
    assert_eq!(only_email.signing_key, None);
    assert_eq!(only_email.ssh_key, None);
}

#[test]
fn decode_reads_empty_signing_key_as_none() {
    let found = decode("a", &vec![(ConfigKey::SigningKey, "".to_string())]);
    assert_eq!(found.signing_key, None);
    let cleared = decode(
        "a",
        &vec![(ConfigKey::SigningKey, "K".to_string()), (ConfigKey::SigningKey, "".to_string())],
    );
    assert_eq!(cleared.signing_key, None);
}

#[test]
fn decode_lets_the_later_pair_count() {
    let found = decode(
        "a",
        &vec![(ConfigKey::Name, "Old".to_string()), (ConfigKey::Name, "New".to_string())],
    );
    assert_eq!(found.name, "New");
}

#[test]
fn decode_keeps_an_empty_ssh_key_path() {
    let found = decode("a", &vec![(ConfigKey::SshKey, "".to_string())]);
    assert_eq!(found.ssh_key, Some(PathBuf::from("")));
}

#[test]
fn group_picks_the_entries_of_one_id() {
    let entries = vec![
        pair("user.a.name", "Alice"),
        pair("user.a.b.name", "Bob"),
        pair("user.name", "Active"),
        pair("core.editor", "vi"),
        pair("user.a.email", "a@x.com"),
        pair("user.a.useconfigonly", "true"),
    ];
    assert_eq!(
        group(&entries, "user", "a"),
        vec![(ConfigKey::Name, "Alice".to_string()), (ConfigKey::Email, "a@x.com".to_string())]
    );
    assert_eq!(group(&entries, "user", "a.b"), vec![(ConfigKey::Name, "Bob".to_string())]);
    assert_eq!(group(&entries, "user", "c"), vec![]);
}

#[test]
fn round_trip_gives_the_identity_back() {
    for x in [
        identity("a", None, None),
        identity("a", Some("ABCD"), None),
        identity("a", None, Some("/home/a/.ssh/id_rsa")),
        identity("work.client-a", Some("ABCD"), Some("/home/a/.ssh/id_rsa")),
        identity("a.b.c", Some("K"), Some("relative/key")),
    ] {
        assert_eq!(round_trip(&x), x);
    }
}

#[test]
fn round_trip_holds_for_ids_made_of_field_words() {
    for id in ["name", "email.name", "work.sshkey", "signingkey.email.name"] {
        let x = identity(id, Some("K"), Some("/k"));
        assert_eq!(round_trip(&x), x);
    }
}

#[test]
fn round_trip_clears_an_empty_signing_key() {
    let x = identity("a", Some(""), Some("/k"));
    assert_eq!(round_trip(&x), identity("a", None, Some("/k")));
}
