use git_identity::config::Config;
use git_identity::error::RegistryError;
use git_identity::identity::Identity;
use git_identity::manager::{choose_one, Manager};
use std::path::PathBuf;

fn pair(key: &str, value: &str) -> (String, String) {
    (key.to_string(), value.to_string())
}

fn sorted<T: Ord>(mut items: Vec<T>) -> Vec<T> {
    items.sort();
    items
}

fn scope(entries: &[(&str, &str)]) -> Config {
    let mut config = Config::new();
    for (key, value) in entries {
        config.set_str(key, value);
    }
    config
}

fn identity(id: &str) -> Identity {
    Identity {
        id: id.to_string(),
        name: "Alice".to_string(),
        email: "a@x.com".to_string(),
        signing_key: None,
        ssh_key: None,
    }
}

fn alice() -> Manager {
    Manager::new(
        scope(&[("user.a.name", "Alice"), ("user.a.email", "a@x.com")]),
        Some(Config::new()),
    )
}

#[test]
fn new_holds_the_given_scopes() {
    let manager = Manager::new(scope(&[("core.editor", "vi")]), None);
    assert_eq!(manager.global_config.entries(None), vec![pair("core.editor", "vi")]);
    assert!(manager.local_config.is_none());
    let manager = Manager::new(Config::new(), Some(scope(&[("user.name", "N")])));
    assert_eq!(manager.local_config.unwrap().entries(None), vec![pair("user.name", "N")]);
}

#[test]
fn list_keeps_dotted_ids_whole() {
    let mut manager = Manager::new(Config::new(), None);
    manager.add(&identity("a.b")).unwrap();
    manager.add(&identity("a.b.c")).unwrap();
    assert_eq!(sorted(manager.get_all()), vec!["a.b".to_string(), "a.b.c".to_string()]);
}

#[test]
fn list_names_each_id_once() {
    let manager = Manager::new(
        scope(&[
            ("user.a.name", "Alice"),
            ("user.a.email", "a@x.com"),
            ("user.a.signingkey", "K"),
            ("user.b.sshkey", "/k"),
            ("user.name", "Active"),
            ("user.email", "active@x.com"),
            ("user.c.useconfigonly", "true"),
            ("core.a.name", "no"),
        ]),
        None,
    );
    assert_eq!(sorted(manager.get_all()), vec!["a".to_string(), "b".to_string()]);
}

#[test]
fn list_of_empty_scope_is_empty() {
    assert_eq!(Manager::new(Config::new(), None).get_all(), Vec::<String>::new());
    assert_eq!(
        Manager::new(scope(&[("user.name", "N"), ("user.email", "e")]), None).get_all(),
        Vec::<String>::new()
    );
}

#[test]
fn identity_keys_need_an_id_and_a_field_segment() {
    let manager = Manager::new(
        scope(&[
            ("user.name", "Active"),
            ("user.a.name", "Alice"),
            ("user.a.b.c", "x"),
            ("user.a.useconfigonly", "true"),
            ("core.a.name", "no"),
            ("username.a.b", "no"),
        ]),
        None,
    );
    assert_eq!(
        sorted(manager.identity_keys()),
        vec!["user.a.b.c".to_string(), "user.a.name".to_string(), "user.a.useconfigonly".to_string()]
    );
}

#[test]
fn add_writes_the_encoded_entries() {
    let mut manager = Manager::new(Config::new(), None);
    let written = manager
        .add(&Identity {
            id: "work".to_string(),
            name: "Alice".to_string(),
            email: "a@x.com".to_string(),
            signing_key: Some("ABCD".to_string()),
            ssh_key: Some(PathBuf::from("/k")),
        })
        .unwrap();
    let expected = vec![
        pair("user.work.name", "Alice"),
        pair("user.work.email", "a@x.com"),
        pair("user.work.signingkey", "ABCD"),
        pair("user.work.sshkey", "/k"),
    ];
    assert_eq!(written, expected);
    assert_eq!(sorted(manager.global_config.entries(None)), sorted(expected));
}

#[test]
fn add_is_upsert() {
    let mut manager = alice();
    let mut changed = identity("a");
    changed.name = "Alicia".to_string();
    manager.add(&changed).unwrap();
    assert_eq!(manager.get("a"), Ok(Some(changed)));
    assert_eq!(manager.get_all(), vec!["a".to_string()]);
    assert_eq!(manager.global_config.entries(None).len(), 2);
}

#[test]
fn add_leaves_fields_that_the_new_identity_lacks() {
    let mut manager = Manager::new(
        scope(&[("user.a.name", "Alice"), ("user.a.email", "a@x.com"), ("user.a.signingkey", "OLD")]),
        None,
    );
    manager.add(&identity("a")).unwrap();
    assert_eq!(manager.get("a").unwrap().unwrap().signing_key, Some("OLD".to_string()));
}

#[test]
fn get_assembles_the_identity() {
    let manager = Manager::new(
        scope(&[
            ("user.work.client-a.name", "Alice"),
            ("user.work.client-a.email", "a@x.com"),
            ("user.work.client-a.signingkey", "ABCD"),
            ("user.work.client-a.sshkey", "/home/a/.ssh/id_rsa"),
            ("user.work.name", "Other"),
            ("user.work.email", "o@x.com"),
        ]),
        None,
    );
    assert_eq!(
        manager.get("work.client-a"),
        Ok(Some(Identity {
            id: "work.client-a".to_string(),
            name: "Alice".to_string(),
            email: "a@x.com".to_string(),
            signing_key: Some("ABCD".to_string()),
            ssh_key: Some(PathBuf::from("/home/a/.ssh/id_rsa")),
        }))
    );
    assert_eq!(manager.get("work").unwrap().unwrap().name, "Other");
}

#[test]
fn get_of_unlisted_id_is_none() {
    let manager = alice();
    assert_eq!(manager.get("b"), Ok(None));
    assert_eq!(manager.get(""), Ok(None));
    assert_eq!(manager.get("a.name"), Ok(None));
}

#[test]
fn get_reads_empty_signing_key_as_none() {
    let manager = Manager::new(
        scope(&[("user.a.name", "Alice"), ("user.a.email", "a@x.com"), ("user.a.signingkey", "")]),
        None,
    );
    assert_eq!(manager.get("a"), Ok(Some(identity("a"))));
}

#[test]
fn get_of_incomplete_identity_is_inconsistent() {
    let only_key = Manager::new(scope(&[("user.a.signingkey", "K")]), None);
    assert_eq!(only_key.get_all(), vec!["a".to_string()]);
    assert_eq!(only_key.get("a"), Err(RegistryError::Inconsistent));
    let no_email = Manager::new(scope(&[("user.a.name", "Alice")]), None);
    assert_eq!(no_email.get("a"), Err(RegistryError::Inconsistent));
    let no_name = Manager::new(scope(&[("user.a.email", "a@x.com")]), None);
    assert_eq!(no_name.get("a"), Err(RegistryError::Inconsistent));
}

#[test]
fn remove_then_get_is_none() {
    let mut manager = alice();
    let removed = manager.remove_from_global("a");
    assert_eq!(sorted(removed), vec!["user.a.email".to_string(), "user.a.name".to_string()]);
    assert_eq!(manager.get("a"), Ok(None));
    assert_eq!(manager.get_all(), Vec::<String>::new());
}

#[test]
fn remove_of_unlisted_id_changes_nothing() {
    let mut manager = alice();
    assert_eq!(manager.remove_from_global("b"), Vec::<String>::new());
    assert_eq!(manager.remove_from_global(""), Vec::<String>::new());
    assert_eq!(manager.get("a"), Ok(Some(identity("a"))));
    assert_eq!(manager.global_config.entries(None).len(), 2);
    let mut empty = Manager::new(Config::new(), None);
    assert_eq!(empty.remove_from_global("a"), Vec::<String>::new());
}

#[test]
fn remove_keeps_protected_keys() {
    let mut manager =
        Manager::new(scope(&[("user.work.useconfigonly", "true"), ("user.work.name", "X")]), None);
    assert_eq!(manager.remove_from_global("work"), vec!["user.work.name".to_string()]);
    assert_eq!(manager.global_config.entries(None), vec![pair("user.work.useconfigonly", "true")]);
}

#[test]
fn remove_keeps_protected_keys_in_any_case() {
    let mut manager = Manager::new(
        scope(&[
            ("user.work.useConfigOnly", "true"),
            ("user.work.USECONFIGONLY", "true"),
            ("user.work.xuseconfigonly", "gone"),
            ("user.work.useconfigonly.name", "gone"),
        ]),
        None,
    );
    assert_eq!(
        sorted(manager.remove_from_global("work")),
        vec!["user.work.useconfigonly.name".to_string(), "user.work.xuseconfigonly".to_string()]
    );
    assert_eq!(manager.global_config.entries(None).len(), 2);
}

#[test]
fn remove_takes_every_key_under_the_prefix() {
    let mut manager = Manager::new(
        scope(&[
            ("user.a.name", "Alice"),
            ("user.a.b.name", "Nested"),
            ("user.a.note", "free"),
            ("user.ab.name", "Other"),
            ("user.name", "Active"),
        ]),
        None,
    );
    assert_eq!(
        sorted(manager.remove_from_global("a")),
        vec!["user.a.b.name".to_string(), "user.a.name".to_string(), "user.a.note".to_string()]
    );
    assert_eq!(
        sorted(manager.global_config.entries(None)),
        vec![pair("user.ab.name", "Other"), pair("user.name", "Active")]
    );
}

#[test]
fn end_to_end() {
    let mut manager = alice();
    assert_eq!(manager.get_all(), vec!["a".to_string()]);
    assert_eq!(
        manager.get("a"),
        Ok(Some(Identity {
            id: "a".to_string(),
            name: "Alice".to_string(),
            email: "a@x.com".to_string(),
            signing_key: None,
            ssh_key: None,
        }))
    );
    let written = manager.use_identity("a").unwrap();
    assert_eq!(written, vec![pair("user.name", "Alice"), pair("user.email", "a@x.com")]);
    assert_eq!(
        sorted(manager.local_config.as_ref().unwrap().entries(None)),
        vec![pair("user.email", "a@x.com"), pair("user.name", "Alice")]
    );
    assert_eq!(manager.global_config.entries(None).len(), 2);
}

#[test]
fn activation_writes_optional_fields() {
    let mut manager = Manager::new(
        scope(&[
            ("user.a.name", "Alice"),
            ("user.a.email", "a@x.com"),
            ("user.a.signingkey", "K"),
            ("user.a.sshkey", "/k"),
        ]),
        Some(scope(&[("core.editor", "vi")])),
    );
    manager.use_identity("a").unwrap();
    assert_eq!(
        sorted(manager.local_config.unwrap().entries(None)),
        vec![
            pair("core.editor", "vi"),
            pair("user.email", "a@x.com"),
            pair("user.name", "Alice"),
            pair("user.signingkey", "K"),
            pair("user.sshkey", "/k"),
        ]
    );
}

#[test]
fn activation_leaves_stale_fields() {
    let mut manager = Manager::new(
        scope(&[
            ("user.old.name", "Old"),
            ("user.old.email", "old@x.com"),
            ("user.old.signingkey", "OLDKEY"),
            ("user.new.name", "New"),
            ("user.new.email", "new@x.com"),
        ]),
        Some(Config::new()),
    );
    manager.use_identity("old").unwrap();
    manager.use_identity("new").unwrap();
    assert_eq!(
        sorted(manager.local_config.unwrap().entries(None)),
        vec![
            pair("user.email", "new@x.com"),
            pair("user.name", "New"),
            pair("user.signingkey", "OLDKEY"),
        ]
    );
}

#[test]
fn activation_of_unlisted_id_fails() {
    let mut manager = alice();
    assert_eq!(manager.use_identity("b"), Err(RegistryError::NoSuchIdentity));
    assert_eq!(manager.local_config.unwrap().entries(None), vec![]);
}

#[test]
fn activation_without_local_scope_fails() {
    let mut manager =
        Manager::new(scope(&[("user.a.name", "Alice"), ("user.a.email", "a@x.com")]), None);
    assert_eq!(manager.use_identity("a"), Err(RegistryError::NoLocalScope));
    assert_eq!(manager.use_identity("b"), Err(RegistryError::NoSuchIdentity));
}

#[test]
fn activation_of_incomplete_identity_fails() {
    let mut manager = Manager::new(scope(&[("user.a.name", "Alice")]), Some(Config::new()));
    assert_eq!(manager.use_identity("a"), Err(RegistryError::Inconsistent));
    assert_eq!(manager.local_config.unwrap().entries(None), vec![]);
}

#[test]
fn selection_of_one_id_activates_it() {
    let mut manager = alice();
    let written = manager.select_identity(&vec!["a".to_string()]).unwrap();
    assert_eq!(written, Some(vec![pair("user.name", "Alice"), pair("user.email", "a@x.com")]));
    assert_eq!(manager.current_identity(), Some(("Alice".to_string(), "a@x.com".to_string())));
}

#[test]
fn empty_selection_does_nothing() {
    let mut manager = alice();
    assert_eq!(manager.select_identity(&vec![]), Ok(None));
    assert_eq!(manager.local_config.unwrap().entries(None), vec![]);
}

#[test]
fn selection_of_several_ids_is_ambiguous() {
    let mut manager = alice();
    assert_eq!(
        manager.select_identity(&vec!["a".to_string(), "a".to_string()]),
        Err(RegistryError::AmbiguousSelection)
    );
    assert_eq!(manager.local_config.unwrap().entries(None), vec![]);
}

#[test]
fn selection_of_unlisted_id_fails() {
    let mut manager = alice();
    assert_eq!(manager.select_identity(&vec!["zz".to_string()]), Err(RegistryError::NoSuchIdentity));
}

#[test]
fn choose_one_settles_a_selection() {
    assert_eq!(choose_one(&vec![]), Ok(None));
    assert_eq!(choose_one(&vec!["a.b".to_string()]), Ok(Some("a.b".to_string())));
    assert_eq!(
        choose_one(&vec!["a".to_string(), "b".to_string()]),
        Err(RegistryError::AmbiguousSelection)
    );
}

#[test]
fn clearing_the_active_identity_deletes_every_key_of_the_namespace() {
    let mut manager = Manager::new(
        Config::new(),
        Some(scope(&[
            ("user.name", "Alice"),
            ("user.email", "a@x.com"),
            ("user.useconfigonly", "true"),
            ("user.x.y", "z"),
            ("core.editor", "vi"),
            ("username.a", "kept"),
        ])),
    );
    let removed = manager.remove().unwrap();
    assert_eq!(
        sorted(removed),
        vec![
            "user.email".to_string(),
            "user.name".to_string(),
            "user.useconfigonly".to_string(),
            "user.x.y".to_string(),
        ]
    );
    assert_eq!(
        sorted(manager.local_config.unwrap().entries(None)),
        vec![pair("core.editor", "vi"), pair("username.a", "kept")]
    );
}

#[test]
fn clearing_an_empty_local_scope_removes_nothing() {
    let mut manager = Manager::new(Config::new(), Some(scope(&[("core.editor", "vi")])));
    assert_eq!(manager.remove(), Ok(vec![]));
    assert_eq!(manager.local_config.unwrap().entries(None).len(), 1);
}

#[test]
fn clearing_without_local_scope_fails() {
    let mut manager = alice();
    manager.local_config = None;
    assert_eq!(manager.remove(), Err(RegistryError::NoLocalScope));
    assert_eq!(manager.global_config.entries(None).len(), 2);
}

#[test]
fn current_identity_needs_name_and_email() {
    let both = Manager::new(
        Config::new(),
        Some(scope(&[("user.name", "Alice"), ("user.email", "a@x.com")])),
    );
    assert_eq!(both.current_identity(), Some(("Alice".to_string(), "a@x.com".to_string())));
    let no_email = Manager::new(Config::new(), Some(scope(&[("user.name", "Alice")])));
    assert_eq!(no_email.current_identity(), None);
    let no_name = Manager::new(Config::new(), Some(scope(&[("user.email", "a@x.com")])));
    assert_eq!(no_name.current_identity(), None);
    let no_scope = Manager::new(scope(&[("user.name", "A"), ("user.email", "e")]), None);
    assert_eq!(no_scope.current_identity(), None);
}

#[test]
fn partial_write_names_the_keys_that_went_through() {
    let plan = vec![
        pair("user.a.name", "Alice"),
        pair("user.a.email", "a@x.com"),
        pair("user.a.signingkey", "K"),
        pair("user.a.sshkey", "/k"),
    ];
    assert_eq!(
        RegistryError::partial_write(&plan, 2),
        RegistryError::PartialWriteError {
            written: vec!["user.a.name".to_string(), "user.a.email".to_string()]
        }
    );
    assert_eq!(
        RegistryError::partial_write(&plan, 0),
        RegistryError::PartialWriteError { written: vec![] }
    );
    assert_eq!(
        RegistryError::partial_write(&plan, 9),
        RegistryError::PartialWriteError {
            written: vec![
                "user.a.name".to_string(),
                "user.a.email".to_string(),
                "user.a.signingkey".to_string(),
                "user.a.sshkey".to_string(),
            ]
        }
    );
}

#[test]
fn partial_removal_names_the_keys_that_went_through() {
    let keys = vec!["user.name".to_string(), "user.email".to_string()];
    assert_eq!(
        RegistryError::partial_removal(&keys, 1),
        RegistryError::PartialWriteError { written: vec!["user.name".to_string()] }
    );
}
