use git_identity::config::Config;
use git_identity::error::RegistryError;

fn pair(key: &str, value: &str) -> (String, String) {
    (key.to_string(), value.to_string())
}

fn sorted(mut entries: Vec<(String, String)>) -> Vec<(String, String)> {
    entries.sort();
    entries
}

fn sample() -> Config {
    let mut config = Config::new();
    config.set_str("user.name", "Active");
    config.set_str("user.work.name", "Alice");
    config.set_str("user.work.email", "a@x.com");
    config.set_str("core.editor", "vi");
    config
}

#[test]
fn new_scope_is_empty() {
    let config = Config::new();
    assert_eq!(config.entries(None), vec![]);
    assert_eq!(config.get_string("user.name"), Err(RegistryError::NotFound));
}

#[test]
fn get_string_reads_what_was_set() {
    let config = sample();
    assert_eq!(config.get_string("user.work.name"), Ok("Alice".to_string()));
    assert_eq!(config.get_string("core.editor"), Ok("vi".to_string()));
    assert_eq!(config.get_string("user.work"), Err(RegistryError::NotFound));
    assert_eq!(config.get_string("User.work.name"), Err(RegistryError::NotFound));
}

#[test]
fn get_entry_gives_key_and_value() {
    let config = sample();
    assert_eq!(config.get_entry("user.name"), Ok(pair("user.name", "Active")));
    assert_eq!(config.get_entry("user.email"), Err(RegistryError::NotFound));
}

#[test]
fn set_str_overwrites() {
    let mut config = sample();
    config.set_str("user.work.name", "Bob");
    assert_eq!(config.get_string("user.work.name"), Ok("Bob".to_string()));
    assert_eq!(config.entries(None).len(), 4);
    assert_eq!(config.get_string("user.work.email"), Ok("a@x.com".to_string()));
}

#[test]
fn remove_deletes_one_entry() {
    let mut config = sample();
    assert_eq!(config.remove("user.work.name"), Ok(()));
    assert_eq!(config.get_string("user.work.name"), Err(RegistryError::NotFound));
    assert_eq!(
        sorted(config.entries(None)),
        vec![pair("core.editor", "vi"), pair("user.name", "Active"), pair("user.work.email", "a@x.com")]
    );
}

#[test]
fn remove_of_absent_key_reports_not_found() {
    let mut config = sample();
    assert_eq!(config.remove("user.home.name"), Err(RegistryError::NotFound));
    assert_eq!(config.entries(None).len(), 4);
    assert_eq!(config.remove("user.name"), Ok(()));
    assert_eq!(config.remove("user.name"), Err(RegistryError::NotFound));
}

#[test]
fn entries_by_prefix() {
    let config = sample();
    assert_eq!(
        sorted(config.entries(Some("user."))),
        vec![pair("user.name", "Active"), pair("user.work.email", "a@x.com"), pair("user.work.name", "Alice")]
    );
    assert_eq!(
        sorted(config.entries(Some("user.work."))),
        vec![pair("user.work.email", "a@x.com"), pair("user.work.name", "Alice")]
    );
    assert_eq!(config.entries(Some("user.home.")), vec![]);
    assert_eq!(config.entries(Some("")).len(), 4);
}

#[test]
fn write_all_writes_in_turn() {
    let mut config = sample();
    config.write_all(&vec![
        pair("user.work.name", "Bob"),
        pair("user.home.name", "Carol"),
        pair("user.work.name", "Dave"),
    ]);
    assert_eq!(config.get_string("user.work.name"), Ok("Dave".to_string()));
    assert_eq!(config.get_string("user.home.name"), Ok("Carol".to_string()));
    assert_eq!(config.entries(None).len(), 5);
}

#[test]
fn remove_all_passes_over_absent_keys() {
    let mut config = sample();
    config.remove_all(&vec![
        "user.work.name".to_string(),
        "user.nothing".to_string(),
        "user.work.email".to_string(),
        "user.work.name".to_string(),
    ]);
    assert_eq!(sorted(config.entries(None)), vec![pair("core.editor", "vi"), pair("user.name", "Active")]);
}
