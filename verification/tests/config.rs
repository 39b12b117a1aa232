use sifter::config::{
    cache_dir_path, cache_file_path, config_file_path, matching_contexts, Config, ConfigError, ConfigStore,
    Locations,
};

fn no_locations() -> Locations {
    Locations {
        config_file: None,
        config_home: None,
        config_dir: None,
        cache_file: None,
        cache_dir_override: None,
        cache_home: None,
        cache_dir: None,
    }
}

#[test]
fn context_matching_prefers_longest_prefix() {
    let mut config = Config::default();
    config.contexts.insert("sifter://repo".to_string(), "root".to_string());
    config.contexts.insert("sifter://repo/src".to_string(), "source".to_string());

    let matches = matching_contexts(&config, "sifter://repo/src/main.rs");
    let scopes = matches.into_iter().map(|item| item.scope).collect::<Vec<_>>();
    assert_eq!(scopes, vec!["sifter://repo/src", "sifter://repo"]);
}

#[test]
fn context_matching_requires_a_path_boundary() {
    let mut config = Config::default();
    config.contexts.insert("sifter://repo".to_string(), "root".to_string());
    config.contexts.insert("sifter://rep".to_string(), "other".to_string());
    let matches = matching_contexts(&config, "sifter://repo");
    let found = matches.into_iter().map(|m| (m.scope, m.value)).collect::<Vec<_>>();
    assert_eq!(found, vec![("sifter://repo".to_string(), "root".to_string())]);
    assert!(matching_contexts(&config, "sifter://repository/x").is_empty());
}

#[test]
fn context_matching_keeps_key_order_for_equal_lengths() {
    let mut config = Config::default();
    config.contexts.insert("sifter://b".to_string(), "b".to_string());
    config.contexts.insert("sifter://a".to_string(), "a".to_string());
    config.contexts.insert("sifter://a/x".to_string(), "ax".to_string());
    let scopes = matching_contexts(&config, "sifter://a/x/y")
        .into_iter()
        .map(|m| m.scope)
        .collect::<Vec<_>>();
    assert_eq!(scopes, vec!["sifter://a/x", "sifter://a"]);
}

#[test]
fn collection_can_be_renamed_and_removed() {
    let store = ConfigStore::from_path("/tmp/sifter-test.yml".to_string());
    assert_eq!(store.path(), "/tmp/sifter-test.yml");
    let config = store
        .add_collection(Config::default(), "repo", "/srv/repo", None, None)
        .expect("add");
    let collection = store.collection(&config, "repo").expect("present");
    assert_eq!(collection.path, "/srv/repo");
    assert_eq!(collection.pattern, "**/*");
    assert!(collection.include_by_default);

    let again = store.add_collection(config, "repo", "/srv/other", None, None);
    assert!(matches!(again, Err(ConfigError::CollectionExists(ref n)) if n == "repo"));

    let config = store
        .add_collection(Config::default(), "repo", "docs", Some("**/*.md".to_string()), Some("/home/u"))
        .expect("add relative");
    let collection = store.collection(&config, "repo").expect("present");
    assert_eq!(collection.path, "/home/u/docs");
    assert_eq!(collection.pattern, "**/*.md");

    let config = store.rename_collection(config, "repo", "app").expect("rename");
    assert!(store.collection(&config, "repo").is_err());
    assert_eq!(store.collection(&config, "app").expect("renamed").path, "/home/u/docs");

    let config = store.remove_collection(config, "app").expect("remove");
    assert_eq!(config.collections.len(), 0);
    let missing = store.remove_collection(config, "app");
    assert!(matches!(missing, Err(ConfigError::CollectionMissing(ref n)) if n == "app"));
}

#[test]
fn relative_collection_path_needs_a_working_directory() {
    let store = ConfigStore::from_path("c.yml".to_string());
    let r = store.add_collection(Config::default(), "repo", "docs", None, None);
    assert!(matches!(r, Err(ConfigError::NoWorkingDirectory)));
}

#[test]
fn rename_onto_existing_collection_fails() {
    let store = ConfigStore::from_path("c.yml".to_string());
    let config = store.add_collection(Config::default(), "a", "/a", None, None).unwrap();
    let config = store.add_collection(config, "b", "/b", None, None).unwrap();
    let r = store.rename_collection(config, "a", "b");
    assert!(matches!(r, Err(ConfigError::CollectionExists(ref n)) if n == "b"));
}

#[test]
fn include_exclude_and_update_command() {
    let store = ConfigStore::from_path("c.yml".to_string());
    let config = store.add_collection(Config::default(), "a", "/a", None, None).unwrap();
    let config = store.set_collection_included(config, "a", false).unwrap();
    assert!(!store.collection(&config, "a").unwrap().include_by_default);
    let config = store
        .set_collection_update_command(config, "a", Some("git pull".to_string()))
        .unwrap();
    assert_eq!(store.collection(&config, "a").unwrap().update.as_deref(), Some("git pull"));
    let config = store.set_global_context(config, Some("everything".to_string()));
    assert_eq!(config.global_context.as_deref(), Some("everything"));
}

#[test]
fn context_commands_add_list_check_and_remove_contexts() {
    let store = ConfigStore::from_path("c.yml".to_string());
    let config = store.add_context(Config::default(), "sifter://repo/src", "Source files");
    assert_eq!(config.contexts.get("sifter://repo/src").map(|v| v.as_str()), Some("Source files"));
    assert_eq!(config.contexts.len(), 1);
    assert_eq!(config.contexts.value_at(0), "Source files");
    let matches = matching_contexts(&config, "sifter://repo/src/lib.rs");
    assert_eq!(matches.len(), 1);
    assert_eq!(matches[0].scope, "sifter://repo/src");
    assert_eq!(matches[0].value, "Source files");
    let config = store.remove_context(config, "sifter://repo/src");
    assert_eq!(config.contexts.len(), 0);
    assert!(matching_contexts(&config, "sifter://repo/src/lib.rs").is_empty());
}

#[test]
fn error_messages_name_the_collection() {
    assert_eq!(ConfigError::CollectionExists("repo".to_string()).message(), "collection 'repo' already exists");
    assert_eq!(ConfigError::CollectionMissing("repo".to_string()).message(), "collection 'repo' does not exist");
    assert_eq!(ConfigError::NoConfigDirectory.message(), "failed to resolve XDG config directory");
}

#[test]
fn cache_dir_uses_override_when_present() {
    let mut env = no_locations();
    env.cache_dir_override = Some("/tmp/sifter-cache-test".to_string());
    env.cache_home = Some("/tmp/home".to_string());
    let path = cache_dir_path("default", &env).expect("cache path");
    assert_eq!(path, "/tmp/sifter-cache-test");
}

#[test]
fn locations_follow_their_precedence() {
    let mut env = no_locations();
    assert_eq!(config_file_path("default", &env), Err(ConfigError::NoConfigDirectory));
    assert_eq!(cache_file_path("default", &env), Err(ConfigError::NoCacheDirectory));
    env.config_dir = Some("/home/u/.config/sifter".to_string());
    env.cache_dir = Some("/home/u/.cache/sifter".to_string());
    assert_eq!(config_file_path("default", &env).unwrap(), "/home/u/.config/sifter/default.yml");
    assert_eq!(cache_file_path("default", &env).unwrap(), "/home/u/.cache/sifter/default.sqlite3");
    assert_eq!(cache_dir_path("default", &env).unwrap(), "/home/u/.cache/sifter/default");
    env.config_home = Some("/etc/sifter".to_string());
    env.cache_home = Some("/var/cache/sifter".to_string());
    assert_eq!(config_file_path("default", &env).unwrap(), "/etc/sifter/default.yml");
    assert_eq!(cache_file_path("default", &env).unwrap(), "/var/cache/sifter/default.sqlite3");
    env.config_file = Some("/x/config.yml".to_string());
    env.cache_file = Some("/x/index.sqlite3".to_string());
    assert_eq!(config_file_path("default", &env).unwrap(), "/x/config.yml");
    assert_eq!(cache_file_path("default", &env).unwrap(), "/x/index.sqlite3");
    let store = ConfigStore::new("default", &env).unwrap();
    assert_eq!(store.path(), "/x/config.yml");
}

fn collection_names(config: &Config) -> Vec<String> {
    (0..config.collections.len()).map(|i| config.collections.key_at(i).clone()).collect()
}

#[test]
fn removing_an_added_collection_restores_the_config() {
    let store = ConfigStore::from_path("c.yml".to_string());
    let before = store.add_collection(Config::default(), "a", "/a", None, None).unwrap();
    let before = store.add_context(before, "sifter://a", "A");
    let added = store.add_collection(before, "b", "/b", Some("*.md".to_string()), None).unwrap();
    assert_eq!(collection_names(&added), vec!["a", "b"]);
    let removed = store.remove_collection(added, "b").unwrap();
    assert_eq!(collection_names(&removed), vec!["a"]);
    assert_eq!(store.collection(&removed, "a").unwrap().path, "/a");
    assert_eq!(removed.contexts.get("sifter://a").map(|v| v.as_str()), Some("A"));
}

#[test]
fn renaming_back_restores_the_collection() {
    let store = ConfigStore::from_path("c.yml".to_string());
    let config = store.add_collection(Config::default(), "repo", "/srv/repo", Some("**/*.rs".to_string()), None).unwrap();
    let config = store.set_collection_included(config, "repo", false).unwrap();
    let renamed = store.rename_collection(config, "repo", "app").unwrap();
    assert_eq!(collection_names(&renamed), vec!["app"]);
    let app = store.collection(&renamed, "app").unwrap();
    assert_eq!(app.pattern, "**/*.rs");
    assert!(!app.include_by_default);
    let restored = store.rename_collection(renamed, "app", "repo").unwrap();
    assert_eq!(collection_names(&restored), vec!["repo"]);
    let repo = store.collection(&restored, "repo").unwrap();
    assert_eq!(repo.path, "/srv/repo");
    assert_eq!(repo.pattern, "**/*.rs");
    assert!(!repo.include_by_default);
}

#[test]
fn removing_an_added_context_restores_the_contexts() {
    let store = ConfigStore::from_path("c.yml".to_string());
    let before = store.add_context(Config::default(), "sifter://repo", "root");
    let added = store.add_context(before, "sifter://repo/docs", "docs");
    assert_eq!(added.contexts.len(), 2);
    let removed = store.remove_context(added, "sifter://repo/docs");
    assert_eq!(removed.contexts.len(), 1);
    assert_eq!(removed.contexts.key_at(0), "sifter://repo");
    assert_eq!(removed.contexts.value_at(0), "root");
}

#[test]
fn setting_a_context_again_replaces_its_value() {
    let store = ConfigStore::from_path("c.yml".to_string());
    let config = store.add_context(Config::default(), "sifter://repo", "old");
    let config = store.add_context(config, "sifter://repo", "new");
    assert_eq!(config.contexts.len(), 1);
    let matches = matching_contexts(&config, "sifter://repo/README.md");
    assert_eq!(matches.len(), 1);
    assert_eq!(matches[0].value, "new");
}
