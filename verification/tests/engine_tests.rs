//! Registry-set behaviour: primary mutation, lookup precedence, conflict
//! enumeration and resolution, merged listing and search, imports.

use doo::config::{CommandEntry, Config, ConfigManager, ImportType, ConfigOrigin};
use doo::context::ContextManager;
use doo::errors::DooError;

fn simple(name: &str, template: &str) -> (String, CommandEntry) {
    (name.to_string(), CommandEntry::Simple(template.to_string()))
}

fn config_with(entries: Vec<(String, CommandEntry)>) -> Config {
    Config::from_entries(entries, None).unwrap()
}

#[test]
fn test_config_creation() {
    let config_manager = ConfigManager::new();
    assert!(config_manager.list_commands().is_empty());
}

#[test]
fn test_command_operations() {
    let mut config_manager = ConfigManager::new();

    config_manager.add_command("test", "echo hello").unwrap();
    assert_eq!(
        config_manager.get_command("test").unwrap(),
        Some("echo hello".to_string())
    );

    assert!(config_manager.remove_command("test").unwrap());
    assert_eq!(config_manager.get_command("test").unwrap(), None);
}

#[test]
fn test_context_switching() {
    let mut context_manager = ContextManager::new();

    assert_eq!(context_manager.current_context(), "default");

    context_manager.switch_context("test").unwrap();
    assert_eq!(context_manager.current_context(), "test");
}

#[test]
fn test_command_management() {
    let mut config_manager = ConfigManager::new();

    config_manager.add_command("custom", "echo #1").unwrap();
    assert_eq!(
        config_manager.get_command("custom").unwrap(),
        Some("echo #1".to_string())
    );

    let results = config_manager.search_commands("echo");
    assert!(!results.is_empty());
    assert!(results.iter().any(|r| r.name == "custom"));
}

#[test]
fn test_search_is_case_insensitive() {
    let mut m = ConfigManager::new();
    m.add_command("custom", "echo #1").unwrap();

    let results = m.search_commands("ECHO");
    assert!(results.iter().any(|r| r.name == "custom"));

    let results = m.search_commands("CUST");
    assert!(results.iter().any(|r| r.name == "custom"));

    let results = m.search_commands("zzz");
    assert!(results.is_empty());
}

#[test]
fn test_empty_query_matches_everything() {
    let mut m = ConfigManager::new();
    m.add_command("one", "echo 1").unwrap();
    m.insert_imported_config("team", config_with(vec![simple("two", "echo 2")]));

    let results = m.search_commands("");
    assert_eq!(results.len(), 2);
    // sorted by name for stable display
    assert_eq!(results[0].name, "one");
    assert_eq!(results[1].name, "two");
}

#[test]
fn test_search_matches_description() {
    let mut m = ConfigManager::new();
    m.add_command("plain", "true").unwrap();
    let cfg = Config::from_entries(
        vec![(
            "described".to_string(),
            CommandEntry::Detailed {
                command: "kubectl get ns".to_string(),
                description: Some("List Namespaces".to_string()),
            },
        )],
        None,
    )
    .unwrap();
    m.insert_imported_config("team", cfg);

    let results = m.search_commands("namespaces");
    assert_eq!(results.len(), 1);
    assert_eq!(results[0].name, "described");
    assert_eq!(results[0].description.as_deref(), Some("List Namespaces"));
}

#[test]
fn test_conflict_enumeration_three_sources() {
    let mut m = ConfigManager::new();
    m.add_command("deploy", "main-deploy").unwrap();
    m.insert_imported_config("alpha", config_with(vec![simple("deploy", "alpha-deploy")]));
    m.insert_imported_config("beta", config_with(vec![simple("deploy", "beta-deploy")]));

    let conflicts = m.get_command_conflicts("deploy");
    assert_eq!(conflicts.len(), 3);
    assert_eq!(conflicts[0].source_file, "main");
    assert_eq!(conflicts[0].command, "main-deploy");
    assert_eq!(conflicts[1].source_file, "alpha");
    assert_eq!(conflicts[2].source_file, "beta");
}

#[test]
fn test_conflict_resolution() {
    let mut m = ConfigManager::new();
    m.add_command("deploy", "main-deploy").unwrap();
    m.insert_imported_config("alpha", config_with(vec![simple("deploy", "alpha-deploy")]));

    assert_eq!(
        m.resolve_command_conflict("deploy", "main").unwrap(),
        Some("main-deploy".to_string())
    );
    assert_eq!(
        m.resolve_command_conflict("deploy", "alpha").unwrap(),
        Some("alpha-deploy".to_string())
    );
    assert_eq!(m.resolve_command_conflict("other", "alpha").unwrap(), None);
    assert_eq!(
        m.resolve_command_conflict("deploy", "nonexistent"),
        Err(DooError::InvalidSource)
    );
}

#[test]
fn test_lookup_and_merge_have_opposite_precedence() {
    let mut m = ConfigManager::new();
    m.add_command("deploy", "main-deploy").unwrap();
    m.insert_imported_config("alpha", config_with(vec![simple("deploy", "alpha-deploy")]));
    m.insert_imported_config("beta", config_with(vec![simple("deploy", "beta-deploy")]));

    // single-result lookup: the primary registry wins
    assert_eq!(
        m.get_command("deploy").unwrap(),
        Some("main-deploy".to_string())
    );
    let with_source = m.get_command_with_source("deploy").unwrap().unwrap();
    assert_eq!(with_source.source_file, "main");

    // merged listing: later sources overwrite earlier ones
    let listed = m.list_commands();
    assert_eq!(listed.len(), 1);
    assert_eq!(listed[0].0, "deploy");
    assert_eq!(listed[0].1, "beta-deploy");
}

#[test]
fn test_add_remove_keeps_secondary_definitions() {
    let mut m = ConfigManager::new();
    m.insert_imported_config("team", config_with(vec![simple("build", "team-build")]));

    m.add_command("build", "my-build").unwrap();
    assert_eq!(m.get_command("build").unwrap(), Some("my-build".to_string()));

    assert!(m.remove_command("build").unwrap());
    // the primary no longer defines it, the secondary still does
    assert_eq!(m.get_command("build").unwrap(), Some("team-build".to_string()));
    let conflicts = m.get_command_conflicts("build");
    assert_eq!(conflicts.len(), 1);
    assert_eq!(conflicts[0].source_file, "team");
    // removing again removes nothing
    assert!(!m.remove_command("build").unwrap());
}

#[test]
fn test_import_name_disambiguation() {
    let mut m = ConfigManager::new();
    let n1 = m.insert_imported_config("team", config_with(vec![simple("a", "1")]));
    let n2 = m.insert_imported_config("team", config_with(vec![simple("b", "2")]));
    let n3 = m.insert_imported_config("team", config_with(vec![simple("c", "3")]));
    assert_eq!(n1, "team");
    assert_eq!(n2, "team_1");
    assert_eq!(n3, "team_2");

    assert_eq!(m.resolve_command_conflict("b", "team_1").unwrap(), Some("2".to_string()));
}

#[test]
fn test_update_imported_config_is_wholesale() {
    let mut m = ConfigManager::new();
    m.insert_imported_config(
        "team",
        config_with(vec![simple("old", "old-cmd"), simple("kept", "kept-cmd")]),
    );

    let replaced = m.update_imported_config("team", config_with(vec![simple("new", "new-cmd")]));
    assert!(replaced);
    assert_eq!(m.get_command("old").unwrap(), None);
    assert_eq!(m.get_command("new").unwrap(), Some("new-cmd".to_string()));

    assert!(!m.update_imported_config("unknown", config_with(vec![simple("x", "y")])));
}

#[test]
fn test_remove_imported_with_prefix() {
    let mut m = ConfigManager::new();
    m.insert_imported_config("repo_one", config_with(vec![simple("a", "1")]));
    m.insert_imported_config("repo_two", config_with(vec![simple("b", "2")]));
    m.insert_imported_config("other", config_with(vec![simple("c", "3")]));

    m.remove_imported_with_prefix("repo_");

    assert_eq!(m.get_command("a").unwrap(), None);
    assert_eq!(m.get_command("b").unwrap(), None);
    assert_eq!(m.get_command("c").unwrap(), Some("3".to_string()));
}

#[test]
fn test_syncable_configs_lists_origins() {
    let mut m = ConfigManager::new();
    let with_origin = Config::from_entries(
        vec![simple("a", "1")],
        Some(ConfigOrigin {
            repo: "owner/repo".to_string(),
            import_type: ImportType::Public,
        }),
    )
    .unwrap();
    m.insert_imported_config("remote", with_origin);
    m.insert_imported_config("local", config_with(vec![simple("b", "2")]));

    let syncable = m.syncable_configs();
    assert_eq!(syncable.len(), 1);
    assert_eq!(syncable[0].0, "remote");
    assert_eq!(syncable[0].1.repo, "owner/repo");
    assert_eq!(syncable[0].1.import_type, ImportType::Public);
}

#[test]
fn test_require_commands_rejects_empty_documents() {
    let empty = Config::new();
    assert_eq!(empty.require_commands(), Err(DooError::EmptyDocument));

    let filled = config_with(vec![simple("a", "1")]);
    assert_eq!(filled.require_commands(), Ok(()));
}

#[test]
fn test_from_entries_rejects_malformed_documents() {
    let dup = Config::from_entries(
        vec![simple("a", "1"), simple("a", "2")],
        None,
    );
    assert_eq!(dup.err(), Some(DooError::MalformedDocument));

    let empty_template = Config::from_entries(vec![simple("a", "")], None);
    assert_eq!(empty_template.err(), Some(DooError::MalformedDocument));
}

#[test]
fn test_default_commands_seed() {
    let m = ConfigManager::with_default_commands();
    assert_eq!(
        m.get_command("watch").unwrap(),
        Some("watch kubectl -n #1 get pods".to_string())
    );
    assert_eq!(
        m.get_command("logs").unwrap(),
        Some("kubectl logs -f -n #1 #2".to_string())
    );
    assert_eq!(m.list_commands().len(), 4);
}

#[test]
fn test_context_with_current() {
    let c = ContextManager::with_current("staging");
    assert_eq!(c.current_context(), "staging");
}
