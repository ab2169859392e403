//! Placeholder resolution, the context-scoped variable store, whitespace
//! tokenization, and remote-content decoding.

use doo::context::ContextManager;
use doo::errors::DooError;
use doo::remote::{decode_github_content, is_repo_reference, parse_repo_spec};
use doo::tokens::tokenize_command;
use doo::variables::VariableManager;

#[test]
fn test_variable_operations() {
    let mut variable_manager = VariableManager::new();

    variable_manager
        .set_variable("test", "#1", "production")
        .unwrap();
    assert_eq!(
        variable_manager.get_variable("test", "#1").unwrap(),
        Some("production".to_string())
    );

    let resolved = variable_manager
        .resolve_variables("test", "kubectl get pods -n #1", &[])
        .unwrap();
    assert_eq!(resolved, "kubectl get pods -n production");
}

#[test]
fn test_positional_args() {
    let variable_manager = VariableManager::new();

    let resolved = variable_manager
        .resolve_variables(
            "default",
            "kubectl logs #1 #2",
            &["pod-name".to_string(), "-f".to_string()],
        )
        .unwrap();
    assert_eq!(resolved, "kubectl logs pod-name -f");
}

#[test]
fn test_dollar_positional_args() {
    let variable_manager = VariableManager::new();

    let resolved = variable_manager
        .resolve_variables(
            "default",
            "kubectl -n $1 get pods",
            &["console".to_string()],
        )
        .unwrap();
    assert_eq!(resolved, "kubectl -n console get pods");

    let resolved = variable_manager
        .resolve_variables(
            "default",
            "kubectl logs $1 -n $2",
            &["my-pod".to_string(), "staging".to_string()],
        )
        .unwrap();
    assert_eq!(resolved, "kubectl logs my-pod -n staging");
}

#[test]
fn test_mixed_placeholders() {
    let mut variable_manager = VariableManager::new();

    variable_manager
        .set_variable("test", "#1", "production")
        .unwrap();

    let resolved = variable_manager
        .resolve_variables(
            "test",
            "kubectl -n #1 get pods $1",
            &["--watch".to_string()],
        )
        .unwrap();
    assert_eq!(resolved, "kubectl -n production get pods --watch");
}

#[test]
fn test_full_workflow() {
    let mut context_manager = ContextManager::new();
    let mut variable_manager = VariableManager::new();

    assert_eq!(context_manager.current_context(), "default");
    context_manager.switch_context("test").unwrap();
    assert_eq!(context_manager.current_context(), "test");

    variable_manager
        .set_variable("test", "#1", "production")
        .unwrap();
    assert_eq!(
        variable_manager.get_variable("test", "#1").unwrap(),
        Some("production".to_string())
    );

    let resolved = variable_manager
        .resolve_variables("test", "kubectl get pods -n #1", &[])
        .unwrap();
    assert_eq!(resolved, "kubectl get pods -n production");

    let resolved = variable_manager
        .resolve_variables("test", "kubectl logs #1 #2", &["my-pod".to_string()])
        .unwrap();
    assert_eq!(resolved, "kubectl logs production my-pod");
}

#[test]
fn test_context_isolation() {
    let mut variable_manager = VariableManager::new();

    variable_manager
        .set_variable("default", "#1", "default-value")
        .unwrap();
    variable_manager
        .set_variable("test", "#1", "test-value")
        .unwrap();

    assert_eq!(
        variable_manager.get_variable("default", "#1").unwrap(),
        Some("default-value".to_string())
    );
    assert_eq!(
        variable_manager.get_variable("test", "#1").unwrap(),
        Some("test-value".to_string())
    );
}

#[test]
fn test_no_placeholders_left_unchanged() {
    let mut vm = VariableManager::new();
    vm.set_variable("ctx", "#1", "something").unwrap();

    let resolved = vm
        .resolve_variables("ctx", "kubectl get pods", &["extra".to_string()])
        .unwrap();
    assert_eq!(resolved, "kubectl get pods");
}

#[test]
fn test_unmatched_placeholders_stay_verbatim() {
    let vm = VariableManager::new();
    let resolved = vm.resolve_variables("default", "echo #1 $2", &[]).unwrap();
    assert_eq!(resolved, "echo #1 $2");
}

#[test]
fn test_fallback_consumes_args_in_placeholder_order() {
    let vm = VariableManager::new();
    // the lone #3 consumes the first (and only) argument
    let resolved = vm
        .resolve_variables("default", "echo #3", &["first".to_string()])
        .unwrap();
    assert_eq!(resolved, "echo first");
}

#[test]
fn test_persistent_variable_shadows_fallback() {
    let mut vm = VariableManager::new();
    vm.set_variable("ctx", "#1", "VAL").unwrap();
    // #1 is taken by the variable, so the argument goes to #2
    let resolved = vm
        .resolve_variables("ctx", "x #1 #2", &["arg".to_string()])
        .unwrap();
    assert_eq!(resolved, "x VAL arg");
}

#[test]
fn test_dollar_substitution_ignores_variables() {
    let mut vm = VariableManager::new();
    vm.set_variable("ctx", "#1", "persistent").unwrap();
    let resolved = vm
        .resolve_variables("ctx", "echo $1", &["direct".to_string()])
        .unwrap();
    assert_eq!(resolved, "echo direct");
}

#[test]
fn test_dollar_passes_run_in_index_order() {
    // `$1` is replaced before `$10`, so the `$1` inside `$10` is consumed
    // first: the passes are sequential textual replacements.
    let vm = VariableManager::new();
    let args: Vec<String> = (0..10).map(|i| format!("a{i}")).collect();
    let resolved = vm
        .resolve_variables("default", "run $2 $10", &args)
        .unwrap();
    assert_eq!(resolved, "run a1 a00");
}

#[test]
fn test_hash_window_overlap() {
    // scanning starts at #1, which also matches the prefix of #11
    let vm = VariableManager::new();
    let resolved = vm
        .resolve_variables("default", "echo #11", &["a".to_string()])
        .unwrap();
    assert_eq!(resolved, "echo a1");
}

#[test]
fn test_remove_and_list_variables() {
    let mut vm = VariableManager::new();
    vm.set_variable("ctx", "#1", "a").unwrap();
    vm.set_variable("ctx", "#2", "b").unwrap();

    let listed = vm.list_variables("ctx").unwrap();
    assert_eq!(listed.len(), 2);
    assert!(listed.contains(&("#1".to_string(), "a".to_string())));
    assert!(listed.contains(&("#2".to_string(), "b".to_string())));

    assert_eq!(vm.remove_variable("ctx", "#1").unwrap(), true);
    assert_eq!(vm.get_variable("ctx", "#1").unwrap(), None);
    assert_eq!(vm.remove_variable("ctx", "#1").unwrap(), false);
    // an unknown context is an empty mapping, not an error
    assert_eq!(vm.remove_variable("nowhere", "#1").unwrap(), false);
    assert_eq!(vm.list_variables("nowhere").unwrap(), vec![]);
}

#[test]
fn test_tokenize_command() {
    let toks = tokenize_command("echo hello");
    assert_eq!(toks, vec!["echo".to_string(), "hello".to_string()]);

    let toks = tokenize_command("  kubectl\tget  pods\n");
    assert_eq!(
        toks,
        vec!["kubectl".to_string(), "get".to_string(), "pods".to_string()]
    );

    assert!(tokenize_command("").is_empty());
    assert!(tokenize_command("   ").is_empty());
}

#[test]
fn test_tokenize_unicode_whitespace() {
    // em space, no-break space and ideographic space all separate tokens
    let toks = tokenize_command("a\u{2003}b\u{00A0}c\u{3000}d");
    assert_eq!(
        toks,
        vec!["a".to_string(), "b".to_string(), "c".to_string(), "d".to_string()]
    );
}

#[test]
fn test_parse_repo_spec() {
    assert_eq!(
        parse_repo_spec("owner/repo"),
        Some(("owner".to_string(), "repo".to_string()))
    );
    assert_eq!(parse_repo_spec("a/b/c"), None);
    assert_eq!(parse_repo_spec("/repo"), None);
    assert_eq!(parse_repo_spec("owner/"), None);
    assert_eq!(parse_repo_spec("plain"), None);
}

#[test]
fn test_is_repo_reference() {
    assert!(is_repo_reference("owner/repo"));
    assert!(!is_repo_reference("./local/file"));
    assert!(!is_repo_reference("/absolute/path"));
    assert!(!is_repo_reference("config.yaml"));
    assert!(!is_repo_reference("plain"));
}

#[test]
fn test_decode_github_content() {
    assert_eq!(
        decode_github_content("aGVsbG8=", "base64"),
        Ok("hello".to_string())
    );
    // embedded newlines are stripped before decoding
    assert_eq!(
        decode_github_content("aGVs\nbG8=", "base64"),
        Ok("hello".to_string())
    );
    assert_eq!(
        decode_github_content("aGVsbG8=", "utf8"),
        Err(DooError::UnsupportedEncoding)
    );
    assert_eq!(
        decode_github_content("!!!", "base64"),
        Err(DooError::InvalidBase64)
    );
    // 0xff is not valid UTF-8
    assert_eq!(
        decode_github_content("/w==", "base64"),
        Err(DooError::InvalidUtf8)
    );
}
