use force_alias::alias::{Alias, AliasScope};
use force_alias::judge::{check_command, decimal_string, join_with_newlines, try_check_command};
use force_alias::registry::{declared_aliases, AliasRegistry};
use force_alias::request_types::{PostCommand, PostDeclarations};

fn alias(scope: AliasScope, alias: &str, command: &str) -> Alias {
    Alias { scope, alias: alias.to_string(), command: command.to_string() }
}

#[test]
fn decimal_string_works() {
    assert_eq!(decimal_string(0), "0".to_string());
    assert_eq!(decimal_string(7), "7".to_string());
    assert_eq!(decimal_string(1203), "1203".to_string());
}

#[test]
fn join_with_newlines_works() {
    assert_eq!(join_with_newlines(&vec![]), "".to_string());
    assert_eq!(join_with_newlines(&vec!["a".to_string()]), "a".to_string());
    assert_eq!(join_with_newlines(&vec!["a".to_string(), "".to_string(), "b".to_string()]), "a\n\nb".to_string());
}

#[test]
fn check_command_refuses_long_form() {
    let aliases = vec![alias(AliasScope::Normal, "g", "git")];
    let r = check_command(&"git status".to_string(), &aliases);
    assert!(!r.accepted);
    assert_eq!(
        r.feedback,
        "\nI'm sorry Dave, I can't let you do that.\n\nYou could save 2 keystrokes with:\n> g status\n\nRelevant aliases:\ng -> git".to_string()
    );
}

#[test]
fn check_command_accepts_alias_use() {
    let aliases = vec![alias(AliasScope::Normal, "g", "git")];
    let r = check_command(&"g status".to_string(), &aliases);
    assert!(r.accepted);
    assert_eq!(r.feedback, "".to_string());
}

#[test]
fn check_command_lists_global_aliases() {
    let aliases = vec![alias(AliasScope::Global, "G", "| grep")];
    let r = check_command(&"ls | grep x".to_string(), &aliases);
    assert!(!r.accepted);
    assert!(r.feedback.ends_with("Relevant aliases:\nG -> | grep (GLOBAL) "));
    assert!(r.feedback.contains("You could save 5 keystrokes with:\n> ls G x"));
}

#[test]
fn try_check_command_judges_non_ascii() {
    let none: Vec<Alias> = vec![];
    let r = try_check_command(&"café".to_string(), &none).unwrap();
    assert!(r.accepted);
    let aliases = vec![alias(AliasScope::Normal, "g", "git")];
    let r = try_check_command(&"git café".to_string(), &aliases).unwrap();
    assert!(!r.accepted);
    assert!(r.feedback.contains("> g café"));
}

#[test]
fn try_check_command_ignores_aliases_that_do_not_apply() {
    let aliases = vec![
        alias(AliasScope::Normal, "run-help", "man"),
        alias(AliasScope::Normal, "which-command", "whence"),
    ];
    let r = try_check_command(&"ls".to_string(), &aliases).unwrap();
    assert!(r.accepted);
    assert_eq!(r.feedback, "".to_string());
}

#[test]
fn try_check_command_declines_negative_gain() {
    let aliases = vec![alias(AliasScope::Normal, "run-help", "man")];
    assert!(try_check_command(&"man ls".to_string(), &aliases).is_none());
}

#[test]
fn try_check_command_judges_equal_length_alias() {
    let aliases = vec![alias(AliasScope::Normal, "ab", "cd")];
    let r = try_check_command(&"cd x".to_string(), &aliases).unwrap();
    assert!(r.accepted);
    assert_eq!(r.feedback, "".to_string());
}

#[test]
fn try_check_command_declines_endless_replacing() {
    let aliases = vec![alias(AliasScope::Normal, "same", "same")];
    assert!(try_check_command(&"same x".to_string(), &aliases).is_none());
}

#[test]
fn registry_latest_declarations_win() {
    let mut reg = AliasRegistry::new();
    assert!(reg.aliases_of(1).is_none());
    let first = PostDeclarations { pid: 1, declarations: vec!["alias g=git".to_string()] };
    reg.set_aliases(1, declared_aliases(&first).unwrap());
    let second = PostDeclarations { pid: 1, declarations: vec!["alias l='ls -la'".to_string(), "".to_string()] };
    reg.set_aliases(1, declared_aliases(&second).unwrap());
    assert_eq!(reg.aliases_of(1).unwrap(), &vec![alias(AliasScope::Normal, "l", "ls -la")]);
    assert!(reg.aliases_of(2).is_none());
    assert_eq!(reg.aliases_snapshot(1), vec![alias(AliasScope::Normal, "l", "ls -la")]);
    assert!(reg.aliases_snapshot(2).is_empty());
}

#[test]
fn declared_aliases_refuses_declaration_without_name() {
    let bad = PostDeclarations { pid: 3, declarations: vec!["g=git".to_string()] };
    assert!(declared_aliases(&bad).is_none());
}

#[test]
fn judging_with_a_shell_snapshot() {
    let mut reg = AliasRegistry::new();
    reg.set_aliases(5, vec![alias(AliasScope::Normal, "g", "git")]);
    let post = PostCommand { pid: 5, command: "git log".to_string() };
    let refused = try_check_command(&post.command, &reg.aliases_snapshot(post.pid)).unwrap();
    assert!(!refused.accepted);
    let other = try_check_command(&post.command, &reg.aliases_snapshot(6)).unwrap();
    assert!(other.accepted);
}
