use force_alias::alias::{lengthen_command, parse_alias_declarations, shorten_command, Alias, AliasScope};

#[test]
fn lengthen_command_works() {
    let g_alias = Alias {
        alias: "g".to_string(),
        command: "git".to_string(),
        scope: AliasScope::Normal
    };
    assert_eq!(lengthen_command(&"g status".to_string(), &mut vec![g_alias], &mut vec![]), "git status".to_string());
}

#[test]
fn used_by_works() {
    let gst_alias = Alias {
        scope: AliasScope::Normal,
        command: "git status".to_string(),
        alias: "gst".to_string()
    };
    let grep_alias = Alias {
        scope: AliasScope::Global,
        command: "| grep".to_string(),
        alias: "G".to_string()
    };
    let git_alias = Alias {
        scope: AliasScope::Global,
        command: "| grep".to_string(),
        alias: "G".to_string()
    };
    assert!(gst_alias.used_by("h git status -uno").is_none());
    assert!(git_alias.used_by("git-shell").is_none());
    assert!(grep_alias.used_by("git status | grep changed").is_some());
    assert!(grep_alias.used_by("git status | ag grepping ").is_none());
}

#[test]
fn use_in_works() {
    let alias = Alias {
        scope: AliasScope::Normal,
        command: "git status".to_string(),
        alias: "gst".to_string()
    };
    assert_eq!(alias.used_by("git status -uno"), Some(0))
}

#[test]
fn parse_alias_declarations_works() {
    let pu_test = ("alias pu=pushd", Alias {
        scope: AliasScope::Normal,
        alias: "pu".to_string(),
        command: "pushd".to_string()
    });
    let g_test = ("alias -g G='| grep'", Alias {
        scope: AliasScope::Global,
        alias: "G".to_string(),
        command: "| grep".to_string()
    });
    let grep_test = ("alias grep='grep --color=auto'", Alias {
        scope: AliasScope::Normal,
        alias: "grep".to_string(),
        command: "grep --color=auto".to_string()
    });
    let test_cases = vec![pu_test, g_test, grep_test];
    let test_declaration = |declaration: &String, desired: &Alias| {
        let aliases = parse_alias_declarations(declaration.split("\n").collect());
        assert!(aliases.len() != 0);
        assert_eq!(aliases.get(0).unwrap(), desired);
    };
    for test_case in test_cases {
        let (declaration, desired) = test_case;
        test_declaration(&declaration.to_string(), &desired);
    }
}

fn alias(scope: AliasScope, alias: &str, command: &str) -> Alias {
    Alias { scope, alias: alias.to_string(), command: command.to_string() }
}

#[test]
fn use_in_replaces_every_use() {
    let a = alias(AliasScope::Global, "G", "| grep");
    assert_eq!(a.use_in(&"ls | grep x | grep y".to_string()), "ls G x G y".to_string());
}

#[test]
fn use_in_normal_only_at_start() {
    let a = alias(AliasScope::Normal, "g", "git");
    assert_eq!(a.use_in(&"git status".to_string()), "g status".to_string());
    assert_eq!(a.use_in(&"echo git".to_string()), "echo git".to_string());
}

#[test]
fn reverse_use_in_replaces_once() {
    let a = alias(AliasScope::Global, "G", "| grep");
    assert_eq!(a.reverse_use_in(&"ls G x G".to_string()), "ls | grep x G".to_string());
    let n = alias(AliasScope::Normal, "g", "git");
    assert_eq!(n.reverse_use_in(&"echo g".to_string()), "echo g".to_string());
}

#[test]
fn fmt_for_feedback_marks_global() {
    assert_eq!(alias(AliasScope::Normal, "g", "git").fmt_for_feedback(), "g -> git".to_string());
    assert_eq!(alias(AliasScope::Global, "G", "| grep").fmt_for_feedback(), "G -> | grep (GLOBAL) ".to_string());
}

#[test]
fn shorten_command_picks_greatest_gain() {
    let aliases = vec![
        alias(AliasScope::Normal, "g", "git"),
        alias(AliasScope::Normal, "gst", "git status"),
    ];
    let mut used = vec![];
    let r = shorten_command(&"git status -uno".to_string(), &aliases, &mut used);
    assert_eq!(r, "gst -uno".to_string());
    assert_eq!(used, vec![alias(AliasScope::Normal, "gst", "git status")]);
}

#[test]
fn shorten_command_ties_go_to_the_last() {
    let aliases = vec![
        alias(AliasScope::Normal, "ga", "git"),
        alias(AliasScope::Normal, "gb", "git"),
    ];
    let mut used = vec![];
    let r = shorten_command(&"git x".to_string(), &aliases, &mut used);
    assert_eq!(r, "gb x".to_string());
    assert_eq!(used.len(), 1);
}

#[test]
fn shorten_command_chains_aliases() {
    let aliases = vec![
        alias(AliasScope::Global, "G", "| grep"),
        alias(AliasScope::Normal, "l", "ls -la"),
    ];
    let mut used = vec![];
    let r = shorten_command(&"ls -la | grep foo".to_string(), &aliases, &mut used);
    assert_eq!(r, "l G foo".to_string());
    assert_eq!(used.len(), 2);
}

#[test]
fn shorten_command_without_match_keeps_command() {
    let aliases = vec![alias(AliasScope::Normal, "g", "git")];
    let mut used = vec![];
    assert_eq!(shorten_command(&"ls".to_string(), &aliases, &mut used), "ls".to_string());
    assert!(used.is_empty());
}

#[test]
fn lengthen_command_uses_each_alias_once() {
    let aliases = vec![alias(AliasScope::Global, "G", "| grep")];
    let mut used = vec![];
    let r = lengthen_command(&"ls G a G b".to_string(), &aliases, &mut used);
    assert_eq!(r, "ls | grep a G b".to_string());
    assert_eq!(used.len(), 1);
}

#[test]
fn lengthen_command_appends_to_used() {
    let aliases = vec![alias(AliasScope::Normal, "g", "git")];
    let mut used = vec![alias(AliasScope::Normal, "x", "y")];
    lengthen_command(&"g log".to_string(), &aliases, &mut used);
    assert_eq!(used, vec![alias(AliasScope::Normal, "x", "y"), alias(AliasScope::Normal, "g", "git")]);
}

#[test]
fn parse_skips_lines_without_equals() {
    let aliases = parse_alias_declarations(vec!["", "no equals here", "alias l='ls -la'"]);
    assert_eq!(aliases, vec![alias(AliasScope::Normal, "l", "ls -la")]);
}

#[test]
fn parse_strips_two_pairs_of_quotes() {
    let aliases = parse_alias_declarations(vec!["alias x='\"echo hi\"'"]);
    assert_eq!(aliases, vec![alias(AliasScope::Normal, "x", "echo hi")]);
}

#[test]
fn shorten_command_is_idempotent() {
    let aliases = vec![
        alias(AliasScope::Global, "G", "| grep"),
        alias(AliasScope::Normal, "l", "ls -la"),
    ];
    let mut used = vec![];
    let once = shorten_command(&"ls -la | grep foo".to_string(), &aliases, &mut used);
    let mut used_again = vec![];
    let twice = shorten_command(&once, &aliases, &mut used_again);
    assert_eq!(once, twice);
    assert!(used_again.is_empty());
}

#[test]
fn lengthen_command_without_alias_keeps_command() {
    let aliases = vec![alias(AliasScope::Normal, "g", "git")];
    let mut used = vec![];
    let r = lengthen_command(&"ls g".to_string(), &aliases, &mut used);
    assert_eq!(r, "ls g".to_string());
    assert!(used.is_empty());
}

#[test]
fn shortening_undoes_leading_expansion() {
    let a = alias(AliasScope::Normal, "gst", "git status");
    let c = "gst -uno".to_string();
    let expanded = a.reverse_use_in(&c);
    assert_eq!(expanded, "git status -uno".to_string());
    assert_eq!(a.use_in(&expanded), c);
}

#[test]
fn try_use_in_bounds_equal_length_rounds() {
    let a = alias(AliasScope::Global, "G", "| grep");
    assert_eq!(a.try_use_in(&"a | grep b".to_string()), Some("a G b".to_string()));
    let swap = alias(AliasScope::Normal, "ab", "cd");
    assert_eq!(swap.try_use_in(&"cd x".to_string()), Some("ab x".to_string()));
    let bubble = alias(AliasScope::Global, "ba", "ab");
    assert_eq!(bubble.try_use_in(&"ab ab".to_string()), Some("ba ba".to_string()));
    let same = alias(AliasScope::Normal, "ab", "ab");
    assert_eq!(same.try_use_in(&"ab".to_string()), None);
    let longer = alias(AliasScope::Normal, "abc", "ab");
    assert_eq!(longer.try_use_in(&"ab".to_string()), None);
}
