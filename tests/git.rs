use pr_creator::config::{Branches, Commits, Config, Labels, Template, Title};
use pr_creator::errors::ScriptErrors;
use pr_creator::git::{
    get_commit_body, get_pr_labels, get_pr_title, get_target_branch, labels_for_lowered,
    normalize_commits, target_for_lowered,
};

fn pairs(items: &[(&str, &str)]) -> Vec<(String, String)> {
    items.iter().map(|(k, v)| (k.to_string(), v.to_string())).collect()
}

fn test_config() -> Config {
    let jira_prefixes = pairs(&[("htp20", "[HTP20-{ticket_number}] {ticket_name}")]);
    let prefixes = pairs(&[("hotfix", "HOTFIX: ")]);

    Config {
        branches: Branches {
            default: "main".to_string(),
            includes: Vec::new(),
        },
        title: Title {
            jira_prefixes,
            prefixes,
        },
        template: Template {
            path: ".github/PULL_REQUEST_TEMPLATE.md".to_string(),
        },
        labels: Labels {
            default: vec!["bug".to_string(), "enhancement".to_string()],
            includes: Vec::new(),
        },
        commits: Commits {
            prefixes: Vec::new(),
        },
        draft: false,
        dry_run: false,
    }
}

fn commit_config() -> Config {
    let mut config = test_config();
    config.commits.prefixes = pairs(&[("feat", "Feature:"), ("fix", "Fix:")]);
    config
}

// The ticket name keeps the case of the branch name.
#[test]
fn test_get_pr_title() {
    let config = test_config();
    let branch_name = "htp20-123-test-title-jira-prefix";
    let pr_title = get_pr_title(&branch_name, &config);
    assert_eq!(pr_title, "[HTP20-123] test title jira prefix");
}

// Prefixes are looked up with case folded, and the pieces keep their case.
#[test]
fn test_get_pr_title_case_insensitive() {
    let config = test_config();
    let branch_name = "HTP20-123-TEST-TITLE-JIRA-PREFIX";
    let pr_title = get_pr_title(&branch_name, &config);
    assert_eq!(pr_title, "[HTP20-123] TEST TITLE JIRA PREFIX");
}

#[test]
fn test_get_pr_title_without_prefix() {
    let config = test_config();
    let branch_name = "random-branch-name";
    let pr_title = get_pr_title(&branch_name, &config);
    assert_eq!(pr_title, "Random Branch Name");
}

#[test]
fn test_get_pr_title_single_word() {
    let config = test_config();
    let branch_name = "singleword";
    let pr_title = get_pr_title(&branch_name, &config);
    assert_eq!(pr_title, "Singleword");
}

#[test]
fn test_get_pr_title_empty_branch() {
    let config = test_config();
    let branch_name = "";
    let pr_title = get_pr_title(&branch_name, &config);
    assert_eq!(pr_title, "");
}

// The prefix is replaced by its text, and every `-` after it becomes a space.
#[test]
fn test_get_pr_title_with_prefix() {
    let config = test_config();
    let branch_name = "hotfix-test-title-jira-prefix";
    let pr_title = get_pr_title(&branch_name, &config);
    assert_eq!(pr_title, "HOTFIX:  test title jira prefix");
}

#[test]
fn ticket_prefix_fills_template() {
    let mut config = test_config();
    config.title.jira_prefixes = pairs(&[("p", "[X-{ticket_number}] {ticket_name}")]);
    assert_eq!(get_pr_title("p-123-a-b-c", &config), "[X-123] a b c");
    assert_eq!(get_pr_title("p-123-A-b", &config), "[X-123] A b");
}

#[test]
fn ticket_prefix_without_number_capitalises() {
    let mut config = test_config();
    config.title.jira_prefixes = pairs(&[("p", "[X-{ticket_number}] {ticket_name}")]);
    assert_eq!(get_pr_title("p", &config), "P");
}

#[test]
fn plain_prefix_replaced() {
    let mut config = test_config();
    config.title.prefixes = pairs(&[("p", "R")]);
    assert_eq!(get_pr_title("p-a-b", &config), "R a b");
    assert_eq!(get_pr_title("p-A-b", &config), "R A b");
}

#[test]
fn unknown_prefix_capitalises_each_piece() {
    let config = test_config();
    assert_eq!(get_pr_title("a-b-c", &config), "A B C");
    assert_eq!(get_pr_title("a--c", &config), "A  C");
}

#[test]
fn target_branch_by_substring() {
    let mut config = test_config();
    config.branches.includes = pairs(&[("release", "stable"), ("feat", "develop")]);
    assert_eq!(get_target_branch(&"my-feat-x".to_string(), &config), "develop");
    assert_eq!(get_target_branch(&"FEAT-upper".to_string(), &config), "develop");
    assert_eq!(get_target_branch(&"release-feat".to_string(), &config), "stable");
    assert_eq!(get_target_branch(&"chore-x".to_string(), &config), "main");
}

#[test]
fn target_branch_key_case_is_folded() {
    let mut config = test_config();
    config.branches.includes = pairs(&[("Release", "release")]);
    assert_eq!(get_target_branch(&"release-1.2".to_string(), &config), "release");
    assert_eq!(target_for_lowered("hotfix-2", &config), "main");
}

#[test]
fn labels_key_case_is_folded() {
    let mut config = test_config();
    config.labels.default = Vec::new();
    config.labels.includes = vec![("Docs".to_string(), vec!["documentation".to_string()])];
    assert_eq!(
        get_pr_labels(&config, &"docs-readme".to_string()),
        vec!["documentation"]
    );
    assert_eq!(labels_for_lowered(&config, "docs"), vec!["documentation"]);
}

#[test]
fn labels_extend_defaults() {
    let mut config = test_config();
    config.labels.includes = vec![
        ("fix".to_string(), vec!["hotfix".to_string(), "bug".to_string()]),
        ("docs".to_string(), vec!["documentation".to_string()]),
    ];
    assert_eq!(
        get_pr_labels(&config, &"Fix-login".to_string()),
        vec!["bug", "enhancement", "hotfix", "bug"]
    );
    assert_eq!(
        get_pr_labels(&config, &"chore".to_string()),
        vec!["bug", "enhancement"]
    );
}

#[test]
fn commit_body_without_commits() {
    let config = commit_config();
    let body = get_commit_body(&config, "Changes:\n{LIST_COMMITS}\nEnd", "").unwrap();
    assert_eq!(body, "Changes:\n\nEnd");
    let body = get_commit_body(&config, "{LIST_COMMITS}", "a1 chore: nothing\n").unwrap();
    assert_eq!(body, "");
}

#[test]
fn commit_body_needs_placeholder() {
    let config = commit_config();
    let r = get_commit_body(&config, "no list here", "a1 feat: add x\n");
    assert!(matches!(r, Err(ScriptErrors::ConfigError(_))));
    let r = get_commit_body(&config, "", "");
    assert!(matches!(r, Err(ScriptErrors::ConfigError(_))));
}

#[test]
fn commit_body_lists_sorted_commits() {
    let config = commit_config();
    let log = "a1 fix: second fix\nb2 feat(api): add endpoint\nc3 chore: tidy\nd4 fix: first fix\n";
    let body = get_commit_body(&config, "## Commits\n{LIST_COMMITS}", log).unwrap();
    assert_eq!(
        body,
        "## Commits\n- Feature: Add endpoint\n- Fix: First fix\n- Fix: Second fix"
    );
}

#[test]
fn commit_lines_lose_escape_sequences() {
    let config = commit_config();
    let log = "a1 feat: \u{1b}[31madd\u{1b}[0m colour\r\n";
    let lines = normalize_commits(log, &config.commits.prefixes).unwrap();
    assert_eq!(lines, vec!["feat: add colour".to_string()]);
    let body = get_commit_body(&config, "{LIST_COMMITS}", log).unwrap();
    assert_eq!(body, "- Feature: Add colour");
    assert!(!body.contains('\u{1b}'));
}

#[test]
fn normalize_drops_hash_and_scope() {
    let rules = pairs(&[("feat", "Feature:")]);
    let lines = normalize_commits("a1b2c3 feat(api): add endpoint", &rules).unwrap();
    assert_eq!(lines, vec!["feat: add endpoint".to_string()]);
}

#[test]
fn normalize_keeps_chronological_order_within_prefix() {
    let rules = pairs(&[("feat", "Feature:")]);
    let log = "c3 feat: second\n\nb2 chore: tidy\na1 feat: first";
    let lines = normalize_commits(log, &rules).unwrap();
    assert_eq!(lines, vec!["feat: first".to_string(), "feat: second".to_string()]);
}

#[test]
fn normalize_orders_by_prefix_not_shown_text() {
    let rules = pairs(&[("b", "A:"), ("a", "Z:")]);
    let lines = normalize_commits("x1 b: one\nx2 a: two\n", &rules).unwrap();
    assert_eq!(lines, vec!["a: two".to_string(), "b: one".to_string()]);
}

#[test]
fn normalize_takes_longest_prefix() {
    let rules = pairs(&[("fix", "Fix:"), ("hotfix", "Hotfix:")]);
    let lines = normalize_commits("a1 hotfix: crash", &rules).unwrap();
    assert_eq!(lines, vec!["hotfix: crash".to_string()]);
}

#[test]
fn commit_body_separates_shown_text_and_message() {
    let config = commit_config();
    let log = "c3 fix: Second\nb2 feat(auth): Login\na1 fix: First\n";
    let body = get_commit_body(&config, "## Changes\n{LIST_COMMITS}", log).unwrap();
    assert_eq!(body, "## Changes\n- Feature: Login\n- Fix: First\n- Fix: Second");
}

#[test]
fn invalid_commit_prefix_is_config_error() {
    let mut config = commit_config();
    config.commits.prefixes = pairs(&[("(", "Broken: ")]);
    let r = normalize_commits("a1 (: x\n", &config.commits.prefixes);
    assert!(matches!(r, Err(ScriptErrors::ConfigError(_))));
    let r = get_commit_body(&config, "{LIST_COMMITS}", "");
    assert!(matches!(r, Err(ScriptErrors::ConfigError(_))));
}

#[test]
fn plain_prefix_case_is_folded() {
    let mut config = test_config();
    config.title.prefixes = pairs(&[("Hotfix", "HOTFIX:")]);
    assert_eq!(get_pr_title("hotfix-a-b", &config), "HOTFIX: a b");
}

#[test]
fn bullet_keeps_replacement_as_configured() {
    let mut config = commit_config();
    config.commits.prefixes = pairs(&[("feat", " Feature:")]);
    let body = get_commit_body(&config, "{LIST_COMMITS}", "a1 feat: login\n").unwrap();
    assert_eq!(body, "-  Feature: Login");
}

#[test]
fn nested_escape_sequences_leave_nothing() {
    let config = commit_config();
    let log = "a1 feat: x\u{1b}\u{1b}[0m[0my\n";
    let lines = normalize_commits(log, &config.commits.prefixes).unwrap();
    assert_eq!(lines, vec!["feat: xy".to_string()]);
    let body = get_commit_body(&config, "{LIST_COMMITS}", log).unwrap();
    assert_eq!(body, "- Feature: Xy");
}
