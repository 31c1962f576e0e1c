use pr_creator::request::gh_args;

fn strings(items: &[&str]) -> Vec<String> {
    items.iter().map(|s| s.to_string()).collect()
}

#[test]
fn gh_args_plain_request() {
    let args = gh_args("T", "B", "main", &Vec::new(), false, false, &Vec::new());
    assert_eq!(
        args,
        strings(&["pr", "create", "-a", "@me", "-t", "T", "--body", "B", "-B", "main"])
    );
}

#[test]
fn gh_args_with_labels_draft_extra_and_dry_run() {
    let labels = strings(&["bug", "docs"]);
    let extra = strings(&["--web"]);
    let args = gh_args("T", "B", "dev", &labels, true, true, &extra);
    assert_eq!(
        args,
        strings(&[
            "pr", "create", "-a", "@me", "-t", "T", "--body", "B", "-B", "dev", "-l",
            "bug,docs", "-d", "--web", "--dry-run",
        ])
    );
}

#[test]
fn gh_args_skips_empty_label_text() {
    let labels = strings(&[""]);
    let args = gh_args("T", "B", "main", &labels, false, false, &Vec::new());
    assert_eq!(args.len(), 10);
}
