//! The argument list handed to the GitHub CLI to open the pull request.
use vstd::prelude::*;

use crate::text::{chars_of, join, join_chars, string_of, views};

verus! {

/// The views of a sequence of strings.
pub open spec fn string_views(v: Seq<String>) -> Seq<Seq<char>> {
    v.map_values(|s: String| s@)
}

/// The arguments of `gh` for a pull request: assigned to the current user,
/// with its title, body and target branch; then `-l` and the labels joined
/// with commas where that text is not empty; `-d` for a draft; the extra
/// arguments; and last `--dry-run` for a dry run.
pub open spec fn gh_args_of(
    title: Seq<char>,
    body: Seq<char>,
    target: Seq<char>,
    labels: Seq<Seq<char>>,
    draft: bool,
    dry_run: bool,
    extra: Seq<Seq<char>>,
) -> Seq<Seq<char>> {
    let base = seq![
        "pr"@,
        "create"@,
        "-a"@,
        "@me"@,
        "-t"@,
        title,
        "--body"@,
        body,
        "-B"@,
        target,
    ];
    let joined = join(labels, seq![',']);
    let with_labels = if joined.len() > 0 {
        base + seq!["-l"@, joined]
    } else {
        base
    };
    let with_draft = if draft {
        with_labels.push("-d"@)
    } else {
        with_labels
    };
    let all = with_draft + extra;
    if dry_run {
        all.push("--dry-run"@)
    } else {
        all
    }
}

/// Appends a copy of `s`.
fn push_str(v: &mut Vec<String>, s: &str)
    ensures
        string_views(final(v)@) == string_views(old(v)@).push(s@),
{
    let ghost prev = v@;
    v.push(String::from_str(s));
    assert(string_views(v@) =~= string_views(prev).push(s@));
}

/// The arguments of `gh`, as `gh_args_of` describes them.
pub fn gh_args(
    title: &str,
    body: &str,
    target: &str,
    labels: &Vec<String>,
    draft: bool,
    dry_run: bool,
    extra: &Vec<String>,
) -> (r: Vec<String>)
    ensures
        string_views(r@) == gh_args_of(
            title@,
            body@,
            target@,
            string_views(labels@),
            draft,
            dry_run,
            string_views(extra@),
        ),
{
    let mut args: Vec<String> = Vec::new();
    push_str(&mut args, "pr");
    push_str(&mut args, "create");
    push_str(&mut args, "-a");
    push_str(&mut args, "@me");
    push_str(&mut args, "-t");
    push_str(&mut args, title);
    push_str(&mut args, "--body");
    push_str(&mut args, body);
    push_str(&mut args, "-B");
    push_str(&mut args, target);
    let mut parts: Vec<Vec<char>> = Vec::new();
    let mut i: usize = 0;
    while i < labels.len()
        invariant
            i <= labels.len(),
            views(parts@) == string_views(labels@).subrange(0, i as int),
        decreases labels.len() - i,
    {
        let ghost prev = parts@;
        parts.push(chars_of(labels[i].as_str()));
        assert(views(parts@) =~= views(prev).push(labels@[i as int]@));
        i += 1;
        assert(views(parts@) =~= string_views(labels@).subrange(0, i as int));
    }
    assert(string_views(labels@).subrange(0, i as int) =~= string_views(labels@));
    let comma = vec![','];
    assert(comma@ =~= seq![',']);
    let joined = join_chars(&parts, 0, &comma);
    assert(views(parts@).skip(0) =~= views(parts@));
    if joined.len() > 0 {
        push_str(&mut args, "-l");
        push_str(&mut args, string_of(&joined).as_str());
    }
    if draft {
        push_str(&mut args, "-d");
    }
    let ghost before = string_views(args@);
    let mut j: usize = 0;
    while j < extra.len()
        invariant
            j <= extra.len(),
            string_views(args@) == before + string_views(extra@).subrange(0, j as int),
        decreases extra.len() - j,
    {
        push_str(&mut args, extra[j].as_str());
        j += 1;
        assert(string_views(extra@).subrange(0, j as int) =~= string_views(extra@).subrange(
            0,
            j - 1,
        ).push(extra@[j - 1]@));
    }
    assert(string_views(extra@).subrange(0, j as int) =~= string_views(extra@));
    if dry_run {
        push_str(&mut args, "--dry-run");
    }
    args
}

} // verus!
