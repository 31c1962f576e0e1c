//! The derivations made from a branch name: the pull-request title, the
//! target branch, the labels, and the body listing the commits.
use vstd::prelude::*;

use crate::commits::{
    build_commit_pattern, collect_entries, commit_bullets, commit_lines, commit_pattern,
    entries_of, entry_of, entry_views, lines_of, log_lines, sort_by_key, sort_entries,
    sorted_entries, Entry, EntryView,
};
use crate::config::{lookup, lookup_rule, Config};
use crate::errors::ScriptErrors;
use crate::pattern::{check_pattern, leftmost_match, regex_accepts, regex_error_text};
use crate::text::{
    chars_of, contains, contains_chars, extend_chars, join, join_chars, lemma_split_first_len,
    replace_all, replace_all_chars, replace_char, replace_char_chars, split_chars, split_on,
    string_of, views,
};
use crate::utils::{ansi_pattern, capitalize_word, capitalized, lower_of, lowercase, ANSI_ESCAPE};

verus! {

/// The placeholder for the ticket number in a ticket-style title template.
pub open spec fn ticket_number_mark() -> Seq<char> {
    "{ticket_number}"@
}

/// The placeholder for the ticket name in a ticket-style title template.
pub open spec fn ticket_name_mark() -> Seq<char> {
    "{ticket_name}"@
}

/// Every word capitalised, joined with single spaces.
pub open spec fn capitalized_words(parts: Seq<Seq<char>>) -> Seq<char> {
    join(parts.map_values(|p: Seq<char>| capitalized(p)), seq![' '])
}

/// The title derived from `branch`.
///
/// The branch name is cut at each `-`; the first piece is its prefix, which
/// is looked up among the rules' keys with case folded on both sides.
/// - A ticket-style prefix, followed by at least one more piece, fills its
///   template: the second piece is the ticket number, the pieces after it,
///   joined with spaces, are the ticket name.
/// - Otherwise a plain prefix is replaced by its text where it opens the
///   branch name, and every `-` of the result becomes a space.
/// - Otherwise every piece is capitalised and the pieces are joined with
///   spaces.
pub open spec fn title_of(
    branch: Seq<char>,
    jira: Seq<(String, String)>,
    plain: Seq<(String, String)>,
) -> Seq<char> {
    let parts = split_on(branch, '-');
    let start = parts[0];
    if lookup(jira, start) is Some {
        if parts.len() > 1 {
            replace_all(
                replace_all(lookup(jira, start)->Some_0, ticket_number_mark(), parts[1]),
                ticket_name_mark(),
                join(parts.skip(2), seq![' ']),
            )
        } else {
            capitalized_words(parts)
        }
    } else if lookup(plain, start) is Some {
        replace_char(lookup(plain, start)->Some_0 + branch.skip(start.len() as int), '-', ' ')
    } else {
        capitalized_words(parts)
    }
}

/// Every piece capitalised, joined with single spaces.
fn capitalize_all(parts: &Vec<Vec<char>>) -> (r: Vec<char>)
    ensures
        r@ == capitalized_words(views(parts@)),
{
    let ghost caps = views(parts@).map_values(|p: Seq<char>| capitalized(p));
    let mut r: Vec<char> = Vec::new();
    let mut i: usize = 0;
    while i < parts.len()
        invariant
            i <= parts.len(),
            caps == views(parts@).map_values(|p: Seq<char>| capitalized(p)),
            r@ == join(caps.subrange(0, i as int), seq![' ']),
        decreases parts.len() - i,
    {
        let word = string_of(&parts[i]);
        let cap = match capitalize_word(word.as_str()) {
            Ok(w) => chars_of(w.as_str()),
            Err(_) => parts[i].clone(),
        };
        assert(cap@ == caps[i as int]);
        if i > 0 {
            r.push(' ');
        }
        extend_chars(&mut r, &cap);
        assert(caps.subrange(0, i + 1).drop_last() =~= caps.subrange(0, i as int));
        i += 1;
        assert(r@ =~= join(caps.subrange(0, i as int), seq![' ']));
    }
    assert(caps.subrange(0, i as int) =~= caps);
    r
}

/// The pull-request title for `branch_name`, as `title_of` describes it.
pub fn get_pr_title(branch_name: &str, config: &Config) -> (r: String)
    ensures
        r@ == title_of(branch_name@, config.title.jira_prefixes@, config.title.prefixes@),
{
    let chars = chars_of(branch_name);
    let parts = split_chars(&chars, '-');
    proof {
        lemma_split_first_len(chars@, '-');
    }
    let start = string_of(&parts[0]);
    match lookup_rule(&config.title.jira_prefixes, &start) {
        Some(template) => {
            if parts.len() > 1 {
                let number_mark = chars_of("{ticket_number}");
                let name_mark = chars_of("{ticket_name}");
                let space = vec![' '];
                assert(space@ =~= seq![' ']);
                let name = join_chars(&parts, 2, &space);
                let t = chars_of(template.as_str());
                let t = replace_all_chars(&t, &number_mark, &parts[1]);
                let t = replace_all_chars(&t, &name_mark, &name);
                assert(views(parts@)[1] == parts[1]@);
                return string_of(&t);
            }
        },
        None => {
            if let Some(rep) = lookup_rule(&config.title.prefixes, &start) {
                let mut t = chars_of(rep.as_str());
                let mut k: usize = parts[0].len();
                assert(views(parts@)[0] == parts[0]@);
                while k < chars.len()
                    invariant
                        parts.len() > 0,
                        parts[0]@.len() <= k <= chars.len(),
                        t@ == rep@ + chars@.subrange(parts[0]@.len() as int, k as int),
                    decreases chars.len() - k,
                {
                    t.push(chars[k]);
                    k += 1;
                }
                assert(chars@.subrange(parts[0]@.len() as int, k as int) =~= chars@.skip(
                    parts[0]@.len() as int,
                ));
                return string_of(&replace_char_chars(&t, '-', ' '));
            }
        },
    }
    string_of(&capitalize_all(&parts))
}

/// The value of the first rule whose lower-cased key occurs in `text`.
pub open spec fn first_within(rules: Seq<(String, String)>, text: Seq<char>) -> Option<Seq<char>>
    decreases rules.len(),
{
    if rules.len() == 0 {
        None
    } else if contains(text, lower_of(rules[0].0@)) {
        Some(rules[0].1@)
    } else {
        first_within(rules.drop_first(), text)
    }
}

/// The target branch for `branch`: the value of the first rule whose key
/// occurs in the branch name, both lower-cased; else the default.
pub open spec fn target_of(
    branch: Seq<char>,
    includes: Seq<(String, String)>,
    default: Seq<char>,
) -> Seq<char> {
    match first_within(includes, lower_of(branch)) {
        Some(target) => target,
        None => default,
    }
}

/// The labels that the rules add for `text`: for each rule in order whose
/// lower-cased key occurs in `text`, all of its labels.
pub open spec fn added_labels(rules: Seq<(String, Vec<String>)>, text: Seq<char>) -> Seq<String>
    decreases rules.len(),
{
    if rules.len() == 0 {
        Seq::empty()
    } else {
        let head = if contains(text, lower_of(rules[0].0@)) {
            rules[0].1@
        } else {
            Seq::empty()
        };
        head + added_labels(rules.drop_first(), text)
    }
}

/// The labels for `branch`: the default labels followed by those that the
/// rules add for the lower-cased branch name.
pub open spec fn labels_of(
    branch: Seq<char>,
    default: Seq<String>,
    includes: Seq<(String, Vec<String>)>,
) -> Seq<String> {
    default + added_labels(includes, lower_of(branch))
}

/// The branch that the pull request for `branch_name` targets, as
/// `target_of` describes it.
pub fn get_target_branch(branch_name: &String, config: &Config) -> (r: String)
    ensures
        r@ == target_of(branch_name@, config.branches.includes@, config.branches.default@),
{
    let lowered = lowercase(branch_name.as_str());
    target_for_lowered(lowered.as_str(), config)
}

/// The target branch for a branch name that is already lower-cased: the
/// value of the first rule whose lower-cased key occurs in it, else the
/// default.
pub fn target_for_lowered(lowered: &str, config: &Config) -> (r: String)
    ensures
        r@ == match first_within(config.branches.includes@, lowered@) {
            Some(target) => target,
            None => config.branches.default@,
        },
{
    let text = chars_of(lowered);
    let rules = &config.branches.includes;
    let mut i: usize = 0;
    assert(rules@.skip(0) =~= rules@);
    while i < rules.len()
        invariant
            i <= rules.len(),
            text@ == lowered@,
            rules@ == config.branches.includes@,
            first_within(rules@.skip(i as int), text@) == first_within(rules@, text@),
        decreases rules.len() - i,
    {
        assert(rules@.skip(i as int).drop_first() =~= rules@.skip(i + 1));
        let key = chars_of(lowercase(rules[i].0.as_str()).as_str());
        assert(rules@.skip(i as int)[0] == rules@[i as int]);
        if contains_chars(&text, &key) {
            let target = rules[i].1.clone();
            assert(first_within(rules@.skip(i as int), text@) == Some(target@));
            return target;
        }
        i += 1;
    }
    config.branches.default.clone()
}

/// The labels for `branch_name`, as `labels_of` describes them; duplicates
/// are kept.
pub fn get_pr_labels(config: &Config, branch_name: &String) -> (r: Vec<String>)
    ensures
        r@ == labels_of(branch_name@, config.labels.default@, config.labels.includes@),
{
    let lowered = lowercase(branch_name.as_str());
    labels_for_lowered(config, lowered.as_str())
}

/// The labels for a branch name that is already lower-cased: the default
/// labels, then the labels of each rule whose lower-cased key occurs in it.
pub fn labels_for_lowered(config: &Config, lowered: &str) -> (r: Vec<String>)
    ensures
        r@ == config.labels.default@ + added_labels(config.labels.includes@, lowered@),
{
    let mut labels: Vec<String> = Vec::new();
    let mut d: usize = 0;
    while d < config.labels.default.len()
        invariant
            d <= config.labels.default.len(),
            labels@ == config.labels.default@.subrange(0, d as int),
        decreases config.labels.default.len() - d,
    {
        labels.push(config.labels.default[d].clone());
        d += 1;
    }
    assert(config.labels.default@.subrange(0, d as int) =~= config.labels.default@);
    let text = chars_of(lowered);
    let rules = &config.labels.includes;
    let ghost want = config.labels.default@ + added_labels(config.labels.includes@, lowered@);
    let mut i: usize = 0;
    assert(rules@.skip(0) =~= rules@);
    assert(labels@ + added_labels(rules@.skip(0), text@) =~= want);
    while i < rules.len()
        invariant
            i <= rules.len(),
            text@ == lowered@,
            want == config.labels.default@ + added_labels(config.labels.includes@, lowered@),
            rules@ == config.labels.includes@,
            labels@ + added_labels(rules@.skip(i as int), text@) == want,
        decreases rules.len() - i,
    {
        assert(rules@.skip(i as int).drop_first() =~= rules@.skip(i + 1));
        assert(rules@.skip(i as int)[0] == rules@[i as int]);
        let key = chars_of(lowercase(rules[i].0.as_str()).as_str());
        if contains_chars(&text, &key) {
            let extra = &rules[i].1;
            let ghost before = labels@;
            let mut j: usize = 0;
            while j < extra.len()
                invariant
                    j <= extra.len(),
                    labels@ == before + extra@.subrange(0, j as int),
                decreases extra.len() - j,
            {
                labels.push(extra[j].clone());
                j += 1;
            }
            assert(extra@.subrange(0, j as int) =~= extra@);
            assert(labels@ + added_labels(rules@.skip(i + 1), text@) =~= before + added_labels(
                rules@.skip(i as int),
                text@,
            ));
        } else {
            assert(added_labels(rules@.skip(i as int), text@) =~= added_labels(
                rules@.skip(i + 1),
                text@,
            ));
        }
        i += 1;
    }
    assert(labels@ + added_labels(rules@.skip(i as int), text@) =~= labels@);
    labels
}

/// The placeholder of the body template that the commit list replaces.
pub open spec fn list_mark() -> Seq<char> {
    "{LIST_COMMITS}"@
}

/// The pull-request body, or `None` where it cannot be made: a pattern that
/// does not compile, or a template without the placeholder. Otherwise the
/// placeholder is replaced by the bulleted commit lines, one per line.
pub open spec fn commit_body_of(
    template: Seq<char>,
    log: Seq<char>,
    rules: Seq<(String, String)>,
) -> Option<Seq<char>> {
    if regex_accepts(commit_pattern(rules)) && regex_accepts(ansi_pattern()) && contains(
        template,
        list_mark(),
    ) {
        Some(replace_all(template, list_mark(), join(commit_bullets(log, rules), seq!['\n'])))
    } else {
        None
    }
}

/// The kept commits of a one-line log, ordered by prefix (see
/// `sorted_entries`); an error where a pattern does not compile.
fn commit_entries(commits: &str, rules: &Vec<(String, String)>) -> (r: Result<
    Vec<Entry>,
    ScriptErrors,
>)
    ensures
        r is Ok <==> regex_accepts(commit_pattern(rules@)) && regex_accepts(ansi_pattern()),
        match r {
            Ok(v) => entry_views(v@) == sorted_entries(commits@, rules@),
            Err(e) => e is ConfigError,
        },
{
    let pattern = build_commit_pattern(rules);
    if let Err(e) = check_pattern(pattern.as_str()) {
        let mut m = String::from_str("Failed to compile regex: ");
        m.append(regex_error_text(&e).as_str());
        return Err(ScriptErrors::ConfigError(m));
    }
    if check_pattern(ANSI_ESCAPE).is_err() {
        return Err(
            ScriptErrors::ConfigError(String::from_str("Failed to compile regex to remove ansi codes")),
        );
    }
    let lines = lines_of(&chars_of(commits));
    let entries = collect_entries(&lines, pattern.as_str(), rules);
    Ok(sort_entries(entries))
}

/// The normalised lines `<prefix>: <message>` for the commits of a one-line
/// log, ordered by prefix (see `commit_lines`); an error where a pattern does
/// not compile.
pub fn normalize_commits(commits: &str, rules: &Vec<(String, String)>) -> (r: Result<
    Vec<String>,
    ScriptErrors,
>)
    ensures
        r is Ok <==> regex_accepts(commit_pattern(rules@)) && regex_accepts(ansi_pattern()),
        match r {
            Ok(v) => v@.map_values(|l: String| l@) == commit_lines(commits@, rules@),
            Err(e) => e is ConfigError,
        },
{
    let sorted = match commit_entries(commits, rules) {
        Ok(v) => v,
        Err(e) => return Err(e),
    };
    let ghost want = entry_views(sorted@).map_values(|e: EntryView| e.1);
    let mut out: Vec<String> = Vec::new();
    let mut i: usize = 0;
    while i < sorted.len()
        invariant
            i <= sorted.len(),
            want == entry_views(sorted@).map_values(|e: EntryView| e.1),
            out@.map_values(|l: String| l@) == want.subrange(0, i as int),
        decreases sorted.len() - i,
    {
        let line = string_of(&sorted[i].1);
        assert(entry_views(sorted@)[i as int].1 == sorted@[i as int].1@);
        assert(line@ == want[i as int]);
        let ghost prev = out@;
        out.push(line);
        assert(out@.map_values(|l: String| l@) =~= prev.map_values(|l: String| l@).push(line@));
        i += 1;
        assert(out@.map_values(|l: String| l@) =~= want.subrange(0, i as int));
    }
    assert(want.subrange(0, i as int) =~= want);
    Ok(out)
}

/// The pull-request body made from `template` and the one-line commit log
/// `commit_log`, as `commit_body_of` describes it; every failure is a
/// configuration error.
pub fn get_commit_body(config: &Config, template: &str, commit_log: &str) -> (r: Result<
    String,
    ScriptErrors,
>)
    ensures
        match r {
            Ok(body) => commit_body_of(template@, commit_log@, config.commits.prefixes@) == Some(
                body@,
            ),
            Err(e) => commit_body_of(template@, commit_log@, config.commits.prefixes@) is None
                && e is ConfigError,
        },
{
    let sorted = match commit_entries(commit_log, &config.commits.prefixes) {
        Ok(v) => v,
        Err(e) => return Err(e),
    };
    let ghost bv = entry_views(sorted@).map_values(|e: EntryView| e.2);
    let mut list: Vec<char> = Vec::new();
    let mut i: usize = 0;
    while i < sorted.len()
        invariant
            i <= sorted.len(),
            bv == entry_views(sorted@).map_values(|e: EntryView| e.2),
            list@ == join(bv.subrange(0, i as int), seq!['\n']),
        decreases sorted.len() - i,
    {
        assert(bv.subrange(0, i + 1).drop_last() =~= bv.subrange(0, i as int));
        assert(entry_views(sorted@)[i as int].2 == sorted@[i as int].2@);
        if i > 0 {
            list.push('\n');
        }
        extend_chars(&mut list, &sorted[i].2);
        i += 1;
        assert(list@ =~= join(bv.subrange(0, i as int), seq!['\n']));
    }
    assert(bv.subrange(0, i as int) =~= bv);
    let text = chars_of(template);
    let mark = chars_of("{LIST_COMMITS}");
    if !contains_chars(&text, &mark) {
        return Err(
            ScriptErrors::ConfigError(String::from_str("Commit body does not contain {LIST_COMMITS}")),
        );
    }
    Ok(string_of(&replace_all_chars(&text, &mark, &list)))
}

proof fn lemma_first_within_at(rules: Seq<(String, String)>, text: Seq<char>, i: int)
    requires
        0 <= i < rules.len(),
        contains(text, lower_of(rules[i].0@)),
        forall|j: int| 0 <= j < i ==> !contains(text, lower_of(#[trigger] rules[j].0@)),
    ensures
        first_within(rules, text) == Some(rules[i].1@),
    decreases i,
{
    if i > 0 {
        let t = rules.drop_first();
        assert forall|j: int| 0 <= j < i - 1 implies !contains(text, lower_of(#[trigger] t[j].0@)) by {
            assert(t[j] == rules[j + 1]);
        }
        assert(!contains(text, lower_of(rules[0].0@)));
        lemma_first_within_at(t, text, i - 1);
    }
}

proof fn lemma_first_within_none(rules: Seq<(String, String)>, text: Seq<char>)
    requires
        forall|j: int| 0 <= j < rules.len() ==> !contains(text, lower_of(#[trigger] rules[j].0@)),
    ensures
        first_within(rules, text) is None,
    decreases rules.len(),
{
    if rules.len() > 0 {
        let t = rules.drop_first();
        assert forall|j: int| 0 <= j < t.len() implies !contains(text, lower_of(#[trigger] t[j].0@)) by {
            assert(t[j] == rules[j + 1]);
        }
        assert(!contains(text, lower_of(rules[0].0@)));
        lemma_first_within_none(t, text);
    }
}

/// The target branch is the value of the first rule whose key occurs in the
/// lower-cased branch name; where no key occurs there, it is the default.
pub proof fn lemma_target_branch_choice(
    branch: Seq<char>,
    includes: Seq<(String, String)>,
    default: Seq<char>,
)
    ensures
        forall|i: int|
            0 <= i < includes.len() && contains(lower_of(branch), lower_of(#[trigger] includes[i].0@)) && (
            forall|j: int| 0 <= j < i ==> !contains(lower_of(branch), lower_of(#[trigger] includes[j].0@)))
                ==> target_of(branch, includes, default) == includes[i].1@,
        (forall|j: int|
            0 <= j < includes.len() ==> !contains(lower_of(branch), lower_of(#[trigger] includes[j].0@)))
            ==> target_of(branch, includes, default) == default,
{
    let text = lower_of(branch);
    assert forall|i: int|
        0 <= i < includes.len() && contains(text, lower_of(#[trigger] includes[i].0@)) && (forall|j: int|
            0 <= j < i ==> !contains(text, lower_of(#[trigger] includes[j].0@))) implies target_of(
        branch,
        includes,
        default,
    ) == includes[i].1@ by {
        lemma_first_within_at(includes, text, i);
    }
    if forall|j: int| 0 <= j < includes.len() ==> !contains(text, lower_of(#[trigger] includes[j].0@)) {
        lemma_first_within_none(includes, text);
    }
}

proof fn lemma_added_labels_hold(
    rules: Seq<(String, Vec<String>)>,
    text: Seq<char>,
    i: int,
    k: int,
)
    requires
        0 <= i < rules.len(),
        contains(text, lower_of(rules[i].0@)),
        0 <= k < rules[i].1@.len(),
    ensures
        added_labels(rules, text).contains(rules[i].1@[k]),
    decreases i,
{
    let rest = added_labels(rules.drop_first(), text);
    let head = if contains(text, lower_of(rules[0].0@)) {
        rules[0].1@
    } else {
        Seq::empty()
    };
    assert(added_labels(rules, text) == head + rest);
    if i == 0 {
        assert((head + rest)[k] == rules[0].1@[k]);
    } else {
        assert(rules.drop_first()[i - 1] == rules[i]);
        lemma_added_labels_hold(rules.drop_first(), text, i - 1, k);
        let w = choose|w: int| 0 <= w < rest.len() && rest[w] == rules[i].1@[k];
        assert((head + rest)[head.len() + w] == rules[i].1@[k]);
    }
}

/// The default labels open the label list unchanged, so that the list holds
/// each of them at least as often as the defaults do; and every label of
/// every rule whose key occurs in the lower-cased branch name is in the list.
pub proof fn lemma_labels_cover(
    branch: Seq<char>,
    default: Seq<String>,
    includes: Seq<(String, Vec<String>)>,
)
    ensures
        labels_of(branch, default, includes).subrange(0, default.len() as int) == default,
        labels_of(branch, default, includes).to_multiset() == default.to_multiset().add(
            added_labels(includes, lower_of(branch)).to_multiset(),
        ),
        default.to_multiset().subset_of(labels_of(branch, default, includes).to_multiset()),
        forall|i: int, k: int|
            0 <= i < includes.len() && contains(lower_of(branch), lower_of(includes[i].0@)) && 0 <= k
                < includes[i].1@.len() ==> labels_of(branch, default, includes).contains(
                #[trigger] includes[i].1@[k],
            ),
{
    broadcast use vstd::multiset::group_multiset_axioms;

    let text = lower_of(branch);
    let added = added_labels(includes, text);
    let all = labels_of(branch, default, includes);
    assert(all.subrange(0, default.len() as int) =~= default);
    vstd::seq_lib::lemma_multiset_commutative(default, added);
    assert forall|i: int, k: int|
        0 <= i < includes.len() && contains(text, lower_of(includes[i].0@)) && 0 <= k
            < includes[i].1@.len() implies all.contains(#[trigger] includes[i].1@[k]) by {
        lemma_added_labels_hold(includes, text, i, k);
        let w = choose|w: int| 0 <= w < added.len() && added[w] == includes[i].1@[k];
        assert(all[default.len() + w] == includes[i].1@[k]);
    }
}

proof fn lemma_no_entries(lines: Seq<Seq<char>>, pattern: Seq<char>, rules: Seq<(String, String)>)
    requires
        forall|i: int| 0 <= i < lines.len() ==> leftmost_match(pattern, #[trigger] lines[i]) is None,
    ensures
        entries_of(lines, pattern, rules).len() == 0,
    decreases lines.len(),
{
    if lines.len() > 0 {
        let t = lines.skip(1);
        assert forall|i: int| 0 <= i < t.len() implies leftmost_match(
            pattern,
            #[trigger] t[i],
        ) is None by {
            assert(t[i] == lines[i + 1]);
        }
        lemma_no_entries(t, pattern, rules);
        assert(leftmost_match(pattern, lines[0]) is None);
        assert(entry_of(lines[0], pattern, rules) is None);
    }
}

/// Where no line of the commit log matches the commit pattern (an empty log,
/// for one), the body is the template with the placeholder replaced by
/// nothing, as long as both patterns compile.
pub proof fn lemma_body_without_commits(
    template: Seq<char>,
    log: Seq<char>,
    rules: Seq<(String, String)>,
)
    requires
        regex_accepts(commit_pattern(rules)),
        regex_accepts(ansi_pattern()),
        contains(template, list_mark()),
        forall|i: int|
            0 <= i < log_lines(log).len() ==> leftmost_match(
                commit_pattern(rules),
                #[trigger] log_lines(log)[i],
            ) is None,
    ensures
        commit_body_of(template, log, rules) == Some(
            replace_all(template, list_mark(), Seq::empty()),
        ),
{
    let entries = entries_of(log_lines(log), commit_pattern(rules), rules);
    lemma_no_entries(log_lines(log), commit_pattern(rules), rules);
    assert(sort_by_key(entries) == entries);
    assert(commit_bullets(log, rules) =~= Seq::<Seq<char>>::empty());
}

/// A template without the placeholder gives no body, whatever the commits
/// are (`get_commit_body` then fails with a configuration error).
pub proof fn lemma_body_needs_placeholder(
    template: Seq<char>,
    log: Seq<char>,
    rules: Seq<(String, String)>,
)
    requires
        !contains(template, list_mark()),
    ensures
        commit_body_of(template, log, rules) is None,
{
}

/// An empty branch name gives an empty title, unless a plain prefix rule has
/// the empty key (its text would then be the title).
pub proof fn lemma_empty_branch_title(jira: Seq<(String, String)>, plain: Seq<(String, String)>)
    requires
        lookup(plain, Seq::empty()) is None,
    ensures
        title_of(Seq::empty(), jira, plain) == Seq::<char>::empty(),
{
    let parts = split_on(Seq::<char>::empty(), '-');
    assert(parts == seq![Seq::<char>::empty()]);
    let caps = parts.map_values(|p: Seq<char>| capitalized(p));
    assert(caps =~= seq![Seq::<char>::empty()]);
}

} // verus!
