//! The configuration that drives every derivation. Each table of the
//! configuration is an ordered list of `(key, value)` rules: where a lookup
//! could match several rules, the first one wins.
use vstd::prelude::*;

use crate::utils::{lower_of, lowercase};

verus! {

/// The whole configuration, loaded once per run.
pub struct Config {
    pub branches: Branches,
    pub title: Title,
    pub template: Template,
    pub labels: Labels,
    pub commits: Commits,
    pub draft: bool,
    pub dry_run: bool,
}

/// Where a pull request is opened: a default target, and target branches
/// chosen by a substring of the branch name.
pub struct Branches {
    pub default: String,
    pub includes: Vec<(String, String)>,
}

/// Title rules: ticket-style prefixes mapped to a template holding
/// `{ticket_number}` and `{ticket_name}`, and plain prefixes mapped to a
/// replacement text.
pub struct Title {
    pub jira_prefixes: Vec<(String, String)>,
    pub prefixes: Vec<(String, String)>,
}

/// Where the pull-request body template lives.
pub struct Template {
    pub path: String,
}

/// Labels: those always set, and those added when the branch name holds a
/// substring.
pub struct Labels {
    pub default: Vec<String>,
    pub includes: Vec<(String, Vec<String>)>,
}

/// Commit prefixes (such as `feat`) mapped to the text shown for them.
pub struct Commits {
    pub prefixes: Vec<(String, String)>,
}

/// The value of the first rule whose key equals `key` once both are
/// lower-cased.
pub open spec fn lookup(rules: Seq<(String, String)>, key: Seq<char>) -> Option<Seq<char>>
    decreases rules.len(),
{
    if rules.len() == 0 {
        None
    } else if lower_of(rules[0].0@) == lower_of(key) {
        Some(rules[0].1@)
    } else {
        lookup(rules.drop_first(), key)
    }
}

/// The value of the first rule whose key equals `key` once both are
/// lower-cased.
pub fn lookup_rule(rules: &Vec<(String, String)>, key: &String) -> (r: Option<String>)
    ensures
        match r {
            Some(v) => lookup(rules@, key@) == Some(v@),
            None => lookup(rules@, key@) is None,
        },
{
    let wanted = lowercase(key.as_str());
    let mut i: usize = 0;
    assert(rules@.skip(0) =~= rules@);
    while i < rules.len()
        invariant
            i <= rules.len(),
            wanted@ == lower_of(key@),
            lookup(rules@.skip(i as int), key@) == lookup(rules@, key@),
        decreases rules.len() - i,
    {
        assert(rules@.skip(i as int).drop_first() =~= rules@.skip(i + 1));
        assert(rules@.skip(i as int)[0] == rules@[i as int]);
        if lowercase(rules[i].0.as_str()) == wanted {
            return Some(rules[i].1.clone());
        }
        i += 1;
    }
    None
}

} // verus!
