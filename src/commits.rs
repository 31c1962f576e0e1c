//! The commit list of a pull-request body: which lines of a one-line commit
//! log are kept, how each becomes a bulleted line, and in what order.
use vstd::prelude::*;

use crate::pattern::{find_first, leftmost_match, regex_accepts};
use crate::text::{
    chars_of, contains, contains_chars, extend_chars, join, lemma_split_nonempty, split_chars,
    split_on, string_of, views,
};
use crate::utils::{ansi_pattern, capitalize_chars, capitalized, escapes_removed, strip_escapes};

verus! {

/// A kept commit: the configured prefix that it carries, its normalised
/// line `<prefix>: <message>`, and its bulleted line.
pub type Entry = (Vec<char>, Vec<char>, Vec<char>);

/// The view of an entry.
pub type EntryView = (Seq<char>, Seq<char>, Seq<char>);

/// The views of a sequence of entries.
pub open spec fn entry_views(v: Seq<Entry>) -> Seq<EntryView> {
    v.map_values(|e: Entry| (e.0@, e.1@, e.2@))
}

/// Whitespace, as `char::is_whitespace` defines it.
pub open spec fn is_white(c: char) -> bool {
    let u = c as u32;
    u == 0x20 || (0x09 <= u && u <= 0x0d) || u == 0x85 || u == 0xa0 || u == 0x1680 || (0x2000
        <= u && u <= 0x200a) || u == 0x2028 || u == 0x2029 || u == 0x202f || u == 0x205f || u
        == 0x3000
}

/// `s` without its leading whitespace.
pub open spec fn trim_start(s: Seq<char>) -> Seq<char>
    decreases s.len(),
{
    if s.len() > 0 && is_white(s[0]) {
        trim_start(s.skip(1))
    } else {
        s
    }
}

/// `s` without its trailing whitespace.
pub open spec fn trim_end(s: Seq<char>) -> Seq<char>
    decreases s.len(),
{
    if s.len() > 0 && is_white(s.last()) {
        trim_end(s.drop_last())
    } else {
        s
    }
}

/// `s` without leading and trailing whitespace.
pub open spec fn trimmed(s: Seq<char>) -> Seq<char> {
    trim_end(trim_start(s))
}

/// A line without the `\r` of a `\r\n` ending.
pub open spec fn strip_cr(p: Seq<char>) -> Seq<char> {
    if p.len() > 0 && p.last() == '\r' {
        p.drop_last()
    } else {
        p
    }
}

/// The lines of a text: cut at each `\n`, a `\r` before it dropped, and no
/// empty line after a final `\n`.
pub open spec fn log_lines(log: Seq<char>) -> Seq<Seq<char>> {
    let pieces = split_on(log, '\n');
    let body = pieces.drop_last().map_values(|p: Seq<char>| strip_cr(p));
    if pieces.last().len() == 0 {
        body
    } else {
        body.push(pieces.last())
    }
}

/// What follows each configured prefix in the commit pattern: an optional
/// parenthesised scope and a colon.
pub open spec fn scope_suffix() -> Seq<char> {
    "(?:\\([^\\)]*\\))?:"@
}

/// The pattern that a kept commit line matches: one alternative per
/// configured prefix.
pub open spec fn commit_pattern(rules: Seq<(String, String)>) -> Seq<char> {
    join(rules.map_values(|r: (String, String)| r.0@ + scope_suffix()), seq!['|'])
}

/// The rule (prefix and shown text) with the longest prefix that occurs in
/// `text`; among prefixes of equal length, the first.
pub open spec fn rule_within(rules: Seq<(String, String)>, text: Seq<char>) -> Option<
    (Seq<char>, Seq<char>),
>
    decreases rules.len(),
{
    if rules.len() == 0 {
        None
    } else {
        let rest = rule_within(rules.drop_first(), text);
        if contains(text, rules[0].0@) && (rest is None || rest->Some_0.0.len()
            <= rules[0].0@.len()) {
            Some((rules[0].0@, rules[0].1@))
        } else {
            rest
        }
    }
}

/// The normalised line of a commit: its prefix, a colon and a space, and its
/// message, with terminal escape sequences removed.
pub open spec fn commit_line(key: Seq<char>, message: Seq<char>) -> Seq<char> {
    escapes_removed(key + seq![':', ' '] + message)
}

/// The bulleted line for a commit: the text shown for its prefix as
/// configured, a space, and its message with the first character in upper
/// case.
pub open spec fn bullet(shown: Seq<char>, message: Seq<char>) -> Seq<char> {
    seq!['-', ' '] + shown + seq![' '] + capitalized(message)
}

/// The entry that a log line gives, if it is kept: a non-empty line that
/// the commit pattern matches, where the matched text holds a configured
/// prefix. Its message is what follows the match, trimmed; the hash before
/// the match and the scope inside it are dropped, and so are terminal escape
/// sequences.
pub open spec fn entry_of(line: Seq<char>, pattern: Seq<char>, rules: Seq<(String, String)>) -> Option<
    EntryView,
> {
    if line.len() == 0 {
        None
    } else {
        match leftmost_match(pattern, line) {
            None => None,
            Some((_, found, after)) => match rule_within(rules, found) {
                None => None,
                Some((key, shown)) => Some(
                    (
                        key,
                        commit_line(key, trimmed(after)),
                        bullet(shown, escapes_removed(trimmed(after))),
                    ),
                ),
            },
        }
    }
}

/// The entries of the kept lines, last line first.
pub open spec fn entries_of(
    lines: Seq<Seq<char>>,
    pattern: Seq<char>,
    rules: Seq<(String, String)>,
) -> Seq<EntryView>
    decreases lines.len(),
{
    if lines.len() == 0 {
        Seq::empty()
    } else {
        let rest = entries_of(lines.skip(1), pattern, rules);
        match entry_of(lines[0], pattern, rules) {
            Some(e) => rest.push(e),
            None => rest,
        }
    }
}

/// `a` comes before `b` in the order of `str`: by code point, a proper
/// prefix first.
pub open spec fn key_lt(a: Seq<char>, b: Seq<char>) -> bool
    decreases a.len(),
{
    if b.len() == 0 {
        false
    } else if a.len() == 0 {
        true
    } else if a[0] != b[0] {
        (a[0] as u32) < (b[0] as u32)
    } else {
        key_lt(a.skip(1), b.skip(1))
    }
}

/// `e` placed after every entry of `s` whose key is not greater than its own.
pub open spec fn insert_by_key(s: Seq<EntryView>, e: EntryView) -> Seq<
    EntryView,
>
    decreases s.len(),
{
    if s.len() == 0 {
        seq![e]
    } else if key_lt(e.0, s[0].0) {
        seq![e] + s
    } else {
        seq![s[0]] + insert_by_key(s.skip(1), e)
    }
}

/// The entries ordered by key; entries with equal keys keep their order.
pub open spec fn sort_by_key(s: Seq<EntryView>) -> Seq<EntryView>
    decreases s.len(),
{
    if s.len() == 0 {
        s
    } else {
        insert_by_key(sort_by_key(s.drop_last()), s.last())
    }
}

/// The kept commits of a log, ordered by prefix.
pub open spec fn sorted_entries(log: Seq<char>, rules: Seq<(String, String)>) -> Seq<EntryView> {
    sort_by_key(entries_of(log_lines(log), commit_pattern(rules), rules))
}

/// The normalised lines `<prefix>: <message>` for a commit log, ordered by
/// prefix.
pub open spec fn commit_lines(log: Seq<char>, rules: Seq<(String, String)>) -> Seq<Seq<char>> {
    sorted_entries(log, rules).map_values(|e: EntryView| e.1)
}

/// The bulleted lines for a commit log, ordered by prefix.
pub open spec fn commit_bullets(log: Seq<char>, rules: Seq<(String, String)>) -> Seq<Seq<char>> {
    sorted_entries(log, rules).map_values(|e: EntryView| e.2)
}

/// Whether `c` is whitespace, as `char::is_whitespace` defines it.
fn white(c: char) -> (r: bool)
    ensures
        r == is_white(c),
{
    let u = c as u32;
    u == 0x20 || (0x09 <= u && u <= 0x0d) || u == 0x85 || u == 0xa0 || u == 0x1680 || (0x2000
        <= u && u <= 0x200a) || u == 0x2028 || u == 0x2029 || u == 0x202f || u == 0x205f || u
        == 0x3000
}

/// `s` without leading and trailing whitespace.
pub fn trim_chars(s: &Vec<char>) -> (r: Vec<char>)
    ensures
        r@ == trimmed(s@),
{
    let n = s.len();
    let mut lo: usize = 0;
    assert(s@.subrange(0, n as int) =~= s@);
    while lo < n && white(s[lo])
        invariant
            lo <= n == s.len(),
            trim_start(s@.subrange(lo as int, n as int)) == trim_start(s@),
        decreases n - lo,
    {
        assert(s@.subrange(lo as int, n as int).skip(1) =~= s@.subrange(lo + 1, n as int));
        lo += 1;
    }
    let mut hi: usize = n;
    assert(trim_start(s@.subrange(lo as int, n as int)) == s@.subrange(lo as int, n as int));
    while hi > lo && white(s[hi - 1])
        invariant
            lo <= hi <= n == s.len(),
            trim_end(s@.subrange(lo as int, hi as int)) == trimmed(s@),
        decreases hi,
    {
        assert(s@.subrange(lo as int, hi as int).drop_last() =~= s@.subrange(lo as int, hi - 1));
        hi -= 1;
    }
    let mut r: Vec<char> = Vec::new();
    let mut k: usize = lo;
    while k < hi
        invariant
            lo <= k <= hi <= n == s.len(),
            r@ == s@.subrange(lo as int, k as int),
        decreases hi - k,
    {
        r.push(s[k]);
        k += 1;
    }
    r
}

/// The lines of `log`, as `log_lines` describes them.
pub fn lines_of(log: &Vec<char>) -> (r: Vec<Vec<char>>)
    ensures
        views(r@) == log_lines(log@),
{
    let pieces = split_chars(log, '\n');
    proof {
        lemma_split_nonempty(log@, '\n');
    }
    let ghost pv = views(pieces@);
    let last = pieces.len() - 1;
    let mut r: Vec<Vec<char>> = Vec::new();
    let mut j: usize = 0;
    while j < last
        invariant
            j <= last == pieces.len() - 1,
            pv == views(pieces@),
            views(r@) == pv.subrange(0, j as int).map_values(|p: Seq<char>| strip_cr(p)),
        decreases last - j,
    {
        let p = &pieces[j];
        let line = if p.len() > 0 && p[p.len() - 1] == '\r' {
            let mut q = p.clone();
            q.pop();
            assert(q@ =~= p@.drop_last());
            q
        } else {
            p.clone()
        };
        assert(pv[j as int] == p@);
        assert(line@ == strip_cr(pv[j as int]));
        let ghost prev = r@;
        r.push(line);
        assert(views(r@) =~= views(prev).push(line@));
        assert(pv.subrange(0, j + 1).map_values(|p: Seq<char>| strip_cr(p)) =~= pv.subrange(
            0,
            j as int,
        ).map_values(|p: Seq<char>| strip_cr(p)).push(strip_cr(pv[j as int])));
        j += 1;
    }
    assert(pv.subrange(0, j as int) =~= pv.drop_last());
    if pieces[last].len() > 0 {
        r.push(pieces[last].clone());
        assert(views(r@) =~= log_lines(log@));
    }
    r
}

/// The commit pattern for the configured prefixes.
pub fn build_commit_pattern(rules: &Vec<(String, String)>) -> (r: String)
    ensures
        r@ == commit_pattern(rules@),
{
    let suffix = chars_of("(?:\\([^\\)]*\\))?:");
    let ghost alts = rules@.map_values(|r: (String, String)| r.0@ + scope_suffix());
    let mut out: Vec<char> = Vec::new();
    let mut i: usize = 0;
    while i < rules.len()
        invariant
            i <= rules.len(),
            suffix@ == scope_suffix(),
            alts == rules@.map_values(|r: (String, String)| r.0@ + scope_suffix()),
            out@ == join(alts.subrange(0, i as int), seq!['|']),
        decreases rules.len() - i,
    {
        assert(alts.subrange(0, i + 1).drop_last() =~= alts.subrange(0, i as int));
        if i > 0 {
            out.push('|');
        }
        let key = chars_of(rules[i].0.as_str());
        extend_chars(&mut out, &key);
        extend_chars(&mut out, &suffix);
        i += 1;
        assert(out@ =~= join(alts.subrange(0, i as int), seq!['|']));
    }
    assert(alts.subrange(0, i as int) =~= alts);
    string_of(&out)
}

/// The rule with the longest prefix that occurs in `text`, as its prefix and
/// shown text.
fn find_rule(rules: &Vec<(String, String)>, text: &Vec<char>) -> (r: Option<(Vec<char>, Vec<char>)>)
    ensures
        match r {
            Some((k, s)) => rule_within(rules@, text@) == Some((k@, s@)),
            None => rule_within(rules@, text@) is None,
        },
{
    let mut best: Option<(Vec<char>, Vec<char>)> = None;
    let n = rules.len();
    let mut i: usize = n;
    assert(rules@.skip(n as int).len() == 0);
    while i > 0
        invariant
            i <= n == rules.len(),
            match best {
                Some((k, s)) => rule_within(rules@.skip(i as int), text@) == Some((k@, s@)),
                None => rule_within(rules@.skip(i as int), text@) is None,
            },
        decreases i,
    {
        i -= 1;
        assert(rules@.skip(i as int).drop_first() =~= rules@.skip(i + 1));
        assert(rules@.skip(i as int)[0] == rules@[i as int]);
        let key = chars_of(rules[i].0.as_str());
        if contains_chars(text, &key) {
            let longer = match &best {
                None => true,
                Some((k, _)) => k.len() <= key.len(),
            };
            if longer {
                best = Some((key, chars_of(rules[i].1.as_str())));
            }
        }
    }
    assert(rules@.skip(0) =~= rules@);
    best
}

/// The entry that `line` gives, as `entry_of` describes it.
fn entry_for(line: &Vec<char>, pattern: &str, rules: &Vec<(String, String)>) -> (r: Option<Entry>)
    requires
        regex_accepts(pattern@),
        regex_accepts(ansi_pattern()),
    ensures
        match r {
            Some(e) => entry_of(line@, pattern@, rules@) == Some((e.0@, e.1@, e.2@)),
            None => entry_of(line@, pattern@, rules@) is None,
        },
{
    if line.len() == 0 {
        return None;
    }
    let text = string_of(line);
    match find_first(pattern, text.as_str()) {
        None => None,
        Some((_, found, after)) => {
            match find_rule(rules, &chars_of(found.as_str())) {
                None => None,
                Some((key, shown)) => {
                    let message = trim_chars(&chars_of(after.as_str()));
                    let mut raw = key.clone();
                    raw.push(':');
                    raw.push(' ');
                    extend_chars(&mut raw, &message);
                    let line = strip_escapes(string_of(&raw).as_str());
                    let clean = strip_escapes(string_of(&message).as_str());
                    let mut b: Vec<char> = vec!['-', ' '];
                    extend_chars(&mut b, &shown);
                    b.push(' ');
                    extend_chars(&mut b, &capitalize_chars(&chars_of(clean.as_str())));
                    assert(raw@ =~= key@ + seq![':', ' '] + message@);
                    assert(b@ =~= bullet(shown@, escapes_removed(message@)));
                    Some((key, chars_of(line.as_str()), b))
                },
            }
        },
    }
}

/// The entries of `lines`, last line first, as `entries_of` describes them.
pub fn collect_entries(lines: &Vec<Vec<char>>, pattern: &str, rules: &Vec<(String, String)>) -> (r:
    Vec<Entry>)
    requires
        regex_accepts(pattern@),
        regex_accepts(ansi_pattern()),
    ensures
        entry_views(r@) == entries_of(views(lines@), pattern@, rules@),
{
    let ghost lv = views(lines@);
    let mut out: Vec<Entry> = Vec::new();
    let mut i: usize = lines.len();
    assert(lv.subrange(i as int, lv.len() as int).len() == 0);
    while i > 0
        invariant
            i <= lines.len(),
            lv == views(lines@),
            regex_accepts(pattern@),
            regex_accepts(ansi_pattern()),
            entry_views(out@) == entries_of(lv.subrange(i as int, lv.len() as int), pattern@, rules@),
        decreases i,
    {
        i -= 1;
        let ghost sub = lv.subrange(i as int, lv.len() as int);
        assert(sub.skip(1) =~= lv.subrange(i + 1, lv.len() as int));
        assert(sub[0] == lines[i as int]@);
        match entry_for(&lines[i], pattern, rules) {
            Some(e) => {
                out.push(e);
                assert(entry_views(out@) =~= entries_of(sub, pattern@, rules@));
            },
            None => {},
        }
    }
    assert(lv.subrange(0, lv.len() as int) =~= lv);
    out
}

/// Whether `a` comes before `b`, as `key_lt` describes it.
fn key_less(a: &Vec<char>, b: &Vec<char>) -> (r: bool)
    ensures
        r == key_lt(a@, b@),
{
    let mut i: usize = 0;
    assert(a@.skip(0) =~= a@);
    assert(b@.skip(0) =~= b@);
    while i < a.len() && i < b.len()
        invariant
            i <= a.len(),
            i <= b.len(),
            key_lt(a@.skip(i as int), b@.skip(i as int)) == key_lt(a@, b@),
        decreases a.len() - i,
    {
        assert(a@.skip(i as int)[0] == a@[i as int]);
        assert(b@.skip(i as int)[0] == b@[i as int]);
        if a[i] != b[i] {
            return (a[i] as u32) < (b[i] as u32);
        }
        assert(a@.skip(i as int).skip(1) =~= a@.skip(i + 1));
        assert(b@.skip(i as int).skip(1) =~= b@.skip(i + 1));
        i += 1;
    }
    i < b.len()
}

proof fn lemma_insert_at(s: Seq<EntryView>, e: EntryView, p: int)
    requires
        0 <= p <= s.len(),
        forall|j: int| 0 <= j < p ==> !key_lt(e.0, #[trigger] s[j].0),
        p < s.len() ==> key_lt(e.0, s[p].0),
    ensures
        insert_by_key(s, e) == s.insert(p, e),
    decreases p,
{
    if p == 0 {
        assert(insert_by_key(s, e) =~= s.insert(p, e));
    } else {
        let t = s.skip(1);
        assert forall|j: int| 0 <= j < p - 1 implies !key_lt(e.0, #[trigger] t[j].0) by {
            assert(t[j] == s[j + 1]);
        }
        if p - 1 < t.len() {
            assert(t[p - 1] == s[p]);
        }
        lemma_insert_at(t, e, p - 1);
        assert(!key_lt(e.0, s[0].0));
        assert(insert_by_key(s, e) =~= s.insert(p, e));
    }
}

/// Places `e` after every entry of `v` whose key is not greater than its own.
fn insert_entry(v: &mut Vec<Entry>, e: Entry)
    ensures
        entry_views(final(v)@) == insert_by_key(entry_views(old(v)@), (e.0@, e.1@, e.2@)),
{
    let ghost s = entry_views(v@);
    let mut p: usize = 0;
    while p < v.len() && !key_less(&e.0, &v[p].0)
        invariant
            p <= v.len(),
            s == entry_views(v@),
            forall|j: int| 0 <= j < p ==> !key_lt(e.0@, #[trigger] s[j].0),
        decreases v.len() - p,
    {
        p += 1;
    }
    proof {
        lemma_insert_at(s, (e.0@, e.1@, e.2@), p as int);
    }
    v.insert(p, e);
    assert(entry_views(v@) =~= s.insert(p as int, (e.0@, e.1@, e.2@)));
}

/// The entries ordered by key, as `sort_by_key` describes it.
pub fn sort_entries(v: Vec<Entry>) -> (r: Vec<Entry>)
    ensures
        entry_views(r@) == sort_by_key(entry_views(v@)),
{
    let ghost all = entry_views(v@);
    let n = v.len();
    assert(all.len() == n);
    let mut src = v;
    let mut out: Vec<Entry> = Vec::new();
    let mut k: usize = 0;
    assert(all.subrange(0, 0) =~= Seq::<EntryView>::empty());
    while src.len() > 0
        invariant
            k + src.len() == all.len(),
            all.len() <= usize::MAX,
            entry_views(src@) == all.subrange(k as int, all.len() as int),
            entry_views(out@) == sort_by_key(all.subrange(0, k as int)),
        decreases src.len(),
    {
        let ghost before = src@;
        let e = src.remove(0);
        assert(all.subrange(0, k + 1).drop_last() =~= all.subrange(0, k as int));
        assert(entry_views(before)[0] == all[k as int]);
        assert(before[0] == e);
        insert_entry(&mut out, e);
        k += 1;
        assert(src@ =~= before.subrange(1, before.len() as int));
        assert(entry_views(src@) =~= entry_views(before).subrange(1, before.len() as int));
        assert(entry_views(src@) =~= all.subrange(k as int, all.len() as int));
    }
    assert(all.subrange(0, k as int) =~= all);
    out
}

/// Keys never decrease along `s`.
pub open spec fn keys_ordered(s: Seq<EntryView>) -> bool {
    forall|i: int, j: int| 0 <= i < j < s.len() ==> !key_lt(#[trigger] s[j].0, #[trigger] s[i].0)
}

/// Whether an entry carries the key `k`.
pub open spec fn has_key(k: Seq<char>) -> spec_fn(EntryView) -> bool {
    |e: EntryView| e.0 == k
}

proof fn lemma_key_lt_irreflexive(a: Seq<char>)
    ensures
        !key_lt(a, a),
    decreases a.len(),
{
    if a.len() > 0 {
        lemma_key_lt_irreflexive(a.skip(1));
    }
}

proof fn lemma_key_lt_transitive(a: Seq<char>, b: Seq<char>, c: Seq<char>)
    requires
        key_lt(a, b),
        key_lt(b, c),
    ensures
        key_lt(a, c),
    decreases a.len(),
{
    if a.len() > 0 && a[0] == b[0] && b[0] == c[0] {
        lemma_key_lt_transitive(a.skip(1), b.skip(1), c.skip(1));
    }
}

proof fn lemma_filter_single(e: EntryView, k: Seq<char>)
    ensures
        seq![e].filter(has_key(k)) == (if e.0 == k {
            seq![e]
        } else {
            Seq::<EntryView>::empty()
        }),
{
    reveal(Seq::filter);
    assert(seq![e].drop_last() =~= Seq::<EntryView>::empty());
    assert(Seq::<EntryView>::empty().filter(has_key(k)) =~= Seq::<EntryView>::empty());
}

proof fn lemma_insert_by_key(s: Seq<EntryView>, e: EntryView)
    requires
        keys_ordered(s),
    ensures
        keys_ordered(insert_by_key(s, e)),
        insert_by_key(s, e).len() == s.len() + 1,
        forall|i: int|
            0 <= i < insert_by_key(s, e).len() ==> #[trigger] insert_by_key(s, e)[i] == e
                || s.contains(insert_by_key(s, e)[i]),
        forall|k: Seq<char>|
            #[trigger] insert_by_key(s, e).filter(has_key(k)) == s.filter(has_key(k)) + seq![
                e,
            ].filter(has_key(k)),
    decreases s.len(),
{
    let r = insert_by_key(s, e);
    if s.len() == 0 {
        assert(r == seq![e]);
        assert forall|k: Seq<char>|
            #[trigger] r.filter(has_key(k)) == s.filter(has_key(k)) + seq![e].filter(
                has_key(k),
            ) by {
            reveal(Seq::filter);
            assert(s.filter(has_key(k)) =~= Seq::<EntryView>::empty());
            assert(s.filter(has_key(k)) + seq![e].filter(has_key(k)) =~= seq![e].filter(
                has_key(k),
            ));
        }
    } else if key_lt(e.0, s[0].0) {
        assert(r == seq![e] + s);
        assert forall|i: int, j: int| 0 <= i < j < r.len() implies !key_lt(
            #[trigger] r[j].0,
            #[trigger] r[i].0,
        ) by {
            if i == 0 {
                assert(r[j] == s[j - 1]);
                if key_lt(s[j - 1].0, e.0) {
                    lemma_key_lt_transitive(s[j - 1].0, e.0, s[0].0);
                    if j - 1 == 0 {
                        lemma_key_lt_irreflexive(s[0].0);
                    } else {
                        assert(!key_lt(s[j - 1].0, s[0].0));
                    }
                }
            } else {
                assert(r[i] == s[i - 1] && r[j] == s[j - 1]);
            }
        }
        assert forall|i: int| 0 <= i < r.len() implies #[trigger] r[i] == e || s.contains(r[i]) by {
            if i > 0 {
                assert(r[i] == s[i - 1]);
            }
        }
        assert forall|k: Seq<char>|
            #[trigger] r.filter(has_key(k)) == s.filter(has_key(k)) + seq![e].filter(
                has_key(k),
            ) by {
            Seq::filter_distributes_over_add(seq![e], s, has_key(k));
            lemma_filter_single(e, k);
            if e.0 == k {
                assert forall|j: int| 0 <= j < s.len() implies !has_key(k)(s[j]) by {
                    if s[j].0 == k {
                        if j == 0 {
                            lemma_key_lt_irreflexive(k);
                        } else {
                            assert(!key_lt(s[j].0, s[0].0));
                        }
                    }
                }
                s.lemma_all_neg_filter_empty(has_key(k));
                assert(s.filter(has_key(k)) =~= Seq::<EntryView>::empty());
                assert(r.filter(has_key(k)) =~= s.filter(has_key(k)) + seq![e].filter(
                    has_key(k),
                ));
            } else {
                assert(seq![e].filter(has_key(k)) =~= Seq::<EntryView>::empty());
                assert(r.filter(has_key(k)) =~= s.filter(has_key(k)) + seq![e].filter(
                    has_key(k),
                ));
            }
        }
    } else {
        let t = s.skip(1);
        assert forall|i: int, j: int| 0 <= i < j < t.len() implies !key_lt(
            #[trigger] t[j].0,
            #[trigger] t[i].0,
        ) by {
            assert(t[i] == s[i + 1] && t[j] == s[j + 1]);
        }
        lemma_insert_by_key(t, e);
        let rt = insert_by_key(t, e);
        assert(r == seq![s[0]] + rt);
        assert forall|i: int, j: int| 0 <= i < j < r.len() implies !key_lt(
            #[trigger] r[j].0,
            #[trigger] r[i].0,
        ) by {
            if i == 0 {
                assert(r[j] == rt[j - 1]);
                if rt[j - 1] != e {
                    let w = choose|w: int| 0 <= w < t.len() && t[w] == rt[j - 1];
                    assert(t[w] == s[w + 1]);
                }
            } else {
                assert(r[i] == rt[i - 1] && r[j] == rt[j - 1]);
            }
        }
        assert forall|i: int| 0 <= i < r.len() implies #[trigger] r[i] == e || s.contains(r[i]) by {
            if i == 0 {
                assert(s[0] == r[0]);
            } else {
                assert(r[i] == rt[i - 1]);
                if rt[i - 1] != e {
                    let w = choose|w: int| 0 <= w < t.len() && t[w] == rt[i - 1];
                    assert(t[w] == s[w + 1]);
                }
            }
        }
        assert forall|k: Seq<char>|
            #[trigger] r.filter(has_key(k)) == s.filter(has_key(k)) + seq![e].filter(
                has_key(k),
            ) by {
            Seq::filter_distributes_over_add(seq![s[0]], rt, has_key(k));
            assert(s == seq![s[0]] + t);
            Seq::filter_distributes_over_add(seq![s[0]], t, has_key(k));
            assert(rt.filter(has_key(k)) == t.filter(has_key(k)) + seq![e].filter(has_key(k)));
            assert(r.filter(has_key(k)) =~= s.filter(has_key(k)) + seq![e].filter(has_key(k)));
        }
    }
}

/// Ordering by key keeps every entry: along the result keys never decrease,
/// and for each key its entries come out exactly as they came in, in the
/// same order (the order is stable).
pub proof fn lemma_sort_by_key(s: Seq<EntryView>)
    ensures
        keys_ordered(sort_by_key(s)),
        sort_by_key(s).len() == s.len(),
        forall|k: Seq<char>| #[trigger] sort_by_key(s).filter(has_key(k)) == s.filter(has_key(k)),
    decreases s.len(),
{
    if s.len() > 0 {
        let t = s.drop_last();
        lemma_sort_by_key(t);
        lemma_insert_by_key(sort_by_key(t), s.last());
        assert forall|k: Seq<char>| #[trigger]
            sort_by_key(s).filter(has_key(k)) == s.filter(has_key(k)) by {
            assert(s == t + seq![s.last()]);
            Seq::filter_distributes_over_add(t, seq![s.last()], has_key(k));
        }
    }
}

} // verus!
