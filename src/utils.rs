//! Word capitalisation and the removal of terminal escape sequences.
use vstd::prelude::*;

use crate::errors::ScriptErrors;
use crate::text::chars_of;
use crate::pattern::{
    check_pattern, find_first, leftmost_match, matches_removed, regex_accepts, remove_matches,
};

verus! {

/// What `char::to_uppercase` yields for a character.
pub uninterp spec fn upper_of(c: char) -> Seq<char>;

/// What `str::to_lowercase` yields for a text.
pub uninterp spec fn lower_of(s: Seq<char>) -> Seq<char>;

/// Relies on `char::to_uppercase`: its characters depend on `c` alone.
#[verifier::external_body]
pub(crate) fn uppercase_char(c: char) -> (r: String)
    ensures
        r@ == upper_of(c),
{
    c.to_uppercase().collect::<String>()
}

/// Relies on `str::to_lowercase`: its result depends on the characters alone.
#[verifier::external_body]
pub(crate) fn lowercase(s: &str) -> (r: String)
    ensures
        r@ == lower_of(s@),
{
    s.to_lowercase()
}

/// `w` with its first character in upper case; an empty word stays empty.
pub open spec fn capitalized(w: Seq<char>) -> Seq<char> {
    if w.len() == 0 {
        w
    } else {
        upper_of(w[0]) + w.skip(1)
    }
}

/// `w` with its first character in upper case.
pub(crate) fn capitalize_chars(w: &Vec<char>) -> (r: Vec<char>)
    ensures
        r@ == capitalized(w@),
{
    if w.len() == 0 {
        return Vec::new();
    }
    let mut r = chars_of(uppercase_char(w[0]).as_str());
    let mut i: usize = 1;
    while i < w.len()
        invariant
            1 <= i <= w.len(),
            r@ == upper_of(w@[0]) + w@.subrange(1, i as int),
        decreases w.len() - i,
    {
        r.push(w[i]);
        i += 1;
    }
    assert(w@.subrange(1, i as int) =~= w@.skip(1));
    r
}

/// Upper-cases the first character of `s` and keeps the rest; an empty `s`
/// is an error.
pub fn capitalize_word(s: &str) -> (r: Result<String, ScriptErrors>)
    ensures
        s@.len() == 0 <==> r is Err,
        match r {
            Ok(w) => w@ == capitalized(s@),
            Err(e) => e matches ScriptErrors::ConfigError(m) && m@ == "Empty string"@,
        },
{
    let n = s.unicode_len();
    if n == 0 {
        return Err(ScriptErrors::ConfigError(String::from_str("Empty string")));
    }
    let mut w = uppercase_char(s.get_char(0));
    let rest = s.substring_char(1, n);
    w.append(rest);
    Ok(w)
}

/// The pattern of a terminal escape sequence: escape, `[`, parameter bytes,
/// intermediate bytes, and one final byte.
pub const ANSI_ESCAPE: &'static str = "\\x1b\\[[0-?]*[ -/]*[@-~]";

/// The view of `ANSI_ESCAPE`.
pub open spec fn ansi_pattern() -> Seq<char> {
    ANSI_ESCAPE@
}

/// `s` with its terminal escape sequences removed, pass after pass, until
/// the escape pattern finds no non-empty match: a removal can bring two
/// halves of a sequence together, and the next pass removes that one too.
pub open spec fn escapes_removed(s: Seq<char>) -> Seq<char>
    decreases s.len(),
{
    match leftmost_match(ansi_pattern(), s) {
        Some((_, found, _)) => if found.len() > 0 && matches_removed(ansi_pattern(), s).len()
            < s.len() {
            escapes_removed(matches_removed(ansi_pattern(), s))
        } else {
            s
        },
        None => s,
    }
}

/// The escape pattern finds no non-empty match in `s`.
pub open spec fn escape_free(s: Seq<char>) -> bool {
    match leftmost_match(ansi_pattern(), s) {
        Some((_, found, _)) => found.len() == 0,
        None => true,
    }
}

/// Removing escape sequences never lengthens a text, leaves a text without
/// them as it is, and so changes nothing when done a second time.
pub proof fn lemma_escapes_removed(s: Seq<char>)
    ensures
        escapes_removed(s).len() <= s.len(),
        escape_free(s) ==> escapes_removed(s) == s,
        leftmost_match(ansi_pattern(), s) is None ==> escapes_removed(s) == s,
    decreases s.len(),
{
    if let Some((_, found, _)) = leftmost_match(ansi_pattern(), s) {
        if found.len() > 0 && matches_removed(ansi_pattern(), s).len() < s.len() {
            lemma_escapes_removed(matches_removed(ansi_pattern(), s));
        }
    }
}

/// `s` with its terminal escape sequences removed, as `escapes_removed`
/// describes it; none is left.
pub(crate) fn strip_escapes(s: &str) -> (r: String)
    requires
        regex_accepts(ansi_pattern()),
    ensures
        r@ == escapes_removed(s@),
        escape_free(r@),
{
    let mut t = String::from_str(s);
    loop
        invariant
            regex_accepts(ansi_pattern()),
            escapes_removed(t@) == escapes_removed(s@),
        decreases t@.len(),
    {
        match find_first(ANSI_ESCAPE, t.as_str()) {
            None => {
                return t;
            },
            Some((_, found, _)) => {
                if found.as_str().unicode_len() == 0 {
                    return t;
                }
                t = remove_matches(ANSI_ESCAPE, t.as_str());
            },
        }
    }
}

/// `s` without its terminal escape sequences, removed until none is left
/// (see `escapes_removed`); an error if the escape pattern cannot be
/// compiled.
pub fn remove_ansi_codes(s: &str) -> (r: Result<String, ScriptErrors>)
    ensures
        r is Ok <==> regex_accepts(ansi_pattern()),
        match r {
            Ok(t) => {
                &&& t@ == escapes_removed(s@)
                &&& escape_free(t@)
                &&& escapes_removed(t@) == t@
                &&& t@.len() <= s@.len()
                &&& leftmost_match(ansi_pattern(), s@) is None ==> t@ == s@
            },
            Err(e) => e is ConfigError,
        },
{
    match check_pattern(ANSI_ESCAPE) {
        Ok(()) => {
            let t = strip_escapes(s);
            proof {
                lemma_escapes_removed(s@);
                lemma_escapes_removed(t@);
            }
            Ok(t)
        },
        Err(_) => Err(
            ScriptErrors::ConfigError(String::from_str("Failed to compile regex to remove ansi codes")),
        ),
    }
}

} // verus!
