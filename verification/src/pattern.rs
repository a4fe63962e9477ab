//! Regular expressions, compiled and run by the `regex` crate.
//!
//! A [`Pattern`] holds a compiled `regex::Regex` together with the source it
//! was compiled from; what a match or a replacement gives is named by the
//! spec functions below, as functions of that source and of the haystack.

use vstd::prelude::*;

verus! {

#[verifier::external_type_specification]
#[verifier::external_body]
pub struct ExRegex(regex::Regex);

/// What the source of a compiled pattern and its build options are.
pub struct PatternView {
    pub source: Seq<char>,
    /// Whether `.` also matches `'\n'` (`RegexBuilder::dot_matches_new_line`).
    pub dot_all: bool,
}

/// What `regex::Regex::new(source)` gives: `Ok(())` when the source
/// compiles, or the text (`Display`) of the `regex::Error` it fails with.
pub uninterp spec fn regex_new_outcome(source: Seq<char>) -> Result<(), Seq<char>>;

/// What `RegexBuilder::new(source).dot_matches_new_line(true).build()` gives,
/// in the same terms as [`regex_new_outcome`].
pub uninterp spec fn regex_dot_all_outcome(source: Seq<char>) -> Result<(), Seq<char>>;

/// `Regex::is_match`: whether the pattern matches anywhere in `haystack`.
pub uninterp spec fn regex_is_match(p: PatternView, haystack: Seq<char>) -> bool;

/// `Regex::replace_all`: `haystack` with every non-overlapping match replaced
/// by `replacement`, in which `$name` and `${name}` refer to capture groups.
pub uninterp spec fn regex_replace_all(
    p: PatternView,
    haystack: Seq<char>,
    replacement: Seq<char>,
) -> Seq<char>;

/// `Regex::replace`: `haystack` with its leftmost-first match replaced by
/// `replacement`, expanded as for [`regex_replace_all`].
pub uninterp spec fn regex_replace_first(
    p: PatternView,
    haystack: Seq<char>,
    replacement: Seq<char>,
) -> Seq<char>;

/// A compiled regular expression with the source it was compiled from.
pub struct Pattern {
    source: String,
    dot_all: bool,
    re: regex::Regex,
}

impl View for Pattern {
    type V = PatternView;

    closed spec fn view(&self) -> PatternView {
        PatternView { source: self.source@, dot_all: self.dot_all }
    }
}

/// Compiles `source` with `regex::Regex::new`; on failure, the error's text.
#[verifier::external_body]
pub(crate) fn compile(source: &str) -> (r: Result<Pattern, String>)
    ensures
        match r {
            Ok(p) => regex_new_outcome(source@) is Ok && p@ == (PatternView {
                source: source@,
                dot_all: false,
            }),
            Err(e) => regex_new_outcome(source@) == Err::<(), Seq<char>>(e@),
        },
{
    match regex::Regex::new(source) {
        Ok(re) => Ok(Pattern { source: source.to_string(), dot_all: false, re }),
        Err(e) => Err(e.to_string()),
    }
}

/// Compiles `source` with `regex::RegexBuilder`, `.` matching `'\n'` too;
/// on failure, the error's text.
#[verifier::external_body]
pub(crate) fn compile_dot_all(source: &str) -> (r: Result<Pattern, String>)
    ensures
        match r {
            Ok(p) => regex_dot_all_outcome(source@) is Ok && p@ == (PatternView {
                source: source@,
                dot_all: true,
            }),
            Err(e) => regex_dot_all_outcome(source@) == Err::<(), Seq<char>>(e@),
        },
{
    match regex::RegexBuilder::new(source).dot_matches_new_line(true).build() {
        Ok(re) => Ok(Pattern { source: source.to_string(), dot_all: true, re }),
        Err(e) => Err(e.to_string()),
    }
}

/// `Regex::is_match`. The empty pattern matches every haystack (it matches
/// the empty string at every position, as the crate's documentation says).
#[verifier::external_body]
pub(crate) fn is_match(p: &Pattern, haystack: &str) -> (r: bool)
    ensures
        r == regex_is_match(p@, haystack@),
        p@.source.len() == 0 ==> r,
{
    p.re.is_match(haystack)
}

/// `Regex::replace_all`; a haystack without a match comes back unchanged.
#[verifier::external_body]
pub(crate) fn replace_all(p: &Pattern, haystack: &str, replacement: &str) -> (r: String)
    ensures
        r@ == regex_replace_all(p@, haystack@, replacement@),
        !regex_is_match(p@, haystack@) ==> r@ == haystack@,
{
    p.re.replace_all(haystack, replacement).into_owned()
}

/// `Regex::replace`; a haystack without a match comes back unchanged.
#[verifier::external_body]
pub(crate) fn replace_first(p: &Pattern, haystack: &str, replacement: &str) -> (r: String)
    ensures
        r@ == regex_replace_first(p@, haystack@, replacement@),
        !regex_is_match(p@, haystack@) ==> r@ == haystack@,
{
    p.re.replace(haystack, replacement).into_owned()
}

/// The characters that `regex::escape` puts a backslash before.
pub open spec fn is_meta_character(c: char) -> bool {
    c == '\\' || c == '.' || c == '+' || c == '*' || c == '?' || c == '(' || c == ')' || c == '|'
        || c == '[' || c == ']' || c == '{' || c == '}' || c == '^' || c == '$' || c == '#' || c
        == '&' || c == '-' || c == '~'
}

/// `regex::escape`: every meta character gets a backslash before it.
pub open spec fn escaped(s: Seq<char>) -> Seq<char>
    decreases s.len(),
{
    if s.len() == 0 {
        s
    } else {
        escaped(s.drop_last()) + if is_meta_character(s.last()) {
            seq!['\\', s.last()]
        } else {
            seq![s.last()]
        }
    }
}

/// `regex::escape`.
#[verifier::external_body]
pub(crate) fn escape(s: &str) -> (r: String)
    ensures
        r@ == escaped(s@),
{
    regex::escape(s)
}

} // verus!
