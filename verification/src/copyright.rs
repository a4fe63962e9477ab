//! Copyright-header validation: which header a file needs, built from a
//! copyright template in the comment syntax of the file's kind, and whether
//! the file has it.

use chrono::Datelike;
use vstd::prelude::*;

use crate::pattern::{self, compile, escape, is_match, Pattern, PatternView};
use crate::text::{
    self, append_chars, chars_of, lines_exec, push_signed_decimal, replace_str_exec,
    starts_with_exec, string_of, trim_end_of, trim_of, Strip,
};

verus! {

/// The copyright template used when none is given; `YYYY` stands for a year.
pub const DEFAULT_COPYRIGHT: &'static str = "Copyright YYYY Google LLC

Licensed under the Apache License, Version 2.0 (the \"License\");
you may not use this file except in compliance with the License.
You may obtain a copy of the License at

    https://www.apache.org/licenses/LICENSE-2.0

Unless required by applicable law or agreed to in writing, software
distributed under the License is distributed on an \"AS IS\" BASIS,
WITHOUT WARRANTIES OR CONDITIONS OF ANY KIND, either express or implied.
See the License for the specific language governing permissions and
limitations under the License.";

/// The paths skipped when no skip pattern is given.
pub const DEFAULT_SKIP_PATTERN: &'static str = "(?:^LICENSE|Cargo\\.lock|\\.(?:ico|json))$";

/// The year placeholder of a copyright template.
pub const YEAR_PLACEHOLDER: &'static str = "YYYY";

/// What the year placeholder becomes in the pattern that checks files.
pub const YEAR_PATTERN: &'static str = "\\d+";

/// The text of the error for a clock that gives no year.
pub const CLOCK_ERROR: &'static str = "The system clock reads no year since 1970";

/// The current year, by the system clock: the seconds since the Unix epoch
/// (`SystemTime::now().duration_since(UNIX_EPOCH)`) made into a UTC date by
/// `chrono::DateTime::from_timestamp`, then `Datelike::year`. `None` when the
/// clock reads a time before 1970 or beyond the dates chrono represents; a
/// year that comes back is at least 1970. Which year it is depends on the
/// clock.
#[verifier::external_body]
fn current_year() -> (r: Option<i32>)
    ensures
        r matches Some(y) ==> y >= 1970,
{
    let since_epoch = std::time::SystemTime::now().duration_since(std::time::UNIX_EPOCH).ok()?;
    let secs = i64::try_from(since_epoch.as_secs()).ok()?;
    let now = chrono::DateTime::from_timestamp(secs, 0)?;
    Some(now.year())
}

/// One comment syntax: the paths it applies to, the pattern a file's header
/// must match, and the header suggested to a file that lacks it.
pub struct CopyrightFormat {
    pub path: Pattern,
    pub copyright: Pattern,
    pub suggestion: String,
}

pub struct FormatView {
    pub path: PatternView,
    pub copyright: PatternView,
    pub suggestion: Seq<char>,
}

impl View for CopyrightFormat {
    type V = FormatView;

    open spec fn view(&self) -> FormatView {
        FormatView { path: self.path@, copyright: self.copyright@, suggestion: self.suggestion@ }
    }
}

pub open spec fn format_views(fs: Seq<CopyrightFormat>) -> Seq<FormatView> {
    fs.map_values(|f: CopyrightFormat| f@)
}

/// Checks files for copyright headers.
pub struct CopyrightValidator {
    skip: Pattern,
    formats: Vec<CopyrightFormat>,
}

pub struct ValidatorView {
    pub skip: PatternView,
    pub formats: Seq<FormatView>,
}

impl View for CopyrightValidator {
    type V = ValidatorView;

    closed spec fn view(&self) -> ValidatorView {
        ValidatorView { skip: self.skip@, formats: format_views(self.formats@) }
    }
}

// ---------------------------------------------------------------------------
// Formatting a template
// ---------------------------------------------------------------------------

/// One template line in a comment: the per-line prefix and the line, or,
/// for a blank line, the prefix without its trailing white space; then a
/// line feed.
pub open spec fn formatted_line(line: Seq<char>, per_line_prefix: Seq<char>) -> Seq<char> {
    (if text::trim(line, Strip::WhiteSpace).len() == 0 {
        text::trim_end(per_line_prefix, Strip::WhiteSpace)
    } else {
        per_line_prefix + line
    }).push('\n')
}

/// The template lines `lines`, each formatted.
pub open spec fn formatted_lines(lines: Seq<Seq<char>>, per_line_prefix: Seq<char>) -> Seq<char>
    decreases lines.len(),
{
    if lines.len() == 0 {
        Seq::empty()
    } else {
        formatted_lines(lines.drop_last(), per_line_prefix) + formatted_line(
            lines.last(),
            per_line_prefix,
        )
    }
}

/// The header block for `copyright`: the prefix on a line of its own (if
/// any), each line of the template formatted, the suffix on a line of its
/// own (if any).
pub open spec fn header_block(
    copyright: Seq<char>,
    prefix: Seq<char>,
    per_line_prefix: Seq<char>,
    suffix: Seq<char>,
) -> Seq<char> {
    (if prefix.len() > 0 {
        prefix.push('\n')
    } else {
        Seq::empty()
    }) + formatted_lines(text::lines(copyright), per_line_prefix) + (if suffix.len() > 0 {
        suffix.push('\n')
    } else {
        Seq::empty()
    })
}

/// The pattern that a header block is checked with: the block taken
/// literally, except that each year placeholder matches any number.
pub open spec fn block_pattern(block: Seq<char>) -> Seq<char> {
    text::replace_str(pattern::escaped(block), YEAR_PLACEHOLDER@, YEAR_PATTERN@)
}

/// The header suggested for a block: each placeholder replaced by `year`.
pub open spec fn block_suggestion(block: Seq<char>, year: int) -> Seq<char> {
    text::replace_str(block, YEAR_PLACEHOLDER@, text::signed_decimal(year))
}

/// The format for one comment syntax, or the error: an invalid path
/// pattern, or a header pattern that the regex crate refuses.
pub open spec fn format_of(
    copyright: Seq<char>,
    path_pattern: Seq<char>,
    prefix: Seq<char>,
    per_line_prefix: Seq<char>,
    suffix: Seq<char>,
    year: int,
) -> Result<FormatView, Seq<char>> {
    match pattern::regex_new_outcome(path_pattern) {
        Err(e) => Err("Invalid pattern `"@ + path_pattern + "`: "@ + e),
        Ok(_) => {
            let block = header_block(copyright, prefix, per_line_prefix, suffix);
            match pattern::regex_new_outcome(block_pattern(block)) {
                Err(e) => Err(e),
                Ok(_) => Ok(
                    FormatView {
                        path: PatternView { source: path_pattern, dot_all: false },
                        copyright: PatternView { source: block_pattern(block), dot_all: false },
                        suggestion: block_suggestion(block, year),
                    },
                ),
            }
        },
    }
}

fn push_str(out: &mut Vec<char>, s: &str)
    ensures
        final(out)@ == old(out)@ + s@,
{
    let c = chars_of(s);
    append_chars(out, c.as_slice());
}

/// The header block for `copyright` in one comment syntax.
pub fn format_header_block(copyright: &[char], prefix: &str, per_line_prefix: &str, suffix: &str) -> (r: Vec<char>)
    ensures
        r@ == header_block(copyright@, prefix@, per_line_prefix@, suffix@),
{
    let plp = chars_of(per_line_prefix);
    let blank_prefix = trim_end_of(plp.as_slice(), &Strip::WhiteSpace);
    let lines = lines_exec(copyright);
    let ghost ls = text::lines(copyright@);
    let mut formatted: Vec<char> = Vec::new();
    let mut i: usize = 0;
    while i < lines.len()
        invariant
            i <= lines@.len(),
            lines@.len() == ls.len(),
            ls == text::lines(copyright@),
            forall|k: int| 0 <= k < lines@.len() ==> #[trigger] lines@[k]@ == ls[k],
            plp@ == per_line_prefix@,
            blank_prefix@ == text::trim_end(per_line_prefix@, Strip::WhiteSpace),
            formatted@ == formatted_lines(ls.take(i as int), per_line_prefix@),
        decreases lines@.len() - i,
    {
        assert(ls.take(i + 1).drop_last() == ls.take(i as int));
        let line = &lines[i];
        let trimmed = trim_of(line.as_slice(), &Strip::WhiteSpace);
        if trimmed.len() == 0 {
            append_chars(&mut formatted, blank_prefix.as_slice());
        } else {
            append_chars(&mut formatted, plp.as_slice());
            append_chars(&mut formatted, line.as_slice());
        }
        formatted.push('\n');
        i = i + 1;
    }
    assert(ls.take(lines@.len() as int) == ls);
    let mut block: Vec<char> = Vec::new();
    let p = chars_of(prefix);
    if p.len() > 0 {
        append_chars(&mut block, p.as_slice());
        block.push('\n');
    }
    append_chars(&mut block, formatted.as_slice());
    let s = chars_of(suffix);
    if s.len() > 0 {
        append_chars(&mut block, s.as_slice());
        block.push('\n');
    }
    block
}

/// The format for one comment syntax: files whose path matches
/// `path_pattern` need `copyright` as a comment opened by `prefix`, with
/// `per_line_prefix` before each line, and closed by `suffix`; any year
/// stands for the placeholder, and `year` fills it in the suggestion.
pub fn add_format(
    formats: &mut Vec<CopyrightFormat>,
    copyright: &[char],
    path_pattern: &str,
    prefix: &str,
    per_line_prefix: &str,
    suffix: &str,
    year: i32,
) -> (r: Result<(), String>)
    ensures
        match format_of(copyright@, path_pattern@, prefix@, per_line_prefix@, suffix@, year as int) {
            Ok(f) => r is Ok && format_views(final(formats)@) == format_views(old(formats)@).push(f),
            Err(e) => r is Err && r->Err_0@ == e,
        },
        r is Err ==> final(formats)@ == old(formats)@,
{
    let path = match compile(path_pattern) {
        Ok(p) => p,
        Err(e) => {
            let mut m: Vec<char> = Vec::new();
            push_str(&mut m, "Invalid pattern `");
            push_str(&mut m, path_pattern);
            push_str(&mut m, "`: ");
            push_str(&mut m, e.as_str());
            return Err(string_of(m.as_slice()));
        },
    };
    let block = format_header_block(copyright, prefix, per_line_prefix, suffix);
    let block_text = string_of(block.as_slice());
    let escaped = chars_of(escape(block_text.as_str()).as_str());
    let placeholder = chars_of(YEAR_PLACEHOLDER);
    let year_pattern = chars_of(YEAR_PATTERN);
    proof {
        reveal_strlit("YYYY");
    }
    let source = string_of(replace_str_exec(escaped.as_slice(), placeholder.as_slice(), year_pattern.as_slice()).as_slice());
    let copyright_pattern = match compile(source.as_str()) {
        Ok(p) => p,
        Err(e) => {
            return Err(e);
        },
    };
    let mut year_text: Vec<char> = Vec::new();
    push_signed_decimal(&mut year_text, year as i64);
    assert(year_text@ == text::signed_decimal(year as int));
    let suggestion = string_of(replace_str_exec(block.as_slice(), placeholder.as_slice(), year_text.as_slice()).as_slice());
    let ghost old_formats = formats@;
    formats.push(CopyrightFormat { path: path, copyright: copyright_pattern, suggestion: suggestion });
    assert(format_views(formats@) =~= format_views(old_formats).push(formats@.last()@));
    Ok(())
}

// ---------------------------------------------------------------------------
// Building a validator
// ---------------------------------------------------------------------------

/// The built-in comment syntaxes, tried after any custom ones: each is a
/// path pattern, a prefix, a per-line prefix and a suffix.
pub open spec fn builtin_format_table() -> Seq<(Seq<char>, Seq<char>, Seq<char>, Seq<char>)> {
    seq![
        ("\\.(cpp|h|rs)$"@, ""@, "// "@, ""@),
        ("\\.(html|md)$"@, "<!--"@, ""@, "-->"@),
        ("\\.js$"@, "/*"@, " * "@, " */"@),
        ("\\.py$"@, "__copyright__ = \"\"\""@, ""@, "\"\"\""@),
        (""@, ""@, "# "@, ""@),
    ]
}

/// The built-in comment syntaxes.
pub fn builtin_formats() -> (r: Vec<(&'static str, &'static str, &'static str, &'static str)>)
    ensures
        quad_views(r@) == builtin_format_table(),
{
    let r = vec![
        ("\\.(cpp|h|rs)$", "", "// ", ""),
        ("\\.(html|md)$", "<!--", "", "-->"),
        ("\\.js$", "/*", " * ", " */"),
        ("\\.py$", "__copyright__ = \"\"\"", "", "\"\"\""),
        ("", "", "# ", ""),
    ];
    assert(quad_views(r@) =~= builtin_format_table());
    r
}

pub open spec fn quad_views(qs: Seq<(&str, &str, &str, &str)>) -> Seq<
    (Seq<char>, Seq<char>, Seq<char>, Seq<char>),
> {
    qs.map_values(|q: (&str, &str, &str, &str)| (q.0@, q.1@, q.2@, q.3@))
}

/// The formats for the argument quadruples `quads`, in order, or the first
/// error.
pub open spec fn formats_of(
    copyright: Seq<char>,
    quads: Seq<(Seq<char>, Seq<char>, Seq<char>, Seq<char>)>,
    year: int,
) -> Result<Seq<FormatView>, Seq<char>>
    decreases quads.len(),
{
    if quads.len() == 0 {
        Ok(Seq::empty())
    } else {
        match formats_of(copyright, quads.drop_last(), year) {
            Err(e) => Err(e),
            Ok(fs) => {
                let q = quads.last();
                match format_of(copyright, q.0, q.1, q.2, q.3, year) {
                    Err(e) => Err(e),
                    Ok(f) => Ok(fs.push(f)),
                }
            },
        }
    }
}

/// A custom-format argument with a leading `\-` unescaped to `-`.
pub open spec fn unescape_dash(arg: Seq<char>) -> Seq<char> {
    if text::starts_with(arg, seq!['\\', '-']) {
        seq!['-'] + arg.skip(2)
    } else {
        arg
    }
}

/// The custom-format arguments, unescaped, grouped into complete
/// quadruples (a trailing incomplete group is left out).
pub open spec fn custom_quads(args: Seq<Seq<char>>) -> Seq<(Seq<char>, Seq<char>, Seq<char>, Seq<char>)> {
    Seq::new(
        args.len() / 4,
        |k: int|
            (
                unescape_dash(args[4 * k]),
                unescape_dash(args[4 * k + 1]),
                unescape_dash(args[4 * k + 2]),
                unescape_dash(args[4 * k + 3]),
            ),
    )
}

/// The error for custom-format arguments that do not come in fours.
pub open spec fn incomplete_format_message() -> Seq<char> {
    "Custom format must have exactly 4 arguments per instance"@
}

/// The validator for a copyright template, a skip pattern and custom-format
/// arguments, with `year` in its suggestions; or the error: an invalid skip
/// pattern, an invalid custom format, custom-format arguments that do not
/// come in fours (reported after the complete ones are built), or a format
/// the regex crate refuses.
pub open spec fn validator_of(
    copyright: Seq<char>,
    skip_pattern: Seq<char>,
    custom: Seq<Seq<char>>,
    year: int,
) -> Result<ValidatorView, Seq<char>> {
    match pattern::regex_new_outcome(skip_pattern) {
        Err(e) => Err("Invalid --skip_pattern `"@ + skip_pattern + "`: "@ + e),
        Ok(_) => {
            let c = text::trim(copyright, Strip::Only('\n'));
            match formats_of(c, custom_quads(custom), year) {
                Err(e) => Err(e),
                Ok(first) => if custom.len() % 4 != 0 {
                    Err(incomplete_format_message())
                } else {
                    match formats_of(c, builtin_format_table(), year) {
                        Err(e) => Err(e),
                        Ok(rest) => Ok(
                            ValidatorView {
                                skip: PatternView { source: skip_pattern, dot_all: false },
                                formats: first + rest,
                            },
                        ),
                    }
                },
            }
        },
    }
}

/// `\-x` becomes `-x`; other arguments stay as they are.
pub fn unescape_leading_dash(arg: &str) -> (r: String)
    ensures
        r@ == unescape_dash(arg@),
{
    let c = chars_of(arg);
    let escaped_dash = vec!['\\', '-'];
    if starts_with_exec(c.as_slice(), escaped_dash.as_slice()) {
        let mut out: Vec<char> = vec!['-'];
        append_chars(&mut out, text::slice_range(c.as_slice(), 2, c.len()).as_slice());
        assert(c@.subrange(2, c@.len() as int) == c@.skip(2));
        assert(escaped_dash@ == seq!['\\', '-']);
        string_of(out.as_slice())
    } else {
        assert(escaped_dash@ == seq!['\\', '-']);
        String::from_str(arg)
    }
}

proof fn lemma_formats_error_stays(
    copyright: Seq<char>,
    quads: Seq<(Seq<char>, Seq<char>, Seq<char>, Seq<char>)>,
    year: int,
    n: int,
)
    requires
        0 <= n <= quads.len(),
        formats_of(copyright, quads.take(n), year) is Err,
    ensures
        formats_of(copyright, quads, year) == formats_of(copyright, quads.take(n), year),
    decreases quads.len() - n,
{
    if n == quads.len() {
        assert(quads.take(n) == quads);
    } else {
        assert(quads.take(n + 1).drop_last() == quads.take(n));
        lemma_formats_error_stays(copyright, quads, year, n + 1);
    }
}

/// Adds the formats for the built-in comment syntaxes to `formats`.
fn add_builtin_formats(formats: &mut Vec<CopyrightFormat>, copyright: &[char], year: i32) -> (r: Result<(), String>)
    ensures
        match formats_of(copyright@, builtin_format_table(), year as int) {
            Ok(fs) => r is Ok && format_views(final(formats)@) == format_views(old(formats)@) + fs,
            Err(e) => r is Err && r->Err_0@ == e,
        },
{
    let table = builtin_formats();
    let ghost quads = builtin_format_table();
    let mut i: usize = 0;
    assert(format_views(old(formats)@) + Seq::<FormatView>::empty() == format_views(old(formats)@));
    while i < table.len()
        invariant
            i <= table@.len(),
            quad_views(table@) == quads,
            quads == builtin_format_table(),
            formats_of(copyright@, quads.take(i as int), year as int) matches Ok(fs)
                && format_views(formats@) == format_views(old(formats)@) + fs,
        decreases table@.len() - i,
    {
        assert(quads.take(i + 1).drop_last() == quads.take(i as int));
        assert(quads.take(i + 1).last() == quads[i as int]);
        let (path_pattern, prefix, per_line_prefix, suffix) = table[i];
        let ghost fs = formats_of(copyright@, quads.take(i as int), year as int)->Ok_0;
        match add_format(formats, copyright, path_pattern, prefix, per_line_prefix, suffix, year) {
            Ok(()) => {
                assert(format_views(formats@) =~= format_views(old(formats)@) + formats_of(copyright@, quads.take(i + 1), year as int)->Ok_0);
            },
            Err(e) => {
                proof {
                    lemma_formats_error_stays(copyright@, quads, year as int, i + 1);
                }
                return Err(e);
            },
        }
        i = i + 1;
    }
    assert(quads.take(table@.len() as int) == quads);
    Ok(())
}

impl CopyrightValidator {
    /// The validator for the copyright template `copyright` (trimmed of
    /// leading and trailing line feeds), the skip pattern `skip_pattern`
    /// and the custom-format arguments `custom_formats` (in fours: path
    /// pattern, prefix, per-line prefix, suffix; a leading `\-` stands for
    /// `-`), with `year` in its suggestions. Custom formats take precedence
    /// over the built-in ones.
    pub fn with_year(
        copyright: &str,
        skip_pattern: &str,
        custom_formats: &Vec<String>,
        year: i32,
    ) -> (r: Result<CopyrightValidator, String>)
        ensures
            match validator_of(copyright@, skip_pattern@, text::string_views(custom_formats@), year as int) {
                Ok(v) => r is Ok && r->Ok_0@ == v,
                Err(e) => r is Err && r->Err_0@ == e,
            },
    {
        let skip = match compile(skip_pattern) {
            Ok(p) => p,
            Err(e) => {
                let mut m: Vec<char> = Vec::new();
                push_str(&mut m, "Invalid --skip_pattern `");
                push_str(&mut m, skip_pattern);
                push_str(&mut m, "`: ");
                push_str(&mut m, e.as_str());
                return Err(string_of(m.as_slice()));
            },
        };
        let ghost args = text::string_views(custom_formats@);
        let ghost quads = custom_quads(args);
        let copyright_chars = chars_of(copyright);
        let c = trim_of(copyright_chars.as_slice(), &Strip::Only('\n'));
        let mut formats: Vec<CopyrightFormat> = Vec::new();
        let n = custom_formats.len() / 4;
        let mut k: usize = 0;
        assert(format_views(formats@) =~= Seq::<FormatView>::empty());
        while k < n
            invariant
                k <= n,
                n == custom_formats@.len() / 4,
                pattern::regex_new_outcome(skip_pattern@) is Ok,
                args == text::string_views(custom_formats@),
                quads == custom_quads(args),
                c@ == text::trim(copyright@, Strip::Only('\n')),
                formats_of(c@, quads.take(k as int), year as int) == Ok::<Seq<FormatView>, Seq<char>>(
                    format_views(formats@),
                ),
            decreases n - k,
        {
            assert(quads.take(k + 1).drop_last() == quads.take(k as int));
            assert(quads.take(k + 1).last() == quads[k as int]);
            let len = custom_formats.len();
            assert(4 * k + 3 < len) by (nonlinear_arith)
                requires
                    k < n,
                    n == len / 4,
            ;
            assert(args[4 * k] == custom_formats@[4 * k as int]@);
            assert(args[4 * k + 1] == custom_formats@[4 * k + 1]@);
            assert(args[4 * k + 2] == custom_formats@[4 * k + 2]@);
            assert(args[4 * k + 3] == custom_formats@[4 * k + 3]@);
            let at: usize = 4 * k;
            let path_pattern = unescape_leading_dash(custom_formats[at].as_str());
            let prefix = unescape_leading_dash(custom_formats[at + 1].as_str());
            let per_line_prefix = unescape_leading_dash(custom_formats[at + 2].as_str());
            let suffix = unescape_leading_dash(custom_formats[at + 3].as_str());
            match add_format(
                &mut formats,
                c.as_slice(),
                path_pattern.as_str(),
                prefix.as_str(),
                per_line_prefix.as_str(),
                suffix.as_str(),
                year,
            ) {
                Ok(()) => {},
                Err(e) => {
                    proof {
                        assert(formats_of(c@, quads.take(k + 1), year as int) == Err::<Seq<FormatView>, Seq<char>>(e@));
                        lemma_formats_error_stays(c@, quads, year as int, k + 1);
                    }
                    return Err(e);
                },
            }
            k = k + 1;
        }
        assert(quads.take(n as int) == quads);
        if custom_formats.len() % 4 != 0 {
            return Err(String::from_str("Custom format must have exactly 4 arguments per instance"));
        }
        match add_builtin_formats(&mut formats, c.as_slice(), year) {
            Ok(()) => {},
            Err(e) => {
                return Err(e);
            },
        }
        Ok(CopyrightValidator { skip: skip, formats: formats })
    }

    /// The validator for the copyright template, skip pattern and
    /// custom-format arguments, as [`CopyrightValidator::with_year`] builds
    /// it with the current year. Every error of the arguments is reported
    /// before the clock is read (no error depends on the year, see
    /// [`law_errors_need_no_year`]); [`CLOCK_ERROR`] comes only for valid
    /// arguments when the clock gives no year.
    pub fn new(copyright: &str, skip_pattern: &str, custom_formats: Vec<String>) -> (r: Result<
        CopyrightValidator,
        String,
    >)
        ensures
            pattern::regex_new_outcome(skip_pattern@) is Err ==> r is Err && r->Err_0@
                == "Invalid --skip_pattern `"@ + skip_pattern@ + "`: "@
                + pattern::regex_new_outcome(skip_pattern@)->Err_0,
            validator_of(copyright@, skip_pattern@, text::string_views(custom_formats@), 1970)
                is Err ==> r is Err && r->Err_0@ == validator_of(
                copyright@,
                skip_pattern@,
                text::string_views(custom_formats@),
                1970,
            )->Err_0,
            validator_of(copyright@, skip_pattern@, text::string_views(custom_formats@), 1970)
                is Ok ==> (r is Err && r->Err_0@ == CLOCK_ERROR@) || exists|year: int|
                year >= 1970 && #[trigger] validator_of(
                    copyright@,
                    skip_pattern@,
                    text::string_views(custom_formats@),
                    year,
                ) is Ok && r is Ok && r->Ok_0@ == validator_of(
                    copyright@,
                    skip_pattern@,
                    text::string_views(custom_formats@),
                    year,
                )->Ok_0,
    {
        match CopyrightValidator::with_year(copyright, skip_pattern, &custom_formats, 1970) {
            Err(e) => {
                return Err(e);
            },
            Ok(_) => {},
        }
        match current_year() {
            Some(year) => {
                proof {
                    law_errors_need_no_year(
                        copyright@,
                        skip_pattern@,
                        text::string_views(custom_formats@),
                        1970,
                        year as int,
                    );
                }
                CopyrightValidator::with_year(copyright, skip_pattern, &custom_formats, year)
            },
            None => Err(String::from_str(CLOCK_ERROR)),
        }
    }
}

// ---------------------------------------------------------------------------
// Checking files
// ---------------------------------------------------------------------------

/// The first format whose path pattern matches `path`.
pub open spec fn format_for(fs: Seq<FormatView>, path: Seq<char>) -> Option<FormatView>
    decreases fs.len(),
{
    if fs.len() == 0 {
        None
    } else if pattern::regex_is_match(fs[0].path, path) {
        Some(fs[0])
    } else {
        format_for(fs.drop_first(), path)
    }
}

/// The header pattern and suggestion that apply to `path`: none for a path
/// the skip pattern matches, else those of the first format whose path
/// pattern matches.
pub open spec fn copyright_for(v: ValidatorView, path: Seq<char>) -> Option<(PatternView, Seq<char>)> {
    if pattern::regex_is_match(v.skip, path) {
        None
    } else {
        match format_for(v.formats, path) {
            Some(f) => Some((f.copyright, f.suggestion)),
            None => None,
        }
    }
}

/// Whether a file's contents pass: contents of at most one byte always do,
/// others must match the header pattern.
pub open spec fn copyright_present(p: PatternView, contents: Seq<char>) -> bool {
    vstd::utf8::encode_utf8(contents).len() <= 1 || pattern::regex_is_match(p, contents)
}

/// Some format applies to every path: its path pattern is empty.
pub open spec fn has_catch_all(fs: Seq<FormatView>) -> bool {
    exists|i: int| 0 <= i < fs.len() && #[trigger] fs[i].path.source.len() == 0
}

impl CopyrightValidator {
    /// The header pattern and suggestion that apply to `path`, if any. When
    /// some format applies to every path, only skipped paths get none.
    pub fn get_copyright(&self, path: &str) -> (r: Option<(&Pattern, &String)>)
        ensures
            match r {
                Some((p, s)) => copyright_for(self@, path@) == Some((p@, s@)),
                None => copyright_for(self@, path@) == None::<(PatternView, Seq<char>)>,
            },
            has_catch_all(self@.formats) ==> (r is None <==> pattern::regex_is_match(
                self@.skip,
                path@,
            )),
    {
        if is_match(&self.skip, path) {
            return None;
        }
        let ghost fs = format_views(self.formats@);
        let mut i: usize = 0;
        assert(fs.skip(0) == fs);
        while i < self.formats.len()
            invariant
                i <= self.formats@.len(),
                fs == format_views(self.formats@),
                !pattern::regex_is_match(self.skip@, path@),
                format_for(fs, path@) == format_for(fs.skip(i as int), path@),
                forall|j: int| 0 <= j < i ==> (#[trigger] fs[j]).path.source.len() != 0,
            decreases self.formats@.len() - i,
        {
            let f = &self.formats[i];
            assert(fs.skip(i as int)[0] == f@);
            assert(fs.skip(i as int).drop_first() == fs.skip(i + 1));
            if is_match(&f.path, path) {
                return Some((&f.copyright, &f.suggestion));
            }
            assert(fs[i as int] == f@);
            i = i + 1;
        }
        assert(!has_catch_all(fs));
        None
    }
}

/// Whether a file's contents pass the header check.
pub fn has_copyright(copyright: &Pattern, contents: &str) -> (r: bool)
    ensures
        r == copyright_present(copyright@, contents@),
{
    contents.as_bytes().len() <= 1 || is_match(copyright, contents)
}


// ---------------------------------------------------------------------------
// Laws
// ---------------------------------------------------------------------------

proof fn lemma_escaped_first(s: Seq<char>)
    ensures
        pattern::escaped(s).len() >= s.len(),
        s.len() > 0 ==> pattern::escaped(s)[0] == (if pattern::is_meta_character(s[0]) { '\\' } else { s[0] }),
    decreases s.len(),
{
    if s.len() > 0 {
        let init = s.drop_last();
        lemma_escaped_first(init);
        if init.len() > 0 {
            assert(init[0] == s[0]);
        }
    }
}

proof fn lemma_no_leading_caret(s: Seq<char>)
    requires
        s.len() > 0 ==> s[0] != '^',
    ensures
        ({
            let r = text::replace_str(s, "YYYY"@, "\\d+"@);
            r.len() > 0 ==> r[0] != '^'
        }),
{
    reveal_strlit("YYYY");
    reveal_strlit("\\d+");
    if s.len() > 0 {
        let r = text::replace_str(s, "YYYY"@, "\\d+"@);
        if text::starts_with(s, "YYYY"@) {
            assert(r[0] == "\\d+"@[0]);
        } else {
            assert(r[0] == s[0]);
        }
    }
}

/// A format made for a header block `B` (the template laid out with the
/// comment's prefix, per-line prefix and suffix) applies to the paths that
/// `path_pattern` matches; it checks contents with a pattern that is `B`
/// escaped, with each `YYYY` replaced by `\d+`, so that `B` with any year
/// matches wherever it stands in the contents: the pattern has no anchor,
/// and in particular it does not start with `^`. Its suggestion is `B` with
/// each `YYYY` replaced by `year`.
pub proof fn law_header_pattern_is_the_block_anywhere(
    copyright: Seq<char>,
    path_pattern: Seq<char>,
    prefix: Seq<char>,
    per_line_prefix: Seq<char>,
    suffix: Seq<char>,
    year: int,
)
    ensures
        format_of(copyright, path_pattern, prefix, per_line_prefix, suffix, year) matches Ok(f) ==> {
            let b = header_block(copyright, prefix, per_line_prefix, suffix);
            &&& f.path == (PatternView { source: path_pattern, dot_all: false })
            &&& f.copyright == (PatternView {
                source: text::replace_str(pattern::escaped(b), "YYYY"@, "\\d+"@),
                dot_all: false,
            })
            &&& f.copyright.source.len() > 0 ==> f.copyright.source[0] != '^'
            &&& f.suggestion == text::replace_str(b, "YYYY"@, text::signed_decimal(year))
        },
{
    let b = header_block(copyright, prefix, per_line_prefix, suffix);
    lemma_escaped_first(b);
    lemma_no_leading_caret(pattern::escaped(b));
}

/// A path that the skip pattern matches needs no header.
pub proof fn law_skip_wins(v: ValidatorView, path: Seq<char>)
    requires
        pattern::regex_is_match(v.skip, path),
    ensures
        copyright_for(v, path) is None,
{
}

/// Contents of at most one byte always pass.
pub proof fn law_tiny_contents_pass(p: PatternView, contents: Seq<char>)
    requires
        vstd::utf8::encode_utf8(contents).len() <= 1,
    ensures
        copyright_present(p, contents),
{
}

/// Formats earlier in the list take precedence: the format for a path in
/// `first + rest` is the first of `first` that applies, or else the first
/// of `rest`.
pub proof fn law_earlier_formats_win(first: Seq<FormatView>, rest: Seq<FormatView>, path: Seq<char>)
    ensures
        format_for(first + rest, path) == match format_for(first, path) {
            Some(f) => Some(f),
            None => format_for(rest, path),
        },
    decreases first.len(),
{
    if first.len() > 0 {
        assert((first + rest)[0] == first[0]);
        assert((first + rest).drop_first() == first.drop_first() + rest);
        law_earlier_formats_win(first.drop_first(), rest, path);
    } else {
        assert(first + rest == rest);
    }
}

/// Building formats gives one format per argument quadruple, in order.
pub proof fn law_one_format_per_quadruple(
    copyright: Seq<char>,
    quads: Seq<(Seq<char>, Seq<char>, Seq<char>, Seq<char>)>,
    year: int,
)
    ensures
        formats_of(copyright, quads, year) matches Ok(fs) ==> fs.len() == quads.len() && forall|
            i: int,
        |
            0 <= i < quads.len() ==> format_of(
                copyright,
                quads[i].0,
                quads[i].1,
                quads[i].2,
                quads[i].3,
                year,
            ) == Ok::<FormatView, Seq<char>>(#[trigger] fs[i]),
    decreases quads.len(),
{
    if quads.len() > 0 {
        let init = quads.drop_last();
        law_one_format_per_quadruple(copyright, init, year);
        if let Ok(fs) = formats_of(copyright, quads, year) {
            let prev = formats_of(copyright, init, year)->Ok_0;
            assert forall|i: int| 0 <= i < quads.len() implies format_of(
                copyright,
                quads[i].0,
                quads[i].1,
                quads[i].2,
                quads[i].3,
                year,
            ) == Ok::<FormatView, Seq<char>>(#[trigger] fs[i]) by {
                if i < init.len() {
                    assert(fs[i] == prev[i]);
                    assert(quads[i] == init[i]);
                }
            }
        }
    }
}

/// A validator has the custom formats, one per complete quadruple of
/// arguments, followed by the five built-in ones; so a custom format that
/// applies to a path takes precedence over the built-in ones.
pub proof fn law_custom_formats_first(
    copyright: Seq<char>,
    skip_pattern: Seq<char>,
    custom: Seq<Seq<char>>,
    year: int,
    path: Seq<char>,
)
    ensures
        validator_of(copyright, skip_pattern, custom, year) matches Ok(v) ==> {
            let c = text::trim(copyright, Strip::Only('\n'));
            let first = formats_of(c, custom_quads(custom), year)->Ok_0;
            &&& v.formats.len() == custom.len() / 4 + 5
            &&& v.formats.take(first.len() as int) == first
            &&& format_for(first, path) is Some ==> format_for(v.formats, path) == format_for(first, path)
        },
{
    let c = text::trim(copyright, Strip::Only('\n'));
    law_one_format_per_quadruple(c, custom_quads(custom), year);
    law_one_format_per_quadruple(c, builtin_format_table(), year);
    if let Ok(v) = validator_of(copyright, skip_pattern, custom, year) {
        let first = formats_of(c, custom_quads(custom), year)->Ok_0;
        let rest = formats_of(c, builtin_format_table(), year)->Ok_0;
        assert(v.formats == first + rest);
        assert((first + rest).take(first.len() as int) == first);
        law_earlier_formats_win(first, rest, path);
    }
}


/// A validator that [`CopyrightValidator::with_year`] (or `new`) builds
/// ends with the built-in format for every other path, whose path pattern
/// is empty; so, by [`CopyrightValidator::get_copyright`], it offers no
/// header exactly for the paths its skip pattern matches.
pub proof fn law_only_skipped_paths_go_without(
    copyright: Seq<char>,
    skip_pattern: Seq<char>,
    custom: Seq<Seq<char>>,
    year: int,
)
    ensures
        validator_of(copyright, skip_pattern, custom, year) matches Ok(v) ==> has_catch_all(v.formats),
{
    let c = text::trim(copyright, Strip::Only('\n'));
    law_one_format_per_quadruple(c, builtin_format_table(), year);
    if let Ok(v) = validator_of(copyright, skip_pattern, custom, year) {
        let first = formats_of(c, custom_quads(custom), year)->Ok_0;
        let rest = formats_of(c, builtin_format_table(), year)->Ok_0;
        let table = builtin_format_table();
        reveal_strlit("");
        assert(table[4].0 == ""@);
        assert(rest[4].path.source == table[4].0);
        assert(v.formats[first.len() + 4int] == rest[4]);
        assert(v.formats[first.len() + 4int].path.source.len() == 0);
    }
}


/// Unescaping a leading `\-` twice unescapes no more than once.
pub proof fn lemma_unescape_idempotent(arg: Seq<char>)
    ensures
        unescape_dash(unescape_dash(arg)) == unescape_dash(arg),
{
    if text::starts_with(arg, seq!['\\', '-']) {
        let u = seq!['-'] + arg.skip(2);
        assert(u[0] == '-');
        if text::starts_with(u, seq!['\\', '-']) {
            assert(u.take(2)[0] == seq!['\\', '-'][0]);
        }
    }
}

/// Line feeds around the template, and a leading `\-` in the custom-format
/// arguments, count as if already removed: building from the trimmed
/// template and the unescaped arguments gives the same outcome.
pub proof fn law_trim_and_unescape_are_settled(
    copyright: Seq<char>,
    skip_pattern: Seq<char>,
    custom: Seq<Seq<char>>,
    year: int,
)
    ensures
        validator_of(copyright, skip_pattern, custom, year) == validator_of(
            text::trim(copyright, Strip::Only('\n')),
            skip_pattern,
            custom.map_values(|a: Seq<char>| unescape_dash(a)),
            year,
        ),
{
    let unescaped = custom.map_values(|a: Seq<char>| unescape_dash(a));
    text::lemma_trim_idempotent(copyright, Strip::Only('\n'));
    assert forall|i: int| 0 <= i < custom.len() implies unescape_dash(#[trigger] unescaped[i])
        == unescape_dash(custom[i]) by {
        lemma_unescape_idempotent(custom[i]);
    }
    let q1 = custom_quads(custom);
    let q2 = custom_quads(unescaped);
    assert forall|k: int| 0 <= k < q1.len() implies #[trigger] q1[k] == q2[k] by {
        assert(0 <= 4 * k && 4 * k + 3 < custom.len()) by (nonlinear_arith)
            requires
                0 <= k < custom.len() / 4,
        ;
        assert(unescape_dash(unescaped[4 * k]) == unescape_dash(custom[4 * k]));
        assert(unescape_dash(unescaped[4 * k + 1]) == unescape_dash(custom[4 * k + 1]));
        assert(unescape_dash(unescaped[4 * k + 2]) == unescape_dash(custom[4 * k + 2]));
        assert(unescape_dash(unescaped[4 * k + 3]) == unescape_dash(custom[4 * k + 3]));
    }
    assert(q1 =~= q2);
}


proof fn lemma_format_errors_need_no_year(
    copyright: Seq<char>,
    quads: Seq<(Seq<char>, Seq<char>, Seq<char>, Seq<char>)>,
    y1: int,
    y2: int,
)
    ensures
        formats_of(copyright, quads, y1) is Ok == formats_of(copyright, quads, y2) is Ok,
        formats_of(copyright, quads, y1) is Err ==> formats_of(copyright, quads, y1)
            == formats_of(copyright, quads, y2),
    decreases quads.len(),
{
    if quads.len() > 0 {
        lemma_format_errors_need_no_year(copyright, quads.drop_last(), y1, y2);
    }
}

/// Whether the arguments make a validator, and the error when they do not,
/// are the same for every year: the year only goes into the suggestions.
pub proof fn law_errors_need_no_year(
    copyright: Seq<char>,
    skip_pattern: Seq<char>,
    custom: Seq<Seq<char>>,
    y1: int,
    y2: int,
)
    ensures
        validator_of(copyright, skip_pattern, custom, y1) is Ok == validator_of(
            copyright,
            skip_pattern,
            custom,
            y2,
        ) is Ok,
        validator_of(copyright, skip_pattern, custom, y1) is Err ==> validator_of(
            copyright,
            skip_pattern,
            custom,
            y1,
        ) == validator_of(copyright, skip_pattern, custom, y2),
{
    let c = text::trim(copyright, Strip::Only('\n'));
    lemma_format_errors_need_no_year(c, custom_quads(custom), y1, y2);
    lemma_format_errors_need_no_year(c, builtin_format_table(), y1, y2);
}

} // verus!
