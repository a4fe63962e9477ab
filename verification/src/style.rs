//! Doc-style rewriting of markdown: discouraged words are replaced by the
//! preferred ones, outside regions that are marked to be ignored.

use vstd::prelude::*;

use crate::pattern::{self, compile, escape, replace_all, Pattern, PatternView};
use crate::text::{self, chars_of, join_exec, push_decimal, same_chars, split_exec, string_of};

verus! {

/// The line that starts a region the style check leaves alone.
pub const IGNORE_START: &'static str = "<!-- google-doc-style-ignore -->";

/// The line that ends a region the style check leaves alone.
pub const IGNORE_STOP: &'static str = "<!-- google-doc-style-resume -->";

/// A compiled rule: matches of `pattern` in a line are replaced by
/// `suggestion`, in which `${1}` and `${3}` stand for the captured
/// surroundings of the word.
pub struct Replacer {
    pub pattern: Pattern,
    pub suggestion: String,
}

/// A rule's pattern and suggestion.
pub struct ReplacerView {
    pub pattern: PatternView,
    pub suggestion: Seq<char>,
}

impl View for Replacer {
    type V = ReplacerView;

    open spec fn view(&self) -> ReplacerView {
        ReplacerView { pattern: self.pattern@, suggestion: self.suggestion@ }
    }
}

pub open spec fn replacer_views(rs: Seq<Replacer>) -> Seq<ReplacerView> {
    rs.map_values(|r: Replacer| r@)
}

// ---------------------------------------------------------------------------
// Building the rules
// ---------------------------------------------------------------------------

/// The words to avoid and what to write instead, in the order they apply.
pub open spec fn style_rule_table() -> Seq<(Seq<char>, Seq<char>)> {
    seq![
        ("blacklist"@, "blocklist"@),
        ("cons"@, "disadvantages"@),
        ("e.g."@, "for example"@),
        ("file name"@, "filename"@),
        ("filesystem"@, "file system"@),
        ("for instance"@, "for example"@),
        ("i.e."@, "that is"@),
        ("pros"@, "advantages"@),
        ("repo"@, "repository"@),
        ("repos"@, "repositories"@),
        ("tl;dr"@, "to summarize"@),
        ("via"@, "by way of"@),
        ("vice versa"@, "the other way around"@),
        ("vs."@, "versus"@),
        ("whitelist"@, "allowlist"@),
    ]
}

/// The words to avoid and what to write instead.
pub fn style_rules() -> (r: Vec<(&'static str, &'static str)>)
    ensures
        rule_views(r@) == style_rule_table(),
        forall|i: int|
            0 <= i < r@.len() ==> #[trigger] r@[i].1@.len() > 0 && (r@[i].1@[0] as u32) < 0x80,
{
    let r = vec![
        ("blacklist", "blocklist"),
        ("cons", "disadvantages"),
        ("e.g.", "for example"),
        ("file name", "filename"),
        ("filesystem", "file system"),
        ("for instance", "for example"),
        ("i.e.", "that is"),
        ("pros", "advantages"),
        ("repo", "repository"),
        ("repos", "repositories"),
        ("tl;dr", "to summarize"),
        ("via", "by way of"),
        ("vice versa", "the other way around"),
        ("vs.", "versus"),
        ("whitelist", "allowlist"),
    ];
    proof {
        reveal_strlit("blocklist");
        reveal_strlit("disadvantages");
        reveal_strlit("for example");
        reveal_strlit("filename");
        reveal_strlit("file system");
        reveal_strlit("that is");
        reveal_strlit("advantages");
        reveal_strlit("repository");
        reveal_strlit("repositories");
        reveal_strlit("to summarize");
        reveal_strlit("by way of");
        reveal_strlit("the other way around");
        reveal_strlit("versus");
        reveal_strlit("allowlist");
        assert(rule_views(r@) =~= style_rule_table());
    }
    r
}

/// The pattern for the word `before`: the word with a non-word character or
/// the line's edge on each side, optionally matched without regard to case.
pub open spec fn rule_pattern(before: Seq<char>, ignore_case: bool) -> Seq<char> {
    (if ignore_case {
        "(?i)"@
    } else {
        Seq::<char>::empty()
    }) + "(^|\\W)("@ + pattern::escaped(before) + ")(\\W|$)"@
}

/// The replacement for a match: the surroundings kept, the word replaced.
pub open spec fn rule_suggestion(after: Seq<char>) -> Seq<char> {
    "${1}"@ + after + "${3}"@
}

/// `s` with its first character uppercased.
pub open spec fn capitalized(s: Seq<char>) -> Seq<char> {
    text::uppercase(s[0]) + s.drop_first()
}

/// The pattern sources and suggestions of the rules: first each rule as
/// written, then each matched without regard to case with a capitalized
/// suggestion.
pub open spec fn rule_sources(rules: Seq<(Seq<char>, Seq<char>)>) -> Seq<(Seq<char>, Seq<char>)> {
    Seq::new(rules.len(), |i: int| (rule_pattern(rules[i].0, false), rule_suggestion(rules[i].1)))
        + Seq::new(
        rules.len(),
        |i: int| (rule_pattern(rules[i].0, true), rule_suggestion(capitalized(rules[i].1))),
    )
}

/// The compiled rules for the sources, or the first compile error.
pub open spec fn compiled_rules(sources: Seq<(Seq<char>, Seq<char>)>) -> Result<
    Seq<ReplacerView>,
    Seq<char>,
>
    decreases sources.len(),
{
    if sources.len() == 0 {
        Ok(Seq::empty())
    } else {
        match compiled_rules(sources.drop_last()) {
            Err(e) => Err(e),
            Ok(rs) => match pattern::regex_new_outcome(sources.last().0) {
                Err(e) => Err(e),
                Ok(_) => Ok(
                    rs.push(
                        ReplacerView {
                            pattern: PatternView { source: sources.last().0, dot_all: false },
                            suggestion: sources.last().1,
                        },
                    ),
                ),
            },
        }
    }
}

pub open spec fn rule_views(rules: Seq<(&str, &str)>) -> Seq<(Seq<char>, Seq<char>)> {
    rules.map_values(|r: (&str, &str)| (r.0@, r.1@))
}

fn append_str(out: &mut Vec<char>, s: &str)
    ensures
        final(out)@ == old(out)@ + s@,
{
    let c = chars_of(s);
    text::append_chars(out, c.as_slice());
}

/// The pattern source and suggestion for one rule.
fn rule_source(before: &str, after: &str, ignore_case: bool) -> (r: (String, String))
    requires
        after@.len() > 0,
        (after@[0] as u32) < 0x80,
    ensures
        r.0@ == rule_pattern(before@, ignore_case),
        r.1@ == rule_suggestion(if ignore_case { capitalized(after@) } else { after@ }),
{
    let mut p: Vec<char> = Vec::new();
    if ignore_case {
        append_str(&mut p, "(?i)");
    }
    append_str(&mut p, "(^|\\W)(");
    append_str(&mut p, escape(before).as_str());
    append_str(&mut p, ")(\\W|$)");
    let mut s: Vec<char> = Vec::new();
    append_str(&mut s, "${1}");
    if ignore_case {
        let a = chars_of(after);
        append_str(&mut s, text::char_to_uppercase(a[0]).as_str());
        text::append_chars(&mut s, text::slice_range(a.as_slice(), 1, a.len()).as_slice());
        assert(a@.subrange(1, a@.len() as int) == a@.drop_first());
    } else {
        append_str(&mut s, after);
    }
    append_str(&mut s, "${3}");
    proof {
        if !ignore_case {
            assert(p@ =~= rule_pattern(before@, ignore_case));
        }
    }
    (string_of(p.as_slice()), string_of(s.as_slice()))
}

/// Compiles the rules `rules`, each word to avoid with its replacement.
pub fn replacers_for(rules: &Vec<(&str, &str)>) -> (r: Result<Vec<Replacer>, String>)
    requires
        forall|i: int|
            0 <= i < rules@.len() ==> #[trigger] rules@[i].1@.len() > 0 && (rules@[i].1@[0] as u32)
                < 0x80,
    ensures
        match r {
            Ok(rs) => compiled_rules(rule_sources(rule_views(rules@))) == Ok::<
                Seq<ReplacerView>,
                Seq<char>,
            >(replacer_views(rs@)),
            Err(e) => compiled_rules(rule_sources(rule_views(rules@))) == Err::<
                Seq<ReplacerView>,
                Seq<char>,
            >(e@),
        },
{
    let ghost sources = rule_sources(rule_views(rules@));
    let mut out: Vec<Replacer> = Vec::new();
    let n = rules.len();
    assert(replacer_views(out@) =~= Seq::<ReplacerView>::empty());
    let mut pass: usize = 0;
    while pass < 2
        invariant
            n == rules@.len(),
            pass <= 2,
            sources == rule_sources(rule_views(rules@)),
            sources.len() == 2 * n,
            forall|i: int|
                0 <= i < rules@.len() ==> #[trigger] rules@[i].1@.len() > 0 && (
                rules@[i].1@[0] as u32) < 0x80,
            compiled_rules(sources.take(pass * n)) == Ok::<Seq<ReplacerView>, Seq<char>>(
                replacer_views(out@),
            ),
        decreases 2 - pass,
    {
        let ignore_case = pass == 1;
        let mut idx: usize = 0;
        while idx < n
            invariant
                n == rules@.len(),
                pass < 2,
                ignore_case == (pass == 1),
                idx <= n,
                sources == rule_sources(rule_views(rules@)),
                sources.len() == 2 * n,
                forall|i: int|
                    0 <= i < rules@.len() ==> #[trigger] rules@[i].1@.len() > 0 && (
                    rules@[i].1@[0] as u32) < 0x80,
                compiled_rules(sources.take(pass * n + idx)) == Ok::<Seq<ReplacerView>, Seq<char>>(
                    replacer_views(out@),
                ),
            decreases n - idx,
        {
            let ghost k: int = pass * n + idx;
            let (before, after) = rules[idx];
            assert(rule_views(rules@)[idx as int] == (before@, after@));
            assert(rules@[idx as int].1@.len() > 0);
            let (src, suggestion) = rule_source(before, after, ignore_case);
            assert(sources[k] == (src@, suggestion@));
            assert(sources.take(k + 1).drop_last() == sources.take(k));
            let ghost old_out = out@;
            match compile(src.as_str()) {
                Ok(p) => {
                    out.push(Replacer { pattern: p, suggestion: suggestion });
                    assert(replacer_views(out@) =~= replacer_views(old_out).push(out@.last()@));
                },
                Err(e) => {
                    proof {
                        lemma_compiled_rules_error_stays(sources, k + 1);
                    }
                    return Err(e);
                },
            }
            idx = idx + 1;
        }
        pass = pass + 1;
    }
    assert(sources.take(2 * n as int) == sources);
    Ok(out)
}

proof fn lemma_compiled_rules_error_stays(sources: Seq<(Seq<char>, Seq<char>)>, n: int)
    requires
        0 <= n <= sources.len(),
        compiled_rules(sources.take(n)) is Err,
    ensures
        compiled_rules(sources) == compiled_rules(sources.take(n)),
    decreases sources.len() - n,
{
    if n == sources.len() {
        assert(sources.take(n) == sources);
    } else {
        assert(sources.take(n + 1).drop_last() == sources.take(n));
        lemma_compiled_rules_error_stays(sources, n + 1);
    }
}

proof fn lemma_compiled_rules_shape(sources: Seq<(Seq<char>, Seq<char>)>)
    ensures
        compiled_rules(sources) matches Ok(rs) ==> {
            &&& rs.len() == sources.len()
            &&& forall|i: int|
                0 <= i < rs.len() ==> #[trigger] rs[i] == (ReplacerView {
                    pattern: PatternView { source: sources[i].0, dot_all: false },
                    suggestion: sources[i].1,
                })
        },
    decreases sources.len(),
{
    if sources.len() > 0 {
        let init = sources.drop_last();
        lemma_compiled_rules_shape(init);
        if let Ok(rs) = compiled_rules(sources) {
            let rs0 = compiled_rules(init)->Ok_0;
            assert(rs == rs0.push(rs.last()));
            assert forall|i: int| 0 <= i < rs.len() implies #[trigger] rs[i] == (ReplacerView {
                pattern: PatternView { source: sources[i].0, dot_all: false },
                suggestion: sources[i].1,
            }) by {
                if i < rs0.len() {
                    assert(rs[i] == rs0[i]);
                    assert(sources[i] == init[i]);
                }
            }
        }
    }
}

/// The rules compiled from a table of `n` rules are `2 * n` replacers.
/// Replacer `i` finds the word `before` of rule `i` with a non-word
/// character or the line's edge on each side, by the pattern
/// `(^|\W)(` + the escaped word + `)(\W|$)`, and puts `after` in the word's
/// place with both sides kept (`${1}` + `after` + `${3}`). Replacer `n + i`
/// is the same pattern behind `(?i)`, so that case does not matter, and puts
/// `after` with its first letter uppercased.
pub proof fn law_rules_match_between_non_word_characters(rules: Seq<(Seq<char>, Seq<char>)>)
    ensures
        compiled_rules(rule_sources(rules)) matches Ok(rs) ==> {
            &&& rs.len() == 2 * rules.len()
            &&& forall|i: int|
                0 <= i < rules.len() ==> #[trigger] rs[i] == (ReplacerView {
                    pattern: PatternView {
                        source: "(^|\\W)("@ + pattern::escaped(rules[i].0) + ")(\\W|$)"@,
                        dot_all: false,
                    },
                    suggestion: "${1}"@ + rules[i].1 + "${3}"@,
                })
            &&& forall|i: int|
                0 <= i < rules.len() ==> #[trigger] rs[rules.len() + i] == (ReplacerView {
                    pattern: PatternView {
                        source: "(?i)"@ + "(^|\\W)("@ + pattern::escaped(rules[i].0) + ")(\\W|$)"@,
                        dot_all: false,
                    },
                    suggestion: "${1}"@ + (text::uppercase(rules[i].1[0]) + rules[i].1.drop_first())
                        + "${3}"@,
                })
        },
{
    let sources = rule_sources(rules);
    lemma_compiled_rules_shape(sources);
    if let Ok(rs) = compiled_rules(sources) {
        assert forall|i: int| 0 <= i < rules.len() implies #[trigger] rs[i] == (ReplacerView {
            pattern: PatternView {
                source: "(^|\\W)("@ + pattern::escaped(rules[i].0) + ")(\\W|$)"@,
                dot_all: false,
            },
            suggestion: "${1}"@ + rules[i].1 + "${3}"@,
        }) by {
            assert(sources[i] == (rule_pattern(rules[i].0, false), rule_suggestion(rules[i].1)));
            assert(Seq::<char>::empty() + "(^|\\W)("@ =~= "(^|\\W)("@);
        }
        assert forall|i: int| 0 <= i < rules.len() implies #[trigger] rs[rules.len() + i] == (ReplacerView {
            pattern: PatternView {
                source: "(?i)"@ + "(^|\\W)("@ + pattern::escaped(rules[i].0) + ")(\\W|$)"@,
                dot_all: false,
            },
            suggestion: "${1}"@ + (text::uppercase(rules[i].1[0]) + rules[i].1.drop_first()) + "${3}"@,
        }) by {
            assert(sources[rules.len() + i] == (
                rule_pattern(rules[i].0, true),
                rule_suggestion(capitalized(rules[i].1)),
            ));
        }
    }
}

/// The style rules, compiled: first as written, then without regard to
/// case.
pub fn build_replacers() -> (r: Result<Vec<Replacer>, String>)
    ensures
        match r {
            Ok(rs) => compiled_rules(rule_sources(style_rule_table())) == Ok::<
                Seq<ReplacerView>,
                Seq<char>,
            >(replacer_views(rs@)),
            Err(e) => compiled_rules(rule_sources(style_rule_table())) == Err::<
                Seq<ReplacerView>,
                Seq<char>,
            >(e@),
        },
{
    let rules = style_rules();
    replacers_for(&rules)
}


// ---------------------------------------------------------------------------
// Applying the rules
// ---------------------------------------------------------------------------

/// A line with every rule applied in turn.
pub open spec fn restyled_line(rs: Seq<ReplacerView>, line: Seq<char>) -> Seq<char>
    decreases rs.len(),
{
    if rs.len() == 0 {
        line
    } else {
        pattern::regex_replace_all(
            rs.last().pattern,
            restyled_line(rs.drop_last(), line),
            rs.last().suggestion,
        )
    }
}

/// The error for a start marker inside an ignored region, on line `n`.
pub open spec fn repeated_start_message(n: nat) -> Seq<char> {
    "Found a repeated '"@ + IGNORE_START@ + "' without a '"@ + IGNORE_STOP@ + "' on line "@
        + text::decimal(n)
}

/// The error for a stop marker outside an ignored region, on line `n`.
pub open spec fn stray_stop_message(n: nat) -> Seq<char> {
    "Found a '"@ + IGNORE_STOP@ + "' without a preceding '"@ + IGNORE_START@ + "' on line "@
        + text::decimal(n)
}

/// The error for an ignored region that never ends.
pub open spec fn unclosed_message() -> Seq<char> {
    "Found a '"@ + IGNORE_START@ + "' without a stopping '"@ + IGNORE_STOP@ + "'"@
}

/// The state of the check after some lines: whether inside an ignored
/// region, whether some line changed, and the lines so far.
pub struct StyleState {
    pub ignoring: bool,
    pub modified: bool,
    pub lines: Seq<Seq<char>>,
}

/// The check of the lines `lines`, stopping at the first error; line
/// numbers count from 1.
pub open spec fn style_scan(rs: Seq<ReplacerView>, lines: Seq<Seq<char>>) -> Result<
    StyleState,
    Seq<char>,
>
    decreases lines.len(),
{
    if lines.len() == 0 {
        Ok(StyleState { ignoring: false, modified: false, lines: Seq::empty() })
    } else {
        match style_scan(rs, lines.drop_last()) {
            Err(e) => Err(e),
            Ok(st) => {
                let line = lines.last();
                let number = lines.len();
                if line == IGNORE_START@ {
                    if st.ignoring {
                        Err(repeated_start_message(number))
                    } else {
                        Ok(StyleState { ignoring: true, lines: st.lines.push(line), ..st })
                    }
                } else if line == IGNORE_STOP@ {
                    if !st.ignoring {
                        Err(stray_stop_message(number))
                    } else {
                        Ok(StyleState { ignoring: false, lines: st.lines.push(line), ..st })
                    }
                } else if !st.ignoring {
                    let new_line = restyled_line(rs, line);
                    Ok(
                        StyleState {
                            modified: st.modified || new_line != line,
                            lines: st.lines.push(new_line),
                            ..st
                        },
                    )
                } else {
                    Ok(StyleState { lines: st.lines.push(line), ..st })
                }
            },
        }
    }
}

/// What checking the style of `contents` gives: `Ok(None)` when nothing
/// changes, `Ok(Some(new))` with the rewritten document, or an error.
pub open spec fn restyle_of(rs: Seq<ReplacerView>, contents: Seq<char>) -> Result<
    Option<Seq<char>>,
    Seq<char>,
> {
    match style_scan(rs, text::split(contents, '\n')) {
        Err(e) => Err(e),
        Ok(st) => if st.ignoring {
            Err(unclosed_message())
        } else if st.modified {
            Ok(Some(text::join(st.lines, seq!['\n'])))
        } else {
            Ok(None)
        },
    }
}

fn message_with_line(parts: &Vec<&str>, n: usize) -> (r: String)
    ensures
        r@ == parts@.map_values(|p: &str| p@).fold_left(Seq::<char>::empty(), |acc: Seq<char>, p: Seq<char>| acc + p) + text::decimal(n as nat),
{
    let mut out: Vec<char> = Vec::new();
    let ghost views = parts@.map_values(|p: &str| p@);
    let mut i: usize = 0;
    while i < parts.len()
        invariant
            i <= parts@.len(),
            views == parts@.map_values(|p: &str| p@),
            out@ == views.take(i as int).fold_left(Seq::<char>::empty(), |acc: Seq<char>, p: Seq<char>| acc + p),
        decreases parts@.len() - i,
    {
        assert(views.take(i + 1).drop_last() == views.take(i as int));
        let c = chars_of(parts[i]);
        text::append_chars(&mut out, c.as_slice());
        i = i + 1;
    }
    assert(views.take(parts@.len() as int) == views);
    push_decimal(&mut out, n as u64);
    string_of(out.as_slice())
}

/// A line with every rule applied in turn.
pub fn restyle_line(replacers: &Vec<Replacer>, line: &str) -> (r: String)
    ensures
        r@ == restyled_line(replacer_views(replacers@), line@),
{
    let ghost rs = replacer_views(replacers@);
    let mut cur = String::from_str(line);
    let mut i: usize = 0;
    while i < replacers.len()
        invariant
            i <= replacers@.len(),
            rs == replacer_views(replacers@),
            cur@ == restyled_line(rs.take(i as int), line@),
        decreases replacers@.len() - i,
    {
        assert(rs.take(i + 1).drop_last() == rs.take(i as int));
        assert(rs.take(i + 1).last() == replacers@[i as int]@);
        let r = &replacers[i];
        cur = replace_all(&r.pattern, cur.as_str(), r.suggestion.as_str());
        i = i + 1;
    }
    assert(rs.take(replacers@.len() as int) == rs);
    cur
}

/// Checks the doc style of `contents`: outside regions between
/// [`IGNORE_START`] and [`IGNORE_STOP`] lines, every rule is applied to
/// every line. `Ok(Some(new))` holds the rewritten document when a line
/// changed, `Ok(None)` says nothing changed; markers out of place are errors.
pub fn restyle(replacers: &Vec<Replacer>, contents: &str) -> (r: Result<Option<String>, String>)
    ensures
        match r {
            Ok(None) => restyle_of(replacer_views(replacers@), contents@) == Ok::<
                Option<Seq<char>>,
                Seq<char>,
            >(None),
            Ok(Some(new)) => restyle_of(replacer_views(replacers@), contents@) == Ok::<
                Option<Seq<char>>,
                Seq<char>,
            >(Some(new@)),
            Err(e) => restyle_of(replacer_views(replacers@), contents@) == Err::<
                Option<Seq<char>>,
                Seq<char>,
            >(e@),
        },
{
    let ghost rs = replacer_views(replacers@);
    let chars = chars_of(contents);
    let pieces = split_exec(chars.as_slice(), '\n');
    let ghost lines = text::split(contents@, '\n');
    let start = chars_of(IGNORE_START);
    let stop = chars_of(IGNORE_STOP);
    let mut out: Vec<Vec<char>> = Vec::new();
    let mut ignoring = false;
    let mut modified = false;
    let mut i: usize = 0;
    assert(out@.map_values(|p: Vec<char>| p@) =~= Seq::<Seq<char>>::empty());
    while i < pieces.len()
        invariant
            i <= pieces@.len(),
            pieces@.len() == lines.len(),
            lines == text::split(contents@, '\n'),
            rs == replacer_views(replacers@),
            forall|k: int| 0 <= k < pieces@.len() ==> #[trigger] pieces@[k]@ == lines[k],
            start@ == IGNORE_START@,
            stop@ == IGNORE_STOP@,
            style_scan(rs, lines.take(i as int)) == Ok::<StyleState, Seq<char>>(
                StyleState {
                    ignoring: ignoring,
                    modified: modified,
                    lines: out@.map_values(|p: Vec<char>| p@),
                },
            ),
        decreases pieces@.len() - i,
    {
        let line = &pieces[i];
        assert(lines.take(i + 1).drop_last() == lines.take(i as int));
        assert(lines.take(i + 1).last() == line@);
        let ghost old_out = out@;
        if same_chars(line.as_slice(), start.as_slice()) {
            if ignoring {
                let parts = vec!["Found a repeated '", IGNORE_START, "' without a '", IGNORE_STOP, "' on line "];
                let m = message_with_line(&parts, i + 1);
                proof {
                    assert(parts@.map_values(|p: &str| p@).fold_left(Seq::<char>::empty(), |acc: Seq<char>, p: Seq<char>| acc + p) =~= "Found a repeated '"@ + IGNORE_START@ + "' without a '"@ + IGNORE_STOP@ + "' on line "@) by {
                        reveal_with_fuel(Seq::fold_left, 6);
                    }
                    lemma_style_error_stays(rs, lines, i as int + 1);
                }
                return Err(m);
            }
            ignoring = true;
            out.push(slice_all(line));
        } else if same_chars(line.as_slice(), stop.as_slice()) {
            if !ignoring {
                let parts = vec!["Found a '", IGNORE_STOP, "' without a preceding '", IGNORE_START, "' on line "];
                let m = message_with_line(&parts, i + 1);
                proof {
                    assert(parts@.map_values(|p: &str| p@).fold_left(Seq::<char>::empty(), |acc: Seq<char>, p: Seq<char>| acc + p) =~= "Found a '"@ + IGNORE_STOP@ + "' without a preceding '"@ + IGNORE_START@ + "' on line "@) by {
                        reveal_with_fuel(Seq::fold_left, 6);
                    }
                    lemma_style_error_stays(rs, lines, i as int + 1);
                }
                return Err(m);
            }
            ignoring = false;
            out.push(slice_all(line));
        } else if !ignoring {
            let text_line = string_of(line.as_slice());
            let new_line = restyle_line(replacers, text_line.as_str());
            let new_chars = chars_of(new_line.as_str());
            if !same_chars(new_chars.as_slice(), line.as_slice()) {
                modified = true;
            }
            out.push(new_chars);
        } else {
            out.push(slice_all(line));
        }
        assert(out@.map_values(|p: Vec<char>| p@) =~= old_out.map_values(|p: Vec<char>| p@).push(out@.last()@));
        i = i + 1;
    }
    assert(lines.take(pieces@.len() as int) == lines);
    if ignoring {
        let mut m: Vec<char> = Vec::new();
        text::append_chars(&mut m, chars_of("Found a '").as_slice());
        text::append_chars(&mut m, start.as_slice());
        text::append_chars(&mut m, chars_of("' without a stopping '").as_slice());
        text::append_chars(&mut m, stop.as_slice());
        text::append_chars(&mut m, chars_of("'").as_slice());
        return Err(string_of(m.as_slice()));
    }
    if modified {
        let newline = vec!['\n'];
        let joined = join_exec(&out, newline.as_slice());
        assert(newline@ == seq!['\n']);
        Ok(Some(string_of(joined.as_slice())))
    } else {
        Ok(None)
    }
}

fn slice_all(v: &Vec<char>) -> (r: Vec<char>)
    ensures
        r@ == v@,
{
    let r = text::slice_range(v.as_slice(), 0, v.len());
    assert(v@.subrange(0, v@.len() as int) == v@);
    r
}

proof fn lemma_style_error_stays(rs: Seq<ReplacerView>, lines: Seq<Seq<char>>, n: int)
    requires
        0 <= n <= lines.len(),
        style_scan(rs, lines.take(n)) is Err,
    ensures
        style_scan(rs, lines) == style_scan(rs, lines.take(n)),
    decreases lines.len() - n,
{
    if n == lines.len() {
        assert(lines.take(n) == lines);
    } else {
        assert(lines.take(n + 1).drop_last() == lines.take(n));
        lemma_style_error_stays(rs, lines, n + 1);
    }
}


// ---------------------------------------------------------------------------
// Laws
// ---------------------------------------------------------------------------

/// Whether the check is inside an ignored region when it reaches line `i`
/// (counting from 0).
pub open spec fn ignoring_at(rs: Seq<ReplacerView>, lines: Seq<Seq<char>>, i: int) -> bool {
    style_scan(rs, lines.take(i)) matches Ok(st) && st.ignoring
}

/// Whether line `i` is left exactly as it is: a marker, or a line inside an
/// ignored region.
pub open spec fn kept_line(rs: Seq<ReplacerView>, lines: Seq<Seq<char>>, i: int) -> bool {
    lines[i] == IGNORE_START@ || lines[i] == IGNORE_STOP@ || ignoring_at(rs, lines, i)
}

/// The lines that a successful check produces correspond one to one to the
/// input lines: markers and lines inside ignored regions are kept as they
/// are, every other line has every rule applied; and the document counts as
/// changed exactly when some line changed.
pub proof fn law_style_lines(rs: Seq<ReplacerView>, lines: Seq<Seq<char>>)
    ensures
        style_scan(rs, lines) matches Ok(st) ==> {
            &&& st.lines.len() == lines.len()
            &&& forall|i: int|
                0 <= i < lines.len() ==> #[trigger] st.lines[i] == if kept_line(rs, lines, i) {
                    lines[i]
                } else {
                    restyled_line(rs, lines[i])
                }
            &&& st.modified <==> exists|i: int| 0 <= i < lines.len() && #[trigger] st.lines[i] != lines[i]
        },
    decreases lines.len(),
{
    if lines.len() > 0 {
        let init = lines.drop_last();
        law_style_lines(rs, init);
        if let Ok(st) = style_scan(rs, lines) {
            let prev = style_scan(rs, init)->Ok_0;
            let n = init.len() as int;
            assert(lines.take(n) == init);
            assert forall|i: int| 0 <= i < n implies kept_line(rs, lines, i) == kept_line(rs, init, i) by {
                assert(lines.take(i) == init.take(i));
                assert(lines[i] == init[i]);
            }
            assert forall|i: int| 0 <= i < lines.len() implies #[trigger] st.lines[i] == if kept_line(rs, lines, i) {
                lines[i]
            } else {
                restyled_line(rs, lines[i])
            } by {
                if i < n {
                    assert(st.lines[i] == prev.lines[i]);
                    assert(lines[i] == init[i]);
                }
            }
            if st.modified {
                if prev.modified {
                    let j = choose|j: int| 0 <= j < init.len() && #[trigger] prev.lines[j] != init[j];
                    assert(st.lines[j] == prev.lines[j]);
                    assert(lines[j] == init[j]);
                } else {
                    assert(st.lines[n] != lines[n]);
                }
            } else {
                assert forall|i: int| 0 <= i < lines.len() implies !(#[trigger] st.lines[i] != lines[i]) by {
                    if i < n {
                        assert(st.lines[i] == prev.lines[i]);
                        assert(lines[i] == init[i]);
                        if prev.lines[i] != init[i] {
                            assert(exists|k: int| 0 <= k < init.len() && #[trigger] prev.lines[k] != init[k]);
                        }
                    }
                }
            }
        }
    }
}

/// When the check changes nothing, writing its lines back would reproduce
/// the document exactly.
pub proof fn law_unchanged_document(rs: Seq<ReplacerView>, contents: Seq<char>)
    ensures
        restyle_of(rs, contents) == Ok::<Option<Seq<char>>, Seq<char>>(None) ==> text::join(
            style_scan(rs, text::split(contents, '\n'))->Ok_0.lines,
            seq!['\n'],
        ) == contents,
{
    let lines = text::split(contents, '\n');
    law_style_lines(rs, lines);
    if restyle_of(rs, contents) == Ok::<Option<Seq<char>>, Seq<char>>(None) {
        let st = style_scan(rs, lines)->Ok_0;
        assert(st.lines =~= lines);
        text::lemma_join_split(contents, '\n');
    }
}

} // verus!
