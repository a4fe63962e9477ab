//! The table of contents of a markdown document, kept between the markers
//! `<!-- toc -->` and `<!-- tocstop -->`.

use vstd::prelude::*;

use crate::markdown::{self, get_links, Header, HeaderView};
use crate::pattern::{self, compile_dot_all, replace_first, PatternView};
use crate::text::{self, append_chars, chars_of, contains_exec, join_exec, same_chars, string_of, to_lowercase};

verus! {

/// The marker that opens the table of contents.
pub const TOC_START: &'static str = "<!-- toc -->";

/// The marker that closes the table of contents.
pub const TOC_STOP: &'static str = "<!-- tocstop -->";

/// The first line of a table of contents, with its heading.
pub const TOC_HEAD: &'static str = "<!-- toc -->\n\n## Table of contents\n";

/// The heading of the table of contents itself, lowercased.
pub const TOC_TITLE: &'static str = "table of contents";

/// What the table of contents occupies: from the first start marker to the
/// first stop marker after it (`.` matching line feeds too).
pub const TOC_SPAN: &'static str = "<!-- toc -->.*?<!-- tocstop -->";

/// Whether a heading is listed: the document title (level 1) and the
/// table of contents' own heading are not.
pub open spec fn listed(h: HeaderView) -> bool {
    text::lowercase(h.label) != TOC_TITLE@ && h.level != 1
}

/// `n` spaces.
pub open spec fn spaces(n: nat) -> Seq<char> {
    Seq::new(n, |i: int| ' ')
}

/// The line of the table of contents for a heading of level 2 or more: a
/// list item, indented by four spaces per level below 2, linking to the
/// heading's anchor.
pub open spec fn toc_entry(h: HeaderView) -> Seq<char> {
    spaces((4 * (h.level - 2)) as nat) + "-   ["@ + h.label + "](#"@ + h.anchor + ")"@
}

/// The entries for the listed headings, in document order.
pub open spec fn toc_entries(hs: Seq<HeaderView>) -> Seq<Seq<char>>
    decreases hs.len(),
{
    if hs.len() == 0 {
        Seq::empty()
    } else {
        toc_entries(hs.drop_last()) + if listed(hs.last()) {
            seq![toc_entry(hs.last())]
        } else {
            Seq::empty()
        }
    }
}

/// The lines of the table of contents: its head, the entries, an empty line
/// after them if there are any, and the stop marker.
pub open spec fn toc_lines(hs: Seq<HeaderView>) -> Seq<Seq<char>> {
    let es = toc_entries(hs);
    seq![TOC_HEAD@] + es + (if es.len() > 0 {
        seq![Seq::<char>::empty()]
    } else {
        Seq::empty()
    }) + seq![TOC_STOP@]
}

/// The table of contents for the headings `hs`.
pub open spec fn toc_text(hs: Seq<HeaderView>) -> Seq<char> {
    text::join(toc_lines(hs), seq!['\n'])
}

/// The compiled form of [`TOC_SPAN`].
pub open spec fn toc_span() -> PatternView {
    PatternView { source: TOC_SPAN@, dot_all: true }
}

/// What updating the table of contents of `contents` gives: `Ok(None)` when
/// the document has no table of contents or it is already up to date,
/// `Ok(Some(new))` with the new document otherwise, or an error.
pub open spec fn toc_update_of(contents: Seq<char>) -> Result<Option<Seq<char>>, Seq<char>> {
    if !text::contains(contents, TOC_START@) {
        Ok(None)
    } else if !text::contains(contents, TOC_STOP@) {
        Err("Missing tocstop"@)
    } else {
        match markdown::links_of(contents) {
            Err(e) => Err(e),
            Ok((hs, _)) => match pattern::regex_dot_all_outcome(TOC_SPAN@) {
                Err(e) => Err(e),
                Ok(_) => {
                    let new = pattern::regex_replace_first(toc_span(), contents, toc_text(hs));
                    if new == contents {
                        Ok(None)
                    } else {
                        Ok(Some(new))
                    }
                },
            },
        }
    }
}

/// The entry line for `h`, a heading of level 2 to 6.
fn entry_for(h: &Header) -> (r: Vec<char>)
    requires
        2 <= h.level <= 6,
    ensures
        r@ == toc_entry(h@),
{
    let n: usize = 4 * (h.level as usize - 2);
    let mut line: Vec<char> = Vec::new();
    let mut i: usize = 0;
    while i < n
        invariant
            i <= n,
            line@ == spaces(i as nat),
        decreases n - i,
    {
        line.push(' ');
        i = i + 1;
        assert(line@ =~= spaces(i as nat));
    }
    append_chars(&mut line, chars_of("-   [").as_slice());
    append_chars(&mut line, chars_of(h.label.as_str()).as_slice());
    append_chars(&mut line, chars_of("](#").as_slice());
    append_chars(&mut line, chars_of(h.anchor.as_str()).as_slice());
    append_chars(&mut line, chars_of(")").as_slice());
    line
}

/// The table of contents for `headers`, whose levels are 1 to 6.
pub fn toc_for(headers: &Vec<Header>) -> (r: String)
    requires
        forall|i: int| 0 <= i < headers@.len() ==> 1 <= #[trigger] headers@[i].level <= 6,
    ensures
        r@ == toc_text(markdown::header_views(headers@)),
{
    let ghost hs = markdown::header_views(headers@);
    let title = chars_of(TOC_TITLE);
    let mut lines: Vec<Vec<char>> = Vec::new();
    lines.push(chars_of(TOC_HEAD));
    let mut i: usize = 0;
    while i < headers.len()
        invariant
            i <= headers@.len(),
            hs == markdown::header_views(headers@),
            title@ == TOC_TITLE@,
            forall|k: int| 0 <= k < headers@.len() ==> 1 <= #[trigger] headers@[k].level <= 6,
            lines@.len() == 1 + toc_entries(hs.take(i as int)).len(),
            lines@[0]@ == TOC_HEAD@,
            forall|k: int|
                0 <= k < toc_entries(hs.take(i as int)).len() ==> #[trigger] lines@[k + 1]@
                    == toc_entries(hs.take(i as int))[k],
        decreases headers@.len() - i,
    {
        let h = &headers[i];
        assert(hs.take(i + 1).drop_last() == hs.take(i as int));
        assert(hs.take(i + 1).last() == h@);
        let lower = to_lowercase(h.label.as_str());
        let is_title = same_chars(chars_of(lower.as_str()).as_slice(), title.as_slice());
        if !is_title && h.level != 1 {
            lines.push(entry_for(h));
        }
        i = i + 1;
    }
    assert(hs.take(headers@.len() as int) == hs);
    let ghost es = toc_entries(hs);
    let ghost mid = lines@;
    if lines.len() > 1 {
        lines.push(Vec::new());
    }
    lines.push(chars_of(TOC_STOP));
    let newline = vec!['\n'];
    let joined = join_exec(&lines, newline.as_slice());
    proof {
        let views = lines@.map_values(|p: Vec<char>| p@);
        let want = toc_lines(hs);
        let extra: int = if es.len() > 0 { 1 } else { 0 };
        assert(want.len() == 2 + es.len() + extra);
        assert(views.len() == want.len());
        assert forall|k: int| 0 <= k < want.len() implies views[k] == want[k] by {
            if k == 0 {
                assert(lines@[0] == mid[0]);
            } else if k <= es.len() {
                assert(lines@[k] == mid[k]);
                assert(mid[(k - 1) + 1]@ == es[k - 1]);
            } else if k < want.len() - 1 {
                assert(views[k] == Seq::<char>::empty());
            }
        }
        assert(views =~= want);
        assert(newline@ == seq!['\n']);
    }
    string_of(joined.as_slice())
}

/// Brings the table of contents of the markdown document `contents` up to
/// date: `Ok(None)` when it has none or it is current, `Ok(Some(new))` with
/// the new document, or the error (a start marker without a stop marker, a
/// heading nested too deep).
pub fn updated_toc(contents: &str) -> (r: Result<Option<String>, String>)
    ensures
        match r {
            Ok(None) => toc_update_of(contents@) == Ok::<Option<Seq<char>>, Seq<char>>(None),
            Ok(Some(new)) => toc_update_of(contents@) == Ok::<Option<Seq<char>>, Seq<char>>(
                Some(new@),
            ),
            Err(e) => toc_update_of(contents@) == Err::<Option<Seq<char>>, Seq<char>>(e@),
        },
{
    let chars = chars_of(contents);
    if !contains_exec(chars.as_slice(), chars_of(TOC_START).as_slice()) {
        return Ok(None);
    }
    if !contains_exec(chars.as_slice(), chars_of(TOC_STOP).as_slice()) {
        return Err(String::from_str("Missing tocstop"));
    }
    let headers = match get_links(contents) {
        Ok((headers, _)) => headers,
        Err(e) => {
            return Err(e);
        },
    };
    let toc = toc_for(&headers);
    let span = match compile_dot_all(TOC_SPAN) {
        Ok(p) => p,
        Err(e) => {
            return Err(e);
        },
    };
    let new_contents = replace_first(&span, contents, toc.as_str());
    let old_contents = String::from_str(contents);
    if new_contents == old_contents {
        Ok(None)
    } else {
        Ok(Some(new_contents))
    }
}


/// Every heading of level 2 to 6 whose lowercased label is not "table of
/// contents" has exactly one entry in the table, in document order, and no
/// other heading has one; a heading's entry is four spaces per level below
/// 2, then `-   [label](#anchor)`. The table is its head line, these
/// entries, an empty line when there are any, and the stop marker.
pub proof fn law_toc_lists_every_section_heading(hs: Seq<HeaderView>)
    requires
        forall|i: int| 0 <= i < hs.len() ==> 1 <= #[trigger] hs[i].level <= 6,
    ensures
        ({
            let es = hs.filter(
                |h: HeaderView| 2 <= h.level <= 6 && text::lowercase(h.label) != "table of contents"@,
            ).map_values(
                |h: HeaderView|
                    Seq::new((4 * (h.level - 2)) as nat, |i: int| ' ') + "-   ["@ + h.label + "](#"@
                        + h.anchor + ")"@,
            );
            &&& toc_entries(hs) == es
            &&& toc_text(hs) == text::join(
                seq!["<!-- toc -->\n\n## Table of contents\n"@] + es + (if es.len() > 0 {
                    seq![Seq::<char>::empty()]
                } else {
                    Seq::<Seq<char>>::empty()
                }) + seq!["<!-- tocstop -->"@],
                seq!['\n'],
            )
        }),
    decreases hs.len(),
{
    let p = |h: HeaderView| 2 <= h.level <= 6 && text::lowercase(h.label) != "table of contents"@;
    let f = |h: HeaderView|
        Seq::new((4 * (h.level - 2)) as nat, |i: int| ' ') + "-   ["@ + h.label + "](#"@ + h.anchor
            + ")"@;
    if hs.len() == 0 {
        reveal(Seq::filter);
        assert(hs.filter(p).map_values(f) =~= Seq::<Seq<char>>::empty());
    } else {
        let init = hs.drop_last();
        let x = hs.last();
        assert(init.push(x) == hs);
        assert forall|i: int| 0 <= i < init.len() implies 1 <= #[trigger] init[i].level <= 6 by {
            assert(init[i] == hs[i]);
        }
        law_toc_lists_every_section_heading(init);
        init.lemma_filter_push(x, p);
        assert(1 <= hs[hs.len() - 1].level <= 6);
        assert(listed(x) == p(x));
        if p(x) {
            assert(toc_entry(x) =~= f(x));
            assert(init.filter(p).push(x).map_values(f) =~= init.filter(p).map_values(f).push(f(x)));
            assert(toc_entries(hs) =~= toc_entries(init).push(f(x)));
        } else {
            assert(toc_entries(hs) =~= toc_entries(init));
        }
    }
}

/// A document is only ever rewritten into a different document, and one
/// without the start marker is never rewritten.
pub proof fn law_rewrite_changes_document(contents: Seq<char>)
    ensures
        toc_update_of(contents) matches Ok(Some(new)) ==> new != contents,
        !text::contains(contents, TOC_START@) ==> toc_update_of(contents) == Ok::<
            Option<Seq<char>>,
            Seq<char>,
        >(None),
{
}


/// A second run on a rewritten document that has the same headings builds
/// the same table as the first: the first run put `T` into `c` and the second
/// puts the same `T` into its result (whether that leaves the document as it
/// is rests on where the regex crate finds the span).
pub proof fn law_second_run_same_table(c: Seq<char>, c2: Seq<char>)
    requires
        toc_update_of(c) == Ok::<Option<Seq<char>>, Seq<char>>(Some(c2)),
        markdown::links_of(c2) is Ok,
        markdown::links_of(c2)->Ok_0.0 == markdown::links_of(c)->Ok_0.0,
    ensures
        ({
            let t = toc_text(markdown::links_of(c)->Ok_0.0);
            &&& c2 == pattern::regex_replace_first(toc_span(), c, t)
            &&& toc_update_of(c2) matches Ok(Some(d)) ==> d == pattern::regex_replace_first(
                toc_span(),
                c2,
                t,
            )
            &&& toc_update_of(c2) is Ok
                ==> (toc_update_of(c2) == Ok::<Option<Seq<char>>, Seq<char>>(None) <==> (
                !text::contains(c2, TOC_START@) || pattern::regex_replace_first(toc_span(), c2, t)
                    == c2))
        }),
{
}

} // verus!
