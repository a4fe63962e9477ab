//! Checking the links of markdown documents: anchors within a document,
//! links to other files of the repository and their anchors, and URLs.
//!
//! The decisions are made here; probing the file system is left to the
//! caller, which feeds each answer back ([`link_step`], [`after_directory_probe`],
//! [`after_exists_probe`], [`has_anchor`]).

use vstd::hash_map::StringHashMap;
use vstd::prelude::*;

use crate::markdown::{self, get_links, Link, LinkView};
use crate::text::{
    self, append_chars, chars_of, ends_with_exec, push_decimal, split_exec, starts_with_exec,
    string_of, trim_start_of, Strip,
};

verus! {

/// How `url::Url::parse` judges a destination.
pub enum UrlParse {
    /// An absolute URL.
    Parsed,
    /// A relative URL (`ParseError::RelativeUrlWithoutBase`).
    RelativeWithoutBase,
    /// Any other parse error.
    Invalid,
}

/// What `url::Url::parse(s)` gives, reduced to [`UrlParse`].
pub uninterp spec fn url_parse_outcome(s: Seq<char>) -> UrlParse;

/// Parses `s` with `url::Url::parse` and tells the outcomes apart.
#[verifier::external_body]
fn parse_url(s: &str) -> (r: UrlParse)
    ensures
        r == url_parse_outcome(s@),
{
    match url::Url::parse(s) {
        Ok(_) => UrlParse::Parsed,
        Err(url::ParseError::RelativeUrlWithoutBase) => UrlParse::RelativeWithoutBase,
        Err(_) => UrlParse::Invalid,
    }
}

/// What is wrong with a link.
pub enum LinkProblem {
    MissingAnchor,
    MissingScheme,
    MissingFile,
    InvalidUrl,
}

/// The message reported for a problem.
pub open spec fn problem_message(p: LinkProblem) -> Seq<char> {
    match p {
        LinkProblem::MissingAnchor => "Link points at a non-existent anchor."@,
        LinkProblem::MissingScheme => "Link is missing a scheme, such as https://."@,
        LinkProblem::MissingFile => "Link points at a non-existent file."@,
        LinkProblem::InvalidUrl => "Invalid URL."@,
    }
}

impl LinkProblem {
    /// The message reported for this problem.
    pub fn message(&self) -> (r: &'static str)
        ensures
            r@ == problem_message(*self),
    {
        match self {
            LinkProblem::MissingAnchor => "Link points at a non-existent anchor.",
            LinkProblem::MissingScheme => "Link is missing a scheme, such as https://.",
            LinkProblem::MissingFile => "Link points at a non-existent file.",
            LinkProblem::InvalidUrl => "Invalid URL.",
        }
    }
}

/// The file a link points at: a path relative to the repository root
/// (`from_root`) or to the document's directory, and the anchor named in it.
pub struct FileTarget {
    pub path: String,
    pub from_root: bool,
    pub fragment: Option<String>,
}

/// What to do with a link.
pub enum LinkStep {
    /// Nothing to report.
    Fine,
    /// Report this problem.
    Broken(LinkProblem),
    /// The verdict depends on the file system: probe this target.
    CheckFile(FileTarget),
}

pub enum LinkStepView {
    Fine,
    Broken(LinkProblem),
    CheckFile { path: Seq<char>, from_root: bool, fragment: Option<Seq<char>> },
}

impl View for LinkStep {
    type V = LinkStepView;

    open spec fn view(&self) -> LinkStepView {
        match self {
            LinkStep::Fine => LinkStepView::Fine,
            LinkStep::Broken(p) => LinkStepView::Broken(*p),
            LinkStep::CheckFile(t) => LinkStepView::CheckFile {
                path: t.path@,
                from_root: t.from_root,
                fragment: match t.fragment {
                    Some(f) => Some(f@),
                    None => None,
                },
            },
        }
    }
}

/// What to do with a link to `destination` in a document whose anchors are
/// `anchors`: `#anchor` must name one of them; `//host...` lacks a scheme;
/// absolute URLs pass; other invalid URLs are reported; a relative path is
/// left alone when only anchors are checked, and otherwise its file (and the
/// anchor after its first `#`, up to a second `#`) must be probed; a path
/// starting with `/` is taken from the repository root.
pub open spec fn link_step_of(destination: Seq<char>, anchors: Seq<Seq<char>>, anchors_only: bool) -> LinkStepView {
    if text::starts_with(destination, seq!['#']) {
        if anchors.contains(destination.skip(1)) {
            LinkStepView::Fine
        } else {
            LinkStepView::Broken(LinkProblem::MissingAnchor)
        }
    } else if text::starts_with(destination, seq!['/', '/']) {
        LinkStepView::Broken(LinkProblem::MissingScheme)
    } else {
        parsed_link_step_of(destination, url_parse_outcome(destination), anchors_only)
    }
}

/// Whether `name` is one of `anchors`.
pub fn has_anchor(anchors: &Vec<String>, name: &str) -> (r: bool)
    ensures
        r == text::string_views(anchors@).contains(name@),
{
    let ghost views = text::string_views(anchors@);
    let wanted = String::from_str(name);
    let mut i: usize = 0;
    while i < anchors.len()
        invariant
            i <= anchors@.len(),
            views == text::string_views(anchors@),
            wanted@ == name@,
            forall|k: int| 0 <= k < i ==> views[k] != name@,
        decreases anchors@.len() - i,
    {
        assert(views[i as int] == anchors@[i as int]@);
        if anchors[i] == wanted {
            return true;
        }
        i = i + 1;
    }
    false
}

/// What to do with a link to `destination` in a document whose anchors are
/// `anchors`.
pub fn link_step(destination: &str, anchors: &Vec<String>, anchors_only: bool) -> (r: LinkStep)
    ensures
        r@ == link_step_of(destination@, text::string_views(anchors@), anchors_only),
{
    let d = chars_of(destination);
    let hash = vec!['#'];
    let double_slash = vec!['/', '/'];
    assert(hash@ == seq!['#']);
    assert(double_slash@ == seq!['/', '/']);
    if starts_with_exec(d.as_slice(), hash.as_slice()) {
        let name = string_of(text::slice_range(d.as_slice(), 1, d.len()).as_slice());
        assert(d@.subrange(1, d@.len() as int) == d@.skip(1));
        if has_anchor(anchors, name.as_str()) {
            return LinkStep::Fine;
        } else {
            return LinkStep::Broken(LinkProblem::MissingAnchor);
        }
    }
    if starts_with_exec(d.as_slice(), double_slash.as_slice()) {
        return LinkStep::Broken(LinkProblem::MissingScheme);
    }
    parsed_link_step(destination, parse_url(destination), anchors_only)
}

/// What [`link_step_of`] gives, for a destination that neither starts with
/// `#` nor with `//`, once `url::Url::parse` has judged it `parsed`.
pub open spec fn parsed_link_step_of(destination: Seq<char>, parsed: UrlParse, anchors_only: bool) -> LinkStepView {
    match parsed {
        UrlParse::Parsed => LinkStepView::Fine,
        UrlParse::Invalid => LinkStepView::Broken(LinkProblem::InvalidUrl),
        UrlParse::RelativeWithoutBase => if anchors_only {
            LinkStepView::Fine
        } else {
            let parts = text::split(destination, '#');
            let path = parts[0];
            let fragment = if parts.len() > 1 {
                Some(parts[1])
            } else {
                None
            };
            if path.len() == 0 {
                LinkStepView::Fine
            } else if text::starts_with(path, seq!['/']) {
                LinkStepView::CheckFile {
                    path: text::trim_start(path, Strip::Only('/')),
                    from_root: true,
                    fragment: fragment,
                }
            } else {
                LinkStepView::CheckFile { path: path, from_root: false, fragment: fragment }
            }
        },
    }
}

/// What to do with a link to `destination` (which neither starts with `#`
/// nor with `//`) that `url::Url::parse` judged `parsed`: absolute URLs
/// pass, other parse errors are reported, relative paths are probed (or
/// passed when only anchors are checked).
pub fn parsed_link_step(destination: &str, parsed: UrlParse, anchors_only: bool) -> (r: LinkStep)
    ensures
        r@ == parsed_link_step_of(destination@, parsed, anchors_only),
{
    let d = chars_of(destination);
    let slash = vec!['/'];
    assert(slash@ == seq!['/']);
    match parsed {
        UrlParse::Parsed => LinkStep::Fine,
        UrlParse::Invalid => LinkStep::Broken(LinkProblem::InvalidUrl),
        UrlParse::RelativeWithoutBase => {
            if anchors_only {
                return LinkStep::Fine;
            }
            let parts = split_exec(d.as_slice(), '#');
            proof {
                text::lemma_split_nonempty(destination@, '#');
            }
            let path = &parts[0];
            let fragment = if parts.len() > 1 {
                Some(string_of(parts[1].as_slice()))
            } else {
                None
            };
            if path.len() == 0 {
                LinkStep::Fine
            } else if starts_with_exec(path.as_slice(), slash.as_slice()) {
                let trimmed = trim_start_of(path.as_slice(), &Strip::Only('/'));
                LinkStep::CheckFile(
                    FileTarget {
                        path: string_of(trimmed.as_slice()),
                        from_root: true,
                        fragment: fragment,
                    },
                )
            } else {
                LinkStep::CheckFile(
                    FileTarget { path: string_of(path.as_slice()), from_root: false, fragment: fragment },
                )
            }
        },
    }
}

/// The file a link to a directory stands for, when it names an anchor.
pub const DIRECTORY_INDEX: &'static str = "README.md";

/// What to do once it is known whether the target is a directory.
pub enum DirectoryStep {
    /// The link is fine: a directory, without an anchor.
    Fine,
    /// Probe whether the target exists; with `use_index`, the target is the
    /// directory's [`DIRECTORY_INDEX`].
    ProbeExists { use_index: bool },
}

/// A link to a directory is fine without an anchor; with one, it points at
/// the directory's index file, which must exist.
pub fn after_directory_probe(has_fragment: bool, is_dir: bool) -> (r: DirectoryStep)
    ensures
        r == (if is_dir && !has_fragment {
            DirectoryStep::Fine
        } else {
            DirectoryStep::ProbeExists { use_index: is_dir }
        }),
{
    if is_dir {
        if !has_fragment {
            return DirectoryStep::Fine;
        }
        DirectoryStep::ProbeExists { use_index: true }
    } else {
        DirectoryStep::ProbeExists { use_index: false }
    }
}

/// What to do once it is known whether the target file exists.
pub enum ExistsStep {
    Fine,
    Broken(LinkProblem),
    /// The target's anchors must hold the link's anchor.
    CheckAnchor,
}

/// A missing target is reported; an existing one is fine unless the link
/// names an anchor, which must then be among the target's anchors.
pub fn after_exists_probe(exists: bool, has_fragment: bool) -> (r: ExistsStep)
    ensures
        r == (if !exists {
            ExistsStep::Broken(LinkProblem::MissingFile)
        } else if has_fragment {
            ExistsStep::CheckAnchor
        } else {
            ExistsStep::Fine
        }),
{
    if !exists {
        ExistsStep::Broken(LinkProblem::MissingFile)
    } else if has_fragment {
        ExistsStep::CheckAnchor
    } else {
        ExistsStep::Fine
    }
}

/// The line reported for a broken link: `path:line: [label](destination): message`.
pub open spec fn link_error_text(path: Seq<char>, link: LinkView, message: Seq<char>) -> Seq<char> {
    path + ":"@ + text::decimal(link.line_number as nat) + ": ["@ + link.label + "]("@
        + link.destination + "): "@ + message
}

fn push_str(out: &mut Vec<char>, s: &str)
    ensures
        final(out)@ == old(out)@ + s@,
{
    let c = chars_of(s);
    append_chars(out, c.as_slice());
}

/// The line reported for a broken link.
pub fn link_error_message(path: &str, link: &Link, message: &str) -> (r: String)
    ensures
        r@ == link_error_text(path@, link@, message@),
{
    let mut m: Vec<char> = Vec::new();
    push_str(&mut m, path);
    push_str(&mut m, ":");
    push_decimal(&mut m, link.line_number as u64);
    push_str(&mut m, ": [");
    push_str(&mut m, link.label.as_str());
    push_str(&mut m, "](");
    push_str(&mut m, link.destination.as_str());
    push_str(&mut m, "): ");
    push_str(&mut m, message);
    string_of(m.as_slice())
}

/// Whether a path names a markdown document (ends with `.md`).
pub fn is_markdown_path(path: &str) -> (r: bool)
    ensures
        r == text::ends_with(path@, ".md"@),
{
    let p = chars_of(path);
    let ext = chars_of(".md");
    ends_with_exec(p.as_slice(), ext.as_slice())
}

// ---------------------------------------------------------------------------
// The cache of parsed documents
// ---------------------------------------------------------------------------

/// A parsed document: the anchors of its headings and its links.
pub struct CachedDoc {
    pub anchors: Vec<String>,
    pub links: Vec<Link>,
}

pub struct CachedDocView {
    pub anchors: Seq<Seq<char>>,
    pub links: Seq<LinkView>,
}

impl View for CachedDoc {
    type V = CachedDocView;

    open spec fn view(&self) -> CachedDocView {
        CachedDocView { anchors: text::string_views(self.anchors@), links: markdown::link_views(self.links@) }
    }
}

/// The anchors of headings.
pub open spec fn anchors_of(hs: Seq<markdown::HeaderView>) -> Seq<Seq<char>> {
    hs.map_values(|h: markdown::HeaderView| h.anchor)
}

/// Parsed documents by their canonical path.
pub struct LinkCache {
    cache: StringHashMap<CachedDoc>,
}

impl View for LinkCache {
    type V = Map<Seq<char>, CachedDocView>;

    closed spec fn view(&self) -> Map<Seq<char>, CachedDocView> {
        self.cache@.map_values(|d: CachedDoc| d@)
    }
}

impl LinkCache {
    /// An empty cache.
    pub fn new() -> (r: LinkCache)
        ensures
            r@ == Map::<Seq<char>, CachedDocView>::empty(),
    {
        let r = LinkCache { cache: StringHashMap::new() };
        assert(r@ =~= Map::<Seq<char>, CachedDocView>::empty());
        r
    }

    /// The document cached under `path`, if any.
    pub fn lookup(&self, path: &str) -> (r: Option<&CachedDoc>)
        ensures
            match r {
                Some(d) => self@.contains_key(path@) && self@[path@] == d@,
                None => !self@.contains_key(path@),
            },
    {
        self.cache.get(path)
    }

    /// Parses `contents` and caches its anchors and links under `path`; a
    /// document that fails to parse leaves the cache as it was.
    pub fn load(&mut self, path: String, contents: &str) -> (r: Result<(), String>)
        ensures
            match markdown::links_of(contents@) {
                Ok((hs, ls)) => r is Ok && final(self)@ == old(self)@.insert(
                    path@,
                    (CachedDocView { anchors: anchors_of(hs), links: ls }),
                ),
                Err(e) => r is Err && r->Err_0@ == e && final(self)@ == old(self)@,
            },
    {
        let (headers, links) = match get_links(contents) {
            Ok(found) => found,
            Err(e) => {
                return Err(e);
            },
        };
        let ghost hs = markdown::header_views(headers@);
        let mut anchors: Vec<String> = Vec::new();
        let mut i: usize = 0;
        while i < headers.len()
            invariant
                i <= headers@.len(),
                hs == markdown::header_views(headers@),
                text::string_views(anchors@) == anchors_of(hs).take(i as int),
            decreases headers@.len() - i,
        {
            let ghost before = anchors@;
            anchors.push(headers[i].anchor.clone());
            assert(text::string_views(anchors@) =~= text::string_views(before).push(headers@[i as int].anchor@));
            assert(anchors_of(hs).take(i + 1) =~= anchors_of(hs).take(i as int).push(hs[i as int].anchor));
            i = i + 1;
        }
        assert(anchors_of(hs).take(headers@.len() as int) == anchors_of(hs));
        let doc = CachedDoc { anchors: anchors, links: links };
        let ghost old_cache = self.cache@;
        self.cache.insert(path, doc);
        assert(self@ =~= old(self)@.insert(path@, CachedDocView { anchors: anchors_of(hs), links: markdown::link_views(links@) }));
        Ok(())
    }
}


// ---------------------------------------------------------------------------
// Laws
// ---------------------------------------------------------------------------

/// A link `#name` to one of the document's own anchors is fine, whatever
/// else is checked.
pub proof fn law_own_anchor_is_fine(name: Seq<char>, anchors: Seq<Seq<char>>, anchors_only: bool)
    requires
        anchors.contains(name),
    ensures
        link_step_of(seq!['#'] + name, anchors, anchors_only) == LinkStepView::Fine,
{
    let d = seq!['#'] + name;
    assert(d.take(1) =~= seq!['#']);
    assert(d.skip(1) =~= name);
}

/// A link `#name` to an anchor the document lacks is reported.
pub proof fn law_missing_anchor_is_reported(name: Seq<char>, anchors: Seq<Seq<char>>, anchors_only: bool)
    requires
        !anchors.contains(name),
    ensures
        link_step_of(seq!['#'] + name, anchors, anchors_only) == LinkStepView::Broken(LinkProblem::MissingAnchor),
{
    let d = seq!['#'] + name;
    assert(d.take(1) =~= seq!['#']);
    assert(d.skip(1) =~= name);
}

/// When only anchors are checked, no link sends the caller to the file
/// system.
pub proof fn law_anchors_only_never_probes(destination: Seq<char>, anchors: Seq<Seq<char>>)
    ensures
        !(link_step_of(destination, anchors, true) is CheckFile),
{
}

} // verus!
