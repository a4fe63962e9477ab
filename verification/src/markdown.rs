//! Headings and links of a markdown document, and heading anchors.
//!
//! The document is parsed by `pulldown_cmark`; its event stream, reduced to
//! the events that matter here ([`MdEvent`]), is then scanned by verified
//! code ([`collect_links`]) whose result is stated by [`scan`].

use pulldown_cmark::{Event, Parser, Tag, TagEnd};
use vstd::hash_map::StringHashMap;
use vstd::prelude::*;

use crate::pattern::{self, compile, replace_all, PatternView};
use crate::text::{
    self, chars_of, lines_before_exec, push_decimal, replace_char_exec, string_of, to_lowercase,
    trim_of, Strip,
};

verus! {

/// A heading of a document: its text, its anchor and its level (1 to 6).
#[derive(Debug, Clone)]
pub struct Header {
    pub label: String,
    pub anchor: String,
    pub level: u32,
}

/// A heading, with its texts as character sequences.
pub struct HeaderView {
    pub label: Seq<char>,
    pub anchor: Seq<char>,
    pub level: u32,
}

impl View for Header {
    type V = HeaderView;

    open spec fn view(&self) -> HeaderView {
        HeaderView { label: self.label@, anchor: self.anchor@, level: self.level }
    }
}

/// A link of a document: its text, where it points and the line it starts on.
#[derive(Debug, Clone)]
pub struct Link {
    pub label: String,
    pub destination: String,
    pub line_number: usize,
}

/// A link, with its texts as character sequences.
pub struct LinkView {
    pub label: Seq<char>,
    pub destination: Seq<char>,
    pub line_number: usize,
}

impl View for Link {
    type V = LinkView;

    open spec fn view(&self) -> LinkView {
        LinkView { label: self.label@, destination: self.destination@, line_number: self.line_number }
    }
}

/// The parser events that headings and links are read from. Offsets are
/// byte offsets into the document where the element starts.
pub enum MdEvent {
    HeadingStart { level: u32, offset: usize },
    HeadingEnd,
    LinkStart { destination: String, offset: usize },
    LinkEnd,
    Text(String),
    /// Inline code.
    Code(String),
    /// Any other event.
    Other,
}

/// An [`MdEvent`] with its texts as character sequences.
pub enum MdEventView {
    HeadingStart { level: u32, offset: usize },
    HeadingEnd,
    LinkStart { destination: Seq<char>, offset: usize },
    LinkEnd,
    Text(Seq<char>),
    Code(Seq<char>),
    Other,
}

impl View for MdEvent {
    type V = MdEventView;

    open spec fn view(&self) -> MdEventView {
        match self {
            MdEvent::HeadingStart { level, offset } => MdEventView::HeadingStart {
                level: *level,
                offset: *offset,
            },
            MdEvent::HeadingEnd => MdEventView::HeadingEnd,
            MdEvent::LinkStart { destination, offset } => MdEventView::LinkStart {
                destination: destination@,
                offset: *offset,
            },
            MdEvent::LinkEnd => MdEventView::LinkEnd,
            MdEvent::Text(t) => MdEventView::Text(t@),
            MdEvent::Code(t) => MdEventView::Code(t@),
            MdEvent::Other => MdEventView::Other,
        }
    }
}

/// The views of a sequence of events.
pub open spec fn event_views(events: Seq<MdEvent>) -> Seq<MdEventView> {
    events.map_values(|e: MdEvent| e@)
}

/// What `pulldown_cmark::Parser::new(source).into_offset_iter()` yields,
/// reduced to [`MdEventView`]s.
pub uninterp spec fn markdown_events(source: Seq<char>) -> Seq<MdEventView>;

/// Parses `source` with `pulldown_cmark` (default options) and reduces each
/// event with its start offset to an [`MdEvent`]. Heading levels are those of
/// `HeadingLevel`, `H1 = 1` to `H6`.
#[verifier::external_body]
fn parse_markdown(source: &str) -> (r: Vec<MdEvent>)
    ensures
        event_views(r@) == markdown_events(source@),
        forall|i: int|
            0 <= i < r@.len() ==> (#[trigger] r@[i] matches MdEvent::HeadingStart { level, .. }
                ==> 1 <= level <= 6),
{
    let mut out = Vec::new();
    for (event, range) in Parser::new(source).into_offset_iter() {
        out.push(match event {
            Event::Start(Tag::Heading { level, .. }) => MdEvent::HeadingStart { level: level as u32, offset: range.start },
            Event::End(TagEnd::Heading(_)) => MdEvent::HeadingEnd,
            Event::Start(Tag::Link { dest_url, .. }) => MdEvent::LinkStart { destination: dest_url.to_string(), offset: range.start },
            Event::End(TagEnd::Link) => MdEvent::LinkEnd,
            Event::Text(t) => MdEvent::Text(t.to_string()),
            Event::Code(t) => MdEvent::Code(t.to_string()),
            _ => MdEvent::Other,
        });
    }
    out
}

// ---------------------------------------------------------------------------
// Anchors
// ---------------------------------------------------------------------------

/// The punctuation that anchors drop, as GitHub-flavored markdown does.
pub const ANCHOR_PUNCTUATION: &'static str = "[!\"#$%&'()*+,./:;<=>?@\\[\\\\\\]^`{|}~]";

/// The compiled form of [`ANCHOR_PUNCTUATION`].
pub open spec fn anchor_pattern() -> PatternView {
    PatternView { source: ANCHOR_PUNCTUATION@, dot_all: false }
}

/// The anchor of a heading before it is made unique: lowercased, trimmed,
/// spaces turned into `-`, and punctuation dropped.
pub open spec fn anchor_base(label: Seq<char>) -> Seq<char> {
    pattern::regex_replace_all(
        anchor_pattern(),
        text::replace_char(text::trim(text::lowercase(label), Strip::WhiteSpace), ' ', seq!['-']),
        Seq::<char>::empty(),
    )
}

/// The anchor given to `base` when `used` counts the repeats of each base
/// so far, and the counts afterwards: a new base is taken as it is and
/// counted 0; the `n`-th repeat of a base gets the suffix `-n`.
pub open spec fn next_anchor(base: Seq<char>, used: Map<Seq<char>, usize>) -> (
    Seq<char>,
    Map<Seq<char>, usize>,
) {
    if used.contains_key(base) {
        let n = (used[base] + 1) as usize;
        (base + seq!['-'] + text::decimal(n as nat), used.insert(base, n))
    } else {
        (base, used.insert(base, 0))
    }
}

proof fn lemma_spaces_to_dashes(s: Seq<char>)
    ensures
        text::replace_char(s, ' ', seq!['-']) == Seq::new(
            s.len(),
            |i: int| if s[i] == ' ' { '-' } else { s[i] },
        ),
    decreases s.len(),
{
    if s.len() > 0 {
        let init = s.drop_last();
        lemma_spaces_to_dashes(init);
        assert(text::replace_char(s, ' ', seq!['-']) =~= Seq::new(
            s.len(),
            |i: int| if s[i] == ' ' { '-' } else { s[i] },
        ));
    } else {
        assert(text::replace_char(s, ' ', seq!['-']) =~= Seq::new(
            s.len(),
            |i: int| if s[i] == ' ' { '-' } else { s[i] },
        ));
    }
}

/// A heading's anchor, the first time its base occurs, is what is left of
/// its label, lowercased and trimmed of white space, with every space made
/// one `-` character for character, after every match of the punctuation
/// class is removed; nothing else is done to it (dashes that end up next
/// to each other stay).
pub proof fn law_anchor_is_label_without_punctuation(label: Seq<char>)
    ensures
        ({
            let t = text::trim(text::lowercase(label), Strip::WhiteSpace);
            let dashed = Seq::new(t.len(), |i: int| if t[i] == ' ' { '-' } else { t[i] });
            &&& anchor_base(label) == pattern::regex_replace_all(
                PatternView { source: ANCHOR_PUNCTUATION@, dot_all: false },
                dashed,
                Seq::<char>::empty(),
            )
            &&& next_anchor(anchor_base(label), Map::empty()).0 == anchor_base(label)
        }),
{
    lemma_spaces_to_dashes(text::trim(text::lowercase(label), Strip::WhiteSpace));
}

/// No repeat count has reached `usize::MAX`.
pub open spec fn counts_bounded(used: Map<Seq<char>, usize>) -> bool {
    forall|k: Seq<char>| used.contains_key(k) ==> #[trigger] used[k] < usize::MAX
}

/// The anchor for a heading labelled `label`, unique among the anchors
/// counted in `used_anchors`, which records it. The punctuation pattern is
/// compiled on each call; it must be one the regex crate accepts, as
/// [`get_links`] makes sure before it calls this.
pub fn make_anchor(label: &str, used_anchors: &mut StringHashMap<usize>) -> (anchor: String)
    requires
        pattern::regex_new_outcome(ANCHOR_PUNCTUATION@) is Ok,
        counts_bounded(old(used_anchors)@),
    ensures
        (anchor@, final(used_anchors)@) == next_anchor(anchor_base(label@), old(used_anchors)@),
{
    let punctuation = match compile(ANCHOR_PUNCTUATION) {
        Ok(p) => p,
        Err(_) => {
            proof {
                assert(false);
            }
            return String::new();
        },
    };
    let lower = to_lowercase(label);
    let chars = chars_of(lower.as_str());
    let trimmed = trim_of(chars.as_slice(), &Strip::WhiteSpace);
    let dash = vec!['-'];
    let dashed = replace_char_exec(trimmed.as_slice(), ' ', dash.as_slice());
    let dashed = string_of(dashed.as_slice());
    let base = replace_all(&punctuation, dashed.as_str(), "");
    proof {
        reveal_strlit("");
        assert(""@ =~= Seq::<char>::empty());
        assert(dash@ == seq!['-']);
    }
    unique_anchor(base, used_anchors)
}

/// The anchor for the anchor base `base`, made unique by the repeat counts
/// in `used_anchors`, which records it: a new base is taken as it is, the
/// `n`-th repeat gets the suffix `-n`.
pub fn unique_anchor(base: String, used_anchors: &mut StringHashMap<usize>) -> (anchor: String)
    requires
        counts_bounded(old(used_anchors)@),
    ensures
        (anchor@, final(used_anchors)@) == next_anchor(base@, old(used_anchors)@),
{
    let found: Option<usize> = match used_anchors.get(base.as_str()) {
        Some(count) => Some(*count),
        None => None,
    };
    match found {
        Some(count) => {
            let n = count + 1;
            used_anchors.insert(base.clone(), n);
            let mut tail: Vec<char> = vec!['-'];
            push_decimal(&mut tail, n as u64);
            let tail = string_of(tail.as_slice());
            let mut anchor = base;
            anchor.append(tail.as_str());
            assert(tail@ == seq!['-'] + text::decimal(n as nat));
            anchor
        },
        None => {
            used_anchors.insert(base.clone(), 0);
            base
        },
    }
}

// ---------------------------------------------------------------------------
// Scanning the events
// ---------------------------------------------------------------------------

/// What the scan of a document's events has gathered so far.
pub struct ScanState {
    pub headers: Seq<HeaderView>,
    pub links: Seq<LinkView>,
    /// How often each anchor base has been repeated.
    pub used: Map<Seq<char>, usize>,
    /// The heading being read: its text so far and its level.
    pub open_header: Option<(Seq<char>, u32)>,
    /// The link being read: its text so far, destination and line.
    pub open_link: Option<(Seq<char>, Seq<char>, usize)>,
    pub prev_level: u32,
    pub prev_header: Seq<char>,
}

/// The state before the first event.
pub open spec fn scan_start() -> ScanState {
    ScanState {
        headers: Seq::empty(),
        links: Seq::empty(),
        used: Map::empty(),
        open_header: None,
        open_link: None,
        prev_level: 1,
        prev_header: "(first header)"@,
    }
}

/// The error for a heading that is more than one level deeper than the one
/// before it.
pub open spec fn depth_message(label: Seq<char>, level: u32, prev: Seq<char>, prev_level: u32) -> Seq<
    char,
> {
    "Header '"@ + label + "' has level "@ + text::decimal(level as nat)
        + ", which is too deep versus previous header '"@ + prev + "' with level "@ + text::decimal(
        prev_level as nat,
    ) + "."@
}

/// One event of the scan. `source` is the document's UTF-8 encoding, from
/// which line numbers are counted.
pub open spec fn scan_step(source: Seq<u8>, st: ScanState, ev: MdEventView) -> Result<
    ScanState,
    Seq<char>,
> {
    match ev {
        MdEventView::HeadingStart { level, offset } => Ok(
            ScanState { open_header: Some((Seq::<char>::empty(), level)), ..st },
        ),
        MdEventView::HeadingEnd => match st.open_header {
            None => Ok(st),
            Some((label, level)) => {
                if level as int - 1 > st.prev_level as int {
                    Err(depth_message(label, level, st.prev_header, st.prev_level))
                } else {
                    let (anchor, used) = next_anchor(anchor_base(label), st.used);
                    Ok(
                        ScanState {
                            headers: st.headers.push(
                                HeaderView { label: label, anchor: anchor, level: level },
                            ),
                            used: used,
                            open_header: None,
                            prev_level: level,
                            prev_header: label,
                            ..st
                        },
                    )
                }
            },
        },
        MdEventView::LinkStart { destination, offset } => Ok(
            ScanState {
                open_link: Some(
                    (Seq::<char>::empty(), destination, text::lines_before(source, offset as int) as usize),
                ),
                ..st
            },
        ),
        MdEventView::LinkEnd => match st.open_link {
            None => Ok(st),
            Some((label, destination, line)) => Ok(
                ScanState {
                    links: st.links.push(
                        LinkView { label: label, destination: destination, line_number: line },
                    ),
                    open_link: None,
                    ..st
                },
            ),
        },
        MdEventView::Text(t) | MdEventView::Code(t) => Ok(
            ScanState {
                open_header: match st.open_header {
                    Some((l, level)) => Some((l + t, level)),
                    None => None,
                },
                open_link: match st.open_link {
                    Some((l, d, n)) => Some((l + t, d, n)),
                    None => None,
                },
                ..st
            },
        ),
        MdEventView::Other => Ok(st),
    }
}

/// The scan of `events`, stopping at the first error.
pub open spec fn scan(source: Seq<u8>, events: Seq<MdEventView>) -> Result<ScanState, Seq<char>>
    decreases events.len(),
{
    if events.len() == 0 {
        Ok(scan_start())
    } else {
        match scan(source, events.drop_last()) {
            Ok(st) => scan_step(source, st, events.last()),
            Err(e) => Err(e),
        }
    }
}

/// The headings and links that a scan of `events` finds, or its error.
pub open spec fn scan_result(source: Seq<u8>, events: Seq<MdEventView>) -> Result<
    (Seq<HeaderView>, Seq<LinkView>),
    Seq<char>,
> {
    match scan(source, events) {
        Ok(st) => Ok((st.headers, st.links)),
        Err(e) => Err(e),
    }
}

/// The headings and links of the markdown document `source`, or the error
/// that [`get_links`] reports for it.
pub open spec fn links_of(source: Seq<char>) -> Result<
    (Seq<HeaderView>, Seq<LinkView>),
    Seq<char>,
> {
    match pattern::regex_new_outcome(ANCHOR_PUNCTUATION@) {
        Err(m) => Err(m),
        Ok(_) => scan_result(vstd::utf8::encode_utf8(source), markdown_events(source)),
    }
}

pub open spec fn header_views(hs: Seq<Header>) -> Seq<HeaderView> {
    hs.map_values(|h: Header| h@)
}

pub open spec fn link_views(ls: Seq<Link>) -> Seq<LinkView> {
    ls.map_values(|l: Link| l@)
}

/// Whether the exec scan variables hold the state `st`.
pub open spec fn holds_state(
    st: ScanState,
    headers: Seq<Header>,
    links: Seq<Link>,
    used: Map<Seq<char>, usize>,
    header_open: bool,
    header_label: Seq<char>,
    header_level: u32,
    link_open: bool,
    link_label: Seq<char>,
    link_destination: Seq<char>,
    link_line: usize,
    prev_level: u32,
    prev_header: Seq<char>,
) -> bool {
    &&& st.headers == header_views(headers)
    &&& st.links == link_views(links)
    &&& st.used == used
    &&& st.open_header == if header_open {
        Some((header_label, header_level))
    } else {
        None
    }
    &&& st.open_link == if link_open {
        Some((link_label, link_destination, link_line))
    } else {
        None
    }
    &&& st.prev_level == prev_level
    &&& st.prev_header == prev_header
}

/// Scans the parser events of a document whose UTF-8 encoding is `source`:
/// collects its headings, with an anchor each, and its links, with the line
/// each starts on; fails at the first heading that is more than one level
/// deeper than the heading before it.
pub fn collect_links(source: &[u8], events: &Vec<MdEvent>) -> (r: Result<
    (Vec<Header>, Vec<Link>),
    String,
>)
    requires
        pattern::regex_new_outcome(ANCHOR_PUNCTUATION@) is Ok,
    ensures
        match r {
            Ok((hs, ls)) => scan_result(source@, event_views(events@)) == Ok::<
                (Seq<HeaderView>, Seq<LinkView>),
                Seq<char>,
            >((header_views(hs@), link_views(ls@))),
            Err(e) => scan_result(source@, event_views(events@)) == Err::<
                (Seq<HeaderView>, Seq<LinkView>),
                Seq<char>,
            >(e@),
        },
{
    let ghost evs = event_views(events@);
    let mut headers: Vec<Header> = Vec::new();
    let mut links: Vec<Link> = Vec::new();
    let mut used: StringHashMap<usize> = StringHashMap::new();
    let mut header_open = false;
    let mut header_label = String::new();
    let mut header_level: u32 = 0;
    let mut link_open = false;
    let mut link_label = String::new();
    let mut link_destination = String::new();
    let mut link_line: usize = 0;
    let mut prev_level: u32 = 1;
    let mut prev_header = String::from_str("(first header)");
    let mut i: usize = 0;
    assert(header_views(headers@) =~= Seq::<HeaderView>::empty());
    assert(link_views(links@) =~= Seq::<LinkView>::empty());
    while i < events.len()
        invariant
            i <= events@.len(),
            pattern::regex_new_outcome(ANCHOR_PUNCTUATION@) is Ok,
            evs == event_views(events@),
            forall|k: Seq<char>| used@.contains_key(k) ==> #[trigger] used@[k] <= i,
            scan(source@, evs.take(i as int)) matches Ok(st) && holds_state(
                st,
                headers@,
                links@,
                used@,
                header_open,
                header_label@,
                header_level,
                link_open,
                link_label@,
                link_destination@,
                link_line,
                prev_level,
                prev_header@,
            ),
        decreases events@.len() - i,
    {
        let ghost st = scan(source@, evs.take(i as int))->Ok_0;
        assert(evs.take(i + 1).drop_last() == evs.take(i as int));
        assert(evs.take(i + 1).last() == events@[i as int]@);
        match &events[i] {
            MdEvent::HeadingStart { level, offset: _ } => {
                header_open = true;
                header_label = String::new();
                header_level = *level;
            },
            MdEvent::HeadingEnd => {
                if header_open {
                    header_open = false;
                    if header_level > prev_level && header_level - prev_level > 1 {
                        let mut m = String::from_str("Header '");
                        m.append(header_label.as_str());
                        m.append("' has level ");
                        m.append(decimal_string(header_level as u64).as_str());
                        m.append(", which is too deep versus previous header '");
                        m.append(prev_header.as_str());
                        m.append("' with level ");
                        m.append(decimal_string(prev_level as u64).as_str());
                        m.append(".");
                        assert(m@ == depth_message(
                            st.open_header->Some_0.0,
                            header_level,
                            prev_header@,
                            prev_level,
                        ));
                        proof {
                            lemma_scan_error_stays(source@, evs, i as int + 1);
                        }
                        return Err(m);
                    }
                    let ghost old_headers = headers@;
                    let anchor = make_anchor(header_label.as_str(), &mut used);
                    prev_level = header_level;
                    prev_header = header_label.clone();
                    headers.push(
                        Header { label: header_label.clone(), anchor: anchor, level: header_level },
                    );
                    assert(header_views(headers@) =~= header_views(old_headers).push(
                        headers@.last()@,
                    ));
                }
            },
            MdEvent::LinkStart { destination, offset } => {
                link_open = true;
                link_label = String::new();
                link_destination = destination.clone();
                link_line = lines_before_exec(source, *offset);
            },
            MdEvent::LinkEnd => {
                if link_open {
                    link_open = false;
                    let ghost old_links = links@;
                    links.push(
                        Link {
                            label: link_label.clone(),
                            destination: link_destination.clone(),
                            line_number: link_line,
                        },
                    );
                    assert(link_views(links@) =~= link_views(old_links).push(links@.last()@));
                }
            },
            MdEvent::Text(t) | MdEvent::Code(t) => {
                if header_open {
                    header_label.append(t.as_str());
                }
                if link_open {
                    link_label.append(t.as_str());
                }
            },
            MdEvent::Other => {},
        }
        i = i + 1;
    }
    assert(evs.take(events@.len() as int) == evs);
    Ok((headers, links))
}

/// Once the scan has failed, it stays failed with the same error.
proof fn lemma_scan_error_stays(source: Seq<u8>, evs: Seq<MdEventView>, n: int)
    requires
        0 <= n <= evs.len(),
        scan(source, evs.take(n)) is Err,
    ensures
        scan(source, evs) == scan(source, evs.take(n)),
    decreases evs.len() - n,
{
    if n == evs.len() {
        assert(evs.take(n) == evs);
    } else {
        assert(evs.take(n + 1).drop_last() == evs.take(n));
        lemma_scan_error_stays(source, evs, n + 1);
    }
}

/// The decimal representation of `n` as a `String`.
pub fn decimal_string(n: u64) -> (r: String)
    ensures
        r@ == text::decimal(n as nat),
{
    let mut digits: Vec<char> = Vec::new();
    push_decimal(&mut digits, n);
    assert(digits@ == Seq::<char>::empty() + text::decimal(n as nat));
    string_of(digits.as_slice())
}

/// The headings and links of the markdown document `contents`. Fails when a
/// heading is more than one level deeper than the heading before it (the
/// first heading is taken to follow a level-1 heading).
pub fn get_links(contents: &str) -> (r: Result<(Vec<Header>, Vec<Link>), String>)
    ensures
        match r {
            Ok((hs, ls)) => links_of(contents@) == Ok::<
                (Seq<HeaderView>, Seq<LinkView>),
                Seq<char>,
            >((header_views(hs@), link_views(ls@))),
            Err(e) => links_of(contents@) == Err::<(Seq<HeaderView>, Seq<LinkView>), Seq<char>>(
                e@,
            ),
        },
        r matches Ok((hs, _)) ==> forall|i: int|
            0 <= i < hs@.len() ==> 1 <= #[trigger] hs@[i].level <= 6,
{
    match compile(ANCHOR_PUNCTUATION) {
        Ok(_) => {},
        Err(e) => {
            return Err(e);
        },
    }
    let events = parse_markdown(contents);
    let r = collect_links(contents.as_bytes(), &events);
    proof {
        if r is Ok {
            lemma_result_levels(vstd::utf8::encode_utf8(contents@), events@, r->Ok_0.0@, r->Ok_0.1@);
        }
    }
    r
}


// ---------------------------------------------------------------------------
// Laws
// ---------------------------------------------------------------------------

/// Each heading is at most one level deeper than the heading before it, and
/// the first is at most level 2.
pub open spec fn nesting_ok(hs: Seq<HeaderView>) -> bool {
    forall|i: int|
        0 <= i < hs.len() ==> #[trigger] hs[i].level as int <= (if i == 0 {
            1
        } else {
            hs[i - 1].level as int
        }) + 1
}

/// Every heading-start event has a level from 1 to 6.
pub open spec fn levels_in_range(evs: Seq<MdEventView>) -> bool {
    forall|i: int|
        0 <= i < evs.len() ==> (#[trigger] evs[i] matches MdEventView::HeadingStart { level, .. }
            ==> 1 <= level <= 6)
}

spec fn scan_invariant(st: ScanState) -> bool {
    &&& st.prev_level == if st.headers.len() == 0 {
        1
    } else {
        st.headers.last().level
    }
    &&& nesting_ok(st.headers)
}

spec fn scan_levels(st: ScanState) -> bool {
    &&& forall|i: int| 0 <= i < st.headers.len() ==> 1 <= #[trigger] st.headers[i].level <= 6
    &&& st.open_header matches Some((_, level)) ==> 1 <= level <= 6
}

proof fn lemma_scan_invariant(source: Seq<u8>, evs: Seq<MdEventView>)
    ensures
        scan(source, evs) matches Ok(st) ==> scan_invariant(st),
        scan(source, evs) matches Ok(st) ==> (levels_in_range(evs) ==> scan_levels(st)),
    decreases evs.len(),
{
    if evs.len() > 0 {
        let init = evs.drop_last();
        lemma_scan_invariant(source, init);
        assert(levels_in_range(evs) ==> levels_in_range(init)) by {
            if levels_in_range(evs) {
                assert forall|i: int| 0 <= i < init.len() implies (#[trigger] init[i] matches MdEventView::HeadingStart { level, .. } ==> 1 <= level <= 6) by {
                    assert(init[i] == evs[i]);
                }
            }
        }
        if let Ok(st) = scan(source, init) {
            if let Ok(st2) = scan(source, evs) {
                let ev = evs.last();
                assert(ev == evs[evs.len() - 1]);
                match ev {
                    MdEventView::HeadingEnd => {
                        if let Some((label, level)) = st.open_header {
                            let hs = st2.headers;
                            assert(hs == st.headers.push(hs.last()));
                            assert forall|i: int| 0 <= i < hs.len() implies #[trigger] hs[i].level as int <= (if i == 0 {
                                1
                            } else {
                                hs[i - 1].level as int
                            }) + 1 by {
                                if i < hs.len() - 1 {
                                    assert(hs[i] == st.headers[i]);
                                    if i > 0 {
                                        assert(hs[i - 1] == st.headers[i - 1]);
                                    }
                                } else if i > 0 {
                                    assert(hs[i - 1] == st.headers.last());
                                }
                            }
                        }
                    },
                    _ => {},
                }
            }
        }
    }
}

proof fn lemma_result_levels(
    source: Seq<u8>,
    events: Seq<MdEvent>,
    hs: Seq<Header>,
    ls: Seq<Link>,
)
    requires
        forall|i: int|
            0 <= i < events.len() ==> (#[trigger] events[i] matches MdEvent::HeadingStart {
                level,
                ..
            } ==> 1 <= level <= 6),
        scan_result(source, event_views(events)) == Ok::<
            (Seq<HeaderView>, Seq<LinkView>),
            Seq<char>,
        >((header_views(hs), link_views(ls))),
    ensures
        forall|i: int| 0 <= i < hs.len() ==> 1 <= #[trigger] hs[i].level <= 6,
{
    let evs = event_views(events);
    lemma_views_levels(events);
    lemma_scan_invariant(source, evs);
    let st = scan(source, evs)->Ok_0;
    assert(st.headers == header_views(hs));
    assert(scan_levels(st));
    assert forall|i: int| 0 <= i < hs.len() implies 1 <= #[trigger] hs[i].level <= 6 by {
        assert(header_views(hs)[i] == hs[i]@);
        assert(1 <= st.headers[i].level <= 6);
    }
}

proof fn lemma_views_levels(events: Seq<MdEvent>)
    requires
        forall|i: int|
            0 <= i < events.len() ==> (#[trigger] events[i] matches MdEvent::HeadingStart {
                level,
                ..
            } ==> 1 <= level <= 6),
    ensures
        levels_in_range(event_views(events)),
{
    let evs = event_views(events);
    assert forall|i: int| 0 <= i < evs.len() implies (#[trigger] evs[i] matches MdEventView::HeadingStart { level, .. } ==> 1 <= level <= 6) by {
        assert(evs[i] == events[i]@);
    }
}

/// The headings that [`get_links`] returns never go more than one level
/// deeper than the heading before them, the first being taken to follow a
/// level-1 heading.
pub proof fn law_heading_nesting(source: Seq<char>)
    ensures
        links_of(source) matches Ok((hs, _)) ==> nesting_ok(hs),
{
    lemma_scan_invariant(vstd::utf8::encode_utf8(source), markdown_events(source));
}

/// A heading text that comes twice gets two different anchors.
pub proof fn law_repeated_label_new_anchor(label: Seq<char>, used: Map<Seq<char>, usize>)
    requires
        counts_bounded(used),
        used.contains_key(anchor_base(label)) ==> used[anchor_base(label)] + 2 < usize::MAX,
    ensures
        ({
            let (first, after) = next_anchor(anchor_base(label), used);
            let (second, _) = next_anchor(anchor_base(label), after);
            first != second
        }),
{
    let base = anchor_base(label);
    let (first, after) = next_anchor(base, used);
    let (second, _) = next_anchor(base, after);
    if used.contains_key(base) {
        let n = used[base];
        if first == second {
            assert((base + seq!['-']).len() == base.len() + 1);
            assert(first.skip(base.len() + 1int) == text::decimal((n + 1) as nat));
            assert(second.skip(base.len() + 1int) == text::decimal((n + 2) as nat));
            text::lemma_decimal_injective((n + 1) as nat, (n + 2) as nat);
        }
    } else {
        assert(second.len() > first.len());
    }
}


/// The anchors that headings labelled `labels` get, in order, when the
/// repeat counts start empty and [`make_anchor`]'s step is applied to each in
/// turn; and the counts afterwards.
pub open spec fn threaded_anchors(labels: Seq<Seq<char>>) -> (Seq<Seq<char>>, Map<Seq<char>, usize>)
    decreases labels.len(),
{
    if labels.len() == 0 {
        (Seq::empty(), Map::empty())
    } else {
        let (anchors, used) = threaded_anchors(labels.drop_last());
        let (a, after) = next_anchor(anchor_base(labels.last()), used);
        (anchors.push(a), after)
    }
}

pub open spec fn header_labels(hs: Seq<HeaderView>) -> Seq<Seq<char>> {
    hs.map_values(|h: HeaderView| h.label)
}

pub open spec fn header_anchors(hs: Seq<HeaderView>) -> Seq<Seq<char>> {
    hs.map_values(|h: HeaderView| h.anchor)
}

proof fn lemma_scan_threads(source: Seq<u8>, evs: Seq<MdEventView>)
    ensures
        scan(source, evs) matches Ok(st) ==> threaded_anchors(header_labels(st.headers)) == (
            header_anchors(st.headers),
            st.used,
        ),
    decreases evs.len(),
{
    if evs.len() > 0 {
        lemma_scan_threads(source, evs.drop_last());
        if let Ok(st) = scan(source, evs.drop_last()) {
            if let Ok(st2) = scan(source, evs) {
                if st2.headers != st.headers {
                    let hs = st2.headers;
                    assert(hs.drop_last() == st.headers);
                    assert(header_labels(hs).drop_last() =~= header_labels(st.headers));
                    assert(header_anchors(hs) =~= header_anchors(st.headers).push(hs.last().anchor));
                }
            }
        }
    }
}

/// Each heading's anchor is what [`make_anchor`] gives its label when it is
/// applied to the headings in document order with counts that start empty.
pub proof fn law_anchors_in_document_order(source: Seq<char>)
    ensures
        links_of(source) matches Ok((hs, _)) ==> header_anchors(hs) == threaded_anchors(
            header_labels(hs),
        ).0,
{
    lemma_scan_threads(vstd::utf8::encode_utf8(source), markdown_events(source));
}


/// The text an event adds to the labels open around it: that of text and
/// of inline code; other events add none.
pub open spec fn carried_text(ev: MdEventView) -> Seq<char> {
    match ev {
        MdEventView::Text(t) => t,
        MdEventView::Code(t) => t,
        _ => Seq::empty(),
    }
}

/// The texts carried by the events strictly between positions `a` and `b`,
/// joined in order.
pub open spec fn texts_between(evs: Seq<MdEventView>, a: int, b: int) -> Seq<char>
    decreases b - a,
{
    if b <= a + 1 {
        Seq::empty()
    } else {
        texts_between(evs, a, b - 1) + carried_text(evs[b - 1])
    }
}

/// Events `s` and `e` open and close one link: a link opens at `s`, closes
/// at `e`, and no link opens or closes in between.
pub open spec fn link_pair(evs: Seq<MdEventView>, s: int, e: int) -> bool {
    &&& 0 <= s < e < evs.len()
    &&& evs[s] is LinkStart
    &&& evs[e] is LinkEnd
    &&& forall|j: int| s < j < e ==> !(#[trigger] evs[j] is LinkStart) && !(evs[j] is LinkEnd)
}

/// The link read from the events `s` to `e`: the destination and line of
/// the opening event, and the joined text and inline code in between as
/// its label.
pub open spec fn link_at(source: Seq<u8>, evs: Seq<MdEventView>, s: int, e: int) -> LinkView {
    LinkView {
        label: texts_between(evs, s, e),
        destination: evs[s]->LinkStart_destination,
        line_number: text::lines_before(source, evs[s]->LinkStart_offset as int) as usize,
    }
}

/// The link `l` is read from the link that opens at event `s` and closes at
/// event `e` (see [`link_pair`] and [`link_at`]).
pub open spec fn link_read_from(
    source: Seq<u8>,
    evs: Seq<MdEventView>,
    l: LinkView,
    s: int,
    e: int,
) -> bool {
    link_pair(evs, s, e) && l == link_at(source, evs, s, e)
}

/// The link `l` is read from some link of the document, as
/// [`link_read_from`] says.
pub open spec fn link_is_read(source: Seq<u8>, evs: Seq<MdEventView>, l: LinkView) -> bool {
    exists|s: int, e: int| link_read_from(source, evs, l, s, e)
}

spec fn link_is_open(
    source: Seq<u8>,
    evs: Seq<MdEventView>,
    label: Seq<char>,
    destination: Seq<char>,
    line: usize,
) -> bool {
    exists|s: int| link_open_from(source, evs, label, destination, line, s)
}

spec fn link_open_from(
    source: Seq<u8>,
    evs: Seq<MdEventView>,
    label: Seq<char>,
    destination: Seq<char>,
    line: usize,
    s: int,
) -> bool {
    &&& 0 <= s < evs.len()
    &&& evs[s] matches MdEventView::LinkStart { destination: d, offset } && d == destination
        && line == text::lines_before(source, offset as int) as usize
    &&& forall|j: int| s < j < evs.len() ==> !(#[trigger] evs[j] is LinkStart) && !(
    evs[j] is LinkEnd)
    &&& label == texts_between(evs, s, evs.len() as int)
}

proof fn lemma_texts_prefix(evs: Seq<MdEventView>, x: MdEventView, a: int, b: int)
    requires
        0 <= a,
        b <= evs.len(),
    ensures
        texts_between(evs.push(x), a, b) == texts_between(evs, a, b),
    decreases b - a,
{
    if b > a + 1 {
        lemma_texts_prefix(evs, x, a, b - 1);
        assert(evs.push(x)[b - 1] == evs[b - 1]);
    }
}

proof fn lemma_scan_reads_links(source: Seq<u8>, evs: Seq<MdEventView>)
    ensures
        scan(source, evs) matches Ok(st) ==> {
            &&& forall|k: int|
                0 <= k < st.links.len() ==> link_is_read(source, evs, #[trigger] st.links[k])
            &&& st.open_link matches Some((l, d, n)) ==> link_is_open(source, evs, l, d, n)
        },
    decreases evs.len(),
{
    if evs.len() > 0 {
        let init = evs.drop_last();
        let x = evs.last();
        let n = init.len() as int;
        assert(init.push(x) == evs);
        lemma_scan_reads_links(source, init);
        if let Ok(st) = scan(source, init) {
            if let Ok(st2) = scan(source, evs) {
                assert(evs[n] == x);
                assert(scan_step(source, st, x) == Ok::<ScanState, Seq<char>>(st2));
                assert forall|k: int| 0 <= k < st.links.len() implies link_is_read(
                    source,
                    evs,
                    #[trigger] st.links[k],
                ) by {
                    assert(link_is_read(source, init, st.links[k]));
                    let (s, e) = choose|s: int, e: int| link_read_from(source, init, st.links[k], s, e);
                    lemma_texts_prefix(init, x, s, e);
                    assert forall|j: int| s < j < e implies !(#[trigger] evs[j] is LinkStart) && !(evs[j] is LinkEnd) by {
                        assert(evs[j] == init[j]);
                    }
                    assert(evs[s] == init[s]);
                    assert(evs[e] == init[e]);
                    assert(link_read_from(source, evs, st.links[k], s, e));
                }
                if x is LinkEnd && st.open_link is Some {
                    let (l, d, line) = st.open_link->Some_0;
                    assert(link_is_open(source, init, l, d, line));
                    let s = choose|s: int| link_open_from(source, init, l, d, line, s);
                    lemma_texts_prefix(init, x, s, n);
                    assert forall|j: int| s < j < n implies !(#[trigger] evs[j] is LinkStart) && !(evs[j] is LinkEnd) by {
                        assert(evs[j] == init[j]);
                    }
                    assert(evs[s] == init[s]);
                    let last = LinkView { label: l, destination: d, line_number: line };
                    assert(st2.links == st.links.push(last));
                    assert(link_read_from(source, evs, last, s, n));
                    assert forall|k: int| 0 <= k < st2.links.len() implies link_is_read(
                        source,
                        evs,
                        #[trigger] st2.links[k],
                    ) by {
                        if k < st.links.len() {
                            assert(st2.links[k] == st.links[k]);
                        } else {
                            assert(st2.links[k] == last);
                        }
                    }
                } else {
                    assert(st2.links == st.links);
                    if x is LinkStart {
                        let destination = x->LinkStart_destination;
                        let offset = x->LinkStart_offset;
                        let line = text::lines_before(source, offset as int) as usize;
                        assert(texts_between(evs, n, n + 1) == Seq::<char>::empty());
                        assert(st2.open_link == Some((Seq::<char>::empty(), destination, line)));
                        assert(link_open_from(source, evs, Seq::<char>::empty(), destination, line, n));
                    } else if let Some((l, d, line)) = st.open_link {
                        assert(link_is_open(source, init, l, d, line));
                        let s = choose|s: int| link_open_from(source, init, l, d, line, s);
                        lemma_texts_prefix(init, x, s, n);
                        assert(evs[s] == init[s]);
                        assert forall|j: int| s < j < evs.len() implies !(#[trigger] evs[j] is LinkStart) && !(evs[j] is LinkEnd) by {
                            if j < n {
                                assert(evs[j] == init[j]);
                            }
                        }
                        let l2 = l + carried_text(x);
                        assert(l + Seq::<char>::empty() =~= l);
                        assert(st2.open_link == Some((l2, d, line)));
                        assert(texts_between(evs, s, n + 1) == texts_between(evs, s, n) + carried_text(evs[n]));
                        assert(link_open_from(source, evs, l2, d, line, s));
                    }
                }
            }
        }
    }
}

/// Every link found is read from one link of the document: an opening
/// event that gives its destination and line, the closing event after it,
/// and its label is all the text and inline code in between, in order.
pub proof fn law_link_labels_are_their_text(source: Seq<u8>, evs: Seq<MdEventView>)
    ensures
        scan_result(source, evs) matches Ok((_, links)) ==> forall|k: int|
            0 <= k < links.len() ==> link_is_read(source, evs, #[trigger] links[k]),
{
    lemma_scan_reads_links(source, evs);
    if let Ok(st) = scan(source, evs) {
        assert(scan_result(source, evs) == Ok::<(Seq<HeaderView>, Seq<LinkView>), Seq<char>>((st.headers, st.links)));
    }
}

spec fn open_since(evs: Seq<MdEventView>, s: int) -> bool {
    &&& 0 <= s < evs.len()
    &&& evs[s] is LinkStart
    &&& forall|j: int| s < j < evs.len() ==> !(#[trigger] evs[j] is LinkStart) && !(evs[j] is LinkEnd)
}

proof fn lemma_scan_finds_links(source: Seq<u8>, evs: Seq<MdEventView>)
    ensures
        scan(source, evs) matches Ok(st) ==> {
            &&& forall|s: int, e: int|
                #[trigger] link_pair(evs, s, e) ==> st.links.contains(link_at(source, evs, s, e))
            &&& forall|s: int|
                #[trigger] open_since(evs, s) ==> st.open_link == Some(
                    (
                        texts_between(evs, s, evs.len() as int),
                        evs[s]->LinkStart_destination,
                        text::lines_before(source, evs[s]->LinkStart_offset as int) as usize,
                    ),
                )
        },
    decreases evs.len(),
{
    if evs.len() > 0 {
        let init = evs.drop_last();
        let x = evs.last();
        let n = init.len() as int;
        assert(init.push(x) == evs);
        lemma_scan_finds_links(source, init);
        if let Ok(st) = scan(source, init) {
            if let Ok(st2) = scan(source, evs) {
                assert(evs[n] == x);
                assert(scan_step(source, st, x) == Ok::<ScanState, Seq<char>>(st2));
                assert(st.links.is_prefix_of(st2.links));
                assert forall|s: int, e: int| #[trigger] link_pair(evs, s, e) implies st2.links.contains(
                    link_at(source, evs, s, e),
                ) by {
                    lemma_texts_prefix(init, x, s, e);
                    if e < n {
                        assert forall|j: int| s < j < e implies !(#[trigger] init[j] is LinkStart) && !(init[j] is LinkEnd) by {
                            assert(evs[j] == init[j]);
                        }
                        assert(evs[s] == init[s]);
                        assert(evs[e] == init[e]);
                        assert(link_pair(init, s, e));
                        assert(link_at(source, evs, s, e) == link_at(source, init, s, e));
                        let k = choose|k: int| 0 <= k < st.links.len() && st.links[k] == link_at(source, init, s, e);
                        assert(st2.links[k] == st.links[k]);
                    } else {
                        assert forall|j: int| s < j < n implies !(#[trigger] init[j] is LinkStart) && !(init[j] is LinkEnd) by {
                            assert(evs[j] == init[j]);
                        }
                        assert(evs[s] == init[s]);
                        assert(open_since(init, s));
                        assert(st2.links == st.links.push(link_at(source, evs, s, e)));
                        assert(st2.links[st.links.len() as int] == link_at(source, evs, s, e));
                    }
                }
                assert forall|s: int| #[trigger] open_since(evs, s) implies st2.open_link == Some(
                    (
                        texts_between(evs, s, evs.len() as int),
                        evs[s]->LinkStart_destination,
                        text::lines_before(source, evs[s]->LinkStart_offset as int) as usize,
                    ),
                ) by {
                    if s == n {
                        assert(texts_between(evs, n, n + 1) == Seq::<char>::empty());
                    } else {
                        assert(!(x is LinkStart) && !(x is LinkEnd));
                        assert forall|j: int| s < j < n implies !(#[trigger] init[j] is LinkStart) && !(init[j] is LinkEnd) by {
                            assert(evs[j] == init[j]);
                        }
                        assert(evs[s] == init[s]);
                        assert(open_since(init, s));
                        lemma_texts_prefix(init, x, s, n);
                        assert(texts_between(evs, s, n + 1) == texts_between(evs, s, n) + carried_text(evs[n]));
                        let l = texts_between(init, s, n);
                        assert(l + Seq::<char>::empty() =~= l);
                    }
                }
            }
        }
    }
}

/// Every link of the document is found: for each link that opens at an
/// event and closes at a later one with no link opening or closing in
/// between, the links found hold one with the opening event's destination
/// and line, and all the text and inline code in between as its label.
pub proof fn law_every_link_is_found(source: Seq<u8>, evs: Seq<MdEventView>)
    ensures
        scan_result(source, evs) matches Ok((_, links)) ==> forall|s: int, e: int|
            #[trigger] link_pair(evs, s, e) ==> links.contains(link_at(source, evs, s, e)),
{
    lemma_scan_finds_links(source, evs);
    if let Ok(st) = scan(source, evs) {
        assert(scan_result(source, evs) == Ok::<(Seq<HeaderView>, Seq<LinkView>), Seq<char>>((st.headers, st.links)));
    }
}

/// Events `s` and `e` open and close one heading: a heading opens at `s`,
/// closes at `e`, and no heading opens or closes in between.
pub open spec fn heading_pair(evs: Seq<MdEventView>, s: int, e: int) -> bool {
    &&& 0 <= s < e < evs.len()
    &&& evs[s] is HeadingStart
    &&& evs[e] is HeadingEnd
    &&& forall|j: int| s < j < e ==> !(#[trigger] evs[j] is HeadingStart) && !(evs[j] is HeadingEnd)
}

/// The heading `h` is read from the heading that opens at event `s` and
/// closes at event `e`: its level is that of the opening event and its
/// label is the joined text and inline code in between.
pub open spec fn heading_read_from(evs: Seq<MdEventView>, h: HeaderView, s: int, e: int) -> bool {
    &&& heading_pair(evs, s, e)
    &&& h.level == evs[s]->HeadingStart_level
    &&& h.label == texts_between(evs, s, e)
}

/// The heading `h` is read from some heading of the document.
pub open spec fn heading_is_read(evs: Seq<MdEventView>, h: HeaderView) -> bool {
    exists|s: int, e: int| heading_read_from(evs, h, s, e)
}

/// Some heading of `hs` has the label `label` and the level `level`.
pub open spec fn has_heading(hs: Seq<HeaderView>, label: Seq<char>, level: u32) -> bool {
    exists|k: int| 0 <= k < hs.len() && #[trigger] hs[k].label == label && hs[k].level == level
}

spec fn heading_open_since(evs: Seq<MdEventView>, s: int) -> bool {
    &&& 0 <= s < evs.len()
    &&& evs[s] is HeadingStart
    &&& forall|j: int| s < j < evs.len() ==> !(#[trigger] evs[j] is HeadingStart) && !(evs[j] is HeadingEnd)
}

proof fn lemma_scan_reads_headings(source: Seq<u8>, evs: Seq<MdEventView>)
    ensures
        scan(source, evs) matches Ok(st) ==> {
            &&& forall|k: int|
                0 <= k < st.headers.len() ==> heading_is_read(evs, #[trigger] st.headers[k])
            &&& forall|s: int, e: int|
                #[trigger] heading_pair(evs, s, e) ==> has_heading(
                    st.headers,
                    texts_between(evs, s, e),
                    evs[s]->HeadingStart_level,
                )
            &&& forall|s: int|
                #[trigger] heading_open_since(evs, s) ==> st.open_header == Some(
                    (texts_between(evs, s, evs.len() as int), evs[s]->HeadingStart_level),
                )
            &&& st.open_header is Some ==> exists|s: int| #[trigger] heading_open_since(evs, s)
        },
    decreases evs.len(),
{
    if evs.len() > 0 {
        let init = evs.drop_last();
        let x = evs.last();
        let n = init.len() as int;
        assert(init.push(x) == evs);
        lemma_scan_reads_headings(source, init);
        if let Ok(st) = scan(source, init) {
            if let Ok(st2) = scan(source, evs) {
                assert(evs[n] == x);
                assert(scan_step(source, st, x) == Ok::<ScanState, Seq<char>>(st2));
                assert(st.headers.is_prefix_of(st2.headers));
                assert forall|k: int| 0 <= k < st.headers.len() implies heading_is_read(
                    evs,
                    #[trigger] st.headers[k],
                ) by {
                    assert(heading_is_read(init, st.headers[k]));
                    let (s, e) = choose|s: int, e: int| heading_read_from(init, st.headers[k], s, e);
                    lemma_texts_prefix(init, x, s, e);
                    assert forall|j: int| s < j < e implies !(#[trigger] evs[j] is HeadingStart) && !(evs[j] is HeadingEnd) by {
                        assert(evs[j] == init[j]);
                    }
                    assert(evs[s] == init[s]);
                    assert(evs[e] == init[e]);
                    assert(heading_read_from(evs, st.headers[k], s, e));
                }
                assert forall|s: int, e: int| #[trigger] heading_pair(evs, s, e) implies has_heading(
                    st2.headers,
                    texts_between(evs, s, e),
                    evs[s]->HeadingStart_level,
                ) by {
                    lemma_texts_prefix(init, x, s, e);
                    assert(evs[s] == init[s]);
                    if e < n {
                        assert forall|j: int| s < j < e implies !(#[trigger] init[j] is HeadingStart) && !(init[j] is HeadingEnd) by {
                            assert(evs[j] == init[j]);
                        }
                        assert(evs[e] == init[e]);
                        assert(heading_pair(init, s, e));
                        let k = choose|k: int| 0 <= k < st.headers.len() && #[trigger] st.headers[k].label
                            == texts_between(init, s, e) && st.headers[k].level == init[s]->HeadingStart_level;
                        assert(st2.headers[k] == st.headers[k]);
                    } else {
                        assert forall|j: int| s < j < n implies !(#[trigger] init[j] is HeadingStart) && !(init[j] is HeadingEnd) by {
                            assert(evs[j] == init[j]);
                        }
                        assert(heading_open_since(init, s));
                        let k = st.headers.len() as int;
                        assert(st2.headers[k].label == texts_between(evs, s, e));
                    }
                }
                if x is HeadingEnd && st.open_header is Some {
                    let (label, level) = st.open_header->Some_0;
                    let s = choose|s: int| #[trigger] heading_open_since(init, s);
                    lemma_texts_prefix(init, x, s, n);
                    assert(evs[s] == init[s]);
                    assert forall|j: int| s < j < n implies !(#[trigger] evs[j] is HeadingStart) && !(evs[j] is HeadingEnd) by {
                        assert(evs[j] == init[j]);
                    }
                    let last = st2.headers.last();
                    assert(st2.headers == st.headers.push(last));
                    assert(heading_read_from(evs, last, s, n));
                    assert forall|k: int| 0 <= k < st2.headers.len() implies heading_is_read(
                        evs,
                        #[trigger] st2.headers[k],
                    ) by {
                        if k < st.headers.len() {
                            assert(st2.headers[k] == st.headers[k]);
                        }
                    }
                    assert forall|s2: int| #[trigger] heading_open_since(evs, s2) implies false by {
                        assert(evs[n] is HeadingEnd);
                    }
                } else {
                    assert(st2.headers == st.headers);
                    assert forall|s: int| #[trigger] heading_open_since(evs, s) implies st2.open_header == Some(
                        (texts_between(evs, s, evs.len() as int), evs[s]->HeadingStart_level),
                    ) by {
                        if s == n {
                            assert(texts_between(evs, n, n + 1) == Seq::<char>::empty());
                        } else {
                            assert(!(x is HeadingStart) && !(x is HeadingEnd));
                            assert forall|j: int| s < j < n implies !(#[trigger] init[j] is HeadingStart) && !(init[j] is HeadingEnd) by {
                                assert(evs[j] == init[j]);
                            }
                            assert(evs[s] == init[s]);
                            assert(heading_open_since(init, s));
                            lemma_texts_prefix(init, x, s, n);
                            assert(texts_between(evs, s, n + 1) == texts_between(evs, s, n) + carried_text(evs[n]));
                            let l = texts_between(init, s, n);
                            assert(l + Seq::<char>::empty() =~= l);
                        }
                    }
                    if st2.open_header is Some {
                        if x is HeadingStart {
                            assert(heading_open_since(evs, n));
                        } else {
                            let s = choose|s: int| #[trigger] heading_open_since(init, s);
                            assert(evs[s] == init[s]);
                            assert forall|j: int| s < j < evs.len() implies !(#[trigger] evs[j] is HeadingStart) && !(evs[j] is HeadingEnd) by {
                                if j < n {
                                    assert(evs[j] == init[j]);
                                }
                            }
                            assert(heading_open_since(evs, s));
                        }
                    }
                }
            }
        }
    }
}

/// The headings found are exactly the headings of the document: each is
/// read from one heading (its level that of the opening event, its label
/// all the text and inline code up to the closing event), and each heading
/// that opens and closes with no heading opening or closing in between is
/// found with that label and level.
pub proof fn law_headings_are_their_text(source: Seq<u8>, evs: Seq<MdEventView>)
    ensures
        scan_result(source, evs) matches Ok((hs, _)) ==> {
            &&& forall|k: int| 0 <= k < hs.len() ==> heading_is_read(evs, #[trigger] hs[k])
            &&& forall|s: int, e: int|
                #[trigger] heading_pair(evs, s, e) ==> has_heading(
                    hs,
                    texts_between(evs, s, e),
                    evs[s]->HeadingStart_level,
                )
        },
{
    lemma_scan_reads_headings(source, evs);
    if let Ok(st) = scan(source, evs) {
        assert(scan_result(source, evs) == Ok::<(Seq<HeaderView>, Seq<LinkView>), Seq<char>>((st.headers, st.links)));
    }
}

} // verus!
