use pre_commit_tool_hooks::markdown::{collect_links, MdEvent};
use pre_commit_tool_hooks::{get_links, make_anchor, StringHashMap};

#[test]
fn test_make_anchor() {
    let mut used = StringHashMap::new();
    assert_eq!(make_anchor("Hello World", &mut used), "hello-world");
    assert_eq!(make_anchor("Hello! World?", &mut used), "hello-world-1");
    assert_eq!(make_anchor("Hello World", &mut used), "hello-world-2");
}

#[test]
fn test_get_links() {
    let contents = "# Title\n\n[Link](url)\n## Header\n";
    let (headers, links) = get_links(contents).unwrap();
    assert_eq!(headers.len(), 2);
    assert_eq!(headers[0].label, "Title");
    assert_eq!(headers[1].label, "Header");
    assert_eq!(links.len(), 1);
    assert_eq!(links[0].label, "Link");
    assert_eq!(links[0].destination, "url");
}

#[test]
fn anchor_trims_and_drops_punctuation() {
    let mut used = StringHashMap::new();
    assert_eq!(make_anchor("  What's New? (v2.0)  ", &mut used), "whats-new-v20");
    assert_eq!(make_anchor("a_b-c", &mut used), "a_b-c");
}

#[test]
fn repeated_label_gets_new_anchor() {
    let mut used = StringHashMap::new();
    let first = make_anchor("Intro", &mut used);
    let second = make_anchor("Intro", &mut used);
    assert_eq!(first, "intro");
    assert_eq!(second, "intro-1");
    assert_ne!(first, second);
    let mut many = Vec::new();
    for _ in 0..11 {
        many.push(make_anchor("Intro", &mut used));
    }
    assert_eq!(many[10], "intro-12");
}

#[test]
fn anchors_of_headings_are_recorded() {
    let (headers, _) = get_links("# Doc\n\n## Setup\n\n## Setup\n").unwrap();
    assert_eq!(headers.len(), 3);
    assert_eq!(headers[0].anchor, "doc");
    assert_eq!(headers[1].anchor, "setup");
    assert_eq!(headers[2].anchor, "setup-1");
    assert_eq!(headers[0].level, 1);
    assert_eq!(headers[1].level, 2);
}

#[test]
fn heading_too_deep_is_an_error() {
    let err = get_links("# A\n\n### B\n").unwrap_err();
    assert_eq!(
        err,
        "Header 'B' has level 3, which is too deep versus previous header 'A' with level 1."
    );
}

#[test]
fn first_heading_may_be_level_two() {
    let (headers, _) = get_links("## Start\n").unwrap();
    assert_eq!(headers[0].level, 2);
    let err = get_links("### Deep\n").unwrap_err();
    assert_eq!(
        err,
        "Header 'Deep' has level 3, which is too deep versus previous header '(first header)' with level 1."
    );
}

#[test]
fn nesting_may_go_back_up() {
    let (headers, _) = get_links("# A\n## B\n### C\n## D\n# E\n## F\n").unwrap();
    let levels: Vec<u32> = headers.iter().map(|h| h.level).collect();
    assert_eq!(levels, vec![1, 2, 3, 2, 1, 2]);
}

#[test]
fn heading_text_joins_code_and_links() {
    let (headers, links) = get_links("## Use `foo` with [bar](b.md)\n").unwrap();
    assert_eq!(headers[0].label, "Use foo with bar");
    assert_eq!(headers[0].anchor, "use-foo-with-bar");
    assert_eq!(links.len(), 1);
    assert_eq!(links[0].label, "bar");
    assert_eq!(links[0].destination, "b.md");
    assert_eq!(links[0].line_number, 1);
}

#[test]
fn link_line_numbers() {
    let contents = "# T\n\nfirst [a](#t)\n\n\nthen [b](https://x.org) and [c](c.md#z)\n";
    let (_, links) = get_links(contents).unwrap();
    assert_eq!(links.len(), 3);
    assert_eq!(links[0].line_number, 3);
    assert_eq!(links[1].line_number, 6);
    assert_eq!(links[2].line_number, 6);
    assert_eq!(links[2].destination, "c.md#z");
}

#[test]
fn setext_heading_and_no_links() {
    let (headers, links) = get_links("Title\n=====\n\nSub\n---\n").unwrap();
    assert_eq!(headers.len(), 2);
    assert_eq!(headers[1].level, 2);
    assert_eq!(headers[1].anchor, "sub");
    assert!(links.is_empty());
}

#[test]
fn empty_document() {
    let (headers, links) = get_links("").unwrap();
    assert!(headers.is_empty());
    assert!(links.is_empty());
}

#[test]
fn heading_levels_run_from_one_to_six() {
    let doc = "# a\n## b\n### c\n#### d\n##### e\n###### f\n####### g\n";
    let (headers, _) = get_links(doc).unwrap();
    let levels: Vec<u32> = headers.iter().map(|h| h.level).collect();
    assert_eq!(levels, vec![1, 2, 3, 4, 5, 6]);
}

#[test]
fn scan_of_given_events() {
    let source = "# A\n[l](x)\n";
    let events = vec![
        MdEvent::HeadingStart { level: 1, offset: 0 },
        MdEvent::Text("A".to_string()),
        MdEvent::HeadingEnd,
        MdEvent::Other,
        MdEvent::LinkStart { destination: "x".to_string(), offset: 4 },
        MdEvent::Text("l".to_string()),
        MdEvent::LinkEnd,
        MdEvent::Other,
    ];
    let (headers, links) = collect_links(source.as_bytes(), &events).unwrap();
    assert_eq!(headers.len(), 1);
    assert_eq!(headers[0].anchor, "a");
    assert_eq!(links.len(), 1);
    assert_eq!(links[0].label, "l");
    assert_eq!(links[0].line_number, 1);
}

#[test]
fn scan_reports_deep_heading_events() {
    let events = vec![
        MdEvent::HeadingStart { level: 4, offset: 0 },
        MdEvent::Text("X".to_string()),
        MdEvent::HeadingEnd,
    ];
    assert_eq!(
        collect_links(b"#### X", &events).unwrap_err(),
        "Header 'X' has level 4, which is too deep versus previous header '(first header)' with level 1."
    );
}

#[test]
fn code_events_join_labels() {
    let events = vec![
        MdEvent::HeadingStart { level: 2, offset: 0 },
        MdEvent::Text("Use ".to_string()),
        MdEvent::Code("x".to_string()),
        MdEvent::HeadingEnd,
    ];
    let (headers, _) = collect_links(b"## Use `x`", &events).unwrap();
    assert_eq!(headers[0].label, "Use x");
    assert_eq!(headers[0].anchor, "use-x");
}
