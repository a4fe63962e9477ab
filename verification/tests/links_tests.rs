use pre_commit_tool_hooks::links::{
    after_directory_probe, after_exists_probe, has_anchor, is_markdown_path, link_error_message,
    link_step, parsed_link_step, DirectoryStep, ExistsStep, LinkCache, LinkProblem, LinkStep,
    UrlParse,
};
use pre_commit_tool_hooks::Link;

fn anchors() -> Vec<String> {
    vec!["intro".to_string(), "usage".to_string()]
}

#[test]
fn internal_anchors() {
    assert!(matches!(link_step("#intro", &anchors(), false), LinkStep::Fine));
    assert!(matches!(
        link_step("#missing", &anchors(), false),
        LinkStep::Broken(LinkProblem::MissingAnchor)
    ));
    assert!(matches!(
        link_step("#missing", &anchors(), true),
        LinkStep::Broken(LinkProblem::MissingAnchor)
    ));
}

#[test]
fn scheme_relative_links_are_reported() {
    assert!(matches!(
        link_step("//example.com/x", &anchors(), false),
        LinkStep::Broken(LinkProblem::MissingScheme)
    ));
}

#[test]
fn absolute_urls_pass() {
    assert!(matches!(link_step("https://example.com/a#b", &anchors(), false), LinkStep::Fine));
    assert!(matches!(link_step("mailto:someone@example.com", &anchors(), false), LinkStep::Fine));
}

#[test]
fn invalid_urls_are_reported() {
    assert!(matches!(
        link_step("http://a:99999/", &anchors(), false),
        LinkStep::Broken(LinkProblem::InvalidUrl)
    ));
}

#[test]
fn relative_paths_are_probed() {
    match link_step("docs/guide.md#setup", &anchors(), false) {
        LinkStep::CheckFile(t) => {
            assert_eq!(t.path, "docs/guide.md");
            assert!(!t.from_root);
            assert_eq!(t.fragment, Some("setup".to_string()));
        }
        _ => panic!("expected a file check"),
    }
    match link_step("/docs/x.md", &anchors(), false) {
        LinkStep::CheckFile(t) => {
            assert_eq!(t.path, "docs/x.md");
            assert!(t.from_root);
            assert_eq!(t.fragment, None);
        }
        _ => panic!("expected a file check"),
    }
    match link_step("a.md#b#c", &anchors(), false) {
        LinkStep::CheckFile(t) => assert_eq!(t.fragment, Some("b".to_string())),
        _ => panic!("expected a file check"),
    }
}

#[test]
fn anchors_only_skips_paths() {
    assert!(matches!(link_step("docs/guide.md#setup", &anchors(), true), LinkStep::Fine));
}

#[test]
fn empty_destination_passes() {
    assert!(matches!(link_step("", &anchors(), false), LinkStep::Fine));
}

#[test]
fn file_probes() {
    assert!(matches!(after_directory_probe(false, true), DirectoryStep::Fine));
    assert!(matches!(after_directory_probe(true, true), DirectoryStep::ProbeExists { use_index: true }));
    assert!(matches!(after_directory_probe(true, false), DirectoryStep::ProbeExists { use_index: false }));
    assert!(matches!(after_exists_probe(false, true), ExistsStep::Broken(LinkProblem::MissingFile)));
    assert!(matches!(after_exists_probe(true, true), ExistsStep::CheckAnchor));
    assert!(matches!(after_exists_probe(true, false), ExistsStep::Fine));
    assert!(has_anchor(&anchors(), "usage"));
    assert!(!has_anchor(&anchors(), "Usage"));
}

#[test]
fn error_message_format() {
    let link = Link { label: "x".to_string(), destination: "#y".to_string(), line_number: 14 };
    assert_eq!(
        link_error_message("doc.md", &link, LinkProblem::MissingAnchor.message()),
        "doc.md:14: [x](#y): Link points at a non-existent anchor."
    );
    assert_eq!(LinkProblem::MissingScheme.message(), "Link is missing a scheme, such as https://.");
    assert_eq!(LinkProblem::MissingFile.message(), "Link points at a non-existent file.");
    assert_eq!(LinkProblem::InvalidUrl.message(), "Invalid URL.");
}

#[test]
fn markdown_paths() {
    assert!(is_markdown_path("docs/a.md"));
    assert!(!is_markdown_path("docs/a.mdx"));
    assert!(!is_markdown_path("md"));
}

#[test]
fn cache_loads_documents() {
    let mut cache = LinkCache::new();
    assert!(cache.lookup("/r/a.md").is_none());
    cache.load("/r/a.md".to_string(), "# A\n\n## B\n\n[l](#b)\n").unwrap();
    let doc = cache.lookup("/r/a.md").unwrap();
    assert_eq!(doc.anchors, vec!["a".to_string(), "b".to_string()]);
    assert_eq!(doc.links.len(), 1);
    assert_eq!(doc.links[0].destination, "#b");
    // The link opens its line, so only the four lines before it are counted.
    assert_eq!(doc.links[0].line_number, 4);
    assert!(cache.load("/r/bad.md".to_string(), "# A\n### C\n").is_err());
    assert!(cache.lookup("/r/bad.md").is_none());
}

#[test]
fn steps_for_each_parse_outcome() {
    assert!(matches!(parsed_link_step("x:y", UrlParse::Parsed, false), LinkStep::Fine));
    assert!(matches!(
        parsed_link_step("x:y", UrlParse::Invalid, false),
        LinkStep::Broken(LinkProblem::InvalidUrl)
    ));
    assert!(matches!(parsed_link_step("#", UrlParse::RelativeWithoutBase, false), LinkStep::Fine));
    match parsed_link_step("//a/b#c", UrlParse::RelativeWithoutBase, false) {
        LinkStep::CheckFile(t) => {
            assert_eq!(t.path, "a/b");
            assert!(t.from_root);
            assert_eq!(t.fragment, Some("c".to_string()));
        }
        _ => panic!("expected a file check"),
    }
}
