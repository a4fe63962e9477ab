use pre_commit_tool_hooks::toc::updated_toc;

const DOC: &str = "# Doc\n\n<!-- toc -->\n<!-- tocstop -->\n\n## First\n\n### Sub\n\n## Table of Contents\n\n## Second\n";

const DOC_WITH_TOC: &str = "# Doc\n\n<!-- toc -->\n\n## Table of contents\n\n-   [First](#first)\n    -   [Sub](#sub)\n-   [Second](#second)\n\n<!-- tocstop -->\n\n## First\n\n### Sub\n\n## Table of Contents\n\n## Second\n";

#[test]
fn toc_is_written() {
    assert_eq!(updated_toc(DOC).unwrap(), Some(DOC_WITH_TOC.to_string()));
}

#[test]
fn toc_up_to_date_is_left_alone() {
    assert_eq!(updated_toc(DOC_WITH_TOC).unwrap(), None);
}

#[test]
fn no_toc_marker_means_nothing_to_do() {
    assert_eq!(updated_toc("# A\n\n## B\n").unwrap(), None);
}

#[test]
fn missing_tocstop_is_an_error() {
    assert_eq!(updated_toc("# A\n<!-- toc -->\n## B\n").unwrap_err(), "Missing tocstop");
}

#[test]
fn toc_without_entries_has_no_blank_line() {
    let doc = "# Only\n\n<!-- toc -->old<!-- tocstop -->\n";
    let expected = "# Only\n\n<!-- toc -->\n\n## Table of contents\n\n<!-- tocstop -->\n";
    assert_eq!(updated_toc(doc).unwrap(), Some(expected.to_string()));
}

#[test]
fn toc_reports_heading_errors() {
    let doc = "<!-- toc -->\n<!-- tocstop -->\n\n### Too deep\n";
    assert_eq!(
        updated_toc(doc).unwrap_err(),
        "Header 'Too deep' has level 3, which is too deep versus previous header '(first header)' with level 1."
    );
}
