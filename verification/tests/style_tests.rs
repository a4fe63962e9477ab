use pre_commit_tool_hooks::style::{build_replacers, restyle, restyle_line};

#[test]
fn words_are_replaced() {
    let rs = build_replacers().unwrap();
    assert_eq!(
        restyle(&rs, "Use the repo via CLI.\n").unwrap(),
        Some("Use the repository by way of CLI.\n".to_string())
    );
}

#[test]
fn capitalized_words_get_capitalized_replacements() {
    let rs = build_replacers().unwrap();
    assert_eq!(restyle_line(&rs, "Repo is here, vs. there"), "Repository is here, versus there");
    assert_eq!(restyle_line(&rs, "TL;DR: read it"), "To summarize: read it");
}

#[test]
fn words_inside_other_words_stay() {
    let rs = build_replacers().unwrap();
    assert_eq!(restyle(&rs, "repository consensus\nprosper\n").unwrap(), None);
}

#[test]
fn rules_count() {
    assert_eq!(build_replacers().unwrap().len(), 30);
}

#[test]
fn ignored_region_is_kept() {
    let rs = build_replacers().unwrap();
    let doc = "<!-- google-doc-style-ignore -->\nrepo\n<!-- google-doc-style-resume -->\nrepo";
    let expected = "<!-- google-doc-style-ignore -->\nrepo\n<!-- google-doc-style-resume -->\nrepository";
    assert_eq!(restyle(&rs, doc).unwrap(), Some(expected.to_string()));
}

#[test]
fn repeated_ignore_start_is_an_error() {
    let rs = build_replacers().unwrap();
    let doc = "<!-- google-doc-style-ignore -->\nx\n<!-- google-doc-style-ignore -->\n";
    assert_eq!(
        restyle(&rs, doc).unwrap_err(),
        "Found a repeated '<!-- google-doc-style-ignore -->' without a '<!-- google-doc-style-resume -->' on line 3"
    );
}

#[test]
fn stray_resume_is_an_error() {
    let rs = build_replacers().unwrap();
    assert_eq!(
        restyle(&rs, "ok\n<!-- google-doc-style-resume -->").unwrap_err(),
        "Found a '<!-- google-doc-style-resume -->' without a preceding '<!-- google-doc-style-ignore -->' on line 2"
    );
}

#[test]
fn unclosed_ignore_is_an_error() {
    let rs = build_replacers().unwrap();
    assert_eq!(
        restyle(&rs, "<!-- google-doc-style-ignore -->\nrepo\n").unwrap_err(),
        "Found a '<!-- google-doc-style-ignore -->' without a stopping '<!-- google-doc-style-resume -->'"
    );
}

#[test]
fn unchanged_document_is_not_rewritten() {
    let rs = build_replacers().unwrap();
    assert_eq!(restyle(&rs, "").unwrap(), None);
    assert_eq!(restyle(&rs, "Plain text.\n\n").unwrap(), None);
}

#[test]
fn several_rules_in_one_line() {
    let rs = build_replacers().unwrap();
    assert_eq!(
        restyle_line(&rs, "pros and cons, e.g. the whitelist"),
        "advantages and disadvantages, for example the allowlist"
    );
}
