use pre_commit_tool_hooks::copyright::{
    has_copyright, unescape_leading_dash, CopyrightValidator, DEFAULT_COPYRIGHT,
    DEFAULT_SKIP_PATTERN,
};

const RS_HEADER: &str = "// Copyright 2026 Google LLC
//
// Licensed under the Apache License, Version 2.0 (the \"License\");
// you may not use this file except in compliance with the License.
// You may obtain a copy of the License at
//
//     https://www.apache.org/licenses/LICENSE-2.0
//
// Unless required by applicable law or agreed to in writing, software
// distributed under the License is distributed on an \"AS IS\" BASIS,
// WITHOUT WARRANTIES OR CONDITIONS OF ANY KIND, either express or implied.
// See the License for the specific language governing permissions and
// limitations under the License.
";

fn default_validator() -> CopyrightValidator {
    CopyrightValidator::with_year(DEFAULT_COPYRIGHT, DEFAULT_SKIP_PATTERN, &vec![], 2026).unwrap()
}

#[test]
fn rust_files_get_line_comments() {
    let v = default_validator();
    let (_, suggestion) = v.get_copyright("src/lib.rs").unwrap();
    assert_eq!(suggestion, RS_HEADER);
}

#[test]
fn header_with_any_year_passes() {
    let v = default_validator();
    let (pattern, _) = v.get_copyright("src/lib.rs").unwrap();
    let file = format!("{}\nfn main() {{}}\n", RS_HEADER.replace("2026", "2019"));
    assert!(has_copyright(pattern, &file));
    assert!(!has_copyright(pattern, "fn main() {}\n"));
    assert!(!has_copyright(pattern, &RS_HEADER.replace("2026", "year")));
}

#[test]
fn tiny_files_pass() {
    let v = default_validator();
    let (pattern, _) = v.get_copyright("a.py").unwrap();
    assert!(has_copyright(pattern, ""));
    assert!(has_copyright(pattern, "x"));
    assert!(!has_copyright(pattern, "xy"));
}

#[test]
fn skipped_paths_need_nothing() {
    let v = default_validator();
    assert!(v.get_copyright("LICENSE").is_none());
    assert!(v.get_copyright("Cargo.lock").is_none());
    assert!(v.get_copyright("data/x.json").is_none());
    assert!(v.get_copyright("favicon.ico").is_none());
    assert!(v.get_copyright("src/LICENSE.rs").is_some());
}

#[test]
fn markdown_files_get_html_comments() {
    let v = default_validator();
    let (_, suggestion) = v.get_copyright("README.md").unwrap();
    assert!(suggestion.starts_with("<!--\nCopyright 2026 Google LLC\n\nLicensed under"));
    assert!(suggestion.ends_with("limitations under the License.\n-->\n"));
}

#[test]
fn other_files_get_hash_comments() {
    let v = default_validator();
    let (_, suggestion) = v.get_copyright("Makefile").unwrap();
    assert!(suggestion.starts_with("# Copyright 2026 Google LLC\n#\n# Licensed under"));
    let (_, py) = v.get_copyright("tool.py").unwrap();
    assert!(py.starts_with("__copyright__ = \"\"\"\nCopyright 2026 Google LLC\n\nLicensed"));
    assert!(py.ends_with("License.\n\"\"\"\n"));
    let (_, js) = v.get_copyright("x.js").unwrap();
    assert!(js.starts_with("/*\n * Copyright 2026 Google LLC\n *\n * Licensed"));
    assert!(js.ends_with(" * limitations under the License.\n */\n"));
}

#[test]
fn blank_template_lines_get_trimmed_prefix() {
    let v = CopyrightValidator::with_year("\n\nLine 1\n\nLine 2\n\n", DEFAULT_SKIP_PATTERN, &vec![], 2026)
        .unwrap();
    let (_, suggestion) = v.get_copyright("build.sh").unwrap();
    assert_eq!(suggestion, "# Line 1\n#\n# Line 2\n");
}

#[test]
fn escaped_dash_in_custom_format() {
    assert_eq!(unescape_leading_dash("\\-"), "-");
    assert_eq!(unescape_leading_dash("\\-x"), "-x");
    assert_eq!(unescape_leading_dash("x\\-"), "x\\-");
    let custom = vec![".rs".to_string(), "\\-".to_string(), " * ".to_string(), "".to_string()];
    let v = CopyrightValidator::with_year("Hello YYYY", DEFAULT_SKIP_PATTERN, &custom, 2026).unwrap();
    let (pattern, suggestion) = v.get_copyright("src/bin/check_copyright.rs").unwrap();
    assert_eq!(suggestion, "-\n * Hello 2026\n");
    assert!(has_copyright(pattern, "-\n * Hello 1999\nfn main() {}\n"));
    let (_, other) = v.get_copyright("a.cpp").unwrap();
    assert_eq!(other, "// Hello 2026\n");
}

#[test]
fn incomplete_custom_format_is_an_error() {
    let custom = vec!["a".to_string(), "b".to_string(), "c".to_string()];
    let err = CopyrightValidator::with_year("Hi", DEFAULT_SKIP_PATTERN, &custom, 2026).err().unwrap();
    assert_eq!(err, "Custom format must have exactly 4 arguments per instance");
}

#[test]
fn invalid_skip_pattern_is_an_error() {
    let err = CopyrightValidator::with_year("Hi", "(", &vec![], 2026).err().unwrap();
    assert!(err.starts_with("Invalid --skip_pattern `(`: "));
}

#[test]
fn invalid_custom_pattern_is_an_error() {
    let custom = vec!["(".to_string(), "".to_string(), "# ".to_string(), "".to_string()];
    let err = CopyrightValidator::with_year("Hi", DEFAULT_SKIP_PATTERN, &custom, 2026).err().unwrap();
    assert!(err.starts_with("Invalid pattern `(`: "));
}

#[test]
fn template_is_matched_literally() {
    let custom = vec!["\\.txt$".to_string(), "".to_string(), "".to_string(), "".to_string()];
    let v = CopyrightValidator::with_year("a.b (c) YYYY", DEFAULT_SKIP_PATTERN, &custom, 2026).unwrap();
    let (pattern, suggestion) = v.get_copyright("notes.txt").unwrap();
    assert_eq!(suggestion, "a.b (c) 2026\n");
    assert!(has_copyright(pattern, "a.b (c) 7\nmore"));
    assert!(!has_copyright(pattern, "axb (c) 7\nmore"));
}

#[test]
fn current_year_is_used() {
    let v = CopyrightValidator::new("Copyright YYYY", DEFAULT_SKIP_PATTERN, vec![]).unwrap();
    let (_, suggestion) = v.get_copyright("lib.rs").unwrap();
    assert!(suggestion.starts_with("// Copyright "));
    let year: i32 = suggestion["// Copyright ".len()..suggestion.len() - 1].parse().unwrap();
    assert!(year >= 2024);
}

#[test]
fn every_path_not_skipped_gets_a_header() {
    let v = default_validator();
    let (_, suggestion) = v.get_copyright("some/odd name").unwrap();
    assert!(suggestion.starts_with("# Copyright 2026"));
    assert!(v.get_copyright("x/data.json").is_none());
    // The skip pattern anchors LICENSE at the start of the path.
    assert!(v.get_copyright("x/LICENSE").is_some());
}

#[test]
fn trimmed_template_and_unescaped_arguments_build_the_same() {
    let raw = vec!["\\-x$".to_string(), "\\-".to_string(), "".to_string(), "".to_string()];
    let settled = vec!["-x$".to_string(), "-".to_string(), "".to_string(), "".to_string()];
    let a = CopyrightValidator::with_year("\n\nHi YYYY\n", DEFAULT_SKIP_PATTERN, &raw, 2030).unwrap();
    let b = CopyrightValidator::with_year("Hi YYYY", DEFAULT_SKIP_PATTERN, &settled, 2030).unwrap();
    for path in ["a-x", "b.rs", "c.md", "Makefile"] {
        assert_eq!(a.get_copyright(path).unwrap().1, b.get_copyright(path).unwrap().1);
    }
    assert_eq!(a.get_copyright("a-x").unwrap().1, "-\nHi 2030\n");
}

#[test]
fn new_reports_argument_errors() {
    let err = CopyrightValidator::new("Hi", "(", vec![]).err().unwrap();
    assert!(err.starts_with("Invalid --skip_pattern `(`: "));
    let custom = vec!["(".to_string(), "".to_string(), "# ".to_string(), "".to_string()];
    let err = CopyrightValidator::new("Hi", DEFAULT_SKIP_PATTERN, custom).err().unwrap();
    assert!(err.starts_with("Invalid pattern `(`: "));
    let err = CopyrightValidator::new("Hi", DEFAULT_SKIP_PATTERN, vec!["a".to_string()]).err().unwrap();
    assert_eq!(err, "Custom format must have exactly 4 arguments per instance");
}
