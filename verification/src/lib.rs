//! Checks for markdown and source files, as used by pre-commit hooks:
//! heading anchors and link extraction (`markdown`), link validation
//! (`links`), tables of contents (`toc`), doc-style rewriting (`style`) and
//! copyright headers (`copyright`). `text` and `pattern` hold the string
//! operations and the regular expressions these rest on.

pub mod copyright;
pub mod links;
pub mod markdown;
pub mod pattern;
pub mod style;
pub mod text;
pub mod toc;

pub use markdown::{get_links, make_anchor, Header, Link};
pub use vstd::hash_map::StringHashMap;
