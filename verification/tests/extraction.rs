use kusara::extract::{
    extract_fenced_yaml, extract_frontmatter, extract_html_metadata, script_type_matches, HtmlMeta,
};
use kusara::paths::{glob_root, module_covers, normalize_separators};

#[test]
fn module_covers_exact() {
    assert!(module_covers("a/b.rs", "a/b.rs"));
    assert!(!module_covers("a/b.rs", "a/c.rs"));
}

#[test]
fn module_covers_dir_prefix() {
    assert!(module_covers("a/b/", "a/b/c.rs"));
    assert!(module_covers("a/b/", "a/b/d/e.rs"));
    assert!(!module_covers("a/b/", "a/bc/x.rs"));
    assert!(!module_covers("a/b/", "a/b"));
}

#[test]
fn normalize_separators_passthrough_for_unix() {
    assert_eq!(normalize_separators("a/b/c.rs"), "a/b/c.rs");
    assert_eq!(normalize_separators(""), "");
}

#[test]
fn normalize_separators_rewrites_windows() {
    assert_eq!(normalize_separators("a\\b\\c.rs"), "a/b/c.rs");
    assert_eq!(normalize_separators("a/b\\c.rs"), "a/b/c.rs");
}

#[test]
fn module_covers_after_normalization() {
    let pat = normalize_separators("src\\auth\\");
    let file = normalize_separators("src\\auth\\session.rs");
    assert!(module_covers(&pat, &file));
}

#[test]
fn fenced_yaml_extracted() {
    let content = "before\n```yaml\nfoo: 1\nbar: [x]\n```\nafter\n";
    let yaml = extract_fenced_yaml(content).unwrap();
    assert_eq!(yaml, "foo: 1\nbar: [x]\n");
}

#[test]
fn frontmatter_extracted() {
    let content = "---\na: 1\n---\nbody\n";
    assert_eq!(extract_frontmatter(content).unwrap(), "a: 1");
}

#[test]
fn frontmatter_absent() {
    assert!(extract_frontmatter("# title only\n").is_none());
}

#[test]
fn glob_root_literal_path() {
    assert_eq!(glob_root(".kiro/steering/roadmap.md"), ".kiro/steering");
}

#[test]
fn glob_root_with_meta_in_middle() {
    assert_eq!(glob_root(".kiro/specs/*/brief.md"), ".kiro/specs");
    assert_eq!(glob_root("docs/fr/[0-9]*.md"), "docs/fr");
    assert_eq!(glob_root("crates/*/README.md"), "crates");
}

#[test]
fn glob_root_no_dir() {
    assert_eq!(glob_root("*.md"), ".");
    assert_eq!(glob_root("README.md"), "");
}

#[test]
fn glob_root_double_star() {
    assert_eq!(glob_root("docs/**/*.md"), "docs");
}

#[test]
fn html_meta_happy_path() {
    let raw = "<head>\n<script type=\"application/kusara+yaml\">\nrefs:\n  id: spec:x\n</script>\n</head>\n";
    let HtmlMeta::Found(y) = extract_html_metadata(raw) else {
        panic!("expected Found");
    };
    assert_eq!(y, "\nrefs:\n  id: spec:x\n");
}

#[test]
fn html_meta_type_among_other_attrs() {
    let raw =
        "<script id=\"m\" type=\"application/kusara+yaml\" defer>\nrefs:\n  id: a\n</script>";
    assert!(matches!(extract_html_metadata(raw), HtmlMeta::Found(_)));
}

#[test]
fn html_meta_single_quotes() {
    let raw = "<script type='application/kusara+yaml'>\nrefs:\n  id: a\n</script>";
    assert!(matches!(extract_html_metadata(raw), HtmlMeta::Found(_)));
}

#[test]
fn html_meta_case_insensitive() {
    let raw = "<SCRIPT TYPE=\"application/kusara+yaml\">\nrefs:\n  id: a\n</SCRIPT>";
    let HtmlMeta::Found(y) = extract_html_metadata(raw) else {
        panic!("expected Found");
    };
    assert_eq!(y, "\nrefs:\n  id: a\n");
}

#[test]
fn html_meta_absent_returns_none() {
    let raw = "<html><body>no metadata here</body></html>";
    assert!(matches!(extract_html_metadata(raw), HtmlMeta::Absent));
}

#[test]
fn html_meta_unterminated_returns_unterminated() {
    let raw = "<head>\n<script type=\"application/kusara+yaml\">\nrefs:\n  id: a\n</head>\n";
    assert!(matches!(extract_html_metadata(raw), HtmlMeta::Unterminated));
}

#[test]
fn html_meta_first_block_wins() {
    let raw = "<script type=\"application/kusara+yaml\">\nfirst\n</script>\
               <script type=\"application/kusara+yaml\">\nsecond\n</script>";
    let HtmlMeta::Found(y) = extract_html_metadata(raw) else {
        panic!("expected Found");
    };
    assert_eq!(y, "\nfirst\n");
}

#[test]
fn html_meta_skips_non_matching_script_type() {
    let raw = "<script type=\"text/javascript\">var x = 1;</script>\
               <script type=\"application/kusara+yaml\">\nrefs:\n  id: a\n</script>";
    let HtmlMeta::Found(y) = extract_html_metadata(raw) else {
        panic!("expected Found");
    };
    assert_eq!(y, "\nrefs:\n  id: a\n");
}

#[test]
fn html_meta_tag_boundary_not_fooled_by_prefix() {
    // `<scriptx` must not be treated as `<script`.
    let raw = "<scriptx type=\"application/kusara+yaml\">nope</scriptx>";
    assert!(matches!(extract_html_metadata(raw), HtmlMeta::Absent));
}

#[test]
fn script_type_attribute_is_matched_exactly() {
    assert!(script_type_matches("<script type=\"application/kusara+yaml\""));
    assert!(script_type_matches("<script id=m type='application/kusara+yaml' defer"));
    assert!(script_type_matches("<script type=application/kusara+yaml"));
    assert!(!script_type_matches("<script type=\"text/javascript\""));
    assert!(!script_type_matches("<script data-type=\"application/kusara+yaml\""));
    // Only the first `type=` attribute counts.
    assert!(!script_type_matches("<script type=x type=application/kusara+yaml"));
}

#[test]
fn normalizing_twice_changes_nothing() {
    for s in ["a\\b/c", "", "\\\\x", "plain"] {
        let once = normalize_separators(s);
        assert_eq!(normalize_separators(&once), once);
        assert!(!once.contains('\\'));
    }
}

#[test]
fn directory_entries_cover_everything_under_them() {
    assert!(module_covers("docs/", "docs/a/b/c.md"));
    assert!(module_covers("docs/", "docs/x"));
    assert!(!module_covers("docs/a.md", "docs/a.md.bak"));
    assert!(module_covers("docs/a.md", "docs/a.md"));
}

#[test]
fn cut_off_script_tags() {
    assert!(matches!(extract_html_metadata("<script src=\"a.js\""), HtmlMeta::Absent));
    assert!(matches!(
        extract_html_metadata("<p><script type=\"application/kusara+yaml\""),
        HtmlMeta::Unterminated
    ));
}
