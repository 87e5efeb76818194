use kusara::graph::{Graph, GraphBuilder};
use kusara::model::{
    DeclaredVia, Doc, DocId, FrontMatter, Kind, KindDef, KindIndex, KusaraBlock, Manifest,
    ManifestError, OkfMeta, RefsBlock,
};
use kusara::report::{list_output, show_output};
use kusara::render::{
    doc_link, emit_kind_table, kind_index, map_content, modules_content, modules_index,
    slice_is_empty,
};
use kusara::scan::{
    admit_front_matter, derive_scan_roots, doc_yaml, format_of_extension, is_skipped_dir,
    metadata_bounds, migrate_action, migrated_text, new_yaml, splice_subslice, DocFormat, DocYaml,
    MigrateAction,
};
use kusara::text::{decimal_string, hex16, join_texts, pad_right_string};

fn kind_def(name: &str, globs: &[&str], via: Option<DeclaredVia>) -> KindDef {
    KindDef {
        name: Kind(name.to_string()),
        path_globs: globs.iter().map(|g| g.to_string()).collect(),
        declared_via: via,
        id_pattern: None,
        singleton: false,
        index: None,
    }
}

fn ids(v: &[&str]) -> Vec<DocId> {
    v.iter().map(|s| DocId(s.to_string())).collect()
}

fn refs(id: &str, kind: &str) -> RefsBlock {
    RefsBlock {
        id: DocId(id.to_string()),
        kind: Kind(kind.to_string()),
        title: None,
        spec: None,
        provides: Vec::new(),
        implements: Vec::new(),
        depends_on: Vec::new(),
        related: Vec::new(),
        modules: Vec::new(),
        generated: false,
        indexes_kind: None,
    }
}

fn kusara_block(id: &str) -> KusaraBlock {
    KusaraBlock {
        id: DocId(id.to_string()),
        spec: None,
        provides: Vec::new(),
        implements: Vec::new(),
        depends_on: Vec::new(),
        related: Vec::new(),
        modules: Vec::new(),
        generated: false,
        indexes_kind: None,
    }
}

fn front_matter(refs: Option<RefsBlock>, typ: Option<&str>, kusara: Option<KusaraBlock>) -> FrontMatter {
    FrontMatter {
        refs,
        typ: typ.map(|t| Kind(t.to_string())),
        title: Some("T".to_string()),
        description: Some("D".to_string()),
        resource: None,
        tags: vec!["a".to_string(), "b".to_string()],
        timestamp: None,
        kusara,
    }
}

fn manifest() -> Manifest {
    Manifest::from_defs(vec![
        kind_def("spec", &["docs/specs/*.md"], None),
        kind_def("req", &[], Some(DeclaredVia::Provides)),
        kind_def("index", &[], Some(DeclaredVia::Generated)),
    ])
    .unwrap()
}

#[test]
fn manifest_orders_kinds_and_rejects_bad_entries() {
    let m = manifest();
    let names: Vec<&str> = m.kinds.iter().map(|k| k.name.as_str()).collect();
    assert_eq!(names, vec!["index", "req", "spec"]);
    assert!(m.knows(&Kind("spec".to_string())));
    assert!(!m.knows(&Kind("bogus".to_string())));
    let dup = Manifest::from_defs(vec![
        kind_def("spec", &["a/*.md"], None),
        kind_def("spec", &["b/*.md"], None),
    ]);
    match dup {
        Err(e @ ManifestError::DuplicateKind(_)) => {
            assert_eq!(e.message("docs/kinds.md"), "docs/kinds.md: duplicate kind `spec`")
        }
        _ => panic!("expected a duplicate kind"),
    }
    match Manifest::from_defs(vec![kind_def("orphan", &[], None)]) {
        Err(e @ ManifestError::NoSource(_)) => assert_eq!(
            e.message("k.md"),
            "k.md: kind `orphan` has neither `path_globs` nor `declared_via`"
        ),
        _ => panic!("expected a kind without source"),
    }
}

#[test]
fn normalize_both_shapes() {
    let legacy = front_matter(Some(refs("spec:a", "spec")), Some("spec"), None).normalize();
    let (r, okf, is_legacy) = legacy.unwrap().unwrap();
    assert!(is_legacy);
    assert_eq!(r.id.as_str(), "spec:a");
    assert!(okf.tags.is_empty() && okf.description.is_none());

    let okf_doc = front_matter(None, Some("spec"), Some(kusara_block("spec:b"))).normalize();
    let (r, okf, is_legacy) = okf_doc.unwrap().unwrap();
    assert!(!is_legacy);
    assert_eq!(r.kind.as_str(), "spec");
    assert_eq!(r.title.as_deref(), Some("T"));
    assert_eq!(okf.description.as_deref(), Some("D"));
    assert_eq!(okf.tags, vec!["a", "b"]);

    assert_eq!(
        front_matter(Some(refs("spec:a", "spec")), None, Some(kusara_block("spec:a")))
            .normalize()
            .unwrap_err(),
        "ambiguous front matter: both `refs:` and `kusara:` present"
    );
    assert_eq!(
        front_matter(None, None, Some(kusara_block("spec:a"))).normalize().unwrap_err(),
        "OKF front matter has `kusara:` but is missing required `type:`"
    );
    assert!(front_matter(None, Some("spec"), None).normalize().unwrap().is_none());
}

#[test]
fn admission_errors_are_reported() {
    let m = manifest();
    let mut b = GraphBuilder::new();
    let legacy = admit_front_matter(&mut b, &m, "docs/specs/x.md", front_matter(Some(refs("bogus:x", "bogus")), None, None));
    assert!(legacy);
    let mut idx = refs("index:bogus", "index");
    idx.generated = false;
    admit_front_matter(&mut b, &m, "docs/ref/i.md", front_matter(Some(idx), None, None));
    let mut wrong = refs("spec:w", "spec");
    wrong.indexes_kind = Some(Kind("spec".to_string()));
    admit_front_matter(&mut b, &m, "docs/specs/w.md", front_matter(Some(wrong), None, None));
    let mut a = refs("spec:a", "spec");
    a.provides = ids(&["req:a:1"]);
    admit_front_matter(&mut b, &m, "docs/specs/a.md", front_matter(Some(a), None, None));
    let mut c = refs("spec:c", "spec");
    c.provides = ids(&["req:a:1"]);
    admit_front_matter(&mut b, &m, "docs/specs/c.md", front_matter(Some(c), None, None));
    let not_legacy = admit_front_matter(
        &mut b,
        &m,
        "docs/specs/y.md",
        front_matter(Some(refs("spec:y", "spec")), None, Some(kusara_block("spec:y"))),
    );
    assert!(!not_legacy);
    let (g, errors) = b.finish();
    assert_eq!(g.docs.len(), 1);
    assert_eq!(
        errors,
        vec![
            "docs/specs/x.md (bogus:x): unknown kind `bogus` (not declared in kinds.md)",
            "docs/ref/i.md (index:bogus): kind=`index` and generated=false must agree (kind `index` requires generated: true and vice versa)",
            "docs/specs/w.md (spec:w): indexes_kind set on non-index doc (kind=`spec`)",
            "duplicate id `req:a:1` provided by both docs/specs/a.md and docs/specs/c.md",
            "docs/specs/y.md: ambiguous front matter: both `refs:` and `kusara:` present",
        ]
    );
}

#[test]
fn doc_class_accessors() {
    let m = manifest();
    let mut b = GraphBuilder::new();
    let mut idx = refs("index:spec", "index");
    idx.generated = true;
    idx.indexes_kind = Some(Kind("spec".to_string()));
    b.add(&m, "docs/specs/index.md", idx, OkfMeta::empty());
    b.add(&m, "docs/specs/a.md", refs("spec:a", "spec"), OkfMeta::empty());
    let (g, errors) = b.finish();
    assert!(errors.is_empty());
    let index: &Doc = &g.docs[0];
    assert_eq!(index.kind().as_str(), "index");
    assert!(index.kind().is_index());
    assert!(index.generated());
    assert_eq!(index.indexes_kind().map(|k| k.as_str()), Some("spec"));
    let a: &Doc = &g.docs[1];
    assert_eq!(a.kind().as_str(), "spec");
    assert!(!a.generated());
    assert!(a.indexes_kind().is_none());
    assert_eq!(a.id.as_str(), "spec:a");
}

#[test]
fn scan_roots_and_formats() {
    let mut m = manifest();
    m.kinds[2].path_globs = vec!["docs/specs/*.md".to_string(), "crates/*/README.md".to_string()];
    assert_eq!(derive_scan_roots(&m, "docs"), vec!["crates", "docs", "docs/specs"]);
    assert_eq!(format_of_extension("md"), Some(DocFormat::Markdown));
    assert_eq!(format_of_extension("htm"), Some(DocFormat::Html));
    assert_eq!(format_of_extension("txt"), None);
    assert!(is_skipped_dir("node_modules") && is_skipped_dir(".git") && is_skipped_dir("target"));
    assert!(!is_skipped_dir("docs"));
}

#[test]
fn metadata_of_files() {
    assert!(matches!(doc_yaml(DocFormat::Markdown, "---\na: 1\n---\nbody", "x.md"), DocYaml::Yaml("a: 1")));
    assert!(matches!(doc_yaml(DocFormat::Markdown, "# title\n", "x.md"), DocYaml::Skip));
    match doc_yaml(DocFormat::Markdown, "---\na: 1\n", "x.md") {
        DocYaml::Malformed(m) => assert_eq!(m, "x.md: malformed front matter (missing closing `---`)"),
        _ => panic!("expected malformed"),
    }
    match doc_yaml(DocFormat::Html, "<script type=\"application/kusara+yaml\">\na: 1\n", "x.html") {
        DocYaml::Malformed(m) => {
            assert_eq!(m, "x.html: malformed metadata block (missing closing `</script>`)")
        }
        _ => panic!("expected malformed"),
    }
    assert!(matches!(doc_yaml(DocFormat::Html, "<p>none</p>", "x.html"), DocYaml::Skip));
}

#[test]
fn migration_rewrites_only_legacy_front_matter() {
    assert_eq!(migrate_action(&front_matter(Some(refs("spec:a", "spec")), None, None)), MigrateAction::Rewrite);
    assert_eq!(migrate_action(&front_matter(None, Some("spec"), Some(kusara_block("spec:a")))), MigrateAction::Keep);
    assert_eq!(
        migrate_action(&front_matter(Some(refs("spec:a", "spec")), None, Some(kusara_block("spec:a")))),
        MigrateAction::Ambiguous
    );

    let raw = "---\nrefs:\n  id: spec:a\n  kind: spec\n---\nbody é\n";
    let (a, b) = metadata_bounds(DocFormat::Markdown, raw).unwrap();
    let body = "type: spec\nkusara:\n  id: spec:a\n";
    assert_eq!(
        migrated_text(raw, DocFormat::Markdown, a, b, body).unwrap(),
        "---\ntype: spec\nkusara:\n  id: spec:a\n---\nbody é\n"
    );
    let same = "refs:\n  id: spec:a\n  kind: spec\n";
    assert!(migrated_text(raw, DocFormat::Markdown, a, b, same).is_none());

    let html = "<head><script type=\"application/kusara+yaml\">\nrefs:\n  id: x\n</script></head>";
    let (a, b) = metadata_bounds(DocFormat::Html, html).unwrap();
    assert_eq!(
        migrated_text(html, DocFormat::Html, a, b, "type: spec\n").unwrap(),
        "<head><script type=\"application/kusara+yaml\">\ntype: spec\n</script></head>"
    );
    assert_eq!(new_yaml(DocFormat::Markdown, "a\n"), "a");
    assert_eq!(new_yaml(DocFormat::Html, "a\n"), "\na\n");
    assert_eq!(splice_subslice("héllo world", 1, "éllo", "ey"), "hey world");
}

fn render_graph() -> Graph {
    let m = manifest();
    let mut b = GraphBuilder::new();
    let mut a = refs("spec:a", "spec");
    a.title = Some("Alpha".to_string());
    a.spec = Some("auth".to_string());
    a.implements = ids(&["req:x:1"]);
    a.modules = vec!["src/a/".to_string(), "src/shared.rs".to_string()];
    let mut x = refs("spec:x", "spec");
    x.provides = ids(&["req:x:1"]);
    x.depends_on = ids(&["spec:a"]);
    x.modules = vec!["src/shared.rs".to_string()];
    b.add(&m, "docs/specs/a.md", a, OkfMeta::empty());
    b.add(&m, "docs/specs/x.md", x, OkfMeta::empty());
    let (g, errors) = b.finish();
    assert!(errors.is_empty());
    g
}

#[test]
fn kind_table_rows() {
    let g = render_graph();
    let docs: Vec<&Doc> = g.docs.iter().collect();
    let mut out = String::new();
    emit_kind_table(&mut out, &docs);
    assert_eq!(
        out,
        "| ID | Title | Implements | Depends on |\n|---|---|---|---|\n| `spec:a` | Alpha | `req:x:1` |  |\n| `spec:x` |  |  | `spec:a` |\n\n"
    );
}

#[test]
fn per_kind_index_grouped_by_spec() {
    let g = render_graph();
    let mut k = kind_def("spec", &["docs/specs/*.md"], None);
    assert!(kind_index(&k, &g).is_none());
    k.index = Some(KindIndex {
        output: "docs/specs/index.md".to_string(),
        group_by: Some("spec".to_string()),
    });
    let (output, content) = kind_index(&k, &g).unwrap();
    assert_eq!(output, "docs/specs/index.md");
    let head = "---\ntype: index\ntitle: \"spec Index\"\nkusara:\n  id: index:spec\n  indexes_kind: spec\n  generated: true\n---\n\n# spec Index\n\nGenerated by `kusara index`. Do not edit by hand. Lists every `spec` doc in this repository.\n\n";
    let table_head = "| ID | Title | Implements | Depends on |\n|---|---|---|---|\n";
    let expected = format!(
        "{head}## (unspec'd)\n\n{table_head}| `spec:x` |  |  | `spec:a` |\n\n## auth\n\n{table_head}| `spec:a` | Alpha | `req:x:1` |  |\n\n"
    );
    assert_eq!(content, expected);
}

#[test]
fn doc_map_and_modules_map() {
    let g = render_graph();
    let map = map_content(&g, "docs");
    let expected_head = "---\ntype: index\ntitle: \"Doc Map (all kinds)\"\nkusara:\n  id: index:map\n  generated: true\n---\n\n# Doc Map\n\nGenerated by `kusara index map`. Do not edit by hand.\nAll docs across kinds. For per-kind indexes see the per-kind INDEX files; for AI consumption see [ai/graph.json](ai/graph.json).\n\n";
    let expected = format!(
        "{expected_head}## spec (2)\n\n| ID | Title | Spec | Path |\n|---|---|---|---|\n| `spec:a` | Alpha | auth | [docs/specs/a.md](specs/a.md) |\n| `spec:x` |  |  | [docs/specs/x.md](specs/x.md) |\n\n"
    );
    assert_eq!(map, expected);

    let entries = modules_index(&g);
    assert_eq!(entries.len(), 2);
    assert_eq!(entries[0].module, "src/a/");
    assert_eq!(entries[1].module, "src/shared.rs");
    assert_eq!(entries[1].docs, ids(&["spec:a", "spec:x"]));
    assert_eq!(
        modules_content(&entries),
        "---\ntype: index\ntitle: \"Source -> Doc Map\"\nkusara:\n  id: index:modules\n  generated: true\n---\n\n# Source -> Doc Map\n\nGenerated by `kusara index map`. Do not edit by hand.\n\n| Source path | Docs of record |\n|---|---|\n| `src/a/` | `spec:a` |\n| `src/shared.rs` | `spec:a`, `spec:x` |\n"
    );
}

#[test]
fn links_from_the_doc_root() {
    assert_eq!(doc_link("docs", "docs/specs/a.md"), "specs/a.md");
    assert_eq!(doc_link("docs/site", "README.md"), "../../README.md");
    assert_eq!(doc_link("docs", "crates/x/README.md"), "../crates/x/README.md");
}

#[test]
fn small_text_helpers() {
    assert_eq!(decimal_string(0), "0");
    assert_eq!(decimal_string(1234567890), "1234567890");
    assert_eq!(hex16(255), "00000000000000ff");
    assert_eq!(pad_right_string("ab", 4), "ab  ");
    assert_eq!(pad_right_string("abcdef", 4), "abcdef");
    assert_eq!(join_texts(&vec!["a".to_string(), "b".to_string()], ", "), "a, b");
    let empty: &[String] = &[];
    assert!(slice_is_empty(&empty));
    let one: &[String] = &["x".to_string()];
    assert!(!slice_is_empty(&one));
}

#[test]
fn legacy_and_okf_shapes_give_the_same_graph() {
    let m = manifest();
    let mut legacy_refs = refs("spec:a", "spec");
    legacy_refs.title = Some("A".to_string());
    legacy_refs.depends_on = ids(&["spec:b"]);
    let legacy = FrontMatter {
        refs: Some(legacy_refs),
        typ: None,
        title: None,
        description: None,
        resource: None,
        tags: Vec::new(),
        timestamp: None,
        kusara: None,
    };
    let mut k = kusara_block("spec:a");
    k.depends_on = ids(&["spec:b"]);
    let okf = FrontMatter {
        refs: None,
        typ: Some(Kind("spec".to_string())),
        title: Some("A".to_string()),
        description: None,
        resource: None,
        tags: Vec::new(),
        timestamp: None,
        kusara: Some(k),
    };
    let mut outputs = Vec::new();
    for (fm, expect_legacy) in [(legacy, true), (okf, false)] {
        let mut b = GraphBuilder::new();
        b.add(&m, "docs/specs/b.md", refs("spec:b", "spec"), OkfMeta::empty());
        assert_eq!(admit_front_matter(&mut b, &m, "docs/specs/a.md", fm), expect_legacy);
        let (g, errors) = b.finish();
        assert!(errors.is_empty());
        outputs.push((show_output(&g, "spec:a").unwrap(), show_output(&g, "spec:b").unwrap(), list_output(&g)));
    }
    assert_eq!(outputs[0], outputs[1]);
}
