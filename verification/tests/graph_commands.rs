use kusara::graph::{Graph, GraphBuilder};
use kusara::hook::{hook_stop_advisory, stop_reply, StopReply};
use kusara::model::{DocId, Kind, KindDef, Manifest, OkfMeta, RefsBlock};
use kusara::report::{list_output, show_output, touched_output, walk_output};
use kusara::stale::{count_checked, stale_finding, GitStamp};
use kusara::traverse::{Direction, TraverseError};
use kusara::validate::{collect_validate_errors, module_probes, GlobOutcome};

fn kind_def(name: &str, globs: &[&str]) -> KindDef {
    KindDef {
        name: Kind(name.to_string()),
        path_globs: globs.iter().map(|g| g.to_string()).collect(),
        declared_via: None,
        id_pattern: None,
        singleton: false,
        index: None,
    }
}

fn ids(v: &[&str]) -> Vec<DocId> {
    v.iter().map(|s| DocId(s.to_string())).collect()
}

fn refs(id: &str, title: Option<&str>, depends_on: &[&str], related: &[&str], modules: &[&str]) -> RefsBlock {
    RefsBlock {
        id: DocId(id.to_string()),
        kind: Kind("spec".to_string()),
        title: title.map(|t| t.to_string()),
        spec: None,
        provides: Vec::new(),
        implements: Vec::new(),
        depends_on: ids(depends_on),
        related: ids(related),
        modules: modules.iter().map(|m| m.to_string()).collect(),
        generated: false,
        indexes_kind: None,
    }
}

fn manifest() -> Manifest {
    Manifest::from_defs(vec![kind_def("spec", &["docs/specs/*.md"])]).unwrap()
}

/// a depends on b depends on c.
fn chain() -> Graph {
    let m = manifest();
    let mut b = GraphBuilder::new();
    b.add(&m, "docs/specs/a.md", refs("spec:a", None, &["spec:b"], &[], &[]), OkfMeta::empty());
    b.add(&m, "docs/specs/b.md", refs("spec:b", Some("B doc"), &["spec:c"], &[], &[]), OkfMeta::empty());
    b.add(&m, "docs/specs/c.md", refs("spec:c", None, &[], &["spec:a"], &[]), OkfMeta::empty());
    let (g, errors) = b.finish();
    assert!(errors.is_empty());
    g
}

fn strings(v: &[&str]) -> Vec<String> {
    v.iter().map(|s| s.to_string()).collect()
}

fn id_line(id: &str, title: &str) -> String {
    format!("  {:<40} {}\n", id, title)
}

#[test]
fn impact_walks_to_top() {
    let g = chain();
    let out = walk_output(&g, &strings(&["spec:c"]), u32::MAX, Direction::Forward, false).unwrap();
    let expected = format!(
        "Affected by changes to:\n  spec:c\n\ndepth 1:\n{}depth 2:\n{}",
        id_line("spec:b", "B doc"),
        id_line("spec:a", "")
    );
    assert_eq!(out, expected);
}

#[test]
fn deps_walks_downward() {
    let g = chain();
    let out = walk_output(&g, &strings(&["spec:a"]), u32::MAX, Direction::Reverse, false).unwrap();
    let expected = format!(
        "Dependencies of:\n  spec:a\n\ndepth 1:\n{}depth 2:\n{}",
        id_line("spec:b", "B doc"),
        id_line("spec:c", "")
    );
    assert_eq!(out, expected);
}

#[test]
fn impact_depth_zero_reports_none() {
    let g = chain();
    let out = walk_output(&g, &strings(&["spec:c"]), 0, Direction::Forward, false).unwrap();
    assert_eq!(out, "Affected by changes to:\n  spec:c\n\n(none)\n");
}

#[test]
fn impact_depth_one_stops_at_first_layer() {
    let g = chain();
    let out = walk_output(&g, &strings(&["spec:c"]), 1, Direction::Forward, false).unwrap();
    assert!(out.contains("spec:b"));
    assert!(!out.contains("spec:a"));
}

#[test]
fn impact_with_related_edges() {
    let g = chain();
    // c mentions a (soft), so a change to a reaches c, and through c's
    // dependent b.
    let out = walk_output(&g, &strings(&["spec:a"]), u32::MAX, Direction::Forward, true).unwrap();
    let expected = format!(
        "Affected by changes to:\n  spec:a\n(including soft `related:` edges)\n\ndepth 1:\n{}depth 2:\n{}",
        id_line("spec:c", ""),
        id_line("spec:b", "B doc")
    );
    assert_eq!(out, expected);
}

#[test]
fn impact_unknown_id_errors() {
    let g = chain();
    let e = walk_output(&g, &strings(&["spec:x", "spec:a", "spec:y"]), 3, Direction::Forward, false)
        .unwrap_err();
    assert_eq!(e.message(), "unknown id(s): spec:x, spec:y");
    let e = walk_output(&g, &Vec::new(), 3, Direction::Forward, false).unwrap_err();
    assert!(matches!(e, TraverseError::NoIds));
    assert_eq!(e.message(), "at least one id is required");
}

#[test]
fn show_prints_doc_metadata() {
    let g = chain();
    let out = show_output(&g, "spec:b").unwrap();
    let expected = format!(
        "id:           spec:b\nkind:         spec\ntitle:        B doc\npath:         docs/specs/b.md\ndepends_on:\n  - spec:c\n\nDirect impact (hard, who depends on this doc):\n{}\nSoft mentions (related: from other docs):\n  (none)\n",
        id_line("spec:a", "")
    );
    assert_eq!(out, expected);
}

#[test]
fn show_lists_soft_mentions() {
    let g = chain();
    let out = show_output(&g, "spec:a").unwrap();
    assert!(out.ends_with(&format!(
        "Direct impact (hard, who depends on this doc):\n  (none)\n\nSoft mentions (related: from other docs):\n{}",
        id_line("spec:c", "")
    )));
}

#[test]
fn show_unknown_id_errors() {
    let g = chain();
    assert_eq!(show_output(&g, "nope").unwrap_err(), "unknown id `nope`");
}

#[test]
fn list_prints_every_id() {
    let g = chain();
    let expected: String = ["a", "b", "c"]
        .iter()
        .map(|x| format!("{:<40} {:<14} docs/specs/{x}.md\n", format!("spec:{x}"), "spec"))
        .collect();
    assert_eq!(list_output(&g), expected);
}

fn auth_graph() -> Graph {
    let m = manifest();
    let mut b = GraphBuilder::new();
    b.add(&m, "docs/specs/auth.md", refs("spec:auth", None, &[], &[], &["src/auth/"]), OkfMeta::empty());
    b.add(&m, "docs/specs/parent.md", refs("spec:parent", None, &["spec:auth"], &[], &[]), OkfMeta::empty());
    let (g, errors) = b.finish();
    assert!(errors.is_empty());
    g
}

#[test]
fn touched_finds_doc_of_record_and_closure() {
    let g = auth_graph();
    let out = touched_output(&g, "/repo", &strings(&["src/auth/session.rs"]), false).unwrap();
    let expected = format!(
        "Files:\n  src/auth/session.rs\n\nDocs of record (modules: covers these files):\n{}\nTransitively affected:\n{}",
        id_line("spec:auth", ""),
        id_line("spec:parent", "")
    );
    assert_eq!(out, expected);
}

#[test]
fn touched_no_closure_skips_indirect() {
    let g = auth_graph();
    let out = touched_output(&g, "/repo", &strings(&["/repo/src/auth/session.rs"]), true).unwrap();
    let expected = format!(
        "Files:\n  src/auth/session.rs\n\nDocs of record (modules: covers these files):\n{}",
        id_line("spec:auth", "")
    );
    assert_eq!(out, expected);
}

#[test]
fn touched_without_docs_of_record() {
    let g = auth_graph();
    let out = touched_output(&g, "/repo", &strings(&["src/other.rs"]), false).unwrap();
    assert_eq!(out, "Files:\n  src/other.rs\n\nNo docs claim these files in `modules:`.\n");
    assert_eq!(
        touched_output(&g, "/repo", &Vec::new(), false).unwrap_err(),
        "at least one file is required"
    );
}

#[test]
fn validate_reports_missing_modules_and_uncovered_files() {
    let g = auth_graph();
    assert_eq!(module_probes(&g), strings(&["src/auth"]));
    let globs = vec![
        GlobOutcome::Matched {
            kind: "spec".to_string(),
            pattern: "docs/specs/*.md".to_string(),
            rel: "docs/specs/auth.md".to_string(),
        },
        GlobOutcome::Matched {
            kind: "spec".to_string(),
            pattern: "docs/specs/*.md".to_string(),
            rel: "docs/specs/loose.md".to_string(),
        },
        GlobOutcome::BadPattern {
            kind: "spec".to_string(),
            pattern: "[".to_string(),
            error: "invalid range".to_string(),
        },
        GlobOutcome::EntryError {
            kind: "spec".to_string(),
            pattern: "docs/*".to_string(),
            error: "denied".to_string(),
        },
    ];
    let errors = collect_validate_errors(&strings(&["earlier"]), &g, &vec![false], &globs);
    let same_file = vec![
        GlobOutcome::Matched {
            kind: "spec".to_string(),
            pattern: "docs/specs/*.md".to_string(),
            rel: "docs/specs//auth.md".to_string(),
        },
        GlobOutcome::Matched {
            kind: "spec".to_string(),
            pattern: "docs/specs/*.md".to_string(),
            rel: "docs/./specs/auth.md".to_string(),
        },
    ];
    assert!(collect_validate_errors(&Vec::new(), &g, &vec![true], &same_file).is_empty());
    assert_eq!(
        errors,
        strings(&[
            "earlier",
            "docs/specs/auth.md (spec:auth): module path `src/auth/` does not exist",
            "docs/specs/loose.md: matches kind `spec` glob `docs/specs/*.md` but has no kusara front matter (`type:` + `kusara:`, or legacy `refs:`)",
            "kind `spec`: bad glob `[`: invalid range",
            "kind `spec` glob `docs/*`: denied",
        ])
    );
    assert!(collect_validate_errors(&Vec::new(), &g, &vec![true], &Vec::new()).is_empty());
}

#[test]
fn duplicate_and_dangling_references_are_reported() {
    let m = manifest();
    let mut b = GraphBuilder::new();
    b.add(&m, "docs/specs/a.md", refs("spec:a", None, &["spec:missing"], &[], &[]), OkfMeta::empty());
    b.add(&m, "docs/specs/a2.md", refs("spec:a", None, &[], &[], &[]), OkfMeta::empty());
    let (g, errors) = b.finish();
    assert_eq!(g.docs.len(), 1);
    assert_eq!(
        errors,
        strings(&[
            "duplicate id `spec:a` in docs/specs/a.md and docs/specs/a2.md",
            "docs/specs/a.md (spec:a): dangling reference `spec:missing`",
        ])
    );
}

#[test]
fn stop_blocks_on_validation_errors() {
    let g = auth_graph();
    let errors = strings(&["e1", "e2"]);
    let msg = "kusara validate fails after this turn's edits:\n- e1\n- e2\n\nFix the refs metadata (or adjust the kinds manifest) before finishing.";
    match stop_reply(&g, &errors, &strings(&["a.rs"]), false, None) {
        StopReply::Block(m) => assert_eq!(m, msg),
        other => panic!("unexpected {other:?}"),
    }
    match stop_reply(&g, &errors, &strings(&["a.rs"]), true, Some("note")) {
        StopReply::Context(m) => assert_eq!(m, format!("{msg}\n\nnote")),
        other => panic!("unexpected {other:?}"),
    }
}

#[test]
fn stop_advises_on_docs_of_record_and_edited_docs() {
    let g = auth_graph();
    let files = strings(&["docs/specs/parent.md", "src/auth/session.rs"]);
    let expected = "kusara end-of-turn check (2 edited file(s)).\n\nDocs of record whose `modules:` cover this turn's source edits:\n  spec:auth  docs/specs/auth.md\n    via: src/auth/session.rs\n\nEdited managed docs -> linked docs to check for content drift:\n  spec:parent  ->  spec:auth\n\nIf this turn changed observable behaviour, update the docs of record above to match before finishing. Internal-only changes (refactor/bugfix/perf) need no doc update.";
    assert_eq!(hook_stop_advisory(&g, &files).unwrap(), expected);
    match stop_reply(&g, &Vec::new(), &files, false, None) {
        StopReply::Context(m) => assert_eq!(m, expected),
        other => panic!("unexpected {other:?}"),
    }
    assert!(hook_stop_advisory(&g, &strings(&["README.md"])).is_none());
    assert!(matches!(
        stop_reply(&g, &Vec::new(), &strings(&["README.md"]), false, None),
        StopReply::Nothing
    ));
}

#[test]
fn an_id_already_provided_is_a_duplicate() {
    let m = manifest();
    let mut b = GraphBuilder::new();
    let mut a = refs("spec:a", None, &[], &[], &[]);
    a.provides = ids(&["spec:x"]);
    b.add(&m, "docs/specs/a.md", a, OkfMeta::empty());
    b.add(&m, "docs/specs/b.md", refs("spec:x", None, &[], &[], &[]), OkfMeta::empty());
    let (g, errors) = b.finish();
    assert_eq!(g.docs.len(), 1);
    assert_eq!(errors, strings(&["duplicate id `spec:x` in docs/specs/a.md and docs/specs/b.md"]));
    let out = show_output(&g, "spec:x").unwrap();
    assert!(out.starts_with("id:           spec:a\nqueried:      spec:x  (provided by spec:a)\n"));
}

#[test]
fn stale_check_of_one_doc() {
    let g = auth_graph();
    let doc = &g.docs[0];
    assert_eq!(doc.id.as_str(), "spec:auth");
    let stamp = |t: i64| GitStamp { time: t, hash: format!("h{t}"), date: format!("d{t}") };
    assert_eq!(count_checked(2, &None), (2, false));
    assert_eq!(count_checked(2, &Some(stamp(1))), (3, true));
    assert!(stale_finding(doc, stamp(5), vec![Some(stamp(5))]).is_none());
    assert!(stale_finding(doc, stamp(5), vec![None]).is_none());
    let f = stale_finding(doc, stamp(5), vec![Some(stamp(7))]).unwrap();
    assert_eq!((f.rel_path.as_str(), f.id.as_str(), f.module.as_str()), ("docs/specs/auth.md", "spec:auth", "src/auth/"));
    assert_eq!((f.doc_stamp.time, f.module_stamp.time, f.module_stamp.hash.as_str()), (5, 7, "h7"));
}
