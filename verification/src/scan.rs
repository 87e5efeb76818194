//! Reading documents: which files carry metadata, where their metadata
//! lies, admitting their front matter into the graph, and rewriting legacy
//! front matter in place.
use vstd::prelude::*;

use crate::extract::{
    extract_frontmatter, extract_html_metadata, frontmatter_bounds, frontmatter_range,
    html_meta_bounds, html_scan, lit_open_crlf, lit_open_lf, opt_range, range_text, HtmlMeta,
    MetaBounds, MetaScan,
};
use crate::graph::{admitted, front_matter_msg, front_matter_message, GraphBuilder};
use crate::model::{FrontMatter, Manifest, ManifestError, OkfMeta, RefsBlock};
use crate::paths::glob_root;
use crate::text::{
    chars_of, has_prefix, lower_seq, owned, push_str, slice_str, sorted_insert, sorted_strict,
    starts_with, text_set, texts,
};

verus! {

/// Source syntax that metadata is read from.
#[derive(Clone, Copy, Debug, PartialEq, Eq)]
pub enum DocFormat {
    Markdown,
    Html,
}

/// The format of a file with extension `ext`: `md` is Markdown, `html` and
/// `htm` are HTML; other files are not read.
pub open spec fn format_of(ext: Seq<char>) -> Option<DocFormat> {
    if ext == "md"@ {
        Some(DocFormat::Markdown)
    } else if ext == "html"@ || ext == "htm"@ {
        Some(DocFormat::Html)
    } else {
        None
    }
}

pub fn format_of_extension(ext: &str) -> (r: Option<DocFormat>)
    ensures
        r == format_of(ext@),
{
    if crate::text::text_eq(ext, "md") {
        Some(DocFormat::Markdown)
    } else if crate::text::text_eq(ext, "html") || crate::text::text_eq(ext, "htm") {
        Some(DocFormat::Html)
    } else {
        None
    }
}

/// Directories that are never walked: `.git`, `target`, `node_modules`.
pub open spec fn skipped_dir(name: Seq<char>) -> bool {
    name == ".git"@ || name == "target"@ || name == "node_modules"@
}

pub fn is_skipped_dir(name: &str) -> (r: bool)
    ensures
        r == skipped_dir(name@),
{
    crate::text::text_eq(name, ".git") || crate::text::text_eq(name, "target")
        || crate::text::text_eq(name, "node_modules")
}

/// What a file holds by way of metadata.
pub enum DocYaml<'a> {
    /// The metadata text.
    Yaml(&'a str),
    /// No metadata: the file is not part of the graph.
    Skip,
    /// The metadata block is not closed; the error line to report.
    Malformed(String),
}

pub open spec fn malformed_md_msg(rel: Seq<char>) -> Seq<char> {
    rel + ": malformed front matter (missing closing `---`)"@
}

pub open spec fn malformed_html_msg(rel: Seq<char>) -> Seq<char> {
    rel + ": malformed metadata block (missing closing `</script>`)"@
}

/// The metadata of a Markdown file is its front matter; a file that opens a
/// front matter block without closing it is malformed. The metadata of an
/// HTML file is its first metadata script block; an unclosed one is
/// malformed.
pub open spec fn doc_yaml_spec(format: DocFormat, raw: Seq<char>, rel: Seq<char>) -> Result<
    Option<Seq<char>>,
    Seq<char>,
> {
    match format {
        DocFormat::Markdown => match range_text(raw, frontmatter_range(raw)) {
            Some(y) => Ok(Some(y)),
            None => if has_prefix(raw, lit_open_lf()) || has_prefix(raw, lit_open_crlf()) {
                Err(malformed_md_msg(rel))
            } else {
                Ok(None)
            },
        },
        DocFormat::Html => match html_scan(lower_seq(raw), 0) {
            MetaScan::Found(a, b) => Ok(Some(raw.subrange(a, b))),
            MetaScan::Absent => Ok(None),
            MetaScan::Unterminated => Err(malformed_html_msg(rel)),
        },
    }
}

pub fn doc_yaml<'a>(format: DocFormat, raw: &'a str, rel: &str) -> (r: DocYaml<'a>)
    ensures
        match (r, doc_yaml_spec(format, raw@, rel@)) {
            (DocYaml::Yaml(y), Ok(Some(s))) => y@ == s,
            (DocYaml::Skip, Ok(None)) => true,
            (DocYaml::Malformed(m), Err(e)) => m@ == e,
            _ => false,
        },
{
    match format {
        DocFormat::Markdown => match extract_frontmatter(raw) {
            Some(y) => DocYaml::Yaml(y),
            None => {
                let v = chars_of(raw);
                let lf: Vec<char> = vec!['-', '-', '-', '\n'];
                let crlf: Vec<char> = vec!['-', '-', '-', '\r', '\n'];
                assert(lf@ == lit_open_lf());
                assert(crlf@ == lit_open_crlf());
                if starts_with(&v, &lf) || starts_with(&v, &crlf) {
                    let mut m = owned(rel);
                    push_str(&mut m, ": malformed front matter (missing closing `---`)");
                    DocYaml::Malformed(m)
                } else {
                    DocYaml::Skip
                }
            },
        },
        DocFormat::Html => match extract_html_metadata(raw) {
            HtmlMeta::Found(y) => DocYaml::Yaml(y),
            HtmlMeta::Absent => DocYaml::Skip,
            HtmlMeta::Unterminated => {
                let mut m = owned(rel);
                push_str(&mut m, ": malformed metadata block (missing closing `</script>`)");
                DocYaml::Malformed(m)
            },
        },
    }
}

/// The error line for metadata that is not valid front matter YAML; `err`
/// is the parser's description.
pub fn parse_error_message(rel: &str, err: &str) -> (r: String)
    ensures
        r@ == rel@ + ": front matter parse error: "@ + err@,
{
    let mut m = owned(rel);
    push_str(&mut m, ": front matter parse error: ");
    push_str(&mut m, err);
    m
}

/// What admitting the front matter `fm` of the doc at `rel` does to the
/// builder `o`, giving `f`: a shape error is recorded; a file without kusara
/// metadata changes nothing; otherwise the normalized block is admitted with
/// its OKF metadata (none for the legacy shape).
pub open spec fn admits(
    o: GraphBuilder,
    f: GraphBuilder,
    manifest: Manifest,
    rel: Seq<char>,
    fm: FrontMatter,
) -> bool {
    match fm.normal_form() {
        Err(e) => f.docs@ == o.docs@ && f.id_to_doc@ == o.id_to_doc@ && texts(f.errors@) == texts(
            o.errors@,
        ).push(front_matter_msg(rel, e)),
        Ok(None) => f.docs@ == o.docs@ && f.id_to_doc@ == o.id_to_doc@ && f.errors@
            == o.errors@,
        Ok(Some((r, k, l))) => exists|okf: OkfMeta|
            {
                &&& okf.description == k.description
                &&& okf.resource == k.resource
                &&& okf.timestamp == k.timestamp
                &&& okf.tags@ == if l {
                    Seq::<String>::empty()
                } else {
                    k.tags@
                }
                &&& #[trigger] admitted(o, f, manifest, rel, r, okf)
            },
    }
}

/// Normalizes the front matter of the doc at `rel` and admits it: a shape
/// error is recorded; a file without kusara metadata is left out. Returns
/// whether the front matter has the deprecated legacy shape.
pub fn admit_front_matter(
    builder: &mut GraphBuilder,
    manifest: &Manifest,
    rel: &str,
    fm: FrontMatter,
) -> (legacy: bool)
    requires
        old(builder).wf(),
    ensures
        final(builder).wf(),
        legacy == (fm.refs is Some && fm.kusara is None),
        admits(*old(builder), *final(builder), *manifest, rel@, fm),
{
    let ghost f = fm;
    match fm.normalize() {
        Err(msg) => {
            let m = front_matter_message(rel, msg.as_str());
            let ghost before = texts(builder.errors@);
            builder.report(m);
            assert(texts(builder.errors@) =~= before.push(m@));
            false
        },
        Ok(None) => false,
        Ok(Some((refs, okf, legacy))) => {
            let ghost okf_v = okf;
            builder.add(manifest, rel, refs, okf);
            assert(admitted(*old(builder), *builder, *manifest, rel@, refs, okf_v));
            assert(okf_v.tags@ == if legacy {
                Seq::<String>::empty()
            } else {
                f.tags@
            });
            legacy
        },
    }
}

// ---------------------------------------------------------------------------
// The kinds manifest
// ---------------------------------------------------------------------------

pub open spec fn manifest_msg(e: ManifestError, path: Seq<char>) -> Seq<char> {
    match e {
        ManifestError::DuplicateKind(k) => path + ": duplicate kind `"@ + k.0@ + "`"@,
        ManifestError::NoSource(k) => path + ": kind `"@ + k.0@
            + "` has neither `path_globs` nor `declared_via`"@,
    }
}

impl ManifestError {
    /// The error line, for the manifest at `path`.
    pub fn message(&self, path: &str) -> (r: String)
        ensures
            r@ == manifest_msg(*self, path@),
    {
        let mut m = owned(path);
        match self {
            ManifestError::DuplicateKind(k) => {
                push_str(&mut m, ": duplicate kind `");
                push_str(&mut m, k.as_str());
                push_str(&mut m, "`");
            },
            ManifestError::NoSource(k) => {
                push_str(&mut m, ": kind `");
                push_str(&mut m, k.as_str());
                push_str(&mut m, "` has neither `path_globs` nor `declared_via`");
            },
        }
        m
    }
}

/// `r` is the scan root of one of the first `n` globs.
pub open spec fn from_globs(globs: Seq<String>, n: int, r: Seq<char>) -> bool {
    exists|b: int| 0 <= b < n && r == crate::paths::glob_root_of((#[trigger] globs[b])@)
}

/// `r` is the scan root of a glob of one of the first `n` kinds.
pub open spec fn from_kinds(ks: Seq<crate::model::KindDef>, n: int, r: Seq<char>) -> bool {
    exists|a: int|
        0 <= a < n && #[trigger] from_globs(ks[a].path_globs@, ks[a].path_globs@.len() as int, r)
}

/// The directories to walk: the doc root and the scan root of every glob
/// of every kind.
pub open spec fn scan_roots(manifest: Manifest, doc_root: Seq<char>) -> Set<Seq<char>> {
    Set::new(
        |r: Seq<char>|
            r == doc_root || from_kinds(manifest.kinds@, manifest.kinds@.len() as int, r),
    )
}

/// Returns the directories to walk, ordered and without repeats: each
/// `path_glob` reduced to its longest non-glob prefix, plus `doc_root`.
pub fn derive_scan_roots(manifest: &Manifest, doc_root: &str) -> (r: Vec<String>)
    ensures
        sorted_strict(texts(r@)),
        text_set(r@) == scan_roots(*manifest, doc_root@),
{
    let mut roots: Vec<String> = Vec::new();
    sorted_insert(&mut roots, owned(doc_root));
    let ghost ks = manifest.kinds@;
    let mut i: usize = 0;
    assert(text_set(roots@) =~= Set::new(
        |r: Seq<char>| r == doc_root@ || from_kinds(ks, 0, r),
    ));
    while i < manifest.kinds.len()
        invariant
            i <= ks.len(),
            ks == manifest.kinds@,
            sorted_strict(texts(roots@)),
            text_set(roots@) == Set::new(
                |r: Seq<char>| r == doc_root@ || from_kinds(ks, i as int, r),
            ),
        decreases ks.len() - i,
    {
        let globs = &manifest.kinds[i].path_globs;
        let mut j: usize = 0;
        let ghost r0 = text_set(roots@);
        assert(r0 =~= r0.union(Set::new(|r: Seq<char>| from_globs(globs@, 0, r))));
        while j < globs.len()
            invariant
                j <= globs@.len(),
                globs@ == ks[i as int].path_globs@,
                i < ks.len(),
                sorted_strict(texts(roots@)),
                text_set(roots@) == r0.union(
                    Set::new(|r: Seq<char>| from_globs(globs@, j as int, r)),
                ),
            decreases globs@.len() - j,
        {
            let g = glob_root(globs[j].as_str());
            sorted_insert(&mut roots, g);
            proof {
                assert forall|r: Seq<char>| #[trigger] from_globs(globs@, j + 1, r) <==> (
                from_globs(globs@, j as int, r) || r == crate::paths::glob_root_of(
                    globs@[j as int]@,
                )) by {
                    if from_globs(globs@, j + 1, r) {
                        let b = choose|b: int|
                            0 <= b < j + 1 && r == crate::paths::glob_root_of(
                                (#[trigger] globs@[b])@,
                            );
                        if b < j {
                            assert(from_globs(globs@, j as int, r));
                        }
                    }
                    if from_globs(globs@, j as int, r) {
                        let b = choose|b: int|
                            0 <= b < j && r == crate::paths::glob_root_of((#[trigger] globs@[b])@);
                        assert(from_globs(globs@, j + 1, r));
                    }
                    if r == crate::paths::glob_root_of(globs@[j as int]@) {
                        assert(from_globs(globs@, j + 1, r));
                    }
                }
                assert(text_set(roots@) =~= r0.union(
                    Set::new(|r: Seq<char>| from_globs(globs@, j + 1, r)),
                ));
            }
            j = j + 1;
        }
        proof {
            assert forall|r: Seq<char>| #[trigger] from_kinds(ks, i + 1, r) <==> (from_kinds(
                ks,
                i as int,
                r,
            ) || from_globs(globs@, globs@.len() as int, r)) by {
                if from_kinds(ks, i + 1, r) {
                    let a = choose|a: int|
                        0 <= a < i + 1 && #[trigger] from_globs(
                            ks[a].path_globs@,
                            ks[a].path_globs@.len() as int,
                            r,
                        );
                    if a < i {
                        assert(from_kinds(ks, i as int, r));
                    }
                }
                if from_kinds(ks, i as int, r) {
                    let a = choose|a: int|
                        0 <= a < i && #[trigger] from_globs(
                            ks[a].path_globs@,
                            ks[a].path_globs@.len() as int,
                            r,
                        );
                    assert(from_kinds(ks, i + 1, r));
                }
                if from_globs(globs@, globs@.len() as int, r) {
                    assert(from_globs(ks[i as int].path_globs@, ks[i as int].path_globs@.len() as int, r));
                    assert(from_kinds(ks, i + 1, r));
                }
            }
            assert(text_set(roots@) =~= Set::new(
                |r: Seq<char>| r == doc_root@ || from_kinds(ks, i + 1, r),
            ));
        }
        i = i + 1;
    }
    roots
}

// ---------------------------------------------------------------------------
// Migration of legacy front matter
// ---------------------------------------------------------------------------

/// What migration does with a document's front matter.
#[derive(Debug, PartialEq, Eq, Clone, Copy)]
pub enum MigrateAction {
    /// Both `refs:` and `kusara:`: left alone, with a warning.
    Ambiguous,
    /// No legacy `refs:` block: nothing to migrate.
    Keep,
    /// Legacy `refs:` only: rewritten in the OKF shape.
    Rewrite,
}

pub open spec fn migrate_action_of(fm: FrontMatter) -> MigrateAction {
    if fm.refs is Some && fm.kusara is Some {
        MigrateAction::Ambiguous
    } else if fm.refs is Some {
        MigrateAction::Rewrite
    } else {
        MigrateAction::Keep
    }
}

pub fn migrate_action(fm: &FrontMatter) -> (r: MigrateAction)
    ensures
        r == migrate_action_of(*fm),
{
    if fm.refs.is_some() && fm.kusara.is_some() {
        MigrateAction::Ambiguous
    } else if fm.refs.is_some() {
        MigrateAction::Rewrite
    } else {
        MigrateAction::Keep
    }
}

/// Migration only rewrites the legacy shape: a document already in the OKF
/// shape (no `refs:`) is left as it is, and one that mixes both shapes is
/// refused rather than rewritten.
pub proof fn lemma_migration_leaves_okf_docs(fm: FrontMatter)
    ensures
        fm.refs is None ==> migrate_action_of(fm) == MigrateAction::Keep,
        migrate_action_of(fm) == MigrateAction::Rewrite <==> (fm.refs is Some && fm.kusara is None),
{
}

/// `fm` is the OKF-shape counterpart of the legacy block `r`: `type:` is its
/// kind, `title:` its title, the `kusara:` block holds its other fields, and
/// there is no other OKF metadata.
pub open spec fn okf_counterpart(r: RefsBlock, fm: FrontMatter) -> bool {
    &&& fm.refs is None
    &&& fm.typ == Some(r.kind)
    &&& fm.title == r.title
    &&& fm.description is None
    &&& fm.resource is None
    &&& fm.tags@.len() == 0
    &&& fm.timestamp is None
    &&& fm.kusara matches Some(k) && k.id == r.id && k.spec == r.spec && k.provides == r.provides
        && k.implements == r.implements && k.depends_on == r.depends_on && k.related == r.related
        && k.modules == r.modules && k.generated == r.generated && k.indexes_kind == r.indexes_kind
}

/// The legacy shape and its OKF counterpart normalize to the same block and
/// to the same (empty) OKF metadata; only the legacy one is flagged legacy.
/// With `lemma_admission_reads_metadata`, admitting either changes the graph
/// the same way.
pub proof fn lemma_legacy_and_okf_shapes_agree(legacy: FrontMatter, okf: FrontMatter)
    requires
        legacy.refs is Some,
        legacy.kusara is None,
        okf_counterpart(legacy.refs.unwrap(), okf),
    ensures
        legacy.normal_form() matches Ok(Some((a, x, true))) && okf.normal_form() matches Ok(
            Some((b, y, false)),
        ) && a == b && x.description == y.description && x.resource == y.resource
            && x.timestamp == y.timestamp && y.tags@.len() == 0,
{
    let r = legacy.refs.unwrap();
    let k = okf.kusara.unwrap();
    assert(crate::model::okf_refs(r.kind, r.title, k) == r);
}

/// Admitting a legacy doc or its OKF counterpart changes a builder the same
/// way.
pub proof fn lemma_shapes_admit_alike(
    o: GraphBuilder,
    f: GraphBuilder,
    manifest: Manifest,
    rel: Seq<char>,
    legacy: FrontMatter,
    okf: FrontMatter,
)
    requires
        legacy.refs is Some,
        legacy.kusara is None,
        okf_counterpart(legacy.refs.unwrap(), okf),
    ensures
        admits(o, f, manifest, rel, legacy) == admits(o, f, manifest, rel, okf),
{
    lemma_legacy_and_okf_shapes_agree(legacy, okf);
    let (r, x, l1) = legacy.normal_form()->Ok_0->Some_0;
    let (r2, y, l2) = okf.normal_form()->Ok_0->Some_0;
    assert(r == r2 && l1 && !l2);
    assert(y.tags@ =~= Seq::<String>::empty());
    if admits(o, f, manifest, rel, legacy) {
        let w = choose|w: OkfMeta|
            {
                &&& w.description == x.description
                &&& w.resource == x.resource
                &&& w.timestamp == x.timestamp
                &&& w.tags@ == Seq::<String>::empty()
                &&& #[trigger] admitted(o, f, manifest, rel, r, w)
            };
        assert(admitted(o, f, manifest, rel, r2, w));
    }
    if admits(o, f, manifest, rel, okf) {
        let w = choose|w: OkfMeta|
            {
                &&& w.description == y.description
                &&& w.resource == y.resource
                &&& w.timestamp == y.timestamp
                &&& w.tags@ == y.tags@
                &&& #[trigger] admitted(o, f, manifest, rel, r2, w)
            };
        assert(admitted(o, f, manifest, rel, r, w));
    }
}

/// Admitting the docs `files` (path and front matter) one after another
/// takes the builder `o` to `f`.
pub open spec fn admits_all(
    o: GraphBuilder,
    f: GraphBuilder,
    manifest: Manifest,
    files: Seq<(Seq<char>, FrontMatter)>,
) -> bool
    decreases files.len(),
{
    if files.len() == 0 {
        f == o
    } else {
        exists|mid: GraphBuilder|
            admits_all(o, mid, manifest, files.drop_last()) && #[trigger] admits(
                mid,
                f,
                manifest,
                files.last().0,
                files.last().1,
            )
    }
}

/// The same doc in either shape: the same front matter, or a legacy block
/// and its OKF counterpart (either way round).
pub open spec fn same_doc(a: FrontMatter, b: FrontMatter) -> bool {
    ||| a == b
    ||| a.refs is Some && a.kusara is None && okf_counterpart(a.refs.unwrap(), b)
    ||| b.refs is Some && b.kusara is None && okf_counterpart(b.refs.unwrap(), a)
}

/// Two scans whose files differ only in the shape of their front matter
/// (legacy `refs:` or OKF) build the same graph: every builder state that
/// one sequence of admissions can reach, the other reaches too.
pub proof fn lemma_shapes_build_the_same_graph(
    o: GraphBuilder,
    f: GraphBuilder,
    manifest: Manifest,
    a: Seq<(Seq<char>, FrontMatter)>,
    b: Seq<(Seq<char>, FrontMatter)>,
)
    requires
        a.len() == b.len(),
        forall|i: int| 0 <= i < a.len() ==> (#[trigger] a[i]).0 == b[i].0 && same_doc(a[i].1, b[i].1),
    ensures
        admits_all(o, f, manifest, a) == admits_all(o, f, manifest, b),
    decreases a.len(),
{
    if a.len() > 0 {
        let (ra, fa) = a.last();
        let (rb, fb) = b.last();
        assert(a[a.len() - 1] == a.last());
        assert forall|mid: GraphBuilder, g: GraphBuilder|
            admits(mid, g, manifest, ra, fa) == admits(mid, g, manifest, rb, fb) by {
            if fa != fb {
                if fa.refs is Some && fa.kusara is None && okf_counterpart(fa.refs.unwrap(), fb) {
                    lemma_shapes_admit_alike(mid, g, manifest, ra, fa, fb);
                } else {
                    lemma_shapes_admit_alike(mid, g, manifest, ra, fb, fa);
                }
            }
        }
        assert forall|mid: GraphBuilder|
            admits_all(o, mid, manifest, a.drop_last()) == admits_all(
                o,
                mid,
                manifest,
                b.drop_last(),
            ) by {
            assert forall|i: int| 0 <= i < a.drop_last().len() implies (
            #[trigger] a.drop_last()[i]).0 == b.drop_last()[i].0 && same_doc(
                a.drop_last()[i].1,
                b.drop_last()[i].1,
            ) by {
                assert(a.drop_last()[i] == a[i]);
            }
            lemma_shapes_build_the_same_graph(o, mid, manifest, a.drop_last(), b.drop_last());
        }
        if admits_all(o, f, manifest, a) {
            let mid = choose|mid: GraphBuilder|
                admits_all(o, mid, manifest, a.drop_last()) && #[trigger] admits(
                    mid,
                    f,
                    manifest,
                    a.last().0,
                    a.last().1,
                );
            assert(admits(mid, f, manifest, b.last().0, b.last().1));
        }
        if admits_all(o, f, manifest, b) {
            let mid = choose|mid: GraphBuilder|
                admits_all(o, mid, manifest, b.drop_last()) && #[trigger] admits(
                    mid,
                    f,
                    manifest,
                    b.last().0,
                    b.last().1,
                );
            assert(admits(mid, f, manifest, a.last().0, a.last().1));
        }
    }
}

/// Where the metadata of a file to migrate lies: the front matter of a
/// Markdown file, or the first metadata block of an HTML file.
pub fn metadata_bounds(format: DocFormat, raw: &str) -> (r: Option<(usize, usize)>)
    ensures
        r matches Some((a, b)) ==> a <= b <= raw@.len(),
        format == DocFormat::Markdown ==> opt_range(r) == frontmatter_range(raw@),
        format == DocFormat::Html ==> match html_scan(lower_seq(raw@), 0) {
            MetaScan::Found(a, b) => r == Some((a as usize, b as usize)),
            _ => r is None,
        },
{
    match format {
        DocFormat::Markdown => frontmatter_bounds(raw),
        DocFormat::Html => match html_meta_bounds(raw) {
            MetaBounds::Found(a, b) => Some((a, b)),
            _ => None,
        },
    }
}

/// The metadata text that replaces the old one: in Markdown the emitted
/// YAML without its final newline (the closing fence follows on the next
/// line); in HTML the emitted YAML on its own lines.
pub open spec fn new_yaml_of(format: DocFormat, body: Seq<char>) -> Seq<char> {
    match format {
        DocFormat::Markdown => if body.len() > 0 && body.last() == '\n' {
            body.drop_last()
        } else {
            body
        },
        DocFormat::Html => "\n"@ + body,
    }
}

pub fn new_yaml(format: DocFormat, body: &str) -> (r: String)
    ensures
        r@ == new_yaml_of(format, body@),
{
    match format {
        DocFormat::Markdown => {
            let n = body.unicode_len();
            if n > 0 && body.get_char(n - 1) == '\n' {
                owned(slice_str(body, 0, n - 1))
            } else {
                owned(body)
            }
        },
        DocFormat::Html => {
            let mut r = String::from_str("\n");
            push_str(&mut r, body);
            r
        },
    }
}

/// `raw` with the characters `off..off + inner.len()`, which are `inner`,
/// replaced by `new_inner`.
pub fn splice_subslice(raw: &str, off: usize, inner: &str, new_inner: &str) -> (r: String)
    requires
        off + inner@.len() <= raw@.len(),
        raw@.subrange(off as int, off + inner@.len()) == inner@,
    ensures
        r@ == raw@.subrange(0, off as int) + new_inner@ + raw@.subrange(
            off + inner@.len(),
            raw@.len() as int,
        ),
{
    let n = raw.unicode_len();
    let k = inner.unicode_len();
    let mut out = owned(slice_str(raw, 0, off));
    push_str(&mut out, new_inner);
    push_str(&mut out, slice_str(raw, off + k, n));
    out
}

/// Putting back what was there leaves the text unchanged.
pub proof fn lemma_splice_same(raw: Seq<char>, off: int, inner: Seq<char>)
    requires
        0 <= off,
        off + inner.len() <= raw.len(),
        raw.subrange(off, off + inner.len()) == inner,
    ensures
        raw.subrange(0, off) + inner + raw.subrange(off + inner.len(), raw.len() as int) == raw,
{
    assert(raw.subrange(0, off) + inner + raw.subrange(off + inner.len(), raw.len() as int) =~= raw);
}

/// The migrated text of a file whose metadata lies at `a..b` of `raw`, given
/// the emitted OKF front matter `body`; `None` when nothing changes.
pub fn migrated_text(raw: &str, format: DocFormat, a: usize, b: usize, body: &str) -> (r: Option<
    String,
>)
    requires
        a <= b <= raw@.len(),
    ensures
        ({
            let t = raw@.subrange(0, a as int) + new_yaml_of(format, body@) + raw@.subrange(
                b as int,
                raw@.len() as int,
            );
            match r {
                Some(s) => s@ == t && t != raw@,
                None => t == raw@,
            }
        }),
{
    let inner = slice_str(raw, a, b);
    let y = new_yaml(format, body);
    let out = splice_subslice(raw, a, inner, y.as_str());
    if crate::text::text_eq(out.as_str(), raw) {
        None
    } else {
        Some(out)
    }
}

} // verus!
