//! `validate`: the shape and reference errors found while building the
//! graph, `modules:` paths that do not exist, and files that a kind's
//! `path_globs` match but that carry no kusara front matter.
use vstd::prelude::*;

use crate::graph::Graph;
use crate::model::Doc;
use crate::paths::{path_strip_prefix, same_path, same_path_spec, strip_path_prefix};
use crate::text::{owned, push_str, text_eq, texts};

verus! {

// ---------------------------------------------------------------------------
// modules: paths
// ---------------------------------------------------------------------------

/// `s` without its trailing `/`s.
pub open spec fn trim_slashes(s: Seq<char>) -> Seq<char>
    decreases s.len(),
{
    if s.len() > 0 && s.last() == '/' {
        trim_slashes(s.drop_last())
    } else {
        s
    }
}

pub fn trim_end_slashes(s: &str) -> (r: String)
    ensures
        r@ == trim_slashes(s@),
{
    let v = crate::text::chars_of(s);
    let mut n: usize = v.len();
    assert(v@.subrange(0, n as int) =~= v@);
    while n > 0 && v[n - 1] == '/'
        invariant
            n <= v@.len(),
            v@ == s@,
            trim_slashes(s@) == trim_slashes(v@.subrange(0, n as int)),
        decreases n,
    {
        assert(v@.subrange(0, n as int).drop_last() =~= v@.subrange(0, n - 1));
        n = n - 1;
    }
    assert(trim_slashes(v@.subrange(0, n as int)) == v@.subrange(0, n as int));
    crate::text::copy_range_text(&v, 0, n)
}

/// One `modules:` entry of a doc: the doc's path and id, and the entry.
pub struct ModuleRef {
    pub rel_path: String,
    pub id: String,
    pub module: String,
}

pub open spec fn module_refs_of(d: Doc) -> Seq<(Seq<char>, Seq<char>, Seq<char>)> {
    d.modules@.map_values(|m: String| (d.rel_path@, d.id.0@, m@))
}

/// Every `modules:` entry of `docs`, doc by doc.
pub open spec fn module_refs(docs: Seq<Doc>) -> Seq<(Seq<char>, Seq<char>, Seq<char>)>
    decreases docs.len(),
{
    if docs.len() == 0 {
        Seq::empty()
    } else {
        module_refs(docs.drop_last()) + module_refs_of(docs.last())
    }
}

/// The path to check for each `modules:` entry of the graph, in order:
/// the entry without its trailing `/`s, relative to the repo root.
pub fn module_probes(graph: &Graph) -> (r: Vec<String>)
    ensures
        texts(r@) == module_refs(graph.docs@).map_values(
            |t: (Seq<char>, Seq<char>, Seq<char>)| trim_slashes(t.2),
        ),
{
    let mut r: Vec<String> = Vec::new();
    let mut k: usize = 0;
    while k < graph.docs.len()
        invariant
            k <= graph.docs@.len(),
            texts(r@) == module_refs(graph.docs@.take(k as int)).map_values(
                |t: (Seq<char>, Seq<char>, Seq<char>)| trim_slashes(t.2),
            ),
        decreases graph.docs@.len() - k,
    {
        let d = &graph.docs[k];
        let ghost before = texts(r@);
        let mut j: usize = 0;
        while j < d.modules.len()
            invariant
                j <= d.modules@.len(),
                texts(r@) == before + d.modules@.take(j as int).map_values(
                    |m: String| trim_slashes(m@),
                ),
            decreases d.modules@.len() - j,
        {
            let ghost rb = r@;
            let t = trim_end_slashes(d.modules[j].as_str());
            r.push(t);
            assert(texts(r@) =~= texts(rb).push(t@));
            assert(d.modules@.take(j + 1).map_values(|m: String| trim_slashes(m@)) =~= d.modules@.take(
                j as int,
            ).map_values(|m: String| trim_slashes(m@)).push(trim_slashes(d.modules@[j as int]@)));
            assert(texts(r@) =~= before + d.modules@.take(j + 1).map_values(
                |m: String| trim_slashes(m@),
            ));
            j = j + 1;
        }
        proof {
            let f = |t: (Seq<char>, Seq<char>, Seq<char>)| trim_slashes(t.2);
            assert(graph.docs@.take(k + 1).drop_last() =~= graph.docs@.take(k as int));
            assert(graph.docs@.take(k + 1).last() == *d);
            assert(d.modules@.take(d.modules@.len() as int) =~= d.modules@);
            assert(module_refs_of(*d).map_values(f) =~= d.modules@.map_values(
                |m: String| trim_slashes(m@),
            ));
            assert((module_refs(graph.docs@.take(k as int)) + module_refs_of(*d)).map_values(f)
                =~= module_refs(graph.docs@.take(k as int)).map_values(f) + module_refs_of(
                *d,
            ).map_values(f));
        }
        k = k + 1;
    }
    assert(graph.docs@.take(graph.docs@.len() as int) =~= graph.docs@);
    r
}

/// The error for a `modules:` entry whose path does not exist.
pub open spec fn missing_module_msg(t: (Seq<char>, Seq<char>, Seq<char>)) -> Seq<char> {
    t.0 + " ("@ + t.1 + "): module path `"@ + t.2 + "` does not exist"@
}

/// The errors for the entries whose path does not exist (`exists[i]` tells
/// whether the path of entry `i` exists).
pub open spec fn missing_module_msgs(
    refs: Seq<(Seq<char>, Seq<char>, Seq<char>)>,
    exists: Seq<bool>,
) -> Seq<Seq<char>>
    decreases refs.len(),
{
    if refs.len() == 0 {
        Seq::empty()
    } else {
        let rest = missing_module_msgs(refs.drop_last(), exists);
        if exists[refs.len() - 1] {
            rest
        } else {
            rest.push(missing_module_msg(refs.last()))
        }
    }
}

// ---------------------------------------------------------------------------
// path_globs
// ---------------------------------------------------------------------------

/// What globbing one of a kind's `path_globs` gave.
pub enum GlobOutcome {
    /// The pattern is not a valid glob; `error` describes why.
    BadPattern { kind: String, pattern: String, error: String },
    /// Reading one match failed; `error` describes why.
    EntryError { kind: String, pattern: String, error: String },
    /// A matched file, as a path relative to the repo root.
    Matched { kind: String, pattern: String, rel: String },
}

/// The pattern to glob for one of a kind's `path_globs`: under `root`.
pub open spec fn glob_under(root: Seq<char>, pattern: Seq<char>) -> Seq<char> {
    root + "/"@ + pattern
}

pub fn glob_pattern(root: &str, pattern: &str) -> (r: String)
    ensures
        r@ == glob_under(root@, pattern@),
{
    let mut r = owned(root);
    push_str(&mut r, "/");
    push_str(&mut r, pattern);
    r
}

/// A matched path relative to the repo root: with `root` stripped when it
/// is a prefix, else as it is.
pub open spec fn match_rel(root: Seq<char>, p: Seq<char>) -> Seq<char> {
    match path_strip_prefix(p, root) {
        Some(r) => r,
        None => p,
    }
}

pub fn match_rel_path(root: &str, p: &str) -> (r: String)
    ensures
        r@ == match_rel(root@, p@),
{
    match strip_path_prefix(p, root) {
        Some(r) => r,
        None => owned(p),
    }
}

/// Whether some doc of `docs` has the path `rel` (paths compared component
/// by component).
pub open spec fn has_doc_at(docs: Seq<Doc>, rel: Seq<char>) -> bool {
    exists|i: int| 0 <= i < docs.len() && same_path_spec((#[trigger] docs[i]).rel_path@, rel)
}

/// The error a glob outcome gives, if any: a bad pattern, a failed match,
/// or a matched file that is not a doc of the graph.
pub open spec fn glob_msg(docs: Seq<Doc>, o: GlobOutcome) -> Option<Seq<char>> {
    match o {
        GlobOutcome::BadPattern { kind, pattern, error } => Some(
            "kind `"@ + kind@ + "`: bad glob `"@ + pattern@ + "`: "@ + error@,
        ),
        GlobOutcome::EntryError { kind, pattern, error } => Some(
            "kind `"@ + kind@ + "` glob `"@ + pattern@ + "`: "@ + error@,
        ),
        GlobOutcome::Matched { kind, pattern, rel } => if has_doc_at(docs, rel@) {
            None
        } else {
            Some(
                rel@ + ": matches kind `"@ + kind@ + "` glob `"@ + pattern@
                    + "` but has no kusara front matter (`type:` + `kusara:`, or legacy `refs:`)"@,
            )
        },
    }
}

pub open spec fn glob_msgs(docs: Seq<Doc>, os: Seq<GlobOutcome>) -> Seq<Seq<char>>
    decreases os.len(),
{
    if os.len() == 0 {
        Seq::empty()
    } else {
        let rest = glob_msgs(docs, os.drop_last());
        match glob_msg(docs, os.last()) {
            Some(m) => rest.push(m),
            None => rest,
        }
    }
}

proof fn lemma_all_modules_exist(refs: Seq<(Seq<char>, Seq<char>, Seq<char>)>, exists: Seq<bool>)
    requires
        forall|k: int| 0 <= k < exists.len() ==> exists[k],
        refs.len() <= exists.len(),
    ensures
        missing_module_msgs(refs, exists).len() == 0,
    decreases refs.len(),
{
    if refs.len() > 0 {
        lemma_all_modules_exist(refs.drop_last(), exists);
        assert(exists[refs.len() - 1]);
    }
}

/// A file that globbing matched is reported only when no doc of the graph
/// lies at its path: when every `modules:` path exists and every glob match
/// is the path of some doc (any doc of the graph), `validate` reports
/// nothing beyond the errors found while building the graph.
pub proof fn lemma_matched_doc_paths_raise_nothing(
    parse_errors: Seq<Seq<char>>,
    docs: Seq<Doc>,
    exists: Seq<bool>,
    globs: Seq<GlobOutcome>,
)
    requires
        exists.len() == module_refs(docs).len(),
        forall|k: int| 0 <= k < exists.len() ==> exists[k],
        forall|i: int|
            0 <= i < globs.len() ==> (#[trigger] globs[i] matches GlobOutcome::Matched { rel, .. }
                && exists|j: int| 0 <= j < docs.len() && docs[j].rel_path@ == rel@),
    ensures
        validate_errors(parse_errors, docs, exists, globs) == parse_errors,
    decreases globs.len(),
{
    lemma_all_modules_exist(module_refs(docs), exists);
    lemma_glob_matches_of_docs(docs, globs);
    assert(validate_errors(parse_errors, docs, exists, globs) =~= parse_errors);
}

proof fn lemma_glob_matches_of_docs(docs: Seq<Doc>, globs: Seq<GlobOutcome>)
    requires
        forall|i: int|
            0 <= i < globs.len() ==> (#[trigger] globs[i] matches GlobOutcome::Matched { rel, .. }
                && exists|j: int| 0 <= j < docs.len() && docs[j].rel_path@ == rel@),
    ensures
        glob_msgs(docs, globs).len() == 0,
    decreases globs.len(),
{
    if globs.len() > 0 {
        let last = globs.last();
        assert(globs[globs.len() - 1] == last);
        if let GlobOutcome::Matched { rel, .. } = last {
            let j = choose|j: int| 0 <= j < docs.len() && docs[j].rel_path@ == rel@;
            assert(same_path_spec(docs[j].rel_path@, rel@));
            assert(has_doc_at(docs, rel@));
        }
        assert forall|i: int| 0 <= i < globs.drop_last().len() implies (
        #[trigger] globs.drop_last()[i] matches GlobOutcome::Matched { rel, .. } && exists|j: int|
            0 <= j < docs.len() && docs[j].rel_path@ == rel@) by {
            assert(globs.drop_last()[i] == globs[i]);
        }
        lemma_glob_matches_of_docs(docs, globs.drop_last());
    }
}

/// A matched file with no doc at its path is reported, naming the file.
pub proof fn lemma_unmatched_file_reported(docs: Seq<Doc>, kind: String, pattern: String, rel: String)
    requires
        forall|j: int| 0 <= j < docs.len() ==> !same_path_spec(docs[j].rel_path@, rel@),
    ensures
        glob_msgs(docs, seq![GlobOutcome::Matched { kind, pattern, rel }]).len() == 1,
        crate::text::has_prefix(
            glob_msgs(docs, seq![GlobOutcome::Matched { kind, pattern, rel }])[0],
            rel@,
        ),
{
    let o = GlobOutcome::Matched { kind, pattern, rel };
    let s = seq![o];
    assert(s.drop_last() =~= Seq::<GlobOutcome>::empty());
    assert(s.last() == o);
    assert(!has_doc_at(docs, rel@));
    assert(glob_msgs(docs, Seq::<GlobOutcome>::empty()).len() == 0);
    let m = rel@ + ": matches kind `"@ + kind@ + "` glob `"@ + pattern@
        + "` but has no kusara front matter (`type:` + `kusara:`, or legacy `refs:`)"@;
    assert(glob_msg(docs, o) == Some(m));
    assert(glob_msgs(docs, s) =~= seq![m]);
    assert(m.subrange(0, rel@.len() as int) =~= rel@);
}

fn has_doc_at_exec(docs: &Vec<Doc>, rel: &str) -> (r: bool)
    ensures
        r == has_doc_at(docs@, rel@),
{
    let mut i: usize = 0;
    while i < docs.len()
        invariant
            i <= docs@.len(),
            forall|j: int| 0 <= j < i ==> !same_path_spec(docs@[j].rel_path@, rel@),
        decreases docs@.len() - i,
    {
        if same_path(docs[i].rel_path.as_str(), rel) {
            return true;
        }
        i = i + 1;
    }
    false
}

fn glob_error(docs: &Vec<Doc>, o: &GlobOutcome) -> (r: Option<String>)
    ensures
        match (r, glob_msg(docs@, *o)) {
            (Some(a), Some(b)) => a@ == b,
            (None, None) => true,
            _ => false,
        },
{
    match o {
        GlobOutcome::BadPattern { kind, pattern, error } => {
            let mut m = owned("kind `");
            push_str(&mut m, kind.as_str());
            push_str(&mut m, "`: bad glob `");
            push_str(&mut m, pattern.as_str());
            push_str(&mut m, "`: ");
            push_str(&mut m, error.as_str());
            Some(m)
        },
        GlobOutcome::EntryError { kind, pattern, error } => {
            let mut m = owned("kind `");
            push_str(&mut m, kind.as_str());
            push_str(&mut m, "` glob `");
            push_str(&mut m, pattern.as_str());
            push_str(&mut m, "`: ");
            push_str(&mut m, error.as_str());
            Some(m)
        },
        GlobOutcome::Matched { kind, pattern, rel } => {
            if has_doc_at_exec(docs, rel.as_str()) {
                None
            } else {
                let mut m = owned(rel.as_str());
                push_str(&mut m, ": matches kind `");
                push_str(&mut m, kind.as_str());
                push_str(&mut m, "` glob `");
                push_str(&mut m, pattern.as_str());
                push_str(
                    &mut m,
                    "` but has no kusara front matter (`type:` + `kusara:`, or legacy `refs:`)",
                );
                Some(m)
            }
        },
    }
}

// ---------------------------------------------------------------------------
// All errors
// ---------------------------------------------------------------------------

/// Everything `validate` reports, in order: the errors found while building
/// the graph, the `modules:` paths that do not exist, then the glob errors.
pub open spec fn validate_errors(
    parse_errors: Seq<Seq<char>>,
    docs: Seq<Doc>,
    exists: Seq<bool>,
    globs: Seq<GlobOutcome>,
) -> Seq<Seq<char>> {
    parse_errors + missing_module_msgs(module_refs(docs), exists) + glob_msgs(docs, globs)
}

fn push_missing_modules(errors: &mut Vec<String>, graph: &Graph, exists: &Vec<bool>)
    requires
        exists@.len() == module_refs(graph.docs@).len(),
    ensures
        texts(final(errors)@) == texts(old(errors)@) + missing_module_msgs(
            module_refs(graph.docs@),
            exists@,
        ),
{
    let ghost start = texts(errors@);
    let total: usize = exists.len();
    let mut n: usize = 0;
    let mut k: usize = 0;
    while k < graph.docs.len()
        invariant
            k <= graph.docs@.len(),
            exists@.len() == module_refs(graph.docs@).len(),
            n == module_refs(graph.docs@.take(k as int)).len(),
            total == exists@.len(),
            module_refs(graph.docs@.take(k as int)).len() <= module_refs(graph.docs@).len(),
            texts(errors@) == start + missing_module_msgs(
                module_refs(graph.docs@.take(k as int)),
                exists@,
            ),
            forall|p: int|
                0 <= p < module_refs(graph.docs@.take(k as int)).len() ==> module_refs(
                    graph.docs@.take(k as int),
                )[p] == #[trigger] module_refs(graph.docs@)[p],
        decreases graph.docs@.len() - k,
    {
        let d = &graph.docs[k];
        let ghost pre = module_refs(graph.docs@.take(k as int));
        proof {
            lemma_module_refs_prefix(graph.docs@, k + 1);
            assert(graph.docs@.take(k + 1).drop_last() =~= graph.docs@.take(k as int));
            assert(graph.docs@.take(k + 1).last() == *d);
        }
        let mut j: usize = 0;
        while j < d.modules.len()
            invariant
                j <= d.modules@.len(),
                exists@.len() == module_refs(graph.docs@).len(),
                module_refs(graph.docs@.take(k + 1)) == pre + module_refs_of(*d),
                (k + 1) <= graph.docs@.len(),
                module_refs(graph.docs@.take(k + 1)).len() <= module_refs(graph.docs@).len(),
                forall|p: int|
                    0 <= p < module_refs(graph.docs@.take(k + 1)).len() ==> module_refs(
                        graph.docs@.take(k + 1),
                    )[p] == #[trigger] module_refs(graph.docs@)[p],
                n == pre.len() + j,
                total == exists@.len(),
                texts(errors@) == start + missing_module_msgs(
                    pre + module_refs_of(*d).take(j as int),
                    exists@,
                ),
            decreases d.modules@.len() - j,
        {
            let ghost cur = pre + module_refs_of(*d).take(j as int);
            let ghost nxt = pre + module_refs_of(*d).take(j + 1);
            assert(nxt.drop_last() =~= cur);
            assert(nxt.last() == (d.rel_path@, d.id.0@, d.modules@[j as int]@));
            assert(nxt.len() == n + 1);
            assert(module_refs_of(*d).take(j + 1).len() <= module_refs_of(*d).len());
            assert(n + 1 <= exists@.len());
            assert(n < total);
            if !exists[n] {
                let mut m = owned(d.rel_path.as_str());
                push_str(&mut m, " (");
                push_str(&mut m, d.id.as_str());
                push_str(&mut m, "): module path `");
                push_str(&mut m, d.modules[j].as_str());
                push_str(&mut m, "` does not exist");
                let ghost before = texts(errors@);
                errors.push(m);
                assert(texts(errors@) =~= before.push(m@));
            }
            n = n + 1;
            j = j + 1;
        }
        assert(module_refs_of(*d).take(d.modules@.len() as int) =~= module_refs_of(*d));
        k = k + 1;
    }
    assert(graph.docs@.take(graph.docs@.len() as int) =~= graph.docs@);
}

/// The entries of a prefix of `docs` come first among those of `docs`.
proof fn lemma_module_refs_prefix(docs: Seq<Doc>, k: int)
    requires
        0 <= k <= docs.len(),
    ensures
        module_refs(docs.take(k)).len() <= module_refs(docs).len(),
        forall|p: int|
            0 <= p < module_refs(docs.take(k)).len() ==> module_refs(docs.take(k))[p]
                == #[trigger] module_refs(docs)[p],
    decreases docs.len() - k,
{
    if k == docs.len() {
        assert(docs.take(k) =~= docs);
    } else {
        lemma_module_refs_prefix(docs, k + 1);
        assert(docs.take(k + 1).drop_last() =~= docs.take(k));
    }
}

/// The errors `validate` reports: the errors found while building the graph
/// (`parse_errors`), then one per `modules:` entry whose path does not exist
/// (`exists` holds, for each path of `module_probes`, whether it exists),
/// then one per bad glob, failed match, or matched file that is not a doc.
pub fn collect_validate_errors(
    parse_errors: &Vec<String>,
    graph: &Graph,
    exists: &Vec<bool>,
    globs: &Vec<GlobOutcome>,
) -> (r: Vec<String>)
    requires
        exists@.len() == module_refs(graph.docs@).len(),
    ensures
        texts(r@) == validate_errors(texts(parse_errors@), graph.docs@, exists@, globs@),
{
    let mut errors: Vec<String> = Vec::new();
    let mut i: usize = 0;
    while i < parse_errors.len()
        invariant
            i <= parse_errors@.len(),
            texts(errors@) == texts(parse_errors@).take(i as int),
        decreases parse_errors@.len() - i,
    {
        let ghost eb = errors@;
        let e = owned(parse_errors[i].as_str());
        errors.push(e);
        assert(texts(errors@) =~= texts(eb).push(e@));
        assert(texts(errors@) =~= texts(parse_errors@).take(i + 1));
        i = i + 1;
    }
    assert(texts(parse_errors@).take(parse_errors@.len() as int) =~= texts(parse_errors@));
    push_missing_modules(&mut errors, graph, exists);
    let ghost mid = texts(errors@);
    let mut g: usize = 0;
    while g < globs.len()
        invariant
            g <= globs@.len(),
            texts(errors@) == mid + glob_msgs(graph.docs@, globs@.take(g as int)),
        decreases globs@.len() - g,
    {
        let ghost before = texts(errors@);
        match glob_error(&graph.docs, &globs[g]) {
            Some(m) => {
                errors.push(m);
                assert(texts(errors@) =~= before.push(m@));
            },
            None => {},
        }
        assert(globs@.take(g + 1).drop_last() =~= globs@.take(g as int));
        assert(globs@.take(g + 1).last() == globs@[g as int]);
        assert(texts(errors@) =~= mid + glob_msgs(graph.docs@, globs@.take(g + 1)));
        g = g + 1;
    }
    assert(globs@.take(globs@.len() as int) =~= globs@);
    errors
}

} // verus!
