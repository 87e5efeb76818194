//! Generated documents: the per-kind INDEX files, the global doc map and
//! the source-to-doc map, and the lines that list ids.
use vstd::prelude::*;

use crate::graph::Graph;
use crate::model::{Doc, DocClass, DocId, KindDef};
use crate::paths::{component_count, path_component_count, path_strip_prefix, strip_path_prefix};
use crate::text::{
    contains_text, decimal, decimal_string, has_at_line_start, join_seq, lemma_sorted_of, owned,
    push_str, sorted_insert, sorted_of, sorted_strict, splits_at_line, text_eq, text_set, texts,
    Textual,
};

verus! {

// ---------------------------------------------------------------------------
// Pieces
// ---------------------------------------------------------------------------

pub open spec fn or_empty(o: Option<String>) -> Seq<char> {
    match o {
        Some(s) => s@,
        None => Seq::empty(),
    }
}

pub fn or_empty_str(o: &Option<String>) -> (r: &str)
    ensures
        r@ == or_empty(*o),
{
    match o {
        Some(s) => s.as_str(),
        None => {
            let e = "";
            proof {
                reveal_strlit("");
            }
            e
        },
    }
}

pub open spec fn backtick(t: Seq<char>) -> Seq<char> {
    "`"@ + t + "`"@
}

pub open spec fn backticked(ids: Seq<DocId>) -> Seq<Seq<char>> {
    ids.map_values(|i: DocId| backtick(i.0@))
}

/// The ids, each in backticks, joined with `, `.
pub fn join_backticked(ids: &Vec<DocId>) -> (r: String)
    ensures
        r@ == join_seq(backticked(ids@), ", "@),
{
    let mut r = String::new();
    let mut i: usize = 0;
    while i < ids.len()
        invariant
            i <= ids@.len(),
            r@ == join_seq(backticked(ids@).take(i as int), ", "@),
        decreases ids@.len() - i,
    {
        if i > 0 {
            push_str(&mut r, ", ");
        }
        push_str(&mut r, "`");
        push_str(&mut r, ids[i].as_str());
        push_str(&mut r, "`");
        proof {
            let t = backticked(ids@);
            assert(t.take(i + 1).drop_last() =~= t.take(i as int));
            assert(t.take(i + 1).last() == t[i as int]);
            if i == 0 {
                assert(t.take(1) =~= seq![t[0]]);
                assert(r@ =~= t[0]);
            } else {
                assert(r@ =~= join_seq(t.take(i as int), ", "@) + ", "@ + t[i as int]);
            }
        }
        i = i + 1;
    }
    assert(backticked(ids@).take(ids@.len() as int) =~= backticked(ids@));
    r
}

// ---------------------------------------------------------------------------
// Per-kind INDEX files
// ---------------------------------------------------------------------------

pub open spec fn kind_table_header() -> Seq<char> {
    "| ID | Title | Implements | Depends on |\n|---|---|---|---|\n"@
}

pub open spec fn kind_row(d: Doc) -> Seq<char> {
    "| `"@ + d.id.0@ + "` | "@ + or_empty(d.title) + " | "@ + join_seq(
        backticked(d.implements@),
        ", "@,
    ) + " | "@ + join_seq(backticked(d.depends_on@), ", "@) + " |\n"@
}

/// Concatenation of `f` over `docs`.
pub open spec fn rows(docs: Seq<Doc>, f: spec_fn(Doc) -> Seq<char>) -> Seq<char>
    decreases docs.len(),
{
    if docs.len() == 0 {
        Seq::empty()
    } else {
        rows(docs.drop_last(), f) + f(docs.last())
    }
}

pub open spec fn refs_view(docs: Seq<&Doc>) -> Seq<Doc> {
    docs.map_values(|d: &Doc| *d)
}

/// The table of a per-kind INDEX: id, title, implements and depends on.
pub open spec fn kind_table(docs: Seq<Doc>) -> Seq<char> {
    kind_table_header() + rows(docs, |d: Doc| kind_row(d)) + "\n"@
}

fn kind_row_string(d: &Doc) -> (r: String)
    ensures
        r@ == kind_row(*d),
{
    let mut r = String::from_str("| `");
    push_str(&mut r, d.id.as_str());
    push_str(&mut r, "` | ");
    push_str(&mut r, or_empty_str(&d.title));
    push_str(&mut r, " | ");
    let a = join_backticked(&d.implements);
    push_str(&mut r, a.as_str());
    push_str(&mut r, " | ");
    let b = join_backticked(&d.depends_on);
    push_str(&mut r, b.as_str());
    push_str(&mut r, " |\n");
    r
}

/// Appends the table of a per-kind INDEX for `docs` to `out`.
pub fn emit_kind_table(out: &mut String, docs: &[&Doc])
    ensures
        final(out)@ == old(out)@ + kind_table(refs_view(docs@)),
{
    let ghost base = out@;
    push_str(out, "| ID | Title | Implements | Depends on |\n|---|---|---|---|\n");
    let ghost f = |d: Doc| kind_row(d);
    let mut i: usize = 0;
    while i < docs.len()
        invariant
            i <= docs@.len(),
            out@ == base + kind_table_header() + rows(refs_view(docs@).take(i as int), f),
            f == |d: Doc| kind_row(d),
        decreases docs@.len() - i,
    {
        let row = kind_row_string(docs[i]);
        push_str(out, row.as_str());
        proof {
            let v = refs_view(docs@);
            assert(v.take(i + 1).drop_last() =~= v.take(i as int));
            assert(v.take(i + 1).last() == v[i as int]);
            assert(out@ =~= base + kind_table_header() + rows(v.take(i + 1), f));
        }
        i = i + 1;
    }
    assert(refs_view(docs@).take(docs@.len() as int) =~= refs_view(docs@));
    push_str(out, "\n");
}

/// The docs of `docs` that satisfy `p`, in order.
pub open spec fn filter_docs(docs: Seq<Doc>, p: spec_fn(Doc) -> bool) -> Seq<Doc>
    decreases docs.len(),
{
    if docs.len() == 0 {
        Seq::empty()
    } else if p(docs.last()) {
        filter_docs(docs.drop_last(), p).push(docs.last())
    } else {
        filter_docs(docs.drop_last(), p)
    }
}

/// `d` is a hand-authored doc of the kind named `name`.
pub open spec fn is_of_kind(d: Doc, name: Seq<char>) -> bool {
    match d.class {
        DocClass::Regular(k) => k.0@ == name,
        DocClass::Index(_) => false,
    }
}

/// The group a doc falls in when an index is grouped by spec.
pub open spec fn spec_key(d: Doc) -> Seq<char> {
    match d.spec {
        Some(s) => s@,
        None => "(unspec'd)"@,
    }
}

pub open spec fn spec_keys(docs: Seq<Doc>) -> Set<Seq<char>> {
    Set::new(|k: Seq<char>| exists|i: int| 0 <= i < docs.len() && spec_key(#[trigger] docs[i]) == k)
}

/// One table per spec group, under a `## <spec>` heading, in key order.
pub open spec fn grouped_tables(keys: Seq<Seq<char>>, docs: Seq<Doc>) -> Seq<char>
    decreases keys.len(),
{
    if keys.len() == 0 {
        Seq::empty()
    } else {
        let k = keys.last();
        grouped_tables(keys.drop_last(), docs) + "## "@ + k + "\n\n"@ + kind_table(
            filter_docs(docs, |d: Doc| spec_key(d) == k),
        )
    }
}

pub open spec fn kind_index_header(name: Seq<char>) -> Seq<char> {
    "---\n"@ + "type: index\n"@ + "title: \""@ + name + " Index"@ + "\"\n"@ + "kusara:\n"@
        + "  id: index:"@ + name + "\n"@ + "  indexes_kind: "@ + name + "\n"@
        + "  generated: true\n"@ + "---\n\n"@ + "# "@ + name + " Index"@ + "\n\n"@
        + "Generated by `kusara index`. Do not edit by hand. Lists every `"@ + name
        + "` doc in this repository.\n\n"@
}

/// The per-kind INDEX of the kind `name` over `docs`: a table of its docs,
/// or, grouped by spec, one table per spec group in the order `keys`.
pub open spec fn kind_index_doc(
    name: Seq<char>,
    by_spec: bool,
    keys: Seq<Seq<char>>,
    docs: Seq<Doc>,
) -> Seq<char> {
    let of_kind = filter_docs(docs, |d: Doc| is_of_kind(d, name));
    kind_index_header(name) + if by_spec {
        grouped_tables(keys, of_kind)
    } else {
        kind_table(of_kind)
    }
}

/// When every row ends its line, each doc's row starts a line of the rows.
pub proof fn lemma_row_at_line_start(docs: Seq<Doc>, f: spec_fn(Doc) -> Seq<char>, i: int)
    requires
        0 <= i < docs.len(),
        forall|e: Doc| #[trigger] f(e).len() > 0 && f(e).last() == '\n',
    ensures
        has_at_line_start(rows(docs, f), f(docs[i])),
    decreases docs.len(),
{
    let rest = docs.drop_last();
    if i == docs.len() - 1 {
        let pre = rows(rest, f);
        if rest.len() > 0 {
            assert(f(rest.last()).len() > 0);
            assert(pre.last() == f(rest.last()).last());
        }
        assert(rows(docs, f) =~= pre + f(docs[i]) + Seq::<char>::empty());
        assert(splits_at_line(rows(docs, f), pre, f(docs[i]), Seq::empty()));
    } else {
        assert(rest[i] == docs[i]);
        lemma_row_at_line_start(rest, f, i);
        let (pre, suf) = choose|pre: Seq<char>, suf: Seq<char>|
            #[trigger] splits_at_line(rows(rest, f), pre, f(docs[i]), suf);
        let suf2 = suf + f(docs.last());
        assert(rows(docs, f) =~= pre + f(docs[i]) + suf2);
        assert(splits_at_line(rows(docs, f), pre, f(docs[i]), suf2));
    }
}

/// The tables of a per-kind INDEX over the docs `s`: one per spec group, or
/// one for all.
pub open spec fn index_tables(by_spec: bool, keys: Seq<Seq<char>>, s: Seq<Doc>) -> Seq<char> {
    if by_spec {
        grouped_tables(keys, s)
    } else {
        kind_table(s)
    }
}

/// The docs that `filter_docs` keeps are exactly those of `docs` that meet
/// `p`, in their order.
pub proof fn lemma_filter_docs_members(docs: Seq<Doc>, p: spec_fn(Doc) -> bool)
    ensures
        forall|d: Doc| #[trigger] filter_docs(docs, p).contains(d) <==> (docs.contains(d) && p(d)),
    decreases docs.len(),
{
    if docs.len() > 0 {
        let rest = docs.drop_last();
        lemma_filter_docs_members(rest, p);
        assert forall|d: Doc| #[trigger] filter_docs(docs, p).contains(d) <==> (docs.contains(d) && p(
            d,
        )) by {
            let f = filter_docs(docs, p);
            let fr = filter_docs(rest, p);
            if fr.contains(d) {
                let i = choose|i: int| 0 <= i < fr.len() && fr[i] == d;
                if p(docs.last()) {
                    assert(f[i] == d);
                }
                let j = choose|j: int| 0 <= j < rest.len() && rest[j] == d;
                assert(docs[j] == d);
            }
            if f.contains(d) && !fr.contains(d) {
                assert(p(docs.last()));
                let i = choose|i: int| 0 <= i < f.len() && f[i] == d;
                if i < fr.len() {
                    assert(fr[i] == d);
                }
                assert(d == docs.last());
                assert(docs[docs.len() - 1] == d);
            }
            if docs.contains(d) && p(d) {
                let j = choose|j: int| 0 <= j < docs.len() && docs[j] == d;
                if j < rest.len() {
                    assert(rest[j] == d);
                } else {
                    assert(f[f.len() - 1] == d);
                }
            }
        }
    }
}

/// The per-kind INDEX of `name` lists exactly the hand-authored docs of
/// that kind: its tables are made of docs each of which is a doc of `docs`
/// whose kind is `name`, and every such doc is among them.
pub proof fn lemma_kind_index_lists_only_its_kind(
    name: Seq<char>,
    by_spec: bool,
    keys: Seq<Seq<char>>,
    docs: Seq<Doc>,
)
    ensures
        exists|s: Seq<Doc>|
            (forall|d: Doc|
                s.contains(d) <==> (docs.contains(d) && (d.class matches DocClass::Regular(k)
                    && k.0@ == name))) && kind_index_doc(name, by_spec, keys, docs)
                == kind_index_header(name) + #[trigger] index_tables(by_spec, keys, s),
{
    let p = |d: Doc| is_of_kind(d, name);
    let s = filter_docs(docs, p);
    lemma_filter_docs_members(docs, p);
    assert forall|d: Doc|
        s.contains(d) <==> (docs.contains(d) && (d.class matches DocClass::Regular(k) && k.0@
            == name)) by {
        assert(s.contains(d) <==> (docs.contains(d) && p(d)));
    }
    assert(kind_index_doc(name, by_spec, keys, docs) == kind_index_header(name) + index_tables(
        by_spec,
        keys,
        s,
    ));
}

/// Whether the `group_by` setting selects grouping by spec.
pub open spec fn groups_by_spec(g: Option<String>) -> bool {
    match g {
        Some(s) => s@ == "spec"@,
        None => false,
    }
}

/// The docs of `docs` that are hand-authored docs of the kind `name`.
fn docs_of_kind<'a>(docs: &'a Vec<Doc>, name: &str) -> (r: Vec<&'a Doc>)
    ensures
        refs_view(r@) == filter_docs(docs@, |d: Doc| is_of_kind(d, name@)),
{
    let ghost p = |d: Doc| is_of_kind(d, name@);
    let mut r: Vec<&Doc> = Vec::new();
    let mut i: usize = 0;
    while i < docs.len()
        invariant
            i <= docs@.len(),
            p == |d: Doc| is_of_kind(d, name@),
            refs_view(r@) == filter_docs(docs@.take(i as int), p),
        decreases docs@.len() - i,
    {
        let d = &docs[i];
        let keep = match &d.class {
            DocClass::Regular(k) => text_eq(k.as_str(), name),
            DocClass::Index(_) => false,
        };
        proof {
            assert(docs@.take(i + 1).drop_last() =~= docs@.take(i as int));
            assert(docs@.take(i + 1).last() == docs@[i as int]);
        }
        if keep {
            r.push(d);
            assert(refs_view(r@) =~= filter_docs(docs@.take(i + 1), p));
        }
        i = i + 1;
    }
    assert(docs@.take(docs@.len() as int) =~= docs@);
    r
}

/// The group key of a doc when grouping by spec.
fn spec_key_string(d: &Doc) -> (r: String)
    ensures
        r@ == spec_key(*d),
{
    match &d.spec {
        Some(s) => owned(s.as_str()),
        None => String::from_str("(unspec'd)"),
    }
}

/// The docs of `docs` in the spec group `key`.
fn docs_with_spec<'a>(docs: &Vec<&'a Doc>, key: &str) -> (r: Vec<&'a Doc>)
    ensures
        refs_view(r@) == filter_docs(refs_view(docs@), |d: Doc| spec_key(d) == key@),
{
    let ghost p = |d: Doc| spec_key(d) == key@;
    let mut r: Vec<&Doc> = Vec::new();
    let mut i: usize = 0;
    while i < docs.len()
        invariant
            i <= docs@.len(),
            p == |d: Doc| spec_key(d) == key@,
            refs_view(r@) == filter_docs(refs_view(docs@).take(i as int), p),
        decreases docs@.len() - i,
    {
        let d = docs[i];
        let k = spec_key_string(d);
        proof {
            let v = refs_view(docs@);
            assert(v.take(i + 1).drop_last() =~= v.take(i as int));
            assert(v.take(i + 1).last() == v[i as int]);
        }
        if text_eq(k.as_str(), key) {
            r.push(d);
            assert(refs_view(r@) =~= filter_docs(refs_view(docs@).take(i + 1), p));
        }
        i = i + 1;
    }
    assert(refs_view(docs@).take(docs@.len() as int) =~= refs_view(docs@));
    r
}

/// The spec groups of `docs`, ordered.
fn spec_group_keys(docs: &Vec<&Doc>) -> (r: Vec<String>)
    ensures
        sorted_strict(texts(r@)),
        text_set(r@) == spec_keys(refs_view(docs@)),
{
    let ghost v = refs_view(docs@);
    let mut r: Vec<String> = Vec::new();
    let mut i: usize = 0;
    while i < docs.len()
        invariant
            i <= docs@.len(),
            v == refs_view(docs@),
            sorted_strict(texts(r@)),
            text_set(r@) == spec_keys(v.take(i as int)),
        decreases docs@.len() - i,
    {
        let k = spec_key_string(docs[i]);
        sorted_insert(&mut r, k);
        proof {
            assert forall|x: Seq<char>| #[trigger] spec_keys(v.take(i + 1)).contains(x) <==> (
            spec_keys(v.take(i as int)).contains(x) || x == spec_key(v[i as int])) by {
                if spec_keys(v.take(i + 1)).contains(x) {
                    let j = choose|j: int|
                        0 <= j < v.take(i + 1).len() && spec_key(#[trigger] v.take(i + 1)[j]) == x;
                    if j < i {
                        assert(v.take(i as int)[j] == v.take(i + 1)[j]);
                    }
                }
                if spec_keys(v.take(i as int)).contains(x) {
                    let j = choose|j: int|
                        0 <= j < v.take(i as int).len() && spec_key(#[trigger] v.take(i as int)[j])
                            == x;
                    assert(v.take(i + 1)[j] == v.take(i as int)[j]);
                }
                if x == spec_key(v[i as int]) {
                    assert(v.take(i + 1)[i as int] == v[i as int]);
                }
            }
            assert(text_set(r@) =~= spec_keys(v.take(i + 1)));
        }
        i = i + 1;
    }
    assert(v.take(docs@.len() as int) =~= v);
    r
}

fn kind_index_header_string(name: &str) -> (r: String)
    ensures
        r@ == kind_index_header(name@),
{
    let mut out = String::from_str("---\n");
    push_str(&mut out, "type: index\n");
    push_str(&mut out, "title: \"");
    push_str(&mut out, name);
    push_str(&mut out, " Index");
    push_str(&mut out, "\"\n");
    push_str(&mut out, "kusara:\n");
    push_str(&mut out, "  id: index:");
    push_str(&mut out, name);
    push_str(&mut out, "\n");
    push_str(&mut out, "  indexes_kind: ");
    push_str(&mut out, name);
    push_str(&mut out, "\n");
    push_str(&mut out, "  generated: true\n");
    push_str(&mut out, "---\n\n");
    push_str(&mut out, "# ");
    push_str(&mut out, name);
    push_str(&mut out, " Index");
    push_str(&mut out, "\n\n");
    push_str(&mut out, "Generated by `kusara index`. Do not edit by hand. Lists every `");
    push_str(&mut out, name);
    push_str(&mut out, "` doc in this repository.\n\n");
    out
}

/// The output path and the text of the per-kind INDEX of `kind`, when the
/// manifest asks for one.
pub fn kind_index(kind: &KindDef, graph: &Graph) -> (r: Option<(String, String)>)
    requires
        graph.wf(),
    ensures
        kind.index is None ==> r is None,
        kind.index matches Some(idx) ==> r matches Some((o, c)) && o@ == idx.output@ && c@
            == kind_index_doc(
            kind.name.0@,
            groups_by_spec(idx.group_by),
            sorted_of(spec_keys(filter_docs(graph.docs@, |d: Doc| is_of_kind(d, kind.name.0@)))),
            graph.docs@,
        ),
{
    let idx = match &kind.index {
        Some(idx) => idx,
        None => return None,
    };
    let name = kind.name.as_str();
    let docs = docs_of_kind(&graph.docs, name);
    let mut out = kind_index_header_string(name);
    let ghost of_kind = filter_docs(graph.docs@, |d: Doc| is_of_kind(d, name@));
    let by_spec = match &idx.group_by {
        Some(g) => text_eq(g.as_str(), "spec"),
        None => false,
    };
    let keys = spec_group_keys(&docs);
    if by_spec {
        let ghost h = out@;
        let mut i: usize = 0;
        while i < keys.len()
            invariant
                i <= keys@.len(),
                refs_view(docs@) == of_kind,
                out@ == h + grouped_tables(texts(keys@).take(i as int), of_kind),
            decreases keys@.len() - i,
        {
            push_str(&mut out, "## ");
            push_str(&mut out, keys[i].as_str());
            push_str(&mut out, "\n\n");
            let group = docs_with_spec(&docs, keys[i].as_str());
            emit_kind_table(&mut out, group.as_slice());
            proof {
                let t = texts(keys@);
                assert(t.take(i + 1).drop_last() =~= t.take(i as int));
                assert(t.take(i + 1).last() == t[i as int]);
                assert(out@ =~= h + grouped_tables(t.take(i + 1), of_kind));
            }
            i = i + 1;
        }
        assert(texts(keys@).take(keys@.len() as int) =~= texts(keys@));
    } else {
        emit_kind_table(&mut out, docs.as_slice());
    }
    let output = owned(idx.output.as_str());
    proof {
        lemma_sorted_of(texts(keys@));
        assert(texts(keys@) == sorted_of(spec_keys(of_kind)));
    }
    Some((output, out))
}

// ---------------------------------------------------------------------------
// The global doc map
// ---------------------------------------------------------------------------

/// `t` repeated `n` times.
pub open spec fn repeat(t: Seq<char>, n: nat) -> Seq<char>
    decreases n,
{
    if n == 0 {
        Seq::empty()
    } else {
        repeat(t, (n - 1) as nat) + t
    }
}

/// `rel_path` as a link from `doc_root`: with the `doc_root` prefix removed
/// when the path lies under it, otherwise with one `../` per component of
/// `doc_root` in front.
pub open spec fn doc_link_of(doc_root: Seq<char>, rel_path: Seq<char>) -> Seq<char> {
    match path_strip_prefix(rel_path, doc_root) {
        Some(s) => s,
        None => repeat("../"@, path_component_count(doc_root)) + rel_path,
    }
}

/// Returns `rel_path` rewritten relative to `doc_root` (where `map.md` lives).
pub fn doc_link(doc_root: &str, rel_path: &str) -> (r: String)
    ensures
        r@ == doc_link_of(doc_root@, rel_path@),
{
    if let Some(stripped) = strip_path_prefix(rel_path, doc_root) {
        return stripped;
    }
    let depth = component_count(doc_root);
    let mut up = String::new();
    let mut i: usize = 0;
    while i < depth
        invariant
            i <= depth,
            up@ == repeat("../"@, i as nat),
        decreases depth - i,
    {
        push_str(&mut up, "../");
        i = i + 1;
    }
    push_str(&mut up, rel_path);
    up
}

pub open spec fn in_map_group(d: Doc, k: Seq<char>) -> bool {
    !d.is_generated() && d.kind_text() == k
}

/// The kinds of the hand-authored docs.
pub open spec fn map_keys(docs: Seq<Doc>) -> Set<Seq<char>> {
    Set::new(
        |k: Seq<char>| exists|i: int| 0 <= i < docs.len() && in_map_group(#[trigger] docs[i], k),
    )
}

pub open spec fn map_row(doc_root: Seq<char>, d: Doc) -> Seq<char> {
    "| `"@ + d.id.0@ + "` | "@ + or_empty(d.title) + " | "@ + or_empty(d.spec) + " | ["@
        + d.rel_path@ + "]("@ + doc_link_of(doc_root, d.rel_path@) + ") |\n"@
}

pub open spec fn map_section(doc_root: Seq<char>, k: Seq<char>, group: Seq<Doc>) -> Seq<char> {
    "## "@ + k + " ("@ + decimal(group.len()) + ")\n\n"@
        + "| ID | Title | Spec | Path |\n|---|---|---|---|\n"@ + rows(
        group,
        |d: Doc| map_row(doc_root, d),
    ) + "\n"@
}

pub open spec fn map_sections(doc_root: Seq<char>, keys: Seq<Seq<char>>, docs: Seq<Doc>) -> Seq<
    char,
>
    decreases keys.len(),
{
    if keys.len() == 0 {
        Seq::empty()
    } else {
        let k = keys.last();
        map_sections(doc_root, keys.drop_last(), docs) + map_section(
            doc_root,
            k,
            filter_docs(docs, |d: Doc| in_map_group(d, k)),
        )
    }
}

pub open spec fn map_header() -> Seq<char> {
    "---\ntype: index\ntitle: \"Doc Map (all kinds)\"\nkusara:\n  id: index:map\n  generated: true\n---\n\n"@
        + "# Doc Map\n\n"@ + "Generated by `kusara index map`. Do not edit by hand.\n"@
        + "All docs across kinds. For per-kind indexes see the per-kind INDEX files; for AI consumption see [ai/graph.json](ai/graph.json).\n\n"@
}

/// The global map: one table per kind of hand-authored docs, kinds in the
/// order `keys`, docs in id order.
pub open spec fn map_doc(doc_root: Seq<char>, keys: Seq<Seq<char>>, docs: Seq<Doc>) -> Seq<char> {
    map_header() + map_sections(doc_root, keys, docs)
}

fn map_row_string(doc_root: &str, d: &Doc) -> (r: String)
    ensures
        r@ == map_row(doc_root@, *d),
{
    let mut r = String::from_str("| `");
    push_str(&mut r, d.id.as_str());
    push_str(&mut r, "` | ");
    push_str(&mut r, or_empty_str(&d.title));
    push_str(&mut r, " | ");
    push_str(&mut r, or_empty_str(&d.spec));
    push_str(&mut r, " | [");
    push_str(&mut r, d.rel_path.as_str());
    push_str(&mut r, "](");
    let link = doc_link(doc_root, d.rel_path.as_str());
    push_str(&mut r, link.as_str());
    push_str(&mut r, ") |\n");
    r
}

/// The kinds of the hand-authored docs, ordered.
fn map_group_keys(docs: &Vec<Doc>) -> (r: Vec<String>)
    ensures
        sorted_strict(texts(r@)),
        text_set(r@) == map_keys(docs@),
{
    let mut r: Vec<String> = Vec::new();
    let mut i: usize = 0;
    while i < docs.len()
        invariant
            i <= docs@.len(),
            sorted_strict(texts(r@)),
            text_set(r@) == map_keys(docs@.take(i as int)),
        decreases docs@.len() - i,
    {
        let d = &docs[i];
        let ghost v = docs@;
        if !d.generated() {
            let k = d.kind();
            sorted_insert(&mut r, owned(k.as_str()));
        }
        proof {
            assert forall|x: Seq<char>| #[trigger] map_keys(v.take(i + 1)).contains(x) <==> (
            map_keys(v.take(i as int)).contains(x) || in_map_group(v[i as int], x)) by {
                if map_keys(v.take(i + 1)).contains(x) {
                    let j = choose|j: int|
                        0 <= j < v.take(i + 1).len() && in_map_group(#[trigger] v.take(i + 1)[j], x);
                    if j < i {
                        assert(v.take(i as int)[j] == v.take(i + 1)[j]);
                    }
                }
                if map_keys(v.take(i as int)).contains(x) {
                    let j = choose|j: int|
                        0 <= j < v.take(i as int).len() && in_map_group(
                            #[trigger] v.take(i as int)[j],
                            x,
                        );
                    assert(v.take(i + 1)[j] == v.take(i as int)[j]);
                }
                if in_map_group(v[i as int], x) {
                    assert(v.take(i + 1)[i as int] == v[i as int]);
                }
            }
            assert(text_set(r@) =~= map_keys(v.take(i + 1)));
        }
        i = i + 1;
    }
    assert(docs@.take(docs@.len() as int) =~= docs@);
    r
}

/// The hand-authored docs of the kind `k`, in order.
fn map_group<'a>(docs: &'a Vec<Doc>, k: &str) -> (r: Vec<&'a Doc>)
    ensures
        refs_view(r@) == filter_docs(docs@, |d: Doc| in_map_group(d, k@)),
{
    let ghost p = |d: Doc| in_map_group(d, k@);
    let mut r: Vec<&Doc> = Vec::new();
    let mut i: usize = 0;
    while i < docs.len()
        invariant
            i <= docs@.len(),
            p == |d: Doc| in_map_group(d, k@),
            refs_view(r@) == filter_docs(docs@.take(i as int), p),
        decreases docs@.len() - i,
    {
        let d = &docs[i];
        let keep = !d.generated() && text_eq(d.kind().as_str(), k);
        proof {
            assert(docs@.take(i + 1).drop_last() =~= docs@.take(i as int));
            assert(docs@.take(i + 1).last() == docs@[i as int]);
        }
        if keep {
            r.push(d);
            assert(refs_view(r@) =~= filter_docs(docs@.take(i + 1), p));
        }
        i = i + 1;
    }
    assert(docs@.take(docs@.len() as int) =~= docs@);
    r
}

/// One section of the map: the hand-authored docs of the kind `k`.
fn map_section_string(docs: &Vec<Doc>, doc_root: &str, k: &str) -> (r: String)
    ensures
        r@ == map_section(doc_root@, k@, filter_docs(docs@, |d: Doc| in_map_group(d, k@))),
{
    let mut out = String::new();
    let group = map_group(&docs, k);
    push_str(&mut out, "## ");
    push_str(&mut out, k);
    push_str(&mut out, " (");
    let n = decimal_string(group.len() as u64);
    push_str(&mut out, n.as_str());
    push_str(&mut out, ")\n\n");
    push_str(&mut out, "| ID | Title | Spec | Path |\n|---|---|---|---|\n");
    let ghost base = out@;
    let ghost g = refs_view(group@);
    let ghost f = |d: Doc| map_row(doc_root@, d);
    let mut j: usize = 0;
    while j < group.len()
        invariant
            j <= group@.len(),
            g == refs_view(group@),
            f == |d: Doc| map_row(doc_root@, d),
            out@ == base + rows(g.take(j as int), f),
        decreases group@.len() - j,
    {
        let row = map_row_string(doc_root, group[j]);
        push_str(&mut out, row.as_str());
        proof {
            assert(g.take(j + 1).drop_last() =~= g.take(j as int));
            assert(g.take(j + 1).last() == g[j as int]);
            assert(out@ =~= base + rows(g.take(j + 1), f));
        }
        j = j + 1;
    }
    assert(g.take(group@.len() as int) =~= g);
    push_str(&mut out, "\n");
    assert(refs_view(group@).len() == group@.len());
    out
}

/// The text of `map.md`, the map of all hand-authored docs by kind.
pub fn map_content(graph: &Graph, doc_root: &str) -> (r: String)
    requires
        graph.wf(),
    ensures
        r@ == map_doc(doc_root@, sorted_of(map_keys(graph.docs@)), graph.docs@),
{
    let mut out = String::from_str(
        "---\ntype: index\ntitle: \"Doc Map (all kinds)\"\nkusara:\n  id: index:map\n  generated: true\n---\n\n",
    );
    push_str(&mut out, "# Doc Map\n\n");
    push_str(&mut out, "Generated by `kusara index map`. Do not edit by hand.\n");
    push_str(
        &mut out,
        "All docs across kinds. For per-kind indexes see the per-kind INDEX files; for AI consumption see [ai/graph.json](ai/graph.json).\n\n",
    );
    let keys = map_group_keys(&graph.docs);
    let ghost kt = texts(keys@);
    let mut i: usize = 0;
    while i < keys.len()
        invariant
            i <= keys@.len(),
            kt == texts(keys@),
            out@ == map_header() + map_sections(doc_root@, kt.take(i as int), graph.docs@),
        decreases keys@.len() - i,
    {
        let sec = map_section_string(&graph.docs, doc_root, keys[i].as_str());
        push_str(&mut out, sec.as_str());
        proof {
            assert(kt.take(i + 1).drop_last() =~= kt.take(i as int));
            assert(kt.take(i + 1).last() == kt[i as int]);
            assert(out@ =~= map_header() + map_sections(doc_root@, kt.take(i + 1), graph.docs@));
        }
        i = i + 1;
    }
    assert(kt.take(keys@.len() as int) =~= kt);
    proof {
        lemma_sorted_of(kt);
    }
    out
}

// ---------------------------------------------------------------------------
// Source -> doc map
// ---------------------------------------------------------------------------

/// One source path with the ids of the docs whose `modules:` name it.
#[derive(Debug)]
pub struct ModuleEntry {
    pub module: String,
    pub docs: Vec<DocId>,
}

impl Textual for ModuleEntry {
    open spec fn text(&self) -> Seq<char> {
        self.module@
    }

    fn as_text(&self) -> (r: &str) {
        self.module.as_str()
    }
}

pub open spec fn names_module(d: Doc, m: Seq<char>) -> bool {
    exists|j: int| 0 <= j < d.modules@.len() && (#[trigger] d.modules@[j])@ == m
}

/// Every `modules:` entry of every doc.
pub open spec fn module_keys(docs: Seq<Doc>) -> Set<Seq<char>> {
    Set::new(
        |m: Seq<char>| exists|i: int| 0 <= i < docs.len() && names_module(#[trigger] docs[i], m),
    )
}

/// The ids of the docs whose `modules:` name `m`.
pub open spec fn module_docs(docs: Seq<Doc>, m: Seq<char>) -> Set<Seq<char>> {
    Set::new(
        |id: Seq<char>|
            exists|i: int|
                0 <= i < docs.len() && (#[trigger] docs[i]).id.0@ == id && names_module(docs[i], m),
    )
}

fn doc_names_module(d: &Doc, m: &str) -> (r: bool)
    ensures
        r == names_module(*d, m@),
{
    let r = contains_text(&d.modules, m);
    proof {
        if r {
            let j = choose|j: int| 0 <= j < texts(d.modules@).len() && texts(d.modules@)[j] == m@;
            assert(d.modules@[j]@ == m@);
        }
        if names_module(*d, m@) {
            let j = choose|j: int| 0 <= j < d.modules@.len() && (#[trigger] d.modules@[j])@ == m@;
            assert(texts(d.modules@)[j] == m@);
        }
    }
    r
}

/// Every source path named in `modules:`, ordered, each with the ordered ids
/// of the docs that name it.
pub fn modules_index(graph: &Graph) -> (r: Vec<ModuleEntry>)
    ensures
        sorted_strict(texts(r@)),
        text_set(r@) == module_keys(graph.docs@),
        forall|k: int|
            0 <= k < r@.len() ==> sorted_strict(texts((#[trigger] r@[k]).docs@)) && text_set(
                r@[k].docs@,
            ) == module_docs(graph.docs@, r@[k].module@),
{
    let docs = &graph.docs;
    let ghost dv = docs@;
    let mut keys: Vec<String> = Vec::new();
    let mut i: usize = 0;
    while i < docs.len()
        invariant
            i <= dv.len(),
            dv == docs@,
            sorted_strict(texts(keys@)),
            text_set(keys@) == module_keys(dv.take(i as int)),
        decreases dv.len() - i,
    {
        let d = &docs[i];
        let mut j: usize = 0;
        let ghost k0 = text_set(keys@);
        while j < d.modules.len()
            invariant
                j <= d.modules@.len(),
                sorted_strict(texts(keys@)),
                text_set(keys@) == k0.union(texts(d.modules@).take(j as int).to_set()),
            decreases d.modules@.len() - j,
        {
            sorted_insert(&mut keys, owned(d.modules[j].as_str()));
            proof {
                crate::text::lemma_push_to_set(
                    texts(d.modules@).take(j as int),
                    texts(d.modules@)[j as int],
                );
                assert(texts(d.modules@).take(j + 1) =~= texts(d.modules@).take(j as int).push(
                    texts(d.modules@)[j as int],
                ));
            }
            j = j + 1;
        }
        proof {
            assert(texts(d.modules@).take(d.modules@.len() as int) =~= texts(d.modules@));
            assert forall|m: Seq<char>| #[trigger] module_keys(dv.take(i + 1)).contains(m) <==> (
            module_keys(dv.take(i as int)).contains(m) || names_module(dv[i as int], m)) by {
                if module_keys(dv.take(i + 1)).contains(m) {
                    let w = choose|w: int|
                        0 <= w < dv.take(i + 1).len() && names_module(
                            #[trigger] dv.take(i + 1)[w],
                            m,
                        );
                    if w < i {
                        assert(dv.take(i as int)[w] == dv.take(i + 1)[w]);
                    }
                }
                if module_keys(dv.take(i as int)).contains(m) {
                    let w = choose|w: int|
                        0 <= w < dv.take(i as int).len() && names_module(
                            #[trigger] dv.take(i as int)[w],
                            m,
                        );
                    assert(dv.take(i + 1)[w] == dv.take(i as int)[w]);
                }
                if names_module(dv[i as int], m) {
                    assert(dv.take(i + 1)[i as int] == dv[i as int]);
                }
            }
            assert forall|m: Seq<char>| texts(d.modules@).to_set().contains(m) <==> #[trigger] names_module(
                dv[i as int],
                m,
            ) by {
                if texts(d.modules@).to_set().contains(m) {
                    let j = choose|j: int| 0 <= j < texts(d.modules@).len() && texts(d.modules@)[j] == m;
                    assert(d.modules@[j]@ == m);
                }
                if names_module(dv[i as int], m) {
                    let j = choose|j: int| 0 <= j < d.modules@.len() && (#[trigger] d.modules@[j])@ == m;
                    assert(texts(d.modules@)[j] == m);
                }
            }
            assert(text_set(keys@) =~= module_keys(dv.take(i + 1)));
        }
        i = i + 1;
    }
    assert(dv.take(dv.len() as int) =~= dv);
    let mut out: Vec<ModuleEntry> = Vec::new();
    let mut k: usize = 0;
    while k < keys.len()
        invariant
            k <= keys@.len(),
            dv == docs@,
            out@.len() == k,
            forall|q: int| 0 <= q < k ==> (#[trigger] out@[q]).module@ == keys@[q]@,
            forall|q: int|
                0 <= q < k ==> sorted_strict(texts((#[trigger] out@[q]).docs@)) && text_set(
                    out@[q].docs@,
                ) == module_docs(dv, out@[q].module@),
        decreases keys@.len() - k,
    {
        let m = keys[k].as_str();
        let mut ids: Vec<DocId> = Vec::new();
        let mut i: usize = 0;
        while i < docs.len()
            invariant
                i <= dv.len(),
                dv == docs@,
                sorted_strict(texts(ids@)),
                text_set(ids@) == module_docs(dv.take(i as int), m@),
            decreases dv.len() - i,
        {
            let c = doc_names_module(&docs[i], m);
            if c {
                sorted_insert(&mut ids, docs[i].id.duplicate());
            }
            proof {
                assert forall|x: Seq<char>| #[trigger] module_docs(dv.take(i + 1), m@).contains(x)
                    <==> (module_docs(dv.take(i as int), m@).contains(x) || (c && x
                    == dv[i as int].id.0@)) by {
                    if module_docs(dv.take(i + 1), m@).contains(x) {
                        let w = choose|w: int|
                            0 <= w < dv.take(i + 1).len() && (#[trigger] dv.take(i + 1)[w]).id.0@
                                == x && names_module(dv.take(i + 1)[w], m@);
                        if w < i {
                            assert(dv.take(i as int)[w] == dv.take(i + 1)[w]);
                        }
                    }
                    if module_docs(dv.take(i as int), m@).contains(x) {
                        let w = choose|w: int|
                            0 <= w < dv.take(i as int).len() && (#[trigger] dv.take(
                                i as int,
                            )[w]).id.0@ == x && names_module(dv.take(i as int)[w], m@);
                        assert(dv.take(i + 1)[w] == dv.take(i as int)[w]);
                    }
                    if c && x == dv[i as int].id.0@ {
                        assert(dv.take(i + 1)[i as int] == dv[i as int]);
                    }
                }
                assert(text_set(ids@) =~= module_docs(dv.take(i + 1), m@));
            }
            i = i + 1;
        }
        assert(dv.take(dv.len() as int) =~= dv);
        out.push(ModuleEntry { module: owned(m), docs: ids });
        k = k + 1;
    }
    proof {
        assert(texts(out@) =~= texts(keys@));
    }
    out
}

pub open spec fn modules_header() -> Seq<char> {
    "---\ntype: index\ntitle: \"Source -> Doc Map\"\nkusara:\n  id: index:modules\n  generated: true\n---\n\n"@
        + "# Source -> Doc Map\n\n"@ + "Generated by `kusara index map`. Do not edit by hand.\n\n"@
        + "| Source path | Docs of record |\n|---|---|\n"@
}

pub open spec fn module_row(e: ModuleEntry) -> Seq<char> {
    "| `"@ + e.module@ + "` | "@ + join_seq(backticked(e.docs@), ", "@) + " |\n"@
}

pub open spec fn module_rows(es: Seq<ModuleEntry>) -> Seq<char>
    decreases es.len(),
{
    if es.len() == 0 {
        Seq::empty()
    } else {
        module_rows(es.drop_last()) + module_row(es.last())
    }
}

/// The text of `ai/modules.md`: each source path with its docs of record.
pub fn modules_content(entries: &Vec<ModuleEntry>) -> (r: String)
    ensures
        r@ == modules_header() + module_rows(entries@),
{
    let mut out = String::from_str(
        "---\ntype: index\ntitle: \"Source -> Doc Map\"\nkusara:\n  id: index:modules\n  generated: true\n---\n\n",
    );
    push_str(&mut out, "# Source -> Doc Map\n\n");
    push_str(&mut out, "Generated by `kusara index map`. Do not edit by hand.\n\n");
    push_str(&mut out, "| Source path | Docs of record |\n|---|---|\n");
    let mut i: usize = 0;
    while i < entries.len()
        invariant
            i <= entries@.len(),
            out@ == modules_header() + module_rows(entries@.take(i as int)),
        decreases entries@.len() - i,
    {
        let e = &entries[i];
        push_str(&mut out, "| `");
        push_str(&mut out, e.module.as_str());
        push_str(&mut out, "` | ");
        let cell = join_backticked(&e.docs);
        push_str(&mut out, cell.as_str());
        push_str(&mut out, " |\n");
        proof {
            assert(entries@.take(i + 1).drop_last() =~= entries@.take(i as int));
            assert(entries@.take(i + 1).last() == entries@[i as int]);
            assert(out@ =~= modules_header() + module_rows(entries@.take(i + 1)));
        }
        i = i + 1;
    }
    assert(entries@.take(entries@.len() as int) =~= entries@);
    out
}

// ---------------------------------------------------------------------------
// graph.json
// ---------------------------------------------------------------------------

/// Whether a list field is empty (such fields are left out of graph.json).
pub fn slice_is_empty<T>(s: &&[T]) -> (r: bool)
    ensures
        r == (s@.len() == 0),
{
    s.len() == 0
}

} // verus!
