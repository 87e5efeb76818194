//! What the read-only commands print: `list`, `show`, `impact`/`deps` and
//! `touched`, each as the exact text of its output.
use vstd::prelude::*;

use crate::graph::{doc_with_id, image_of, lemma_doc_with_id, Graph, Pair};
use crate::model::{Doc, DocId};
use crate::paths::{repo_relative, repo_relative_path};
use crate::render::or_empty;
use crate::text::{
    decimal, decimal_string, has_at_line_start, join_seq, splits_at_line, lemma_sorted_of, owned, pad_right, pad_right_string,
    push_char, push_str, sorted_insert, sorted_of, sorted_strict, text_set, texts, Textual,
};
use crate::traverse::{
    closure, docs_of_record, layer, record_ids, transitive_impact, traverse, unknown_ids, walk_rel,
    Direction, Layer, TraverseError,
};

verus! {

// ---------------------------------------------------------------------------
// Lines
// ---------------------------------------------------------------------------

/// One output line: the text and its newline.
pub open spec fn line(s: Seq<char>) -> Seq<char> {
    s.push('\n')
}

pub fn push_line(out: &mut String, s: &str)
    ensures
        final(out)@ == old(out)@ + line(s@),
{
    push_str(out, s);
    push_char(out, '\n');
    assert(old(out)@ + s@ + seq!['\n'] =~= old(out)@ + line(s@));
}

/// The doc that owns a known id.
pub open spec fn resolved(g: Graph, id: Seq<char>) -> Option<Doc> {
    if g.ids().contains_key(id) {
        Some(doc_with_id(g.docs@, g.ids()[id]))
    } else {
        None
    }
}

/// The doc that owns `id`, if `id` is known.
pub fn lookup<'a>(graph: &'a Graph, id: &str) -> (r: Option<&'a Doc>)
    requires
        graph.wf(),
    ensures
        match r {
            Some(d) => resolved(*graph, id@) == Some(*d),
            None => resolved(*graph, id@) is None,
        },
{
    let r = graph.resolve(id);
    proof {
        if let Some(d) = r {
            let i = choose|i: int| 0 <= i < graph.docs@.len() && graph.docs@[i] == *d;
            lemma_doc_with_id(graph.docs@, i);
        }
    }
    r
}

/// A known id padded to 40 columns and followed by its doc's title; an
/// unknown id alone.
pub open spec fn id_line_text(g: Graph, id: Seq<char>, indent: Seq<char>) -> Seq<char> {
    match resolved(g, id) {
        Some(d) => indent + pad_right(id, 40) + " "@ + or_empty(d.title),
        None => indent + id,
    }
}

pub fn id_line(graph: &Graph, id: &str, indent: &str) -> (r: String)
    requires
        graph.wf(),
    ensures
        r@ == id_line_text(*graph, id@, indent@),
{
    let mut r = owned(indent);
    match lookup(graph, id) {
        Some(d) => {
            let p = pad_right_string(id, 40);
            push_str(&mut r, p.as_str());
            push_str(&mut r, " ");
            match &d.title {
                Some(t) => push_str(&mut r, t.as_str()),
                None => {},
            }
        },
        None => push_str(&mut r, id),
    }
    r
}

/// One id line per id, in order.
pub open spec fn id_lines(g: Graph, ids: Seq<Seq<char>>, indent: Seq<char>) -> Seq<char>
    decreases ids.len(),
{
    if ids.len() == 0 {
        Seq::empty()
    } else {
        id_lines(g, ids.drop_last(), indent) + line(id_line_text(g, ids.last(), indent))
    }
}

pub fn push_id_lines(out: &mut String, graph: &Graph, ids: &Vec<DocId>, indent: &str)
    requires
        graph.wf(),
    ensures
        final(out)@ == old(out)@ + id_lines(*graph, texts(ids@), indent@),
{
    let mut i: usize = 0;
    while i < ids.len()
        invariant
            i <= ids@.len(),
            graph.wf(),
            out@ == old(out)@ + id_lines(*graph, texts(ids@).take(i as int), indent@),
        decreases ids@.len() - i,
    {
        let l = id_line(graph, ids[i].as_str(), indent);
        push_line(out, l.as_str());
        proof {
            let t = texts(ids@);
            assert(t.take(i + 1).drop_last() =~= t.take(i as int));
            assert(t.take(i + 1).last() == t[i as int]);
        }
        i = i + 1;
    }
    assert(texts(ids@).take(ids@.len() as int) =~= texts(ids@));
}

/// `label` and one `  - item` line per item; nothing for no items.
pub open spec fn item_lines(xs: Seq<Seq<char>>) -> Seq<char>
    decreases xs.len(),
{
    if xs.len() == 0 {
        Seq::empty()
    } else {
        item_lines(xs.drop_last()) + line("  - "@ + xs.last())
    }
}

pub open spec fn list_block(label: Seq<char>, xs: Seq<Seq<char>>) -> Seq<char> {
    if xs.len() == 0 {
        Seq::empty()
    } else {
        line(label) + item_lines(xs)
    }
}

pub fn push_list<T: Textual>(out: &mut String, label: &str, xs: &Vec<T>)
    ensures
        final(out)@ == old(out)@ + list_block(label@, texts(xs@)),
{
    if xs.len() == 0 {
        assert(old(out)@ + Seq::<char>::empty() =~= old(out)@);
        return ;
    }
    push_line(out, label);
    let ghost head = out@;
    let mut i: usize = 0;
    while i < xs.len()
        invariant
            i <= xs@.len(),
            out@ == head + item_lines(texts(xs@).take(i as int)),
        decreases xs@.len() - i,
    {
        let mut l = owned("  - ");
        push_str(&mut l, xs[i].as_text());
        push_line(out, l.as_str());
        proof {
            let t = texts(xs@);
            assert(t.take(i + 1).drop_last() =~= t.take(i as int));
            assert(t.take(i + 1).last() == t[i as int]);
        }
        i = i + 1;
    }
    assert(texts(xs@).take(xs@.len() as int) =~= texts(xs@));
}

// ---------------------------------------------------------------------------
// list
// ---------------------------------------------------------------------------

/// One line per known id in id order: the id padded to 40 columns, its
/// doc's kind padded to 14, and the doc's path.
pub open spec fn list_line(g: Graph, id: Seq<char>) -> Seq<char> {
    let d = doc_with_id(g.docs@, g.ids()[id]);
    line(pad_right(id, 40) + " "@ + pad_right(d.kind_text(), 14) + " "@ + d.rel_path@)
}

pub open spec fn list_lines_of(g: Graph, ids: Seq<Seq<char>>) -> Seq<char>
    decreases ids.len(),
{
    if ids.len() == 0 {
        Seq::empty()
    } else {
        list_lines_of(g, ids.drop_last()) + list_line(g, ids.last())
    }
}

/// The output of `list`: every known id (doc ids and `provides:` aliases).
pub open spec fn list_text(g: Graph) -> Seq<char> {
    list_lines_of(g, sorted_of(g.ids().dom()))
}

proof fn lemma_list_lines_end(g: Graph, ids: Seq<Seq<char>>)
    ensures
        list_lines_of(g, ids).len() == 0 || list_lines_of(g, ids).last() == '\n',
    decreases ids.len(),
{
    if ids.len() > 0 {
        lemma_list_lines_end(g, ids.drop_last());
    }
}

proof fn lemma_list_line_at(g: Graph, ids: Seq<Seq<char>>, i: int)
    requires
        0 <= i < ids.len(),
    ensures
        has_at_line_start(list_lines_of(g, ids), list_line(g, ids[i])),
    decreases ids.len(),
{
    let rest = ids.drop_last();
    if i == ids.len() - 1 {
        lemma_list_lines_end(g, rest);
        let pre = list_lines_of(g, rest);
        assert(list_lines_of(g, ids) =~= pre + list_line(g, ids[i]) + Seq::<char>::empty());
        assert(splits_at_line(list_lines_of(g, ids), pre, list_line(g, ids[i]), Seq::empty()));
    } else {
        lemma_list_line_at(g, rest, i);
        let (pre, suf) = choose|pre: Seq<char>, suf: Seq<char>|
            #[trigger] splits_at_line(list_lines_of(g, rest), pre, list_line(g, rest[i]), suf);
        assert(rest[i] == ids[i]);
        let suf2 = suf + list_line(g, ids.last());
        assert(list_lines_of(g, ids) =~= pre + list_line(g, ids[i]) + suf2);
        assert(splits_at_line(list_lines_of(g, ids), pre, list_line(g, ids[i]), suf2));
    }
}

/// `list` prints every known id, doc ids and `provides:` aliases alike: for
/// each, a line starting with the id padded to 40 columns, then the kind of
/// the doc that owns it padded to 14, then that doc's path.
pub proof fn lemma_list_shows_every_id(g: Graph, k: Seq<char>)
    requires
        g.wf(),
        g.ids().contains_key(k),
    ensures
        has_at_line_start(
            list_text(g),
            (pad_right(k, 40) + " "@ + pad_right(doc_with_id(g.docs@, g.ids()[k]).kind_text(), 14)
                + " "@ + doc_with_id(g.docs@, g.ids()[k]).rel_path@).push('\n'),
        ),
{
    crate::graph::lemma_ids_finite(g.id_to_doc@);
    let dom = g.ids().dom();
    crate::text::lemma_sorted_of_finite(dom);
    let ids = sorted_of(dom);
    assert(ids.to_set().contains(k));
    let i = choose|i: int| 0 <= i < ids.len() && ids[i] == k;
    lemma_list_line_at(g, ids, i);
}

/// The known ids, ordered.
pub fn known_ids(graph: &Graph) -> (r: Vec<DocId>)
    requires
        graph.wf(),
    ensures
        sorted_strict(texts(r@)),
        text_set(r@) == graph.ids().dom(),
{
    let mut r: Vec<DocId> = Vec::new();
    let mut i: usize = 0;
    while i < graph.id_to_doc.len()
        invariant
            i <= graph.id_to_doc@.len(),
            sorted_strict(texts(r@)),
            text_set(r@) == Set::new(
                |k: Seq<char>|
                    exists|j: int| 0 <= j < i && (#[trigger] graph.id_to_doc@[j]).0.0@ == k,
            ),
        decreases graph.id_to_doc@.len() - i,
    {
        let ghost before = text_set(r@);
        sorted_insert(&mut r, graph.id_to_doc[i].0.duplicate());
        proof {
            let k0 = graph.id_to_doc@[i as int].0.0@;
            assert forall|k: Seq<char>| #[trigger] text_set(r@).contains(k) <==> (exists|j: int|
                0 <= j < i + 1 && (#[trigger] graph.id_to_doc@[j]).0.0@ == k) by {
                if k == k0 {
                    assert(graph.id_to_doc@[i as int].0.0@ == k);
                }
                if exists|j: int| 0 <= j < i + 1 && (#[trigger] graph.id_to_doc@[j]).0.0@ == k {
                    let j = choose|j: int| 0 <= j < i + 1 && (#[trigger] graph.id_to_doc@[j]).0.0@ == k;
                    if j < i {
                        assert(before.contains(k));
                    }
                }
            }
            assert(text_set(r@) =~= Set::new(
                |k: Seq<char>|
                    exists|j: int| 0 <= j < i + 1 && (#[trigger] graph.id_to_doc@[j]).0.0@ == k,
            ));
        }
        i = i + 1;
    }
    assert(text_set(r@) =~= graph.ids().dom());
    r
}

/// The output of `list`.
pub fn list_output(graph: &Graph) -> (r: String)
    requires
        graph.wf(),
    ensures
        r@ == list_text(*graph),
{
    let ids = known_ids(graph);
    proof {
        lemma_sorted_of(texts(ids@));
    }
    let mut out = String::new();
    let mut i: usize = 0;
    while i < ids.len()
        invariant
            i <= ids@.len(),
            graph.wf(),
            text_set(ids@) == graph.ids().dom(),
            out@ == list_lines_of(*graph, texts(ids@).take(i as int)),
        decreases ids@.len() - i,
    {
        let id = ids[i].as_str();
        proof {
            assert(texts(ids@)[i as int] == id@);
            assert(graph.ids().dom().contains(id@));
        }
        match lookup(graph, id) {
            Some(d) => {
                let mut l = pad_right_string(id, 40);
                push_str(&mut l, " ");
                let k = d.kind();
                let kp = pad_right_string(k.as_str(), 14);
                push_str(&mut l, kp.as_str());
                push_str(&mut l, " ");
                push_str(&mut l, d.rel_path.as_str());
                push_line(&mut out, l.as_str());
            },
            None => {},
        }
        proof {
            let t = texts(ids@);
            assert(t.take(i + 1).drop_last() =~= t.take(i as int));
            assert(t.take(i + 1).last() == t[i as int]);
        }
        i = i + 1;
    }
    assert(texts(ids@).take(ids@.len() as int) =~= texts(ids@));
    out
}

// ---------------------------------------------------------------------------
// show
// ---------------------------------------------------------------------------

/// `label` and the value, for a value that is present.
pub open spec fn opt_line(label: Seq<char>, o: Option<String>) -> Seq<char> {
    match o {
        Some(s) => line(label + s@),
        None => Seq::empty(),
    }
}

fn push_opt_line(out: &mut String, label: &str, o: &Option<String>)
    ensures
        final(out)@ == old(out)@ + opt_line(label@, *o),
{
    match o {
        Some(s) => {
            let mut l = owned(label);
            push_str(&mut l, s.as_str());
            push_line(out, l.as_str());
        },
        None => {
            assert(old(out)@ + Seq::<char>::empty() =~= old(out)@);
        },
    }
}

/// The head of `show`: the doc id, the queried id when it is an alias, the
/// kind and, for a generated doc, the indexed kind.
pub open spec fn show_head(d: Doc, id: Seq<char>) -> Seq<char> {
    line("id:           "@ + d.id.0@) + (if d.id.0@ != id {
        line("queried:      "@ + id + "  (provided by "@ + d.id.0@ + ")"@)
    } else {
        Seq::empty()
    }) + line("kind:         "@ + d.kind_text()) + (if d.is_generated() {
        line("generated:    true"@) + match d.indexed_kind() {
            Some(k) => line("indexes_kind: "@ + k.0@),
            None => Seq::empty(),
        }
    } else {
        Seq::empty()
    })
}

/// The optional fields, the tags and the path.
pub open spec fn show_meta(d: Doc) -> Seq<char> {
    opt_line("spec:         "@, d.spec) + opt_line("title:        "@, d.title) + opt_line(
        "description:  "@,
        d.description,
    ) + opt_line("resource:     "@, d.resource) + (if d.tags@.len() > 0 {
        line("tags:         "@ + join_seq(texts(d.tags@), ", "@))
    } else {
        Seq::empty()
    }) + opt_line("timestamp:    "@, d.timestamp) + line("path:         "@ + d.rel_path@)
}

/// The fields of a doc, one per line, labels padded to one column.
pub open spec fn show_fields(d: Doc, id: Seq<char>) -> Seq<char> {
    show_head(d, id) + show_meta(d)
}

/// The doc's link lists, each only when not empty.
pub open spec fn show_lists(d: Doc) -> Seq<char> {
    list_block("provides:"@, texts(d.provides@)) + list_block("implements:"@, texts(d.implements@))
        + list_block("depends_on:"@, texts(d.depends_on@)) + list_block(
        "related:"@,
        texts(d.related@),
    ) + list_block("modules:"@, texts(d.modules@))
}

proof fn lemma_item_lines_concat(xs: Seq<Seq<char>>)
    ensures
        item_lines(xs) == crate::text::concat_seq(xs.map_values(|m: Seq<char>| ("  - "@ + m).push('\n'))),
        item_lines(xs).len() == 0 || item_lines(xs).last() == '\n',
        xs.len() > 0 ==> item_lines(xs).len() > 0,
    decreases xs.len(),
{
    let f = |m: Seq<char>| ("  - "@ + m).push('\n');
    if xs.len() > 0 {
        lemma_item_lines_concat(xs.drop_last());
        assert(xs.map_values(f).drop_last() =~= xs.drop_last().map_values(f));
        assert(xs.map_values(f).last() == f(xs.last()));
    } else {
        assert(xs.map_values(f) =~= Seq::<Seq<char>>::empty());
    }
}

/// A labelled list as `show` prints it: the label on its own line, then one
/// `  - <item>` line per item.
pub open spec fn labelled_items(label: Seq<char>, xs: Seq<Seq<char>>) -> Seq<char> {
    label.push('\n') + crate::text::concat_seq(
        xs.map_values(|m: Seq<char>| ("  - "@ + m).push('\n')),
    )
}

/// `show` prints each non-empty list of the doc (`provides:`,
/// `implements:`, `depends_on:`, `related:`, `modules:`) with all of its
/// entries, in order, each list starting a line.
/// Text made of a first line and five blocks that each are empty or end a
/// line, then a tail: each non-empty block starts a line.
#[verifier::rlimit(100)]
proof fn lemma_blocks_start_lines(
    f0: Seq<char>,
    b1: Seq<char>,
    b2: Seq<char>,
    b3: Seq<char>,
    b4: Seq<char>,
    b5: Seq<char>,
    suf: Seq<char>,
)
    requires
        f0.len() > 0 && f0.last() == '\n',
        b1.len() == 0 || b1.last() == '\n',
        b2.len() == 0 || b2.last() == '\n',
        b3.len() == 0 || b3.last() == '\n',
        b4.len() == 0 || b4.last() == '\n',
    ensures
        ({
            let t = f0 + ((((b1 + b2) + b3) + b4) + b5) + suf;
            &&& b1.len() > 0 ==> has_at_line_start(t, b1)
            &&& b2.len() > 0 ==> has_at_line_start(t, b2)
            &&& b3.len() > 0 ==> has_at_line_start(t, b3)
            &&& b4.len() > 0 ==> has_at_line_start(t, b4)
            &&& b5.len() > 0 ==> has_at_line_start(t, b5)
        }),
{
    let t = f0 + ((((b1 + b2) + b3) + b4) + b5) + suf;
    let p2 = f0 + b1;
    let p3 = p2 + b2;
    let p4 = p3 + b3;
    let p5 = p4 + b4;
    assert(p2.last() == '\n');
    assert(p3.last() == '\n');
    assert(p4.last() == '\n');
    assert(p5.last() == '\n');
    assert(t =~= f0 + b1 + (b2 + b3 + b4 + b5 + suf));
    assert(splits_at_line(t, f0, b1, b2 + b3 + b4 + b5 + suf));
    assert(t =~= p2 + b2 + (b3 + b4 + b5 + suf));
    assert(splits_at_line(t, p2, b2, b3 + b4 + b5 + suf));
    assert(t =~= p3 + b3 + (b4 + b5 + suf));
    assert(splits_at_line(t, p3, b3, b4 + b5 + suf));
    assert(t =~= p4 + b4 + (b5 + suf));
    assert(splits_at_line(t, p4, b4, b5 + suf));
    assert(t =~= p5 + b5 + suf);
    assert(splits_at_line(t, p5, b5, suf));
}

/// `show` prints each non-empty list of the doc (`provides:`,
/// `implements:`, `depends_on:`, `related:`, `modules:`) with all of its
/// entries, in order, each list starting a line.
pub proof fn lemma_show_lists_every_entry(g: Graph, id: Seq<char>)
    requires
        g.wf(),
        g.ids().contains_key(id),
    ensures
        ({
            let d = doc_with_id(g.docs@, g.ids()[id]);
            let t = show_text(g, id);
            &&& d.provides@.len() > 0 ==> has_at_line_start(
                t,
                labelled_items("provides:"@, texts(d.provides@)),
            )
            &&& d.implements@.len() > 0 ==> has_at_line_start(
                t,
                labelled_items("implements:"@, texts(d.implements@)),
            )
            &&& d.depends_on@.len() > 0 ==> has_at_line_start(
                t,
                labelled_items("depends_on:"@, texts(d.depends_on@)),
            )
            &&& d.related@.len() > 0 ==> has_at_line_start(
                t,
                labelled_items("related:"@, texts(d.related@)),
            )
            &&& d.modules@.len() > 0 ==> has_at_line_start(
                t,
                labelled_items("modules:"@, texts(d.modules@)),
            )
        }),
{
    let d = doc_with_id(g.docs@, g.ids()[id]);
    let x1 = texts(d.provides@);
    let x2 = texts(d.implements@);
    let x3 = texts(d.depends_on@);
    let x4 = texts(d.related@);
    let x5 = texts(d.modules@);
    lemma_labelled(x1, "provides:"@);
    lemma_labelled(x2, "implements:"@);
    lemma_labelled(x3, "depends_on:"@);
    lemma_labelled(x4, "related:"@);
    lemma_labelled(x5, "modules:"@);
    lemma_show_fields_end(d, id);
    lemma_blocks_start_lines(
        show_fields(d, id),
        list_block("provides:"@, x1),
        list_block("implements:"@, x2),
        list_block("depends_on:"@, x3),
        list_block("related:"@, x4),
        list_block("modules:"@, x5),
        show_links(g, d),
    );
}

proof fn lemma_show_fields_end(d: Doc, id: Seq<char>)
    ensures
        show_fields(d, id).len() > 0 && show_fields(d, id).last() == '\n',
{
}

proof fn lemma_labelled(xs: Seq<Seq<char>>, label: Seq<char>)
    ensures
        list_block(label, xs).len() == 0 || list_block(label, xs).last() == '\n',
        list_block(label, xs).len() > 0 <==> xs.len() > 0,
        xs.len() > 0 ==> list_block(label, xs) == labelled_items(label, xs),
{
    lemma_item_lines_concat(xs);
}

/// The id lines of `ids`, or `  (none)`.
pub open spec fn linked_block(g: Graph, ids: Seq<Seq<char>>) -> Seq<char> {
    if ids.len() == 0 {
        line("  (none)"@)
    } else {
        id_lines(g, ids, "  "@)
    }
}

/// Who depends on the doc (hard edges), then who mentions it (soft edges),
/// each ordered by id.
pub open spec fn show_links(g: Graph, d: Doc) -> Seq<char> {
    line(Seq::empty()) + line("Direct impact (hard, who depends on this doc):"@) + linked_block(
        g,
        sorted_of(image_of(g.reverse.rel(), d.id.0@)),
    ) + line(Seq::empty()) + line("Soft mentions (related: from other docs):"@) + linked_block(
        g,
        sorted_of(image_of(g.related_reverse.rel(), d.id.0@)),
    )
}

/// The output of `show` for the known id `id`.
pub open spec fn show_text(g: Graph, id: Seq<char>) -> Seq<char> {
    let d = doc_with_id(g.docs@, g.ids()[id]);
    show_fields(d, id) + show_lists(d) + show_links(g, d)
}

fn push_show_head(out: &mut String, d: &Doc, id: &str)
    ensures
        final(out)@ == old(out)@ + show_head(*d, id@),
{
    let ghost o = out@;
    let mut l = owned("id:           ");
    push_str(&mut l, d.id.as_str());
    push_line(out, l.as_str());
    let ghost a = out@;
    if !crate::text::text_eq(d.id.as_str(), id) {
        let mut q = owned("queried:      ");
        push_str(&mut q, id);
        push_str(&mut q, "  (provided by ");
        push_str(&mut q, d.id.as_str());
        push_str(&mut q, ")");
        push_line(out, q.as_str());
    }
    let ghost b = out@;
    assert(b =~= a + (if d.id.0@ != id@ {
        line("queried:      "@ + id@ + "  (provided by "@ + d.id.0@ + ")"@)
    } else {
        Seq::empty()
    }));
    let k = d.kind();
    let mut kl = owned("kind:         ");
    push_str(&mut kl, k.as_str());
    push_line(out, kl.as_str());
    let ghost c = out@;
    if d.generated() {
        push_line(out, "generated:    true");
        match d.indexes_kind() {
            Some(ik) => {
                let mut il = owned("indexes_kind: ");
                push_str(&mut il, ik.as_str());
                push_line(out, il.as_str());
            },
            None => {},
        }
    }
    assert(out@ =~= c + (if d.is_generated() {
        line("generated:    true"@) + match d.indexed_kind() {
            Some(k) => line("indexes_kind: "@ + k.0@),
            None => Seq::empty(),
        }
    } else {
        Seq::empty()
    }));
    assert(out@ =~= o + show_head(*d, id@));
}

fn push_show_meta(out: &mut String, d: &Doc)
    ensures
        final(out)@ == old(out)@ + show_meta(*d),
{
    let ghost o = out@;
    push_opt_line(out, "spec:         ", &d.spec);
    push_opt_line(out, "title:        ", &d.title);
    push_opt_line(out, "description:  ", &d.description);
    push_opt_line(out, "resource:     ", &d.resource);
    let ghost f = out@;
    if d.tags.len() > 0 {
        let mut tl = owned("tags:         ");
        let j = crate::text::join_texts(&d.tags, ", ");
        push_str(&mut tl, j.as_str());
        push_line(out, tl.as_str());
    }
    let ghost g = out@;
    assert(g =~= f + (if d.tags@.len() > 0 {
        line("tags:         "@ + join_seq(texts(d.tags@), ", "@))
    } else {
        Seq::empty()
    }));
    push_opt_line(out, "timestamp:    ", &d.timestamp);
    let mut pl = owned("path:         ");
    push_str(&mut pl, d.rel_path.as_str());
    push_line(out, pl.as_str());
    assert(out@ =~= o + show_meta(*d));
}

fn push_show_links(out: &mut String, graph: &Graph, d: &Doc)
    requires
        graph.wf(),
    ensures
        final(out)@ == old(out)@ + show_links(*graph, *d),
{
    let ghost o = out@;
    proof {
        reveal_strlit("");
    }
    push_line(out, "");
    push_line(out, "Direct impact (hard, who depends on this doc):");
    let ghost o2 = out@;
    let rev = graph.reverse.get(d.id.as_str());
    proof {
        lemma_sorted_of(texts(rev@));
        assert(sorted_of(image_of(graph.reverse.rel(), d.id.0@)) == texts(rev@));
    }
    push_linked(out, graph, &rev);
    let ghost a = out@;
    push_line(out, "");
    push_line(out, "Soft mentions (related: from other docs):");
    let ghost a2 = out@;
    let soft = graph.related_reverse.get(d.id.as_str());
    proof {
        lemma_sorted_of(texts(soft@));
        assert(sorted_of(image_of(graph.related_reverse.rel(), d.id.0@)) == texts(soft@));
    }
    push_linked(out, graph, &soft);
    let ghost ids1 = sorted_of(image_of(graph.reverse.rel(), d.id.0@));
    let ghost ids2 = sorted_of(image_of(graph.related_reverse.rel(), d.id.0@));
    assert(a == o2 + linked_block(*graph, ids1));
    assert(out@ == a2 + linked_block(*graph, ids2));
    assert(o2 =~= o + line(Seq::empty()) + line("Direct impact (hard, who depends on this doc):"@));
    assert(a2 =~= a + line(Seq::empty()) + line("Soft mentions (related: from other docs):"@));
    assert(out@ =~= o + show_links(*graph, *d));
}

fn push_linked(out: &mut String, graph: &Graph, ids: &Vec<DocId>)
    requires
        graph.wf(),
    ensures
        final(out)@ == old(out)@ + linked_block(*graph, texts(ids@)),
{
    if ids.len() == 0 {
        push_line(out, "  (none)");
    } else {
        push_id_lines(out, graph, ids, "  ");
    }
}

/// The output of `show`: the fields and link lists of the doc that owns
/// `id`, then the docs that depend on it and those that mention it; an
/// unknown id is an error.
pub fn show_output(graph: &Graph, id: &str) -> (r: Result<String, String>)
    requires
        graph.wf(),
    ensures
        match r {
            Ok(s) => graph.ids().contains_key(id@) && s@ == show_text(*graph, id@),
            Err(m) => !graph.ids().contains_key(id@) && m@ == "unknown id `"@ + id@ + "`"@,
        },
{
    match lookup(graph, id) {
        None => {
            let mut m = owned("unknown id `");
            push_str(&mut m, id);
            push_str(&mut m, "`");
            Err(m)
        },
        Some(d) => {
            let mut out = String::new();
            push_show_head(&mut out, d, id);
            push_show_meta(&mut out, d);
            let ghost a = out@;
            push_list(&mut out, "provides:", &d.provides);
            push_list(&mut out, "implements:", &d.implements);
            push_list(&mut out, "depends_on:", &d.depends_on);
            push_list(&mut out, "related:", &d.related);
            push_list(&mut out, "modules:", &d.modules);
            let ghost b = out@;
            push_show_links(&mut out, graph, d);
            proof {
                assert(b =~= a + show_lists(*d));
                assert(out@ =~= show_text(*graph, id@));
            }
            Ok(out)
        },
    }
}

// ---------------------------------------------------------------------------
// impact / deps
// ---------------------------------------------------------------------------

/// One `  text` line per item.
pub open spec fn indented_lines(xs: Seq<Seq<char>>) -> Seq<char>
    decreases xs.len(),
{
    if xs.len() == 0 {
        Seq::empty()
    } else {
        indented_lines(xs.drop_last()) + line("  "@ + xs.last())
    }
}

pub fn push_indented<T: Textual>(out: &mut String, xs: &Vec<T>)
    ensures
        final(out)@ == old(out)@ + indented_lines(texts(xs@)),
{
    let mut i: usize = 0;
    while i < xs.len()
        invariant
            i <= xs@.len(),
            out@ == old(out)@ + indented_lines(texts(xs@).take(i as int)),
        decreases xs@.len() - i,
    {
        let mut l = owned("  ");
        push_str(&mut l, xs[i].as_text());
        push_line(out, l.as_str());
        proof {
            let t = texts(xs@);
            assert(t.take(i + 1).drop_last() =~= t.take(i as int));
            assert(t.take(i + 1).last() == t[i as int]);
        }
        i = i + 1;
    }
    assert(texts(xs@).take(xs@.len() as int) =~= texts(xs@));
}

/// What a walk prints before its layers: the direction, the given ids and
/// whether soft edges are followed.
pub open spec fn walk_header(ids: Seq<Seq<char>>, dir: Direction, include_related: bool) -> Seq<
    char,
> {
    line(
        match dir {
            Direction::Forward => "Affected by changes to:"@,
            Direction::Reverse => "Dependencies of:"@,
        },
    ) + indented_lines(ids) + (if include_related {
        line("(including soft `related:` edges)"@)
    } else {
        Seq::empty()
    }) + line(Seq::empty())
}

/// The layers at distances `i..=depth`, each headed by its distance, up to
/// the first empty one.
pub open spec fn layers_from(
    g: Graph,
    rel: Set<Pair>,
    seeds: Set<Seq<char>>,
    depth: nat,
    i: nat,
) -> Seq<char>
    decreases depth + 1 - i,
{
    if i > depth || layer(rel, seeds, i).is_empty() {
        Seq::empty()
    } else {
        line("depth "@ + decimal(i) + ":"@) + id_lines(g, sorted_of(layer(rel, seeds, i)), "  "@)
            + layers_from(g, rel, seeds, depth, i + 1)
    }
}

/// The layers of a walk, or `(none)` when nothing is within reach.
pub open spec fn walk_body(g: Graph, rel: Set<Pair>, seeds: Set<Seq<char>>, depth: nat) -> Seq<
    char,
> {
    if depth == 0 || layer(rel, seeds, 1).is_empty() {
        line("(none)"@)
    } else {
        layers_from(g, rel, seeds, depth, 1)
    }
}

/// The output of `impact` (`Forward`) or `deps` (`Reverse`).
pub open spec fn walk_text(
    g: Graph,
    ids: Seq<String>,
    depth: nat,
    dir: Direction,
    include_related: bool,
) -> Seq<char> {
    walk_header(texts(ids), dir, include_related) + walk_body(
        g,
        walk_rel(g, dir, include_related),
        text_set(ids),
        depth,
    )
}

fn push_layer(out: &mut String, graph: &Graph, l: &Layer)
    requires
        graph.wf(),
    ensures
        final(out)@ == old(out)@ + line("depth "@ + decimal(l.depth as nat) + ":"@) + id_lines(
            *graph,
            texts(l.ids@),
            "  "@,
        ),
{
    let mut h = owned("depth ");
    let n = decimal_string(l.depth as u64);
    push_str(&mut h, n.as_str());
    push_str(&mut h, ":");
    push_line(out, h.as_str());
    push_id_lines(out, graph, &l.ids, "  ");
}

/// The output of `impact`/`deps` for the given ids: the header, then the
/// ids at each distance `1..=depth` (stopping at the first empty distance),
/// or `(none)`. An empty or unknown id list is an error, as for `traverse`.
pub fn walk_output(
    graph: &Graph,
    ids: &Vec<String>,
    depth: u32,
    dir: Direction,
    include_related: bool,
) -> (r: Result<String, TraverseError>)
    requires
        graph.wf(),
    ensures
        ids@.len() == 0 ==> r matches Err(TraverseError::NoIds),
        ids@.len() > 0 && unknown_ids(ids@, graph.ids()).len() > 0 ==> (r matches Err(
            TraverseError::UnknownIds(u),
        ) && texts(u@) == unknown_ids(ids@, graph.ids())),
        ids@.len() > 0 && unknown_ids(ids@, graph.ids()).len() == 0 ==> (r matches Ok(s) && s@
            == walk_text(*graph, ids@, depth as nat, dir, include_related)),
{
    let ls = match traverse(graph, ids, depth, dir, include_related) {
        Ok(ls) => ls,
        Err(e) => return Err(e),
    };
    let ghost rel = walk_rel(*graph, dir, include_related);
    let ghost seeds = text_set(ids@);
    let ghost m = ls@.len();
    let mut out = String::new();
    match dir {
        Direction::Forward => push_line(&mut out, "Affected by changes to:"),
        Direction::Reverse => push_line(&mut out, "Dependencies of:"),
    }
    push_indented(&mut out, ids);
    if include_related {
        push_line(&mut out, "(including soft `related:` edges)");
    }
    proof {
        reveal_strlit("");
    }
    push_line(&mut out, "");
    let ghost head = out@;
    assert(head =~= walk_header(texts(ids@), dir, include_related));
    if ls.len() == 0 {
        push_line(&mut out, "(none)");
        proof {
            if depth > 0 {
                assert(layer(rel, seeds, 1).is_empty());
            }
        }
        return Ok(out);
    }
    let mut q: usize = 0;
    while q < ls.len()
        invariant
            q <= ls@.len(),
            m == ls@.len(),
            graph.wf(),
            0 < m <= depth,
            forall|i: int|
                0 <= i < m ==> (#[trigger] ls@[i]).depth == i + 1 && sorted_strict(
                    texts(ls@[i].ids@),
                ) && text_set(ls@[i].ids@) == layer(rel, seeds, (i + 1) as nat) && ls@[i].ids@.len()
                    > 0,
            out@ + layers_from(*graph, rel, seeds, depth as nat, (q + 1) as nat) == head
                + layers_from(*graph, rel, seeds, depth as nat, 1),
        decreases ls@.len() - q,
    {
        let ghost before = out@;
        push_layer(&mut out, graph, &ls[q]);
        proof {
            let l = ls@[q as int];
            lemma_sorted_of(texts(l.ids@));
            assert(texts(l.ids@).to_set() == layer(rel, seeds, (q + 1) as nat));
            assert(texts(l.ids@).len() > 0);
            assert(texts(l.ids@)[0] == l.ids@[0].0@);
            assert(layer(rel, seeds, (q + 1) as nat).contains(texts(l.ids@)[0]));
            assert(layers_from(*graph, rel, seeds, depth as nat, (q + 1) as nat) == line(
                "depth "@ + decimal((q + 1) as nat) + ":"@,
            ) + id_lines(*graph, sorted_of(layer(rel, seeds, (q + 1) as nat)), "  "@)
                + layers_from(*graph, rel, seeds, depth as nat, (q + 2) as nat));
            assert(out@ + layers_from(*graph, rel, seeds, depth as nat, (q + 2) as nat) =~= before
                + layers_from(*graph, rel, seeds, depth as nat, (q + 1) as nat));
        }
        q = q + 1;
    }
    proof {
        assert(layers_from(*graph, rel, seeds, depth as nat, (m + 1) as nat) =~= Seq::empty());
        assert(out@ =~= head + layers_from(*graph, rel, seeds, depth as nat, 1));
        let l0 = ls@[0];
        assert(texts(l0.ids@)[0] == l0.ids@[0].0@);
        assert(layer(rel, seeds, 1).contains(texts(l0.ids@)[0]));
    }
    Ok(out)
}

// ---------------------------------------------------------------------------
// touched
// ---------------------------------------------------------------------------

/// The repo-relative form of each file argument.
pub open spec fn touched_files_of(root: Seq<char>, files: Seq<String>) -> Seq<Seq<char>> {
    files.map_values(|f: String| repo_relative(root, f@))
}

pub fn touched_files(root: &str, files: &Vec<String>) -> (r: Vec<String>)
    ensures
        texts(r@) == touched_files_of(root@, files@),
{
    let mut r: Vec<String> = Vec::new();
    let mut i: usize = 0;
    while i < files.len()
        invariant
            i <= files@.len(),
            texts(r@) == touched_files_of(root@, files@.take(i as int)),
        decreases files@.len() - i,
    {
        r.push(repo_relative_path(root, files[i].as_str()));
        assert(touched_files_of(root@, files@.take(i + 1)) =~= touched_files_of(
            root@,
            files@.take(i as int),
        ).push(repo_relative(root@, files@[i as int]@)));
        assert(texts(r@) =~= touched_files_of(root@, files@.take(i + 1)));
        i = i + 1;
    }
    assert(files@.take(files@.len() as int) =~= files@);
    r
}

/// What `touched` prints for the repo-relative files `rel`: the files, the
/// docs of record, and unless `no_closure` the docs transitively affected.
pub open spec fn touched_text(g: Graph, rel: Seq<Seq<char>>, no_closure: bool) -> Seq<char> {
    let hits = record_ids(g.docs@, rel);
    let indirect = closure(g.reverse.rel(), hits).difference(hits);
    line("Files:"@) + indented_lines(rel) + line(Seq::empty()) + if hits.is_empty() {
        line("No docs claim these files in `modules:`."@)
    } else {
        line("Docs of record (modules: covers these files):"@) + id_lines(
            g,
            sorted_of(hits),
            "  "@,
        ) + if no_closure || indirect.is_empty() {
            Seq::empty()
        } else {
            line(Seq::empty()) + line("Transitively affected:"@) + id_lines(
                g,
                sorted_of(indirect),
                "  "@,
            )
        }
    }
}

/// The output of `touched` for the file arguments `files`; no file is an
/// error.
pub fn touched_output(graph: &Graph, root: &str, files: &Vec<String>, no_closure: bool) -> (r:
    Result<String, String>)
    requires
        graph.wf(),
    ensures
        files@.len() == 0 <==> r is Err,
        r matches Err(m) ==> m@ == "at least one file is required"@,
        r matches Ok(s) ==> s@ == touched_text(*graph, touched_files_of(root@, files@), no_closure),
{
    if files.len() == 0 {
        return Err(owned("at least one file is required"));
    }
    let rel = touched_files(root, files);
    let mut out = String::new();
    push_line(&mut out, "Files:");
    push_indented(&mut out, &rel);
    proof {
        reveal_strlit("");
    }
    push_line(&mut out, "");
    let ghost head = out@;
    let ghost hits_set = record_ids(graph.docs@, texts(rel@));
    let hits = docs_of_record(graph, &rel);
    proof {
        lemma_sorted_of(texts(hits@));
    }
    if hits.len() == 0 {
        push_line(&mut out, "No docs claim these files in `modules:`.");
        assert(hits_set =~= Set::empty());
        assert(out@ =~= touched_text(*graph, texts(rel@), no_closure));
        return Ok(out);
    }
    proof {
        assert(texts(hits@)[0] == hits@[0].0@);
        assert(hits_set.contains(texts(hits@)[0]));
    }
    push_line(&mut out, "Docs of record (modules: covers these files):");
    push_id_lines(&mut out, graph, &hits, "  ");
    let ghost mid = out@;
    let ghost ind_set = closure(graph.reverse.rel(), hits_set).difference(hits_set);
    assert(!hits_set.is_empty());
    assert(sorted_of(hits_set) == texts(hits@));
    assert(mid =~= head + line("Docs of record (modules: covers these files):"@) + id_lines(
        *graph,
        sorted_of(hits_set),
        "  "@,
    ));
    if !no_closure {
        let indirect = transitive_impact(graph, &hits);
        proof {
            lemma_sorted_of(texts(indirect@));
            assert(text_set(indirect@) == ind_set);
            assert(sorted_of(ind_set) == texts(indirect@));
        }
        if indirect.len() > 0 {
            push_line(&mut out, "");
            push_line(&mut out, "Transitively affected:");
            push_id_lines(&mut out, graph, &indirect, "  ");
            proof {
                assert(texts(indirect@)[0] == indirect@[0].0@);
                assert(ind_set.contains(texts(indirect@)[0]));
                assert(out@ =~= mid + line(Seq::empty()) + line("Transitively affected:"@)
                    + id_lines(*graph, sorted_of(ind_set), "  "@));
            }
        } else {
            assert(ind_set =~= Set::empty());
            assert(out@ =~= mid + Seq::<char>::empty());
        }
    } else {
        assert(out@ =~= mid + Seq::<char>::empty());
    }
    assert(out@ =~= touched_text(*graph, texts(rel@), no_closure));
    Ok(out)
}

} // verus!
