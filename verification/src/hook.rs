//! The end-of-turn hook: where a session's edit journal lives, and the
//! advisory message about the docs that this turn's edits concern.
use vstd::prelude::*;

use crate::graph::{pair_views, Graph};
use crate::model::{Doc, DocId};
use crate::paths::{
    covers, has_parent_dir, is_absolute_path, join_path, module_covers, normalize_separators,
    normalized, path_components, path_is_absolute, path_join, path_strip_prefix, strip_path_prefix,
};
use crate::render::{filter_docs, refs_view, rows};
use crate::text::{
    contains_text, decimal, decimal_string, hex16, hex_char, hex_fixed, join_seq, join_texts,
    lemma_push_to_set, lemma_sorted_of, owned, push_char, push_str, sorted_insert, sorted_of,
    sorted_strict, string_of_chars, text_set, texts, trim_ws, trimmed, has_at_line_start,
    lemma_sorted_of_finite, splits_at_line,
};

verus! {

// ---------------------------------------------------------------------------
// Journal path
// ---------------------------------------------------------------------------

/// What hashing the path `root` with `DefaultHasher::new()` gives.
pub uninterp spec fn path_hash(root: Seq<char>) -> u64;

/// `Hash::hash` of `std::path::Path::new(root)` into a fresh
/// `DefaultHasher::new()`, then `Hasher::finish`. Trusted: the result is what
/// `path_hash` names for `root`. `DefaultHasher::new` is not seeded per
/// process, so one build gives one value per path; its algorithm is not
/// specified across Rust releases, and nothing more is claimed of it.
#[verifier::external_body]
fn hash_root(root: &str) -> (r: u64)
    ensures
        r == path_hash(root@),
{
    let mut h = std::collections::hash_map::DefaultHasher::new();
    std::hash::Hash::hash(std::path::Path::new(root), &mut h);
    std::hash::Hasher::finish(&h)
}

pub open spec fn session_char(c: char) -> char {
    if ('a' <= c && c <= 'z') || ('A' <= c && c <= 'Z') || ('0' <= c && c <= '9') || c == '-' {
        c
    } else {
        '_'
    }
}

/// The session id with every character other than an ASCII letter, digit or
/// `-` replaced by `_`.
pub open spec fn sanitized(s: Seq<char>) -> Seq<char> {
    s.map_values(|c: char| session_char(c))
}

pub fn sanitize_session(s: &str) -> (r: String)
    ensures
        r@ == sanitized(s@),
{
    let v = crate::text::chars_of(s);
    let mut out: Vec<char> = Vec::new();
    let mut i: usize = 0;
    while i < v.len()
        invariant
            i <= v@.len(),
            v@ == s@,
            out@ == sanitized(v@.take(i as int)),
        decreases v@.len() - i,
    {
        let c = v[i];
        let keep = ('a' <= c && c <= 'z') || ('A' <= c && c <= 'Z') || ('0' <= c && c <= '9') || c
            == '-';
        out.push(
            if keep {
                c
            } else {
                '_'
            },
        );
        i = i + 1;
        assert(out@ =~= sanitized(v@.take(i as int)));
    }
    assert(v@.take(v@.len() as int) =~= v@);
    string_of_chars(&out)
}

/// The file name of the journal of one session in one repository: the
/// repository root's hash in 16 hex digits, `-`, the sanitized session id,
/// `.journal`.
pub open spec fn journal_name(root: Seq<char>, session: Seq<char>) -> Seq<char> {
    hex_fixed(path_hash(root) as nat, 16) + "-"@ + sanitized(session) + ".journal"@
}

/// The journal of one session in one repository: that file inside
/// `journal_dir`.
pub open spec fn journal_path(journal_dir: Seq<char>, root: Seq<char>, session: Seq<char>) -> Seq<
    char,
> {
    path_join(journal_dir, journal_name(root, session))
}

/// A journal name is one plain file name (no `/`, backslash or `:` in it, so no
/// session id can lead out of the journal directory), and sessions whose
/// sanitized ids differ get different names within one repository.
pub proof fn lemma_journal_names(root: Seq<char>, s1: Seq<char>, s2: Seq<char>)
    ensures
        !journal_name(root, s1).contains('/'),
        !journal_name(root, s1).contains('\\'),
        !journal_name(root, s1).contains(':'),
        sanitized(s1) != sanitized(s2) ==> journal_name(root, s1) != journal_name(root, s2),
{
    let h = hex_fixed(path_hash(root) as nat, 16);
    lemma_hex_fixed_plain(path_hash(root) as nat, 16);
    reveal_strlit("-");
    reveal_strlit(".journal");
    let n = journal_name(root, s1);
    assert forall|i: int| 0 <= i < n.len() implies n[i] != '/' && n[i] != '\\' && n[i] != ':' by {
        if i < h.len() {
            assert(n[i] == h[i]);
        } else if i == h.len() {
            assert(n[i] == '-');
        } else if i < h.len() + 1 + sanitized(s1).len() {
            assert(n[i] == sanitized(s1)[i - h.len() - 1]);
            assert(session_char(s1[i - h.len() - 1]) == n[i]);
        } else {
            assert(n[i] == ".journal"@[i - h.len() - 1 - sanitized(s1).len()]);
        }
    }
    if sanitized(s1) != sanitized(s2) && journal_name(root, s1) == journal_name(root, s2) {
        let m = journal_name(root, s2);
        assert(n.len() == h.len() + 1 + sanitized(s1).len() + ".journal"@.len());
        assert(m.len() == h.len() + 1 + sanitized(s2).len() + ".journal"@.len());
        assert(sanitized(s1).len() == sanitized(s2).len());
        assert(sanitized(s1) =~= n.subrange(h.len() + 1 as int, h.len() + 1 + sanitized(s1).len() as int));
        assert(sanitized(s2) =~= m.subrange(h.len() + 1 as int, h.len() + 1 + sanitized(s2).len() as int));
    }
}

/// The digits of a fixed-width hex rendering are `0-9a-f`.
proof fn lemma_hex_fixed_plain(n: nat, k: nat)
    ensures
        hex_fixed(n, k).len() == k,
        forall|i: int|
            0 <= i < k ==> ('0' <= #[trigger] hex_fixed(n, k)[i] <= '9') || ('a' <= hex_fixed(
                n,
                k,
            )[i] <= 'f'),
    decreases k,
{
    if k > 0 {
        lemma_hex_fixed_plain(n / 16, (k - 1) as nat);
        let d = n % 16;
        assert(hex_char(d) == hex_fixed(n, k)[k - 1]);
        assert(('0' <= hex_char(d) <= '9') || ('a' <= hex_char(d) <= 'f'));
        assert forall|i: int| 0 <= i < k - 1 implies hex_fixed(n, k)[i] == hex_fixed(
            n / 16,
            (k - 1) as nat,
        )[i] by {}
    }
}

pub fn hook_journal_path(journal_dir: &str, root: &str, session_id: &str) -> (r: String)
    ensures
        r@ == journal_path(journal_dir@, root@, session_id@),
{
    let h = hash_root(root);
    let mut name = hex16(h);
    push_str(&mut name, "-");
    let session = sanitize_session(session_id);
    push_str(&mut name, session.as_str());
    push_str(&mut name, ".journal");
    join_path(journal_dir, name.as_str())
}

/// `text`, followed by a blank line and `note` when there is one.
pub open spec fn with_note(text: Seq<char>, note: Option<&str>) -> Seq<char> {
    match note {
        Some(n) => text + "\n\n"@ + n@,
        None => text,
    }
}

pub fn append_note(text: &str, note: Option<&str>) -> (r: String)
    ensures
        r@ == with_note(text@, note),
{
    match note {
        Some(n) => {
            let mut r = owned(text);
            push_str(&mut r, "\n\n");
            push_str(&mut r, n);
            r
        },
        None => owned(text),
    }
}

// ---------------------------------------------------------------------------
// Advisory
// ---------------------------------------------------------------------------

/// Some `modules:` entry of `d` covers the file `f`.
pub open spec fn doc_covers(d: Doc, f: Seq<char>) -> bool {
    exists|j: int| 0 <= j < d.modules@.len() && covers(normalized((#[trigger] d.modules@[j])@), f)
}

/// The files (in order) that some `modules:` entry of `d` covers.
pub open spec fn via(d: Doc, files: Seq<Seq<char>>) -> Seq<Seq<char>>
    decreases files.len(),
{
    if files.len() == 0 {
        Seq::empty()
    } else if doc_covers(d, files.last()) {
        via(d, files.drop_last()).push(files.last())
    } else {
        via(d, files.drop_last())
    }
}

/// The path of `d` is one of the edited `files` (compared with `\` read
/// as `/`).
pub open spec fn is_edited(d: Doc, files: Seq<Seq<char>>) -> bool {
    files.contains(normalized(d.rel_path@))
}

/// The ids linked to `d`: its `depends_on` and `related` ids and the ids
/// with a hard or soft edge to it, without `d` itself.
pub open spec fn links(g: Graph, d: Doc) -> Set<Seq<char>> {
    texts(d.depends_on@).to_set().union(texts(d.related@).to_set()).union(
        crate::graph::image_of(g.reverse.rel(), d.id.0@),
    ).union(crate::graph::image_of(g.related_reverse.rel(), d.id.0@)).remove(d.id.0@)
}

pub open spec fn link_list(g: Graph, d: Doc) -> Seq<char> {
    if links(g, d).is_empty() {
        "(none)"@
    } else {
        join_seq(sorted_of(links(g, d)), ", "@)
    }
}

pub open spec fn hit_row(d: Doc, files: Seq<Seq<char>>) -> Seq<char> {
    "  "@ + d.id.0@ + "  "@ + d.rel_path@ + "\n"@ + "    via: "@ + join_seq(via(d, files), ", "@)
        + "\n"@
}

pub open spec fn edited_row(g: Graph, d: Doc) -> Seq<char> {
    "  "@ + d.id.0@ + "  ->  "@ + link_list(g, d) + "\n"@
}

pub open spec fn advisory_tail() -> Seq<char> {
    "\nIf this turn changed observable behaviour, update the docs of record above to match before finishing. Internal-only changes (refactor/bugfix/perf) need no doc update."@
}

/// The end-of-turn advisory for the edited `files`: the docs of record whose
/// `modules:` cover them (with the files they cover), and for each edited
/// managed doc the docs linked to it; nothing when there is neither.
pub open spec fn advisory(g: Graph, files: Seq<Seq<char>>) -> Option<Seq<char>> {
    let hits = filter_docs(g.docs@, |d: Doc| via(d, files).len() > 0);
    let edited = filter_docs(g.docs@, |d: Doc| is_edited(d, files));
    if hits.len() == 0 && edited.len() == 0 {
        None
    } else {
        Some(
            "kusara end-of-turn check ("@ + decimal(files.len()) + " edited file(s)).\n"@ + (if hits.len()
                > 0 {
                "\nDocs of record whose `modules:` cover this turn's source edits:\n"@ + rows(
                    hits,
                    |d: Doc| hit_row(d, files),
                )
            } else {
                Seq::empty()
            }) + (if edited.len() > 0 {
                "\nEdited managed docs -> linked docs to check for content drift:\n"@ + rows(
                    edited,
                    |d: Doc| edited_row(g, d),
                )
            } else {
                Seq::empty()
            }) + advisory_tail(),
        )
    }
}

/// The ids related to `k` by a relation held as a list of pairs are
/// finitely many.
proof fn lemma_image_finite(pv: Seq<crate::graph::Pair>, k: Seq<char>)
    ensures
        crate::graph::image_of(pv.to_set(), k).finite(),
{
    let seconds = pv.map_values(|p: crate::graph::Pair| p.1);
    assert forall|t: Seq<char>| crate::graph::image_of(pv.to_set(), k).contains(t) implies seconds.to_set().contains(t) by {
        let i = choose|i: int| 0 <= i < pv.len() && pv[i] == (k, t);
        assert(seconds[i] == t);
    }
    vstd::seq_lib::seq_to_set_is_finite(seconds);
    vstd::set_lib::lemma_set_subset_finite(seconds.to_set(), crate::graph::image_of(pv.to_set(), k));
}

proof fn lemma_links_finite(g: Graph, d: Doc)
    ensures
        links(g, d).finite(),
{
    vstd::seq_lib::seq_to_set_is_finite(texts(d.depends_on@));
    vstd::seq_lib::seq_to_set_is_finite(texts(d.related@));
    lemma_image_finite(pair_views(g.reverse.pairs@), d.id.0@);
    lemma_image_finite(pair_views(g.related_reverse.pairs@), d.id.0@);
    let a = texts(d.depends_on@).to_set();
    let b = texts(d.related@).to_set();
    let c = crate::graph::image_of(g.reverse.rel(), d.id.0@);
    let e = crate::graph::image_of(g.related_reverse.rel(), d.id.0@);
    vstd::set::axiom_set_union_finite(a, b);
    vstd::set::axiom_set_union_finite(a.union(b), c);
    vstd::set::axiom_set_union_finite(a.union(b).union(c), e);
    vstd::set::axiom_set_remove_finite(a.union(b).union(c).union(e), d.id.0@);
}

/// The ids linked to a doc `d` of the graph: its own `depends_on` and
/// `related` ids, every doc that depends on it (`depends_on` or
/// `implements`), and every doc that mentions it in `related`; never `d`
/// itself.
pub proof fn lemma_links_of(g: Graph, a: int, y: Seq<char>)
    requires
        g.wf(),
        0 <= a < g.docs@.len(),
        y != g.docs@[a].id.0@,
    ensures
        texts(g.docs@[a].depends_on@).contains(y) ==> links(g, g.docs@[a]).contains(y),
        texts(g.docs@[a].related@).contains(y) ==> links(g, g.docs@[a]).contains(y),
        forall|b: int|
            0 <= b < g.docs@.len() && g.docs@[b].id.0@ == y && (texts(
                g.docs@[b].depends_on@,
            ).contains(g.docs@[a].id.0@) || texts(g.docs@[b].implements@).contains(
                g.docs@[a].id.0@,
            )) ==> #[trigger] links(g, g.docs@[a]).contains(g.docs@[b].id.0@),
        forall|b: int|
            0 <= b < g.docs@.len() && g.docs@[b].id.0@ == y && texts(
                g.docs@[b].related@,
            ).contains(g.docs@[a].id.0@) ==> #[trigger] links(g, g.docs@[a]).contains(
                g.docs@[b].id.0@,
            ),
        !links(g, g.docs@[a]).contains(g.docs@[a].id.0@),
{
    let d = g.docs@[a];
    assert(g.ids().contains_key(d.id.0@));
    assert forall|b: int|
        0 <= b < g.docs@.len() && g.docs@[b].id.0@ == y && (texts(g.docs@[b].depends_on@).contains(
            d.id.0@,
        ) || texts(g.docs@[b].implements@).contains(
            d.id.0@,
        )) implies #[trigger] links(g, d).contains(g.docs@[b].id.0@) by {
        let x = g.docs@[b];
        crate::graph::lemma_hard_edge_of(g.docs@, g.ids(), b, d.id.0@);
        let h = crate::graph::hard_pairs(g.docs@, g.ids());
        let i = choose|i: int| 0 <= i < h.len() && h[i] == (x.id.0@, d.id.0@);
        assert(crate::graph::flip_all(h)[i] == (d.id.0@, x.id.0@));
        assert(pair_views(g.reverse.pairs@).contains((d.id.0@, x.id.0@)));
        assert(crate::graph::image_of(g.reverse.rel(), d.id.0@).contains(x.id.0@));
    }
    assert forall|b: int|
        0 <= b < g.docs@.len() && g.docs@[b].id.0@ == y && texts(g.docs@[b].related@).contains(
            d.id.0@,
        ) implies #[trigger] links(g, d).contains(g.docs@[b].id.0@) by {
        let x = g.docs@[b];
        crate::graph::lemma_soft_edge_of(g.docs@, g.ids(), b, d.id.0@);
        let s = crate::graph::soft_pairs(g.docs@, g.ids());
        let i = choose|i: int| 0 <= i < s.len() && s[i] == (x.id.0@, d.id.0@);
        assert(crate::graph::flip_all(s)[i] == (d.id.0@, x.id.0@));
        assert(pair_views(g.related_reverse.pairs@).contains((d.id.0@, x.id.0@)));
        assert(crate::graph::image_of(g.related_reverse.rel(), d.id.0@).contains(x.id.0@));
    }
}

/// The end-of-turn advisory lists every id linked to an edited managed doc
/// `d`: it has a line `  <d>  ->  <ids>` whose comma-separated ids include
/// `y`.
pub proof fn lemma_edited_doc_row_lists(g: Graph, files: Seq<Seq<char>>, a: int, y: Seq<char>)
    requires
        g.wf(),
        0 <= a < g.docs@.len(),
        files.contains(normalized(g.docs@[a].rel_path@)),
        links(g, g.docs@[a]).contains(y),
    ensures
        advisory(g, files) matches Some(m) && exists|items: Seq<Seq<char>>|
            items.contains(y) && #[trigger] has_at_line_start(
                m,
                "  "@ + g.docs@[a].id.0@ + "  ->  "@ + join_seq(items, ", "@) + "\n"@,
            ),
{
    let d = g.docs@[a];
    lemma_links_finite(g, d);
    lemma_sorted_of_finite(links(g, d));
    let items = sorted_of(links(g, d));
    assert(items.to_set().contains(y));
    assert(!links(g, d).is_empty());
    assert(link_list(g, d) == join_seq(items, ", "@));
    let ep = |e: Doc| is_edited(e, files);
    let edited = filter_docs(g.docs@, ep);
    crate::render::lemma_filter_docs_members(g.docs@, ep);
    assert(g.docs@.contains(d));
    assert(edited.contains(d));
    let j = choose|j: int| 0 <= j < edited.len() && edited[j] == d;
    let f = |e: Doc| edited_row(g, e);
    reveal_strlit("\n");
    assert forall|e: Doc| #[trigger] f(e).len() > 0 && f(e).last() == '\n' by {
        assert(f(e) == "  "@ + e.id.0@ + "  ->  "@ + link_list(g, e) + "\n"@);
    }
    crate::render::lemma_row_at_line_start(edited, f, j);
    let (p, q) = choose|p: Seq<char>, q: Seq<char>|
        #[trigger] splits_at_line(rows(edited, f), p, f(d), q);
    let m = advisory(g, files)->Some_0;
    let hp = |e: Doc| via(e, files).len() > 0;
    let hits = filter_docs(g.docs@, hp);
    let head = "kusara end-of-turn check ("@ + decimal(files.len()) + " edited file(s)).\n"@ + (if hits.len()
        > 0 {
        "\nDocs of record whose `modules:` cover this turn's source edits:\n"@ + rows(
            hits,
            |e: Doc| hit_row(e, files),
        )
    } else {
        Seq::empty()
    });
    let lit = "\nEdited managed docs -> linked docs to check for content drift:\n"@;
    reveal_strlit("\nEdited managed docs -> linked docs to check for content drift:\n");
    assert(m == head + (lit + rows(edited, f)) + advisory_tail());
    let pre = head + lit + p;
    assert(pre.last() == '\n');
    let row = "  "@ + d.id.0@ + "  ->  "@ + join_seq(items, ", "@) + "\n"@;
    assert(f(d) == row);
    assert(m =~= pre + row + (q + advisory_tail()));
    assert(splits_at_line(m, pre, row, q + advisory_tail()));
    assert(has_at_line_start(m, row));
    assert(items.contains(y));
    assert(advisory(g, files) == Some(m));
}

/// The end-of-turn advisory names, for an edited managed doc `d`, every
/// other doc that depends on it (through `depends_on` or `implements`): the
/// advisory has a line `  <d>  ->  <ids>` whose comma-separated ids include
/// that doc's id.
pub proof fn lemma_edited_doc_lists_its_dependents(g: Graph, files: Seq<Seq<char>>, a: int, b: int)
    requires
        g.wf(),
        0 <= a < g.docs@.len(),
        0 <= b < g.docs@.len(),
        a != b,
        files.contains(normalized(g.docs@[a].rel_path@)),
        texts(g.docs@[b].depends_on@).contains(g.docs@[a].id.0@) || texts(
            g.docs@[b].implements@,
        ).contains(g.docs@[a].id.0@),
    ensures
        advisory(g, files) matches Some(m) && exists|items: Seq<Seq<char>>|
            items.contains(g.docs@[b].id.0@) && #[trigger] has_at_line_start(
                m,
                "  "@ + g.docs@[a].id.0@ + "  ->  "@ + join_seq(items, ", "@) + "\n"@,
            ),
{
    crate::graph::lemma_doc_ids_unique(g, a, b);
    lemma_links_of(g, a, g.docs@[b].id.0@);
    lemma_edited_doc_row_lists(g, files, a, g.docs@[b].id.0@);
}

/// Whether some `modules:` entry of `d` covers `f`.
fn covers_file(d: &Doc, f: &str) -> (r: bool)
    ensures
        r == doc_covers(*d, f@),
{
    let mut j: usize = 0;
    while j < d.modules.len()
        invariant
            j <= d.modules@.len(),
            forall|q: int| 0 <= q < j ==> !covers(normalized((#[trigger] d.modules@[q])@), f@),
        decreases d.modules@.len() - j,
    {
        let pat = normalize_separators(d.modules[j].as_str());
        if module_covers(pat.as_str(), f) {
            return true;
        }
        j = j + 1;
    }
    false
}

/// The files that `d` covers, in order.
fn via_files(d: &Doc, files: &Vec<String>) -> (r: Vec<String>)
    ensures
        texts(r@) == via(*d, texts(files@)),
{
    let ghost fs = texts(files@);
    let mut r: Vec<String> = Vec::new();
    let mut i: usize = 0;
    while i < files.len()
        invariant
            i <= files@.len(),
            fs == texts(files@),
            texts(r@) == via(*d, fs.take(i as int)),
        decreases files@.len() - i,
    {
        proof {
            assert(fs.take(i + 1).drop_last() =~= fs.take(i as int));
            assert(fs.take(i + 1).last() == fs[i as int]);
        }
        if covers_file(d, files[i].as_str()) {
            let ghost before = texts(r@);
            r.push(owned(files[i].as_str()));
            assert(texts(r@) =~= before.push(fs[i as int]));
        }
        i = i + 1;
    }
    assert(fs.take(files@.len() as int) =~= fs);
    r
}

/// Adds the texts of `ids` to the ordered `out`.
fn insert_all_ids(out: &mut Vec<DocId>, ids: &Vec<DocId>)
    requires
        sorted_strict(texts(old(out)@)),
    ensures
        sorted_strict(texts(final(out)@)),
        text_set(final(out)@) == text_set(old(out)@).union(text_set(ids@)),
{
    let ghost o = text_set(out@);
    let mut i: usize = 0;
    while i < ids.len()
        invariant
            i <= ids@.len(),
            sorted_strict(texts(out@)),
            text_set(out@) == o.union(texts(ids@).take(i as int).to_set()),
        decreases ids@.len() - i,
    {
        sorted_insert(out, ids[i].duplicate());
        proof {
            lemma_push_to_set(texts(ids@).take(i as int), texts(ids@)[i as int]);
            assert(texts(ids@).take(i + 1) =~= texts(ids@).take(i as int).push(texts(ids@)[i as int]));
        }
        i = i + 1;
    }
    assert(texts(ids@).take(ids@.len() as int) =~= texts(ids@));
}

/// The ordered ids linked to `d`.
fn link_ids(g: &Graph, d: &Doc) -> (r: Vec<DocId>)
    ensures
        sorted_strict(texts(r@)),
        text_set(r@) == links(*g, *d),
{
    let mut out: Vec<DocId> = Vec::new();
    assert(text_set(out@) =~= Set::empty());
    insert_all_ids(&mut out, &d.depends_on);
    insert_all_ids(&mut out, &d.related);
    let a = g.reverse.get(d.id.as_str());
    insert_all_ids(&mut out, &a);
    let b = g.related_reverse.get(d.id.as_str());
    insert_all_ids(&mut out, &b);
    let ghost full = text_set(out@);
    let mut kept: Vec<DocId> = Vec::new();
    let mut i: usize = 0;
    while i < out.len()
        invariant
            i <= out@.len(),
            sorted_strict(texts(out@)),
            sorted_strict(texts(kept@)),
            text_set(kept@) == texts(out@).take(i as int).to_set().remove(d.id.0@),
        decreases out@.len() - i,
    {
        if !crate::text::text_eq(out[i].as_str(), d.id.as_str()) {
            sorted_insert(&mut kept, out[i].duplicate());
        }
        proof {
            lemma_push_to_set(texts(out@).take(i as int), texts(out@)[i as int]);
            assert(texts(out@).take(i + 1) =~= texts(out@).take(i as int).push(texts(out@)[i as int]));
            assert(text_set(kept@) =~= texts(out@).take(i + 1).to_set().remove(d.id.0@));
        }
        i = i + 1;
    }
    assert(texts(out@).take(out@.len() as int) =~= texts(out@));
    assert(text_set(kept@) =~= links(*g, *d));
    kept
}

fn hit_row_string(d: &Doc, files: &Vec<String>) -> (r: String)
    ensures
        r@ == hit_row(*d, texts(files@)),
{
    let mut r = String::from_str("  ");
    push_str(&mut r, d.id.as_str());
    push_str(&mut r, "  ");
    push_str(&mut r, d.rel_path.as_str());
    push_str(&mut r, "\n");
    push_str(&mut r, "    via: ");
    let v = via_files(d, files);
    let j = join_texts(&v, ", ");
    push_str(&mut r, j.as_str());
    push_str(&mut r, "\n");
    r
}

fn edited_row_string(g: &Graph, d: &Doc) -> (r: String)
    ensures
        r@ == edited_row(*g, *d),
{
    let mut r = String::from_str("  ");
    push_str(&mut r, d.id.as_str());
    push_str(&mut r, "  ->  ");
    let l = link_ids(g, d);
    if l.len() == 0 {
        push_str(&mut r, "(none)");
        assert(text_set(l@) =~= Set::empty());
    } else {
        let j = join_texts(&l, ", ");
        push_str(&mut r, j.as_str());
        proof {
            lemma_sorted_of(texts(l@));
            if links(*g, *d).is_empty() {
                assert(text_set(l@).contains(texts(l@)[0]));
            }
        }
    }
    push_str(&mut r, "\n");
    r
}

/// Whether the doc at `d` is one of the edited files.
fn edited(d: &Doc, files: &Vec<String>) -> (r: bool)
    ensures
        r == is_edited(*d, texts(files@)),
{
    let p = normalize_separators(d.rel_path.as_str());
    let r = contains_text(files, p.as_str());
    r
}

/// Advisory body for a clean-validate stop: docs of record whose `modules:`
/// cover the edited sources, plus link fan-out of edited managed docs. The
/// edited `files` are ordered and without repeats.
pub fn hook_stop_advisory(graph: &Graph, files: &Vec<String>) -> (r: Option<String>)
    requires
        graph.wf(),
        sorted_strict(texts(files@)),
    ensures
        match (r, advisory(*graph, texts(files@))) {
            (Some(m), Some(a)) => m@ == a,
            (None, None) => true,
            _ => false,
        },
{
    let ghost fs = texts(files@);
    let ghost hp = |d: Doc| via(d, fs).len() > 0;
    let ghost ep = |d: Doc| is_edited(d, fs);
    let mut hits: Vec<&Doc> = Vec::new();
    let mut eds: Vec<&Doc> = Vec::new();
    let mut i: usize = 0;
    while i < graph.docs.len()
        invariant
            i <= graph.docs@.len(),
            fs == texts(files@),
            hp == |d: Doc| via(d, fs).len() > 0,
            ep == |d: Doc| is_edited(d, fs),
            refs_view(hits@) == filter_docs(graph.docs@.take(i as int), hp),
            refs_view(eds@) == filter_docs(graph.docs@.take(i as int), ep),
        decreases graph.docs@.len() - i,
    {
        let d = &graph.docs[i];
        proof {
            assert(graph.docs@.take(i + 1).drop_last() =~= graph.docs@.take(i as int));
            assert(graph.docs@.take(i + 1).last() == graph.docs@[i as int]);
        }
        let v = via_files(d, files);
        if v.len() > 0 {
            hits.push(d);
            assert(refs_view(hits@) =~= filter_docs(graph.docs@.take(i + 1), hp));
        }
        if edited(d, files) {
            eds.push(d);
            assert(refs_view(eds@) =~= filter_docs(graph.docs@.take(i + 1), ep));
        }
        i = i + 1;
    }
    assert(graph.docs@.take(graph.docs@.len() as int) =~= graph.docs@);
    if hits.len() == 0 && eds.len() == 0 {
        return None;
    }
    let mut msg = String::from_str("kusara end-of-turn check (");
    let n = decimal_string(files.len() as u64);
    push_str(&mut msg, n.as_str());
    push_str(&mut msg, " edited file(s)).\n");
    let ghost m0 = msg@;
    if hits.len() > 0 {
        push_str(&mut msg, "\nDocs of record whose `modules:` cover this turn's source edits:\n");
        let ghost base = msg@;
        let ghost hv = refs_view(hits@);
        let ghost f = |d: Doc| hit_row(d, fs);
        let mut j: usize = 0;
        while j < hits.len()
            invariant
                j <= hits@.len(),
                fs == texts(files@),
                hv == refs_view(hits@),
                f == |d: Doc| hit_row(d, fs),
                msg@ == base + rows(hv.take(j as int), f),
            decreases hits@.len() - j,
        {
            let row = hit_row_string(hits[j], files);
            push_str(&mut msg, row.as_str());
            proof {
                assert(hv.take(j + 1).drop_last() =~= hv.take(j as int));
                assert(hv.take(j + 1).last() == hv[j as int]);
                assert(msg@ =~= base + rows(hv.take(j + 1), f));
            }
            j = j + 1;
        }
        assert(hv.take(hits@.len() as int) =~= hv);
    }
    let ghost m1 = msg@;
    if eds.len() > 0 {
        push_str(&mut msg, "\nEdited managed docs -> linked docs to check for content drift:\n");
        let ghost base = msg@;
        let ghost ev = refs_view(eds@);
        let ghost f = |d: Doc| edited_row(*graph, d);
        let mut j: usize = 0;
        while j < eds.len()
            invariant
                j <= eds@.len(),
                ev == refs_view(eds@),
                f == |d: Doc| edited_row(*graph, d),
                msg@ == base + rows(ev.take(j as int), f),
            decreases eds@.len() - j,
        {
            let row = edited_row_string(graph, eds[j]);
            push_str(&mut msg, row.as_str());
            proof {
                assert(ev.take(j + 1).drop_last() =~= ev.take(j as int));
                assert(ev.take(j + 1).last() == ev[j as int]);
                assert(msg@ =~= base + rows(ev.take(j + 1), f));
            }
            j = j + 1;
        }
        assert(ev.take(eds@.len() as int) =~= ev);
    }
    push_str(
        &mut msg,
        "\nIf this turn changed observable behaviour, update the docs of record above to match before finishing. Internal-only changes (refactor/bugfix/perf) need no doc update.",
    );
    proof {
        assert(fs.len() == files@.len());
        let a = advisory(*graph, fs).unwrap();
        assert(msg@ =~= a);
    }
    Some(msg)
}

// ---------------------------------------------------------------------------
// Where journals live
// ---------------------------------------------------------------------------

/// The default journal directory: `$XDG_CACHE_HOME/kusara/hook`, else
/// `$HOME/.cache/kusara/hook` (on Unix, for variables that are set and not
/// empty), else `kusara-hook` in the temp directory.
pub open spec fn default_journal_dir_spec(
    unix: bool,
    xdg_cache: Option<&str>,
    home: Option<&str>,
    temp: Seq<char>,
) -> Seq<char> {
    if unix && xdg_cache is Some && xdg_cache.unwrap()@.len() > 0 {
        path_join(path_join(xdg_cache.unwrap()@, "kusara"@), "hook"@)
    } else if unix && home is Some && home.unwrap()@.len() > 0 {
        path_join(path_join(path_join(home.unwrap()@, ".cache"@), "kusara"@), "hook"@)
    } else {
        path_join(temp, "kusara-hook"@)
    }
}

pub fn default_journal_dir(unix: bool, xdg_cache: Option<&str>, home: Option<&str>, temp: &str) -> (r:
    String)
    ensures
        r@ == default_journal_dir_spec(unix, xdg_cache, home, temp@),
{
    if unix {
        match xdg_cache {
            Some(x) => {
                if x.unicode_len() > 0 {
                    let a = join_path(x, "kusara");
                    return join_path(a.as_str(), "hook");
                }
            },
            None => {},
        }
        match home {
            Some(h) => {
                if h.unicode_len() > 0 {
                    let a = join_path(h, ".cache");
                    let b = join_path(a.as_str(), "kusara");
                    return join_path(b.as_str(), "hook");
                }
            },
            None => {},
        }
    }
    join_path(temp, "kusara-hook")
}

// ---------------------------------------------------------------------------
// postedit
// ---------------------------------------------------------------------------

/// The journal line for an edit of `file_path` (absolute, or relative to
/// `root`): its path relative to `root`, `/`-separated; nothing for a path
/// with a `..` component or outside `root`.
pub open spec fn postedit_line(root: Seq<char>, file_path: Seq<char>) -> Option<Seq<char>> {
    let abs = if path_is_absolute(file_path) {
        file_path
    } else {
        path_join(root, file_path)
    };
    if path_components(abs).contains(".."@) {
        None
    } else {
        match path_strip_prefix(abs, root) {
            Some(rel) => Some(normalized(rel).push('\n')),
            None => None,
        }
    }
}

pub fn postedit_entry(root: &str, file_path: &str) -> (r: Option<String>)
    ensures
        match (r, postedit_line(root@, file_path@)) {
            (Some(a), Some(b)) => a@ == b,
            (None, None) => true,
            _ => false,
        },
{
    let abs = if is_absolute_path(file_path) {
        owned(file_path)
    } else {
        join_path(root, file_path)
    };
    if has_parent_dir(abs.as_str()) {
        return None;
    }
    match strip_path_prefix(abs.as_str(), root) {
        Some(rel) => {
            let mut l = normalize_separators(rel.as_str());
            push_char(&mut l, '\n');
            Some(l)
        },
        None => None,
    }
}

// ---------------------------------------------------------------------------
// stop
// ---------------------------------------------------------------------------

/// The pieces of `s` between `\n`s (an empty piece after a final `\n`).
pub open spec fn newline_pieces(s: Seq<char>) -> Seq<Seq<char>>
    decreases s.len(),
{
    if s.len() == 0 {
        seq![Seq::empty()]
    } else {
        let p = newline_pieces(s.drop_last());
        if s.last() == '\n' {
            p.push(Seq::empty())
        } else {
            p.update(p.len() - 1, p.last().push(s.last()))
        }
    }
}

proof fn lemma_newline_pieces_nonempty(s: Seq<char>)
    ensures
        newline_pieces(s).len() > 0,
    decreases s.len(),
{
    if s.len() > 0 {
        lemma_newline_pieces_nonempty(s.drop_last());
    }
}

/// The files recorded in a journal: its lines, trimmed, without blanks.
pub open spec fn journal_set(raw: Seq<char>) -> Set<Seq<char>> {
    Set::new(
        |f: Seq<char>|
            f.len() > 0 && exists|i: int|
                0 <= i < newline_pieces(raw).len() && trimmed(#[trigger] newline_pieces(raw)[i])
                    == f,
    )
}

/// The files recorded in a journal, ordered and without repeats.
pub fn journal_files(raw: &str) -> (r: Vec<String>)
    ensures
        sorted_strict(texts(r@)),
        text_set(r@) == journal_set(raw@),
{
    let v = crate::text::chars_of(raw);
    let mut pieces: Vec<String> = Vec::new();
    let mut cur = String::new();
    let mut i: usize = 0;
    while i < v.len()
        invariant
            i <= v@.len(),
            v@ == raw@,
            texts(pieces@).push(cur@) == newline_pieces(v@.take(i as int)),
        decreases v@.len() - i,
    {
        let c = v[i];
        proof {
            assert(v@.take(i + 1).drop_last() =~= v@.take(i as int));
            assert(v@.take(i + 1).last() == c);
            lemma_newline_pieces_nonempty(v@.take(i as int));
        }
        let ghost before = texts(pieces@);
        let ghost cb = cur@;
        if c == '\n' {
            let done = cur;
            pieces.push(done);
            cur = String::new();
            assert(texts(pieces@).push(cur@) =~= before.push(cb).push(Seq::empty()));
        } else {
            push_char(&mut cur, c);
            assert(texts(pieces@).push(cur@) =~= before.push(cb).update(
                before.len() as int,
                cb.push(c),
            ));
        }
        i = i + 1;
    }
    assert(v@.take(v@.len() as int) =~= v@);
    pieces.push(cur);
    let ghost all = texts(pieces@);
    assert(all == newline_pieces(raw@));
    let mut r: Vec<String> = Vec::new();
    let mut j: usize = 0;
    while j < pieces.len()
        invariant
            j <= pieces@.len(),
            all == texts(pieces@),
            all == newline_pieces(raw@),
            sorted_strict(texts(r@)),
            text_set(r@) == Set::new(
                |f: Seq<char>|
                    f.len() > 0 && exists|k: int| 0 <= k < j && trimmed(#[trigger] all[k]) == f,
            ),
        decreases pieces@.len() - j,
    {
        let t = trim_ws(pieces[j].as_str());
        let ghost before = text_set(r@);
        proof {
            assert(all[j as int] == pieces@[j as int]@);
        }
        if t.unicode_len() > 0 {
            sorted_insert(&mut r, t);
        }
        proof {
            assert forall|f: Seq<char>| #[trigger] text_set(r@).contains(f) <==> (f.len() > 0
                && exists|k: int| 0 <= k < j + 1 && trimmed(#[trigger] all[k]) == f) by {
                if f.len() > 0 && f == trimmed(all[j as int]) {
                    assert(trimmed(all[j as int]) == f);
                }
                if f.len() > 0 && exists|k: int| 0 <= k < j + 1 && trimmed(#[trigger] all[k]) == f {
                    let k = choose|k: int| 0 <= k < j + 1 && trimmed(#[trigger] all[k]) == f;
                    if k < j {
                        assert(before.contains(f));
                    }
                }
            }
            assert(text_set(r@) =~= Set::new(
                |f: Seq<char>|
                    f.len() > 0 && exists|k: int| 0 <= k < j + 1 && trimmed(#[trigger] all[k]) == f,
            ));
        }
        j = j + 1;
    }
    assert(text_set(r@) =~= journal_set(raw@));
    r
}

/// What the stop hook answers: nothing, context for the agent, or a block
/// of the stop with a reason.
#[derive(Debug)]
pub enum StopReply {
    Nothing,
    Context(String),
    Block(String),
}

/// The message when the docs fail validation after the turn's edits.
pub open spec fn validate_failure_msg(errors: Seq<Seq<char>>) -> Seq<char> {
    "kusara validate fails after this turn's edits:\n"@ + crate::text::concat_seq(
        errors.map_values(|e: Seq<char>| "- "@ + e + "\n"@),
    ) + "\nFix the refs metadata (or adjust the kinds manifest) before finishing."@
}

/// The stop hook's answer for a turn whose edits were checked: a failed
/// validation blocks the stop (or, when the stop was already blocked once,
/// is reported as context); otherwise the advisory, if any, is context.
pub open spec fn stop_reply_spec(
    g: Graph,
    errors: Seq<Seq<char>>,
    files: Seq<Seq<char>>,
    stop_hook_active: bool,
    note: Option<&str>,
) -> (int, Seq<char>) {
    if errors.len() > 0 {
        (
            if stop_hook_active {
                1
            } else {
                2
            },
            with_note(validate_failure_msg(errors), note),
        )
    } else {
        match advisory(g, files) {
            Some(m) => (1, with_note(m, note)),
            None => (0, Seq::empty()),
        }
    }
}

pub open spec fn reply_view(r: StopReply) -> (int, Seq<char>) {
    match r {
        StopReply::Nothing => (0, Seq::empty()),
        StopReply::Context(m) => (1, m@),
        StopReply::Block(m) => (2, m@),
    }
}

pub fn stop_reply(
    graph: &Graph,
    errors: &Vec<String>,
    files: &Vec<String>,
    stop_hook_active: bool,
    note: Option<&str>,
) -> (r: StopReply)
    requires
        graph.wf(),
        sorted_strict(texts(files@)),
    ensures
        reply_view(r) == stop_reply_spec(*graph, texts(errors@), texts(files@), stop_hook_active, note),
{
    if errors.len() > 0 {
        let mut msg = owned("kusara validate fails after this turn's edits:\n");
        let ghost head = msg@;
        let ghost f = |e: Seq<char>| "- "@ + e + "\n"@;
        let mut i: usize = 0;
        while i < errors.len()
            invariant
                i <= errors@.len(),
                f == |e: Seq<char>| "- "@ + e + "\n"@,
                msg@ == head + crate::text::concat_seq(texts(errors@).take(i as int).map_values(f)),
            decreases errors@.len() - i,
        {
            push_str(&mut msg, "- ");
            push_str(&mut msg, errors[i].as_str());
            push_str(&mut msg, "\n");
            proof {
                let t = texts(errors@);
                assert(t.take(i + 1).map_values(f).drop_last() =~= t.take(i as int).map_values(f));
                assert(t.take(i + 1).map_values(f).last() == f(t[i as int]));
            }
            i = i + 1;
        }
        assert(texts(errors@).take(errors@.len() as int) =~= texts(errors@));
        push_str(&mut msg, "\nFix the refs metadata (or adjust the kinds manifest) before finishing.");
        let full = append_note(msg.as_str(), note);
        if stop_hook_active {
            StopReply::Context(full)
        } else {
            StopReply::Block(full)
        }
    } else {
        match hook_stop_advisory(graph, files) {
            Some(m) => StopReply::Context(append_note(m.as_str(), note)),
            None => StopReply::Nothing,
        }
    }
}

/// The context given when the graph cannot be loaded to check the edits.
pub fn cannot_check_message(err: &str) -> (r: String)
    ensures
        r@ == "kusara: cannot check this turn's edits: "@ + err@,
{
    let mut m = owned("kusara: cannot check this turn's edits: ");
    push_str(&mut m, err);
    m
}

} // verus!
