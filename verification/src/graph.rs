//! Building the cross-reference graph: admitting documents one by one with
//! their id, kind and `provides:` checks, then deriving the edge relations.
use vstd::prelude::*;

use crate::model::{
    class_of, classify, ClassError, Doc, DocClass, DocId, Manifest, OkfMeta, RefsBlock,
};
use crate::text::{owned, push_str, sorted_insert, sorted_strict, text_eq, text_set, texts};

verus! {

// ---------------------------------------------------------------------------
// The id table: every known id (including `provides:` aliases) to the id of
// the doc that owns it
// ---------------------------------------------------------------------------

pub open spec fn has_key(s: Seq<(DocId, DocId)>, k: Seq<char>) -> bool {
    exists|i: int| 0 <= i < s.len() && (#[trigger] s[i]).0.0@ == k
}

pub open spec fn key_index(s: Seq<(DocId, DocId)>, k: Seq<char>) -> int {
    choose|i: int| 0 <= i < s.len() && (#[trigger] s[i]).0.0@ == k
}

pub open spec fn keys_unique(s: Seq<(DocId, DocId)>) -> bool {
    forall|i: int, j: int| 0 <= i < j < s.len() ==> (#[trigger] s[i]).0.0@ != (#[trigger] s[j]).0.0@
}

/// The id table as a map from id to owning doc id.
pub open spec fn id_map(s: Seq<(DocId, DocId)>) -> Map<Seq<char>, Seq<char>> {
    Map::new(|k: Seq<char>| has_key(s, k), |k: Seq<char>| s[key_index(s, k)].1.0@)
}

/// Index of the entry for `k`.
pub fn find_key(ids: &Vec<(DocId, DocId)>, k: &str) -> (r: Option<usize>)
    ensures
        r matches Some(i) ==> i < ids@.len() && ids@[i as int].0.0@ == k@,
        r is None ==> !has_key(ids@, k@),
{
    let mut i: usize = 0;
    while i < ids.len()
        invariant
            i <= ids@.len(),
            forall|j: int| 0 <= j < i ==> (#[trigger] ids@[j]).0.0@ != k@,
        decreases ids@.len() - i,
    {
        if text_eq(ids[i].0.as_str(), k) {
            return Some(i);
        }
        i = i + 1;
    }
    None
}

proof fn lemma_key_index(s: Seq<(DocId, DocId)>, i: int)
    requires
        keys_unique(s),
        0 <= i < s.len(),
    ensures
        has_key(s, s[i].0.0@),
        key_index(s, s[i].0.0@) == i,
        id_map(s)[s[i].0.0@] == s[i].1.0@,
{
    assert(has_key(s, s[i].0.0@));
    let j = key_index(s, s[i].0.0@);
    if j != i {
        if j < i {
            assert(s[j].0.0@ != s[i].0.0@);
        } else {
            assert(s[i].0.0@ != s[j].0.0@);
        }
    }
}

/// Maps `k` to `v` in the id table, replacing an earlier entry for `k`.
pub fn ids_insert(ids: &mut Vec<(DocId, DocId)>, k: DocId, v: DocId)
    requires
        keys_unique(old(ids)@),
    ensures
        keys_unique(final(ids)@),
        id_map(final(ids)@) == id_map(old(ids)@).insert(k.0@, v.0@),
{
    let ghost kv = k.0@;
    let ghost vv = v.0@;
    let ghost o = ids@;
    match find_key(ids, k.as_str()) {
        Some(i) => {
            ids.set(i, (k, v));
            proof {
                let n = ids@;
                assert forall|a: int, b: int| 0 <= a < b < n.len() implies (#[trigger] n[a]).0.0@
                    != (#[trigger] n[b]).0.0@ by {
                    if a == i {
                        assert(o[a].0.0@ == kv);
                    } else if b == i {
                        assert(o[b].0.0@ == kv);
                    } else {
                        assert(n[a] == o[a] && n[b] == o[b]);
                    }
                }
                assert forall|key: Seq<char>| #[trigger] has_key(n, key) == (has_key(o, key) || key
                    == kv) by {
                    if has_key(n, key) {
                        let j = choose|j: int| 0 <= j < n.len() && (#[trigger] n[j]).0.0@ == key;
                        if j != i {
                            assert(o[j] == n[j]);
                        }
                    }
                    if has_key(o, key) {
                        let j = choose|j: int| 0 <= j < o.len() && (#[trigger] o[j]).0.0@ == key;
                        if j != i {
                            assert(o[j] == n[j]);
                        } else {
                            assert(n[j].0.0@ == kv);
                        }
                    }
                    if key == kv {
                        assert(n[i as int].0.0@ == kv);
                    }
                }
                assert forall|key: Seq<char>| #[trigger] id_map(n).contains_key(key) implies id_map(
                    n,
                )[key] == id_map(o).insert(kv, vv)[key] by {
                    let j = key_index(n, key);
                    lemma_key_index(n, j);
                    if j == i {
                        assert(n[j].1.0@ == vv);
                    } else {
                        assert(o[j] == n[j]);
                        lemma_key_index(o, j);
                    }
                }
                assert(id_map(n) =~= id_map(o).insert(kv, vv));
            }
        },
        None => {
            ids.push((k, v));
            proof {
                let n = ids@;
                let i = o.len() as int;
                assert forall|a: int, b: int| 0 <= a < b < n.len() implies (#[trigger] n[a]).0.0@
                    != (#[trigger] n[b]).0.0@ by {
                    if b == i {
                        assert(n[a] == o[a]);
                    } else {
                        assert(n[a] == o[a] && n[b] == o[b]);
                    }
                }
                assert forall|key: Seq<char>| #[trigger] has_key(n, key) == (has_key(o, key) || key
                    == kv) by {
                    if has_key(n, key) {
                        let j = choose|j: int| 0 <= j < n.len() && (#[trigger] n[j]).0.0@ == key;
                        if j != i {
                            assert(o[j] == n[j]);
                        }
                    }
                    if has_key(o, key) {
                        let j = choose|j: int| 0 <= j < o.len() && (#[trigger] o[j]).0.0@ == key;
                        assert(o[j] == n[j]);
                    }
                    if key == kv {
                        assert(n[i].0.0@ == kv);
                    }
                }
                assert forall|key: Seq<char>| #[trigger] id_map(n).contains_key(key) implies id_map(
                    n,
                )[key] == id_map(o).insert(kv, vv)[key] by {
                    let j = key_index(n, key);
                    lemma_key_index(n, j);
                    if j == i {
                        assert(n[j].1.0@ == vv);
                    } else {
                        assert(o[j] == n[j]);
                        lemma_key_index(o, j);
                    }
                }
                assert(id_map(n) =~= id_map(o).insert(kv, vv));
            }
        },
    }
}

// ---------------------------------------------------------------------------
// Docs by id
// ---------------------------------------------------------------------------

/// Index of the doc with id `k`.
pub fn find_doc(docs: &Vec<Doc>, k: &str) -> (r: Option<usize>)
    ensures
        r matches Some(i) ==> i < docs@.len() && docs@[i as int].id.0@ == k@,
        r is None ==> !text_set(docs@).contains(k@),
{
    let mut i: usize = 0;
    while i < docs.len()
        invariant
            i <= docs@.len(),
            forall|j: int| 0 <= j < i ==> texts(docs@)[j] != k@,
        decreases docs@.len() - i,
    {
        if text_eq(docs[i].id.as_str(), k) {
            return Some(i);
        }
        i = i + 1;
    }
    proof {
        if text_set(docs@).contains(k@) {
            let j = choose|j: int| 0 <= j < texts(docs@).len() && texts(docs@)[j] == k@;
        }
    }
    None
}

/// The doc with id `k` (meaningful when there is one).
pub open spec fn doc_with_id(docs: Seq<Doc>, k: Seq<char>) -> Doc {
    docs[choose|i: int| 0 <= i < docs.len() && (#[trigger] docs[i]).id.0@ == k]
}

pub proof fn lemma_doc_with_id(docs: Seq<Doc>, i: int)
    requires
        sorted_strict(texts(docs)),
        0 <= i < docs.len(),
    ensures
        doc_with_id(docs, docs[i].id.0@) == docs[i],
{
    let k = docs[i].id.0@;
    assert(docs[i].id.0@ == k);
    assert forall|j: int| 0 <= j < docs.len() && (#[trigger] docs[j]).id.0@ == k implies j == i by {
        if j != i {
            crate::text::lemma_seq_lt_irreflexive(k);
            let t = texts(docs);
            assert(t[j] == k && t[i] == k);
            if j < i {
                assert(crate::text::seq_lt(t[j], t[i]));
            } else {
                assert(crate::text::seq_lt(t[i], t[j]));
            }
        }
    }
}

// ---------------------------------------------------------------------------
// Messages
// ---------------------------------------------------------------------------

pub open spec fn bool_text(b: bool) -> Seq<char> {
    if b {
        "true"@
    } else {
        "false"@
    }
}

pub open spec fn unknown_kind_msg(rel: Seq<char>, id: Seq<char>, kind: Seq<char>) -> Seq<char> {
    rel + " ("@ + id + "): unknown kind `"@ + kind + "` (not declared in kinds.md)"@
}

pub open spec fn class_msg(
    e: ClassError,
    rel: Seq<char>,
    id: Seq<char>,
    kind: Seq<char>,
    generated: bool,
) -> Seq<char> {
    match e {
        ClassError::IndexGeneratedMismatch => rel + " ("@ + id + "): kind=`"@ + kind
            + "` and generated="@ + bool_text(generated)
            + " must agree (kind `index` requires generated: true and vice versa)"@,
        ClassError::IndexesKindOnRegular => rel + " ("@ + id
            + "): indexes_kind set on non-index doc (kind=`"@ + kind + "`)"@,
    }
}

pub open spec fn duplicate_id_msg(id: Seq<char>, prev: Seq<char>, rel: Seq<char>) -> Seq<char> {
    "duplicate id `"@ + id + "` in "@ + prev + " and "@ + rel
}

pub open spec fn provided_twice_msg(pid: Seq<char>, owner: Seq<char>, rel: Seq<char>) -> Seq<
    char,
> {
    "duplicate id `"@ + pid + "` provided by both "@ + owner + " and "@ + rel
}

pub open spec fn front_matter_msg(rel: Seq<char>, msg: Seq<char>) -> Seq<char> {
    rel + ": "@ + msg
}

fn bool_string(b: bool) -> (r: String)
    ensures
        r@ == bool_text(b),
{
    if b {
        String::from_str("true")
    } else {
        String::from_str("false")
    }
}

fn unknown_kind_message(rel: &str, id: &str, kind: &str) -> (r: String)
    ensures
        r@ == unknown_kind_msg(rel@, id@, kind@),
{
    let mut m = owned(rel);
    push_str(&mut m, " (");
    push_str(&mut m, id);
    push_str(&mut m, "): unknown kind `");
    push_str(&mut m, kind);
    push_str(&mut m, "` (not declared in kinds.md)");
    m
}

fn class_message(e: &ClassError, rel: &str, id: &str, kind: &str, generated: bool) -> (r: String)
    ensures
        r@ == class_msg(*e, rel@, id@, kind@, generated),
{
    let mut m = owned(rel);
    push_str(&mut m, " (");
    push_str(&mut m, id);
    match e {
        ClassError::IndexGeneratedMismatch => {
            push_str(&mut m, "): kind=`");
            push_str(&mut m, kind);
            push_str(&mut m, "` and generated=");
            let g = bool_string(generated);
            push_str(&mut m, g.as_str());
            push_str(&mut m, " must agree (kind `index` requires generated: true and vice versa)");
        },
        ClassError::IndexesKindOnRegular => {
            push_str(&mut m, "): indexes_kind set on non-index doc (kind=`");
            push_str(&mut m, kind);
            push_str(&mut m, "`)");
        },
    }
    m
}

fn duplicate_id_message(id: &str, prev: &str, rel: &str) -> (r: String)
    ensures
        r@ == duplicate_id_msg(id@, prev@, rel@),
{
    let mut m = String::from_str("duplicate id `");
    push_str(&mut m, id);
    push_str(&mut m, "` in ");
    push_str(&mut m, prev);
    push_str(&mut m, " and ");
    push_str(&mut m, rel);
    m
}

fn provided_twice_message(pid: &str, owner: &str, rel: &str) -> (r: String)
    ensures
        r@ == provided_twice_msg(pid@, owner@, rel@),
{
    let mut m = String::from_str("duplicate id `");
    push_str(&mut m, pid);
    push_str(&mut m, "` provided by both ");
    push_str(&mut m, owner);
    push_str(&mut m, " and ");
    push_str(&mut m, rel);
    m
}

/// The error line for front matter that could not be normalized.
pub fn front_matter_message(rel: &str, msg: &str) -> (r: String)
    ensures
        r@ == front_matter_msg(rel@, msg@),
{
    let mut m = owned(rel);
    push_str(&mut m, ": ");
    push_str(&mut m, msg);
    m
}

// ---------------------------------------------------------------------------
// Admitting documents
// ---------------------------------------------------------------------------

/// The conflict messages for the `provides:` ids of a doc that are already
/// known, in list order.
pub open spec fn conflict_msgs(
    pids: Seq<DocId>,
    m: Map<Seq<char>, Seq<char>>,
    docs: Seq<Doc>,
    rel: Seq<char>,
) -> Seq<Seq<char>>
    decreases pids.len(),
{
    if pids.len() == 0 {
        Seq::empty()
    } else {
        let rest = conflict_msgs(pids.drop_last(), m, docs, rel);
        let p = pids.last().0@;
        if m.contains_key(p) {
            rest.push(provided_twice_msg(p, doc_with_id(docs, m[p]).rel_path@, rel))
        } else {
            rest
        }
    }
}

/// `m` with each of `keys` mapped to `v`, in order.
pub open spec fn insert_all(m: Map<Seq<char>, Seq<char>>, keys: Seq<DocId>, v: Seq<char>) -> Map<
    Seq<char>,
    Seq<char>,
>
    decreases keys.len(),
{
    if keys.len() == 0 {
        m
    } else {
        insert_all(m, keys.drop_last(), v).insert(keys.last().0@, v)
    }
}

/// `d` is the doc that `refs`, `okf` and the class `cls` describe, found at `rel`.
pub open spec fn doc_from(d: Doc, refs: RefsBlock, okf: OkfMeta, cls: DocClass, rel: Seq<char>) -> bool {
    &&& d.id == refs.id
    &&& d.class == cls
    &&& d.title == refs.title
    &&& d.spec == refs.spec
    &&& d.rel_path@ == rel
    &&& d.provides == refs.provides
    &&& d.implements == refs.implements
    &&& d.depends_on == refs.depends_on
    &&& d.related == refs.related
    &&& d.modules == refs.modules
    &&& d.description == okf.description
    &&& d.resource == okf.resource
    &&& d.tags@ == okf.tags@
    &&& d.timestamp == okf.timestamp
}

/// Every `provides:` id of every doc is known and owned by that doc.
pub open spec fn provides_owned(docs: Seq<Doc>, m: Map<Seq<char>, Seq<char>>) -> bool {
    forall|i: int, q: int|
        0 <= i < docs.len() && 0 <= q < docs[i].provides@.len() ==> m.contains_key(
            (#[trigger] docs[i].provides@[q]).0@,
        ) && m[docs[i].provides@[q].0@] == docs[i].id.0@
}

/// Docs and ids collected so far, with the errors found on the way.
pub struct GraphBuilder {
    /// Admitted docs, ordered by id.
    pub docs: Vec<Doc>,
    /// Every known id (including `provides:` aliases) to its owning doc id.
    pub id_to_doc: Vec<(DocId, DocId)>,
    pub errors: Vec<String>,
}

/// What admitting the normalized front matter `refs`/`okf` of the doc at
/// `rel` does to the builder `o`, giving `f`: an unknown kind, a class
/// error, an id already known (a doc id or a `provides:` id), or `provides:`
/// ids already known are recorded as
/// errors and change nothing else; otherwise the doc and its ids are added.
pub open spec fn admitted(
    o: GraphBuilder,
    f: GraphBuilder,
    manifest: Manifest,
    rel: Seq<char>,
    refs: RefsBlock,
    okf: OkfMeta,
) -> bool {
    let known = text_set(manifest.kinds@).contains(refs.kind.0@);
    let cls = class_of(refs.kind, refs.generated, refs.indexes_kind);
    let dup = o.ids().contains_key(refs.id.0@);
    let conflicts = conflict_msgs(refs.provides@, o.ids(), o.docs@, rel);
    if !known {
        f.docs@ == o.docs@ && f.id_to_doc@ == o.id_to_doc@ && texts(f.errors@) == texts(
            o.errors@,
        ).push(unknown_kind_msg(rel, refs.id.0@, refs.kind.0@))
    } else if cls is Err {
        f.docs@ == o.docs@ && f.id_to_doc@ == o.id_to_doc@ && texts(f.errors@) == texts(
            o.errors@,
        ).push(
            class_msg(cls->Err_0, rel, refs.id.0@, refs.kind.0@, refs.generated),
        )
    } else if dup {
        f.docs@ == o.docs@ && f.id_to_doc@ == o.id_to_doc@ && texts(f.errors@) == texts(
            o.errors@,
        ).push(
            duplicate_id_msg(
                refs.id.0@,
                doc_with_id(o.docs@, o.ids()[refs.id.0@]).rel_path@,
                rel,
            ),
        )
    } else if conflicts.len() > 0 {
        f.docs@ == o.docs@ && f.id_to_doc@ == o.id_to_doc@ && texts(f.errors@) == texts(
            o.errors@,
        ) + conflicts
    } else {
        &&& f.errors@ == o.errors@
        &&& f.ids() == insert_all(o.ids(), refs.provides@, refs.id.0@).insert(
            refs.id.0@,
            refs.id.0@,
        )
        &&& text_set(f.docs@) == text_set(o.docs@).insert(refs.id.0@)
        &&& forall|d: Doc| o.docs@.contains(d) ==> f.docs@.contains(d)
        &&& exists|d: Doc|
            f.docs@.contains(d) && doc_from(d, refs, okf, cls->Ok_0, rel)
    }
}

/// Admission reads the OKF metadata by value: two metadata records with the
/// same fields admit alike.
pub proof fn lemma_admission_reads_metadata(
    o: GraphBuilder,
    f: GraphBuilder,
    manifest: Manifest,
    rel: Seq<char>,
    refs: RefsBlock,
    m1: OkfMeta,
    m2: OkfMeta,
)
    requires
        m1.description == m2.description,
        m1.resource == m2.resource,
        m1.timestamp == m2.timestamp,
        m1.tags@ == m2.tags@,
    ensures
        admitted(o, f, manifest, rel, refs, m1) == admitted(o, f, manifest, rel, refs, m2),
{
    let cls = class_of(refs.kind, refs.generated, refs.indexes_kind);
    if cls is Ok {
        assert forall|d: Doc| doc_from(d, refs, m1, cls->Ok_0, rel) == doc_from(
            d,
            refs,
            m2,
            cls->Ok_0,
            rel,
        ) by {}
    }
}

impl GraphBuilder {
    pub open spec fn ids(&self) -> Map<Seq<char>, Seq<char>> {
        id_map(self.id_to_doc@)
    }

    /// Docs are ordered by id and well formed; every doc id is known and
    /// owns itself; every `provides:` id is owned by the doc that provides
    /// it; every known id is owned by an admitted doc.
    pub open spec fn wf(&self) -> bool {
        &&& sorted_strict(texts(self.docs@))
        &&& keys_unique(self.id_to_doc@)
        &&& forall|i: int| 0 <= i < self.docs@.len() ==> (#[trigger] self.docs@[i]).wf()
        &&& forall|i: int|
            0 <= i < self.docs@.len() ==> self.ids().contains_key((#[trigger] self.docs@[i]).id.0@)
                && self.ids()[self.docs@[i].id.0@] == self.docs@[i].id.0@
        &&& provides_owned(self.docs@, self.ids())
        &&& forall|k: Seq<char>| #[trigger]
            self.ids().contains_key(k) ==> text_set(self.docs@).contains(self.ids()[k])
    }

    pub fn new() -> (r: GraphBuilder)
        ensures
            r.wf(),
            r.docs@.len() == 0,
            r.id_to_doc@.len() == 0,
            r.errors@.len() == 0,
    {
        let r = GraphBuilder { docs: Vec::new(), id_to_doc: Vec::new(), errors: Vec::new() };
        assert(texts(r.docs@) =~= Seq::empty());
        r
    }

    /// Records an error found outside the front matter (an unreadable file,
    /// malformed metadata, a YAML error).
    pub fn report(&mut self, msg: String)
        ensures
            final(self).docs == old(self).docs,
            final(self).id_to_doc == old(self).id_to_doc,
            final(self).errors@ == old(self).errors@.push(msg),
            old(self).wf() ==> final(self).wf(),
    {
        self.errors.push(msg);
        proof {
            assert(self.ids() == old(self).ids());
        }
    }

    /// Admits the normalized front matter of the doc at `rel`, or records why
    /// it cannot be admitted: an unknown kind, a kind that disagrees with
    /// `generated`/`indexes_kind`, an id already known (as another doc's id
    /// or `provides:` id), or `provides:` ids already known (one error per
    /// such id).
    pub fn add(&mut self, manifest: &Manifest, rel: &str, refs: RefsBlock, okf: OkfMeta)
        requires
            old(self).wf(),
        ensures
            final(self).wf(),
            admitted(*old(self), *final(self), *manifest, rel@, refs, okf),
    {
        let ghost o_docs = self.docs@;
        let ghost o_ids = self.ids();
        let ghost o_map = self.id_to_doc@;
        let ghost refs0 = refs;
        if !manifest.knows(&refs.kind) {
            let m = unknown_kind_message(rel, refs.id.as_str(), refs.kind.as_str());
            self.errors.push(m);
            assert(texts(self.errors@) =~= texts(old(self).errors@).push(m@));
            return ;
        }
        let RefsBlock {
            id,
            kind,
            title,
            spec,
            provides,
            implements,
            depends_on,
            related,
            modules,
            generated,
            indexes_kind,
        } = refs;
        let kind_copy = kind.duplicate();
        let class = match classify(kind, generated, indexes_kind) {
            Ok(c) => c,
            Err(e) => {
                let m = class_message(&e, rel, id.as_str(), kind_copy.as_str(), generated);
                self.errors.push(m);
                assert(texts(self.errors@) =~= texts(old(self).errors@).push(m@));
                return ;
            },
        };
        proof {
            crate::model::lemma_classified_regular_not_index(
                refs0.kind,
                refs0.generated,
                refs0.indexes_kind,
            );
        }
        match find_key(&self.id_to_doc, id.as_str()) {
            Some(j) => {
                proof {
                    lemma_key_index(self.id_to_doc@, j as int);
                    assert(o_ids.contains_key(id.0@));
                    assert(text_set(self.docs@).contains(o_ids[id.0@]));
                }
                let path = match find_doc(&self.docs, self.id_to_doc[j].1.as_str()) {
                    Some(q) => {
                        proof {
                            lemma_doc_with_id(self.docs@, q as int);
                        }
                        owned(self.docs[q].rel_path.as_str())
                    },
                    None => String::new(),
                };
                let m = duplicate_id_message(id.as_str(), path.as_str(), rel);
                self.errors.push(m);
                assert(texts(self.errors@) =~= texts(old(self).errors@).push(m@));
                return ;
            },
            None => {
                assert(!o_ids.contains_key(id.0@));
            },
        }
        let mut msgs: Vec<String> = Vec::new();
        let mut i: usize = 0;
        while i < provides.len()
            invariant
                self.wf(),
                self.docs@ == o_docs,
                self.id_to_doc@ == o_map,
                self.errors@ == old(self).errors@,
                o_ids == id_map(o_map),
                i <= provides@.len(),
                texts(msgs@) == conflict_msgs(provides@.take(i as int), o_ids, o_docs, rel@),
            decreases provides@.len() - i,
        {
            let ghost p = provides@[i as int].0@;
            proof {
                assert(provides@.take(i + 1).drop_last() =~= provides@.take(i as int));
                assert(provides@.take(i + 1).last() == provides@[i as int]);
            }
            match find_key(&self.id_to_doc, provides[i].as_str()) {
                Some(j) => {
                    proof {
                        lemma_key_index(self.id_to_doc@, j as int);
                        assert(o_ids.contains_key(p));
                    }
                    let owner = &self.id_to_doc[j].1;
                    proof {
                        assert(self.ids().contains_key(p));
                        assert(self.ids()[p] == owner.0@);
                        assert(text_set(self.docs@).contains(owner.0@));
                    }
                    let path = match find_doc(&self.docs, owner.as_str()) {
                        Some(q) => {
                            proof {
                                lemma_doc_with_id(self.docs@, q as int);
                            }
                            owned(self.docs[q].rel_path.as_str())
                        },
                        None => String::new(),
                    };
                    let m = provided_twice_message(provides[i].as_str(), path.as_str(), rel);
                    let ghost before = texts(msgs@);
                    msgs.push(m);
                    assert(texts(msgs@) =~= before.push(m@));
                },
                None => {
                    assert(!o_ids.contains_key(p));
                },
            }
            i = i + 1;
        }
        assert(provides@.take(provides@.len() as int) =~= provides@);
        if msgs.len() > 0 {
            let mut k: usize = 0;
            let ghost base = texts(self.errors@);
            while k < msgs.len()
                invariant
                    k <= msgs@.len(),
                    texts(self.errors@) == base + texts(msgs@).take(k as int),
                    self.docs@ == o_docs,
                    self.id_to_doc@ == o_map,
                decreases msgs@.len() - k,
            {
                let m = owned(msgs[k].as_str());
                let ghost before = texts(self.errors@);
                self.errors.push(m);
                assert(texts(self.errors@) =~= before.push(m@));
                assert(texts(msgs@)[k as int] == m@);
                assert(texts(msgs@).take(k + 1) =~= texts(msgs@).take(k as int).push(m@));
                assert(texts(self.errors@) =~= base + texts(msgs@).take(k + 1));
                k = k + 1;
            }
            assert(texts(msgs@).take(msgs@.len() as int) =~= texts(msgs@));
            return ;
        }
        proof {
            lemma_no_conflicts(provides@, o_ids, o_docs, rel@);
        }
        let mut i: usize = 0;
        while i < provides.len()
            invariant
                i <= provides@.len(),
                self.docs@ == o_docs,
                self.errors@ == old(self).errors@,
                sorted_strict(texts(o_docs)),
                keys_unique(self.id_to_doc@),
                self.ids() == insert_all(o_ids, provides@.take(i as int), id.0@),
            decreases provides@.len() - i,
        {
            ids_insert(&mut self.id_to_doc, provides[i].duplicate(), id.duplicate());
            proof {
                assert(provides@.take(i + 1).drop_last() =~= provides@.take(i as int));
                assert(provides@.take(i + 1).last() == provides@[i as int]);
            }
            i = i + 1;
        }
        assert(provides@.take(provides@.len() as int) =~= provides@);
        ids_insert(&mut self.id_to_doc, id.duplicate(), id.duplicate());
        let ghost new_id = id.0@;
        let doc = Doc {
            id,
            class,
            title,
            spec,
            rel_path: owned(rel),
            provides,
            implements,
            depends_on,
            related,
            modules,
            description: okf.description,
            resource: okf.resource,
            tags: okf.tags,
            timestamp: okf.timestamp,
        };
        let ghost d = doc;
        sorted_insert(&mut self.docs, doc);
        proof {
            lemma_insert_all(o_ids, refs0.provides@, new_id);
            let f = self.ids();
            assert forall|q: int| 0 <= q < self.docs@.len() implies (#[trigger] self.docs@[q]).wf() by {
                if !o_docs.contains(self.docs@[q]) {
                    assert(self.docs@[q] == d);
                } else {
                    let w = choose|w: int| 0 <= w < o_docs.len() && o_docs[w] == self.docs@[q];
                    assert(o_docs[w].wf());
                }
            }
            assert forall|q: int| 0 <= q < self.docs@.len() implies f.contains_key(
                (#[trigger] self.docs@[q]).id.0@,
            ) && f[self.docs@[q].id.0@] == self.docs@[q].id.0@ by {
                let e = self.docs@[q];
                if e.id.0@ != new_id {
                    assert(o_docs.contains(e));
                    let w = choose|w: int| 0 <= w < o_docs.len() && o_docs[w] == e;
                    assert(o_ids.contains_key(o_docs[w].id.0@));
                    assert(!in_keys(refs0.provides@, e.id.0@));
                }
            }
            assert forall|k: Seq<char>| #[trigger] f.contains_key(k) implies text_set(
                self.docs@,
            ).contains(f[k]) by {
                assert(texts(self.docs@).to_set() == text_set(self.docs@));
                if k == new_id || in_keys(refs0.provides@, k) {
                    assert(f[k] == new_id);
                } else {
                    assert(o_ids.contains_key(k));
                    assert(text_set(o_docs).contains(o_ids[k]));
                }
            }
            assert forall|q: int, r: int|
                0 <= q < self.docs@.len() && 0 <= r < self.docs@[q].provides@.len() implies f.contains_key(
                (#[trigger] self.docs@[q].provides@[r]).0@,
            ) && f[self.docs@[q].provides@[r].0@] == self.docs@[q].id.0@ by {
                let e = self.docs@[q];
                let p = e.provides@[r].0@;
                if e.id.0@ == new_id {
                    assert(e == d) by {
                        if e != d {
                            assert(o_docs.contains(e));
                            let w = choose|w: int| 0 <= w < o_docs.len() && o_docs[w] == e;
                            assert(o_ids.contains_key(o_docs[w].id.0@));
                        }
                    }
                    assert(in_keys(refs0.provides@, p));
                } else {
                    assert(o_docs.contains(e));
                    let w = choose|w: int| 0 <= w < o_docs.len() && o_docs[w] == e;
                    assert(o_docs[w].provides@[r] == e.provides@[r]);
                    assert(o_ids.contains_key(p) && o_ids[p] == e.id.0@);
                    assert(!in_keys(refs0.provides@, p));
                    assert(p != new_id);
                }
            }
            assert(self.docs@.contains(d));
            assert(doc_from(d, refs0, okf, class, rel@));
            assert(f == insert_all(o_ids, refs0.provides@, new_id).insert(new_id, new_id));
            assert(text_set(self.docs@) == text_set(o_docs).insert(new_id));
        }
    }
}

/// Some element of `keys` has the text `k`.
pub open spec fn in_keys(keys: Seq<DocId>, k: Seq<char>) -> bool {
    exists|i: int| 0 <= i < keys.len() && (#[trigger] keys[i]).0@ == k
}

pub proof fn lemma_insert_all(m: Map<Seq<char>, Seq<char>>, keys: Seq<DocId>, v: Seq<char>)
    ensures
        forall|k: Seq<char>| #[trigger]
            insert_all(m, keys, v).contains_key(k) <==> (m.contains_key(k) || in_keys(keys, k)),
        forall|k: Seq<char>| #[trigger] in_keys(keys, k) ==> insert_all(m, keys, v)[k] == v,
        forall|k: Seq<char>|
            !in_keys(keys, k) && m.contains_key(k) ==> #[trigger] insert_all(m, keys, v)[k] == m[k],
    decreases keys.len(),
{
    if keys.len() > 0 {
        let rest = keys.drop_last();
        let last = keys.last().0@;
        lemma_insert_all(m, rest, v);
        assert forall|k: Seq<char>|
            #![trigger in_keys(keys, k)]
            #![trigger insert_all(m, keys, v)[k]]
            #![trigger insert_all(m, keys, v).contains_key(k)]
        {
            &&& insert_all(m, keys, v).contains_key(k) <==> (m.contains_key(k) || in_keys(
                keys,
                k,
            ))
            &&& in_keys(keys, k) ==> insert_all(m, keys, v)[k] == v
            &&& !in_keys(keys, k) && m.contains_key(k) ==> insert_all(m, keys, v)[k] == m[k]
        } by {
            let prev = insert_all(m, rest, v);
            assert(insert_all(m, keys, v) == prev.insert(last, v));
            assert(prev.contains_key(k) <==> (m.contains_key(k) || in_keys(rest, k)));
            if in_keys(rest, k) {
                assert(prev[k] == v);
            }
            if !in_keys(rest, k) && m.contains_key(k) {
                assert(prev[k] == m[k]);
            }
            assert(in_keys(keys, k) <==> (in_keys(rest, k) || k == last)) by {
                if in_keys(keys, k) {
                    let i = choose|i: int| 0 <= i < keys.len() && (#[trigger] keys[i]).0@ == k;
                    if i < rest.len() {
                        assert(rest[i] == keys[i]);
                    }
                }
                if in_keys(rest, k) {
                    let i = choose|i: int| 0 <= i < rest.len() && (#[trigger] rest[i]).0@ == k;
                    assert(keys[i] == rest[i]);
                }
                if k == last {
                    assert(keys[keys.len() - 1].0@ == k);
                }
            }
        }
    }
}

/// With no conflict message, none of `pids` is already known.
pub proof fn lemma_no_conflicts(
    pids: Seq<DocId>,
    m: Map<Seq<char>, Seq<char>>,
    docs: Seq<Doc>,
    rel: Seq<char>,
)
    requires
        conflict_msgs(pids, m, docs, rel).len() == 0,
    ensures
        forall|k: Seq<char>| #[trigger] in_keys(pids, k) ==> !m.contains_key(k),
    decreases pids.len(),
{
    if pids.len() > 0 {
        let rest = pids.drop_last();
        lemma_no_conflicts(rest, m, docs, rel);
        assert forall|k: Seq<char>| #[trigger] in_keys(pids, k) implies !m.contains_key(k) by {
            let i = choose|i: int| 0 <= i < pids.len() && (#[trigger] pids[i]).0@ == k;
            if i < rest.len() {
                assert(rest[i] == pids[i]);
                assert(in_keys(rest, k));
            }
        }
    }
}

// ---------------------------------------------------------------------------
// Edges
// ---------------------------------------------------------------------------

pub type Pair = (Seq<char>, Seq<char>);

/// A relation between ids, as the list of its pairs (repeats allowed).
#[derive(Debug)]
pub struct EdgeMap {
    pub pairs: Vec<(DocId, DocId)>,
}

pub open spec fn pair_view(p: (DocId, DocId)) -> Pair {
    (p.0.0@, p.1.0@)
}

pub open spec fn pair_views(s: Seq<(DocId, DocId)>) -> Seq<Pair> {
    s.map_values(|p: (DocId, DocId)| pair_view(p))
}

pub open spec fn flip(p: Pair) -> Pair {
    (p.1, p.0)
}

pub open spec fn flip_all(s: Seq<Pair>) -> Seq<Pair> {
    s.map_values(|p: Pair| flip(p))
}

/// Ids related to `k` by `rel`.
pub open spec fn image_of(rel: Set<Pair>, k: Seq<char>) -> Set<Seq<char>> {
    Set::new(|t: Seq<char>| rel.contains((k, t)))
}

impl EdgeMap {
    pub open spec fn rel(&self) -> Set<Pair> {
        pair_views(self.pairs@).to_set()
    }

    pub fn new() -> (r: EdgeMap)
        ensures
            r.pairs@.len() == 0,
    {
        EdgeMap { pairs: Vec::new() }
    }

    /// The ids related to `k`, ordered and without repeats (empty when `k`
    /// has no entry).
    pub fn get(&self, k: &str) -> (r: Vec<DocId>)
        ensures
            sorted_strict(texts(r@)),
            text_set(r@) == image_of(self.rel(), k@),
    {
        let mut r: Vec<DocId> = Vec::new();
        let mut i: usize = 0;
        while i < self.pairs.len()
            invariant
                i <= self.pairs@.len(),
                sorted_strict(texts(r@)),
                text_set(r@) == Set::new(
                    |t: Seq<char>|
                        exists|j: int|
                            0 <= j < i && #[trigger] pair_view(self.pairs@[j]) == (k@, t),
                ),
            decreases self.pairs@.len() - i,
        {
            if text_eq(self.pairs[i].0.as_str(), k) {
                let ghost before = text_set(r@);
                let t = self.pairs[i].1.duplicate();
                sorted_insert(&mut r, t);
                proof {
                    assert(pair_view(self.pairs@[i as int]) == (k@, t.0@));
                    assert(text_set(r@) =~= Set::new(
                        |u: Seq<char>|
                            exists|j: int|
                                0 <= j < i + 1 && #[trigger] pair_view(self.pairs@[j]) == (k@, u),
                    ));
                }
            } else {
                proof {
                    assert(text_set(r@) =~= Set::new(
                        |u: Seq<char>|
                            exists|j: int|
                                0 <= j < i + 1 && #[trigger] pair_view(self.pairs@[j]) == (k@, u),
                    )) by {
                        assert(pair_view(self.pairs@[i as int]).0 != k@);
                    }
                }
            }
            i = i + 1;
        }
        proof {
            assert forall|t: Seq<char>| text_set(r@).contains(t) <==> #[trigger] image_of(
                self.rel(),
                k@,
            ).contains(t) by {
                let pv = pair_views(self.pairs@);
                if image_of(self.rel(), k@).contains(t) {
                    assert(pv.contains((k@, t)));
                    let j = choose|j: int| 0 <= j < pv.len() && pv[j] == (k@, t);
                    assert(pair_view(self.pairs@[j]) == (k@, t));
                }
                if text_set(r@).contains(t) {
                    let j = choose|j: int|
                        0 <= j < self.pairs@.len() && #[trigger] pair_view(self.pairs@[j]) == (
                            k@,
                            t,
                        );
                    assert(pv[j] == (k@, t));
                }
            }
            assert(text_set(r@) =~= image_of(self.rel(), k@));
        }
        r
    }
}

/// Pairs `(id, t)` for the targets `t` in `ts` that are known ids.
pub open spec fn target_pairs(id: Seq<char>, ts: Seq<DocId>, m: Map<Seq<char>, Seq<char>>) -> Seq<
    Pair,
>
    decreases ts.len(),
{
    if ts.len() == 0 {
        Seq::empty()
    } else {
        let rest = target_pairs(id, ts.drop_last(), m);
        if m.contains_key(ts.last().0@) {
            rest.push((id, ts.last().0@))
        } else {
            rest
        }
    }
}

pub open spec fn dangling_msg(rel: Seq<char>, id: Seq<char>, t: Seq<char>, soft: bool) -> Seq<
    char,
> {
    rel + " ("@ + id + "): dangling reference `"@ + t + "`"@ + if soft {
        " (related)"@
    } else {
        Seq::empty()
    }
}

/// Messages for the targets in `ts` that are not known ids.
pub open spec fn dangling_list(
    d: Doc,
    ts: Seq<DocId>,
    m: Map<Seq<char>, Seq<char>>,
    soft: bool,
) -> Seq<Seq<char>>
    decreases ts.len(),
{
    if ts.len() == 0 {
        Seq::empty()
    } else {
        let rest = dangling_list(d, ts.drop_last(), m, soft);
        if m.contains_key(ts.last().0@) {
            rest
        } else {
            rest.push(dangling_msg(d.rel_path@, d.id.0@, ts.last().0@, soft))
        }
    }
}

/// Hard edges (`implements` then `depends_on`) of the docs, in doc order.
pub open spec fn hard_pairs(docs: Seq<Doc>, m: Map<Seq<char>, Seq<char>>) -> Seq<Pair>
    decreases docs.len(),
{
    if docs.len() == 0 {
        Seq::empty()
    } else {
        let d = docs.last();
        hard_pairs(docs.drop_last(), m) + target_pairs(d.id.0@, d.implements@, m) + target_pairs(
            d.id.0@,
            d.depends_on@,
            m,
        )
    }
}

proof fn lemma_target_pair(id: Seq<char>, ts: Seq<DocId>, m: Map<Seq<char>, Seq<char>>, q: int)
    requires
        0 <= q < ts.len(),
        m.contains_key(ts[q].0@),
    ensures
        target_pairs(id, ts, m).contains((id, ts[q].0@)),
    decreases ts.len(),
{
    let rest = target_pairs(id, ts.drop_last(), m);
    if q == ts.len() - 1 {
        assert(target_pairs(id, ts, m) == rest.push((id, ts[q].0@)));
        assert(target_pairs(id, ts, m)[rest.len() as int] == (id, ts[q].0@));
    } else {
        assert(ts.drop_last()[q] == ts[q]);
        lemma_target_pair(id, ts.drop_last(), m, q);
        let i = choose|i: int| 0 <= i < rest.len() && rest[i] == (id, ts[q].0@);
        if m.contains_key(ts.last().0@) {
            assert(target_pairs(id, ts, m)[i] == (id, ts[q].0@));
        }
    }
}

/// A doc that depends on (or implements) a known id has a hard edge to it.
pub proof fn lemma_hard_edge_of(docs: Seq<Doc>, m: Map<Seq<char>, Seq<char>>, b: int, t: Seq<char>)
    requires
        0 <= b < docs.len(),
        texts(docs[b].depends_on@).contains(t) || texts(docs[b].implements@).contains(t),
        m.contains_key(t),
    ensures
        hard_pairs(docs, m).contains((docs[b].id.0@, t)),
    decreases docs.len(),
{
    let d = docs.last();
    let prev = hard_pairs(docs.drop_last(), m);
    let ti = target_pairs(d.id.0@, d.implements@, m);
    let td = target_pairs(d.id.0@, d.depends_on@, m);
    assert(hard_pairs(docs, m) == prev + ti + td);
    if b == docs.len() - 1 {
        if texts(d.depends_on@).contains(t) {
            let q = choose|q: int| 0 <= q < texts(d.depends_on@).len() && texts(d.depends_on@)[q] == t;
            lemma_target_pair(d.id.0@, d.depends_on@, m, q);
            let i = choose|i: int| 0 <= i < td.len() && td[i] == (d.id.0@, t);
            assert((prev + ti + td)[prev.len() + ti.len() + i] == (d.id.0@, t));
        } else {
            let q = choose|q: int| 0 <= q < texts(d.implements@).len() && texts(d.implements@)[q] == t;
            lemma_target_pair(d.id.0@, d.implements@, m, q);
            let i = choose|i: int| 0 <= i < ti.len() && ti[i] == (d.id.0@, t);
            assert((prev + ti + td)[prev.len() + i] == (d.id.0@, t));
        }
    } else {
        assert(docs.drop_last()[b] == docs[b]);
        lemma_hard_edge_of(docs.drop_last(), m, b, t);
        let i = choose|i: int| 0 <= i < prev.len() && prev[i] == (docs[b].id.0@, t);
        assert((prev + ti + td)[i] == (docs[b].id.0@, t));
    }
}

/// A doc that mentions a known id in `related:` has a soft edge to it.
pub proof fn lemma_soft_edge_of(docs: Seq<Doc>, m: Map<Seq<char>, Seq<char>>, b: int, t: Seq<char>)
    requires
        0 <= b < docs.len(),
        texts(docs[b].related@).contains(t),
        m.contains_key(t),
    ensures
        soft_pairs(docs, m).contains((docs[b].id.0@, t)),
    decreases docs.len(),
{
    let d = docs.last();
    let prev = soft_pairs(docs.drop_last(), m);
    let tr = target_pairs(d.id.0@, d.related@, m);
    assert(soft_pairs(docs, m) == prev + tr);
    if b == docs.len() - 1 {
        let q = choose|q: int| 0 <= q < texts(d.related@).len() && texts(d.related@)[q] == t;
        lemma_target_pair(d.id.0@, d.related@, m, q);
        let i = choose|i: int| 0 <= i < tr.len() && tr[i] == (d.id.0@, t);
        assert((prev + tr)[prev.len() + i] == (d.id.0@, t));
    } else {
        assert(docs.drop_last()[b] == docs[b]);
        lemma_soft_edge_of(docs.drop_last(), m, b, t);
        let i = choose|i: int| 0 <= i < prev.len() && prev[i] == (docs[b].id.0@, t);
        assert((prev + tr)[i] == (docs[b].id.0@, t));
    }
}

/// Soft edges (`related`) of the docs, in doc order.
pub open spec fn soft_pairs(docs: Seq<Doc>, m: Map<Seq<char>, Seq<char>>) -> Seq<Pair>
    decreases docs.len(),
{
    if docs.len() == 0 {
        Seq::empty()
    } else {
        let d = docs.last();
        soft_pairs(docs.drop_last(), m) + target_pairs(d.id.0@, d.related@, m)
    }
}

/// Dangling-reference messages of the docs, in doc order: for each doc its
/// `related` targets, then `implements`, then `depends_on`.
pub open spec fn dangling_msgs(docs: Seq<Doc>, m: Map<Seq<char>, Seq<char>>) -> Seq<Seq<char>>
    decreases docs.len(),
{
    if docs.len() == 0 {
        Seq::empty()
    } else {
        let d = docs.last();
        dangling_msgs(docs.drop_last(), m) + dangling_list(d, d.related@, m, true) + dangling_list(
            d,
            d.implements@,
            m,
            false,
        ) + dangling_list(d, d.depends_on@, m, false)
    }
}

fn dangling_message(d: &Doc, t: &str, soft: bool) -> (r: String)
    ensures
        r@ == dangling_msg(d.rel_path@, d.id.0@, t@, soft),
{
    let mut m = owned(d.rel_path.as_str());
    push_str(&mut m, " (");
    push_str(&mut m, d.id.as_str());
    push_str(&mut m, "): dangling reference `");
    push_str(&mut m, t);
    push_str(&mut m, "`");
    if soft {
        push_str(&mut m, " (related)");
    } else {
        assert(m@ + Seq::<char>::empty() =~= m@);
    }
    m
}

/// Adds the edges from `d` to its known targets `ts` to `fwd` (and the
/// flipped edges to `rev`); records a message for each unknown target.
fn add_targets(
    d: &Doc,
    ts: &Vec<DocId>,
    ids: &Vec<(DocId, DocId)>,
    soft: bool,
    fwd: &mut EdgeMap,
    rev: &mut EdgeMap,
    errors: &mut Vec<String>,
)
    ensures
        pair_views(final(fwd).pairs@) == pair_views(old(fwd).pairs@) + target_pairs(
            d.id.0@,
            ts@,
            id_map(ids@),
        ),
        pair_views(final(rev).pairs@) == pair_views(old(rev).pairs@) + flip_all(
            target_pairs(d.id.0@, ts@, id_map(ids@)),
        ),
        texts(final(errors)@) == texts(old(errors)@) + dangling_list(*d, ts@, id_map(ids@), soft),
{
    let ghost m = id_map(ids@);
    let ghost f0 = pair_views(fwd.pairs@);
    let ghost r0 = pair_views(rev.pairs@);
    let ghost e0 = texts(errors@);
    let mut j: usize = 0;
    while j < ts.len()
        invariant
            j <= ts@.len(),
            m == id_map(ids@),
            pair_views(fwd.pairs@) == f0 + target_pairs(d.id.0@, ts@.take(j as int), m),
            pair_views(rev.pairs@) == r0 + flip_all(target_pairs(d.id.0@, ts@.take(j as int), m)),
            texts(errors@) == e0 + dangling_list(*d, ts@.take(j as int), m, soft),
        decreases ts@.len() - j,
    {
        let ghost t = ts@[j as int].0@;
        proof {
            assert(ts@.take(j + 1).drop_last() =~= ts@.take(j as int));
            assert(ts@.take(j + 1).last() == ts@[j as int]);
        }
        match find_key(ids, ts[j].as_str()) {
            Some(k) => {
                proof {
                    assert(has_key(ids@, t));
                }
                let ghost fb = pair_views(fwd.pairs@);
                let ghost rb = pair_views(rev.pairs@);
                fwd.pairs.push((d.id.duplicate(), ts[j].duplicate()));
                rev.pairs.push((ts[j].duplicate(), d.id.duplicate()));
                proof {
                    let tp = target_pairs(d.id.0@, ts@.take(j as int), m);
                    assert(pair_views(fwd.pairs@) =~= fb.push((d.id.0@, t)));
                    assert(pair_views(rev.pairs@) =~= rb.push((t, d.id.0@)));
                    assert(flip_all(tp.push((d.id.0@, t))) =~= flip_all(tp).push((t, d.id.0@)));
                    assert(pair_views(fwd.pairs@) =~= f0 + tp.push((d.id.0@, t)));
                    assert(pair_views(rev.pairs@) =~= r0 + flip_all(tp.push((d.id.0@, t))));
                }
            },
            None => {
                let msg = dangling_message(d, ts[j].as_str(), soft);
                let ghost eb = texts(errors@);
                errors.push(msg);
                proof {
                    assert(texts(errors@) =~= eb.push(msg@));
                    assert(texts(errors@) =~= e0 + dangling_list(
                        *d,
                        ts@.take(j as int),
                        m,
                        soft,
                    ).push(msg@));
                }
            },
        }
        j = j + 1;
    }
    assert(ts@.take(ts@.len() as int) =~= ts@);
}

/// The hard (`implements` + `depends_on`) and soft (`related`) edges of the
/// docs, forward and reversed, keeping only targets that are known ids; each
/// unknown target is a dangling-reference error.
pub fn build_edges(
    docs: &Vec<Doc>,
    id_to_doc: &Vec<(DocId, DocId)>,
    errors: &mut Vec<String>,
) -> (r: (EdgeMap, EdgeMap, EdgeMap, EdgeMap))
    ensures
        pair_views(r.0.pairs@) == hard_pairs(docs@, id_map(id_to_doc@)),
        pair_views(r.1.pairs@) == flip_all(hard_pairs(docs@, id_map(id_to_doc@))),
        pair_views(r.2.pairs@) == soft_pairs(docs@, id_map(id_to_doc@)),
        pair_views(r.3.pairs@) == flip_all(soft_pairs(docs@, id_map(id_to_doc@))),
        texts(final(errors)@) == texts(old(errors)@) + dangling_msgs(docs@, id_map(id_to_doc@)),
{
    let ghost m = id_map(id_to_doc@);
    let ghost e0 = texts(errors@);
    let mut forward = EdgeMap::new();
    let mut reverse = EdgeMap::new();
    let mut related_forward = EdgeMap::new();
    let mut related_reverse = EdgeMap::new();
    let mut i: usize = 0;
    assert(pair_views(forward.pairs@) =~= Seq::empty());
    assert(pair_views(reverse.pairs@) =~= Seq::empty());
    assert(pair_views(related_forward.pairs@) =~= Seq::empty());
    assert(pair_views(related_reverse.pairs@) =~= Seq::empty());
    assert(flip_all(Seq::<Pair>::empty()) =~= Seq::empty());
    while i < docs.len()
        invariant
            i <= docs@.len(),
            m == id_map(id_to_doc@),
            pair_views(forward.pairs@) == hard_pairs(docs@.take(i as int), m),
            pair_views(reverse.pairs@) == flip_all(hard_pairs(docs@.take(i as int), m)),
            pair_views(related_forward.pairs@) == soft_pairs(docs@.take(i as int), m),
            pair_views(related_reverse.pairs@) == flip_all(soft_pairs(docs@.take(i as int), m)),
            texts(errors@) == e0 + dangling_msgs(docs@.take(i as int), m),
        decreases docs@.len() - i,
    {
        let d = &docs[i];
        proof {
            assert(docs@.take(i + 1).drop_last() =~= docs@.take(i as int));
            assert(docs@.take(i + 1).last() == docs@[i as int]);
        }
        let ghost h0 = hard_pairs(docs@.take(i as int), m);
        let ghost s0 = soft_pairs(docs@.take(i as int), m);
        add_targets(d, &d.related, id_to_doc, true, &mut related_forward, &mut related_reverse, errors);
        add_targets(d, &d.implements, id_to_doc, false, &mut forward, &mut reverse, errors);
        add_targets(d, &d.depends_on, id_to_doc, false, &mut forward, &mut reverse, errors);
        proof {
            let a = target_pairs(d.id.0@, d.implements@, m);
            let b = target_pairs(d.id.0@, d.depends_on@, m);
            let c = target_pairs(d.id.0@, d.related@, m);
            assert(flip_all(h0 + a + b) =~= flip_all(h0) + flip_all(a) + flip_all(b));
            assert(flip_all(s0 + c) =~= flip_all(s0) + flip_all(c));
            assert(pair_views(forward.pairs@) =~= h0 + a + b);
            assert(texts(errors@) =~= e0 + dangling_msgs(docs@.take(i + 1), m));
        }
        i = i + 1;
    }
    assert(docs@.take(docs@.len() as int) =~= docs@);
    (forward, reverse, related_forward, related_reverse)
}

// ---------------------------------------------------------------------------
// The graph
// ---------------------------------------------------------------------------

/// The cross-reference graph: docs by id, the id table, and the hard
/// (`implements` + `depends_on`) and soft (`related`) edges both ways.
pub struct Graph {
    pub docs: Vec<Doc>,
    pub id_to_doc: Vec<(DocId, DocId)>,
    pub forward: EdgeMap,
    pub reverse: EdgeMap,
    pub related_forward: EdgeMap,
    pub related_reverse: EdgeMap,
}

/// The invariant of a docs list and id table (see `GraphBuilder::wf`).
pub open spec fn table_wf(docs: Seq<Doc>, ids: Seq<(DocId, DocId)>) -> bool {
    &&& sorted_strict(texts(docs))
    &&& keys_unique(ids)
    &&& forall|i: int| 0 <= i < docs.len() ==> (#[trigger] docs[i]).wf()
    &&& forall|i: int|
        0 <= i < docs.len() ==> id_map(ids).contains_key((#[trigger] docs[i]).id.0@)
            && id_map(ids)[docs[i].id.0@] == docs[i].id.0@
    &&& provides_owned(docs, id_map(ids))
    &&& forall|k: Seq<char>| #[trigger]
        id_map(ids).contains_key(k) ==> text_set(docs).contains(id_map(ids)[k])
}

impl Graph {
    pub open spec fn ids(&self) -> Map<Seq<char>, Seq<char>> {
        id_map(self.id_to_doc@)
    }

    pub open spec fn wf(&self) -> bool {
        &&& table_wf(self.docs@, self.id_to_doc@)
        &&& pair_views(self.forward.pairs@) == hard_pairs(self.docs@, self.ids())
        &&& pair_views(self.reverse.pairs@) == flip_all(hard_pairs(self.docs@, self.ids()))
        &&& pair_views(self.related_forward.pairs@) == soft_pairs(self.docs@, self.ids())
        &&& pair_views(self.related_reverse.pairs@) == flip_all(soft_pairs(self.docs@, self.ids()))
    }

    /// Whether `id` is a known id (a doc id or a `provides:` alias).
    pub fn knows_id(&self, id: &str) -> (r: bool)
        ensures
            r == self.ids().contains_key(id@),
    {
        find_key(&self.id_to_doc, id).is_some()
    }

    /// The doc that owns the known id `id`.
    pub fn resolve(&self, id: &str) -> (r: Option<&Doc>)
        requires
            self.wf(),
        ensures
            match r {
                Some(d) => self.ids().contains_key(id@) && d.id.0@ == self.ids()[id@]
                    && self.docs@.contains(*d),
                None => !self.ids().contains_key(id@),
            },
    {
        match find_key(&self.id_to_doc, id) {
            Some(j) => {
                proof {
                    lemma_key_index(self.id_to_doc@, j as int);
                    assert(id_map(self.id_to_doc@).contains_key(id@));
                    assert(text_set(self.docs@).contains(self.ids()[id@]));
                }
                match find_doc(&self.docs, self.id_to_doc[j].1.as_str()) {
                    Some(q) => Some(&self.docs[q]),
                    None => None,
                }
            },
            None => None,
        }
    }
}

impl GraphBuilder {
    /// The graph of the admitted docs, with the dangling-reference errors
    /// appended to those already recorded.
    pub fn finish(self) -> (r: (Graph, Vec<String>))
        requires
            self.wf(),
        ensures
            r.0.wf(),
            r.0.docs@ == self.docs@,
            r.0.id_to_doc@ == self.id_to_doc@,
            texts(r.1@) == texts(self.errors@) + dangling_msgs(self.docs@, self.ids()),
    {
        let GraphBuilder { docs, id_to_doc, mut errors } = self;
        let (forward, reverse, related_forward, related_reverse) = build_edges(
            &docs,
            &id_to_doc,
            &mut errors,
        );
        (Graph { docs, id_to_doc, forward, reverse, related_forward, related_reverse }, errors)
    }
}

/// The known ids of an id table are finitely many.
pub proof fn lemma_ids_finite(s: Seq<(DocId, DocId)>)
    ensures
        id_map(s).dom().finite(),
{
    let keys = s.map_values(|p: (DocId, DocId)| p.0.0@);
    assert forall|k: Seq<char>| #[trigger] id_map(s).dom().contains(k) <==> keys.to_set().contains(k) by {
        if has_key(s, k) {
            let i = choose|i: int| 0 <= i < s.len() && (#[trigger] s[i]).0.0@ == k;
            assert(keys[i] == k);
        }
        if keys.to_set().contains(k) {
            let i = choose|i: int| 0 <= i < keys.len() && keys[i] == k;
            assert(s[i].0.0@ == k);
        }
    }
    assert(id_map(s).dom() =~= keys.to_set());
    vstd::seq_lib::seq_to_set_is_finite(keys);
}

/// Every known id resolves to a doc of the graph, and every doc id resolves
/// to that doc itself.
pub proof fn lemma_known_ids_resolve(g: Graph, k: Seq<char>)
    requires
        g.wf(),
        g.ids().contains_key(k),
    ensures
        text_set(g.docs@).contains(g.ids()[k]),
        g.ids()[g.ids()[k]] == g.ids()[k],
{
    let o = g.ids()[k];
    assert(text_set(g.docs@).contains(o));
    let i = choose|i: int| 0 <= i < texts(g.docs@).len() && texts(g.docs@)[i] == o;
    assert(g.docs@[i].id.0@ == o);
}

/// Ids are unique repo-wide: no two docs of a graph share an id.
pub proof fn lemma_doc_ids_unique(g: Graph, i: int, j: int)
    requires
        g.wf(),
        0 <= i < g.docs@.len(),
        0 <= j < g.docs@.len(),
        i != j,
    ensures
        g.docs@[i].id.0@ != g.docs@[j].id.0@,
{
    let t = texts(g.docs@);
    crate::text::lemma_seq_lt_irreflexive(t[i]);
    if i < j {
        assert(crate::text::seq_lt(t[i], t[j]));
    } else {
        assert(crate::text::seq_lt(t[j], t[i]));
    }
}

/// Ids are unique across doc ids and `provides:` ids alike: no doc provides
/// the id of another doc, and no id is provided by two docs.
pub proof fn lemma_provided_ids_unique(g: Graph, i: int, j: int, a: int, b: int)
    requires
        g.wf(),
        0 <= i < g.docs@.len(),
        0 <= j < g.docs@.len(),
        i != j,
        0 <= b < g.docs@[j].provides@.len(),
    ensures
        g.docs@[j].provides@[b].0@ != g.docs@[i].id.0@,
        0 <= a < g.docs@[i].provides@.len() ==> g.docs@[i].provides@[a].0@
            != g.docs@[j].provides@[b].0@,
        g.ids()[g.docs@[j].provides@[b].0@] == g.docs@[j].id.0@,
{
    lemma_doc_ids_unique(g, i, j);
    let p = g.docs@[j].provides@[b].0@;
    assert(g.ids()[p] == g.docs@[j].id.0@);
    if 0 <= a < g.docs@[i].provides@.len() {
        assert(g.ids()[g.docs@[i].provides@[a].0@] == g.docs@[i].id.0@);
    }
}

/// The reverse hard edges are exactly the forward hard edges turned around,
/// and likewise for the soft edges.
pub proof fn lemma_reverse_is_converse(g: Graph, a: Seq<char>, b: Seq<char>)
    requires
        g.wf(),
    ensures
        g.reverse.rel().contains((a, b)) <==> g.forward.rel().contains((b, a)),
        g.related_reverse.rel().contains((a, b)) <==> g.related_forward.rel().contains((b, a)),
{
    let h = hard_pairs(g.docs@, g.ids());
    let s = soft_pairs(g.docs@, g.ids());
    if g.reverse.rel().contains((a, b)) {
        let i = choose|i: int| 0 <= i < flip_all(h).len() && flip_all(h)[i] == (a, b);
        assert(h[i] == (b, a));
        assert(pair_views(g.forward.pairs@).contains((b, a)));
    }
    if g.forward.rel().contains((b, a)) {
        let i = choose|i: int| 0 <= i < h.len() && h[i] == (b, a);
        assert(flip_all(h)[i] == (a, b));
        assert(pair_views(g.reverse.pairs@).contains((a, b)));
    }
    if g.related_reverse.rel().contains((a, b)) {
        let i = choose|i: int| 0 <= i < flip_all(s).len() && flip_all(s)[i] == (a, b);
        assert(s[i] == (b, a));
        assert(pair_views(g.related_forward.pairs@).contains((b, a)));
    }
    if g.related_forward.rel().contains((b, a)) {
        let i = choose|i: int| 0 <= i < s.len() && s[i] == (b, a);
        assert(flip_all(s)[i] == (a, b));
        assert(pair_views(g.related_reverse.pairs@).contains((a, b)));
    }
}

} // verus!
