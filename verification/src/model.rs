//! The document model: identifiers, kinds, the kinds manifest, front matter
//! in its two shapes, and the classification of a document.
use vstd::prelude::*;

use crate::text::{
    chars_of, contains_text, lemma_push_to_set, sorted_insert, sorted_strict, text_set, texts,
    Textual,
};

verus! {

// ---------------------------------------------------------------------------
// Newtypes
// ---------------------------------------------------------------------------

/// Identifier of a doc node in the cross-reference graph.
#[derive(Debug, Clone, PartialEq, Eq, Hash, PartialOrd, Ord)]
pub struct DocId(pub String);

impl DocId {
    pub fn as_str(&self) -> (r: &str)
        ensures
            r@ == self.0@,
    {
        self.0.as_str()
    }

    /// A copy of this identifier.
    pub fn duplicate(&self) -> (r: DocId)
        ensures
            r == *self,
    {
        DocId(self.0.clone())
    }

    pub fn from_str(s: &str) -> (r: DocId)
        ensures
            r.0@ == s@,
    {
        DocId(s.to_owned())
    }
}

impl Textual for DocId {
    open spec fn text(&self) -> Seq<char> {
        self.0@
    }

    fn as_text(&self) -> (r: &str) {
        self.0.as_str()
    }
}

impl vstd::std_specs::convert::FromSpecImpl<String> for DocId {
    open spec fn obeys_from_spec() -> bool {
        true
    }

    open spec fn from_spec(s: String) -> DocId {
        DocId(s)
    }
}

impl From<String> for DocId {
    fn from(s: String) -> (r: DocId) {
        DocId(s)
    }
}

/// Identifier of a doc kind (the `type:` field in front matter). The literal
/// `"index"` denotes a generated INDEX doc.
#[derive(Debug, Clone, PartialEq, Eq, Hash, PartialOrd, Ord)]
pub struct Kind(pub String);

pub open spec fn index_literal() -> Seq<char> {
    seq!['i', 'n', 'd', 'e', 'x']
}

impl Kind {
    pub const INDEX_LITERAL: &'static str = "index";

    pub fn as_str(&self) -> (r: &str)
        ensures
            r@ == self.0@,
    {
        self.0.as_str()
    }

    /// Whether this is the kind of generated INDEX docs.
    pub fn is_index(&self) -> (r: bool)
        ensures
            r == (self.0@ == index_literal()),
    {
        let v = chars_of(self.0.as_str());
        let lit: Vec<char> = vec!['i', 'n', 'd', 'e', 'x'];
        if v.len() != 5 {
            return false;
        }
        let r = v[0] == 'i' && v[1] == 'n' && v[2] == 'd' && v[3] == 'e' && v[4] == 'x';
        assert(r ==> v@ =~= lit@);
        r
    }

    /// The kind of generated INDEX docs.
    pub fn index() -> (r: Kind)
        ensures
            r.0@ == index_literal(),
    {
        let mut s = String::new();
        crate::text::push_char(&mut s, 'i');
        crate::text::push_char(&mut s, 'n');
        crate::text::push_char(&mut s, 'd');
        crate::text::push_char(&mut s, 'e');
        crate::text::push_char(&mut s, 'x');
        Kind(s)
    }

    pub fn duplicate(&self) -> (r: Kind)
        ensures
            r == *self,
    {
        Kind(self.0.clone())
    }

    pub fn from_str(s: &str) -> (r: Kind)
        ensures
            r.0@ == s@,
    {
        Kind(s.to_owned())
    }
}

impl Textual for Kind {
    open spec fn text(&self) -> Seq<char> {
        self.0@
    }

    fn as_text(&self) -> (r: &str) {
        self.0.as_str()
    }
}

impl vstd::std_specs::convert::FromSpecImpl<String> for Kind {
    open spec fn obeys_from_spec() -> bool {
        true
    }

    open spec fn from_spec(s: String) -> Kind {
        Kind(s)
    }
}

impl From<String> for Kind {
    fn from(s: String) -> (r: Kind) {
        Kind(s)
    }
}

// ---------------------------------------------------------------------------
// Kind manifest
// ---------------------------------------------------------------------------

#[derive(Debug, Clone, Copy, PartialEq, Eq)]
pub enum DeclaredVia {
    /// IDs are declared inside another doc's `provides:` list.
    Provides,
    /// File written by `kusara index`; never hand-edited.
    Generated,
}

#[derive(Debug, Clone)]
pub struct KindIndex {
    pub output: String,
    pub group_by: Option<String>,
}

/// One entry of the kinds manifest.
#[derive(Debug, Clone)]
pub struct KindDef {
    pub name: Kind,
    pub path_globs: Vec<String>,
    pub declared_via: Option<DeclaredVia>,
    pub id_pattern: Option<String>,
    pub singleton: bool,
    pub index: Option<KindIndex>,
}

impl Textual for KindDef {
    open spec fn text(&self) -> Seq<char> {
        self.name.0@
    }

    fn as_text(&self) -> (r: &str) {
        self.name.0.as_str()
    }
}

/// The kinds manifest: its entries ordered by name, each name once.
pub struct Manifest {
    pub kinds: Vec<KindDef>,
}

/// Why a list of kind entries is not a manifest.
#[derive(Debug)]
pub enum ManifestError {
    /// The named kind is declared twice.
    DuplicateKind(Kind),
    /// The named kind has neither `path_globs` nor `declared_via`.
    NoSource(Kind),
}

/// Entry `i` repeats the name of an earlier entry.
pub open spec fn repeats_name(defs: Seq<KindDef>, i: int) -> bool {
    exists|j: int| 0 <= j < i && defs[j].name.0@ == defs[i].name.0@
}

/// Entry `i` says neither where its files are nor how its ids are declared.
pub open spec fn lacks_source(d: KindDef) -> bool {
    d.path_globs@.len() == 0 && d.declared_via is None
}

pub open spec fn bad_entry(defs: Seq<KindDef>, i: int) -> bool {
    repeats_name(defs, i) || lacks_source(defs[i])
}

/// The error that the first bad entry, at `i`, gives.
pub open spec fn entry_error(defs: Seq<KindDef>, i: int) -> ManifestError {
    if repeats_name(defs, i) {
        ManifestError::DuplicateKind(defs[i].name)
    } else {
        ManifestError::NoSource(defs[i].name)
    }
}

impl Manifest {
    pub open spec fn wf(&self) -> bool {
        sorted_strict(texts(self.kinds@))
    }

    /// Builds a manifest from its entries in file order. The first entry that
    /// repeats an earlier name, or has neither `path_globs` nor
    /// `declared_via`, is reported.
    pub fn from_defs(defs: Vec<KindDef>) -> (r: Result<Manifest, ManifestError>)
        ensures
            r is Ok <==> forall|i: int| 0 <= i < defs@.len() ==> !bad_entry(defs@, i),
            r matches Err(e) ==> exists|i: int|
                0 <= i < defs@.len() && bad_entry(defs@, i) && (forall|j: int|
                    0 <= j < i ==> !bad_entry(defs@, j)) && e == entry_error(defs@, i),
            r matches Ok(m) ==> {
                &&& m.wf()
                &&& forall|i: int| 0 <= i < defs@.len() ==> m.kinds@.contains(#[trigger] defs@[i])
                &&& forall|k: int| 0 <= k < m.kinds@.len() ==> defs@.contains(#[trigger] m.kinds@[k])
            },
    {
        let ghost all = defs@;
        let mut kinds: Vec<KindDef> = Vec::new();
        let mut rest = defs;
        let mut i: usize = 0;
        let n = rest.len();
        assert(rest@ =~= all.subrange(0, n as int));
        while i < n
            invariant
                all == defs@,
                n == all.len(),
                i <= n,
                rest@ == all.subrange(i as int, n as int),
                sorted_strict(texts(kinds@)),
                text_set(kinds@) == texts(all.take(i as int)).to_set(),
                forall|j: int| 0 <= j < i ==> !bad_entry(all, j),
                forall|j: int| 0 <= j < i ==> kinds@.contains(#[trigger] all[j]),
                forall|k: int| 0 <= k < kinds@.len() ==> all.take(i as int).contains(
                    #[trigger] kinds@[k],
                ),
            decreases n - i,
        {
            let k = rest.remove(0);
            assert(k == all[i as int]);
            assert(rest@ =~= all.subrange(i + 1, n as int));
            let dup = contains_text(&kinds, k.name.as_str());
            assert(dup == repeats_name(all, i as int)) by {
                let t = texts(all.take(i as int));
                if dup {
                    let j = choose|j: int| 0 <= j < t.len() && t[j] == k.name.0@;
                    assert(all[j].name.0@ == all[i as int].name.0@);
                }
                if repeats_name(all, i as int) {
                    let j = choose|j: int| 0 <= j < i && all[j].name.0@ == all[i as int].name.0@;
                    assert(t[j] == k.name.0@);
                    assert(t.to_set().contains(t[j]));
                }
            }
            if dup {
                assert(bad_entry(all, i as int));
                assert(entry_error(all, i as int) == ManifestError::DuplicateKind(k.name));
                return Err(ManifestError::DuplicateKind(k.name));
            }
            if k.path_globs.len() == 0 && k.declared_via.is_none() {
                assert(bad_entry(all, i as int));
                assert(entry_error(all, i as int) == ManifestError::NoSource(k.name));
                return Err(ManifestError::NoSource(k.name));
            }
            let ghost old_kinds = kinds@;
            sorted_insert(&mut kinds, k);
            proof {
                assert(all.take(i + 1) =~= all.take(i as int).push(all[i as int]));
                assert(texts(all.take(i + 1)) =~= texts(all.take(i as int)).push(k.text()));
                lemma_push_to_set(texts(all.take(i as int)), k.text());
                assert(!text_set(old_kinds).contains(k.text()));
                assert forall|j: int| 0 <= j < i + 1 implies kinds@.contains(#[trigger] all[j]) by {
                    if j < i {
                        assert(old_kinds.contains(all[j]));
                    }
                }
                assert forall|q: int| 0 <= q < kinds@.len() implies all.take(i + 1).contains(
                    #[trigger] kinds@[q],
                ) by {
                    if old_kinds.contains(kinds@[q]) {
                        let p = choose|p: int| 0 <= p < old_kinds.len() && old_kinds[p] == kinds@[q];
                        assert(all.take(i as int).contains(old_kinds[p]));
                        let w = choose|w: int| 0 <= w < i && all.take(i as int)[w] == old_kinds[p];
                        assert(all.take(i + 1)[w] == kinds@[q]);
                    } else {
                        assert(all.take(i + 1)[i as int] == kinds@[q]);
                    }
                }
            }
            i = i + 1;
        }
        assert(all.take(n as int) =~= all);
        Ok(Manifest { kinds })
    }

    /// Whether the manifest declares `kind`.
    pub fn knows(&self, kind: &Kind) -> (r: bool)
        ensures
            r == text_set(self.kinds@).contains(kind.0@),
    {
        contains_text(&self.kinds, kind.as_str())
    }
}

// ---------------------------------------------------------------------------
// Front matter
// ---------------------------------------------------------------------------

/// The kusara graph layer in the OKF shape (the `kusara:` block).
#[derive(Debug)]
pub struct KusaraBlock {
    pub id: DocId,
    pub spec: Option<String>,
    pub provides: Vec<DocId>,
    pub implements: Vec<DocId>,
    pub depends_on: Vec<DocId>,
    pub related: Vec<DocId>,
    pub modules: Vec<String>,
    pub generated: bool,
    pub indexes_kind: Option<Kind>,
}

/// OKF reserved keys that have no place in the legacy `refs:` shape.
#[derive(Debug)]
pub struct OkfMeta {
    pub description: Option<String>,
    pub resource: Option<String>,
    pub tags: Vec<String>,
    pub timestamp: Option<String>,
}

impl OkfMeta {
    pub open spec fn is_empty_spec(&self) -> bool {
        &&& self.description is None
        &&& self.resource is None
        &&& self.tags@.len() == 0
        &&& self.timestamp is None
    }

    /// No OKF metadata at all.
    pub fn empty() -> (r: OkfMeta)
        ensures
            r.is_empty_spec(),
    {
        OkfMeta { description: None, resource: None, tags: Vec::new(), timestamp: None }
    }
}

/// The legacy `refs:` block, and the normalized form of both shapes.
#[derive(Debug)]
pub struct RefsBlock {
    pub id: DocId,
    pub kind: Kind,
    pub title: Option<String>,
    pub spec: Option<String>,
    pub provides: Vec<DocId>,
    pub implements: Vec<DocId>,
    pub depends_on: Vec<DocId>,
    pub related: Vec<DocId>,
    pub modules: Vec<String>,
    pub generated: bool,
    /// For `kind: index`: name of the kind being indexed.
    pub indexes_kind: Option<Kind>,
}

/// Front matter as read, in either the legacy or the OKF shape.
#[derive(Debug)]
pub struct FrontMatter {
    pub refs: Option<RefsBlock>,
    pub typ: Option<Kind>,
    pub title: Option<String>,
    pub description: Option<String>,
    pub resource: Option<String>,
    pub tags: Vec<String>,
    pub timestamp: Option<String>,
    pub kusara: Option<KusaraBlock>,
}

pub open spec fn ambiguous_msg() -> Seq<char> {
    "ambiguous front matter: both `refs:` and `kusara:` present"@
}

pub open spec fn missing_type_msg() -> Seq<char> {
    "OKF front matter has `kusara:` but is missing required `type:`"@
}

/// The legacy block that an OKF document's `type:`, `title:` and `kusara:`
/// block amount to.
pub open spec fn okf_refs(kind: Kind, title: Option<String>, k: KusaraBlock) -> RefsBlock {
    RefsBlock {
        id: k.id,
        kind,
        title,
        spec: k.spec,
        provides: k.provides,
        implements: k.implements,
        depends_on: k.depends_on,
        related: k.related,
        modules: k.modules,
        generated: k.generated,
        indexes_kind: k.indexes_kind,
    }
}

impl FrontMatter {
    /// What normalizing gives: `refs:` with `kusara:` is ambiguous; `refs:`
    /// alone is legacy and carries no OKF keys (`normalize` gives no tags
    /// there; the tags of this spec value are not compared in that case);
    /// `kusara:` needs `type:` and carries the OKF keys; with neither block
    /// the file holds no kusara metadata.
    pub open spec fn normal_form(self) -> Result<Option<(RefsBlock, OkfMeta, bool)>, Seq<char>> {
        match (self.refs, self.kusara) {
            (Some(_), Some(_)) => Err(ambiguous_msg()),
            (Some(r), None) => Ok(
                Some(
                    (
                        r,
                        OkfMeta {
                            description: None,
                            resource: None,
                            tags: self.tags,
                            timestamp: None,
                        },
                        true,
                    ),
                ),
            ),
            (None, Some(k)) => match self.typ {
                None => Err(missing_type_msg()),
                Some(kind) => Ok(
                    Some(
                        (
                            okf_refs(kind, self.title, k),
                            OkfMeta {
                                description: self.description,
                                resource: self.resource,
                                tags: self.tags,
                                timestamp: self.timestamp,
                            },
                            false,
                        ),
                    ),
                ),
            },
            (None, None) => Ok(None),
        }
    }

    /// Normalizes either shape into `(RefsBlock, OkfMeta, is_legacy)`.
    /// `Ok(None)`: the file carries no kusara metadata. `Err`: ambiguous
    /// shape, or `kusara:` without `type:`.
    pub fn normalize(self) -> (r: Result<Option<(RefsBlock, OkfMeta, bool)>, String>)
        ensures
            match (r, self.normal_form()) {
                (Ok(Some((a, b, c))), Ok(Some((x, y, z)))) => a == x && c == z && b.description
                    == y.description && b.resource == y.resource && b.timestamp == y.timestamp
                    && (if c {
                    b.tags@.len() == 0
                } else {
                    b.tags == y.tags
                }),
                (Ok(None), Ok(None)) => true,
                (Err(m), Err(e)) => m@ == e,
                _ => false,
            },
    {
        let FrontMatter { refs, typ, title, description, resource, tags, timestamp, kusara } = self;
        match (refs, kusara) {
            (Some(_), Some(_)) => Err(
                String::from_str("ambiguous front matter: both `refs:` and `kusara:` present"),
            ),
            (Some(refs), None) => Ok(Some((refs, OkfMeta::empty(), true))),
            (None, Some(k)) => {
                let kind = match typ {
                    Some(kind) => kind,
                    None => {
                        return Err(
                            String::from_str(
                                "OKF front matter has `kusara:` but is missing required `type:`",
                            ),
                        );
                    },
                };
                let refs = RefsBlock {
                    id: k.id,
                    kind,
                    title,
                    spec: k.spec,
                    provides: k.provides,
                    implements: k.implements,
                    depends_on: k.depends_on,
                    related: k.related,
                    modules: k.modules,
                    generated: k.generated,
                    indexes_kind: k.indexes_kind,
                };
                let okf = OkfMeta { description, resource, tags, timestamp };
                Ok(Some((refs, okf, false)))
            },
            (None, None) => Ok(None),
        }
    }
}

// ---------------------------------------------------------------------------
// Documents
// ---------------------------------------------------------------------------

#[derive(Debug, Clone)]
pub enum IndexFlavor {
    /// Global INDEX (e.g. `map.md`, `ai/modules.md`); no `indexes_kind`.
    Global,
    /// Per-kind INDEX pointing at the named kind.
    PerKind(Kind),
}

/// Classifies a doc as either user-authored or generated.
#[derive(Debug, Clone)]
pub enum DocClass {
    /// Hand-authored doc with the given kind. The kind is never `"index"`.
    Regular(Kind),
    /// Generated INDEX doc with `kind: index` and `generated: true`.
    Index(IndexFlavor),
}

/// Why the `kind`, `generated` and `indexes_kind` of a doc disagree.
#[derive(Debug)]
pub enum ClassError {
    /// `kind: index` without `generated: true`, or the reverse.
    IndexGeneratedMismatch,
    /// `indexes_kind` set on a doc that is not an INDEX doc.
    IndexesKindOnRegular,
}

/// The class that `kind`, `generated` and `indexes_kind` give.
pub open spec fn class_of(kind: Kind, generated: bool, indexes_kind: Option<Kind>) -> Result<
    DocClass,
    ClassError,
> {
    let is_index = kind.0@ == index_literal();
    if is_index != generated {
        Err(ClassError::IndexGeneratedMismatch)
    } else if is_index {
        match indexes_kind {
            None => Ok(DocClass::Index(IndexFlavor::Global)),
            Some(k) => Ok(DocClass::Index(IndexFlavor::PerKind(k))),
        }
    } else {
        match indexes_kind {
            None => Ok(DocClass::Regular(kind)),
            Some(_) => Err(ClassError::IndexesKindOnRegular),
        }
    }
}

pub fn classify(kind: Kind, generated: bool, indexes_kind: Option<Kind>) -> (r: Result<
    DocClass,
    ClassError,
>)
    ensures
        r == class_of(kind, generated, indexes_kind),
{
    match (kind.is_index(), generated, indexes_kind) {
        (false, false, None) => Ok(DocClass::Regular(kind)),
        (true, true, None) => Ok(DocClass::Index(IndexFlavor::Global)),
        (true, true, Some(k)) => Ok(DocClass::Index(IndexFlavor::PerKind(k))),
        (true, false, _) | (false, true, _) => Err(ClassError::IndexGeneratedMismatch),
        (false, false, Some(_)) => Err(ClassError::IndexesKindOnRegular),
    }
}

#[derive(Debug, Clone)]
pub struct Doc {
    pub id: DocId,
    pub class: DocClass,
    pub title: Option<String>,
    pub spec: Option<String>,
    pub rel_path: String,
    pub provides: Vec<DocId>,
    pub implements: Vec<DocId>,
    pub depends_on: Vec<DocId>,
    pub related: Vec<DocId>,
    pub modules: Vec<String>,
    /// OKF reserved metadata, carried through from either shape.
    pub description: Option<String>,
    pub resource: Option<String>,
    pub tags: Vec<String>,
    pub timestamp: Option<String>,
}

impl Textual for Doc {
    open spec fn text(&self) -> Seq<char> {
        self.id.0@
    }

    fn as_text(&self) -> (r: &str) {
        self.id.0.as_str()
    }
}

impl Doc {
    /// The class invariant: a regular doc's kind is never `index`.
    pub open spec fn wf(&self) -> bool {
        match self.class {
            DocClass::Regular(k) => k.0@ != index_literal(),
            DocClass::Index(_) => true,
        }
    }

    pub open spec fn kind_text(&self) -> Seq<char> {
        match self.class {
            DocClass::Regular(k) => k.0@,
            DocClass::Index(_) => index_literal(),
        }
    }

    pub open spec fn is_generated(&self) -> bool {
        self.class is Index
    }

    pub open spec fn indexed_kind(&self) -> Option<Kind> {
        match self.class {
            DocClass::Index(IndexFlavor::PerKind(k)) => Some(k),
            _ => None,
        }
    }

    pub fn kind(&self) -> (r: Kind)
        ensures
            r.0@ == self.kind_text(),
    {
        match &self.class {
            DocClass::Regular(k) => k.duplicate(),
            DocClass::Index(_) => Kind::index(),
        }
    }

    pub fn generated(&self) -> (r: bool)
        ensures
            r == self.is_generated(),
    {
        match self.class {
            DocClass::Index(_) => true,
            _ => false,
        }
    }

    pub fn indexes_kind(&self) -> (r: Option<&Kind>)
        ensures
            match (r, self.indexed_kind()) {
                (Some(a), Some(b)) => *a == b,
                (None, None) => true,
                _ => false,
            },
    {
        match &self.class {
            DocClass::Index(IndexFlavor::PerKind(k)) => Some(k),
            _ => None,
        }
    }
}

/// A well-formed doc is of kind `index` exactly when it is generated.
pub proof fn lemma_index_kind_iff_generated(d: Doc)
    requires
        d.wf(),
    ensures
        (d.kind_text() == index_literal()) <==> d.is_generated(),
{
}

/// Every class that `class_of` gives is well formed: a regular doc never has
/// kind `index`.
pub proof fn lemma_classified_regular_not_index(kind: Kind, generated: bool, indexes_kind: Option<
    Kind,
>)
    ensures
        class_of(kind, generated, indexes_kind) matches Ok(DocClass::Regular(k)) ==> k.0@
            != index_literal(),
{
}

} // verus!
