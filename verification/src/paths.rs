//! Path text: separator normalization, `modules:` coverage, scan roots of
//! globs, and the `std::path` operations the library relies on.
use vstd::prelude::*;

use crate::text::{
    chars_of, copy_range_text, has_prefix, has_suffix, owned, push_char, string_of_chars, text_eq,
    texts,
};

verus! {

// ---------------------------------------------------------------------------
// std::path operations
// ---------------------------------------------------------------------------

/// What `Path::parent` gives for the path `p` (as text).
pub uninterp spec fn path_parent(p: Seq<char>) -> Option<Seq<char>>;

/// What `Path::strip_prefix(base)` gives for the path `p` (as text).
pub uninterp spec fn path_strip_prefix(p: Seq<char>, base: Seq<char>) -> Option<Seq<char>>;

/// How many components `Path::components` yields for `p`.
pub uninterp spec fn path_component_count(p: Seq<char>) -> nat;

/// What `Path::join(name)` gives for the directory `dir` (as text).
pub uninterp spec fn path_join(dir: Seq<char>, name: Seq<char>) -> Seq<char>;

/// Whether `Path::is_absolute` holds of `p`.
pub uninterp spec fn path_is_absolute(p: Seq<char>) -> bool;

/// The texts of the components that `Path::components` yields for `p`.
pub uninterp spec fn path_components(p: Seq<char>) -> Seq<Seq<char>>;

pub open spec fn opt_string(o: Option<String>) -> Option<Seq<char>> {
    match o {
        Some(s) => Some(s@),
        None => None,
    }
}

/// `std::path::Path::parent` of `p`, as text. Trusted: the result is what
/// `path_parent` names for `p`; nothing more is claimed of it.
#[verifier::external_body]
pub(crate) fn parent_of(p: &str) -> (r: Option<String>)
    ensures
        opt_string(r) == path_parent(p@),
{
    match std::path::Path::new(p).parent() {
        Some(q) => Some(q.to_string_lossy().into_owned()),
        None => None,
    }
}

/// `std::path::Path::strip_prefix(base)` of `p`, as text (`None` for the
/// error). Trusted: the result is what `path_strip_prefix` names.
#[verifier::external_body]
pub(crate) fn strip_path_prefix(p: &str, base: &str) -> (r: Option<String>)
    ensures
        opt_string(r) == path_strip_prefix(p@, base@),
{
    match std::path::Path::new(p).strip_prefix(base) {
        Ok(q) => Some(q.to_string_lossy().into_owned()),
        Err(_) => None,
    }
}

/// `std::path::Path::components().count()` of `p`. Trusted: the result is
/// what `path_component_count` names.
#[verifier::external_body]
pub(crate) fn component_count(p: &str) -> (r: usize)
    ensures
        r as nat == path_component_count(p@),
{
    std::path::Path::new(p).components().count()
}

/// `std::path::Path::join(name)` of `dir`, as text. Trusted: the result is
/// what `path_join` names.
#[verifier::external_body]
pub(crate) fn join_path(dir: &str, name: &str) -> (r: String)
    ensures
        r@ == path_join(dir@, name@),
{
    std::path::Path::new(dir).join(name).to_string_lossy().into_owned()
}

/// `std::path::Path::is_absolute` of `p`. Trusted: the result is what
/// `path_is_absolute` names.
#[verifier::external_body]
pub(crate) fn is_absolute_path(p: &str) -> (r: bool)
    ensures
        r == path_is_absolute(p@),
{
    std::path::Path::new(p).is_absolute()
}

/// `std::path::Path::components` of `p`, each component as text. Trusted:
/// the texts are what `path_components` names.
#[verifier::external_body]
pub(crate) fn components_of(p: &str) -> (r: Vec<String>)
    ensures
        texts(r@) == path_components(p@),
{
    std::path::Path::new(p)
        .components()
        .map(|c| c.as_os_str().to_string_lossy().into_owned())
        .collect()
}

/// Whether two paths are equal as `Path`s are: component by component
/// (so `a//b` and `a/./b` equal `a/b`).
pub open spec fn same_path_spec(a: Seq<char>, b: Seq<char>) -> bool {
    path_components(a) == path_components(b)
}

pub fn same_path(a: &str, b: &str) -> (r: bool)
    ensures
        r == same_path_spec(a@, b@),
{
    let ca = components_of(a);
    let cb = components_of(b);
    if ca.len() != cb.len() {
        assert(texts(ca@).len() != texts(cb@).len());
        return false;
    }
    let mut i: usize = 0;
    while i < ca.len()
        invariant
            i <= ca@.len(),
            ca@.len() == cb@.len(),
            texts(ca@) == path_components(a@),
            texts(cb@) == path_components(b@),
            forall|j: int| 0 <= j < i ==> texts(ca@)[j] == texts(cb@)[j],
        decreases ca@.len() - i,
    {
        if !text_eq(ca[i].as_str(), cb[i].as_str()) {
            assert(texts(ca@)[i as int] != texts(cb@)[i as int]);
            return false;
        }
        i = i + 1;
    }
    assert(texts(ca@) =~= texts(cb@));
    true
}

/// Whether `p` has a `..` component.
pub fn has_parent_dir(p: &str) -> (r: bool)
    ensures
        r == path_components(p@).contains(".."@),
{
    let cs = components_of(p);
    let mut i: usize = 0;
    while i < cs.len()
        invariant
            i <= cs@.len(),
            texts(cs@) == path_components(p@),
            forall|j: int| 0 <= j < i ==> texts(cs@)[j] != ".."@,
        decreases cs@.len() - i,
    {
        if text_eq(cs[i].as_str(), "..") {
            assert(texts(cs@)[i as int] == ".."@);
            return true;
        }
        i = i + 1;
    }
    false
}

/// The repo-relative text of a path given on the command line: an absolute
/// path as is, a relative one under `root`, then with `root` stripped when it
/// is a prefix (else the path as given), `/`-separated.
pub open spec fn repo_relative(root: Seq<char>, f: Seq<char>) -> Seq<char> {
    let a = if path_is_absolute(f) {
        f
    } else {
        path_join(root, f)
    };
    normalized(
        match path_strip_prefix(a, root) {
            Some(r) => r,
            None => f,
        },
    )
}

pub fn repo_relative_path(root: &str, f: &str) -> (r: String)
    ensures
        r@ == repo_relative(root@, f@),
{
    let a = if is_absolute_path(f) {
        owned(f)
    } else {
        join_path(root, f)
    };
    match strip_path_prefix(a.as_str(), root) {
        Some(rel) => normalize_separators(rel.as_str()),
        None => normalize_separators(f),
    }
}

// ---------------------------------------------------------------------------
// Separators and coverage
// ---------------------------------------------------------------------------

pub open spec fn slash_char(c: char) -> char {
    if c == '\\' {
        '/'
    } else {
        c
    }
}

/// `s` with every `\` replaced by `/`.
pub open spec fn normalized(s: Seq<char>) -> Seq<char> {
    s.map_values(|c: char| slash_char(c))
}

/// Replaces every `\` with `/`.
pub fn normalize_separators(s: &str) -> (r: String)
    ensures
        r@ == normalized(s@),
{
    let v = chars_of(s);
    let mut out: Vec<char> = Vec::new();
    let mut i: usize = 0;
    while i < v.len()
        invariant
            i <= v.len(),
            v@ == s@,
            out@ == normalized(v@.subrange(0, i as int)),
        decreases v.len() - i,
    {
        let c = if v[i] == '\\' {
            '/'
        } else {
            v[i]
        };
        out.push(c);
        i = i + 1;
        assert(out@ =~= normalized(v@.subrange(0, i as int)));
    }
    assert(v@.subrange(0, v@.len() as int) =~= v@);
    string_of_chars(&out)
}

/// A `modules:` entry covers a file: an entry with a trailing `/` covers every
/// file strictly under that directory; any other entry covers exactly itself.
pub open spec fn covers(pattern: Seq<char>, file: Seq<char>) -> bool {
    if has_suffix(pattern, seq!['/']) {
        let prefix = pattern.drop_last();
        has_prefix(file, prefix) && has_prefix(file.skip(prefix.len() as int), seq!['/'])
    } else {
        file == pattern
    }
}

/// Normalizing twice is normalizing once, and leaves no backslash.
pub proof fn lemma_normalized_idempotent(s: Seq<char>)
    ensures
        normalized(normalized(s)) == normalized(s),
        !normalized(s).contains('\\'),
{
    assert(normalized(normalized(s)) =~= normalized(s));
    if normalized(s).contains('\\') {
        let i = choose|i: int| 0 <= i < normalized(s).len() && normalized(s)[i] == '\\';
        assert(slash_char(s[i]) == '\\');
    }
}

/// A directory entry (`dir/`) covers every path under `dir/`.
pub proof fn lemma_dir_entry_covers_under(dir: Seq<char>, rest: Seq<char>)
    ensures
        covers(dir.push('/'), dir.push('/') + rest),
{
    let p = dir.push('/');
    let f = p + rest;
    assert(p.subrange(p.len() - 1, p.len() as int) =~= seq!['/']);
    assert(p.drop_last() =~= dir);
    assert(f.subrange(0, dir.len() as int) =~= dir);
    assert(f.skip(dir.len() as int).subrange(0, 1) =~= seq!['/']);
}

/// An entry without a trailing `/` covers exactly the file it names.
pub proof fn lemma_file_entry_covers_itself(pattern: Seq<char>, file: Seq<char>)
    requires
        !(pattern.len() > 0 && pattern.last() == '/'),
    ensures
        covers(pattern, file) <==> file == pattern,
{
    if has_suffix(pattern, seq!['/']) {
        assert(pattern.subrange(pattern.len() - 1, pattern.len() as int)[0] == pattern.last());
    }
}

pub fn module_covers(pattern: &str, file: &str) -> (r: bool)
    ensures
        r == covers(pattern@, file@),
{
    let p = chars_of(pattern);
    let f = chars_of(file);
    let n = p.len();
    if n > 0 && p[n - 1] == '/' {
        let k = n - 1;
        assert(has_suffix(p@, seq!['/'])) by {
            assert(p@.subrange(p@.len() - 1, p@.len() as int) =~= seq!['/']);
        }
        if f.len() <= k {
            proof {
                if f@.len() == k {
                    assert(f@.skip(k as int).len() == 0);
                }
            }
            return false;
        }
        let mut i: usize = 0;
        while i < k
            invariant
                i <= k,
                k < f@.len(),
                k + 1 == p@.len(),
                p@ == pattern@,
                f@ == file@,
                has_suffix(p@, seq!['/']),
                forall|m: int| 0 <= m < i ==> f@[m] == p@[m],
            decreases k - i,
        {
            if f[i] != p[i] {
                assert(f@.subrange(0, k as int)[i as int] != p@.drop_last()[i as int]);
                return false;
            }
            i = i + 1;
        }
        assert(f@.subrange(0, k as int) =~= p@.drop_last());
        let r = f[k] == '/';
        assert(r == has_prefix(f@.skip(k as int), seq!['/'])) by {
            if r {
                assert(f@.skip(k as int).subrange(0, 1) =~= seq!['/']);
            } else {
                assert(f@.skip(k as int).subrange(0, 1)[0] == f@[k as int]);
            }
        }
        r
    } else {
        assert(!has_suffix(p@, seq!['/'])) by {
            if n > 0 && has_suffix(p@, seq!['/']) {
                assert(p@.subrange(p@.len() - 1, p@.len() as int)[0] == p@[n - 1]);
            }
        }
        if f.len() != n {
            return false;
        }
        let mut i: usize = 0;
        while i < n
            invariant
                i <= n,
                n == p@.len(),
                n == f@.len(),
                p@ == pattern@,
                f@ == file@,
                !has_suffix(p@, seq!['/']),
                forall|m: int| 0 <= m < i ==> f@[m] == p@[m],
            decreases n - i,
        {
            if f[i] != p[i] {
                return false;
            }
            i = i + 1;
        }
        assert(f@ =~= p@);
        true
    }
}

// ---------------------------------------------------------------------------
// Scan roots of globs
// ---------------------------------------------------------------------------

pub open spec fn is_glob_meta(c: char) -> bool {
    c == '*' || c == '?' || c == '['
}

/// Index of the first glob metacharacter at or after `i`.
pub open spec fn first_meta_from(s: Seq<char>, i: int) -> Option<int>
    decreases s.len() - i,
{
    if i < 0 || i >= s.len() {
        None
    } else if is_glob_meta(s[i]) {
        Some(i)
    } else {
        first_meta_from(s, i + 1)
    }
}

/// Index of the last occurrence of `c` in `s`.
pub open spec fn last_index_of(s: Seq<char>, c: char) -> Option<int>
    decreases s.len(),
{
    if s.len() == 0 {
        None
    } else if s.last() == c {
        Some(s.len() - 1)
    } else {
        last_index_of(s.drop_last(), c)
    }
}

pub open spec fn dot() -> Seq<char> {
    seq!['.']
}

/// The longest non-glob directory prefix of a glob: with no metacharacter,
/// the glob's parent path (`.` when it has none); otherwise the text before
/// the last `/` that precedes the first metacharacter (`.` when empty).
pub open spec fn glob_root_of(g: Seq<char>) -> Seq<char> {
    match first_meta_from(g, 0) {
        None => match path_parent(g) {
            Some(p) => p,
            None => dot(),
        },
        Some(idx) => {
            let prefix = g.take(idx);
            let trimmed = match last_index_of(prefix, '/') {
                Some(k) => prefix.take(k),
                None => Seq::empty(),
            };
            if trimmed.len() == 0 {
                dot()
            } else {
                trimmed
            }
        },
    }
}

/// The text `.`.
pub fn dot_string() -> (r: String)
    ensures
        r@ == dot(),
{
    let mut r = String::new();
    push_char(&mut r, '.');
    r
}

pub fn glob_root(glob: &str) -> (r: String)
    ensures
        r@ == glob_root_of(glob@),
{
    let g = chars_of(glob);
    let n = g.len();
    let mut i: usize = 0;
    while i < n && !(g[i] == '*' || g[i] == '?' || g[i] == '[')
        invariant
            i <= n,
            n == g@.len(),
            first_meta_from(g@, 0) == first_meta_from(g@, i as int),
        decreases n - i,
    {
        i = i + 1;
    }
    if i == n {
        return match parent_of(glob) {
            Some(p) => p,
            None => dot_string(),
        };
    }
    let ghost prefix = g@.take(i as int);
    let mut k: usize = i;
    while k > 0 && g[k - 1] != '/'
        invariant
            k <= i,
            i < n,
            n == g@.len(),
            prefix == g@.take(i as int),
            last_index_of(prefix, '/') == last_index_of(g@.take(k as int), '/'),
        decreases k,
    {
        assert(g@.take(k as int).drop_last() =~= g@.take(k - 1));
        k = k - 1;
    }
    if k == 0 {
        assert(last_index_of(g@.take(0), '/') is None);
        return dot_string();
    }
    assert(g@.take(k as int).last() == '/');
    assert(last_index_of(prefix, '/') == Some(k - 1));
    if k - 1 == 0 {
        return dot_string();
    }
    let r = copy_range_text(&g, 0, k - 1);
    assert(prefix.take(k - 1) =~= g@.subrange(0, k - 1));
    r
}

} // verus!
