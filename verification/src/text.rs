//! Character-level text utilities: searching, prefixes, ASCII case folding,
//! lexicographic order and string building, each with its specification
//! over `Seq<char>`.
use vstd::prelude::*;
use vstd::string::StringExecFns;

verus! {

// ---------------------------------------------------------------------------
// Specifications
// ---------------------------------------------------------------------------

/// `pat` occurs in `s` starting at index `i`.
pub open spec fn occurs_at(s: Seq<char>, pat: Seq<char>, i: int) -> bool {
    0 <= i && i + pat.len() <= s.len() && s.subrange(i, i + pat.len()) == pat
}

/// Index of the first occurrence of `pat` in `s` at or after `from`.
pub open spec fn find_from(s: Seq<char>, pat: Seq<char>, from: int) -> Option<int>
    decreases s.len() + 1 - from,
{
    if from < 0 || from + pat.len() > s.len() {
        None
    } else if occurs_at(s, pat, from) {
        Some(from)
    } else {
        find_from(s, pat, from + 1)
    }
}

pub open spec fn opt_int(o: Option<usize>) -> Option<int> {
    match o {
        Some(i) => Some(i as int),
        None => None,
    }
}

/// `p` is a prefix of `s`.
pub open spec fn has_prefix(s: Seq<char>, p: Seq<char>) -> bool {
    p.len() <= s.len() && s.subrange(0, p.len() as int) == p
}

/// `p` is a suffix of `s`.
pub open spec fn has_suffix(s: Seq<char>, p: Seq<char>) -> bool {
    p.len() <= s.len() && s.subrange(s.len() - p.len(), s.len() as int) == p
}

/// ASCII lowercase of one character (non-ASCII characters are unchanged).
pub open spec fn lower_char(c: char) -> char {
    if 'A' <= c && c <= 'Z' {
        ((c as u32 + 32) as u8) as char
    } else {
        c
    }
}

pub open spec fn lower_seq(s: Seq<char>) -> Seq<char> {
    s.map_values(|c: char| lower_char(c))
}

/// ASCII whitespace as `char::is_ascii_whitespace` defines it.
pub open spec fn is_ascii_ws(c: char) -> bool {
    c == ' ' || c == '\t' || c == '\n' || c == '\x0C' || c == '\r'
}

/// Strict lexicographic order by code point (the order of `str`'s `Ord`).
pub open spec fn seq_lt(a: Seq<char>, b: Seq<char>) -> bool
    decreases a.len(),
{
    if a.len() == 0 {
        b.len() > 0
    } else if b.len() == 0 {
        false
    } else if a[0] != b[0] {
        a[0] < b[0]
    } else {
        seq_lt(a.drop_first(), b.drop_first())
    }
}

/// Every element strictly precedes the next: sorted and free of duplicates.
pub open spec fn sorted_strict(s: Seq<Seq<char>>) -> bool {
    forall|i: int, j: int| 0 <= i < j < s.len() ==> seq_lt(#[trigger] s[i], #[trigger] s[j])
}

/// Joins `parts` with `sep` between consecutive parts.
pub open spec fn join_seq(parts: Seq<Seq<char>>, sep: Seq<char>) -> Seq<char>
    decreases parts.len(),
{
    if parts.len() == 0 {
        Seq::empty()
    } else if parts.len() == 1 {
        parts[0]
    } else {
        join_seq(parts.drop_last(), sep) + sep + parts.last()
    }
}

/// Concatenation of all parts.
pub open spec fn concat_seq(parts: Seq<Seq<char>>) -> Seq<char>
    decreases parts.len(),
{
    if parts.len() == 0 {
        Seq::empty()
    } else {
        concat_seq(parts.drop_last()) + parts.last()
    }
}

pub open spec fn digit_char(d: nat) -> char {
    ((d + 48) as u8) as char
}

pub open spec fn hex_char(d: nat) -> char {
    if d < 10 {
        ((d + 48) as u8) as char
    } else {
        ((d + 87) as u8) as char
    }
}

/// Decimal digits of `n`, as `Display` writes an unsigned integer.
pub open spec fn decimal(n: nat) -> Seq<char>
    decreases n,
{
    if n < 10 {
        seq![digit_char(n)]
    } else {
        decimal(n / 10).push(digit_char(n % 10))
    }
}

/// The lowest `k` hexadecimal digits of `n`, most significant first, lowercase.
pub open spec fn hex_fixed(n: nat, k: nat) -> Seq<char>
    decreases k,
{
    if k == 0 {
        Seq::empty()
    } else {
        hex_fixed(n / 16, (k - 1) as nat).push(hex_char(n % 16))
    }
}

/// `s` padded on the right with spaces to at least `width` characters.
pub open spec fn pad_right(s: Seq<char>, width: nat) -> Seq<char> {
    if s.len() >= width {
        s
    } else {
        s + Seq::new((width - s.len()) as nat, |i: int| ' ')
    }
}

/// What `find_from` returns is an occurrence at or after `from`, and no
/// earlier occurrence from `from` exists.
pub proof fn lemma_find_from(s: Seq<char>, pat: Seq<char>, from: int)
    requires
        0 <= from,
    ensures
        find_from(s, pat, from) matches Some(j) ==> from <= j && j + pat.len() <= s.len()
            && occurs_at(s, pat, j) && forall|k: int| from <= k < j ==> !occurs_at(s, pat, k),
        find_from(s, pat, from) is None ==> forall|k: int| from <= k ==> !occurs_at(s, pat, k),
    decreases s.len() + 1 - from,
{
    if from + pat.len() <= s.len() && !occurs_at(s, pat, from) {
        lemma_find_from(s, pat, from + 1);
    }
}

pub proof fn lemma_push_to_set<A>(s: Seq<A>, x: A)
    ensures
        s.push(x).to_set() == s.to_set().insert(x),
{
    assert forall|a: A| #[trigger] s.push(x).to_set().contains(a) <==> s.to_set().insert(
        x,
    ).contains(a) by {
        if s.push(x).contains(a) {
            let k = choose|k: int| 0 <= k < s.push(x).len() && s.push(x)[k] == a;
            if k < s.len() {
                assert(s[k] == a);
            }
        }
        if s.contains(a) {
            let k = choose|k: int| 0 <= k < s.len() && s[k] == a;
            assert(s.push(x)[k] == a);
        }
        if a == x {
            assert(s.push(x)[s.len() as int] == a);
        }
    }
    assert(s.push(x).to_set() =~= s.to_set().insert(x));
}

// ---------------------------------------------------------------------------
// Lemmas on the order
// ---------------------------------------------------------------------------

pub proof fn lemma_seq_lt_irreflexive(a: Seq<char>)
    ensures
        !seq_lt(a, a),
    decreases a.len(),
{
    if a.len() > 0 {
        lemma_seq_lt_irreflexive(a.drop_first());
    }
}

pub proof fn lemma_seq_lt_asymmetric(a: Seq<char>, b: Seq<char>)
    ensures
        seq_lt(a, b) ==> !seq_lt(b, a),
    decreases a.len(),
{
    if a.len() > 0 && b.len() > 0 && a[0] == b[0] {
        lemma_seq_lt_asymmetric(a.drop_first(), b.drop_first());
    }
}

pub proof fn lemma_seq_lt_transitive(a: Seq<char>, b: Seq<char>, c: Seq<char>)
    requires
        seq_lt(a, b),
        seq_lt(b, c),
    ensures
        seq_lt(a, c),
    decreases a.len(),
{
    if a.len() > 0 && b.len() > 0 && c.len() > 0 {
        if a[0] == b[0] && b[0] == c[0] {
            lemma_seq_lt_transitive(a.drop_first(), b.drop_first(), c.drop_first());
        }
    }
}

pub proof fn lemma_seq_lt_total(a: Seq<char>, b: Seq<char>)
    ensures
        a != b ==> seq_lt(a, b) || seq_lt(b, a),
    decreases a.len(),
{
    if a.len() > 0 && b.len() > 0 {
        if a[0] == b[0] {
            lemma_seq_lt_total(a.drop_first(), b.drop_first());
            if a.drop_first() == b.drop_first() {
                assert(a == seq![a[0]] + a.drop_first());
                assert(b == seq![b[0]] + b.drop_first());
            }
        }
    } else if a.len() == 0 && b.len() == 0 {
        assert(a == b);
    }
}

/// The strictly ascending listing of the finite set `s`.
pub open spec fn sorted_of(s: Set<Seq<char>>) -> Seq<Seq<char>> {
    choose|q: Seq<Seq<char>>| sorted_strict(q) && q.to_set() == s
}

/// Two strictly ascending sequences with the same elements are equal.
pub proof fn lemma_sorted_unique(a: Seq<Seq<char>>, b: Seq<Seq<char>>)
    requires
        sorted_strict(a),
        sorted_strict(b),
        a.to_set() == b.to_set(),
    ensures
        a == b,
    decreases a.len(),
{
    if a.len() == 0 {
        if b.len() > 0 {
            assert(b.to_set().contains(b[0]));
        }
        assert(a =~= b);
    } else if b.len() == 0 {
        assert(a.to_set().contains(a[0]));
    } else {
        assert(a.to_set().contains(a[0]));
        assert(b.to_set().contains(b[0]));
        let j = choose|j: int| 0 <= j < b.len() && b[j] == a[0];
        let i = choose|i: int| 0 <= i < a.len() && a[i] == b[0];
        lemma_seq_lt_irreflexive(a[0]);
        lemma_seq_lt_irreflexive(b[0]);
        if j > 0 {
            assert(seq_lt(b[0], b[j]));
            if i > 0 {
                assert(seq_lt(a[0], a[i]));
                lemma_seq_lt_transitive(a[0], b[0], a[0]);
            }
        }
        assert(a[0] == b[0]);
        let (ra, rb) = (a.drop_first(), b.drop_first());
        assert forall|x: Seq<char>| #[trigger] ra.to_set().contains(x) <==> rb.to_set().contains(x) by {
            if ra.to_set().contains(x) {
                let p = choose|p: int| 0 <= p < ra.len() && ra[p] == x;
                assert(a[p + 1] == x);
                assert(seq_lt(a[0], x));
                assert(a.to_set().contains(x));
                let q = choose|q: int| 0 <= q < b.len() && b[q] == x;
                if q == 0 {
                    assert(x == a[0]);
                }
                assert(rb[q - 1] == x);
            }
            if rb.to_set().contains(x) {
                let p = choose|p: int| 0 <= p < rb.len() && rb[p] == x;
                assert(b[p + 1] == x);
                assert(seq_lt(b[0], x));
                assert(b.to_set().contains(x));
                let q = choose|q: int| 0 <= q < a.len() && a[q] == x;
                if q == 0 {
                    assert(x == b[0]);
                }
                assert(ra[q - 1] == x);
            }
        }
        assert(ra.to_set() =~= rb.to_set());
        assert forall|p: int, q: int| 0 <= p < q < ra.len() implies seq_lt(#[trigger] ra[p], #[trigger] ra[q]) by {
            assert(ra[p] == a[p + 1] && ra[q] == a[q + 1]);
        }
        assert forall|p: int, q: int| 0 <= p < q < rb.len() implies seq_lt(#[trigger] rb[p], #[trigger] rb[q]) by {
            assert(rb[p] == b[p + 1] && rb[q] == b[q + 1]);
        }
        lemma_sorted_unique(ra, rb);
        assert forall|k: int| 0 <= k < a.len() implies a[k] == b[k] by {
            if k > 0 {
                assert(a[k] == ra[k - 1] && b[k] == rb[k - 1]);
            }
        }
        assert(a =~= b);
    }
}

/// A strictly ascending sequence is the listing of its elements.
pub proof fn lemma_sorted_of(q: Seq<Seq<char>>)
    requires
        sorted_strict(q),
    ensures
        sorted_of(q.to_set()) == q,
{
    let c = sorted_of(q.to_set());
    assert(sorted_strict(q) && q.to_set() == q.to_set());
    lemma_sorted_unique(c, q);
}

/// `text` is `pre`, then `part`, then `suf`, with `part` starting a line.
pub open spec fn splits_at_line(text: Seq<char>, pre: Seq<char>, part: Seq<char>, suf: Seq<char>) -> bool {
    (pre.len() == 0 || pre.last() == '\n') && text == pre + part + suf
}

/// `text` holds `part` starting at the beginning of one of its lines.
pub open spec fn has_at_line_start(text: Seq<char>, part: Seq<char>) -> bool {
    exists|pre: Seq<char>, suf: Seq<char>| #[trigger] splits_at_line(text, pre, part, suf)
}

/// `q` with `x` put in its place by the text order.
pub open spec fn insert_sorted(q: Seq<Seq<char>>, x: Seq<char>) -> Seq<Seq<char>>
    decreases q.len(),
{
    if q.len() == 0 {
        seq![x]
    } else if seq_lt(x, q[0]) {
        seq![x] + q
    } else {
        seq![q[0]] + insert_sorted(q.drop_first(), x)
    }
}

proof fn lemma_insert_sorted(q: Seq<Seq<char>>, x: Seq<char>)
    requires
        sorted_strict(q),
        !q.contains(x),
    ensures
        sorted_strict(insert_sorted(q, x)),
        insert_sorted(q, x).to_set() == q.to_set().insert(x),
    decreases q.len(),
{
    let r = insert_sorted(q, x);
    if q.len() == 0 {
        assert(r.to_set() =~= q.to_set().insert(x)) by {
            assert(r[0] == x);
        }
    } else if seq_lt(x, q[0]) {
        assert forall|i: int, j: int| 0 <= i < j < r.len() implies seq_lt(#[trigger] r[i], #[trigger] r[j]) by {
            if i == 0 {
                if j > 1 {
                    assert(seq_lt(q[0], q[j - 1]));
                    lemma_seq_lt_transitive(x, q[0], q[j - 1]);
                }
            } else {
                assert(r[i] == q[i - 1] && r[j] == q[j - 1]);
            }
        }
        assert forall|y: Seq<char>| #[trigger] r.to_set().contains(y) <==> q.to_set().insert(x).contains(y) by {
            if r.contains(y) {
                let i = choose|i: int| 0 <= i < r.len() && r[i] == y;
                if i > 0 {
                    assert(q[i - 1] == y);
                }
            }
            if q.contains(y) {
                let i = choose|i: int| 0 <= i < q.len() && q[i] == y;
                assert(r[i + 1] == y);
            }
            if y == x {
                assert(r[0] == y);
            }
        }
        assert(r.to_set() =~= q.to_set().insert(x));
    } else {
        let rest = q.drop_first();
        assert(q[0] != x);
        lemma_seq_lt_total(x, q[0]);
        assert forall|i: int, j: int| 0 <= i < j < rest.len() implies seq_lt(#[trigger] rest[i], #[trigger] rest[j]) by {
            assert(rest[i] == q[i + 1] && rest[j] == q[j + 1]);
        }
        assert(!rest.contains(x)) by {
            if rest.contains(x) {
                let i = choose|i: int| 0 <= i < rest.len() && rest[i] == x;
                assert(q[i + 1] == x);
            }
        }
        lemma_insert_sorted(rest, x);
        let t = insert_sorted(rest, x);
        assert(r == seq![q[0]] + t);
        assert forall|i: int, j: int| 0 <= i < j < r.len() implies seq_lt(#[trigger] r[i], #[trigger] r[j]) by {
            if i == 0 {
                let y = t[j - 1];
                assert(t.to_set().contains(y));
                if y != x {
                    assert(rest.to_set().contains(y));
                    let k = choose|k: int| 0 <= k < rest.len() && rest[k] == y;
                    assert(q[k + 1] == y);
                    assert(seq_lt(q[0], q[k + 1]));
                }
            } else {
                assert(r[i] == t[i - 1] && r[j] == t[j - 1]);
            }
        }
        assert forall|y: Seq<char>| #[trigger] r.to_set().contains(y) <==> q.to_set().insert(x).contains(y) by {
            if r.contains(y) {
                let i = choose|i: int| 0 <= i < r.len() && r[i] == y;
                if i > 0 {
                    assert(t[i - 1] == y);
                    assert(t.to_set().contains(y));
                    if y != x {
                        let k = choose|k: int| 0 <= k < rest.len() && rest[k] == y;
                        assert(q[k + 1] == y);
                    }
                }
            }
            if q.contains(y) {
                let i = choose|i: int| 0 <= i < q.len() && q[i] == y;
                if i > 0 {
                    assert(rest[i - 1] == y);
                    assert(t.to_set().contains(y));
                    let k = choose|k: int| 0 <= k < t.len() && t[k] == y;
                    assert(r[k + 1] == y);
                }
            }
            if y == x {
                assert(t.to_set().contains(y));
                let k = choose|k: int| 0 <= k < t.len() && t[k] == y;
                assert(r[k + 1] == y);
            }
        }
        assert(r.to_set() =~= q.to_set().insert(x));
    }
}

/// Every finite set of texts has its strictly ascending listing.
pub proof fn lemma_sorted_of_finite(s: Set<Seq<char>>)
    requires
        s.finite(),
    ensures
        sorted_strict(sorted_of(s)),
        sorted_of(s).to_set() == s,
    decreases s.len(),
{
    if s.len() == 0 {
        let e = Seq::<Seq<char>>::empty();
        assert(e.to_set() =~= s);
        assert(sorted_strict(e));
    } else {
        let x = s.choose();
        let t = s.remove(x);
        lemma_sorted_of_finite(t);
        let q = sorted_of(t);
        assert(!q.contains(x)) by {
            if q.contains(x) {
                assert(q.to_set().contains(x));
            }
        }
        lemma_insert_sorted(q, x);
        assert(q.to_set().insert(x) =~= s);
        assert(sorted_strict(insert_sorted(q, x)) && insert_sorted(q, x).to_set() == s);
    }
}

// ---------------------------------------------------------------------------
// Text-bearing values
// ---------------------------------------------------------------------------

/// A value that carries a piece of text.
pub trait Textual: Sized {
    spec fn text(&self) -> Seq<char>;

    fn as_text(&self) -> (r: &str)
        ensures
            r@ == self.text(),
    ;
}

impl Textual for String {
    open spec fn text(&self) -> Seq<char> {
        self@
    }

    fn as_text(&self) -> (r: &str) {
        self.as_str()
    }
}

pub open spec fn texts<T: Textual>(s: Seq<T>) -> Seq<Seq<char>> {
    s.map_values(|x: T| x.text())
}

pub open spec fn text_set<T: Textual>(s: Seq<T>) -> Set<Seq<char>> {
    texts(s).to_set()
}

// ---------------------------------------------------------------------------
// Executable helpers
// ---------------------------------------------------------------------------

/// The characters of `s`.
pub fn chars_of(s: &str) -> (v: Vec<char>)
    ensures
        v@ == s@,
{
    let mut v: Vec<char> = Vec::new();
    for c in it: s.chars()
        invariant
            v@ == it.seq().take(it.index() as int),
    {
        v.push(c);
    }
    v
}

/// The characters `from..to` of `s`.
pub fn slice_str(s: &str, from: usize, to: usize) -> (r: &str)
    requires
        from <= to <= s@.len(),
    ensures
        r@ == s@.subrange(from as int, to as int),
{
    s.substring_char(from, to)
}

/// An owned copy of `s`.
pub fn owned(s: &str) -> (r: String)
    ensures
        r@ == s@,
{
    s.to_owned()
}

//// Appends `s` to `out`.
pub fn push_str(out: &mut String, s: &str)
    ensures
        final(out)@ == old(out)@ + s@,
{
    out.append(s);
}

/// `String::push`: appends the character `c` to `out`. Trusted: the new
/// text is the old one followed by `c`, as the documentation of `push` says.
#[verifier::external_body]
pub(crate) fn push_char(out: &mut String, c: char)
    ensures
        final(out)@ == old(out)@.push(c),
{
    out.push(c);
}

/// A string holding exactly the characters `v`.
pub fn string_of_chars(v: &Vec<char>) -> (r: String)
    ensures
        r@ == v@,
{
    let mut r = String::new();
    let mut i: usize = 0;
    while i < v.len()
        invariant
            i <= v.len(),
            r@ == v@.subrange(0, i as int),
        decreases v.len() - i,
    {
        push_char(&mut r, v[i]);
        i = i + 1;
        assert(r@ == v@.subrange(0, i as int));
    }
    r
}

/// Whether `pat` occurs in `s` at `i`.
pub fn matches_at(s: &Vec<char>, pat: &Vec<char>, i: usize) -> (r: bool)
    ensures
        r == occurs_at(s@, pat@, i as int),
{
    if i > s.len() || pat.len() > s.len() - i {
        return false;
    }
    let mut k: usize = 0;
    while k < pat.len()
        invariant
            k <= pat.len(),
            i + pat.len() <= s.len(),
            forall|m: int| 0 <= m < k ==> s@[i + m] == pat@[m],
        decreases pat.len() - k,
    {
        if s[i + k] != pat[k] {
            assert(s@.subrange(i as int, i + pat.len())[k as int] != pat@[k as int]);
            return false;
        }
        k = k + 1;
    }
    assert(s@.subrange(i as int, i + pat.len()) =~= pat@);
    true
}

/// First occurrence of `pat` in `s` at or after `from` (`str::find` on a suffix).
pub fn find_chars(s: &Vec<char>, pat: &Vec<char>, from: usize) -> (r: Option<usize>)
    ensures
        opt_int(r) == find_from(s@, pat@, from as int),
{
    let mut i = from;
    if i > s.len() || pat.len() > s.len() - i {
        return None;
    }
    let last = s.len() - pat.len();
    loop
        invariant
            from <= i <= last,
            last == s.len() - pat.len(),
            pat.len() <= s.len(),
            find_from(s@, pat@, from as int) == find_from(s@, pat@, i as int),
        decreases last - i,
    {
        if matches_at(s, pat, i) {
            return Some(i);
        }
        if i == last {
            assert(find_from(s@, pat@, i + 1) is None);
            return None;
        }
        i = i + 1;
    }
}

/// The ASCII-lowercase form of `s` (`str::to_ascii_lowercase`).
pub fn lower_chars(s: &Vec<char>) -> (r: Vec<char>)
    ensures
        r@ == lower_seq(s@),
{
    let mut r: Vec<char> = Vec::new();
    let mut i: usize = 0;
    while i < s.len()
        invariant
            i <= s.len(),
            r@ == lower_seq(s@.subrange(0, i as int)),
        decreases s.len() - i,
    {
        let c = s[i];
        let l = if 'A' <= c && c <= 'Z' {
            let u: u32 = c as u32;
            ((u + 32) as u8) as char
        } else {
            c
        };
        r.push(l);
        i = i + 1;
        assert(r@ =~= lower_seq(s@.subrange(0, i as int)));
    }
    r
}

/// Whether `s` starts with `p`.
pub fn starts_with(s: &Vec<char>, p: &Vec<char>) -> (r: bool)
    ensures
        r == has_prefix(s@, p@),
{
    let r = matches_at(s, p, 0);
    proof {
        if r {
            assert(s@.subrange(0, p@.len() as int) == p@);
        }
    }
    r
}

/// Whether `c` is ASCII whitespace.
pub fn ascii_ws(c: char) -> (r: bool)
    ensures
        r == is_ascii_ws(c),
{
    c == ' ' || c == '\t' || c == '\n' || c == '\x0C' || c == '\r'
}

/// Three-way comparison of two texts in `str` order.
pub enum Order {
    Less,
    Equal,
    Greater,
}

pub fn compare_text(a: &str, b: &str) -> (r: Order)
    ensures
        r is Less <==> seq_lt(a@, b@),
        r is Equal <==> a@ == b@,
        r is Greater <==> seq_lt(b@, a@),
{
    let av = chars_of(a);
    let bv = chars_of(b);
    let mut i: usize = 0;
    proof {
        assert(av@.skip(0) == av@);
        assert(bv@.skip(0) == bv@);
    }
    while i < av.len() && i < bv.len() && av[i] == bv[i]
        invariant
            i <= av.len(),
            i <= bv.len(),
            av@.subrange(0, i as int) == bv@.subrange(0, i as int),
            seq_lt(av@, bv@) == seq_lt(av@.skip(i as int), bv@.skip(i as int)),
            seq_lt(bv@, av@) == seq_lt(bv@.skip(i as int), av@.skip(i as int)),
        decreases av.len() - i,
    {
        assert(av@.skip(i as int).drop_first() == av@.skip(i + 1));
        assert(bv@.skip(i as int).drop_first() == bv@.skip(i + 1));
        assert(av@.subrange(0, i + 1) == av@.subrange(0, i as int).push(av@[i as int]));
        assert(bv@.subrange(0, i + 1) == bv@.subrange(0, i as int).push(bv@[i as int]));
        i = i + 1;
    }
    let ghost sa = av@.skip(i as int);
    let ghost sb = bv@.skip(i as int);
    proof {
        lemma_seq_lt_irreflexive(av@);
        lemma_seq_lt_asymmetric(av@, bv@);
        lemma_seq_lt_total(av@, bv@);
    }
    if i == av.len() && i == bv.len() {
        assert(av@ == av@.subrange(0, i as int));
        assert(bv@ == bv@.subrange(0, i as int));
        Order::Equal
    } else if i == av.len() {
        assert(sa.len() == 0 && sb.len() > 0);
        proof {
            if av@ == bv@ {
                assert(av@.len() == bv@.len());
            }
        }
        Order::Less
    } else if i == bv.len() {
        assert(sb.len() == 0 && sa.len() > 0);
        proof {
            if av@ == bv@ {
                assert(av@.len() == bv@.len());
            }
        }
        Order::Greater
    } else {
        assert(sa[0] == av@[i as int] && sb[0] == bv@[i as int]);
        proof {
            if av@ == bv@ {
                assert(av@[i as int] == bv@[i as int]);
            }
        }
        if av[i] < bv[i] {
            Order::Less
        } else {
            Order::Greater
        }
    }
}

/// Whether `a` strictly precedes `b`.
pub fn text_lt(a: &str, b: &str) -> (r: bool)
    ensures
        r == seq_lt(a@, b@),
{
    match compare_text(a, b) {
        Order::Less => true,
        _ => false,
    }
}

/// Whether two texts are equal.
pub fn text_eq(a: &str, b: &str) -> (r: bool)
    ensures
        r == (a@ == b@),
{
    match compare_text(a, b) {
        Order::Equal => true,
        _ => false,
    }
}

/// Inserts `x` into the strictly sorted `v`, keeping it strictly sorted; an
/// element with the same text is not inserted twice.
pub fn sorted_insert<T: Textual>(v: &mut Vec<T>, x: T)
    requires
        sorted_strict(texts(old(v)@)),
    ensures
        sorted_strict(texts(final(v)@)),
        text_set(final(v)@) == text_set(old(v)@).insert(x.text()),
        forall|i: int| 0 <= i < final(v)@.len() ==> old(v)@.contains(#[trigger] final(v)@[i]) || final(v)@[i] == x,
        forall|e: T| old(v)@.contains(e) ==> final(v)@.contains(e),
        !text_set(old(v)@).contains(x.text()) ==> final(v)@.contains(x),
        !text_set(old(v)@).contains(x.text()) ==> final(v)@.len() == old(v)@.len() + 1,
        text_set(old(v)@).contains(x.text()) ==> final(v)@ == old(v)@,
{
    let ghost xt = x.text();
    let mut i: usize = 0;
    let n = v.len();
    while i < n && text_lt(v[i].as_text(), x.as_text())
        invariant
            n == v.len(),
            v@ == old(v)@,
            i <= n,
            forall|k: int| 0 <= k < i ==> seq_lt(#[trigger] texts(v@)[k], xt),
            sorted_strict(texts(v@)),
            xt == x.text(),
        decreases n - i,
    {
        i = i + 1;
    }
    if i < n && text_eq(v[i].as_text(), x.as_text()) {
        proof {
            assert(texts(v@)[i as int] == xt);
            assert(text_set(v@).contains(xt));
            assert(text_set(v@).insert(xt) =~= text_set(v@));
        }
        return ;
    }
    proof {
        if i < n {
            lemma_seq_lt_total(texts(v@)[i as int], xt);
        }
    }
    let ghost old_v = v@;
    proof {
        if i < n {
            assert(seq_lt(xt, texts(v@)[i as int]));
            assert forall|k: int| i <= k < n implies seq_lt(xt, #[trigger] texts(old_v)[k]) by {
                if k > i {
                    lemma_seq_lt_transitive(xt, texts(old_v)[i as int], texts(old_v)[k]);
                }
            }
        }
    }
    v.insert(i, x);
    proof {
        let nv = texts(v@);
        let ov = texts(old_v);
        assert(nv.len() == ov.len() + 1);
        assert forall|k: int| 0 <= k < nv.len() implies #[trigger] nv[k] == if k < i {
            ov[k]
        } else if k == i {
            xt
        } else {
            ov[k - 1]
        } by {}
        assert forall|a: int, b: int| 0 <= a < b < nv.len() implies seq_lt(
            #[trigger] nv[a],
            #[trigger] nv[b],
        ) by {
            if a < i && b > i {
                lemma_seq_lt_transitive(ov[a], xt, ov[b - 1]);
            }
        }
        assert forall|e: Seq<char>| #[trigger] text_set(v@).contains(e) <==> text_set(
            old_v,
        ).insert(xt).contains(e) by {
            if text_set(v@).contains(e) {
                let k = choose|k: int| 0 <= k < nv.len() && nv[k] == e;
                if k < i {
                    assert(ov[k] == e);
                } else if k > i {
                    assert(ov[k - 1] == e);
                }
            }
            if text_set(old_v).contains(e) {
                let k = choose|k: int| 0 <= k < ov.len() && ov[k] == e;
                if k < i {
                    assert(nv[k] == e);
                } else {
                    assert(nv[k + 1] == e);
                }
            }
            if e == xt {
                assert(nv[i as int] == e);
            }
        }
        assert(text_set(v@) =~= text_set(old_v).insert(xt));
        assert forall|k: int| 0 <= k < v@.len() implies old_v.contains(#[trigger] v@[k]) || v@[k]
            == x by {
            if k < i {
                assert(v@[k] == old_v[k]);
            } else if k > i {
                assert(v@[k] == old_v[k - 1]);
            }
        }
        assert forall|e: T| old_v.contains(e) implies v@.contains(e) by {
            let k = choose|k: int| 0 <= k < old_v.len() && old_v[k] == e;
            if k < i {
                assert(v@[k] == e);
            } else {
                assert(v@[k + 1] == e);
            }
        }
        assert(v@[i as int] == x);
        assert(!text_set(old_v).contains(x.text())) by {
            if text_set(old_v).contains(xt) {
                let k = choose|k: int| 0 <= k < ov.len() && ov[k] == xt;
                if k < i {
                    lemma_seq_lt_irreflexive(xt);
                } else {
                    lemma_seq_lt_irreflexive(xt);
                }
            }
        }
    }
}

/// Whether some element of `v` carries the text `t`.
pub fn contains_text<T: Textual>(v: &Vec<T>, t: &str) -> (r: bool)
    ensures
        r == text_set(v@).contains(t@),
{
    let mut i: usize = 0;
    while i < v.len()
        invariant
            i <= v.len(),
            forall|k: int| 0 <= k < i ==> texts(v@)[k] != t@,
        decreases v.len() - i,
    {
        if text_eq(v[i].as_text(), t) {
            assert(texts(v@)[i as int] == t@);
            return true;
        }
        i = i + 1;
    }
    proof {
        if text_set(v@).contains(t@) {
            let k = choose|k: int| 0 <= k < texts(v@).len() && texts(v@)[k] == t@;
        }
    }
    false
}

/// Decimal rendering of `n`.
pub fn decimal_string(n: u64) -> (r: String)
    ensures
        r@ == decimal(n as nat),
    decreases n,
{
    if n < 10 {
        let mut r = String::new();
        push_char(&mut r, ((n + 48) as u8) as char);
        r
    } else {
        let mut r = decimal_string(n / 10);
        push_char(&mut r, ((n % 10 + 48) as u8) as char);
        r
    }
}

/// The lowest `16` hexadecimal digits of `n`, zero padded (`{:016x}`).
pub fn hex16(n: u64) -> (r: String)
    ensures
        r@ == hex_fixed(n as nat, 16),
{
    let mut digits: Vec<char> = Vec::new();
    let mut v: u64 = n;
    let mut k: usize = 0;
    while k < 16
        invariant
            k <= 16,
            digits@.len() == k,
            hex_fixed(n as nat, 16) == hex_fixed(v as nat, (16 - k) as nat) + digits@,
        decreases 16 - k,
    {
        let d = v % 16;
        let c = if d < 10 {
            ((d + 48) as u8) as char
        } else {
            ((d + 87) as u8) as char
        };
        proof {
            assert(hex_fixed(v as nat, (16 - k) as nat) == hex_fixed(
                (v / 16) as nat,
                (16 - k - 1) as nat,
            ).push(hex_char((v % 16) as nat)));
        }
        digits.insert(0, c);
        v = v / 16;
        k = k + 1;
        proof {
            assert(hex_fixed(n as nat, 16) =~= hex_fixed(v as nat, (16 - k) as nat) + digits@);
        }
    }
    string_of_chars(&digits)
}

/// `s` padded with spaces on the right to `width` characters (`{:<width}`).
pub fn pad_right_string(s: &str, width: usize) -> (r: String)
    ensures
        r@ == pad_right(s@, width as nat),
{
    let mut r = owned(s);
    let n = s.unicode_len();
    if n >= width {
        return r;
    }
    let mut k: usize = n;
    while k < width
        invariant
            n <= k <= width,
            n == s@.len(),
            r@ == s@ + Seq::new((k - n) as nat, |i: int| ' '),
        decreases width - k,
    {
        push_char(&mut r, ' ');
        k = k + 1;
        assert(r@ =~= s@ + Seq::new((k - n) as nat, |i: int| ' '));
    }
    r
}

/// Joins the texts of `parts` with `sep`.
pub fn join_texts<T: Textual>(parts: &Vec<T>, sep: &str) -> (r: String)
    ensures
        r@ == join_seq(texts(parts@), sep@),
{
    let mut r = String::new();
    let mut i: usize = 0;
    while i < parts.len()
        invariant
            i <= parts.len(),
            r@ == join_seq(texts(parts@).take(i as int), sep@),
        decreases parts.len() - i,
    {
        if i > 0 {
            push_str(&mut r, sep);
        }
        push_str(&mut r, parts[i].as_text());
        proof {
            let t = texts(parts@);
            assert(t.take(i + 1).drop_last() =~= t.take(i as int));
            assert(t.take(i + 1).last() == t[i as int]);
            if i == 0 {
                assert(t.take(1) =~= seq![t[0]]);
            }
        }
        i = i + 1;
    }
    assert(texts(parts@).take(parts.len() as int) =~= texts(parts@));
    r
}

/// The characters `a..b` of `v`.
pub fn copy_range(v: &Vec<char>, a: usize, b: usize) -> (r: Vec<char>)
    requires
        a <= b <= v@.len(),
    ensures
        r@ == v@.subrange(a as int, b as int),
{
    let mut r: Vec<char> = Vec::new();
    let mut i: usize = a;
    while i < b
        invariant
            a <= i <= b,
            b <= v@.len(),
            r@ == v@.subrange(a as int, i as int),
        decreases b - i,
    {
        r.push(v[i]);
        i = i + 1;
        assert(r@ =~= v@.subrange(a as int, i as int));
    }
    r
}

/// The characters `a..b` of `v` as a string.
pub fn copy_range_text(v: &Vec<char>, a: usize, b: usize) -> (r: String)
    requires
        a <= b <= v@.len(),
    ensures
        r@ == v@.subrange(a as int, b as int),
{
    let c = copy_range(v, a, b);
    string_of_chars(&c)
}

// ---------------------------------------------------------------------------
// Whitespace
// ---------------------------------------------------------------------------

/// The characters with the Unicode `White_Space` property (what
/// `char::is_whitespace` tests).
pub open spec fn is_white_space(c: char) -> bool {
    ('\u{9}' <= c && c <= '\u{d}') || c == ' ' || c == '\u{85}' || c == '\u{a0}' || c == '\u{1680}'
        || ('\u{2000}' <= c && c <= '\u{200a}') || c == '\u{2028}' || c == '\u{2029}' || c
        == '\u{202f}' || c == '\u{205f}' || c == '\u{3000}'
}

pub fn white_space(c: char) -> (r: bool)
    ensures
        r == is_white_space(c),
{
    ('\u{9}' <= c && c <= '\u{d}') || c == ' ' || c == '\u{85}' || c == '\u{a0}' || c == '\u{1680}'
        || ('\u{2000}' <= c && c <= '\u{200a}') || c == '\u{2028}' || c == '\u{2029}' || c
        == '\u{202f}' || c == '\u{205f}' || c == '\u{3000}'
}

/// `s` without leading whitespace.
pub open spec fn trim_start_ws(s: Seq<char>) -> Seq<char>
    decreases s.len(),
{
    if s.len() > 0 && is_white_space(s[0]) {
        trim_start_ws(s.drop_first())
    } else {
        s
    }
}

/// `s` without trailing whitespace.
pub open spec fn trim_end_ws(s: Seq<char>) -> Seq<char>
    decreases s.len(),
{
    if s.len() > 0 && is_white_space(s.last()) {
        trim_end_ws(s.drop_last())
    } else {
        s
    }
}

/// `s` without leading and trailing whitespace (`str::trim`).
pub open spec fn trimmed(s: Seq<char>) -> Seq<char> {
    trim_end_ws(trim_start_ws(s))
}

pub fn trim_ws(s: &str) -> (r: String)
    ensures
        r@ == trimmed(s@),
{
    let v = chars_of(s);
    let mut a: usize = 0;
    assert(v@.subrange(0, v@.len() as int) =~= v@);
    while a < v.len() && white_space(v[a])
        invariant
            a <= v@.len(),
            v@ == s@,
            trim_start_ws(s@) == trim_start_ws(v@.subrange(a as int, v@.len() as int)),
        decreases v@.len() - a,
    {
        assert(v@.subrange(a as int, v@.len() as int).drop_first() =~= v@.subrange(
            a + 1,
            v@.len() as int,
        ));
        a = a + 1;
    }
    let mut b: usize = v.len();
    assert(trim_start_ws(s@) == v@.subrange(a as int, b as int));
    while b > a && white_space(v[b - 1])
        invariant
            a <= b <= v@.len(),
            v@ == s@,
            trimmed(s@) == trim_end_ws(v@.subrange(a as int, b as int)),
        decreases b,
    {
        assert(v@.subrange(a as int, b as int).drop_last() =~= v@.subrange(a as int, b - 1));
        b = b - 1;
    }
    copy_range_text(&v, a, b)
}

/// The maximal runs of non-ASCII-whitespace characters of `s`, in order
/// (what `str::split_ascii_whitespace` yields).
pub open spec fn ascii_words(s: Seq<char>) -> Seq<Seq<char>>
    decreases s.len(),
{
    if s.len() == 0 {
        Seq::empty()
    } else {
        let w = ascii_words(s.drop_last());
        let c = s.last();
        if is_ascii_ws(c) {
            w
        } else if s.len() > 1 && !is_ascii_ws(s[s.len() - 2]) {
            w.update(w.len() - 1, w.last().push(c))
        } else {
            w.push(seq![c])
        }
    }
}

proof fn lemma_ascii_words_nonempty(s: Seq<char>)
    requires
        s.len() > 0,
        !is_ascii_ws(s.last()),
    ensures
        ascii_words(s).len() > 0,
    decreases s.len(),
{
    if s.len() > 1 && !is_ascii_ws(s[s.len() - 2]) {
        lemma_ascii_words_nonempty(s.drop_last());
    }
}

pub fn split_ascii_words(s: &str) -> (r: Vec<String>)
    ensures
        texts(r@) == ascii_words(s@),
{
    let v = chars_of(s);
    let mut words: Vec<Vec<char>> = Vec::new();
    let mut i: usize = 0;
    while i < v.len()
        invariant
            i <= v@.len(),
            v@ == s@,
            words@.map_values(|w: Vec<char>| w@) == ascii_words(v@.take(i as int)),
        decreases v@.len() - i,
    {
        let c = v[i];
        let ghost pre = v@.take(i as int);
        let ghost ws = words@.map_values(|w: Vec<char>| w@);
        proof {
            assert(v@.take(i + 1).drop_last() =~= pre);
            assert(v@.take(i + 1).last() == c);
        }
        if ascii_ws(c) {
        } else if i > 0 && !ascii_ws(v[i - 1]) {
            proof {
                assert(pre.last() == v@[i - 1]);
                lemma_ascii_words_nonempty(pre);
            }
            let mut last = words.pop().unwrap();
            last.push(c);
            words.push(last);
            proof {
                assert(v@.take(i + 1)[v@.take(i + 1).len() - 2] == v@[i - 1]);
                assert(words@.map_values(|w: Vec<char>| w@) =~= ws.update(
                    ws.len() - 1,
                    ws.last().push(c),
                ));
            }
        } else {
            let mut nw: Vec<char> = Vec::new();
            nw.push(c);
            assert(nw@ =~= seq![c]);
            words.push(nw);
            proof {
                if i > 0 {
                    assert(v@.take(i + 1)[v@.take(i + 1).len() - 2] == v@[i - 1]);
                }
                assert(words@.map_values(|w: Vec<char>| w@) =~= ws.push(seq![c]));
            }
        }
        i = i + 1;
    }
    assert(v@.take(v@.len() as int) =~= v@);
    let mut r: Vec<String> = Vec::new();
    let mut j: usize = 0;
    while j < words.len()
        invariant
            j <= words@.len(),
            texts(r@) == words@.map_values(|w: Vec<char>| w@).take(j as int),
        decreases words@.len() - j,
    {
        let ghost rb = r@;
        let w = string_of_chars(&words[j]);
        r.push(w);
        assert(texts(r@) =~= texts(rb).push(w@));
        assert(words@.map_values(|w: Vec<char>| w@).take(j + 1) =~= words@.map_values(
            |w: Vec<char>| w@,
        ).take(j as int).push(words@[j as int]@));
        j = j + 1;
    }
    assert(words@.map_values(|w: Vec<char>| w@).take(words@.len() as int) =~= words@.map_values(
        |w: Vec<char>| w@,
    ));
    r
}

} // verus!
