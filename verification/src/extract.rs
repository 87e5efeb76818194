//! Locating the metadata block of a document: Markdown front matter, the
//! fenced YAML block of the kinds manifest, and the embedded
//! `<script type="application/kusara+yaml">` block of an HTML page.
use vstd::prelude::*;

use crate::text::{
    ascii_ws, chars_of, copy_range, find_chars, find_from, has_prefix, is_ascii_ws, lemma_find_from,
    lower_chars, lower_seq, matches_at, occurs_at, slice_str, starts_with,
};

verus! {

// ---------------------------------------------------------------------------
// Literals
// ---------------------------------------------------------------------------

pub open spec fn lit_open_lf() -> Seq<char> {
    seq!['-', '-', '-', '\n']
}

pub open spec fn lit_open_crlf() -> Seq<char> {
    seq!['-', '-', '-', '\r', '\n']
}

pub open spec fn lit_close_lf() -> Seq<char> {
    seq!['\n', '-', '-', '-', '\n']
}

pub open spec fn lit_close_crlf() -> Seq<char> {
    seq!['\n', '-', '-', '-', '\r', '\n']
}

pub open spec fn lit_fence_yaml() -> Seq<char> {
    seq!['`', '`', '`', 'y', 'a', 'm', 'l']
}

pub open spec fn lit_fence_yml() -> Seq<char> {
    seq!['`', '`', '`', 'y', 'm', 'l']
}

pub open spec fn lit_fence() -> Seq<char> {
    seq!['`', '`', '`']
}

pub open spec fn lit_newline() -> Seq<char> {
    seq!['\n']
}

pub open spec fn lit_script_open() -> Seq<char> {
    seq!['<', 's', 'c', 'r', 'i', 'p', 't']
}

pub open spec fn lit_script_close() -> Seq<char> {
    seq!['<', '/', 's', 'c', 'r', 'i', 'p', 't']
}

pub open spec fn lit_gt() -> Seq<char> {
    seq!['>']
}

pub open spec fn lit_type_eq() -> Seq<char> {
    seq!['t', 'y', 'p', 'e', '=']
}

/// `application/kusara+yaml`, the script type that marks the metadata block.
pub open spec fn html_meta_type() -> Seq<char> {
    seq![
        'a', 'p', 'p', 'l', 'i', 'c', 'a', 't', 'i', 'o', 'n', '/', 'k', 'u', 's', 'a', 'r', 'a',
        '+', 'y', 'a', 'm', 'l',
    ]
}

pub open spec fn range_text(s: Seq<char>, r: Option<(int, int)>) -> Option<Seq<char>> {
    match r {
        Some((a, b)) => Some(s.subrange(a, b)),
        None => None,
    }
}

pub open spec fn opt_range(r: Option<(usize, usize)>) -> Option<(int, int)> {
    match r {
        Some((a, b)) => Some((a as int, b as int)),
        None => None,
    }
}

pub open spec fn opt_str(r: Option<&str>) -> Option<Seq<char>> {
    match r {
        Some(s) => Some(s@),
        None => None,
    }
}

// ---------------------------------------------------------------------------
// Markdown front matter
// ---------------------------------------------------------------------------

/// Character range of the front matter body: after an opening `---` line
/// (LF or CRLF) up to the first `\n---\n`, or failing that the first
/// `\n---\r\n`, that follows it.
pub open spec fn frontmatter_range(raw: Seq<char>) -> Option<(int, int)> {
    let start: int = if has_prefix(raw, lit_open_lf()) {
        4
    } else if has_prefix(raw, lit_open_crlf()) {
        5
    } else {
        -1
    };
    if start < 0 {
        None
    } else {
        match find_from(raw, lit_close_lf(), start) {
            Some(end) => Some((start, end)),
            None => match find_from(raw, lit_close_crlf(), start) {
                Some(end) => Some((start, end)),
                None => None,
            },
        }
    }
}

pub fn frontmatter_bounds(raw: &str) -> (r: Option<(usize, usize)>)
    ensures
        opt_range(r) == frontmatter_range(raw@),
        r matches Some((a, b)) ==> a <= b <= raw@.len(),
{
    let v = chars_of(raw);
    let open_lf: Vec<char> = vec!['-', '-', '-', '\n'];
    let open_crlf: Vec<char> = vec!['-', '-', '-', '\r', '\n'];
    let start: usize = if starts_with(&v, &open_lf) {
        4
    } else if starts_with(&v, &open_crlf) {
        5
    } else {
        return None;
    };
    let close_lf: Vec<char> = vec!['\n', '-', '-', '-', '\n'];
    let close_crlf: Vec<char> = vec!['\n', '-', '-', '-', '\r', '\n'];
    proof {
        lemma_find_from(v@, close_lf@, start as int);
        lemma_find_from(v@, close_crlf@, start as int);
    }
    match find_chars(&v, &close_lf, start) {
        Some(end) => Some((start, end)),
        None => match find_chars(&v, &close_crlf, start) {
            Some(end) => Some((start, end)),
            None => None,
        },
    }
}

/// The front matter body of a Markdown document, without its fences.
pub fn extract_frontmatter(raw: &str) -> (r: Option<&str>)
    ensures
        opt_str(r) == range_text(raw@, frontmatter_range(raw@)),
{
    match frontmatter_bounds(raw) {
        Some((a, b)) => Some(slice_str(raw, a, b)),
        None => None,
    }
}

// ---------------------------------------------------------------------------
// Fenced YAML block of the kinds manifest
// ---------------------------------------------------------------------------

/// End of the line starting at `i`: just past its `\n`, or the end of `s`.
pub open spec fn line_end(s: Seq<char>, i: int) -> int {
    match find_from(s, lit_newline(), i) {
        Some(j) => j + 1,
        None => s.len() as int,
    }
}

/// `t` with every trailing `\n` and `\r` removed.
pub open spec fn trim_end_newlines(t: Seq<char>) -> Seq<char>
    decreases t.len(),
{
    if t.len() > 0 && (t.last() == '\n' || t.last() == '\r') {
        trim_end_newlines(t.drop_last())
    } else {
        t
    }
}

pub open spec fn line_text(s: Seq<char>, i: int) -> Seq<char> {
    trim_end_newlines(s.subrange(i, line_end(s, i)))
}

pub proof fn lemma_line_end(s: Seq<char>, i: int)
    requires
        0 <= i < s.len(),
    ensures
        i < line_end(s, i) <= s.len(),
{
    lemma_find_from(s, lit_newline(), i);
}

/// Start of the first line at or after line start `i` whose text is
/// ```` ```yaml ```` or ```` ```yml ````.
pub open spec fn open_fence_from(s: Seq<char>, i: int) -> Option<int>
    decreases s.len() - i,
{
    if i < 0 || i >= s.len() {
        None
    } else if line_text(s, i) == lit_fence_yaml() || line_text(s, i) == lit_fence_yml() {
        Some(i)
    } else {
        proof {
            lemma_line_end(s, i);
        }
        open_fence_from(s, line_end(s, i))
    }
}

/// Start of the first line at or after line start `i` whose text is ```` ``` ````.
pub open spec fn close_fence_from(s: Seq<char>, i: int) -> Option<int>
    decreases s.len() - i,
{
    if i < 0 || i >= s.len() {
        None
    } else if line_text(s, i) == lit_fence() {
        Some(i)
    } else {
        proof {
            lemma_line_end(s, i);
        }
        close_fence_from(s, line_end(s, i))
    }
}

/// Character range of the body of the first ```` ```yaml ```` (or
/// ```` ```yml ````) fenced block: from the line after the opening fence up
/// to the start of the next ```` ``` ```` line.
pub open spec fn fenced_yaml_range(s: Seq<char>) -> Option<(int, int)> {
    match open_fence_from(s, 0) {
        Some(l) => match close_fence_from(s, line_end(s, l)) {
            Some(m) => Some((line_end(s, l), m)),
            None => None,
        },
        None => None,
    }
}

/// End of the line starting at `i`.
fn line_end_exec(v: &Vec<char>, i: usize) -> (e: usize)
    requires
        i < v@.len(),
    ensures
        e as int == line_end(v@, i as int),
        i < e <= v@.len(),
{
    let nl: Vec<char> = vec!['\n'];
    assert(nl@ == lit_newline());
    proof {
        lemma_line_end(v@, i as int);
        lemma_find_from(v@, nl@, i as int);
    }
    match find_chars(v, &nl, i) {
        Some(j) => {
            assert(find_from(v@, nl@, i as int) == Some(j as int));
            assert(nl@.len() == 1);
            assert(j + nl@.len() <= v@.len());
            let n = v.len();
            assert(j < n);
            j + 1
        },
        None => v.len(),
    }
}

/// Whether the text of the line `i..e` equals `lit`.
fn line_is(v: &Vec<char>, i: usize, e: usize, lit: &Vec<char>) -> (r: bool)
    requires
        i < v@.len(),
        e as int == line_end(v@, i as int),
        i < e <= v@.len(),
    ensures
        r == (line_text(v@, i as int) == lit@),
{
    let mut t = e;
    while t > i && (v[t - 1] == '\n' || v[t - 1] == '\r')
        invariant
            i <= t <= e,
            e <= v@.len(),
            trim_end_newlines(v@.subrange(i as int, e as int)) == trim_end_newlines(
                v@.subrange(i as int, t as int),
            ),
        decreases t,
    {
        assert(v@.subrange(i as int, t as int).drop_last() =~= v@.subrange(i as int, t - 1));
        t = t - 1;
    }
    let ghost body = v@.subrange(i as int, t as int);
    assert(trim_end_newlines(body) == body);
    if t - i != lit.len() {
        return false;
    }
    let r = matches_at(v, lit, i);
    assert(r ==> body =~= lit@);
    assert(body == lit@ ==> occurs_at(v@, lit@, i as int));
    r
}

pub fn fenced_yaml_bounds(content: &str) -> (r: Option<(usize, usize)>)
    ensures
        opt_range(r) == fenced_yaml_range(content@),
        r matches Some((a, b)) ==> a <= b <= content@.len(),
{
    let v = chars_of(content);
    let yaml: Vec<char> = vec!['`', '`', '`', 'y', 'a', 'm', 'l'];
    let yml: Vec<char> = vec!['`', '`', '`', 'y', 'm', 'l'];
    let fence: Vec<char> = vec!['`', '`', '`'];
    assert(yaml@ == lit_fence_yaml());
    assert(yml@ == lit_fence_yml());
    assert(fence@ == lit_fence());
    let n = v.len();
    let mut i: usize = 0;
    loop
        invariant
            n == v@.len(),
            v@ == content@,
            yaml@ == lit_fence_yaml(),
            yml@ == lit_fence_yml(),
            i <= n,
            open_fence_from(v@, 0) == open_fence_from(v@, i as int),
        ensures
            i < n,
            open_fence_from(v@, 0) == Some(i as int),
        decreases n - i,
    {
        if i == n {
            return None;
        }
        let e = line_end_exec(&v, i);
        if line_is(&v, i, e, &yaml) || line_is(&v, i, e, &yml) {
            break ;
        }
        i = e;
    }
    let start = line_end_exec(&v, i);
    let mut j: usize = start;
    loop
        invariant
            n == v@.len(),
            v@ == content@,
            fence@ == lit_fence(),
            start <= j <= n,
            open_fence_from(v@, 0) == Some(i as int),
            start as int == line_end(v@, i as int),
            close_fence_from(v@, start as int) == close_fence_from(v@, j as int),
        decreases n - j,
    {
        if j == n {
            return None;
        }
        let e = line_end_exec(&v, j);
        if line_is(&v, j, e, &fence) {
            return Some((start, j));
        }
        j = e;
    }
}

/// The body of the first ```` ```yaml ```` or ```` ```yml ```` fenced block.
pub fn extract_fenced_yaml(content: &str) -> (r: Option<&str>)
    ensures
        opt_str(r) == range_text(content@, fenced_yaml_range(content@)),
{
    match fenced_yaml_bounds(content) {
        Some((a, b)) => Some(slice_str(content, a, b)),
        None => None,
    }
}

// ---------------------------------------------------------------------------
// HTML metadata block
// ---------------------------------------------------------------------------

/// The attribute text of a lowercased opening tag: what follows `<script`.
pub open spec fn attrs_of(tag: Seq<char>) -> Seq<char> {
    if has_prefix(tag, lit_script_open()) {
        tag.skip(7)
    } else {
        tag
    }
}

/// End of the whitespace-free token that starts at `i`.
pub open spec fn token_end(s: Seq<char>, i: int) -> int
    decreases s.len() - i,
{
    if 0 <= i < s.len() && !is_ascii_ws(s[i]) {
        token_end(s, i + 1)
    } else {
        i
    }
}

pub proof fn lemma_token_end(s: Seq<char>, i: int)
    requires
        0 <= i <= s.len(),
    ensures
        i <= token_end(s, i) <= s.len(),
        i < s.len() && !is_ascii_ws(s[i]) ==> i < token_end(s, i),
        forall|k: int| i <= k < token_end(s, i) ==> !is_ascii_ws(#[trigger] s[k]),
        token_end(s, i) < s.len() ==> is_ascii_ws(s[token_end(s, i)]),
    decreases s.len() - i,
{
    if i < s.len() && !is_ascii_ws(s[i]) {
        lemma_token_end(s, i + 1);
    }
}

/// The value of the first whitespace-separated token, at or after `i`, that
/// starts with `type=` (the text after `type=`).
pub open spec fn type_attr_from(s: Seq<char>, i: int) -> Option<Seq<char>>
    decreases s.len() - i,
{
    if i < 0 || i >= s.len() {
        None
    } else if is_ascii_ws(s[i]) {
        type_attr_from(s, i + 1)
    } else {
        let e = token_end(s, i);
        let tok = s.subrange(i, e);
        if has_prefix(tok, lit_type_eq()) {
            Some(tok.skip(5))
        } else {
            proof {
                lemma_token_end(s, i);
            }
            type_attr_from(s, e)
        }
    }
}

/// `t` without its leading characters equal to `c`.
pub open spec fn trim_start_char(t: Seq<char>, c: char) -> Seq<char>
    decreases t.len(),
{
    if t.len() > 0 && t[0] == c {
        trim_start_char(t.drop_first(), c)
    } else {
        t
    }
}

/// `t` without its trailing characters equal to `c`.
pub open spec fn trim_end_char(t: Seq<char>, c: char) -> Seq<char>
    decreases t.len(),
{
    if t.len() > 0 && t.last() == c {
        trim_end_char(t.drop_last(), c)
    } else {
        t
    }
}

/// `str::trim_matches` with a single character.
pub open spec fn trim_char(t: Seq<char>, c: char) -> Seq<char> {
    trim_end_char(trim_start_char(t, c), c)
}

/// A lowercased opening `<script ...` tag (without its `>`) declares
/// `type="application/kusara+yaml"`: the first `type=` attribute decides,
/// with its double and then single quotes trimmed.
pub open spec fn script_type_ok(tag: Seq<char>) -> bool {
    match type_attr_from(attrs_of(tag), 0) {
        Some(v) => trim_char(trim_char(v, '"'), '\'') == html_meta_type(),
        None => false,
    }
}

/// Result of scanning a lowercased page for the metadata block.
pub enum MetaScan {
    Found(int, int),
    Absent,
    Unterminated,
}

/// Scans `lower` from `from` for the first `<script` tag (followed by
/// whitespace or `>`) whose type is the metadata type; the block's content
/// runs from just after that tag's `>` to the next `</script`. A matching tag
/// that is never closed (no `>`, or no `</script` after it) is unterminated;
/// a tag cut off before its `>` whose type cannot match is no metadata.
pub open spec fn html_scan(lower: Seq<char>, from: int) -> MetaScan
    decreases lower.len() + 1 - from,
{
    if from < 0 {
        MetaScan::Absent
    } else {
        match find_from(lower, lit_script_open(), from) {
            None => MetaScan::Absent,
            Some(ts) => {
                let ak = ts + 7;
                if !(ak < lower.len() && (is_ascii_ws(lower[ak]) || lower[ak] == '>')) {
                    proof {
                        lemma_find_from(lower, lit_script_open(), from);
                    }
                    html_scan(lower, ak)
                } else {
                    match find_from(lower, lit_gt(), ak) {
                        None => if script_type_ok(lower.subrange(ts, lower.len() as int)) {
                            MetaScan::Unterminated
                        } else {
                            MetaScan::Absent
                        },
                        Some(te) => if script_type_ok(lower.subrange(ts, te)) {
                            match find_from(lower, lit_script_close(), te + 1) {
                                None => MetaScan::Unterminated,
                                Some(ce) => MetaScan::Found(te + 1, ce),
                            }
                        } else {
                            proof {
                                lemma_find_from(lower, lit_script_open(), from);
                                lemma_find_from(lower, lit_gt(), ak);
                            }
                            html_scan(lower, te + 1)
                        },
                    }
                }
            },
        }
    }
}

/// Result of scanning an HTML doc for its embedded metadata block.
pub enum HtmlMeta<'a> {
    /// Inner text of the first matching `<script>` block.
    Found(&'a str),
    /// No matching metadata block present.
    Absent,
    /// A matching opening tag was found but never closed.
    Unterminated,
}

/// Where the metadata block of a page lies, in characters.
pub enum MetaBounds {
    Found(usize, usize),
    Absent,
    Unterminated,
}

pub open spec fn bounds_view(b: MetaBounds) -> MetaScan {
    match b {
        MetaBounds::Found(a, e) => MetaScan::Found(a as int, e as int),
        MetaBounds::Absent => MetaScan::Absent,
        MetaBounds::Unterminated => MetaScan::Unterminated,
    }
}

/// The range `a..b` of `v` with the character `c` trimmed from both ends.
fn trim_range(v: &Vec<char>, a: usize, b: usize, c: char) -> (r: (usize, usize))
    requires
        a <= b <= v@.len(),
    ensures
        a <= r.0 <= r.1 <= b,
        v@.subrange(r.0 as int, r.1 as int) == trim_char(v@.subrange(a as int, b as int), c),
{
    let mut x = a;
    while x < b && v[x] == c
        invariant
            a <= x <= b,
            b <= v@.len(),
            trim_start_char(v@.subrange(a as int, b as int), c) == trim_start_char(
                v@.subrange(x as int, b as int),
                c,
            ),
        decreases b - x,
    {
        assert(v@.subrange(x as int, b as int).drop_first() =~= v@.subrange(x + 1, b as int));
        x = x + 1;
    }
    assert(trim_start_char(v@.subrange(x as int, b as int), c) == v@.subrange(x as int, b as int));
    let mut y = b;
    while y > x && v[y - 1] == c
        invariant
            x <= y <= b,
            b <= v@.len(),
            trim_end_char(v@.subrange(x as int, b as int), c) == trim_end_char(
                v@.subrange(x as int, y as int),
                c,
            ),
        decreases y,
    {
        assert(v@.subrange(x as int, y as int).drop_last() =~= v@.subrange(x as int, y - 1));
        y = y - 1;
    }
    assert(trim_end_char(v@.subrange(x as int, y as int), c) == v@.subrange(x as int, y as int));
    (x, y)
}

/// Whether a lowercased tag (as characters) declares the metadata type.
pub fn script_type_ok_chars(tag: &Vec<char>) -> (r: bool)
    ensures
        r == script_type_ok(tag@),
{
    let open: Vec<char> = vec!['<', 's', 'c', 'r', 'i', 'p', 't'];
    assert(open@ == lit_script_open());
    let s: Vec<char> = if starts_with(tag, &open) {
        copy_range(tag, 7, tag.len())
    } else {
        copy_range(tag, 0, tag.len())
    };
    assert(s@ == attrs_of(tag@));
    let type_eq: Vec<char> = vec!['t', 'y', 'p', 'e', '='];
    assert(type_eq@ == lit_type_eq());
    let want: Vec<char> = vec![
        'a', 'p', 'p', 'l', 'i', 'c', 'a', 't', 'i', 'o', 'n', '/', 'k', 'u', 's', 'a', 'r', 'a',
        '+', 'y', 'a', 'm', 'l',
    ];
    assert(want@ == html_meta_type());
    let n = s.len();
    let mut i: usize = 0;
    while i < n
        invariant
            n == s@.len(),
            s@ == attrs_of(tag@),
            i <= n,
            type_eq@ == lit_type_eq(),
            want@ == html_meta_type(),
            type_attr_from(s@, 0) == type_attr_from(s@, i as int),
        decreases n - i,
    {
        if ascii_ws(s[i]) {
            i = i + 1;
        } else {
            let mut e = i;
            proof {
                lemma_token_end(s@, i as int);
            }
            while e < n && !ascii_ws(s[e])
                invariant
                    i <= e <= n,
                    n == s@.len(),
                    token_end(s@, i as int) == token_end(s@, e as int),
                decreases n - e,
            {
                e = e + 1;
            }
            assert(token_end(s@, e as int) == e as int);
            let ghost tok = s@.subrange(i as int, e as int);
            let is_type = e - i >= 5 && matches_at(&s, &type_eq, i);
            assert(is_type == has_prefix(tok, lit_type_eq())) by {
                if e - i >= 5 {
                    assert(tok.subrange(0, 5) =~= s@.subrange(i as int, i + 5));
                }
            }
            if is_type {
                assert(tok.skip(5) =~= s@.subrange(i + 5, e as int));
                assert(type_attr_from(s@, i as int) == Some(tok.skip(5)));
                let (a1, b1) = trim_range(&s, i + 5, e, '"');
                let (a2, b2) = trim_range(&s, a1, b1, '\'');
                let ok = b2 - a2 == want.len() && matches_at(&s, &want, a2);
                assert(ok == (s@.subrange(a2 as int, b2 as int) == html_meta_type())) by {
                    if b2 - a2 == want.len() {
                        if occurs_at(s@, want@, a2 as int) {
                            assert(s@.subrange(a2 as int, b2 as int) =~= want@);
                        }
                    }
                }
                return ok;
            }
            i = e;
        }
    }
    false
}

/// True when a lowercased `<script …` opening tag (without the closing `>`)
/// carries `type="application/kusara+yaml"`.
pub fn script_type_matches(open_tag_lower: &str) -> (r: bool)
    ensures
        r == script_type_ok(open_tag_lower@),
{
    let v = chars_of(open_tag_lower);
    script_type_ok_chars(&v)
}

/// Where the metadata block of `raw` lies.
pub fn html_meta_bounds(raw: &str) -> (r: MetaBounds)
    ensures
        bounds_view(r) == html_scan(lower_seq(raw@), 0),
        r matches MetaBounds::Found(a, b) ==> a <= b <= raw@.len(),
{
    let v = chars_of(raw);
    let lower = lower_chars(&v);
    let n = lower.len();
    let open: Vec<char> = vec!['<', 's', 'c', 'r', 'i', 'p', 't'];
    let gt: Vec<char> = vec!['>'];
    let close: Vec<char> = vec!['<', '/', 's', 'c', 'r', 'i', 'p', 't'];
    assert(open@ == lit_script_open());
    assert(gt@ == lit_gt());
    assert(close@ == lit_script_close());
    let mut from: usize = 0;
    loop
        invariant
            n == lower@.len(),
            lower@ == lower_seq(raw@),
            open@ == lit_script_open(),
            gt@ == lit_gt(),
            close@ == lit_script_close(),
            from <= n,
            html_scan(lower@, 0) == html_scan(lower@, from as int),
        decreases n + 1 - from,
    {
        proof {
            lemma_find_from(lower@, open@, from as int);
        }
        let ts = match find_chars(&lower, &open, from) {
            None => return MetaBounds::Absent,
            Some(ts) => ts,
        };
        assert(ts + 7 <= n);
        let ak = ts + 7;
        if !(ak < n && (ascii_ws(lower[ak]) || lower[ak] == '>')) {
            from = ak;
        } else {
            proof {
                lemma_find_from(lower@, gt@, ak as int);
            }
            let te = match find_chars(&lower, &gt, ak) {
                None => {
                    let rest = copy_range(&lower, ts, n);
                    if script_type_ok_chars(&rest) {
                        return MetaBounds::Unterminated;
                    } else {
                        return MetaBounds::Absent;
                    }
                },
                Some(te) => te,
            };
            assert(te + 1 <= n);
            let tag = copy_range(&lower, ts, te);
            if script_type_ok_chars(&tag) {
                proof {
                    lemma_find_from(lower@, close@, te + 1);
                }
                return match find_chars(&lower, &close, te + 1) {
                    None => MetaBounds::Unterminated,
                    Some(ce) => MetaBounds::Found(te + 1, ce),
                };
            }
            from = te + 1;
        }
    }
}

/// Extracts the body of the first
/// `<script type="application/kusara+yaml">…</script>` block. Tag name and
/// attributes match case-insensitively; the first matching block wins.
pub fn extract_html_metadata(raw: &str) -> (r: HtmlMeta<'_>)
    ensures
        match html_scan(lower_seq(raw@), 0) {
            MetaScan::Found(a, b) => r matches HtmlMeta::Found(y) && y@ == raw@.subrange(a, b),
            MetaScan::Absent => r is Absent,
            MetaScan::Unterminated => r is Unterminated,
        },
{
    match html_meta_bounds(raw) {
        MetaBounds::Found(a, b) => HtmlMeta::Found(slice_str(raw, a, b)),
        MetaBounds::Absent => HtmlMeta::Absent,
        MetaBounds::Unterminated => HtmlMeta::Unterminated,
    }
}

} // verus!
