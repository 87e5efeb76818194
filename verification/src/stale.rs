//! `stale`: docs whose `modules:` paths have a commit newer than the doc's
//! own last commit. The library reads what `git log` printed, picks the
//! newest module of each doc, and writes the report.
use vstd::prelude::*;

use crate::model::Doc;
use crate::paths::{normalize_separators, normalized};
use crate::text::{
    ascii_words, decimal, decimal_string, owned, push_str, split_ascii_words, texts, trim_ws,
    trimmed,
};
use crate::validate::{trim_end_slashes, trim_slashes};

verus! {

// ---------------------------------------------------------------------------
// Integers
// ---------------------------------------------------------------------------

/// Why a text is not an `i64` (the kinds of `std::num::ParseIntError`).
#[derive(Debug, Clone, Copy, PartialEq, Eq)]
pub enum IntError {
    Empty,
    InvalidDigit,
    PosOverflow,
    NegOverflow,
}

impl IntError {
    pub open spec fn message_spec(self) -> Seq<char> {
        match self {
            IntError::Empty => "cannot parse integer from empty string"@,
            IntError::InvalidDigit => "invalid digit found in string"@,
            IntError::PosOverflow => "number too large to fit in target type"@,
            IntError::NegOverflow => "number too small to fit in target type"@,
        }
    }

    pub fn message(&self) -> (r: String)
        ensures
            r@ == self.message_spec(),
    {
        match self {
            IntError::Empty => owned("cannot parse integer from empty string"),
            IntError::InvalidDigit => owned("invalid digit found in string"),
            IntError::PosOverflow => owned("number too large to fit in target type"),
            IntError::NegOverflow => owned("number too small to fit in target type"),
        }
    }
}

pub open spec fn is_digit(c: char) -> bool {
    '0' <= c && c <= '9'
}

pub open spec fn digit_value(c: char) -> int {
    c as int - '0' as int
}

/// Reading the digits `ds` left to right into a value of sign `neg`; the
/// first character that is not a digit, or the first digit that takes the
/// value out of the `i64` range, decides the error.
pub open spec fn digits_value(ds: Seq<char>, neg: bool) -> Result<int, IntError>
    decreases ds.len(),
{
    if ds.len() == 0 {
        Ok(0)
    } else {
        match digits_value(ds.drop_last(), neg) {
            Err(e) => Err(e),
            Ok(v) => {
                let c = ds.last();
                if !is_digit(c) {
                    Err(IntError::InvalidDigit)
                } else {
                    let nv = if neg {
                        v * 10 - digit_value(c)
                    } else {
                        v * 10 + digit_value(c)
                    };
                    if nv > i64::MAX {
                        Err(IntError::PosOverflow)
                    } else if nv < i64::MIN {
                        Err(IntError::NegOverflow)
                    } else {
                        Ok(nv)
                    }
                }
            },
        }
    }
}

/// `s` read as an `i64` the way `str::parse::<i64>` reads it: an optional
/// `+` or `-`, then one or more ASCII digits.
pub open spec fn parse_int(s: Seq<char>) -> Result<int, IntError> {
    if s.len() == 0 {
        Err(IntError::Empty)
    } else if (s[0] == '+' || s[0] == '-') && s.len() == 1 {
        Err(IntError::InvalidDigit)
    } else if s[0] == '+' || s[0] == '-' {
        digits_value(s.drop_first(), s[0] == '-')
    } else {
        digits_value(s, false)
    }
}

proof fn lemma_digits_value_range(ds: Seq<char>, neg: bool)
    ensures
        digits_value(ds, neg) matches Ok(v) ==> i64::MIN <= v <= i64::MAX && (neg ==> v <= 0) && (
        !neg ==> v >= 0),
    decreases ds.len(),
{
    if ds.len() > 0 {
        lemma_digits_value_range(ds.drop_last(), neg);
    }
}

pub fn parse_i64(s: &str) -> (r: Result<i64, IntError>)
    ensures
        match (r, parse_int(s@)) {
            (Ok(a), Ok(b)) => a == b,
            (Err(a), Err(b)) => a == b,
            _ => false,
        },
{
    let v = crate::text::chars_of(s);
    if v.len() == 0 {
        return Err(IntError::Empty);
    }
    let signed = v[0] == '+' || v[0] == '-';
    if signed && v.len() == 1 {
        return Err(IntError::InvalidDigit);
    }
    let neg = v[0] == '-';
    let start: usize = if signed {
        1
    } else {
        0
    };
    let ghost ds = v@.skip(start as int);
    assert(signed ==> ds =~= s@.drop_first());
    assert(!signed ==> ds =~= s@);
    assert(parse_int(s@) == digits_value(ds, neg));
    let mut acc: i64 = 0;
    let mut i: usize = start;
    while i < v.len()
        invariant
            start <= i <= v@.len(),
            v@ == s@,
            ds == v@.skip(start as int),
            neg ==> signed,
            parse_int(s@) == digits_value(ds, neg),
            digits_value(ds.take(i - start), neg) == Ok::<int, IntError>(acc as int),
        decreases v@.len() - i,
    {
        let c = v[i];
        proof {
            assert(ds.take(i + 1 - start).drop_last() =~= ds.take(i - start));
            assert(ds.take(i + 1 - start).last() == c);
            lemma_digits_value_range(ds.take(i - start), neg);
        }
        if !('0' <= c && c <= '9') {
            proof {
                assert(!is_digit(c));
                assert(digits_value(ds.take(i + 1 - start), neg) == Err::<int, IntError>(
                    IntError::InvalidDigit,
                ));
                assert(ds.take(v@.len() - start) =~= ds);
                lemma_digits_error_sticks(ds, (i + 1 - start) as int, neg);
            }
            return Err(IntError::InvalidDigit);
        }
        let d: i128 = (c as u32 - '0' as u32) as i128;
        assert(d == digit_value(c));
        let nv: i128 = if neg {
            acc as i128 * 10 - d
        } else {
            acc as i128 * 10 + d
        };
        if nv > i64::MAX as i128 {
            proof {
                assert(digits_value(ds.take(i + 1 - start), neg) == Err::<int, IntError>(
                    IntError::PosOverflow,
                ));
                assert(ds.take(v@.len() - start) =~= ds);
                lemma_digits_error_sticks(ds, (i + 1 - start) as int, neg);
            }
            return Err(IntError::PosOverflow);
        }
        if nv < i64::MIN as i128 {
            proof {
                assert(digits_value(ds.take(i + 1 - start), neg) == Err::<int, IntError>(
                    IntError::NegOverflow,
                ));
                assert(ds.take(v@.len() - start) =~= ds);
                lemma_digits_error_sticks(ds, (i + 1 - start) as int, neg);
            }
            return Err(IntError::NegOverflow);
        }
        acc = nv as i64;
        i = i + 1;
    }
    assert(ds.take(v@.len() - start) =~= ds);
    Ok(acc)
}

/// Once reading a prefix of `ds` fails, reading `ds` fails the same way.
proof fn lemma_digits_error_sticks(ds: Seq<char>, k: int, neg: bool)
    requires
        0 <= k <= ds.len(),
        digits_value(ds.take(k), neg) is Err,
    ensures
        digits_value(ds, neg) == digits_value(ds.take(k), neg),
    decreases ds.len() - k,
{
    if k < ds.len() {
        assert(ds.take(k + 1).drop_last() =~= ds.take(k));
        lemma_digits_error_sticks(ds, k + 1, neg);
    } else {
        assert(ds.take(k) =~= ds);
    }
}

// ---------------------------------------------------------------------------
// git log
// ---------------------------------------------------------------------------

/// The last commit that touched a path: committer time (unix seconds),
/// short hash and date.
#[derive(Debug, Clone)]
pub struct GitStamp {
    pub time: i64,
    pub hash: String,
    pub date: String,
}

/// Why the output of `git log -1 --format=%ct %h %cs` could not be read.
#[derive(Debug)]
pub enum GitLogError {
    /// Fewer than three fields; the trimmed output.
    Unexpected(String),
    /// The first field is not a time.
    BadTime(String, IntError),
}

impl GitLogError {
    /// The error line for the path `rel_path`.
    pub open spec fn message_spec(&self, rel_path: Seq<char>) -> Seq<char> {
        match self {
            GitLogError::Unexpected(line) => "unexpected git log output for `"@ + rel_path
                + "`: "@ + line@,
            GitLogError::BadTime(t, e) => "parse commit time `"@ + t@ + "`: "@ + e.message_spec(),
        }
    }

    pub fn message(&self, rel_path: &str) -> (r: String)
        ensures
            r@ == self.message_spec(rel_path@),
    {
        match self {
            GitLogError::Unexpected(line) => {
                let mut m = owned("unexpected git log output for `");
                push_str(&mut m, rel_path);
                push_str(&mut m, "`: ");
                push_str(&mut m, line.as_str());
                m
            },
            GitLogError::BadTime(t, e) => {
                let mut m = owned("parse commit time `");
                push_str(&mut m, t.as_str());
                push_str(&mut m, "`: ");
                let em = e.message();
                push_str(&mut m, em.as_str());
                m
            },
        }
    }
}

/// What one line of `git log -1 --format=%ct %h %cs` says: nothing for no
/// output (no commit touches the path), else the first three fields.
pub open spec fn git_log_spec(out: Seq<char>) -> Result<Option<(int, Seq<char>, Seq<char>)>, (
    Seq<char>,
    Option<IntError>,
)> {
    let line = trimmed(out);
    let w = ascii_words(line);
    if line.len() == 0 {
        Ok(None)
    } else if w.len() < 3 {
        Err((line, None))
    } else {
        match parse_int(w[0]) {
            Ok(t) => Ok(Some((t, w[1], w[2]))),
            Err(e) => Err((w[0], Some(e))),
        }
    }
}

/// Reads the output of `git log -1 --format=%ct %h %cs`: `None` when no
/// commit touches the path.
pub fn parse_git_log(out: &str) -> (r: Result<Option<GitStamp>, GitLogError>)
    ensures
        match (r, git_log_spec(out@)) {
            (Ok(None), Ok(None)) => true,
            (Ok(Some(s)), Ok(Some((t, h, d)))) => s.time == t && s.hash@ == h && s.date@ == d,
            (Err(GitLogError::Unexpected(l)), Err((l2, None))) => l@ == l2,
            (Err(GitLogError::BadTime(f, e)), Err((f2, Some(e2)))) => f@ == f2 && e == e2,
            _ => false,
        },
{
    let line = trim_ws(out);
    if line.unicode_len() == 0 {
        return Ok(None);
    }
    let w = split_ascii_words(line.as_str());
    if w.len() < 3 {
        return Err(GitLogError::Unexpected(line));
    }
    assert(texts(w@)[0] == w@[0]@ && texts(w@)[1] == w@[1]@ && texts(w@)[2] == w@[2]@);
    match parse_i64(w[0].as_str()) {
        Ok(t) => Ok(Some(GitStamp { time: t, hash: owned(w[1].as_str()), date: owned(w[2].as_str()) })),
        Err(e) => Err(GitLogError::BadTime(owned(w[0].as_str()), e)),
    }
}

/// The error line for a `git log` run that failed: its standard error,
/// trimmed.
pub fn git_failure_message(rel_path: &str, stderr: &str) -> (r: String)
    ensures
        r@ == "git log failed for `"@ + rel_path@ + "`: "@ + trimmed(stderr@),
{
    let mut m = owned("git log failed for `");
    push_str(&mut m, rel_path);
    push_str(&mut m, "`: ");
    let t = trim_ws(stderr);
    push_str(&mut m, t.as_str());
    m
}

// ---------------------------------------------------------------------------
// Picking the stale docs
// ---------------------------------------------------------------------------

/// Whether a doc is checked: it is not generated and lists `modules:`.
pub fn is_stale_candidate(d: &Doc) -> (r: bool)
    ensures
        r == (!d.is_generated() && d.modules@.len() > 0),
{
    !d.generated() && d.modules.len() > 0
}

/// The path whose history is read for a `modules:` entry: without its
/// trailing `/`s, `/`-separated.
pub fn module_key(m: &str) -> (r: String)
    ensures
        r@ == normalized(trim_slashes(m@)),
{
    let t = trim_end_slashes(m);
    normalize_separators(t.as_str())
}

/// A module whose last commit is at or before `t` (or that has none).
pub open spec fn not_after(o: Option<GitStamp>, t: int) -> bool {
    match o {
        Some(s) => s.time <= t,
        None => true,
    }
}

/// A module whose last commit is before `t` (or that has none).
pub open spec fn before(o: Option<GitStamp>, t: int) -> bool {
    match o {
        Some(s) => s.time < t,
        None => true,
    }
}

/// The module (by index) with the newest commit, if one is newer than the
/// doc's: among the modules whose last commit is later than `doc_time`,
/// the first whose commit time is the greatest.
/// Module `i` is the newest: its last commit is later than `doc_time`, no
/// module's is later than it, and every earlier module's is older.
pub open spec fn is_newest(doc_time: int, stamps: Seq<Option<GitStamp>>, i: int) -> bool {
    &&& 0 <= i < stamps.len()
    &&& stamps[i] is Some
    &&& stamps[i].unwrap().time > doc_time
    &&& forall|k: int|
        0 <= k < stamps.len() ==> #[trigger] not_after(stamps[k], stamps[i].unwrap().time as int)
    &&& forall|k: int| 0 <= k < i ==> #[trigger] before(stamps[k], stamps[i].unwrap().time as int)
}

/// No module has a commit later than `doc_time`.
pub open spec fn none_newer(doc_time: int, stamps: Seq<Option<GitStamp>>) -> bool {
    forall|k: int| 0 <= k < stamps.len() ==> #[trigger] not_after(stamps[k], doc_time)
}

pub fn newest_module(doc_time: i64, stamps: &Vec<Option<GitStamp>>) -> (r: Option<usize>)
    ensures
        r is None <==> none_newer(doc_time as int, stamps@),
        r matches Some(i) ==> is_newest(doc_time as int, stamps@, i as int),
{
    let mut best: Option<usize> = None;
    let mut best_time: i64 = doc_time;
    let mut k: usize = 0;
    while k < stamps.len()
        invariant
            k <= stamps@.len(),
            best matches Some(i) ==> {
                &&& i < k
                &&& stamps@[i as int] is Some
                &&& stamps@[i as int].unwrap().time == best_time
                &&& best_time > doc_time
                &&& forall|j: int| 0 <= j < i ==> #[trigger] before(stamps@[j], best_time as int)
            },
            best is None ==> best_time == doc_time,
            forall|j: int| 0 <= j < k ==> #[trigger] not_after(stamps@[j], best_time as int),
        decreases stamps@.len() - k,
    {
        let ghost old_bt = best_time;
        assert(forall|j: int| 0 <= j < k ==> #[trigger] not_after(stamps@[j], old_bt as int));
        match &stamps[k] {
            Some(s) => {
                if s.time > best_time {
                    proof {
                        assert forall|j: int| 0 <= j < k implies #[trigger] before(
                            stamps@[j],
                            s.time as int,
                        ) && not_after(stamps@[j], s.time as int) by {
                            assert(not_after(stamps@[j], best_time as int));
                        }
                    }
                    best = Some(k);
                    best_time = s.time;
                }
            },
            None => {},
        }
        assert(not_after(stamps@[k as int], best_time as int));
        assert forall|j: int| 0 <= j < k + 1 implies #[trigger] not_after(
            stamps@[j],
            best_time as int,
        ) by {
            if j < k {
                assert(not_after(stamps@[j], old_bt as int));
                assert(old_bt <= best_time);
            }
        }
        k = k + 1;
    }
    proof {
        if best is None {
            assert forall|j: int| 0 <= j < stamps@.len() implies #[trigger] not_after(
                stamps@[j],
                doc_time as int,
            ) by {
                assert(not_after(stamps@[j], best_time as int));
            }
        } else {
            let i = best.unwrap();
            assert(!not_after(stamps@[i as int], doc_time as int));
        }
    }
    best
}

// ---------------------------------------------------------------------------
// The report
// ---------------------------------------------------------------------------

/// A stale doc: its path and id, its last commit, and the module path with
/// the newest commit.
#[derive(Debug)]
pub struct StaleFinding {
    pub rel_path: String,
    pub id: String,
    pub doc_stamp: GitStamp,
    pub module: String,
    pub module_stamp: GitStamp,
}

/// The count of checked docs after one candidate doc whose own last commit
/// is `doc_stamp`, and whether that doc is checked: a doc that no commit
/// touches is being written right now, so it is neither checked nor counted.
pub fn count_checked(checked: usize, doc_stamp: &Option<GitStamp>) -> (r: (usize, bool))
    requires
        checked < usize::MAX,
    ensures
        r.1 == doc_stamp is Some,
        r.0 == if doc_stamp is Some {
            checked + 1
        } else {
            checked as int
        },
{
    match doc_stamp {
        Some(_) => (checked + 1, true),
        None => (checked, false),
    }
}

/// What the check of one doc finds, given its last commit and the last
/// commit of each of its `modules:` paths (in order): nothing when no module
/// is newer than the doc, else the doc with its newest module.
pub fn stale_finding(doc: &Doc, doc_stamp: GitStamp, stamps: Vec<Option<GitStamp>>) -> (r: Option<
    StaleFinding,
>)
    requires
        stamps@.len() == doc.modules@.len(),
    ensures
        r is None <==> none_newer(doc_stamp.time as int, stamps@),
        r matches Some(f) ==> {
            &&& f.rel_path@ == doc.rel_path@
            &&& f.id@ == doc.id.0@
            &&& f.doc_stamp == doc_stamp
            &&& exists|i: int|
                #[trigger] is_newest(doc_stamp.time as int, stamps@, i) && f.module@
                    == doc.modules@[i]@ && f.module_stamp == stamps@[i].unwrap()
        },
{
    let ghost all = stamps@;
    match newest_module(doc_stamp.time, &stamps) {
        None => None,
        Some(i) => {
            let mut rest = stamps;
            match rest.remove(i) {
                Some(module_stamp) => {
                    assert(is_newest(doc_stamp.time as int, all, i as int));
                    Some(
                        StaleFinding {
                            rel_path: owned(doc.rel_path.as_str()),
                            id: owned(doc.id.as_str()),
                            doc_stamp,
                            module: owned(doc.modules[i].as_str()),
                            module_stamp,
                        },
                    )
                },
                None => None,
            }
        },
    }
}

pub open spec fn finding_text(f: StaleFinding) -> Seq<char> {
    ("  "@ + f.rel_path@ + " ("@ + f.id@ + ")"@).push('\n') + ("    doc last commit:    "@
        + f.doc_stamp.date@ + " "@ + f.doc_stamp.hash@).push('\n') + ("    newer module path:  "@
        + f.module@ + " \u{2014} "@ + f.module_stamp.date@ + " "@ + f.module_stamp.hash@).push(
        '\n',
    )
}

pub open spec fn findings_text(fs: Seq<StaleFinding>) -> Seq<char>
    decreases fs.len(),
{
    if fs.len() == 0 {
        Seq::empty()
    } else {
        findings_text(fs.drop_last()) + finding_text(fs.last())
    }
}

/// The output of `stale`: `OK` with the number of docs checked when no doc
/// is stale, else each stale doc and their count.
pub open spec fn stale_text(fs: Seq<StaleFinding>, checked: nat) -> Seq<char> {
    if fs.len() == 0 {
        ("OK ("@ + decimal(checked) + " docs with modules checked)"@).push('\n')
    } else {
        "Stale docs (code in `modules:` changed after the doc's last commit):\n"@ + findings_text(fs)
            + "\n"@ + (decimal(fs.len()) + " stale doc(s)"@).push('\n')
    }
}

fn push_finding(out: &mut String, f: &StaleFinding)
    ensures
        final(out)@ == old(out)@ + finding_text(*f),
{
    let ghost o = out@;
    push_str(out, "  ");
    push_str(out, f.rel_path.as_str());
    push_str(out, " (");
    push_str(out, f.id.as_str());
    push_str(out, ")\n");
    proof {
        reveal_strlit(")\n");
        reveal_strlit(")");
    }
    let ghost a = out@;
    push_str(out, "    doc last commit:    ");
    push_str(out, f.doc_stamp.date.as_str());
    push_str(out, " ");
    push_str(out, f.doc_stamp.hash.as_str());
    crate::text::push_char(out, '\n');
    let ghost b = out@;
    push_str(out, "    newer module path:  ");
    push_str(out, f.module.as_str());
    push_str(out, " \u{2014} ");
    push_str(out, f.module_stamp.date.as_str());
    push_str(out, " ");
    push_str(out, f.module_stamp.hash.as_str());
    crate::text::push_char(out, '\n');
    proof {
        assert(a =~= o + ("  "@ + f.rel_path@ + " ("@ + f.id@ + ")"@).push('\n'));
    }
    assert(out@ =~= o + finding_text(*f));
}

/// The output of `stale` and whether it reports stale docs (the command
/// then fails).
pub fn stale_report(findings: &Vec<StaleFinding>, checked: usize) -> (r: (String, bool))
    ensures
        r.0@ == stale_text(findings@, checked as nat),
        r.1 == (findings@.len() > 0),
{
    let mut out = String::new();
    if findings.len() == 0 {
        push_str(&mut out, "OK (");
        let n = decimal_string(checked as u64);
        push_str(&mut out, n.as_str());
        push_str(&mut out, " docs with modules checked)");
        crate::text::push_char(&mut out, '\n');
        return (out, false);
    }
    push_str(&mut out, "Stale docs (code in `modules:` changed after the doc's last commit):\n");
    let ghost head = out@;
    let mut i: usize = 0;
    while i < findings.len()
        invariant
            i <= findings@.len(),
            out@ == head + findings_text(findings@.take(i as int)),
        decreases findings@.len() - i,
    {
        push_finding(&mut out, &findings[i]);
        assert(findings@.take(i + 1).drop_last() =~= findings@.take(i as int));
        i = i + 1;
    }
    assert(findings@.take(findings@.len() as int) =~= findings@);
    push_str(&mut out, "\n");
    let n = decimal_string(findings.len() as u64);
    push_str(&mut out, n.as_str());
    push_str(&mut out, " stale doc(s)");
    crate::text::push_char(&mut out, '\n');
    (out, true)
}

} // verus!
