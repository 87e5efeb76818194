//! Walking the graph: the ids at each distance from a set of seeds, for
//! `impact` and `deps`, and the docs of record of touched files with their
//! transitive impact.
use vstd::prelude::*;

use crate::graph::{pair_view, pair_views, Graph, Pair};
use crate::model::DocId;
use crate::paths::{covers, module_covers, normalize_separators, normalized};
use crate::text::{
    contains_text, lemma_push_to_set, push_str, sorted_insert, sorted_strict, text_eq, text_set,
    texts, Textual,
};

verus! {

// ---------------------------------------------------------------------------
// Distances
// ---------------------------------------------------------------------------

/// Ids one step from `a` along `rel`.
pub open spec fn step(rel: Set<Pair>, a: Set<Seq<char>>) -> Set<Seq<char>> {
    Set::new(|y: Seq<char>| exists|x: Seq<char>| a.contains(x) && #[trigger] rel.contains((x, y)))
}

/// Ids at most `k` steps from `seeds`.
pub open spec fn reach(rel: Set<Pair>, seeds: Set<Seq<char>>, k: nat) -> Set<Seq<char>>
    decreases k,
{
    if k == 0 {
        seeds
    } else {
        reach(rel, seeds, (k - 1) as nat).union(step(rel, reach(rel, seeds, (k - 1) as nat)))
    }
}

/// Ids exactly `k` steps from `seeds`: their shortest distance is `k`.
pub open spec fn layer(rel: Set<Pair>, seeds: Set<Seq<char>>, k: nat) -> Set<Seq<char>> {
    if k == 0 {
        seeds
    } else {
        reach(rel, seeds, k).difference(reach(rel, seeds, (k - 1) as nat))
    }
}

/// Ids some number of steps from `seeds`.
pub open spec fn closure(rel: Set<Pair>, seeds: Set<Seq<char>>) -> Set<Seq<char>> {
    Set::new(|y: Seq<char>| exists|k: nat| #[trigger] reach(rel, seeds, k).contains(y))
}

pub proof fn lemma_reach_monotone(rel: Set<Pair>, seeds: Set<Seq<char>>, j: nat, k: nat)
    requires
        j <= k,
    ensures
        reach(rel, seeds, j).subset_of(reach(rel, seeds, k)),
    decreases k - j,
{
    if j < k {
        lemma_reach_monotone(rel, seeds, j, (k - 1) as nat);
    }
}

/// The ids new at distance `k + 1` are the neighbours of the ids at
/// distance exactly `k` that are not within distance `k`.
pub proof fn lemma_next_layer(rel: Set<Pair>, seeds: Set<Seq<char>>, k: nat)
    ensures
        layer(rel, seeds, k + 1) == step(rel, layer(rel, seeds, k)).difference(
            reach(rel, seeds, k),
        ),
{
    let r = reach(rel, seeds, k);
    let l = layer(rel, seeds, k);
    assert forall|y: Seq<char>| #[trigger]
        layer(rel, seeds, k + 1).contains(y) <==> step(rel, l).difference(r).contains(y) by {
        if layer(rel, seeds, k + 1).contains(y) {
            assert(step(rel, r).contains(y));
            let x = choose|x: Seq<char>| r.contains(x) && #[trigger] rel.contains((x, y));
            if k > 0 && !l.contains(x) {
                let p = reach(rel, seeds, (k - 1) as nat);
                assert(p.contains(x));
                assert(step(rel, p).contains(y));
            }
            assert(l.contains(x));
        }
        if step(rel, l).difference(r).contains(y) {
            let x = choose|x: Seq<char>| l.contains(x) && #[trigger] rel.contains((x, y));
            assert(r.contains(x));
        }
    }
    assert(layer(rel, seeds, k + 1) =~= step(rel, l).difference(r));
}

/// An empty layer ends the walk: nothing lies further away.
pub proof fn lemma_empty_layer(rel: Set<Pair>, seeds: Set<Seq<char>>, k: nat, j: nat)
    requires
        layer(rel, seeds, k + 1).is_empty(),
        k <= j,
    ensures
        reach(rel, seeds, j) == reach(rel, seeds, k),
    decreases j - k,
{
    if j > k {
        lemma_empty_layer(rel, seeds, k, (j - 1) as nat);
        let r = reach(rel, seeds, k);
        assert forall|y: Seq<char>| #[trigger] step(rel, r).contains(y) implies r.contains(y) by {
            lemma_next_layer(rel, seeds, k);
            if !r.contains(y) {
                assert(reach(rel, seeds, k + 1).contains(y));
                assert(layer(rel, seeds, k + 1).contains(y));
            }
        }
        assert(reach(rel, seeds, j) =~= r);
    }
}

/// Ids at distance exactly `k` lie within distance `k` and beyond `k - 1`:
/// the layers are pairwise disjoint.
pub proof fn lemma_layers_disjoint(rel: Set<Pair>, seeds: Set<Seq<char>>, i: nat, j: nat)
    requires
        i < j,
    ensures
        layer(rel, seeds, i).disjoint(layer(rel, seeds, j)),
{
    lemma_reach_monotone(rel, seeds, i, (j - 1) as nat);
    assert forall|y: Seq<char>| layer(rel, seeds, i).contains(y) implies !layer(
        rel,
        seeds,
        j,
    ).contains(y) by {
        if i == 0 {
            assert(reach(rel, seeds, 0).contains(y));
        } else {
            assert(reach(rel, seeds, i).contains(y));
        }
    }
}

/// Every id within distance `k` is at some exact distance up to `k`.
pub proof fn lemma_reach_is_union_of_layers(
    rel: Set<Pair>,
    seeds: Set<Seq<char>>,
    k: nat,
    y: Seq<char>,
)
    requires
        reach(rel, seeds, k).contains(y),
    ensures
        exists|i: nat| i <= k && #[trigger] layer(rel, seeds, i).contains(y),
    decreases k,
{
    if k == 0 {
        assert(layer(rel, seeds, 0).contains(y));
    } else if reach(rel, seeds, (k - 1) as nat).contains(y) {
        lemma_reach_is_union_of_layers(rel, seeds, (k - 1) as nat, y);
    } else {
        assert(layer(rel, seeds, k).contains(y));
    }
}

// ---------------------------------------------------------------------------
// Walking
// ---------------------------------------------------------------------------

pub open spec fn seconds(pairs: Seq<(DocId, DocId)>) -> Seq<Seq<char>> {
    pairs.map_values(|p: (DocId, DocId)| p.1.0@)
}

/// Everything a walk can reach: the seeds and the targets of the pairs.
pub open spec fn universe(seeds: Seq<DocId>, pairs: Seq<(DocId, DocId)>) -> Set<Seq<char>> {
    (texts(seeds) + seconds(pairs)).to_set()
}

proof fn lemma_reach_in_universe(seeds: Seq<DocId>, pairs: Seq<(DocId, DocId)>, k: nat)
    ensures
        reach(pair_views(pairs).to_set(), text_set(seeds), k).subset_of(universe(seeds, pairs)),
    decreases k,
{
    let rel = pair_views(pairs).to_set();
    let u = texts(seeds) + seconds(pairs);
    if k == 0 {
        assert forall|y: Seq<char>| text_set(seeds).contains(y) implies u.to_set().contains(y) by {
            let i = choose|i: int| 0 <= i < texts(seeds).len() && texts(seeds)[i] == y;
            assert(u[i] == y);
        }
    } else {
        lemma_reach_in_universe(seeds, pairs, (k - 1) as nat);
        let prev = reach(rel, text_set(seeds), (k - 1) as nat);
        assert forall|y: Seq<char>| #[trigger] step(rel, prev).contains(y) implies u.to_set().contains(
            y,
        ) by {
            let x = choose|x: Seq<char>| prev.contains(x) && #[trigger] rel.contains((x, y));
            let i = choose|i: int|
                0 <= i < pair_views(pairs).len() && pair_views(pairs)[i] == (x, y);
            assert(seconds(pairs)[i] == y);
            assert(u[texts(seeds).len() + i] == y);
        }
    }
}

/// Some pair before index `b` relates `x` to `u`.
pub open spec fn edge_before(pv: Seq<Pair>, x: Seq<char>, u: Seq<char>, b: int) -> bool {
    exists|j: int| 0 <= j < b && #[trigger] pv[j] == (x, u)
}

/// Adds to `next` the ids related to `x` by `pairs` that are not in `seen`.
fn add_neighbors(
    pairs: &Vec<(DocId, DocId)>,
    x: &str,
    seen: &Vec<DocId>,
    next: &mut Vec<DocId>,
)
    requires
        sorted_strict(texts(old(next)@)),
    ensures
        sorted_strict(texts(final(next)@)),
        text_set(final(next)@) == text_set(old(next)@).union(
            Set::new(
                |y: Seq<char>|
                    pair_views(pairs@).to_set().contains((x@, y)) && !text_set(seen@).contains(y),
            ),
        ),
{
    let ghost n0 = text_set(next@);
    let ghost pv = pair_views(pairs@);
    let mut b: usize = 0;
    while b < pairs.len()
        invariant
            b <= pairs@.len(),
            pv == pair_views(pairs@),
            sorted_strict(texts(next@)),
            text_set(next@) == n0.union(
                Set::new(
                    |y: Seq<char>| edge_before(pv, x@, y, b as int) && !text_set(seen@).contains(y),
                ),
            ),
        decreases pairs@.len() - b,
    {
        let is_edge = text_eq(pairs[b].0.as_str(), x);
        if is_edge && !contains_text(seen, pairs[b].1.as_str()) {
            sorted_insert(next, pairs[b].1.duplicate());
        }
        proof {
            assert(pv[b as int] == pair_view(pairs@[b as int]));
            assert forall|u: Seq<char>| #[trigger] edge_before(pv, x@, u, b + 1) <==> (edge_before(
                pv,
                x@,
                u,
                b as int,
            ) || pv[b as int] == (x@, u)) by {
                if edge_before(pv, x@, u, b + 1) {
                    let j = choose|j: int| 0 <= j < b + 1 && #[trigger] pv[j] == (x@, u);
                    if j < b {
                        assert(edge_before(pv, x@, u, b as int));
                    }
                }
                if edge_before(pv, x@, u, b as int) {
                    let j = choose|j: int| 0 <= j < b && #[trigger] pv[j] == (x@, u);
                    assert(edge_before(pv, x@, u, b + 1));
                }
                if pv[b as int] == (x@, u) {
                    assert(edge_before(pv, x@, u, b + 1));
                }
            }
            assert(text_set(next@) =~= n0.union(
                Set::new(
                    |u: Seq<char>| edge_before(pv, x@, u, b + 1) && !text_set(seen@).contains(u),
                ),
            ));
        }
        b = b + 1;
    }
    proof {
        assert forall|u: Seq<char>| #[trigger]
            edge_before(pv, x@, u, pairs@.len() as int) <==> pv.to_set().contains((x@, u)) by {
            if pv.to_set().contains((x@, u)) {
                let j = choose|j: int| 0 <= j < pv.len() && pv[j] == (x@, u);
                assert(edge_before(pv, x@, u, pairs@.len() as int));
            }
        }
        assert(text_set(next@) =~= n0.union(
            Set::new(
                |y: Seq<char>| pv.to_set().contains((x@, y)) && !text_set(seen@).contains(y),
            ),
        ));
    }
}

/// The ids at distance 1, 2, ... from `seeds` along `pairs`, each layer
/// ordered and without repeats: layer `i` of the result holds the ids at
/// distance exactly `i + 1`. The walk stops at the first empty layer, or
/// after `limit` layers.
pub fn walk_layers(pairs: &Vec<(DocId, DocId)>, seeds: &Vec<DocId>, limit: Option<usize>) -> (r:
    Vec<Vec<DocId>>)
    ensures
        limit matches Some(l) ==> r@.len() <= l,
        forall|i: int|
            0 <= i < r@.len() ==> sorted_strict(texts(#[trigger] r@[i]@)) && text_set(r@[i]@)
                == layer(pair_views(pairs@).to_set(), text_set(seeds@), (i + 1) as nat) && r@[i]@.len()
                > 0,
        (limit matches Some(l) ==> r@.len() < l) ==> layer(
            pair_views(pairs@).to_set(),
            text_set(seeds@),
            (r@.len() + 1) as nat,
        ).is_empty(),
{
    let ghost rel = pair_views(pairs@).to_set();
    let ghost s0 = text_set(seeds@);
    let mut seen: Vec<DocId> = Vec::new();
    let mut frontier: Vec<DocId> = Vec::new();
    let mut i: usize = 0;
    while i < seeds.len()
        invariant
            i <= seeds@.len(),
            sorted_strict(texts(seen@)),
            text_set(seen@) == texts(seeds@).take(i as int).to_set(),
            seen@.len() <= i,
        decreases seeds@.len() - i,
    {
        sorted_insert(&mut seen, seeds[i].duplicate());
        proof {
            assert(texts(seeds@).take(i + 1) =~= texts(seeds@).take(i as int).push(
                texts(seeds@)[i as int],
            ));
            lemma_push_to_set(texts(seeds@).take(i as int), texts(seeds@)[i as int]);
        }
        i = i + 1;
    }
    assert(texts(seeds@).take(seeds@.len() as int) =~= texts(seeds@));
    frontier = copy_ids(&seen);
    let mut result: Vec<Vec<DocId>> = Vec::new();
    let mut k: usize = 0;
    let ghost bound: int = (seeds@.len() + pairs@.len()) as int;
    proof {
        lemma_reach_in_universe(seeds@, pairs@, 0);
    }
    loop
        invariant
            rel == pair_views(pairs@).to_set(),
            s0 == text_set(seeds@),
            sorted_strict(texts(seen@)),
            sorted_strict(texts(frontier@)),
            text_set(seen@) == reach(rel, s0, k as nat),
            text_set(frontier@) == layer(rel, s0, k as nat),
            result@.len() == k,
            limit matches Some(l) ==> k <= l,
            forall|q: int|
                0 <= q < k ==> sorted_strict(texts(#[trigger] result@[q]@)) && text_set(
                    result@[q]@,
                ) == layer(rel, s0, (q + 1) as nat) && result@[q]@.len() > 0,
            seen@.len() <= bound,
            bound == (seeds@.len() + pairs@.len()) as int,
            k <= seen@.len(),
        ensures
            result@.len() == k,
            limit matches Some(l) ==> k <= l,
            forall|q: int|
                0 <= q < k ==> sorted_strict(texts(#[trigger] result@[q]@)) && text_set(
                    result@[q]@,
                ) == layer(rel, s0, (q + 1) as nat) && result@[q]@.len() > 0,
            (limit matches Some(l) ==> k < l) ==> layer(rel, s0, (k + 1) as nat).is_empty(),
        decreases bound - seen@.len(),
    {
        let at_limit = match limit {
            Some(l) => k >= l,
            None => false,
        };
        if at_limit {
            break ;
        }
        let mut next: Vec<DocId> = Vec::new();
        let mut a: usize = 0;
        let ghost fr = texts(frontier@);
        while a < frontier.len()
            invariant
                a <= frontier@.len(),
                fr == texts(frontier@),
                sorted_strict(texts(next@)),
                text_set(next@) == step(rel, fr.take(a as int).to_set()).difference(
                    text_set(seen@),
                ),
                rel == pair_views(pairs@).to_set(),
            decreases frontier@.len() - a,
        {
            let ghost before = text_set(next@);
            add_neighbors(pairs, frontier[a].as_text(), &seen, &mut next);
            proof {
                let xa = fr[a as int];
                lemma_push_to_set(fr.take(a as int), xa);
                assert(fr.take(a + 1) =~= fr.take(a as int).push(xa));
                assert(text_set(next@) =~= step(rel, fr.take(a + 1).to_set()).difference(
                    text_set(seen@),
                )) by {
                    assert forall|y: Seq<char>| #[trigger] step(
                        rel,
                        fr.take(a + 1).to_set(),
                    ).contains(y) <==> (step(rel, fr.take(a as int).to_set()).contains(y)
                        || rel.contains((xa, y))) by {
                        if step(rel, fr.take(a + 1).to_set()).contains(y) {
                            let x = choose|x: Seq<char>|
                                fr.take(a + 1).to_set().contains(x) && #[trigger] rel.contains(
                                    (x, y),
                                );
                            if x != xa {
                                assert(fr.take(a as int).to_set().contains(x));
                            }
                        }
                        if rel.contains((xa, y)) {
                            assert(fr.take(a + 1).to_set().contains(xa));
                        }
                    }
                }
            }
            a = a + 1;
        }
        proof {
            assert(fr.take(frontier@.len() as int) =~= fr);
            assert(fr.to_set() == layer(rel, s0, k as nat));
            lemma_next_layer(rel, s0, k as nat);
        }
        if next.len() == 0 {
            proof {
                assert(text_set(next@) =~= Set::empty());
            }
            break ;
        }
        let ghost r_k = reach(rel, s0, k as nat);
        let ghost old_len = seen@.len();
        let mut j: usize = 0;
        while j < next.len()
            invariant
                j <= next@.len(),
                sorted_strict(texts(seen@)),
                sorted_strict(texts(next@)),
                text_set(next@) == layer(rel, s0, (k + 1) as nat),
                r_k == reach(rel, s0, k as nat),
                layer(rel, s0, (k + 1) as nat).disjoint(r_k),
                text_set(seen@) == r_k.union(texts(next@).take(j as int).to_set()),
                seen@.len() == old_len + j,
            decreases next@.len() - j,
        {
            let ghost y = texts(next@)[j as int];
            proof {
                assert(text_set(next@).contains(y));
                assert(!r_k.contains(y));
                if texts(next@).take(j as int).to_set().contains(y) {
                    let q = choose|q: int| 0 <= q < j && texts(next@).take(j as int)[q] == y;
                    crate::text::lemma_seq_lt_irreflexive(y);
                    assert(crate::text::seq_lt(texts(next@)[q], texts(next@)[j as int]));
                }
            }
            sorted_insert(&mut seen, next[j].duplicate());
            proof {
                lemma_push_to_set(texts(next@).take(j as int), y);
                assert(texts(next@).take(j + 1) =~= texts(next@).take(j as int).push(y));
                assert(text_set(seen@) =~= r_k.union(texts(next@).take(j + 1).to_set()));
            }
            j = j + 1;
        }
        proof {
            assert(texts(next@).take(next@.len() as int) =~= texts(next@));
            assert(text_set(seen@) =~= reach(rel, s0, (k + 1) as nat));
            lemma_reach_in_universe(seeds@, pairs@, (k + 1) as nat);
            let u = texts(seeds@) + seconds(pairs@);
            u.lemma_cardinality_of_set();
            vstd::set_lib::lemma_len_subset(text_set(seen@), u.to_set());
            assert(texts(seen@).no_duplicates()) by {
                assert forall|p: int, q: int|
                    0 <= p < texts(seen@).len() && 0 <= q < texts(seen@).len() && p != q implies texts(
                    seen@,
                )[p] != texts(seen@)[q] by {
                    crate::text::lemma_seq_lt_irreflexive(texts(seen@)[p]);
                    if p < q {
                        assert(crate::text::seq_lt(texts(seen@)[p], texts(seen@)[q]));
                    } else {
                        assert(crate::text::seq_lt(texts(seen@)[q], texts(seen@)[p]));
                    }
                }
            }
            texts(seen@).unique_seq_to_set();
            assert(text_set(seen@).len() <= u.to_set().len());
            assert(u.len() == bound);
            assert(seen@.len() == texts(seen@).len());
            assert(seen@.len() <= bound);
        }
        let sl = seen.len();
        assert(k < sl);
        result.push(copy_ids(&next));
        frontier = next;
        k = k + 1;
    }
    result
}

/// A copy of a list of ids.
pub fn copy_ids(v: &Vec<DocId>) -> (r: Vec<DocId>)
    ensures
        r@ == v@,
{
    let mut r: Vec<DocId> = Vec::new();
    let mut i: usize = 0;
    while i < v.len()
        invariant
            i <= v@.len(),
            r@ == v@.take(i as int),
        decreases v@.len() - i,
    {
        r.push(v[i].duplicate());
        assert(v@.take(i + 1) =~= v@.take(i as int).push(v@[i as int]));
        i = i + 1;
    }
    assert(v@.take(v@.len() as int) =~= v@);
    r
}

// ---------------------------------------------------------------------------
// impact / deps
// ---------------------------------------------------------------------------

/// `impact` walks to the docs that depend on the seeds; `deps` to the docs
/// the seeds depend on.
#[derive(Clone, Copy, Debug, PartialEq, Eq)]
pub enum Direction {
    Forward,
    Reverse,
}

/// Why a walk cannot start.
#[derive(Debug)]
pub enum TraverseError {
    /// No id was given.
    NoIds,
    /// These ids (in the order given) are not known.
    UnknownIds(Vec<String>),
}

impl TraverseError {
    pub open spec fn message_spec(&self) -> Seq<char> {
        match self {
            TraverseError::NoIds => "at least one id is required"@,
            TraverseError::UnknownIds(ids) => "unknown id(s): "@ + crate::text::join_seq(
                texts(ids@),
                ", "@,
            ),
        }
    }

    pub fn message(&self) -> (r: String)
        ensures
            r@ == self.message_spec(),
    {
        match self {
            TraverseError::NoIds => String::from_str("at least one id is required"),
            TraverseError::UnknownIds(ids) => {
                let mut m = String::from_str("unknown id(s): ");
                let j = crate::text::join_texts(ids, ", ");
                push_str(&mut m, j.as_str());
                m
            },
        }
    }
}

/// The ids reported at one distance.
#[derive(Debug)]
pub struct Layer {
    pub depth: u32,
    pub ids: Vec<DocId>,
}

/// The relation a walk follows: the reversed hard edges for `impact`, the
/// hard edges for `deps`, each with the matching soft edges when asked.
pub open spec fn walk_rel(g: Graph, dir: Direction, include_related: bool) -> Set<Pair> {
    let (hard, soft) = match dir {
        Direction::Forward => (g.reverse.rel(), g.related_reverse.rel()),
        Direction::Reverse => (g.forward.rel(), g.related_forward.rel()),
    };
    if include_related {
        hard.union(soft)
    } else {
        hard
    }
}

/// The given ids that are not known, in order.
pub open spec fn unknown_ids(ids: Seq<String>, m: Map<Seq<char>, Seq<char>>) -> Seq<Seq<char>>
    decreases ids.len(),
{
    if ids.len() == 0 {
        Seq::empty()
    } else {
        let rest = unknown_ids(ids.drop_last(), m);
        if m.contains_key(ids.last()@) {
            rest
        } else {
            rest.push(ids.last()@)
        }
    }
}

proof fn lemma_pair_views_concat(a: Seq<(DocId, DocId)>, b: Seq<(DocId, DocId)>)
    ensures
        pair_views(a + b).to_set() == pair_views(a).to_set().union(pair_views(b).to_set()),
{
    assert(pair_views(a + b) =~= pair_views(a) + pair_views(b));
    let (x, y) = (pair_views(a), pair_views(b));
    assert forall|p: Pair| #[trigger] (x + y).to_set().contains(p) <==> x.to_set().union(
        y.to_set(),
    ).contains(p) by {
        if (x + y).contains(p) {
            let i = choose|i: int| 0 <= i < (x + y).len() && (x + y)[i] == p;
            if i < x.len() {
                assert(x[i] == p);
            } else {
                assert(y[i - x.len()] == p);
            }
        }
        if x.contains(p) {
            let i = choose|i: int| 0 <= i < x.len() && x[i] == p;
            assert((x + y)[i] == p);
        }
        if y.contains(p) {
            let i = choose|i: int| 0 <= i < y.len() && y[i] == p;
            assert((x + y)[x.len() + i] == p);
        }
    }
    assert((x + y).to_set() =~= x.to_set().union(y.to_set()));
}

fn copy_pairs(v: &Vec<(DocId, DocId)>) -> (r: Vec<(DocId, DocId)>)
    ensures
        r@ == v@,
{
    let mut r: Vec<(DocId, DocId)> = Vec::new();
    let mut i: usize = 0;
    while i < v.len()
        invariant
            i <= v@.len(),
            r@ == v@.take(i as int),
        decreases v@.len() - i,
    {
        r.push((v[i].0.duplicate(), v[i].1.duplicate()));
        assert(v@.take(i + 1) =~= v@.take(i as int).push(v@[i as int]));
        i = i + 1;
    }
    assert(v@.take(v@.len() as int) =~= v@);
    r
}

/// The ids at each distance `1..=depth` from the given ids, following the
/// edges that `dir` and `include_related` select; only non-empty distances
/// are reported, and the walk stops at the first empty one. Every given id
/// must be known.
pub fn traverse(
    graph: &Graph,
    ids: &Vec<String>,
    depth: u32,
    dir: Direction,
    include_related: bool,
) -> (r: Result<Vec<Layer>, TraverseError>)
    ensures
        ids@.len() == 0 ==> r matches Err(TraverseError::NoIds),
        ids@.len() > 0 && unknown_ids(ids@, graph.ids()).len() > 0 ==> (r matches Err(
            TraverseError::UnknownIds(u),
        ) && texts(u@) == unknown_ids(ids@, graph.ids())),
        ids@.len() > 0 && unknown_ids(ids@, graph.ids()).len() == 0 ==> r is Ok,
        r matches Ok(ls) ==> {
            let rel = walk_rel(*graph, dir, include_related);
            let seeds = text_set(ids@);
            &&& ls@.len() <= depth
            &&& forall|i: int|
                0 <= i < ls@.len() ==> (#[trigger] ls@[i]).depth == i + 1 && sorted_strict(
                    texts(ls@[i].ids@),
                ) && text_set(ls@[i].ids@) == layer(rel, seeds, (i + 1) as nat) && ls@[i].ids@.len()
                    > 0
            &&& ls@.len() < depth ==> layer(rel, seeds, (ls@.len() + 1) as nat).is_empty()
        },
{
    if ids.len() == 0 {
        return Err(TraverseError::NoIds);
    }
    let mut missing: Vec<String> = Vec::new();
    let mut seeds: Vec<DocId> = Vec::new();
    let mut i: usize = 0;
    while i < ids.len()
        invariant
            i <= ids@.len(),
            texts(missing@) == unknown_ids(ids@.take(i as int), graph.ids()),
            texts(seeds@) == texts(ids@.take(i as int)),
        decreases ids@.len() - i,
    {
        proof {
            assert(ids@.take(i + 1).drop_last() =~= ids@.take(i as int));
            assert(ids@.take(i + 1).last() == ids@[i as int]);
        }
        if graph.knows_id(ids[i].as_str()) {
            let ghost before = texts(seeds@);
            seeds.push(DocId::from_str(ids[i].as_str()));
            assert(texts(seeds@) =~= before.push(ids@[i as int]@));
            assert(texts(ids@.take(i + 1)) =~= texts(ids@.take(i as int)).push(ids@[i as int]@));
        } else {
            let ghost before = texts(missing@);
            missing.push(ids[i].clone());
            assert(texts(missing@) =~= before.push(ids@[i as int]@));
            let ghost bs = texts(seeds@);
            seeds.push(DocId::from_str(ids[i].as_str()));
            assert(texts(seeds@) =~= bs.push(ids@[i as int]@));
            assert(texts(ids@.take(i + 1)) =~= texts(ids@.take(i as int)).push(ids@[i as int]@));
        }
        i = i + 1;
    }
    assert(ids@.take(ids@.len() as int) =~= ids@);
    if missing.len() > 0 {
        return Err(TraverseError::UnknownIds(missing));
    }
    let (hard, soft) = match dir {
        Direction::Forward => (&graph.reverse, &graph.related_reverse),
        Direction::Reverse => (&graph.forward, &graph.related_forward),
    };
    let mut pairs = copy_pairs(&hard.pairs);
    if include_related {
        let extra = copy_pairs(&soft.pairs);
        let ghost a = pairs@;
        let mut k: usize = 0;
        while k < extra.len()
            invariant
                k <= extra@.len(),
                pairs@ == a + extra@.take(k as int),
            decreases extra@.len() - k,
        {
            pairs.push((extra[k].0.duplicate(), extra[k].1.duplicate()));
            assert(extra@.take(k + 1) =~= extra@.take(k as int).push(extra@[k as int]));
            assert(pairs@ =~= a + extra@.take(k + 1));
            k = k + 1;
        }
        assert(extra@.take(extra@.len() as int) =~= extra@);
        proof {
            lemma_pair_views_concat(a, extra@);
        }
    }
    assert(pair_views(pairs@).to_set() == walk_rel(*graph, dir, include_related));
    assert(text_set(seeds@) == text_set(ids@));
    let layers = walk_layers(&pairs, &seeds, Some(depth as usize));
    let mut out: Vec<Layer> = Vec::new();
    let mut q: usize = 0;
    let ghost rel = walk_rel(*graph, dir, include_related);
    let ghost sd = text_set(ids@);
    while q < layers.len()
        invariant
            q <= layers@.len(),
            layers@.len() <= depth,
            out@.len() == q,
            forall|i: int|
                0 <= i < layers@.len() ==> sorted_strict(texts(#[trigger] layers@[i]@)) && text_set(
                    layers@[i]@,
                ) == layer(rel, sd, (i + 1) as nat) && layers@[i]@.len() > 0,
            forall|i: int|
                0 <= i < q ==> (#[trigger] out@[i]).depth == i + 1 && sorted_strict(
                    texts(out@[i].ids@),
                ) && text_set(out@[i].ids@) == layer(rel, sd, (i + 1) as nat) && out@[i].ids@.len()
                    > 0,
        decreases layers@.len() - q,
    {
        let l = copy_ids(&layers[q]);
        out.push(Layer { depth: (q + 1) as u32, ids: l });
        q = q + 1;
    }
    Ok(out)
}

// ---------------------------------------------------------------------------
// touched
// ---------------------------------------------------------------------------

/// Some `modules:` entry of `d` covers one of `files` (entries compared with
/// `\` read as `/`).
pub open spec fn doc_covers_any(d: crate::model::Doc, files: Seq<Seq<char>>) -> bool {
    exists|i: int, j: int|
        0 <= i < d.modules@.len() && 0 <= j < files.len() && covers(
            normalized(#[trigger] d.modules@[i]@),
            #[trigger] files[j],
        )
}

/// The ids of the docs whose `modules:` cover one of `files`.
pub open spec fn record_ids(docs: Seq<crate::model::Doc>, files: Seq<Seq<char>>) -> Set<
    Seq<char>,
> {
    Set::new(
        |id: Seq<char>|
            exists|k: int|
                0 <= k < docs.len() && (#[trigger] docs[k]).id.0@ == id && doc_covers_any(
                    docs[k],
                    files,
                ),
    )
}

/// Whether some `modules:` entry of `d` covers one of `files`.
fn covers_any(d: &crate::model::Doc, files: &Vec<String>) -> (r: bool)
    ensures
        r == doc_covers_any(*d, texts(files@)),
{
    let mut i: usize = 0;
    while i < d.modules.len()
        invariant
            i <= d.modules@.len(),
            forall|a: int, b: int|
                0 <= a < i && 0 <= b < files@.len() ==> !covers(
                    normalized(#[trigger] d.modules@[a]@),
                    #[trigger] texts(files@)[b],
                ),
        decreases d.modules@.len() - i,
    {
        let pat = normalize_separators(d.modules[i].as_str());
        let mut j: usize = 0;
        while j < files.len()
            invariant
                i < d.modules@.len(),
                j <= files@.len(),
                pat@ == normalized(d.modules@[i as int]@),
                forall|b: int| 0 <= b < j ==> !covers(pat@, #[trigger] texts(files@)[b]),
            decreases files@.len() - j,
        {
            if module_covers(pat.as_str(), files[j].as_str()) {
                assert(texts(files@)[j as int] == files@[j as int]@);
                assert(covers(normalized(d.modules@[i as int]@), texts(files@)[j as int]));
                return true;
            }
            j = j + 1;
        }
        i = i + 1;
    }
    false
}

/// The docs of record of `files` (repo-relative, `/`-separated): the ids of
/// the docs whose `modules:` cover one of them, ordered.
pub fn docs_of_record(graph: &Graph, files: &Vec<String>) -> (r: Vec<DocId>)
    ensures
        sorted_strict(texts(r@)),
        text_set(r@) == record_ids(graph.docs@, texts(files@)),
{
    let mut hits: Vec<DocId> = Vec::new();
    let mut k: usize = 0;
    while k < graph.docs.len()
        invariant
            k <= graph.docs@.len(),
            sorted_strict(texts(hits@)),
            text_set(hits@) == record_ids(graph.docs@.take(k as int), texts(files@)),
        decreases graph.docs@.len() - k,
    {
        let d = &graph.docs[k];
        let c = covers_any(d, files);
        if c {
            sorted_insert(&mut hits, d.id.duplicate());
        }
        proof {
            let before = graph.docs@.take(k as int);
            let after = graph.docs@.take(k + 1);
            assert forall|id: Seq<char>| #[trigger]
                record_ids(after, texts(files@)).contains(id) <==> (record_ids(
                    before,
                    texts(files@),
                ).contains(id) || (c && id == d.id.0@)) by {
                if record_ids(after, texts(files@)).contains(id) {
                    let w = choose|w: int|
                        0 <= w < after.len() && (#[trigger] after[w]).id.0@ == id && doc_covers_any(
                            after[w],
                            texts(files@),
                        );
                    if w < k {
                        assert(before[w] == after[w]);
                    }
                }
                if record_ids(before, texts(files@)).contains(id) {
                    let w = choose|w: int|
                        0 <= w < before.len() && (#[trigger] before[w]).id.0@ == id
                            && doc_covers_any(before[w], texts(files@));
                    assert(after[w] == before[w]);
                }
                if c && id == d.id.0@ {
                    assert(after[k as int] == *d);
                }
            }
            assert(text_set(hits@) =~= record_ids(after, texts(files@)));
        }
        k = k + 1;
    }
    assert(graph.docs@.take(graph.docs@.len() as int) =~= graph.docs@);
    hits
}

/// The docs transitively affected by changes to `hits`: everything that
/// reaches one of them over reversed hard edges, except `hits` themselves.
pub fn transitive_impact(graph: &Graph, hits: &Vec<DocId>) -> (r: Vec<DocId>)
    ensures
        sorted_strict(texts(r@)),
        text_set(r@) == closure(graph.reverse.rel(), text_set(hits@)).difference(
            text_set(hits@),
        ),
{
    let layers = walk_layers(&graph.reverse.pairs, hits, None);
    let ghost rel = graph.reverse.rel();
    let ghost sd = text_set(hits@);
    let ghost n = layers@.len();
    let mut out: Vec<DocId> = Vec::new();
    let mut q: usize = 0;
    while q < layers.len()
        invariant
            q <= layers@.len(),
            n == layers@.len(),
            forall|i: int|
                0 <= i < layers@.len() ==> sorted_strict(texts(#[trigger] layers@[i]@)) && text_set(
                    layers@[i]@,
                ) == layer(rel, sd, (i + 1) as nat),
            sorted_strict(texts(out@)),
            text_set(out@) == Set::new(
                |y: Seq<char>| exists|i: int| 0 <= i < q && #[trigger] layer(rel, sd, (i + 1) as nat).contains(y),
            ),
        decreases layers@.len() - q,
    {
        let l = &layers[q];
        let mut j: usize = 0;
        let ghost o0 = text_set(out@);
        while j < l.len()
            invariant
                j <= l@.len(),
                sorted_strict(texts(out@)),
                text_set(out@) == o0.union(texts(l@).take(j as int).to_set()),
            decreases l@.len() - j,
        {
            sorted_insert(&mut out, l[j].duplicate());
            proof {
                lemma_push_to_set(texts(l@).take(j as int), texts(l@)[j as int]);
                assert(texts(l@).take(j + 1) =~= texts(l@).take(j as int).push(texts(l@)[j as int]));
            }
            j = j + 1;
        }
        proof {
            assert(texts(l@).take(l@.len() as int) =~= texts(l@));
            assert(text_set(out@) =~= Set::new(
                |y: Seq<char>| exists|i: int| 0 <= i < q + 1 && #[trigger] layer(rel, sd, (i + 1) as nat).contains(y),
            )) by {
                assert forall|y: Seq<char>| text_set(out@).contains(y) <==> exists|i: int| 0 <= i < q + 1 && #[trigger] layer(rel, sd, (i + 1) as nat).contains(y) by {
                    if exists|i: int| 0 <= i < q + 1 && #[trigger] layer(rel, sd, (i + 1) as nat).contains(y) {
                        let i = choose|i: int| 0 <= i < q + 1 && #[trigger] layer(rel, sd, (i + 1) as nat).contains(y);
                        if i == q {
                            assert(text_set(l@).contains(y));
                        }
                    }
                    if text_set(l@).contains(y) {
                        assert(layer(rel, sd, (q + 1) as nat).contains(y));
                    }
                }
            }
        }
        q = q + 1;
    }
    proof {
        assert forall|y: Seq<char>| #[trigger] text_set(out@).contains(y) <==> closure(rel, sd).difference(sd).contains(y) by {
            if text_set(out@).contains(y) {
                let i = choose|i: int| 0 <= i < n && #[trigger] layer(rel, sd, (i + 1) as nat).contains(y);
                assert(reach(rel, sd, (i + 1) as nat).contains(y));
                lemma_reach_monotone(rel, sd, 0, i as nat);
                assert(closure(rel, sd).contains(y));
            }
            if closure(rel, sd).difference(sd).contains(y) {
                let k = choose|k: nat| #[trigger] reach(rel, sd, k).contains(y);
                if k > n {
                    lemma_empty_layer(rel, sd, n, k);
                } else {
                    lemma_reach_monotone(rel, sd, k, n);
                }
                assert(reach(rel, sd, n).contains(y));
                lemma_reach_is_union_of_layers(rel, sd, n, y);
                let i = choose|i: nat| i <= n && #[trigger] layer(rel, sd, i).contains(y);
                assert(i != 0);
                assert(layer(rel, sd, ((i - 1) + 1) as nat).contains(y));
            }
        }
        assert(text_set(out@) =~= closure(rel, sd).difference(sd));
    }
    out
}

// ---------------------------------------------------------------------------
// impact and deps mirror each other
// ---------------------------------------------------------------------------

/// The relation turned around.
pub open spec fn converse(rel: Set<Pair>) -> Set<Pair> {
    Set::new(|p: Pair| rel.contains((p.1, p.0)))
}

/// A step to `z` from `y` followed by `j` steps from `z` is `j + 1` steps
/// from `y`.
proof fn lemma_reach_prepend(rel: Set<Pair>, y: Seq<char>, z: Seq<char>, w: Seq<char>, j: nat)
    requires
        rel.contains((y, z)),
        reach(rel, set![z], j).contains(w),
    ensures
        reach(rel, set![y], j + 1).contains(w),
    decreases j,
{
    if j == 0 {
        assert(reach(rel, set![y], 0).contains(y));
        assert(step(rel, reach(rel, set![y], 0)).contains(z));
    } else if reach(rel, set![z], (j - 1) as nat).contains(w) {
        lemma_reach_prepend(rel, y, z, w, (j - 1) as nat);
        lemma_reach_monotone(rel, set![y], j, j + 1);
    } else {
        let v = choose|v: Seq<char>|
            reach(rel, set![z], (j - 1) as nat).contains(v) && #[trigger] rel.contains((v, w));
        lemma_reach_prepend(rel, y, z, v, (j - 1) as nat);
        assert(step(rel, reach(rel, set![y], j)).contains(w));
    }
}

proof fn lemma_reach_converse_one_way(rel: Set<Pair>, x: Seq<char>, y: Seq<char>, k: nat)
    requires
        reach(converse(rel), set![x], k).contains(y),
    ensures
        reach(rel, set![y], k).contains(x),
    decreases k,
{
    if k == 0 {
        assert(y == x);
        assert(reach(rel, set![y], 0).contains(x));
    } else if reach(converse(rel), set![x], (k - 1) as nat).contains(y) {
        lemma_reach_converse_one_way(rel, x, y, (k - 1) as nat);
        lemma_reach_monotone(rel, set![y], (k - 1) as nat, k);
    } else {
        let z = choose|z: Seq<char>|
            reach(converse(rel), set![x], (k - 1) as nat).contains(z) && #[trigger] converse(
                rel,
            ).contains((z, y));
        assert(rel.contains((y, z)));
        lemma_reach_converse_one_way(rel, x, z, (k - 1) as nat);
        lemma_reach_prepend(rel, y, z, x, (k - 1) as nat);
    }
}

/// `y` is within `k` steps of `x` along the turned-around relation exactly
/// when `x` is within `k` steps of `y` along the relation.
pub proof fn lemma_reach_converse(rel: Set<Pair>, x: Seq<char>, y: Seq<char>, k: nat)
    ensures
        reach(converse(rel), set![x], k).contains(y) <==> reach(rel, set![y], k).contains(x),
{
    if reach(converse(rel), set![x], k).contains(y) {
        lemma_reach_converse_one_way(rel, x, y, k);
    }
    if reach(rel, set![y], k).contains(x) {
        assert(converse(converse(rel)) =~= rel);
        lemma_reach_converse_one_way(converse(rel), y, x, k);
    }
}

/// The same holds of exact distances.
pub proof fn lemma_layer_converse(rel: Set<Pair>, x: Seq<char>, y: Seq<char>, k: nat)
    ensures
        layer(converse(rel), set![x], k).contains(y) <==> layer(rel, set![y], k).contains(x),
{
    lemma_reach_converse(rel, x, y, k);
    if k > 0 {
        lemma_reach_converse(rel, x, y, (k - 1) as nat);
    } else {
        assert(layer(converse(rel), set![x], 0).contains(y) <==> y == x);
        assert(layer(rel, set![y], 0).contains(x) <==> y == x);
    }
}

/// `impact` and `deps` mirror each other: `y` is at distance `k` from `x`
/// when walking what depends on `x` exactly when `x` is at distance `k` from
/// `y` when walking what `y` depends on (with or without the soft edges).
pub proof fn lemma_impact_deps_mirror(
    g: Graph,
    include_related: bool,
    x: Seq<char>,
    y: Seq<char>,
    k: nat,
)
    requires
        g.wf(),
    ensures
        layer(walk_rel(g, Direction::Forward, include_related), set![x], k).contains(y)
            <==> layer(walk_rel(g, Direction::Reverse, include_related), set![y], k).contains(x),
{
    let fwd = walk_rel(g, Direction::Reverse, include_related);
    assert forall|p: Pair| #[trigger] walk_rel(g, Direction::Forward, include_related).contains(p)
        <==> converse(fwd).contains(p) by {
        crate::graph::lemma_reverse_is_converse(g, p.0, p.1);
    }
    assert(walk_rel(g, Direction::Forward, include_related) =~= converse(fwd));
    lemma_layer_converse(fwd, x, y, k);
}

} // verus!
