//! A graph of depth-order dependencies between layer items, and its
//! resolution into a total order.

use crate::item::LayerItem;
use crate::item_set::{lemma_ascending_no_duplicates, strictly_ascending, ItemSet};
use crate::order::{
    is_least, is_ready, lemma_least_unique, lemma_resolve_step, next_item, ready_items,
    resolve_order, Edge,
};
use crate::seq_facts::{lemma_push_to_set, lemma_remove_to_set, lemma_to_set_finite};
use vstd::prelude::*;
use vstd::set_lib::*;

verus! {

/// `x` is the item at position `i` of `keys`, and it has not been emitted.
pub open spec fn waits_at(keys: Seq<LayerItem>, emitted: Seq<bool>, i: int, x: LayerItem) -> bool {
    0 <= i < keys.len() && keys[i] == x && !emitted[i]
}

/// The items of `keys` that have not been emitted yet.
pub open spec fn waiting(keys: Seq<LayerItem>, emitted: Seq<bool>) -> Set<LayerItem> {
    Set::new(|x: LayerItem| exists|i: int| waits_at(keys, emitted, i, x))
}

/// An edge leads from position `i` of `keys` to position `j`.
pub open spec fn linked(edges: Set<Edge>, keys: Seq<LayerItem>, i: int, j: int) -> bool {
    0 <= i < keys.len() && 0 <= j < keys.len() && edges.contains((keys[i], keys[j]))
}

/// `links` holds, as pairs of positions in `keys`, exactly the edges that join
/// two items of `keys`.
pub open spec fn links_cover(
    edges: Set<Edge>,
    keys: Seq<LayerItem>,
    links: Seq<(usize, usize)>,
) -> bool {
    &&& forall|k: int|
        0 <= k < links.len() ==> linked(
            edges,
            keys,
            (#[trigger] links[k]).0 as int,
            links[k].1 as int,
        )
    &&& forall|i: int, j: int| #[trigger]
        linked(edges, keys, i, j) ==> exists|k: int|
            0 <= k < links.len() && (#[trigger] links[k]).0 == i && links[k].1 == j
}

/// `blocked` marks the positions that some link enters from a position that
/// has not been emitted: the positions that wait for a predecessor.
pub open spec fn blocked_by_waiting(
    links: Seq<(usize, usize)>,
    emitted: Seq<bool>,
    blocked: Seq<bool>,
    upto: int,
) -> bool {
    &&& blocked.len() == emitted.len()
    &&& forall|j: int|
        0 <= j < blocked.len() ==> (#[trigger] blocked[j] <==> exists|k: int|
            0 <= k < upto && (#[trigger] links[k]).1 == j && !emitted[links[k].0 as int])
}

proof fn lemma_waiting_finite(keys: Seq<LayerItem>, emitted: Seq<bool>)
    ensures
        waiting(keys, emitted).finite(),
{
    lemma_to_set_finite(keys);
    assert forall|x: LayerItem| waiting(keys, emitted).contains(x) implies keys.to_set().contains(
        x,
    ) by {
        let i = choose|i: int| waits_at(keys, emitted, i, x);
        assert(keys[i] == x);
    }
    assert(waiting(keys, emitted).subset_of(keys.to_set()));
    lemma_set_subset_finite(keys.to_set(), waiting(keys, emitted));
}

proof fn lemma_waiting_at_start(keys: Seq<LayerItem>, emitted: Seq<bool>)
    requires
        emitted.len() == keys.len(),
        forall|i: int| 0 <= i < emitted.len() ==> !emitted[i],
    ensures
        waiting(keys, emitted) == keys.to_set(),
{
    assert forall|x: LayerItem| keys.to_set().contains(x) implies waiting(keys, emitted).contains(
        x,
    ) by {
        let i = choose|i: int| 0 <= i < keys.len() && keys[i] == x;
        assert(waits_at(keys, emitted, i, x));
    }
    assert forall|x: LayerItem| waiting(keys, emitted).contains(x) implies keys.to_set().contains(
        x,
    ) by {
        let i = choose|i: int| waits_at(keys, emitted, i, x);
        assert(keys[i] == x);
    }
    assert(waiting(keys, emitted) =~= keys.to_set());
}

proof fn lemma_waiting_holds_one(keys: Seq<LayerItem>, emitted: Seq<bool>)
    requires
        emitted.len() == keys.len(),
        waiting(keys, emitted).len() > 0,
    ensures
        exists|i: int| 0 <= i < keys.len() && !#[trigger] emitted[i],
        exists|x: LayerItem| waiting(keys, emitted).contains(x),
{
    let w = waiting(keys, emitted);
    if forall|x: LayerItem| !w.contains(x) {
        assert(w =~= Set::<LayerItem>::empty());
    }
    let x = choose|x: LayerItem| w.contains(x);
    let i = choose|i: int| waits_at(keys, emitted, i, x);
    assert(!emitted[i]);
}

proof fn lemma_waiting_after_emit(keys: Seq<LayerItem>, emitted: Seq<bool>, p: int)
    requires
        strictly_ascending(keys),
        emitted.len() == keys.len(),
        0 <= p < keys.len(),
        !emitted[p],
    ensures
        waiting(keys, emitted.update(p, true)) == waiting(keys, emitted).remove(keys[p]),
        waiting(keys, emitted).contains(keys[p]),
{
    lemma_ascending_no_duplicates(keys);
    let before = waiting(keys, emitted);
    let marked = emitted.update(p, true);
    let after = waiting(keys, marked);
    assert forall|x: LayerItem| after.contains(x) <==> before.remove(keys[p]).contains(x) by {
        if after.contains(x) {
            let i = choose|i: int| waits_at(keys, marked, i, x);
            assert(i != p);
            assert(waits_at(keys, emitted, i, x));
        }
        if before.remove(keys[p]).contains(x) {
            let i = choose|i: int| waits_at(keys, emitted, i, x);
            assert(i != p);
            assert(waits_at(keys, marked, i, x));
        }
    }
    assert(after =~= before.remove(keys[p]));
    assert(waits_at(keys, emitted, p, keys[p]));
}

proof fn lemma_ready_is_unblocked(
    edges: Set<Edge>,
    keys: Seq<LayerItem>,
    links: Seq<(usize, usize)>,
    emitted: Seq<bool>,
    blocked: Seq<bool>,
    j: int,
)
    requires
        emitted.len() == keys.len(),
        links_cover(edges, keys, links),
        blocked_by_waiting(links, emitted, blocked, links.len() as int),
        0 <= j < keys.len(),
        !emitted[j],
    ensures
        is_ready(edges, waiting(keys, emitted), keys[j]) <==> !blocked[j],
{
    let w = waiting(keys, emitted);
    assert(waits_at(keys, emitted, j, keys[j]));
    assert(w.contains(keys[j]));
    if blocked[j] {
        let k = choose|k: int|
            0 <= k < links.len() && (#[trigger] links[k]).1 == j && !emitted[links[k].0 as int];
        let i = links[k].0 as int;
        assert(linked(edges, keys, i, j));
        assert(waits_at(keys, emitted, i, keys[i]));
        assert(w.contains(keys[i]));
        assert(edges.contains((keys[i], keys[j])));
    } else {
        assert forall|y: LayerItem| w.contains(y) implies !edges.contains((y, keys[j])) by {
            let i = choose|i: int| waits_at(keys, emitted, i, y);
            if edges.contains((keys[i], keys[j])) {
                assert(linked(edges, keys, i, j));
                let k = choose|k: int|
                    0 <= k < links.len() && (#[trigger] links[k]).0 == i && links[k].1 == j;
                assert(links[k].1 == j && !emitted[links[k].0 as int]);
            }
        }
    }
}

proof fn lemma_pick_ready(
    edges: Set<Edge>,
    keys: Seq<LayerItem>,
    links: Seq<(usize, usize)>,
    emitted: Seq<bool>,
    blocked: Seq<bool>,
    p: int,
)
    requires
        strictly_ascending(keys),
        emitted.len() == keys.len(),
        links_cover(edges, keys, links),
        blocked_by_waiting(links, emitted, blocked, links.len() as int),
        0 <= p < keys.len(),
        !emitted[p],
        !blocked[p],
        forall|i: int| 0 <= i < p ==> emitted[i] || blocked[i],
    ensures
        next_item(edges, waiting(keys, emitted)) == keys[p],
{
    let w = waiting(keys, emitted);
    let ready = ready_items(edges, w);
    lemma_ready_is_unblocked(edges, keys, links, emitted, blocked, p);
    assert(is_ready(edges, w, keys[p]));
    assert forall|y: LayerItem| ready.contains(y) implies keys[p].rank() <= y.rank() by {
        let i = choose|i: int| waits_at(keys, emitted, i, y);
        lemma_ready_is_unblocked(edges, keys, links, emitted, blocked, i);
        assert(i >= p);
        if i > p {
            assert(keys[p].rank() < keys[i].rank());
        }
    }
    assert(is_least(ready, keys[p]));
    lemma_least_unique(ready, keys[p]);
}

proof fn lemma_pick_fallback(
    edges: Set<Edge>,
    keys: Seq<LayerItem>,
    links: Seq<(usize, usize)>,
    emitted: Seq<bool>,
    blocked: Seq<bool>,
    p: int,
)
    requires
        strictly_ascending(keys),
        emitted.len() == keys.len(),
        links_cover(edges, keys, links),
        blocked_by_waiting(links, emitted, blocked, links.len() as int),
        0 <= p < keys.len(),
        !emitted[p],
        forall|i: int| 0 <= i < p ==> emitted[i],
        forall|i: int| 0 <= i < keys.len() ==> emitted[i] || blocked[i],
    ensures
        next_item(edges, waiting(keys, emitted)) == keys[p],
{
    let w = waiting(keys, emitted);
    assert forall|x: LayerItem| !is_ready(edges, w, x) by {
        if w.contains(x) {
            let i = choose|i: int| waits_at(keys, emitted, i, x);
            lemma_ready_is_unblocked(edges, keys, links, emitted, blocked, i);
        }
    }
    assert(waits_at(keys, emitted, p, keys[p]));
    assert(w.contains(keys[p]));
    assert forall|y: LayerItem| w.contains(y) implies keys[p].rank() <= y.rank() by {
        let i = choose|i: int| waits_at(keys, emitted, i, y);
        if i > p {
            assert(keys[p].rank() < keys[i].rank());
        }
    }
    assert(is_least(w, keys[p]));
    lemma_least_unique(w, keys[p]);
}

/// A vector of `n` flags, none of them set.
fn cleared_flags(n: usize) -> (flags: Vec<bool>)
    ensures
        flags.len() == n,
        forall|i: int| 0 <= i < n ==> !flags[i],
{
    let mut flags: Vec<bool> = Vec::new();
    while flags.len() < n
        invariant
            flags.len() <= n,
            forall|i: int| 0 <= i < flags.len() ==> !flags[i],
        decreases n - flags.len(),
    {
        flags.push(false);
    }
    flags
}

/// How many of the first `upto` links enter the position `j` from a
/// position that has not been emitted: the predecessors that `j` still
/// waits for.
pub open spec fn pending(links: Seq<(usize, usize)>, emitted: Seq<bool>, j: int, upto: int) -> nat
    decreases upto,
{
    if upto <= 0 {
        0
    } else {
        pending(links, emitted, j, upto - 1) + if links[upto - 1].1 == j
            && !emitted[links[upto - 1].0 as int] {
            1nat
        } else {
            0nat
        }
    }
}

/// The positions that the links among the first `upto` lead to from the
/// position `p`, in the order of the links.
pub open spec fn targets(links: Seq<(usize, usize)>, p: int, upto: int) -> Seq<usize>
    decreases upto,
{
    if upto <= 0 {
        Seq::empty()
    } else {
        let front = targets(links, p, upto - 1);
        if links[upto - 1].0 == p {
            front.push(links[upto - 1].1)
        } else {
            front
        }
    }
}

/// How often `j` occurs in `s`.
pub open spec fn occurrences(s: Seq<usize>, j: int) -> nat
    decreases s.len(),
{
    if s.len() == 0 {
        0
    } else {
        occurrences(s.drop_last(), j) + if s.last() == j {
            1nat
        } else {
            0nat
        }
    }
}

proof fn lemma_pending_bound(links: Seq<(usize, usize)>, emitted: Seq<bool>, j: int, upto: int)
    requires
        0 <= upto,
    ensures
        pending(links, emitted, j, upto) <= upto,
    decreases upto,
{
    if upto > 0 {
        lemma_pending_bound(links, emitted, j, upto - 1);
    }
}

/// A position waits for a predecessor exactly when a link enters it from a
/// position that has not been emitted.
proof fn lemma_pending_positive(
    links: Seq<(usize, usize)>,
    emitted: Seq<bool>,
    j: int,
    upto: int,
)
    requires
        0 <= upto <= links.len(),
    ensures
        pending(links, emitted, j, upto) > 0 <==> exists|m: int|
            0 <= m < upto && (#[trigger] links[m]).1 == j && !emitted[links[m].0 as int],
    decreases upto,
{
    if upto > 0 {
        lemma_pending_positive(links, emitted, j, upto - 1);
        if pending(links, emitted, j, upto) > 0 {
            if pending(links, emitted, j, upto - 1) > 0 {
                let m = choose|m: int|
                    0 <= m < upto - 1 && (#[trigger] links[m]).1 == j
                        && !emitted[links[m].0 as int];
                assert(0 <= m < upto && links[m].1 == j && !emitted[links[m].0 as int]);
            } else {
                assert(links[upto - 1].1 == j && !emitted[links[upto - 1].0 as int]);
            }
        }
        if exists|m: int|
            0 <= m < upto && (#[trigger] links[m]).1 == j && !emitted[links[m].0 as int] {
            let m = choose|m: int|
                0 <= m < upto && (#[trigger] links[m]).1 == j && !emitted[links[m].0 as int];
            if m < upto - 1 {
                assert(pending(links, emitted, j, upto - 1) > 0);
            }
        }
    }
}

/// Emitting the position `p` takes from every position as many waiting
/// predecessors as links lead to it from `p`.
proof fn lemma_pending_after_emit(
    links: Seq<(usize, usize)>,
    emitted: Seq<bool>,
    p: int,
    j: int,
    upto: int,
)
    requires
        0 <= upto <= links.len(),
        0 <= p < emitted.len(),
        !emitted[p],
        forall|k: int| 0 <= k < links.len() ==> (#[trigger] links[k]).0 < emitted.len(),
    ensures
        pending(links, emitted.update(p, true), j, upto) + occurrences(targets(links, p, upto), j)
            == pending(links, emitted, j, upto),
    decreases upto,
{
    if upto > 0 {
        lemma_pending_after_emit(links, emitted, p, j, upto - 1);
        let link = links[upto - 1];
        let front = targets(links, p, upto - 1);
        if link.0 == p {
            assert(front.push(link.1).drop_last() =~= front);
        }
    }
}

proof fn lemma_occurrences_grow(s: Seq<usize>, t: int, j: int)
    requires
        0 <= t < s.len(),
    ensures
        occurrences(s.take(t + 1), j) == occurrences(s.take(t), j) + if s[t] == j {
            1nat
        } else {
            0nat
        },
        occurrences(s.take(t + 1), j) <= occurrences(s, j),
    decreases s.len() - t,
{
    assert(s.take(t + 1).drop_last() =~= s.take(t));
    if t + 1 < s.len() {
        lemma_occurrences_grow(s, t + 1, j);
    } else {
        assert(s.take(t + 1) =~= s);
    }
}

/// For every position, the number of predecessors that it waits for.
fn pending_counts(links: &Vec<(usize, usize)>, emitted: &Vec<bool>) -> (counts: Vec<usize>)
    requires
        forall|k: int|
            0 <= k < links.len() ==> (#[trigger] links[k]).0 < emitted.len() && links[k].1
                < emitted.len(),
    ensures
        counts.len() == emitted.len(),
        forall|j: int|
            0 <= j < counts.len() ==> #[trigger] counts[j] == pending(
                links@,
                emitted@,
                j,
                links.len() as int,
            ),
{
    let n = emitted.len();
    let mut counts: Vec<usize> = Vec::new();
    while counts.len() < n
        invariant
            counts.len() <= n,
            forall|j: int| 0 <= j < counts.len() ==> #[trigger] counts[j] == 0,
        decreases n - counts.len(),
    {
        counts.push(0);
    }
    let mut k: usize = 0;
    while k < links.len()
        invariant
            k <= links.len(),
            n == emitted.len(),
            counts.len() == n,
            forall|k: int|
                0 <= k < links.len() ==> (#[trigger] links[k]).0 < emitted.len() && links[k].1
                    < emitted.len(),
            forall|j: int|
                0 <= j < n ==> #[trigger] counts[j] == pending(links@, emitted@, j, k as int),
        decreases links.len() - k,
    {
        let (from, to) = links[k];
        if !emitted[from] {
            proof {
                lemma_pending_bound(links@, emitted@, to as int, k as int);
            }
            let more = counts[to] + 1;
            counts.set(to, more);
        }
        k += 1;
    }
    counts
}

/// For every position, the positions that links lead to from it.
fn out_lists(links: &Vec<(usize, usize)>, n: usize) -> (outs: Vec<Vec<usize>>)
    requires
        forall|k: int| 0 <= k < links.len() ==> (#[trigger] links[k]).0 < n && links[k].1 < n,
    ensures
        outs.len() == n,
        forall|p: int|
            0 <= p < n ==> (#[trigger] outs[p])@ == targets(links@, p, links.len() as int),
        forall|p: int, t: int|
            0 <= p < n && 0 <= t < outs[p].len() ==> (#[trigger] outs[p][t]) < n,
{
    let mut outs: Vec<Vec<usize>> = Vec::new();
    while outs.len() < n
        invariant
            outs.len() <= n,
            forall|p: int| 0 <= p < outs.len() ==> (#[trigger] outs[p])@ == Seq::<usize>::empty(),
        decreases n - outs.len(),
    {
        outs.push(Vec::new());
    }
    let mut k: usize = 0;
    while k < links.len()
        invariant
            k <= links.len(),
            outs.len() == n,
            forall|k: int| 0 <= k < links.len() ==> (#[trigger] links[k]).0 < n && links[k].1 < n,
            forall|p: int| 0 <= p < n ==> (#[trigger] outs[p])@ == targets(links@, p, k as int),
            forall|p: int, t: int|
                0 <= p < n && 0 <= t < outs[p].len() ==> (#[trigger] outs[p][t]) < n,
        decreases links.len() - k,
    {
        let (from, to) = links[k];
        let ghost before = outs@;
        let mut row: Vec<usize> = Vec::new();
        std::mem::swap(&mut row, &mut outs[from]);
        row.push(to);
        outs.set(from, row);
        proof {
            assert forall|p: int| 0 <= p < n implies (#[trigger] outs[p])@ == targets(
                links@,
                p,
                k + 1,
            ) by {
                if p != from {
                    assert(outs[p] == before[p]);
                }
            }
            assert forall|p: int, t: int| 0 <= p < n && 0 <= t < outs[p].len() implies (
            #[trigger] outs[p][t]) < n by {
                if p != from {
                    assert(outs[p] == before[p]);
                } else if t < before[p].len() {
                    assert(outs[p][t] == before[p][t]);
                }
            }
        }
        k += 1;
    }
    outs
}

/// Takes from every position as many waiting predecessors as `released`
/// names it.
fn lower_counts(counts: &mut Vec<usize>, released: &Vec<usize>)
    requires
        forall|t: int| 0 <= t < released.len() ==> (#[trigger] released[t]) < old(counts).len(),
        forall|j: int|
            0 <= j < old(counts).len() ==> (#[trigger] old(counts)[j]) >= occurrences(released@, j),
    ensures
        final(counts).len() == old(counts).len(),
        forall|j: int|
            0 <= j < final(counts).len() ==> #[trigger] final(counts)[j] == old(counts)[j]
                - occurrences(released@, j),
{
    let mut t: usize = 0;
    proof {
        assert(released@.take(0) =~= Seq::<usize>::empty());
    }
    while t < released.len()
        invariant
            t <= released.len(),
            counts.len() == old(counts).len(),
            forall|t: int| 0 <= t < released.len() ==> (#[trigger] released[t]) < counts.len(),
            forall|j: int|
                0 <= j < counts.len() ==> (#[trigger] old(counts)[j]) >= occurrences(
                    released@,
                    j,
                ),
            forall|j: int|
                0 <= j < counts.len() ==> #[trigger] counts[j] == old(counts)[j] - occurrences(
                    released@.take(t as int),
                    j,
                ),
        decreases released.len() - t,
    {
        let target = released[t];
        let ghost before = counts@;
        proof {
            lemma_occurrences_grow(released@, t as int, target as int);
            assert(old(counts)[target as int] >= occurrences(released@, target as int));
        }
        let fewer = counts[target] - 1;
        counts.set(target, fewer);
        proof {
            assert forall|j: int| 0 <= j < counts.len() implies #[trigger] counts[j] == old(
                counts,
            )[j] - occurrences(released@.take(t + 1), j) by {
                lemma_occurrences_grow(released@, t as int, j);
                assert(before[j] == old(counts)[j] - occurrences(released@.take(t as int), j));
            }
        }
        t += 1;
    }
    proof {
        assert(released@.take(t as int) =~= released@);
    }
}

/// The first position that is not emitted and waits for no predecessor.
fn first_ready(emitted: &Vec<bool>, counts: &Vec<usize>) -> (found: Option<usize>)
    requires
        emitted.len() == counts.len(),
    ensures
        match found {
            Some(p) => {
                &&& p < emitted.len()
                &&& !emitted[p as int]
                &&& counts[p as int] == 0
                &&& forall|i: int| 0 <= i < p ==> emitted[i] || counts[i] > 0
            },
            None => forall|i: int| 0 <= i < emitted.len() ==> emitted[i] || counts[i] > 0,
        },
{
    let mut i: usize = 0;
    while i < emitted.len()
        invariant
            i <= emitted.len(),
            emitted.len() == counts.len(),
            forall|j: int| 0 <= j < i ==> emitted[j] || counts[j] > 0,
        decreases emitted.len() - i,
    {
        if !emitted[i] && counts[i] == 0 {
            return Some(i);
        }
        i += 1;
    }
    None
}

/// The first position that is not emitted.
fn first_waiting(emitted: &Vec<bool>) -> (found: Option<usize>)
    ensures
        match found {
            Some(p) => {
                &&& p < emitted.len()
                &&& !emitted[p as int]
                &&& forall|i: int| 0 <= i < p ==> emitted[i]
            },
            None => forall|i: int| 0 <= i < emitted.len() ==> emitted[i],
        },
{
    let mut i: usize = 0;
    while i < emitted.len()
        invariant
            i <= emitted.len(),
            forall|j: int| 0 <= j < i ==> emitted[j],
        decreases emitted.len() - i,
    {
        if !emitted[i] {
            return Some(i);
        }
        i += 1;
    }
    None
}

/// A set of depth-order dependencies. An edge `(below, above)` asks that
/// `below` is drawn before `above`. The edges may form cycles.
pub struct DependencyGraph {
    edges: Vec<Edge>,
}

impl View for DependencyGraph {
    type V = Set<Edge>;

    /// The edges of the graph.
    open spec fn view(&self) -> Set<Edge> {
        self.edge_seq().to_set()
    }
}

impl DependencyGraph {
    /// The edges in the order in which they were inserted.
    pub closed spec fn edge_seq(&self) -> Seq<Edge> {
        self.edges@
    }

    /// The graph is well formed when it holds no edge twice.
    pub open spec fn wf(&self) -> bool {
        self.edge_seq().no_duplicates()
    }

    /// The graph without edges.
    pub fn new() -> (graph: DependencyGraph)
        ensures
            graph.wf(),
            graph@ == Set::<Edge>::empty(),
    {
        let graph = DependencyGraph { edges: Vec::new() };
        assert(graph.edge_seq().to_set() =~= Set::<Edge>::empty());
        graph
    }

    /// The number of edges.
    pub fn len(&self) -> (n: usize)
        requires
            self.wf(),
        ensures
            n == self@.len(),
    {
        proof {
            self.edge_seq().unique_seq_to_set();
        }
        self.edges.len()
    }

    /// The position of the edge `(below, above)`, if the graph holds it.
    fn find(&self, below: &LayerItem, above: &LayerItem) -> (found: Option<usize>)
        ensures
            match found {
                Some(p) => p < self.edge_seq().len() && self.edge_seq()[p as int] == (
                    *below,
                    *above,
                ),
                None => !self@.contains((*below, *above)),
            },
    {
        let mut i: usize = 0;
        while i < self.edges.len()
            invariant
                i <= self.edges.len(),
                forall|j: int| 0 <= j < i ==> self.edge_seq()[j] != (*below, *above),
            decreases self.edges.len() - i,
        {
            if self.edges[i].0.same(below) && self.edges[i].1.same(above) {
                return Some(i);
            }
            i += 1;
        }
        None
    }

    /// Whether the graph asks that `below` is drawn before `above`.
    pub fn contains_dependency(&self, below: LayerItem, above: LayerItem) -> (b: bool)
        ensures
            b == self@.contains((below, above)),
    {
        self.find(&below, &above).is_some()
    }

    /// Adds the edge `(below, above)`. Returns whether the graph did not hold
    /// it before; an edge that is already there is left alone.
    pub fn insert_dependency(&mut self, below: LayerItem, above: LayerItem) -> (fresh: bool)
        requires
            old(self).wf(),
        ensures
            final(self).wf(),
            final(self)@ == old(self)@.insert((below, above)),
            fresh == !old(self)@.contains((below, above)),
    {
        match self.find(&below, &above) {
            Some(_) => {
                assert(self@ =~= self@.insert((below, above)));
                false
            },
            None => {
                proof {
                    lemma_push_to_set(self.edge_seq(), (below, above));
                }
                self.edges.push((below, above));
                true
            },
        }
    }

    /// Removes the edge `(below, above)`. Returns whether the graph held it;
    /// an edge that is not there is no error.
    pub fn remove_dependency(&mut self, below: LayerItem, above: LayerItem) -> (found: bool)
        requires
            old(self).wf(),
        ensures
            final(self).wf(),
            final(self)@ == old(self)@.remove((below, above)),
            found == old(self)@.contains((below, above)),
    {
        match self.find(&below, &above) {
            Some(p) => {
                proof {
                    lemma_remove_to_set(self.edge_seq(), p as int);
                }
                self.edges.remove(p);
                true
            },
            None => {
                assert(self@ =~= self@.remove((below, above)));
                false
            },
        }
    }

    /// Adds every edge of `other`. Neither graph takes precedence: the result
    /// holds the edges of both.
    pub fn extend(&mut self, other: &DependencyGraph)
        requires
            old(self).wf(),
        ensures
            final(self).wf(),
            final(self)@ == old(self)@.union(other@),
    {
        let mut i: usize = 0;
        while i < other.edges.len()
            invariant
                i <= other.edges.len(),
                self.wf(),
                self@ == old(self)@.union(other.edge_seq().take(i as int).to_set()),
            decreases other.edges.len() - i,
        {
            let (below, above) = other.edges[i];
            self.insert_dependency(below, above);
            proof {
                let a = other.edge_seq().take(i as int);
                assert(other.edge_seq().take(i + 1) =~= a.push((below, above)));
                lemma_push_to_set(a, (below, above));
                assert(self@ =~= old(self)@.union(other.edge_seq().take(i + 1).to_set()));
            }
            i += 1;
        }
        assert(other.edge_seq().take(i as int) =~= other.edge_seq());
    }

    /// For every edge that joins two items of `keys`, the positions of its
    /// ends in `keys`.
    fn links_among(&self, keys: &ItemSet) -> (links: Vec<(usize, usize)>)
        requires
            keys.wf(),
        ensures
            links_cover(self@, keys.seq(), links@),
    {
        let mut links: Vec<(usize, usize)> = Vec::new();
        let mut e: usize = 0;
        proof {
            assert(self.edge_seq().take(0).to_set() =~= Set::<Edge>::empty());
        }
        while e < self.edges.len()
            invariant
                e <= self.edges.len(),
                keys.wf(),
                links_cover(self.edge_seq().take(e as int).to_set(), keys.seq(), links@),
            decreases self.edges.len() - e,
        {
            let (below, above) = self.edges[e];
            let ghost seen = self.edge_seq().take(e as int).to_set();
            let ghost now = self.edge_seq().take(e + 1).to_set();
            let ghost before = links@;
            let from = keys.index_of(&below);
            let to = keys.index_of(&above);
            proof {
                let a = self.edge_seq().take(e as int);
                assert(self.edge_seq().take(e + 1) =~= a.push((below, above)));
                lemma_push_to_set(a, (below, above));
                assert(now == seen.insert((below, above)));
                lemma_ascending_no_duplicates(keys.seq());
            }
            match (from, to) {
                (Some(i), Some(j)) => {
                    links.push((i, j));
                    proof {
                        assert forall|k: int| 0 <= k < links.len() implies linked(
                            now,
                            keys.seq(),
                            (#[trigger] links@[k]).0 as int,
                            links@[k].1 as int,
                        ) by {
                            if k < before.len() {
                                assert(links@[k] == before[k]);
                                assert(linked(
                                    seen,
                                    keys.seq(),
                                    before[k].0 as int,
                                    before[k].1 as int,
                                ));
                            }
                        }
                        assert forall|a: int, b: int| #[trigger]
                            linked(now, keys.seq(), a, b) implies exists|k: int|
                            0 <= k < links.len() && (#[trigger] links@[k]).0 == a && links@[k].1
                                == b by {
                            if (keys.seq()[a], keys.seq()[b]) == (below, above) {
                                assert(a == i && b == j);
                                let k = links.len() - 1;
                                assert(links@[k].0 == a && links@[k].1 == b);
                            } else {
                                assert(linked(seen, keys.seq(), a, b));
                                let k = choose|k: int|
                                    0 <= k < before.len() && (#[trigger] before[k]).0 == a
                                        && before[k].1 == b;
                                assert(links@[k] == before[k]);
                            }
                        }
                    }
                },
                _ => {
                    proof {
                        assert forall|k: int| 0 <= k < links.len() implies linked(
                            now,
                            keys.seq(),
                            (#[trigger] links@[k]).0 as int,
                            links@[k].1 as int,
                        ) by {
                            assert(linked(
                                seen,
                                keys.seq(),
                                before[k].0 as int,
                                before[k].1 as int,
                            ));
                        }
                        assert forall|a: int, b: int| #[trigger]
                            linked(now, keys.seq(), a, b) implies exists|k: int|
                            0 <= k < links.len() && (#[trigger] links@[k]).0 == a && links@[k].1
                                == b by {
                            if (keys.seq()[a], keys.seq()[b]) == (below, above) {
                                assert(keys@.contains(keys.seq()[a]));
                                assert(keys@.contains(keys.seq()[b]));
                            } else {
                                assert(linked(seen, keys.seq(), a, b));
                            }
                        }
                    }
                },
            }
            e += 1;
        }
        assert(self.edge_seq().take(e as int) =~= self.edge_seq());
        links
    }

    /// The position in `keys` of the item that is drawn next, where `counts`
    /// holds for every position the number of predecessors it waits for.
    fn pick_next(
        &self,
        keys: &ItemSet,
        links: &Vec<(usize, usize)>,
        emitted: &Vec<bool>,
        counts: &Vec<usize>,
    ) -> (pick: usize)
        requires
            keys.wf(),
            emitted.len() == keys.seq().len(),
            counts.len() == emitted.len(),
            links_cover(self@, keys.seq(), links@),
            forall|j: int|
                0 <= j < counts.len() ==> #[trigger] counts[j] == pending(
                    links@,
                    emitted@,
                    j,
                    links.len() as int,
                ),
            exists|i: int| 0 <= i < emitted.len() && !#[trigger] emitted[i],
        ensures
            pick < emitted.len(),
            !emitted[pick as int],
            next_item(self@, waiting(keys.seq(), emitted@)) == keys.seq()[pick as int],
    {
        let ghost blocked = Seq::new(counts@.len(), |j: int| counts@[j] > 0);
        proof {
            assert forall|j: int| 0 <= j < blocked.len() implies (#[trigger] blocked[j]
                <==> exists|k: int|
                0 <= k < links.len() && (#[trigger] links@[k]).1 == j
                    && !emitted@[links@[k].0 as int]) by {
                lemma_pending_positive(links@, emitted@, j, links.len() as int);
                assert(counts[j] == pending(links@, emitted@, j, links.len() as int));
            }
        }
        match first_ready(emitted, counts) {
            Some(p) => {
                proof {
                    assert forall|i: int| 0 <= i < p implies emitted@[i] || blocked[i] by {}
                    lemma_pick_ready(self@, keys.seq(), links@, emitted@, blocked, p as int);
                }
                p
            },
            None => {
                match first_waiting(emitted) {
                    Some(p) => {
                        proof {
                            assert forall|i: int| 0 <= i < keys.seq().len() implies emitted@[i]
                                || blocked[i] by {}
                            lemma_pick_fallback(
                                self@,
                                keys.seq(),
                                links@,
                                emitted@,
                                blocked,
                                p as int,
                            );
                        }
                        p
                    },
                    None => {
                        assert(false);
                        0
                    },
                }
            },
        }
    }

    /// Resolves `elements` into the order in which they are drawn. Every
    /// distinct element comes out exactly once. The next element is always
    /// the least one that no waiting element has to precede; where the edges
    /// form a cycle, so that every waiting element is held back, the least
    /// waiting element is taken. Edges to items outside `elements` are
    /// ignored.
    pub fn resolve(&self, elements: &Vec<LayerItem>) -> (order: Vec<LayerItem>)
        ensures
            order@ == resolve_order(self@, elements@.to_set()),
    {
        let keys = ItemSet::from_items(elements);
        let links = self.links_among(&keys);
        let n = keys.len();
        let mut emitted = cleared_flags(n);
        let mut order: Vec<LayerItem> = Vec::new();
        proof {
            assert forall|k: int| 0 <= k < links.len() implies (#[trigger] links[k]).0 < n
                && links[k].1 < n by {
                assert(linked(self@, keys.seq(), links[k].0 as int, links[k].1 as int));
            }
        }
        let outs = out_lists(&links, n);
        let mut counts = pending_counts(&links, &emitted);
        proof {
            lemma_ascending_no_duplicates(keys.seq());
            keys.seq().unique_seq_to_set();
            lemma_waiting_at_start(keys.seq(), emitted@);
            lemma_waiting_finite(keys.seq(), emitted@);
            assert(order@ + resolve_order(self@, keys@) =~= resolve_order(self@, keys@));
        }
        while order.len() < n
            invariant
                keys.wf(),
                n == keys.seq().len(),
                emitted.len() == n,
                order.len() <= n,
                links_cover(self@, keys.seq(), links@),
                counts.len() == n,
                outs.len() == n,
                forall|k: int|
                    0 <= k < links.len() ==> (#[trigger] links[k]).0 < n && links[k].1 < n,
                forall|p: int|
                    0 <= p < n ==> (#[trigger] outs[p])@ == targets(links@, p, links.len() as int),
                forall|p: int, t: int|
                    0 <= p < n && 0 <= t < outs[p].len() ==> (#[trigger] outs[p][t]) < n,
                forall|j: int|
                    0 <= j < n ==> #[trigger] counts[j] == pending(
                        links@,
                        emitted@,
                        j,
                        links.len() as int,
                    ),
                waiting(keys.seq(), emitted@).finite(),
                waiting(keys.seq(), emitted@).len() == n - order.len(),
                order@ + resolve_order(self@, waiting(keys.seq(), emitted@)) == resolve_order(
                    self@,
                    keys@,
                ),
            decreases n - order.len(),
        {
            let ghost w = waiting(keys.seq(), emitted@);
            proof {
                lemma_waiting_holds_one(keys.seq(), emitted@);
            }
            let pick = self.pick_next(&keys, &links, &emitted, &counts);
            let item = keys.get(pick);
            proof {
                lemma_waiting_after_emit(keys.seq(), emitted@, pick as int);
                lemma_resolve_step(self@, w);
                lemma_waiting_finite(keys.seq(), emitted@.update(pick as int, true));
                let rest = resolve_order(self@, w.remove(item));
                assert(order@.push(item) + rest =~= order@ + (seq![item] + rest));
                assert forall|j: int| 0 <= j < n implies (#[trigger] counts[j]) >= occurrences(
                    outs[pick as int]@,
                    j,
                ) by {
                    lemma_pending_after_emit(
                        links@,
                        emitted@,
                        pick as int,
                        j,
                        links.len() as int,
                    );
                }
                assert forall|t: int| 0 <= t < outs[pick as int].len() implies (
                #[trigger] outs[pick as int][t]) < counts.len() by {}
            }
            let ghost before = counts@;
            let ghost flags = emitted@;
            emitted.set(pick, true);
            lower_counts(&mut counts, &outs[pick]);
            proof {
                assert forall|j: int| 0 <= j < n implies #[trigger] counts[j] == pending(
                    links@,
                    emitted@,
                    j,
                    links.len() as int,
                ) by {
                    lemma_pending_after_emit(links@, flags, pick as int, j, links.len() as int);
                    assert(before[j] == pending(links@, flags, j, links.len() as int));
                }
            }
            order.push(item);
        }
        proof {
            let w = waiting(keys.seq(), emitted@);
            w.lemma_len0_is_empty();
            assert(order@ + Seq::<LayerItem>::empty() =~= order@);
        }
        order
    }
}

impl Clone for DependencyGraph {
    /// A graph with the same edges.
    fn clone(&self) -> (graph: DependencyGraph)
        ensures
            graph.edge_seq() == self.edge_seq(),
            graph@ == self@,
    {
        let mut edges: Vec<Edge> = Vec::new();
        let mut i: usize = 0;
        while i < self.edges.len()
            invariant
                i <= self.edges.len(),
                edges@ == self.edges@.take(i as int),
            decreases self.edges.len() - i,
        {
            edges.push(self.edges[i]);
            assert(self.edges@.take(i + 1) =~= self.edges@.take(i as int).push(self.edges@[i as int]));
            i += 1;
        }
        assert(self.edges@.take(i as int) =~= self.edges@);
        DependencyGraph { edges }
    }
}

} // verus!
