//! What it means to resolve a set of items against depth-order dependencies,
//! and the laws that every resolved order obeys.
//!
//! An edge `(below, above)` asks that `below` is drawn before `above`. The
//! resolved order is built item by item: the next item is the least item none
//! of whose predecessors is still waiting, and, where every waiting item has a
//! waiting predecessor (a cycle), the least waiting item.

use crate::item::LayerItem;
use crate::item_set::strictly_ascending;
use vstd::prelude::*;
use vstd::seq_lib::*;
use vstd::set_lib::*;

verus! {

/// A depth-order dependency: the first item is drawn before the second.
pub type Edge = (LayerItem, LayerItem);

/// `x` waits in `remaining` and no item of `remaining` has to come before it.
pub open spec fn is_ready(edges: Set<Edge>, remaining: Set<LayerItem>, x: LayerItem) -> bool {
    &&& remaining.contains(x)
    &&& forall|y: LayerItem| remaining.contains(y) ==> !edges.contains((y, x))
}

/// `x` is the item of `s` with the smallest rank.
pub open spec fn is_least(s: Set<LayerItem>, x: LayerItem) -> bool {
    &&& s.contains(x)
    &&& forall|y: LayerItem| s.contains(y) ==> x.rank() <= y.rank()
}

/// The item of `s` with the smallest rank.
pub open spec fn least(s: Set<LayerItem>) -> LayerItem {
    choose|x: LayerItem| is_least(s, x)
}

/// The items of `remaining` that no waiting item has to precede.
pub open spec fn ready_items(edges: Set<Edge>, remaining: Set<LayerItem>) -> Set<LayerItem> {
    Set::new(|x: LayerItem| is_ready(edges, remaining, x))
}

/// The item that is drawn next: the least ready item, or the least waiting
/// item where none is ready.
pub open spec fn next_item(edges: Set<Edge>, remaining: Set<LayerItem>) -> LayerItem {
    if exists|x: LayerItem| is_ready(edges, remaining, x) {
        least(ready_items(edges, remaining))
    } else {
        least(remaining)
    }
}

/// The order in which the items of `remaining` are drawn under `edges`.
pub open spec fn resolve_order(edges: Set<Edge>, remaining: Set<LayerItem>) -> Seq<LayerItem>
    decreases remaining.len(),
{
    let x = next_item(edges, remaining);
    if remaining.finite() && remaining.contains(x) {
        seq![x] + resolve_order(edges, remaining.remove(x))
    } else {
        Seq::empty()
    }
}

/// Consecutive items of `path` are joined by edges.
pub open spec fn is_chain(edges: Set<Edge>, path: Seq<LayerItem>) -> bool {
    forall|i: int| 0 <= i < path.len() - 1 ==> edges.contains((#[trigger] path[i], path[i + 1]))
}

/// Some chain of at least one edge leads from an item back to itself.
pub open spec fn has_cycle(edges: Set<Edge>) -> bool {
    exists|path: Seq<LayerItem>|
        path.len() >= 2 && #[trigger] is_chain(edges, path) && path.first() == path.last()
}

/// `a` stands before `b` in `order`.
pub open spec fn comes_before(order: Seq<LayerItem>, a: LayerItem, b: LayerItem) -> bool {
    exists|i: int, j: int| 0 <= i < j < order.len() && order[i] == a && order[j] == b
}

/// A finite set that holds an item has a least item.
pub proof fn lemma_least_exists(s: Set<LayerItem>)
    requires
        s.finite(),
        exists|x: LayerItem| s.contains(x),
    ensures
        is_least(s, least(s)),
    decreases s.len(),
{
    let a = choose|x: LayerItem| s.contains(x);
    let rest = s.remove(a);
    if exists|x: LayerItem| rest.contains(x) {
        lemma_least_exists(rest);
        let m = least(rest);
        let c = if a.rank() <= m.rank() {
            a
        } else {
            m
        };
        assert forall|y: LayerItem| s.contains(y) implies c.rank() <= y.rank() by {
            if y != a {
                assert(rest.contains(y));
            }
        }
        assert(is_least(s, c));
    } else {
        assert forall|y: LayerItem| s.contains(y) implies a.rank() <= y.rank() by {
            if y != a {
                assert(rest.contains(y));
            }
        }
        assert(is_least(s, a));
    }
}

/// The least item of a set is the only item that is least in it.
pub proof fn lemma_least_unique(s: Set<LayerItem>, x: LayerItem)
    requires
        is_least(s, x),
    ensures
        least(s) == x,
{
    let m = least(s);
    assert(is_least(s, m));
    LayerItem::lemma_rank_injective(m, x);
}

/// The item drawn next out of a finite set that holds an item is one of the
/// set's items.
pub proof fn lemma_next_item_waits(edges: Set<Edge>, remaining: Set<LayerItem>)
    requires
        remaining.finite(),
        exists|x: LayerItem| remaining.contains(x),
    ensures
        remaining.contains(next_item(edges, remaining)),
        (exists|x: LayerItem| is_ready(edges, remaining, x)) ==> is_ready(
            edges,
            remaining,
            next_item(edges, remaining),
        ),
{
    if exists|x: LayerItem| is_ready(edges, remaining, x) {
        let ready = ready_items(edges, remaining);
        let w = choose|x: LayerItem| is_ready(edges, remaining, x);
        assert(ready.contains(w));
        assert(ready.subset_of(remaining));
        lemma_set_subset_finite(remaining, ready);
        lemma_least_exists(ready);
    } else {
        lemma_least_exists(remaining);
    }
}

/// Unfolds one step of the resolved order.
pub proof fn lemma_resolve_step(edges: Set<Edge>, remaining: Set<LayerItem>)
    requires
        remaining.finite(),
        exists|x: LayerItem| remaining.contains(x),
    ensures
        resolve_order(edges, remaining) == seq![next_item(edges, remaining)] + resolve_order(
            edges,
            remaining.remove(next_item(edges, remaining)),
        ),
{
    lemma_next_item_waits(edges, remaining);
}

/// The resolved order of the empty set is empty.
pub proof fn lemma_resolve_empty(edges: Set<Edge>, remaining: Set<LayerItem>)
    requires
        forall|x: LayerItem| !remaining.contains(x),
    ensures
        resolve_order(edges, remaining) == Seq::<LayerItem>::empty(),
{
}

/// Whatever the edges are, cycles included, the resolved order holds every
/// item of the set exactly once.
pub proof fn lemma_resolve_is_permutation(edges: Set<Edge>, items: Set<LayerItem>)
    requires
        items.finite(),
    ensures
        resolve_order(edges, items).no_duplicates(),
        resolve_order(edges, items).to_set() == items,
        resolve_order(edges, items).len() == items.len(),
    decreases items.len(),
{
    let order = resolve_order(edges, items);
    if exists|x: LayerItem| items.contains(x) {
        lemma_resolve_step(edges, items);
        lemma_next_item_waits(edges, items);
        let x = next_item(edges, items);
        let rest = items.remove(x);
        let tail = resolve_order(edges, rest);
        lemma_resolve_is_permutation(edges, rest);
        assert(order == seq![x] + tail);
        assert forall|i: int, j: int| 0 <= i < order.len() && 0 <= j < order.len() && i
            != j implies order[i] != order[j] by {
            if i > 0 {
                assert(tail.to_set().contains(tail[i - 1]));
            }
            if j > 0 {
                assert(tail.to_set().contains(tail[j - 1]));
            }
        }
        assert forall|y: LayerItem| order.to_set().contains(y) <==> items.contains(y) by {
            if order.to_set().contains(y) {
                let i = choose|i: int| 0 <= i < order.len() && order[i] == y;
                if i > 0 {
                    assert(tail.to_set().contains(tail[i - 1]));
                }
            }
            if items.contains(y) {
                if y == x {
                    assert(order[0] == y);
                } else {
                    assert(tail.to_set().contains(y));
                    let i = choose|i: int| 0 <= i < tail.len() && tail[i] == y;
                    assert(order[i + 1] == y);
                }
            }
        }
        assert(order.to_set() =~= items);
    } else {
        assert(items =~= Set::<LayerItem>::empty());
        assert(order.to_set() =~= items);
    }
}

/// Where no edge joins two items of the set, the resolved order is the
/// ascending order of the items.
pub proof fn lemma_unconstrained_is_ascending(edges: Set<Edge>, items: Set<LayerItem>)
    requires
        items.finite(),
        forall|a: LayerItem, b: LayerItem|
            items.contains(a) && items.contains(b) ==> !edges.contains((a, b)),
    ensures
        strictly_ascending(resolve_order(edges, items)),
    decreases items.len(),
{
    let order = resolve_order(edges, items);
    if exists|x: LayerItem| items.contains(x) {
        lemma_resolve_step(edges, items);
        lemma_next_item_waits(edges, items);
        let w = choose|x: LayerItem| items.contains(x);
        assert(is_ready(edges, items, w));
        let x = next_item(edges, items);
        let ready = ready_items(edges, items);
        assert(ready =~= items) by {
            assert forall|y: LayerItem| items.contains(y) implies ready.contains(y) by {
                assert(is_ready(edges, items, y));
            }
        }
        lemma_least_exists(items);
        let rest = items.remove(x);
        let tail = resolve_order(edges, rest);
        lemma_unconstrained_is_ascending(edges, rest);
        lemma_resolve_is_permutation(edges, rest);
        assert forall|i: int, j: int| 0 <= i < j < order.len() implies order[i].rank()
            < order[j].rank() by {
            if i == 0 {
                let y = tail[j - 1];
                assert(tail.to_set().contains(y));
                assert(items.contains(y));
                if x.rank() == y.rank() {
                    LayerItem::lemma_rank_injective(x, y);
                }
            } else {
                assert(tail[i - 1].rank() < tail[j - 1].rank());
            }
        }
    }
}

/// The item reached from `start` by walking `steps` edges backwards inside
/// `items`, each time to a chosen predecessor.
pub open spec fn walk_back(
    edges: Set<Edge>,
    items: Set<LayerItem>,
    start: LayerItem,
    steps: nat,
) -> LayerItem
    decreases steps,
{
    if steps == 0 {
        start
    } else {
        let x = walk_back(edges, items, start, (steps - 1) as nat);
        choose|y: LayerItem| items.contains(y) && edges.contains((y, x))
    }
}

proof fn lemma_walk_back_stays(
    edges: Set<Edge>,
    items: Set<LayerItem>,
    start: LayerItem,
    steps: nat,
)
    requires
        items.contains(start),
        forall|x: LayerItem| items.contains(x) ==> !is_ready(edges, items, x),
    ensures
        items.contains(walk_back(edges, items, start, steps)),
        steps > 0 ==> edges.contains(
            (
                walk_back(edges, items, start, steps),
                walk_back(edges, items, start, (steps - 1) as nat),
            ),
        ),
    decreases steps,
{
    if steps > 0 {
        lemma_walk_back_stays(edges, items, start, (steps - 1) as nat);
        let x = walk_back(edges, items, start, (steps - 1) as nat);
        assert(!is_ready(edges, items, x));
        let y = choose|y: LayerItem| items.contains(y) && edges.contains((y, x));
        assert(items.contains(y) && edges.contains((y, x)));
    }
}

/// If every item of a finite set that holds an item waits for another item of
/// the set, the edges hold a cycle.
pub proof fn lemma_all_blocked_has_cycle(edges: Set<Edge>, items: Set<LayerItem>)
    requires
        items.finite(),
        exists|x: LayerItem| items.contains(x),
        forall|x: LayerItem| items.contains(x) ==> !is_ready(edges, items, x),
    ensures
        has_cycle(edges),
{
    let start = choose|x: LayerItem| items.contains(x);
    let n = items.len();
    let walk = Seq::new(n + 1, |k: int| walk_back(edges, items, start, k as nat));
    assert forall|k: int| 0 <= k < walk.len() implies items.contains(#[trigger] walk[k]) by {
        lemma_walk_back_stays(edges, items, start, k as nat);
    }
    if walk.no_duplicates() {
        walk.unique_seq_to_set();
        assert(walk.to_set().subset_of(items)) by {
            assert forall|y: LayerItem| walk.to_set().contains(y) implies items.contains(y) by {
                let k = choose|k: int| 0 <= k < walk.len() && walk[k] == y;
                assert(items.contains(walk[k]));
            }
        }
        lemma_len_subset(walk.to_set(), items);
        assert(false);
    }
    let (i, j) = choose|i: int, j: int|
        0 <= i < walk.len() && 0 <= j < walk.len() && i != j && walk[i] == walk[j];
    let (lo, hi) = if i < j {
        (i, j)
    } else {
        (j, i)
    };
    let path = Seq::new((hi - lo + 1) as nat, |k: int| walk[hi - k]);
    assert forall|k: int| 0 <= k < path.len() - 1 implies edges.contains(
        (#[trigger] path[k], path[k + 1]),
    ) by {
        lemma_walk_back_stays(edges, items, start, (hi - k) as nat);
    }
    assert(is_chain(edges, path));
    assert(path.first() == path.last());
}

/// Under edges without a cycle, an item is drawn before every item of the set
/// that it has to precede.
pub proof fn lemma_resolve_respects_edges(
    edges: Set<Edge>,
    items: Set<LayerItem>,
    below: LayerItem,
    above: LayerItem,
)
    requires
        items.finite(),
        !has_cycle(edges),
        edges.contains((below, above)),
        items.contains(below),
        items.contains(above),
    ensures
        comes_before(resolve_order(edges, items), below, above),
    decreases items.len(),
{
    let order = resolve_order(edges, items);
    lemma_resolve_step(edges, items);
    lemma_next_item_waits(edges, items);
    let x = next_item(edges, items);
    let rest = items.remove(x);
    let tail = resolve_order(edges, rest);
    if !(exists|r: LayerItem| is_ready(edges, items, r)) {
        lemma_all_blocked_has_cycle(edges, items);
    }
    assert(is_ready(edges, items, x));
    assert(x != above);
    if x == below {
        lemma_resolve_is_permutation(edges, rest);
        assert(tail.to_set().contains(above));
        let j = choose|j: int| 0 <= j < tail.len() && tail[j] == above;
        assert(order[0] == below && order[j + 1] == above);
    } else {
        lemma_resolve_respects_edges(edges, rest, below, above);
        let (i, j) = choose|i: int, j: int|
            0 <= i < j < tail.len() && tail[i] == below && tail[j] == above;
        assert(order[i + 1] == below && order[j + 1] == above);
    }
}

} // verus!
