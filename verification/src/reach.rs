//! The layers that an update reaches: a layer, the children of its group,
//! their children, and so on.

use crate::item::LayerId;
use crate::seq_facts::lemma_take_next_contains;
use crate::store::LayerStore;
use crate::store_view::{
    is_child, layer_at, live, store_wf, StoreView,
};
use vstd::prelude::*;

verus! {

/// Every layer of `path` but the last lists the next one in its group.
pub open spec fn is_path(v: StoreView, path: Seq<LayerId>) -> bool {
    &&& path.len() >= 1
    &&& forall|i: int| 0 <= i < path.len() - 1 ==> is_child(v, #[trigger] path[i], path[i + 1])
}

/// The layer `to` is `from` itself or one of its descendants.
pub open spec fn reachable(v: StoreView, from: LayerId, to: LayerId) -> bool {
    exists|path: Seq<LayerId>| #[trigger] is_path(v, path) && path.first() == from && path.last() == to
}

/// The number of flags that are not set.
pub open spec fn unset(flags: Seq<bool>) -> nat
    decreases flags.len(),
{
    if flags.len() == 0 {
        0
    } else {
        unset(flags.drop_last()) + if flags.last() {
            0nat
        } else {
            1nat
        }
    }
}

proof fn lemma_set_one(flags: Seq<bool>, i: int)
    requires
        0 <= i < flags.len(),
        !flags[i],
    ensures
        unset(flags.update(i, true)) + 1 == unset(flags),
    decreases flags.len(),
{
    let after = flags.update(i, true);
    if i == flags.len() - 1 {
        assert(after.drop_last() =~= flags.drop_last());
    } else {
        assert(after.drop_last() =~= flags.drop_last().update(i, true));
        lemma_set_one(flags.drop_last(), i);
    }
}

/// A layer reaches itself.
pub proof fn lemma_reaches_itself(v: StoreView, id: LayerId)
    ensures
        reachable(v, id, id),
{
    let path = seq![id];
    assert(is_path(v, path));
    assert(path.first() == id && path.last() == id);
}

/// What a layer reaches, it reaches through its children too.
pub proof fn lemma_reaches_child(v: StoreView, from: LayerId, via: LayerId, to: LayerId)
    requires
        reachable(v, from, via),
        is_child(v, via, to),
    ensures
        reachable(v, from, to),
{
    let path = choose|path: Seq<LayerId>| #[trigger]
        is_path(v, path) && path.first() == from && path.last() == via;
    let longer = path.push(to);
    assert forall|i: int| 0 <= i < longer.len() - 1 implies is_child(
        v,
        #[trigger] longer[i],
        longer[i + 1],
    ) by {
        if i < path.len() - 1 {
            assert(is_child(v, path[i], path[i + 1]));
        }
    }
    assert(is_path(v, longer));
    assert(longer.first() == from && longer.last() == to);
}

/// `marked` is closed: the children of a marked layer are marked.
pub open spec fn closed_under_children(v: StoreView, marked: Seq<bool>) -> bool {
    forall|p: LayerId, c: LayerId|
        p.0 < marked.len() && marked[p.0 as int] && #[trigger] is_child(v, p, c) ==> c.0
            < marked.len() && marked[c.0 as int]
}

proof fn lemma_path_is_marked(v: StoreView, marked: Seq<bool>, path: Seq<LayerId>, k: int)
    requires
        is_path(v, path),
        closed_under_children(v, marked),
        path.first().0 < marked.len(),
        marked[path.first().0 as int],
        0 <= k < path.len(),
    ensures
        path[k].0 < marked.len(),
        marked[path[k].0 as int],
    decreases k,
{
    if k > 0 {
        lemma_path_is_marked(v, marked, path, k - 1);
        assert(is_child(v, path[k - 1], path[k]));
    }
}

/// A closed marking that holds `from` holds all that `from` reaches.
pub proof fn lemma_closed_holds_reachable(
    v: StoreView,
    marked: Seq<bool>,
    from: LayerId,
    to: LayerId,
)
    requires
        closed_under_children(v, marked),
        from.0 < marked.len(),
        marked[from.0 as int],
        reachable(v, from, to),
    ensures
        to.0 < marked.len(),
        marked[to.0 as int],
{
    let path = choose|path: Seq<LayerId>| #[trigger]
        is_path(v, path) && path.first() == from && path.last() == to;
    lemma_path_is_marked(v, marked, path, path.len() - 1);
}

/// `marked` holds `from` and nothing but layers that `from` reaches, and
/// every layer that waits on `stack` is marked.
pub open spec fn marking(
    v: StoreView,
    from: LayerId,
    marked: Seq<bool>,
    stack: Seq<LayerId>,
) -> bool {
    &&& marked.len() == v.len()
    &&& from.0 < marked.len() && marked[from.0 as int]
    &&& forall|o: LayerId|
        o.0 < marked.len() && #[trigger] marked[o.0 as int] ==> live(v, o) && reachable(v, from, o)
    &&& forall|k: int|
        0 <= k < stack.len() ==> (#[trigger] stack[k]).0 < marked.len() && marked[stack[k].0 as int]
}

/// The children of `p` are marked unless `p` still waits on `stack`.
pub open spec fn done_or_waiting(
    v: StoreView,
    marked: Seq<bool>,
    stack: Seq<LayerId>,
    p: LayerId,
) -> bool {
    p.0 < marked.len() && marked[p.0 as int] && !stack.contains(p) ==> forall|c: LayerId| #[trigger]
        is_child(v, p, c) ==> c.0 < marked.len() && marked[c.0 as int]
}

/// Marks the layer `from` and all of its descendants.
pub fn mark_reachable(store: &LayerStore, from: LayerId) -> (marked: Vec<bool>)
    requires
        store.wf(),
        live(store@, from),
    ensures
        marked.len() == store@.len(),
        forall|o: LayerId|
            o.0 < marked.len() ==> (#[trigger] marked[o.0 as int] <==> reachable(store@, from, o)),
        forall|o: LayerId| reachable(store@, from, o) ==> live(store@, o),
{
    let ghost v = store@;
    let n = store.slot_count();
    let mut marked: Vec<bool> = Vec::new();
    while marked.len() < n
        invariant
            marked.len() <= n,
            forall|i: int| 0 <= i < marked.len() ==> !marked[i],
        decreases n - marked.len(),
    {
        marked.push(false);
    }
    marked.set(from.0, true);
    let mut stack: Vec<LayerId> = Vec::new();
    stack.push(from);
    proof {
        store.lemma_wf_view();
        lemma_reaches_itself(v, from);
        assert forall|p: LayerId| done_or_waiting(v, marked@, stack@, p) by {
            if p.0 < marked.len() && marked@[p.0 as int] {
                assert(p == from);
                assert(stack@[0] == from);
            }
        }
    }
    while stack.len() > 0
        invariant
            store.wf(),
            v == store@,
            store_wf(v),
            n == v.len(),
            marking(v, from, marked@, stack@),
            forall|p: LayerId| done_or_waiting(v, marked@, stack@, p),
        decreases 2 * unset(marked@) + stack.len(),
    {
        let ghost stack_before = stack@;
        let ghost flags_before = marked@;
        let cur = stack.pop().unwrap();
        let kids = store.children(cur);
        let ghost rest = stack@;
        let mut j: usize = 0;
        proof {
            assert(stack_before == rest.push(cur));
            assert(stack_before[stack_before.len() - 1] == cur);
            assert forall|k: int| 0 <= k < rest.len() implies (#[trigger] rest[k]).0
                < marked.len() && marked@[rest[k].0 as int] by {
                assert(stack_before[k] == rest[k]);
            }
            assert forall|p: LayerId| p != cur implies done_or_waiting(v, marked@, rest, p) by {
                assert(done_or_waiting(v, marked@, stack_before, p));
                if stack_before.contains(p) {
                    let k = choose|k: int| 0 <= k < stack_before.len() && stack_before[k] == p;
                    assert(rest[k] == p);
                }
            }
            assert(kids@.take(0) =~= Seq::<LayerId>::empty());
        }
        while j < kids.len()
            invariant
                j <= kids.len(),
                store.wf(),
                v == store@,
                store_wf(v),
                cur.0 < marked.len(),
                marked@[cur.0 as int],
                forall|c: LayerId| kids@.contains(c) <==> is_child(v, cur, c),
                marking(v, from, marked@, stack@),
                forall|p: LayerId| p != cur ==> done_or_waiting(v, marked@, stack@, p),
                forall|c: LayerId|
                    kids@.take(j as int).contains(c) ==> c.0 < marked.len() && marked@[c.0 as int],
                rest.len() + 1 == stack_before.len(),
                2 * unset(marked@) + stack.len() <= 2 * unset(flags_before) + rest.len(),
            decreases kids.len() - j,
        {
            let kid = kids[j];
            proof {
                assert(kids@.contains(kid));
                assert(is_child(v, cur, kid));
                assert(layer_at(v, cur).slots.contains(Some(kid)));
                assert(live(v, kid));
                lemma_take_next_contains(kids@, j as int);
            }
            let ghost seen = marked@;
            if !marked[kid.0] {
                let ghost flags = marked@;
                let ghost waiting = stack@;
                marked.set(kid.0, true);
                stack.push(kid);
                proof {
                    lemma_set_one(flags, kid.0 as int);
                    lemma_reaches_child(v, from, cur, kid);
                    assert(stack@[waiting.len() as int] == kid);
                    assert forall|k: int| 0 <= k < stack@.len() implies (#[trigger] stack@[k]).0
                        < marked.len() && marked@[stack@[k].0 as int] by {
                        if k < waiting.len() {
                            assert(stack@[k] == waiting[k]);
                        }
                    }
                    assert forall|p: LayerId| p != cur implies done_or_waiting(
                        v,
                        marked@,
                        stack@,
                        p,
                    ) by {
                        assert(done_or_waiting(v, flags, waiting, p));
                        if p == kid {
                            assert(stack@.contains(kid));
                        } else if waiting.contains(p) {
                            let k = choose|k: int| 0 <= k < waiting.len() && waiting[k] == p;
                            assert(stack@[k] == p);
                        }
                    }
                }
            }
            j += 1;
            proof {
                assert forall|c: LayerId| kids@.take(j as int).contains(c) implies c.0
                    < marked.len() && marked@[c.0 as int] by {
                    if c != kid {
                        assert(kids@.take(j - 1).contains(c));
                        assert(seen[c.0 as int]);
                    }
                }
            }
        }
        proof {
            assert(kids@.take(j as int) =~= kids@);
            assert(done_or_waiting(v, marked@, stack@, cur));
        }
    }
    proof {
        assert forall|p: LayerId, c: LayerId|
            p.0 < marked.len() && marked@[p.0 as int] && #[trigger] is_child(v, p, c) implies c.0
            < marked.len() && marked@[c.0 as int] by {
            assert(done_or_waiting(v, marked@, stack@, p));
        }
        assert forall|o: LayerId| o.0 < marked.len() implies (#[trigger] marked@[o.0 as int]
            <==> reachable(v, from, o)) by {
            if reachable(v, from, o) {
                lemma_closed_holds_reachable(v, marked@, from, o);
            }
        }
        assert forall|o: LayerId| reachable(v, from, o) implies live(v, o) by {
            lemma_closed_holds_reachable(v, marked@, from, o);
        }
    }
    marked
}

} // verus!
