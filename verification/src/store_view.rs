//! The state of a store of layers as contracts speak of it: which layers
//! exist, who is registered in whose group, which dependencies bear on a
//! layer, and what every operation of the store keeps true.

use crate::item::{LayerId, LayerItem, ShapeSystemId, SymbolId};
use crate::layer::{
    fill, filled, freed, is_next_slot, rest_of, struck_from, vacated, LayerView,
};
use crate::order::{lemma_resolve_empty, Edge};
use crate::reach::{lemma_reaches_child, reachable};
use vstd::prelude::*;

verus! {


/// The state of a store: for every slot, the state of its layer if the slot
/// holds one.
pub type StoreView = Seq<Option<LayerView>>;

/// The layer `id` exists.
pub open spec fn live(v: StoreView, id: LayerId) -> bool {
    id.0 < v.len() && v[id.0 as int] is Some
}

/// The state of the layer `id`.
pub open spec fn layer_at(v: StoreView, id: LayerId) -> LayerView {
    v[id.0 as int]->0
}

/// The store `v` with the state of the layer `id` replaced.
pub open spec fn with_layer(v: StoreView, id: LayerId, layer: LayerView) -> StoreView {
    v.update(id.0 as int, Some(layer))
}

/// The group of `parent` lists `child`.
pub open spec fn is_child(v: StoreView, parent: LayerId, child: LayerId) -> bool {
    live(v, parent) && layer_at(v, parent).slots.contains(Some(child))
}

/// The `k`-th parent of `layer` asks, through its group, for the edge `e`.
pub open spec fn contributes(v: StoreView, layer: LayerView, k: int, e: Edge) -> bool {
    &&& 0 <= k < layer.parents.len()
    &&& live(v, layer.parents[k])
    &&& layer_at(v, layer.parents[k]).global_order.contains(e)
}

/// The dependencies that the groups of `layer` lay on it: those of every
/// group that the layer is registered in.
pub open spec fn global_of(v: StoreView, layer: LayerView) -> Set<Edge> {
    Set::new(|e: Edge| exists|k: int| contributes(v, layer, k, e))
}

/// The group of the `k`-th parent of `layer` is dirty.
pub open spec fn forces(v: StoreView, layer: LayerView, k: int) -> bool {
    &&& 0 <= k < layer.parents.len()
    &&& live(v, layer.parents[k])
    &&& layer_at(v, layer.parents[k]).children_dirty
}

/// Some group of `layer` is dirty, so that the layer has to be resolved
/// again whatever its own flag says.
pub open spec fn forced(v: StoreView, layer: LayerView) -> bool {
    exists|k: int| forces(v, layer, k)
}

/// The order that `layer` keeps is never stale in silence: the layer is
/// dirty, or one of its groups is, or the order is what resolving the
/// layer's elements under all dependencies that bear on it gives.
pub open spec fn settled(v: StoreView, layer: LayerView) -> bool {
    layer.dirty || forced(v, layer) || layer.sorted == layer.draw_order(global_of(v, layer))
}

/// Groups and layers know of each other: a group lists a layer exactly when
/// the layer names the group's owner as a parent, and both exist.
pub open spec fn linked_both_ways(v: StoreView) -> bool {
    &&& forall|p: LayerId, c: LayerId|
        live(v, p) && #[trigger] layer_at(v, p).slots.contains(Some(c)) ==> live(v, c)
            && layer_at(v, c).parents.contains(p)
    &&& forall|c: LayerId, p: LayerId|
        live(v, c) && #[trigger] layer_at(v, c).parents.contains(p) ==> live(v, p) && layer_at(
            v,
            p,
        ).slots.contains(Some(c))
}

/// What holds of every store: every layer is well formed and stands in the
/// slot that its identifier names, no layer is registered in its own group,
/// groups and layers know of each other, and the order that a layer keeps is
/// never stale in silence.
pub open spec fn store_wf(v: StoreView) -> bool {
    &&& forall|i: int|
        0 <= i < v.len() ==> (#[trigger] v[i] matches Some(layer) ==> layer.wf() && layer.id.0
            == i && !layer.parents.contains(layer.id))
    &&& linked_both_ways(v)
    &&& forall|i: int| 0 <= i < v.len() ==> (#[trigger] v[i] matches Some(layer) ==> settled(v, layer))
}

/// `new` differs from `old` in nothing that the order of drawing or the
/// links between layers rest on, or it is dirty; and it does not hide a
/// change of its group's dependencies.
pub open spec fn is_edit(old: LayerView, new: LayerView) -> bool {
    &&& new.id == old.id
    &&& new.parents == old.parents
    &&& new.slots == old.slots
    &&& old.children_dirty ==> new.children_dirty
    &&& new.global_order == old.global_order || new.children_dirty
    &&& new.dirty || {
        &&& new.sorted == old.sorted
        &&& new.elements == old.elements
        &&& new.shapes == old.shapes
        &&& new.local_order == old.local_order
        &&& !old.dirty
    }
}

proof fn lemma_settled_after_edit(v: StoreView, id: LayerId, new: LayerView, layer: LayerView)
    requires
        live(v, id),
        old_and_new(v, id, new),
        settled(v, layer),
    ensures
        settled(with_layer(v, id, new), layer),
{
    let w = with_layer(v, id, new);
    if layer.dirty {
    } else if forced(v, layer) {
        let k = choose|k: int| forces(v, layer, k);
        assert(forces(w, layer, k));
    } else {
        if exists|k: int| forces(w, layer, k) {
        } else {
            assert forall|e: Edge| global_of(w, layer).contains(e) <==> global_of(
                v,
                layer,
            ).contains(e) by {
                if global_of(w, layer).contains(e) {
                    let k = choose|k: int| contributes(w, layer, k, e);
                    if layer.parents[k] == id {
                        assert(!forces(w, layer, k));
                    }
                    assert(contributes(v, layer, k, e));
                }
                if global_of(v, layer).contains(e) {
                    let k = choose|k: int| contributes(v, layer, k, e);
                    if layer.parents[k] == id {
                        assert(!forces(w, layer, k));
                    }
                    assert(contributes(w, layer, k, e));
                }
            }
            assert(global_of(w, layer) =~= global_of(v, layer));
        }
    }
}

/// The layer `id` exists in `v`, and `new` is an edit of it.
pub open spec fn old_and_new(v: StoreView, id: LayerId, new: LayerView) -> bool {
    live(v, id) && is_edit(layer_at(v, id), new)
}

/// Editing one layer keeps the store well formed.
pub proof fn lemma_edit_keeps_wf(v: StoreView, id: LayerId, new: LayerView)
    requires
        store_wf(v),
        live(v, id),
        new.wf(),
        is_edit(layer_at(v, id), new),
    ensures
        store_wf(with_layer(v, id, new)),
{
    let w = with_layer(v, id, new);
    let old = layer_at(v, id);
    assert forall|p: LayerId, c: LayerId|
        live(w, p) && #[trigger] layer_at(w, p).slots.contains(Some(c)) implies live(w, c)
            && layer_at(w, c).parents.contains(p) by {
        assert(layer_at(v, p).slots.contains(Some(c)));
    }
    assert forall|c: LayerId, p: LayerId|
        live(w, c) && #[trigger] layer_at(w, c).parents.contains(p) implies live(w, p)
            && layer_at(w, p).slots.contains(Some(c)) by {
        assert(layer_at(v, c).parents.contains(p));
    }
    assert forall|i: int| 0 <= i < w.len() implies (#[trigger] w[i] matches Some(layer) ==> settled(
        w,
        layer,
    )) by {
        if w[i] is Some {
            let layer = w[i]->0;
            if i == id.0 {
                if !new.dirty {
                    assert(settled(v, old));
                    lemma_settled_after_edit(v, id, new, old);
                    assert forall|e: Edge| global_of(w, new).contains(e) <==> global_of(
                        w,
                        old,
                    ).contains(e) by {
                        if global_of(w, new).contains(e) {
                            let k = choose|k: int| contributes(w, new, k, e);
                            assert(contributes(w, old, k, e));
                        }
                        if global_of(w, old).contains(e) {
                            let k = choose|k: int| contributes(w, old, k, e);
                            assert(contributes(w, new, k, e));
                        }
                    }
                    assert(global_of(w, new) =~= global_of(w, old));
                    assert(new.static_order() =~= old.static_order());
                    assert(new.draw_order(global_of(w, new)) == old.draw_order(
                        global_of(w, old),
                    ));
                    assert(forced(w, new) == forced(w, old)) by {
                        if forced(w, new) {
                            let k = choose|k: int| forces(w, new, k);
                            assert(forces(w, old, k));
                        }
                        if forced(w, old) {
                            let k = choose|k: int| forces(w, old, k);
                            assert(forces(w, new, k));
                        }
                    }
                }
            } else {
                assert(v[i] == w[i]);
                lemma_settled_after_edit(v, id, new, layer);
            }
        }
    }
}

/// The slots of the layer's group and the list of the vacant ones.
pub open spec fn group_of(layer: LayerView) -> (Seq<Option<LayerId>>, Seq<usize>) {
    (layer.slots, layer.vacant)
}

/// The slots of the layer's group, and the list of the vacant ones, after
/// `id` left the group.
pub open spec fn group_without(layer: LayerView, id: LayerId) -> (
    Seq<Option<LayerId>>,
    Seq<usize>,
) {
    (vacated(layer.slots, id), freed(layer.slots, layer.vacant, id))
}

/// `b` is `a` but for the groups it is registered in, the children it lists
/// and its dirty flag.
pub open spec fn same_but_links(a: LayerView, b: LayerView) -> bool {
    b == (LayerView { parents: b.parents, slots: b.slots, vacant: b.vacant, dirty: b.dirty, ..a })
}

/// `w` holds the layers of `v`, changed at most in who is registered where
/// and in who is dirty.
pub open spec fn relinked(v: StoreView, w: StoreView) -> bool {
    &&& w.len() == v.len()
    &&& forall|id: LayerId| #[trigger] live(w, id) == live(v, id)
    &&& forall|id: LayerId| live(v, id) ==> same_but_links(layer_at(v, id), #[trigger] layer_at(w, id))
}

/// A layer whose own state and whose groups are what they were stays
/// settled.
pub proof fn lemma_settled_carries(v: StoreView, w: StoreView, a: LayerView, b: LayerView)
    requires
        settled(v, a),
        b.parents == a.parents,
        b.sorted == a.sorted,
        b.elements == a.elements,
        b.shapes == a.shapes,
        b.local_order == a.local_order,
        b.dirty == a.dirty,
        forall|k: int|
            0 <= k < a.parents.len() ==> {
                &&& live(w, #[trigger] a.parents[k]) == live(v, a.parents[k])
                &&& live(v, a.parents[k]) ==> {
                    &&& layer_at(w, a.parents[k]).global_order == layer_at(
                        v,
                        a.parents[k],
                    ).global_order
                    &&& layer_at(w, a.parents[k]).children_dirty == layer_at(
                        v,
                        a.parents[k],
                    ).children_dirty
                }
            },
    ensures
        settled(w, b),
{
    if a.dirty {
    } else if forced(v, a) {
        let k = choose|k: int| forces(v, a, k);
        assert(forces(w, b, k));
    } else {
        assert forall|e: Edge| global_of(w, b).contains(e) <==> global_of(v, a).contains(e) by {
            if global_of(w, b).contains(e) {
                let k = choose|k: int| contributes(w, b, k, e);
                assert(contributes(v, a, k, e));
            }
            if global_of(v, a).contains(e) {
                let k = choose|k: int| contributes(v, a, k, e);
                assert(contributes(w, b, k, e));
            }
        }
        assert(global_of(w, b) =~= global_of(v, a));
        assert(b.static_order() =~= a.static_order());
    }
}

/// Relinking twice is relinking.
pub proof fn lemma_relinked_chain(v: StoreView, u: StoreView, w: StoreView)
    requires
        relinked(v, u),
        relinked(u, w),
    ensures
        relinked(v, w),
{
    assert forall|id: LayerId| #[trigger] live(w, id) == live(v, id) by {
        assert(live(u, id) == live(v, id));
    }
    assert forall|id: LayerId| live(v, id) implies same_but_links(
        layer_at(v, id),
        #[trigger] layer_at(w, id),
    ) by {
        assert(live(u, id) == live(v, id));
        assert(same_but_links(layer_at(v, id), layer_at(u, id)));
        assert(same_but_links(layer_at(u, id), layer_at(w, id)));
    }
}

/// Some group lists both `a` and `b`.
pub open spec fn shares_group(v: StoreView, a: LayerId, b: LayerId) -> bool {
    exists|p: LayerId| is_child(v, p, a) && #[trigger] is_child(v, p, b)
}

/// One of the first `n` layers of `groups` lists `layer` in its group.
pub open spec fn in_groups(v: StoreView, groups: Seq<LayerId>, n: int, layer: LayerId) -> bool {
    exists|k: int| 0 <= k < n && k < groups.len() && is_child(v, #[trigger] groups[k], layer)
}

/// The layer `other` after `symbol` was claimed by the layer `id`: a layer
/// that shares a group with `id` and draws the symbol loses it.
pub open spec fn evicted(v: StoreView, id: LayerId, symbol: SymbolId, other: LayerId) -> LayerView {
    if shares_group(v, id, other) && layer_at(v, other).holds_symbol(symbol) {
        layer_at(v, other).without_symbol(symbol)
    } else {
        layer_at(v, other)
    }
}

/// The store `w` is the store `v` after the layer `id` claimed `symbol`:
/// every layer that shares a group with `id` and drew the symbol has lost
/// it, and `id` draws it as a bare symbol.
pub open spec fn claimed(v: StoreView, id: LayerId, symbol: SymbolId, w: StoreView) -> bool {
    &&& w.len() == v.len()
    &&& forall|other: LayerId| #[trigger] live(w, other) == live(v, other)
    &&& forall|other: LayerId|
        live(v, other) ==> #[trigger] layer_at(w, other) == (if other == id {
            evicted(v, id, symbol, other).with_symbol(symbol)
        } else {
            evicted(v, id, symbol, other)
        })
}

/// The store `w` is the store `v` after the layer `id` was destroyed: the
/// layer is gone, no group lists it, its own group is dissolved, and the
/// layers that were its children are dirty.
pub open spec fn destroyed(v: StoreView, id: LayerId, w: StoreView) -> bool {
    &&& w.len() == v.len()
    &&& !live(w, id)
    &&& forall|other: LayerId| other != id ==> #[trigger] live(w, other) == live(v, other)
    &&& forall|other: LayerId|
        other != id && live(v, other) ==> same_but_links(
            layer_at(v, other),
            #[trigger] layer_at(w, other),
        )
    &&& forall|p: LayerId, c: LayerId|
        #[trigger] is_child(w, p, c) <==> (is_child(v, p, c) && p != id && c != id)
    &&& forall|other: LayerId|
        other != id && live(v, other) ==> #[trigger] layer_at(w, other).dirty == (layer_at(
            v,
            other,
        ).dirty || is_child(v, id, other))
    &&& forall|other: LayerId|
        other != id && live(v, other) ==> {
            &&& group_of(#[trigger] layer_at(w, other)) == group_without(layer_at(v, other), id)
            &&& struck_from(layer_at(v, other).parents, id, layer_at(w, other).parents)
        }
}

/// A layer that lost a symbol does not draw it.
pub proof fn lemma_without_symbol_not_held(layer: LayerView, symbol: SymbolId)
    ensures
        !layer.without_symbol(symbol).holds_symbol(symbol),
{
    let after = layer.without_symbol(symbol);
    assert forall|id: ShapeSystemId| !after.shapes_of_symbol(symbol).contains(id) by {
        if after.shapes.contains_key(id) && after.shapes[id].symbol == symbol {
            assert(layer.shapes_of_symbol(symbol).contains(id));
        }
    }
}

/// Losing a symbol changes neither the groups of a layer nor its children.
pub proof fn lemma_without_symbol_keeps_links(layer: LayerView, symbol: SymbolId)
    ensures
        layer.without_symbol(symbol).slots == layer.slots,
        layer.without_symbol(symbol).parents == layer.parents,
{
}

/// Losing a symbol that is lost already changes nothing more.
pub proof fn lemma_without_symbol_twice(layer: LayerView, symbol: SymbolId)
    ensures
        layer.without_symbol(symbol).without_symbol(symbol) == layer.without_symbol(symbol),
{
    let once = layer.without_symbol(symbol);
    let twice = once.without_symbol(symbol);
    lemma_without_symbol_not_held(layer, symbol);
    assert(once.shapes_of_symbol(symbol) =~= Set::<ShapeSystemId>::empty()) by {
        assert forall|id: ShapeSystemId| !once.shapes_of_symbol(symbol).contains(id) by {
            if once.shapes.contains_key(id) && once.shapes[id].symbol == symbol {
                assert(layer.shapes_of_symbol(symbol).contains(id));
            }
        }
    }
    assert(twice.shapes =~= once.shapes);
    assert(twice.elements =~= once.elements);
}

/// One step of taking a symbol from the groups of a layer: after the
/// children of one more group lost the symbol, exactly the children of the
/// groups gone through so far have lost it.
pub proof fn lemma_evicted_one_more(
    v: StoreView,
    start: StoreView,
    w: StoreView,
    groups: Seq<LayerId>,
    i: int,
    symbol: SymbolId,
)
    requires
        0 <= i < groups.len(),
        start.len() == v.len(),
        w.len() == v.len(),
        forall|other: LayerId| #[trigger] live(start, other) == live(v, other),
        forall|other: LayerId| #[trigger] live(w, other) == live(start, other),
        forall|other: LayerId|
            live(v, other) ==> #[trigger] layer_at(start, other) == (if in_groups(
                v,
                groups,
                i,
                other,
            ) && layer_at(v, other).holds_symbol(symbol) {
                layer_at(v, other).without_symbol(symbol)
            } else {
                layer_at(v, other)
            }),
        forall|other: LayerId|
            live(start, other) ==> #[trigger] layer_at(w, other) == (if is_child(
                start,
                groups[i],
                other,
            ) && layer_at(start, other).holds_symbol(symbol) {
                layer_at(start, other).without_symbol(symbol)
            } else {
                layer_at(start, other)
            }),
    ensures
        forall|other: LayerId| #[trigger] live(w, other) == live(v, other),
        forall|other: LayerId|
            live(v, other) ==> #[trigger] layer_at(w, other) == (if in_groups(
                v,
                groups,
                i + 1,
                other,
            ) && layer_at(v, other).holds_symbol(symbol) {
                layer_at(v, other).without_symbol(symbol)
            } else {
                layer_at(v, other)
            }),
{
    let group = groups[i];
    assert forall|other: LayerId| #[trigger] live(w, other) == live(v, other) by {
        assert(live(start, other) == live(v, other));
    }
    assert forall|other: LayerId| is_child(start, group, other) == is_child(v, group, other) by {
        assert(live(start, group) == live(v, group));
        if live(v, group) {
            lemma_without_symbol_keeps_links(layer_at(v, group), symbol);
        }
    }
    assert forall|other: LayerId| live(v, other) implies #[trigger] layer_at(w, other) == (if in_groups(
        v,
        groups,
        i + 1,
        other,
    ) && layer_at(v, other).holds_symbol(symbol) {
        layer_at(v, other).without_symbol(symbol)
    } else {
        layer_at(v, other)
    }) by {
        let before = in_groups(v, groups, i, other);
        let now = in_groups(v, groups, i + 1, other);
        assert(now <==> (before || is_child(v, group, other))) by {
            if before {
                let k = choose|k: int|
                    0 <= k < i && k < groups.len() && is_child(v, #[trigger] groups[k], other);
                assert(0 <= k < i + 1 && is_child(v, groups[k], other));
            }
            if is_child(v, group, other) {
                assert(is_child(v, groups[i], other));
            }
            if now {
                let k = choose|k: int|
                    0 <= k < i + 1 && k < groups.len() && is_child(v, #[trigger] groups[k], other);
                if k < i {
                    assert(before);
                }
            }
        }
        assert(live(start, other) == live(v, other));
        assert(is_child(start, group, other) == is_child(v, group, other));
        if before && layer_at(v, other).holds_symbol(symbol) {
            lemma_without_symbol_not_held(layer_at(v, other), symbol);
        }
    }
}

/// The layer has to be resolved again: it is dirty, or one of its groups is.
pub open spec fn needs_sorting(v: StoreView, layer: LayerView) -> bool {
    layer.dirty || forced(v, layer)
}

/// The layer after an update reached it: its elements are resolved under
/// all dependencies that bear on it, if they had to be, and the flags of the
/// layer and of its group are consumed.
pub open spec fn refreshed(v: StoreView, layer: LayerView) -> LayerView {
    LayerView {
        dirty: false,
        children_dirty: false,
        sorted: if needs_sorting(v, layer) {
            layer.draw_order(global_of(v, layer))
        } else {
            layer.sorted
        },
        ..layer
    }
}

/// The store after an update of the layer `from`: every layer that `from`
/// reaches is refreshed, every other layer is what it was.
pub open spec fn updated(v: StoreView, from: LayerId, w: StoreView) -> bool {
    &&& w.len() == v.len()
    &&& forall|i: int| 0 <= i < v.len() ==> #[trigger] w[i] == updated_slot(v, from, i)
}

/// What the slot `i` holds after an update of the layer `from`.
pub open spec fn updated_slot(v: StoreView, from: LayerId, i: int) -> Option<LayerView> {
    match v[i] {
        Some(layer) => if reachable(v, from, layer.id) {
            Some(refreshed(v, layer))
        } else {
            v[i]
        },
        None => v[i],
    }
}

/// The dependencies that the first `n` parents of `layer` lay on it.
pub open spec fn global_upto(v: StoreView, layer: LayerView, n: int) -> Set<Edge> {
    Set::new(|e: Edge| exists|k: int| k < n && contributes(v, layer, k, e))
}

/// The dependencies that the groups lay on a layer are what they were if
/// the layer's parents and their groups' dependencies are.
pub proof fn lemma_global_of_carries(v: StoreView, w: StoreView, a: LayerView, b: LayerView)
    requires
        b.parents == a.parents,
        forall|k: int|
            0 <= k < a.parents.len() ==> {
                &&& live(w, #[trigger] a.parents[k]) == live(v, a.parents[k])
                &&& live(v, a.parents[k]) ==> layer_at(w, a.parents[k]).global_order == layer_at(
                    v,
                    a.parents[k],
                ).global_order
            },
    ensures
        global_of(w, b) == global_of(v, a),
{
    assert forall|e: Edge| global_of(w, b).contains(e) <==> global_of(v, a).contains(e) by {
        if global_of(w, b).contains(e) {
            let k = choose|k: int| contributes(w, b, k, e);
            assert(contributes(v, a, k, e));
        }
        if global_of(v, a).contains(e) {
            let k = choose|k: int| contributes(v, a, k, e);
            assert(contributes(w, b, k, e));
        }
    }
    assert(global_of(w, b) =~= global_of(v, a));
}

/// An update keeps the store well formed, and leaves every layer that it
/// reached clean, with its symbols in the order that resolving gives.
pub proof fn lemma_update_keeps_wf(v: StoreView, from: LayerId, w: StoreView)
    requires
        store_wf(v),
        updated(v, from, w),
    ensures
        store_wf(w),
        forall|x: LayerId|
            live(v, x) && reachable(v, from, x) ==> {
                &&& live(w, x)
                &&& !(#[trigger] layer_at(w, x)).dirty
                &&& !layer_at(w, x).children_dirty
                &&& layer_at(w, x).sorted == layer_at(w, x).draw_order(
                    global_of(w, layer_at(w, x)),
                )
            },
{
    assert forall|x: LayerId| #[trigger] live(w, x) == live(v, x) by {
        if x.0 < v.len() {
            assert(w[x.0 as int] == updated_slot(v, from, x.0 as int));
            assert(w[x.0 as int] is Some == v[x.0 as int] is Some);
        }
    }
    assert forall|x: LayerId| live(v, x) implies {
        &&& (#[trigger] layer_at(w, x)).parents == layer_at(v, x).parents
        &&& layer_at(w, x).slots == layer_at(v, x).slots
        &&& layer_at(w, x).global_order == layer_at(v, x).global_order
        &&& layer_at(w, x).id == layer_at(v, x).id
        &&& layer_at(w, x).elements == layer_at(v, x).elements
        &&& layer_at(w, x).shapes == layer_at(v, x).shapes
        &&& layer_at(w, x).local_order == layer_at(v, x).local_order
    } by {
        assert(layer_at(v, x).id == x);
        assert(w[x.0 as int] == updated_slot(v, from, x.0 as int));
    }
    assert forall|p: LayerId, c: LayerId|
        live(w, p) && #[trigger] layer_at(w, p).slots.contains(Some(c)) implies live(w, c)
        && layer_at(w, c).parents.contains(p) by {
        assert(live(v, p));
        assert(layer_at(v, p).slots.contains(Some(c)));
        assert(live(v, c));
        assert(layer_at(w, c).parents == layer_at(v, c).parents);
    }
    assert forall|c: LayerId, p: LayerId|
        live(w, c) && #[trigger] layer_at(w, c).parents.contains(p) implies live(w, p)
        && layer_at(w, p).slots.contains(Some(c)) by {
        assert(live(v, c));
        assert(layer_at(v, c).parents.contains(p));
        assert(live(v, p));
        assert(layer_at(w, p).slots == layer_at(v, p).slots);
    }
    assert forall|i: int| 0 <= i < w.len() implies (#[trigger] w[i] matches Some(layer)
        ==> layer.wf() && layer.id.0 == i && !layer.parents.contains(layer.id) && settled(
        w,
        layer,
    )) by {
        if w[i] is Some {
            assert(w[i] == updated_slot(v, from, i));
            assert(v[i] is Some);
            let x = (v[i]->0).id;
            assert(x.0 == i);
            assert(live(w, x) == live(v, x));
            let a = layer_at(v, x);
            let b = layer_at(w, x);
            assert(a.wf() && a.id.0 == i && settled(v, a));
            assert(b.parents == a.parents);
            assert forall|k: int| 0 <= k < a.parents.len() implies {
                &&& live(w, #[trigger] a.parents[k]) == live(v, a.parents[k])
                &&& live(v, a.parents[k]) ==> layer_at(w, a.parents[k]).global_order == layer_at(
                    v,
                    a.parents[k],
                ).global_order
            } by {
                let q = a.parents[k];
                assert(live(w, q) == live(v, q));
            }
            lemma_global_of_carries(v, w, a, b);
            assert(b.static_order() =~= a.static_order());
            if reachable(v, from, x) {
                assert(b == refreshed(v, a));
                if !needs_sorting(v, a) {
                    assert(a.sorted == a.draw_order(global_of(v, a)));
                }
                assert(b.sorted == b.draw_order(global_of(w, b)));
            } else {
                assert(b == a);
                if !a.dirty {
                    if forced(v, a) {
                        let k = choose|k: int| forces(v, a, k);
                        let q = a.parents[k];
                        assert(a.parents.contains(q));
                        assert(is_child(v, q, x));
                        if reachable(v, from, q) {
                            lemma_reaches_child(v, from, q, x);
                        }
                        assert(w[q.0 as int] == v[q.0 as int]);
                        assert(forces(w, b, k));
                    }
                }
            }
        }
    }
    assert forall|x: LayerId| live(v, x) && reachable(v, from, x) implies {
        &&& live(w, x)
        &&& !(#[trigger] layer_at(w, x)).dirty
        &&& !layer_at(w, x).children_dirty
        &&& layer_at(w, x).sorted == layer_at(w, x).draw_order(global_of(w, layer_at(w, x)))
    } by {
        let i = x.0 as int;
        let a = layer_at(v, x);
        let b = layer_at(w, x);
        assert(live(w, x) == live(v, x));
        assert(a.id == x);
        assert(w[i] == updated_slot(v, from, i));
        assert(w[i] == Some(refreshed(v, a)));
        assert(settled(v, a));
        assert forall|k: int| 0 <= k < a.parents.len() implies {
            &&& live(w, #[trigger] a.parents[k]) == live(v, a.parents[k])
            &&& live(v, a.parents[k]) ==> layer_at(w, a.parents[k]).global_order == layer_at(
                v,
                a.parents[k],
            ).global_order
        } by {
            let q = a.parents[k];
            assert(live(w, q) == live(v, q));
        }
        lemma_global_of_carries(v, w, a, b);
        assert(b.static_order() =~= a.static_order());
    }
}

/// The store `v` after the layer `child` took the slot `i` in the group of
/// the layer `parent`.
pub open spec fn adopted(v: StoreView, parent: LayerId, child: LayerId, i: int) -> StoreView {
    let group = layer_at(v, parent);
    let layer = layer_at(v, child);
    with_layer(
        with_layer(
            v,
            parent,
            LayerView { slots: fill(group.slots, i, child), vacant: rest_of(group.vacant), ..group },
        ),
        child,
        LayerView { parents: layer.parents.push(parent), dirty: true, ..layer },
    )
}

/// The store `v` after the layer `child`, which names `parent` as its
/// `k`-th parent, left the group of `parent`.
pub open spec fn released(v: StoreView, parent: LayerId, child: LayerId, k: int) -> StoreView {
    let group = layer_at(v, parent);
    let layer = layer_at(v, child);
    with_layer(
        with_layer(
            v,
            parent,
            LayerView {
                slots: vacated(group.slots, child),
                vacant: freed(group.slots, group.vacant, child),
                ..group
            },
        ),
        child,
        LayerView { parents: layer.parents.remove(k), dirty: true, ..layer },
    )
}

/// The layers of `ids` that a group of `parent` takes in, in the order in
/// which they are first named: those that exist and are not `parent` itself.
pub open spec fn accepted(v: StoreView, parent: LayerId, ids: Seq<LayerId>) -> Seq<LayerId>
    decreases ids.len(),
{
    if ids.len() == 0 {
        Seq::empty()
    } else {
        let front = accepted(v, parent, ids.drop_last());
        let id = ids.last();
        if live(v, id) && id != parent && !front.contains(id) {
            front.push(id)
        } else {
            front
        }
    }
}

/// At least `n` slots, the first of them filled with `ids` in their order
/// and the others vacant.
pub open spec fn packed(ids: Seq<LayerId>, n: nat) -> Seq<Option<LayerId>> {
    Seq::new(
        if ids.len() > n {
            ids.len()
        } else {
            n
        },
        |i: int|
            if i < ids.len() {
                Some(ids[i])
            } else {
                None
            },
    )
}

/// The slots with the slots of all of `gone` vacant.
pub open spec fn vacated_all(slots: Seq<Option<LayerId>>, gone: Seq<LayerId>) -> Seq<
    Option<LayerId>,
> {
    Seq::new(
        slots.len(),
        |i: int|
            if slots[i] is Some && gone.contains(slots[i]->0) {
                None
            } else {
                slots[i]
            },
    )
}

/// The layers that fill packed slots are the layers that were packed.
pub proof fn lemma_filled_packed(ids: Seq<LayerId>, n: nat)
    ensures
        filled(packed(ids, n)) == ids,
    decreases packed(ids, n).len(),
{
    let slots = packed(ids, n);
    if slots.len() > 0 {
        if n > ids.len() {
            assert(slots.drop_last() =~= packed(ids, (n - 1) as nat));
            lemma_filled_packed(ids, (n - 1) as nat);
        } else {
            let fewer = (ids.len() - 1) as nat;
            assert(slots.drop_last() =~= packed(ids.drop_last(), fewer));
            lemma_filled_packed(ids.drop_last(), fewer);
            assert(ids =~= ids.drop_last().push(ids.last()));
        }
    } else {
        assert(ids =~= Seq::<LayerId>::empty());
    }
}

/// Taking a layer into packed slots, none of them vacant, keeps them
/// packed.
pub proof fn lemma_fill_packed(ids: Seq<LayerId>, id: LayerId, i: int)
    requires
        is_next_slot(packed(ids, 0), Seq::empty(), i),
    ensures
        i == ids.len(),
        fill(packed(ids, 0), i, id) == packed(ids.push(id), 0),
{
    assert(fill(packed(ids, 0), i, id) =~= packed(ids.push(id), 0));
}

/// Which layers a group takes in.
pub proof fn lemma_accepted_contains(v: StoreView, parent: LayerId, ids: Seq<LayerId>, c: LayerId)
    ensures
        accepted(v, parent, ids).contains(c) <==> (ids.contains(c) && live(v, c) && c != parent),
    decreases ids.len(),
{
    if ids.len() > 0 {
        let front_ids = ids.drop_last();
        let front = accepted(v, parent, front_ids);
        let id = ids.last();
        lemma_accepted_contains(v, parent, front_ids, c);
        lemma_accepted_contains(v, parent, front_ids, id);
        let all = accepted(v, parent, ids);
        if front_ids.contains(c) {
            let k = choose|k: int| 0 <= k < front_ids.len() && front_ids[k] == c;
            assert(ids[k] == c);
        }
        if ids.contains(c) {
            let k = choose|k: int| 0 <= k < ids.len() && ids[k] == c;
            if k < ids.len() - 1 {
                assert(front_ids[k] == c);
            }
        }
        if front.contains(c) {
            let k = choose|k: int| 0 <= k < front.len() && front[k] == c;
            assert(all[k] == c);
        }
        if all.contains(c) {
            let k = choose|k: int| 0 <= k < all.len() && all[k] == c;
            if k < front.len() {
                assert(front[k] == c);
            }
        }
        if live(v, id) && id != parent && !front.contains(id) {
            assert(all[front.len() as int] == id);
        }
        assert(ids[ids.len() - 1] == id);
    }
}

/// Which layers a group takes in rests on which layers exist alone.
pub proof fn lemma_accepted_same(v: StoreView, w: StoreView, parent: LayerId, ids: Seq<LayerId>)
    requires
        forall|id: LayerId| #[trigger] live(v, id) == live(w, id),
    ensures
        accepted(v, parent, ids) == accepted(w, parent, ids),
    decreases ids.len(),
{
    if ids.len() > 0 {
        lemma_accepted_same(v, w, parent, ids.drop_last());
        assert(live(v, ids.last()) == live(w, ids.last()));
    }
}

/// A layer without elements keeps the order that resolving gives: none.
pub proof fn lemma_empty_layer_settled(v: StoreView, layer: LayerView)
    requires
        layer.elements == Set::<LayerItem>::empty(),
        layer.sorted == Seq::<SymbolId>::empty(),
    ensures
        settled(v, layer),
{
    let edges = layer.combined_order(global_of(v, layer));
    lemma_resolve_empty(edges, layer.elements);
}

} // verus!
