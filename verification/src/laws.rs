//! Laws of layers and their store: what holds across several operations.

use crate::item::{LayerId, LayerItem, ShapeSystemId, SymbolId};
use crate::layer::{symbol_of_item, symbols_of, LayerView, ShapeRecord};
use crate::order::{lemma_resolve_is_permutation, resolve_order, Edge};
use crate::reach::{lemma_reaches_child, lemma_reaches_itself};
use crate::store_view::{
    claimed, destroyed, global_of, is_child, layer_at, lemma_update_keeps_wf,
    lemma_without_symbol_not_held, live, shares_group, store_wf, updated, StoreView,
};
use vstd::prelude::*;

verus! {

/// Inserting an edge twice adds it once, so that the second insertion finds
/// it there; and an edge that was removed, or never was there, is not there to
/// be removed.
pub proof fn lemma_edges_are_idempotent(edges: Set<Edge>, e: Edge)
    ensures
        edges.insert(e).contains(e),
        edges.insert(e).insert(e) == edges.insert(e),
        !edges.remove(e).contains(e),
        !edges.contains(e) ==> edges.remove(e) == edges,
{
    assert(edges.insert(e).insert(e) =~= edges.insert(e));
    if !edges.contains(e) {
        assert(edges.remove(e) =~= edges);
    }
}

/// A symbol is among the symbols of an order exactly when an item of the
/// order is drawn under it.
pub proof fn lemma_symbols_of_contains(
    shapes: Map<ShapeSystemId, ShapeRecord>,
    order: Seq<LayerItem>,
    symbol: SymbolId,
)
    ensures
        symbols_of(shapes, order).contains(symbol) <==> exists|i: int|
            0 <= i < order.len() && symbol_of_item(shapes, #[trigger] order[i]) == Some(symbol),
    decreases order.len(),
{
    if order.len() > 0 {
        let front = order.drop_last();
        let some = symbols_of(shapes, front);
        let all = symbols_of(shapes, order);
        lemma_symbols_of_contains(shapes, front, symbol);
        if all.contains(symbol) {
            let k = choose|k: int| 0 <= k < all.len() && all[k] == symbol;
            if k < some.len() {
                assert(some[k] == symbol);
                assert(some.contains(symbol));
                let i = choose|i: int|
                    0 <= i < front.len() && symbol_of_item(shapes, #[trigger] front[i]) == Some(
                        symbol,
                    );
                assert(order[i] == front[i]);
            } else {
                assert(symbol_of_item(shapes, order[order.len() - 1]) == Some(symbol));
            }
        }
        if exists|i: int|
            0 <= i < order.len() && symbol_of_item(shapes, #[trigger] order[i]) == Some(symbol) {
            let i = choose|i: int|
                0 <= i < order.len() && symbol_of_item(shapes, #[trigger] order[i]) == Some(symbol);
            if i < order.len() - 1 {
                assert(front[i] == order[i]);
                assert(some.contains(symbol));
                let k = choose|k: int| 0 <= k < some.len() && some[k] == symbol;
                assert(all[k] == symbol);
            } else {
                assert(all[some.len() as int] == symbol);
            }
        }
    }
}

/// Whatever the dependencies are, the resolved symbols of a layer are the
/// symbols that the layer draws: none is lost and none is made up.
pub proof fn lemma_draw_order_symbols(layer: LayerView, global: Set<Edge>, symbol: SymbolId)
    requires
        layer.wf(),
    ensures
        layer.draw_order(global).contains(symbol) <==> layer.holds_symbol(symbol),
{
    let edges = layer.combined_order(global);
    let order = resolve_order(edges, layer.elements);
    lemma_resolve_is_permutation(edges, layer.elements);
    lemma_symbols_of_contains(layer.shapes, order, symbol);
    if layer.draw_order(global).contains(symbol) {
        let i = choose|i: int|
            0 <= i < order.len() && symbol_of_item(layer.shapes, #[trigger] order[i]) == Some(
                symbol,
            );
        assert(order.to_set().contains(order[i]));
        match order[i] {
            LayerItem::Symbol(s) => {},
            LayerItem::ShapeSystem(id) => {
                assert(layer.shapes_of_symbol(symbol).contains(id));
            },
        }
    }
    if layer.holds_symbol(symbol) {
        let item = if layer.elements.contains(LayerItem::Symbol(symbol)) {
            LayerItem::Symbol(symbol)
        } else {
            LayerItem::ShapeSystem(
                choose|id: ShapeSystemId| layer.shapes_of_symbol(symbol).contains(id),
            )
        };
        assert(layer.elements.contains(item));
        assert(order.to_set().contains(item));
        let i = choose|i: int| 0 <= i < order.len() && order[i] == item;
        assert(symbol_of_item(layer.shapes, order[i]) == Some(symbol));
    }
}

/// Exclusive placement: after the layer `taker` claimed `symbol` and the
/// group was updated, the symbols of `taker` hold the symbol and those of
/// every other layer of the group do not.
pub proof fn lemma_exclusive_placement(
    v: StoreView,
    group: LayerId,
    other: LayerId,
    taker: LayerId,
    symbol: SymbolId,
    claimed_store: StoreView,
    updated_store: StoreView,
)
    requires
        store_wf(v),
        is_child(v, group, other),
        is_child(v, group, taker),
        other != taker,
        claimed(v, taker, symbol, claimed_store),
        store_wf(claimed_store),
        updated(claimed_store, group, updated_store),
    ensures
        !layer_at(updated_store, other).sorted.contains(symbol),
        layer_at(updated_store, taker).sorted.contains(symbol),
{
    let u = claimed_store;
    let w = updated_store;
    assert(layer_at(v, group).slots.contains(Some(other)));
    assert(layer_at(v, group).slots.contains(Some(taker)));
    assert(live(v, other) && live(v, taker));
    assert(shares_group(v, taker, other));
    lemma_without_symbol_not_held(layer_at(v, other), symbol);
    let left = layer_at(u, other);
    let taken = layer_at(u, taker);
    assert(!left.holds_symbol(symbol));
    assert(taken.holds_symbol(symbol));
    assert(live(u, group) == live(v, group));
    assert(layer_at(u, group).slots == layer_at(v, group).slots) by {
        crate::store_view::lemma_without_symbol_keeps_links(layer_at(v, group), symbol);
    }
    assert(is_child(u, group, other) && is_child(u, group, taker));
    lemma_reaches_itself(u, group);
    lemma_reaches_child(u, group, group, other);
    lemma_reaches_child(u, group, group, taker);
    lemma_update_keeps_wf(u, group, w);
    assert(live(u, other) && live(u, taker));
    let left_now = layer_at(w, other);
    let taken_now = layer_at(w, taker);
    assert(left.id == other && taken.id == taker);
    assert(w[other.0 as int] == crate::store_view::updated_slot(u, group, other.0 as int));
    assert(w[taker.0 as int] == crate::store_view::updated_slot(u, group, taker.0 as int));
    assert(left_now.elements == left.elements && left_now.shapes == left.shapes);
    assert(taken_now.elements == taken.elements && taken_now.shapes == taken.shapes);
    assert(left_now.holds_symbol(symbol) == left.holds_symbol(symbol)) by {
        assert(left_now.shapes_of_symbol(symbol) =~= left.shapes_of_symbol(symbol));
    }
    assert(taken_now.holds_symbol(symbol));
    lemma_draw_order_symbols(left_now, global_of(w, left_now), symbol);
    lemma_draw_order_symbols(taken_now, global_of(w, taken_now), symbol);
}

/// Destruction cleanup: once a layer is destroyed it is gone, and no group
/// lists it, so that no placement of a symbol names it and no lookup among
/// the children of a group finds it.
pub proof fn lemma_destroyed_layer_is_unlisted(
    v: StoreView,
    id: LayerId,
    w: StoreView,
    group: LayerId,
)
    requires
        destroyed(v, id, w),
    ensures
        !live(w, id),
        !is_child(w, group, id),
        !is_child(w, id, group),
{
}

/// Dirty coalescing: resolving leaves a layer clean, so that a layer that
/// was edited any number of times is resolved once by the next update, and
/// resolving it again would change nothing.
pub proof fn lemma_edits_coalesce(layer: LayerView, global: Set<Edge>)
    ensures
        !layer.resolved(global).dirty,
        layer.resolved(global).resolved(global) == layer.resolved(global),
{
    let once = layer.resolved(global);
    assert(once.static_order() =~= layer.static_order());
}

} // verus!
