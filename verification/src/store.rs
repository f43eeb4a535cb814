//! The layers of a scene and the groups that they form.
//!
//! The store owns every layer. A layer is named by its identifier, which is
//! the position of its slot and is never handed out twice. Every layer has a
//! group of its own, whose children it lists, and knows the groups that it is
//! registered in. Destroying a layer vacates its slot and strikes the layer
//! from every group, so that no group ever lists a layer that is gone.

use crate::dependency_graph::DependencyGraph;
use crate::item::{LayerId, LayerItem, ShapeSystemId, SymbolId};
use crate::layer::{
    fill, filled, is_next_slot, lemma_filled_contains, shape_edges, struck_from, vacated,
    CameraId, LayerModel, LayerView, ShapeRecord,
};
use crate::order::Edge;
use crate::reach::{mark_reachable, reachable};
use crate::seq_facts::lemma_take_next_contains;
use crate::shape_system::{
    instantiated, Instantiation, ShapeSystemInfo, ShapeSystemRegistry, ShapeSystemSymbolInfo,
};
use crate::store_view::{
    accepted, adopted, claimed, group_of, group_without, contributes, destroyed, evicted, forced, forces, global_of,
    global_upto, in_groups, is_child, is_edit, layer_at, lemma_accepted_contains,
    lemma_accepted_same,
    lemma_edit_keeps_wf, lemma_empty_layer_settled, lemma_evicted_one_more, lemma_fill_packed,
    lemma_filled_packed, lemma_global_of_carries, lemma_relinked_chain, lemma_settled_carries,
    lemma_update_keeps_wf, lemma_without_symbol_twice, live,
    needs_sorting, packed, released, relinked, same_but_links, settled, shares_group, store_wf,
    updated, updated_slot, vacated_all, with_layer, StoreView,
};
use vstd::prelude::*;

verus! {

/// The layers of a scene.
pub struct LayerStore {
    layers: Vec<Option<LayerModel>>,
}

impl View for LayerStore {
    type V = StoreView;

    closed spec fn view(&self) -> StoreView {
        Seq::new(
            self.layers@.len(),
            |i: int|
                match self.layers@[i] {
                    Some(layer) => Some(layer@),
                    None => None,
                },
        )
    }
}

impl LayerStore {
    /// Every layer of the store is well formed by itself.
    spec fn models_wf(&self) -> bool {
        forall|i: int|
            0 <= i < self.layers@.len() ==> (#[trigger] self.layers@[i] matches Some(layer)
                ==> layer.wf())
    }

    /// The store is well formed: its layers are, and together they obey what
    /// holds of every store.
    pub closed spec fn wf(&self) -> bool {
        self.models_wf() && store_wf(self@)
    }

    /// The registry of shape systems of the layer `id`.
    pub closed spec fn registry_of(&self, id: LayerId) -> ShapeSystemRegistry {
        self.layers@[id.0 as int]->0.registry()
    }

    /// A well-formed store has a well-formed state.
    pub proof fn lemma_wf_view(&self)
        requires
            self.wf(),
        ensures
            store_wf(self@),
    {
    }

    /// A store without layers.
    pub fn new() -> (store: LayerStore)
        ensures
            store.wf(),
            store@ == Seq::<Option<LayerView>>::empty(),
    {
        let store = LayerStore { layers: Vec::new() };
        assert(store@ =~= Seq::<Option<LayerView>>::empty());
        store
    }

    /// The number of slots: one for every layer that was ever created.
    pub fn slot_count(&self) -> (n: usize)
        ensures
            n == self@.len(),
    {
        self.layers.len()
    }

    /// Whether the layer `id` exists.
    pub fn is_live(&self, id: LayerId) -> (b: bool)
        ensures
            b == live(self@, id),
    {
        id.0 < self.layers.len() && self.layers[id.0].is_some()
    }

    /// The layer `id`, or nothing where the layer was destroyed or never
    /// existed.
    pub fn get(&self, id: LayerId) -> (found: Option<&LayerModel>)
        requires
            self.wf(),
        ensures
            found is Some == live(self@, id),
            found matches Some(layer) ==> layer.wf() && layer@ == layer_at(self@, id),
    {
        if id.0 < self.layers.len() {
            self.layers[id.0].as_ref()
        } else {
            None
        }
    }

    /// Creates a layer without elements, parents or children, seen through
    /// `camera`. Returns its identifier, which no layer had before.
    pub fn create_layer(&mut self, camera: CameraId) -> (id: LayerId)
        requires
            old(self).wf(),
        ensures
            final(self).wf(),
            id.0 == old(self)@.len(),
            !live(old(self)@, id),
            final(self)@ == old(self)@.push(
                Some(
                    LayerView {
                        id,
                        camera,
                        elements: Set::empty(),
                        shapes: Map::empty(),
                        local_order: Set::empty(),
                        dirty: false,
                        sorted: Seq::empty(),
                        parents: Seq::empty(),
                        global_order: Set::empty(),
                        slots: Seq::empty(),
                        vacant: Seq::empty(),
                        children_dirty: false,
                        mask: None,
                    },
                ),
            ),
    {
        let id = LayerId(self.layers.len());
        let layer = LayerModel::new(id, camera);
        let ghost before = self@;
        let ghost fresh = layer@;
        proof {
            layer.lemma_wf_view();
        }
        self.layers.push(Some(layer));
        proof {
            let after = self@;
            assert(after =~= before.push(Some(fresh)));
            assert forall|i: int| 0 <= i < after.len() implies (#[trigger] after[i] matches Some(
                l,
            ) ==> settled(after, l)) by {
                if i < before.len() && after[i] is Some {
                    let l = after[i]->0;
                    assert(before[i] == after[i]);
                    assert(settled(before, l));
                    if !l.dirty {
                        if forced(before, l) {
                            let k = choose|k: int| forces(before, l, k);
                            assert(forces(after, l, k));
                        } else {
                            assert forall|e: Edge| global_of(after, l).contains(e)
                                <==> global_of(before, l).contains(e) by {
                                if global_of(after, l).contains(e) {
                                    let k = choose|k: int| contributes(after, l, k, e);
                                    assert(l.parents[k] != id);
                                    assert(contributes(before, l, k, e));
                                }
                                if global_of(before, l).contains(e) {
                                    let k = choose|k: int| contributes(before, l, k, e);
                                    assert(contributes(after, l, k, e));
                                }
                            }
                            assert(global_of(after, l) =~= global_of(before, l));
                        }
                    }
                } else if i == before.len() {
                    lemma_empty_layer_settled(after, fresh);
                }
            }
            assert forall|p: LayerId, c: LayerId|
                live(after, p) && #[trigger] layer_at(after, p).slots.contains(
                    Some(c),
                ) implies live(after, c) && layer_at(after, c).parents.contains(p) by {
                if p != id {
                    assert(layer_at(before, p).slots.contains(Some(c)));
                }
            }
            assert forall|c: LayerId, p: LayerId|
                live(after, c) && #[trigger] layer_at(after, c).parents.contains(p) implies live(
                    after,
                    p,
                ) && layer_at(after, p).slots.contains(Some(c)) by {
                if c != id {
                    assert(layer_at(before, c).parents.contains(p));
                }
            }
        }
        id
    }

    /// After one layer was edited in place, the store is well formed and
    /// differs from what it was in that layer alone.
    proof fn lemma_edited(&self, before: LayerStore, id: LayerId)
        requires
            before.wf(),
            live(before@, id),
            self.layers@.len() == before.layers@.len(),
            forall|j: int|
                0 <= j < self.layers@.len() && j != id.0 ==> self.layers@[j] == before.layers@[j],
            self.layers@[id.0 as int] matches Some(layer) && layer.wf() && is_edit(
                layer_at(before@, id),
                layer@,
            ),
        ensures
            self.wf(),
            self@ == with_layer(before@, id, self.layers@[id.0 as int]->0@),
    {
        let layer = self.layers@[id.0 as int]->0;
        layer.lemma_wf_view();
        assert(self@ =~= with_layer(before@, id, layer@));
        lemma_edit_keeps_wf(before@, id, layer@);
        assert forall|i: int| 0 <= i < self.layers@.len() implies (
        #[trigger] self.layers@[i] matches Some(l) ==> l.wf()) by {
            if i != id.0 {
                assert(self.layers@[i] == before.layers@[i]);
            }
        }
    }

    /// Adds the bare symbol `symbol_id` to the layer `id`. Returns whether
    /// the layer exists; nothing changes where it does not.
    pub fn add_symbol(&mut self, id: LayerId, symbol_id: SymbolId) -> (done: bool)
        requires
            old(self).wf(),
        ensures
            final(self).wf(),
            done == live(old(self)@, id),
            done ==> final(self)@ == with_layer(
                old(self)@,
                id,
                layer_at(old(self)@, id).with_symbol(symbol_id),
            ),
            !done ==> final(self)@ == old(self)@,
    {
        if !self.is_live(id) {
            return false;
        }
        let ghost before = *self;
        match &mut self.layers[id.0] {
            Some(layer) => {
                layer.add_symbol(symbol_id);
            },
            None => {},
        }
        proof {
            self.lemma_edited(before, id);
        }
        true
    }

    /// Adds a shape to the layer `id`: the shape system of the shape becomes an
    /// element of the layer, drawn under `symbol_id`. Returns whether the layer
    /// exists; nothing changes where it does not.
    pub fn add_shape(&mut self, id: LayerId, shape_system_info: ShapeSystemInfo, symbol_id: SymbolId) -> (done: bool)
        requires
            old(self).wf(),
        ensures
            final(self).wf(),
            done == live(old(self)@, id),
            done ==> final(self)@ == with_layer(
                old(self)@,
                id,
                layer_at(old(self)@, id).with_shape(
                    shape_system_info.id,
                    ShapeRecord {
                        symbol: symbol_id,
                        above: shape_system_info.ordering.above@,
                        below: shape_system_info.ordering.below@,
                    },
                ),
            ),
            !done ==> final(self)@ == old(self)@,
    {
        if !self.is_live(id) {
            return false;
        }
        let ghost before = *self;
        match &mut self.layers[id.0] {
            Some(layer) => {
                layer.add_shape(shape_system_info, symbol_id);
            },
            None => {},
        }
        proof {
            self.lemma_edited(before, id);
        }
        true
    }

    /// Removes `symbol_id` from the layer `id`, as a bare symbol and together
    /// with the shape system that draws under it. Returns whether the layer
    /// exists; nothing changes where it does not.
    pub fn remove_symbol(&mut self, id: LayerId, symbol_id: SymbolId) -> (done: bool)
        requires
            old(self).wf(),
        ensures
            final(self).wf(),
            done == live(old(self)@, id),
            done ==> final(self)@ == with_layer(
                old(self)@,
                id,
                layer_at(old(self)@, id).without_symbol(symbol_id),
            ),
            !done ==> final(self)@ == old(self)@,
    {
        if !self.is_live(id) {
            return false;
        }
        let ghost before = *self;
        match &mut self.layers[id.0] {
            Some(layer) => {
                layer.remove_symbol(symbol_id);
            },
            None => {},
        }
        proof {
            self.lemma_edited(before, id);
        }
        true
    }

    /// Replaces the camera of the layer `id`. Returns whether the layer exists.
    pub fn set_camera(&mut self, id: LayerId, camera: CameraId) -> (done: bool)
        requires
            old(self).wf(),
        ensures
            final(self).wf(),
            done == live(old(self)@, id),
            done ==> final(self)@ == with_layer(
                old(self)@,
                id,
                LayerView { camera, ..layer_at(old(self)@, id) },
            ),
            !done ==> final(self)@ == old(self)@,
    {
        if !self.is_live(id) {
            return false;
        }
        let ghost before = *self;
        match &mut self.layers[id.0] {
            Some(layer) => {
                layer.set_camera(camera);
            },
            None => {},
        }
        proof {
            self.lemma_edited(before, id);
        }
        true
    }

    /// Makes `mask` the mask of the layer `id`. Returns whether the layer `id`
    /// exists; the mask itself need not.
    pub fn set_mask(&mut self, id: LayerId, mask: LayerId) -> (done: bool)
        requires
            old(self).wf(),
        ensures
            final(self).wf(),
            done == live(old(self)@, id),
            done ==> final(self)@ == with_layer(
                old(self)@,
                id,
                LayerView { mask: Some(mask), ..layer_at(old(self)@, id) },
            ),
            !done ==> final(self)@ == old(self)@,
    {
        if !self.is_live(id) {
            return false;
        }
        let ghost before = *self;
        match &mut self.layers[id.0] {
            Some(layer) => {
                layer.set_mask(mask);
            },
            None => {},
        }
        proof {
            self.lemma_edited(before, id);
        }
        true
    }

    /// Adds a dependency between two elements that holds in the layer `id`.
    /// Returns whether the dependency is new; a layer that does not exist
    /// takes none.
    pub fn add_elements_order_dependency(&mut self, id: LayerId, below: LayerItem, above: LayerItem) -> (fresh: bool)
        requires
            old(self).wf(),
        ensures
            final(self).wf(),
            fresh == (live(old(self)@, id) && !layer_at(old(self)@, id).local_order.contains((below, above))),
            live(old(self)@, id) ==> final(self)@ == with_layer(
                old(self)@,
                id,
                LayerView {
                    local_order: layer_at(old(self)@, id).local_order.insert((below, above)),
                    dirty: layer_at(old(self)@, id).dirty || fresh,
                    ..layer_at(old(self)@, id)
                },
            ),
            !live(old(self)@, id) ==> final(self)@ == old(self)@,
    {
        if !self.is_live(id) {
            return false;
        }
        let ghost before = *self;
        let ghost was = layer_at(self@, id);
        let mut fresh = false;
        match &mut self.layers[id.0] {
            Some(layer) => {
                fresh = layer.add_elements_order_dependency(below, above);
            },
            None => {},
        }
        proof {
            if !fresh {
                assert(was.local_order.insert((below, above)) =~= was.local_order);
            }
            self.lemma_edited(before, id);
        }
        fresh
    }

    /// Removes a dependency between two elements that holds in the layer `id`.
    /// Returns whether the dependency was there.
    pub fn remove_elements_order_dependency(&mut self, id: LayerId, below: LayerItem, above: LayerItem) -> (found: bool)
        requires
            old(self).wf(),
        ensures
            final(self).wf(),
            found == (live(old(self)@, id) && layer_at(old(self)@, id).local_order.contains((below, above))),
            live(old(self)@, id) ==> final(self)@ == with_layer(
                old(self)@,
                id,
                LayerView {
                    local_order: layer_at(old(self)@, id).local_order.remove((below, above)),
                    dirty: layer_at(old(self)@, id).dirty || found,
                    ..layer_at(old(self)@, id)
                },
            ),
            !live(old(self)@, id) ==> final(self)@ == old(self)@,
    {
        if !self.is_live(id) {
            return false;
        }
        let ghost before = *self;
        let ghost was = layer_at(self@, id);
        let mut found = false;
        match &mut self.layers[id.0] {
            Some(layer) => {
                found = layer.remove_elements_order_dependency(below, above);
            },
            None => {},
        }
        proof {
            if !found {
                assert(was.local_order.remove((below, above)) =~= was.local_order);
            }
            self.lemma_edited(before, id);
        }
        found
    }

    /// Adds a dependency between two kinds of shapes that holds in the layer `id`.
    /// Returns whether the dependency is new; a layer that does not exist
    /// takes none.
    pub fn add_shapes_order_dependency(&mut self, id: LayerId, below: ShapeSystemId, above: ShapeSystemId) -> (fresh: bool)
        requires
            old(self).wf(),
        ensures
            final(self).wf(),
            fresh == (live(old(self)@, id) && !layer_at(old(self)@, id).local_order.contains((LayerItem::ShapeSystem(below), LayerItem::ShapeSystem(above)))),
            live(old(self)@, id) ==> final(self)@ == with_layer(
                old(self)@,
                id,
                LayerView {
                    local_order: layer_at(old(self)@, id).local_order.insert((LayerItem::ShapeSystem(below), LayerItem::ShapeSystem(above))),
                    dirty: layer_at(old(self)@, id).dirty || fresh,
                    ..layer_at(old(self)@, id)
                },
            ),
            !live(old(self)@, id) ==> final(self)@ == old(self)@,
    {
        if !self.is_live(id) {
            return false;
        }
        let ghost before = *self;
        let ghost was = layer_at(self@, id);
        let mut fresh = false;
        match &mut self.layers[id.0] {
            Some(layer) => {
                fresh = layer.add_shapes_order_dependency(below, above);
            },
            None => {},
        }
        proof {
            if !fresh {
                assert(was.local_order.insert((LayerItem::ShapeSystem(below), LayerItem::ShapeSystem(above))) =~= was.local_order);
            }
            self.lemma_edited(before, id);
        }
        fresh
    }

    /// Removes a dependency between two kinds of shapes that holds in the layer `id`.
    /// Returns whether the dependency was there.
    pub fn remove_shapes_order_dependency(&mut self, id: LayerId, below: ShapeSystemId, above: ShapeSystemId) -> (found: bool)
        requires
            old(self).wf(),
        ensures
            final(self).wf(),
            found == (live(old(self)@, id) && layer_at(old(self)@, id).local_order.contains((LayerItem::ShapeSystem(below), LayerItem::ShapeSystem(above)))),
            live(old(self)@, id) ==> final(self)@ == with_layer(
                old(self)@,
                id,
                LayerView {
                    local_order: layer_at(old(self)@, id).local_order.remove((LayerItem::ShapeSystem(below), LayerItem::ShapeSystem(above))),
                    dirty: layer_at(old(self)@, id).dirty || found,
                    ..layer_at(old(self)@, id)
                },
            ),
            !live(old(self)@, id) ==> final(self)@ == old(self)@,
    {
        if !self.is_live(id) {
            return false;
        }
        let ghost before = *self;
        let ghost was = layer_at(self@, id);
        let mut found = false;
        match &mut self.layers[id.0] {
            Some(layer) => {
                found = layer.remove_shapes_order_dependency(below, above);
            },
            None => {},
        }
        proof {
            if !found {
                assert(was.local_order.remove((LayerItem::ShapeSystem(below), LayerItem::ShapeSystem(above))) =~= was.local_order);
            }
            self.lemma_edited(before, id);
        }
        found
    }

    /// Adds a dependency between two elements that holds in every layer of the group of the layer `id`.
    /// Returns whether the dependency is new; a layer that does not exist
    /// takes none.
    pub fn add_global_elements_order_dependency(&mut self, id: LayerId, below: LayerItem, above: LayerItem) -> (fresh: bool)
        requires
            old(self).wf(),
        ensures
            final(self).wf(),
            fresh == (live(old(self)@, id) && !layer_at(old(self)@, id).global_order.contains((below, above))),
            live(old(self)@, id) ==> final(self)@ == with_layer(
                old(self)@,
                id,
                LayerView {
                    global_order: layer_at(old(self)@, id).global_order.insert((below, above)),
                    children_dirty: layer_at(old(self)@, id).children_dirty || fresh,
                    ..layer_at(old(self)@, id)
                },
            ),
            !live(old(self)@, id) ==> final(self)@ == old(self)@,
    {
        if !self.is_live(id) {
            return false;
        }
        let ghost before = *self;
        let ghost was = layer_at(self@, id);
        let mut fresh = false;
        match &mut self.layers[id.0] {
            Some(layer) => {
                fresh = layer.add_global_elements_order_dependency(below, above);
            },
            None => {},
        }
        proof {
            if !fresh {
                assert(was.global_order.insert((below, above)) =~= was.global_order);
            }
            self.lemma_edited(before, id);
        }
        fresh
    }

    /// Removes a dependency between two elements that holds in every layer of the group of the layer `id`.
    /// Returns whether the dependency was there.
    pub fn remove_global_elements_order_dependency(&mut self, id: LayerId, below: LayerItem, above: LayerItem) -> (found: bool)
        requires
            old(self).wf(),
        ensures
            final(self).wf(),
            found == (live(old(self)@, id) && layer_at(old(self)@, id).global_order.contains((below, above))),
            live(old(self)@, id) ==> final(self)@ == with_layer(
                old(self)@,
                id,
                LayerView {
                    global_order: layer_at(old(self)@, id).global_order.remove((below, above)),
                    children_dirty: layer_at(old(self)@, id).children_dirty || found,
                    ..layer_at(old(self)@, id)
                },
            ),
            !live(old(self)@, id) ==> final(self)@ == old(self)@,
    {
        if !self.is_live(id) {
            return false;
        }
        let ghost before = *self;
        let ghost was = layer_at(self@, id);
        let mut found = false;
        match &mut self.layers[id.0] {
            Some(layer) => {
                found = layer.remove_global_elements_order_dependency(below, above);
            },
            None => {},
        }
        proof {
            if !found {
                assert(was.global_order.remove((below, above)) =~= was.global_order);
            }
            self.lemma_edited(before, id);
        }
        found
    }

    /// Adds a dependency between two kinds of shapes that holds in every layer of the group of the layer `id`.
    /// Returns whether the dependency is new; a layer that does not exist
    /// takes none.
    pub fn add_global_shapes_order_dependency(&mut self, id: LayerId, below: ShapeSystemId, above: ShapeSystemId) -> (fresh: bool)
        requires
            old(self).wf(),
        ensures
            final(self).wf(),
            fresh == (live(old(self)@, id) && !layer_at(old(self)@, id).global_order.contains((LayerItem::ShapeSystem(below), LayerItem::ShapeSystem(above)))),
            live(old(self)@, id) ==> final(self)@ == with_layer(
                old(self)@,
                id,
                LayerView {
                    global_order: layer_at(old(self)@, id).global_order.insert((LayerItem::ShapeSystem(below), LayerItem::ShapeSystem(above))),
                    children_dirty: layer_at(old(self)@, id).children_dirty || fresh,
                    ..layer_at(old(self)@, id)
                },
            ),
            !live(old(self)@, id) ==> final(self)@ == old(self)@,
    {
        if !self.is_live(id) {
            return false;
        }
        let ghost before = *self;
        let ghost was = layer_at(self@, id);
        let mut fresh = false;
        match &mut self.layers[id.0] {
            Some(layer) => {
                fresh = layer.add_global_shapes_order_dependency(below, above);
            },
            None => {},
        }
        proof {
            if !fresh {
                assert(was.global_order.insert((LayerItem::ShapeSystem(below), LayerItem::ShapeSystem(above))) =~= was.global_order);
            }
            self.lemma_edited(before, id);
        }
        fresh
    }

    /// Removes a dependency between two kinds of shapes that holds in every layer of the group of the layer `id`.
    /// Returns whether the dependency was there.
    pub fn remove_global_shapes_order_dependency(&mut self, id: LayerId, below: ShapeSystemId, above: ShapeSystemId) -> (found: bool)
        requires
            old(self).wf(),
        ensures
            final(self).wf(),
            found == (live(old(self)@, id) && layer_at(old(self)@, id).global_order.contains((LayerItem::ShapeSystem(below), LayerItem::ShapeSystem(above)))),
            live(old(self)@, id) ==> final(self)@ == with_layer(
                old(self)@,
                id,
                LayerView {
                    global_order: layer_at(old(self)@, id).global_order.remove((LayerItem::ShapeSystem(below), LayerItem::ShapeSystem(above))),
                    children_dirty: layer_at(old(self)@, id).children_dirty || found,
                    ..layer_at(old(self)@, id)
                },
            ),
            !live(old(self)@, id) ==> final(self)@ == old(self)@,
    {
        if !self.is_live(id) {
            return false;
        }
        let ghost before = *self;
        let ghost was = layer_at(self@, id);
        let mut found = false;
        match &mut self.layers[id.0] {
            Some(layer) => {
                found = layer.remove_global_shapes_order_dependency(below, above);
            },
            None => {},
        }
        proof {
            if !found {
                assert(was.global_order.remove((LayerItem::ShapeSystem(below), LayerItem::ShapeSystem(above))) =~= was.global_order);
            }
            self.lemma_edited(before, id);
        }
        found
    }

    /// The layers are well formed by themselves if all but two are what they
    /// were and the two are well formed.
    proof fn lemma_models_after(&self, before: LayerStore, a: LayerId, b: LayerId)
        requires
            before.models_wf(),
            self.layers@.len() == before.layers@.len(),
            forall|j: int|
                0 <= j < self.layers@.len() && j != a.0 && j != b.0 ==> self.layers@[j]
                    == before.layers@[j],
            a.0 < self.layers@.len() ==> (self.layers@[a.0 as int] matches Some(layer)
                ==> layer.wf()),
            b.0 < self.layers@.len() ==> (self.layers@[b.0 as int] matches Some(layer)
                ==> layer.wf()),
        ensures
            self.models_wf(),
            forall|j: int|
                0 <= j < self.layers@.len() && j != a.0 && j != b.0 ==> self@[j] == before@[j],
            self@.len() == before@.len(),
    {
        assert forall|i: int| 0 <= i < self.layers@.len() implies (
        #[trigger] self.layers@[i] matches Some(l) ==> l.wf()) by {
            if i != a.0 && i != b.0 {
                assert(self.layers@[i] == before.layers@[i]);
            }
        }
    }

    /// Registers the layer `child` in the group of the layer `parent`.
    /// Returns whether it was registered: both layers have to exist, a layer
    /// is not registered in its own group, and not twice in one group. The
    /// child takes the slot of the group that was vacated last, or a new one,
    /// and turns dirty, since the dependencies of the group now bear on it.
    pub fn add_child(&mut self, parent: LayerId, child: LayerId) -> (fresh: bool)
        requires
            old(self).wf(),
        ensures
            final(self).wf(),
            fresh == (live(old(self)@, parent) && live(old(self)@, child) && parent != child
                && !is_child(old(self)@, parent, child)),
            relinked(old(self)@, final(self)@),
            forall|p: LayerId, c: LayerId|
                #[trigger] is_child(final(self)@, p, c) <==> (is_child(old(self)@, p, c) || (fresh
                    && p == parent && c == child)),
            forall|id: LayerId|
                live(old(self)@, id) ==> #[trigger] layer_at(final(self)@, id).dirty == (layer_at(
                    old(self)@,
                    id,
                ).dirty || (fresh && id == child)),
            !fresh ==> final(self)@ == old(self)@,
            fresh ==> exists|i: int|
                is_next_slot(
                    layer_at(old(self)@, parent).slots,
                    layer_at(old(self)@, parent).vacant,
                    i,
                ) && final(self)@ == adopted(
                    old(self)@,
                    parent,
                    child,
                    i,
                ),
    {
        if !self.is_live(parent) || !self.is_live(child) || parent.0 == child.0 {
            return false;
        }
        let ghost before = *self;
        let ghost v = self@;
        let mut fresh = false;
        match &mut self.layers[parent.0] {
            Some(layer) => {
                fresh = layer.insert_child(child);
            },
            None => {},
        }
        if fresh {
            match &mut self.layers[child.0] {
                Some(layer) => {
                    layer.add_parent(parent);
                },
                None => {},
            }
        }
        proof {
            self.lemma_models_after(before, parent, child);
            let w = self@;
            if fresh {
                let old_parent = layer_at(v, parent);
                let old_child = layer_at(v, child);
                let new_parent = layer_at(w, parent);
                let new_child = layer_at(w, child);
                self.layers@[parent.0 as int]->0.lemma_wf_view();
                self.layers@[child.0 as int]->0.lemma_wf_view();
                assert(!old_child.parents.contains(parent));
                assert(new_child.parents == old_child.parents.push(parent));
                let at = choose|i: int|
                    is_next_slot(old_parent.slots, old_parent.vacant, i) && new_parent.slots == fill(
                        old_parent.slots,
                        i,
                        child,
                    );
                assert(w =~= adopted(v, parent, child, at));
                assert(new_child.parents[old_child.parents.len() as int] == parent);
                assert forall|q: LayerId| new_child.parents.contains(q) <==> (
                old_child.parents.contains(q) || q == parent) by {
                    if new_child.parents.contains(q) {
                        let k = choose|k: int|
                            0 <= k < new_child.parents.len() && new_child.parents[k] == q;
                        if k < old_child.parents.len() {
                            assert(old_child.parents[k] == q);
                        }
                    }
                    if old_child.parents.contains(q) {
                        let k = choose|k: int|
                            0 <= k < old_child.parents.len() && old_child.parents[k] == q;
                        assert(new_child.parents[k] == q);
                    }
                }
                assert forall|p: LayerId, c: LayerId| #[trigger]
                    is_child(w, p, c) <==> (is_child(v, p, c) || (p == parent && c == child)) by {
                    if p != parent {
                        if live(v, p) {
                            assert(layer_at(w, p).slots == layer_at(v, p).slots);
                        }
                    }
                }
                assert forall|p: LayerId, c: LayerId|
                    live(w, p) && #[trigger] layer_at(w, p).slots.contains(
                        Some(c),
                    ) implies live(w, c) && layer_at(w, c).parents.contains(p) by {
                    assert(is_child(w, p, c));
                    if is_child(v, p, c) {
                        assert(layer_at(v, p).slots.contains(Some(c)));
                        assert(layer_at(v, c).parents.contains(p));
                    }
                }
                assert forall|c: LayerId, p: LayerId|
                    live(w, c) && #[trigger] layer_at(w, c).parents.contains(p) implies live(
                        w,
                        p,
                    ) && layer_at(w, p).slots.contains(Some(c)) by {
                    if !(c == child && p == parent) {
                        assert(layer_at(v, c).parents.contains(p));
                        assert(is_child(v, p, c));
                        assert(is_child(w, p, c));
                    }
                }
                assert forall|i: int| 0 <= i < w.len() implies (#[trigger] w[i] matches Some(
                    layer,
                ) ==> settled(w, layer)) by {
                    if w[i] is Some && i != child.0 {
                        let a = v[i]->0;
                        let b = w[i]->0;
                        assert(settled(v, a));
                        assert forall|k: int| 0 <= k < a.parents.len() implies {
                            &&& live(w, #[trigger] a.parents[k]) == live(v, a.parents[k])
                            &&& live(v, a.parents[k]) ==> {
                                &&& layer_at(w, a.parents[k]).global_order == layer_at(
                                    v,
                                    a.parents[k],
                                ).global_order
                                &&& layer_at(w, a.parents[k]).children_dirty == layer_at(
                                    v,
                                    a.parents[k],
                                ).children_dirty
                            }
                        } by {}
                        lemma_settled_carries(v, w, a, b);
                    }
                }
                assert forall|i: int| 0 <= i < w.len() implies (#[trigger] w[i] matches Some(
                    layer,
                ) ==> layer.wf() && layer.id.0 == i && !layer.parents.contains(layer.id)) by {
                    if w[i] is Some && i != child.0 && i != parent.0 {
                        assert(w[i] == v[i]);
                    }
                }
                assert forall|id: LayerId| live(v, id) implies same_but_links(
                    layer_at(v, id),
                    #[trigger] layer_at(w, id),
                ) by {
                    if id != parent && id != child {
                        assert(w[id.0 as int] == v[id.0 as int]);
                    }
                }
                assert(forall|id: LayerId| #[trigger] live(w, id) == live(v, id));
                assert forall|id: LayerId|
                    live(v, id) implies #[trigger] layer_at(w, id).dirty == (layer_at(
                    v,
                    id,
                ).dirty || id == child) by {
                    if id != parent && id != child {
                        assert(w[id.0 as int] == v[id.0 as int]);
                    }
                }
            } else {
                assert(w =~= v);
                assert(layer_at(v, parent).slots.contains(Some(child)));
            }
        }
        fresh
    }

    /// Strikes the layer `child` from the group of the layer `parent`.
    /// Returns whether it was registered there. The slot of the child falls
    /// vacant and the child turns dirty, since the dependencies of the group
    /// bear on it no longer.
    pub fn remove_child(&mut self, parent: LayerId, child: LayerId) -> (found: bool)
        requires
            old(self).wf(),
        ensures
            final(self).wf(),
            found == is_child(old(self)@, parent, child),
            relinked(old(self)@, final(self)@),
            forall|p: LayerId, c: LayerId|
                #[trigger] is_child(final(self)@, p, c) <==> (is_child(old(self)@, p, c) && !(p
                    == parent && c == child)),
            forall|id: LayerId|
                live(old(self)@, id) ==> #[trigger] layer_at(final(self)@, id).dirty == (layer_at(
                    old(self)@,
                    id,
                ).dirty || (found && id == child)),
            !found ==> final(self)@ == old(self)@,
            found ==> exists|k: int|
                0 <= k < layer_at(old(self)@, child).parents.len() && layer_at(
                    old(self)@,
                    child,
                ).parents[k] == parent && final(self)@ == released(old(self)@, parent, child, k),
    {
        if !self.is_live(parent) {
            return false;
        }
        let ghost before = *self;
        let ghost v = self@;
        proof {
            if is_child(v, parent, child) {
                assert(layer_at(v, parent).slots.contains(Some(child)));
                assert(live(v, child) && layer_at(v, child).parents.contains(parent));
                assert(v[child.0 as int] is Some);
            }
        }
        let mut found = false;
        match &mut self.layers[parent.0] {
            Some(layer) => {
                found = layer.remove_child(child);
            },
            None => {},
        }
        if found {
            match &mut self.layers[child.0] {
                Some(layer) => {
                    layer.remove_parent(parent);
                },
                None => {},
            }
        }
        proof {
            self.lemma_models_after(before, parent, child);
            let w = self@;
            if found {
                let old_child = layer_at(v, child);
                let new_child = layer_at(w, child);
                assert(parent != child);
                assert(old_child.parents.contains(parent));
                let at = choose|k: int|
                    0 <= k < old_child.parents.len() && old_child.parents[k] == parent
                        && new_child.parents == old_child.parents.remove(k);
                assert(w =~= released(v, parent, child, at));
                self.layers@[parent.0 as int]->0.lemma_wf_view();
                self.layers@[child.0 as int]->0.lemma_wf_view();
                assert forall|p: LayerId, c: LayerId| #[trigger]
                    is_child(w, p, c) <==> (is_child(v, p, c) && !(p == parent && c == child)) by {
                    if p != parent {
                        if live(v, p) {
                            assert(layer_at(w, p).slots == layer_at(v, p).slots);
                        }
                    }
                }
                assert forall|p: LayerId, c: LayerId|
                    live(w, p) && #[trigger] layer_at(w, p).slots.contains(
                        Some(c),
                    ) implies live(w, c) && layer_at(w, c).parents.contains(p) by {
                    assert(is_child(w, p, c));
                    assert(is_child(v, p, c));
                    assert(layer_at(v, p).slots.contains(Some(c)));
                    assert(layer_at(v, c).parents.contains(p));
                    if c != child {
                        assert(layer_at(w, c).parents == layer_at(v, c).parents);
                    }
                }
                assert forall|c: LayerId, p: LayerId|
                    live(w, c) && #[trigger] layer_at(w, c).parents.contains(p) implies live(
                        w,
                        p,
                    ) && layer_at(w, p).slots.contains(Some(c)) by {
                    if c != child {
                        assert(layer_at(w, c).parents == layer_at(v, c).parents);
                    }
                    assert(layer_at(v, c).parents.contains(p));
                    assert(is_child(v, p, c));
                    assert(is_child(w, p, c));
                }
                assert forall|i: int| 0 <= i < w.len() implies (#[trigger] w[i] matches Some(
                    layer,
                ) ==> settled(w, layer)) by {
                    if w[i] is Some && i != child.0 {
                        let a = v[i]->0;
                        let b = w[i]->0;
                        assert(settled(v, a));
                        assert forall|k: int| 0 <= k < a.parents.len() implies {
                            &&& live(w, #[trigger] a.parents[k]) == live(v, a.parents[k])
                            &&& live(v, a.parents[k]) ==> {
                                &&& layer_at(w, a.parents[k]).global_order == layer_at(
                                    v,
                                    a.parents[k],
                                ).global_order
                                &&& layer_at(w, a.parents[k]).children_dirty == layer_at(
                                    v,
                                    a.parents[k],
                                ).children_dirty
                            }
                        } by {}
                        lemma_settled_carries(v, w, a, b);
                    }
                }
                assert forall|i: int| 0 <= i < w.len() implies (#[trigger] w[i] matches Some(
                    layer,
                ) ==> layer.wf() && layer.id.0 == i && !layer.parents.contains(layer.id)) by {
                    if w[i] is Some && i != child.0 && i != parent.0 {
                        assert(w[i] == v[i]);
                    }
                    if i == child.0 {
                        if new_child.parents.contains(new_child.id) {
                            assert(old_child.parents.contains(old_child.id));
                        }
                    }
                }
                assert forall|id: LayerId| live(v, id) implies same_but_links(
                    layer_at(v, id),
                    #[trigger] layer_at(w, id),
                ) by {
                    if id != parent && id != child {
                        assert(w[id.0 as int] == v[id.0 as int]);
                    }
                }
                assert(forall|id: LayerId| #[trigger] live(w, id) == live(v, id));
                assert forall|id: LayerId|
                    live(v, id) implies #[trigger] layer_at(w, id).dirty == (layer_at(
                    v,
                    id,
                ).dirty || id == child) by {
                    if id != parent && id != child {
                        assert(w[id.0 as int] == v[id.0 as int]);
                    }
                }
            } else {
                assert(layer_at(w, parent).slots =~= layer_at(v, parent).slots);
                assert(w =~= v);
            }
        }
        found
    }

    /// The children of the layer `parent`, in the order of their slots. A
    /// layer that does not exist has none.
    pub fn children(&self, parent: LayerId) -> (children: Vec<LayerId>)
        requires
            self.wf(),
        ensures
            children@ == if live(self@, parent) {
                filled(layer_at(self@, parent).slots)
            } else {
                Seq::empty()
            },
            forall|c: LayerId| children@.contains(c) <==> is_child(self@, parent, c),
    {
        let children = match self.get(parent) {
            Some(layer) => layer.group().borrow().all(),
            None => Vec::new(),
        };
        proof {
            assert forall|c: LayerId| children@.contains(c) <==> is_child(self@, parent, c) by {
                if live(self@, parent) {
                    lemma_filled_contains(layer_at(self@, parent).slots, c);
                }
            }
        }
        children
    }

    /// The layer `layer_id` if it is registered in the group of the layer
    /// `parent`. A layer that was destroyed is in no group, so that nothing
    /// is returned for it.
    pub fn get_child(&self, parent: LayerId, layer_id: LayerId) -> (found: Option<&LayerModel>)
        requires
            self.wf(),
        ensures
            found is Some == is_child(self@, parent, layer_id),
            found matches Some(layer) ==> layer.wf() && layer@ == layer_at(self@, layer_id),
    {
        match self.get(parent) {
            Some(group) => match group.group().borrow().get(layer_id) {
                Some(id) => {
                    proof {
                        assert(layer_at(self@, parent).slots.contains(Some(layer_id)));
                        assert(live(self@, layer_id));
                    }
                    self.get(id)
                },
                None => None,
            },
            None => None,
        }
    }

    /// Destroys the layer `id`. Returns whether the layer existed. Before its
    /// slot falls vacant the layer is struck from every group that it was
    /// registered in, and its own group is dissolved: its children lose a
    /// parent and turn dirty. No group lists the layer afterwards, and its
    /// identifier names no layer again.
    pub fn destroy(&mut self, id: LayerId) -> (found: bool)
        requires
            old(self).wf(),
        ensures
            final(self).wf(),
            found == live(old(self)@, id),
            found ==> destroyed(old(self)@, id, final(self)@),
            !found ==> final(self)@ == old(self)@,
    {
        let ghost v = self@;
        let parents = match self.get(id) {
            Some(layer) => copy_layer_ids(layer.parents()),
            None => {
                return false;
            },
        };
        let mut i: usize = 0;
        proof {
            assert(parents@.take(0) =~= Seq::<LayerId>::empty());
        }
        while i < parents.len()
            invariant
                i <= parents.len(),
                self.wf(),
                v == old(self)@,
                store_wf(v),
                live(v, id),
                parents@ == layer_at(v, id).parents,
                relinked(v, self@),
                forall|p: LayerId, c: LayerId|
                    #[trigger] is_child(self@, p, c) <==> (is_child(v, p, c) && !(c == id
                        && parents@.take(i as int).contains(p))),
                forall|other: LayerId|
                    other != id && live(v, other) ==> #[trigger] layer_at(self@, other).dirty
                        == layer_at(v, other).dirty,
                forall|other: LayerId|
                    other != id && live(v, other) ==> {
                        &&& (#[trigger] layer_at(self@, other)).parents == layer_at(v, other).parents
                        &&& group_of(layer_at(self@, other)) == (if parents@.take(i as int).contains(
                            other,
                        ) {
                            group_without(layer_at(v, other), id)
                        } else {
                            group_of(layer_at(v, other))
                        })
                    },
            decreases parents.len() - i,
        {
            let ghost u = self@;
            let found = self.remove_child(parents[i], id);
            proof {
                let w = self@;
                let group = parents@[i as int];
                assert(layer_at(v, id).parents.contains(group));
                assert(is_child(v, group, id));
                assert(group != id) by {
                    if group == id {
                        assert(layer_at(v, id).parents.contains(id));
                    }
                }
                assert(!parents@.take(i as int).contains(group)) by {
                    if parents@.take(i as int).contains(group) {
                        let k = choose|k: int|
                            0 <= k < i && parents@.take(i as int)[k] == group;
                        assert(parents@[k] == parents@[i as int]);
                    }
                }
                assert(is_child(u, group, id));
                assert(found);
                lemma_take_next_contains(parents@, i as int);
                assert forall|other: LayerId| other != id && live(v, other) implies {
                    &&& (#[trigger] layer_at(w, other)).parents == layer_at(v, other).parents
                    &&& group_of(layer_at(w, other)) == (if parents@.take(i + 1).contains(other) {
                        group_without(layer_at(v, other), id)
                    } else {
                        group_of(layer_at(v, other))
                    })
                } by {
                    assert(live(u, other) == live(v, other));
                    let was = layer_at(u, other);
                    assert(was.parents == layer_at(v, other).parents);
                    if other != group {
                        assert(w[other.0 as int] == u[other.0 as int]);
                    }
                }
                lemma_relinked_chain(v, u, w);
                assert(parents@.take(i + 1) =~= parents@.take(i as int).push(parents@[i as int]));
                assert forall|p: LayerId, c: LayerId| #[trigger]
                    is_child(w, p, c) <==> (is_child(v, p, c) && !(c == id && parents@.take(
                        i + 1,
                    ).contains(p))) by {
                    assert(is_child(w, p, c) <==> (is_child(u, p, c) && !(p == parents@[i as int]
                        && c == id)));
                    let a = parents@.take(i as int);
                    let b = parents@.take(i + 1);
                    if a.contains(p) {
                        let k = choose|k: int| 0 <= k < a.len() && a[k] == p;
                        assert(b[k] == p);
                    }
                    if b.contains(p) {
                        let k = choose|k: int| 0 <= k < b.len() && b[k] == p;
                        if k < i {
                            assert(a[k] == p);
                        }
                    }
                    if p == parents@[i as int] {
                        assert(b[i as int] == p);
                    }
                }
                assert forall|other: LayerId|
                    other != id && live(v, other) implies #[trigger] layer_at(w, other).dirty
                    == layer_at(v, other).dirty by {
                    assert(live(u, other) == live(v, other));
                    assert(layer_at(u, other).dirty == layer_at(v, other).dirty);
                }
                assert(live(w, id) == live(v, id));
            }
            i += 1;
        }
        let kids = self.children(id);
        let ghost mid = self@;
        let mut j: usize = 0;
        proof {
            assert(parents@.take(i as int) =~= parents@);
            assert(kids@.take(0) =~= Seq::<LayerId>::empty());
            assert forall|p: LayerId, c: LayerId| #[trigger]
                is_child(mid, p, c) <==> (is_child(v, p, c) && c != id) by {
                if is_child(v, p, c) && c == id {
                    assert(layer_at(v, p).slots.contains(Some(c)));
                    assert(layer_at(v, id).parents.contains(p));
                }
            }
            assert forall|c: LayerId| kids@.contains(c) <==> is_child(v, id, c) by {
                assert(is_child(mid, id, c) <==> (is_child(v, id, c) && c != id));
                if is_child(v, id, c) && c == id {
                    assert(layer_at(v, id).slots.contains(Some(id)));
                    assert(layer_at(v, id).parents.contains(id));
                }
            }
            assert forall|other: LayerId| other != id && live(v, other) implies {
                &&& group_of(#[trigger] layer_at(mid, other)) == group_without(layer_at(v, other), id)
                &&& layer_at(mid, other).parents == layer_at(v, other).parents
            } by {
                let here = layer_at(v, other);
                if !parents@.contains(other) {
                    if here.slots.contains(Some(id)) {
                        assert(layer_at(v, id).parents.contains(other));
                    }
                    assert(here.slots =~= vacated(here.slots, id));
                }
            }
        }
        while j < kids.len()
            invariant
                j <= kids.len(),
                self.wf(),
                v == old(self)@,
                store_wf(v),
                live(v, id),
                forall|c: LayerId| kids@.contains(c) <==> is_child(v, id, c),
                relinked(v, self@),
                forall|p: LayerId, c: LayerId|
                    #[trigger] is_child(self@, p, c) <==> (is_child(v, p, c) && c != id && !(p
                        == id && kids@.take(j as int).contains(c))),
                forall|other: LayerId|
                    other != id && live(v, other) ==> #[trigger] layer_at(self@, other).dirty == (
                    layer_at(v, other).dirty || kids@.take(j as int).contains(other)),
                forall|other: LayerId|
                    other != id && live(v, other) ==> {
                        &&& group_of(#[trigger] layer_at(self@, other)) == group_without(layer_at(v, other), id)
                        &&& if kids@.take(j as int).contains(other) {
                            struck_from(
                                layer_at(v, other).parents,
                                id,
                                layer_at(self@, other).parents,
                            )
                        } else {
                            layer_at(self@, other).parents == layer_at(v, other).parents
                        }
                    },
            decreases kids.len() - j,
        {
            let ghost u = self@;
            let kid = kids[j];
            proof {
                assert(kids@.contains(kid));
                assert(is_child(v, id, kid));
                assert(layer_at(v, id).slots.contains(Some(kid)));
                assert(kid != id) by {
                    if kid == id {
                        assert(layer_at(v, id).parents.contains(id));
                    }
                }
            }
            let found = self.remove_child(id, kid);
            proof {
                let w = self@;
                lemma_relinked_chain(v, u, w);
                let a = kids@.take(j as int);
                let b = kids@.take(j + 1);
                assert(b =~= a.push(kid));
                assert forall|x: LayerId| b.contains(x) <==> (a.contains(x) || x == kid) by {
                    if a.contains(x) {
                        let k = choose|k: int| 0 <= k < a.len() && a[k] == x;
                        assert(b[k] == x);
                    }
                    if b.contains(x) {
                        let k = choose|k: int| 0 <= k < b.len() && b[k] == x;
                        if k < j {
                            assert(a[k] == x);
                        }
                    }
                    assert(b[j as int] == kid);
                }
                assert forall|p: LayerId, c: LayerId| #[trigger]
                    is_child(w, p, c) <==> (is_child(v, p, c) && c != id && !(p == id
                        && b.contains(c))) by {
                    assert(is_child(w, p, c) <==> (is_child(u, p, c) && !(p == id && c == kid)));
                }
                assert forall|other: LayerId|
                    other != id && live(v, other) implies #[trigger] layer_at(w, other).dirty == (
                layer_at(v, other).dirty || b.contains(other)) by {
                    assert(live(u, other) == live(v, other));
                    assert(layer_at(w, other).dirty == (layer_at(u, other).dirty || (found
                        && other == kid)));
                    assert(layer_at(u, other).dirty == (layer_at(v, other).dirty || a.contains(
                        other,
                    )));
                    if other == kid && !found {
                        assert(!is_child(u, id, kid));
                        assert(a.contains(kid));
                    }
                }
                assert(live(w, id) == live(v, id));
                assert forall|other: LayerId| other != id && live(v, other) implies {
                    &&& group_of(#[trigger] layer_at(w, other)) == group_without(layer_at(v, other), id)
                    &&& if b.contains(other) {
                        struck_from(layer_at(v, other).parents, id, layer_at(w, other).parents)
                    } else {
                        layer_at(w, other).parents == layer_at(v, other).parents
                    }
                } by {
                    assert(live(u, other) == live(v, other));
                    let was = layer_at(u, other);
                    assert(group_of(was) == group_without(layer_at(v, other), id));
                    if found {
                        if other == kid {
                            if a.contains(kid) {
                                assert(!is_child(u, id, kid));
                            }
                            assert(was.parents == layer_at(v, other).parents);
                            assert(layer_at(v, other).parents.contains(id)) by {
                                assert(is_child(v, id, kid));
                            }
                        } else {
                            assert(w[other.0 as int] == u[other.0 as int]);
                        }
                    }
                }
            }
            j += 1;
        }
        let ghost before = *self;
        let ghost u = self@;
        self.layers.set(id.0, None);
        proof {
            assert(kids@.take(j as int) =~= kids@);
            let w = self@;
            assert(w =~= u.update(id.0 as int, None));
            before.lemma_wf_view();
            assert forall|p: LayerId, c: LayerId| #[trigger]
                is_child(u, p, c) <==> (is_child(v, p, c) && p != id && c != id) by {}
            assert forall|p: LayerId, c: LayerId| #[trigger]
                is_child(w, p, c) <==> (is_child(v, p, c) && p != id && c != id) by {
                if p != id && live(u, p) {
                    assert(layer_at(w, p) == layer_at(u, p));
                }
                assert(is_child(w, p, c) <==> (is_child(u, p, c) && p != id));
            }
            assert forall|i: int| 0 <= i < self.layers@.len() implies (
            #[trigger] self.layers@[i] matches Some(l) ==> l.wf()) by {
                if i != id.0 {
                    assert(self.layers@[i] == before.layers@[i]);
                }
            }
            assert forall|p: LayerId, c: LayerId|
                live(w, p) && #[trigger] layer_at(w, p).slots.contains(Some(c)) implies live(w, c)
                && layer_at(w, c).parents.contains(p) by {
                assert(is_child(w, p, c));
                assert(is_child(u, p, c));
                assert(layer_at(u, p).slots.contains(Some(c)));
                assert(layer_at(u, c).parents.contains(p));
            }
            assert forall|c: LayerId, p: LayerId|
                live(w, c) && #[trigger] layer_at(w, c).parents.contains(p) implies live(w, p)
                && layer_at(w, p).slots.contains(Some(c)) by {
                assert(layer_at(u, c).parents.contains(p));
                assert(is_child(u, p, c));
            }
            assert forall|i: int| 0 <= i < w.len() implies (#[trigger] w[i] matches Some(
                layer,
            ) ==> settled(w, layer)) by {
                if w[i] is Some {
                    let a = u[i]->0;
                    assert(w[i] == u[i]);
                    assert(settled(u, a));
                    assert forall|k: int| 0 <= k < a.parents.len() implies {
                        &&& live(w, #[trigger] a.parents[k]) == live(u, a.parents[k])
                        &&& live(u, a.parents[k]) ==> {
                            &&& layer_at(w, a.parents[k]).global_order == layer_at(
                                u,
                                a.parents[k],
                            ).global_order
                            &&& layer_at(w, a.parents[k]).children_dirty == layer_at(
                                u,
                                a.parents[k],
                            ).children_dirty
                        }
                    } by {
                        let q = a.parents[k];
                        assert(a.parents.contains(q));
                        assert(live(u, LayerId(i as usize)));
                        assert(layer_at(u, LayerId(i as usize)).parents.contains(q));
                        assert(is_child(u, q, LayerId(i as usize)));
                        assert(q != id);
                    }
                    lemma_settled_carries(u, w, a, a);
                }
            }
            assert forall|other: LayerId| other != id implies #[trigger] live(w, other) == live(
                v,
                other,
            ) by {
                assert(live(u, other) == live(v, other));
            }
            assert forall|other: LayerId| other != id && live(v, other) implies same_but_links(
                layer_at(v, other),
                #[trigger] layer_at(w, other),
            ) by {
                assert(live(u, other) == live(v, other));
                assert(same_but_links(layer_at(v, other), layer_at(u, other)));
            }
            assert forall|other: LayerId|
                other != id && live(v, other) implies #[trigger] layer_at(w, other).dirty == (
            layer_at(v, other).dirty || is_child(v, id, other)) by {
                assert(live(u, other) == live(v, other));
                assert(layer_at(u, other).dirty == (layer_at(v, other).dirty || kids@.contains(
                    other,
                )));
            }
            assert forall|other: LayerId| other != id && live(v, other) implies {
                &&& group_of(#[trigger] layer_at(w, other)) == group_without(layer_at(v, other), id)
                &&& struck_from(layer_at(v, other).parents, id, layer_at(w, other).parents)
            } by {
                assert(live(u, other) == live(v, other));
                let was = layer_at(u, other);
                assert(group_of(was) == group_without(layer_at(v, other), id));
                if !kids@.contains(other) {
                    if layer_at(v, other).parents.contains(id) {
                        assert(is_child(v, id, other));
                    }
                }
            }
        }
        true
    }

    /// Takes the slots of the group of the layer `parent` away. No slot may
    /// hold a child.
    fn clear_group(&mut self, parent: LayerId)
        requires
            old(self).wf(),
            live(old(self)@, parent),
            forall|k: int|
                0 <= k < layer_at(old(self)@, parent).slots.len() ==> layer_at(
                    old(self)@,
                    parent,
                ).slots[k] is None,
        ensures
            final(self).wf(),
            final(self)@ == with_layer(
                old(self)@,
                parent,
                LayerView {
                    slots: Seq::empty(),
                    vacant: Seq::empty(),
                    ..layer_at(old(self)@, parent)
                },
            ),
    {
        let ghost before = *self;
        let ghost v = self@;
        match &mut self.layers[parent.0] {
            Some(layer) => {
                layer.clear_children();
            },
            None => {},
        }
        proof {
            self.lemma_models_after(before, parent, parent);
            let w = self@;
            self.layers@[parent.0 as int]->0.lemma_wf_view();
            assert(w =~= with_layer(
                v,
                parent,
                LayerView { slots: Seq::empty(), vacant: Seq::empty(), ..layer_at(v, parent) },
            ));
            assert forall|p: LayerId, c: LayerId|
                live(w, p) && #[trigger] layer_at(w, p).slots.contains(Some(c)) implies live(w, c)
                && layer_at(w, c).parents.contains(p) by {
                assert(p != parent);
                assert(layer_at(v, p).slots.contains(Some(c)));
            }
            assert forall|c: LayerId, p: LayerId|
                live(w, c) && #[trigger] layer_at(w, c).parents.contains(p) implies live(w, p)
                && layer_at(w, p).slots.contains(Some(c)) by {
                assert(layer_at(v, c).parents.contains(p));
                assert(layer_at(v, p).slots.contains(Some(c)));
                if p == parent {
                    let k = choose|k: int|
                        0 <= k < layer_at(v, p).slots.len() && layer_at(v, p).slots[k] == Some(c);
                    assert(layer_at(v, parent).slots[k] is None);
                }
            }
            assert forall|i: int| 0 <= i < w.len() implies (#[trigger] w[i] matches Some(
                layer,
            ) ==> layer.wf() && layer.id.0 == i && !layer.parents.contains(layer.id) && settled(
                w,
                layer,
            )) by {
                if w[i] is Some {
                    let a = v[i]->0;
                    let b = w[i]->0;
                    assert(settled(v, a));
                    assert forall|k: int| 0 <= k < a.parents.len() implies {
                        &&& live(w, #[trigger] a.parents[k]) == live(v, a.parents[k])
                        &&& live(v, a.parents[k]) ==> {
                            &&& layer_at(w, a.parents[k]).global_order == layer_at(
                                v,
                                a.parents[k],
                            ).global_order
                            &&& layer_at(w, a.parents[k]).children_dirty == layer_at(
                                v,
                                a.parents[k],
                            ).children_dirty
                        }
                    } by {}
                    lemma_settled_carries(v, w, a, b);
                }
            }
        }
    }

    /// Takes every child out of the group of the layer `parent` and takes the
    /// slots of the group away. Every layer that left the group turns dirty.
    fn remove_all_children(&mut self, parent: LayerId)
        requires
            old(self).wf(),
            live(old(self)@, parent),
        ensures
            final(self).wf(),
            relinked(old(self)@, final(self)@),
            forall|p: LayerId, c: LayerId|
                #[trigger] is_child(final(self)@, p, c) <==> (is_child(old(self)@, p, c) && p
                    != parent),
            forall|id: LayerId|
                live(old(self)@, id) ==> #[trigger] layer_at(final(self)@, id).dirty == (layer_at(
                    old(self)@,
                    id,
                ).dirty || is_child(old(self)@, parent, id)),
            layer_at(final(self)@, parent).slots == Seq::<Option<LayerId>>::empty(),
            layer_at(final(self)@, parent).vacant == Seq::<usize>::empty(),
            forall|other: LayerId|
                other != parent && live(old(self)@, other) ==> group_of(
                    #[trigger] layer_at(final(self)@, other),
                ) == group_of(layer_at(old(self)@, other)),
    {
        let ghost v = self@;
        let kids = self.children(parent);
        let mut j: usize = 0;
        proof {
            assert(kids@.take(0) =~= Seq::<LayerId>::empty());
        }
        while j < kids.len()
            invariant
                j <= kids.len(),
                self.wf(),
                v == old(self)@,
                live(v, parent),
                forall|c: LayerId| kids@.contains(c) <==> is_child(v, parent, c),
                relinked(v, self@),
                forall|p: LayerId, c: LayerId|
                    #[trigger] is_child(self@, p, c) <==> (is_child(v, p, c) && !(p == parent
                        && kids@.take(j as int).contains(c))),
                forall|id: LayerId|
                    live(v, id) ==> #[trigger] layer_at(self@, id).dirty == (layer_at(v, id).dirty
                        || kids@.take(j as int).contains(id)),
                layer_at(self@, parent).slots == vacated_all(
                    layer_at(v, parent).slots,
                    kids@.take(j as int),
                ),
                forall|other: LayerId|
                    other != parent && live(v, other) ==> group_of(
                        #[trigger] layer_at(self@, other),
                    ) == group_of(layer_at(v, other)),
            decreases kids.len() - j,
        {
            let ghost u = self@;
            let kid = kids[j];
            let found = self.remove_child(parent, kid);
            proof {
                let w = self@;
                assert(live(u, parent) == live(v, parent));
                assert(layer_at(w, parent).slots == vacated(layer_at(u, parent).slots, kid)) by {
                    if !found {
                        let here = layer_at(u, parent).slots;
                        assert(!here.contains(Some(kid)));
                        assert(here =~= vacated(here, kid));
                    } else {
                        assert(kid != parent) by {
                            if kid == parent {
                                assert(layer_at(u, parent).slots.contains(Some(parent)));
                                self.lemma_wf_view();
                            }
                        }
                    }
                }
                lemma_take_next_contains(kids@, j as int);
                assert(layer_at(w, parent).slots =~= vacated_all(
                    layer_at(v, parent).slots,
                    kids@.take(j + 1),
                ));
                assert forall|other: LayerId| other != parent && live(v, other) implies group_of(
                    #[trigger] layer_at(w, other),
                ) == group_of(layer_at(v, other)) by {
                    assert(live(u, other) == live(v, other));
                    let was = layer_at(u, other);
                    if other != kid {
                        if found {
                            assert(w[other.0 as int] == u[other.0 as int]);
                        }
                    }
                }
                lemma_relinked_chain(v, u, w);
                lemma_take_next_contains(kids@, j as int);
                let a = kids@.take(j as int);
                let b = kids@.take(j + 1);
                assert forall|p: LayerId, c: LayerId| #[trigger]
                    is_child(w, p, c) <==> (is_child(v, p, c) && !(p == parent && b.contains(
                        c,
                    ))) by {
                    assert(is_child(w, p, c) <==> (is_child(u, p, c) && !(p == parent && c
                        == kid)));
                }
                assert forall|id: LayerId| live(v, id) implies #[trigger] layer_at(w, id).dirty
                    == (layer_at(v, id).dirty || b.contains(id)) by {
                    assert(live(u, id) == live(v, id));
                    assert(layer_at(w, id).dirty == (layer_at(u, id).dirty || (found && id
                        == kid)));
                    assert(layer_at(u, id).dirty == (layer_at(v, id).dirty || a.contains(id)));
                    if id == kid && !found {
                        assert(kids@.contains(kid));
                        assert(is_child(v, parent, kid));
                        assert(!is_child(u, parent, kid));
                    }
                }
            }
            j += 1;
        }
        let ghost emptied = self@;
        proof {
            assert(kids@.take(j as int) =~= kids@);
            assert(live(emptied, parent) == live(v, parent));
            let slots = layer_at(v, parent).slots;
            assert forall|k: int| 0 <= k < slots.len() implies vacated_all(slots, kids@)[k]
                is None by {
                if slots[k] is Some {
                    let c = slots[k]->0;
                    assert(slots.contains(Some(c)));
                    assert(is_child(v, parent, c));
                }
            }
        }
        self.clear_group(parent);
        proof {
            let w = self@;
            assert forall|id: LayerId| #[trigger] live(w, id) == live(v, id) by {
                assert(live(emptied, id) == live(v, id));
            }
            assert forall|id: LayerId| live(v, id) implies same_but_links(
                layer_at(v, id),
                #[trigger] layer_at(w, id),
            ) by {
                assert(live(emptied, id) == live(v, id));
                assert(same_but_links(layer_at(v, id), layer_at(emptied, id)));
                if id != parent {
                    assert(w[id.0 as int] == emptied[id.0 as int]);
                }
            }
            assert forall|p: LayerId, c: LayerId| #[trigger]
                is_child(w, p, c) <==> is_child(emptied, p, c) by {
                if p != parent && live(emptied, p) {
                    assert(w[p.0 as int] == emptied[p.0 as int]);
                }
                if p == parent && is_child(emptied, p, c) {
                    let k = choose|k: int|
                        0 <= k < layer_at(emptied, parent).slots.len() && layer_at(
                            emptied,
                            parent,
                        ).slots[k] == Some(c);
                    assert(layer_at(emptied, parent).slots[k] is None);
                }
            }
            assert forall|id: LayerId| live(v, id) implies #[trigger] layer_at(w, id).dirty == (
            layer_at(v, id).dirty || kids@.contains(id)) by {
                assert(live(emptied, id) == live(v, id));
                assert(layer_at(emptied, id).dirty == (layer_at(v, id).dirty || kids@.contains(
                    id,
                )));
                if id != parent {
                    assert(w[id.0 as int] == emptied[id.0 as int]);
                }
            }
            assert forall|other: LayerId| other != parent && live(v, other) implies group_of(
                #[trigger] layer_at(w, other),
            ) == group_of(layer_at(v, other)) by {
                assert(live(emptied, other) == live(v, other));
                assert(group_of(layer_at(emptied, other)) == group_of(layer_at(v, other)));
                assert(w[other.0 as int] == emptied[other.0 as int]);
            }
            assert forall|p: LayerId, c: LayerId| #[trigger]
                is_child(w, p, c) <==> (is_child(v, p, c) && p != parent) by {
                assert(is_child(w, p, c) <==> is_child(emptied, p, c));
                if p == parent && is_child(v, p, c) {
                    assert(kids@.contains(c));
                }
            }
            assert forall|id: LayerId| live(v, id) implies #[trigger] layer_at(w, id).dirty == (
            layer_at(v, id).dirty || is_child(v, parent, id)) by {
                assert(layer_at(w, id).dirty == (layer_at(v, id).dirty || kids@.contains(id)));
            }
        }
    }

    /// Registers the layers of `layers` that exist in the group of the layer
    /// `parent`, which has no slots yet, each once and in this order.
    fn add_children(&mut self, parent: LayerId, layers: &Vec<LayerId>)
        requires
            old(self).wf(),
            live(old(self)@, parent),
            layer_at(old(self)@, parent).slots == Seq::<Option<LayerId>>::empty(),
            layer_at(old(self)@, parent).vacant == Seq::<usize>::empty(),
        ensures
            final(self).wf(),
            relinked(old(self)@, final(self)@),
            forall|p: LayerId, c: LayerId|
                #[trigger] is_child(final(self)@, p, c) <==> if p == parent {
                    layers@.contains(c) && live(old(self)@, c) && c != parent
                } else {
                    is_child(old(self)@, p, c)
                },
            forall|id: LayerId|
                live(old(self)@, id) ==> #[trigger] layer_at(final(self)@, id).dirty == (layer_at(
                    old(self)@,
                    id,
                ).dirty || is_child(final(self)@, parent, id)),
            layer_at(final(self)@, parent).slots == packed(
                accepted(old(self)@, parent, layers@),
                0,
            ),
            layer_at(final(self)@, parent).vacant == Seq::<usize>::empty(),
            forall|other: LayerId|
                other != parent && live(old(self)@, other) ==> group_of(
                    #[trigger] layer_at(final(self)@, other),
                ) == group_of(layer_at(old(self)@, other)),
    {
        let ghost v = self@;
        let mut i: usize = 0;
        proof {
            assert(layers@.take(0) =~= Seq::<LayerId>::empty());
            assert(layer_at(v, parent).slots =~= packed(Seq::<LayerId>::empty(), 0));
            assert(relinked(v, v));
            assert forall|c: LayerId| !is_child(v, parent, c) by {
                if is_child(v, parent, c) {
                    let k = choose|k: int|
                        0 <= k < layer_at(v, parent).slots.len() && layer_at(v, parent).slots[k]
                            == Some(c);
                }
            }
        }
        while i < layers.len()
            invariant
                i <= layers.len(),
                self.wf(),
                v == old(self)@,
                live(v, parent),
                relinked(v, self@),
                forall|p: LayerId, c: LayerId|
                    #[trigger] is_child(self@, p, c) <==> if p == parent {
                        layers@.take(i as int).contains(c) && live(v, c) && c != parent
                    } else {
                        is_child(v, p, c)
                    },
                forall|id: LayerId|
                    live(v, id) ==> #[trigger] layer_at(self@, id).dirty == (layer_at(v, id).dirty
                        || (layers@.take(i as int).contains(id) && id != parent)),
                layer_at(self@, parent).slots == packed(
                    accepted(v, parent, layers@.take(i as int)),
                    0,
                ),
                layer_at(self@, parent).vacant == Seq::<usize>::empty(),
                forall|other: LayerId|
                    other != parent && live(v, other) ==> group_of(
                        #[trigger] layer_at(self@, other),
                    ) == group_of(layer_at(v, other)),
            decreases layers.len() - i,
        {
            let ghost u = self@;
            let kid = layers[i];
            let fresh = self.add_child(parent, kid);
            proof {
                let w = self@;
                let sofar = accepted(v, parent, layers@.take(i as int));
                assert(layers@.take(i + 1).drop_last() =~= layers@.take(i as int));
                assert(layers@.take(i + 1).last() == kid);
                lemma_accepted_contains(v, parent, layers@.take(i as int), kid);
                assert(live(u, parent) == live(v, parent));
                assert(live(u, kid) == live(v, kid));
                assert(is_child(u, parent, kid) <==> sofar.contains(kid));
                if fresh {
                    let at = choose|at: int|
                        is_next_slot(
                            layer_at(u, parent).slots,
                            layer_at(u, parent).vacant,
                            at,
                        ) && w == adopted(u, parent, kid, at);
                    lemma_fill_packed(sofar, kid, at);
                    assert(kid != parent);
                }
                assert(layer_at(w, parent).slots == packed(
                    accepted(v, parent, layers@.take(i + 1)),
                    0,
                ));
                assert(layer_at(w, parent).vacant == Seq::<usize>::empty());
                assert forall|other: LayerId| other != parent && live(v, other) implies group_of(
                    #[trigger] layer_at(w, other),
                ) == group_of(layer_at(v, other)) by {
                    assert(live(u, other) == live(v, other));
                    let was = layer_at(u, other);
                    if fresh && other != kid {
                        assert(w[other.0 as int] == u[other.0 as int]);
                    }
                }
                lemma_relinked_chain(v, u, w);
                lemma_take_next_contains(layers@, i as int);
                let a = layers@.take(i as int);
                let b = layers@.take(i + 1);
                assert(live(u, parent) == live(v, parent));
                assert(live(u, kid) == live(v, kid));
                assert forall|p: LayerId, c: LayerId| #[trigger]
                    is_child(w, p, c) <==> if p == parent {
                        b.contains(c) && live(v, c) && c != parent
                    } else {
                        is_child(v, p, c)
                    } by {
                    assert(is_child(w, p, c) <==> (is_child(u, p, c) || (fresh && p == parent
                        && c == kid)));
                }
                assert forall|id: LayerId| live(v, id) implies #[trigger] layer_at(w, id).dirty
                    == (layer_at(v, id).dirty || (b.contains(id) && id != parent)) by {
                    assert(live(u, id) == live(v, id));
                    assert(layer_at(w, id).dirty == (layer_at(u, id).dirty || (fresh && id
                        == kid)));
                    assert(layer_at(u, id).dirty == (layer_at(v, id).dirty || (a.contains(id)
                        && id != parent)));
                    if id == kid && !fresh && id != parent {
                        assert(is_child(u, parent, kid));
                    }
                }
            }
            i += 1;
        }
        proof {
            assert(layers@.take(i as int) =~= layers@);
        }
    }

    /// Replaces the children of the layer `parent`: every child leaves the
    /// group and the slots of the group are taken away; then the layers of
    /// `layers` that exist are registered, each once and in this order.
    /// Returns whether `parent` exists; nothing changes where it does not. Every layer that left or entered the group
    /// turns dirty.
    pub fn set_children(&mut self, parent: LayerId, layers: &Vec<LayerId>) -> (done: bool)
        requires
            old(self).wf(),
        ensures
            final(self).wf(),
            done == live(old(self)@, parent),
            relinked(old(self)@, final(self)@),
            forall|p: LayerId, c: LayerId|
                #[trigger] is_child(final(self)@, p, c) <==> if p == parent {
                    done && layers@.contains(c) && live(old(self)@, c) && c != parent
                } else {
                    is_child(old(self)@, p, c)
                },
            forall|id: LayerId|
                live(old(self)@, id) ==> #[trigger] layer_at(final(self)@, id).dirty == (layer_at(
                    old(self)@,
                    id,
                ).dirty || is_child(old(self)@, parent, id) || is_child(final(self)@, parent, id)),
            !done ==> final(self)@ == old(self)@,
            done ==> layer_at(final(self)@, parent).slots == packed(
                accepted(old(self)@, parent, layers@),
                0,
            ) && layer_at(final(self)@, parent).vacant == Seq::<usize>::empty(),
            done ==> filled(layer_at(final(self)@, parent).slots) == accepted(
                old(self)@,
                parent,
                layers@,
            ),
            forall|other: LayerId|
                other != parent && live(old(self)@, other) ==> group_of(
                    #[trigger] layer_at(final(self)@, other),
                ) == group_of(layer_at(old(self)@, other)),
    {
        let ghost v = self@;
        if !self.is_live(parent) {
            return false;
        }
        self.remove_all_children(parent);
        let ghost emptied = self@;
        proof {
            assert(live(emptied, parent) == live(v, parent));
        }
        self.add_children(parent, layers);
        proof {
            let w = self@;
            lemma_relinked_chain(v, emptied, w);
            lemma_accepted_same(emptied, v, parent, layers@);
            lemma_filled_packed(accepted(v, parent, layers@), 0);
            assert forall|p: LayerId, c: LayerId| #[trigger]
                is_child(w, p, c) <==> if p == parent {
                    layers@.contains(c) && live(v, c) && c != parent
                } else {
                    is_child(v, p, c)
                } by {
                assert(live(emptied, c) == live(v, c));
                assert(is_child(emptied, p, c) <==> (is_child(v, p, c) && p != parent));
            }
            assert forall|id: LayerId| live(v, id) implies #[trigger] layer_at(w, id).dirty == (
            layer_at(v, id).dirty || is_child(v, parent, id) || is_child(w, parent, id)) by {
                assert(live(emptied, id) == live(v, id));
                assert(layer_at(emptied, id).dirty == (layer_at(v, id).dirty || is_child(
                    v,
                    parent,
                    id,
                )));
            }
            assert forall|other: LayerId| other != parent && live(v, other) implies group_of(
                #[trigger] layer_at(w, other),
            ) == group_of(layer_at(v, other)) by {
                assert(live(emptied, other) == live(v, other));
                assert(group_of(layer_at(emptied, other)) == group_of(layer_at(v, other)));
            }
        }
        true
    }

    /// The children of the layer `parent` that draw `symbol_id`, in the order
    /// of their slots: the placement of the symbol in the group.
    pub fn symbols_placement(&self, parent: LayerId, symbol_id: SymbolId) -> (placement: Vec<
        LayerId,
    >)
        requires
            self.wf(),
        ensures
            forall|c: LayerId|
                placement@.contains(c) <==> (is_child(self@, parent, c) && layer_at(
                    self@,
                    c,
                ).holds_symbol(symbol_id)),
            placement@ == (if live(self@, parent) {
                filled(layer_at(self@, parent).slots)
            } else {
                Seq::empty()
            }).filter(|c: LayerId| layer_at(self@, c).holds_symbol(symbol_id)),
    {
        let kids = self.children(parent);
        let ghost holds = |c: LayerId| layer_at(self@, c).holds_symbol(symbol_id);
        let mut placement: Vec<LayerId> = Vec::new();
        let mut i: usize = 0;
        proof {
            reveal(Seq::filter);
            assert(kids@.take(0) =~= Seq::<LayerId>::empty());
        }
        while i < kids.len()
            invariant
                i <= kids.len(),
                self.wf(),
                holds == |c: LayerId| layer_at(self@, c).holds_symbol(symbol_id),
                forall|c: LayerId| kids@.contains(c) <==> is_child(self@, parent, c),
                placement@ == kids@.take(i as int).filter(holds),
                forall|c: LayerId|
                    placement@.contains(c) <==> (kids@.take(i as int).contains(c) && layer_at(
                        self@,
                        c,
                    ).holds_symbol(symbol_id)),
            decreases kids.len() - i,
        {
            let kid = kids[i];
            let ghost before = placement@;
            proof {
                reveal(Seq::filter);
                assert(kids@.contains(kid));
                assert(is_child(self@, parent, kid));
                assert(layer_at(self@, parent).slots.contains(Some(kid)));
                self.lemma_wf_view();
                assert(live(self@, kid));
                assert(kids@.take(i + 1).drop_last() =~= kids@.take(i as int));
                lemma_take_next_contains(kids@, i as int);
            }
            let held = match self.get(kid) {
                Some(layer) => layer.holds_symbol(symbol_id),
                None => false,
            };
            assert(held == layer_at(self@, kid).holds_symbol(symbol_id));
            if held {
                placement.push(kid);
                proof {
                    assert(placement@[before.len() as int] == kid);
                    assert forall|c: LayerId| placement@.contains(c) <==> (before.contains(c) || c
                        == kid) by {
                        if placement@.contains(c) {
                            let k = choose|k: int| 0 <= k < placement@.len() && placement@[k] == c;
                            if k < before.len() {
                                assert(before[k] == c);
                            }
                        }
                        if before.contains(c) {
                            let k = choose|k: int| 0 <= k < before.len() && before[k] == c;
                            assert(placement@[k] == c);
                        }
                    }
                }
            }
            proof {
                assert forall|c: LayerId|
                    placement@.contains(c) <==> (kids@.take(i + 1).contains(c) && layer_at(
                        self@,
                        c,
                    ).holds_symbol(symbol_id)) by {
                    assert(before.contains(c) <==> (kids@.take(i as int).contains(c) && layer_at(
                        self@,
                        c,
                    ).holds_symbol(symbol_id)));
                }
            }
            i += 1;
        }
        proof {
            assert(kids@.take(i as int) =~= kids@);
        }
        placement
    }

    /// Takes `symbol_id` from every child of the layer `group` that draws it.
    fn evict_from_group(&mut self, group: LayerId, symbol_id: SymbolId)
        requires
            old(self).wf(),
        ensures
            final(self).wf(),
            final(self)@.len() == old(self)@.len(),
            forall|other: LayerId| #[trigger] live(final(self)@, other) == live(old(self)@, other),
            forall|other: LayerId|
                live(old(self)@, other) ==> #[trigger] layer_at(final(self)@, other) == (if is_child(
                    old(self)@,
                    group,
                    other,
                ) && layer_at(old(self)@, other).holds_symbol(symbol_id) {
                    layer_at(old(self)@, other).without_symbol(symbol_id)
                } else {
                    layer_at(old(self)@, other)
                }),
    {
        let ghost start = self@;
        let placement = self.symbols_placement(group, symbol_id);
        proof {
            self.lemma_wf_view();
            assert(placement@.take(0) =~= Seq::<LayerId>::empty());
        }
        let mut j: usize = 0;
        while j < placement.len()
            invariant
                j <= placement.len(),
                self.wf(),
                store_wf(start),
                self@.len() == start.len(),
                forall|other: LayerId| #[trigger] live(self@, other) == live(start, other),
                forall|c: LayerId|
                    placement@.contains(c) <==> (is_child(start, group, c) && layer_at(
                        start,
                        c,
                    ).holds_symbol(symbol_id)),
                forall|other: LayerId|
                    live(start, other) ==> #[trigger] layer_at(self@, other) == (if placement@.take(
                        j as int,
                    ).contains(other) {
                        layer_at(start, other).without_symbol(symbol_id)
                    } else {
                        layer_at(start, other)
                    }),
            decreases placement.len() - j,
        {
            let kid = placement[j];
            let ghost u = self@;
            proof {
                assert(placement@.contains(kid));
                assert(is_child(start, group, kid));
                assert(layer_at(start, group).slots.contains(Some(kid)));
                assert(live(start, kid));
                assert(live(u, kid) == live(start, kid));
                lemma_take_next_contains(placement@, j as int);
            }
            self.remove_symbol(kid, symbol_id);
            proof {
                let w = self@;
                assert forall|other: LayerId| #[trigger] live(w, other) == live(start, other) by {
                    assert(live(u, other) == live(start, other));
                }
                assert forall|other: LayerId| live(start, other) implies #[trigger] layer_at(
                    w,
                    other,
                ) == (if placement@.take(j + 1).contains(other) {
                    layer_at(start, other).without_symbol(symbol_id)
                } else {
                    layer_at(start, other)
                }) by {
                    assert(live(u, other) == live(start, other));
                    let was = layer_at(u, other);
                    assert(was == (if placement@.take(j as int).contains(other) {
                        layer_at(start, other).without_symbol(symbol_id)
                    } else {
                        layer_at(start, other)
                    }));
                    if other == kid {
                        assert(layer_at(w, kid) == was.without_symbol(symbol_id));
                        if placement@.take(j as int).contains(kid) {
                            lemma_without_symbol_twice(layer_at(start, kid), symbol_id);
                        }
                    } else {
                        assert(w[other.0 as int] == u[other.0 as int]);
                    }
                }
            }
            j += 1;
        }
        proof {
            assert(placement@.take(j as int) =~= placement@);
        }
    }

    /// Takes `symbol_id` from every layer that shares a group with the layer
    /// `id`, the layer `id` included.
    fn remove_symbol_from_all_layers(&mut self, id: LayerId, symbol_id: SymbolId)
        requires
            old(self).wf(),
            live(old(self)@, id),
        ensures
            final(self).wf(),
            final(self)@.len() == old(self)@.len(),
            forall|other: LayerId| #[trigger] live(final(self)@, other) == live(old(self)@, other),
            forall|other: LayerId|
                live(old(self)@, other) ==> #[trigger] layer_at(final(self)@, other) == evicted(
                    old(self)@,
                    id,
                    symbol_id,
                    other,
                ),
    {
        let ghost v = self@;
        proof {
            self.lemma_wf_view();
        }
        let parents = match self.get(id) {
            Some(layer) => copy_layer_ids(layer.parents()),
            None => Vec::new(),
        };
        let mut i: usize = 0;
        while i < parents.len()
            invariant
                i <= parents.len(),
                self.wf(),
                v == old(self)@,
                store_wf(v),
                self@.len() == v.len(),
                forall|other: LayerId| #[trigger] live(self@, other) == live(v, other),
                forall|other: LayerId|
                    live(v, other) ==> #[trigger] layer_at(self@, other) == (if in_groups(
                        v,
                        parents@,
                        i as int,
                        other,
                    ) && layer_at(v, other).holds_symbol(symbol_id) {
                        layer_at(v, other).without_symbol(symbol_id)
                    } else {
                        layer_at(v, other)
                    }),
            decreases parents.len() - i,
        {
            let group = parents[i];
            let ghost start = self@;
            self.evict_from_group(group, symbol_id);
            proof {
                lemma_evicted_one_more(v, start, self@, parents@, i as int, symbol_id);
            }
            i += 1;
        }
        proof {
            let w = self@;
            assert forall|other: LayerId| live(v, other) implies #[trigger] layer_at(w, other)
                == evicted(v, id, symbol_id, other) by {
                let listed = in_groups(v, parents@, parents@.len() as int, other);
                if listed {
                    let k = choose|k: int|
                        0 <= k < parents@.len() && k < parents@.len() && is_child(
                            v,
                            #[trigger] parents@[k],
                            other,
                        );
                    assert(layer_at(v, id).parents.contains(parents@[k]));
                    assert(is_child(v, parents@[k], id));
                }
                if shares_group(v, id, other) {
                    let p = choose|p: LayerId| is_child(v, p, id) && #[trigger] is_child(
                        v,
                        p,
                        other,
                    );
                    assert(layer_at(v, p).slots.contains(Some(id)));
                    assert(layer_at(v, id).parents.contains(p));
                    let k = choose|k: int| 0 <= k < parents@.len() && parents@[k] == p;
                    assert(is_child(v, parents@[k], other));
                }
            }
        }
    }

    /// Adds the bare symbol `symbol_id` to the layer `id` and takes it from
    /// every other layer that shares a group with `id`, so that within
    /// those groups the symbol belongs to this layer alone. Returns whether
    /// the layer exists; nothing changes where it does not.
    pub fn add_symbol_exclusive(&mut self, id: LayerId, symbol_id: SymbolId) -> (done: bool)
        requires
            old(self).wf(),
        ensures
            final(self).wf(),
            done == live(old(self)@, id),
            done ==> claimed(old(self)@, id, symbol_id, final(self)@),
            !done ==> final(self)@ == old(self)@,
    {
        if !self.is_live(id) {
            return false;
        }
        let ghost v = self@;
        self.remove_symbol_from_all_layers(id, symbol_id);
        let ghost u = self@;
        self.add_symbol(id, symbol_id);
        proof {
            let w = self@;
            assert forall|other: LayerId| #[trigger] live(w, other) == live(v, other) by {
                assert(live(u, other) == live(v, other));
            }
            assert forall|other: LayerId| live(v, other) implies #[trigger] layer_at(w, other)
                == (if other == id {
                evicted(v, id, symbol_id, other).with_symbol(symbol_id)
            } else {
                evicted(v, id, symbol_id, other)
            }) by {
                assert(live(u, other) == live(v, other));
                assert(layer_at(u, other) == evicted(v, id, symbol_id, other));
                if other != id {
                    assert(w[other.0 as int] == u[other.0 as int]);
                }
            }
        }
        true
    }

    /// Adds a shape to the layer `id`, as `add_shape` does, and takes the
    /// symbol `symbol_id` from every other layer that shares a group with
    /// `id`. Returns whether the layer exists; nothing changes where it does
    /// not.
    pub fn add_shape_exclusive(
        &mut self,
        id: LayerId,
        shape_system_info: ShapeSystemInfo,
        symbol_id: SymbolId,
    ) -> (done: bool)
        requires
            old(self).wf(),
        ensures
            final(self).wf(),
            done == live(old(self)@, id),
            final(self)@.len() == old(self)@.len(),
            forall|other: LayerId| #[trigger] live(final(self)@, other) == live(old(self)@, other),
            forall|other: LayerId|
                done && live(old(self)@, other) ==> #[trigger] layer_at(final(self)@, other) == (if other
                    == id {
                    evicted(old(self)@, id, symbol_id, other).with_shape(
                        shape_system_info.id,
                        ShapeRecord {
                            symbol: symbol_id,
                            above: shape_system_info.ordering.above@,
                            below: shape_system_info.ordering.below@,
                        },
                    )
                } else {
                    evicted(old(self)@, id, symbol_id, other)
                }),
            !done ==> final(self)@ == old(self)@,
    {
        if !self.is_live(id) {
            return false;
        }
        let ghost v = self@;
        self.remove_symbol_from_all_layers(id, symbol_id);
        let ghost u = self@;
        self.add_shape(id, shape_system_info, symbol_id);
        proof {
            let w = self@;
            assert forall|other: LayerId| #[trigger] live(w, other) == live(v, other) by {
                assert(live(u, other) == live(v, other));
            }
            assert forall|other: LayerId| live(v, other) implies #[trigger] layer_at(w, other)
                == (if other == id {
                evicted(v, id, symbol_id, other).with_shape(
                    shape_system_info.id,
                    ShapeRecord {
                        symbol: symbol_id,
                        above: shape_system_info.ordering.above@,
                        below: shape_system_info.ordering.below@,
                    },
                )
            } else {
                evicted(v, id, symbol_id, other)
            }) by {
                assert(live(u, other) == live(v, other));
                assert(layer_at(u, other) == evicted(v, id, symbol_id, other));
                if other != id {
                    assert(w[other.0 as int] == u[other.0 as int]);
                }
            }
        }
        true
    }

    /// The layer `id`, for a store whose layers are well formed by
    /// themselves.
    fn layer_ref(&self, id: LayerId) -> (found: Option<&LayerModel>)
        requires
            self.models_wf(),
        ensures
            found is Some == live(self@, id),
            found matches Some(layer) ==> layer.wf() && layer@ == layer_at(self@, id),
    {
        if id.0 < self.layers.len() {
            self.layers[id.0].as_ref()
        } else {
            None
        }
    }

    /// Whether the group of some parent of the layer `id` is dirty.
    fn is_forced(&self, id: LayerId) -> (b: bool)
        requires
            self.models_wf(),
            live(self@, id),
        ensures
            b == forced(self@, layer_at(self@, id)),
    {
        let ghost v = self@;
        let ghost layer = layer_at(v, id);
        match self.layer_ref(id) {
            Some(model) => {
                let parents = model.parents();
                let mut k: usize = 0;
                while k < parents.len()
                    invariant
                        k <= parents.len(),
                        self.models_wf(),
                        v == self@,
                        layer == layer_at(v, id),
                        parents@ == layer.parents,
                        forall|j: int| 0 <= j < k ==> !forces(v, layer, j),
                    decreases parents.len() - k,
                {
                    match self.layer_ref(parents[k]) {
                        Some(parent) => {
                            if parent.group().is_dirty() {
                                proof {
                                    assert(forces(v, layer, k as int));
                                }
                                return true;
                            }
                        },
                        None => {},
                    }
                    k += 1;
                }
                false
            },
            None => false,
        }
    }

    /// The graph of the dependencies that the groups of the layer `id` lay
    /// on it.
    fn global_graph_of(&self, id: LayerId) -> (graph: DependencyGraph)
        requires
            self.models_wf(),
            live(self@, id),
        ensures
            graph.wf(),
            graph@ == global_of(self@, layer_at(self@, id)),
    {
        let ghost v = self@;
        let ghost layer = layer_at(v, id);
        let mut graph = DependencyGraph::new();
        match self.layer_ref(id) {
            Some(model) => {
                let parents = model.parents();
                let mut k: usize = 0;
                proof {
                    assert(graph@ =~= global_upto(v, layer, 0));
                }
                while k < parents.len()
                    invariant
                        k <= parents.len(),
                        self.models_wf(),
                        v == self@,
                        parents@ == layer.parents,
                        graph.wf(),
                        graph@ == global_upto(v, layer, k as int),
                    decreases parents.len() - k,
                {
                    let ghost before = graph@;
                    match self.layer_ref(parents[k]) {
                        Some(parent) => {
                            graph.extend(parent.global_graph());
                        },
                        None => {},
                    }
                    proof {
                        assert forall|e: Edge| graph@.contains(e) <==> global_upto(
                            v,
                            layer,
                            k + 1,
                        ).contains(e) by {
                            if before.contains(e) {
                                let j = choose|j: int| j < k && contributes(v, layer, j, e);
                                assert(j < k + 1 && contributes(v, layer, j, e));
                            }
                            if global_upto(v, layer, k + 1).contains(e) {
                                let j = choose|j: int| j < k + 1 && contributes(v, layer, j, e);
                                if j < k {
                                    assert(before.contains(e));
                                }
                            }
                            if graph@.contains(e) && !before.contains(e) {
                                assert(contributes(v, layer, k as int, e));
                            }
                        }
                        assert(graph@ =~= global_upto(v, layer, k + 1));
                    }
                    k += 1;
                }
                proof {
                    assert forall|e: Edge| global_upto(v, layer, k as int).contains(e)
                        <==> global_of(v, layer).contains(e) by {
                        if global_of(v, layer).contains(e) {
                            let j = choose|j: int| contributes(v, layer, j, e);
                            assert(j < k && contributes(v, layer, j, e));
                        }
                    }
                    assert(graph@ =~= global_of(v, layer));
                }
            },
            None => {},
        }
        graph
    }

    /// For every slot, whether its layer has to be resolved again.
    fn sorting_needs(&self) -> (needs: Vec<bool>)
        requires
            self.wf(),
        ensures
            needs.len() == self@.len(),
            forall|i: int|
                0 <= i < needs.len() ==> #[trigger] needs[i] == (self@[i] matches Some(layer)
                    && needs_sorting(self@, layer)),
    {
        let mut needs: Vec<bool> = Vec::new();
        let mut o: usize = 0;
        while o < self.layers.len()
            invariant
                o <= self.layers.len(),
                self.wf(),
                needs.len() == o,
                forall|i: int|
                    0 <= i < o ==> #[trigger] needs[i] == (self@[i] matches Some(layer)
                        && needs_sorting(self@, layer)),
            decreases self.layers.len() - o,
        {
            let need = match self.layer_ref(LayerId(o)) {
                Some(layer) => layer.is_dirty() || self.is_forced(LayerId(o)),
                None => false,
            };
            needs.push(need);
            o += 1;
        }
        needs
    }

    /// Updates the layer `id` and all of its descendants: the children of its
    /// group, their children, and so on. Every layer that is reached and is
    /// dirty, or is in a group that is, has its elements resolved again under
    /// all dependencies that bear on it; the flags of every layer reached and
    /// of its group are consumed. No other layer changes. Returns whether the
    /// layer `id` exists.
    pub fn update(&mut self, id: LayerId) -> (done: bool)
        requires
            old(self).wf(),
        ensures
            final(self).wf(),
            done == live(old(self)@, id),
            done ==> updated(old(self)@, id, final(self)@),
            !done ==> final(self)@ == old(self)@,
    {
        if !self.is_live(id) {
            return false;
        }
        let ghost v = self@;
        let marked = mark_reachable(self, id);
        let needs = self.sorting_needs();
        let n = self.layers.len();
        let mut o: usize = 0;
        while o < n
            invariant
                o <= n,
                n == v.len(),
                v == old(self)@,
                store_wf(v),
                self.models_wf(),
                self@.len() == n,
                marked.len() == n,
                needs.len() == n,
                forall|x: LayerId|
                    x.0 < marked.len() ==> (#[trigger] marked[x.0 as int]
                        <==> reachable(v, id, x)),
                forall|i: int|
                    0 <= i < needs.len() ==> #[trigger] needs[i] == (v[i] matches Some(layer)
                        && needs_sorting(v, layer)),
                forall|i: int|
                    0 <= i < n ==> #[trigger] self@[i] == (if i < o {
                        updated_slot(v, id, i)
                    } else {
                        v[i]
                    }),
            decreases n - o,
        {
            let ghost before = *self;
            let ghost u = self@;
            let here = LayerId(o);
            proof {
                assert(u[o as int] == v[o as int]);
                assert(marked[here.0 as int] <==> reachable(v, id, here));
            }
            if marked[o] && self.layers[o].is_some() {
                let graph = self.global_graph_of(here);
                proof {
                    let a = layer_at(v, here);
                    assert(a.id == here);
                    assert forall|k: int| 0 <= k < a.parents.len() implies {
                        &&& live(u, #[trigger] a.parents[k]) == live(v, a.parents[k])
                        &&& live(v, a.parents[k]) ==> layer_at(u, a.parents[k]).global_order
                            == layer_at(v, a.parents[k]).global_order
                    } by {
                        let q = a.parents[k];
                        if q.0 < n {
                            assert(u[q.0 as int] == (if q.0 < o {
                                updated_slot(v, id, q.0 as int)
                            } else {
                                v[q.0 as int]
                            }));
                        }
                    }
                    lemma_global_of_carries(v, u, a, a);
                }
                match &mut self.layers[o] {
                    Some(layer) => {
                        layer.update_internal(&graph, needs[o]);
                        layer.clear_children_dirty();
                    },
                    None => {},
                }
                proof {
                    self.lemma_models_after(before, here, here);
                    assert(self@[o as int] == updated_slot(v, id, o as int));
                }
            } else {
                proof {
                    if v[o as int] is Some {
                        assert((v[o as int]->0).id == here);
                    }
                    assert(self@[o as int] == updated_slot(v, id, o as int));
                }
            }
            proof {
                assert forall|i: int| 0 <= i < n implies #[trigger] self@[i] == (if i < o + 1 {
                    updated_slot(v, id, i)
                } else {
                    v[i]
                }) by {
                    if i != o {
                        assert(self@[i] == u[i]);
                    }
                }
            }
            o += 1;
        }
        proof {
            lemma_update_keeps_wf(v, id, self@);
        }
        true
    }

    /// Instantiates a shape of kind `kind` in the layer `id`, through the
    /// layer's registry of shape systems. Returns the static ordering of the
    /// kind and the symbol that every shape of the kind is drawn under in this
    /// layer, or nothing where the layer does not exist. No layer changes.
    pub fn instantiate(
        &mut self,
        id: LayerId,
        kind: ShapeSystemId,
        created: ShapeSystemSymbolInfo,
    ) -> (out: Option<Instantiation>)
        requires
            old(self).wf(),
        ensures
            final(self).wf(),
            final(self)@ == old(self)@,
            out is Some == live(old(self)@, id),
            out matches Some(shape) ==> {
                &&& instantiated(
                    old(self).registry_of(id),
                    kind,
                    created.id,
                    final(self).registry_of(id),
                    shape.symbol_id,
                )
                &&& shape.info.id == kind
                &&& shape.info.ordering.above@ == final(self).registry_of(id).above_of(kind)
                &&& shape.info.ordering.below@ == final(self).registry_of(id).below_of(kind)
            },
            forall|other: LayerId|
                other != id && live(old(self)@, other) ==> final(self).registry_of(other) == old(
                    self,
                ).registry_of(other),
    {
        if !self.is_live(id) {
            return None;
        }
        let ghost before = *self;
        let mut out = None;
        match &mut self.layers[id.0] {
            Some(layer) => {
                out = Some(layer.instantiate(kind, created));
            },
            None => {},
        }
        proof {
            self.lemma_models_after(before, id, id);
            assert(self@ =~= before@);
        }
        out
    }

    /// Adds, for every pair of `pairs`, the dependency that the first kind of
    /// shape is drawn below the second in every layer of the group of the
    /// layer `id`. Returns whether one of them was new; a layer that does not
    /// exist takes none.
    pub fn add_global_shapes_order_dependencies(
        &mut self,
        id: LayerId,
        pairs: &Vec<(ShapeSystemId, ShapeSystemId)>,
    ) -> (fresh: bool)
        requires
            old(self).wf(),
        ensures
            final(self).wf(),
            fresh == (live(old(self)@, id) && !shape_edges(pairs@).subset_of(
                layer_at(old(self)@, id).global_order,
            )),
            live(old(self)@, id) ==> final(self)@ == with_layer(
                old(self)@,
                id,
                LayerView {
                    global_order: layer_at(old(self)@, id).global_order.union(shape_edges(pairs@)),
                    children_dirty: layer_at(old(self)@, id).children_dirty || fresh,
                    ..layer_at(old(self)@, id)
                },
            ),
            !live(old(self)@, id) ==> final(self)@ == old(self)@,
    {
        if !self.is_live(id) {
            return false;
        }
        let ghost before = *self;
        let ghost was = layer_at(self@, id);
        let mut fresh = false;
        match &mut self.layers[id.0] {
            Some(layer) => {
                fresh = layer.add_global_shapes_order_dependencies(pairs);
            },
            None => {},
        }
        proof {
            if !fresh {
                assert(was.global_order.union(shape_edges(pairs@)) =~= was.global_order);
            }
            self.lemma_edited(before, id);
        }
        fresh
    }
}

/// A copy of a list of layers.
pub fn copy_layer_ids(ids: &Vec<LayerId>) -> (copy: Vec<LayerId>)
    ensures
        copy@ == ids@,
{
    let mut copy: Vec<LayerId> = Vec::new();
    let mut i: usize = 0;
    while i < ids.len()
        invariant
            i <= ids.len(),
            copy@ == ids@.take(i as int),
        decreases ids.len() - i,
    {
        copy.push(ids[i]);
        assert(ids@.take(i + 1) =~= ids@.take(i as int).push(ids@[i as int]));
        i += 1;
    }
    assert(ids@.take(i as int) =~= ids@);
    copy
}

} // verus!
