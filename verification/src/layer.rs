//! A single layer: a camera, a set of elements to draw, the depth-order
//! dependencies between them and the order in which they were last resolved.
//!
//! Edits never resolve anything. They mark the layer dirty, and the order is
//! resolved again when the layer is next refreshed.

use crate::dependency_graph::DependencyGraph;
use crate::item::{LayerId, LayerItem, ShapeSystemId, SymbolId};
use crate::item_set::{strictly_ascending, ItemSet};
use crate::seq_facts::lemma_take_next_contains;
use crate::order::{resolve_order, Edge};
use crate::shape_system::{
    instantiated, static_edges, Instantiation, ShapeSystemInfo, ShapeSystemInfoTemplate,
    ShapeSystemRegistry, ShapeSystemStaticDepthOrdering, ShapeSystemSymbolInfo,
};
use std::collections::HashMap;
use vstd::prelude::*;

verus! {

/// Handle of a camera. Cameras live outside the layers, which only hold and
/// return them; any number of layers may hold the same camera.
#[derive(Clone, Copy, Debug, PartialEq, Eq, Hash, Structural)]
pub struct CameraId(pub usize);

/// What a layer knows of a shape system that it holds: the symbol that the
/// shape system draws under, and its static neighbours.
pub struct ShapeRecord {
    pub symbol: SymbolId,
    pub above: Seq<ShapeSystemId>,
    pub below: Seq<ShapeSystemId>,
}

/// The state of a layer as contracts speak of it.
pub struct LayerView {
    /// The identifier of the layer.
    pub id: LayerId,
    /// The camera that the layer is seen through.
    pub camera: CameraId,
    /// The elements of the layer.
    pub elements: Set<LayerItem>,
    /// The shape systems of the layer.
    pub shapes: Map<ShapeSystemId, ShapeRecord>,
    /// The dependencies between elements that hold in this layer only.
    pub local_order: Set<Edge>,
    /// Whether the elements have to be resolved again.
    pub dirty: bool,
    /// The symbols in the order in which they were last resolved.
    pub sorted: Seq<SymbolId>,
    /// The layers in whose group this layer is registered.
    pub parents: Seq<LayerId>,
    /// The dependencies that hold in every layer of this layer's group.
    pub global_order: Set<Edge>,
    /// The slots of this layer's group; a slot is vacant or holds a child.
    pub slots: Seq<Option<LayerId>>,
    /// The vacant slots of the group, the one that was vacated last at the
    /// end. The next child takes the last of them.
    pub vacant: Seq<usize>,
    /// Whether every layer of the group has to be resolved again.
    pub children_dirty: bool,
    /// The layer that masks this layer, if any.
    pub mask: Option<LayerId>,
}

/// The symbol that `item` is drawn under: a symbol stands for itself, a shape
/// system for the symbol recorded for it, if any.
pub open spec fn symbol_of_item(shapes: Map<ShapeSystemId, ShapeRecord>, item: LayerItem) -> Option<
    SymbolId,
> {
    match item {
        LayerItem::Symbol(symbol) => Some(symbol),
        LayerItem::ShapeSystem(id) => if shapes.contains_key(id) {
            Some(shapes[id].symbol)
        } else {
            None
        },
    }
}

/// The symbols of the items of `order`, in that order. An item without a
/// symbol is left out.
pub open spec fn symbols_of(shapes: Map<ShapeSystemId, ShapeRecord>, order: Seq<LayerItem>) -> Seq<
    SymbolId,
>
    decreases order.len(),
{
    if order.len() == 0 {
        Seq::empty()
    } else {
        let front = symbols_of(shapes, order.drop_last());
        match symbol_of_item(shapes, order.last()) {
            Some(symbol) => front.push(symbol),
            None => front,
        }
    }
}

/// No value fills two slots.
pub open spec fn distinct_slots(slots: Seq<Option<LayerId>>) -> bool {
    forall|i: int, j: int|
        0 <= i < slots.len() && 0 <= j < slots.len() && i != j && slots[i] is Some ==> slots[i]
            != slots[j]
}

impl LayerView {
    /// The shape systems that draw under `symbol`.
    pub open spec fn shapes_of_symbol(self, symbol: SymbolId) -> Set<ShapeSystemId> {
        Set::new(|id: ShapeSystemId| self.shapes.contains_key(id) && self.shapes[id].symbol == symbol)
    }

    /// Whether the layer draws `symbol`, bare or through a shape system.
    pub open spec fn holds_symbol(self, symbol: SymbolId) -> bool {
        self.elements.contains(LayerItem::Symbol(symbol)) || exists|id: ShapeSystemId|
            self.shapes_of_symbol(symbol).contains(id)
    }

    /// The dependencies that the static orderings of the layer's shape
    /// systems stand for.
    pub open spec fn static_order(self) -> Set<Edge> {
        Set::new(
            |e: Edge|
                exists|id: ShapeSystemId|
                    self.shapes.contains_key(id) && #[trigger] static_edges(
                        id,
                        self.shapes[id].above,
                        self.shapes[id].below,
                    ).contains(e),
        )
    }

    /// All dependencies that bear on the layer: those of its groups, its own
    /// and the static ones. None takes precedence.
    pub open spec fn combined_order(self, global: Set<Edge>) -> Set<Edge> {
        global.union(self.local_order).union(self.static_order())
    }

    /// The symbols of the layer in the order in which they are drawn under
    /// the group dependencies `global`.
    pub open spec fn draw_order(self, global: Set<Edge>) -> Seq<SymbolId> {
        symbols_of(self.shapes, resolve_order(self.combined_order(global), self.elements))
    }

    /// The layer without the shape systems that draw under `symbol`.
    pub open spec fn without_shapes_of(self, symbol: SymbolId) -> LayerView {
        LayerView {
            elements: self.elements.difference(
                Set::new(
                    |item: LayerItem|
                        item matches LayerItem::ShapeSystem(id) && self.shapes_of_symbol(
                            symbol,
                        ).contains(id),
                ),
            ),
            shapes: self.shapes.remove_keys(self.shapes_of_symbol(symbol)),
            ..self
        }
    }

    /// The layer after the bare symbol `symbol` was added.
    pub open spec fn with_symbol(self, symbol: SymbolId) -> LayerView {
        LayerView { elements: self.elements.insert(LayerItem::Symbol(symbol)), dirty: true, ..self }
    }

    /// The layer after a shape of the shape system `id` was added: the shape
    /// system is an element and is recorded. Every other element stays. A
    /// symbol is registered with one shape system at a time: the shape system
    /// that drew under the symbol before loses its record, and is from then
    /// on an element without a symbol.
    pub open spec fn with_shape(self, id: ShapeSystemId, record: ShapeRecord) -> LayerView {
        LayerView {
            elements: self.elements.insert(LayerItem::ShapeSystem(id)),
            shapes: self.shapes.remove_keys(self.shapes_of_symbol(record.symbol)).insert(
                id,
                record,
            ),
            dirty: true,
            ..self
        }
    }

    /// The elements of the layer that have no symbol: the shape systems that
    /// are not recorded. Resolving leaves them out of the symbols.
    pub open spec fn unmapped(self) -> Set<LayerItem> {
        Set::new(
            |item: LayerItem|
                self.elements.contains(item) && symbol_of_item(self.shapes, item) is None,
        )
    }

    /// The layer after `symbol` was removed, as a bare symbol and together
    /// with the shape system that drew under it.
    pub open spec fn without_symbol(self, symbol: SymbolId) -> LayerView {
        let cleared = self.without_shapes_of(symbol);
        LayerView {
            elements: cleared.elements.remove(LayerItem::Symbol(symbol)),
            dirty: true,
            ..cleared
        }
    }

    /// The layer after its elements were resolved under the group
    /// dependencies `global`: it keeps the resolved order and is clean.
    pub open spec fn resolved(self, global: Set<Edge>) -> LayerView {
        LayerView { dirty: false, sorted: self.draw_order(global), ..self }
    }

    /// What holds of the state of every layer: a shape system that is
    /// recorded is an element, a symbol is recorded for one shape system at
    /// most, neither a parent nor a child is listed twice, and the vacant
    /// slots are those that are listed as vacant.
    pub open spec fn wf(self) -> bool {
        &&& self.elements.finite()
        &&& forall|id: ShapeSystemId| #[trigger]
            self.shapes.contains_key(id) ==> self.elements.contains(LayerItem::ShapeSystem(id))
        &&& forall|a: ShapeSystemId, b: ShapeSystemId|
            self.shapes.contains_key(a) && self.shapes.contains_key(b) && self.shapes[a].symbol
                == self.shapes[b].symbol ==> a == b
        &&& self.parents.no_duplicates()
        &&& slots_wf(self.slots, self.vacant)
    }
}

/// No child fills two slots, and `vacant` lists exactly the vacant slots,
/// each once.
pub open spec fn slots_wf(slots: Seq<Option<LayerId>>, vacant: Seq<usize>) -> bool {
    &&& distinct_slots(slots)
    &&& vacant.no_duplicates()
    &&& forall|k: int|
        0 <= k < vacant.len() ==> (#[trigger] vacant[k]) < slots.len() && slots[vacant[k] as int]
            is None
    &&& forall|i: int|
        0 <= i < slots.len() && (#[trigger] slots[i]) is None ==> exists|k: int|
            0 <= k < vacant.len() && #[trigger] vacant[k] == i
}

/// The slot `i` is the one that the next child takes: the slot that was
/// vacated last, or the one past the last where none is vacant.
pub open spec fn is_next_slot(slots: Seq<Option<LayerId>>, vacant: Seq<usize>, i: int) -> bool {
    if vacant.len() > 0 {
        i == vacant.last()
    } else {
        i == slots.len()
    }
}

/// The vacant slots after the next child took its slot.
pub open spec fn rest_of(vacant: Seq<usize>) -> Seq<usize> {
    if vacant.len() > 0 {
        vacant.drop_last()
    } else {
        vacant
    }
}

/// The slot that `id` fills.
pub open spec fn slot_of(slots: Seq<Option<LayerId>>, id: LayerId) -> usize {
    choose|i: usize| i < slots.len() && slots[i as int] == Some(id)
}

/// The vacant slots after `id` left its slot.
pub open spec fn freed(slots: Seq<Option<LayerId>>, vacant: Seq<usize>, id: LayerId) -> Seq<usize> {
    if slots.contains(Some(id)) {
        vacant.push(slot_of(slots, id))
    } else {
        vacant
    }
}

/// The slots with `id` in the slot `i`, which is added where it is past the
/// last.
pub open spec fn fill(slots: Seq<Option<LayerId>>, i: int, id: LayerId) -> Seq<Option<LayerId>> {
    if i < slots.len() {
        slots.update(i, Some(id))
    } else {
        slots.push(Some(id))
    }
}

/// The slots with the slot of `id` vacant.
pub open spec fn vacated(slots: Seq<Option<LayerId>>, id: LayerId) -> Seq<Option<LayerId>> {
    Seq::new(
        slots.len(),
        |i: int|
            if slots[i] == Some(id) {
                None
            } else {
                slots[i]
            },
    )
}

/// `after` is `before` without `id`, the other layers in their order.
pub open spec fn struck_from(before: Seq<LayerId>, id: LayerId, after: Seq<LayerId>) -> bool {
    if before.contains(id) {
        exists|i: int| 0 <= i < before.len() && before[i] == id && after == before.remove(i)
    } else {
        after == before
    }
}

/// The slots of a group of layers. A slot keeps its position for as long as
/// its layer is in the group; a slot that fell vacant is used again, the one
/// that fell vacant last first.
pub struct ChildrenModel {
    layers: Vec<Option<LayerId>>,
    free_ixs: Vec<usize>,
    layer_placement: HashMap<usize, usize>,
}

impl View for ChildrenModel {
    type V = Seq<Option<LayerId>>;

    closed spec fn view(&self) -> Seq<Option<LayerId>> {
        self.layers@
    }
}

/// The layers that fill the slots, in the order of their slots.
pub open spec fn filled(slots: Seq<Option<LayerId>>) -> Seq<LayerId>
    decreases slots.len(),
{
    if slots.len() == 0 {
        Seq::empty()
    } else {
        let front = filled(slots.drop_last());
        match slots.last() {
            Some(id) => front.push(id),
            None => front,
        }
    }
}

/// A layer is among the filled slots exactly when some slot holds it.
pub proof fn lemma_filled_contains(slots: Seq<Option<LayerId>>, id: LayerId)
    ensures
        filled(slots).contains(id) <==> slots.contains(Some(id)),
    decreases slots.len(),
{
    if slots.len() > 0 {
        let front = slots.drop_last();
        lemma_filled_contains(front, id);
        if filled(slots).contains(id) {
            let i = choose|i: int| 0 <= i < filled(slots).len() && filled(slots)[i] == id;
            if slots.last() == Some(id) {
                assert(slots[slots.len() - 1] == Some(id));
            } else {
                if slots.last() is Some {
                    assert(filled(slots) == filled(front).push(slots.last()->0));
                    assert(i < filled(front).len());
                }
                assert(filled(front)[i] == id);
                assert(filled(front).contains(id));
                let j = choose|j: int| 0 <= j < front.len() && front[j] == Some(id);
                assert(slots[j] == Some(id));
            }
        }
        if slots.contains(Some(id)) {
            let j = choose|j: int| 0 <= j < slots.len() && slots[j] == Some(id);
            if j == slots.len() - 1 {
                assert(filled(slots) == filled(front).push(id));
                assert(filled(slots)[filled(front).len() as int] == id);
            } else {
                assert(front[j] == Some(id));
                assert(front.contains(Some(id)));
                let i = choose|i: int| 0 <= i < filled(front).len() && filled(front)[i] == id;
                assert(filled(slots)[i] == id);
            }
        }
    }
}

impl ChildrenModel {
    /// The vacant slots, the one that was vacated last at the end.
    pub closed spec fn free(&self) -> Seq<usize> {
        self.free_ixs@
    }

    /// The index from layers to slots names, for every layer of the group,
    /// the slot that the layer fills, and names no other layer.
    pub closed spec fn indexed(&self) -> bool {
        let index = self.layer_placement@;
        &&& forall|id: usize| #[trigger]
            index.contains_key(id) ==> index[id] < self.layers@.len() && self.layers@[index[id] as int]
                == Some(LayerId(id))
        &&& forall|ix: int|
            0 <= ix < self.layers@.len() ==> (#[trigger] self.layers@[ix] matches Some(id)
                ==> index.contains_key(id.0) && index[id.0] == ix)
    }

    /// The group is well formed: no child fills two slots, the vacant slots
    /// are listed, and the index from layers to slots is right.
    pub open spec fn wf(&self) -> bool {
        slots_wf(self@, self.free()) && self.indexed()
    }

    /// A group without slots.
    pub fn new() -> (model: ChildrenModel)
        ensures
            model.wf(),
            model@ == Seq::<Option<LayerId>>::empty(),
            model.free() == Seq::<usize>::empty(),
    {
        ChildrenModel { layers: Vec::new(), free_ixs: Vec::new(), layer_placement: HashMap::new() }
    }

    /// Takes every slot away. Nothing is vacant afterwards, since nothing is
    /// there.
    pub fn clear(&mut self)
        ensures
            final(self).wf(),
            final(self)@ == Seq::<Option<LayerId>>::empty(),
            final(self).free() == Seq::<usize>::empty(),
    {
        self.layers = Vec::new();
        self.free_ixs = Vec::new();
        self.layer_placement = HashMap::new();
    }

    /// All layers of the group, in the order of their slots.
    pub fn all(&self) -> (layers: Vec<LayerId>)
        ensures
            layers@ == filled(self@),
    {
        let mut layers: Vec<LayerId> = Vec::new();
        let mut i: usize = 0;
        assert(self@.take(0) =~= Seq::<Option<LayerId>>::empty());
        while i < self.layers.len()
            invariant
                i <= self.layers.len(),
                layers@ == filled(self@.take(i as int)),
            decreases self.layers.len() - i,
        {
            assert(self@.take(i + 1).drop_last() =~= self@.take(i as int));
            match self.layers[i] {
                Some(id) => {
                    layers.push(id);
                },
                None => {},
            }
            i += 1;
        }
        assert(self@.take(i as int) =~= self@);
        layers
    }

    /// The slot of the layer `layer_id`, if the layer is in the group.
    pub fn layer_ix(&self, layer_id: LayerId) -> (slot: Option<usize>)
        requires
            self.indexed(),
        ensures
            match slot {
                Some(ix) => ix < self@.len() && self@[ix as int] == Some(layer_id),
                None => !self@.contains(Some(layer_id)),
            },
    {
        match self.layer_placement.get(&layer_id.0) {
            Some(ix) => Some(*ix),
            None => {
                proof {
                    if self@.contains(Some(layer_id)) {
                        let ix = choose|ix: int| 0 <= ix < self@.len() && self@[ix] == Some(layer_id);
                        assert(self.layers@[ix] == Some(layer_id));
                    }
                }
                None
            },
        }
    }

    /// The layer `layer_id`, if it is in the group.
    pub fn get(&self, layer_id: LayerId) -> (found: Option<LayerId>)
        requires
            self.indexed(),
        ensures
            found == if self@.contains(Some(layer_id)) {
                Some(layer_id)
            } else {
                None
            },
    {
        match self.layer_ix(layer_id) {
            Some(ix) => {
                assert(self@[ix as int] == Some(layer_id));
                Some(layer_id)
            },
            None => None,
        }
    }

    /// Puts `layer_id` into the slot that was vacated last, or into a new slot
    /// where none is vacant. A layer that is in the group already stays where
    /// it is.
    pub fn insert(&mut self, layer_id: LayerId) -> (fresh: bool)
        requires
            old(self).wf(),
        ensures
            final(self).wf(),
            fresh == !old(self)@.contains(Some(layer_id)),
            final(self)@.contains(Some(layer_id)),
            forall|other: LayerId|
                other != layer_id ==> (final(self)@.contains(Some(other)) <==> old(self)@.contains(
                    Some(other),
                )),
            !fresh ==> final(self)@ == old(self)@ && final(self).free() == old(self).free(),
            fresh ==> final(self).free() == rest_of(old(self).free()),
            fresh ==> exists|i: int|
                is_next_slot(old(self)@, old(self).free(), i) && final(self)@ == fill(
                    old(self)@,
                    i,
                    layer_id,
                ),
            final(self)@.len() >= old(self)@.len(),
            forall|i: int|
                0 <= i < old(self)@.len() && old(self)@[i] is Some ==> final(self)@[i] == old(
                    self,
                )@[i],
    {
        if self.layer_ix(layer_id).is_some() {
            return false;
        }
        let ghost before = self@;
        let ghost vacant = self.free();
        let ghost index = self.layer_placement@;
        let ghost slots = self.layers@;
        let i = match self.free_ixs.pop() {
            Some(ix) => {
                assert(vacant[vacant.len() - 1] == ix);
                self.layers.set(ix, Some(layer_id));
                ix
            },
            None => {
                self.layers.push(Some(layer_id));
                self.layers.len() - 1
            },
        };
        self.layer_placement.insert(layer_id.0, i);
        proof {
            assert(!index.contains_key(layer_id.0)) by {
                if index.contains_key(layer_id.0) {
                    assert(slots[index[layer_id.0] as int] == Some(layer_id));
                    assert(before[index[layer_id.0] as int] == Some(layer_id));
                }
            }
            assert forall|id: usize| #[trigger]
                self.layer_placement@.contains_key(id) implies self.layer_placement@[id]
                < self.layers@.len() && self.layers@[self.layer_placement@[id] as int] == Some(
                LayerId(id),
            ) by {
                if id != layer_id.0 {
                    assert(index.contains_key(id));
                    assert(slots[index[id] as int] == Some(LayerId(id)));
                    if i < slots.len() {
                        assert(before[i as int] is None);
                    }
                }
            }
            assert forall|ix: int| 0 <= ix < self.layers@.len() implies (
            #[trigger] self.layers@[ix] matches Some(id) ==> self.layer_placement@.contains_key(
                id.0,
            ) && self.layer_placement@[id.0] == ix) by {
                if ix != i && self.layers@[ix] is Some {
                    assert(slots[ix] == self.layers@[ix]);
                    let id = slots[ix]->0;
                    assert(index.contains_key(id.0) && index[id.0] == ix);
                    assert(before[ix] == Some(id));
                    assert(before.contains(Some(id)));
                }
            }
            let rest = self.free();
            assert(rest == rest_of(vacant));
            assert(self@[i as int] == Some(layer_id));
            assert(is_next_slot(before, vacant, i as int));
            assert(self@ =~= fill(before, i as int, layer_id));
            assert forall|other: LayerId| other != layer_id implies (self@.contains(Some(other))
                <==> before.contains(Some(other))) by {
                if self@.contains(Some(other)) {
                    let j = choose|j: int| 0 <= j < self@.len() && self@[j] == Some(other);
                    assert(before[j] == Some(other));
                }
                if before.contains(Some(other)) {
                    let j = choose|j: int| 0 <= j < before.len() && before[j] == Some(other);
                    assert(self@[j] == Some(other));
                }
            }
            assert forall|a: int, b: int|
                0 <= a < self@.len() && 0 <= b < self@.len() && a != b
                    && self@[a] is Some implies self@[a] != self@[b] by {
                if a == i {
                    if b < before.len() && before[b] == Some(layer_id) {
                        assert(before.contains(Some(layer_id)));
                    }
                } else if b == i {
                    if before[a] == Some(layer_id) {
                        assert(before.contains(Some(layer_id)));
                    }
                } else {
                    assert(before[a] != before[b]);
                }
            }
            assert forall|k: int| 0 <= k < rest.len() implies (#[trigger] rest[k]) < self@.len()
                && self@[rest[k] as int] is None by {
                assert(rest[k] == vacant[k]);
                if vacant.len() > 0 {
                    assert(vacant[k] != vacant[vacant.len() - 1]);
                }
            }
            assert forall|x: int| 0 <= x < self@.len() && (#[trigger] self@[x]) is None implies exists|
                k: int,
            |
                0 <= k < rest.len() && #[trigger] rest[k] == x by {
                assert(before[x] is None);
                let k = choose|k: int| 0 <= k < vacant.len() && #[trigger] vacant[k] == x;
                assert(rest[k] == x);
            }
            assert forall|a: int, b: int|
                0 <= a < rest.len() && 0 <= b < rest.len() && a != b implies rest[a] != rest[b] by {
                assert(vacant[a] != vacant[b]);
            }
        }
        true
    }

    /// Vacates the slot of `layer_id`. The other layers keep their slots.
    pub fn remove(&mut self, layer_id: LayerId) -> (found: bool)
        requires
            old(self).wf(),
        ensures
            final(self).wf(),
            final(self).free() == freed(old(self)@, old(self).free(), layer_id),
            found == old(self)@.contains(Some(layer_id)),
            !final(self)@.contains(Some(layer_id)),
            forall|other: LayerId|
                other != layer_id ==> (final(self)@.contains(Some(other)) <==> old(self)@.contains(
                    Some(other),
                )),
            final(self)@.len() == old(self)@.len(),
            final(self)@ == vacated(old(self)@, layer_id),
            forall|i: int|
                0 <= i < old(self)@.len() && old(self)@[i] != Some(layer_id) ==> final(self)@[i]
                    == old(self)@[i],
    {
        let ghost before = self@;
        let ghost vacant = self.free();
        let ghost index = self.layer_placement@;
        let ghost slots = self.layers@;
        match self.layer_ix(layer_id) {
            Some(ix) => {
                self.layers.set(ix, None);
                self.free_ixs.push(ix);
                self.layer_placement.remove(&layer_id.0);
                proof {
                    assert forall|id: usize| #[trigger]
                        self.layer_placement@.contains_key(id) implies self.layer_placement@[id]
                        < self.layers@.len()
                        && self.layers@[self.layer_placement@[id] as int] == Some(
                        LayerId(id),
                    ) by {
                        assert(index.contains_key(id));
                        assert(slots[index[id] as int] == Some(LayerId(id)));
                        assert(index[id] != ix);
                    }
                    assert forall|j: int| 0 <= j < self.layers@.len() implies (
                    #[trigger] self.layers@[j] matches Some(id)
                        ==> self.layer_placement@.contains_key(id.0)
                        && self.layer_placement@[id.0] == j) by {
                        if j != ix && self.layers@[j] is Some {
                            assert(slots[j] == self.layers@[j]);
                            let id = slots[j]->0;
                            assert(index.contains_key(id.0) && index[id.0] == j);
                            assert(before[ix as int] != before[j]);
                        }
                    }
                    let now = self.free();
                    assert(slot_of(before, layer_id) == ix) by {
                        let c = slot_of(before, layer_id);
                        assert(ix < before.len() && before[ix as int] == Some(layer_id));
                        if c != ix {
                            assert(before[ix as int] != before[c as int]);
                        }
                    }
                    assert(before.contains(Some(layer_id)));
                    assert(now == freed(before, vacant, layer_id));
                    assert forall|k: int| 0 <= k < now.len() implies (#[trigger] now[k])
                        < self@.len() && self@[now[k] as int] is None by {
                        if k < vacant.len() {
                            assert(now[k] == vacant[k]);
                        }
                    }
                    assert forall|x: int|
                        0 <= x < self@.len() && (#[trigger] self@[x]) is None implies exists|k: int|
                        0 <= k < now.len() && #[trigger] now[k] == x by {
                        if x == ix {
                            assert(now[vacant.len() as int] == x);
                        } else {
                            assert(before[x] is None);
                            let k = choose|k: int|
                                0 <= k < vacant.len() && #[trigger] vacant[k] == x;
                            assert(now[k] == x);
                        }
                    }
                    assert forall|a: int, b: int|
                        0 <= a < now.len() && 0 <= b < now.len() && a != b implies now[a]
                        != now[b] by {
                        if a < vacant.len() && b < vacant.len() {
                            assert(vacant[a] != vacant[b]);
                        } else if a < vacant.len() {
                            assert(before[vacant[a] as int] is None);
                        } else {
                            assert(before[vacant[b] as int] is None);
                        }
                    }
                    assert forall|j: int| 0 <= j < before.len() && j != ix implies before[j]
                        != Some(layer_id) by {
                        assert(before[ix as int] != before[j]);
                    }
                    assert(self@ =~= vacated(before, layer_id));
                    assert forall|j: int| 0 <= j < self@.len() implies self@[j] != Some(
                        layer_id,
                    ) by {
                        if j != ix {
                            assert(before[ix as int] != before[j]);
                        }
                    }
                    assert forall|other: LayerId| other != layer_id implies (self@.contains(
                        Some(other),
                    ) <==> before.contains(Some(other))) by {
                        if self@.contains(Some(other)) {
                            let j = choose|j: int| 0 <= j < self@.len() && self@[j] == Some(other);
                            assert(before[j] == Some(other));
                        }
                        if before.contains(Some(other)) {
                            let j = choose|j: int|
                                0 <= j < before.len() && before[j] == Some(other);
                            assert(self@[j] == Some(other));
                        }
                    }
                    assert forall|a: int, b: int|
                        0 <= a < self@.len() && 0 <= b < self@.len() && a != b
                            && self@[a] is Some implies self@[a] != self@[b] by {
                        assert(before[a] != before[b]);
                    }
                }
                true
            },
            None => {
                assert(self@ =~= vacated(before, layer_id));
                false
            },
        }
    }
}

/// A group of layers: its slots, and the flag that asks every layer of the
/// group to resolve its elements again.
pub struct Children {
    model: ChildrenModel,
    element_depth_order_dirty: bool,
}

impl Children {
    /// The slots of the group.
    pub closed spec fn slots(&self) -> Seq<Option<LayerId>> {
        self.model@
    }

    /// The vacant slots of the group, the one that was vacated last at the
    /// end.
    pub closed spec fn vacant(&self) -> Seq<usize> {
        self.model.free()
    }

    /// The group is well formed: its slots are.
    pub closed spec fn wf(&self) -> bool {
        self.model.wf()
    }

    /// Whether the group's dependencies changed since its layers were last
    /// resolved.
    pub closed spec fn dirty(&self) -> bool {
        self.element_depth_order_dirty
    }

    /// A group without layers.
    pub fn new() -> (children: Children)
        ensures
            children.wf(),
            children.slots() == Seq::<Option<LayerId>>::empty(),
            children.vacant() == Seq::<usize>::empty(),
            !children.dirty(),
    {
        Children { model: ChildrenModel::new(), element_depth_order_dirty: false }
    }

    /// Whether the group's dependencies changed since its layers were last
    /// resolved.
    pub fn is_dirty(&self) -> (b: bool)
        ensures
            b == self.dirty(),
    {
        self.element_depth_order_dirty
    }

    /// The slots of the group.
    pub fn borrow(&self) -> (model: &ChildrenModel)
        ensures
            model@ == self.slots(),
            model.free() == self.vacant(),
            model.wf() == self.wf(),
    {
        &self.model
    }
}

/// The dependencies that the pairs stand for: the first kind of shape of a
/// pair is drawn below the second.
pub open spec fn shape_edges(pairs: Seq<(ShapeSystemId, ShapeSystemId)>) -> Set<Edge> {
    Set::new(
        |e: Edge|
            exists|i: int|
                0 <= i < pairs.len() && e == (
                    LayerItem::ShapeSystem((#[trigger] pairs[i]).0),
                    LayerItem::ShapeSystem(pairs[i].1),
                ),
    )
}

/// One more pair stands for one more dependency.
pub proof fn lemma_shape_edges_push(
    pairs: Seq<(ShapeSystemId, ShapeSystemId)>,
    pair: (ShapeSystemId, ShapeSystemId),
)
    ensures
        shape_edges(pairs.push(pair)) == shape_edges(pairs).insert(
            (LayerItem::ShapeSystem(pair.0), LayerItem::ShapeSystem(pair.1)),
        ),
{
    let more = pairs.push(pair);
    let e = (LayerItem::ShapeSystem(pair.0), LayerItem::ShapeSystem(pair.1));
    assert forall|x: Edge| shape_edges(more).contains(x) <==> shape_edges(pairs).insert(
        e,
    ).contains(x) by {
        if shape_edges(more).contains(x) {
            let i = choose|i: int|
                0 <= i < more.len() && x == (
                    LayerItem::ShapeSystem((#[trigger] more[i]).0),
                    LayerItem::ShapeSystem(more[i].1),
                );
            if i < pairs.len() {
                assert(pairs[i] == more[i]);
            }
        }
        if shape_edges(pairs).contains(x) {
            let i = choose|i: int|
                0 <= i < pairs.len() && x == (
                    LayerItem::ShapeSystem((#[trigger] pairs[i]).0),
                    LayerItem::ShapeSystem(pairs[i].1),
                );
            assert(more[i] == pairs[i]);
        }
        if x == e {
            assert(more[pairs.len() as int] == pair);
        }
    }
    assert(shape_edges(more) =~= shape_edges(pairs).insert(e));
}

/// The records that stand for the shape systems of `map`.
pub open spec fn shape_records(map: Map<u64, ShapeSystemSymbolInfo>) -> Map<
    ShapeSystemId,
    ShapeRecord,
> {
    Map::new(
        |id: ShapeSystemId| map.contains_key(id.0),
        |id: ShapeSystemId|
            ShapeRecord {
                symbol: map[id.0].id,
                above: map[id.0].ordering.above@,
                below: map[id.0].ordering.below@,
            },
    )
}

/// A copy of a list of symbols.
pub fn copy_symbols(symbols: &Vec<SymbolId>) -> (copy: Vec<SymbolId>)
    ensures
        copy@ == symbols@,
{
    let mut copy: Vec<SymbolId> = Vec::new();
    let mut i: usize = 0;
    while i < symbols.len()
        invariant
            i <= symbols.len(),
            copy@ == symbols@.take(i as int),
        decreases symbols.len() - i,
    {
        copy.push(symbols[i]);
        assert(symbols@.take(i + 1) =~= symbols@.take(i as int).push(symbols@[i as int]));
        i += 1;
    }
    assert(symbols@.take(i as int) =~= symbols@);
    copy
}

/// The state of one layer.
pub struct LayerModel {
    id: LayerId,
    camera: CameraId,
    shape_system_registry: ShapeSystemRegistry,
    shape_system_to_symbol_info_map: HashMap<u64, ShapeSystemSymbolInfo>,
    symbol_to_shape_system_map: HashMap<u32, u64>,
    elements: ItemSet,
    symbols_ordered: Vec<SymbolId>,
    depth_order: DependencyGraph,
    depth_order_dirty: bool,
    parents: Vec<LayerId>,
    global_element_depth_order: DependencyGraph,
    children: Children,
    mask: Option<LayerId>,
}

impl View for LayerModel {
    type V = LayerView;

    closed spec fn view(&self) -> LayerView {
        LayerView {
            id: self.id,
            camera: self.camera,
            elements: self.elements@,
            shapes: shape_records(self.shape_system_to_symbol_info_map@),
            local_order: self.depth_order@,
            dirty: self.depth_order_dirty,
            sorted: self.symbols_ordered@,
            parents: self.parents@,
            global_order: self.global_element_depth_order@,
            slots: self.children.slots(),
            vacant: self.children.vacant(),
            children_dirty: self.children.dirty(),
            mask: self.mask,
        }
    }
}

impl LayerModel {
    /// The two maps between symbols and shape systems mirror each other.
    spec fn maps_agree(&self) -> bool {
        let by_system = self.shape_system_to_symbol_info_map@;
        let by_symbol = self.symbol_to_shape_system_map@;
        &&& forall|s: u32| #[trigger]
            by_symbol.contains_key(s) ==> by_system.contains_key(by_symbol[s])
                && by_system[by_symbol[s]].id == SymbolId(s)
        &&& forall|k: u64| #[trigger]
            by_system.contains_key(k) ==> by_symbol.contains_key(by_system[k].id.0)
                && by_symbol[by_system[k].id.0] == k
    }

    /// The layer is well formed: its collections are, and its state obeys
    /// what holds of every layer.
    pub closed spec fn wf(&self) -> bool {
        &&& self.elements.wf()
        &&& self.depth_order.wf()
        &&& self.global_element_depth_order.wf()
        &&& self.maps_agree()
        &&& self.children.wf()
        &&& self@.wf()
    }

    /// The layer's cache of shape systems.
    pub closed spec fn registry(&self) -> ShapeSystemRegistry {
        self.shape_system_registry
    }

    /// A well-formed layer has a well-formed state.
    pub proof fn lemma_wf_view(&self)
        requires
            self.wf(),
        ensures
            self@.wf(),
    {
    }

    proof fn lemma_shapes_of_symbol(&self, symbol: SymbolId)
        requires
            self.maps_agree(),
        ensures
            self.symbol_to_shape_system_map@.contains_key(symbol.0) ==> self@.shapes_of_symbol(
                symbol,
            ) == set![ShapeSystemId(self.symbol_to_shape_system_map@[symbol.0])],
            !self.symbol_to_shape_system_map@.contains_key(symbol.0) ==> self@.shapes_of_symbol(
                symbol,
            ) == Set::<ShapeSystemId>::empty(),
    {
        let by_system = self.shape_system_to_symbol_info_map@;
        let by_symbol = self.symbol_to_shape_system_map@;
        let found = self@.shapes_of_symbol(symbol);
        if by_symbol.contains_key(symbol.0) {
            let y = ShapeSystemId(by_symbol[symbol.0]);
            assert forall|id: ShapeSystemId| found.contains(id) <==> set![y].contains(id) by {
                if found.contains(id) {
                    assert(by_system.contains_key(id.0));
                }
            }
            assert(found =~= set![y]);
        } else {
            assert forall|id: ShapeSystemId| !found.contains(id) by {
                if found.contains(id) {
                    assert(by_system.contains_key(id.0));
                }
            }
            assert(found =~= Set::<ShapeSystemId>::empty());
        }
    }

    /// A layer without elements, parents or children, seen through `camera`.
    pub fn new(id: LayerId, camera: CameraId) -> (layer: LayerModel)
        ensures
            layer.wf(),
            layer@ == (LayerView {
                id,
                camera,
                elements: Set::empty(),
                shapes: Map::empty(),
                local_order: Set::empty(),
                dirty: false,
                sorted: Seq::empty(),
                parents: Seq::empty(),
                global_order: Set::empty(),
                slots: Seq::empty(),
                vacant: Seq::empty(),
                children_dirty: false,
                mask: None,
            }),
    {
        let layer = LayerModel {
            id,
            camera,
            shape_system_registry: ShapeSystemRegistry::new(),
            shape_system_to_symbol_info_map: HashMap::new(),
            symbol_to_shape_system_map: HashMap::new(),
            elements: ItemSet::new(),
            symbols_ordered: Vec::new(),
            depth_order: DependencyGraph::new(),
            depth_order_dirty: false,
            parents: Vec::new(),
            global_element_depth_order: DependencyGraph::new(),
            children: Children::new(),
            mask: None,
        };
        assert(layer@.shapes =~= Map::<ShapeSystemId, ShapeRecord>::empty());
        layer
    }

    /// The identifier of the layer.
    pub fn id(&self) -> (id: LayerId)
        ensures
            id == self@.id,
    {
        self.id
    }

    /// The symbols of the layer in the order in which they were last
    /// resolved. Reading them resolves nothing.
    pub fn symbols(&self) -> (symbols: Vec<SymbolId>)
        ensures
            symbols@ == self@.sorted,
    {
        copy_symbols(&self.symbols_ordered)
    }

    /// The symbol that `element` is drawn under in this layer.
    pub fn symbol_id_of_element(&self, element: LayerItem) -> (symbol: Option<SymbolId>)
        ensures
            symbol == symbol_of_item(self@.shapes, element),
    {
        match element {
            LayerItem::Symbol(id) => Some(id),
            LayerItem::ShapeSystem(id) => match self.shape_system_to_symbol_info_map.get(&id.0) {
                Some(info) => Some(info.id),
                None => None,
            },
        }
    }

    /// Whether the layer draws `symbol`, bare or through a shape system.
    pub fn holds_symbol(&self, symbol: SymbolId) -> (b: bool)
        requires
            self.wf(),
        ensures
            b == self@.holds_symbol(symbol),
    {
        proof {
            self.lemma_shapes_of_symbol(symbol);
        }
        let bare = self.elements.contains(&LayerItem::Symbol(symbol));
        let shaped = self.symbol_to_shape_system_map.contains_key(&symbol.0);
        proof {
            if shaped {
                assert(self@.shapes_of_symbol(symbol).contains(
                    ShapeSystemId(self.symbol_to_shape_system_map@[symbol.0]),
                ));
            }
        }
        bare || shaped
    }

    /// Whether the elements have to be resolved again.
    pub fn is_dirty(&self) -> (b: bool)
        ensures
            b == self@.dirty,
    {
        self.depth_order_dirty
    }

    /// The camera of the layer.
    pub fn camera(&self) -> (camera: CameraId)
        ensures
            camera == self@.camera,
    {
        self.camera
    }

    /// Replaces the camera of the layer.
    pub fn set_camera(&mut self, camera: CameraId)
        requires
            old(self).wf(),
        ensures
            final(self).wf(),
            final(self)@ == (LayerView { camera, ..old(self)@ }),
    {
        self.camera = camera;
    }

    /// The layer that masks this layer, if any.
    pub fn mask(&self) -> (mask: Option<LayerId>)
        ensures
            mask == self@.mask,
    {
        self.mask
    }

    /// Makes `mask` the mask of the layer. A mask bears neither on the order
    /// of drawing nor on the life of a layer.
    pub fn set_mask(&mut self, mask: LayerId)
        requires
            old(self).wf(),
        ensures
            final(self).wf(),
            final(self)@ == (LayerView { mask: Some(mask), ..old(self)@ }),
    {
        self.mask = Some(mask);
    }

    /// Adds a dependency between two elements of this layer. The layer turns
    /// dirty only if the dependency is new.
    pub fn add_elements_order_dependency(&mut self, below: LayerItem, above: LayerItem) -> (fresh:
        bool)
        requires
            old(self).wf(),
        ensures
            final(self).wf(),
            fresh == !old(self)@.local_order.contains((below, above)),
            final(self)@ == (LayerView {
                local_order: old(self)@.local_order.insert((below, above)),
                dirty: old(self)@.dirty || fresh,
                ..old(self)@
            }),
    {
        let fresh = self.depth_order.insert_dependency(below, above);
        if fresh {
            self.depth_order_dirty = true;
        }
        fresh
    }

    /// Removes a dependency between two elements of this layer. Returns
    /// whether the dependency was there; only then the layer turns dirty.
    pub fn remove_elements_order_dependency(&mut self, below: LayerItem, above: LayerItem) -> (found:
        bool)
        requires
            old(self).wf(),
        ensures
            final(self).wf(),
            found == old(self)@.local_order.contains((below, above)),
            final(self)@ == (LayerView {
                local_order: old(self)@.local_order.remove((below, above)),
                dirty: old(self)@.dirty || found,
                ..old(self)@
            }),
    {
        let found = self.depth_order.remove_dependency(below, above);
        if found {
            self.depth_order_dirty = true;
        }
        found
    }

    /// Adds a dependency between two kinds of shapes in this layer.
    pub fn add_shapes_order_dependency(&mut self, below: ShapeSystemId, above: ShapeSystemId) -> (fresh:
        bool)
        requires
            old(self).wf(),
        ensures
            final(self).wf(),
            fresh == !old(self)@.local_order.contains(
                (LayerItem::ShapeSystem(below), LayerItem::ShapeSystem(above)),
            ),
            final(self)@ == (LayerView {
                local_order: old(self)@.local_order.insert(
                    (LayerItem::ShapeSystem(below), LayerItem::ShapeSystem(above)),
                ),
                dirty: old(self)@.dirty || fresh,
                ..old(self)@
            }),
    {
        self.add_elements_order_dependency(
            LayerItem::ShapeSystem(below),
            LayerItem::ShapeSystem(above),
        )
    }

    /// Removes a dependency between two kinds of shapes in this layer.
    /// Returns whether the dependency was there.
    pub fn remove_shapes_order_dependency(&mut self, below: ShapeSystemId, above: ShapeSystemId) -> (found:
        bool)
        requires
            old(self).wf(),
        ensures
            final(self).wf(),
            found == old(self)@.local_order.contains(
                (LayerItem::ShapeSystem(below), LayerItem::ShapeSystem(above)),
            ),
            final(self)@ == (LayerView {
                local_order: old(self)@.local_order.remove(
                    (LayerItem::ShapeSystem(below), LayerItem::ShapeSystem(above)),
                ),
                dirty: old(self)@.dirty || found,
                ..old(self)@
            }),
    {
        self.remove_elements_order_dependency(
            LayerItem::ShapeSystem(below),
            LayerItem::ShapeSystem(above),
        )
    }

    /// Adds a dependency that holds in every layer of this layer's group.
    /// Returns whether the dependency is new; only then the group turns
    /// dirty.
    pub fn add_global_elements_order_dependency(&mut self, below: LayerItem, above: LayerItem) -> (fresh:
        bool)
        requires
            old(self).wf(),
        ensures
            final(self).wf(),
            fresh == !old(self)@.global_order.contains((below, above)),
            final(self)@ == (LayerView {
                global_order: old(self)@.global_order.insert((below, above)),
                children_dirty: old(self)@.children_dirty || fresh,
                ..old(self)@
            }),
    {
        let fresh = self.global_element_depth_order.insert_dependency(below, above);
        if fresh {
            self.children.element_depth_order_dirty = true;
        }
        fresh
    }

    /// Removes a dependency that holds in every layer of this layer's group.
    /// Returns whether the dependency was there; only then the group turns
    /// dirty.
    pub fn remove_global_elements_order_dependency(
        &mut self,
        below: LayerItem,
        above: LayerItem,
    ) -> (found: bool)
        requires
            old(self).wf(),
        ensures
            final(self).wf(),
            found == old(self)@.global_order.contains((below, above)),
            final(self)@ == (LayerView {
                global_order: old(self)@.global_order.remove((below, above)),
                children_dirty: old(self)@.children_dirty || found,
                ..old(self)@
            }),
    {
        let found = self.global_element_depth_order.remove_dependency(below, above);
        if found {
            self.children.element_depth_order_dirty = true;
        }
        found
    }

    /// Adds a dependency between two kinds of shapes that holds in every
    /// layer of this layer's group. Returns whether the dependency is new.
    pub fn add_global_shapes_order_dependency(
        &mut self,
        below: ShapeSystemId,
        above: ShapeSystemId,
    ) -> (fresh: bool)
        requires
            old(self).wf(),
        ensures
            final(self).wf(),
            fresh == !old(self)@.global_order.contains(
                (LayerItem::ShapeSystem(below), LayerItem::ShapeSystem(above)),
            ),
            final(self)@ == (LayerView {
                global_order: old(self)@.global_order.insert(
                    (LayerItem::ShapeSystem(below), LayerItem::ShapeSystem(above)),
                ),
                children_dirty: old(self)@.children_dirty || fresh,
                ..old(self)@
            }),
    {
        self.add_global_elements_order_dependency(
            LayerItem::ShapeSystem(below),
            LayerItem::ShapeSystem(above),
        )
    }

    /// Removes a dependency between two kinds of shapes that holds in every
    /// layer of this layer's group. Returns whether the dependency was there.
    pub fn remove_global_shapes_order_dependency(
        &mut self,
        below: ShapeSystemId,
        above: ShapeSystemId,
    ) -> (found: bool)
        requires
            old(self).wf(),
        ensures
            final(self).wf(),
            found == old(self)@.global_order.contains(
                (LayerItem::ShapeSystem(below), LayerItem::ShapeSystem(above)),
            ),
            final(self)@ == (LayerView {
                global_order: old(self)@.global_order.remove(
                    (LayerItem::ShapeSystem(below), LayerItem::ShapeSystem(above)),
                ),
                children_dirty: old(self)@.children_dirty || found,
                ..old(self)@
            }),
    {
        self.remove_global_elements_order_dependency(
            LayerItem::ShapeSystem(below),
            LayerItem::ShapeSystem(above),
        )
    }

    /// Adds, for every pair of `pairs`, the dependency that the first kind of
    /// shape is drawn below the second in every layer of this layer's group.
    /// Returns whether one of them was new; only then the group turns dirty.
    pub fn add_global_shapes_order_dependencies(
        &mut self,
        pairs: &Vec<(ShapeSystemId, ShapeSystemId)>,
    ) -> (fresh: bool)
        requires
            old(self).wf(),
        ensures
            final(self).wf(),
            fresh == !shape_edges(pairs@).subset_of(old(self)@.global_order),
            final(self)@ == (LayerView {
                global_order: old(self)@.global_order.union(shape_edges(pairs@)),
                children_dirty: old(self)@.children_dirty || fresh,
                ..old(self)@
            }),
    {
        let mut fresh = false;
        let mut i: usize = 0;
        proof {
            assert(pairs@.take(0) =~= Seq::<(ShapeSystemId, ShapeSystemId)>::empty());
            assert(shape_edges(pairs@.take(0)) =~= Set::<Edge>::empty());
            assert(old(self)@.global_order.union(Set::<Edge>::empty()) =~= old(
                self,
            )@.global_order);
        }
        while i < pairs.len()
            invariant
                i <= pairs.len(),
                self.wf(),
                fresh == !shape_edges(pairs@.take(i as int)).subset_of(old(self)@.global_order),
                self@ == (LayerView {
                    global_order: old(self)@.global_order.union(
                        shape_edges(pairs@.take(i as int)),
                    ),
                    children_dirty: old(self)@.children_dirty || fresh,
                    ..old(self)@
                }),
            decreases pairs.len() - i,
        {
            let (below, above) = pairs[i];
            let ghost seen = shape_edges(pairs@.take(i as int));
            let added = self.add_global_shapes_order_dependency(below, above);
            proof {
                let e = (LayerItem::ShapeSystem(below), LayerItem::ShapeSystem(above));
                let now = shape_edges(pairs@.take(i + 1));
                assert(pairs@.take(i + 1).drop_last() =~= pairs@.take(i as int));
                assert(pairs@.take(i + 1).last() == (below, above));
                assert(now =~= seen.insert(e)) by {
                    lemma_shape_edges_push(pairs@.take(i as int), (below, above));
                    assert(pairs@.take(i + 1) =~= pairs@.take(i as int).push((below, above)));
                }
                assert(old(self)@.global_order.union(seen).insert(e) =~= old(
                    self,
                )@.global_order.union(now));
                if added {
                    assert(now.contains(e));
                }
            }
            fresh = fresh || added;
            i += 1;
        }
        proof {
            assert(pairs@.take(i as int) =~= pairs@);
        }
        fresh
    }

    /// Instantiates a shape of kind `id` in this layer: resolves the shape
    /// system of that kind in the layer's registry, where `created` is cached
    /// for a kind that is met for the first time, and returns the static
    /// ordering of the kind and the symbol of its shape system. Every shape
    /// of one kind that is instantiated in one layer gets the same symbol.
    /// The elements of the layer are not touched.
    pub fn instantiate(&mut self, id: ShapeSystemId, created: ShapeSystemSymbolInfo) -> (out:
        Instantiation)
        requires
            old(self).wf(),
        ensures
            final(self).wf(),
            final(self)@ == old(self)@,
            instantiated(
                old(self).registry(),
                id,
                created.id,
                final(self).registry(),
                out.symbol_id,
            ),
            out.info.id == id,
            out.info.ordering.above@ == final(self).registry().above_of(id),
            out.info.ordering.below@ == final(self).registry().below_of(id),
    {
        self.shape_system_registry.instantiate(id, created)
    }

    /// The dependencies that hold in every layer of this layer's group.
    pub fn global_graph(&self) -> (graph: &DependencyGraph)
        requires
            self.wf(),
        ensures
            graph.wf(),
            graph@ == self@.global_order,
    {
        &self.global_element_depth_order
    }

    /// The group of this layer.
    pub fn group(&self) -> (children: &Children)
        requires
            self.wf(),
        ensures
            children.wf(),
            children.slots() == self@.slots,
            children.vacant() == self@.vacant,
            children.dirty() == self@.children_dirty,
    {
        &self.children
    }

    /// The layers in whose group this layer is registered.
    pub fn parents(&self) -> (parents: &Vec<LayerId>)
        ensures
            parents@ == self@.parents,
    {
        &self.parents
    }
}

/// The static ordering of the shape system at position `k` of `items`
/// stands for the edge `e`.
pub open spec fn static_at(
    shapes: Map<ShapeSystemId, ShapeRecord>,
    items: Seq<LayerItem>,
    k: int,
    e: Edge,
) -> bool {
    &&& 0 <= k < items.len()
    &&& items[k] matches LayerItem::ShapeSystem(id)
    &&& shapes.contains_key(id)
    &&& static_edges(id, shapes[id].above, shapes[id].below).contains(e)
}

/// The edges that the static orderings of the first `n` items stand for.
pub open spec fn static_upto(
    shapes: Map<ShapeSystemId, ShapeRecord>,
    items: Seq<LayerItem>,
    n: int,
) -> Set<Edge> {
    Set::new(|e: Edge| exists|k: int| k < n && static_at(shapes, items, k, e))
}

/// Adds to `graph` the edges that the static ordering of `id` stands for.
fn add_static_edges(
    graph: &mut DependencyGraph,
    id: ShapeSystemId,
    ordering: &ShapeSystemStaticDepthOrdering,
)
    requires
        old(graph).wf(),
    ensures
        final(graph).wf(),
        final(graph)@ == old(graph)@.union(static_edges(id, ordering.above@, ordering.below@)),
{
    let item = LayerItem::ShapeSystem(id);
    let ghost none = Seq::<ShapeSystemId>::empty();
    let mut j: usize = 0;
    assert(graph@ =~= old(graph)@.union(static_edges(id, none, ordering.below@.take(0))));
    while j < ordering.below.len()
        invariant
            j <= ordering.below.len(),
            graph.wf(),
            item == LayerItem::ShapeSystem(id),
            none == Seq::<ShapeSystemId>::empty(),
            graph@ == old(graph)@.union(static_edges(id, none, ordering.below@.take(j as int))),
        decreases ordering.below.len() - j,
    {
        let other = ordering.below[j];
        graph.insert_dependency(item, LayerItem::ShapeSystem(other));
        proof {
            let a = ordering.below@.take(j as int);
            let b = ordering.below@.take(j + 1);
            let e = (item, LayerItem::ShapeSystem(other));
            assert forall|x: Edge| static_edges(id, none, b).contains(x) <==> static_edges(
                id,
                none,
                a,
            ).insert(e).contains(x) by {
                if static_edges(id, none, b).contains(x) {
                    let i = choose|i: int|
                        0 <= i < b.len() && x.1 == LayerItem::ShapeSystem(#[trigger] b[i]);
                    if i < j {
                        assert(a[i] == b[i]);
                    }
                }
                if static_edges(id, none, a).contains(x) {
                    let i = choose|i: int|
                        0 <= i < a.len() && x.1 == LayerItem::ShapeSystem(#[trigger] a[i]);
                    assert(b[i] == a[i]);
                }
                if x == e {
                    assert(b[j as int] == other);
                }
            }
            assert(static_edges(id, none, b) =~= static_edges(id, none, a).insert(e));
            assert(graph@ =~= old(graph)@.union(static_edges(id, none, b)));
        }
        j += 1;
    }
    assert(ordering.below@.take(j as int) =~= ordering.below@);
    let mut j: usize = 0;
    assert(static_edges(id, ordering.above@.take(0), ordering.below@) =~= static_edges(
        id,
        none,
        ordering.below@,
    ));
    while j < ordering.above.len()
        invariant
            j <= ordering.above.len(),
            graph.wf(),
            item == LayerItem::ShapeSystem(id),
            graph@ == old(graph)@.union(
                static_edges(id, ordering.above@.take(j as int), ordering.below@),
            ),
        decreases ordering.above.len() - j,
    {
        let other = ordering.above[j];
        graph.insert_dependency(LayerItem::ShapeSystem(other), item);
        proof {
            let a = ordering.above@.take(j as int);
            let b = ordering.above@.take(j + 1);
            let below = ordering.below@;
            let e = (LayerItem::ShapeSystem(other), item);
            assert forall|x: Edge| static_edges(id, b, below).contains(x) <==> static_edges(
                id,
                a,
                below,
            ).insert(e).contains(x) by {
                if static_edges(id, b, below).contains(x) {
                    if x.1 == item && exists|i: int|
                        0 <= i < b.len() && x.0 == LayerItem::ShapeSystem(#[trigger] b[i]) {
                        let i = choose|i: int|
                            0 <= i < b.len() && x.0 == LayerItem::ShapeSystem(#[trigger] b[i]);
                        if i < j {
                            assert(a[i] == b[i]);
                        }
                    }
                }
                if static_edges(id, a, below).contains(x) {
                    if x.1 == item && exists|i: int|
                        0 <= i < a.len() && x.0 == LayerItem::ShapeSystem(#[trigger] a[i]) {
                        let i = choose|i: int|
                            0 <= i < a.len() && x.0 == LayerItem::ShapeSystem(#[trigger] a[i]);
                        assert(b[i] == a[i]);
                    }
                }
                if x == e {
                    assert(b[j as int] == other);
                }
            }
            assert(static_edges(id, b, below) =~= static_edges(id, a, below).insert(e));
            assert(graph@ =~= old(graph)@.union(static_edges(id, b, below)));
        }
        j += 1;
    }
    assert(ordering.above@.take(j as int) =~= ordering.above@);
}

impl LayerModel {
    /// Takes the shape system that draws under `symbol` out of the layer.
    fn drop_shapes_of(&mut self, symbol: SymbolId)
        requires
            old(self).wf(),
        ensures
            final(self).wf(),
            final(self)@ == old(self)@.without_shapes_of(symbol),
            !final(self).symbol_to_shape_system_map@.contains_key(symbol.0),
    {
        proof {
            self.lemma_shapes_of_symbol(symbol);
        }
        let ghost before = self@;
        let ghost by_system = self.shape_system_to_symbol_info_map@;
        let ghost doomed = Set::new(
            |item: LayerItem|
                item matches LayerItem::ShapeSystem(id) && before.shapes_of_symbol(symbol).contains(
                    id,
                ),
        );
        match self.symbol_to_shape_system_map.remove(&symbol.0) {
            Some(system) => {
                self.shape_system_to_symbol_info_map.remove(&system);
                self.elements.remove(&LayerItem::ShapeSystem(ShapeSystemId(system)));
                proof {
                    let y = ShapeSystemId(system);
                    assert(shape_records(by_system.remove(system)) =~= before.shapes.remove_keys(
                        set![y],
                    ));
                    assert(doomed =~= set![LayerItem::ShapeSystem(y)]);
                    assert(before.elements.remove(LayerItem::ShapeSystem(y))
                        =~= before.elements.difference(doomed));
                    assert(self@.elements == before.without_shapes_of(symbol).elements);
                    assert(self@.shapes == before.without_shapes_of(symbol).shapes);
                }
            },
            None => {
                proof {
                    assert(doomed =~= Set::<LayerItem>::empty());
                    assert(before.elements =~= before.elements.difference(doomed));
                    assert(before.shapes =~= before.shapes.remove_keys(
                        Set::<ShapeSystemId>::empty(),
                    ));
                }
            },
        }
    }

    /// Takes the record of the shape system that draws under `symbol` out of
    /// the layer. The shape system stays an element.
    fn drop_records_of(&mut self, symbol: SymbolId)
        requires
            old(self).wf(),
        ensures
            final(self).wf(),
            final(self)@ == (LayerView {
                shapes: old(self)@.shapes.remove_keys(old(self)@.shapes_of_symbol(symbol)),
                ..old(self)@
            }),
            !final(self).symbol_to_shape_system_map@.contains_key(symbol.0),
    {
        proof {
            self.lemma_shapes_of_symbol(symbol);
        }
        let ghost before = self@;
        let ghost by_system = self.shape_system_to_symbol_info_map@;
        match self.symbol_to_shape_system_map.remove(&symbol.0) {
            Some(system) => {
                self.shape_system_to_symbol_info_map.remove(&system);
                proof {
                    let y = ShapeSystemId(system);
                    assert(shape_records(by_system.remove(system)) =~= before.shapes.remove_keys(
                        set![y],
                    ));
                }
            },
            None => {
                proof {
                    assert(before.shapes =~= before.shapes.remove_keys(
                        Set::<ShapeSystemId>::empty(),
                    ));
                }
            },
        }
    }

    /// Adds the bare symbol `symbol_id` to the layer.
    pub fn add_symbol(&mut self, symbol_id: SymbolId)
        requires
            old(self).wf(),
        ensures
            final(self).wf(),
            final(self)@ == old(self)@.with_symbol(symbol_id),
    {
        self.depth_order_dirty = true;
        self.elements.insert(LayerItem::Symbol(symbol_id));
    }

    /// Adds a shape to the layer: the shape system of the shape becomes an
    /// element, drawn under `symbol_id`, and its static ordering takes part
    /// in sorting. Every other element stays an element. If another shape
    /// system drew under `symbol_id` before, it loses its record.
    pub fn add_shape(&mut self, shape_system_info: ShapeSystemInfo, symbol_id: SymbolId)
        requires
            old(self).wf(),
        ensures
            final(self).wf(),
            final(self)@ == old(self)@.with_shape(
                shape_system_info.id,
                ShapeRecord {
                    symbol: symbol_id,
                    above: shape_system_info.ordering.above@,
                    below: shape_system_info.ordering.below@,
                },
            ),
    {
        self.drop_records_of(symbol_id);
        let id = shape_system_info.id;
        let ghost mid = self@;
        let ghost by_system = self.shape_system_to_symbol_info_map@;
        let ghost by_symbol = self.symbol_to_shape_system_map@;
        let ghost record = ShapeRecord {
            symbol: symbol_id,
            above: shape_system_info.ordering.above@,
            below: shape_system_info.ordering.below@,
        };
        let previous = match self.shape_system_to_symbol_info_map.get(&id.0) {
            Some(info) => Some(info.id),
            None => None,
        };
        match previous {
            Some(symbol) => {
                self.symbol_to_shape_system_map.remove(&symbol.0);
            },
            None => {},
        }
        let symbol_info = ShapeSystemInfoTemplate::new(symbol_id, shape_system_info.ordering);
        self.shape_system_to_symbol_info_map.insert(id.0, symbol_info);
        self.symbol_to_shape_system_map.insert(symbol_id.0, id.0);
        self.elements.insert(LayerItem::ShapeSystem(id));
        self.depth_order_dirty = true;
        proof {
            assert(self@.shapes =~= mid.shapes.insert(id, record));
            let now_system = self.shape_system_to_symbol_info_map@;
            let now_symbol = self.symbol_to_shape_system_map@;
            assert forall|s: u32| #[trigger] now_symbol.contains_key(s) implies now_system.contains_key(
                now_symbol[s],
            ) && now_system[now_symbol[s]].id == SymbolId(s) by {
                if s != symbol_id.0 {
                    assert(by_symbol.contains_key(s));
                }
            }
            assert forall|k: u64| #[trigger] now_system.contains_key(k) implies now_symbol.contains_key(
                now_system[k].id.0,
            ) && now_symbol[now_system[k].id.0] == k by {
                if k != id.0 {
                    assert(by_system.contains_key(k));
                }
            }
            assert forall|a: ShapeSystemId, b: ShapeSystemId|
                self@.shapes.contains_key(a) && self@.shapes.contains_key(b)
                    && self@.shapes[a].symbol == self@.shapes[b].symbol implies a == b by {
                assert(now_system.contains_key(a.0));
                assert(now_system.contains_key(b.0));
            }
        }
    }

    /// Removes `symbol_id` from the layer: the bare symbol, and the shape
    /// system that draws under it together with its record.
    pub fn remove_symbol(&mut self, symbol_id: SymbolId)
        requires
            old(self).wf(),
        ensures
            final(self).wf(),
            final(self)@ == old(self)@.without_symbol(symbol_id),
    {
        self.drop_shapes_of(symbol_id);
        self.elements.remove(&LayerItem::Symbol(symbol_id));
        self.depth_order_dirty = true;
    }

    /// The symbols of the items of `order`; items without a symbol are left
    /// out.
    pub fn symbols_from(&self, order: &Vec<LayerItem>) -> (symbols: Vec<SymbolId>)
        ensures
            symbols@ == symbols_of(self@.shapes, order@),
    {
        let mut symbols: Vec<SymbolId> = Vec::new();
        let mut i: usize = 0;
        assert(order@.take(0) =~= Seq::<LayerItem>::empty());
        while i < order.len()
            invariant
                i <= order.len(),
                symbols@ == symbols_of(self@.shapes, order@.take(i as int)),
            decreases order.len() - i,
        {
            assert(order@.take(i + 1).drop_last() =~= order@.take(i as int));
            match self.symbol_id_of_element(order[i]) {
                Some(symbol) => {
                    symbols.push(symbol);
                },
                None => {},
            }
            i += 1;
        }
        assert(order@.take(i as int) =~= order@);
        symbols
    }

    /// The elements that have no symbol, in ascending order: the shape
    /// systems that are elements without a record. Resolving leaves them
    /// out of the symbols; a caller may want to say so.
    pub fn unmapped_elements(&self) -> (items: Vec<LayerItem>)
        requires
            self.wf(),
        ensures
            strictly_ascending(items@),
            items@.to_set() == self@.unmapped(),
    {
        let all = self.elements.as_vec();
        let mut items: Vec<LayerItem> = Vec::new();
        let mut i: usize = 0;
        while i < all.len()
            invariant
                i <= all.len(),
                self.wf(),
                all@ == self.elements.seq(),
                strictly_ascending(all@),
                strictly_ascending(items@),
                forall|k: int|
                    0 <= k < items.len() ==> exists|j: int|
                        0 <= j < i && all@[j] == #[trigger] items@[k],
                forall|item: LayerItem|
                    items@.contains(item) <==> (all@.take(i as int).contains(item)
                        && symbol_of_item(self@.shapes, item) is None),
            decreases all.len() - i,
        {
            let item = all[i];
            let ghost before = items@;
            let unmapped = self.symbol_id_of_element(item).is_none();
            if unmapped {
                items.push(item);
            }
            i += 1;
            proof {
                lemma_take_next_contains(all@, i - 1);
                assert forall|k: int| 0 <= k < items.len() implies exists|j: int|
                    0 <= j < i && all@[j] == #[trigger] items@[k] by {
                    if k < before.len() {
                        let j = choose|j: int| 0 <= j < i - 1 && all@[j] == before[k];
                        assert(all@[j] == items@[k]);
                    } else {
                        assert(all@[i - 1] == items@[k]);
                    }
                }
                if unmapped {
                    assert forall|a: int, b: int| 0 <= a < b < items@.len() implies items@[a].rank()
                        < items@[b].rank() by {
                        if b == before.len() {
                            let j = choose|j: int| 0 <= j < i - 1 && all@[j] == before[a];
                            assert(all@[j].rank() < all@[i - 1].rank());
                        } else {
                            assert(before[a].rank() < before[b].rank());
                        }
                    }
                    assert(items@[before.len() as int] == item);
                }
                assert forall|x: LayerItem| items@.contains(x) <==> (all@.take(i as int).contains(
                    x,
                ) && symbol_of_item(self@.shapes, x) is None) by {
                    if items@.contains(x) {
                        let k = choose|k: int| 0 <= k < items@.len() && items@[k] == x;
                        if k < before.len() {
                            assert(before[k] == x);
                            assert(before.contains(x));
                        }
                    }
                    if before.contains(x) {
                        let k = choose|k: int| 0 <= k < before.len() && before[k] == x;
                        assert(items@[k] == x);
                    }
                }
            }
        }
        proof {
            assert(all@.take(i as int) =~= all@);
            assert forall|x: LayerItem| items@.to_set().contains(x) <==> self@.unmapped().contains(
                x,
            ) by {
                assert(all@.to_set().contains(x) == all@.contains(x));
            }
            assert(items@.to_set() =~= self@.unmapped());
        }
        items
    }

    /// The graph of all dependencies that bear on the layer: those of its
    /// groups, handed in as `global_element_depth_order`, the layer's own, and
    /// the static orderings of the layer's shape systems.
    pub fn combined_depth_order_graph(
        &self,
        global_element_depth_order: &DependencyGraph,
    ) -> (graph: DependencyGraph)
        requires
            self.wf(),
            global_element_depth_order.wf(),
        ensures
            graph.wf(),
            graph@ == self@.combined_order(global_element_depth_order@),
    {
        let mut graph = global_element_depth_order.clone();
        graph.extend(&self.depth_order);
        let items = self.elements.as_vec();
        let ghost base = global_element_depth_order@.union(self@.local_order);
        let ghost shapes = self@.shapes;
        let mut i: usize = 0;
        assert(graph@ =~= base.union(static_upto(shapes, items@, 0)));
        while i < items.len()
            invariant
                i <= items.len(),
                graph.wf(),
                items@ == self.elements.seq(),
                shapes == self@.shapes,
                graph@ == base.union(static_upto(shapes, items@, i as int)),
            decreases items.len() - i,
        {
            let ghost before = graph@;
            match items[i] {
                LayerItem::ShapeSystem(id) => {
                    match self.shape_system_to_symbol_info_map.get(&id.0) {
                        Some(info) => {
                            add_static_edges(&mut graph, id, &info.ordering);
                            proof {
                                let added = static_edges(id, shapes[id].above, shapes[id].below);
                                assert forall|e: Edge| static_upto(
                                    shapes,
                                    items@,
                                    i + 1,
                                ).contains(e) <==> static_upto(shapes, items@, i as int).union(
                                    added,
                                ).contains(e) by {
                                    if static_upto(shapes, items@, i + 1).contains(e) {
                                        let k = choose|k: int|
                                            k < i + 1 && static_at(shapes, items@, k, e);
                                        if k < i {
                                            assert(static_upto(shapes, items@, i as int).contains(
                                                e,
                                            ));
                                        }
                                    }
                                    if static_upto(shapes, items@, i as int).contains(e) {
                                        let k = choose|k: int|
                                            k < i && static_at(shapes, items@, k, e);
                                        assert(k < i + 1 && static_at(shapes, items@, k, e));
                                    }
                                    if added.contains(e) {
                                        assert(static_at(shapes, items@, i as int, e));
                                    }
                                }
                                assert(static_upto(shapes, items@, i + 1) =~= static_upto(
                                    shapes,
                                    items@,
                                    i as int,
                                ).union(added));
                                assert(shapes[id].above == info.ordering.above@);
                                assert(shapes[id].below == info.ordering.below@);
                                assert(graph@ == before.union(added));
                                assert(graph@ =~= base.union(static_upto(shapes, items@, i + 1)));
                            }
                        },
                        None => {
                            proof {
                                assert(static_upto(shapes, items@, i + 1) =~= static_upto(
                                    shapes,
                                    items@,
                                    i as int,
                                ));
                            }
                        },
                    }
                },
                LayerItem::Symbol(_) => {
                    proof {
                        assert(static_upto(shapes, items@, i + 1) =~= static_upto(
                            shapes,
                            items@,
                            i as int,
                        ));
                    }
                },
            }
            i += 1;
        }
        proof {
            let all = static_upto(shapes, items@, items.len() as int);
            assert forall|e: Edge| all.contains(e) <==> self@.static_order().contains(e) by {
                if all.contains(e) {
                    let k = choose|k: int| k < items.len() && static_at(shapes, items@, k, e);
                    let id = items@[k]->ShapeSystem_0;
                    assert(static_edges(id, shapes[id].above, shapes[id].below).contains(e));
                }
                if self@.static_order().contains(e) {
                    let id = choose|id: ShapeSystemId|
                        shapes.contains_key(id) && #[trigger] static_edges(
                            id,
                            shapes[id].above,
                            shapes[id].below,
                        ).contains(e);
                    assert(self@.elements.contains(LayerItem::ShapeSystem(id)));
                    let k = choose|k: int|
                        0 <= k < items@.len() && items@[k] == LayerItem::ShapeSystem(id);
                    assert(static_at(shapes, items@, k, e));
                }
            }
            assert(all =~= self@.static_order());
        }
        graph
    }

    /// Resolves the elements of the layer under the group dependencies
    /// `global_element_depth_order` and keeps the symbols in the resolved
    /// order.
    pub fn depth_sort(&mut self, global_element_depth_order: &DependencyGraph)
        requires
            old(self).wf(),
            global_element_depth_order.wf(),
        ensures
            final(self).wf(),
            final(self)@ == (LayerView {
                sorted: old(self)@.draw_order(global_element_depth_order@),
                ..old(self)@
            }),
    {
        let graph = self.combined_depth_order_graph(global_element_depth_order);
        let sorted_elements = graph.resolve(self.elements.as_vec());
        let sorted_symbols = self.symbols_from(&sorted_elements);
        self.symbols_ordered = sorted_symbols;
    }

    /// Consumes the dirty flag: where the layer is dirty, or `forced` to,
    /// its elements are resolved again under the group dependencies
    /// `global_element_depth_order`. Returns whether they were.
    pub fn update_internal(
        &mut self,
        global_element_depth_order: &DependencyGraph,
        forced: bool,
    ) -> (resorted: bool)
        requires
            old(self).wf(),
            global_element_depth_order.wf(),
        ensures
            final(self).wf(),
            resorted == (old(self)@.dirty || forced),
            resorted ==> final(self)@ == old(self)@.resolved(global_element_depth_order@),
            !resorted ==> final(self)@ == old(self)@,
    {
        if self.depth_order_dirty || forced {
            self.depth_order_dirty = false;
            self.depth_sort(global_element_depth_order);
            true
        } else {
            false
        }
    }

    /// Refreshes a layer that is in no group: where it is dirty, its
    /// elements are resolved again under its own and the static
    /// dependencies.
    pub fn update(&mut self)
        requires
            old(self).wf(),
        ensures
            final(self).wf(),
            old(self)@.dirty ==> final(self)@ == old(self)@.resolved(Set::empty()),
            !old(self)@.dirty ==> final(self)@ == old(self)@,
    {
        let global = DependencyGraph::new();
        self.update_internal(&global, false);
    }
}

impl LayerModel {
    /// Registers the layer in the group of `parent`. A layer whose groups
    /// change has to be resolved again.
    pub(crate) fn add_parent(&mut self, parent: LayerId) -> (fresh: bool)
        requires
            old(self).wf(),
        ensures
            final(self).wf(),
            fresh == !old(self)@.parents.contains(parent),
            final(self)@ == (LayerView {
                parents: if fresh {
                    old(self)@.parents.push(parent)
                } else {
                    old(self)@.parents
                },
                dirty: old(self)@.dirty || fresh,
                ..old(self)@
            }),
    {
        let mut i: usize = 0;
        while i < self.parents.len()
            invariant
                i <= self.parents.len(),
                *self == *old(self),
                self.wf(),
                forall|j: int| 0 <= j < i ==> self.parents@[j] != parent,
            decreases self.parents.len() - i,
        {
            if self.parents[i].0 == parent.0 {
                return false;
            }
            i += 1;
        }
        self.parents.push(parent);
        self.depth_order_dirty = true;
        true
    }

    /// Strikes `parent` from the groups that the layer is registered in.
    pub(crate) fn remove_parent(&mut self, parent: LayerId) -> (found: bool)
        requires
            old(self).wf(),
        ensures
            final(self).wf(),
            found == old(self)@.parents.contains(parent),
            !final(self)@.parents.contains(parent),
            struck_from(old(self)@.parents, parent, final(self)@.parents),
            forall|other: LayerId|
                other != parent ==> (final(self)@.parents.contains(other)
                    <==> old(self)@.parents.contains(other)),
            final(self)@ == (LayerView {
                parents: final(self)@.parents,
                dirty: old(self)@.dirty || found,
                ..old(self)@
            }),
    {
        let ghost before = self.parents@;
        let mut i: usize = 0;
        while i < self.parents.len()
            invariant
                i <= self.parents.len(),
                self.parents@ == before,
                before.no_duplicates(),
                *self == *old(self),
                self.wf(),
                forall|j: int| 0 <= j < i ==> self.parents@[j] != parent,
            decreases self.parents.len() - i,
        {
            if self.parents[i].0 == parent.0 {
                self.parents.remove(i);
                self.depth_order_dirty = true;
                proof {
                    let after = self.parents@;
                    assert(before[i as int] == parent && after == before.remove(i as int));
                    assert(before.contains(parent));
                    assert forall|other: LayerId| after.contains(other) <==> (other != parent
                        && before.contains(other)) by {
                        if after.contains(other) {
                            let j = choose|j: int| 0 <= j < after.len() && after[j] == other;
                            if j < i {
                                assert(before[j] == other);
                            } else {
                                assert(before[j + 1] == other);
                                assert(before[i as int] != before[j + 1]);
                            }
                        }
                        if other != parent && before.contains(other) {
                            let j = choose|j: int| 0 <= j < before.len() && before[j] == other;
                            if j < i {
                                assert(after[j] == other);
                            } else {
                                assert(after[j - 1] == other);
                            }
                        }
                    }
                    assert forall|a: int, b: int|
                        0 <= a < after.len() && 0 <= b < after.len() && a != b implies after[a]
                        != after[b] by {
                        let x = if a < i {
                            a
                        } else {
                            a + 1
                        };
                        let y = if b < i {
                            b
                        } else {
                            b + 1
                        };
                        assert(before[x] != before[y]);
                    }
                }
                return true;
            }
            i += 1;
        }
        false
    }

    /// Lists `child` in the group of the layer.
    pub(crate) fn insert_child(&mut self, child: LayerId) -> (fresh: bool)
        requires
            old(self).wf(),
        ensures
            final(self).wf(),
            fresh == !old(self)@.slots.contains(Some(child)),
            final(self)@.slots.contains(Some(child)),
            forall|other: LayerId|
                other != child ==> (final(self)@.slots.contains(Some(other))
                    <==> old(self)@.slots.contains(Some(other))),
            !fresh ==> final(self)@.slots == old(self)@.slots,
            fresh ==> exists|i: int|
                is_next_slot(old(self)@.slots, old(self)@.vacant, i) && final(self)@.slots == fill(
                    old(self)@.slots,
                    i,
                    child,
                ),
            final(self)@.vacant == (if fresh {
                rest_of(old(self)@.vacant)
            } else {
                old(self)@.vacant
            }),
            final(self)@.slots.len() >= old(self)@.slots.len(),
            forall|i: int|
                0 <= i < old(self)@.slots.len() && old(self)@.slots[i] is Some ==> final(self)@.slots[i] == old(self)@.slots[i],
            final(self)@ == (LayerView {
                slots: final(self)@.slots,
                vacant: final(self)@.vacant,
                ..old(self)@
            }),
    {
        self.children.model.insert(child)
    }

    /// Strikes `child` from the group of the layer.
    pub(crate) fn remove_child(&mut self, child: LayerId) -> (found: bool)
        requires
            old(self).wf(),
        ensures
            final(self).wf(),
            found == old(self)@.slots.contains(Some(child)),
            !final(self)@.slots.contains(Some(child)),
            forall|other: LayerId|
                other != child ==> (final(self)@.slots.contains(Some(other))
                    <==> old(self)@.slots.contains(Some(other))),
            final(self)@.slots == vacated(old(self)@.slots, child),
            final(self)@.vacant == freed(old(self)@.slots, old(self)@.vacant, child),
            final(self)@.slots.len() == old(self)@.slots.len(),
            forall|i: int|
                0 <= i < old(self)@.slots.len() && old(self)@.slots[i] != Some(child) ==> final(self)@.slots[i] == old(self)@.slots[i],
            final(self)@ == (LayerView {
                slots: final(self)@.slots,
                vacant: final(self)@.vacant,
                ..old(self)@
            }),
    {
        self.children.model.remove(child)
    }

    /// Takes every slot of the layer's group away. No slot may hold a child.
    pub(crate) fn clear_children(&mut self)
        requires
            old(self).wf(),
            forall|i: int| 0 <= i < old(self)@.slots.len() ==> old(self)@.slots[i] is None,
        ensures
            final(self).wf(),
            final(self)@ == (LayerView { slots: Seq::empty(), vacant: Seq::empty(), ..old(self)@ }),
    {
        self.children.model.clear();
    }

    /// Clears the flag of the layer's group.
    pub(crate) fn clear_children_dirty(&mut self)
        requires
            old(self).wf(),
        ensures
            final(self).wf(),
            final(self)@ == (LayerView { children_dirty: false, ..old(self)@ }),
    {
        self.children.element_depth_order_dirty = false;
    }
}

} // verus!
