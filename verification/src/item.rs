//! Identifiers of drawable things and the items that depth ordering works on.

use vstd::prelude::*;

verus! {

/// Identifier of a primitive drawable unit. Identifiers grow with every symbol
/// created, which makes them the tie-break key of depth sorting.
#[derive(Clone, Copy, Debug, PartialEq, Eq, Hash, PartialOrd, Ord, Structural)]
pub struct SymbolId(pub u32);

/// Identifier of a category of shape systems, one per distinct kind of shape.
#[derive(Clone, Copy, Debug, PartialEq, Eq, Hash, PartialOrd, Ord, Structural)]
pub struct ShapeSystemId(pub u64);

/// Identifier of a layer. It is the index of the layer's slot in its scene and
/// is never handed out twice.
#[derive(Clone, Copy, Debug, PartialEq, Eq, Hash, PartialOrd, Ord, Structural)]
pub struct LayerId(pub usize);

/// The unit that depth ordering works on: a symbol or a shape system.
#[derive(Clone, Copy, Debug, PartialEq, Eq, Hash, PartialOrd, Ord, Structural)]
pub enum LayerItem {
    Symbol(SymbolId),
    ShapeSystem(ShapeSystemId),
}

/// The first rank of a shape system: every symbol ranks below it.
pub open spec fn shape_system_base() -> int {
    0x1_0000_0000
}

impl LayerItem {
    /// Position of the item in the total order of items: symbols come before
    /// shape systems, and within one variant the smaller identifier comes first.
    pub open spec fn rank(self) -> int {
        match self {
            LayerItem::Symbol(id) => id.0 as int,
            LayerItem::ShapeSystem(id) => shape_system_base() + id.0 as int,
        }
    }

    /// Different items have different ranks.
    pub proof fn lemma_rank_injective(a: LayerItem, b: LayerItem)
        requires
            a.rank() == b.rank(),
        ensures
            a == b,
    {
    }

    /// Whether `self` comes strictly before `other` in the order of items.
    pub fn less(&self, other: &LayerItem) -> (b: bool)
        ensures
            b == (self.rank() < other.rank()),
    {
        match (*self, *other) {
            (LayerItem::Symbol(a), LayerItem::Symbol(b)) => a.0 < b.0,
            (LayerItem::Symbol(_), LayerItem::ShapeSystem(_)) => true,
            (LayerItem::ShapeSystem(_), LayerItem::Symbol(_)) => false,
            (LayerItem::ShapeSystem(a), LayerItem::ShapeSystem(b)) => a.0 < b.0,
        }
    }

    /// Whether the two items are the same item.
    pub fn same(&self, other: &LayerItem) -> (b: bool)
        ensures
            b == (*self == *other),
    {
        match (*self, *other) {
            (LayerItem::Symbol(a), LayerItem::Symbol(b)) => a.0 == b.0,
            (LayerItem::ShapeSystem(a), LayerItem::ShapeSystem(b)) => a.0 == b.0,
            _ => false,
        }
    }
}

impl From<ShapeSystemId> for LayerItem {
    fn from(id: ShapeSystemId) -> (item: LayerItem) {
        LayerItem::ShapeSystem(id)
    }
}

impl vstd::std_specs::convert::FromSpecImpl<ShapeSystemId> for LayerItem {
    open spec fn obeys_from_spec() -> bool {
        true
    }

    open spec fn from_spec(id: ShapeSystemId) -> LayerItem {
        LayerItem::ShapeSystem(id)
    }
}

impl From<SymbolId> for LayerItem {
    fn from(id: SymbolId) -> (item: LayerItem) {
        LayerItem::Symbol(id)
    }
}

impl vstd::std_specs::convert::FromSpecImpl<SymbolId> for LayerItem {
    open spec fn obeys_from_spec() -> bool {
        true
    }

    open spec fn from_spec(id: SymbolId) -> LayerItem {
        LayerItem::Symbol(id)
    }
}

} // verus!
