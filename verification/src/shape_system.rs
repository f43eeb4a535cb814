//! Shape systems: the static depth ordering that a kind of shape declares, and
//! the registry that keeps one shared shape system per kind.

use crate::item::{LayerItem, ShapeSystemId, SymbolId};
use crate::order::Edge;
use std::collections::HashMap;
use vstd::prelude::*;

verus! {

/// The depth ordering that a kind of shape declares once and for all: the
/// shape systems that it is drawn above, and those that it is drawn below.
#[derive(Debug)]
pub struct ShapeSystemStaticDepthOrdering {
    pub above: Vec<ShapeSystemId>,
    pub below: Vec<ShapeSystemId>,
}

/// A static depth ordering together with an identifier.
#[derive(Debug)]
pub struct ShapeSystemInfoTemplate<T> {
    pub id: T,
    pub ordering: ShapeSystemStaticDepthOrdering,
}

/// The static ordering of a shape system, named by the shape system.
pub type ShapeSystemInfo = ShapeSystemInfoTemplate<ShapeSystemId>;

/// The static ordering of a shape system, named by the symbol it draws under.
pub type ShapeSystemSymbolInfo = ShapeSystemInfoTemplate<SymbolId>;

/// The edges that the static ordering of the shape system `id` stands for:
/// the shape system comes before everything it is below, and after
/// everything it is above.
pub open spec fn static_edges(id: ShapeSystemId, above: Seq<ShapeSystemId>, below: Seq<ShapeSystemId>) -> Set<Edge> {
    Set::new(
        |e: Edge|
            {
                ||| e.0 == LayerItem::ShapeSystem(id) && exists|i: int|
                    0 <= i < below.len() && e.1 == LayerItem::ShapeSystem(#[trigger] below[i])
                ||| e.1 == LayerItem::ShapeSystem(id) && exists|i: int|
                    0 <= i < above.len() && e.0 == LayerItem::ShapeSystem(#[trigger] above[i])
            },
    )
}

/// A copy of a list of shape system identifiers.
pub fn copy_ids(ids: &Vec<ShapeSystemId>) -> (copy: Vec<ShapeSystemId>)
    ensures
        copy@ == ids@,
{
    let mut copy: Vec<ShapeSystemId> = Vec::new();
    let mut i: usize = 0;
    while i < ids.len()
        invariant
            i <= ids.len(),
            copy@ == ids@.take(i as int),
        decreases ids.len() - i,
    {
        copy.push(ids[i]);
        assert(ids@.take(i + 1) =~= ids@.take(i as int).push(ids@[i as int]));
        i += 1;
    }
    assert(ids@.take(i as int) =~= ids@);
    copy
}

impl ShapeSystemStaticDepthOrdering {
    /// The ordering with the given neighbours.
    pub fn new(above: Vec<ShapeSystemId>, below: Vec<ShapeSystemId>) -> (ordering: Self)
        ensures
            ordering.above == above,
            ordering.below == below,
    {
        ShapeSystemStaticDepthOrdering { above, below }
    }

    /// A copy of the ordering.
    pub fn duplicate(&self) -> (copy: Self)
        ensures
            copy.above@ == self.above@,
            copy.below@ == self.below@,
    {
        ShapeSystemStaticDepthOrdering { above: copy_ids(&self.above), below: copy_ids(&self.below) }
    }
}

impl<T> ShapeSystemInfoTemplate<T> {
    /// The ordering `ordering` under the identifier `id`.
    pub fn new(id: T, ordering: ShapeSystemStaticDepthOrdering) -> (info: Self)
        ensures
            info.id == id,
            info.ordering == ordering,
    {
        ShapeSystemInfoTemplate { id, ordering }
    }
}

/// What an instantiation hands back: the static ordering of the shape's kind
/// and the symbol that every shape of that kind is drawn under.
pub struct Instantiation {
    pub info: ShapeSystemInfo,
    pub symbol_id: SymbolId,
}

/// A per-layer cache of shape systems. Every shape of one kind that is
/// instantiated through the registry shares one shape system, and so one
/// symbol, which lets all of them be drawn in a single call.
pub struct ShapeSystemRegistry {
    shape_system_map: HashMap<u64, ShapeSystemSymbolInfo>,
}

impl ShapeSystemRegistry {
    /// The symbol of the shape system that is cached for `id`, if there is one.
    pub closed spec fn symbol_of(&self, id: ShapeSystemId) -> Option<SymbolId> {
        if self.shape_system_map@.contains_key(id.0) {
            Some(self.shape_system_map@[id.0].id)
        } else {
            None
        }
    }

    /// The shape systems that `id` is drawn above, as cached.
    pub closed spec fn above_of(&self, id: ShapeSystemId) -> Seq<ShapeSystemId> {
        self.shape_system_map@[id.0].ordering.above@
    }

    /// The shape systems that `id` is drawn below, as cached.
    pub closed spec fn below_of(&self, id: ShapeSystemId) -> Seq<ShapeSystemId> {
        self.shape_system_map@[id.0].ordering.below@
    }

    /// The registry without any shape system.
    pub fn new() -> (registry: ShapeSystemRegistry)
        ensures
            forall|id: ShapeSystemId| registry.symbol_of(id) is None,
    {
        ShapeSystemRegistry { shape_system_map: HashMap::new() }
    }

    /// The symbol of the cached shape system of kind `id`.
    pub fn get(&self, id: ShapeSystemId) -> (symbol: Option<SymbolId>)
        ensures
            symbol == self.symbol_of(id),
    {
        match self.shape_system_map.get(&id.0) {
            Some(info) => Some(info.id),
            None => None,
        }
    }

    /// Caches `system` as the shape system of kind `id`, in place of the one
    /// that was cached before, if any.
    pub fn register(&mut self, id: ShapeSystemId, system: ShapeSystemSymbolInfo)
        ensures
            final(self).symbol_of(id) == Some(system.id),
            final(self).above_of(id) == system.ordering.above@,
            final(self).below_of(id) == system.ordering.below@,
            forall|other: ShapeSystemId|
                other != id ==> {
                    &&& final(self).symbol_of(other) == old(self).symbol_of(other)
                    &&& final(self).above_of(other) == old(self).above_of(other)
                    &&& final(self).below_of(other) == old(self).below_of(other)
                },
    {
        self.shape_system_map.insert(id.0, system);
    }

    /// The symbol of the shape system of kind `id`. Where none is cached yet,
    /// `created` is cached and its symbol returned; where one is, `created`
    /// is dropped and the cache stays as it is.
    pub fn get_or_register(&mut self, id: ShapeSystemId, created: ShapeSystemSymbolInfo) -> (symbol:
        SymbolId)
        ensures
            symbol == match old(self).symbol_of(id) {
                Some(cached) => cached,
                None => created.id,
            },
            final(self).symbol_of(id) == Some(symbol),
            old(self).symbol_of(id) is Some ==> {
                &&& final(self).above_of(id) == old(self).above_of(id)
                &&& final(self).below_of(id) == old(self).below_of(id)
            },
            old(self).symbol_of(id) is None ==> {
                &&& final(self).above_of(id) == created.ordering.above@
                &&& final(self).below_of(id) == created.ordering.below@
            },
            forall|other: ShapeSystemId|
                other != id ==> {
                    &&& final(self).symbol_of(other) == old(self).symbol_of(other)
                    &&& final(self).above_of(other) == old(self).above_of(other)
                    &&& final(self).below_of(other) == old(self).below_of(other)
                },
    {
        match self.get(id) {
            Some(symbol) => symbol,
            None => {
                let symbol = created.id;
                self.register(id, created);
                symbol
            },
        }
    }

    /// Instantiates a shape of kind `id`: resolves the shape system of that
    /// kind, caching `created` where the kind is met for the first time, and
    /// returns the static ordering of the kind and the symbol of its shape
    /// system.
    pub fn instantiate(&mut self, id: ShapeSystemId, created: ShapeSystemSymbolInfo) -> (out:
        Instantiation)
        ensures
            out.symbol_id == match old(self).symbol_of(id) {
                Some(cached) => cached,
                None => created.id,
            },
            out.info.id == id,
            out.info.ordering.above@ == final(self).above_of(id),
            out.info.ordering.below@ == final(self).below_of(id),
            instantiated(*old(self), id, created.id, *final(self), out.symbol_id),
            old(self).symbol_of(id) is Some ==> {
                &&& final(self).above_of(id) == old(self).above_of(id)
                &&& final(self).below_of(id) == old(self).below_of(id)
            },
            old(self).symbol_of(id) is None ==> {
                &&& final(self).above_of(id) == created.ordering.above@
                &&& final(self).below_of(id) == created.ordering.below@
            },
            forall|other: ShapeSystemId|
                other != id ==> {
                    &&& final(self).symbol_of(other) == old(self).symbol_of(other)
                    &&& final(self).above_of(other) == old(self).above_of(other)
                    &&& final(self).below_of(other) == old(self).below_of(other)
                },
    {
        let symbol_id = self.get_or_register(id, created);
        let ordering = match self.shape_system_map.get(&id.0) {
            Some(system) => system.ordering.duplicate(),
            None => ShapeSystemStaticDepthOrdering::new(Vec::new(), Vec::new()),
        };
        Instantiation { info: ShapeSystemInfoTemplate::new(id, ordering), symbol_id }
    }
}

/// The registry `after` and the symbol `symbol` are what instantiating a
/// shape of kind `id` in the registry `before` gives, where a shape system
/// that draws under `created` stands by for a kind that is met for the first
/// time.
pub open spec fn instantiated(
    before: ShapeSystemRegistry,
    id: ShapeSystemId,
    created: SymbolId,
    after: ShapeSystemRegistry,
    symbol: SymbolId,
) -> bool {
    &&& symbol == match before.symbol_of(id) {
        Some(cached) => cached,
        None => created,
    }
    &&& after.symbol_of(id) == Some(symbol)
}

/// Shapes of one kind share one symbol: whatever shape systems stand by,
/// the second instantiation of a kind gives the symbol that the first gave.
pub proof fn lemma_same_kind_same_symbol(
    start: ShapeSystemRegistry,
    id: ShapeSystemId,
    first_created: SymbolId,
    middle: ShapeSystemRegistry,
    first: SymbolId,
    second_created: SymbolId,
    end: ShapeSystemRegistry,
    second: SymbolId,
)
    requires
        instantiated(start, id, first_created, middle, first),
        instantiated(middle, id, second_created, end, second),
    ensures
        second == first,
{
}

} // verus!
