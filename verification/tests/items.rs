use scene_layers::item::{LayerId, LayerItem, ShapeSystemId, SymbolId};
use scene_layers::item_set::ItemSet;
use scene_layers::layer::{CameraId, Children, ChildrenModel};
use scene_layers::shape_system::{
    copy_ids, ShapeSystemInfoTemplate, ShapeSystemStaticDepthOrdering,
};
use scene_layers::store::LayerStore;

#[test]
fn items_are_made_from_identifiers() {
    assert_eq!(LayerItem::from(SymbolId(3)), LayerItem::Symbol(SymbolId(3)));
    assert_eq!(LayerItem::from(ShapeSystemId(3)), LayerItem::ShapeSystem(ShapeSystemId(3)));
    let item: LayerItem = ShapeSystemId(9).into();
    assert!(LayerItem::Symbol(SymbolId(9)).less(&item));
    assert!(LayerItem::Symbol(SymbolId(9)) < item);
}

#[test]
fn an_item_set_is_walked_in_ascending_order() {
    let mut set = ItemSet::new();
    assert_eq!(set.len(), 0);
    assert!(set.insert(LayerItem::ShapeSystem(ShapeSystemId(1))));
    assert!(set.insert(LayerItem::Symbol(SymbolId(7))));
    assert!(set.insert(LayerItem::Symbol(SymbolId(2))));
    assert!(!set.insert(LayerItem::Symbol(SymbolId(7))));
    assert_eq!(
        set.as_vec(),
        &vec![
            LayerItem::Symbol(SymbolId(2)),
            LayerItem::Symbol(SymbolId(7)),
            LayerItem::ShapeSystem(ShapeSystemId(1)),
        ]
    );
    assert_eq!(set.get(1), LayerItem::Symbol(SymbolId(7)));
    assert_eq!(set.index_of(&LayerItem::ShapeSystem(ShapeSystemId(1))), Some(2));
    assert_eq!(set.index_of(&LayerItem::ShapeSystem(ShapeSystemId(2))), None);
    assert!(set.contains(&LayerItem::Symbol(SymbolId(2))));
    assert!(set.remove(&LayerItem::Symbol(SymbolId(2))));
    assert!(!set.remove(&LayerItem::Symbol(SymbolId(2))));
    assert!(!set.contains(&LayerItem::Symbol(SymbolId(2))));
    assert_eq!(set.len(), 2);
    let items = vec![
        LayerItem::Symbol(SymbolId(5)),
        LayerItem::Symbol(SymbolId(1)),
        LayerItem::Symbol(SymbolId(5)),
    ];
    let set = ItemSet::from_items(&items);
    assert_eq!(set.as_vec(), &vec![LayerItem::Symbol(SymbolId(1)), LayerItem::Symbol(SymbolId(5))]);
}

#[test]
fn slots_are_stable_and_reused() {
    let mut slots = ChildrenModel::new();
    assert!(slots.insert(LayerId(10)));
    assert!(slots.insert(LayerId(11)));
    assert!(slots.insert(LayerId(12)));
    assert!(!slots.insert(LayerId(11)));
    assert_eq!(slots.all(), vec![LayerId(10), LayerId(11), LayerId(12)]);
    assert_eq!(slots.layer_ix(LayerId(12)), Some(2));
    assert!(slots.remove(LayerId(11)));
    assert!(!slots.remove(LayerId(11)));
    assert_eq!(slots.layer_ix(LayerId(12)), Some(2));
    assert_eq!(slots.layer_ix(LayerId(11)), None);
    assert_eq!(slots.get(LayerId(11)), None);
    assert_eq!(slots.get(LayerId(10)), Some(LayerId(10)));
    assert_eq!(slots.all(), vec![LayerId(10), LayerId(12)]);
    assert!(slots.insert(LayerId(13)));
    assert_eq!(slots.layer_ix(LayerId(13)), Some(1));
    assert!(slots.insert(LayerId(14)));
    assert_eq!(slots.all(), vec![LayerId(10), LayerId(13), LayerId(12), LayerId(14)]);
    let group = Children::new();
    assert!(!group.is_dirty());
    assert_eq!(group.borrow().all(), Vec::<LayerId>::new());
}

#[test]
fn orderings_are_copied() {
    let ordering =
        ShapeSystemStaticDepthOrdering::new(vec![ShapeSystemId(1)], vec![ShapeSystemId(2)]);
    let copy = ordering.duplicate();
    assert_eq!(copy.above, vec![ShapeSystemId(1)]);
    assert_eq!(copy.below, vec![ShapeSystemId(2)]);
    let info = ShapeSystemInfoTemplate::new(SymbolId(4), copy);
    assert_eq!(info.id, SymbolId(4));
    assert_eq!(info.ordering.above, ordering.above);
    assert_eq!(copy_ids(&ordering.below), vec![ShapeSystemId(2)]);
}

#[test]
fn shapes_of_one_kind_share_one_symbol_in_a_layer() {
    let mut store = LayerStore::new();
    let a = store.create_layer(CameraId(0));
    let b = store.create_layer(CameraId(0));
    let system = |symbol: u32| {
        ShapeSystemInfoTemplate::new(
            SymbolId(symbol),
            ShapeSystemStaticDepthOrdering::new(vec![], vec![ShapeSystemId(8)]),
        )
    };
    let first = store.instantiate(a, ShapeSystemId(1), system(20)).unwrap();
    let second = store.instantiate(a, ShapeSystemId(1), system(21)).unwrap();
    let elsewhere = store.instantiate(b, ShapeSystemId(1), system(22)).unwrap();
    assert_eq!(first.symbol_id, SymbolId(20));
    assert_eq!(second.symbol_id, SymbolId(20));
    assert_eq!(elsewhere.symbol_id, SymbolId(22));
    assert_eq!(second.info.ordering.below, vec![ShapeSystemId(8)]);
    assert!(store.instantiate(LayerId(9), ShapeSystemId(1), system(23)).is_none());
    assert!(store.add_shape(a, second.info, second.symbol_id));
    store.update(a);
    assert_eq!(store.get(a).unwrap().symbols(), vec![SymbolId(20)]);
}

#[test]
fn the_slot_vacated_last_is_taken_first() {
    let mut slots = ChildrenModel::new();
    for id in [10, 11, 12, 13] {
        assert!(slots.insert(LayerId(id)));
    }
    assert!(slots.remove(LayerId(10)));
    assert!(slots.remove(LayerId(12)));
    assert!(slots.insert(LayerId(20)));
    assert_eq!(slots.layer_ix(LayerId(20)), Some(2));
    assert!(slots.insert(LayerId(21)));
    assert_eq!(slots.layer_ix(LayerId(21)), Some(0));
    assert!(slots.insert(LayerId(22)));
    assert_eq!(slots.layer_ix(LayerId(22)), Some(4));
    assert_eq!(
        slots.all(),
        vec![LayerId(21), LayerId(11), LayerId(20), LayerId(13), LayerId(22)]
    );
    slots.clear();
    assert_eq!(slots.all(), Vec::<LayerId>::new());
    assert!(slots.insert(LayerId(30)));
    assert_eq!(slots.layer_ix(LayerId(30)), Some(0));
}

#[test]
fn children_take_the_slot_vacated_last() {
    let mut store = LayerStore::new();
    let group = store.create_layer(CameraId(0));
    let a = store.create_layer(CameraId(0));
    let b = store.create_layer(CameraId(0));
    let c = store.create_layer(CameraId(0));
    let d = store.create_layer(CameraId(0));
    let e = store.create_layer(CameraId(0));
    store.set_children(group, &vec![a, b, c]);
    assert!(store.remove_child(group, a));
    assert!(store.destroy(b));
    assert_eq!(store.children(group), vec![c]);
    assert!(store.add_child(group, d));
    assert_eq!(store.children(group), vec![d, c]);
    assert!(store.add_child(group, e));
    assert_eq!(store.children(group), vec![e, d, c]);
    assert!(store.add_child(group, a));
    assert_eq!(store.children(group), vec![e, d, c, a]);
    assert!(store.set_children(group, &vec![a, e]));
    assert_eq!(store.children(group), vec![a, e]);
}
