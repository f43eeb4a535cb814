use scene_layers::dependency_graph::DependencyGraph;
use scene_layers::item::{LayerId, LayerItem, ShapeSystemId, SymbolId};
use scene_layers::layer::{CameraId, LayerModel};
use scene_layers::shape_system::{
    ShapeSystemInfo, ShapeSystemInfoTemplate, ShapeSystemRegistry, ShapeSystemStaticDepthOrdering,
    ShapeSystemSymbolInfo,
};
use scene_layers::store::LayerStore;

fn sym(id: u32) -> LayerItem {
    LayerItem::Symbol(SymbolId(id))
}

fn symbols(ids: &[u32]) -> Vec<SymbolId> {
    ids.iter().map(|id| SymbolId(*id)).collect()
}

fn shape_info(id: u64, above: &[u64], below: &[u64]) -> ShapeSystemInfo {
    let above = above.iter().map(|id| ShapeSystemId(*id)).collect();
    let below = below.iter().map(|id| ShapeSystemId(*id)).collect();
    ShapeSystemInfoTemplate::new(ShapeSystemId(id), ShapeSystemStaticDepthOrdering::new(above, below))
}

fn symbol_info(symbol: u32, above: &[u64], below: &[u64]) -> ShapeSystemSymbolInfo {
    let above = above.iter().map(|id| ShapeSystemId(*id)).collect();
    let below = below.iter().map(|id| ShapeSystemId(*id)).collect();
    ShapeSystemInfoTemplate::new(SymbolId(symbol), ShapeSystemStaticDepthOrdering::new(above, below))
}

#[test]
fn end_to_end_ordering_of_one_layer() {
    let mut layer = LayerModel::new(LayerId(0), CameraId(0));
    layer.add_symbol(SymbolId(1));
    layer.add_symbol(SymbolId(2));
    layer.add_symbol(SymbolId(3));
    layer.add_elements_order_dependency(sym(3), sym(1));
    layer.add_elements_order_dependency(sym(1), sym(2));
    assert_eq!(layer.symbols(), symbols(&[]));
    layer.update();
    assert_eq!(layer.symbols(), symbols(&[3, 1, 2]));
    assert!(layer.remove_elements_order_dependency(sym(3), sym(1)));
    assert_eq!(layer.symbols(), symbols(&[3, 1, 2]));
    layer.update();
    assert_eq!(layer.symbols(), symbols(&[1, 2, 3]));
}

#[test]
fn end_to_end_ordering_in_a_store() {
    let mut store = LayerStore::new();
    let layer = store.create_layer(CameraId(7));
    assert!(store.add_symbol(layer, SymbolId(1)));
    assert!(store.add_symbol(layer, SymbolId(2)));
    assert!(store.add_symbol(layer, SymbolId(3)));
    assert!(store.add_elements_order_dependency(layer, sym(3), sym(1)));
    assert!(store.add_elements_order_dependency(layer, sym(1), sym(2)));
    assert!(store.update(layer));
    assert_eq!(store.get(layer).unwrap().symbols(), symbols(&[3, 1, 2]));
    assert!(store.remove_elements_order_dependency(layer, sym(3), sym(1)));
    assert!(store.update(layer));
    assert_eq!(store.get(layer).unwrap().symbols(), symbols(&[1, 2, 3]));
    assert_eq!(store.get(layer).unwrap().camera(), CameraId(7));
}

#[test]
fn edits_are_coalesced_until_the_update() {
    let mut layer = LayerModel::new(LayerId(0), CameraId(0));
    assert!(!layer.is_dirty());
    layer.add_symbol(SymbolId(5));
    layer.add_symbol(SymbolId(6));
    layer.update();
    assert!(!layer.is_dirty());
    assert_eq!(layer.symbols(), symbols(&[5, 6]));
    assert!(layer.add_elements_order_dependency(sym(6), sym(5)));
    assert!(layer.is_dirty());
    assert!(!layer.add_elements_order_dependency(sym(6), sym(5)));
    assert!(layer.add_elements_order_dependency(sym(5), sym(7)));
    assert!(layer.remove_elements_order_dependency(sym(5), sym(7)));
    assert_eq!(layer.symbols(), symbols(&[5, 6]));
    layer.update();
    assert!(!layer.is_dirty());
    assert_eq!(layer.symbols(), symbols(&[6, 5]));
    let global = DependencyGraph::new();
    assert!(!layer.update_internal(&global, false));
    assert!(!layer.remove_elements_order_dependency(sym(1), sym(2)));
    assert!(!layer.is_dirty());
    assert!(layer.update_internal(&global, true));
}

#[test]
fn exclusive_placement_moves_a_symbol() {
    let mut store = LayerStore::new();
    let group = store.create_layer(CameraId(0));
    let l1 = store.create_layer(CameraId(0));
    let l2 = store.create_layer(CameraId(0));
    assert!(store.set_children(group, &vec![l1, l2]));
    assert!(store.add_symbol(l1, SymbolId(4)));
    assert!(store.add_symbol(l1, SymbolId(9)));
    assert!(store.update(group));
    assert_eq!(store.get(l1).unwrap().symbols(), symbols(&[4, 9]));
    assert_eq!(store.symbols_placement(group, SymbolId(4)), vec![l1]);
    assert!(store.add_symbol_exclusive(l2, SymbolId(4)));
    assert!(store.update(group));
    assert_eq!(store.get(l1).unwrap().symbols(), symbols(&[9]));
    assert_eq!(store.get(l2).unwrap().symbols(), symbols(&[4]));
    assert_eq!(store.symbols_placement(group, SymbolId(4)), vec![l2]);
}

#[test]
fn plain_add_shares_a_symbol() {
    let mut store = LayerStore::new();
    let group = store.create_layer(CameraId(0));
    let l1 = store.create_layer(CameraId(0));
    let l2 = store.create_layer(CameraId(0));
    store.set_children(group, &vec![l1, l2]);
    store.add_symbol(l1, SymbolId(4));
    store.add_symbol(l2, SymbolId(4));
    store.update(group);
    assert_eq!(store.get(l1).unwrap().symbols(), symbols(&[4]));
    assert_eq!(store.get(l2).unwrap().symbols(), symbols(&[4]));
    assert_eq!(store.symbols_placement(group, SymbolId(4)), vec![l1, l2]);
}

#[test]
fn exclusive_placement_leaves_other_groups_alone() {
    let mut store = LayerStore::new();
    let g1 = store.create_layer(CameraId(0));
    let g2 = store.create_layer(CameraId(0));
    let a = store.create_layer(CameraId(0));
    let b = store.create_layer(CameraId(0));
    let c = store.create_layer(CameraId(0));
    store.set_children(g1, &vec![a, b]);
    store.set_children(g2, &vec![c]);
    store.add_symbol(a, SymbolId(1));
    store.add_symbol(c, SymbolId(1));
    store.add_symbol_exclusive(b, SymbolId(1));
    assert!(!store.get(a).unwrap().holds_symbol(SymbolId(1)));
    assert!(store.get(b).unwrap().holds_symbol(SymbolId(1)));
    assert!(store.get(c).unwrap().holds_symbol(SymbolId(1)));
}

#[test]
fn destruction_cleans_up_the_group() {
    let mut store = LayerStore::new();
    let group = store.create_layer(CameraId(0));
    let layer = store.create_layer(CameraId(0));
    let other = store.create_layer(CameraId(0));
    store.set_children(group, &vec![layer, other]);
    store.add_symbol(layer, SymbolId(3));
    assert_eq!(store.symbols_placement(group, SymbolId(3)), vec![layer]);
    assert!(store.get_child(group, layer).is_some());
    assert!(store.destroy(layer));
    assert_eq!(store.symbols_placement(group, SymbolId(3)), Vec::<LayerId>::new());
    assert!(store.get_child(group, layer).is_none());
    assert!(store.get(layer).is_none());
    assert!(!store.is_live(layer));
    assert_eq!(store.children(group), vec![other]);
    assert!(!store.destroy(layer));
    assert!(!store.add_symbol(layer, SymbolId(1)));
    assert!(!store.update(layer));
    let next = store.create_layer(CameraId(0));
    assert!(next != layer);
    assert!(store.add_child(group, next));
    assert_eq!(store.children(group), vec![next, other]);
}

#[test]
fn destroying_a_group_frees_its_children() {
    let mut store = LayerStore::new();
    let group = store.create_layer(CameraId(0));
    let layer = store.create_layer(CameraId(0));
    store.add_child(group, layer);
    store.add_symbol(layer, SymbolId(1));
    store.add_symbol(layer, SymbolId(2));
    store.add_global_elements_order_dependency(group, sym(2), sym(1));
    store.update(group);
    assert_eq!(store.get(layer).unwrap().symbols(), symbols(&[2, 1]));
    assert_eq!(store.get(layer).unwrap().parents(), &vec![group]);
    assert!(store.destroy(group));
    assert_eq!(store.get(layer).unwrap().parents(), &Vec::<LayerId>::new());
    assert!(store.get(layer).unwrap().is_dirty());
    store.update(layer);
    assert_eq!(store.get(layer).unwrap().symbols(), symbols(&[1, 2]));
}

#[test]
fn global_dependencies_reach_every_child() {
    let mut store = LayerStore::new();
    let group = store.create_layer(CameraId(0));
    let l1 = store.create_layer(CameraId(0));
    let l2 = store.create_layer(CameraId(0));
    store.set_children(group, &vec![l1, l2]);
    for layer in [l1, l2] {
        store.add_symbol(layer, SymbolId(1));
        store.add_symbol(layer, SymbolId(2));
    }
    store.update(group);
    assert_eq!(store.get(l1).unwrap().symbols(), symbols(&[1, 2]));
    assert_eq!(store.get(l2).unwrap().symbols(), symbols(&[1, 2]));
    assert!(store.add_global_elements_order_dependency(group, sym(2), sym(1)));
    assert!(!store.add_global_elements_order_dependency(group, sym(2), sym(1)));
    assert!(!store.get(l1).unwrap().is_dirty());
    assert!(store.get(group).unwrap().group().is_dirty());
    assert_eq!(store.get(l1).unwrap().symbols(), symbols(&[1, 2]));
    store.update(group);
    assert!(!store.get(group).unwrap().group().is_dirty());
    assert_eq!(store.get(l1).unwrap().symbols(), symbols(&[2, 1]));
    assert_eq!(store.get(l2).unwrap().symbols(), symbols(&[2, 1]));
    assert!(store.add_elements_order_dependency(l1, sym(1), sym(2)));
    store.update(group);
    assert_eq!(store.get(l1).unwrap().symbols(), symbols(&[1, 2]));
    assert_eq!(store.get(l2).unwrap().symbols(), symbols(&[2, 1]));
    assert!(store.remove_global_elements_order_dependency(group, sym(2), sym(1)));
    assert!(!store.remove_global_elements_order_dependency(group, sym(2), sym(1)));
    store.update(group);
    assert_eq!(store.get(l2).unwrap().symbols(), symbols(&[1, 2]));
}

#[test]
fn update_recurses_into_grandchildren_and_survives_loops() {
    let mut store = LayerStore::new();
    let root = store.create_layer(CameraId(0));
    let mid = store.create_layer(CameraId(0));
    let leaf = store.create_layer(CameraId(0));
    let aside = store.create_layer(CameraId(0));
    assert!(store.add_child(root, mid));
    assert!(store.add_child(mid, leaf));
    assert!(store.add_child(leaf, root));
    assert!(!store.add_child(root, root));
    assert!(!store.add_child(root, mid));
    assert!(!store.add_child(root, LayerId(99)));
    for layer in [root, mid, leaf, aside] {
        store.add_symbol(layer, SymbolId(2));
        store.add_symbol(layer, SymbolId(1));
    }
    assert!(store.update(mid));
    for layer in [root, mid, leaf] {
        assert_eq!(store.get(layer).unwrap().symbols(), symbols(&[1, 2]));
        assert!(!store.get(layer).unwrap().is_dirty());
    }
    assert_eq!(store.get(aside).unwrap().symbols(), symbols(&[]));
    assert!(store.get(aside).unwrap().is_dirty());
}

#[test]
fn a_layer_in_two_groups_obeys_both() {
    let mut store = LayerStore::new();
    let g1 = store.create_layer(CameraId(0));
    let g2 = store.create_layer(CameraId(0));
    let layer = store.create_layer(CameraId(0));
    store.add_child(g1, layer);
    store.add_child(g2, layer);
    for id in [1, 2, 3] {
        store.add_symbol(layer, SymbolId(id));
    }
    store.add_global_elements_order_dependency(g1, sym(3), sym(1));
    store.add_global_elements_order_dependency(g2, sym(2), sym(1));
    store.update(g1);
    assert_eq!(store.get(layer).unwrap().symbols(), symbols(&[2, 3, 1]));
    assert!(store.remove_child(g2, layer));
    assert!(!store.remove_child(g2, layer));
    store.update(g1);
    assert_eq!(store.get(layer).unwrap().symbols(), symbols(&[2, 3, 1]));
    store.update(layer);
    assert_eq!(store.get(layer).unwrap().symbols(), symbols(&[2, 3, 1]));
}

#[test]
fn set_children_replaces_the_group() {
    let mut store = LayerStore::new();
    let group = store.create_layer(CameraId(0));
    let a = store.create_layer(CameraId(0));
    let b = store.create_layer(CameraId(0));
    let c = store.create_layer(CameraId(0));
    assert!(store.set_children(group, &vec![a, b]));
    assert_eq!(store.children(group), vec![a, b]);
    assert!(store.set_children(group, &vec![c, b, c, group, LayerId(77)]));
    assert_eq!(store.children(group), vec![c, b]);
    assert!(store.get_child(group, a).is_none());
    assert_eq!(store.get(a).unwrap().parents(), &Vec::<LayerId>::new());
    assert_eq!(store.get_child(group, b).unwrap().id(), b);
    assert!(!store.set_children(LayerId(77), &vec![a]));
}

#[test]
fn shapes_follow_their_static_ordering() {
    let mut layer = LayerModel::new(LayerId(0), CameraId(0));
    layer.add_shape(shape_info(10, &[], &[]), SymbolId(1));
    layer.add_shape(shape_info(20, &[], &[10]), SymbolId(2));
    layer.add_symbol(SymbolId(3));
    layer.update();
    assert_eq!(layer.symbols(), symbols(&[3, 2, 1]));
    assert_eq!(
        layer.symbol_id_of_element(LayerItem::ShapeSystem(ShapeSystemId(20))),
        Some(SymbolId(2))
    );
    assert_eq!(layer.symbol_id_of_element(LayerItem::ShapeSystem(ShapeSystemId(30))), None);
    assert_eq!(layer.symbol_id_of_element(sym(8)), Some(SymbolId(8)));
    layer.add_shape(shape_info(30, &[10], &[]), SymbolId(4));
    layer.update();
    assert_eq!(layer.symbols(), symbols(&[3, 2, 1, 4]));
    layer.remove_symbol(SymbolId(2));
    layer.update();
    assert_eq!(layer.symbols(), symbols(&[3, 1, 4]));
    assert!(layer.add_shapes_order_dependency(ShapeSystemId(30), ShapeSystemId(10)));
    assert!(layer.remove_shapes_order_dependency(ShapeSystemId(30), ShapeSystemId(10)));
    assert!(!layer.remove_shapes_order_dependency(ShapeSystemId(30), ShapeSystemId(10)));
}

#[test]
fn a_symbol_is_registered_with_one_shape_system() {
    let mut layer = LayerModel::new(LayerId(0), CameraId(0));
    layer.add_shape(shape_info(10, &[], &[]), SymbolId(1));
    assert_eq!(layer.unmapped_elements(), Vec::<LayerItem>::new());
    layer.add_shape(shape_info(20, &[], &[]), SymbolId(1));
    assert_eq!(layer.unmapped_elements(), vec![LayerItem::ShapeSystem(ShapeSystemId(10))]);
    layer.update();
    assert_eq!(layer.symbols(), symbols(&[1]));
    assert_eq!(layer.symbol_id_of_element(LayerItem::ShapeSystem(ShapeSystemId(10))), None);
    layer.add_shape(shape_info(20, &[], &[]), SymbolId(5));
    layer.update();
    assert_eq!(layer.symbols(), symbols(&[5]));
    assert!(!layer.holds_symbol(SymbolId(1)));
}

#[test]
fn unmapped_shape_systems_are_dropped_from_the_symbols() {
    let mut layer = LayerModel::new(LayerId(0), CameraId(0));
    layer.add_shape(shape_info(10, &[], &[]), SymbolId(1));
    let order = vec![
        LayerItem::ShapeSystem(ShapeSystemId(99)),
        sym(7),
        LayerItem::ShapeSystem(ShapeSystemId(10)),
    ];
    assert_eq!(layer.symbols_from(&order), symbols(&[7, 1]));
}

#[test]
fn shapes_of_one_kind_share_one_symbol() {
    let mut registry = ShapeSystemRegistry::new();
    assert_eq!(registry.get(ShapeSystemId(1)), None);
    let first = registry.instantiate(ShapeSystemId(1), symbol_info(40, &[2], &[3]));
    let second = registry.instantiate(ShapeSystemId(1), symbol_info(41, &[], &[]));
    assert_eq!(first.symbol_id, SymbolId(40));
    assert_eq!(second.symbol_id, SymbolId(40));
    assert_eq!(second.info.id, ShapeSystemId(1));
    assert_eq!(second.info.ordering.above, vec![ShapeSystemId(2)]);
    assert_eq!(second.info.ordering.below, vec![ShapeSystemId(3)]);
    let other = registry.instantiate(ShapeSystemId(2), symbol_info(41, &[], &[]));
    assert_eq!(other.symbol_id, SymbolId(41));
    assert_eq!(registry.get_or_register(ShapeSystemId(2), symbol_info(50, &[], &[])), SymbolId(41));
    registry.register(ShapeSystemId(2), symbol_info(50, &[], &[]));
    assert_eq!(registry.get(ShapeSystemId(2)), Some(SymbolId(50)));
}

#[test]
fn exclusive_shapes_and_masks_and_cameras() {
    let mut store = LayerStore::new();
    let group = store.create_layer(CameraId(1));
    let a = store.create_layer(CameraId(1));
    let b = store.create_layer(CameraId(1));
    store.set_children(group, &vec![a, b]);
    assert!(store.add_shape(a, shape_info(10, &[], &[]), SymbolId(1)));
    assert!(store.add_shape_exclusive(b, shape_info(10, &[], &[]), SymbolId(1)));
    store.update(group);
    assert_eq!(store.get(a).unwrap().symbols(), symbols(&[]));
    assert_eq!(store.get(b).unwrap().symbols(), symbols(&[1]));
    assert!(store.remove_symbol(b, SymbolId(1)));
    store.update(group);
    assert_eq!(store.get(b).unwrap().symbols(), symbols(&[]));
    assert!(store.set_mask(a, b));
    assert_eq!(store.get(a).unwrap().mask(), Some(b));
    assert!(store.set_camera(a, CameraId(2)));
    assert_eq!(store.get(a).unwrap().camera(), CameraId(2));
    assert_eq!(store.get(b).unwrap().camera(), CameraId(1));
    assert!(store.add_global_shapes_order_dependency(group, ShapeSystemId(1), ShapeSystemId(2)));
    assert!(store.remove_global_shapes_order_dependency(group, ShapeSystemId(1), ShapeSystemId(2)));
    assert!(store.add_shapes_order_dependency(a, ShapeSystemId(1), ShapeSystemId(2)));
    assert!(store.remove_shapes_order_dependency(a, ShapeSystemId(1), ShapeSystemId(2)));
    assert_eq!(store.slot_count(), 3);
}

#[test]
fn dependencies_are_registered_in_bulk() {
    let mut store = LayerStore::new();
    let group = store.create_layer(CameraId(0));
    let layer = store.create_layer(CameraId(0));
    store.add_child(group, layer);
    store.add_shape(layer, shape_info(1, &[], &[]), SymbolId(11));
    store.add_shape(layer, shape_info(2, &[], &[]), SymbolId(12));
    store.add_shape(layer, shape_info(3, &[], &[]), SymbolId(13));
    store.update(group);
    assert_eq!(store.get(layer).unwrap().symbols(), symbols(&[11, 12, 13]));
    let pairs = vec![
        (ShapeSystemId(3), ShapeSystemId(2)),
        (ShapeSystemId(2), ShapeSystemId(1)),
    ];
    assert!(store.add_global_shapes_order_dependencies(group, &pairs));
    assert!(!store.add_global_shapes_order_dependencies(group, &pairs));
    assert!(!store.add_global_shapes_order_dependencies(LayerId(50), &pairs));
    store.update(group);
    assert_eq!(store.get(layer).unwrap().symbols(), symbols(&[13, 12, 11]));
}

#[test]
fn adding_a_shape_leaves_every_other_element_in_place() {
    let mut layer = LayerModel::new(LayerId(0), CameraId(0));
    layer.add_symbol(SymbolId(7));
    layer.add_shape(shape_info(10, &[], &[]), SymbolId(1));
    layer.add_shape(shape_info(30, &[], &[]), SymbolId(3));
    layer.add_shape(shape_info(20, &[], &[]), SymbolId(1));
    layer.update();
    assert_eq!(layer.symbols(), symbols(&[7, 1, 3]));
    assert_eq!(layer.unmapped_elements(), vec![LayerItem::ShapeSystem(ShapeSystemId(10))]);
    layer.add_shape(shape_info(10, &[], &[]), SymbolId(4));
    layer.update();
    assert_eq!(layer.symbols(), symbols(&[7, 4, 1, 3]));
    assert_eq!(layer.unmapped_elements(), Vec::<LayerItem>::new());
    layer.remove_symbol(SymbolId(1));
    layer.update();
    assert_eq!(layer.symbols(), symbols(&[7, 4, 3]));
}
