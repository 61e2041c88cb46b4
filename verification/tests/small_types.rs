use sludge::conf::Conf;
use sludge::ecs::components::Parent as EcsParent;
use sludge::hierarchy::{HierarchyEvent, Parent, ParentComponent};
use sludge::layer_manager::LayerIndex;
use sludge::tile_grid::TileId;

#[test]
fn conf_default_window() {
    let conf = Conf::default();
    assert_eq!(conf.window_title, "SLUDGE \\m/");
    assert_eq!(conf.window_width, 800);
    assert_eq!(conf.window_height, 680);
}

#[test]
fn parent_links_name_the_parent() {
    let mut world = hecs::World::new();
    let a = world.spawn((1u8,));
    let b = world.spawn((2u8,));
    let p = Parent::new(a);
    assert_eq!(p.parent_entity, a);
    assert_eq!(ParentComponent::parent_entity(&p), a);
    let q = EcsParent::new(b);
    assert_eq!(q.parent_entity, b);
    assert_eq!(ParentComponent::parent_entity(&q), b);
    let bits = a.to_bits().get();
    match HierarchyEvent::Removed(bits) {
        HierarchyEvent::Removed(e) => assert_eq!(e, bits),
        HierarchyEvent::ModifiedOrCreated(_) => panic!("wrong event"),
    }
}

#[test]
fn layer_index_holds_its_layer() {
    let l = LayerIndex { layer: -3 };
    assert_eq!(l.layer, -3);
}

#[test]
fn tile_id_index_is_gid_minus_one() {
    assert_eq!(TileId::new(1).get(), 0);
    assert_eq!(TileId::new(17).get(), 16);
    assert_eq!(TileId::new(u32::MAX).get(), (u32::MAX - 1) as usize);
    assert!(TileId::new(2) < TileId::new(3));
}
