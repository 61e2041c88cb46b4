use sludge::scene_graph::SceneGraph;

#[test]
fn sort() {
    let mut scene = SceneGraph::new();
    let root = scene.insert("root");
    let ui = scene.insert("ui");
    scene.set_layer(ui, 1);
    scene.set_parent(ui, root);
    let level = scene.insert("level");
    scene.set_layer(level, -1);
    scene.set_parent(level, root);

    let healthbar = scene.insert("healthbar");
    scene.set_parent(healthbar, ui);
    scene.set_layer(healthbar, 4);
    let magicbar = scene.insert("magicbar");
    scene.set_parent(magicbar, ui);
    scene.set_layer(magicbar, -3);

    let foreground = scene.insert("foreground");
    scene.set_layer(foreground, 2);
    scene.set_parent(foreground, level);
    let background = scene.insert("background");
    scene.set_layer(background, -1);
    scene.set_parent(background, level);
    let player = scene.insert("player");
    scene.set_layer(player, 1);
    scene.set_parent(player, level);
    let terrain = scene.insert("terrain");
    scene.set_layer(terrain, 0);
    scene.set_parent(terrain, level);

    assert_eq!(
        &scene.sorted(),
        &[
            &"root",
            &"level",
            &"background",
            &"terrain",
            &"player",
            &"foreground",
            &"ui",
            &"magicbar",
            &"healthbar"
        ]
    );
}

#[test]
fn scene_graph_siblings_with_equal_layers_keep_insertion_order() {
    let mut scene = SceneGraph::new();
    let a = scene.insert("a");
    let b = scene.insert("b");
    let c = scene.insert("c");
    scene.set_layer(a, 5);
    scene.set_layer(b, 5);
    scene.set_layer(c, 5);
    assert_eq!(scene.sorted(), vec![&"a", &"b", &"c"]);
    scene.set_layer(a, 6);
    assert_eq!(scene.sorted(), vec![&"b", &"c", &"a"]);
}

#[test]
fn scene_graph_children_follow_their_parent() {
    let mut scene = SceneGraph::new();
    let top = scene.insert("top");
    let bottom = scene.insert("bottom");
    scene.set_layer(top, 10);
    let child = scene.insert("child");
    scene.set_parent(child, bottom);
    scene.set_layer(child, 100);
    assert_eq!(scene.sorted(), vec![&"bottom", &"child", &"top"]);
}

#[test]
fn scene_graph_reparenting_moves_the_subtree() {
    let mut scene = SceneGraph::new();
    let p = scene.insert("p");
    let q = scene.insert("q");
    scene.set_layer(q, 1);
    let x = scene.insert("x");
    scene.set_parent(x, p);
    assert_eq!(scene.sorted(), vec![&"p", &"x", &"q"]);
    scene.set_parent(x, q);
    assert_eq!(scene.sorted(), vec![&"p", &"q", &"x"]);
}

#[test]
fn scene_graph_remove_and_reuse_slot() {
    let mut scene = SceneGraph::new();
    let a = scene.insert(1u32);
    let b = scene.insert(2u32);
    assert_eq!(scene.remove(a), Some(1));
    assert!(!scene.contains_object(a));
    assert!(scene.contains_object(b));
    assert_eq!(scene.remove(a), None);
    let c = scene.insert(3u32);
    assert!(scene.contains_object(c));
    assert!(!scene.contains_object(a));
    assert_ne!(a, c);
    assert_eq!(*scene.get(c), 3);
    *scene.get_mut(b) = 20;
    assert_eq!(*scene.get(b), 20);
    assert_eq!(scene.sorted(), vec![&3, &20]);
}

#[test]
fn scene_graph_objects_are_consistent_with_their_parents() {
    let mut g: SceneGraph<u8> = SceneGraph::new();
    let a = g.insert(1);
    let b = g.insert(2);
    assert!(g.is_consistent(a));
    g.set_parent(b, a);
    assert!(g.is_consistent(b));
    assert!(g.is_consistent(a));
}

#[test]
fn scene_graph_setting_the_same_parent_keeps_the_child() {
    let mut g: SceneGraph<u8> = SceneGraph::new();
    let a = g.insert(1);
    let b = g.insert(2);
    g.set_parent(b, a);
    g.set_parent(b, a);
    let sorted: Vec<u8> = g.sorted().into_iter().copied().collect();
    assert_eq!(sorted, vec![1, 2]);
    assert!(g.is_consistent(b));
}
