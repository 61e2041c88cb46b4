use sludge::layer_manager::{LayerEvent, LayerManager};

#[test]
fn layer_manager_tracks_layer_changes() {
    let mut m = LayerManager::new(&vec![(10, 0), (11, 2)]);
    assert_eq!(m.entities_on(0), Some(&vec![10]));
    assert_eq!(m.current_layer(11), Some(2));
    m.update(&vec![
        LayerEvent::Inserted(1, Some(0)),
        LayerEvent::Inserted(2, Some(0)),
        LayerEvent::Modified(1, Some(3)),
    ]);
    assert_eq!(m.entities_on(0), Some(&vec![10, 2]));
    assert_eq!(m.entities_on(3), Some(&vec![1]));
    assert_eq!(m.current_layer(1), Some(3));
    m.update(&vec![LayerEvent::Removed(1, Some(3)), LayerEvent::Inserted(5, None)]);
    assert_eq!(m.entities_on(3), Some(&vec![]));
    assert_eq!(m.current_layer(1), None);
    assert_eq!(m.current_layer(5), None);
    assert_eq!(m.entities_on(7), None);
}

#[test]
fn layer_manager_modification_without_a_layer_change_lists_again() {
    let mut m = LayerManager::new(&vec![(4, 1)]);
    m.update(&vec![LayerEvent::Modified(4, Some(1))]);
    assert_eq!(m.entities_on(1), Some(&vec![4, 4]));
}

#[test]
fn layer_manager_swaps_the_last_entry_into_the_gap() {
    let mut m = LayerManager::new(&vec![(1, 0), (2, 0), (3, 0)]);
    m.update(&vec![LayerEvent::Removed(1, Some(0))]);
    assert_eq!(m.entities_on(0), Some(&vec![3, 2]));
}
