use sludge::hierarchy::{Hierarchy, HierarchyEvent, HierarchyInput};

fn ins(entity: u64, parent: u64) -> HierarchyInput {
    HierarchyInput::Inserted { entity, parent }
}

fn modified(entity: u64, parent: u64) -> HierarchyInput {
    HierarchyInput::Modified { entity, parent }
}

fn removed(entity: u64) -> HierarchyInput {
    HierarchyInput::Removed { entity }
}

fn gone(entity: u64) -> HierarchyInput {
    HierarchyInput::Gone { entity }
}

fn position(h: &Hierarchy, e: u64) -> usize {
    h.all().iter().position(|x| *x == e).unwrap()
}

#[test]
fn hierarchy_lists_parents_before_children() {
    let mut h = Hierarchy::new();
    // 3 is inserted before its parent 2 is given a parent.
    let ev = h.update(&vec![ins(3, 2), ins(2, 1)]);
    assert_eq!(h.all(), &[2, 3]);
    assert!(position(&h, 2) < position(&h, 3));
    assert_eq!(h.parent(3), Some(2));
    assert_eq!(h.parent(2), Some(1));
    assert_eq!(h.parent(1), None);
    assert_eq!(ev, vec![HierarchyEvent::ModifiedOrCreated(2), HierarchyEvent::ModifiedOrCreated(3)]);
    assert_eq!(h.children(1), vec![2]);
    assert_eq!(h.children(2), vec![3]);
    assert_eq!(h.children(3), Vec::<u64>::new());
    assert_eq!(h.roots(), vec![1]);
}

#[test]
fn hierarchy_removal_drops_the_subtree() {
    let mut h = Hierarchy::new();
    h.update(&vec![ins(2, 1), ins(3, 2), ins(4, 3), ins(5, 1)]);
    let ev = h.update(&vec![removed(3)]);
    assert_eq!(h.all(), &[2, 5]);
    assert_eq!(ev, vec![HierarchyEvent::Removed(3), HierarchyEvent::Removed(4)]);
    assert_eq!(h.parent(4), None);
}

#[test]
fn hierarchy_dead_root_removes_everything_below_it() {
    let mut h = Hierarchy::new();
    h.update(&vec![ins(2, 1), ins(3, 2), ins(7, 6)]);
    let ev = h.update(&vec![gone(1), gone(1)]);
    assert_eq!(h.all(), &[7]);
    assert_eq!(
        ev,
        vec![HierarchyEvent::Removed(2), HierarchyEvent::Removed(3), HierarchyEvent::Removed(1)]
    );
    assert_eq!(h.roots(), vec![6]);
}

#[test]
fn hierarchy_reparenting_moves_the_subtree_and_reports_it() {
    let mut h = Hierarchy::new();
    h.update(&vec![ins(2, 1), ins(3, 2), ins(5, 4)]);
    let ev = h.update(&vec![modified(2, 5)]);
    assert_eq!(h.all(), &[5, 2, 3]);
    assert_eq!(h.parent(2), Some(5));
    assert_eq!(ev, vec![HierarchyEvent::ModifiedOrCreated(2), HierarchyEvent::ModifiedOrCreated(3)]);
    assert_eq!(h.children(5), vec![2]);
    assert_eq!(h.children(1), Vec::<u64>::new());
}

#[test]
fn hierarchy_ignores_unchanged_and_cyclic_links() {
    let mut h = Hierarchy::new();
    h.update(&vec![ins(2, 1), ins(3, 2)]);
    let ev = h.update(&vec![modified(3, 2)]);
    assert!(ev.is_empty());
    let ev = h.update(&vec![modified(2, 3)]);
    assert!(ev.is_empty());
    assert_eq!(h.parent(2), Some(1));
    let ev = h.update(&vec![ins(9, 9)]);
    assert!(ev.is_empty());
    assert_eq!(h.all(), &[2, 3]);
}

#[test]
fn hierarchy_insertions_come_before_changes() {
    let mut h = Hierarchy::new();
    let ev = h.update(&vec![modified(2, 3), ins(2, 1)]);
    assert_eq!(h.parent(2), Some(3));
    assert_eq!(ev, vec![HierarchyEvent::ModifiedOrCreated(2)]);
}

#[test]
fn hierarchy_removal_of_an_unlisted_entity_changes_nothing() {
    let mut h = Hierarchy::new();
    h.update(&vec![ins(2, 1)]);
    let ev = h.update(&vec![removed(1), removed(9)]);
    assert!(ev.is_empty());
    assert_eq!(h.all(), &[2]);
}
