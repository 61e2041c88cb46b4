use sludge::spatial_hash::{cell_list, CellRange, ObjectIndex, SpatialHasher};
use std::collections::HashSet;
use std::hash::Hash;

fn set_of<T: Hash + Eq>(iter: impl IntoIterator<Item = T>) -> HashSet<T> {
    iter.into_iter().collect()
}

/// The cells of width `size` that the box around `center` with
/// `half_extents` spans.
fn cells_of(size: f32, center: (f32, f32), half_extents: (f32, f32)) -> CellRange {
    let (mins, maxs) = (
        (center.0 - half_extents.0, center.1 - half_extents.1),
        (center.0 + half_extents.0, center.1 + half_extents.1),
    );
    CellRange {
        x_start: (mins.0 / size).floor() as i32,
        x_end: (maxs.0 / size).ceil() as i32,
        y_start: (mins.1 / size).floor() as i32,
        y_end: (maxs.1 / size).ceil() as i32,
    }
}

/// The cells whose closed bounds the box touches.
fn touching(size: f32, center: (f32, f32), half_extents: (f32, f32)) -> CellRange {
    let (mins, maxs) = (
        (center.0 - half_extents.0, center.1 - half_extents.1),
        (center.0 + half_extents.0, center.1 + half_extents.1),
    );
    CellRange {
        x_start: (mins.0 / size).ceil() as i32 - 1,
        x_end: (maxs.0 / size).floor() as i32 + 1,
        y_start: (mins.1 / size).ceil() as i32 - 1,
        y_end: (maxs.1 / size).floor() as i32 + 1,
    }
}

#[test]
fn spatial_hash_spatial_hash_simple() {
    let mut spatial_hasher = SpatialHasher::new();

    let a = spatial_hasher.insert(cells_of(64., (23., 42.), (8., 8.)), "a");
    let b = spatial_hasher.insert(cells_of(64., (-2., -3.), (4., 4.)), "b");
    let c = spatial_hasher.insert(cells_of(64., (35., 35.), (36., 36.)), "c");
    let d = spatial_hasher.insert(cells_of(64., (84., 20.), (8., 8.)), "d");

    assert_eq!(
        set_of(spatial_hasher.query(cells_of(64., (20., 40.), (8., 8.)))),
        set_of(vec![a, b, c])
    );
    assert_eq!(
        set_of(spatial_hasher.query(cells_of(64., (-13., 14.), (8., 8.)))),
        set_of(vec![b, c])
    );
    assert_eq!(
        set_of(spatial_hasher.query(cells_of(64., (96., 96.), (8., 8.)))),
        set_of(vec![c])
    );
    assert_eq!(
        set_of(spatial_hasher.query(cells_of(64., (96., 32.), (8., 8.)))),
        set_of(vec![c, d])
    );

    spatial_hasher.update(d, cells_of(64., (45., 20.), (8., 8.)), touching(64., (45., 20.), (8., 8.)));

    assert_eq!(
        set_of(spatial_hasher.query(cells_of(64., (96., 32.), (8., 8.)))),
        set_of(vec![c])
    );
}

#[test]
fn spatial_hash_cells_column_by_column() {
    let r = CellRange { x_start: -1, x_end: 1, y_start: 0, y_end: 2 };
    assert_eq!(cell_list(r), vec![(-1, 0), (-1, 1), (0, 0), (0, 1)]);
    let empty = CellRange { x_start: 3, x_end: 3, y_start: 0, y_end: 5 };
    assert!(cell_list(empty).is_empty());
    let inverted = CellRange { x_start: 0, x_end: 2, y_start: 5, y_end: 1 };
    assert!(cell_list(inverted).is_empty());
}

#[test]
fn spatial_hash_buckets_stay_sorted_and_remove_cleans_up() {
    let mut h = SpatialHasher::new();
    let one = CellRange { x_start: 0, x_end: 1, y_start: 0, y_end: 1 };
    let ids: Vec<ObjectIndex> = (0..4).map(|i| h.insert(one, i)).collect();
    let members = h.bucket_members((0, 0)).unwrap().clone();
    assert_eq!(members, ids);
    h.remove(ids[1]);
    assert!(!h.contains_object(ids[1]));
    assert_eq!(h.bucket_members((0, 0)).unwrap(), &vec![ids[0], ids[2], ids[3]]);
    let again = h.insert(one, 9);
    assert!(!ids.contains(&again));
    assert_eq!(*h.userdata(again), 9);
    assert_eq!(h.query(one).len(), 4);
    *h.userdata_mut(ids[0]) = 42;
    assert_eq!(*h.userdata(ids[0]), 42);
    assert!(h.bucket_members((5, 5)).is_none());
}

#[test]
fn spatial_hash_query_lists_an_object_once_per_bucket() {
    let mut h = SpatialHasher::new();
    let wide = CellRange { x_start: 0, x_end: 2, y_start: 0, y_end: 1 };
    let id = h.insert(wide, ());
    assert_eq!(h.query(wide), vec![id, id]);
    assert_eq!(h.query(CellRange { x_start: 1, x_end: 2, y_start: 0, y_end: 1 }), vec![id]);
    assert!(h.query(CellRange { x_start: 5, x_end: 6, y_start: 0, y_end: 1 }).is_empty());
}

#[test]
fn spatial_hash_update_reports_whether_buckets_changed() {
    let mut h = SpatialHasher::new();
    let here = CellRange { x_start: 0, x_end: 1, y_start: 0, y_end: 1 };
    let there = CellRange { x_start: 1, x_end: 2, y_start: 0, y_end: 1 };
    let id = h.insert(here, ());
    assert!(!h.update(id, here, here));
    assert!(h.update(id, there, there));
    assert!(h.bucket_members((0, 0)).unwrap().is_empty());
    assert_eq!(h.bucket_members((1, 0)).unwrap(), &vec![id]);
    assert!(!h.update(id, there, there));
}

#[test]
fn spatial_hash_can_remove_a_live_object_once() {
    let mut h: SpatialHasher<u8> = SpatialHasher::new();
    let r = CellRange { x_start: 0, x_end: 2, y_start: 0, y_end: 1 };
    let a = h.insert(r, 1);
    let b = h.insert(r, 2);
    assert!(h.can_remove(a));
    h.remove(a);
    assert!(!h.can_remove(a));
    assert!(h.can_remove(b));
}

#[test]
fn spatial_hash_spatial_indices() {
    assert_eq!(set_of(cell_list(cells_of(64., (23., 24.), (8., 8.)))), set_of(vec![(0, 0)]));
    assert_eq!(
        set_of(cell_list(cells_of(64., (-2., -3.), (4., 4.)))),
        set_of(vec![(0, 0), (-1, -1), (-1, 0), (0, -1)])
    );
    assert_eq!(
        set_of(cell_list(cells_of(64., (35., 35.), (36., 36.)))),
        set_of(vec![(0, 0), (-1, -1), (-1, 0), (0, -1), (1, 1), (1, 0), (0, 1), (-1, 1), (1, -1)])
    );
}
