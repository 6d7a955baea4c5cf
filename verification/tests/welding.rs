use slicer::geometry::{Normal, Vertex};
use slicer::polygons::Polygon;
use slicer::welder::{VertexPool, DEFAULT_TOLERANCE};

fn v(x: i32, y: i32) -> Vertex {
    Vertex { x, y }
}

#[test]
fn the_default_tolerance_is_ten_lattice_units() {
    assert_eq!(DEFAULT_TOLERANCE, 10);
    assert_eq!(VertexPool::new(DEFAULT_TOLERANCE).tolerance(), 10);
    assert_eq!(VertexPool::default().tolerance(), 10);
    assert_eq!(VertexPool::default().len(), 0);
}

#[test]
fn a_point_far_from_all_entries_gets_a_new_index() {
    let mut pool = VertexPool::new(10);
    assert_eq!(pool.weld(v(0, 0)), 0);
    assert_eq!(pool.weld(v(100, 0)), 1);
    assert_eq!(pool.weld(v(0, 100)), 2);
    assert_eq!(pool.len(), 3);
    assert_eq!(pool.vertices(), &vec![v(0, 0), v(100, 0), v(0, 100)]);
}

#[test]
fn a_point_of_the_pool_welds_to_its_own_index() {
    let mut pool = VertexPool::new(10);
    let entries = [v(0, 0), v(100, 0), v(0, 100), v(-50, -50)];
    for p in entries {
        pool.weld(p);
    }
    for (k, p) in entries.iter().enumerate() {
        assert_eq!(pool.weld(*p), k);
    }
    assert_eq!(pool.len(), 4);
}

#[test]
fn a_point_within_the_tolerance_welds_to_the_entry() {
    let mut pool = VertexPool::new(10);
    pool.weld(v(0, 0));
    // At distance 5.
    assert_eq!(pool.weld(v(3, 4)), 0);
    assert_eq!(pool.len(), 1);
    assert_eq!(pool.get(0), v(0, 0));
}

#[test]
fn a_point_at_the_tolerance_itself_is_apart() {
    let mut pool = VertexPool::new(10);
    pool.weld(v(0, 0));
    // At distance 10, which is not below the tolerance.
    assert_eq!(pool.weld(v(6, 8)), 1);
    assert_eq!(pool.weld(v(0, -10)), 2);
    // At squared distance 98 and 97 from the first entry.
    assert_eq!(pool.weld(v(-7, -7)), 0);
    assert_eq!(pool.weld(v(9, 4)), 0);
    assert_eq!(pool.len(), 3);
}

#[test]
fn the_first_entry_that_is_near_wins() {
    let mut pool = VertexPool::new(10);
    pool.weld(v(0, 0));
    pool.weld(v(12, 0));
    // Within the tolerance of both entries.
    assert_eq!(pool.weld(v(6, 0)), 0);
    let mut other = VertexPool::new(10);
    other.weld(v(12, 0));
    other.weld(v(0, 0));
    assert_eq!(other.weld(v(6, 0)), 0);
    assert_eq!(other.get(0), v(12, 0));
}

#[test]
fn with_no_tolerance_every_point_is_new() {
    let mut pool = VertexPool::new(0);
    assert_eq!(pool.weld(v(1, 1)), 0);
    assert_eq!(pool.weld(v(1, 1)), 1);
}

#[test]
fn with_tolerance_one_only_equal_points_weld() {
    let mut pool = VertexPool::new(1);
    assert_eq!(pool.weld(v(1, 1)), 0);
    assert_eq!(pool.weld(v(1, 2)), 1);
    assert_eq!(pool.weld(v(1, 1)), 0);
}

#[test]
fn welding_reaches_across_the_whole_lattice() {
    let mut pool = VertexPool::new(u32::MAX);
    assert_eq!(pool.weld(v(i32::MIN, i32::MIN)), 0);
    // At distance 2^32 - 1 along one axis, which is not below the tolerance.
    assert_eq!(pool.weld(v(i32::MAX, i32::MIN)), 1);
    assert_eq!(pool.weld(v(i32::MAX - 1, i32::MIN)), 0);
    assert_eq!(pool.weld(v(i32::MAX, i32::MAX)), 2);
}

#[test]
fn a_polyline_turns_into_the_indices_of_its_points() {
    let normals = vec![Normal { x: 1, y: 0 }, Normal { x: 0, y: 1 }, Normal { x: -1, y: 0 }];
    let line = Polygon { points: vec![v(0, 0), v(50, 0), v(2, 1)], normals: normals.clone() };
    let mut pool = VertexPool::new(10);
    let indexed = line.to_indices(&mut pool);
    assert_eq!(indexed.points, vec![0, 1, 0]);
    assert_eq!(indexed.normals, normals);
    assert_eq!(pool.vertices(), &vec![v(0, 0), v(50, 0)]);
    let again = Polygon { points: vec![v(50, 3), v(90, 90)], normals: vec![] };
    let indexed = again.to_indices(&mut pool);
    assert_eq!(indexed.points, vec![1, 2]);
    assert_eq!(pool.len(), 3);
}
