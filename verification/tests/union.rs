use slicer::crossing::insert_crossings;
use slicer::geometry::{Normal, Vertex};
use slicer::graph::{build_multi_graph, find_position};
use slicer::polygons::Polygon;
use slicer::trace::{
    choose_step, share_two_points, signed_area, trace_boundary, turns_further_left,
    turns_further_right, UnionError,
};

const L: Normal = Normal { x: -1_000_000, y: 0 };
const T: Normal = Normal { x: 0, y: 1_000_000 };
const R: Normal = Normal { x: 1_000_000, y: 0 };
const B: Normal = Normal { x: 0, y: -1_000_000 };

fn v(x: i32, y: i32) -> Vertex {
    Vertex { x, y }
}

fn polygon(points: &[(i32, i32)]) -> Polygon {
    Polygon {
        points: points.iter().map(|p| v(p.0, p.1)).collect(),
        normals: points.iter().map(|_| Normal { x: 0, y: 0 }).collect(),
    }
}

/// A square drawn clockwise from its lower left corner, with the outward
/// normal of each side beside the corner that the side leaves.
fn square(x: i32, y: i32, side: i32) -> Polygon {
    Polygon {
        points: vec![v(x, y), v(x, y + side), v(x + side, y + side), v(x + side, y), v(x, y)],
        normals: vec![L, T, R, B, L],
    }
}

fn points(p: &[(i32, i32)]) -> Vec<Vertex> {
    p.iter().map(|p| v(p.0, p.1)).collect()
}

/// Twice the area that a closed run of points encloses, positive where it
/// runs clockwise.
fn twice_area(points: &[Vertex]) -> i64 {
    let mut sum: i64 = 0;
    for k in 0..points.len() - 1 {
        let p = points[k];
        let q = points[k + 1];
        sum += (q.x as i64 - p.x as i64) * (q.y as i64 + p.y as i64);
    }
    sum
}

#[test]
fn union_of_two_overlapping_squares() {
    let a = square(0, 0, 2);
    let b = square(1, 1, 2);
    let result = a.union(b).unwrap();
    assert_eq!(result.len(), 1);
    let expected =
        points(&[(0, 0), (0, 2), (1, 2), (1, 3), (3, 3), (3, 1), (2, 1), (2, 0), (0, 0)]);
    assert_eq!(result[0].points, expected);
    assert_eq!(twice_area(&result[0].points), 14);
    let mut distinct = result[0].points.clone();
    distinct.pop();
    distinct.sort_by_key(|p| (p.x, p.y));
    distinct.dedup();
    assert_eq!(distinct.len(), 8);
}

#[test]
fn union_carries_the_normal_of_each_edge() {
    let result = square(0, 0, 2).union(square(1, 1, 2)).unwrap();
    assert_eq!(result[0].normals, vec![L, T, L, T, R, B, R, B, B]);
}

#[test]
fn union_does_not_depend_on_which_square_is_asked() {
    let one = square(0, 0, 2).union(square(1, 1, 2)).unwrap();
    let other = square(1, 1, 2).union(square(0, 0, 2)).unwrap();
    assert_eq!(one[0].points, other[0].points);
}

#[test]
fn union_of_a_bar_across_a_block() {
    let block = polygon(&[(0, 0), (0, 20), (30, 20), (30, 0), (0, 0)]);
    let bar = polygon(&[(-10, 15), (-10, 30), (40, 30), (40, 15), (-10, 15)]);
    let result = block.union(bar).unwrap();
    assert_eq!(result.len(), 1);
    assert_eq!(
        result[0].points,
        points(&[
            (-10, 15),
            (-10, 30),
            (40, 30),
            (40, 15),
            (30, 15),
            (30, 0),
            (0, 0),
            (0, 15),
            (-10, 15),
        ])
    );
    // 30 * 20 + 50 * 15 - 30 * 5
    assert_eq!(twice_area(&result[0].points), 2 * 1200);
}

#[test]
fn union_of_a_block_under_a_bar() {
    // The lower side of the bar meets the right side of the block before
    // the left one, and the scan meets them in the other order.
    let block = polygon(&[(0, 0), (0, 20), (30, 20), (30, 0), (0, 0)]);
    let bar = polygon(&[(-10, 15), (-10, 30), (40, 30), (40, 15), (-10, 15)]);
    let result = bar.union(block).unwrap();
    assert_eq!(result.len(), 1);
    assert_eq!(
        result[0].points,
        points(&[
            (-10, 15),
            (-10, 30),
            (40, 30),
            (40, 15),
            (30, 15),
            (30, 0),
            (0, 0),
            (0, 15),
            (-10, 15),
        ])
    );
}

#[test]
fn an_edge_that_meets_several_edges_is_split_at_each() {
    let mut bar = polygon(&[(-10, 15), (-10, 30), (40, 30), (40, 15), (-10, 15)]);
    let mut block = polygon(&[(0, 0), (0, 20), (30, 20), (30, 0), (0, 0)]);
    insert_crossings(&mut bar, &mut block);
    assert_eq!(
        bar.points,
        points(&[(-10, 15), (-10, 30), (40, 30), (40, 15), (30, 15), (0, 15), (-10, 15)])
    );
    assert_eq!(
        block.points,
        points(&[(0, 0), (0, 15), (0, 20), (30, 20), (30, 15), (30, 0), (0, 0)])
    );
}

#[test]
fn union_of_a_cross() {
    let upright = polygon(&[(10, 0), (10, 30), (20, 30), (20, 0), (10, 0)]);
    let level = polygon(&[(0, 10), (0, 20), (30, 20), (30, 10), (0, 10)]);
    let result = upright.union(level).unwrap();
    assert_eq!(result.len(), 1);
    assert_eq!(
        result[0].points,
        points(&[
            (0, 10),
            (0, 20),
            (10, 20),
            (10, 30),
            (20, 30),
            (20, 20),
            (30, 20),
            (30, 10),
            (20, 10),
            (20, 0),
            (10, 0),
            (10, 10),
            (0, 10),
        ])
    );
    // Two bars of 10 by 30 that share a square of 10 by 10.
    assert_eq!(twice_area(&result[0].points), 2 * 500);
}

#[test]
fn union_of_squares_apart_is_the_two_squares() {
    let a = square(0, 0, 2);
    let b = square(5, 5, 2);
    let result = a.union(b.clone()).unwrap();
    assert_eq!(result, vec![a, b]);
}

#[test]
fn union_of_a_square_inside_another_is_the_two_squares() {
    let a = square(0, 0, 10);
    let b = square(3, 3, 2);
    let result = a.union(b.clone()).unwrap();
    assert_eq!(result, vec![a, b]);
}

#[test]
fn union_of_squares_that_touch_in_one_corner_is_the_two_squares() {
    let a = square(0, 0, 2);
    let b = square(2, 2, 2);
    let result = a.union(b.clone()).unwrap();
    assert_eq!(result, vec![a, b]);
}

#[test]
fn union_of_squares_that_touch_along_a_side_is_their_outline() {
    let a = square(0, 0, 2);
    let b = square(2, 0, 2);
    let result = a.union(b).unwrap();
    assert_eq!(result.len(), 1);
    assert_eq!(result[0].points, points(&[(0, 0), (0, 2), (2, 2), (4, 2), (4, 0), (2, 0), (0, 0)]));
    assert_eq!(twice_area(&result[0].points), 16);
}

#[test]
fn union_of_flat_polygons_has_no_step_to_take() {
    let a = polygon(&[(0, 0), (2, 0), (0, 0)]);
    let b = polygon(&[(0, 0), (2, 0), (0, 0)]);
    assert_eq!(a.union(b), Err(UnionError::UnresolvedTraceBranch));
}

#[test]
fn union_that_never_comes_back_to_its_start_is_given_up() {
    // The first polygon is not closed: its walk leaves the lowest point and
    // falls into a loop that does not hold it.
    let a = polygon(&[(0, 0), (5, 5), (5, 10), (10, 10), (5, 5)]);
    let b = polygon(&[(5, 10), (10, 10), (6, 9), (5, 10)]);
    assert_eq!(a.union(b), Err(UnionError::TraceNotClosed));
}

#[test]
fn union_is_the_same_each_time() {
    let first = square(0, 0, 2000).union(square(1000, 1000, 2000));
    let second = square(0, 0, 2000).union(square(1000, 1000, 2000));
    assert_eq!(first, second);
}

#[test]
fn crossings_go_into_both_polygons() {
    let mut a = square(0, 0, 2);
    let mut b = square(1, 1, 2);
    insert_crossings(&mut a, &mut b);
    assert_eq!(a.points, points(&[(0, 0), (0, 2), (1, 2), (2, 2), (2, 1), (2, 0), (0, 0)]));
    assert_eq!(a.normals, vec![L, T, T, R, R, B, L]);
    assert_eq!(b.points, points(&[(1, 1), (1, 2), (1, 3), (3, 3), (3, 1), (2, 1), (1, 1)]));
    assert_eq!(b.normals, vec![L, L, T, R, B, B, L]);
}

#[test]
fn crossings_leave_polygons_apart_as_they_are() {
    let mut a = square(0, 0, 2);
    let mut b = square(5, 5, 2);
    insert_crossings(&mut a, &mut b);
    assert_eq!(a, square(0, 0, 2));
    assert_eq!(b, square(5, 5, 2));
}

#[test]
fn a_crossing_on_a_corner_is_not_put_in_twice() {
    // The corner (2, 2) of the first lies on the left side of the second.
    let mut a = square(0, 0, 2);
    let mut b = square(2, 1, 2);
    insert_crossings(&mut a, &mut b);
    assert_eq!(a.points, points(&[(0, 0), (0, 2), (2, 2), (2, 1), (2, 0), (0, 0)]));
    assert_eq!(b.points, points(&[(2, 1), (2, 2), (2, 3), (4, 3), (4, 1), (2, 1)]));
}

#[test]
fn crossings_off_the_lattice_are_rounded() {
    let mut a = polygon(&[(0, 0), (10, 10), (20, 0), (0, 0)]);
    let mut b = polygon(&[(0, 5), (10, 0), (10, -5), (0, 5)]);
    insert_crossings(&mut a, &mut b);
    // (0, 0)-(10, 10) meets (0, 5)-(10, 0) at (10/3, 10/3).
    assert_eq!(a.points[1], v(3, 3));
    assert!(b.points.contains(&v(3, 3)));
}

#[test]
fn shared_points_are_counted_once_each() {
    let a = square(0, 0, 2);
    assert!(!share_two_points(&a, &square(5, 5, 2)));
    // One shared corner, which the first polygon holds at both its ends.
    assert!(!share_two_points(&a, &square(-2, -2, 2)));
    assert!(share_two_points(&a, &square(2, 0, 2)));
    assert!(share_two_points(&a, &a));
}

#[test]
fn position_is_the_first_place_that_holds_the_point() {
    let a = square(0, 0, 2);
    assert_eq!(find_position(&a.points, v(0, 0)), 0);
    assert_eq!(find_position(&a.points, v(2, 0)), 3);
    assert_eq!(find_position(&a.points, v(7, 7)), 5);
    assert_eq!(find_position(&Vec::new(), v(0, 0)), 0);
}

#[test]
fn graph_lists_the_next_steps_from_each_point() {
    let mut a = square(0, 0, 2);
    let mut b = square(1, 1, 2);
    insert_crossings(&mut a, &mut b);
    let graph = build_multi_graph(&a, &b);
    assert_eq!(graph.len(), 14);
    // A point of the first polygon alone: on along the first.
    assert_eq!(graph[0], vec![(v(0, 2), L)]);
    // The crossing (1, 2): back and on along the second, then on along the first.
    assert_eq!(graph[2], vec![(v(1, 1), L), (v(1, 3), L), (v(2, 2), T)]);
    // The same crossing seen from the second polygon.
    assert_eq!(graph[8], vec![(v(0, 2), T), (v(2, 2), T), (v(1, 3), L)]);
    // The last point of the first polygon repeats the first: on to the second point.
    assert_eq!(graph[6], vec![(v(0, 2), L)]);
    // The first point of the second polygon: back is the point before the repeated one.
    assert_eq!(graph[7], vec![(v(1, 2), L)]);
}

#[test]
fn graph_of_a_polygon_of_one_point_offers_no_step() {
    let a = polygon(&[(0, 0)]);
    let b = polygon(&[]);
    let graph = build_multi_graph(&a, &b);
    assert_eq!(graph, vec![Vec::<(Vertex, Normal)>::new()]);
}

#[test]
fn the_turn_furthest_to_the_left_wins() {
    let prev = v(0, 0);
    let cur = v(10, 0);
    let right = v(10, -10);
    let ahead = v(20, 0);
    let left = v(10, 10);
    let back = v(5, 0);
    assert!(turns_further_left(prev, cur, right, ahead));
    assert!(turns_further_left(prev, cur, ahead, left));
    assert!(turns_further_left(prev, cur, left, back));
    assert!(turns_further_left(prev, cur, right, back));
    assert!(!turns_further_left(prev, cur, left, ahead));
    assert!(!turns_further_left(prev, cur, ahead, ahead));
    // Two turns to the left: the sharper one is further left.
    assert!(turns_further_left(prev, cur, v(20, 10), v(0, 10)));
    assert!(!turns_further_left(prev, cur, v(0, 10), v(20, 10)));
    // Two turns to the right: the gentler one is further left.
    assert!(turns_further_left(prev, cur, v(0, -10), v(20, -10)));
    assert!(!turns_further_left(prev, cur, v(20, -10), v(0, -10)));
    // The same direction at another distance is no further left.
    assert!(!turns_further_left(prev, cur, v(20, 10), v(30, 20)));
    assert!(!turns_further_left(prev, cur, v(30, 20), v(20, 10)));
}

#[test]
fn the_turn_is_decided_at_the_extremes_of_the_lattice() {
    let lo = i32::MIN;
    let hi = i32::MAX;
    assert!(turns_further_left(v(lo, lo), v(0, 0), v(hi, lo), v(lo, hi)));
    assert!(!turns_further_left(v(lo, lo), v(0, 0), v(lo, hi), v(hi, lo)));
}

#[test]
fn the_step_back_is_never_taken() {
    let n = Normal { x: 0, y: 0 };
    let prev = v(0, 0);
    let cur = v(10, 0);
    assert_eq!(choose_step(&vec![(prev, n)], prev, cur, true), None);
    assert_eq!(choose_step(&vec![], prev, cur, true), None);
    assert_eq!(choose_step(&vec![(prev, n), (v(20, 0), n)], prev, cur, true), Some(1));
    let fan = vec![(v(10, -10), n), (v(20, 0), n), (v(10, 10), n)];
    assert_eq!(choose_step(&fan, prev, cur, true), Some(2));
    // Of two steps that turn alike the first is taken.
    assert_eq!(choose_step(&vec![(v(20, 0), n), (v(30, 0), n)], prev, cur, true), Some(0));
}

#[test]
fn boundary_starts_at_the_lowest_point() {
    let mut a = square(1, 1, 2);
    let mut b = square(0, 0, 2);
    insert_crossings(&mut a, &mut b);
    let graph = build_multi_graph(&a, &b);
    let traced = trace_boundary(&a, &b, &graph, true).unwrap();
    assert_eq!(traced.points[0], v(0, 0));
    assert_eq!(traced.points[traced.points.len() - 1], v(0, 0));
    assert_eq!(traced.points.len(), 9);
}

/// The same polygon drawn in the other direction.
fn turned(p: &Polygon) -> Polygon {
    p.reversed()
}

#[test]
fn union_of_squares_drawn_counter_clockwise() {
    let a = turned(&square(0, 0, 2));
    let b = turned(&square(1, 1, 2));
    let result = a.union(b).unwrap();
    assert_eq!(result.len(), 1);
    assert_eq!(
        result[0].points,
        points(&[(0, 0), (2, 0), (2, 1), (3, 1), (3, 3), (1, 3), (1, 2), (0, 2), (0, 0)])
    );
    assert_eq!(result[0].normals, vec![B, R, B, R, T, L, T, L, L]);
    assert_eq!(twice_area(&result[0].points), -14);
}

#[test]
fn union_of_squares_drawn_in_opposed_directions_is_refused() {
    let a = square(0, 0, 2);
    let b = turned(&square(1, 1, 2));
    assert_eq!(a.union(b.clone()), Err(UnionError::OpposedDirections));
    assert_eq!(b.union(a), Err(UnionError::OpposedDirections));
    // Apart, the direction does not matter.
    let far = turned(&square(5, 5, 2));
    assert_eq!(square(0, 0, 2).union(far.clone()).unwrap(), vec![square(0, 0, 2), far]);
}

#[test]
fn signed_area_tells_the_direction() {
    assert_eq!(signed_area(&square(0, 0, 2)), -8);
    assert_eq!(signed_area(&turned(&square(0, 0, 2))), 8);
    assert_eq!(signed_area(&square(-5, 7, 3)), -18);
    assert_eq!(signed_area(&polygon(&[(0, 0), (2, 0), (0, 0)])), 0);
    assert_eq!(signed_area(&polygon(&[(3, 4)])), 0);
    assert_eq!(signed_area(&polygon(&[])), 0);
    let (lo, hi) = (i32::MIN, i32::MAX);
    let whole = polygon(&[(lo, lo), (lo, hi), (hi, hi), (hi, lo), (lo, lo)]);
    let side = hi as i128 - lo as i128;
    assert_eq!(signed_area(&whole), -2 * side * side);
}

#[test]
fn the_turn_furthest_to_the_right_wins_the_other_way_round() {
    let prev = v(0, 0);
    let cur = v(10, 0);
    let right = v(10, -10);
    let ahead = v(20, 0);
    let left = v(10, 10);
    let back = v(5, 0);
    assert!(turns_further_right(prev, cur, left, ahead));
    assert!(turns_further_right(prev, cur, ahead, right));
    assert!(turns_further_right(prev, cur, right, back));
    assert!(!turns_further_right(prev, cur, right, ahead));
    assert!(!turns_further_right(prev, cur, ahead, ahead));
    assert!(turns_further_right(prev, cur, v(20, -10), v(0, -10)));
    assert!(!turns_further_right(prev, cur, v(0, -10), v(20, -10)));
    assert!(turns_further_right(prev, cur, v(0, 10), v(20, 10)));
    let n = Normal { x: 0, y: 0 };
    let fan = vec![(right, n), (ahead, n), (left, n)];
    assert_eq!(choose_step(&fan, prev, cur, false), Some(0));
    assert_eq!(choose_step(&fan, prev, cur, true), Some(2));
}

#[test]
fn a_step_of_no_length_is_never_taken() {
    let n = Normal { x: 0, y: 0 };
    let prev = v(0, 0);
    let cur = v(10, 0);
    assert_eq!(choose_step(&vec![(cur, n)], prev, cur, true), None);
    assert_eq!(choose_step(&vec![(cur, n), (prev, n)], prev, cur, true), None);
    assert_eq!(choose_step(&vec![(cur, n), (v(20, 0), n)], prev, cur, true), Some(1));
}

#[test]
fn a_boundary_never_has_fewer_than_three_points() {
    // The lowest point twice in a row: the walk would close on its first step.
    let a = polygon(&[(0, 0), (0, 0), (1, 0), (2, 0), (0, 0)]);
    let b = polygon(&[(1, 0), (2, 0), (3, 0), (1, 0)]);
    match a.union(b) {
        Ok(result) => assert!(result.iter().all(|p| p.points.len() >= 4)),
        Err(e) => assert_eq!(e, UnionError::UnresolvedTraceBranch),
    }
    let doubled = polygon(&[(0, 0), (0, 0), (0, 2), (2, 2), (2, 0), (0, 0)]);
    assert_eq!(doubled.union(square(1, 1, 2)), Err(UnionError::UnresolvedTraceBranch));
}

/// A square with one normal for each of its four sides.
fn square_by_edges(x: i32, y: i32, side: i32) -> Polygon {
    let mut p = square(x, y, side);
    p.normals.pop();
    p
}

#[test]
fn union_of_squares_with_one_normal_for_each_edge() {
    let a = square_by_edges(0, 0, 2);
    let b = square_by_edges(1, 1, 2);
    assert!(a.is_well_formed() && !a.has_normal_per_point());
    let result = a.union(b).unwrap();
    assert_eq!(result.len(), 1);
    assert_eq!(
        result[0].points,
        points(&[(0, 0), (0, 2), (1, 2), (1, 3), (3, 3), (3, 1), (2, 1), (2, 0), (0, 0)])
    );
    assert_eq!(result[0].normals, vec![L, T, L, T, R, B, R, B]);
    let apart = square_by_edges(0, 0, 2).union(square_by_edges(5, 5, 2)).unwrap();
    assert_eq!(apart, vec![square_by_edges(0, 0, 2), square_by_edges(5, 5, 2)]);
}

#[test]
fn crossings_keep_one_normal_for_each_edge() {
    let mut a = square_by_edges(0, 0, 2);
    let mut b = square_by_edges(1, 1, 2);
    insert_crossings(&mut a, &mut b);
    assert_eq!(a.points, points(&[(0, 0), (0, 2), (1, 2), (2, 2), (2, 1), (2, 0), (0, 0)]));
    assert_eq!(a.normals, vec![L, T, T, R, R, B]);
    assert_eq!(b.points, points(&[(1, 1), (1, 2), (1, 3), (3, 3), (3, 1), (2, 1), (1, 1)]));
    assert_eq!(b.normals, vec![L, L, T, R, B, B]);
    let graph = build_multi_graph(&a, &b);
    // The last point has no normal beside it: the step on is the first edge.
    assert_eq!(graph[6], vec![(v(0, 2), L)]);
    assert_eq!(graph[2], vec![(v(1, 1), L), (v(1, 3), L), (v(2, 2), T)]);
}
