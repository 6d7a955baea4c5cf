use slicer::geometry::{Normal, Vertex};
use slicer::polygons::Polygon;
use slicer::stitcher::{can_connect, connect_lines};

fn v(x: i32, y: i32) -> Vertex {
    Vertex { x, y }
}

fn n(k: i32) -> Normal {
    Normal { x: k, y: 0 }
}

fn fragment(a: (i32, i32), b: (i32, i32), normal: i32) -> Polygon {
    Polygon { points: vec![v(a.0, a.1), v(b.0, b.1)], normals: vec![n(normal), n(normal)] }
}

fn corners(p: &Polygon) -> Vec<(i32, i32)> {
    let mut c: Vec<(i32, i32)> = p.points.iter().map(|p| (p.x, p.y)).collect();
    c.pop();
    c.sort();
    c
}

fn assert_is_the_square(result: &[Polygon]) {
    assert_eq!(result.len(), 1);
    let p = &result[0];
    assert_eq!(p.points.len(), 5);
    assert_eq!(p.normals.len(), 5);
    assert_eq!(p.points[0], p.points[4]);
    assert_eq!(corners(p), vec![(0, 0), (0, 2), (2, 0), (2, 2)]);
}

#[test]
fn four_sides_in_order_close_into_a_square() {
    let lines = vec![
        fragment((0, 0), (0, 2), 1),
        fragment((0, 2), (2, 2), 2),
        fragment((2, 2), (2, 0), 3),
        fragment((2, 0), (0, 0), 4),
    ];
    let result = connect_lines(&lines, 1).unwrap();
    assert_is_the_square(&result);
    assert_eq!(result[0].points, vec![v(0, 0), v(0, 2), v(2, 2), v(2, 0), v(0, 0)]);
    assert_eq!(result[0].normals, vec![n(1), n(2), n(3), n(4), n(4)]);
}

#[test]
fn four_sides_in_any_order_close_into_a_square() {
    let sides = [
        fragment((0, 0), (0, 2), 1),
        fragment((0, 2), (2, 2), 2),
        fragment((2, 2), (2, 0), 3),
        fragment((2, 0), (0, 0), 4),
    ];
    let orders: [[usize; 4]; 6] =
        [[0, 1, 2, 3], [3, 2, 1, 0], [0, 2, 1, 3], [2, 0, 3, 1], [1, 3, 0, 2], [3, 0, 2, 1]];
    for order in orders {
        let lines: Vec<Polygon> = order.iter().map(|k| sides[*k].clone()).collect();
        assert_is_the_square(&connect_lines(&lines, 1).unwrap());
    }
}

#[test]
fn four_sides_in_any_direction_close_into_a_square() {
    for mask in 0..16 {
        let mut lines = vec![
            fragment((0, 0), (0, 2), 1),
            fragment((0, 2), (2, 2), 2),
            fragment((2, 2), (2, 0), 3),
            fragment((2, 0), (0, 0), 4),
        ];
        for (k, line) in lines.iter_mut().enumerate() {
            if mask & (1 << k) != 0 {
                line.points.reverse();
            }
        }
        assert_is_the_square(&connect_lines(&lines, 1).unwrap());
    }
}

#[test]
fn opposite_sides_first_still_close_into_a_square() {
    let lines = vec![
        fragment((0, 0), (0, 2), 1),
        fragment((2, 0), (2, 2), 3),
        fragment((2, 2), (0, 2), 2),
        fragment((0, 0), (2, 0), 4),
    ];
    let result = connect_lines(&lines, 1).unwrap();
    assert_is_the_square(&result);
    // The first side takes the third at its end, then the second at the new
    // end; the fourth starts where the whole starts, so the whole is turned
    // round and the fourth closes it.
    assert_eq!(result[0].points, vec![v(2, 0), v(2, 2), v(0, 2), v(0, 0), v(2, 0)]);
    assert_eq!(result[0].normals, vec![n(3), n(2), n(1), n(4), n(4)]);
}

#[test]
fn ends_within_the_tolerance_are_one_point() {
    let lines = vec![
        fragment((0, 0), (0, 2000), 1),
        fragment((3, 2004), (2000, 2000), 2),
        fragment((2001, 1999), (2000, 0), 3),
        fragment((1994, -2), (-4, 3), 4),
    ];
    let result = connect_lines(&lines, 10).unwrap();
    assert_eq!(result.len(), 1);
    assert_eq!(
        result[0].points,
        vec![v(0, 0), v(0, 2000), v(2000, 2000), v(2000, 0), v(0, 0)]
    );
}

#[test]
fn ends_beyond_the_tolerance_leave_the_contour_open() {
    let lines = vec![
        fragment((0, 0), (0, 2000), 1),
        fragment((0, 2000), (2000, 2000), 2),
        fragment((2000, 2000), (2000, 0), 3),
        fragment((2000, 0), (10, 0), 4),
    ];
    let e = connect_lines(&lines, 10).unwrap_err();
    assert_eq!(e.first_open, 0);
    assert_eq!(e.contours.len(), 1);
    assert_eq!(
        e.contours[0].points,
        vec![v(0, 0), v(0, 2000), v(2000, 2000), v(2000, 0), v(10, 0)]
    );
}

#[test]
fn a_fragment_given_twice_counts_once() {
    let lines = vec![
        fragment((0, 0), (0, 2), 1),
        fragment((0, 2), (2, 2), 2),
        fragment((0, 0), (0, 2), 5),
        fragment((2, 2), (2, 0), 3),
        fragment((2, 2), (0, 2), 6),
        fragment((2, 0), (0, 0), 4),
        fragment((2, 0), (0, 0), 7),
    ];
    let result = connect_lines(&lines, 1).unwrap();
    assert_is_the_square(&result);
    assert_eq!(result[0].normals, vec![n(1), n(2), n(3), n(4), n(4)]);
}

#[test]
fn a_missing_side_is_reported() {
    let lines = vec![
        fragment((0, 0), (0, 2), 1),
        fragment((0, 2), (2, 2), 2),
        fragment((2, 2), (2, 0), 3),
    ];
    let e = connect_lines(&lines, 1).unwrap_err();
    assert_eq!(e.first_open, 0);
    assert_eq!(e.contours.len(), 1);
    assert_eq!(e.contours[0].points, vec![v(0, 0), v(0, 2), v(2, 2), v(2, 0)]);
}

#[test]
fn the_first_open_contour_is_named() {
    let lines = vec![
        fragment((0, 0), (0, 2), 1),
        fragment((0, 2), (2, 2), 2),
        fragment((2, 2), (2, 0), 3),
        fragment((2, 0), (0, 0), 4),
        fragment((10, 10), (10, 12), 5),
        fragment((10, 12), (12, 12), 6),
    ];
    let e = connect_lines(&lines, 1).unwrap_err();
    assert_eq!(e.contours.len(), 2);
    assert_eq!(e.first_open, 1);
    assert_eq!(e.contours[0].points.len(), 5);
    assert_eq!(e.contours[1].points, vec![v(10, 10), v(10, 12), v(12, 12)]);
}

#[test]
fn a_lone_fragment_is_dropped() {
    let lines = vec![fragment((0, 0), (5, 5), 1)];
    assert_eq!(connect_lines(&lines, 1).unwrap(), vec![]);
    let lines = vec![
        fragment((0, 0), (0, 2), 1),
        fragment((0, 2), (2, 2), 2),
        fragment((2, 2), (2, 0), 3),
        fragment((50, 50), (60, 60), 9),
        fragment((2, 0), (0, 0), 4),
    ];
    assert_is_the_square(&connect_lines(&lines, 1).unwrap());
}

#[test]
fn no_fragments_give_no_contours() {
    assert_eq!(connect_lines(&Vec::new(), 10).unwrap(), vec![]);
}

#[test]
fn two_loops_come_out_apart() {
    let lines = vec![
        fragment((0, 0), (0, 2), 1),
        fragment((10, 10), (10, 12), 5),
        fragment((0, 2), (2, 2), 2),
        fragment((10, 12), (12, 12), 6),
        fragment((2, 2), (2, 0), 3),
        fragment((12, 12), (10, 10), 7),
        fragment((2, 0), (0, 0), 4),
    ];
    let result = connect_lines(&lines, 1).unwrap();
    assert_eq!(result.len(), 2);
    assert_eq!(result[0].points, vec![v(0, 0), v(0, 2), v(2, 2), v(2, 0), v(0, 0)]);
    assert_eq!(result[1].points, vec![v(10, 10), v(10, 12), v(12, 12), v(10, 10)]);
}

#[test]
fn stitching_is_the_same_each_time() {
    let lines = vec![
        fragment((2, 2), (2, 0), 3),
        fragment((0, 0), (0, 2), 1),
        fragment((2, 0), (0, 0), 4),
        fragment((2, 2), (0, 2), 2),
    ];
    assert_eq!(connect_lines(&lines, 1).unwrap(), connect_lines(&lines, 1).unwrap());
}

/// Numbers in a fixed order that looks random.
struct Sequence(u64);

impl Sequence {
    fn next(&mut self, below: usize) -> usize {
        self.0 = self.0.wrapping_mul(6364136223846793005).wrapping_add(1442695040888963407);
        ((self.0 >> 33) % (below as u64)) as usize
    }
}

fn edges(points: &[Vertex]) -> Vec<((i32, i32), (i32, i32))> {
    let mut all = Vec::new();
    for k in 0..points.len() - 1 {
        let (p, q) = ((points[k].x, points[k].y), (points[k + 1].x, points[k + 1].y));
        all.push(if p < q { (p, q) } else { (q, p) });
    }
    all.sort();
    all
}

#[test]
fn a_loop_cut_to_pieces_is_put_together_again() {
    let mut numbers = Sequence(20240229);
    for round in 0..300 {
        // a loop through some points of a grid, no point twice
        let n = 3 + numbers.next(30);
        let mut grid: Vec<(i32, i32)> = Vec::new();
        for x in 0..8 {
            for y in 0..8 {
                grid.push((x * 1000, y * 1000));
            }
        }
        let mut ring: Vec<Vertex> = Vec::new();
        for _ in 0..n {
            let (x, y) = grid.swap_remove(numbers.next(grid.len()));
            ring.push(v(x, y));
        }
        ring.push(ring[0]);
        // its edges in any order, in any direction, each end moved a little
        let mut lines: Vec<Polygon> = Vec::new();
        for k in 0..n {
            let mut ends = [ring[k], ring[k + 1]];
            for end in ends.iter_mut() {
                if round % 2 == 1 {
                    end.x += numbers.next(7) as i32 - 3;
                    end.y += numbers.next(7) as i32 - 3;
                }
            }
            if numbers.next(2) == 1 {
                ends.reverse();
            }
            lines.push(Polygon { points: ends.to_vec(), normals: vec![n_of(k), n_of(k)] });
        }
        for k in (1..lines.len()).rev() {
            lines.swap(k, numbers.next(k + 1));
        }
        let tolerance = if round % 2 == 1 { 10 } else { 1 };
        let result = connect_lines(&lines, tolerance).unwrap();
        assert_eq!(result.len(), 1);
        let contour = &result[0];
        assert_eq!(contour.points.len(), n + 1);
        assert_eq!(contour.normals.len(), n + 1);
        assert_eq!(contour.points[0], contour.points[n]);
        if round % 2 == 0 {
            assert_eq!(edges(&contour.points), edges(&ring));
            // each edge has kept its normal
            for k in 0..n {
                let (p, q) = (contour.points[k], contour.points[k + 1]);
                let at = (0..n)
                    .position(|e| {
                        (ring[e], ring[e + 1]) == (p, q) || (ring[e], ring[e + 1]) == (q, p)
                    })
                    .unwrap();
                assert_eq!(contour.normals[k], n_of(at));
            }
        }
    }
}

fn n_of(k: usize) -> Normal {
    Normal { x: k as i32, y: -(k as i32) }
}

/// A fragment as two points and the one normal of its edge.
fn edge(a: (i32, i32), b: (i32, i32), normal: i32) -> Polygon {
    Polygon { points: vec![v(a.0, a.1), v(b.0, b.1)], normals: vec![n(normal)] }
}

#[test]
fn four_sides_with_one_normal_each_close_into_a_square() {
    let lines = vec![
        edge((0, 0), (0, 2), 1),
        edge((0, 2), (2, 2), 2),
        edge((2, 2), (2, 0), 3),
        edge((2, 0), (0, 0), 4),
    ];
    assert!(can_connect(&lines));
    let result = connect_lines(&lines, 1).unwrap();
    assert_eq!(result.len(), 1);
    assert_eq!(result[0].points, vec![v(0, 0), v(0, 2), v(2, 2), v(2, 0), v(0, 0)]);
    assert_eq!(result[0].normals, vec![n(1), n(2), n(3), n(4)]);
}

#[test]
fn four_shuffled_sides_with_one_normal_each_close_into_a_square() {
    let lines = vec![
        edge((2, 2), (0, 2), 2),
        edge((0, 0), (2, 0), 4),
        edge((0, 2), (0, 0), 1),
        edge((2, 0), (2, 2), 3),
    ];
    let result = connect_lines(&lines, 1).unwrap();
    assert_eq!(result.len(), 1);
    let ring = &result[0];
    assert_eq!(ring.points.len(), 5);
    assert_eq!(ring.normals.len(), 4);
    assert_eq!(ring.points[0], ring.points[4]);
    assert_eq!(corners(ring), vec![(0, 0), (0, 2), (2, 0), (2, 2)]);
    // each side has kept its normal
    for k in 0..4 {
        let (p, q) = (ring.points[k], ring.points[k + 1]);
        let side = if p.x == 0 && q.x == 0 {
            1
        } else if p.y == 2 && q.y == 2 {
            2
        } else if p.x == 2 && q.x == 2 {
            3
        } else {
            4
        };
        assert_eq!(ring.normals[k], n(side));
    }
}

#[test]
fn four_sides_in_every_order_and_direction_close_into_a_square() {
    let sides = [((0, 0), (0, 2)), ((0, 2), (2, 2)), ((2, 2), (2, 0)), ((2, 0), (0, 0))];
    let mut orders: Vec<[usize; 4]> = Vec::new();
    for a in 0..4 {
        for b in 0..4 {
            for c in 0..4 {
                for d in 0..4 {
                    let mut seen = [false; 4];
                    for k in [a, b, c, d] {
                        seen[k] = true;
                    }
                    if seen.iter().all(|s| *s) {
                        orders.push([a, b, c, d]);
                    }
                }
            }
        }
    }
    assert_eq!(orders.len(), 24);
    for order in &orders {
        for mask in 0..16 {
            for beside in [true, false] {
                let lines: Vec<Polygon> = order
                    .iter()
                    .enumerate()
                    .map(|(place, k)| {
                        let (mut p, mut q) = sides[*k];
                        if mask & (1 << place) != 0 {
                            (p, q) = (q, p);
                        }
                        if beside {
                            fragment(p, q, *k as i32)
                        } else {
                            edge(p, q, *k as i32)
                        }
                    })
                    .collect();
                let result = connect_lines(&lines, 1).unwrap();
                assert_is_the_square_in(&result, beside);
            }
        }
    }
}

fn assert_is_the_square_in(result: &[Polygon], beside: bool) {
    assert_eq!(result.len(), 1);
    let p = &result[0];
    assert_eq!(p.points.len(), 5);
    assert_eq!(p.normals.len(), if beside { 5 } else { 4 });
    assert_eq!(p.points[0], p.points[4]);
    assert_eq!(corners(p), vec![(0, 0), (0, 2), (2, 0), (2, 2)]);
    // the corners follow each other round the square
    for k in 0..4 {
        let (a, b) = (p.points[k], p.points[k + 1]);
        assert_eq!((a.x - b.x).abs() + (a.y - b.y).abs(), 2);
    }
}

#[test]
fn fragments_must_hold_their_normals_in_one_form() {
    assert!(can_connect(&vec![]));
    assert!(can_connect(&vec![fragment((0, 0), (0, 2), 1), fragment((0, 2), (2, 2), 2)]));
    assert!(can_connect(&vec![edge((0, 0), (0, 2), 1), edge((0, 2), (2, 2), 2)]));
    assert!(!can_connect(&vec![edge((0, 0), (0, 2), 1), fragment((0, 2), (2, 2), 2)]));
    let odd = Polygon { points: vec![v(0, 0), v(1, 1)], normals: vec![] };
    assert!(!can_connect(&vec![odd]));
}
