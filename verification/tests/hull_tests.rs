use bezier::hull::{hull_polygon, in_sorted, polygons_collide, sort_unique};

fn left_turn(points: &[(f64, f64)], a: i32, b: i32, c: i32) -> bool {
    let (p1, p2, p3) = (points[a as usize], points[b as usize], points[c as usize]);
    let cp = (p2.0 - p1.0) * (p3.1 - p1.1) - (p2.1 - p1.1) * (p3.0 - p1.0);
    !(cp <= 0.0)
}

fn separating(poly1: &[(f64, f64)], poly2: &[(f64, f64)], dx: f64, dy: f64) -> bool {
    let norm_squared = dx * dx + dy * dy;
    if norm_squared == 0.0 {
        return false;
    }
    let project = |p: &(f64, f64)| (dx * p.1 - dy * p.0) / norm_squared;
    let min1 = poly1.iter().map(project).fold(f64::INFINITY, f64::min);
    let max1 = poly1.iter().map(project).fold(f64::NEG_INFINITY, f64::max);
    let min2 = poly2.iter().map(project).fold(f64::INFINITY, f64::min);
    let max2 = poly2.iter().map(project).fold(f64::NEG_INFINITY, f64::max);
    min1 > max2 || max1 < min2
}

fn collide(poly1: &[(f64, f64)], poly2: &[(f64, f64)]) -> bool {
    polygons_collide(poly1.len() as i32, poly2.len() as i32, |first: bool, k: i32, j: i32| {
        let poly = if first { poly1 } else { poly2 };
        let (cur, prev) = (poly[k as usize], poly[j as usize]);
        separating(poly1, poly2, cur.0 - prev.0, cur.1 - prev.1)
    })
}

#[test]
fn in_sorted_finds_present_values() {
    let values = [1, 3, 4, 9, 12, 20];
    for v in values {
        assert!(in_sorted(&values, v));
    }
}

#[test]
fn in_sorted_rejects_absent_values() {
    let values = [1, 3, 4, 9, 12, 20];
    for v in [-5, 0, 2, 5, 10, 13, 21, 100] {
        assert!(!in_sorted(&values, v));
    }
    assert!(!in_sorted(&[], 0));
    assert!(in_sorted(&[7], 7));
    assert!(!in_sorted(&[7], 8));
}

#[test]
fn hull_of_square_with_centre() {
    let points = [(0.0, 0.0), (0.0, 1.0), (0.5, 0.5), (1.0, 0.0), (1.0, 1.0)];
    let polygon = hull_polygon(5, |a: i32, b: i32, c: i32| left_turn(&points, a, b, c));
    assert_eq!(polygon, vec![0, 3, 4, 1]);
}

#[test]
fn hull_of_collinear_points_keeps_ends() {
    let points = [(0.0, 0.0), (1.0, 1.0), (2.0, 2.0), (3.0, 3.0)];
    let polygon = hull_polygon(4, |a: i32, b: i32, c: i32| left_turn(&points, a, b, c));
    assert_eq!(polygon, vec![0, 3]);
}

#[test]
fn hull_of_few_points_is_the_points() {
    let never = |_: i32, _: i32, _: i32| false;
    assert_eq!(hull_polygon(0, never), Vec::<i32>::new());
    assert_eq!(hull_polygon(1, never), vec![0]);
    assert_eq!(hull_polygon(2, never), vec![0, 1]);
}

#[test]
fn hull_of_triangle() {
    let points = [(0.0, 0.0), (1.0, 2.0), (2.0, 0.0)];
    let polygon = hull_polygon(3, |a: i32, b: i32, c: i32| left_turn(&points, a, b, c));
    assert_eq!(polygon, vec![0, 2, 1]);
}

#[test]
fn sort_unique_orders_and_drops_repeats() {
    let points = [(1.0, 1.0), (0.0, 0.0), (1.0, 1.0), (0.0, 1.0)];
    let order = sort_unique(
        4,
        |a: i32, b: i32| {
            let (p, q) = (points[a as usize], points[b as usize]);
            p.0 < q.0 || (p.0 == q.0 && p.1 < q.1)
        },
        |a: i32, b: i32| points[a as usize] == points[b as usize],
    );
    assert_eq!(order, vec![1, 3, 2]);
}

#[test]
fn sort_unique_of_nothing_and_of_copies() {
    let less = |_: i32, _: i32| false;
    assert_eq!(sort_unique(0, less, |_: i32, _: i32| true), Vec::<i32>::new());
    assert_eq!(sort_unique(3, less, |_: i32, _: i32| true), vec![0]);
    assert_eq!(sort_unique(3, |a: i32, b: i32| a > b, |_: i32, _: i32| false), vec![2, 1, 0]);
}

#[test]
fn overlapping_squares_collide() {
    let square1 = [(0.0, 0.0), (1.0, 0.0), (1.0, 1.0), (0.0, 1.0)];
    let square2 = [(0.5, 0.5), (1.5, 0.5), (1.5, 1.5), (0.5, 1.5)];
    assert!(collide(&square1, &square2));
}

#[test]
fn distant_squares_do_not_collide() {
    let square1 = [(0.0, 0.0), (1.0, 0.0), (1.0, 1.0), (0.0, 1.0)];
    let square2 = [(3.0, 0.0), (4.0, 0.0), (4.0, 1.0), (3.0, 1.0)];
    assert!(!collide(&square1, &square2));
}

#[test]
fn empty_polygon_never_collides() {
    let square = [(0.0, 0.0), (1.0, 0.0), (1.0, 1.0), (0.0, 1.0)];
    assert!(!collide(&[], &square));
    assert!(!collide(&square, &[]));
}

#[test]
fn collide_asks_edges_in_order_with_previous_vertex() {
    let mut seen = std::cell::RefCell::new(Vec::new());
    let result = polygons_collide(3, 2, |first: bool, k: i32, j: i32| {
        seen.borrow_mut().push((first, k, j));
        false
    });
    assert!(result);
    assert_eq!(
        seen.get_mut().clone(),
        vec![(true, 0, 2), (true, 1, 0), (true, 2, 1), (false, 0, 1), (false, 1, 0)]
    );
}

fn hull_of(points: &[(f64, f64)]) -> Vec<(f64, f64)> {
    let order = sort_unique(
        points.len() as i32,
        |a: i32, b: i32| {
            let (p, q) = (points[a as usize], points[b as usize]);
            p.0 < q.0 || (p.0 == q.0 && p.1 < q.1)
        },
        |a: i32, b: i32| points[a as usize] == points[b as usize],
    );
    let uniques: Vec<(f64, f64)> = order.iter().map(|&k| points[k as usize]).collect();
    let polygon = hull_polygon(uniques.len() as i32, |a: i32, b: i32, c: i32| left_turn(&uniques, a, b, c));
    polygon.iter().map(|&k| uniques[k as usize]).collect()
}

#[test]
fn hull_of_repeated_and_inner_points_lists_each_corner_once() {
    let points = [
        (2.0, 0.0),
        (0.0, 0.0),
        (1.0, 1.0),
        (2.0, 2.0),
        (0.0, 2.0),
        (2.0, 0.0),
        (0.0, 0.0),
        (1.0, 0.5),
    ];
    let hull = hull_of(&points);
    assert_eq!(hull, vec![(0.0, 0.0), (2.0, 0.0), (2.0, 2.0), (0.0, 2.0)]);
    assert!(hull.len() <= points.len());
}

#[test]
fn sort_unique_sorts_lexicographically() {
    let points = [(3.0, 1.0), (1.0, 5.0), (3.0, 0.0), (2.0, 2.0), (1.0, 4.0)];
    let order = sort_unique(
        5,
        |a: i32, b: i32| {
            let (p, q) = (points[a as usize], points[b as usize]);
            p.0 < q.0 || (p.0 == q.0 && p.1 < q.1)
        },
        |a: i32, b: i32| points[a as usize] == points[b as usize],
    );
    assert_eq!(order, vec![4, 1, 3, 2, 0]);
}

#[test]
fn hull_depends_only_on_the_set_of_points() {
    let points1 = [(0.0, 0.0), (3.0, 1.0), (1.0, 1.0), (2.0, 3.0), (0.0, 2.0), (1.5, 1.5)];
    let points2 = [
        (1.5, 1.5),
        (0.0, 2.0),
        (2.0, 3.0),
        (0.0, 0.0),
        (1.0, 1.0),
        (3.0, 1.0),
        (0.0, 2.0),
        (3.0, 1.0),
    ];
    let hull1 = hull_of(&points1);
    let hull2 = hull_of(&points2);
    assert_eq!(hull1, hull2);
    assert_eq!(hull1, vec![(0.0, 0.0), (3.0, 1.0), (2.0, 3.0), (0.0, 2.0)]);
}

#[test]
fn hull_of_a_hull_is_itself() {
    let points = [(0.0, 0.0), (4.0, 1.0), (1.0, 1.0), (3.0, 4.0), (0.0, 3.0), (2.0, 2.0), (4.0, 3.0)];
    let hull = hull_of(&points);
    assert_eq!(hull_of(&hull), hull);
}

#[test]
fn sort_unique_puts_each_point_before_every_later_one() {
    let points = [(3.0, 1.0), (1.0, 5.0), (3.0, 0.0), (1.0, 5.0), (2.0, 2.0), (1.0, 4.0), (3.0, 0.0)];
    let precedes = |a: i32, b: i32| {
        let (p, q) = (points[a as usize], points[b as usize]);
        p.0 < q.0 || (p.0 == q.0 && p.1 < q.1)
    };
    let order = sort_unique(7, precedes, |a: i32, b: i32| points[a as usize] == points[b as usize]);
    assert_eq!(order.len(), 5);
    for k in 0..order.len() {
        for j in (k + 1)..order.len() {
            assert!(precedes(order[k], order[j]));
        }
    }
}

#[test]
fn collision_verdict_does_not_depend_on_polygon_order() {
    let a = [(0.0, 0.0), (2.0, 0.0), (2.0, 2.0), (0.0, 2.0)];
    let b = [(1.0, 1.0), (3.0, 1.0), (3.0, 3.0), (1.0, 3.0)];
    let c = [(5.0, 5.0), (6.0, 5.0), (6.0, 6.0)];
    for (p, q) in [(&a[..], &b[..]), (&a[..], &c[..]), (&b[..], &c[..]), (&a[..], &a[..0])] {
        assert_eq!(collide(p, q), collide(q, p));
    }
    assert!(collide(&a, &b));
    assert!(!collide(&a, &c));
}

#[test]
fn hull_chains_hold_exactly_the_strict_corners() {
    let points = [
        (0.0, 0.0),
        (0.0, 3.0),
        (1.0, -1.0),
        (1.0, 1.0),
        (2.0, 0.0),
        (2.0, 4.0),
        (3.0, -1.0),
        (3.0, 2.0),
        (4.0, 1.0),
    ];
    let n = points.len() as i32;
    let polygon = hull_polygon(n, |a: i32, b: i32, c: i32| left_turn(&points, a, b, c));
    for b in 0..n {
        let lower_corner = b == 0
            || b == n - 1
            || (0..b).all(|a| ((b + 1)..n).all(|c| left_turn(&points, a, b, c)));
        let upper_corner = b == 0
            || b == n - 1
            || ((b + 1)..n).all(|a| (0..b).all(|c| left_turn(&points, a, b, c)));
        assert_eq!(polygon.contains(&b), lower_corner || upper_corner);
    }
    assert_eq!(polygon, vec![0, 2, 6, 8, 5, 1]);
}

#[test]
fn hull_holds_every_point_and_turns_left_at_each_vertex() {
    let points = [(0.0, 0.0), (1.0, 3.0), (2.0, -1.0), (2.0, 1.0), (3.0, 2.0), (4.0, 0.0), (4.0, 4.0), (5.0, 2.0)];
    let n = points.len() as i32;
    let polygon = hull_polygon(n, |a: i32, b: i32, c: i32| left_turn(&points, a, b, c));
    let m = polygon.len();
    assert!(m >= 3);
    let cross = |p: (f64, f64), q: (f64, f64), r: (f64, f64)| (q.0 - p.0) * (r.1 - p.1) - (q.1 - p.1) * (r.0 - p.0);
    for k in 0..m {
        let (a, b, c) = (
            points[polygon[k] as usize],
            points[polygon[(k + 1) % m] as usize],
            points[polygon[(k + 2) % m] as usize],
        );
        assert!(cross(a, b, c) > 0.0);
        for &p in &points {
            assert!(cross(a, b, p) >= 0.0);
        }
    }
}
