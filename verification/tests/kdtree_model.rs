use ray_tracing::kdtree::{partition_by_plane, KdNode, Point3};

fn d2(a: Point3, b: Point3) -> i128 {
    let dx = a.x as i128 - b.x as i128;
    let dy = a.y as i128 - b.y as i128;
    let dz = a.z as i128 - b.z as i128;
    dx * dx + dy * dy + dz * dz
}

/// A small deterministic generator, enough to scatter points.
fn next(state: &mut u64) -> i32 {
    *state = state.wrapping_mul(6364136223846793005).wrapping_add(1442695040888963407);
    ((*state >> 33) as i32) % 1000
}

fn key(e: &(Point3, u32)) -> (i32, i32, i32, u32) {
    (e.0.x, e.0.y, e.0.z, e.1)
}

#[test]
fn within_matches_brute_force() {
    let mut state: u64 = 42;
    let mut items: Vec<(Point3, u32)> = Vec::new();
    for id in 0..500u32 {
        let p = Point3 {
            x: next(&mut state),
            y: next(&mut state),
            z: next(&mut state),
        };
        items.push((p, id));
    }
    let tree = KdNode::build(items.clone());
    for (qx, r) in [(0, 100i128), (250, 400), (-400, 50), (999, 1_000_000)] {
        let q = Point3 { x: qx, y: qx / 2, z: -qx };
        let r2 = r * r;
        let mut got = tree.within(q, r2);
        let mut expected: Vec<(Point3, u32)> = items
            .iter()
            .copied()
            .filter(|it| d2(it.0, q) <= r2)
            .collect();
        got.sort_by_key(key);
        expected.sort_by_key(key);
        assert_eq!(got, expected);
    }
}

#[test]
fn within_handles_duplicates() {
    let p = Point3 { x: 1, y: 2, z: 3 };
    let far = Point3 { x: 100, y: 100, z: 100 };
    let items = vec![(p, 7u32), (p, 7u32), (p, 8u32), (far, 9u32)];
    let mut got = tree_query(items, p, 0);
    got.sort_by_key(key);
    assert_eq!(got, vec![(p, 7), (p, 7), (p, 8)]);
}

fn tree_query(items: Vec<(Point3, u32)>, q: Point3, r2: i128) -> Vec<(Point3, u32)> {
    KdNode::build(items).within(q, r2)
}

#[test]
fn huge_radius_returns_everything() {
    let mut state: u64 = 7;
    let mut items: Vec<(Point3, u32)> = Vec::new();
    for id in 0..50u32 {
        let p = Point3 {
            x: next(&mut state),
            y: next(&mut state),
            z: next(&mut state),
        };
        items.push((p, id));
    }
    let q = Point3 { x: 0, y: 0, z: 0 };
    let mut got = tree_query(items.clone(), q, i128::MAX);
    let mut expected = items;
    got.sort_by_key(key);
    expected.sort_by_key(key);
    assert_eq!(got, expected);
}

#[test]
fn zero_radius_finds_only_the_point_itself() {
    let a = Point3 { x: 0, y: 0, z: 0 };
    let b = Point3 { x: 0, y: 0, z: 1 };
    let got = tree_query(vec![(a, 1u32), (b, 2u32)], a, 0);
    assert_eq!(got, vec![(a, 1)]);
}

#[test]
fn partition_keeps_straddlers_at_the_node() {
    let items: Vec<(i32, i32, u8)> = vec![
        (0, 2, 0),   // wholly left of the plane
        (1, 5, 1),   // straddles it
        (4, 6, 2),   // wholly right of it
        (3, 3, 3),   // touches it from the left
        (3, 7, 4),   // starts on it
        (-2, 9, 5),  // straddles it
    ];
    let (l, c, r) = partition_by_plane(&items, 3);
    assert_eq!(l, vec![(0, 2, 0), (3, 3, 3)]);
    assert_eq!(c, vec![(1, 5, 1), (-2, 9, 5)]);
    assert_eq!(r, vec![(4, 6, 2), (3, 7, 4)]);
    assert_eq!(l.len() + c.len() + r.len(), items.len());
}

#[test]
fn extreme_coordinates_do_not_overflow() {
    let a = Point3 { x: i32::MIN, y: i32::MIN, z: i32::MIN };
    let b = Point3 { x: i32::MAX, y: i32::MAX, z: i32::MAX };
    let items = vec![(a, 0u32), (b, 1u32)];
    let got = tree_query(items.clone(), a, i128::MAX);
    assert_eq!(got.len(), 2);
    let got = tree_query(items, a, 0);
    assert_eq!(got, vec![(a, 0)]);
}
