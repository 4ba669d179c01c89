use drafting::geometry::BoundingBox;
use drafting::spatial::SpatialIndex;
use drafting::tool::ToolMode;

fn bx(x1: i64, y1: i64, x2: i64, y2: i64) -> BoundingBox<i64> {
    BoundingBox::from_points(x1, y1, x2, y2)
}

fn brute_overlaps(items: &[(BoundingBox<i64>, u32)], area: &BoundingBox<i64>) -> Vec<u32> {
    items
        .iter()
        .filter(|(b, _)| {
            b.min_x <= area.max_x && b.max_x >= area.min_x && b.min_y <= area.max_y && b.max_y >= area.min_y
        })
        .map(|(_, d)| *d)
        .collect()
}

fn sample_boxes(n: u32) -> Vec<(BoundingBox<i64>, u32)> {
    (0..n)
        .map(|i| {
            let x = ((i * 37) % 101) as i64;
            let y = ((i * 53) % 97) as i64;
            let w = (i % 7) as i64 + 1;
            let h = (i % 5) as i64 + 1;
            (bx(x, y, x + w, y + h), i)
        })
        .collect()
}

#[test]
fn tool_mode_default_is_select() {
    assert_eq!(ToolMode::default(), ToolMode::Select);
}

#[test]
fn from_points_orders_corners() {
    let b = bx(10, -3, 2, 7);
    assert_eq!((b.min_x, b.min_y, b.max_x, b.max_y), (2, -3, 10, 7));
    let f = BoundingBox::from_points(1.5f64, 4.0, -2.5, 0.25);
    assert_eq!((f.min_x, f.min_y, f.max_x, f.max_y), (-2.5, 0.25, 1.5, 4.0));
}

#[test]
fn from_points_passes_over_nan_like_float_min_max() {
    let f = BoundingBox::from_points(f64::NAN, 1.0, 5.0, f64::NAN);
    assert_eq!(f.min_x, 5.0);
    assert_eq!(f.max_x, 5.0);
    assert_eq!(f.min_y, 1.0);
    assert_eq!(f.max_y, 1.0);
    assert_eq!(f.min_x, 5.0f64.min(f64::NAN));
    assert_eq!(f.max_y, f64::NAN.max(1.0));
}

#[test]
fn intersects_counts_touching_edges() {
    let a = bx(0, 0, 10, 10);
    assert!(a.intersects(&bx(10, 10, 20, 20)));
    assert!(a.intersects(&bx(-5, 3, 0, 4)));
    assert!(!a.intersects(&bx(11, 0, 20, 10)));
    assert!(!a.intersects(&bx(0, -9, 10, -1)));
    assert!(a.intersects(&bx(2, 2, 3, 3)));
}

#[test]
fn contains_includes_edges() {
    let a = bx(0, 0, 10, 5);
    assert!(a.contains(0, 0));
    assert!(a.contains(10, 5));
    assert!(a.contains(3, 4));
    assert!(!a.contains(11, 4));
    assert!(!a.contains(3, -1));
}

#[test]
fn merge_is_the_covering_box() {
    let m = bx(0, 0, 2, 2).merge(&bx(5, -3, 6, 1));
    assert_eq!((m.min_x, m.min_y, m.max_x, m.max_y), (0, -3, 6, 2));
    let f = BoundingBox::from_points(0.0f64, 0.0, 1.0, 1.0).merge(&BoundingBox::from_points(-1.0, 0.5, 0.5, 3.0));
    assert_eq!((f.min_x, f.min_y, f.max_x, f.max_y), (-1.0, 0.0, 1.0, 3.0));
}

#[test]
fn empty_index_reports_nothing() {
    let idx: SpatialIndex<u32, i64> = SpatialIndex::new(8);
    let mut hits = Vec::new();
    idx.query(&bx(-100, -100, 100, 100), &mut hits);
    assert!(hits.is_empty());
    assert!(idx.get_root_bounds().is_none());
    assert!(idx.get_all_elements().is_empty());
}

#[test]
fn get_all_elements_keeps_insertion_order() {
    for max_children in [0usize, 1, 2, 3, 8] {
        let mut idx = SpatialIndex::new(max_children);
        let items = sample_boxes(60);
        for (b, d) in &items {
            idx.insert(*d, *b);
        }
        let all = idx.get_all_elements();
        assert_eq!(all.len(), items.len());
        for (k, (b, d)) in all.iter().enumerate() {
            assert_eq!(**d, items[k].1);
            assert_eq!(**b, items[k].0);
        }
    }
}

#[test]
fn query_reports_overlapping_items_in_insertion_order() {
    for max_children in [0usize, 1, 2, 4, 8] {
        let mut idx = SpatialIndex::new(max_children);
        let items = sample_boxes(120);
        for (b, d) in &items {
            idx.insert(*d, *b);
        }
        for area in [bx(0, 0, 20, 20), bx(50, 50, 60, 90), bx(-10, -10, -1, -1), bx(0, 0, 200, 200), bx(33, 12, 33, 12)] {
            let mut hits = Vec::new();
            idx.query(&area, &mut hits);
            let got: Vec<u32> = hits.iter().map(|d| **d).collect();
            assert_eq!(got, brute_overlaps(&items, &area));
        }
    }
}

#[test]
fn query_appends_after_existing_results() {
    let mut idx = SpatialIndex::new(8);
    idx.insert(7u32, bx(0, 0, 1, 1));
    let keep = 99u32;
    let mut hits = vec![&keep];
    idx.query(&bx(0, 0, 5, 5), &mut hits);
    assert_eq!(hits.len(), 2);
    assert_eq!(*hits[0], 99);
    assert_eq!(*hits[1], 7);
}

#[test]
fn query_point_reports_boxes_holding_the_point() {
    let mut idx = SpatialIndex::new(2);
    let items = sample_boxes(80);
    for (b, d) in &items {
        idx.insert(*d, *b);
    }
    for (x, y) in [(3i64, 4i64), (40, 40), (100, 96), (0, 0), (-5, 2)] {
        let mut hits = Vec::new();
        idx.query_point(x, y, &mut hits);
        let got: Vec<u32> = hits.iter().map(|d| **d).collect();
        let want: Vec<u32> = items
            .iter()
            .filter(|(b, _)| x >= b.min_x && x <= b.max_x && y >= b.min_y && y <= b.max_y)
            .map(|(_, d)| *d)
            .collect();
        assert_eq!(got, want);
    }
}

#[test]
fn root_bounds_cover_every_item() {
    let mut idx = SpatialIndex::new(3);
    let items = sample_boxes(50);
    for (b, d) in &items {
        idx.insert(*d, *b);
    }
    let root = idx.get_root_bounds().unwrap();
    let min_x = items.iter().map(|(b, _)| b.min_x).min().unwrap();
    let min_y = items.iter().map(|(b, _)| b.min_y).min().unwrap();
    let max_x = items.iter().map(|(b, _)| b.max_x).max().unwrap();
    let max_y = items.iter().map(|(b, _)| b.max_y).max().unwrap();
    assert_eq!((root.min_x, root.min_y, root.max_x, root.max_y), (min_x, min_y, max_x, max_y));
}

#[test]
fn single_item_root_is_its_box() {
    let mut idx = SpatialIndex::new(8);
    idx.insert("a", bx(1, 2, 3, 4));
    assert_eq!(idx.get_root_bounds(), Some(bx(1, 2, 3, 4)));
}

#[test]
fn float_index_finds_float_boxes() {
    let mut idx = SpatialIndex::new(8);
    for i in 0..30 {
        let x = i as f64 * 1.5;
        idx.insert(i, BoundingBox::from_points(x, 0.0, x + 1.0, 1.0));
    }
    let mut hits = Vec::new();
    idx.query(&BoundingBox::from_points(3.2, 0.5, 6.1, 0.6), &mut hits);
    let got: Vec<i32> = hits.iter().map(|d| **d).collect();
    assert_eq!(got, vec![2, 3, 4]);
}

#[test]
fn spanned_box_holds_both_corners() {
    for (x1, y1, x2, y2) in [(0i64, 0i64, 5i64, 5i64), (9, -2, -4, 3), (1, 1, 1, 1)] {
        let b = bx(x1, y1, x2, y2);
        assert!(b.contains(x1, y1));
        assert!(b.contains(x2, y2));
    }
}

#[test]
fn merged_box_keeps_overlaps_of_its_parts() {
    let a = bx(0, 0, 2, 2);
    let b = bx(10, 10, 12, 12);
    let area = bx(1, 1, 3, 3);
    assert!(a.intersects(&area));
    assert!(a.merge(&b).intersects(&area));
    assert!(b.merge(&a).intersects(&area));
    assert!(a.merge(&b).contains(11, 11));
}

#[test]
fn root_bounds_grow_by_each_inserted_box() {
    let mut idx: SpatialIndex<u32, i64> = SpatialIndex::new(2);
    idx.insert(1, bx(0, 0, 1, 1));
    assert_eq!(idx.get_root_bounds(), Some(bx(0, 0, 1, 1)));
    idx.insert(2, bx(5, -3, 6, 2));
    assert_eq!(idx.get_root_bounds(), Some(bx(0, -3, 6, 2)));
    idx.insert(3, bx(2, 2, 3, 3));
    assert_eq!(idx.get_root_bounds(), Some(bx(0, -3, 6, 3)));
    for (i, (b, v)) in sample_boxes(40).into_iter().enumerate() {
        let before = idx.get_root_bounds().unwrap();
        idx.insert(v + 100, b);
        assert_eq!(idx.get_root_bounds(), Some(before.merge(&b)), "after insert {}", i);
    }
}

#[test]
fn query_point_matches_query_on_the_point_box() {
    let mut idx: SpatialIndex<u32, i64> = SpatialIndex::new(3);
    for (b, v) in sample_boxes(30) {
        idx.insert(v, b);
    }
    for (x, y) in [(0, 0), (5, 5), (12, 3), (-1, -1), (20, 20), (7, 11)] {
        let mut by_point = Vec::new();
        idx.query_point(x, y, &mut by_point);
        let mut by_box = Vec::new();
        idx.query(&BoundingBox { min_x: x, min_y: y, max_x: x, max_y: y }, &mut by_box);
        let a: Vec<u32> = by_point.iter().map(|v| **v).collect();
        let b: Vec<u32> = by_box.iter().map(|v| **v).collect();
        assert_eq!(a, b);
    }
}

#[test]
fn from_points_is_symmetric_in_its_corners() {
    let a = BoundingBox::from_points(3, -2, -5, 7);
    assert_eq!(a, BoundingBox::from_points(-5, 7, 3, -2));
    assert_eq!(a, BoundingBox::from_points(3, 7, -5, -2));
    assert_eq!(a, BoundingBox { min_x: -5, min_y: -2, max_x: 3, max_y: 7 });
}

#[test]
fn intersects_is_symmetric_and_reflexive() {
    let a = bx(0, 0, 4, 4);
    let b = bx(4, 4, 9, 9);
    let c = bx(5, 0, 9, 3);
    assert!(a.intersects(&a));
    assert!(a.intersects(&b) && b.intersects(&a));
    assert!(!a.intersects(&c) && !c.intersects(&a));
    assert!(a.contains(4, 4) && b.contains(4, 4));
}

#[test]
fn merge_is_commutative_associative_and_idempotent() {
    let a = bx(0, 0, 4, 4);
    let b = bx(-3, 2, 1, 9);
    let c = bx(10, -6, 11, -5);
    assert_eq!(a.merge(&b), b.merge(&a));
    assert_eq!(a.merge(&b).merge(&c), a.merge(&b.merge(&c)));
    assert_eq!(a.merge(&a), a);
    assert_eq!(a.merge(&b).merge(&c), bx(-3, -6, 11, 9));
}
