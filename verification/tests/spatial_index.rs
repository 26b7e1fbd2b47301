use editor_core::binary32::Scalar;
use editor_core::spatial_index::SpatialIndex;

fn s(x: f32) -> Scalar {
    Scalar::from_bits(x.to_bits())
}

fn f(x: Scalar) -> f32 {
    f32::from_bits(x.to_bits())
}

fn upsert(index: &mut SpatialIndex, h: u32, r: (f32, f32, f32, f32), z: i32) {
    index.upsert(h, s(r.0), s(r.1), s(r.2), s(r.3), z);
}

fn sorted(mut v: Vec<u32>) -> Vec<u32> {
    v.sort();
    v
}

#[test]
fn test_insert_and_query() {
    let mut index = SpatialIndex::new(100);

    // Insert a node
    index.upsert(1, s(0.0), s(0.0), s(100.0), s(100.0), 0);

    // Query point inside
    let hits = index.query_point(s(50.0), s(50.0));
    assert_eq!(hits.len(), 1);
    assert_eq!(hits[0], 1);

    // Query point outside
    let hits = index.query_point(s(200.0), s(200.0));
    assert_eq!(hits.len(), 0);
}

#[test]
fn test_remove() {
    let mut index = SpatialIndex::new(100);

    index.upsert(1, s(0.0), s(0.0), s(100.0), s(100.0), 0);
    assert_eq!(index.len(), 1);

    index.remove(1);
    assert_eq!(index.len(), 0);

    let hits = index.query_point(s(50.0), s(50.0));
    assert_eq!(hits.len(), 0);
}

#[test]
fn test_z_index_ordering() {
    let mut index = SpatialIndex::new(100);

    // Insert overlapping nodes with different z-indices
    index.upsert(1, s(0.0), s(0.0), s(100.0), s(100.0), 1);
    index.upsert(2, s(0.0), s(0.0), s(100.0), s(100.0), 5);
    index.upsert(3, s(0.0), s(0.0), s(100.0), s(100.0), 3);

    // Query should return in z-index order (highest first)
    let hits = index.query_point(s(50.0), s(50.0));
    assert_eq!(hits, vec![2, 3, 1]);
}

#[test]
fn point_inside_a_box_is_found_across_cells() {
    let mut index = SpatialIndex::new(16);
    upsert(&mut index, 7, (-300.0, -700.0, 900.0, 520.0), 0);
    upsert(&mut index, 8, (1000.0, 1000.0, 1001.0, 1001.0), 0);
    for i in 0..60 {
        for j in 0..60 {
            let x = -299.5 + 20.0 * i as f32;
            let y = -699.5 + 20.0 * j as f32;
            if x < 900.0 && y < 520.0 {
                assert_eq!(index.query_point(s(x), s(y)), vec![7], "at {} {}", x, y);
            }
        }
    }
    assert_eq!(index.query_point(s(900.5), s(0.0)), Vec::<u32>::new());
    assert_eq!(index.query_point(s(0.0), s(-700.5)), Vec::<u32>::new());
}

#[test]
fn query_at_the_far_corner_matches() {
    let mut index = SpatialIndex::new(4);
    upsert(&mut index, 1, (10.0, 20.0, 256.0, 512.0), 0);
    assert_eq!(index.query_point(s(256.0), s(512.0)), vec![1]);
    assert_eq!(index.query_point(s(10.0), s(20.0)), vec![1]);
    assert_eq!(index.query_point(s(256.0), s(20.0)), vec![1]);
    assert_eq!(index.query_point(s(256.00003), s(512.0)), Vec::<u32>::new());
}

#[test]
fn box_without_area_matches_at_its_point() {
    let mut index = SpatialIndex::new(4);
    upsert(&mut index, 5, (37.5, 37.5, 37.5, 37.5), 0);
    assert_eq!(index.query_point(s(37.5), s(37.5)), vec![5]);
    assert_eq!(index.query_point(s(37.5), s(37.6)), Vec::<u32>::new());
    upsert(&mut index, 6, (-512.0, -512.0, -512.0, -512.0), 0);
    assert_eq!(index.query_point(s(-512.0), s(-512.0)), vec![6]);
    assert_eq!(index.query_rect(s(-600.0), s(-600.0), s(-512.0), s(-512.0)), vec![6]);
}

#[test]
fn wide_box_is_returned_once() {
    let mut index = SpatialIndex::new(4);
    upsert(&mut index, 1, (0.0, 0.0, 10000.0, 10.0), 0);
    upsert(&mut index, 2, (20000.0, 0.0, 20010.0, 10.0), 0);
    let found = index.query_rect(s(-50.0), s(-50.0), s(12000.0), s(600.0));
    assert_eq!(found, vec![1]);
    let found = index.query_rect(s(5000.0), s(5.0), s(5000.0), s(5.0));
    assert_eq!(found, vec![1]);
}

#[test]
fn rect_query_returns_each_meeting_box_once() {
    let mut index = SpatialIndex::new(64);
    let mut boxes = Vec::new();
    let mut x: u32 = 99;
    for h in 0..60u32 {
        x ^= x << 13;
        x ^= x >> 17;
        x ^= x << 5;
        let left = (x % 2000) as f32 - 1000.0;
        let top = ((x >> 8) % 2000) as f32 - 1000.0;
        let w = ((x >> 16) % 700) as f32;
        let hgt = ((x >> 20) % 700) as f32;
        boxes.push((h, left, top, left + w, top + hgt));
        upsert(&mut index, h, (left, top, left + w, top + hgt), 0);
    }
    let queries = [(-100.0f32, -100.0f32, 100.0f32, 100.0f32), (-1000.0, -1000.0, 1700.0, 1700.0), (250.0, 250.0, 250.0, 250.0), (0.0, -900.0, 30.0, 900.0)];
    for q in &queries {
        let found = sorted(index.query_rect(s(q.0), s(q.1), s(q.2), s(q.3)));
        let want: Vec<u32> = boxes
            .iter()
            .filter(|b| !(b.3 < q.0 || b.1 > q.2 || b.4 < q.1 || b.2 > q.3))
            .map(|b| b.0)
            .collect();
        assert_eq!(found, want);
    }
}

#[test]
fn touching_boxes_meet() {
    let mut index = SpatialIndex::new(4);
    upsert(&mut index, 1, (0.0, 0.0, 100.0, 100.0), 0);
    assert_eq!(index.query_rect(s(100.0), s(100.0), s(200.0), s(200.0)), vec![1]);
    assert_eq!(index.query_rect(s(100.5), s(0.0), s(200.0), s(200.0)), Vec::<u32>::new());
}

#[test]
fn upsert_then_remove_leaves_no_trace() {
    let mut index = SpatialIndex::new(4);
    upsert(&mut index, 1, (0.0, 0.0, 100.0, 100.0), 0);
    upsert(&mut index, 2, (50.0, 50.0, 700.0, 700.0), 1);
    let before = index.len();
    upsert(&mut index, 9, (-300.0, -300.0, 600.0, 600.0), 4);
    assert_eq!(index.len(), before + 1);
    index.remove(9);
    assert_eq!(index.len(), before);
    for i in 0..40 {
        let p = -350.0 + 25.0 * i as f32;
        assert!(!index.query_point(s(p), s(p)).contains(&9));
        assert!(!index.query_rect(s(p), s(p), s(p + 300.0), s(p + 300.0)).contains(&9));
    }
    assert_eq!(index.query_point(s(60.0), s(60.0)), vec![2, 1]);
    assert!(index.get_bounds(9).is_none());
}

#[test]
fn remove_of_an_unknown_handle_does_nothing() {
    let mut index = SpatialIndex::new(4);
    upsert(&mut index, 1, (0.0, 0.0, 100.0, 100.0), 0);
    index.remove(2);
    assert_eq!(index.len(), 1);
    assert_eq!(index.query_point(s(1.0), s(1.0)), vec![1]);
}

#[test]
fn double_upsert_is_a_single_upsert() {
    let mut once = SpatialIndex::new(4);
    let mut twice = SpatialIndex::new(4);
    upsert(&mut once, 1, (0.0, 0.0, 600.0, 600.0), 2);
    upsert(&mut twice, 1, (0.0, 0.0, 600.0, 600.0), 2);
    upsert(&mut twice, 1, (0.0, 0.0, 600.0, 600.0), 2);
    assert_eq!(once.len(), 1);
    assert_eq!(twice.len(), 1);
    for i in 0..30 {
        let p = 21.0 * i as f32;
        assert_eq!(once.query_point(s(p), s(p)), twice.query_point(s(p), s(p)));
        assert_eq!(twice.query_point(s(p), s(p)).len(), if p <= 600.0 { 1 } else { 0 });
    }
    assert_eq!(twice.query_rect(s(-10.0), s(-10.0), s(1000.0), s(1000.0)), vec![1]);
}

#[test]
fn upsert_replaces_the_old_box() {
    let mut index = SpatialIndex::new(4);
    upsert(&mut index, 1, (0.0, 0.0, 100.0, 100.0), 0);
    upsert(&mut index, 1, (1000.0, 1000.0, 1100.0, 1100.0), 3);
    assert_eq!(index.len(), 1);
    assert_eq!(index.query_point(s(50.0), s(50.0)), Vec::<u32>::new());
    assert_eq!(index.query_point(s(1050.0), s(1050.0)), vec![1]);
    let b = index.get_bounds(1).unwrap();
    assert_eq!((f(b.0), f(b.1), f(b.2), f(b.3)), (1000.0, 1000.0, 1100.0, 1100.0));
}

#[test]
fn clear_then_len_is_zero() {
    let mut index = SpatialIndex::new(4);
    upsert(&mut index, 1, (0.0, 0.0, 100.0, 100.0), 0);
    upsert(&mut index, 2, (0.0, 0.0, 1000.0, 1000.0), 0);
    index.clear();
    assert_eq!(index.len(), 0);
    assert_eq!(index.query_point(s(50.0), s(50.0)), Vec::<u32>::new());
    assert_eq!(index.query_rect(s(-1.0), s(-1.0), s(2000.0), s(2000.0)), Vec::<u32>::new());
    assert!(index.get_bounds(1).is_none());
}

#[test]
fn point_query_falls_in_z_and_keeps_ties_in_order() {
    let mut index = SpatialIndex::new(16);
    let zs = [3, -1, 3, 7, 0, 3, 7, -1];
    for (i, &z) in zs.iter().enumerate() {
        upsert(&mut index, 10 + i as u32, (0.0, 0.0, 10.0, 10.0), z);
    }
    let hits = index.query_point(s(5.0), s(5.0));
    assert_eq!(hits, vec![13, 16, 10, 12, 15, 14, 11, 17]);
    // a handle that is upserted again goes behind its equals
    upsert(&mut index, 10, (0.0, 0.0, 10.0, 10.0), 3);
    let hits = index.query_point(s(5.0), s(5.0));
    assert_eq!(hits, vec![13, 16, 12, 15, 10, 14, 11, 17]);
}

#[test]
fn query_near_is_a_square() {
    let mut index = SpatialIndex::new(4);
    upsert(&mut index, 1, (100.0, 100.0, 110.0, 110.0), 0);
    // the corner is farther than the radius, but within the square
    assert_eq!(index.query_near(s(90.0), s(90.0), s(10.0)), vec![1]);
    assert_eq!(index.query_near(s(90.0), s(90.0), s(9.5)), Vec::<u32>::new());
    assert_eq!(index.query_near(s(120.0), s(105.0), s(10.0)), vec![1]);
}

#[test]
fn cells_follow_the_floor_of_the_quotient() {
    let index = SpatialIndex::new(1);
    assert_eq!(index.world_to_cell(s(0.0), s(255.9)), (0, 0));
    assert_eq!(index.world_to_cell(s(256.0), s(-0.5)), (1, -1));
    assert_eq!(index.world_to_cell(s(-256.0), s(-256.5)), (-1, -2));
    assert_eq!(index.world_to_cell(s(10000.0), s(-10000.0)), (39, -40));
    let mut x: u32 = 5;
    for _ in 0..2000 {
        x ^= x << 13;
        x ^= x >> 17;
        x ^= x << 5;
        let v = f32::from_bits(x);
        if v.is_finite() && v.abs() < 1.0e9 {
            let want = (v / 256.0).floor() as i32;
            assert_eq!(index.world_to_cell(s(v), s(v)), (want, want));
        }
    }
}

#[test]
fn box_across_cells_is_listed_in_each() {
    let mut index = SpatialIndex::new(1);
    upsert(&mut index, 1, (-10.0, 0.0, 600.0, 256.0), 0);
    // one point in each of the eight cells that the box reaches into
    for &(x, y) in &[(-5.0f32, 5.0f32), (5.0, 5.0), (300.0, 5.0), (590.0, 5.0), (-5.0, 256.0), (5.0, 256.0), (300.0, 256.0), (590.0, 256.0)] {
        assert_eq!(index.query_point(s(x), s(y)), vec![1]);
    }
    // a box whose max lies before its min reaches into no cell
    upsert(&mut index, 2, (600.0, 0.0, -10.0, 256.0), 0);
    assert_eq!(index.len(), 2);
    assert_eq!(index.query_rect(s(-1000.0), s(-1000.0), s(1000.0), s(1000.0)), vec![1]);
}

#[test]
fn get_bounds_of_an_unknown_handle_is_none() {
    let index = SpatialIndex::new(1);
    assert!(index.get_bounds(3).is_none());
}

#[test]
fn box_with_a_nan_is_taken_without_fault() {
    let mut index = SpatialIndex::new(1);
    upsert(&mut index, 1, (0.0, 0.0, f32::NAN, 10.0), 0);
    assert_eq!(index.len(), 1);
    // no point is within bounds of which one is a NaN
    assert_eq!(index.query_point(s(5.0), s(5.0)), Vec::<u32>::new());
    // no comparison with a NaN holds, so no rectangle lies beyond that edge;
    // the box is returned from the cells that it takes, and from no other
    assert_eq!(index.query_rect(s(100.0), s(5.0), s(200.0), s(8.0)), vec![1]);
    assert_eq!(index.query_rect(s(300.0), s(5.0), s(400.0), s(8.0)), Vec::<u32>::new());
    assert_eq!(index.query_rect(s(100.0), s(11.0), s(200.0), s(20.0)), Vec::<u32>::new());
    index.remove(1);
    assert_eq!(index.len(), 0);
    assert_eq!(index.query_rect(s(100.0), s(5.0), s(200.0), s(8.0)), Vec::<u32>::new());
}
