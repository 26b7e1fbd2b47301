use editor_core::binary32::Scalar;
use editor_core::smart_guides::{
    calculate_alignment_guides, calculate_distance_measurements, calculate_spacing_guides,
    check_alignment, Tally,
};

type Bounds = (Scalar, Scalar, Scalar, Scalar);

fn s(x: f32) -> Scalar {
    Scalar::from_bits(x.to_bits())
}

fn f(x: Scalar) -> f32 {
    f32::from_bits(x.to_bits())
}

fn b(min_x: f32, min_y: f32, max_x: f32, max_y: f32) -> Bounds {
    (s(min_x), s(min_y), s(max_x), s(max_y))
}

#[test]
fn equal_gaps_in_a_row_give_a_spacing_guide() {
    // A, B, C in a row, 10 apart; C is the moving node
    let a = b(0.0, 0.0, 10.0, 10.0);
    let bb = b(20.0, 0.0, 30.0, 10.0);
    let c = b(40.0, 0.0, 50.0, 10.0);
    let guides = calculate_spacing_guides(c, &[a, bb]);
    let found = guides.iter().any(|g| {
        g.guide_type() == 0
            && f(g.spacing()) == 10.0
            && f(g.from_x()) == 20.0
            && f(g.from_width()) == 10.0
            && f(g.to_x()) == 40.0
            && f(g.to_width()) == 10.0
    });
    assert!(found);
    // the gap from A to C is 30, which no pair of siblings has
    assert_eq!(guides.len(), 1);
    let g = &guides[0];
    assert_eq!((f(g.from_y()), f(g.from_height()), f(g.to_y()), f(g.to_height())), (0.0, 10.0, 0.0, 10.0));
}

#[test]
fn spacing_is_matched_bit_for_bit() {
    let a = b(0.0, 0.0, 10.0, 10.0);
    let bb = b(20.0, 0.0, 30.0, 10.0);
    // the moving node is 10.000001 right of B: not the siblings' gap
    let c = b(40.000004, 0.0, 50.0, 10.0);
    assert_eq!(calculate_spacing_guides(c, &[a, bb]).len(), 0);
}

#[test]
fn spacing_guides_carry_a_sibling_gap() {
    let mut x: u32 = 77;
    for _ in 0..30 {
        let mut boxes = Vec::new();
        for _ in 0..7 {
            x ^= x << 13;
            x ^= x >> 17;
            x ^= x << 5;
            let left = (x % 20) as f32 * 5.0;
            let top = ((x >> 8) % 20) as f32 * 5.0;
            boxes.push((left, top, left + 5.0, top + 5.0));
        }
        let moving = boxes.pop().unwrap();
        let siblings: Vec<Bounds> = boxes.iter().map(|r| b(r.0, r.1, r.2, r.3)).collect();
        let guides = calculate_spacing_guides(b(moving.0, moving.1, moving.2, moving.3), &siblings);
        for g in &guides {
            let mut matched = false;
            for i in 0..boxes.len() {
                for j in 0..boxes.len() {
                    if i != j && g.guide_type() == 0 && boxes[j].0 > boxes[i].2 {
                        matched |= (boxes[j].0 - boxes[i].2).to_bits() == g.spacing().to_bits();
                    }
                    if i != j && g.guide_type() == 1 && boxes[j].1 > boxes[i].3 {
                        matched |= (boxes[j].1 - boxes[i].3).to_bits() == g.spacing().to_bits();
                    }
                }
            }
            assert!(matched);
        }
        // and each gap of the moving node that two siblings have gives a guide
        let m = moving;
        let mut due = 0;
        for r in &boxes {
            for (lo, hi, axis) in [((r.0, r.2), (m.0, m.2), 0), ((r.1, r.3), (m.1, m.3), 1)] {
                let gap = if lo.0 > hi.1 {
                    Some(lo.0 - hi.1)
                } else if hi.0 > lo.1 {
                    Some(hi.0 - lo.1)
                } else {
                    None
                };
                if let Some(gap) = gap {
                    let mut has = false;
                    for i in 0..boxes.len() {
                        for j in 0..boxes.len() {
                            let (x, y) = if axis == 0 {
                                (boxes[j].0, boxes[i].2)
                            } else {
                                (boxes[j].1, boxes[i].3)
                            };
                            has |= i != j && x > y && (x - y).to_bits() == gap.to_bits();
                        }
                    }
                    if has {
                        due += 1;
                    }
                }
            }
        }
        assert_eq!(guides.len(), due);
    }
}

#[test]
fn vertical_spacing_and_direction_of_the_guide() {
    let a = b(0.0, 0.0, 10.0, 10.0);
    let bb = b(0.0, 25.0, 10.0, 35.0);
    // the moving node lies above A by the same 15
    let m = b(0.0, -25.0, 10.0, -15.0);
    let guides = calculate_spacing_guides(m, &[a, bb]);
    assert_eq!(guides.len(), 1);
    let g = &guides[0];
    assert_eq!(g.guide_type(), 1);
    assert_eq!(f(g.spacing()), 15.0);
    assert_eq!((f(g.from_y()), f(g.to_y())), (-25.0, 0.0));
    // and from below B: the guide then runs from the sibling to the moving node
    let m = b(0.0, 50.0, 10.0, 60.0);
    let guides = calculate_spacing_guides(m, &[a, bb]);
    assert_eq!(guides.len(), 1);
    assert_eq!((f(guides[0].from_y()), f(guides[0].to_y())), (25.0, 50.0));
}

#[test]
fn sibling_gaps_do_not_depend_on_the_order_of_the_siblings() {
    // the same row as above, the siblings listed right one first
    let bb = b(20.0, 0.0, 30.0, 10.0);
    let a = b(0.0, 0.0, 10.0, 10.0);
    let c = b(40.0, 0.0, 50.0, 10.0);
    let guides = calculate_spacing_guides(c, &[bb, a]);
    assert_eq!(guides.len(), 1);
    let g = &guides[0];
    assert_eq!(g.guide_type(), 0);
    assert_eq!(f(g.spacing()), 10.0);
    assert_eq!((f(g.from_x()), f(g.from_y()), f(g.from_width()), f(g.from_height())), (20.0, 0.0, 10.0, 10.0));
    assert_eq!((f(g.to_x()), f(g.to_y()), f(g.to_width()), f(g.to_height())), (40.0, 0.0, 10.0, 10.0));
    // and along y
    let upper = b(0.0, 0.0, 10.0, 10.0);
    let lower = b(0.0, 25.0, 10.0, 35.0);
    let m = b(0.0, 50.0, 10.0, 60.0);
    let one = calculate_spacing_guides(m, &[upper, lower]);
    let other = calculate_spacing_guides(m, &[lower, upper]);
    assert_eq!((one.len(), other.len()), (1, 1));
    assert_eq!(f(one[0].spacing()), 15.0);
    assert_eq!(f(other[0].spacing()), 15.0);
    assert_eq!((other[0].guide_type(), f(other[0].from_y()), f(other[0].to_y())), (1, 25.0, 50.0));
}

#[test]
fn distance_to_the_left_neighbour() {
    let moving = b(100.0, 100.0, 200.0, 200.0);
    let sibling = b(0.0, 100.0, 50.0, 200.0);
    let ms = calculate_distance_measurements(moving, &[sibling], None);
    let found = ms.iter().any(|m| {
        m.direction() == 0
            && f(m.distance()) == 50.0
            && f(m.from_x()) == 100.0
            && f(m.from_y()) == 150.0
            && f(m.to_x()) == 50.0
            && f(m.to_y()) == 150.0
    });
    assert!(found);
    assert_eq!(ms.len(), 1);
}

#[test]
fn nearest_neighbour_on_each_side_first_of_equals() {
    let moving = b(100.0, 100.0, 200.0, 200.0);
    let siblings = [
        b(0.0, 0.0, 40.0, 40.0),        // left by 60, above by 60
        b(60.0, 300.0, 90.0, 340.0),    // left by 10, below by 100
        b(70.0, 120.0, 90.0, 130.0),    // left by 10 again: the first one stays
        b(250.0, 100.0, 300.0, 200.0),  // right by 50
        b(0.0, 0.0, 1000.0, 1000.0),    // a container: left out
    ];
    let ms = calculate_distance_measurements(moving, &siblings, None);
    assert_eq!(ms.len(), 4);
    // left
    assert_eq!((f(ms[0].from_x()), f(ms[0].to_x()), f(ms[0].distance()), ms[0].direction()), (100.0, 90.0, 10.0, 0));
    assert_eq!((f(ms[0].from_y()), f(ms[0].to_y())), (150.0, 150.0));
    // right
    assert_eq!((f(ms[1].from_x()), f(ms[1].to_x()), f(ms[1].distance()), ms[1].direction()), (200.0, 250.0, 50.0, 0));
    // top
    assert_eq!((f(ms[2].from_y()), f(ms[2].to_y()), f(ms[2].distance()), ms[2].direction()), (100.0, 40.0, 60.0, 1));
    assert_eq!((f(ms[2].from_x()), f(ms[2].to_x())), (150.0, 150.0));
    // bottom
    assert_eq!((f(ms[3].from_y()), f(ms[3].to_y()), f(ms[3].distance()), ms[3].direction()), (200.0, 300.0, 100.0, 1));
}

#[test]
fn parent_edges_where_no_neighbour_is() {
    let moving = b(100.0, 100.0, 200.0, 200.0);
    // the parent is given as x, y, width, height
    let parent = Some((s(20.0), s(100.0), s(400.0), s(150.0)));
    let ms = calculate_distance_measurements(moving, &[], parent);
    // left 80, right 220, top 0 (not positive: left out), bottom 50
    assert_eq!(ms.len(), 3);
    assert_eq!((f(ms[0].from_x()), f(ms[0].to_x()), f(ms[0].distance()), ms[0].direction()), (100.0, 20.0, 80.0, 0));
    assert_eq!((f(ms[1].from_x()), f(ms[1].to_x()), f(ms[1].distance()), ms[1].direction()), (200.0, 420.0, 220.0, 0));
    assert_eq!((f(ms[2].from_y()), f(ms[2].to_y()), f(ms[2].distance()), ms[2].direction()), (200.0, 250.0, 50.0, 1));
    // with a neighbour on the left, the parent's left edge is not measured
    let ms = calculate_distance_measurements(moving, &[b(0.0, 0.0, 90.0, 10.0)], parent);
    assert_eq!(f(ms[0].to_x()), 90.0);
    assert_eq!(f(ms[0].distance()), 10.0);
}

#[test]
fn no_neighbour_and_no_parent_measures_nothing() {
    let moving = b(100.0, 100.0, 200.0, 200.0);
    assert_eq!(calculate_distance_measurements(moving, &[], None).len(), 0);
    // overlapping siblings lie on no side
    assert_eq!(calculate_distance_measurements(moving, &[b(150.0, 150.0, 250.0, 250.0)], None).len(), 0);
}

#[test]
fn touching_neighbour_is_at_distance_zero() {
    let moving = b(100.0, 100.0, 200.0, 200.0);
    let ms = calculate_distance_measurements(moving, &[b(200.0, 0.0, 300.0, 50.0)], None);
    // right of the moving node, touching; and above it
    assert_eq!(ms.len(), 2);
    assert_eq!((f(ms[0].distance()), ms[0].direction()), (0.0, 0));
    assert_eq!((f(ms[1].distance()), ms[1].direction()), (50.0, 1));
}

#[test]
fn alignment_of_left_edges() {
    let moving = b(100.0, 100.0, 200.0, 200.0);
    let sibling = b(100.5, 400.0, 150.0, 450.0);
    let guides = calculate_alignment_guides(moving, &[sibling], s(1.0));
    assert_eq!(guides.len(), 1);
    let g = &guides[0];
    assert_eq!(g.guide_type(), 0);
    // the position is the moving node's own edge
    assert_eq!(f(g.position()), 100.0);
    assert_eq!(g.alignment_type(), 0);
    assert_eq!(g.node_count(), 1);
}

#[test]
fn alignments_at_one_position_are_counted_and_keep_the_first_kind() {
    let moving = b(100.0, 100.0, 200.0, 200.0);
    let siblings = [
        b(0.0, 300.0, 100.0, 350.0),   // its right edge at the moving node's left edge
        b(100.0, 500.0, 130.0, 550.0), // its left edge there too
        b(100.0, 700.0, 200.0, 750.0), // left, right and center
    ];
    let guides = calculate_alignment_guides(moving, &siblings, s(0.5));
    // vertical lines in the order in which they were first found: 100, 200, 150
    assert_eq!(guides.len(), 3);
    assert_eq!((guides[0].guide_type(), f(guides[0].position()), guides[0].alignment_type(), guides[0].node_count()), (0, 100.0, 0, 3));
    assert_eq!((guides[1].guide_type(), f(guides[1].position()), guides[1].alignment_type(), guides[1].node_count()), (0, 200.0, 1, 1));
    assert_eq!((guides[2].guide_type(), f(guides[2].position()), guides[2].alignment_type(), guides[2].node_count()), (0, 150.0, 4, 1));
}

#[test]
fn horizontal_alignments_come_after_vertical_ones() {
    let moving = b(100.0, 100.0, 200.0, 200.0);
    let siblings = [b(300.0, 200.0, 400.0, 300.0), b(100.0, 500.0, 200.0, 600.0)];
    let guides = calculate_alignment_guides(moving, &siblings, s(2.0));
    let got: Vec<(u8, f32, u8, usize)> = guides
        .iter()
        .map(|g| (g.guide_type(), f(g.position()), g.alignment_type(), g.node_count()))
        .collect();
    assert_eq!(
        got,
        vec![(0, 100.0, 0, 1), (0, 200.0, 1, 1), (0, 150.0, 4, 1), (1, 200.0, 3, 1)]
    );
}

#[test]
fn threshold_is_strict() {
    let moving = b(100.0, 100.0, 200.0, 200.0);
    let sibling = b(101.0, 400.0, 150.0, 450.0);
    assert_eq!(calculate_alignment_guides(moving, &[sibling], s(1.0)).len(), 0);
    assert_eq!(calculate_alignment_guides(moving, &[sibling], s(1.0001)).len(), 1);
    assert_eq!(calculate_alignment_guides(moving, &[], s(1.0)).len(), 0);
}

#[test]
fn check_alignment_counts_by_the_bits_of_the_position() {
    let mut entries: Vec<Tally> = Vec::new();
    check_alignment(&mut entries, s(10.0), s(10.25), s(0.5), 0);
    check_alignment(&mut entries, s(10.0), s(9.75), s(0.5), 1);
    check_alignment(&mut entries, s(10.0), s(11.0), s(0.5), 1);
    check_alignment(&mut entries, s(20.0), s(20.0), s(0.5), 4);
    assert_eq!(entries.len(), 2);
    assert_eq!((entries[0].key, entries[0].kind, entries[0].count), (10.0f32.to_bits(), 0, 2));
    assert_eq!((entries[1].key, entries[1].kind, entries[1].count), (20.0f32.to_bits(), 4, 1));
}
