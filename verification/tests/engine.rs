use editor_core::binary32::Scalar;
use editor_core::{snap_to_candidates, EditorCore};

fn s(x: f32) -> Scalar {
    Scalar::from_bits(x.to_bits())
}

fn f(x: Scalar) -> f32 {
    f32::from_bits(x.to_bits())
}

fn node(core: &mut EditorCore, h: u32, r: (f32, f32, f32, f32), z: i32, flags: u32) {
    core.upsert_node(h, s(r.0), s(r.1), s(r.2), s(r.3), z, flags);
}

fn sorted(mut v: Vec<u32>) -> Vec<u32> {
    v.sort();
    v
}

#[test]
fn hidden_node_is_culled() {
    let mut core = EditorCore::new(8);
    node(&mut core, 1, (0.0, 0.0, 100.0, 100.0), 0, 0x1);
    assert!(!core.cull_visible().contains(&1));
    node(&mut core, 2, (0.0, 0.0, 100.0, 100.0), 0, 0x2);
    node(&mut core, 3, (0.0, 0.0, 100.0, 100.0), 0, 0xfffc);
    node(&mut core, 4, (5000.0, 0.0, 5100.0, 100.0), 0, 0);
    assert_eq!(sorted(core.cull_visible()), vec![2, 3]);
}

#[test]
fn cull_follows_the_camera() {
    let mut core = EditorCore::new(8);
    node(&mut core, 1, (0.0, 0.0, 100.0, 100.0), 0, 0);
    node(&mut core, 4, (5000.0, 0.0, 5100.0, 100.0), 0, 0);
    core.set_camera(s(1.0), s(5000.0), s(0.0), s(800.0), s(600.0), s(1.0));
    assert_eq!(core.cull_visible(), vec![4]);
    core.set_camera(s(0.1), s(2500.0), s(0.0), s(800.0), s(600.0), s(1.0));
    assert_eq!(sorted(core.cull_visible()), vec![1, 4]);
}

#[test]
fn hit_test_leaves_out_hidden_and_locked() {
    let mut core = EditorCore::new(8);
    node(&mut core, 1, (0.0, 0.0, 100.0, 100.0), 1, 0);
    node(&mut core, 2, (0.0, 0.0, 100.0, 100.0), 5, 0x1);
    node(&mut core, 3, (0.0, 0.0, 100.0, 100.0), 3, 0x2);
    node(&mut core, 4, (0.0, 0.0, 100.0, 100.0), 9, 0x4);
    node(&mut core, 5, (0.0, 0.0, 100.0, 100.0), 7, 0x3);
    assert_eq!(core.hit_test_point(s(50.0), s(50.0)), vec![4, 1]);
    assert_eq!(core.hit_test_point(s(500.0), s(50.0)), Vec::<u32>::new());
}

#[test]
fn node_count_follows_upserts_and_removes() {
    let mut core = EditorCore::new(8);
    assert_eq!(core.get_node_count(), 0);
    node(&mut core, 1, (0.0, 0.0, 100.0, 100.0), 1, 0);
    node(&mut core, 2, (0.0, 0.0, 100.0, 100.0), 1, 0);
    node(&mut core, 1, (10.0, 0.0, 100.0, 100.0), 1, 0);
    assert_eq!(core.get_node_count(), 2);
    core.remove_node(1);
    core.remove_node(7);
    assert_eq!(core.get_node_count(), 1);
    // a handle may be used again after its removal, with new flags
    node(&mut core, 1, (0.0, 0.0, 100.0, 100.0), 1, 0x1);
    assert_eq!(core.hit_test_point(s(5.0), s(5.0)), vec![2]);
    core.clear();
    assert_eq!(core.get_node_count(), 0);
    assert_eq!(core.cull_visible(), Vec::<u32>::new());
}

#[test]
fn facade_queries_and_transforms() {
    let mut core = EditorCore::new(8);
    node(&mut core, 1, (0.0, 0.0, 100.0, 100.0), 1, 0x3);
    node(&mut core, 2, (300.0, 0.0, 400.0, 100.0), 1, 0);
    // the plain queries do not look at the flags
    assert_eq!(core.query_rect(s(-10.0), s(-10.0), s(10.0), s(10.0)), vec![1]);
    assert_eq!(core.query_near(s(290.0), s(50.0), s(10.0)), vec![2]);
    let w = core.screen_to_world(s(400.0), s(300.0));
    assert_eq!((w.len(), f(w[0]), f(w[1])), (2, 0.0, 0.0));
    core.set_camera(s(2.0), s(100.0), s(50.0), s(800.0), s(600.0), s(1.0));
    let w = core.screen_to_world(s(400.0), s(300.0));
    assert_eq!((f(w[0]), f(w[1])), (100.0, 50.0));
    let p = core.world_to_screen(w[0], w[1]);
    assert!((f(p[0]) - 400.0).abs() < 1e-3 && (f(p[1]) - 300.0).abs() < 1e-3);
}

#[test]
fn snap_to_the_grid() {
    let core = EditorCore::new(1);
    let r = core.snap_point(s(19.0), s(33.0), s(2.0), s(10.0), true, false);
    // x is within 2 of the line at 20; y is 3 from the line at 30
    assert!(r.snapped());
    assert_eq!((f(r.x()), f(r.y()), r.guide_count()), (20.0, 33.0, 1));
    let r = core.snap_point(s(19.0), s(31.0), s(2.0), s(10.0), true, false);
    assert_eq!((f(r.x()), f(r.y()), r.guide_count()), (20.0, 30.0, 2));
    // a grid that is off, or of no size, snaps nothing
    let r = core.snap_point(s(19.0), s(31.0), s(2.0), s(10.0), false, false);
    assert!(!r.snapped());
    assert_eq!((f(r.x()), f(r.y()), r.guide_count()), (19.0, 31.0, 0));
    let r = core.snap_point(s(19.0), s(31.0), s(2.0), s(0.0), true, false);
    assert!(!r.snapped());
    let r = core.snap_point(s(19.0), s(31.0), s(2.0), s(-10.0), true, false);
    assert!(!r.snapped());
}

#[test]
fn snap_to_a_node_nearby() {
    let mut core = EditorCore::new(4);
    node(&mut core, 1, (100.0, 100.0, 200.0, 300.0), 0, 0);
    // the left edge is 1 away; the center along y is 1.5 away
    let r = core.snap_point(s(99.0), s(201.5), s(2.0), s(0.0), false, true);
    assert!(r.snapped());
    assert_eq!((f(r.x()), f(r.y()), r.guide_count()), (100.0, 200.0, 2));
    // objects off
    let r = core.snap_point(s(99.0), s(201.5), s(2.0), s(0.0), false, false);
    assert!(!r.snapped());
    // out of reach: the node is more than three thresholds away
    let r = core.snap_point(s(90.0), s(201.5), s(2.0), s(0.0), false, true);
    assert!(!r.snapped());
    assert_eq!((f(r.x()), f(r.y()), r.guide_count()), (90.0, 201.5, 0));
}

#[test]
fn snap_takes_the_last_target_in_reach() {
    let boxes = [
        (s(10.0), s(10.0), s(11.0), s(50.0)),
        (s(10.5), s(70.0), s(30.0), s(90.0)),
    ];
    let r = snap_to_candidates(s(10.6), s(0.0), s(1.0), s(5.0), true, true, &boxes);
    // the grid line at 10, then 10, 10.5 and 11 of the first box, then 10.5 of the second
    assert!(r.snapped());
    assert_eq!(f(r.x()), 10.5);
    assert_eq!(r.guide_count(), 6);
    // y: the grid line at 0 only
    assert_eq!(f(r.y()), 0.0);
    // with the objects off, the boxes are not looked at
    let r = snap_to_candidates(s(10.6), s(0.0), s(1.0), s(5.0), true, false, &boxes);
    assert_eq!((f(r.x()), r.guide_count()), (10.0, 2));
}

#[test]
fn guides_through_the_facade() {
    let mut core = EditorCore::new(8);
    node(&mut core, 1, (0.0, 0.0, 10.0, 10.0), 0, 0);
    node(&mut core, 2, (20.0, 0.0, 30.0, 10.0), 0, 0);
    node(&mut core, 3, (40.0, 0.0, 50.0, 10.0), 0, 0);
    // the moving node is left out of its own siblings; unknown handles are passed over
    let guides = core.calculate_spacing_guides(3, vec![1, 2, 3, 99]);
    assert_eq!(guides.len(), 1);
    assert_eq!(f(guides[0].spacing()), 10.0);
    assert_eq!((f(guides[0].from_x()), f(guides[0].to_x())), (20.0, 40.0));

    let guides = core.calculate_alignment_guides(3, vec![1, 3], s(0.5));
    // tops, bottoms and centers along y
    let got: Vec<(u8, f32, u8, usize)> = guides
        .iter()
        .map(|g| (g.guide_type(), f(g.position()), g.alignment_type(), g.node_count()))
        .collect();
    assert_eq!(got, vec![(1, 0.0, 2, 1), (1, 10.0, 3, 1), (1, 5.0, 5, 1)]);

    let ms = core.calculate_distance_measurements(3, vec![1, 2], None, None, None, None);
    assert_eq!(ms.len(), 1);
    assert_eq!((f(ms[0].from_x()), f(ms[0].to_x()), f(ms[0].distance())), (40.0, 30.0, 10.0));
    // a parent of which one number is missing is no parent
    let ms = core.calculate_distance_measurements(3, vec![], Some(s(0.0)), Some(s(-5.0)), Some(s(100.0)), None);
    assert_eq!(ms.len(), 0);
    let ms = core.calculate_distance_measurements(3, vec![], Some(s(0.0)), Some(s(-5.0)), Some(s(100.0)), Some(s(100.0)));
    assert_eq!(ms.len(), 4);
    assert_eq!(f(ms[1].distance()), 50.0);
}

#[test]
fn unknown_moving_handle_gives_no_guides() {
    let mut core = EditorCore::new(8);
    node(&mut core, 1, (0.0, 0.0, 10.0, 10.0), 0, 0);
    assert_eq!(core.calculate_alignment_guides(9, vec![1], s(1.0)).len(), 0);
    assert_eq!(core.calculate_spacing_guides(9, vec![1]).len(), 0);
    assert_eq!(core.calculate_distance_measurements(9, vec![1], None, None, None, None).len(), 0);
}
