//! The compute core of an infinite-canvas editor: a spatial index over the
//! nodes' boxes, the camera's view transform, and the guides and snapping
//! that are computed from them.
//!
//! [`EditorCore`] owns one camera, one spatial index and the flags of each
//! node, and puts the queries together.
use std::collections::HashMap;
use vstd::prelude::*;

pub mod binary32;
pub mod camera;
pub mod index_model;
pub mod rounding;
pub mod smart_guides;
pub mod spatial_index;

pub use binary32::Scalar;
pub use camera::Camera;
pub use smart_guides::{AlignmentGuide, DistanceMeasurement, SpacingGuide};
pub use spatial_index::SpatialIndex;

use index_model::{lemma_filter_members, lemma_filter_no_duplicates, IndexModel, NodeData};
use smart_guides::{
    alignment_guides, aligned, bump, distance_measurements, midpoint, spacing_guides, Bounds,
};

verus! {

/// The flag bit of a hidden node.
pub const FLAG_HIDDEN: u32 = 0x1;

/// The flag bits of a node that takes no hit: hidden or locked.
pub const FLAGS_UNPICKABLE: u32 = 0x3;

/// The bits of the number 3: the neighbourhood that snapping to objects looks
/// at has three times the threshold as its half-side.
pub const THREE: u32 = 0x4040_0000;

/// The handles that have no flags, or none of the bits of `mask` among them.
pub open spec fn unflagged(flags: Map<u32, u32>, mask: u32) -> spec_fn(u32) -> bool {
    |h: u32| !flags.contains_key(h) || flags[h] & mask == 0
}

/// The nodes that show: those without the hidden bit.
pub open spec fn shown(flags: Map<u32, u32>) -> spec_fn(u32) -> bool {
    unflagged(flags, FLAG_HIDDEN)
}

/// The nodes that take hits: those with neither the hidden nor the locked
/// bit.
pub open spec fn pickable(flags: Map<u32, u32>) -> spec_fn(u32) -> bool {
    unflagged(flags, FLAGS_UNPICKABLE)
}

/// The box of a node as the guides take it.
pub open spec fn bounds_of(data: NodeData) -> Bounds {
    (data.min_x, data.min_y, data.max_x, data.max_y)
}

/// The boxes of the handles of `visible` that the index holds, the moving
/// handle left out, in the order of `visible`.
pub open spec fn sibling_bounds(index: IndexModel, moving: u32, visible: Seq<u32>) -> Seq<Bounds>
    decreases visible.len(),
{
    if visible.len() == 0 {
        Seq::empty()
    } else {
        let rest = sibling_bounds(index, moving, visible.drop_last());
        let h = visible.last();
        if h != moving && index.nodes.contains_key(h) {
            rest.push(bounds_of(index.nodes[h]))
        } else {
            rest
        }
    }
}

/// The boxes of the handles, each of which the index holds.
pub open spec fn boxes_of(index: IndexModel, handles: Seq<u32>) -> Seq<Bounds> {
    Seq::new(handles.len(), |i: int| bounds_of(index.nodes[handles[i]]))
}

/// Where a point has been snapped to.
#[derive(Clone, Copy, Debug)]
pub struct SnapResult {
    /// Whether either coordinate was snapped.
    pub snapped: bool,
    pub x: Scalar,
    pub y: Scalar,
    /// How many snap targets were in reach, along both axes.
    pub guide_count: usize,
}

impl SnapResult {
    pub fn snapped(&self) -> (r: bool)
        ensures
            r == self.snapped,
    {
        self.snapped
    }

    pub fn x(&self) -> (r: Scalar)
        ensures
            r == self.x,
    {
        self.x
    }

    pub fn y(&self) -> (r: Scalar)
        ensures
            r == self.y,
    {
        self.y
    }

    pub fn guide_count(&self) -> (r: usize)
        ensures
            r == self.guide_count,
    {
        self.guide_count
    }
}

/// The state after one target along x has been tried: the point snaps to it
/// when it is within the threshold of where the point was at first.
pub open spec fn snap_x(state: SnapResult, world_x: Scalar, target: Scalar, threshold: Scalar) -> SnapResult {
    if aligned(world_x, target, threshold) {
        SnapResult { snapped: true, x: target, y: state.y, guide_count: bump(state.guide_count) }
    } else {
        state
    }
}

/// The state after one target along y has been tried.
pub open spec fn snap_y(state: SnapResult, world_y: Scalar, target: Scalar, threshold: Scalar) -> SnapResult {
    if aligned(world_y, target, threshold) {
        SnapResult { snapped: true, x: state.x, y: target, guide_count: bump(state.guide_count) }
    } else {
        state
    }
}

/// The grid line nearest to a coordinate: `round(world / grid_size) * grid_size`.
pub open spec fn grid_line(world: Scalar, grid_size: Scalar) -> Scalar {
    world.spec_div(grid_size).spec_round().spec_mul(grid_size)
}

/// The state after the grid has been tried, where it is on and has a
/// positive size.
pub open spec fn snap_to_grid(
    state: SnapResult,
    world_x: Scalar,
    world_y: Scalar,
    threshold: Scalar,
    grid_size: Scalar,
    enable_grid: bool,
) -> SnapResult {
    if enable_grid && grid_size.spec_gt(Scalar { bits: 0 }) {
        snap_y(
            snap_x(state, world_x, grid_line(world_x, grid_size), threshold),
            world_y,
            grid_line(world_y, grid_size),
            threshold,
        )
    } else {
        state
    }
}

/// The state after the edges and the center of one box have been tried: along
/// x its left edge, center and right edge, then the same along y. A later
/// target in reach takes the place of an earlier one.
pub open spec fn snap_to_box(
    state: SnapResult,
    world_x: Scalar,
    world_y: Scalar,
    threshold: Scalar,
    b: Bounds,
) -> SnapResult {
    let x1 = snap_x(state, world_x, b.0, threshold);
    let x2 = snap_x(x1, world_x, midpoint(b.0, b.2), threshold);
    let x3 = snap_x(x2, world_x, b.2, threshold);
    let y1 = snap_y(x3, world_y, b.1, threshold);
    let y2 = snap_y(y1, world_y, midpoint(b.1, b.3), threshold);
    snap_y(y2, world_y, b.3, threshold)
}

/// The state after each of the boxes has been tried, in order.
pub open spec fn snap_to_boxes(
    state: SnapResult,
    world_x: Scalar,
    world_y: Scalar,
    threshold: Scalar,
    boxes: Seq<Bounds>,
) -> SnapResult
    decreases boxes.len(),
{
    if boxes.len() == 0 {
        state
    } else {
        snap_to_box(
            snap_to_boxes(state, world_x, world_y, threshold, boxes.drop_last()),
            world_x,
            world_y,
            threshold,
            boxes.last(),
        )
    }
}

/// Where a point snaps to: first to the grid, then to the boxes nearby.
pub open spec fn snap_result(
    world_x: Scalar,
    world_y: Scalar,
    threshold: Scalar,
    grid_size: Scalar,
    enable_grid: bool,
    enable_objects: bool,
    boxes: Seq<Bounds>,
) -> SnapResult {
    let start = SnapResult { snapped: false, x: world_x, y: world_y, guide_count: 0 };
    let gridded = snap_to_grid(start, world_x, world_y, threshold, grid_size, enable_grid);
    if enable_objects {
        snap_to_boxes(gridded, world_x, world_y, threshold, boxes)
    } else {
        gridded
    }
}

fn try_x(state: SnapResult, world_x: Scalar, target: Scalar, threshold: Scalar) -> (r: SnapResult)
    ensures
        r == snap_x(state, world_x, target, threshold),
{
    if world_x.sub(target).abs().lt(threshold) {
        let guide_count = if state.guide_count < usize::MAX {
            state.guide_count + 1
        } else {
            state.guide_count
        };
        SnapResult { snapped: true, x: target, y: state.y, guide_count }
    } else {
        state
    }
}

fn try_y(state: SnapResult, world_y: Scalar, target: Scalar, threshold: Scalar) -> (r: SnapResult)
    ensures
        r == snap_y(state, world_y, target, threshold),
{
    if world_y.sub(target).abs().lt(threshold) {
        let guide_count = if state.guide_count < usize::MAX {
            state.guide_count + 1
        } else {
            state.guide_count
        };
        SnapResult { snapped: true, x: state.x, y: target, guide_count }
    } else {
        state
    }
}

/// Snaps a point to the grid and to the edges and centers of the boxes given,
/// in their order.
pub fn snap_to_candidates(
    world_x: Scalar,
    world_y: Scalar,
    snap_threshold: Scalar,
    grid_size: Scalar,
    enable_grid: bool,
    enable_objects: bool,
    nearby: &[Bounds],
) -> (result: SnapResult)
    ensures
        result == snap_result(
            world_x,
            world_y,
            snap_threshold,
            grid_size,
            enable_grid,
            enable_objects,
            nearby@,
        ),
{
    let mut state = SnapResult { snapped: false, x: world_x, y: world_y, guide_count: 0 };
    let two = Scalar::from_bits(camera::TWO);

    if enable_grid && grid_size.gt(Scalar::from_bits(0)) {
        let grid_x = world_x.div(grid_size).round().mul(grid_size);
        let grid_y = world_y.div(grid_size).round().mul(grid_size);
        state = try_x(state, world_x, grid_x, snap_threshold);
        state = try_y(state, world_y, grid_y, snap_threshold);
    }
    if enable_objects {
        let ghost gridded = state;
        let mut i: usize = 0;
        while i < nearby.len()
            invariant
                i <= nearby.len(),
                two == (Scalar { bits: camera::TWO }),
                state == snap_to_boxes(
                    gridded,
                    world_x,
                    world_y,
                    snap_threshold,
                    nearby@.take(i as int),
                ),
            decreases nearby.len() - i,
        {
            let bounds = nearby[i];
            proof {
                assert(nearby@.take(i + 1).drop_last() =~= nearby@.take(i as int));
                assert(nearby@.take(i + 1).last() == bounds);
            }
            state = try_x(state, world_x, bounds.0, snap_threshold);
            state = try_x(state, world_x, bounds.0.add(bounds.2).div(two), snap_threshold);
            state = try_x(state, world_x, bounds.2, snap_threshold);
            state = try_y(state, world_y, bounds.1, snap_threshold);
            state = try_y(state, world_y, bounds.1.add(bounds.3).div(two), snap_threshold);
            state = try_y(state, world_y, bounds.3, snap_threshold);
            i += 1;
        }
        proof {
            assert(nearby@.take(i as int) =~= nearby@);
        }
    }
    state
}

/// The engine: a camera, a spatial index, and the flags of each node.
pub struct EditorCore {
    spatial_index: SpatialIndex,
    camera: Camera,
    node_flags: HashMap<u32, u32>,
}

impl EditorCore {
    /// The nodes and their order.
    pub closed spec fn index(&self) -> IndexModel {
        self.spatial_index@
    }

    /// The view.
    pub closed spec fn camera(&self) -> Camera {
        self.camera
    }

    /// The flags of each node.
    pub closed spec fn flags(&self) -> Map<u32, u32> {
        self.node_flags@
    }

    /// The index is in order, and the nodes that have flags are the nodes
    /// that the index holds.
    pub closed spec fn wf(&self) -> bool {
        &&& self.spatial_index.wf()
        &&& self.node_flags@.dom() == self.spatial_index@.nodes.dom()
    }

    /// The grid's table of the engine's index.
    pub closed spec fn cells(&self) -> Map<i64, Vec<u32>> {
        self.spatial_index.cells()
    }

    /// In an engine that is in order, each cell of the grid lists just the
    /// handles whose box reaches into it, in the order in which they came;
    /// and a cell into which no box reaches has no entry.
    pub proof fn lemma_wf_cells(&self, cx: int, cy: int)
        requires
            self.wf(),
            index_model::is_cell(cx, cy),
        ensures
            spatial_index::cell_in_step(self.cells(), self.index(), cx, cy),
    {
        self.spatial_index.lemma_wf_cells(cx, cy);
    }

    /// An engine that is in order holds a valid model of its nodes, and flags
    /// for just those nodes.
    pub proof fn lemma_wf_is_valid(&self)
        requires
            self.wf(),
        ensures
            self.index().valid(),
            self.flags().dom() == self.index().nodes.dom(),
    {
        self.spatial_index.lemma_wf_is_valid();
    }

    /// An engine without nodes, with the first view. The capacity is a hint.
    pub fn new(capacity: usize) -> (core: EditorCore)
        ensures
            core.wf(),
            core.index() == IndexModel::empty(),
            core.camera() == Camera::initial(),
            core.flags() == Map::<u32, u32>::empty(),
    {
        let core = EditorCore {
            spatial_index: SpatialIndex::new(capacity),
            camera: Camera::new(),
            node_flags: HashMap::with_capacity(capacity),
        };
        proof {
            assert(core.node_flags@.dom() =~= core.spatial_index@.nodes.dom());
        }
        core
    }

    /// Puts a node into the index, with its flags; a node that has the
    /// handle already is replaced.
    pub fn upsert_node(
        &mut self,
        handle: u32,
        min_x: Scalar,
        min_y: Scalar,
        max_x: Scalar,
        max_y: Scalar,
        z_index: i32,
        flags: u32,
    )
        requires
            old(self).wf(),
        ensures
            final(self).wf(),
            final(self).index() == old(self).index().upsert(
                handle,
                NodeData { min_x, min_y, max_x, max_y, z_index },
            ),
            final(self).flags() == old(self).flags().insert(handle, flags),
            final(self).camera() == old(self).camera(),
    {
        self.spatial_index.upsert(handle, min_x, min_y, max_x, max_y, z_index);
        self.node_flags.insert(handle, flags);
        proof {
            assert(self.node_flags@.dom() =~= self.spatial_index@.nodes.dom());
        }
    }

    /// Takes a node out, with its flags.
    pub fn remove_node(&mut self, handle: u32)
        requires
            old(self).wf(),
        ensures
            final(self).wf(),
            final(self).index() == old(self).index().remove(handle),
            final(self).flags() == old(self).flags().remove(handle),
            final(self).camera() == old(self).camera(),
    {
        self.spatial_index.remove(handle);
        self.node_flags.remove(&handle);
        proof {
            assert(self.node_flags@.dom() =~= self.spatial_index@.nodes.dom());
        }
    }

    /// Replaces the view.
    pub fn set_camera(
        &mut self,
        zoom: Scalar,
        pan_x: Scalar,
        pan_y: Scalar,
        viewport_w: Scalar,
        viewport_h: Scalar,
        dpr: Scalar,
    )
        requires
            old(self).wf(),
        ensures
            final(self).wf(),
            final(self).camera() == (Camera { zoom, pan_x, pan_y, viewport_w, viewport_h, dpr }),
            final(self).index() == old(self).index(),
            final(self).flags() == old(self).flags(),
    {
        self.camera.set(zoom, pan_x, pan_y, viewport_w, viewport_h, dpr);
    }

    /// The handles that have none of the bits of `mask` among their flags, in
    /// order.
    fn retain_by_flags(&self, handles: Vec<u32>, mask: u32) -> (kept: Vec<u32>)
        ensures
            kept@ == handles@.filter(unflagged(self.flags(), mask)),
    {
        let ghost keep = unflagged(self.flags(), mask);
        let mut kept: Vec<u32> = Vec::new();
        let mut i: usize = 0;
        while i < handles.len()
            invariant
                i <= handles.len(),
                keep == unflagged(self.flags(), mask),
                kept@ == handles@.take(i as int).filter(keep),
            decreases handles.len() - i,
        {
            let handle = handles[i];
            proof {
                assert(handles@.take(i + 1) =~= handles@.take(i as int).push(handle));
                handles@.take(i as int).lemma_filter_push(handle, keep);
            }
            let keep_it = match self.node_flags.get(&handle) {
                Some(flags) => (*flags & mask) == 0,
                None => true,
            };
            if keep_it {
                kept.push(handle);
            }
            i += 1;
        }
        proof {
            assert(handles@.take(i as int) =~= handles@);
        }
        kept
    }

    /// The nodes in view: those whose box is not apart from what the
    /// viewport shows, the hidden ones left out; each once, in no stated
    /// order.
    pub fn cull_visible(&self) -> (visible: Vec<u32>)
        requires
            self.wf(),
        ensures
            visible@.no_duplicates(),
            forall|h: u32|
                visible@.contains(h) <==> ({
                    let b = self.camera().visible_bounds();
                    self.index().rect_hit(h, b.0, b.1, b.2, b.3) && shown(self.flags())(h)
                }),
    {
        let visible_bounds = self.camera.get_visible_world_bounds();
        let all = self.spatial_index.query_rect(
            visible_bounds.0,
            visible_bounds.1,
            visible_bounds.2,
            visible_bounds.3,
        );
        let visible = self.retain_by_flags(all, FLAG_HIDDEN);
        proof {
            lemma_filter_no_duplicates(all@, shown(self.flags()));
            assert forall|h: u32|
                visible@.contains(h) <==> (all@.contains(h) && shown(self.flags())(h)) by {
                lemma_filter_members(all@, shown(self.flags()), h);
            }
        }
        visible
    }

    /// The nodes under a world point that take hits, topmost first: what a
    /// point query returns, the hidden and the locked ones left out.
    pub fn hit_test_point(&self, world_x: Scalar, world_y: Scalar) -> (hits: Vec<u32>)
        requires
            self.wf(),
        ensures
            hits@ == self.index().point_query(world_x, world_y).filter(pickable(self.flags())),
    {
        let all = self.spatial_index.query_point(world_x, world_y);
        self.retain_by_flags(all, FLAGS_UNPICKABLE)
    }

    /// The nodes whose box is not apart from the rectangle, each once, in no
    /// stated order.
    pub fn query_rect(&self, min_x: Scalar, min_y: Scalar, max_x: Scalar, max_y: Scalar) -> (found:
        Vec<u32>)
        requires
            self.wf(),
        ensures
            found@.no_duplicates(),
            forall|h: u32| found@.contains(h) <==> self.index().rect_hit(h, min_x, min_y, max_x, max_y),
    {
        self.spatial_index.query_rect(min_x, min_y, max_x, max_y)
    }

    /// The nodes whose box is not apart from the square of half-side
    /// `radius` around the point.
    pub fn query_near(&self, world_x: Scalar, world_y: Scalar, radius: Scalar) -> (found: Vec<u32>)
        requires
            self.wf(),
        ensures
            found@.no_duplicates(),
            forall|h: u32|
                found@.contains(h) <==> self.index().rect_hit(
                    h,
                    world_x.spec_sub(radius),
                    world_y.spec_sub(radius),
                    world_x.spec_add(radius),
                    world_y.spec_add(radius),
                ),
    {
        self.spatial_index.query_near(world_x, world_y, radius)
    }

    /// The world point that a screen point shows, as `[x, y]`.
    pub fn screen_to_world(&self, screen_x: Scalar, screen_y: Scalar) -> (world: Vec<Scalar>)
        ensures
            world@ == seq![
                self.camera().to_world(screen_x, screen_y).0,
                self.camera().to_world(screen_x, screen_y).1,
            ],
    {
        let (wx, wy) = self.camera.screen_to_world(screen_x, screen_y);
        let mut world: Vec<Scalar> = Vec::new();
        world.push(wx);
        world.push(wy);
        proof {
            assert(world@ =~= seq![wx, wy]);
        }
        world
    }

    /// The screen point at which a world point shows, as `[x, y]`.
    pub fn world_to_screen(&self, world_x: Scalar, world_y: Scalar) -> (screen: Vec<Scalar>)
        ensures
            screen@ == seq![
                self.camera().to_screen(world_x, world_y).0,
                self.camera().to_screen(world_x, world_y).1,
            ],
    {
        let (sx, sy) = self.camera.world_to_screen(world_x, world_y);
        let mut screen: Vec<Scalar> = Vec::new();
        screen.push(sx);
        screen.push(sy);
        proof {
            assert(screen@ =~= seq![sx, sy]);
        }
        screen
    }

    /// The number of nodes.
    pub fn get_node_count(&self) -> (n: usize)
        requires
            self.wf(),
        ensures
            n == self.index().nodes.len(),
            n == self.index().order.len(),
    {
        self.spatial_index.len()
    }

    /// Takes every node out. The view stays.
    pub fn clear(&mut self)
        ensures
            final(self).wf(),
            final(self).index() == IndexModel::empty(),
            final(self).flags() == Map::<u32, u32>::empty(),
            final(self).camera() == old(self).camera(),
    {
        self.spatial_index.clear();
        self.node_flags.clear();
        proof {
            assert(self.node_flags@.dom() =~= self.spatial_index@.nodes.dom());
        }
    }

    /// The boxes of the handles, each of which the index holds.
    fn collect_boxes(&self, handles: &Vec<u32>) -> (boxes: Vec<Bounds>)
        requires
            forall|i: int| 0 <= i < handles@.len() ==> self.index().nodes.contains_key(handles@[i]),
        ensures
            boxes@ == boxes_of(self.index(), handles@),
    {
        let mut boxes: Vec<Bounds> = Vec::new();
        let mut i: usize = 0;
        while i < handles.len()
            invariant
                i <= handles.len(),
                forall|i: int|
                    0 <= i < handles@.len() ==> self.index().nodes.contains_key(handles@[i]),
                boxes@ == boxes_of(self.index(), handles@.take(i as int)),
            decreases handles.len() - i,
        {
            match self.spatial_index.get_bounds(handles[i]) {
                Some(bounds) => {
                    boxes.push(bounds);
                },
                None => {},
            }
            i += 1;
            proof {
                assert(boxes@ =~= boxes_of(self.index(), handles@.take(i as int)));
            }
        }
        proof {
            assert(handles@.take(i as int) =~= handles@);
        }
        boxes
    }

    /// Snaps a world point to the grid and to the edges and centers of the
    /// nodes nearby: those within three times the threshold, in whichever
    /// order the index gives them.
    pub fn snap_point(
        &self,
        world_x: Scalar,
        world_y: Scalar,
        snap_threshold: Scalar,
        grid_size: Scalar,
        enable_grid: bool,
        enable_objects: bool,
    ) -> (result: SnapResult)
        requires
            self.wf(),
        ensures
            !enable_objects ==> result == snap_result(
                world_x,
                world_y,
                snap_threshold,
                grid_size,
                enable_grid,
                false,
                Seq::empty(),
            ),
            enable_objects ==> exists|nearby: Seq<u32>|
                {
                    let reach = snap_threshold.spec_mul(Scalar { bits: THREE });
                    &&& nearby.no_duplicates()
                    &&& forall|h: u32|
                        nearby.contains(h) <==> self.index().rect_hit(
                            h,
                            world_x.spec_sub(reach),
                            world_y.spec_sub(reach),
                            world_x.spec_add(reach),
                            world_y.spec_add(reach),
                        )
                    &&& result == snap_result(
                        world_x,
                        world_y,
                        snap_threshold,
                        grid_size,
                        enable_grid,
                        true,
                        #[trigger] boxes_of(self.index(), nearby),
                    )
                },
    {
        if enable_objects {
            let reach = snap_threshold.mul(Scalar::from_bits(THREE));
            let nearby = self.query_near(world_x, world_y, reach);
            proof {
                assert forall|i: int| 0 <= i < nearby@.len() implies self.index().nodes.contains_key(
                    nearby@[i],
                ) by {
                    assert(nearby@.contains(nearby@[i]));
                }
            }
            let boxes = self.collect_boxes(&nearby);
            snap_to_candidates(
                world_x,
                world_y,
                snap_threshold,
                grid_size,
                enable_grid,
                true,
                boxes.as_slice(),
            )
        } else {
            let none: Vec<Bounds> = Vec::new();
            snap_to_candidates(
                world_x,
                world_y,
                snap_threshold,
                grid_size,
                enable_grid,
                false,
                none.as_slice(),
            )
        }
    }

    /// The boxes of the visible nodes but the moving one.
    fn collect_siblings(&self, moving_handle: u32, visible_handles: &Vec<u32>) -> (boxes: Vec<Bounds>)
        ensures
            boxes@ == sibling_bounds(self.index(), moving_handle, visible_handles@),
    {
        let mut all_bounds: Vec<Bounds> = Vec::new();
        let mut i: usize = 0;
        while i < visible_handles.len()
            invariant
                i <= visible_handles.len(),
                all_bounds@ == sibling_bounds(
                    self.index(),
                    moving_handle,
                    visible_handles@.take(i as int),
                ),
            decreases visible_handles.len() - i,
        {
            let handle = visible_handles[i];
            proof {
                assert(visible_handles@.take(i + 1).drop_last() =~= visible_handles@.take(i as int));
                assert(visible_handles@.take(i + 1).last() == handle);
            }
            if handle != moving_handle {
                match self.spatial_index.get_bounds(handle) {
                    Some(bounds) => {
                        all_bounds.push(bounds);
                    },
                    None => {},
                }
            }
            i += 1;
        }
        proof {
            assert(visible_handles@.take(i as int) =~= visible_handles@);
        }
        all_bounds
    }

    /// The alignment guides of the moving node against the visible nodes;
    /// none where the index does not hold the moving node.
    pub fn calculate_alignment_guides(
        &self,
        moving_handle: u32,
        visible_handles: Vec<u32>,
        threshold: Scalar,
    ) -> (guides: Vec<AlignmentGuide>)
        ensures
            guides@ == if self.index().nodes.contains_key(moving_handle) {
                alignment_guides(
                    bounds_of(self.index().nodes[moving_handle]),
                    sibling_bounds(self.index(), moving_handle, visible_handles@),
                    threshold,
                )
            } else {
                Seq::empty()
            },
    {
        let moving_bounds = match self.spatial_index.get_bounds(moving_handle) {
            Some(bounds) => bounds,
            None => {
                return Vec::new();
            },
        };
        let all_bounds = self.collect_siblings(moving_handle, &visible_handles);
        smart_guides::calculate_alignment_guides(moving_bounds, all_bounds.as_slice(), threshold)
    }

    /// The spacing guides of the moving node against the visible nodes; none
    /// where the index does not hold the moving node.
    pub fn calculate_spacing_guides(&self, moving_handle: u32, visible_handles: Vec<u32>) -> (guides:
        Vec<SpacingGuide>)
        ensures
            guides@ == if self.index().nodes.contains_key(moving_handle) {
                spacing_guides(
                    bounds_of(self.index().nodes[moving_handle]),
                    sibling_bounds(self.index(), moving_handle, visible_handles@),
                )
            } else {
                Seq::empty()
            },
    {
        let moving_bounds = match self.spatial_index.get_bounds(moving_handle) {
            Some(bounds) => bounds,
            None => {
                return Vec::new();
            },
        };
        let all_bounds = self.collect_siblings(moving_handle, &visible_handles);
        smart_guides::calculate_spacing_guides(moving_bounds, all_bounds.as_slice())
    }

    /// The distances from the moving node to its nearest visible neighbours,
    /// or to the parent's edges where all four of the parent's numbers are
    /// given; none where the index does not hold the moving node.
    pub fn calculate_distance_measurements(
        &self,
        moving_handle: u32,
        visible_handles: Vec<u32>,
        parent_x: Option<Scalar>,
        parent_y: Option<Scalar>,
        parent_width: Option<Scalar>,
        parent_height: Option<Scalar>,
    ) -> (measurements: Vec<DistanceMeasurement>)
        ensures
            measurements@ == if self.index().nodes.contains_key(moving_handle) {
                distance_measurements(
                    bounds_of(self.index().nodes[moving_handle]),
                    sibling_bounds(self.index(), moving_handle, visible_handles@),
                    parent_of(parent_x, parent_y, parent_width, parent_height),
                )
            } else {
                Seq::empty()
            },
    {
        let moving_bounds = match self.spatial_index.get_bounds(moving_handle) {
            Some(bounds) => bounds,
            None => {
                return Vec::new();
            },
        };
        let all_bounds = self.collect_siblings(moving_handle, &visible_handles);
        let parent_bounds = match (parent_x, parent_y, parent_width, parent_height) {
            (Some(x), Some(y), Some(w), Some(h)) => Some((x, y, w, h)),
            _ => None,
        };
        smart_guides::calculate_distance_measurements(
            moving_bounds,
            all_bounds.as_slice(),
            parent_bounds,
        )
    }
}

/// The parent's box as `(x, y, width, height)`, where all four are given.
pub open spec fn parent_of(
    x: Option<Scalar>,
    y: Option<Scalar>,
    width: Option<Scalar>,
    height: Option<Scalar>,
) -> Option<Bounds> {
    if x.is_some() && y.is_some() && width.is_some() && height.is_some() {
        Some((x.unwrap(), y.unwrap(), width.unwrap(), height.unwrap()))
    } else {
        None
    }
}

} // verus!
