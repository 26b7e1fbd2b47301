//! A spatial index over a uniform grid of hashed cells.
//!
//! Each node is kept once in a table by handle, and its handle is listed in
//! every grid cell that its box reaches into. A query looks only at the cells
//! that the queried point or rectangle reaches into.
use crate::binary32::Scalar;
use crate::index_model::{
    cell_coord, cell_key, covering, covers, differs_from, handles_of, holding, holds_point,
    is_cell, is_proper, lemma_cell_key_injective, lemma_filter_members, lemma_insert_by_z_at,
    lemma_members_after_push, lemma_members_after_remove, lemma_point_hits_in_cell,
    lemma_point_query, lemma_reaches_shared_cell, lemma_rect_query_finds, lemma_remove_valid,
    lemma_sort_by_z, lemma_upsert_valid, meets_rect, reaches_one_of, sort_by_z, with_z,
    GRID_CELL_SIZE, IndexModel, NodeData,
};
use std::collections::HashMap;
use std::collections::HashSet;
use vstd::prelude::*;

verus! {

/// The index: see the module's description.
pub struct SpatialIndex {
    /// The data of each node, by handle.
    nodes: HashMap<u32, NodeData>,
    /// The handles in each cell that holds any, by the cell's key.
    grid: HashMap<i64, Vec<u32>>,
    /// The handles in the order in which they came.
    order: Ghost<Seq<u32>>,
}

impl View for SpatialIndex {
    type V = IndexModel;

    closed spec fn view(&self) -> IndexModel {
        IndexModel { order: self.order@, nodes: self.nodes@ }
    }
}

/// The key of a cell as the grid's table takes it.
fn key_of(cx: i32, cy: i32) -> (key: i64)
    ensures
        key == cell_key(cx as int, cy as int),
{
    (cx as i64) * 0x1_0000_0000 + ((cy as i64) + 0x8000_0000)
}

/// The handles of `list` other than `handle`, in order.
fn without(list: &Vec<u32>, handle: u32) -> (kept: Vec<u32>)
    ensures
        kept@ == list@.filter(differs_from(handle)),
{
    let mut kept: Vec<u32> = Vec::new();
    let mut i: usize = 0;
    while i < list.len()
        invariant
            i <= list.len(),
            kept@ == list@.take(i as int).filter(differs_from(handle)),
        decreases list.len() - i,
    {
        let h = list[i];
        proof {
            assert(list@.take(i + 1) =~= list@.take(i as int).push(h));
            list@.take(i as int).lemma_filter_push(h, differs_from(handle));
        }
        if h != handle {
            kept.push(h);
        }
        i += 1;
    }
    proof {
        assert(list@.take(i as int) =~= list@);
    }
    kept
}

/// The cell `(cx, cy)` of the grid's table holds what the model says: the
/// handles that reach into it, in order; and no entry where there are none.
pub open spec fn cell_in_step(grid: Map<i64, Vec<u32>>, model: IndexModel, cx: int, cy: int) -> bool {
    let members = model.members(cx, cy);
    let key = cell_key(cx, cy) as i64;
    if members.len() == 0 {
        !grid.contains_key(key)
    } else {
        grid.contains_key(key) && grid[key]@ == members
    }
}

/// `cell_in_step` while `handle` is being taken out of the cells that it
/// reaches into: the cells in `done` hold what they hold without it.
pub open spec fn removal_step(
    grid: Map<i64, Vec<u32>>,
    before: IndexModel,
    handle: u32,
    done: Seq<(i32, i32)>,
    cx: int,
    cy: int,
) -> bool {
    cell_in_step(
        grid,
        if done.contains((cx as i32, cy as i32)) || !covers(before.nodes[handle], cx, cy) {
            before.remove(handle)
        } else {
            before
        },
        cx,
        cy,
    )
}

/// `cell_in_step` while `handle`, new to `base`, is being put into the cells
/// that `data` reaches into: the cells in `done` hold it already.
pub open spec fn insertion_step(
    grid: Map<i64, Vec<u32>>,
    base: IndexModel,
    handle: u32,
    data: NodeData,
    done: Seq<(i32, i32)>,
    cx: int,
    cy: int,
) -> bool {
    cell_in_step(
        grid,
        if done.contains((cx as i32, cy as i32)) || !covers(data, cx, cy) {
            base.upsert(handle, data)
        } else {
            base
        },
        cx,
        cy,
    )
}

/// What a rectangle query has gathered so far: of the handles that it has
/// seen, those whose box is not apart from the rectangle, each once.
pub open spec fn gathered(
    model: IndexModel,
    seen: Set<u32>,
    candidates: Seq<u32>,
    min_x: Scalar,
    min_y: Scalar,
    max_x: Scalar,
    max_y: Scalar,
) -> bool {
    &&& candidates.no_duplicates()
    &&& forall|h: u32|
        candidates.contains(h) <==> (seen.contains(h) && meets_rect(
            model.nodes[h],
            min_x,
            min_y,
            max_x,
            max_y,
        ))
}

/// What one more element does to membership in a prefix.
proof fn lemma_take_next<T>(s: Seq<T>, t: int, c: T)
    requires
        0 <= t < s.len(),
    ensures
        s.take(t + 1).contains(c) <==> (s.take(t).contains(c) || c == s[t]),
        s.no_duplicates() ==> !s.take(t).contains(s[t]),
{
    let pre = s.take(t);
    let post = s.take(t + 1);
    if pre.contains(c) {
        let i = choose|i: int| 0 <= i < pre.len() && pre[i] == c;
        assert(post[i] == c);
    }
    if c == s[t] {
        assert(post[t] == c);
    }
    if post.contains(c) {
        let i = choose|i: int| 0 <= i < post.len() && post[i] == c;
        if i < t {
            assert(pre[i] == c);
        }
    }
    if s.no_duplicates() && pre.contains(s[t]) {
        let i = choose|i: int| 0 <= i < pre.len() && pre[i] == s[t];
        assert(s[i] == s[t]);
    }
}

impl SpatialIndex {
    /// The tables agree with each other.
    pub closed spec fn wf(&self) -> bool {
        &&& self@.valid()
        &&& forall|cx: int, cy: int|
            is_cell(cx, cy) ==> #[trigger] cell_in_step(self.grid@, self@, cx, cy)
    }

    /// The grid's table: the handles listed in each cell that holds any, by
    /// the cell's key.
    pub closed spec fn cells(&self) -> Map<i64, Vec<u32>> {
        self.grid@
    }

    /// In an index that is in order, each cell of the grid lists just the
    /// handles whose box reaches into it, in the order in which they came;
    /// and a cell into which no box reaches has no entry.
    pub proof fn lemma_wf_cells(&self, cx: int, cy: int)
        requires
            self.wf(),
            is_cell(cx, cy),
        ensures
            cell_in_step(self.cells(), self@, cx, cy),
    {
    }

    /// An index that is in order holds a valid model.
    pub proof fn lemma_wf_is_valid(&self)
        requires
            self.wf(),
        ensures
            self@.valid(),
    {
    }

    /// An empty index. The capacity is a hint for the tables' first size.
    pub fn new(capacity: usize) -> (index: SpatialIndex)
        ensures
            index.wf(),
            index@ == IndexModel::empty(),
    {
        let grid_capacity = if capacity <= usize::MAX / 4 {
            capacity * 4
        } else {
            usize::MAX
        };
        let index = SpatialIndex {
            nodes: HashMap::with_capacity(capacity),
            grid: HashMap::with_capacity(grid_capacity),
            order: Ghost(Seq::empty()),
        };
        proof {
            assert forall|cx: int, cy: int| is_cell(cx, cy) implies #[trigger] cell_in_step(
                index.grid@,
                index@,
                cx,
                cy,
            ) by {
                reveal(Seq::filter);
            }
        }
        index
    }

    /// The number of nodes.
    pub fn len(&self) -> (n: usize)
        requires
            self.wf(),
        ensures
            n == self@.nodes.len(),
            n == self@.order.len(),
    {
        proof {
            self@.order.unique_seq_to_set();
            assert(self@.order.to_set() =~= self@.nodes.dom());
        }
        self.nodes.len()
    }

    /// Takes every node out.
    pub fn clear(&mut self)
        ensures
            final(self).wf(),
            final(self)@ == IndexModel::empty(),
            final(self)@.nodes.len() == 0,
    {
        self.nodes.clear();
        self.grid.clear();
        self.order = Ghost(Seq::empty());
        proof {
            assert forall|cx: int, cy: int| is_cell(cx, cy) implies #[trigger] cell_in_step(
                self.grid@,
                self@,
                cx,
                cy,
            ) by {
                reveal(Seq::filter);
            }
        }
    }

    /// The box of a node, if the index holds it.
    pub fn get_bounds(&self, handle: u32) -> (bounds: Option<(Scalar, Scalar, Scalar, Scalar)>)
        ensures
            bounds == if self@.nodes.contains_key(handle) {
                let n = self@.nodes[handle];
                Some((n.min_x, n.min_y, n.max_x, n.max_y))
            } else {
                None
            },
    {
        match self.nodes.get(&handle) {
            Some(n) => Some((n.min_x, n.min_y, n.max_x, n.max_y)),
            None => None,
        }
    }

    /// The cell that holds a point.
    pub fn world_to_cell(&self, x: Scalar, y: Scalar) -> (cell: (i32, i32))
        ensures
            cell.0 == cell_coord(x),
            cell.1 == cell_coord(y),
    {
        let size = Scalar::from_bits(GRID_CELL_SIZE);
        (x.div(size).floor_to_i32(), y.div(size).floor_to_i32())
    }

    /// The cells that a box reaches into, each once, row by row.
    fn compute_cells(&self, min_x: Scalar, min_y: Scalar, max_x: Scalar, max_y: Scalar) -> (cells:
        Vec<(i32, i32)>)
        ensures
            cells@.no_duplicates(),
            forall|c: (i32, i32)|
                cells@.contains(c) <==> (cell_coord(min_x) <= c.0 <= cell_coord(max_x) && cell_coord(
                    min_y,
                ) <= c.1 <= cell_coord(max_y)),
    {
        let (min_cell_x, min_cell_y) = self.world_to_cell(min_x, min_y);
        let (max_cell_x, max_cell_y) = self.world_to_cell(max_x, max_y);
        let mut cells: Vec<(i32, i32)> = Vec::new();
        let mut cy: i64 = min_cell_y as i64;
        while cy <= max_cell_y as i64
            invariant
                min_cell_y <= cy <= max_cell_y + 1 || (cy == min_cell_y && min_cell_y > max_cell_y),
                cells@.no_duplicates(),
                forall|c: (i32, i32)|
                    cells@.contains(c) <==> (min_cell_x <= c.0 <= max_cell_x && min_cell_y <= c.1
                        < cy),
            decreases max_cell_y + 1 - cy,
        {
            let mut cx: i64 = min_cell_x as i64;
            while cx <= max_cell_x as i64
                invariant
                    min_cell_y <= cy <= max_cell_y,
                    min_cell_x <= cx <= max_cell_x + 1 || (cx == min_cell_x && min_cell_x
                        > max_cell_x),
                    cells@.no_duplicates(),
                    forall|c: (i32, i32)|
                        cells@.contains(c) <==> ((min_cell_x <= c.0 <= max_cell_x && min_cell_y
                            <= c.1 < cy) || (c.1 == cy && min_cell_x <= c.0 < cx)),
                decreases max_cell_x + 1 - cx,
            {
                let cell = (cx as i32, cy as i32);
                let ghost before = cells@;
                cells.push(cell);
                proof {
                    assert(!before.contains(cell));
                    assert(cells@.take(before.len() as int) =~= before);
                    assert(cells@.take(before.len() as int + 1) =~= cells@);
                    assert forall|c: (i32, i32)|
                        cells@.contains(c) <==> ((min_cell_x <= c.0 <= max_cell_x && min_cell_y
                            <= c.1 < cy) || (c.1 == cy && min_cell_x <= c.0 < cx + 1)) by {
                        lemma_take_next(cells@, before.len() as int, c);
                        assert(c == cell <==> (c.0 == cell.0 && c.1 == cell.1));
                        assert(before.contains(c) <==> ((min_cell_x <= c.0 <= max_cell_x
                            && min_cell_y <= c.1 < cy) || (c.1 == cy && min_cell_x <= c.0 < cx)));
                    }
                    assert forall|i: int, j: int|
                        0 <= i < cells@.len() && 0 <= j < cells@.len() && i != j implies cells@[i]
                        != cells@[j] by {
                        if i < before.len() {
                            assert(before.contains(before[i]));
                        }
                        if j < before.len() {
                            assert(before.contains(before[j]));
                        }
                    }
                }
                cx += 1;
            }
            cy += 1;
        }
        cells
    }

    /// Takes a node out of the index. Nothing happens if it is not there.
    pub fn remove(&mut self, handle: u32)
        requires
            old(self).wf(),
        ensures
            final(self).wf(),
            final(self)@ == old(self)@.remove(handle),
    {
        let ghost before = self@;
        proof {
            lemma_remove_valid(before, handle);
        }
        if let Some(node_data) = self.nodes.remove(&handle) {
            let cells = self.compute_cells(
                node_data.min_x,
                node_data.min_y,
                node_data.max_x,
                node_data.max_y,
            );
            let ghost after = before.remove(handle);
            self.order = Ghost(after.order);
            proof {
                assert(self@ == after);
                assert forall|cx: int, cy: int| is_cell(cx, cy) implies #[trigger] removal_step(
                    self.grid@,
                    before,
                    handle,
                    cells@.take(0),
                    cx,
                    cy,
                ) by {
                    assert(cell_in_step(self.grid@, before, cx, cy));
                    if !covers(node_data, cx, cy) {
                        // the node was not listed here
                        lemma_members_after_remove(before, handle, cx, cy);
                        let members = before.members(cx, cy);
                        assert forall|i: int| 0 <= i < members.len() implies differs_from(handle)(
                            #[trigger] members[i],
                        ) by {
                            assert(members.contains(members[i]));
                            lemma_filter_members(
                                before.order,
                                covering(before.nodes, cx, cy),
                                members[i],
                            );
                        }
                        crate::index_model::lemma_filter_all(members, differs_from(handle));
                    }
                }
            }
            let mut t: usize = 0;
            while t < cells.len()
                invariant
                    t <= cells.len(),
                    before.valid(),
                    before.nodes.contains_key(handle),
                    before.nodes[handle] == node_data,
                    cells@.no_duplicates(),
                    forall|c: (i32, i32)|
                        cells@.contains(c) <==> covers(node_data, c.0 as int, c.1 as int),
                    forall|cx: int, cy: int|
                        is_cell(cx, cy) ==> #[trigger] removal_step(
                            self.grid@,
                            before,
                            handle,
                            cells@.take(t as int),
                            cx,
                            cy,
                        ),
                    self@ == before.remove(handle),
                decreases cells.len() - t,
            {
                let cell = cells[t];
                let key = key_of(cell.0, cell.1);
                let ghost grid0 = self.grid@;
                proof {
                    assert(cells@.contains(cell));
                    lemma_take_next(cells@, t as int, cell);
                    assert(removal_step(
                        grid0,
                        before,
                        handle,
                        cells@.take(t as int),
                        cell.0 as int,
                        cell.1 as int,
                    ));
                    // the node is listed in this cell
                    lemma_filter_members(
                        before.order,
                        covering(before.nodes, cell.0 as int, cell.1 as int),
                        handle,
                    );
                    lemma_members_after_remove(before, handle, cell.0 as int, cell.1 as int);
                }
                let listed = self.grid.remove(&key);
                match listed {
                    Some(handles) => {
                        let kept = without(&handles, handle);
                        if kept.len() > 0 {
                            self.grid.insert(key, kept);
                        }
                    },
                    None => {},
                }
                proof {
                    assert forall|cx: int, cy: int| is_cell(cx, cy) implies #[trigger] removal_step(
                        self.grid@,
                        before,
                        handle,
                        cells@.take(t + 1),
                        cx,
                        cy,
                    ) by {
                        lemma_cell_key_injective(cx, cy, cell.0 as int, cell.1 as int);
                        lemma_take_next(cells@, t as int, (cx as i32, cy as i32));
                        assert(removal_step(grid0, before, handle, cells@.take(t as int), cx, cy));
                    }
                }
                t += 1;
            }
            proof {
                assert(cells@.take(t as int) =~= cells@);
                assert forall|cx: int, cy: int| is_cell(cx, cy) implies #[trigger] cell_in_step(
                    self.grid@,
                    self@,
                    cx,
                    cy,
                ) by {
                    assert(removal_step(self.grid@, before, handle, cells@, cx, cy));
                    let c = (cx as i32, cy as i32);
                    assert(cells@.contains(c) <==> covers(node_data, c.0 as int, c.1 as int));
                }
            }
        } else {
            proof {
                assert(self@ == before);
            }
        }
    }

    /// Puts a node into the index, in place of the one that has its handle,
    /// if there is one.
    pub fn upsert(
        &mut self,
        handle: u32,
        min_x: Scalar,
        min_y: Scalar,
        max_x: Scalar,
        max_y: Scalar,
        z_index: i32,
    )
        requires
            old(self).wf(),
        ensures
            final(self).wf(),
            final(self)@ == old(self)@.upsert(
                handle,
                NodeData { min_x, min_y, max_x, max_y, z_index },
            ),
    {
        if self.nodes.contains_key(&handle) {
            self.remove(handle);
        }
        let ghost base = self@;
        let node_data = NodeData { min_x, min_y, max_x, max_y, z_index };
        proof {
            lemma_remove_valid(old(self)@, handle);
            assert(base == old(self)@.remove(handle));
            lemma_upsert_valid(old(self)@, handle, node_data);
            lemma_remove_valid(base, handle);
            assert(base.upsert(handle, node_data) == old(self)@.upsert(handle, node_data));
        }
        let cells = self.compute_cells(min_x, min_y, max_x, max_y);
        proof {
            assert forall|cx: int, cy: int| is_cell(cx, cy) implies #[trigger] insertion_step(
                self.grid@,
                base,
                handle,
                node_data,
                cells@.take(0),
                cx,
                cy,
            ) by {
                assert(cell_in_step(self.grid@, base, cx, cy));
                lemma_members_after_push(base, handle, node_data, cx, cy);
            }
        }
        let mut t: usize = 0;
        while t < cells.len()
            invariant
                t <= cells.len(),
                base.valid(),
                !base.nodes.contains_key(handle),
                cells@.no_duplicates(),
                forall|c: (i32, i32)|
                    cells@.contains(c) <==> covers(node_data, c.0 as int, c.1 as int),
                forall|cx: int, cy: int|
                    is_cell(cx, cy) ==> #[trigger] insertion_step(
                        self.grid@,
                        base,
                        handle,
                        node_data,
                        cells@.take(t as int),
                        cx,
                        cy,
                    ),
                self@ == base,
            decreases cells.len() - t,
        {
            let cell = cells[t];
            let key = key_of(cell.0, cell.1);
            let ghost grid0 = self.grid@;
            proof {
                assert(cells@.contains(cell));
                lemma_take_next(cells@, t as int, cell);
                assert(insertion_step(
                    grid0,
                    base,
                    handle,
                    node_data,
                    cells@.take(t as int),
                    cell.0 as int,
                    cell.1 as int,
                ));
                lemma_members_after_push(base, handle, node_data, cell.0 as int, cell.1 as int);
            }
            let listed = self.grid.remove(&key);
            let mut handles = match listed {
                Some(handles) => handles,
                None => Vec::new(),
            };
            proof {
                assert(handles@ =~= base.members(cell.0 as int, cell.1 as int));
            }
            handles.push(handle);
            self.grid.insert(key, handles);
            proof {
                assert forall|cx: int, cy: int| is_cell(cx, cy) implies #[trigger] insertion_step(
                    self.grid@,
                    base,
                    handle,
                    node_data,
                    cells@.take(t + 1),
                    cx,
                    cy,
                ) by {
                    lemma_cell_key_injective(cx, cy, cell.0 as int, cell.1 as int);
                    lemma_take_next(cells@, t as int, (cx as i32, cy as i32));
                    assert(insertion_step(
                        grid0,
                        base,
                        handle,
                        node_data,
                        cells@.take(t as int),
                        cx,
                        cy,
                    ));
                }
            }
            t += 1;
        }
        self.nodes.insert(handle, node_data);
        self.order = Ghost(base.order.push(handle));
        proof {
            assert(cells@.take(t as int) =~= cells@);
            assert(self@.nodes =~= base.upsert(handle, node_data).nodes);
            assert(self@ == base.upsert(handle, node_data));
            assert forall|cx: int, cy: int| is_cell(cx, cy) implies #[trigger] cell_in_step(
                self.grid@,
                self@,
                cx,
                cy,
            ) by {
                assert(insertion_step(self.grid@, base, handle, node_data, cells@, cx, cy));
                let c = (cx as i32, cy as i32);
                assert(cells@.contains(c) <==> covers(node_data, c.0 as int, c.1 as int));
            }
        }
    }

    /// The nodes whose box holds the point, topmost first; nodes of one
    /// z-index in the order in which they came.
    pub fn query_point(&self, x: Scalar, y: Scalar) -> (hits: Vec<u32>)
        requires
            self.wf(),
        ensures
            hits@ == self@.point_query(x, y),
            hits@.no_duplicates(),
            forall|h: u32|
                hits@.contains(h) <==> (self@.nodes.contains_key(h) && holds_point(
                    self@.nodes[h],
                    x,
                    y,
                )),
            forall|i: int, j: int|
                0 <= i < j < hits@.len() ==> self@.nodes[hits@[i]].z_index
                    >= self@.nodes[hits@[j]].z_index,
    {
        let cell = self.world_to_cell(x, y);
        let key = key_of(cell.0, cell.1);
        let ghost model = self@;
        let ghost members = model.members(cell.0 as int, cell.1 as int);
        proof {
            assert(cell_in_step(self.grid@, model, cell.0 as int, cell.1 as int));
            lemma_point_query(model, x, y);
            lemma_point_hits_in_cell(model, x, y);
        }

        let mut found: Vec<(u32, i32)> = Vec::new();
        match self.grid.get(&key) {
            Some(handles) => {
                let mut i: usize = 0;
                while i < handles.len()
                    invariant
                        i <= handles.len(),
                        handles@ == members,
                        model == self@,
                        model.valid(),
                        members == model.members(cell.0 as int, cell.1 as int),
                        found@ == with_z(
                            model.nodes,
                            members.take(i as int).filter(holding(model.nodes, x, y)),
                        ),
                    decreases handles.len() - i,
                {
                    let handle = handles[i];
                    proof {
                        assert(members.contains(handle));
                        lemma_filter_members(
                            model.order,
                            covering(model.nodes, cell.0 as int, cell.1 as int),
                            handle,
                        );
                        assert(members.take(i + 1) =~= members.take(i as int).push(handle));
                        members.take(i as int).lemma_filter_push(handle, holding(model.nodes, x, y));
                    }
                    let ghost before = found@;
                    match self.nodes.get(&handle) {
                        Some(node) => {
                            if x.ge(node.min_x) && x.le(node.max_x) && y.ge(node.min_y) && y.le(
                                node.max_y,
                            ) {
                                found.push((handle, node.z_index));
                            }
                        },
                        None => {},
                    }
                    proof {
                        assert(found@ =~= with_z(
                            model.nodes,
                            members.take(i + 1).filter(holding(model.nodes, x, y)),
                        ));
                    }
                    i += 1;
                }
                proof {
                    assert(members.take(i as int) =~= members);
                }
            },
            None => {
                proof {
                    reveal(Seq::filter);
                    assert(members.filter(holding(model.nodes, x, y)) =~= Seq::<u32>::empty());
                    assert(found@ =~= with_z(model.nodes, model.point_hits(x, y)));
                }
            },
        }

        // by falling z-index; hits of one z-index stay as they are
        let mut sorted: Vec<(u32, i32)> = Vec::new();
        let mut k: usize = 0;
        while k < found.len()
            invariant
                k <= found.len(),
                sorted@ == sort_by_z(found@.take(k as int)),
            decreases found.len() - k,
        {
            let hit = found[k];
            proof {
                lemma_sort_by_z(found@.take(k as int));
                assert(found@.take(k + 1).drop_last() =~= found@.take(k as int));
            }
            let mut pos: usize = sorted.len();
            while pos > 0 && sorted[pos - 1].1 < hit.1
                invariant
                    pos <= sorted.len(),
                    forall|n: int| pos <= n < sorted.len() ==> sorted@[n].1 < hit.1,
                decreases pos,
            {
                pos -= 1;
            }
            proof {
                lemma_insert_by_z_at(sorted@, hit, pos as int);
            }
            sorted.insert(pos, hit);
            k += 1;
        }
        proof {
            assert(found@.take(k as int) =~= found@);
        }

        let mut hits: Vec<u32> = Vec::new();
        let mut n: usize = 0;
        while n < sorted.len()
            invariant
                n <= sorted.len(),
                hits@ == handles_of(sorted@.take(n as int)),
            decreases sorted.len() - n,
        {
            hits.push(sorted[n].0);
            n += 1;
            proof {
                assert(hits@ =~= handles_of(sorted@.take(n as int)));
            }
        }
        proof {
            assert(sorted@.take(n as int) =~= sorted@);
        }
        hits
    }

    /// Looks at one handle of a cell: a handle that was not seen before is
    /// taken where its box is not apart from the rectangle.
    fn visit_handle(
        &self,
        handle: u32,
        seen: &mut HashSet<u32>,
        candidates: &mut Vec<u32>,
        min_x: Scalar,
        min_y: Scalar,
        max_x: Scalar,
        max_y: Scalar,
    )
        requires
            self@.nodes.contains_key(handle),
            gathered(self@, old(seen)@, old(candidates)@, min_x, min_y, max_x, max_y),
        ensures
            final(seen)@ == old(seen)@.insert(handle),
            gathered(self@, final(seen)@, final(candidates)@, min_x, min_y, max_x, max_y),
    {
        let ghost before = candidates@;
        if seen.insert(handle) {
            match self.nodes.get(&handle) {
                Some(node) => {
                    if !(node.max_x.lt(min_x) || node.min_x.gt(max_x) || node.max_y.lt(min_y)
                        || node.min_y.gt(max_y)) {
                        candidates.push(handle);
                        proof {
                            assert(candidates@.take(before.len() as int) =~= before);
                            assert(candidates@.take(before.len() as int + 1) =~= candidates@);
                            assert forall|h: u32|
                                candidates@.contains(h) <==> (before.contains(h) || h
                                    == handle) by {
                                lemma_take_next(candidates@, before.len() as int, h);
                            }
                            assert forall|i: int, j: int|
                                0 <= i < candidates@.len() && 0 <= j < candidates@.len() && i
                                    != j implies candidates@[i] != candidates@[j] by {
                                if i < before.len() {
                                    assert(before.contains(before[i]));
                                }
                                if j < before.len() {
                                    assert(before.contains(before[j]));
                                }
                            }
                        }
                    }
                },
                None => {},
            }
        }
    }

    /// Looks at the handles of one cell.
    fn visit_cell(
        &self,
        cell: (i32, i32),
        seen: &mut HashSet<u32>,
        candidates: &mut Vec<u32>,
        min_x: Scalar,
        min_y: Scalar,
        max_x: Scalar,
        max_y: Scalar,
    )
        requires
            self.wf(),
            gathered(self@, old(seen)@, old(candidates)@, min_x, min_y, max_x, max_y),
        ensures
            gathered(self@, final(seen)@, final(candidates)@, min_x, min_y, max_x, max_y),
            forall|h: u32|
                final(seen)@.contains(h) <==> (old(seen)@.contains(h) || (self@.nodes.contains_key(
                    h,
                ) && covers(self@.nodes[h], cell.0 as int, cell.1 as int))),
    {
        let key = key_of(cell.0, cell.1);
        let ghost members = self@.members(cell.0 as int, cell.1 as int);
        proof {
            assert(cell_in_step(self.grid@, self@, cell.0 as int, cell.1 as int));
            assert forall|h: u32|
                members.contains(h) <==> (self@.nodes.contains_key(h) && covers(
                    self@.nodes[h],
                    cell.0 as int,
                    cell.1 as int,
                )) by {
                lemma_filter_members(
                    self@.order,
                    covering(self@.nodes, cell.0 as int, cell.1 as int),
                    h,
                );
            }
        }
        match self.grid.get(&key) {
            Some(handles) => {
                let mut u: usize = 0;
                while u < handles.len()
                    invariant
                        u <= handles.len(),
                        handles@ == members,
                        forall|h: u32|
                            members.contains(h) ==> self@.nodes.contains_key(h),
                        gathered(self@, seen@, candidates@, min_x, min_y, max_x, max_y),
                        forall|h: u32|
                            seen@.contains(h) <==> (old(seen)@.contains(h) || members.take(
                                u as int,
                            ).contains(h)),
                    decreases handles.len() - u,
                {
                    let handle = handles[u];
                    proof {
                        assert(members.contains(handle));
                        assert forall|h: u32|
                            members.take(u + 1).contains(h) <==> (members.take(u as int).contains(
                                h,
                            ) || h == handle) by {
                            lemma_take_next(members, u as int, h);
                        }
                    }
                    self.visit_handle(handle, seen, candidates, min_x, min_y, max_x, max_y);
                    u += 1;
                }
                proof {
                    assert(members.take(u as int) =~= members);
                }
            },
            None => {
                proof {
                    assert forall|h: u32| !members.contains(h) by {
                        if members.contains(h) {
                            assert(members.len() > 0);
                        }
                    }
                }
            },
        }
        proof {
            assert forall|h: u32|
                seen@.contains(h) <==> (old(seen)@.contains(h) || (self@.nodes.contains_key(h)
                    && covers(self@.nodes[h], cell.0 as int, cell.1 as int))) by {
                lemma_filter_members(
                    self@.order,
                    covering(self@.nodes, cell.0 as int, cell.1 as int),
                    h,
                );
                self.lemma_wf_is_valid();
            }
        }
    }

    /// The nodes whose box is not apart from the rectangle, each once, in no
    /// stated order.
    pub fn query_rect(&self, min_x: Scalar, min_y: Scalar, max_x: Scalar, max_y: Scalar) -> (candidates:
        Vec<u32>)
        requires
            self.wf(),
        ensures
            candidates@.no_duplicates(),
            forall|h: u32|
                candidates@.contains(h) <==> self@.rect_hit(h, min_x, min_y, max_x, max_y),
            is_proper(min_x, min_y, max_x, max_y) ==> forall|h: u32|
                self@.nodes.contains_key(h) && is_proper(
                    self@.nodes[h].min_x,
                    self@.nodes[h].min_y,
                    self@.nodes[h].max_x,
                    self@.nodes[h].max_y,
                ) && meets_rect(self@.nodes[h], min_x, min_y, max_x, max_y)
                    ==> #[trigger] candidates@.contains(h),
    {
        let cells = self.compute_cells(min_x, min_y, max_x, max_y);
        let mut candidates: Vec<u32> = Vec::new();
        let mut seen: HashSet<u32> = HashSet::new();

        let mut t: usize = 0;
        while t < cells.len()
            invariant
                t <= cells.len(),
                self.wf(),
                gathered(self@, seen@, candidates@, min_x, min_y, max_x, max_y),
                forall|h: u32|
                    seen@.contains(h) <==> (self@.nodes.contains_key(h) && reaches_one_of(
                        self@.nodes[h],
                        cells@.take(t as int),
                    )),
            decreases cells.len() - t,
        {
            let cell = cells[t];
            let ghost seen0 = seen@;
            self.visit_cell(cell, &mut seen, &mut candidates, min_x, min_y, max_x, max_y);
            proof {
                assert forall|h: u32|
                    seen@.contains(h) <==> (self@.nodes.contains_key(h) && reaches_one_of(
                        self@.nodes[h],
                        cells@.take(t + 1),
                    )) by {
                    if self@.nodes.contains_key(h) {
                        lemma_reaches_next(self@.nodes[h], cells@, t as int);
                    }
                }
            }
            t += 1;
        }
        proof {
            assert(cells@.take(t as int) =~= cells@);
            assert forall|h: u32|
                candidates@.contains(h) <==> self@.rect_hit(h, min_x, min_y, max_x, max_y) by {
                if self@.nodes.contains_key(h) {
                    lemma_reaches_shared_cell(self@.nodes[h], cells@, min_x, min_y, max_x, max_y);
                }
            }
            if is_proper(min_x, min_y, max_x, max_y) {
                assert forall|h: u32|
                    self@.nodes.contains_key(h) && is_proper(
                        self@.nodes[h].min_x,
                        self@.nodes[h].min_y,
                        self@.nodes[h].max_x,
                        self@.nodes[h].max_y,
                    ) && meets_rect(
                        self@.nodes[h],
                        min_x,
                        min_y,
                        max_x,
                        max_y,
                    ) implies #[trigger] candidates@.contains(h) by {
                    lemma_rect_query_finds(self@, h, min_x, min_y, max_x, max_y);
                }
            }
        }
        candidates
    }

    /// The nodes whose box is not apart from the square of half-side
    /// `radius` around the point.
    pub fn query_near(&self, x: Scalar, y: Scalar, radius: Scalar) -> (candidates: Vec<u32>)
        requires
            self.wf(),
        ensures
            candidates@.no_duplicates(),
            forall|h: u32|
                candidates@.contains(h) <==> self@.rect_hit(
                    h,
                    x.spec_sub(radius),
                    y.spec_sub(radius),
                    x.spec_add(radius),
                    y.spec_add(radius),
                ),
    {
        self.query_rect(x.sub(radius), y.sub(radius), x.add(radius), y.add(radius))
    }
}

/// What one more cell does to `reaches_one_of`.
proof fn lemma_reaches_next(data: NodeData, cells: Seq<(i32, i32)>, t: int)
    requires
        0 <= t < cells.len(),
    ensures
        reaches_one_of(data, cells.take(t + 1)) <==> (reaches_one_of(data, cells.take(t)) || covers(
            data,
            cells[t].0 as int,
            cells[t].1 as int,
        )),
{
    let pre = cells.take(t);
    let post = cells.take(t + 1);
    if reaches_one_of(data, pre) {
        let u = choose|u: int|
            0 <= u < pre.len() && covers(data, #[trigger] pre[u].0 as int, pre[u].1 as int);
        assert(covers(data, post[u].0 as int, post[u].1 as int));
    }
    if covers(data, cells[t].0 as int, cells[t].1 as int) {
        assert(covers(data, post[t].0 as int, post[t].1 as int));
    }
    if reaches_one_of(data, post) {
        let u = choose|u: int|
            0 <= u < post.len() && covers(data, #[trigger] post[u].0 as int, post[u].1 as int);
        if u < t {
            assert(covers(data, pre[u].0 as int, pre[u].1 as int));
        }
    }
}

} // verus!
