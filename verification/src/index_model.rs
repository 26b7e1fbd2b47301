//! The mathematical model of the spatial index: which nodes it holds, in
//! which order they came, and which grid cells each of them covers.
use crate::binary32::{lemma_div_monotonic, lemma_floor_monotonic, Scalar};
use vstd::prelude::*;

verus! {

/// The bits of 256, the side of a grid cell in world units.
pub const GRID_CELL_SIZE: u32 = 0x4380_0000;

/// What the index keeps of a node: its box and its place in the z-order.
#[derive(Clone, Copy, Debug)]
pub struct NodeData {
    pub min_x: Scalar,
    pub min_y: Scalar,
    pub max_x: Scalar,
    pub max_y: Scalar,
    pub z_index: i32,
}

/// The index of the grid column (or row) that holds the coordinate `x`: the
/// floor of `x / 256`, both steps as binary32 arithmetic does them.
pub open spec fn cell_coord(x: Scalar) -> int {
    x.spec_div(Scalar { bits: GRID_CELL_SIZE }).spec_floor_i32() as int
}

/// Cell indices are 32-bit integers.
pub open spec fn is_cell(cx: int, cy: int) -> bool {
    -0x8000_0000 <= cx < 0x8000_0000 && -0x8000_0000 <= cy < 0x8000_0000
}

/// The one 64-bit key of the cell `(cx, cy)`.
pub open spec fn cell_key(cx: int, cy: int) -> int {
    cx * 0x1_0000_0000 + cy + 0x8000_0000
}

/// The box of `data` reaches into the cell `(cx, cy)`.
pub open spec fn covers(data: NodeData, cx: int, cy: int) -> bool {
    &&& cell_coord(data.min_x) <= cx <= cell_coord(data.max_x)
    &&& cell_coord(data.min_y) <= cy <= cell_coord(data.max_y)
}

/// The point lies in the closed box of `data`.
pub open spec fn holds_point(data: NodeData, x: Scalar, y: Scalar) -> bool {
    &&& x.spec_ge(data.min_x)
    &&& x.spec_le(data.max_x)
    &&& y.spec_ge(data.min_y)
    &&& y.spec_le(data.max_y)
}

/// The closed box of `data` and the closed box `(min_x, min_y, max_x, max_y)`
/// are not apart along either axis.
pub open spec fn meets_rect(
    data: NodeData,
    min_x: Scalar,
    min_y: Scalar,
    max_x: Scalar,
    max_y: Scalar,
) -> bool {
    !(data.max_x.spec_lt(min_x) || data.min_x.spec_gt(max_x) || data.max_y.spec_lt(min_y)
        || data.min_y.spec_gt(max_y))
}

/// Two ranges of cells, neither empty, with a cell in common.
pub open spec fn ranges_meet(a_lo: int, a_hi: int, b_lo: int, b_hi: int) -> bool {
    a_lo <= a_hi && b_lo <= b_hi && a_lo <= b_hi && b_lo <= a_hi
}

/// The box of `data` and the box `(min_x, min_y, max_x, max_y)` have a grid
/// cell in common.
pub open spec fn shares_cell(
    data: NodeData,
    min_x: Scalar,
    min_y: Scalar,
    max_x: Scalar,
    max_y: Scalar,
) -> bool {
    &&& ranges_meet(
        cell_coord(data.min_x),
        cell_coord(data.max_x),
        cell_coord(min_x),
        cell_coord(max_x),
    )
    &&& ranges_meet(
        cell_coord(data.min_y),
        cell_coord(data.max_y),
        cell_coord(min_y),
        cell_coord(max_y),
    )
}

/// The handles other than `h`.
pub open spec fn differs_from(h: u32) -> spec_fn(u32) -> bool {
    |x: u32| x != h
}

/// The handles whose box reaches into the cell `(cx, cy)`.
pub open spec fn covering(nodes: Map<u32, NodeData>, cx: int, cy: int) -> spec_fn(u32) -> bool {
    |h: u32| nodes.contains_key(h) && covers(nodes[h], cx, cy)
}

/// The handles whose closed box holds the point.
pub open spec fn holding(nodes: Map<u32, NodeData>, x: Scalar, y: Scalar) -> spec_fn(u32) -> bool {
    |h: u32| nodes.contains_key(h) && holds_point(nodes[h], x, y)
}

/// The nodes of an index, and the order in which they came: a handle that is
/// upserted again goes to the end.
pub struct IndexModel {
    pub order: Seq<u32>,
    pub nodes: Map<u32, NodeData>,
}

impl IndexModel {
    /// Each handle stands once in the order, and the order holds just the
    /// handles that have data.
    pub open spec fn valid(self) -> bool {
        &&& self.order.no_duplicates()
        &&& forall|h: u32| self.order.contains(h) <==> self.nodes.contains_key(h)
    }

    /// The model without nodes.
    pub open spec fn empty() -> IndexModel {
        IndexModel { order: Seq::empty(), nodes: Map::empty() }
    }

    /// The model without the handle `h`.
    pub open spec fn remove(self, h: u32) -> IndexModel {
        IndexModel { order: self.order.filter(differs_from(h)), nodes: self.nodes.remove(h) }
    }

    /// The model with `h` put at the end of the order, with the data given.
    pub open spec fn upsert(self, h: u32, data: NodeData) -> IndexModel {
        IndexModel {
            order: self.order.filter(differs_from(h)).push(h),
            nodes: self.nodes.insert(h, data),
        }
    }

    /// The handles whose box reaches into the cell `(cx, cy)`, in order.
    pub open spec fn members(self, cx: int, cy: int) -> Seq<u32> {
        self.order.filter(covering(self.nodes, cx, cy))
    }

    /// The handles whose closed box holds the point, in order.
    pub open spec fn point_hits(self, x: Scalar, y: Scalar) -> Seq<u32> {
        self.order.filter(holding(self.nodes, x, y))
    }

    /// Whether a rectangle query returns `h`: its box shares a grid cell with
    /// the rectangle, and the two are not apart.
    pub open spec fn rect_hit(
        self,
        h: u32,
        min_x: Scalar,
        min_y: Scalar,
        max_x: Scalar,
        max_y: Scalar,
    ) -> bool {
        &&& self.nodes.contains_key(h)
        &&& shares_cell(self.nodes[h], min_x, min_y, max_x, max_y)
        &&& meets_rect(self.nodes[h], min_x, min_y, max_x, max_y)
    }
}

/// Predicates that agree on a sequence's elements select the same of them.
pub proof fn lemma_filter_congruent(s: Seq<u32>, p: spec_fn(u32) -> bool, q: spec_fn(u32) -> bool)
    requires
        forall|i: int| 0 <= i < s.len() ==> p(#[trigger] s[i]) == q(s[i]),
    ensures
        s.filter(p) == s.filter(q),
    decreases s.len(),
{
    reveal(Seq::filter);
    if s.len() > 0 {
        lemma_filter_congruent(s.drop_last(), p, q);
    }
}

/// A predicate that holds of every element selects them all.
pub proof fn lemma_filter_all(s: Seq<u32>, p: spec_fn(u32) -> bool)
    requires
        forall|i: int| 0 <= i < s.len() ==> p(#[trigger] s[i]),
    ensures
        s.filter(p) == s,
    decreases s.len(),
{
    reveal(Seq::filter);
    if s.len() > 0 {
        lemma_filter_all(s.drop_last(), p);
        assert(s.drop_last().push(s.last()) =~= s);
    }
}

/// What stands in a selection: the elements that the predicate holds of.
pub proof fn lemma_filter_members(s: Seq<u32>, p: spec_fn(u32) -> bool, x: u32)
    ensures
        s.filter(p).contains(x) <==> (s.contains(x) && p(x)),
    decreases s.len(),
{
    reveal(Seq::filter);
    if s.len() > 0 {
        let t = s.drop_last();
        lemma_filter_members(t, p, x);
        let f = t.filter(p);
        if s.contains(x) {
            let i = choose|i: int| 0 <= i < s.len() && s[i] == x;
            if i < t.len() {
                assert(t[i] == x);
            }
        }
        if t.contains(x) {
            let i = choose|i: int| 0 <= i < t.len() && t[i] == x;
            assert(s[i] == x);
        }
        if p(s.last()) {
            let g = f.push(s.last());
            assert(g[g.len() - 1] == s.last());
            if f.contains(x) {
                let i = choose|i: int| 0 <= i < f.len() && f[i] == x;
                assert(g[i] == x);
            }
            if g.contains(x) {
                let i = choose|i: int| 0 <= i < g.len() && g[i] == x;
                if i < f.len() {
                    assert(f[i] == x);
                }
            }
        }
        assert(s[s.len() - 1] == s.last());
    }
}

/// A selection from a sequence without duplicates has none.
pub proof fn lemma_filter_no_duplicates(s: Seq<u32>, p: spec_fn(u32) -> bool)
    requires
        s.no_duplicates(),
    ensures
        s.filter(p).no_duplicates(),
    decreases s.len(),
{
    reveal(Seq::filter);
    if s.len() > 0 {
        let t = s.drop_last();
        lemma_filter_no_duplicates(t, p);
        lemma_filter_members(t, p, s.last());
        if t.contains(s.last()) {
            let i = choose|i: int| 0 <= i < t.len() && t[i] == s.last();
            assert(s[i] == s[s.len() - 1]);
        }
    }
}

/// Selecting twice selects by either order of the two predicates.
pub proof fn lemma_filter_commutes(s: Seq<u32>, p: spec_fn(u32) -> bool, q: spec_fn(u32) -> bool)
    ensures
        s.filter(p).filter(q) == s.filter(q).filter(p),
    decreases s.len(),
{
    reveal(Seq::filter);
    if s.len() > 0 {
        let t = s.drop_last();
        let a = s.last();
        lemma_filter_commutes(t, p, q);
        assert(t.push(a) =~= s);
        t.lemma_filter_push(a, p);
        t.lemma_filter_push(a, q);
        t.filter(p).lemma_filter_push(a, q);
        t.filter(q).lemma_filter_push(a, p);
    }
}

/// Removal keeps the model valid, takes the handle out of the order, and
/// changes nothing where the handle was not there.
pub proof fn lemma_remove_valid(m: IndexModel, h: u32)
    requires
        m.valid(),
    ensures
        m.remove(h).valid(),
        !m.remove(h).order.contains(h),
        !m.nodes.contains_key(h) ==> m.remove(h) == m,
{
    lemma_filter_no_duplicates(m.order, differs_from(h));
    assert forall|x: u32| m.remove(h).order.contains(x) <==> m.remove(h).nodes.contains_key(
        x,
    ) by {
        lemma_filter_members(m.order, differs_from(h), x);
    }
    lemma_filter_members(m.order, differs_from(h), h);
    if !m.nodes.contains_key(h) {
        assert forall|i: int| 0 <= i < m.order.len() implies differs_from(h)(
            #[trigger] m.order[i],
        ) by {
            assert(m.order.contains(m.order[i]));
        }
        lemma_filter_all(m.order, differs_from(h));
        assert(m.nodes.remove(h) =~= m.nodes);
    }
}

/// An upsert keeps the model valid; it is a removal and then a push.
pub proof fn lemma_upsert_valid(m: IndexModel, h: u32, data: NodeData)
    requires
        m.valid(),
    ensures
        m.upsert(h, data).valid(),
        m.upsert(h, data).order == m.remove(h).order.push(h),
        m.upsert(h, data).nodes == m.remove(h).nodes.insert(h, data),
{
    lemma_remove_valid(m, h);
    let base = m.remove(h).order;
    let next = base.push(h);
    assert(m.nodes.remove(h).insert(h, data) =~= m.nodes.insert(h, data));
    assert forall|x: u32| next.contains(x) <==> m.nodes.insert(h, data).contains_key(x) by {
        assert(next[next.len() - 1] == h);
        if base.contains(x) {
            let i = choose|i: int| 0 <= i < base.len() && base[i] == x;
            assert(next[i] == x);
        }
        if next.contains(x) && x != h {
            let i = choose|i: int| 0 <= i < next.len() && next[i] == x;
            assert(base[i] == x);
        }
    }
    assert forall|i: int, j: int| 0 <= i < next.len() && 0 <= j < next.len() && i != j implies next[i]
        != next[j] by {
        if i < base.len() {
            assert(base.contains(base[i]));
        }
        if j < base.len() {
            assert(base.contains(base[j]));
        }
    }
}

/// Taking `h` out of the model takes it out of every cell, and changes
/// nothing else there.
pub proof fn lemma_members_after_remove(m: IndexModel, h: u32, cx: int, cy: int)
    requires
        m.valid(),
    ensures
        m.remove(h).members(cx, cy) == m.members(cx, cy).filter(differs_from(h)),
{
    let out = m.order.filter(differs_from(h));
    assert forall|i: int| 0 <= i < out.len() implies covering(m.nodes.remove(h), cx, cy)(
        #[trigger] out[i],
    ) == covering(m.nodes, cx, cy)(out[i]) by {
        assert(out.contains(out[i]));
        lemma_filter_members(m.order, differs_from(h), out[i]);
    }
    lemma_filter_congruent(out, covering(m.nodes.remove(h), cx, cy), covering(m.nodes, cx, cy));
    lemma_filter_commutes(m.order, differs_from(h), covering(m.nodes, cx, cy));
}

/// Putting a new handle at the end of the model puts it at the end of the
/// cells that its box covers, and changes nothing else there.
pub proof fn lemma_members_after_push(m: IndexModel, h: u32, data: NodeData, cx: int, cy: int)
    requires
        m.valid(),
        !m.nodes.contains_key(h),
    ensures
        m.upsert(h, data).members(cx, cy) == if covers(data, cx, cy) {
            m.members(cx, cy).push(h)
        } else {
            m.members(cx, cy)
        },
{
    lemma_remove_valid(m, h);
    let nodes2 = m.nodes.insert(h, data);
    assert forall|i: int| 0 <= i < m.order.len() implies covering(nodes2, cx, cy)(
        #[trigger] m.order[i],
    ) == covering(m.nodes, cx, cy)(m.order[i]) by {
        assert(m.order.contains(m.order[i]));
    }
    lemma_filter_congruent(m.order, covering(nodes2, cx, cy), covering(m.nodes, cx, cy));
    m.order.lemma_filter_push(h, covering(nodes2, cx, cy));
}

/// Different cells have different keys, and every key is in the 64-bit range.
pub proof fn lemma_cell_key_injective(cx1: int, cy1: int, cx2: int, cy2: int)
    requires
        is_cell(cx1, cy1),
        is_cell(cx2, cy2),
    ensures
        -0x8000_0000_0000_0000 <= cell_key(cx1, cy1) < 0x8000_0000_0000_0000,
        cell_key(cx1, cy1) == cell_key(cx2, cy2) ==> cx1 == cx2 && cy1 == cy2,
{
}

/// A hit of a point query: a handle and its z-index.
pub type Hit = (u32, i32);

/// `sorted` with `hit` put behind the last hit whose z-index is not below
/// its own.
pub open spec fn insert_by_z(sorted: Seq<Hit>, hit: Hit) -> Seq<Hit>
    decreases sorted.len(),
{
    if sorted.len() == 0 || sorted.last().1 >= hit.1 {
        sorted.push(hit)
    } else {
        insert_by_z(sorted.drop_last(), hit).push(sorted.last())
    }
}

/// The hits by falling z-index; hits of one z-index keep their order.
pub open spec fn sort_by_z(hits: Seq<Hit>) -> Seq<Hit>
    decreases hits.len(),
{
    if hits.len() == 0 {
        Seq::empty()
    } else {
        insert_by_z(sort_by_z(hits.drop_last()), hits.last())
    }
}

/// Each handle with its z-index.
pub open spec fn with_z(nodes: Map<u32, NodeData>, handles: Seq<u32>) -> Seq<Hit> {
    Seq::new(handles.len(), |i: int| (handles[i], nodes[handles[i]].z_index))
}

/// The handles of the hits.
pub open spec fn handles_of(hits: Seq<Hit>) -> Seq<u32> {
    Seq::new(hits.len(), |i: int| hits[i].0)
}

/// Falling, not strictly, in z-index.
pub open spec fn z_falls(hits: Seq<Hit>) -> bool {
    forall|i: int, j: int| 0 <= i < j < hits.len() ==> hits[i].1 >= hits[j].1
}

impl IndexModel {
    /// What a point query returns: the hits, topmost first.
    pub open spec fn point_query(self, x: Scalar, y: Scalar) -> Seq<u32> {
        handles_of(sort_by_z(with_z(self.nodes, self.point_hits(x, y))))
    }
}

/// Where the insertion puts the hit: at `pos`, when all before `pos` have a
/// z-index not below the hit's and all from `pos` on have one below it.
pub proof fn lemma_insert_by_z_at(sorted: Seq<Hit>, hit: Hit, pos: int)
    requires
        0 <= pos <= sorted.len(),
        pos > 0 ==> sorted[pos - 1].1 >= hit.1,
        forall|k: int| pos <= k < sorted.len() ==> sorted[k].1 < hit.1,
    ensures
        insert_by_z(sorted, hit) == sorted.insert(pos, hit),
    decreases sorted.len() - pos,
{
    if pos == sorted.len() {
        assert(sorted.insert(pos, hit) =~= sorted.push(hit));
    } else {
        lemma_insert_by_z_at(sorted.drop_last(), hit, pos);
        assert(sorted.drop_last().insert(pos, hit).push(sorted.last()) =~= sorted.insert(pos, hit));
    }
}

/// Insertion keeps the hits, adds the new one, and keeps the order falling.
pub proof fn lemma_insert_by_z(sorted: Seq<Hit>, hit: Hit)
    requires
        z_falls(sorted),
    ensures
        z_falls(insert_by_z(sorted, hit)),
        insert_by_z(sorted, hit).len() == sorted.len() + 1,
        forall|e: Hit| insert_by_z(sorted, hit).contains(e) <==> (sorted.contains(e) || e == hit),
        handles_of(sorted).no_duplicates() && !handles_of(sorted).contains(hit.0) ==> handles_of(
            insert_by_z(sorted, hit),
        ).no_duplicates(),
        forall|h: u32|
            handles_of(insert_by_z(sorted, hit)).contains(h) <==> (handles_of(sorted).contains(h)
                || h == hit.0),
    decreases sorted.len(),
{
    // find the place, then reason on `Seq::insert`
    let pos = insertion_point(sorted, hit);
    lemma_insertion_point(sorted, hit);
    lemma_insert_by_z_at(sorted, hit, pos);
    let out = sorted.insert(pos, hit);
    assert forall|i: int, j: int| 0 <= i < j < out.len() implies out[i].1 >= out[j].1 by {
        if j < pos {
        } else if j == pos {
            if i < pos && pos > 0 {
                assert(sorted[i].1 >= sorted[pos - 1].1 || i == pos - 1);
            }
        } else {
            if i < pos {
                assert(sorted[i].1 >= sorted[j - 1].1);
            } else if i == pos {
            } else {
                assert(sorted[i - 1].1 >= sorted[j - 1].1);
            }
        }
    }
    assert forall|e: Hit| out.contains(e) <==> (sorted.contains(e) || e == hit) by {
        if sorted.contains(e) {
            let i = choose|i: int| 0 <= i < sorted.len() && sorted[i] == e;
            if i < pos {
                assert(out[i] == e);
            } else {
                assert(out[i + 1] == e);
            }
        }
        if e == hit {
            assert(out[pos] == e);
        }
        if out.contains(e) {
            let i = choose|i: int| 0 <= i < out.len() && out[i] == e;
            if i < pos {
                assert(sorted[i] == e);
            } else if i > pos {
                assert(sorted[i - 1] == e);
            }
        }
    }
    let hs = handles_of(sorted);
    let ho = handles_of(out);
    assert(ho =~= hs.insert(pos, hit.0));
    assert forall|h: u32| ho.contains(h) <==> (hs.contains(h) || h == hit.0) by {
        if hs.contains(h) {
            let i = choose|i: int| 0 <= i < hs.len() && hs[i] == h;
            if i < pos {
                assert(ho[i] == h);
            } else {
                assert(ho[i + 1] == h);
            }
        }
        if h == hit.0 {
            assert(ho[pos] == h);
        }
        if ho.contains(h) {
            let i = choose|i: int| 0 <= i < ho.len() && ho[i] == h;
            if i < pos {
                assert(hs[i] == h);
            } else if i > pos {
                assert(hs[i - 1] == h);
            }
        }
    }
    if hs.no_duplicates() && !hs.contains(hit.0) {
        assert forall|i: int, j: int| 0 <= i < ho.len() && 0 <= j < ho.len() && i != j implies ho[i]
            != ho[j] by {
            let a = if i < pos {
                i
            } else {
                i - 1
            };
            let b = if j < pos {
                j
            } else {
                j - 1
            };
            if i != pos {
                assert(hs.contains(hs[a]));
            }
            if j != pos {
                assert(hs.contains(hs[b]));
            }
        }
    }
}

/// The place at which `insert_by_z` puts a hit into a falling sequence.
pub open spec fn insertion_point(sorted: Seq<Hit>, hit: Hit) -> int
    decreases sorted.len(),
{
    if sorted.len() == 0 || sorted.last().1 >= hit.1 {
        sorted.len() as int
    } else {
        insertion_point(sorted.drop_last(), hit)
    }
}

/// What stands before and behind the insertion point.
pub proof fn lemma_insertion_point(sorted: Seq<Hit>, hit: Hit)
    requires
        z_falls(sorted),
    ensures
        0 <= insertion_point(sorted, hit) <= sorted.len(),
        insertion_point(sorted, hit) > 0 ==> sorted[insertion_point(sorted, hit) - 1].1 >= hit.1,
        forall|k: int| insertion_point(sorted, hit) <= k < sorted.len() ==> sorted[k].1 < hit.1,
    decreases sorted.len(),
{
    if sorted.len() == 0 || sorted.last().1 >= hit.1 {
    } else {
        lemma_insertion_point(sorted.drop_last(), hit);
        let p = insertion_point(sorted.drop_last(), hit);
        assert forall|k: int| p <= k < sorted.len() implies sorted[k].1 < hit.1 by {
            if k < sorted.len() - 1 {
                assert(sorted.drop_last()[k].1 < hit.1);
            }
        }
        if p > 0 {
            assert(sorted.drop_last()[p - 1] == sorted[p - 1]);
        }
    }
}

/// Sorting keeps the hits and brings them into falling order.
pub proof fn lemma_sort_by_z(hits: Seq<Hit>)
    ensures
        z_falls(sort_by_z(hits)),
        sort_by_z(hits).len() == hits.len(),
        forall|e: Hit| sort_by_z(hits).contains(e) <==> hits.contains(e),
        forall|h: u32| handles_of(sort_by_z(hits)).contains(h) <==> handles_of(hits).contains(h),
        handles_of(hits).no_duplicates() ==> handles_of(sort_by_z(hits)).no_duplicates(),
    decreases hits.len(),
{
    if hits.len() > 0 {
        let rest = hits.drop_last();
        let last = hits.last();
        lemma_sort_by_z(rest);
        lemma_insert_by_z(sort_by_z(rest), last);
        assert forall|e: Hit| hits.contains(e) <==> (rest.contains(e) || e == last) by {
            if rest.contains(e) {
                let i = choose|i: int| 0 <= i < rest.len() && rest[i] == e;
                assert(hits[i] == e);
            }
            if e == last {
                assert(hits[hits.len() - 1] == e);
            }
            if hits.contains(e) {
                let i = choose|i: int| 0 <= i < hits.len() && hits[i] == e;
                if i < rest.len() {
                    assert(rest[i] == e);
                }
            }
        }
        let hh = handles_of(hits);
        let hr = handles_of(rest);
        assert(hr =~= hh.drop_last());
        assert forall|h: u32| hh.contains(h) <==> (hr.contains(h) || h == last.0) by {
            if hr.contains(h) {
                let i = choose|i: int| 0 <= i < hr.len() && hr[i] == h;
                assert(hh[i] == h);
            }
            if h == last.0 {
                assert(hh[hh.len() - 1] == h);
            }
            if hh.contains(h) {
                let i = choose|i: int| 0 <= i < hh.len() && hh[i] == h;
                if i < hr.len() {
                    assert(hr[i] == h);
                }
            }
        }
        if hh.no_duplicates() {
            assert(hr.no_duplicates());
            if hr.contains(last.0) {
                let i = choose|i: int| 0 <= i < hr.len() && hr[i] == last.0;
                assert(hh[i] == hh[hh.len() - 1]);
            }
        }
    } else {
        assert(handles_of(sort_by_z(hits)) =~= handles_of(hits));
    }
}

/// What a point query returns: each node whose closed box holds the point,
/// once, by falling z-index.
pub proof fn lemma_point_query(m: IndexModel, x: Scalar, y: Scalar)
    requires
        m.valid(),
    ensures
        m.point_query(x, y).no_duplicates(),
        m.point_query(x, y).len() == m.point_hits(x, y).len(),
        forall|h: u32|
            m.point_query(x, y).contains(h) <==> (m.nodes.contains_key(h) && holds_point(
                m.nodes[h],
                x,
                y,
            )),
        forall|i: int, j: int|
            0 <= i < j < m.point_query(x, y).len() ==> m.nodes[m.point_query(x, y)[i]].z_index
                >= m.nodes[m.point_query(x, y)[j]].z_index,
{
    let hits = m.point_hits(x, y);
    let zs = with_z(m.nodes, hits);
    let sorted = sort_by_z(zs);
    lemma_filter_no_duplicates(m.order, holding(m.nodes, x, y));
    assert(handles_of(zs) =~= hits);
    lemma_sort_by_z(zs);
    assert forall|h: u32|
        m.point_query(x, y).contains(h) <==> (m.nodes.contains_key(h) && holds_point(
            m.nodes[h],
            x,
            y,
        )) by {
        lemma_filter_members(m.order, holding(m.nodes, x, y), h);
    }
    assert forall|i: int, j: int| 0 <= i < j < m.point_query(x, y).len() implies m.nodes[m.point_query(
        x,
        y,
    )[i]].z_index >= m.nodes[m.point_query(x, y)[j]].z_index by {
        assert(sorted.contains(sorted[i]));
        assert(sorted.contains(sorted[j]));
        lemma_with_z_pairs(m.nodes, hits, sorted[i]);
        lemma_with_z_pairs(m.nodes, hits, sorted[j]);
        assert(sorted[i].1 >= sorted[j].1);
        assert(m.point_query(x, y)[i] == sorted[i].0);
        assert(m.point_query(x, y)[j] == sorted[j].0);
    }
}

/// Each pair of `with_z` holds a handle and that handle's z-index.
pub proof fn lemma_with_z_pairs(nodes: Map<u32, NodeData>, handles: Seq<u32>, e: Hit)
    requires
        with_z(nodes, handles).contains(e),
    ensures
        e.1 == nodes[e.0].z_index,
        handles.contains(e.0),
{
    let zs = with_z(nodes, handles);
    let a = choose|a: int| 0 <= a < zs.len() && zs[a] == e;
    assert(handles[a] == e.0);
}

/// The box of `data` reaches into one of the cells of `done`.
pub open spec fn reaches_one_of(data: NodeData, done: Seq<(i32, i32)>) -> bool {
    exists|u: int| 0 <= u < done.len() && covers(data, #[trigger] done[u].0 as int, done[u].1 as int)
}

/// A box reaches into one of the cells of a rectangle just when the two share
/// a cell.
pub proof fn lemma_reaches_shared_cell(
    data: NodeData,
    cells: Seq<(i32, i32)>,
    min_x: Scalar,
    min_y: Scalar,
    max_x: Scalar,
    max_y: Scalar,
)
    requires
        forall|c: (i32, i32)|
            cells.contains(c) <==> (cell_coord(min_x) <= c.0 <= cell_coord(max_x) && cell_coord(
                min_y,
            ) <= c.1 <= cell_coord(max_y)),
    ensures
        reaches_one_of(data, cells) <==> shares_cell(data, min_x, min_y, max_x, max_y),
{
    if reaches_one_of(data, cells) {
        let u = choose|u: int|
            0 <= u < cells.len() && covers(data, #[trigger] cells[u].0 as int, cells[u].1 as int);
        assert(cells.contains(cells[u]));
    }
    if shares_cell(data, min_x, min_y, max_x, max_y) {
        let cx = if cell_coord(data.min_x) >= cell_coord(min_x) {
            cell_coord(data.min_x)
        } else {
            cell_coord(min_x)
        };
        let cy = if cell_coord(data.min_y) >= cell_coord(min_y) {
            cell_coord(data.min_y)
        } else {
            cell_coord(min_y)
        };
        let c = (cx as i32, cy as i32);
        assert(cells.contains(c));
        let u = choose|u: int| 0 <= u < cells.len() && cells[u] == c;
        assert(covers(data, cells[u].0 as int, cells[u].1 as int));
    }
}

/// A coordinate that is not below another lies in a cell that is not below
/// the other's.
pub proof fn lemma_cell_coord_monotonic(a: Scalar, b: Scalar)
    requires
        a.spec_le(b),
    ensures
        cell_coord(a) <= cell_coord(b),
{
    lemma_div_monotonic(a.bits, b.bits, GRID_CELL_SIZE);
    lemma_floor_monotonic(
        a.spec_div(Scalar { bits: GRID_CELL_SIZE }).bits,
        b.spec_div(Scalar { bits: GRID_CELL_SIZE }).bits,
    );
}

/// A box with `min <= max` along both axes, neither a NaN.
pub open spec fn is_proper(min_x: Scalar, min_y: Scalar, max_x: Scalar, max_y: Scalar) -> bool {
    min_x.spec_le(max_x) && min_y.spec_le(max_y)
}

/// A box that holds a point reaches into the point's cell.
pub proof fn lemma_holder_covers_cell(data: NodeData, x: Scalar, y: Scalar)
    requires
        holds_point(data, x, y),
    ensures
        covers(data, cell_coord(x), cell_coord(y)),
{
    lemma_cell_coord_monotonic(data.min_x, x);
    lemma_cell_coord_monotonic(x, data.max_x);
    lemma_cell_coord_monotonic(data.min_y, y);
    lemma_cell_coord_monotonic(y, data.max_y);
}

/// The nodes whose box holds a point are found among those of the point's
/// cell.
pub proof fn lemma_point_hits_in_cell(m: IndexModel, x: Scalar, y: Scalar)
    requires
        m.valid(),
    ensures
        m.members(cell_coord(x), cell_coord(y)).filter(holding(m.nodes, x, y)) == m.point_hits(x, y),
{
    let cov = covering(m.nodes, cell_coord(x), cell_coord(y));
    let hold = holding(m.nodes, x, y);
    lemma_filter_commutes(m.order, cov, hold);
    let hits = m.order.filter(hold);
    assert forall|i: int| 0 <= i < hits.len() implies cov(#[trigger] hits[i]) by {
        assert(hits.contains(hits[i]));
        lemma_filter_members(m.order, hold, hits[i]);
        lemma_holder_covers_cell(m.nodes[hits[i]], x, y);
    }
    lemma_filter_all(hits, cov);
}

/// A point query at a point of a node's closed box returns the node: inside
/// the box, on its edge, at its corner, and at the one point of a box without
/// area.
pub proof fn lemma_point_query_finds(m: IndexModel, h: u32, x: Scalar, y: Scalar)
    requires
        m.valid(),
        m.nodes.contains_key(h),
        holds_point(m.nodes[h], x, y),
    ensures
        m.point_query(x, y).contains(h),
{
    lemma_point_query(m, x, y);
}

/// A rectangle query returns each node whose box is not apart from the
/// rectangle, where both are proper boxes, however many cells they span.
pub proof fn lemma_rect_query_finds(
    m: IndexModel,
    h: u32,
    min_x: Scalar,
    min_y: Scalar,
    max_x: Scalar,
    max_y: Scalar,
)
    requires
        m.valid(),
        m.nodes.contains_key(h),
        is_proper(m.nodes[h].min_x, m.nodes[h].min_y, m.nodes[h].max_x, m.nodes[h].max_y),
        is_proper(min_x, min_y, max_x, max_y),
        meets_rect(m.nodes[h], min_x, min_y, max_x, max_y),
    ensures
        m.rect_hit(h, min_x, min_y, max_x, max_y),
{
    let d = m.nodes[h];
    lemma_cell_coord_monotonic(d.min_x, d.max_x);
    lemma_cell_coord_monotonic(d.min_y, d.max_y);
    lemma_cell_coord_monotonic(min_x, max_x);
    lemma_cell_coord_monotonic(min_y, max_y);
    // not apart, and no NaN among them: each box starts before the other ends
    lemma_cell_coord_monotonic(min_x, d.max_x);
    lemma_cell_coord_monotonic(d.min_x, max_x);
    lemma_cell_coord_monotonic(min_y, d.max_y);
    lemma_cell_coord_monotonic(d.min_y, max_y);
}

/// Upserting a node and removing it again leaves the index as it is without
/// that handle: where the handle was new, as it was before, with as many
/// nodes; and no point query returns the handle.
pub proof fn lemma_upsert_then_remove(m: IndexModel, h: u32, data: NodeData, x: Scalar, y: Scalar)
    requires
        m.valid(),
    ensures
        m.upsert(h, data).remove(h) == m.remove(h),
        !m.nodes.contains_key(h) ==> m.upsert(h, data).remove(h) == m,
        !m.upsert(h, data).remove(h).point_query(x, y).contains(h),
{
    lemma_upsert_valid(m, h, data);
    lemma_remove_valid(m, h);
    let base = m.remove(h);
    let up = m.upsert(h, data);
    base.order.lemma_filter_push(h, differs_from(h));
    assert forall|i: int| 0 <= i < base.order.len() implies differs_from(h)(
        #[trigger] base.order[i],
    ) by {
        assert(base.order.contains(base.order[i]));
    }
    lemma_filter_all(base.order, differs_from(h));
    assert(up.nodes.remove(h) =~= m.nodes.remove(h));
    assert(up.remove(h) == base);
    lemma_point_query(base, x, y);
}

/// Upserting the same node twice is upserting it once.
pub proof fn lemma_upsert_twice(m: IndexModel, h: u32, data: NodeData)
    requires
        m.valid(),
    ensures
        m.upsert(h, data).upsert(h, data) == m.upsert(h, data),
{
    lemma_upsert_then_remove(m, h, data, Scalar { bits: 0 }, Scalar { bits: 0 });
    let up = m.upsert(h, data);
    assert(up.nodes.insert(h, data) =~= up.nodes);
}

/// No handle stands twice in a cell.
pub proof fn lemma_members_no_duplicates(m: IndexModel, cx: int, cy: int)
    requires
        m.valid(),
    ensures
        m.members(cx, cy).no_duplicates(),
{
    lemma_filter_no_duplicates(m.order, covering(m.nodes, cx, cy));
}

} // verus!
