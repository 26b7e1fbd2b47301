//! Smart guides: alignment lines, equal-spacing hints and distances to the
//! nearest neighbours of a node that is being moved.
//!
//! Every function here is pure: it takes the bounds of the moving node and of
//! its siblings (the moving node itself left out by the caller) and returns
//! the guides to draw.
use crate::binary32::Scalar;
use std::collections::HashSet;
use vstd::prelude::*;

verus! {

/// An axis-aligned box as `(min_x, min_y, max_x, max_y)`.
pub type Bounds = (Scalar, Scalar, Scalar, Scalar);

/// The kind of an alignment of the moving node's left edge.
pub const EDGE_LEFT: u8 = 0;

/// The kind of an alignment of the moving node's right edge.
pub const EDGE_RIGHT: u8 = 1;

/// The kind of an alignment of the moving node's top edge.
pub const EDGE_TOP: u8 = 2;

/// The kind of an alignment of the moving node's bottom edge.
pub const EDGE_BOTTOM: u8 = 3;

/// The kind of an alignment of the centers along x.
pub const CENTER_X: u8 = 4;

/// The kind of an alignment of the centers along y.
pub const CENTER_Y: u8 = 5;

/// The bits of the number 2.
pub const TWO: u32 = 0x4000_0000;

/// A line along which the moving node is aligned with siblings.
#[derive(Clone, Copy, Debug)]
pub struct AlignmentGuide {
    /// 0 for a vertical line, 1 for a horizontal one.
    pub guide_type: u8,
    /// Where the line is: the moving node's own coordinate.
    pub position: Scalar,
    /// Which edge or center of the moving node lies on the line.
    pub alignment_type: u8,
    /// How many alignments were found on the line.
    pub node_count: usize,
}

impl AlignmentGuide {
    pub fn guide_type(&self) -> (r: u8)
        ensures
            r == self.guide_type,
    {
        self.guide_type
    }

    pub fn position(&self) -> (r: Scalar)
        ensures
            r == self.position,
    {
        self.position
    }

    pub fn alignment_type(&self) -> (r: u8)
        ensures
            r == self.alignment_type,
    {
        self.alignment_type
    }

    pub fn node_count(&self) -> (r: usize)
        ensures
            r == self.node_count,
    {
        self.node_count
    }
}

/// Two nodes whose gap equals a gap between two siblings.
#[derive(Clone, Copy, Debug)]
pub struct SpacingGuide {
    /// 0 for a horizontal gap, 1 for a vertical one.
    pub guide_type: u8,
    pub from_x: Scalar,
    pub from_y: Scalar,
    pub from_width: Scalar,
    pub from_height: Scalar,
    pub to_x: Scalar,
    pub to_y: Scalar,
    pub to_width: Scalar,
    pub to_height: Scalar,
    pub spacing: Scalar,
}

impl SpacingGuide {
    pub fn guide_type(&self) -> (r: u8)
        ensures
            r == self.guide_type,
    {
        self.guide_type
    }

    pub fn from_x(&self) -> (r: Scalar)
        ensures
            r == self.from_x,
    {
        self.from_x
    }

    pub fn from_y(&self) -> (r: Scalar)
        ensures
            r == self.from_y,
    {
        self.from_y
    }

    pub fn from_width(&self) -> (r: Scalar)
        ensures
            r == self.from_width,
    {
        self.from_width
    }

    pub fn from_height(&self) -> (r: Scalar)
        ensures
            r == self.from_height,
    {
        self.from_height
    }

    pub fn to_x(&self) -> (r: Scalar)
        ensures
            r == self.to_x,
    {
        self.to_x
    }

    pub fn to_y(&self) -> (r: Scalar)
        ensures
            r == self.to_y,
    {
        self.to_y
    }

    pub fn to_width(&self) -> (r: Scalar)
        ensures
            r == self.to_width,
    {
        self.to_width
    }

    pub fn to_height(&self) -> (r: Scalar)
        ensures
            r == self.to_height,
    {
        self.to_height
    }

    pub fn spacing(&self) -> (r: Scalar)
        ensures
            r == self.spacing,
    {
        self.spacing
    }
}

/// The distance from an edge of the moving node to what faces it.
#[derive(Clone, Copy, Debug)]
pub struct DistanceMeasurement {
    pub from_x: Scalar,
    pub from_y: Scalar,
    pub to_x: Scalar,
    pub to_y: Scalar,
    /// 0 for a horizontal ray, 1 for a vertical one.
    pub direction: u8,
    pub distance: Scalar,
}

impl DistanceMeasurement {
    pub fn from_x(&self) -> (r: Scalar)
        ensures
            r == self.from_x,
    {
        self.from_x
    }

    pub fn from_y(&self) -> (r: Scalar)
        ensures
            r == self.from_y,
    {
        self.from_y
    }

    pub fn to_x(&self) -> (r: Scalar)
        ensures
            r == self.to_x,
    {
        self.to_x
    }

    pub fn to_y(&self) -> (r: Scalar)
        ensures
            r == self.to_y,
    {
        self.to_y
    }

    pub fn direction(&self) -> (r: u8)
        ensures
            r == self.direction,
    {
        self.direction
    }

    pub fn distance(&self) -> (r: Scalar)
        ensures
            r == self.distance,
    {
        self.distance
    }
}

/// The midpoint of `lo` and `hi` as the editor computes it: half their
/// rounded sum.
pub open spec fn midpoint(lo: Scalar, hi: Scalar) -> Scalar {
    lo.spec_add(hi).spec_div(Scalar { bits: TWO })
}

/// The center of a box along x.
pub open spec fn center_x(b: Bounds) -> Scalar {
    midpoint(b.0, b.2)
}

/// The center of a box along y.
pub open spec fn center_y(b: Bounds) -> Scalar {
    midpoint(b.1, b.3)
}

/// The width of a box: `max_x - min_x`, rounded.
pub open spec fn width(b: Bounds) -> Scalar {
    b.2.spec_sub(b.0)
}

/// The height of a box: `max_y - min_y`, rounded.
pub open spec fn height(b: Bounds) -> Scalar {
    b.3.spec_sub(b.1)
}

fn midpoint_of(lo: Scalar, hi: Scalar) -> (r: Scalar)
    ensures
        r == midpoint(lo, hi),
{
    lo.add(hi).div(Scalar::from_bits(TWO))
}

// ---------------------------------------------------------------------------
// Alignment
// ---------------------------------------------------------------------------
/// Two coordinates are aligned when they differ by less than the threshold.
pub open spec fn aligned(pos1: Scalar, pos2: Scalar, threshold: Scalar) -> bool {
    pos1.spec_sub(pos2).spec_abs().spec_lt(threshold)
}

/// What is known of one line: the coordinate of the moving node that it goes
/// through, the kind of the first alignment found on it, and the number of
/// alignments found on it.
#[derive(Clone, Copy, Debug)]
pub struct Tally {
    pub key: u32,
    pub kind: u8,
    pub count: usize,
}

/// The first index at which `key` stands in `entries`, or -1.
pub open spec fn key_index(entries: Seq<Tally>, key: u32) -> int
    decreases entries.len(),
{
    if entries.len() == 0 {
        -1
    } else {
        let before = key_index(entries.drop_last(), key);
        if before >= 0 {
            before
        } else if entries.last().key == key {
            entries.len() - 1
        } else {
            -1
        }
    }
}

/// One more, as far as the machine word goes.
pub open spec fn bump(count: usize) -> usize {
    if count < usize::MAX {
        (count + 1) as usize
    } else {
        count
    }
}

/// The tally after one comparison of a coordinate of the moving node with one
/// of a sibling. An alignment is keyed by the bits of the moving node's
/// coordinate: a second one at the same bits is counted, and its kind lost.
pub open spec fn note_alignment(
    entries: Seq<Tally>,
    pos1: Scalar,
    pos2: Scalar,
    threshold: Scalar,
    kind: u8,
) -> Seq<Tally> {
    if !aligned(pos1, pos2, threshold) {
        entries
    } else {
        let i = key_index(entries, pos1.bits);
        if i >= 0 {
            entries.update(i, Tally { key: entries[i].key, kind: entries[i].kind, count: bump(entries[i].count) })
        } else {
            entries.push(Tally { key: pos1.bits, kind, count: 1 })
        }
    }
}

/// The five comparisons along x of the moving node with one sibling, in the
/// order in which they are made.
pub open spec fn note_vertical(
    entries: Seq<Tally>,
    moving: Bounds,
    node: Bounds,
    threshold: Scalar,
) -> Seq<Tally> {
    let e1 = note_alignment(entries, moving.0, node.0, threshold, EDGE_LEFT);
    let e2 = note_alignment(e1, moving.2, node.2, threshold, EDGE_RIGHT);
    let e3 = note_alignment(e2, center_x(moving), center_x(node), threshold, CENTER_X);
    let e4 = note_alignment(e3, moving.0, node.2, threshold, EDGE_LEFT);
    note_alignment(e4, moving.2, node.0, threshold, EDGE_RIGHT)
}

/// The five comparisons along y of the moving node with one sibling.
pub open spec fn note_horizontal(
    entries: Seq<Tally>,
    moving: Bounds,
    node: Bounds,
    threshold: Scalar,
) -> Seq<Tally> {
    let e1 = note_alignment(entries, moving.1, node.1, threshold, EDGE_TOP);
    let e2 = note_alignment(e1, moving.3, node.3, threshold, EDGE_BOTTOM);
    let e3 = note_alignment(e2, center_y(moving), center_y(node), threshold, CENTER_Y);
    let e4 = note_alignment(e3, moving.1, node.3, threshold, EDGE_TOP);
    note_alignment(e4, moving.3, node.1, threshold, EDGE_BOTTOM)
}

/// The vertical lines found against `nodes`, in the order in which each was
/// first found.
pub open spec fn vertical_tally(moving: Bounds, nodes: Seq<Bounds>, threshold: Scalar) -> Seq<
    Tally,
>
    decreases nodes.len(),
{
    if nodes.len() == 0 {
        Seq::empty()
    } else {
        note_vertical(
            vertical_tally(moving, nodes.drop_last(), threshold),
            moving,
            nodes.last(),
            threshold,
        )
    }
}

/// The horizontal lines found against `nodes`, in the order in which each was
/// first found.
pub open spec fn horizontal_tally(moving: Bounds, nodes: Seq<Bounds>, threshold: Scalar) -> Seq<
    Tally,
>
    decreases nodes.len(),
{
    if nodes.len() == 0 {
        Seq::empty()
    } else {
        note_horizontal(
            horizontal_tally(moving, nodes.drop_last(), threshold),
            moving,
            nodes.last(),
            threshold,
        )
    }
}

/// The guide for one line.
pub open spec fn guide_of(entry: Tally, guide_type: u8) -> AlignmentGuide {
    AlignmentGuide {
        guide_type,
        position: Scalar { bits: entry.key },
        alignment_type: entry.kind,
        node_count: entry.count,
    }
}

/// The guides for the lines of one axis, in their order.
pub open spec fn guides_of(entries: Seq<Tally>, guide_type: u8) -> Seq<AlignmentGuide> {
    Seq::new(entries.len(), |i: int| guide_of(entries[i], guide_type))
}

/// The alignment guides of `moving` against `nodes`: the vertical lines, then
/// the horizontal ones.
pub open spec fn alignment_guides(moving: Bounds, nodes: Seq<Bounds>, threshold: Scalar) -> Seq<
    AlignmentGuide,
> {
    guides_of(vertical_tally(moving, nodes, threshold), 0) + guides_of(
        horizontal_tally(moving, nodes, threshold),
        1,
    )
}

proof fn lemma_key_index_first(entries: Seq<Tally>, key: u32, i: int)
    requires
        0 <= i < entries.len(),
        entries[i].key == key,
        forall|j: int| 0 <= j < i ==> entries[j].key != key,
    ensures
        key_index(entries, key) == i,
    decreases entries.len(),
{
    if i < entries.len() - 1 {
        lemma_key_index_first(entries.drop_last(), key, i);
    } else {
        lemma_key_index_none(entries.drop_last(), key);
    }
}

proof fn lemma_key_index_none(entries: Seq<Tally>, key: u32)
    requires
        forall|j: int| 0 <= j < entries.len() ==> entries[j].key != key,
    ensures
        key_index(entries, key) == -1,
    decreases entries.len(),
{
    if entries.len() > 0 {
        lemma_key_index_none(entries.drop_last(), key);
    }
}

/// No two entries go through the same coordinate.
pub open spec fn keys_distinct(entries: Seq<Tally>) -> bool {
    forall|i: int, j: int| 0 <= i < j < entries.len() ==> entries[i].key != entries[j].key
}

proof fn lemma_key_index_found(entries: Seq<Tally>, key: u32)
    ensures
        -1 <= key_index(entries, key) < entries.len(),
        key_index(entries, key) >= 0 ==> entries[key_index(entries, key)].key == key,
        key_index(entries, key) < 0 ==> forall|j: int|
            0 <= j < entries.len() ==> entries[j].key != key,
    decreases entries.len(),
{
    if entries.len() > 0 {
        lemma_key_index_found(entries.drop_last(), key);
        if key_index(entries, key) < 0 {
            assert forall|j: int| 0 <= j < entries.len() implies entries[j].key != key by {
                if j < entries.len() - 1 {
                    assert(entries.drop_last()[j].key != key);
                }
            }
        }
    }
}

/// One comparison keeps the entries' coordinates distinct.
pub proof fn lemma_note_alignment_distinct(
    entries: Seq<Tally>,
    pos1: Scalar,
    pos2: Scalar,
    threshold: Scalar,
    kind: u8,
)
    requires
        keys_distinct(entries),
    ensures
        keys_distinct(note_alignment(entries, pos1, pos2, threshold, kind)),
{
    lemma_key_index_found(entries, pos1.bits);
}

/// There is one line for each coordinate of the moving node at which an
/// alignment was found, along either axis.
pub proof fn lemma_tally_keys_distinct(moving: Bounds, nodes: Seq<Bounds>, threshold: Scalar)
    ensures
        keys_distinct(vertical_tally(moving, nodes, threshold)),
        keys_distinct(horizontal_tally(moving, nodes, threshold)),
    decreases nodes.len(),
{
    if nodes.len() > 0 {
        lemma_tally_keys_distinct(moving, nodes.drop_last(), threshold);
        let node = nodes.last();
        let v0 = vertical_tally(moving, nodes.drop_last(), threshold);
        lemma_note_alignment_distinct(v0, moving.0, node.0, threshold, EDGE_LEFT);
        let v1 = note_alignment(v0, moving.0, node.0, threshold, EDGE_LEFT);
        lemma_note_alignment_distinct(v1, moving.2, node.2, threshold, EDGE_RIGHT);
        let v2 = note_alignment(v1, moving.2, node.2, threshold, EDGE_RIGHT);
        lemma_note_alignment_distinct(v2, center_x(moving), center_x(node), threshold, CENTER_X);
        let v3 = note_alignment(v2, center_x(moving), center_x(node), threshold, CENTER_X);
        lemma_note_alignment_distinct(v3, moving.0, node.2, threshold, EDGE_LEFT);
        let v4 = note_alignment(v3, moving.0, node.2, threshold, EDGE_LEFT);
        lemma_note_alignment_distinct(v4, moving.2, node.0, threshold, EDGE_RIGHT);
        let h0 = horizontal_tally(moving, nodes.drop_last(), threshold);
        lemma_note_alignment_distinct(h0, moving.1, node.1, threshold, EDGE_TOP);
        let h1 = note_alignment(h0, moving.1, node.1, threshold, EDGE_TOP);
        lemma_note_alignment_distinct(h1, moving.3, node.3, threshold, EDGE_BOTTOM);
        let h2 = note_alignment(h1, moving.3, node.3, threshold, EDGE_BOTTOM);
        lemma_note_alignment_distinct(h2, center_y(moving), center_y(node), threshold, CENTER_Y);
        let h3 = note_alignment(h2, center_y(moving), center_y(node), threshold, CENTER_Y);
        lemma_note_alignment_distinct(h3, moving.1, node.3, threshold, EDGE_TOP);
        let h4 = note_alignment(h3, moving.1, node.3, threshold, EDGE_TOP);
        lemma_note_alignment_distinct(h4, moving.3, node.1, threshold, EDGE_BOTTOM);
    }
}

/// `lemma_one_guide_per_line`, of all pairs at once.
proof fn lemma_guides_are_distinct_lines(moving: Bounds, nodes: Seq<Bounds>, threshold: Scalar)
    ensures
        forall|i: int, j: int|
            0 <= i < j < alignment_guides(moving, nodes, threshold).len() ==> alignment_guides(
                moving,
                nodes,
                threshold,
            )[i].guide_type != alignment_guides(moving, nodes, threshold)[j].guide_type
                || alignment_guides(moving, nodes, threshold)[i].position != alignment_guides(
                moving,
                nodes,
                threshold,
            )[j].position,
{
    assert forall|i: int, j: int|
        0 <= i < j < alignment_guides(moving, nodes, threshold).len() implies alignment_guides(
        moving,
        nodes,
        threshold,
    )[i].guide_type != alignment_guides(moving, nodes, threshold)[j].guide_type
        || alignment_guides(moving, nodes, threshold)[i].position != alignment_guides(
        moving,
        nodes,
        threshold,
    )[j].position by {
        lemma_one_guide_per_line(moving, nodes, threshold, i, j);
    }
}

/// No two alignment guides are the same line: they differ in axis or in
/// position.
pub proof fn lemma_one_guide_per_line(
    moving: Bounds,
    nodes: Seq<Bounds>,
    threshold: Scalar,
    i: int,
    j: int,
)
    requires
        0 <= i < j < alignment_guides(moving, nodes, threshold).len(),
    ensures
        ({
            let guides = alignment_guides(moving, nodes, threshold);
            guides[i].guide_type != guides[j].guide_type || guides[i].position
                != guides[j].position
        }),
{
    lemma_tally_keys_distinct(moving, nodes, threshold);
}

/// Compares one coordinate of the moving node with one of a sibling and
/// records the alignment, if there is one.
pub fn check_alignment(
    entries: &mut Vec<Tally>,
    pos1: Scalar,
    pos2: Scalar,
    threshold: Scalar,
    align_type: u8,
)
    ensures
        final(entries)@ == note_alignment(old(entries)@, pos1, pos2, threshold, align_type),
{
    if pos1.sub(pos2).abs().lt(threshold) {
        let key = pos1.to_bits();
        let mut i: usize = 0;
        while i < entries.len()
            invariant
                i <= entries.len(),
                entries@ == old(entries)@,
                aligned(pos1, pos2, threshold),
                key == pos1.bits,
                forall|j: int| 0 <= j < i ==> entries@[j].key != key,
            decreases entries.len() - i,
        {
            if entries[i].key == key {
                proof {
                    lemma_key_index_first(entries@, key, i as int);
                }
                let e = entries[i];
                let count = if e.count < usize::MAX {
                    e.count + 1
                } else {
                    e.count
                };
                entries.set(i, Tally { key: e.key, kind: e.kind, count });
                proof {
                    assert(entries@ =~= old(entries)@.update(
                        i as int,
                        Tally { key: e.key, kind: e.kind, count: bump(e.count) },
                    ));
                }
                return ;
            }
            i += 1;
        }
        proof {
            lemma_key_index_none(entries@, key);
        }
        entries.push(Tally { key, kind: align_type, count: 1 });
    }
}

/// Makes the five comparisons along x of the moving node with one sibling.
fn check_vertical(entries: &mut Vec<Tally>, moving: &Bounds, node: &Bounds, threshold: Scalar)
    ensures
        final(entries)@ == note_vertical(old(entries)@, *moving, *node, threshold),
{
    let mid = midpoint_of(moving.0, moving.2);
    let n_mid = midpoint_of(node.0, node.2);
    check_alignment(entries, moving.0, node.0, threshold, EDGE_LEFT);
    check_alignment(entries, moving.2, node.2, threshold, EDGE_RIGHT);
    check_alignment(entries, mid, n_mid, threshold, CENTER_X);
    check_alignment(entries, moving.0, node.2, threshold, EDGE_LEFT);
    check_alignment(entries, moving.2, node.0, threshold, EDGE_RIGHT);
}

/// Makes the five comparisons along y of the moving node with one sibling.
fn check_horizontal(entries: &mut Vec<Tally>, moving: &Bounds, node: &Bounds, threshold: Scalar)
    ensures
        final(entries)@ == note_horizontal(old(entries)@, *moving, *node, threshold),
{
    let mid = midpoint_of(moving.1, moving.3);
    let n_mid = midpoint_of(node.1, node.3);
    check_alignment(entries, moving.1, node.1, threshold, EDGE_TOP);
    check_alignment(entries, moving.3, node.3, threshold, EDGE_BOTTOM);
    check_alignment(entries, mid, n_mid, threshold, CENTER_Y);
    check_alignment(entries, moving.1, node.3, threshold, EDGE_TOP);
    check_alignment(entries, moving.3, node.1, threshold, EDGE_BOTTOM);
}

/// Appends one guide of the given type for each entry.
fn push_guides(guides: &mut Vec<AlignmentGuide>, entries: &Vec<Tally>, guide_type: u8)
    ensures
        final(guides)@ == old(guides)@ + guides_of(entries@, guide_type),
{
    let mut k: usize = 0;
    while k < entries.len()
        invariant
            k <= entries.len(),
            guides@ == old(guides)@ + guides_of(entries@.take(k as int), guide_type),
        decreases entries.len() - k,
    {
        let e = entries[k];
        guides.push(
            AlignmentGuide {
                guide_type,
                position: Scalar::from_bits(e.key),
                alignment_type: e.kind,
                node_count: e.count,
            },
        );
        k += 1;
        proof {
            assert(guides@ =~= old(guides)@ + guides_of(entries@.take(k as int), guide_type));
        }
    }
    proof {
        assert(entries@.take(k as int) =~= entries@);
    }
}

/// The lines along which `moving_bounds` is aligned with some of
/// `all_bounds`: one guide for each position of the moving node at which an
/// alignment was found, the vertical lines first, each group in the order in
/// which its lines were first found.
pub fn calculate_alignment_guides(
    moving_bounds: Bounds,
    all_bounds: &[Bounds],
    threshold: Scalar,
) -> (guides: Vec<AlignmentGuide>)
    ensures
        guides@ == alignment_guides(moving_bounds, all_bounds@, threshold),
        forall|i: int, j: int|
            0 <= i < j < guides@.len() ==> guides@[i].guide_type != guides@[j].guide_type
                || guides@[i].position != guides@[j].position,
{
    let mut vertical_alignments: Vec<Tally> = Vec::new();
    let mut horizontal_alignments: Vec<Tally> = Vec::new();

    let mut i: usize = 0;
    while i < all_bounds.len()
        invariant
            i <= all_bounds.len(),
            vertical_alignments@ == vertical_tally(moving_bounds, all_bounds@.take(i as int), threshold),
            horizontal_alignments@ == horizontal_tally(
                moving_bounds,
                all_bounds@.take(i as int),
                threshold,
            ),
        decreases all_bounds.len() - i,
    {
        let node = all_bounds[i];
        proof {
            assert(all_bounds@.take(i + 1).drop_last() =~= all_bounds@.take(i as int));
            assert(all_bounds@.take(i + 1).last() == node);
        }
        check_vertical(&mut vertical_alignments, &moving_bounds, &node, threshold);
        check_horizontal(&mut horizontal_alignments, &moving_bounds, &node, threshold);
        i += 1;
    }
    proof {
        assert(all_bounds@.take(i as int) =~= all_bounds@);
    }

    let mut guides: Vec<AlignmentGuide> = Vec::new();
    push_guides(&mut guides, &vertical_alignments, 0);
    push_guides(&mut guides, &horizontal_alignments, 1);
    proof {
        assert(guides@ =~= alignment_guides(moving_bounds, all_bounds@, threshold));
        lemma_guides_are_distinct_lines(moving_bounds, all_bounds@, threshold);
    }
    guides
}

// ---------------------------------------------------------------------------
// Spacing
// ---------------------------------------------------------------------------
/// Sibling `b` starts right of where another sibling, `a`, ends, and the gap
/// between them is `gap`, bit for bit. The order in which the two are listed
/// does not matter.
pub open spec fn is_horizontal_gap(nodes: Seq<Bounds>, a: int, b: int, gap: Scalar) -> bool {
    &&& 0 <= a < nodes.len()
    &&& 0 <= b < nodes.len()
    &&& a != b
    &&& nodes[b].0.spec_gt(nodes[a].2)
    &&& nodes[b].0.spec_sub(nodes[a].2) == gap
}

/// Sibling `b` starts below where another sibling, `a`, ends, and the gap
/// between them is `gap`, bit for bit. The order in which the two are listed
/// does not matter.
pub open spec fn is_vertical_gap(nodes: Seq<Bounds>, a: int, b: int, gap: Scalar) -> bool {
    &&& 0 <= a < nodes.len()
    &&& 0 <= b < nodes.len()
    &&& a != b
    &&& nodes[b].1.spec_gt(nodes[a].3)
    &&& nodes[b].1.spec_sub(nodes[a].3) == gap
}

/// Two siblings have the horizontal gap `gap` between them.
pub open spec fn has_horizontal_gap(nodes: Seq<Bounds>, gap: Scalar) -> bool {
    exists|a: int, b: int| is_horizontal_gap(nodes, a, b, gap)
}

/// Two siblings have the vertical gap `gap` between them.
pub open spec fn has_vertical_gap(nodes: Seq<Bounds>, gap: Scalar) -> bool {
    exists|a: int, b: int| is_vertical_gap(nodes, a, b, gap)
}

/// The guide from one box to another, each given by its corner and its size.
pub open spec fn spacing_guide(guide_type: u8, from: Bounds, to: Bounds, spacing: Scalar) -> SpacingGuide {
    SpacingGuide {
        guide_type,
        from_x: from.0,
        from_y: from.1,
        from_width: width(from),
        from_height: height(from),
        to_x: to.0,
        to_y: to.1,
        to_width: width(to),
        to_height: height(to),
        spacing,
    }
}

/// The horizontal guide between the moving node and `node`, if their gap is
/// one that two siblings have.
pub open spec fn horizontal_spacing(moving: Bounds, nodes: Seq<Bounds>, node: Bounds) -> Seq<
    SpacingGuide,
> {
    if node.0.spec_gt(moving.2) {
        let gap = node.0.spec_sub(moving.2);
        if has_horizontal_gap(nodes, gap) {
            seq![spacing_guide(0, moving, node, gap)]
        } else {
            Seq::empty()
        }
    } else if moving.0.spec_gt(node.2) {
        let gap = moving.0.spec_sub(node.2);
        if has_horizontal_gap(nodes, gap) {
            seq![spacing_guide(0, node, moving, gap)]
        } else {
            Seq::empty()
        }
    } else {
        Seq::empty()
    }
}

/// The vertical guide between the moving node and `node`, if their gap is one
/// that two siblings have.
pub open spec fn vertical_spacing(moving: Bounds, nodes: Seq<Bounds>, node: Bounds) -> Seq<
    SpacingGuide,
> {
    if node.1.spec_gt(moving.3) {
        let gap = node.1.spec_sub(moving.3);
        if has_vertical_gap(nodes, gap) {
            seq![spacing_guide(1, moving, node, gap)]
        } else {
            Seq::empty()
        }
    } else if moving.1.spec_gt(node.3) {
        let gap = moving.1.spec_sub(node.3);
        if has_vertical_gap(nodes, gap) {
            seq![spacing_guide(1, node, moving, gap)]
        } else {
            Seq::empty()
        }
    } else {
        Seq::empty()
    }
}

/// The spacing guides against the first `n` siblings.
pub open spec fn spacing_guides_upto(moving: Bounds, nodes: Seq<Bounds>, n: nat) -> Seq<
    SpacingGuide,
>
    decreases n,
{
    if n == 0 {
        Seq::empty()
    } else {
        spacing_guides_upto(moving, nodes, (n - 1) as nat) + horizontal_spacing(
            moving,
            nodes,
            nodes[n - 1],
        ) + vertical_spacing(moving, nodes, nodes[n - 1])
    }
}

/// The spacing guides of `moving` against `nodes`: sibling by sibling, the
/// horizontal guide before the vertical one.
pub open spec fn spacing_guides(moving: Bounds, nodes: Seq<Bounds>) -> Seq<SpacingGuide> {
    spacing_guides_upto(moving, nodes, nodes.len())
}

/// Every spacing guide carries a gap that two siblings have between them,
/// bit for bit, along the guide's own axis.
pub proof fn lemma_spacing_matches_sibling_gap(moving: Bounds, nodes: Seq<Bounds>, n: nat, k: int)
    requires
        n <= nodes.len(),
        0 <= k < spacing_guides_upto(moving, nodes, n).len(),
    ensures
        ({
            let guide = spacing_guides_upto(moving, nodes, n)[k];
            &&& guide.guide_type == 0 || guide.guide_type == 1
            &&& guide.guide_type == 0 ==> has_horizontal_gap(nodes, guide.spacing)
            &&& guide.guide_type == 1 ==> has_vertical_gap(nodes, guide.spacing)
        }),
    decreases n,
{
    if n > 0 {
        let before = spacing_guides_upto(moving, nodes, (n - 1) as nat);
        if k < before.len() {
            lemma_spacing_matches_sibling_gap(moving, nodes, (n - 1) as nat, k);
        }
    }
}

/// Two siblings of which one starts beyond where the other ends have their
/// gap counted, whichever of the two is listed first.
pub proof fn lemma_gap_of_any_pair(nodes: Seq<Bounds>, a: int, b: int)
    requires
        0 <= a < nodes.len(),
        0 <= b < nodes.len(),
        a != b,
    ensures
        nodes[b].0.spec_gt(nodes[a].2) ==> has_horizontal_gap(
            nodes,
            nodes[b].0.spec_sub(nodes[a].2),
        ),
        nodes[b].1.spec_gt(nodes[a].3) ==> has_vertical_gap(nodes, nodes[b].1.spec_sub(nodes[a].3)),
{
    if nodes[b].0.spec_gt(nodes[a].2) {
        assert(is_horizontal_gap(nodes, a, b, nodes[b].0.spec_sub(nodes[a].2)));
    }
    if nodes[b].1.spec_gt(nodes[a].3) {
        assert(is_vertical_gap(nodes, a, b, nodes[b].1.spec_sub(nodes[a].3)));
    }
}

/// Pairs `(a, b)` that the scan has reached when it stands at `(i, j)`: the
/// scan goes through the pairs of an earlier and a later sibling, and looks
/// at each pair both ways round.
pub open spec fn pair_seen(a: int, b: int, i: int, j: int) -> bool {
    let first = if a <= b {
        a
    } else {
        b
    };
    let second = if a <= b {
        b
    } else {
        a
    };
    first < i || (first == i && second < j)
}

/// A pair that the scan has reached has the horizontal gap `gap`.
pub open spec fn horizontal_gap_seen(nodes: Seq<Bounds>, i: int, j: int, gap: Scalar) -> bool {
    exists|a: int, b: int| is_horizontal_gap(nodes, a, b, gap) && pair_seen(a, b, i, j)
}

/// A pair that the scan has reached has the vertical gap `gap`.
pub open spec fn vertical_gap_seen(nodes: Seq<Bounds>, i: int, j: int, gap: Scalar) -> bool {
    exists|a: int, b: int| is_vertical_gap(nodes, a, b, gap) && pair_seen(a, b, i, j)
}

/// The guides between `moving_bounds` and each of `all_bounds` whose gap,
/// along x or along y, equals bit for bit the gap between some two of
/// `all_bounds`, in whichever order those two are listed.
pub fn calculate_spacing_guides(moving_bounds: Bounds, all_bounds: &[Bounds]) -> (guides: Vec<
    SpacingGuide,
>)
    ensures
        guides@ == spacing_guides(moving_bounds, all_bounds@),
        forall|k: int|
            0 <= k < guides@.len() ==> {
                &&& #[trigger] guides@[k].guide_type == 0 ==> has_horizontal_gap(
                    all_bounds@,
                    guides@[k].spacing,
                )
                &&& guides@[k].guide_type == 1 ==> has_vertical_gap(all_bounds@, guides@[k].spacing)
            },
{
    let ghost nodes = all_bounds@;
    let mut horizontal_spacings: HashSet<u32> = HashSet::new();
    let mut vertical_spacings: HashSet<u32> = HashSet::new();

    let mut i: usize = 0;
    while i < all_bounds.len()
        invariant
            i <= all_bounds.len(),
            nodes == all_bounds@,
            forall|g: u32|
                horizontal_spacings@.contains(g) <==> horizontal_gap_seen(
                    nodes,
                    i as int,
                    0,
                    Scalar { bits: g },
                ),
            forall|g: u32|
                vertical_spacings@.contains(g) <==> vertical_gap_seen(
                    nodes,
                    i as int,
                    0,
                    Scalar { bits: g },
                ),
        decreases all_bounds.len() - i,
    {
        let node1 = all_bounds[i];
        let mut j: usize = i + 1;
        proof {
            assert forall|g: u32|
                horizontal_gap_seen(nodes, i as int, 0, Scalar { bits: g })
                    <==> horizontal_gap_seen(nodes, i as int, i + 1, Scalar { bits: g }) by {
                lemma_seen_row_start(nodes, i as int, Scalar { bits: g });
            }
            assert forall|g: u32|
                vertical_gap_seen(nodes, i as int, 0, Scalar { bits: g }) <==> vertical_gap_seen(
                    nodes,
                    i as int,
                    i + 1,
                    Scalar { bits: g },
                ) by {
                lemma_seen_row_start(nodes, i as int, Scalar { bits: g });
            }
        }
        while j < all_bounds.len()
            invariant
                i < all_bounds.len(),
                i < j <= all_bounds.len(),
                nodes == all_bounds@,
                node1 == nodes[i as int],
                forall|g: u32|
                    horizontal_spacings@.contains(g) <==> horizontal_gap_seen(
                        nodes,
                        i as int,
                        j as int,
                        Scalar { bits: g },
                    ),
                forall|g: u32|
                    vertical_spacings@.contains(g) <==> vertical_gap_seen(
                        nodes,
                        i as int,
                        j as int,
                        Scalar { bits: g },
                    ),
            decreases all_bounds.len() - j,
        {
            let node2 = all_bounds[j];
            let ghost h_before = horizontal_spacings@;
            let ghost v_before = vertical_spacings@;
            if node2.0.gt(node1.2) {
                let spacing = node2.0.sub(node1.2);
                horizontal_spacings.insert(spacing.to_bits());
            }
            if node1.0.gt(node2.2) {
                let spacing = node1.0.sub(node2.2);
                horizontal_spacings.insert(spacing.to_bits());
            }
            if node2.1.gt(node1.3) {
                let spacing = node2.1.sub(node1.3);
                vertical_spacings.insert(spacing.to_bits());
            }
            if node1.1.gt(node2.3) {
                let spacing = node1.1.sub(node2.3);
                vertical_spacings.insert(spacing.to_bits());
            }
            proof {
                assert forall|g: u32|
                    horizontal_spacings@.contains(g) <==> horizontal_gap_seen(
                        nodes,
                        i as int,
                        j + 1,
                        Scalar { bits: g },
                    ) by {
                    lemma_seen_step(nodes, i as int, j as int, Scalar { bits: g });
                }
                assert forall|g: u32|
                    vertical_spacings@.contains(g) <==> vertical_gap_seen(
                        nodes,
                        i as int,
                        j + 1,
                        Scalar { bits: g },
                    ) by {
                    lemma_seen_step(nodes, i as int, j as int, Scalar { bits: g });
                }
            }
            j += 1;
        }
        proof {
            assert forall|g: u32|
                horizontal_gap_seen(nodes, i as int, nodes.len() as int, Scalar { bits: g })
                    <==> horizontal_gap_seen(nodes, i + 1, 0, Scalar { bits: g }) by {
                lemma_seen_row_end(nodes, i as int, Scalar { bits: g });
            }
            assert forall|g: u32|
                vertical_gap_seen(nodes, i as int, nodes.len() as int, Scalar { bits: g })
                    <==> vertical_gap_seen(nodes, i + 1, 0, Scalar { bits: g }) by {
                lemma_seen_row_end(nodes, i as int, Scalar { bits: g });
            }
        }
        i += 1;
    }
    proof {
        assert forall|g: u32|
            horizontal_gap_seen(nodes, nodes.len() as int, 0, Scalar { bits: g })
                <==> has_horizontal_gap(nodes, Scalar { bits: g }) by {
            lemma_seen_all(nodes, Scalar { bits: g });
        }
        assert forall|g: u32|
            vertical_gap_seen(nodes, nodes.len() as int, 0, Scalar { bits: g })
                <==> has_vertical_gap(nodes, Scalar { bits: g }) by {
            lemma_seen_all(nodes, Scalar { bits: g });
        }
    }

    let mut guides: Vec<SpacingGuide> = Vec::new();
    let moving = moving_bounds;
    let moving_width = moving.2.sub(moving.0);
    let moving_height = moving.3.sub(moving.1);
    let mut n: usize = 0;
    while n < all_bounds.len()
        invariant
            n <= all_bounds.len(),
            nodes == all_bounds@,
            moving == moving_bounds,
            moving_width == width(moving),
            moving_height == height(moving),
            forall|g: u32|
                horizontal_spacings@.contains(g) <==> has_horizontal_gap(nodes, Scalar { bits: g }),
            forall|g: u32|
                vertical_spacings@.contains(g) <==> has_vertical_gap(nodes, Scalar { bits: g }),
            guides@ == spacing_guides_upto(moving, nodes, n as nat),
        decreases all_bounds.len() - n,
    {
        let node = all_bounds[n];
        let node_width = node.2.sub(node.0);
        let node_height = node.3.sub(node.1);
        let ghost before = guides@;

        if node.0.gt(moving.2) {
            let spacing = node.0.sub(moving.2);
            if horizontal_spacings.contains(&spacing.to_bits()) {
                guides.push(
                    SpacingGuide {
                        guide_type: 0,
                        from_x: moving.0,
                        from_y: moving.1,
                        from_width: moving_width,
                        from_height: moving_height,
                        to_x: node.0,
                        to_y: node.1,
                        to_width: node_width,
                        to_height: node_height,
                        spacing,
                    },
                );
            }
        } else if moving.0.gt(node.2) {
            let spacing = moving.0.sub(node.2);
            if horizontal_spacings.contains(&spacing.to_bits()) {
                guides.push(
                    SpacingGuide {
                        guide_type: 0,
                        from_x: node.0,
                        from_y: node.1,
                        from_width: node_width,
                        from_height: node_height,
                        to_x: moving.0,
                        to_y: moving.1,
                        to_width: moving_width,
                        to_height: moving_height,
                        spacing,
                    },
                );
            }
        }
        proof {
            assert(guides@ =~= before + horizontal_spacing(moving, nodes, node));
        }
        let ghost middle = guides@;

        if node.1.gt(moving.3) {
            let spacing = node.1.sub(moving.3);
            if vertical_spacings.contains(&spacing.to_bits()) {
                guides.push(
                    SpacingGuide {
                        guide_type: 1,
                        from_x: moving.0,
                        from_y: moving.1,
                        from_width: moving_width,
                        from_height: moving_height,
                        to_x: node.0,
                        to_y: node.1,
                        to_width: node_width,
                        to_height: node_height,
                        spacing,
                    },
                );
            }
        } else if moving.1.gt(node.3) {
            let spacing = moving.1.sub(node.3);
            if vertical_spacings.contains(&spacing.to_bits()) {
                guides.push(
                    SpacingGuide {
                        guide_type: 1,
                        from_x: node.0,
                        from_y: node.1,
                        from_width: node_width,
                        from_height: node_height,
                        to_x: moving.0,
                        to_y: moving.1,
                        to_width: moving_width,
                        to_height: moving_height,
                        spacing,
                    },
                );
            }
        }
        proof {
            assert(guides@ =~= middle + vertical_spacing(moving, nodes, node));
        }
        n += 1;
    }
    proof {
        assert forall|k: int| 0 <= k < guides@.len() implies {
            &&& #[trigger] guides@[k].guide_type == 0 ==> has_horizontal_gap(
                nodes,
                guides@[k].spacing,
            )
            &&& guides@[k].guide_type == 1 ==> has_vertical_gap(nodes, guides@[k].spacing)
        } by {
            lemma_spacing_matches_sibling_gap(moving, nodes, nodes.len(), k);
        }
    }
    guides
}

proof fn lemma_seen_row_start(nodes: Seq<Bounds>, i: int, gap: Scalar)
    ensures
        horizontal_gap_seen(nodes, i, 0, gap) <==> horizontal_gap_seen(nodes, i, i + 1, gap),
        vertical_gap_seen(nodes, i, 0, gap) <==> vertical_gap_seen(nodes, i, i + 1, gap),
{
    if horizontal_gap_seen(nodes, i, 0, gap) {
        let (a, b) = choose|a: int, b: int|
            is_horizontal_gap(nodes, a, b, gap) && pair_seen(a, b, i, 0);
        assert(is_horizontal_gap(nodes, a, b, gap) && pair_seen(a, b, i, i + 1));
    }
    if horizontal_gap_seen(nodes, i, i + 1, gap) {
        let (a, b) = choose|a: int, b: int|
            is_horizontal_gap(nodes, a, b, gap) && pair_seen(a, b, i, i + 1);
        assert(is_horizontal_gap(nodes, a, b, gap) && pair_seen(a, b, i, 0));
    }
    if vertical_gap_seen(nodes, i, 0, gap) {
        let (a, b) = choose|a: int, b: int|
            is_vertical_gap(nodes, a, b, gap) && pair_seen(a, b, i, 0);
        assert(is_vertical_gap(nodes, a, b, gap) && pair_seen(a, b, i, i + 1));
    }
    if vertical_gap_seen(nodes, i, i + 1, gap) {
        let (a, b) = choose|a: int, b: int|
            is_vertical_gap(nodes, a, b, gap) && pair_seen(a, b, i, i + 1);
        assert(is_vertical_gap(nodes, a, b, gap) && pair_seen(a, b, i, 0));
    }
}

proof fn lemma_seen_row_end(nodes: Seq<Bounds>, i: int, gap: Scalar)
    ensures
        horizontal_gap_seen(nodes, i, nodes.len() as int, gap) <==> horizontal_gap_seen(
            nodes,
            i + 1,
            0,
            gap,
        ),
        vertical_gap_seen(nodes, i, nodes.len() as int, gap) <==> vertical_gap_seen(
            nodes,
            i + 1,
            0,
            gap,
        ),
{
    let n = nodes.len() as int;
    if horizontal_gap_seen(nodes, i, n, gap) {
        let (a, b) = choose|a: int, b: int|
            is_horizontal_gap(nodes, a, b, gap) && pair_seen(a, b, i, n);
        assert(is_horizontal_gap(nodes, a, b, gap) && pair_seen(a, b, i + 1, 0));
    }
    if horizontal_gap_seen(nodes, i + 1, 0, gap) {
        let (a, b) = choose|a: int, b: int|
            is_horizontal_gap(nodes, a, b, gap) && pair_seen(a, b, i + 1, 0);
        assert(is_horizontal_gap(nodes, a, b, gap) && pair_seen(a, b, i, n));
    }
    if vertical_gap_seen(nodes, i, n, gap) {
        let (a, b) = choose|a: int, b: int|
            is_vertical_gap(nodes, a, b, gap) && pair_seen(a, b, i, n);
        assert(is_vertical_gap(nodes, a, b, gap) && pair_seen(a, b, i + 1, 0));
    }
    if vertical_gap_seen(nodes, i + 1, 0, gap) {
        let (a, b) = choose|a: int, b: int|
            is_vertical_gap(nodes, a, b, gap) && pair_seen(a, b, i + 1, 0);
        assert(is_vertical_gap(nodes, a, b, gap) && pair_seen(a, b, i, n));
    }
}

proof fn lemma_seen_all(nodes: Seq<Bounds>, gap: Scalar)
    ensures
        horizontal_gap_seen(nodes, nodes.len() as int, 0, gap) <==> has_horizontal_gap(nodes, gap),
        vertical_gap_seen(nodes, nodes.len() as int, 0, gap) <==> has_vertical_gap(nodes, gap),
{
    let n = nodes.len() as int;
    if has_horizontal_gap(nodes, gap) {
        let (a, b) = choose|a: int, b: int| is_horizontal_gap(nodes, a, b, gap);
        assert(is_horizontal_gap(nodes, a, b, gap) && pair_seen(a, b, n, 0));
    }
    if has_vertical_gap(nodes, gap) {
        let (a, b) = choose|a: int, b: int| is_vertical_gap(nodes, a, b, gap);
        assert(is_vertical_gap(nodes, a, b, gap) && pair_seen(a, b, n, 0));
    }
}

/// Moving the scan from `(i, j)` to `(i, j + 1)` adds the pair `(i, j)`,
/// both ways round.
proof fn lemma_seen_step(nodes: Seq<Bounds>, i: int, j: int, gap: Scalar)
    requires
        0 <= i < j < nodes.len(),
    ensures
        horizontal_gap_seen(nodes, i, j + 1, gap) <==> (horizontal_gap_seen(nodes, i, j, gap)
            || is_horizontal_gap(nodes, i, j, gap) || is_horizontal_gap(nodes, j, i, gap)),
        vertical_gap_seen(nodes, i, j + 1, gap) <==> (vertical_gap_seen(nodes, i, j, gap)
            || is_vertical_gap(nodes, i, j, gap) || is_vertical_gap(nodes, j, i, gap)),
{
    if horizontal_gap_seen(nodes, i, j + 1, gap) {
        let (a, b) = choose|a: int, b: int|
            is_horizontal_gap(nodes, a, b, gap) && pair_seen(a, b, i, j + 1);
        if !(a == i && b == j) && !(a == j && b == i) {
            assert(is_horizontal_gap(nodes, a, b, gap) && pair_seen(a, b, i, j));
        }
    }
    if horizontal_gap_seen(nodes, i, j, gap) {
        let (a, b) = choose|a: int, b: int|
            is_horizontal_gap(nodes, a, b, gap) && pair_seen(a, b, i, j);
        assert(is_horizontal_gap(nodes, a, b, gap) && pair_seen(a, b, i, j + 1));
    }
    if is_horizontal_gap(nodes, i, j, gap) {
        assert(is_horizontal_gap(nodes, i, j, gap) && pair_seen(i, j, i, j + 1));
    }
    if is_horizontal_gap(nodes, j, i, gap) {
        assert(is_horizontal_gap(nodes, j, i, gap) && pair_seen(j, i, i, j + 1));
    }
    if vertical_gap_seen(nodes, i, j + 1, gap) {
        let (a, b) = choose|a: int, b: int|
            is_vertical_gap(nodes, a, b, gap) && pair_seen(a, b, i, j + 1);
        if !(a == i && b == j) && !(a == j && b == i) {
            assert(is_vertical_gap(nodes, a, b, gap) && pair_seen(a, b, i, j));
        }
    }
    if vertical_gap_seen(nodes, i, j, gap) {
        let (a, b) = choose|a: int, b: int|
            is_vertical_gap(nodes, a, b, gap) && pair_seen(a, b, i, j);
        assert(is_vertical_gap(nodes, a, b, gap) && pair_seen(a, b, i, j + 1));
    }
    if is_vertical_gap(nodes, i, j, gap) {
        assert(is_vertical_gap(nodes, i, j, gap) && pair_seen(i, j, i, j + 1));
    }
    if is_vertical_gap(nodes, j, i, gap) {
        assert(is_vertical_gap(nodes, j, i, gap) && pair_seen(j, i, i, j + 1));
    }
}

// ---------------------------------------------------------------------------
// Distances
// ---------------------------------------------------------------------------
/// A side of the moving node.
#[derive(Clone, Copy, Debug)]
pub enum Side {
    Left,
    Right,
    Top,
    Bottom,
}

/// `outer` covers all of `inner`: such a sibling is a container of the moving
/// node, not a neighbour of it.
pub open spec fn contains_box(outer: Bounds, inner: Bounds) -> bool {
    &&& outer.0.spec_le(inner.0)
    &&& outer.1.spec_le(inner.1)
    &&& outer.2.spec_ge(inner.2)
    &&& outer.3.spec_ge(inner.3)
}

/// The coordinate of the moving node's edge on `side`.
pub open spec fn moving_edge(side: Side, moving: Bounds) -> Scalar {
    match side {
        Side::Left => moving.0,
        Side::Right => moving.2,
        Side::Top => moving.1,
        Side::Bottom => moving.3,
    }
}

/// The coordinate of the edge with which `node` faces the moving node when it
/// lies on `side` of it.
pub open spec fn facing_edge(side: Side, node: Bounds) -> Scalar {
    match side {
        Side::Left => node.2,
        Side::Right => node.0,
        Side::Top => node.3,
        Side::Bottom => node.1,
    }
}

/// The coordinate of the edge on `side` of a parent given as
/// `(x, y, width, height)`.
pub open spec fn parent_edge(side: Side, parent: Bounds) -> Scalar {
    match side {
        Side::Left => parent.0,
        Side::Right => parent.0.spec_add(parent.2),
        Side::Top => parent.1,
        Side::Bottom => parent.1.spec_add(parent.3),
    }
}

/// The distance from the moving node's edge on `side` out to `target`.
pub open spec fn outward(side: Side, moving: Bounds, target: Scalar) -> Scalar {
    match side {
        Side::Left | Side::Top => moving_edge(side, moving).spec_sub(target),
        Side::Right | Side::Bottom => target.spec_sub(moving_edge(side, moving)),
    }
}

/// `node` lies wholly on `side` of the moving node; touching counts.
pub open spec fn lies_on(side: Side, moving: Bounds, node: Bounds) -> bool {
    match side {
        Side::Left | Side::Top => facing_edge(side, node).spec_le(moving_edge(side, moving)),
        Side::Right | Side::Bottom => facing_edge(side, node).spec_ge(moving_edge(side, moving)),
    }
}

/// The nearest neighbour on `side` once `node` has been looked at: `node`
/// replaces `best` when it is a neighbour on that side and strictly nearer.
pub open spec fn nearer(
    best: Option<(Bounds, Scalar)>,
    side: Side,
    moving: Bounds,
    node: Bounds,
) -> Option<(Bounds, Scalar)> {
    let distance = outward(side, moving, facing_edge(side, node));
    if !contains_box(node, moving) && lies_on(side, moving, node) && (best.is_none()
        || distance.spec_lt(best.unwrap().1)) {
        Some((node, distance))
    } else {
        best
    }
}

/// The nearest neighbour on `side` among `nodes`, with its distance: the
/// first of those at the least distance.
pub open spec fn nearest(side: Side, moving: Bounds, nodes: Seq<Bounds>) -> Option<(Bounds, Scalar)>
    decreases nodes.len(),
{
    if nodes.len() == 0 {
        None
    } else {
        nearer(nearest(side, moving, nodes.drop_last()), side, moving, nodes.last())
    }
}

/// `node` is a neighbour of the moving node on `side`: it lies on that side,
/// and is no container of the moving node.
pub open spec fn is_neighbour(side: Side, moving: Bounds, node: Bounds) -> bool {
    !contains_box(node, moving) && lies_on(side, moving, node)
}

/// Where there is a neighbour on a side, one is found, and no neighbour on
/// that side is strictly nearer than the one found.
pub proof fn lemma_nearest_is_least(side: Side, moving: Bounds, nodes: Seq<Bounds>, i: int)
    requires
        0 <= i < nodes.len(),
        is_neighbour(side, moving, nodes[i]),
    ensures
        nearest(side, moving, nodes).is_some(),
        !outward(side, moving, facing_edge(side, nodes[i])).spec_lt(
            nearest(side, moving, nodes).unwrap().1,
        ),
    decreases nodes.len(),
{
    if i < nodes.len() - 1 {
        lemma_nearest_is_least(side, moving, nodes.drop_last(), i);
    }
}

/// What is found on a side is a neighbour on that side, with its distance;
/// and no earlier neighbour is as near.
pub proof fn lemma_nearest_is_a_neighbour(side: Side, moving: Bounds, nodes: Seq<Bounds>)
    requires
        nearest(side, moving, nodes).is_some(),
    ensures
        exists|k: int|
            0 <= k < nodes.len() && #[trigger] nodes[k] == nearest(side, moving, nodes).unwrap().0
                && is_neighbour(side, moving, nodes[k]) && nearest(
                side,
                moving,
                nodes,
            ).unwrap().1 == outward(side, moving, facing_edge(side, nodes[k])),
    decreases nodes.len(),
{
    let before = nearest(side, moving, nodes.drop_last());
    if nearest(side, moving, nodes) == before {
        lemma_nearest_is_a_neighbour(side, moving, nodes.drop_last());
        let k = choose|k: int|
            0 <= k < nodes.drop_last().len() && #[trigger] nodes.drop_last()[k]
                == before.unwrap().0 && is_neighbour(side, moving, nodes.drop_last()[k])
                && before.unwrap().1 == outward(
                side,
                moving,
                facing_edge(side, nodes.drop_last()[k]),
            );
        assert(nodes[k] == nodes.drop_last()[k]);
    } else {
        assert(nodes[nodes.len() - 1] == nodes.last());
    }
}

/// The ray from the moving node's edge on `side` to `target`: along the
/// node's horizontal center line for left and right, along its vertical one
/// for top and bottom.
pub open spec fn ray(side: Side, moving: Bounds, target: Scalar, distance: Scalar) -> DistanceMeasurement {
    match side {
        Side::Left | Side::Right => DistanceMeasurement {
            from_x: moving_edge(side, moving),
            from_y: center_y(moving),
            to_x: target,
            to_y: center_y(moving),
            direction: 0,
            distance,
        },
        Side::Top | Side::Bottom => DistanceMeasurement {
            from_x: center_x(moving),
            from_y: moving_edge(side, moving),
            to_x: center_x(moving),
            to_y: target,
            direction: 1,
            distance,
        },
    }
}

/// What is measured on `side`: the distance to the nearest neighbour, or,
/// without one, the distance to the parent's edge where that is positive.
pub open spec fn measure(
    side: Side,
    moving: Bounds,
    found: Option<(Bounds, Scalar)>,
    parent: Option<Bounds>,
) -> Seq<DistanceMeasurement> {
    match found {
        Some((node, distance)) => seq![ray(side, moving, facing_edge(side, node), distance)],
        None => match parent {
            Some(p) => {
                let edge = parent_edge(side, p);
                let distance = outward(side, moving, edge);
                if distance.spec_gt(Scalar { bits: 0 }) {
                    seq![ray(side, moving, edge, distance)]
                } else {
                    Seq::empty()
                }
            },
            None => Seq::empty(),
        },
    }
}

/// The measurements around `moving`: left, right, top, bottom.
pub open spec fn distance_measurements(
    moving: Bounds,
    nodes: Seq<Bounds>,
    parent: Option<Bounds>,
) -> Seq<DistanceMeasurement> {
    measure(Side::Left, moving, nearest(Side::Left, moving, nodes), parent) + measure(
        Side::Right,
        moving,
        nearest(Side::Right, moving, nodes),
        parent,
    ) + measure(Side::Top, moving, nearest(Side::Top, moving, nodes), parent) + measure(
        Side::Bottom,
        moving,
        nearest(Side::Bottom, moving, nodes),
        parent,
    )
}

fn edge_of_moving(side: Side, moving: &Bounds) -> (r: Scalar)
    ensures
        r == moving_edge(side, *moving),
{
    match side {
        Side::Left => moving.0,
        Side::Right => moving.2,
        Side::Top => moving.1,
        Side::Bottom => moving.3,
    }
}

fn edge_facing(side: Side, node: &Bounds) -> (r: Scalar)
    ensures
        r == facing_edge(side, *node),
{
    match side {
        Side::Left => node.2,
        Side::Right => node.0,
        Side::Top => node.3,
        Side::Bottom => node.1,
    }
}

fn distance_outward(side: Side, moving: &Bounds, target: Scalar) -> (r: Scalar)
    ensures
        r == outward(side, *moving, target),
{
    let edge = edge_of_moving(side, moving);
    match side {
        Side::Left => edge.sub(target),
        Side::Top => edge.sub(target),
        Side::Right => target.sub(edge),
        Side::Bottom => target.sub(edge),
    }
}

/// Looks at one sibling that is no container of the moving node.
fn consider(best: Option<(Bounds, Scalar)>, side: Side, moving: &Bounds, node: &Bounds) -> (r:
    Option<(Bounds, Scalar)>)
    requires
        !contains_box(*node, *moving),
    ensures
        r == nearer(best, side, *moving, *node),
{
    let facing = edge_facing(side, node);
    let edge = edge_of_moving(side, moving);
    let on_side = match side {
        Side::Left => facing.le(edge),
        Side::Top => facing.le(edge),
        Side::Right => facing.ge(edge),
        Side::Bottom => facing.ge(edge),
    };
    if on_side {
        let distance = distance_outward(side, moving, facing);
        match best {
            None => Some((*node, distance)),
            Some((_, least)) => if distance.lt(least) {
                Some((*node, distance))
            } else {
                best
            },
        }
    } else {
        best
    }
}

fn make_ray(side: Side, moving: &Bounds, mid_x: Scalar, mid_y: Scalar, target: Scalar, distance: Scalar) -> (r:
    DistanceMeasurement)
    requires
        mid_x == center_x(*moving),
        mid_y == center_y(*moving),
    ensures
        r == ray(side, *moving, target, distance),
{
    let edge = edge_of_moving(side, moving);
    match side {
        Side::Left => DistanceMeasurement {
            from_x: edge,
            from_y: mid_y,
            to_x: target,
            to_y: mid_y,
            direction: 0,
            distance,
        },
        Side::Right => DistanceMeasurement {
            from_x: edge,
            from_y: mid_y,
            to_x: target,
            to_y: mid_y,
            direction: 0,
            distance,
        },
        Side::Top => DistanceMeasurement {
            from_x: mid_x,
            from_y: edge,
            to_x: mid_x,
            to_y: target,
            direction: 1,
            distance,
        },
        Side::Bottom => DistanceMeasurement {
            from_x: mid_x,
            from_y: edge,
            to_x: mid_x,
            to_y: target,
            direction: 1,
            distance,
        },
    }
}

/// Appends what is measured on one side.
fn push_measurement(
    measurements: &mut Vec<DistanceMeasurement>,
    side: Side,
    moving: &Bounds,
    mid_x: Scalar,
    mid_y: Scalar,
    found: Option<(Bounds, Scalar)>,
    parent: Option<Bounds>,
)
    requires
        mid_x == center_x(*moving),
        mid_y == center_y(*moving),
    ensures
        final(measurements)@ == old(measurements)@ + measure(side, *moving, found, parent),
{
    match found {
        Some((node, distance)) => {
            let target = edge_facing(side, &node);
            measurements.push(make_ray(side, moving, mid_x, mid_y, target, distance));
            proof {
                assert(measurements@ =~= old(measurements)@ + measure(
                    side,
                    *moving,
                    found,
                    parent,
                ));
            }
        },
        None => {
            match parent {
                Some(p) => {
                    let edge = match side {
                        Side::Left => p.0,
                        Side::Right => p.0.add(p.2),
                        Side::Top => p.1,
                        Side::Bottom => p.1.add(p.3),
                    };
                    let distance = distance_outward(side, moving, edge);
                    if distance.gt(Scalar::from_bits(0)) {
                        measurements.push(make_ray(side, moving, mid_x, mid_y, edge, distance));
                    }
                    proof {
                        assert(measurements@ =~= old(measurements)@ + measure(
                            side,
                            *moving,
                            found,
                            parent,
                        ));
                    }
                },
                None => {
                    proof {
                        assert(measurements@ =~= old(measurements)@ + measure(
                            side,
                            *moving,
                            found,
                            parent,
                        ));
                    }
                },
            }
        },
    }
}

/// The distances from `moving_bounds` to its nearest neighbour among
/// `all_bounds` on each side, siblings that contain the moving node left
/// out; on a side without a neighbour, the distance to the edge of the
/// parent, given as `(x, y, width, height)`, where that distance is positive.
pub fn calculate_distance_measurements(
    moving_bounds: Bounds,
    all_bounds: &[Bounds],
    parent_bounds: Option<Bounds>,
) -> (measurements: Vec<DistanceMeasurement>)
    ensures
        measurements@ == distance_measurements(moving_bounds, all_bounds@, parent_bounds),
{
    let moving = moving_bounds;
    let mut nearest_left: Option<(Bounds, Scalar)> = None;
    let mut nearest_right: Option<(Bounds, Scalar)> = None;
    let mut nearest_top: Option<(Bounds, Scalar)> = None;
    let mut nearest_bottom: Option<(Bounds, Scalar)> = None;

    let mut i: usize = 0;
    while i < all_bounds.len()
        invariant
            i <= all_bounds.len(),
            moving == moving_bounds,
            nearest_left == nearest(Side::Left, moving, all_bounds@.take(i as int)),
            nearest_right == nearest(Side::Right, moving, all_bounds@.take(i as int)),
            nearest_top == nearest(Side::Top, moving, all_bounds@.take(i as int)),
            nearest_bottom == nearest(Side::Bottom, moving, all_bounds@.take(i as int)),
        decreases all_bounds.len() - i,
    {
        let node = all_bounds[i];
        proof {
            assert(all_bounds@.take(i + 1).drop_last() =~= all_bounds@.take(i as int));
            assert(all_bounds@.take(i + 1).last() == node);
        }
        let is_container = node.0.le(moving.0) && node.1.le(moving.1) && node.2.ge(moving.2)
            && node.3.ge(moving.3);
        if !is_container {
            nearest_left = consider(nearest_left, Side::Left, &moving, &node);
            nearest_right = consider(nearest_right, Side::Right, &moving, &node);
            nearest_top = consider(nearest_top, Side::Top, &moving, &node);
            nearest_bottom = consider(nearest_bottom, Side::Bottom, &moving, &node);
        }
        i += 1;
    }
    proof {
        assert(all_bounds@.take(i as int) =~= all_bounds@);
    }

    let mid_y = midpoint_of(moving.1, moving.3);
    let mid_x = midpoint_of(moving.0, moving.2);
    let mut measurements: Vec<DistanceMeasurement> = Vec::new();
    push_measurement(&mut measurements, Side::Left, &moving, mid_x, mid_y, nearest_left, parent_bounds);
    push_measurement(&mut measurements, Side::Right, &moving, mid_x, mid_y, nearest_right, parent_bounds);
    push_measurement(&mut measurements, Side::Top, &moving, mid_x, mid_y, nearest_top, parent_bounds);
    push_measurement(&mut measurements, Side::Bottom, &moving, mid_x, mid_y, nearest_bottom, parent_bounds);
    measurements
}

} // verus!
