//! The chunk manager: the set of chunks keyed by grid cell and role,
//! the routing of world-space edits to the chunks they overlap (lazily
//! creating chunks on first write), the cursor-targeting ray march, and
//! the per-frame tool state machines.

use vstd::prelude::*;

verus! {

use crate::{GRID_BOUND, RADIUS_VOXEL};
use crate::chunk::{
    Chunk,
    ChunkType,
    place_rel,
    seq_contains_pos,
    spec_drawn,
};
use crate::geom::{
    cell_max,
    cell_min,
    cell_of,
    cell_index,
    in_box,
    in_world,
    lemma_cell_of,
    lex_lt,
    pos_of,
};
use crate::model_list::spec_parse_place;
use crate::brush_list::spec_parse_draw;
use crate::voxel::{Instance, Light};
use crate::geom::{div_floor, div_trunc, div_trunc_any, key_of, pack_pos, tdiv};
use crate::numtext::fmt_i32;
use vstd::string::StringExecFns;

broadcast use vstd::std_specs::hash::group_hash_axioms;

/// Brush tool sub-state: active brush id, brush radius in voxels, and
/// the paint color.
pub struct BrushState {
    pub id: i32,
    pub radius: i32,
    pub color: [i32; 4],
    pub max_id: i32,
}

impl BrushState {
    /// Normalize per-id constraints: the fire brush paints a single
    /// voxel.
    pub fn update(&mut self)
        ensures
            final(self).id == old(self).id,
            final(self).color == old(self).color,
            final(self).max_id == old(self).max_id,
            final(self).radius == if old(self).id == 1 {
                1int
            } else {
                old(self).radius as int
            },
    {
        if self.id == 1 {
            self.radius = 1;
        }
    }

    /// The initial brush: plain recolor, quarter-chunk radius, white.
    pub fn new() -> (r: BrushState)
        ensures
            r.id == 0,
            r.radius == RADIUS_VOXEL / 4,
            r.color == [1000i32, 1000i32, 1000i32, 1000i32],
            r.max_id == 1,
    {
        let c: [i32; 4] = [1000, 1000, 1000, 1000];
        proof {
            assert(c =~= [1000i32, 1000i32, 1000i32, 1000i32]);
        }
        BrushState { id: 0, radius: RADIUS_VOXEL / 4, color: c, max_id: 1 }
    }
}

/// Place tool sub-state: active model id, scale step, and the derived
/// footprint of the model.
pub struct ModelState {
    pub id: i32,
    pub scale: i32,
    pub max_id: i32,
    pub height: i32,
    pub radius: i32,
    pub name: String,
    pub color: [i32; 4],
}

impl ModelState {
    /// Recompute the model's name and footprint from its id and scale.
    pub fn update(&mut self)
        requires
            1 <= old(self).scale <= 8,
        ensures
            final(self).id == old(self).id,
            final(self).scale == old(self).scale,
            final(self).max_id == old(self).max_id,
            final(self).color == old(self).color,
            0 <= final(self).id <= 14 ==> final(self).radius == 256int / old(self).scale as int,
            1 <= final(self).id <= 10 ==> final(self).height == 2 * (256int / old(self).scale as int),
            final(self).id == 0 || final(self).id == 11 ==> final(self).height == 1,
            final(self).id == 12 || final(self).id == 14 ==> final(self).height == 256int / old(self).scale as int,
            final(self).id == 13 ==> final(self).height == 20,
            !(0 <= final(self).id <= 14) ==> final(self).height == old(self).height && final(self).radius == old(self).radius,
            0 <= final(self).id <= 14 ==> 1 <= final(self).height <= 512 && 32 <= final(self).radius
                <= 256,
    {
        if self.id == 0 {
            self.name = string_chess();
            self.height = 1;
            self.radius = footprint(self.scale);
        } else if self.id >= 1 && self.id <= 10 {
            self.name = string_num();
            self.height = footprint(self.scale) * 2;
            self.radius = footprint(self.scale);
        } else if self.id == 11 {
            self.name = string_plane();
            self.height = 1;
            self.radius = footprint(self.scale);
        } else if self.id == 12 {
            self.name = string_block();
            self.height = footprint(self.scale);
            self.radius = footprint(self.scale);
        } else if self.id == 13 {
            self.name = string_lawn();
            self.height = 20;
            self.radius = footprint(self.scale);
        } else if self.id == 14 {
            self.name = string_sphere();
            self.height = footprint(self.scale);
            self.radius = footprint(self.scale);
        }
    }

    /// The initial model: the checkerboard box at unit scale.
    pub fn new() -> (r: ModelState)
        ensures
            r.id == 0,
            r.scale == 1,
            r.max_id == 14,
            r.height == 1,
            r.radius == 0,
            r.color == [700i32, 700i32, 700i32, 1000i32],
    {
        let c: [i32; 4] = [700, 700, 700, 1000];
        proof {
            assert(c =~= [700i32, 700i32, 700i32, 1000i32]);
        }
        ModelState {
            id: 0,
            scale: 1,
            max_id: 14,
            height: 1,
            radius: 0,
            name: string_chess(),
            color: c,
        }
    }
}

/// The model footprint at a scale step: the chunk edge divided by the
/// scale.
fn footprint(scale: i32) -> (r: i32)
    requires
        1 <= scale <= 8,
    ensures
        r == 256int / scale as int,
        32 <= r <= 256,
{
    proof {
        vstd::arithmetic::div_mod::lemma_div_is_ordered_by_denominator(256, scale as int, 8);
        vstd::arithmetic::div_mod::lemma_div_is_ordered_by_denominator(256, 1, scale as int);
    }
    RADIUS_VOXEL / scale
}

/// The name strings of the model families.
fn string_chess() -> String {
    String::from_str("CHESS")
}

fn string_num() -> String {
    String::from_str("NUM")
}

fn string_plane() -> String {
    String::from_str("PLANE")
}

fn string_block() -> String {
    String::from_str("BLOCK")
}

fn string_lawn() -> String {
    String::from_str("LAWN")
}

fn string_sphere() -> String {
    String::from_str("SPHERE")
}

/// The active tool: plain cursor, paint brush, or model placement.
#[derive(PartialEq, Eq, Structural, Clone, Copy, Debug)]
pub enum IndicatorState {
    Normal,
    Brush,
    Place,
}

impl IndicatorState {
    /// The linear tool cycle: Normal, Brush, Place, and back to Normal.
    pub fn turn(&self) -> (r: IndicatorState)
        ensures
            r == match *self {
                IndicatorState::Normal => IndicatorState::Brush,
                IndicatorState::Brush => IndicatorState::Place,
                IndicatorState::Place => IndicatorState::Normal,
            },
    {
        match self {
            IndicatorState::Normal => IndicatorState::Brush,
            IndicatorState::Brush => IndicatorState::Place,
            IndicatorState::Place => IndicatorState::Normal,
        }
    }

    /// The on-screen name of the tool.
    pub fn to_str(&self) -> (r: String)
        ensures
            *self == IndicatorState::Normal ==> r@ == "NORMAL_MODE"@,
            *self == IndicatorState::Brush ==> r@ == "BRUSH_MODE"@,
            *self == IndicatorState::Place ==> r@ == "PLACE_MODE"@,
    {
        match self {
            IndicatorState::Normal => String::from_str("NORMAL_MODE"),
            IndicatorState::Brush => String::from_str("BRUSH_MODE"),
            IndicatorState::Place => String::from_str("PLACE_MODE"),
        }
    }
}

/// The cell triple a world position falls into.
pub open spec fn cell_triple(p: (int, int, int)) -> (int, int, int) {
    (cell_of(p.0), cell_of(p.1), cell_of(p.2))
}

/// The cell lies within the block of cells a world-space box overlaps.
pub open spec fn in_cell_range(g: (int, int, int), lo: (int, int, int), hi: (int, int, int)) -> bool {
    cell_of(lo.0) <= g.0 <= cell_of(hi.0) && cell_of(lo.1) <= g.1 <= cell_of(hi.1) && cell_of(lo.2)
        <= g.2 <= cell_of(hi.2)
}

/// Cell lookup never reorders coordinates.
pub proof fn lemma_cell_monotone(a: int, b: int)
    requires
        a <= b,
    ensures
        cell_of(a) <= cell_of(b),
{
    vstd::arithmetic::div_mod::lemma_div_is_ordered(a + 128, b + 128, 256);
}

/// Every chunk is well formed and no two chunks share a grid cell and
/// role.
pub open spec fn mgr_wf_chunks(chunks: Seq<Chunk>) -> bool {
    &&& forall|i: int| 0 <= i < chunks.len() ==> (#[trigger] chunks[i]).wf()
    &&& forall|i: int, j: int|
        0 <= i < j < chunks.len() ==> !((#[trigger] chunks[i]).position == (
        #[trigger] chunks[j]).position && chunks[i].current_type == chunks[j].current_type)
}

/// Some chunk of the given role holds a voxel at `p`.
pub open spec fn world_contains(chunks: Seq<Chunk>, role: ChunkType, p: (int, int, int)) -> bool {
    exists|i: int|
        0 <= i < chunks.len() && (#[trigger] chunks[i]).current_type == role
            && chunks[i].contains_pos(p)
}

/// The index of a chunk of the given role holding a voxel at `p`.
pub open spec fn world_idx(chunks: Seq<Chunk>, role: ChunkType, p: (int, int, int)) -> int {
    choose|i: int|
        0 <= i < chunks.len() && (#[trigger] chunks[i]).current_type == role
            && chunks[i].contains_pos(p)
}

/// The voxel the world holds at `p` under the given role.
pub open spec fn world_at(chunks: Seq<Chunk>, role: ChunkType, p: (int, int, int)) -> Instance {
    chunks[world_idx(chunks, role, p)].at_pos(p)
}

/// A chunk of the given role exists at grid cell `g`.
pub open spec fn has_cell(chunks: Seq<Chunk>, g: (int, int, int), role: ChunkType) -> bool {
    exists|i: int|
        0 <= i < chunks.len() && pos_of((#[trigger] chunks[i]).position) == g
            && chunks[i].current_type == role
}

/// A chunk holding a voxel at `p` sits at the cell `p` falls into.
pub proof fn lemma_holder_at_cell(chunks: Seq<Chunk>, p: (int, int, int), k: int)
    requires
        mgr_wf_chunks(chunks),
        0 <= k < chunks.len(),
        chunks[k].contains_pos(p),
    ensures
        pos_of(chunks[k].position) == cell_triple(p),
{
    let c = chunks[k];
    let i = choose|i: int| 0 <= i < c.vox().len() && pos_of(c.vox()[i].position) == p;
    assert(c.in_bounds(pos_of(c.vox()[i].position)));
    lemma_cell_of(p.0);
    lemma_cell_of(p.1);
    lemma_cell_of(p.2);
    assert(cell_min(c.position[0] as int) <= p.0 <= cell_max(c.position[0] as int));
    assert(c.position[0] as int == cell_of(p.0));
    assert(c.position[1] as int == cell_of(p.1));
    assert(c.position[2] as int == cell_of(p.2));
}

/// If a chunk of the role sits at `p`'s cell, world lookups at `p` go
/// through exactly that chunk.
pub proof fn lemma_world_via_cell(chunks: Seq<Chunk>, role: ChunkType, p: (int, int, int), i: int)
    requires
        mgr_wf_chunks(chunks),
        0 <= i < chunks.len(),
        chunks[i].current_type == role,
        pos_of(chunks[i].position) == cell_triple(p),
    ensures
        world_contains(chunks, role, p) == chunks[i].contains_pos(p),
        chunks[i].contains_pos(p) ==> world_at(chunks, role, p) == chunks[i].at_pos(p),
{
    if world_contains(chunks, role, p) {
        let k = choose|k: int|
            0 <= k < chunks.len() && (#[trigger] chunks[k]).current_type == role
                && chunks[k].contains_pos(p);
        lemma_holder_at_cell(chunks, p, k);
        assert(pos_of(chunks[k].position) == pos_of(chunks[i].position));
        assert(chunks[k].position =~= chunks[i].position) by {
            assert(chunks[k].position[0] == chunks[i].position[0]);
            assert(chunks[k].position[1] == chunks[i].position[1]);
            assert(chunks[k].position[2] == chunks[i].position[2]);
        }
        if k != i {
            if k < i {
                assert(!(chunks[k].position == chunks[i].position && chunks[k].current_type
                    == chunks[i].current_type));
            } else {
                assert(!(chunks[i].position == chunks[k].position && chunks[i].current_type
                    == chunks[k].current_type));
            }
        }
        assert(k == i);
    }
    if chunks[i].contains_pos(p) {
        assert(world_contains(chunks, role, p));
        let k = world_idx(chunks, role, p);
        lemma_holder_at_cell(chunks, p, k);
        assert(chunks[k].position =~= chunks[i].position) by {
            assert(chunks[k].position[0] == chunks[i].position[0]);
            assert(chunks[k].position[1] == chunks[i].position[1]);
            assert(chunks[k].position[2] == chunks[i].position[2]);
        }
        if k != i {
            if k < i {
                assert(!(chunks[k].position == chunks[i].position && chunks[k].current_type
                    == chunks[i].current_type));
            } else {
                assert(!(chunks[i].position == chunks[k].position && chunks[i].current_type
                    == chunks[k].current_type));
            }
        }
    }
}

/// If no chunk of the role sits at `p`'s cell, the world holds nothing
/// at `p` under that role.
pub proof fn lemma_world_no_holder(chunks: Seq<Chunk>, role: ChunkType, p: (int, int, int))
    requires
        mgr_wf_chunks(chunks),
        !has_cell(chunks, cell_triple(p), role),
    ensures
        !world_contains(chunks, role, p),
{
    if world_contains(chunks, role, p) {
        let k = choose|k: int|
            0 <= k < chunks.len() && (#[trigger] chunks[k]).current_type == role
                && chunks[k].contains_pos(p);
        lemma_holder_at_cell(chunks, p, k);
        assert(has_cell(chunks, cell_triple(p), role));
    }
}

/// The full effect of routing a world-space place: inside the region
/// the world of the edited role holds exactly what the placement
/// classifier produces (nothing, on delete); outside it, and under
/// every other role, the world is untouched; and a chunk of the edited
/// role exists afterwards exactly at the cells the region overlaps,
/// beside those that already existed.
pub open spec fn route_place_rel(
    pre: Seq<Chunk>,
    post: Seq<Chunk>,
    lo: (int, int, int),
    hi: (int, int, int),
    color: [i32; 4],
    delete: bool,
    role: ChunkType,
    id: int,
) -> bool {
    &&& forall|p: (int, int, int)|
        in_world(p) && in_box(p, lo, hi) ==> (#[trigger] world_contains(post, role, p) == (!delete
            && spec_parse_place(p.0, p.1, p.2, lo, hi, color, id).is_some()))
    &&& forall|p: (int, int, int)|
        in_world(p) && in_box(p, lo, hi) && #[trigger] world_contains(post, role, p)
            ==> world_at(post, role, p) == spec_parse_place(
            p.0,
            p.1,
            p.2,
            lo,
            hi,
            color,
            id,
        ).unwrap()
    &&& forall|p: (int, int, int)|
        in_world(p) && !in_box(p, lo, hi) ==> (#[trigger] world_contains(post, role, p)
            == world_contains(pre, role, p) && (world_contains(post, role, p) ==> world_at(
            post,
            role,
            p,
        ) == world_at(pre, role, p)))
    &&& forall|r: ChunkType, p: (int, int, int)|
        r != role && in_world(p) ==> (#[trigger] world_contains(post, r, p) == world_contains(
            pre,
            r,
            p,
        ) && (world_contains(post, r, p) ==> world_at(post, r, p) == world_at(pre, r, p)))
    &&& forall|g: (int, int, int)|
        #[trigger] has_cell(post, g, role) == (has_cell(pre, g, role) || in_cell_range(g, lo, hi))
    &&& forall|r: ChunkType, g: (int, int, int)|
        r != role ==> #[trigger] has_cell(post, g, r) == has_cell(pre, g, r)
}

/// Mid-routing state: the cells of the region before `gcur` in
/// iteration order have been edited, the rest of the world is still as
/// it was.
pub open spec fn route_progress(
    pre: Seq<Chunk>,
    cur: Seq<Chunk>,
    lo: (int, int, int),
    hi: (int, int, int),
    color: [i32; 4],
    delete: bool,
    role: ChunkType,
    id: int,
    gcur: (int, int, int),
) -> bool {
    &&& forall|p: (int, int, int)|
        in_world(p) && in_box(p, lo, hi) && lex_lt(cell_triple(p), gcur) ==> (
        #[trigger] world_contains(cur, role, p) == (!delete && spec_parse_place(
            p.0,
            p.1,
            p.2,
            lo,
            hi,
            color,
            id,
        ).is_some()))
    &&& forall|p: (int, int, int)|
        in_world(p) && in_box(p, lo, hi) && lex_lt(cell_triple(p), gcur)
            && #[trigger] world_contains(cur, role, p) ==> world_at(cur, role, p)
            == spec_parse_place(p.0, p.1, p.2, lo, hi, color, id).unwrap()
    &&& forall|p: (int, int, int)|
        in_world(p) && in_box(p, lo, hi) && !lex_lt(cell_triple(p), gcur) ==> (
        #[trigger] world_contains(cur, role, p) == world_contains(pre, role, p) && (
        world_contains(cur, role, p) ==> world_at(cur, role, p) == world_at(pre, role, p)))
    &&& forall|p: (int, int, int)|
        in_world(p) && !in_box(p, lo, hi) ==> (#[trigger] world_contains(cur, role, p)
            == world_contains(pre, role, p) && (world_contains(cur, role, p) ==> world_at(
            cur,
            role,
            p,
        ) == world_at(pre, role, p)))
    &&& forall|r: ChunkType, p: (int, int, int)|
        r != role && in_world(p) ==> (#[trigger] world_contains(cur, r, p) == world_contains(
            pre,
            r,
            p,
        ) && (world_contains(cur, r, p) ==> world_at(cur, r, p) == world_at(pre, r, p)))
    &&& forall|g: (int, int, int)|
        #[trigger] has_cell(cur, g, role) == (has_cell(pre, g, role) || (in_cell_range(g, lo, hi)
            && lex_lt(g, gcur)))
    &&& forall|r: ChunkType, g: (int, int, int)|
        r != role ==> #[trigger] has_cell(cur, g, r) == has_cell(pre, g, r)
}

/// Every role and position outside one (role, cell) pair reads the same
/// in `post` as in `pre`.
pub open spec fn worlds_preserved_except(
    pre: Seq<Chunk>,
    post: Seq<Chunk>,
    role: ChunkType,
    g: (int, int, int),
) -> bool {
    forall|r: ChunkType, p: (int, int, int)|
        !(r == role && cell_triple(p) == g) ==> (#[trigger] world_contains(post, r, p)
            == world_contains(pre, r, p) && (world_contains(pre, r, p) ==> world_at(post, r, p)
            == world_at(pre, r, p)))
}

/// The same chunks exist, cell for cell and role for role.
pub open spec fn cells_preserved(pre: Seq<Chunk>, post: Seq<Chunk>) -> bool {
    forall|r: ChunkType, g: (int, int, int)|
        #[trigger] has_cell(post, g, r) == has_cell(pre, g, r)
}

/// The chunks of `post` are those of `pre` plus one at `(g, role)`.
pub open spec fn cells_plus_one(
    pre: Seq<Chunk>,
    post: Seq<Chunk>,
    role: ChunkType,
    g: (int, int, int),
) -> bool {
    forall|r: ChunkType, gg: (int, int, int)|
        #[trigger] has_cell(post, gg, r) == (has_cell(pre, gg, r) || (r == role && gg == g))
}

/// Two chunks of one role holding the same position are the same chunk.
pub proof fn lemma_holder_unique(
    chunks: Seq<Chunk>,
    role: ChunkType,
    p: (int, int, int),
    k1: int,
    k2: int,
)
    requires
        mgr_wf_chunks(chunks),
        0 <= k1 < chunks.len(),
        0 <= k2 < chunks.len(),
        chunks[k1].current_type == role,
        chunks[k2].current_type == role,
        chunks[k1].contains_pos(p),
        chunks[k2].contains_pos(p),
    ensures
        k1 == k2,
{
    lemma_holder_at_cell(chunks, p, k1);
    lemma_holder_at_cell(chunks, p, k2);
    assert(chunks[k1].position =~= chunks[k2].position) by {
        assert(chunks[k1].position[0] == chunks[k2].position[0]);
        assert(chunks[k1].position[1] == chunks[k2].position[1]);
        assert(chunks[k1].position[2] == chunks[k2].position[2]);
    }
    if k1 != k2 {
        if k1 < k2 {
            assert(!(chunks[k1].position == chunks[k2].position && chunks[k1].current_type
                == chunks[k2].current_type));
        } else {
            assert(!(chunks[k2].position == chunks[k1].position && chunks[k2].current_type
                == chunks[k1].current_type));
        }
    }
}

/// Replacing one chunk in place, without moving it to another cell or
/// role, keeps the manager's chunk invariant and every cell's
/// existence.
pub proof fn lemma_update_keeps_cells(chunks: Seq<Chunk>, j: int, c2: Chunk)
    requires
        mgr_wf_chunks(chunks),
        0 <= j < chunks.len(),
        c2.wf(),
        c2.position == chunks[j].position,
        c2.current_type == chunks[j].current_type,
    ensures
        mgr_wf_chunks(chunks.update(j, c2)),
        cells_preserved(chunks, chunks.update(j, c2)),
{
    let post = chunks.update(j, c2);
    assert(forall|i: int| 0 <= i < chunks.len() && i != j ==> post[i] == chunks[i]);
    assert(post[j] == c2);
    assert(mgr_wf_chunks(post));
    assert forall|r: ChunkType, g: (int, int, int)| #[trigger]
        has_cell(post, g, r) == has_cell(chunks, g, r) by {
        if has_cell(post, g, r) {
            let i = choose|i: int|
                0 <= i < post.len() && pos_of((#[trigger] post[i]).position) == g
                    && post[i].current_type == r;
            assert(pos_of(chunks[i].position) == g && chunks[i].current_type == r);
            assert(has_cell(chunks, g, r));
        }
        if has_cell(chunks, g, r) {
            let i = choose|i: int|
                0 <= i < chunks.len() && pos_of((#[trigger] chunks[i]).position) == g
                    && chunks[i].current_type == r;
            assert(pos_of(post[i].position) == g && post[i].current_type == r);
            assert(has_cell(post, g, r));
        }
    }
}

/// Replacing one chunk in place, without moving it to another cell or
/// role, leaves every other cell's contents unchanged.
#[verifier::rlimit(100)]
#[verifier::spinoff_prover]
pub proof fn lemma_world_update_cell(chunks: Seq<Chunk>, j: int, c2: Chunk)
    requires
        mgr_wf_chunks(chunks),
        0 <= j < chunks.len(),
        c2.wf(),
        c2.position == chunks[j].position,
        c2.current_type == chunks[j].current_type,
    ensures
        worlds_preserved_except(
            chunks,
            chunks.update(j, c2),
            chunks[j].current_type,
            pos_of(chunks[j].position),
        ),
{
    let ghost post = chunks.update(j, c2);
    assert(forall|i: int| 0 <= i < chunks.len() && i != j ==> post[i] == chunks[i]);
    assert(post[j] == c2);
    assert(mgr_wf_chunks(post));
    assert forall|r: ChunkType, p: (int, int, int)|
        !(r == chunks[j].current_type && cell_triple(p) == pos_of(chunks[j].position)) implies (
    #[trigger] world_contains(chunks.update(j, c2), r, p) == world_contains(chunks, r, p) && (
    world_contains(
        chunks,
        r,
        p,
    ) ==> world_at(chunks.update(j, c2), r, p) == world_at(chunks, r, p))) by {
        if world_contains(post, r, p) {
            let k = choose|k: int|
                0 <= k < post.len() && (#[trigger] post[k]).current_type == r
                    && post[k].contains_pos(p);
            if k == j {
                lemma_holder_at_cell(post, p, k);
                assert(false);
            }
            assert(chunks[k].current_type == r && chunks[k].contains_pos(p));
            assert(world_contains(chunks, r, p));
        }
        if world_contains(chunks, r, p) {
            let k = choose|k: int|
                0 <= k < chunks.len() && (#[trigger] chunks[k]).current_type == r
                    && chunks[k].contains_pos(p);
            if k == j {
                lemma_holder_at_cell(chunks, p, k);
                assert(false);
            }
            assert(post[k].current_type == r && post[k].contains_pos(p));
            assert(world_contains(post, r, p));
            let k1 = world_idx(chunks, r, p);
            let k2 = world_idx(post, r, p);
            lemma_holder_unique(chunks, r, p, k1, k);
            if k2 == j {
                lemma_holder_at_cell(post, p, k2);
                assert(false);
            }
            assert(chunks[k2].current_type == r && chunks[k2].contains_pos(p));
            lemma_holder_unique(chunks, r, p, k2, k);
            assert(world_at(post, r, p) == post[k].at_pos(p));
            assert(world_at(chunks, r, p) == chunks[k].at_pos(p));
        }
    }
}

/// Appending a chunk at a cell and role that had none keeps every
/// other cell's contents, and adds exactly that cell.
#[verifier::rlimit(100)]
#[verifier::spinoff_prover]
pub proof fn lemma_world_push(chunks: Seq<Chunk>, c: Chunk)
    requires
        mgr_wf_chunks(chunks),
        c.wf(),
        !has_cell(chunks, pos_of(c.position), c.current_type),
    ensures
        mgr_wf_chunks(chunks.push(c)),
        cells_plus_one(chunks, chunks.push(c), c.current_type, pos_of(c.position)),
        worlds_preserved_except(chunks, chunks.push(c), c.current_type, pos_of(c.position)),
{
    let post = chunks.push(c);
    let m = chunks.len() as int;
    assert(forall|i: int| 0 <= i < m ==> post[i] == chunks[i]);
    assert(post[m] == c);
    assert(mgr_wf_chunks(post)) by {
        assert forall|i: int, j: int|
            0 <= i < j < post.len() implies !((#[trigger] post[i]).position == (
        #[trigger] post[j]).position && post[i].current_type == post[j].current_type) by {
            if j == m {
                if post[i].position == c.position && post[i].current_type == c.current_type {
                    assert(pos_of(chunks[i].position) == pos_of(c.position));
                    assert(has_cell(chunks, pos_of(c.position), c.current_type));
                }
            }
        }
    }
    assert(cells_plus_one(chunks, post, c.current_type, pos_of(c.position))) by {
        assert forall|r: ChunkType, g: (int, int, int)| #[trigger]
        has_cell(post, g, r) == (has_cell(chunks, g, r) || (r == c.current_type && g == pos_of(
        c.position,
    ))) by {
        if has_cell(post, g, r) {
            let i = choose|i: int|
                0 <= i < post.len() && pos_of((#[trigger] post[i]).position) == g
                    && post[i].current_type == r;
            if i < m {
                assert(has_cell(chunks, g, r));
            }
        }
        if has_cell(chunks, g, r) {
            let i = choose|i: int|
                0 <= i < chunks.len() && pos_of((#[trigger] chunks[i]).position) == g
                    && chunks[i].current_type == r;
            assert(pos_of(post[i].position) == g && post[i].current_type == r);
            assert(has_cell(post, g, r));
        }
        if r == c.current_type && g == pos_of(c.position) {
            assert(pos_of(post[m].position) == g && post[m].current_type == r);
            assert(has_cell(post, g, r));
        }
        }
    }
    assert(worlds_preserved_except(chunks, post, c.current_type, pos_of(c.position))) by {
        assert forall|r: ChunkType, p: (int, int, int)|
        !(r == c.current_type && cell_triple(p) == pos_of(c.position)) implies (
    #[trigger] world_contains(post, r, p) == world_contains(chunks, r, p) && (world_contains(
        chunks,
        r,
        p,
    ) ==> world_at(post, r, p) == world_at(chunks, r, p))) by {
        if world_contains(post, r, p) {
            let k = choose|k: int|
                0 <= k < post.len() && (#[trigger] post[k]).current_type == r
                    && post[k].contains_pos(p);
            if k == m {
                lemma_holder_at_cell(post, p, k);
                assert(false);
            }
            assert(chunks[k].current_type == r && chunks[k].contains_pos(p));
            assert(world_contains(chunks, r, p));
        }
        if world_contains(chunks, r, p) {
            let k = choose|k: int|
                0 <= k < chunks.len() && (#[trigger] chunks[k]).current_type == r
                    && chunks[k].contains_pos(p);
            assert(post[k].current_type == r && post[k].contains_pos(p));
            assert(world_contains(post, r, p));
            let k1 = world_idx(chunks, r, p);
            let k2 = world_idx(post, r, p);
            lemma_holder_unique(chunks, r, p, k1, k);
            if k2 == m {
                lemma_holder_at_cell(post, p, k2);
                assert(false);
            }
            assert(chunks[k2].current_type == r && chunks[k2].contains_pos(p));
            lemma_holder_unique(chunks, r, p, k2, k);
        }
        }
    }
}

/// The low corner of the clip a cell receives from a world region.
pub open spec fn cell_clip_lo(g: (int, int, int), lo: (int, int, int)) -> (int, int, int) {
    (
        if cell_min(g.0) > lo.0 {
            cell_min(g.0)
        } else {
            lo.0
        },
        if cell_min(g.1) > lo.1 {
            cell_min(g.1)
        } else {
            lo.1
        },
        if cell_min(g.2) > lo.2 {
            cell_min(g.2)
        } else {
            lo.2
        },
    )
}

/// The high corner of the clip a cell receives from a world region.
pub open spec fn cell_clip_hi(g: (int, int, int), hi: (int, int, int)) -> (int, int, int) {
    (
        if cell_max(g.0) < hi.0 {
            cell_max(g.0)
        } else {
            hi.0
        },
        if cell_max(g.1) < hi.1 {
            cell_max(g.1)
        } else {
            hi.1
        },
        if cell_max(g.2) < hi.2 {
            cell_max(g.2)
        } else {
            hi.2
        },
    )
}

/// Every position of a box falls into one of the cells the box
/// overlaps.
pub proof fn lemma_box_cells(lo: (int, int, int), hi: (int, int, int))
    ensures
        forall|p: (int, int, int)|
            in_box(p, lo, hi) ==> #[trigger] in_cell_range(cell_triple(p), lo, hi),
{
    assert forall|p: (int, int, int)|
        in_box(p, lo, hi) implies #[trigger] in_cell_range(cell_triple(p), lo, hi) by {
        lemma_cell_monotone(lo.0, p.0);
        lemma_cell_monotone(p.0, hi.0);
        lemma_cell_monotone(lo.1, p.1);
        lemma_cell_monotone(p.1, hi.1);
        lemma_cell_monotone(lo.2, p.2);
        lemma_cell_monotone(p.2, hi.2);
    }
}

/// Routing progress survives moving the cursor to any point that
/// classifies the overlapped cells the same way.
pub proof fn lemma_route_cursor_shift(
    pre: Seq<Chunk>,
    cur: Seq<Chunk>,
    lo: (int, int, int),
    hi: (int, int, int),
    color: [i32; 4],
    delete: bool,
    role: ChunkType,
    id: int,
    c1: (int, int, int),
    c2: (int, int, int),
)
    requires
        route_progress(pre, cur, lo, hi, color, delete, role, id, c1),
        forall|gg: (int, int, int)|
            in_cell_range(gg, lo, hi) ==> (lex_lt(gg, c1) == #[trigger] lex_lt(gg, c2)),
    ensures
        route_progress(pre, cur, lo, hi, color, delete, role, id, c2),
{
    lemma_box_cells(lo, hi);
    assert forall|p: (int, int, int)|
        in_world(p) && in_box(p, lo, hi) implies (lex_lt(cell_triple(p), c1) == lex_lt(
        cell_triple(p),
        c2,
    )) by {
        assert(in_cell_range(cell_triple(p), lo, hi));
    }
}

/// One routing step: after the chunk of cell `g` has been edited, the
/// cursor moves to the next cell.
#[verifier::rlimit(100)]
#[verifier::spinoff_prover]
pub proof fn lemma_route_step(
    pre: Seq<Chunk>,
    cur: Seq<Chunk>,
    post: Seq<Chunk>,
    lo: (int, int, int),
    hi: (int, int, int),
    color: [i32; 4],
    delete: bool,
    role: ChunkType,
    id: int,
    g: (int, int, int),
    gnext: (int, int, int),
    jc: int,
    cpre: Chunk,
)
    requires
        mgr_wf_chunks(cur),
        mgr_wf_chunks(post),
        route_progress(pre, cur, lo, hi, color, delete, role, id, g),
        forall|gg: (int, int, int)|
            #[trigger] lex_lt(gg, gnext) == (lex_lt(gg, g) || gg == g),
        in_cell_range(g, lo, hi),
        worlds_preserved_except(cur, post, role, g),
        has_cell(post, g, role),
        forall|r: ChunkType, gg: (int, int, int)|
            !(r == role && gg == g) ==> (#[trigger] has_cell(post, gg, r) == has_cell(cur, gg, r)),
        0 <= jc < post.len(),
        post[jc].current_type == role,
        pos_of(post[jc].position) == g,
        place_rel(
            cpre,
            post[jc],
            cell_clip_lo(g, lo),
            cell_clip_hi(g, hi),
            lo,
            hi,
            color,
            delete,
            id,
        ),
        forall|p: (int, int, int)|
            #[trigger] cell_triple(p) == g ==> (world_contains(cur, role, p) == cpre.contains_pos(
                p,
            ) && (cpre.contains_pos(p) ==> world_at(cur, role, p) == cpre.at_pos(p))),
    ensures
        route_progress(pre, post, lo, hi, color, delete, role, id, gnext),
{
    lemma_box_cells(lo, hi);
    // contents of the processed region
    assert forall|p: (int, int, int)|
        in_world(p) && in_box(p, lo, hi) && lex_lt(cell_triple(p), gnext) implies (
    #[trigger] world_contains(post, role, p) == (!delete && spec_parse_place(
        p.0,
        p.1,
        p.2,
        lo,
        hi,
        color,
        id,
    ).is_some()) && (world_contains(post, role, p) ==> world_at(post, role, p)
        == spec_parse_place(p.0, p.1, p.2, lo, hi, color, id).unwrap())) by {
        let ct = cell_triple(p);
        if ct == g {
            lemma_cell_of(p.0);
            lemma_cell_of(p.1);
            lemma_cell_of(p.2);
            assert(in_box(p, cell_clip_lo(g, lo), cell_clip_hi(g, hi)));
            lemma_world_via_cell(post, role, p, jc);
            assert(post[jc].contains_pos(p) == (!delete && spec_parse_place(
                p.0,
                p.1,
                p.2,
                lo,
                hi,
                color,
                id,
            ).is_some()));
        } else {
            assert(lex_lt(ct, g));
            assert(world_contains(post, role, p) == world_contains(cur, role, p));
        }
    }
    // contents of the untouched remainder of the region
    assert forall|p: (int, int, int)|
        in_world(p) && in_box(p, lo, hi) && !lex_lt(cell_triple(p), gnext) implies (
    #[trigger] world_contains(post, role, p) == world_contains(pre, role, p) && (world_contains(
        post,
        role,
        p,
    ) ==> world_at(post, role, p) == world_at(pre, role, p))) by {
        let ct = cell_triple(p);
        assert(ct != g);
        assert(!lex_lt(ct, g));
        assert(world_contains(post, role, p) == world_contains(cur, role, p));
    }
    // contents outside the region
    assert forall|p: (int, int, int)|
        in_world(p) && !in_box(p, lo, hi) implies (#[trigger] world_contains(post, role, p)
        == world_contains(pre, role, p) && (world_contains(post, role, p) ==> world_at(
        post,
        role,
        p,
    ) == world_at(pre, role, p))) by {
        let ct = cell_triple(p);
        if ct == g {
            lemma_world_via_cell(post, role, p, jc);
            assert(!in_box(p, lo, hi));
            assert(post[jc].contains_pos(p) == cpre.contains_pos(p));
            assert(world_contains(post, role, p) == world_contains(cur, role, p));
            if world_contains(post, role, p) {
                assert(world_at(post, role, p) == post[jc].at_pos(p));
                assert(post[jc].at_pos(p) == cpre.at_pos(p));
            }
        } else {
            assert(world_contains(post, role, p) == world_contains(cur, role, p));
        }
    }
    // other roles
    assert forall|r: ChunkType, p: (int, int, int)|
        r != role && in_world(p) implies (#[trigger] world_contains(post, r, p) == world_contains(
        pre,
        r,
        p,
    ) && (world_contains(post, r, p) ==> world_at(post, r, p) == world_at(pre, r, p))) by {
        assert(world_contains(post, r, p) == world_contains(cur, r, p));
    }
    // cell existence
    assert forall|gg: (int, int, int)| #[trigger]
        has_cell(post, gg, role) == (has_cell(pre, gg, role) || (in_cell_range(gg, lo, hi)
            && lex_lt(gg, gnext))) by {
        if gg == g {
            assert(lex_lt(g, gnext));
        } else {
            assert(has_cell(post, gg, role) == has_cell(cur, gg, role));
            assert(lex_lt(gg, gnext) == lex_lt(gg, g));
        }
    }
}

/// The full effect of routing a world-space paint: occupancy is
/// untouched everywhere; every persistent voxel's value becomes what
/// the paint classifier makes of it inside the region (and stays
/// itself outside); every other role is untouched.
pub open spec fn route_draw_rel(
    pre: Seq<Chunk>,
    post: Seq<Chunk>,
    lo: (int, int, int),
    hi: (int, int, int),
    color: [i32; 4],
    id: int,
) -> bool {
    &&& forall|r: ChunkType, p: (int, int, int)|
        in_world(p) ==> (#[trigger] world_contains(post, r, p) == world_contains(pre, r, p))
    &&& forall|p: (int, int, int)|
        in_world(p) && #[trigger] world_contains(post, ChunkType::Persistent, p) ==> world_at(
            post,
            ChunkType::Persistent,
            p,
        ) == spec_drawn(world_at(pre, ChunkType::Persistent, p), lo, hi, color, id)
    &&& forall|r: ChunkType, p: (int, int, int)|
        r != ChunkType::Persistent && in_world(p) && #[trigger] world_contains(post, r, p)
            ==> world_at(post, r, p) == world_at(pre, r, p)
    &&& forall|r: ChunkType, g: (int, int, int)|
        #[trigger] has_cell(post, g, r) == has_cell(pre, g, r)
}

/// Mid-paint state: the persistent voxels of the cells before `gcur`
/// have been painted, the rest still read as before.
pub open spec fn draw_progress(
    pre: Seq<Chunk>,
    cur: Seq<Chunk>,
    lo: (int, int, int),
    hi: (int, int, int),
    color: [i32; 4],
    id: int,
    gcur: (int, int, int),
) -> bool {
    &&& forall|r: ChunkType, p: (int, int, int)|
        in_world(p) ==> (#[trigger] world_contains(cur, r, p) == world_contains(pre, r, p))
    &&& forall|p: (int, int, int)|
        in_world(p) && #[trigger] world_contains(cur, ChunkType::Persistent, p) ==> world_at(
            cur,
            ChunkType::Persistent,
            p,
        ) == (if lex_lt(cell_triple(p), gcur) {
            spec_drawn(world_at(pre, ChunkType::Persistent, p), lo, hi, color, id)
        } else {
            world_at(pre, ChunkType::Persistent, p)
        })
    &&& forall|r: ChunkType, p: (int, int, int)|
        r != ChunkType::Persistent && in_world(p) && #[trigger] world_contains(cur, r, p)
            ==> world_at(cur, r, p) == world_at(pre, r, p)
    &&& forall|r: ChunkType, g: (int, int, int)|
        #[trigger] has_cell(cur, g, r) == has_cell(pre, g, r)
}

/// The voxel the world holds at a position carries that position.
pub proof fn lemma_world_at_position(chunks: Seq<Chunk>, role: ChunkType, p: (int, int, int))
    requires
        mgr_wf_chunks(chunks),
        world_contains(chunks, role, p),
    ensures
        pos_of(world_at(chunks, role, p).position) == p,
{
    let k = world_idx(chunks, role, p);
    assert(chunks[k].contains_pos(p));
    let i = choose|i: int|
        0 <= i < chunks[k].vox().len() && pos_of(chunks[k].vox()[i].position) == p;
    crate::chunk::lemma_seq_at_pos(chunks[k].vox(), p, i);
}

/// Paint progress survives moving the cursor to any point that
/// classifies the overlapped cells the same way: cells outside the
/// region are indifferent because painting is the identity there.
pub proof fn lemma_draw_cursor_shift(
    pre: Seq<Chunk>,
    cur: Seq<Chunk>,
    lo: (int, int, int),
    hi: (int, int, int),
    color: [i32; 4],
    id: int,
    c1: (int, int, int),
    c2: (int, int, int),
)
    requires
        mgr_wf_chunks(pre),
        mgr_wf_chunks(cur),
        draw_progress(pre, cur, lo, hi, color, id, c1),
        forall|gg: (int, int, int)|
            in_cell_range(gg, lo, hi) ==> (lex_lt(gg, c1) == #[trigger] lex_lt(gg, c2)),
    ensures
        draw_progress(pre, cur, lo, hi, color, id, c2),
{
    lemma_box_cells(lo, hi);
    assert forall|p: (int, int, int)|
        in_world(p) && #[trigger] world_contains(cur, ChunkType::Persistent, p) implies world_at(
        cur,
        ChunkType::Persistent,
        p,
    ) == (if lex_lt(cell_triple(p), c2) {
        spec_drawn(world_at(pre, ChunkType::Persistent, p), lo, hi, color, id)
    } else {
        world_at(pre, ChunkType::Persistent, p)
    }) by {
        if in_box(p, lo, hi) {
            assert(in_cell_range(cell_triple(p), lo, hi));
            assert(lex_lt(cell_triple(p), c1) == lex_lt(cell_triple(p), c2));
        } else {
            assert(world_contains(pre, ChunkType::Persistent, p));
            lemma_world_at_position(pre, ChunkType::Persistent, p);
            assert(spec_drawn(world_at(pre, ChunkType::Persistent, p), lo, hi, color, id)
                == world_at(pre, ChunkType::Persistent, p));
        }
    }
}

/// One paint-routing step over a cell that has a persistent chunk.
#[verifier::rlimit(100)]
#[verifier::spinoff_prover]
pub proof fn lemma_draw_step_hit(
    pre: Seq<Chunk>,
    cur: Seq<Chunk>,
    post: Seq<Chunk>,
    lo: (int, int, int),
    hi: (int, int, int),
    color: [i32; 4],
    id: int,
    g: (int, int, int),
    gnext: (int, int, int),
    jc: int,
)
    requires
        mgr_wf_chunks(cur),
        mgr_wf_chunks(post),
        draw_progress(pre, cur, lo, hi, color, id, g),
        forall|gg: (int, int, int)| #[trigger] lex_lt(gg, gnext) == (lex_lt(gg, g) || gg == g),
        worlds_preserved_except(cur, post, ChunkType::Persistent, g),
        cells_preserved(cur, post),
        0 <= jc < cur.len(),
        post.len() == cur.len(),
        post == cur.update(jc, post[jc]),
        cur[jc].current_type == ChunkType::Persistent,
        post[jc].current_type == ChunkType::Persistent,
        pos_of(cur[jc].position) == g,
        pos_of(post[jc].position) == g,
        post[jc].vox().len() == cur[jc].vox().len(),
        forall|i: int|
            0 <= i < cur[jc].vox().len() ==> post[jc].vox()[i] == spec_drawn(
                #[trigger] cur[jc].vox()[i],
                cell_clip_lo(g, lo),
                cell_clip_hi(g, hi),
                color,
                id,
            ),
    ensures
        draw_progress(pre, post, lo, hi, color, id, gnext),
{
    let cj = cur[jc];
    let c2 = post[jc];
    // positions are untouched by painting
    assert(forall|i: int|
        0 <= i < cj.vox().len() ==> (#[trigger] post[jc].vox()[i]).position
            == cj.vox()[i].position);
    assert forall|p: (int, int, int)| #[trigger]
        c2.contains_pos(p) == cj.contains_pos(p) by {
        if seq_contains_pos(c2.vox(), p) {
            let i = choose|i: int|
                0 <= i < c2.vox().len() && pos_of(c2.vox()[i].position) == p;
            assert(pos_of(cj.vox()[i].position) == p);
        }
        if seq_contains_pos(cj.vox(), p) {
            let i = choose|i: int|
                0 <= i < cj.vox().len() && pos_of(cj.vox()[i].position) == p;
            assert(pos_of(c2.vox()[i].position) == p);
        }
    }
    // occupancy everywhere
    assert forall|r: ChunkType, p: (int, int, int)|
        in_world(p) implies (#[trigger] world_contains(post, r, p) == world_contains(pre, r, p)) by {
        if r == ChunkType::Persistent && cell_triple(p) == g {
            lemma_world_via_cell(post, r, p, jc);
            lemma_world_via_cell(cur, r, p, jc);
        } else {
            assert(world_contains(post, r, p) == world_contains(cur, r, p));
        }
    }
    // persistent values
    assert forall|p: (int, int, int)|
        in_world(p) && #[trigger] world_contains(post, ChunkType::Persistent, p) implies world_at(
        post,
        ChunkType::Persistent,
        p,
    ) == (if lex_lt(cell_triple(p), gnext) {
        spec_drawn(world_at(pre, ChunkType::Persistent, p), lo, hi, color, id)
    } else {
        world_at(pre, ChunkType::Persistent, p)
    }) by {
        let role = ChunkType::Persistent;
        if cell_triple(p) == g {
            lemma_world_via_cell(post, role, p, jc);
            lemma_world_via_cell(cur, role, p, jc);
            assert(c2.contains_pos(p));
            assert(cj.contains_pos(p));
            let i = choose|i: int|
                0 <= i < cj.vox().len() && pos_of(cj.vox()[i].position) == p;
            crate::chunk::lemma_seq_at_pos(cj.vox(), p, i);
            crate::chunk::lemma_seq_at_pos(c2.vox(), p, i);
            assert(c2.at_pos(p) == spec_drawn(
                cj.at_pos(p),
                cell_clip_lo(g, lo),
                cell_clip_hi(g, hi),
                color,
                id,
            ));
            assert(cj.in_bounds(pos_of(cj.vox()[i].position)));
            lemma_cell_of(p.0);
            lemma_cell_of(p.1);
            lemma_cell_of(p.2);
            assert(in_box(p, cell_clip_lo(g, lo), cell_clip_hi(g, hi)) == in_box(p, lo, hi));
            assert(spec_drawn(cj.at_pos(p), cell_clip_lo(g, lo), cell_clip_hi(g, hi), color, id)
                == spec_drawn(cj.at_pos(p), lo, hi, color, id));
            assert(world_at(cur, role, p) == cj.at_pos(p));
            assert(!lex_lt(cell_triple(p), g));
            assert(cj.at_pos(p) == world_at(pre, role, p));
            assert(lex_lt(cell_triple(p), gnext));
        } else {
            assert(world_contains(post, role, p) == world_contains(cur, role, p));
            assert(world_at(post, role, p) == world_at(cur, role, p));
            assert(lex_lt(cell_triple(p), gnext) == lex_lt(cell_triple(p), g));
        }
    }
    // other roles
    assert forall|r: ChunkType, p: (int, int, int)|
        r != ChunkType::Persistent && in_world(p) && #[trigger] world_contains(post, r, p) implies
        world_at(post, r, p) == world_at(pre, r, p) by {
        assert(world_contains(post, r, p) == world_contains(cur, r, p));
        assert(world_at(post, r, p) == world_at(cur, r, p));
    }
}

/// One paint-routing step over a cell without a persistent chunk: the
/// cursor simply advances.
pub proof fn lemma_draw_step_miss(
    pre: Seq<Chunk>,
    cur: Seq<Chunk>,
    lo: (int, int, int),
    hi: (int, int, int),
    color: [i32; 4],
    id: int,
    g: (int, int, int),
    gnext: (int, int, int),
)
    requires
        mgr_wf_chunks(cur),
        draw_progress(pre, cur, lo, hi, color, id, g),
        forall|gg: (int, int, int)| #[trigger] lex_lt(gg, gnext) == (lex_lt(gg, g) || gg == g),
        !has_cell(cur, g, ChunkType::Persistent),
    ensures
        draw_progress(pre, cur, lo, hi, color, id, gnext),
{
    assert forall|p: (int, int, int)|
        in_world(p) && #[trigger] world_contains(cur, ChunkType::Persistent, p) implies world_at(
        cur,
        ChunkType::Persistent,
        p,
    ) == (if lex_lt(cell_triple(p), gnext) {
        spec_drawn(world_at(pre, ChunkType::Persistent, p), lo, hi, color, id)
    } else {
        world_at(pre, ChunkType::Persistent, p)
    }) by {
        if cell_triple(p) == g {
            lemma_world_no_holder(cur, ChunkType::Persistent, p);
        } else {
            assert(lex_lt(cell_triple(p), gnext) == lex_lt(cell_triple(p), g));
        }
    }
}

/// Law: chunk routing coverage. After routing a place, a chunk of the
/// edited role exists at a grid cell exactly when one already existed
/// there or the region overlaps the cell; a region spanning several
/// cells on an axis therefore reaches every one of them. The last two
/// conclusions pin the boundary: on each axis the cell edge falls
/// between coordinates `RADIUS_VOXEL/2 - 1` and `RADIUS_VOXEL/2`.
pub proof fn lemma_route_cells(
    pre: Seq<Chunk>,
    post: Seq<Chunk>,
    lo: (int, int, int),
    hi: (int, int, int),
    color: [i32; 4],
    delete: bool,
    role: ChunkType,
    id: int,
)
    requires
        route_place_rel(pre, post, lo, hi, color, delete, role, id),
    ensures
        forall|g: (int, int, int)|
            #[trigger] has_cell(post, g, role) == (has_cell(pre, g, role) || in_cell_range(
                g,
                lo,
                hi,
            )),
        cell_of(RADIUS_VOXEL as int / 2 - 1) == 0,
        cell_of(RADIUS_VOXEL as int / 2) == 1,
{
    vstd::arithmetic::div_mod::lemma_fundamental_div_mod_converse(255, 256, 0, 255);
    vstd::arithmetic::div_mod::lemma_fundamental_div_mod_converse(256, 256, 1, 0);
}

/// The coordinate where the eye-to-target ray crosses the horizontal
/// plane at height `y`, on the axis with eye coordinate `ec` and
/// target coordinate `tc`; all in milli-units.
pub open spec fn ray_at(ey: int, ty: int, ec: int, tc: int, y: int) -> int {
    crate::geom::tdiv_any((y - ey) * (ec - tc), ey - ty) + ec
}

/// A chunk's cubic bounds contain a milli-unit point.
pub open spec fn bbox_contains_milli(c: Chunk, x: int, y: int, z: int) -> bool {
    &&& cell_min(c.position[0] as int) * 1000 <= x <= cell_max(c.position[0] as int) * 1000
    &&& cell_min(c.position[1] as int) * 1000 <= y <= cell_max(c.position[1] as int) * 1000
    &&& cell_min(c.position[2] as int) * 1000 <= z <= cell_max(c.position[2] as int) * 1000
}

/// Truncate a milli-unit coordinate to its voxel unit.
pub open spec fn trunc_unit(v: int) -> int {
    crate::geom::tdiv_any(v, 1000)
}

/// The first chunk, in list order from index `i`, that is not the
/// cursor preview, whose bounds contain the candidate point and whose
/// position lookup holds the truncated candidate; the march hit is that
/// voxel's normal and whether its chunk is persistent.
pub open spec fn find_hit(chunks: Seq<Chunk>, i: int, x: int, y: int, z: int) -> Option<
    ([i32; 3], bool),
>
    decreases chunks.len() - i,
{
    if i < 0 || i >= chunks.len() {
        None
    } else {
        let c = chunks[i];
        let tp = (trunc_unit(x), trunc_unit(y), trunc_unit(z));
        if c.current_type != ChunkType::CursorIndicator && bbox_contains_milli(c, x, y, z)
            && c.contains_pos(tp) {
            Some((c.at_pos(tp).normal, c.current_type == ChunkType::Persistent))
        } else {
            find_hit(chunks, i + 1, x, y, z)
        }
    }
}

/// The downward ray march: from the starting altitude, in fixed
/// 0.3-unit steps, the first plane whose ray crossing lands inside a
/// non-preview chunk that stores the truncated candidate wins; below
/// the floor altitude nothing is found.
pub open spec fn spec_march(
    chunks: Seq<Chunk>,
    me: (int, int, int),
    mt: (int, int, int),
    y: int,
) -> Option<(int, [i32; 3], bool)>
    decreases y + 1921601,
{
    if y < -1921000 {
        None
    } else {
        let x = ray_at(me.1, mt.1, me.0, mt.0, y);
        let z = ray_at(me.1, mt.1, me.2, mt.2, y);
        match find_hit(chunks, 0, x, y, z) {
            Some(h) => Some((y, h.0, h.1)),
            None => spec_march(chunks, me, mt, y - 300),
        }
    }
}

/// Snap a unit coordinate to the nearest multiple of the snap grid.
pub open spec fn spec_snap(v: int, s: int) -> int
    recommends
        s >= 1,
{
    crate::geom::fdiv(v + tdiv(s, 2), s) * s
}

/// Clamp a targeting result into the editable world, leaving room for
/// every indicator box around it.
pub open spec fn clamp_t(v: int) -> int {
    if v < -260000 {
        -260000
    } else if v > 260000 {
        260000
    } else {
        v
    }
}

/// The full cursor-targeting computation: offset the eye and target by
/// the screen cursor through the camera basis, march the ray downward,
/// then offset along the hit voxel's normal in place mode, snap to the
/// scale grid when requested, and truncate to voxel units.
pub open spec fn spec_target(
    chunks: Seq<Chunk>,
    cam: crate::camera::Camera,
    mx: int,
    my: int,
    place_mode: bool,
    control: bool,
    alt: bool,
    snap: int,
) -> ((int, int, int), bool) {
    let me = (
        cam.eye[0] + crate::geom::tdiv_any(cam.forward[0] * my, 1000) + crate::geom::tdiv_any(
            cam.left[0] * mx,
            1000,
        ),
        cam.eye[1] + crate::geom::tdiv_any(cam.forward[1] * my, 1000) + crate::geom::tdiv_any(
            cam.left[1] * mx,
            1000,
        ),
        cam.eye[2] + crate::geom::tdiv_any(cam.forward[2] * my, 1000) + crate::geom::tdiv_any(
            cam.left[2] * mx,
            1000,
        ),
    );
    let mt = (
        cam.target[0] + crate::geom::tdiv_any(cam.forward[0] * my, 1000) + crate::geom::tdiv_any(
            cam.left[0] * mx,
            1000,
        ),
        cam.target[1] + crate::geom::tdiv_any(cam.forward[1] * my, 1000) + crate::geom::tdiv_any(
            cam.left[1] * mx,
            1000,
        ),
        cam.target[2] + crate::geom::tdiv_any(cam.forward[2] * my, 1000) + crate::geom::tdiv_any(
            cam.left[2] * mx,
            1000,
        ),
    );
    match spec_march(chunks, me, mt, 2175000) {
        Some(h) => {
            let y = h.0;
            let n = h.1;
            let persistent = h.2;
            let x = ray_at(me.1, mt.1, me.0, mt.0, y);
            let z = ray_at(me.1, mt.1, me.2, mt.2, y);
            let x2 = if persistent && place_mode && !control {
                x + n[0]
            } else {
                x
            };
            let y2 = if persistent && place_mode && !control {
                y + n[1]
            } else {
                y
            };
            let z2 = if persistent && place_mode && !control {
                z + n[2]
            } else {
                z
            };
            let xu = trunc_unit(x2);
            let yu = trunc_unit(y2);
            let zu = trunc_unit(z2);
            if persistent && alt {
                (
                    (
                        clamp_t(spec_snap(xu, snap)),
                        clamp_t(spec_snap(yu, snap)),
                        clamp_t(spec_snap(zu, snap)),
                    ),
                    true,
                )
            } else {
                ((clamp_t(xu), clamp_t(yu), clamp_t(zu)), true)
            }
        },
        None => {
            let y = cam.target[1] - 256000;
            let x = ray_at(me.1, mt.1, me.0, mt.0, y);
            let z = ray_at(me.1, mt.1, me.2, mt.2, y);
            let xu = trunc_unit(x);
            let yu = trunc_unit(y);
            let zu = trunc_unit(z);
            if alt {
                ((clamp_t(spec_snap(xu, snap)), clamp_t(yu), clamp_t(spec_snap(zu, snap))), false)
            } else {
                ((clamp_t(xu), clamp_t(yu), clamp_t(zu)), false)
            }
        },
    }
}

/// Law: targeting is deterministic. The targeted coordinate is a
/// function of the camera pose, the stored voxels, the cursor position
/// and the tool flags alone, so repeated queries of an unchanged scene
/// agree; no hidden state leaks into the ray march.
pub proof fn lemma_target_deterministic(
    chunks: Seq<Chunk>,
    cam: crate::camera::Camera,
    mx: int,
    my: int,
    place_mode: bool,
    control: bool,
    alt: bool,
    snap: int,
    r1: ((int, int, int), bool),
    r2: ((int, int, int), bool),
)
    requires
        r1 == spec_target(chunks, cam, mx, my, place_mode, control, alt, snap),
        r2 == spec_target(chunks, cam, mx, my, place_mode, control, alt, snap),
    ensures
        r1 == r2,
{
}

/// A whole number of milli-units truncates back to its unit.
pub proof fn lemma_exact_milli(v: int)
    ensures
        tdiv(v * 1000, 1000) == v,
{
    if v >= 0 {
        vstd::arithmetic::div_mod::lemma_fundamental_div_mod_converse(v * 1000, 1000, v, 0);
    } else {
        assert(-(v * 1000) == (-v) * 1000) by (nonlinear_arith);
        vstd::arithmetic::div_mod::lemma_fundamental_div_mod_converse((-v) * 1000, 1000, -v, 0);
    }
}

/// Ray-plane crossing on machine integers.
fn ray_coord_exec(ey: i64, ty: i64, ec: i64, tc: i64, y: i64) -> (r: i64)
    requires
        -210_000_000 <= ey <= 210_000_000,
        -210_000_000 <= ty <= 210_000_000,
        -210_000_000 <= ec <= 210_000_000,
        -210_000_000 <= tc <= 210_000_000,
        -70_000_000 <= y <= 70_000_000,
        ey != ty,
    ensures
        r == ray_at(ey as int, ty as int, ec as int, tc as int, y as int),
        -130_000_000_000_000_000 <= r <= 130_000_000_000_000_000,
{
    proof {
        assert(-123_200_000_000_000_000 <= (y - ey) * (ec - tc) <= 123_200_000_000_000_000)
            by (nonlinear_arith)
            requires
                -280_000_000 <= y - ey <= 280_000_000,
                -440_000_000 <= ec - tc <= 440_000_000,
        ;
        crate::geom::lemma_tdiv_abs((y - ey) * (ec - tc), if ey - ty > 0 {
            ey - ty
        } else {
            -(ey - ty)
        });
    }
    div_trunc_any((y - ey) * (ec - tc), ey - ty) + ec
}

/// Grid snapping on machine integers.
fn snap_exec(v: i64, s: i64) -> (r: i64)
    requires
        1 <= s <= 256,
        -140_000_000_000_000 <= v <= 140_000_000_000_000,
    ensures
        r == spec_snap(v as int, s as int),
        -140_000_000_000_001_000 <= r <= 140_000_000_000_001_000,
{
    let half = div_trunc(s, 2);
    let q = div_floor(v + half, s);
    proof {
        crate::geom::lemma_tdiv_abs(s as int, 2);
        vstd::arithmetic::div_mod::lemma_fundamental_div_mod(v as int + half, s as int);
        vstd::arithmetic::div_mod::lemma_mod_bound(v as int + half, s as int);
        assert(q * s == (v + half) - ((v as int + half) % (s as int))) by (nonlinear_arith)
            requires
                v + half == (s as int) * (q as int) + ((v as int + half) % (s as int)),
        ;
    }
    q * s
}

/// Clamp a targeting coordinate into the editable world.
fn clamp_exec(v: i64) -> (r: i32)
    ensures
        r == clamp_t(v as int),
        -260000 <= r <= 260000,
{
    if v < -260000 {
        -260000
    } else if v > 260000 {
        260000
    } else {
        v as i32
    }
}

/// Divide a milli quantity by the sampling ratio, truncating.
fn scaled_div(num: i64, sr: i64) -> (r: i64)
    requires
        1000 <= sr <= 4000,
        -24_000_000_000 <= num <= 24_000_000_000,
    ensures
        r == tdiv(num as int, sr as int),
        -24_000_000 <= r <= 24_000_000,
{
    proof {
        crate::geom::lemma_tdiv_abs(num as int, sr as int);
        vstd::arithmetic::div_mod::lemma_fundamental_div_mod_converse(24_000_000_000, 1000, 24_000_000, 0);
        if num >= 0 {
            vstd::arithmetic::div_mod::lemma_div_is_ordered_by_denominator(num as int, 1000, sr as int);
            vstd::arithmetic::div_mod::lemma_div_is_ordered(num as int, 24_000_000_000, 1000);
        } else {
            vstd::arithmetic::div_mod::lemma_div_is_ordered_by_denominator(-(num as int), 1000, sr as int);
            vstd::arithmetic::div_mod::lemma_div_is_ordered(-(num as int), 24_000_000_000, 1000);
        }
    }
    div_trunc(num, sr)
}

/// One scroll step of the brush radius.
fn brush_scroll(b: &mut BrushState, scroll: i32)
    requires
        1 <= old(b).radius <= 64,
    ensures
        final(b).radius == spec_radius_step(old(b).radius as int, scroll as int),
        final(b).id == old(b).id,
        final(b).color == old(b).color,
        final(b).max_id == old(b).max_id,
{
    if scroll > 0 {
        b.radius = b.radius + 1;
        if b.radius > 64 {
            b.radius = 64;
        }
    } else if scroll < 0 {
        b.radius = b.radius - 1;
        if b.radius < 1 {
            b.radius = 1;
        }
    }
}

/// One edge-triggered step of an id cursor.
fn cycle_id(id: &mut i32, max: i32, next: bool, next_od: bool, prior: bool, prior_od: bool)
    requires
        0 <= *old(id) <= max,
        0 <= max <= 1000,
    ensures
        *final(id) == spec_cycle_id(
            *old(id) as int,
            max as int,
            next,
            next_od,
            prior,
            prior_od,
        ),
        0 <= *final(id) <= max,
{
    if next && !next_od {
        *id = *id + 1;
        if *id > max {
            *id = 0;
        }
    }
    if prior && !prior_od {
        *id = *id - 1;
        if *id < 0 {
            *id = max;
        }
    }
}

/// One scroll step of the model scale.
fn model_scroll(m: &mut ModelState, scroll: i32)
    requires
        1 <= old(m).scale <= 8,
    ensures
        final(m).scale == spec_scale_step(old(m).scale as int, scroll as int),
        1 <= final(m).scale <= 8,
        final(m).id == old(m).id,
        final(m).max_id == old(m).max_id,
        final(m).height == old(m).height,
        final(m).radius == old(m).radius,
        final(m).color == old(m).color,
{
    if scroll > 0 {
        m.scale = m.scale * 2;
        if m.scale > 8 {
            m.scale = 8;
        }
    } else if scroll < 0 {
        m.scale = m.scale / 2;
        if m.scale < 1 {
            m.scale = 1;
        }
    }
}

/// The shell's tool indicator line.
fn indicator_line(st: &IndicatorState, delete: bool, tool_id: i32, radius: i32) -> (r: String)
{
    let mut itext = st.to_str();
    if delete {
        proof {
            reveal_strlit("_DELETE");
        }
        itext.append("_DELETE");
    } else {
        match st {
            IndicatorState::Place => {
                itext.append(fmt_i32(tool_id).as_str());
            },
            _ => {
                proof {
                    reveal_strlit(" pix:");
                }
                itext.append(fmt_i32(tool_id).as_str());
                itext.append(" pix:");
                itext.append(fmt_i32(radius).as_str());
            },
        }
    }
    itext
}

/// The linear tool cycle as a function.
pub open spec fn spec_turn(s: IndicatorState) -> IndicatorState {
    match s {
        IndicatorState::Normal => IndicatorState::Brush,
        IndicatorState::Brush => IndicatorState::Place,
        IndicatorState::Place => IndicatorState::Normal,
    }
}

/// Componentwise equality of two coordinate arrays.
fn indicator_eq(a: [i32; 3], b: [i32; 3]) -> (r: bool)
    ensures
        r == (pos_of(a) == pos_of(b)),
{
    a[0] == b[0] && a[1] == b[1] && a[2] == b[2]
}

/// The plain per-frame inputs the manager consumes: the frame time,
/// the controller's key and mouse flags, the scroll step, the shell's
/// paint color, and the cursor position against the render target size
/// (positions in milli-pixels).
pub struct FrameInput {
    pub dt_milli: i64,
    pub is_tab: bool,
    pub is_control: bool,
    pub is_alt: bool,
    pub is_next: bool,
    pub is_prior: bool,
    pub mouse_left: bool,
    pub scroll: i32,
    pub shell_color: [i32; 3],
    pub mouse_x: i64,
    pub mouse_y: i64,
    pub texture_w: i64,
    pub texture_h: i64,
}

/// What one frame hands back to the shell: the tool indicator line and
/// the edit command to dispatch, if the frame committed one.
pub struct FrameOutput {
    pub indicator_text: String,
    pub indicator_overdose: bool,
    pub command: Option<String>,
}

/// One step of an id cursor through `0..=max`: the next key advances,
/// the prior key retreats, both wrapping, both edge-triggered.
pub open spec fn spec_cycle_id(
    id: int,
    max: int,
    next: bool,
    next_od: bool,
    prior: bool,
    prior_od: bool,
) -> int {
    let a = if next && !next_od {
        if id + 1 > max {
            0
        } else {
            id + 1
        }
    } else {
        id
    };
    if prior && !prior_od {
        if a - 1 < 0 {
            max
        } else {
            a - 1
        }
    } else {
        a
    }
}

/// One scroll step of the brush radius, clamped to 1..=64.
pub open spec fn spec_radius_step(r: int, scroll: int) -> int {
    if scroll > 0 {
        if r + 1 > 64 {
            64
        } else {
            r + 1
        }
    } else if scroll < 0 {
        if r - 1 < 1 {
            1
        } else {
            r - 1
        }
    } else {
        r
    }
}

/// One scroll step of the model scale, doubling and halving within
/// 1..=8.
pub open spec fn spec_scale_step(s: int, scroll: int) -> int {
    if scroll > 0 {
        if s * 2 > 8 {
            8
        } else {
            s * 2
        }
    } else if scroll < 0 {
        if s / 2 < 1 {
            1
        } else {
            s / 2
        }
    } else {
        s
    }
}

/// One scroll step of the super-sampling ratio, in milli, clamped to
/// 1000..=4000.
pub open spec fn spec_ratio_step(r: int, scroll: int) -> int {
    if scroll < 0 {
        if r + 100 > 4000 {
            4000
        } else {
            r + 100
        }
    } else if scroll > 0 {
        if r - 100 < 1000 {
            1000
        } else {
            r - 100
        }
    } else {
        r
    }
}

/// The chunk manager.
pub struct ChunkManager {
    pub chunk_list: Vec<Chunk>,
    pub point_light_list: Vec<Light>,
    pub debug_mode: bool,
    pub w: i32,
    pub chunk_overdose: bool,
    pub tab_overdose: bool,
    pub indicator_state: IndicatorState,
    pub model_state: ModelState,
    pub brush_state: BrushState,
    pub pervious_indicator_first: [i32; 3],
    pub pervious_indicator_last: [i32; 3],
    pub next_overdose: bool,
    pub prior_overdose: bool,
    pub pervious_mouse_left: bool,
    pub duplicate: bool,
}

impl ChunkManager {
    /// The manager's invariant: well-formed, uniquely-celled chunks, a
    /// full light pool, and tool states within their working ranges.
    pub open spec fn wf(self) -> bool {
        &&& mgr_wf_chunks(self.chunk_list@)
        &&& self.point_light_list@.len() == 512
        &&& 1 <= self.brush_state.radius <= 64
        &&& 0 <= self.brush_state.id <= 1
        &&& self.brush_state.max_id == 1
        &&& 1 <= self.model_state.scale <= 8
        &&& 0 <= self.model_state.id <= 14
        &&& self.model_state.max_id == 14
        &&& 0 <= self.model_state.height <= 512
        &&& 0 <= self.model_state.radius <= 256
        &&& -4100000 <= self.w <= 1000
    }

    /// A fresh manager: no chunks, a 512-slot unclaimed light pool, and
    /// the initial tool states.
    pub fn new() -> (r: ChunkManager)
        ensures
            r.wf(),
            r.chunk_list@.len() == 0,
            r.debug_mode,
            r.w == 0,
            !r.chunk_overdose,
            !r.tab_overdose,
            r.indicator_state == IndicatorState::Normal,
            !r.next_overdose,
            !r.prior_overdose,
            !r.pervious_mouse_left,
            !r.duplicate,
            forall|j: int| 0 <= j < 512 ==> (#[trigger] r.point_light_list@[j]).color[3] == 0,
    {
        let mut light_vector: Vec<Light> = Vec::new();
        let mut i: usize = 0;
        while i < 512
            invariant
                0 <= i <= 512,
                light_vector@.len() == i,
                forall|j: int|
                    0 <= j < i ==> (#[trigger] light_vector@[j]).color[3] == 0,
            decreases 512 - i,
        {
            light_vector.push(Light::off());
            i += 1;
        }
        ChunkManager {
            chunk_list: Vec::new(),
            point_light_list: light_vector,
            debug_mode: true,
            w: 0,
            chunk_overdose: false,
            tab_overdose: false,
            indicator_state: IndicatorState::Normal,
            model_state: ModelState::new(),
            brush_state: BrushState::new(),
            pervious_indicator_first: [0, 0, 0],
            pervious_indicator_last: [0, 0, 0],
            next_overdose: false,
            prior_overdose: false,
            pervious_mouse_left: false,
            duplicate: false,
        }
    }

    /// Route a world-space place or delete to every chunk cell the
    /// region overlaps: each such cell's chunk of the requested role is
    /// found, or created empty on first write, and receives a `place`
    /// whose clip is the region cut down to that cell's bounds.
    #[verifier::rlimit(100)]
    #[verifier::spinoff_prover]
    pub fn place(
        &mut self,
        first: [i32; 3],
        last: [i32; 3],
        color: [i32; 4],
        delete: bool,
        chunk_type: ChunkType,
        id: i32,
    )
        requires
            old(self).wf(),
            in_world(pos_of(first)),
            in_world(pos_of(last)),
        ensures
            final(self).wf(),
            route_place_rel(
                old(self).chunk_list@,
                final(self).chunk_list@,
                pos_of(first),
                pos_of(last),
                color,
                delete,
                chunk_type,
                id as int,
            ),
            final(self).point_light_list == old(self).point_light_list,
            final(self).debug_mode == old(self).debug_mode,
            final(self).w == old(self).w,
            final(self).chunk_overdose == old(self).chunk_overdose,
            final(self).tab_overdose == old(self).tab_overdose,
            final(self).indicator_state == old(self).indicator_state,
            final(self).model_state == old(self).model_state,
            final(self).brush_state == old(self).brush_state,
            final(self).pervious_indicator_first == old(self).pervious_indicator_first,
            final(self).pervious_indicator_last == old(self).pervious_indicator_last,
            final(self).next_overdose == old(self).next_overdose,
            final(self).prior_overdose == old(self).prior_overdose,
            final(self).pervious_mouse_left == old(self).pervious_mouse_left,
            final(self).duplicate == old(self).duplicate,
    {
        let ghost lo = pos_of(first);
        let ghost hi = pos_of(last);
        let ghost pre = self.chunk_list@;
        let gxf = cell_index(first[0]);
        let gxl = cell_index(last[0]);
        let gyf = cell_index(first[1]);
        let gyl = cell_index(last[1]);
        let gzf = cell_index(first[2]);
        let gzl = cell_index(last[2]);
        proof {
            lemma_box_cells(lo, hi);
            assert(route_progress(
                pre,
                self.chunk_list@,
                lo,
                hi,
                color,
                delete,
                chunk_type,
                id as int,
                (gxf as int, gyf as int, gzf as int),
            )) by {
                assert forall|p: (int, int, int)|
                    in_world(p) && in_box(p, lo, hi) implies !lex_lt(
                    cell_triple(p),
                    (gxf as int, gyf as int, gzf as int),
                ) by {
                    assert(in_cell_range(cell_triple(p), lo, hi));
                }
            }
        }
        let mut gx = gxf;
        while gx <= gxl
            invariant
                self.wf(),
                lo == pos_of(first),
                hi == pos_of(last),
                pre == old(self).chunk_list@,
                mgr_wf_chunks(pre),
                in_world(lo),
                in_world(hi),
                gxf == cell_of(lo.0) && gxl == cell_of(hi.0),
                gyf == cell_of(lo.1) && gyl == cell_of(hi.1),
                gzf == cell_of(lo.2) && gzl == cell_of(hi.2),
                -GRID_BOUND <= gxf && gxl <= GRID_BOUND,
                -GRID_BOUND <= gyf && gyl <= GRID_BOUND,
                -GRID_BOUND <= gzf && gzl <= GRID_BOUND,
                gxf <= gx,
                gx == gxf || gx <= gxl + 1,
                route_progress(
                    pre,
                    self.chunk_list@,
                    lo,
                    hi,
                    color,
                    delete,
                    chunk_type,
                    id as int,
                    (gx as int, gyf as int, gzf as int),
                ),
                self.point_light_list == old(self).point_light_list,
                self.debug_mode == old(self).debug_mode,
                self.w == old(self).w,
                self.chunk_overdose == old(self).chunk_overdose,
                self.tab_overdose == old(self).tab_overdose,
                self.indicator_state == old(self).indicator_state,
                self.model_state == old(self).model_state,
                self.brush_state == old(self).brush_state,
                self.pervious_indicator_first == old(self).pervious_indicator_first,
                self.pervious_indicator_last == old(self).pervious_indicator_last,
                self.next_overdose == old(self).next_overdose,
                self.prior_overdose == old(self).prior_overdose,
                self.pervious_mouse_left == old(self).pervious_mouse_left,
                self.duplicate == old(self).duplicate,
            decreases gxl - gx + 1,
        {
            let mut gy = gyf;
            while gy <= gyl
                invariant
                    self.wf(),
                    lo == pos_of(first),
                    hi == pos_of(last),
                    pre == old(self).chunk_list@,
                    mgr_wf_chunks(pre),
                    in_world(lo),
                    in_world(hi),
                    gxf == cell_of(lo.0) && gxl == cell_of(hi.0),
                    gyf == cell_of(lo.1) && gyl == cell_of(hi.1),
                    gzf == cell_of(lo.2) && gzl == cell_of(hi.2),
                    -GRID_BOUND <= gxf && gxl <= GRID_BOUND,
                    -GRID_BOUND <= gyf && gyl <= GRID_BOUND,
                    -GRID_BOUND <= gzf && gzl <= GRID_BOUND,
                    gxf <= gx <= gxl,
                    gyf <= gy,
                    gy == gyf || gy <= gyl + 1,
                    route_progress(
                        pre,
                        self.chunk_list@,
                        lo,
                        hi,
                        color,
                        delete,
                        chunk_type,
                        id as int,
                        (gx as int, gy as int, gzf as int),
                    ),
                    self.point_light_list == old(self).point_light_list,
                    self.debug_mode == old(self).debug_mode,
                    self.w == old(self).w,
                    self.chunk_overdose == old(self).chunk_overdose,
                    self.tab_overdose == old(self).tab_overdose,
                    self.indicator_state == old(self).indicator_state,
                    self.model_state == old(self).model_state,
                    self.brush_state == old(self).brush_state,
                    self.pervious_indicator_first == old(self).pervious_indicator_first,
                    self.pervious_indicator_last == old(self).pervious_indicator_last,
                    self.next_overdose == old(self).next_overdose,
                    self.prior_overdose == old(self).prior_overdose,
                    self.pervious_mouse_left == old(self).pervious_mouse_left,
                    self.duplicate == old(self).duplicate,
                decreases gyl - gy + 1,
            {
                let mut gz = gzf;
                while gz <= gzl
                    invariant
                        self.wf(),
                        lo == pos_of(first),
                        hi == pos_of(last),
                        pre == old(self).chunk_list@,
                        mgr_wf_chunks(pre),
                        in_world(lo),
                        in_world(hi),
                        gxf == cell_of(lo.0) && gxl == cell_of(hi.0),
                        gyf == cell_of(lo.1) && gyl == cell_of(hi.1),
                        gzf == cell_of(lo.2) && gzl == cell_of(hi.2),
                        -GRID_BOUND <= gxf && gxl <= GRID_BOUND,
                        -GRID_BOUND <= gyf && gyl <= GRID_BOUND,
                        -GRID_BOUND <= gzf && gzl <= GRID_BOUND,
                        gxf <= gx <= gxl,
                        gyf <= gy <= gyl,
                        gzf <= gz,
                        gz == gzf || gz <= gzl + 1,
                        route_progress(
                            pre,
                            self.chunk_list@,
                            lo,
                            hi,
                            color,
                            delete,
                            chunk_type,
                            id as int,
                            (gx as int, gy as int, gz as int),
                        ),
                        self.point_light_list == old(self).point_light_list,
                        self.debug_mode == old(self).debug_mode,
                        self.w == old(self).w,
                        self.chunk_overdose == old(self).chunk_overdose,
                        self.tab_overdose == old(self).tab_overdose,
                        self.indicator_state == old(self).indicator_state,
                        self.model_state == old(self).model_state,
                        self.brush_state == old(self).brush_state,
                        self.pervious_indicator_first == old(self).pervious_indicator_first,
                        self.pervious_indicator_last == old(self).pervious_indicator_last,
                        self.next_overdose == old(self).next_overdose,
                        self.prior_overdose == old(self).prior_overdose,
                        self.pervious_mouse_left == old(self).pervious_mouse_left,
                        self.duplicate == old(self).duplicate,
                    decreases gzl - gz + 1,
                {
                    let ghost g = (gx as int, gy as int, gz as int);
                    let ghost gnext = (gx as int, gy as int, gz as int + 1);
                    let ghost cur = self.chunk_list@;
                    let bx_min = gx * RADIUS_VOXEL - RADIUS_VOXEL / 2;
                    let bx_max = gx * RADIUS_VOXEL + RADIUS_VOXEL / 2 - 1;
                    let by_min = gy * RADIUS_VOXEL - RADIUS_VOXEL / 2;
                    let by_max = gy * RADIUS_VOXEL + RADIUS_VOXEL / 2 - 1;
                    let bz_min = gz * RADIUS_VOXEL - RADIUS_VOXEL / 2;
                    let bz_max = gz * RADIUS_VOXEL + RADIUS_VOXEL / 2 - 1;
                    let cf0 = if bx_min < first[0] {
                        first[0]
                    } else {
                        bx_min
                    };
                    let cl0 = if bx_max > last[0] {
                        last[0]
                    } else {
                        bx_max
                    };
                    let cf1 = if by_min < first[1] {
                        first[1]
                    } else {
                        by_min
                    };
                    let cl1 = if by_max > last[1] {
                        last[1]
                    } else {
                        by_max
                    };
                    let cf2 = if bz_min < first[2] {
                        first[2]
                    } else {
                        bz_min
                    };
                    let cl2 = if bz_max > last[2] {
                        last[2]
                    } else {
                        bz_max
                    };
                    let cfa = [cf0, cf1, cf2];
                    let cla = [cl0, cl1, cl2];
                    proof {
                        assert(bx_min as int == cell_min(g.0) && bx_max as int == cell_max(g.0));
                        assert(by_min as int == cell_min(g.1) && by_max as int == cell_max(g.1));
                        assert(bz_min as int == cell_min(g.2) && bz_max as int == cell_max(g.2));
                        assert(cell_min(-(GRID_BOUND as int)) <= cell_min(g.0)) by (nonlinear_arith)
                            requires
                                -(GRID_BOUND as int) <= g.0,
                        ;
                        assert(cell_min(-(GRID_BOUND as int)) <= cell_min(g.1)) by (nonlinear_arith)
                            requires
                                -(GRID_BOUND as int) <= g.1,
                        ;
                        assert(cell_min(-(GRID_BOUND as int)) <= cell_min(g.2)) by (nonlinear_arith)
                            requires
                                -(GRID_BOUND as int) <= g.2,
                        ;
                        assert(cell_max(g.0) <= cell_max(GRID_BOUND as int)) by (nonlinear_arith)
                            requires
                                g.0 <= GRID_BOUND as int,
                        ;
                        assert(cell_max(g.1) <= cell_max(GRID_BOUND as int)) by (nonlinear_arith)
                            requires
                                g.1 <= GRID_BOUND as int,
                        ;
                        assert(cell_max(g.2) <= cell_max(GRID_BOUND as int)) by (nonlinear_arith)
                            requires
                                g.2 <= GRID_BOUND as int,
                        ;
                        assert(pos_of(cfa) == cell_clip_lo(g, lo));
                        assert(pos_of(cla) == cell_clip_hi(g, hi));
                    }
                    // Find the chunk of this cell and role, if any.
                    let n = self.chunk_list.len();
                    let mut jj: usize = 0;
                    let mut found = false;
                    let mut fidx: usize = 0;
                    while jj < n
                        invariant
                            n == self.chunk_list@.len(),
                            g == (gx as int, gy as int, gz as int),
                            0 <= jj <= n,
                            found ==> fidx < n && (self.chunk_list@[fidx as int]).current_type
                                == chunk_type && pos_of(self.chunk_list@[fidx as int].position)
                                == g,
                            !found ==> forall|t: int|
                                0 <= t < jj ==> !((#[trigger] self.chunk_list@[t]).current_type
                                    == chunk_type && pos_of(self.chunk_list@[t].position) == g),
                        decreases n - jj,
                    {
                        let same_type = self.chunk_list[jj].current_type == chunk_type;
                        let same_cell = self.chunk_list[jj].position[0] == gx
                            && self.chunk_list[jj].position[1] == gy
                            && self.chunk_list[jj].position[2] == gz;
                        if same_type && same_cell && !found {
                            found = true;
                            fidx = jj;
                        }
                        jj += 1;
                    }
                    if found {
                        let ghost cj = cur[fidx as int];
                        let cref = &mut self.chunk_list[fidx];
                        proof {
                            assert(cj.wf());
                            assert forall|p: (int, int, int)| #[trigger]
                                in_box(p, pos_of(cfa), pos_of(cla)) implies cj.in_bounds(p)
                                && in_box(p, lo, hi) by {}
                        }
                        cref.place(cfa, cla, first, last, color, delete, id);
                        proof {
                            let c2 = self.chunk_list@[fidx as int];
                            assert(self.chunk_list@ == cur.update(fidx as int, c2));
                            lemma_update_keeps_cells(cur, fidx as int, c2);
                            lemma_world_update_cell(cur, fidx as int, c2);
                            assert(has_cell(self.chunk_list@, g, chunk_type)) by {
                                assert(pos_of(self.chunk_list@[fidx as int].position) == g);
                            }
                            assert forall|p: (int, int, int)| #[trigger]
                                cell_triple(p) == g implies (world_contains(cur, chunk_type, p)
                                == cj.contains_pos(p) && (cj.contains_pos(p) ==> world_at(
                                cur,
                                chunk_type,
                                p,
                            ) == cj.at_pos(p))) by {
                                lemma_world_via_cell(cur, chunk_type, p, fidx as int);
                            }
                            assert forall|r: ChunkType, gg: (int, int, int)|
                                !(r == chunk_type && gg == g) implies (#[trigger] has_cell(
                                self.chunk_list@,
                                gg,
                                r,
                            ) == has_cell(cur, gg, r)) by {}
                            lemma_route_step(
                                pre,
                                cur,
                                self.chunk_list@,
                                lo,
                                hi,
                                color,
                                delete,
                                chunk_type,
                                id as int,
                                g,
                                gnext,
                                fidx as int,
                                cj,
                            );
                        }
                    } else {
                        let mut cnew = Chunk::empty(gx, gy, gz, true, chunk_type);
                        let ghost cempty = cnew;
                        proof {
                            assert forall|p: (int, int, int)| #[trigger]
                                in_box(p, pos_of(cfa), pos_of(cla)) implies cnew.in_bounds(p)
                                && in_box(p, lo, hi) by {}
                        }
                        cnew.place(cfa, cla, first, last, color, delete, id);
                        self.chunk_list.push(cnew);
                        proof {
                            let c2 = self.chunk_list@[n as int];
                            assert(self.chunk_list@ == cur.push(c2));
                            assert(!has_cell(cur, g, chunk_type)) by {
                                if has_cell(cur, g, chunk_type) {
                                    let t = choose|t: int|
                                        0 <= t < cur.len() && pos_of(
                                            (#[trigger] cur[t]).position,
                                        ) == g && cur[t].current_type == chunk_type;
                                    assert(!(cur[t].current_type == chunk_type && pos_of(
                                        cur[t].position,
                                    ) == g));
                                }
                            }
                            assert(pos_of(c2.position) == g);
                            lemma_world_push(cur, c2);
                            assert(has_cell(self.chunk_list@, g, chunk_type)) by {
                                assert(pos_of(self.chunk_list@[n as int].position) == g);
                            }
                            assert forall|p: (int, int, int)| #[trigger]
                                cell_triple(p) == g implies (world_contains(cur, chunk_type, p)
                                == cempty.contains_pos(p) && (cempty.contains_pos(p)
                                ==> world_at(cur, chunk_type, p) == cempty.at_pos(p))) by {
                                lemma_world_no_holder(cur, chunk_type, p);
                                assert(!cempty.contains_pos(p));
                            }
                            assert forall|r: ChunkType, gg: (int, int, int)|
                                !(r == chunk_type && gg == g) implies (#[trigger] has_cell(
                                self.chunk_list@,
                                gg,
                                r,
                            ) == has_cell(cur, gg, r)) by {}
                            lemma_route_step(
                                pre,
                                cur,
                                self.chunk_list@,
                                lo,
                                hi,
                                color,
                                delete,
                                chunk_type,
                                id as int,
                                g,
                                gnext,
                                n as int,
                                cempty,
                            );
                        }
                    }
                    gz += 1;
                }
                proof {
                    let c1 = (gx as int, gy as int, gz as int);
                    let c2 = (gx as int, gy as int + 1, gzf as int);
                    assert forall|gg: (int, int, int)|
                        in_cell_range(gg, lo, hi) implies (lex_lt(gg, c1) == #[trigger] lex_lt(
                        gg,
                        c2,
                    )) by {}
                    lemma_route_cursor_shift(
                        pre,
                        self.chunk_list@,
                        lo,
                        hi,
                        color,
                        delete,
                        chunk_type,
                        id as int,
                        c1,
                        c2,
                    );
                }
                gy += 1;
            }
            proof {
                let c1 = (gx as int, gy as int, gzf as int);
                let c2 = (gx as int + 1, gyf as int, gzf as int);
                assert forall|gg: (int, int, int)|
                    in_cell_range(gg, lo, hi) implies (lex_lt(gg, c1) == #[trigger] lex_lt(
                    gg,
                    c2,
                )) by {}
                lemma_route_cursor_shift(
                    pre,
                    self.chunk_list@,
                    lo,
                    hi,
                    color,
                    delete,
                    chunk_type,
                    id as int,
                    c1,
                    c2,
                );
            }
            gx += 1;
        }
        proof {
            lemma_box_cells(lo, hi);
            let cfin = (gx as int, gyf as int, gzf as int);
            assert(route_place_rel(
                pre,
                self.chunk_list@,
                lo,
                hi,
                color,
                delete,
                chunk_type,
                id as int,
            )) by {
                assert forall|p: (int, int, int)|
                    in_world(p) && in_box(p, lo, hi) implies lex_lt(cell_triple(p), cfin) by {
                    assert(in_cell_range(cell_triple(p), lo, hi));
                }
                assert forall|gg: (int, int, int)|
                    in_cell_range(gg, lo, hi) implies lex_lt(gg, cfin) by {}
            }
        }
    }

    /// Build the frame's indicator box for the active tool, preview it
    /// as the cursor-indicator chunk, and emit the frame's edit command
    /// when one is due.
    #[verifier::rlimit(100)]
    #[verifier::spinoff_prover]
    fn run_indicator(
        &mut self,
        tpos: [i32; 3],
        delete: bool,
        emit: bool,
        was_held: bool,
        color_in: [i32; 4],
    ) -> (r: ([i32; 3], [i32; 3], Option<String>))
        requires
            old(self).wf(),
            forall|i: int| 0 <= i < 3 ==> -260000 <= #[trigger] tpos[i] <= 260000,
            forall|i: int| 0 <= i < 4 ==> #[trigger] color_in[i] > i32::MIN,
        ensures
            final(self).wf(),
            final(self).indicator_state == old(self).indicator_state,
            final(self).brush_state == old(self).brush_state,
            final(self).model_state == old(self).model_state,
            final(self).w == old(self).w,
            final(self).debug_mode == old(self).debug_mode,
            final(self).chunk_overdose == old(self).chunk_overdose,
            final(self).tab_overdose == old(self).tab_overdose,
            final(self).next_overdose == old(self).next_overdose,
            final(self).prior_overdose == old(self).prior_overdose,
            final(self).pervious_mouse_left == old(self).pervious_mouse_left,
            final(self).pervious_indicator_first == old(self).pervious_indicator_first,
            final(self).pervious_indicator_last == old(self).pervious_indicator_last,
            final(self).duplicate == old(self).duplicate,
            final(self).point_light_list@.len() == 512,
            (r.2 is Some) == (emit && (old(self).indicator_state == IndicatorState::Brush || (old(
                self,
            ).indicator_state == IndicatorState::Place && !was_held))),
    {
        let mut color = color_in;
        let indicator_first: [i32; 3];
        let mut indicator_last: [i32; 3];
        let id: i32;
        match self.indicator_state {
            IndicatorState::Normal => {
                indicator_first = [
                    tpos[0] - self.model_state.radius / 2,
                    tpos[1],
                    tpos[2] - self.model_state.radius / 2,
                ];
                indicator_last = [
                    tpos[0] + self.model_state.radius / 2 - 1,
                    tpos[1] + self.model_state.height - 1,
                    tpos[2] + self.model_state.radius / 2 - 1,
                ];
                id = 0;
            },
            IndicatorState::Brush => {
                indicator_first = [
                    tpos[0] - self.brush_state.radius / 2,
                    tpos[1] - self.brush_state.radius / 2,
                    tpos[2] - self.brush_state.radius / 2,
                ];
                indicator_last = [
                    tpos[0] + self.brush_state.radius / 2,
                    tpos[1] + self.brush_state.radius / 2,
                    tpos[2] + self.brush_state.radius / 2,
                ];
                if delete {
                    color = [1000, 1000, 1000, 1000];
                }
                self.place(
                    indicator_first,
                    indicator_last,
                    color,
                    false,
                    ChunkType::CursorIndicator,
                    1,
                );
                id = self.brush_state.id;
            },
            IndicatorState::Place => {
                if delete {
                    indicator_first = [tpos[0] - 128, tpos[1], tpos[2] - 128];
                    indicator_last = [tpos[0] + 127, tpos[1], tpos[2] + 127];
                } else {
                    indicator_first = [
                        tpos[0] - self.model_state.radius / 2,
                        tpos[1],
                        tpos[2] - self.model_state.radius / 2,
                    ];
                    indicator_last = [
                        tpos[0] + self.model_state.radius / 2 - 1,
                        tpos[1] + self.model_state.height - 1,
                        tpos[2] + self.model_state.radius / 2 - 1,
                    ];
                }
                id = self.model_state.id;
                self.place(
                    [indicator_first[0], indicator_first[1] + 1, indicator_first[2]],
                    [indicator_last[0], indicator_last[1] + 1, indicator_last[2]],
                    color,
                    false,
                    ChunkType::CursorIndicator,
                    id,
                );
                if delete {
                    indicator_last[1] = 2048;
                }
            },
        }
        let mut command: Option<String> = None;
        if emit {
            color = [color[0], color[1], color[2], 1000];
            match self.indicator_state {
                IndicatorState::Brush => {
                    command = Some(
                        crate::command::format_command(
                            "/draw",
                            indicator_first,
                            indicator_last,
                            color,
                            id,
                        ),
                    );
                },
                IndicatorState::Place => {
                    if !was_held {
                        if delete {
                            command = Some(
                                crate::command::format_command(
                                    "/delete",
                                    indicator_first,
                                    indicator_last,
                                    color,
                                    id,
                                ),
                            );
                        } else {
                            command = Some(
                                crate::command::format_command(
                                    "/place",
                                    indicator_first,
                                    indicator_last,
                                    color,
                                    id,
                                ),
                            );
                        }
                    }
                },
                IndicatorState::Normal => {
                },
            }
        }
        (indicator_first, indicator_last, command)
    }

    /// One frame of the manager: advance the pulsing indicator alpha,
    /// cycle the tool on a debounced tab press, apply the scroll wheel
    /// to the sampling ratio or the active tool, run the targeting ray
    /// march, preview the cursor indicator, and, on a debounced click,
    /// emit the frame's edit command.
    #[verifier::rlimit(100)]
    #[verifier::spinoff_prover]
    pub fn update(
        &mut self,
        input: &FrameInput,
        camera: &crate::camera::Camera,
        sample_ratio: &mut i32,
    ) -> (r: FrameOutput)
        requires
            old(self).wf(),
            camera.wf(),
            0 <= input.dt_milli <= 1000000,
            forall|i: int| 0 <= i < 3 ==> 0 <= #[trigger] input.shell_color[i] <= 1000,
            -4000000 <= input.mouse_x <= 4000000,
            -4000000 <= input.mouse_y <= 4000000,
            0 <= input.texture_w <= 8000000,
            0 <= input.texture_h <= 8000000,
            1000 <= *old(sample_ratio) <= 4000,
        ensures
            final(self).wf(),
            final(self).w == if old(self).w < -500 {
                1000int
            } else {
                old(self).w - 4 * input.dt_milli
            },
            final(self).tab_overdose == input.is_tab,
            final(self).chunk_overdose == input.mouse_left,
            final(self).next_overdose == input.is_next,
            final(self).prior_overdose == input.is_prior,
            final(self).pervious_mouse_left == input.mouse_left,
            final(self).debug_mode == old(self).debug_mode,
            *final(sample_ratio) == if input.is_control {
                spec_ratio_step(*old(sample_ratio) as int, input.scroll as int)
            } else {
                *old(sample_ratio) as int
            },
            1000 <= *final(sample_ratio) <= 4000,
            r.indicator_overdose == old(self).tab_overdose,
            final(self).point_light_list@.len() == 512,
            ({
                let st = if input.is_tab && !old(self).tab_overdose {
                    spec_turn(old(self).indicator_state)
                } else {
                    old(self).indicator_state
                };
                &&& final(self).indicator_state == st
                &&& final(self).brush_state.id == (if !input.is_control && st
                    == IndicatorState::Brush {
                    spec_cycle_id(
                        old(self).brush_state.id as int,
                        1,
                        input.is_next,
                        old(self).next_overdose,
                        input.is_prior,
                        old(self).prior_overdose,
                    )
                } else {
                    old(self).brush_state.id as int
                })
                &&& final(self).model_state.id == (if !input.is_control && st
                    == IndicatorState::Place {
                    spec_cycle_id(
                        old(self).model_state.id as int,
                        14,
                        input.is_next,
                        old(self).next_overdose,
                        input.is_prior,
                        old(self).prior_overdose,
                    )
                } else {
                    old(self).model_state.id as int
                })
                &&& final(self).model_state.scale == (if !input.is_control && st
                    == IndicatorState::Place {
                    spec_scale_step(old(self).model_state.scale as int, input.scroll as int)
                } else {
                    old(self).model_state.scale as int
                })
                &&& final(self).brush_state.radius == (if final(self).brush_state.id == 1 {
                    1int
                } else if !input.is_control && (st == IndicatorState::Normal || st
                    == IndicatorState::Brush) {
                    spec_radius_step(old(self).brush_state.radius as int, input.scroll as int)
                } else {
                    old(self).brush_state.radius as int
                })
                &&& (r.command is Some) == (input.mouse_left && !old(self).duplicate && (st
                    == IndicatorState::Brush || (st == IndicatorState::Place && !old(
                    self,
                ).chunk_overdose)))
            }),
    {
        let ghost pre = *old(self);
        let old_tab = self.tab_overdose;
        // the pulsing indicator alpha
        if self.w < -500 {
            self.w = 1000;
        } else {
            self.w = self.w - (4 * input.dt_milli) as i32;
        }
        // debounced tool cycling
        if input.is_tab && !self.tab_overdose {
            self.indicator_state = self.indicator_state.turn();
        }
        let ghost st = self.indicator_state;
        let delete = input.is_control;
        let base: [i32; 3] = if delete {
            [500, 200, 200]
        } else {
            input.shell_color
        };
        let mut color: [i32; 4] = [base[0], base[1], base[2], self.w];
        // the shell color drives the primary light
        let l0pos = self.point_light_list[0].position;
        self.point_light_list[0] = crate::voxel::Light {
            position: l0pos,
            color: [base[0], base[1], base[2], 1000],
        };
        // scroll: sampling ratio under control, the active tool otherwise
        if input.is_control {
            if input.scroll < 0 {
                *sample_ratio = *sample_ratio + 100;
                if *sample_ratio > 4000 {
                    *sample_ratio = 4000;
                }
            } else if input.scroll > 0 {
                *sample_ratio = *sample_ratio - 100;
                if *sample_ratio < 1000 {
                    *sample_ratio = 1000;
                }
            }
        } else {
            match self.indicator_state {
                IndicatorState::Normal => {
                    brush_scroll(&mut self.brush_state, input.scroll);
                },
                IndicatorState::Brush => {
                    brush_scroll(&mut self.brush_state, input.scroll);
                    cycle_id(
                        &mut self.brush_state.id,
                        1,
                        input.is_next,
                        self.next_overdose,
                        input.is_prior,
                        self.prior_overdose,
                    );
                },
                IndicatorState::Place => {
                    model_scroll(&mut self.model_state, input.scroll);
                    cycle_id(
                        &mut self.model_state.id,
                        14,
                        input.is_next,
                        self.next_overdose,
                        input.is_prior,
                        self.prior_overdose,
                    );
                },
            }
        }
        self.model_state.update();
        self.brush_state.update();
        // the indicator line for the shell
        let tool_id = match self.indicator_state {
            IndicatorState::Place => self.model_state.id,
            _ => self.brush_state.id,
        };
        let itext = indicator_line(&self.indicator_state, delete, tool_id, self.brush_state.radius);
        // cursor targeting
        let mx = scaled_div((input.mouse_x - input.texture_w / 2) * 1000, *sample_ratio as i64);
        let my = scaled_div((input.mouse_y - input.texture_h / 2) * 3000, *sample_ratio as i64);
        let snap = footprint(self.model_state.scale);
        let place_mode = match self.indicator_state {
            IndicatorState::Place => true,
            _ => false,
        };
        let (tpos, _found) = self.target_voxel(
            camera,
            mx,
            my,
            place_mode,
            input.is_control,
            input.is_alt,
            snap,
        );
        let (indicator_first, indicator_last, command) = self.run_indicator(
            tpos,
            delete,
            input.mouse_left && !self.duplicate,
            self.chunk_overdose,
            color,
        );
        // close the frame's debounce state
        self.chunk_overdose = input.mouse_left;
        self.tab_overdose = input.is_tab;
        self.duplicate = self.pervious_mouse_left && indicator_eq(
            self.pervious_indicator_first,
            indicator_first,
        );
        self.prior_overdose = input.is_prior;
        self.next_overdose = input.is_next;
        self.pervious_indicator_first = indicator_first;
        self.pervious_indicator_last = indicator_last;
        self.pervious_mouse_left = input.mouse_left;
        FrameOutput {
            indicator_text: itext,
            indicator_overdose: old_tab,
            command,
        }
    }

    /// The cursor-to-voxel targeting ray march; see `spec_target`. The
    /// result is the targeted voxel coordinate in world units and
    /// whether a stored voxel was hit.
    #[verifier::rlimit(100)]
    #[verifier::spinoff_prover]
    pub fn target_voxel(
        &self,
        cam: &crate::camera::Camera,
        mx: i64,
        my: i64,
        place_mode: bool,
        control: bool,
        alt: bool,
        snap: i32,
    ) -> (r: ([i32; 3], bool))
        requires
            self.wf(),
            cam.wf(),
            -33_554_432 <= mx <= 33_554_432,
            -33_554_432 <= my <= 33_554_432,
            1 <= snap <= 256,
        ensures
            pos_of(r.0) == spec_target(
                self.chunk_list@,
                *cam,
                mx as int,
                my as int,
                place_mode,
                control,
                alt,
                snap as int,
            ).0,
            r.1 == spec_target(
                self.chunk_list@,
                *cam,
                mx as int,
                my as int,
                place_mode,
                control,
                alt,
                snap as int,
            ).1,
            in_world(pos_of(r.0)),
    {
        let ghost chunks = self.chunk_list@;
        proof {
            assert forall|a: int, b: int|
                -2000 <= a <= 2000 && -33_554_432 <= b <= 33_554_432 implies -68_000_000_000 <= #[trigger] (
            a * b) <= 68_000_000_000 by {
                assert(-68_000_000_000 <= a * b <= 68_000_000_000) by (nonlinear_arith)
                    requires
                        -2000 <= a <= 2000,
                        -33_554_432 <= b <= 33_554_432,
                ;
            }
        }
        let fx = div_trunc(cam.forward[0] * my, 1000) + div_trunc(cam.left[0] * mx, 1000);
        let fy = div_trunc(cam.forward[1] * my, 1000) + div_trunc(cam.left[1] * mx, 1000);
        let fz = div_trunc(cam.forward[2] * my, 1000) + div_trunc(cam.left[2] * mx, 1000);
        proof {
            crate::geom::lemma_tdiv_abs(cam.forward[0] as int * my as int, 1000);
            crate::geom::lemma_tdiv_abs(cam.forward[1] as int * my as int, 1000);
            crate::geom::lemma_tdiv_abs(cam.forward[2] as int * my as int, 1000);
            crate::geom::lemma_tdiv_abs(cam.left[0] as int * mx as int, 1000);
            crate::geom::lemma_tdiv_abs(cam.left[1] as int * mx as int, 1000);
            crate::geom::lemma_tdiv_abs(cam.left[2] as int * mx as int, 1000);
        }
        let mex = cam.eye[0] + fx;
        let mey = cam.eye[1] + fy;
        let mez = cam.eye[2] + fz;
        let mtx = cam.target[0] + fx;
        let mty = cam.target[1] + fy;
        let mtz = cam.target[2] + fz;
        let ghost me = (mex as int, mey as int, mez as int);
        let ghost mt = (mtx as int, mty as int, mtz as int);
        proof {
            assert(mey - mty == cam.eye[1] - cam.target[1]);
        }
        let mut y: i64 = 2175000;
        let mut hit: Option<([i32; 3], bool)> = None;
        let mut hit_y: i64 = 0;
        while y >= -1921000 && hit.is_none()
            invariant
                self.wf(),
                chunks == self.chunk_list@,
                -210_000_000 <= mex <= 210_000_000,
                -210_000_000 <= mey <= 210_000_000,
                -210_000_000 <= mez <= 210_000_000,
                -210_000_000 <= mtx <= 210_000_000,
                -210_000_000 <= mty <= 210_000_000,
                -210_000_000 <= mtz <= 210_000_000,
                mey != mty,
                me == (mex as int, mey as int, mez as int),
                mt == (mtx as int, mty as int, mtz as int),
                -1921300 <= y <= 2175000,
                hit.is_none() ==> spec_march(chunks, me, mt, 2175000) == spec_march(
                    chunks,
                    me,
                    mt,
                    y as int,
                ),
                hit.is_some() ==> -1921000 <= hit_y <= 2175000 && spec_march(
                    chunks,
                    me,
                    mt,
                    2175000,
                ) == Some((hit_y as int, hit.unwrap().0, hit.unwrap().1)),
            decreases (if hit.is_none() {
                1int
            } else {
                0int
            }), y + 1921601,
        {
            let xq = ray_coord_exec(mey, mty, mex, mtx, y);
            let zq = ray_coord_exec(mey, mty, mez, mtz, y);
            let n = self.chunk_list.len();
            let mut j: usize = 0;
            let mut fh: Option<([i32; 3], bool)> = None;
            while j < n && fh.is_none()
                invariant
                    self.wf(),
                    chunks == self.chunk_list@,
                    n == chunks.len(),
                    0 <= j <= n,
                    -130_000_000_000_000_000 <= xq <= 130_000_000_000_000_000,
                    -130_000_000_000_000_000 <= zq <= 130_000_000_000_000_000,
                    -1921300 <= y <= 2175000,
                    fh.is_none() ==> find_hit(chunks, 0, xq as int, y as int, zq as int)
                        == find_hit(chunks, j as int, xq as int, y as int, zq as int),
                    fh.is_some() ==> find_hit(chunks, 0, xq as int, y as int, zq as int) == fh,
                decreases (if fh.is_none() {
                    1int
                } else {
                    0int
                }), n - j,
            {
                let ghost c_g = chunks[j as int];
                let not_cursor = match self.chunk_list[j].current_type {
                    ChunkType::CursorIndicator => false,
                    _ => true,
                };
                let bxmin = (self.chunk_list[j].position[0] as i64) * 256000 - 128000;
                let bxmax = (self.chunk_list[j].position[0] as i64) * 256000 + 127000;
                let bymin = (self.chunk_list[j].position[1] as i64) * 256000 - 128000;
                let bymax = (self.chunk_list[j].position[1] as i64) * 256000 + 127000;
                let bzmin = (self.chunk_list[j].position[2] as i64) * 256000 - 128000;
                let bzmax = (self.chunk_list[j].position[2] as i64) * 256000 + 127000;
                let inside = bxmin <= xq && xq <= bxmax && bymin <= y && y <= bymax && bzmin <= zq
                    && zq <= bzmax;
                proof {
                    assert(bxmin as int == cell_min(c_g.position[0] as int) * 1000 && bxmax as int
                        == cell_max(c_g.position[0] as int) * 1000) by (nonlinear_arith)
                        requires
                            bxmin as int == (c_g.position[0] as int) * 256000 - 128000,
                            bxmax as int == (c_g.position[0] as int) * 256000 + 127000,
                    ;
                    assert(bymin as int == cell_min(c_g.position[1] as int) * 1000 && bymax as int
                        == cell_max(c_g.position[1] as int) * 1000) by (nonlinear_arith)
                        requires
                            bymin as int == (c_g.position[1] as int) * 256000 - 128000,
                            bymax as int == (c_g.position[1] as int) * 256000 + 127000,
                    ;
                    assert(bzmin as int == cell_min(c_g.position[2] as int) * 1000 && bzmax as int
                        == cell_max(c_g.position[2] as int) * 1000) by (nonlinear_arith)
                        requires
                            bzmin as int == (c_g.position[2] as int) * 256000 - 128000,
                            bzmax as int == (c_g.position[2] as int) * 256000 + 127000,
                    ;
                    assert(inside == bbox_contains_milli(c_g, xq as int, y as int, zq as int));
                }
                if not_cursor && inside {
                    let ux = div_trunc(xq, 1000);
                    let uy = div_trunc(y, 1000);
                    let uz = div_trunc(zq, 1000);
                    proof {
                        crate::geom::lemma_tdiv_monotone(bxmin as int, xq as int, 1000);
                        crate::geom::lemma_tdiv_monotone(xq as int, bxmax as int, 1000);
                        crate::geom::lemma_tdiv_monotone(bymin as int, y as int, 1000);
                        crate::geom::lemma_tdiv_monotone(y as int, bymax as int, 1000);
                        crate::geom::lemma_tdiv_monotone(bzmin as int, zq as int, 1000);
                        crate::geom::lemma_tdiv_monotone(zq as int, bzmax as int, 1000);
                        assert(tdiv(cell_min(c_g.position[0] as int) * 1000, 1000) == cell_min(
                            c_g.position[0] as int,
                        ) && tdiv(cell_max(c_g.position[0] as int) * 1000, 1000) == cell_max(
                            c_g.position[0] as int,
                        )) by {
                            lemma_exact_milli(cell_min(c_g.position[0] as int));
                            lemma_exact_milli(cell_max(c_g.position[0] as int));
                        }
                        assert(tdiv(cell_min(c_g.position[1] as int) * 1000, 1000) == cell_min(
                            c_g.position[1] as int,
                        ) && tdiv(cell_max(c_g.position[1] as int) * 1000, 1000) == cell_max(
                            c_g.position[1] as int,
                        )) by {
                            lemma_exact_milli(cell_min(c_g.position[1] as int));
                            lemma_exact_milli(cell_max(c_g.position[1] as int));
                        }
                        assert(tdiv(cell_min(c_g.position[2] as int) * 1000, 1000) == cell_min(
                            c_g.position[2] as int,
                        ) && tdiv(cell_max(c_g.position[2] as int) * 1000, 1000) == cell_max(
                            c_g.position[2] as int,
                        )) by {
                            lemma_exact_milli(cell_min(c_g.position[2] as int));
                            lemma_exact_milli(cell_max(c_g.position[2] as int));
                        }
                        assert(c_g.in_bounds((ux as int, uy as int, uz as int)));
                        c_g.lemma_bounds_in_world((ux as int, uy as int, uz as int));
                    }
                    let upos = [ux as i32, uy as i32, uz as i32];
                    let key = pack_pos(upos);
                    let ghost tp = (ux as int, uy as int, uz as int);
                    match self.chunk_list[j].position_hash.get(&key) {
                        Some(idx_ref) => {
                            let idx = *idx_ref;
                            proof {
                                assert(c_g.position_hash@.contains_key(key)
                                    && c_g.position_hash@[key] == idx);
                                let i = choose|i: int|
                                    0 <= i < c_g.vox().len() && key_of(
                                        pos_of(c_g.vox()[i].position),
                                    ) == key;
                                c_g.lemma_bounds_in_world(pos_of(c_g.vox()[i].position));
                                crate::geom::lemma_key_of_injective(
                                    pos_of(c_g.vox()[i].position),
                                    tp,
                                );
                                assert(c_g.contains_pos(tp));
                                assert(idx == i);
                                crate::chunk::lemma_seq_at_pos(c_g.vox(), tp, i);
                            }
                            let is_persistent = match self.chunk_list[j].current_type {
                                ChunkType::Persistent => true,
                                _ => false,
                            };
                            let nv = self.chunk_list[j].voxel_data[idx].normal;
                            fh = Some((nv, is_persistent));
                            proof {
                                assert(find_hit(chunks, j as int, xq as int, y as int, zq as int)
                                    == fh);
                            }
                        },
                        None => {
                            proof {
                                assert(!c_g.position_hash@.contains_key(key));
                                assert(!c_g.contains_pos(tp)) by {
                                    if c_g.contains_pos(tp) {
                                        let i = choose|i: int|
                                            0 <= i < c_g.vox().len() && pos_of(
                                                c_g.vox()[i].position,
                                            ) == tp;
                                        assert(c_g.position_hash@.contains_key(
                                            key_of(pos_of(c_g.vox()[i].position)),
                                        ));
                                    }
                                }
                                assert(find_hit(chunks, j as int, xq as int, y as int, zq as int)
                                    == find_hit(
                                    chunks,
                                    j as int + 1,
                                    xq as int,
                                    y as int,
                                    zq as int,
                                ));
                            }
                        },
                    }
                } else {
                    proof {
                        assert(find_hit(chunks, j as int, xq as int, y as int, zq as int)
                            == find_hit(chunks, j as int + 1, xq as int, y as int, zq as int));
                    }
                }
                j += 1;
            }
            match fh {
                Some(h) => {
                    hit = Some(h);
                    hit_y = y;
                    proof {
                        assert(spec_march(chunks, me, mt, y as int) == Some((
                            y as int,
                            h.0,
                            h.1,
                        )));
                    }
                },
                None => {
                    proof {
                        assert(find_hit(chunks, 0, xq as int, y as int, zq as int) is None);
                        assert(spec_march(chunks, me, mt, y as int) == spec_march(
                            chunks,
                            me,
                            mt,
                            y as int - 300,
                        ));
                    }
                    y = y - 300;
                },
            }
        }
        match hit {
            Some(h) => {
                let xq = ray_coord_exec(mey, mty, mex, mtx, hit_y);
                let zq = ray_coord_exec(mey, mty, mez, mtz, hit_y);
                let persistent = h.1;
                let offset = persistent && place_mode && !control;
                let x2 = if offset {
                    xq + h.0[0] as i64
                } else {
                    xq
                };
                let y2 = if offset {
                    hit_y + h.0[1] as i64
                } else {
                    hit_y
                };
                let z2 = if offset {
                    zq + h.0[2] as i64
                } else {
                    zq
                };
                let xu = div_trunc(x2, 1000);
                let yu = div_trunc(y2, 1000);
                let zu = div_trunc(z2, 1000);
                proof {
                    crate::geom::lemma_tdiv_abs(x2 as int, 1000);
                    crate::geom::lemma_tdiv_abs(y2 as int, 1000);
                    crate::geom::lemma_tdiv_abs(z2 as int, 1000);
                }
                if persistent && alt {
                    let xs = snap_exec(xu, snap as i64);
                    let ys = snap_exec(yu, snap as i64);
                    let zs = snap_exec(zu, snap as i64);
                    ([clamp_exec(xs), clamp_exec(ys), clamp_exec(zs)], true)
                } else {
                    ([clamp_exec(xu), clamp_exec(yu), clamp_exec(zu)], true)
                }
            },
            None => {
                let yq = cam.target[1] - 256000;
                let xq = ray_coord_exec(mey, mty, mex, mtx, yq);
                let zq = ray_coord_exec(mey, mty, mez, mtz, yq);
                let xu = div_trunc(xq, 1000);
                let yu = div_trunc(yq, 1000);
                let zu = div_trunc(zq, 1000);
                proof {
                    crate::geom::lemma_tdiv_abs(xq as int, 1000);
                    crate::geom::lemma_tdiv_abs(yq as int, 1000);
                    crate::geom::lemma_tdiv_abs(zq as int, 1000);
                }
                if alt {
                    let xs = snap_exec(xu, snap as i64);
                    let zs = snap_exec(zu, snap as i64);
                    ([clamp_exec(xs), clamp_exec(yu), clamp_exec(zs)], false)
                } else {
                    ([clamp_exec(xu), clamp_exec(yu), clamp_exec(zu)], false)
                }
            },
        }
    }

    /// Route a world-space paint to every persistent chunk whose cell
    /// the region overlaps; no chunk is ever created by painting.
    #[verifier::rlimit(100)]
    #[verifier::spinoff_prover]
    pub fn draw(&mut self, first: [i32; 3], last: [i32; 3], color: [i32; 4], id: i32)
        requires
            old(self).wf(),
            in_world(pos_of(first)),
            in_world(pos_of(last)),
        ensures
            final(self).wf(),
            route_draw_rel(
                old(self).chunk_list@,
                final(self).chunk_list@,
                pos_of(first),
                pos_of(last),
                color,
                id as int,
            ),
            final(self).point_light_list@.len() == 512,
            forall|j: int|
                0 <= j < 512 ==> (#[trigger] final(self).point_light_list@[j] == old(
                    self,
                ).point_light_list@[j] || (2 <= j && old(self).point_light_list@[j].color[3] == 0
                    && id == 1 && spec_parse_draw(color, 1).is_some())),
            final(self).debug_mode == old(self).debug_mode,
            final(self).w == old(self).w,
            final(self).chunk_overdose == old(self).chunk_overdose,
            final(self).tab_overdose == old(self).tab_overdose,
            final(self).indicator_state == old(self).indicator_state,
            final(self).model_state == old(self).model_state,
            final(self).brush_state == old(self).brush_state,
            final(self).pervious_indicator_first == old(self).pervious_indicator_first,
            final(self).pervious_indicator_last == old(self).pervious_indicator_last,
            final(self).next_overdose == old(self).next_overdose,
            final(self).prior_overdose == old(self).prior_overdose,
            final(self).pervious_mouse_left == old(self).pervious_mouse_left,
            final(self).duplicate == old(self).duplicate,
    {
        let ghost lo = pos_of(first);
        let ghost hi = pos_of(last);
        let ghost pre = self.chunk_list@;
        let gxf = cell_index(first[0]);
        let gxl = cell_index(last[0]);
        let gyf = cell_index(first[1]);
        let gyl = cell_index(last[1]);
        let gzf = cell_index(first[2]);
        let gzl = cell_index(last[2]);
        proof {
            lemma_box_cells(lo, hi);
        }
        let mut gx = gxf;
        while gx <= gxl
            invariant
                self.wf(),
                lo == pos_of(first),
                hi == pos_of(last),
                pre == old(self).chunk_list@,
                mgr_wf_chunks(pre),
                in_world(lo),
                in_world(hi),
                gxf == cell_of(lo.0) && gxl == cell_of(hi.0),
                gyf == cell_of(lo.1) && gyl == cell_of(hi.1),
                gzf == cell_of(lo.2) && gzl == cell_of(hi.2),
                -GRID_BOUND <= gxf && gxl <= GRID_BOUND,
                -GRID_BOUND <= gyf && gyl <= GRID_BOUND,
                -GRID_BOUND <= gzf && gzl <= GRID_BOUND,
                gxf <= gx,
                gx == gxf || gx <= gxl + 1,
                draw_progress(
                    pre,
                    self.chunk_list@,
                    lo,
                    hi,
                    color,
                    id as int,
                    (gx as int, gyf as int, gzf as int),
                ),
                self.point_light_list@.len() == 512,
                forall|j: int|
                    0 <= j < 512 ==> (#[trigger] self.point_light_list@[j] == old(
                        self,
                    ).point_light_list@[j] || (2 <= j && old(self).point_light_list@[j].color[3]
                        == 0 && id == 1 && spec_parse_draw(color, 1).is_some())),
                self.debug_mode == old(self).debug_mode,
                self.w == old(self).w,
                self.chunk_overdose == old(self).chunk_overdose,
                self.tab_overdose == old(self).tab_overdose,
                self.indicator_state == old(self).indicator_state,
                self.model_state == old(self).model_state,
                self.brush_state == old(self).brush_state,
                self.pervious_indicator_first == old(self).pervious_indicator_first,
                self.pervious_indicator_last == old(self).pervious_indicator_last,
                self.next_overdose == old(self).next_overdose,
                self.prior_overdose == old(self).prior_overdose,
                self.pervious_mouse_left == old(self).pervious_mouse_left,
                self.duplicate == old(self).duplicate,
            decreases gxl - gx + 1,
        {
            let mut gy = gyf;
            while gy <= gyl
                invariant
                    self.wf(),
                    lo == pos_of(first),
                    hi == pos_of(last),
                    pre == old(self).chunk_list@,
                    mgr_wf_chunks(pre),
                    in_world(lo),
                    in_world(hi),
                    gxf == cell_of(lo.0) && gxl == cell_of(hi.0),
                    gyf == cell_of(lo.1) && gyl == cell_of(hi.1),
                    gzf == cell_of(lo.2) && gzl == cell_of(hi.2),
                    -GRID_BOUND <= gxf && gxl <= GRID_BOUND,
                    -GRID_BOUND <= gyf && gyl <= GRID_BOUND,
                    -GRID_BOUND <= gzf && gzl <= GRID_BOUND,
                    gxf <= gx <= gxl,
                    gyf <= gy,
                    gy == gyf || gy <= gyl + 1,
                    draw_progress(
                        pre,
                        self.chunk_list@,
                        lo,
                        hi,
                        color,
                        id as int,
                        (gx as int, gy as int, gzf as int),
                    ),
                    self.point_light_list@.len() == 512,
                    forall|j: int|
                        0 <= j < 512 ==> (#[trigger] self.point_light_list@[j] == old(
                            self,
                        ).point_light_list@[j] || (2 <= j && old(
                            self,
                        ).point_light_list@[j].color[3] == 0 && id == 1 && spec_parse_draw(
                            color,
                            1,
                        ).is_some())),
                    self.debug_mode == old(self).debug_mode,
                    self.w == old(self).w,
                    self.chunk_overdose == old(self).chunk_overdose,
                    self.tab_overdose == old(self).tab_overdose,
                    self.indicator_state == old(self).indicator_state,
                    self.model_state == old(self).model_state,
                    self.brush_state == old(self).brush_state,
                    self.pervious_indicator_first == old(self).pervious_indicator_first,
                    self.pervious_indicator_last == old(self).pervious_indicator_last,
                    self.next_overdose == old(self).next_overdose,
                    self.prior_overdose == old(self).prior_overdose,
                    self.pervious_mouse_left == old(self).pervious_mouse_left,
                    self.duplicate == old(self).duplicate,
                decreases gyl - gy + 1,
            {
                let mut gz = gzf;
                while gz <= gzl
                    invariant
                        self.wf(),
                        lo == pos_of(first),
                        hi == pos_of(last),
                        pre == old(self).chunk_list@,
                        mgr_wf_chunks(pre),
                        in_world(lo),
                        in_world(hi),
                        gxf == cell_of(lo.0) && gxl == cell_of(hi.0),
                        gyf == cell_of(lo.1) && gyl == cell_of(hi.1),
                        gzf == cell_of(lo.2) && gzl == cell_of(hi.2),
                        -GRID_BOUND <= gxf && gxl <= GRID_BOUND,
                        -GRID_BOUND <= gyf && gyl <= GRID_BOUND,
                        -GRID_BOUND <= gzf && gzl <= GRID_BOUND,
                        gxf <= gx <= gxl,
                        gyf <= gy <= gyl,
                        gzf <= gz,
                        gz == gzf || gz <= gzl + 1,
                        draw_progress(
                            pre,
                            self.chunk_list@,
                            lo,
                            hi,
                            color,
                            id as int,
                            (gx as int, gy as int, gz as int),
                        ),
                        self.point_light_list@.len() == 512,
                        forall|j: int|
                            0 <= j < 512 ==> (#[trigger] self.point_light_list@[j] == old(
                                self,
                            ).point_light_list@[j] || (2 <= j && old(
                                self,
                            ).point_light_list@[j].color[3] == 0 && id == 1 && spec_parse_draw(
                                color,
                                1,
                            ).is_some())),
                        self.debug_mode == old(self).debug_mode,
                        self.w == old(self).w,
                        self.chunk_overdose == old(self).chunk_overdose,
                        self.tab_overdose == old(self).tab_overdose,
                        self.indicator_state == old(self).indicator_state,
                        self.model_state == old(self).model_state,
                        self.brush_state == old(self).brush_state,
                        self.pervious_indicator_first == old(self).pervious_indicator_first,
                        self.pervious_indicator_last == old(self).pervious_indicator_last,
                        self.next_overdose == old(self).next_overdose,
                        self.prior_overdose == old(self).prior_overdose,
                        self.pervious_mouse_left == old(self).pervious_mouse_left,
                        self.duplicate == old(self).duplicate,
                    decreases gzl - gz + 1,
                {
                    let ghost g = (gx as int, gy as int, gz as int);
                    let ghost gnext = (gx as int, gy as int, gz as int + 1);
                    let ghost cur = self.chunk_list@;
                    let ghost lights0 = self.point_light_list@;
                    let bx_min = gx * RADIUS_VOXEL - RADIUS_VOXEL / 2;
                    let bx_max = gx * RADIUS_VOXEL + RADIUS_VOXEL / 2 - 1;
                    let by_min = gy * RADIUS_VOXEL - RADIUS_VOXEL / 2;
                    let by_max = gy * RADIUS_VOXEL + RADIUS_VOXEL / 2 - 1;
                    let bz_min = gz * RADIUS_VOXEL - RADIUS_VOXEL / 2;
                    let bz_max = gz * RADIUS_VOXEL + RADIUS_VOXEL / 2 - 1;
                    let cf0 = if bx_min < first[0] {
                        first[0]
                    } else {
                        bx_min
                    };
                    let cl0 = if bx_max > last[0] {
                        last[0]
                    } else {
                        bx_max
                    };
                    let cf1 = if by_min < first[1] {
                        first[1]
                    } else {
                        by_min
                    };
                    let cl1 = if by_max > last[1] {
                        last[1]
                    } else {
                        by_max
                    };
                    let cf2 = if bz_min < first[2] {
                        first[2]
                    } else {
                        bz_min
                    };
                    let cl2 = if bz_max > last[2] {
                        last[2]
                    } else {
                        bz_max
                    };
                    let cfa = [cf0, cf1, cf2];
                    let cla = [cl0, cl1, cl2];
                    proof {
                        assert(pos_of(cfa) == cell_clip_lo(g, lo));
                        assert(pos_of(cla) == cell_clip_hi(g, hi));
                    }
                    let n = self.chunk_list.len();
                    let mut jj: usize = 0;
                    let mut found = false;
                    let mut fidx: usize = 0;
                    while jj < n
                        invariant
                            n == self.chunk_list@.len(),
                            g == (gx as int, gy as int, gz as int),
                            0 <= jj <= n,
                            found ==> fidx < n && (self.chunk_list@[fidx as int]).current_type
                                == ChunkType::Persistent && pos_of(
                                self.chunk_list@[fidx as int].position,
                            ) == g,
                            !found ==> forall|t: int|
                                0 <= t < jj ==> !((#[trigger] self.chunk_list@[t]).current_type
                                    == ChunkType::Persistent && pos_of(
                                    self.chunk_list@[t].position,
                                ) == g),
                        decreases n - jj,
                    {
                        let is_persistent = match self.chunk_list[jj].current_type {
                            ChunkType::Persistent => true,
                            _ => false,
                        };
                        let same_cell = self.chunk_list[jj].position[0] == gx
                            && self.chunk_list[jj].position[1] == gy
                            && self.chunk_list[jj].position[2] == gz;
                        if is_persistent && same_cell && !found {
                            found = true;
                            fidx = jj;
                        }
                        jj += 1;
                    }
                    if found {
                        let ghost cj = cur[fidx as int];
                        let cref = &mut self.chunk_list[fidx];
                        cref.draw(cfa, cla, color, id, &mut self.point_light_list);
                        proof {
                            let c2 = self.chunk_list@[fidx as int];
                            assert(self.chunk_list@ == cur.update(fidx as int, c2));
                            lemma_update_keeps_cells(cur, fidx as int, c2);
                            lemma_world_update_cell(cur, fidx as int, c2);
                            lemma_draw_step_hit(
                                pre,
                                cur,
                                self.chunk_list@,
                                lo,
                                hi,
                                color,
                                id as int,
                                g,
                                gnext,
                                fidx as int,
                            );
                            // light claims chain back to the original pool
                            assert forall|j: int|
                                0 <= j < 512 implies (#[trigger] self.point_light_list@[j]
                                == old(self).point_light_list@[j] || (2 <= j && old(
                                self,
                            ).point_light_list@[j].color[3] == 0 && id == 1 && spec_parse_draw(
                                color,
                                1,
                            ).is_some())) by {
                                if self.point_light_list@[j] != lights0[j] {
                                    assert(2 <= j && lights0[j].color[3] == 0 && id == 1
                                        && spec_parse_draw(color, 1).is_some());
                                    if lights0[j] != old(self).point_light_list@[j] {
                                        assert(spec_parse_draw(color, 1).unwrap()[3] == 500);
                                    }
                                }
                            }
                        }
                    } else {
                        proof {
                            assert(!has_cell(cur, g, ChunkType::Persistent)) by {
                                if has_cell(cur, g, ChunkType::Persistent) {
                                    let t = choose|t: int|
                                        0 <= t < cur.len() && pos_of(
                                            (#[trigger] cur[t]).position,
                                        ) == g && cur[t].current_type == ChunkType::Persistent;
                                    assert(!(cur[t].current_type == ChunkType::Persistent
                                        && pos_of(cur[t].position) == g));
                                }
                            }
                            lemma_draw_step_miss(
                                pre,
                                cur,
                                lo,
                                hi,
                                color,
                                id as int,
                                g,
                                gnext,
                            );
                        }
                    }
                    gz += 1;
                }
                proof {
                    let c1 = (gx as int, gy as int, gz as int);
                    let c2 = (gx as int, gy as int + 1, gzf as int);
                    assert forall|gg: (int, int, int)|
                        in_cell_range(gg, lo, hi) implies (lex_lt(gg, c1) == #[trigger] lex_lt(
                        gg,
                        c2,
                    )) by {}
                    lemma_draw_cursor_shift(
                        pre,
                        self.chunk_list@,
                        lo,
                        hi,
                        color,
                        id as int,
                        c1,
                        c2,
                    );
                }
                gy += 1;
            }
            proof {
                let c1 = (gx as int, gy as int, gzf as int);
                let c2 = (gx as int + 1, gyf as int, gzf as int);
                assert forall|gg: (int, int, int)|
                    in_cell_range(gg, lo, hi) implies (lex_lt(gg, c1) == #[trigger] lex_lt(
                    gg,
                    c2,
                )) by {}
                lemma_draw_cursor_shift(
                    pre,
                    self.chunk_list@,
                    lo,
                    hi,
                    color,
                    id as int,
                    c1,
                    c2,
                );
            }
            gx += 1;
        }
        proof {
            let cfin = (gx as int, gyf as int, gzf as int);
            assert forall|p: (int, int, int)|
                in_world(p) && in_box(p, lo, hi) implies lex_lt(cell_triple(p), cfin) by {
                assert(in_cell_range(cell_triple(p), lo, hi));
            }
            assert forall|p: (int, int, int)|
                in_world(p) && #[trigger] world_contains(
                    self.chunk_list@,
                    ChunkType::Persistent,
                    p,
                ) implies world_at(self.chunk_list@, ChunkType::Persistent, p) == spec_drawn(
                world_at(pre, ChunkType::Persistent, p),
                lo,
                hi,
                color,
                id as int,
            ) by {
                if !lex_lt(cell_triple(p), cfin) {
                    assert(!in_box(p, lo, hi));
                    assert(world_at(self.chunk_list@, ChunkType::Persistent, p) == world_at(
                        pre,
                        ChunkType::Persistent,
                        p,
                    ));
                    assert(world_contains(pre, ChunkType::Persistent, p));
                    lemma_world_at_position(pre, ChunkType::Persistent, p);
                }
            }
        }
    }
}

} // verus!
