//! A chunk: one fixed-size cubic region of the voxel grid, owning a
//! dynamic list of voxel instances, a position-to-index lookup that must
//! track that list exactly, and a derived render buffer regenerated
//! after every mutation.

use vstd::prelude::*;

verus! {

use std::collections::HashMap;
use crate::GRID_BOUND;
use crate::geom::{
    WORLD_MAX,
    WORLD_MIN,
    cell_max,
    cell_min,
    in_box,
    in_world,
    key_of,
    lemma_key_of_injective,
    lex_lt,
    pack_pos,
    pos_of,
};
use crate::model_list::{parse_place, spec_parse_place};
use crate::brush_list::{parse_draw, spec_parse_draw};
use crate::voxel::{Instance, InstanceRaw, Light, VoxelType, spec_to_raw};

broadcast use vstd::std_specs::hash::group_hash_axioms;

/// The role of a chunk: permanent world voxels, the terrain preview, or
/// the transient cursor preview. Chunks of different roles occupying the
/// same grid cell never collide.
#[derive(Clone, Copy, PartialEq, Eq, Structural, Debug)]
pub enum ChunkType {
    TerrainIndicator,
    CursorIndicator,
    Persistent,
}

/// A sequence of voxels holds a voxel at position `p`.
pub open spec fn seq_contains_pos(s: Seq<Instance>, p: (int, int, int)) -> bool {
    exists|i: int| 0 <= i < s.len() && pos_of(s[i].position) == p
}

/// The index of the voxel at position `p`.
pub open spec fn seq_index_of(s: Seq<Instance>, p: (int, int, int)) -> int {
    choose|i: int| 0 <= i < s.len() && pos_of(s[i].position) == p
}

/// The voxel at position `p`.
pub open spec fn seq_at_pos(s: Seq<Instance>, p: (int, int, int)) -> Instance {
    s[seq_index_of(s, p)]
}

/// No two voxels of the sequence share a position.
pub open spec fn seq_distinct(s: Seq<Instance>) -> bool {
    forall|i: int, j: int|
        0 <= i < j < s.len() ==> pos_of(s[i].position) != pos_of(s[j].position)
}

/// In a duplicate-free sequence, any index holding position `p` is the
/// index `seq_at_pos` reads.
pub proof fn lemma_seq_at_pos(s: Seq<Instance>, p: (int, int, int), i: int)
    requires
        seq_distinct(s),
        0 <= i < s.len(),
        pos_of(s[i].position) == p,
    ensures
        seq_contains_pos(s, p),
        seq_index_of(s, p) == i,
        seq_at_pos(s, p) == s[i],
{
    assert(seq_contains_pos(s, p));
    let j = seq_index_of(s, p);
    assert(0 <= j < s.len() && pos_of(s[j].position) == p);
    if i != j {
        assert(pos_of(s[i].position) != pos_of(s[j].position));
    }
}

impl Chunk {
    /// The voxel list as a sequence.
    pub open spec fn vox(self) -> Seq<Instance> {
        self.voxel_data@
    }

    /// The chunk holds a voxel at world position `p`.
    pub open spec fn contains_pos(self, p: (int, int, int)) -> bool {
        seq_contains_pos(self.vox(), p)
    }

    /// The voxel the chunk holds at world position `p`.
    pub open spec fn at_pos(self, p: (int, int, int)) -> Instance {
        seq_at_pos(self.vox(), p)
    }

    /// World position `p` lies inside this chunk's own cubic bounds.
    pub open spec fn in_bounds(self, p: (int, int, int)) -> bool {
        cell_min(self.position[0] as int) <= p.0 <= cell_max(self.position[0] as int) && cell_min(
            self.position[1] as int,
        ) <= p.1 <= cell_max(self.position[1] as int) && cell_min(self.position[2] as int) <= p.2
            <= cell_max(self.position[2] as int)
    }

    /// The chunk's grid coordinate is within the grid range.
    pub open spec fn grid_ok(self) -> bool {
        -GRID_BOUND <= self.position[0] <= GRID_BOUND && -GRID_BOUND <= self.position[1]
            <= GRID_BOUND && -GRID_BOUND <= self.position[2] <= GRID_BOUND
    }

    /// Core well-formedness: voxels lie inside the chunk's bounds, no
    /// position repeats, and the position lookup maps exactly the keys
    /// of the stored positions to their indices.
    pub open spec fn wf_core(self) -> bool {
        &&& self.grid_ok()
        &&& forall|i: int|
            0 <= i < self.vox().len() ==> self.in_bounds(#[trigger] pos_of(self.vox()[i].position))
        &&& seq_distinct(self.vox())
        &&& forall|i: int|
            0 <= i < self.vox().len() ==> {
                &&& self.position_hash@.contains_key(
                    #[trigger] key_of(pos_of(self.vox()[i].position)),
                )
                &&& self.position_hash@[key_of(pos_of(self.vox()[i].position))] == i
            }
        &&& forall|k: u64|
            self.position_hash@.contains_key(k) ==> exists|i: int|
                0 <= i < self.vox().len() && key_of(pos_of(self.vox()[i].position)) == k
    }

    /// The derived render buffer matches the voxel list exactly.
    pub open spec fn buffer_synced(self) -> bool {
        &&& self.instance_data@.len() == self.vox().len()
        &&& forall|i: int|
            0 <= i < self.vox().len() ==> self.instance_data@[i] == spec_to_raw(
                #[trigger] self.vox()[i],
            )
        &&& self.instance_len == self.vox().len()
    }

    /// Full well-formedness.
    pub open spec fn wf(self) -> bool {
        self.wf_core() && self.buffer_synced()
    }

    /// Positions inside this chunk's bounds are world positions.
    pub proof fn lemma_bounds_in_world(self, p: (int, int, int))
        requires
            self.grid_ok(),
            self.in_bounds(p),
        ensures
            in_world(p),
    {
        assert(cell_min(-(GRID_BOUND as int)) == WORLD_MIN);
        assert(cell_max(GRID_BOUND as int) == WORLD_MAX);
        assert(cell_min(-(GRID_BOUND as int)) <= cell_min(self.position[0] as int))
            by (nonlinear_arith)
            requires
                -(GRID_BOUND as int) <= self.position[0] as int,
        ;
        assert(cell_min(-(GRID_BOUND as int)) <= cell_min(self.position[1] as int))
            by (nonlinear_arith)
            requires
                -(GRID_BOUND as int) <= self.position[1] as int,
        ;
        assert(cell_min(-(GRID_BOUND as int)) <= cell_min(self.position[2] as int))
            by (nonlinear_arith)
            requires
                -(GRID_BOUND as int) <= self.position[2] as int,
        ;
        assert(cell_max(self.position[0] as int) <= cell_max(GRID_BOUND as int))
            by (nonlinear_arith)
            requires
                self.position[0] as int <= GRID_BOUND as int,
        ;
        assert(cell_max(self.position[1] as int) <= cell_max(GRID_BOUND as int))
            by (nonlinear_arith)
            requires
                self.position[1] as int <= GRID_BOUND as int,
        ;
        assert(cell_max(self.position[2] as int) <= cell_max(GRID_BOUND as int))
            by (nonlinear_arith)
            requires
                self.position[2] as int <= GRID_BOUND as int,
        ;
    }
}

/// What retain-filtering a region out of a voxel list leaves: the
/// voxels whose positions fall outside the box, in their original
/// order.
pub open spec fn spec_retain(s: Seq<Instance>, lo: (int, int, int), hi: (int, int, int)) -> Seq<
    Instance,
>
    decreases s.len(),
{
    if s.len() == 0 {
        Seq::empty()
    } else {
        let r = spec_retain(s.drop_last(), lo, hi);
        if in_box(pos_of(s.last().position), lo, hi) {
            r
        } else {
            r.push(s.last())
        }
    }
}

/// Retain-filtering keeps exactly the positions outside the box, with
/// their voxels unchanged; it keeps distinctness, and a filter that
/// kept every element kept the sequence itself.
pub proof fn lemma_spec_retain(s: Seq<Instance>, lo: (int, int, int), hi: (int, int, int))
    requires
        seq_distinct(s),
    ensures
        spec_retain(s, lo, hi).len() <= s.len(),
        seq_distinct(spec_retain(s, lo, hi)),
        forall|k: int|
            0 <= k < spec_retain(s, lo, hi).len() ==> exists|j: int|
                0 <= j < s.len() && #[trigger] spec_retain(s, lo, hi)[k] == s[j],
        forall|p: (int, int, int)|
            #[trigger] seq_contains_pos(spec_retain(s, lo, hi), p) <==> (seq_contains_pos(s, p)
                && !in_box(p, lo, hi)),
        forall|p: (int, int, int)|
            #[trigger] seq_contains_pos(spec_retain(s, lo, hi), p) ==> seq_at_pos(
                spec_retain(s, lo, hi),
                p,
            ) == seq_at_pos(s, p),
        spec_retain(s, lo, hi).len() == s.len() ==> spec_retain(s, lo, hi) == s,
    decreases s.len(),
{
    let r = spec_retain(s, lo, hi);
    if s.len() == 0 {
        assert(r =~= s);
        assert forall|p: (int, int, int)| #[trigger]
            seq_contains_pos(r, p) <==> (seq_contains_pos(s, p) && !in_box(p, lo, hi)) by {
            assert(!seq_contains_pos(r, p));
            assert(!seq_contains_pos(s, p));
        }
    } else {
        let t = s.drop_last();
        let m = s.len() - 1;
        assert(forall|i: int| 0 <= i < m ==> t[i] == s[i]);
        assert(seq_distinct(t));
        lemma_spec_retain(t, lo, hi);
        let rt = spec_retain(t, lo, hi);
        let lastv = s.last();
        let lp = pos_of(lastv.position);
        // Positions of the prefix never repeat the last position.
        assert forall|p: (int, int, int)| #[trigger]
            seq_contains_pos(t, p) implies seq_contains_pos(s, p) by {
            let i = choose|i: int| 0 <= i < t.len() && pos_of(t[i].position) == p;
            assert(pos_of(s[i].position) == p);
        }
        assert(!seq_contains_pos(t, lp)) by {
            if seq_contains_pos(t, lp) {
                let i = choose|i: int| 0 <= i < t.len() && pos_of(t[i].position) == lp;
                assert(pos_of(s[i].position) == pos_of(s[m].position));
            }
        }
        if in_box(lp, lo, hi) {
            assert(r == rt);
            assert forall|p: (int, int, int)| #[trigger]
                seq_contains_pos(r, p) <==> (seq_contains_pos(s, p) && !in_box(p, lo, hi)) by {
                if p == lp {
                    assert(!(seq_contains_pos(r, p) <==> (seq_contains_pos(s, p) && !in_box(
                        p,
                        lo,
                        hi,
                    ))) ==> false) by {
                        assert(seq_contains_pos(r, lp) ==> seq_contains_pos(t, lp));
                    }
                } else {
                    assert(seq_contains_pos(s, p) ==> seq_contains_pos(t, p)) by {
                        if seq_contains_pos(s, p) {
                            let i = choose|i: int|
                                0 <= i < s.len() && pos_of(s[i].position) == p;
                            assert(i != m);
                            assert(pos_of(t[i].position) == p);
                        }
                    }
                }
            }
            assert forall|p: (int, int, int)| #[trigger]
                seq_contains_pos(r, p) implies seq_at_pos(r, p) == seq_at_pos(s, p) by {
                assert(seq_at_pos(r, p) == seq_at_pos(t, p));
                let i = choose|i: int| 0 <= i < t.len() && pos_of(t[i].position) == p;
                lemma_seq_at_pos(t, p, i);
                lemma_seq_at_pos(s, p, i);
            }
            assert(r.len() <= t.len() < s.len());
        } else {
            assert(r == rt.push(lastv));
            assert(forall|i: int| 0 <= i < rt.len() ==> r[i] == rt[i]);
            assert(r[rt.len() as int] == lastv);
            // the new last keeps distinctness: its position is absent
            // from the prefix filter
            assert(!seq_contains_pos(rt, lp));
            assert forall|i: int| 0 <= i < rt.len() implies pos_of(r[i].position) != lp by {
                if pos_of(rt[i].position) == lp {
                    assert(seq_contains_pos(rt, lp));
                }
            }
            assert(seq_distinct(r)) by {
                assert forall|i: int, j: int|
                    0 <= i < j < r.len() implies pos_of(r[i].position) != pos_of(
                    r[j].position,
                ) by {
                    if j < rt.len() {
                        assert(pos_of(rt[i].position) != pos_of(rt[j].position));
                    }
                }
            }
            assert forall|k: int|
                0 <= k < r.len() implies exists|j: int|
                0 <= j < s.len() && #[trigger] r[k] == s[j] by {
                if k < rt.len() {
                    let j = choose|j: int| 0 <= j < t.len() && rt[k] == t[j];
                    assert(r[k] == s[j]);
                } else {
                    assert(r[k] == s[m]);
                }
            }
            assert forall|p: (int, int, int)| #[trigger]
                seq_contains_pos(r, p) <==> (seq_contains_pos(s, p) && !in_box(p, lo, hi)) by {
                if p == lp {
                    assert(seq_contains_pos(r, lp)) by {
                        assert(pos_of(r[rt.len() as int].position) == lp);
                    }
                    assert(seq_contains_pos(s, lp)) by {
                        assert(pos_of(s[m].position) == lp);
                    }
                } else {
                    assert(seq_contains_pos(r, p) <==> seq_contains_pos(rt, p)) by {
                        if seq_contains_pos(r, p) {
                            let i = choose|i: int|
                                0 <= i < r.len() && pos_of(r[i].position) == p;
                            assert(i != rt.len());
                            assert(pos_of(rt[i].position) == p);
                        }
                        if seq_contains_pos(rt, p) {
                            let i = choose|i: int|
                                0 <= i < rt.len() && pos_of(rt[i].position) == p;
                            assert(pos_of(r[i].position) == p);
                        }
                    }
                    assert(seq_contains_pos(s, p) <==> seq_contains_pos(t, p)) by {
                        if seq_contains_pos(s, p) {
                            let i = choose|i: int|
                                0 <= i < s.len() && pos_of(s[i].position) == p;
                            assert(i != m);
                            assert(pos_of(t[i].position) == p);
                        }
                    }
                }
            }
            assert forall|p: (int, int, int)| #[trigger]
                seq_contains_pos(r, p) implies seq_at_pos(r, p) == seq_at_pos(s, p) by {
                if p == lp {
                    lemma_seq_at_pos(r, lp, rt.len() as int);
                    lemma_seq_at_pos(s, lp, m);
                } else {
                    assert(seq_contains_pos(rt, p)) by {
                        let i = choose|i: int| 0 <= i < r.len() && pos_of(r[i].position) == p;
                        assert(i != rt.len());
                        assert(pos_of(rt[i].position) == p);
                    }
                    let i = choose|i: int| 0 <= i < rt.len() && pos_of(rt[i].position) == p;
                    lemma_seq_at_pos(rt, p, i);
                    lemma_seq_at_pos(r, p, i);
                    let j = choose|j: int| 0 <= j < t.len() && pos_of(t[j].position) == p;
                    lemma_seq_at_pos(t, p, j);
                    lemma_seq_at_pos(s, p, j);
                }
            }
            if r.len() == s.len() {
                assert(rt.len() == t.len());
                assert(rt == t);
                assert(r =~= s);
            }
        }
    }
}

/// The full effect of a region place on a chunk's contents, stated
/// pointwise over world positions: every position of the edit region is
/// cleared; when the call is additive, exactly the clip-region
/// coordinates the placement classifier accepts are repopulated with
/// the classified voxel; every position outside the edit region keeps
/// its voxel.
pub open spec fn place_rel(
    pre: Chunk,
    post: Chunk,
    clip_lo: (int, int, int),
    clip_hi: (int, int, int),
    edit_lo: (int, int, int),
    edit_hi: (int, int, int),
    color: [i32; 4],
    delete: bool,
    id: int,
) -> bool {
    &&& forall|p: (int, int, int)|
        in_box(p, edit_lo, edit_hi) ==> (#[trigger] post.contains_pos(p) == (!delete && in_box(
            p,
            clip_lo,
            clip_hi,
        ) && spec_parse_place(p.0, p.1, p.2, edit_lo, edit_hi, color, id).is_some()))
    &&& forall|p: (int, int, int)|
        in_box(p, edit_lo, edit_hi) && #[trigger] post.contains_pos(p) ==> post.at_pos(p)
            == spec_parse_place(p.0, p.1, p.2, edit_lo, edit_hi, color, id).unwrap()
    &&& forall|p: (int, int, int)|
        !in_box(p, edit_lo, edit_hi) ==> (#[trigger] post.contains_pos(p) == pre.contains_pos(p))
    &&& forall|p: (int, int, int)|
        !in_box(p, edit_lo, edit_hi) && #[trigger] post.contains_pos(p) ==> post.at_pos(p)
            == pre.at_pos(p)
}

/// Mid-repopulation state of a place: the coordinates of the clip
/// region before `cursor` in iteration order have been decided, the
/// rest of the edit region is still clear.
pub open spec fn place_progress(
    pre: Chunk,
    cur: Chunk,
    clip_lo: (int, int, int),
    clip_hi: (int, int, int),
    edit_lo: (int, int, int),
    edit_hi: (int, int, int),
    color: [i32; 4],
    id: int,
    cursor: (int, int, int),
) -> bool {
    &&& forall|p: (int, int, int)|
        in_box(p, edit_lo, edit_hi) ==> (#[trigger] cur.contains_pos(p) == (in_box(
            p,
            clip_lo,
            clip_hi,
        ) && lex_lt(p, cursor) && spec_parse_place(
            p.0,
            p.1,
            p.2,
            edit_lo,
            edit_hi,
            color,
            id,
        ).is_some()))
    &&& forall|p: (int, int, int)|
        in_box(p, edit_lo, edit_hi) && #[trigger] cur.contains_pos(p) ==> cur.at_pos(p)
            == spec_parse_place(p.0, p.1, p.2, edit_lo, edit_hi, color, id).unwrap()
    &&& forall|p: (int, int, int)|
        !in_box(p, edit_lo, edit_hi) ==> (#[trigger] cur.contains_pos(p) == pre.contains_pos(p))
    &&& forall|p: (int, int, int)|
        !in_box(p, edit_lo, edit_hi) && #[trigger] cur.contains_pos(p) ==> cur.at_pos(p)
            == pre.at_pos(p)
}

/// What painting does to one voxel: inside the region, a voxel whose
/// paint classifier accepts the request color takes the classified
/// color, and the fire brush tags it as fire; every other voxel is
/// untouched.
pub open spec fn spec_drawn(
    v: Instance,
    lo: (int, int, int),
    hi: (int, int, int),
    color: [i32; 4],
    id: int,
) -> Instance {
    if in_box(pos_of(v.position), lo, hi) {
        match spec_parse_draw(color, id) {
            Some(c) => Instance {
                color: c,
                current_type: if id == 1 {
                    VoxelType::Fire
                } else {
                    v.current_type
                },
                ..v
            },
            None => v,
        }
    } else {
        v
    }
}

/// Claim the first free point light (a record with zero color alpha,
/// scanning from slot 2) for a fire voxel; when the pool is exhausted
/// the claim is silently dropped.
fn claim_light(lights: &mut Vec<Light>, color: [i32; 4], position: [i32; 3])
    requires
        old(lights)@.len() == 512,
    ensures
        final(lights)@.len() == 512,
        final(lights)@ == old(lights)@ || exists|j: int|
            2 <= j < 512 && (#[trigger] old(lights)@[j]).color[3] == 0 && final(lights)@ == old(
                lights,
            )@.update(j, Light { position, color }),
{
    let mut j: usize = 2;
    while j < 512
        invariant
            2 <= j <= 512,
            lights@ == old(lights)@,
            lights@.len() == 512,
        decreases 512 - j,
    {
        if lights[j].color[3] == 0 {
            lights[j] = Light { position, color };
            proof {
                assert(2 <= (j as int) && (j as int) < 512 && old(lights)@[j as int].color[3] == 0
                    && lights@ == old(lights)@.update(j as int, Light { position, color }));
            }
            return ;
        }
        j += 1;
    }
}

/// Law: a delete place clears its edit region: afterwards the position
/// lookup reports "not found" for every coordinate inside it.
pub proof fn lemma_delete_clears(
    pre: Chunk,
    post: Chunk,
    clip_lo: (int, int, int),
    clip_hi: (int, int, int),
    edit_lo: (int, int, int),
    edit_hi: (int, int, int),
    color: [i32; 4],
    id: int,
)
    requires
        place_rel(pre, post, clip_lo, clip_hi, edit_lo, edit_hi, color, true, id),
        post.wf(),
    ensures
        forall|p: (int, int, int)|
            in_box(p, edit_lo, edit_hi) ==> !#[trigger] post.contains_pos(p),
        forall|p: (int, int, int)|
            in_box(p, edit_lo, edit_hi) && in_world(p) ==> !post.position_hash@.contains_key(
                #[trigger] key_of(p),
            ),
{
    assert forall|p: (int, int, int)|
        in_box(p, edit_lo, edit_hi) && in_world(p) implies !post.position_hash@.contains_key(
        #[trigger] key_of(p),
    ) by {
        if post.position_hash@.contains_key(key_of(p)) {
            let i = choose|i: int|
                0 <= i < post.vox().len() && key_of(pos_of(post.vox()[i].position)) == key_of(p);
            post.lemma_bounds_in_world(pos_of(post.vox()[i].position));
            lemma_key_of_injective(pos_of(post.vox()[i].position), p);
            assert(post.contains_pos(p));
        }
    }
}

/// Law: an additive place is idempotent. Repeating a place with
/// identical arguments leaves the same voxels, by position and by
/// value, as running it once: the edit region is always cleared before
/// it is repopulated, and what is repopulated depends only on the
/// arguments.
pub proof fn lemma_place_idempotent(
    pre: Chunk,
    once: Chunk,
    twice: Chunk,
    lo: (int, int, int),
    hi: (int, int, int),
    color: [i32; 4],
    id: int,
)
    requires
        place_rel(pre, once, lo, hi, lo, hi, color, false, id),
        place_rel(once, twice, lo, hi, lo, hi, color, false, id),
    ensures
        forall|p: (int, int, int)| #[trigger] twice.contains_pos(p) == once.contains_pos(p),
        forall|p: (int, int, int)| #[trigger]
            twice.contains_pos(p) ==> twice.at_pos(p) == once.at_pos(p),
{
    assert forall|p: (int, int, int)| #[trigger]
        twice.contains_pos(p) == once.contains_pos(p) by {
        if in_box(p, lo, hi) {
        } else {
        }
    }
    assert forall|p: (int, int, int)| #[trigger]
        twice.contains_pos(p) implies twice.at_pos(p) == once.at_pos(p) by {
        if in_box(p, lo, hi) {
        } else {
        }
    }
}

/// The chunk itself.
pub struct Chunk {
    pub position: [i32; 3],
    pub voxel_data: Vec<Instance>,
    pub instance_data: Vec<InstanceRaw>,
    pub instance_len: usize,
    pub is_active: bool,
    pub is_selected: bool,
    pub need_update: bool,
    pub current_type: ChunkType,
    pub position_hash: HashMap<u64, usize>,
}

impl Chunk {
    /// A zero-voxel chunk at grid cell `(x, y, z)`, with an empty render
    /// buffer; the factory behind lazy chunk allocation.
    pub fn empty(x: i32, y: i32, z: i32, is_active: bool, chunk_type: ChunkType) -> (r: Chunk)
        requires
            -GRID_BOUND <= x <= GRID_BOUND,
            -GRID_BOUND <= y <= GRID_BOUND,
            -GRID_BOUND <= z <= GRID_BOUND,
        ensures
            r.wf(),
            r.vox().len() == 0,
            forall|p: (int, int, int)| !r.contains_pos(p),
            r.position == [x, y, z],
            r.current_type == chunk_type,
            r.is_active == is_active,
            r.is_selected,
            !r.need_update,
    {
        let r = Chunk {
            position: [x, y, z],
            voxel_data: Vec::new(),
            instance_data: Vec::new(),
            instance_len: 0,
            is_active,
            is_selected: true,
            need_update: false,
            current_type: chunk_type,
            position_hash: HashMap::new(),
        };
        proof {
            assert(r.position =~= [x, y, z]);
            assert(forall|p: (int, int, int)| !r.contains_pos(p));
        }
        r
    }

    /// Append one voxel and its lookup entry; the render buffer is left
    /// to a later rebuild.
    fn push_voxel(&mut self, inst: Instance)
        requires
            old(self).wf_core(),
            old(self).in_bounds(pos_of(inst.position)),
            !old(self).contains_pos(pos_of(inst.position)),
        ensures
            final(self).wf_core(),
            final(self).vox() == old(self).vox().push(inst),
            final(self).position == old(self).position,
            final(self).current_type == old(self).current_type,
            final(self).is_active == old(self).is_active,
            final(self).is_selected == old(self).is_selected,
            final(self).need_update == old(self).need_update,
            final(self).instance_data == old(self).instance_data,
            final(self).instance_len == old(self).instance_len,
            forall|p: (int, int, int)| #[trigger]
                final(self).contains_pos(p) == (old(self).contains_pos(p) || p == pos_of(
                    inst.position,
                )),
            forall|p: (int, int, int)| #[trigger]
                old(self).contains_pos(p) ==> final(self).at_pos(p) == old(self).at_pos(p),
            final(self).at_pos(pos_of(inst.position)) == inst,
    {
        proof {
            self.lemma_bounds_in_world(pos_of(inst.position));
        }
        let key = pack_pos(inst.position);
        let ghost s0 = self.voxel_data@;
        let ghost pnew = pos_of(inst.position);
        self.voxel_data.push(inst);
        let n = self.voxel_data.len();
        self.position_hash.insert(key, n - 1);
        proof {
            let s1 = self.voxel_data@;
            let m = s0.len() as int;
            assert(s1 == s0.push(inst));
            assert(forall|i: int| 0 <= i < m ==> s1[i] == s0[i]);
            assert(s1[m] == inst);
            // no old voxel shares the new position
            assert forall|i: int| 0 <= i < m implies pos_of(s1[i].position) != pnew by {
                if pos_of(s0[i].position) == pnew {
                    assert(seq_contains_pos(s0, pnew));
                }
            }
            assert(seq_distinct(s1));
            // membership is the old membership plus the new position
            assert forall|p: (int, int, int)| #[trigger]
                self.contains_pos(p) == (old(self).contains_pos(p) || p == pnew) by {
                if seq_contains_pos(s1, p) {
                    let i = choose|i: int| 0 <= i < s1.len() && pos_of(s1[i].position) == p;
                    if i < m {
                        assert(seq_contains_pos(s0, p));
                    } else {
                        assert(p == pnew);
                    }
                }
                if seq_contains_pos(s0, p) {
                    let i = choose|i: int| 0 <= i < s0.len() && pos_of(s0[i].position) == p;
                    assert(pos_of(s1[i].position) == p);
                    assert(seq_contains_pos(s1, p));
                }
                if p == pnew {
                    assert(pos_of(s1[m].position) == p);
                    assert(seq_contains_pos(s1, p));
                }
            }
            // old voxels keep their values
            assert forall|p: (int, int, int)| #[trigger]
                old(self).contains_pos(p) implies self.at_pos(p) == old(self).at_pos(p) by {
                let i = choose|i: int| 0 <= i < s0.len() && pos_of(s0[i].position) == p;
                lemma_seq_at_pos(s0, p, i);
                lemma_seq_at_pos(s1, p, i);
            }
            lemma_seq_at_pos(s1, pnew, m);
            // the lookup maps exactly the stored positions
            assert forall|i: int|
                0 <= i < s1.len() implies {
                &&& self.position_hash@.contains_key(#[trigger] key_of(pos_of(s1[i].position)))
                &&& self.position_hash@[key_of(pos_of(s1[i].position))] == i
            } by {
                if i < m {
                    assert(old(self).position_hash@.contains_key(key_of(pos_of(s0[i].position))));
                    if key_of(pos_of(s1[i].position)) == key_of(pnew) {
                        old(self).lemma_bounds_in_world(pos_of(s0[i].position));
                        lemma_key_of_injective(pos_of(s1[i].position), pnew);
                    }
                }
            }
            assert forall|k: u64| self.position_hash@.contains_key(k) implies exists|i: int|
                0 <= i < s1.len() && key_of(pos_of(s1[i].position)) == k by {
                if k == key_of(pnew) {
                    assert(key_of(pos_of(s1[m].position)) == k);
                } else {
                    assert(old(self).position_hash@.contains_key(k));
                    let i = choose|i: int|
                        0 <= i < s0.len() && key_of(pos_of(s0[i].position)) == k;
                    assert(key_of(pos_of(s1[i].position)) == k);
                }
            }
        }
    }

    /// Region-scoped fill or erase. `[place_first, place_last]` is the
    /// edit region: every voxel inside it is removed first, and it is
    /// the region the placement classifier sees. `[first, last]` is the
    /// clip region, the sub-box of the edit region that this call
    /// repopulates (when `delete` is false) by classifying each of its
    /// integer coordinates under model `id`. The lookup index is rebuilt
    /// when the removal compacted the list, and the render buffer is
    /// regenerated unconditionally.
    #[verifier::rlimit(100)]
    #[verifier::spinoff_prover]
    pub fn place(
        &mut self,
        first: [i32; 3],
        last: [i32; 3],
        place_first: [i32; 3],
        place_last: [i32; 3],
        color: [i32; 4],
        delete: bool,
        id: i32,
    )
        requires
            old(self).wf(),
            in_world(pos_of(first)),
            in_world(pos_of(last)),
            in_world(pos_of(place_first)),
            in_world(pos_of(place_last)),
            forall|p: (int, int, int)| #[trigger]
                in_box(p, pos_of(first), pos_of(last)) ==> old(self).in_bounds(p) && in_box(
                    p,
                    pos_of(place_first),
                    pos_of(place_last),
                ),
        ensures
            final(self).wf(),
            place_rel(
                *old(self),
                *final(self),
                pos_of(first),
                pos_of(last),
                pos_of(place_first),
                pos_of(place_last),
                color,
                delete,
                id as int,
            ),
            final(self).position == old(self).position,
            final(self).current_type == old(self).current_type,
            final(self).is_active == old(self).is_active,
            final(self).is_selected == old(self).is_selected,
            final(self).need_update == old(self).need_update,
    {
        let ghost clip_lo = pos_of(first);
        let ghost clip_hi = pos_of(last);
        let ghost edit_lo = pos_of(place_first);
        let ghost edit_hi = pos_of(place_last);
        let ghost s0 = self.voxel_data@;

        // Remove every voxel of the edit region.
        let old_len = self.voxel_data.len();
        let mut kept: Vec<Instance> = Vec::new();
        let mut i: usize = 0;
        while i < old_len
            invariant
                *self == *old(self),
                old(self).wf(),
                s0 == self.voxel_data@,
                edit_lo == pos_of(place_first),
                edit_hi == pos_of(place_last),
                old_len == s0.len(),
                0 <= i <= old_len,
                kept@ == spec_retain(s0.take(i as int), edit_lo, edit_hi),
            decreases old_len - i,
        {
            let v = self.voxel_data[i];
            let inb = v.position[0] >= place_first[0] && v.position[0] <= place_last[0]
                && v.position[1] >= place_first[1] && v.position[1] <= place_last[1]
                && v.position[2] >= place_first[2] && v.position[2] <= place_last[2];
            proof {
                let st1 = s0.take(i as int + 1);
                assert(st1.drop_last() =~= s0.take(i as int));
                assert(st1.last() == s0[i as int]);
                assert(inb == in_box(pos_of(v.position), edit_lo, edit_hi));
            }
            if !inb {
                kept.push(v);
            }
            i += 1;
        }
        proof {
            assert(s0.take(old_len as int) =~= s0);
            lemma_spec_retain(s0, edit_lo, edit_hi);
            assert(kept@ == spec_retain(s0, edit_lo, edit_hi));
            // retained voxels come from the old list, so they sit in
            // bounds and in the world
            assert forall|k: int|
                0 <= k < kept@.len() implies old(self).in_bounds(
                #[trigger] pos_of(kept@[k].position),
            ) && in_world(pos_of(kept@[k].position)) by {
                let j = choose|j: int| 0 <= j < s0.len() && kept@[k] == s0[j];
                assert(old(self).in_bounds(pos_of(s0[j].position)));
                old(self).lemma_bounds_in_world(pos_of(s0[j].position));
            }
        }
        let ghost ks = kept@;

        // Rebuild the position lookup only when the removal compacted
        // the list; an unchanged length means nothing was removed.
        if kept.len() != old_len {
            let mut h: HashMap<u64, usize> = HashMap::new();
            let mut j: usize = 0;
            while j < kept.len()
                invariant
                    kept@ == ks,
                    seq_distinct(ks),
                    forall|k: int|
                        0 <= k < ks.len() ==> in_world(#[trigger] pos_of(ks[k].position)),
                    0 <= j <= ks.len(),
                    forall|t: int|
                        0 <= t < j ==> {
                            &&& h@.contains_key(#[trigger] key_of(pos_of(ks[t].position)))
                            &&& h@[key_of(pos_of(ks[t].position))] == t
                        },
                    forall|k: u64|
                        h@.contains_key(k) ==> exists|t: int|
                            0 <= t < j && key_of(pos_of(#[trigger] ks[t].position)) == k,
                decreases ks.len() - j,
            {
                let key = pack_pos(kept[j].position);
                h.insert(key, j);
                proof {
                    assert forall|t: int|
                        0 <= t < j implies key_of(pos_of(ks[t].position)) != key_of(
                        pos_of(ks[j as int].position),
                    ) by {
                        if key_of(pos_of(ks[t].position)) == key_of(pos_of(ks[j as int].position)) {
                            lemma_key_of_injective(
                                pos_of(ks[t].position),
                                pos_of(ks[j as int].position),
                            );
                        }
                    }
                    assert forall|k: u64| h@.contains_key(k) implies exists|t: int|
                        0 <= t < j + 1 && key_of(pos_of(#[trigger] ks[t].position)) == k by {
                        if k == key_of(pos_of(ks[j as int].position)) {
                            assert(key_of(pos_of(ks[j as int].position)) == k);
                        }
                    }
                }
                j += 1;
            }
            self.position_hash = h;
            self.voxel_data = kept;
        } else {
            proof {
                assert(kept@ == s0);
            }
            self.voxel_data = kept;
        }
        proof {
            assert(self.wf_core());
        }

        // Repopulate the clip region coordinate by coordinate.
        if !delete && first[0] <= last[0] && first[1] <= last[1] && first[2] <= last[2] {
            proof {
                assert(place_progress(
                    *old(self),
                    *self,
                    clip_lo,
                    clip_hi,
                    edit_lo,
                    edit_hi,
                    color,
                    id as int,
                    (first[0] as int, first[1] as int, first[2] as int),
                )) by {
                    assert forall|p: (int, int, int)|
                        in_box(p, edit_lo, edit_hi) implies (#[trigger] self.contains_pos(p) == (
                    in_box(p, clip_lo, clip_hi) && lex_lt(
                        p,
                        (first[0] as int, first[1] as int, first[2] as int),
                    ) && spec_parse_place(
                        p.0,
                        p.1,
                        p.2,
                        edit_lo,
                        edit_hi,
                        color,
                        id as int,
                    ).is_some())) by {
                        assert(!self.contains_pos(p));
                        if in_box(p, clip_lo, clip_hi) {
                            assert(!lex_lt(
                                p,
                                (first[0] as int, first[1] as int, first[2] as int),
                            ));
                        }
                    }
                }
            }
            let mut cx = first[0];
            while cx <= last[0]
                invariant
                    self.wf_core(),
                    self.position == old(self).position,
                    self.current_type == old(self).current_type,
                    self.is_active == old(self).is_active,
                    self.is_selected == old(self).is_selected,
                    self.need_update == old(self).need_update,
                    old(self).wf(),
                    clip_lo == pos_of(first),
                    clip_hi == pos_of(last),
                    edit_lo == pos_of(place_first),
                    edit_hi == pos_of(place_last),
                    in_world(clip_lo) && in_world(clip_hi) && in_world(edit_lo) && in_world(
                        edit_hi,
                    ),
                    forall|p: (int, int, int)| #[trigger]
                        in_box(p, clip_lo, clip_hi) ==> old(self).in_bounds(p) && in_box(
                            p,
                            edit_lo,
                            edit_hi,
                        ),
                    first[0] <= cx <= last[0] + 1,
                    first[0] <= last[0] && first[1] <= last[1] && first[2] <= last[2],
                    place_progress(
                        *old(self),
                        *self,
                        clip_lo,
                        clip_hi,
                        edit_lo,
                        edit_hi,
                        color,
                        id as int,
                        (cx as int, first[1] as int, first[2] as int),
                    ),
                decreases last[0] - cx + 1,
            {
                let mut cy = first[1];
                while cy <= last[1]
                    invariant
                        self.wf_core(),
                        self.position == old(self).position,
                        self.current_type == old(self).current_type,
                        self.is_active == old(self).is_active,
                        self.is_selected == old(self).is_selected,
                        self.need_update == old(self).need_update,
                        old(self).wf(),
                        clip_lo == pos_of(first),
                        clip_hi == pos_of(last),
                        edit_lo == pos_of(place_first),
                        edit_hi == pos_of(place_last),
                        in_world(clip_lo) && in_world(clip_hi) && in_world(edit_lo) && in_world(
                            edit_hi,
                        ),
                        forall|p: (int, int, int)| #[trigger]
                            in_box(p, clip_lo, clip_hi) ==> old(self).in_bounds(p) && in_box(
                                p,
                                edit_lo,
                                edit_hi,
                            ),
                        first[0] <= cx <= last[0],
                        first[1] <= cy <= last[1] + 1,
                        first[0] <= last[0] && first[1] <= last[1] && first[2] <= last[2],
                        place_progress(
                            *old(self),
                            *self,
                            clip_lo,
                            clip_hi,
                            edit_lo,
                            edit_hi,
                            color,
                            id as int,
                            (cx as int, cy as int, first[2] as int),
                        ),
                    decreases last[1] - cy + 1,
                {
                    let mut cz = first[2];
                    while cz <= last[2]
                        invariant
                            self.wf_core(),
                            self.position == old(self).position,
                            self.current_type == old(self).current_type,
                            self.is_active == old(self).is_active,
                            self.is_selected == old(self).is_selected,
                            self.need_update == old(self).need_update,
                            old(self).wf(),
                            clip_lo == pos_of(first),
                            clip_hi == pos_of(last),
                            edit_lo == pos_of(place_first),
                            edit_hi == pos_of(place_last),
                            in_world(clip_lo) && in_world(clip_hi) && in_world(edit_lo)
                                && in_world(edit_hi),
                            forall|p: (int, int, int)| #[trigger]
                                in_box(p, clip_lo, clip_hi) ==> old(self).in_bounds(p) && in_box(
                                    p,
                                    edit_lo,
                                    edit_hi,
                                ),
                            first[0] <= cx <= last[0],
                            first[1] <= cy <= last[1],
                            first[2] <= cz <= last[2] + 1,
                            first[0] <= last[0] && first[1] <= last[1] && first[2] <= last[2],
                            place_progress(
                                *old(self),
                                *self,
                                clip_lo,
                                clip_hi,
                                edit_lo,
                                edit_hi,
                                color,
                                id as int,
                                (cx as int, cy as int, cz as int),
                            ),
                        decreases last[2] - cz + 1,
                    {
                        let ghost pnew = (cx as int, cy as int, cz as int);
                        let ghost cls = spec_parse_place(
                            pnew.0,
                            pnew.1,
                            pnew.2,
                            edit_lo,
                            edit_hi,
                            color,
                            id as int,
                        );
                        proof {
                            assert(in_box(pnew, clip_lo, clip_hi));
                            assert(in_world(pnew));
                            crate::model_list::lemma_parse_place_some(
                                pnew.0,
                                pnew.1,
                                pnew.2,
                                edit_lo,
                                edit_hi,
                                color,
                                id as int,
                            );
                        }
                        let r = parse_place(cx, cy, cz, place_first, place_last, color, id);
                        match r {
                            Some(inst) => {
                                proof {
                                    assert(inst == cls.unwrap());
                                    assert(pos_of(inst.position) == pnew);
                                    assert(!lex_lt(pnew, pnew));
                                    assert(!self.contains_pos(pnew));
                                }
                                self.push_voxel(inst);
                            },
                            None => {
                            },
                        }
                        proof {
                            let nxt = (cx as int, cy as int, cz as int + 1);
                            assert(place_progress(
                                *old(self),
                                *self,
                                clip_lo,
                                clip_hi,
                                edit_lo,
                                edit_hi,
                                color,
                                id as int,
                                nxt,
                            )) by {
                                assert forall|p: (int, int, int)|
                                    in_box(p, edit_lo, edit_hi) implies (
                                #[trigger] self.contains_pos(p) == (in_box(p, clip_lo, clip_hi)
                                    && lex_lt(p, nxt) && spec_parse_place(
                                    p.0,
                                    p.1,
                                    p.2,
                                    edit_lo,
                                    edit_hi,
                                    color,
                                    id as int,
                                ).is_some())) by {
                                    if p == pnew {
                                        assert(lex_lt(p, nxt));
                                    } else {
                                        assert(lex_lt(p, nxt) == lex_lt(p, pnew));
                                    }
                                }
                            }
                        }
                        cz += 1;
                    }
                    proof {
                        let cur = (cx as int, cy as int, cz as int);
                        let nxt = (cx as int, cy as int + 1, first[2] as int);
                        assert(place_progress(
                            *old(self),
                            *self,
                            clip_lo,
                            clip_hi,
                            edit_lo,
                            edit_hi,
                            color,
                            id as int,
                            nxt,
                        )) by {
                            assert forall|p: (int, int, int)|
                                in_box(p, edit_lo, edit_hi) implies (#[trigger] self.contains_pos(
                                p,
                            ) == (in_box(p, clip_lo, clip_hi) && lex_lt(p, nxt)
                                && spec_parse_place(
                                p.0,
                                p.1,
                                p.2,
                                edit_lo,
                                edit_hi,
                                color,
                                id as int,
                            ).is_some())) by {
                                if in_box(p, clip_lo, clip_hi) {
                                    assert(lex_lt(p, cur) == lex_lt(p, nxt));
                                }
                            }
                        }
                    }
                    cy += 1;
                }
                proof {
                    let cur = (cx as int, cy as int, first[2] as int);
                    let nxt = (cx as int + 1, first[1] as int, first[2] as int);
                    assert(place_progress(
                        *old(self),
                        *self,
                        clip_lo,
                        clip_hi,
                        edit_lo,
                        edit_hi,
                        color,
                        id as int,
                        nxt,
                    )) by {
                        assert forall|p: (int, int, int)|
                            in_box(p, edit_lo, edit_hi) implies (#[trigger] self.contains_pos(p)
                            == (in_box(p, clip_lo, clip_hi) && lex_lt(p, nxt) && spec_parse_place(
                            p.0,
                            p.1,
                            p.2,
                            edit_lo,
                            edit_hi,
                            color,
                            id as int,
                        ).is_some())) by {
                            if in_box(p, clip_lo, clip_hi) {
                                assert(lex_lt(p, cur) == lex_lt(p, nxt));
                            }
                        }
                    }
                }
                cx += 1;
            }
            proof {
                let cur = (cx as int, first[1] as int, first[2] as int);
                assert(place_rel(
                    *old(self),
                    *self,
                    clip_lo,
                    clip_hi,
                    edit_lo,
                    edit_hi,
                    color,
                    delete,
                    id as int,
                )) by {
                    assert forall|p: (int, int, int)|
                        in_box(p, edit_lo, edit_hi) implies (#[trigger] self.contains_pos(p) == (
                    !delete && in_box(p, clip_lo, clip_hi) && spec_parse_place(
                        p.0,
                        p.1,
                        p.2,
                        edit_lo,
                        edit_hi,
                        color,
                        id as int,
                    ).is_some())) by {
                        if in_box(p, clip_lo, clip_hi) {
                            assert(lex_lt(p, cur));
                        }
                    }
                }
            }
        } else {
            proof {
                assert(place_rel(
                    *old(self),
                    *self,
                    clip_lo,
                    clip_hi,
                    edit_lo,
                    edit_hi,
                    color,
                    delete,
                    id as int,
                )) by {
                    assert forall|p: (int, int, int)|
                        in_box(p, edit_lo, edit_hi) implies (#[trigger] self.contains_pos(p) == (
                    !delete && in_box(p, clip_lo, clip_hi) && spec_parse_place(
                        p.0,
                        p.1,
                        p.2,
                        edit_lo,
                        edit_hi,
                        color,
                        id as int,
                    ).is_some())) by {
                        assert(!self.contains_pos(p));
                    }
                }
            }
        }

        // Regenerate the render buffer unconditionally.
        let ghost placed = *self;
        proof {
            assert(place_rel(
                *old(self),
                placed,
                clip_lo,
                clip_hi,
                edit_lo,
                edit_hi,
                color,
                delete,
                id as int,
            ));
        }
        self.rebuild_buffer();
        proof {
            assert(self.vox() == placed.vox());
            assert forall|p: (int, int, int)| #[trigger]
                self.contains_pos(p) == placed.contains_pos(p) && (self.contains_pos(p)
                    ==> self.at_pos(p) == placed.at_pos(p)) by {}
            assert(place_rel(
                *old(self),
                *self,
                clip_lo,
                clip_hi,
                edit_lo,
                edit_hi,
                color,
                delete,
                id as int,
            ));
        }
    }

    /// Paint the voxels already inside `[first, last]` with brush `id`:
    /// each existing voxel of the region whose paint classifier accepts
    /// the request color is recolored; the fire brush additionally tags
    /// the voxel as fire and claims the first free point light for it.
    /// Painting commits the chunk: its role becomes persistent, and the
    /// render buffer is regenerated.
    pub fn draw(
        &mut self,
        first: [i32; 3],
        last: [i32; 3],
        color: [i32; 4],
        id: i32,
        point_light_list: &mut Vec<Light>,
    )
        requires
            old(self).wf(),
            old(point_light_list)@.len() == 512,
        ensures
            final(self).wf(),
            final(self).vox().len() == old(self).vox().len(),
            forall|i: int|
                0 <= i < old(self).vox().len() ==> final(self).vox()[i] == spec_drawn(
                    #[trigger] old(self).vox()[i],
                    pos_of(first),
                    pos_of(last),
                    color,
                    id as int,
                ),
            final(self).current_type == ChunkType::Persistent,
            final(self).position == old(self).position,
            final(self).is_active == old(self).is_active,
            final(self).is_selected == old(self).is_selected,
            final(self).need_update == old(self).need_update,
            final(point_light_list)@.len() == 512,
            forall|j: int|
                0 <= j < 512 ==> (#[trigger] final(point_light_list)@[j] == old(
                    point_light_list,
                )@[j] || (2 <= j && old(point_light_list)@[j].color[3] == 0 && id == 1
                    && spec_parse_draw(color, 1).is_some() && exists|k: int|
                    0 <= k < old(self).vox().len() && in_box(
                        pos_of(#[trigger] old(self).vox()[k].position),
                        pos_of(first),
                        pos_of(last),
                    ) && final(point_light_list)@[j] == (Light {
                        position: old(self).vox()[k].position,
                        color: spec_parse_draw(color, 1).unwrap(),
                    }))),
    {
        let ghost lo = pos_of(first);
        let ghost hi = pos_of(last);
        let ghost s0 = self.voxel_data@;
        let n = self.voxel_data.len();
        let mut i: usize = 0;
        while i < n
            invariant
                old(self).wf(),
                lo == pos_of(first),
                hi == pos_of(last),
                s0 == old(self).voxel_data@,
                n == s0.len(),
                0 <= i <= n,
                self.voxel_data@.len() == n,
                forall|k: int|
                    0 <= k < n ==> #[trigger] self.vox()[k].position == s0[k].position,
                forall|k: int|
                    0 <= k < i ==> self.vox()[k] == spec_drawn(
                        #[trigger] s0[k],
                        lo,
                        hi,
                        color,
                        id as int,
                    ),
                forall|k: int| i <= k < n ==> #[trigger] self.vox()[k] == s0[k],
                self.position_hash == old(self).position_hash,
                self.position == old(self).position,
                self.current_type == old(self).current_type,
                self.is_active == old(self).is_active,
                self.is_selected == old(self).is_selected,
                self.need_update == old(self).need_update,
                point_light_list@.len() == 512,
                forall|j: int|
                    0 <= j < 512 ==> (#[trigger] point_light_list@[j] == old(
                        point_light_list,
                    )@[j] || (2 <= j && old(point_light_list)@[j].color[3] == 0 && id == 1
                        && spec_parse_draw(color, 1).is_some() && exists|k: int|
                        0 <= k < n && in_box(pos_of(#[trigger] s0[k].position), lo, hi)
                            && point_light_list@[j] == (Light {
                            position: s0[k].position,
                            color: spec_parse_draw(color, 1).unwrap(),
                        }))),
            decreases n - i,
        {
            let v0 = self.voxel_data[i];
            let inb = v0.position[0] >= first[0] && v0.position[0] <= last[0] && v0.position[1]
                >= first[1] && v0.position[1] <= last[1] && v0.position[2] >= first[2]
                && v0.position[2] <= last[2];
            proof {
                assert(inb == in_box(pos_of(v0.position), lo, hi));
            }
            if inb {
                let painted = parse_draw(
                    v0.position[0],
                    v0.position[1],
                    v0.position[2],
                    first,
                    last,
                    color,
                    id,
                );
                match painted {
                    Some(c) => {
                        let mut v = v0;
                        v.color = c;
                        if id == 1 {
                            v.current_type = VoxelType::Fire;
                            claim_light(point_light_list, c, v.position);
                            proof {
                                assert(in_box(pos_of(s0[i as int].position), lo, hi));
                            }
                        }
                        self.voxel_data[i] = v;
                        proof {
                            assert(self.vox()[i as int] == spec_drawn(
                                s0[i as int],
                                lo,
                                hi,
                                color,
                                id as int,
                            ));
                        }
                    },
                    None => {
                        proof {
                            assert(self.vox()[i as int] == spec_drawn(
                                s0[i as int],
                                lo,
                                hi,
                                color,
                                id as int,
                            ));
                        }
                    },
                }
            } else {
                proof {
                    assert(self.vox()[i as int] == spec_drawn(
                        s0[i as int],
                        lo,
                        hi,
                        color,
                        id as int,
                    ));
                }
            }
            i += 1;
        }
        self.current_type = ChunkType::Persistent;
        proof {
            assert(self.wf_core()) by {
                assert(seq_distinct(self.vox()));
                assert forall|k: int|
                    0 <= k < self.vox().len() implies self.in_bounds(
                    #[trigger] pos_of(self.vox()[k].position),
                ) by {
                    assert(self.vox()[k].position == s0[k].position);
                    assert(old(self).in_bounds(pos_of(s0[k].position)));
                }
            }
        }
        self.rebuild_buffer();
    }

    /// Regenerate the derived render buffer from the voxel list.
    fn rebuild_buffer(&mut self)
        requires
            old(self).wf_core(),
        ensures
            final(self).wf(),
            final(self).voxel_data == old(self).voxel_data,
            final(self).position_hash == old(self).position_hash,
            final(self).position == old(self).position,
            final(self).current_type == old(self).current_type,
            final(self).is_active == old(self).is_active,
            final(self).is_selected == old(self).is_selected,
            final(self).need_update == old(self).need_update,
    {
        let mut raws: Vec<InstanceRaw> = Vec::new();
        let mut i: usize = 0;
        let n = self.voxel_data.len();
        while i < n
            invariant
                *self == *old(self),
                old(self).wf_core(),
                n == self.voxel_data@.len(),
                0 <= i <= n,
                raws@.len() == i,
                forall|j: int| 0 <= j < i ==> raws@[j] == spec_to_raw(#[trigger] self.vox()[j]),
            decreases n - i,
        {
            let v = self.voxel_data[i];
            proof {
                self.lemma_bounds_in_world(pos_of(v.position));
            }
            raws.push(v.to_raw());
            i += 1;
        }
        self.instance_data = raws;
        self.instance_len = n;
    }
}

} // verus!
