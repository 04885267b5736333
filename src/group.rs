use bevy::utils::HashMap;
use vstd::prelude::*;
use crate::greedy::plane_bit;
use crate::voxel::{in_border, ChunksRefs, VoxelPos};

verus! {

/// Block types are below this bound: the packed vertex word holds 7 bits of
/// block type.
pub const BLOCK_TYPE_LIMIT: u32 = 128;

/// Every voxel of the neighbourhood has a block type below `BLOCK_TYPE_LIMIT`.
pub open spec fn types_fit(refs: ChunksRefs) -> bool {
    forall|i: int, j: int|
        0 <= i < refs.chunks@.len() && 0 <= j < refs.chunks@[i].voxels@.len()
            ==> #[trigger] refs.chunks@[i].voxels@[j].block_type < BLOCK_TYPE_LIMIT
}

/// The voxel at a local position is solid.
pub open spec fn solid_local(refs: ChunksRefs, x: int, y: int, z: int) -> bool {
    refs.block_at(x, y, z).solid()
}

/// Unit step of face direction `d`: down, up, left, right, forward, back.
pub open spec fn dir_offset(d: int) -> (int, int, int) {
    if d == 0 {
        (0, -1, 0)
    } else if d == 1 {
        (0, 1, 0)
    } else if d == 2 {
        (-1, 0, 0)
    } else if d == 3 {
        (1, 0, 0)
    } else if d == 4 {
        (0, 0, -1)
    } else {
        (0, 0, 1)
    }
}

pub open spec fn in_chunk3(v: (int, int, int)) -> bool {
    0 <= v.0 < 32 && 0 <= v.1 < 32 && 0 <= v.2 < 32
}

/// Voxel `v` of the chunk shows a face in direction `d`: it is solid and
/// its neighbour that way, possibly in a neighbouring chunk, is not.
pub open spec fn face_visible(refs: ChunksRefs, d: int, v: (int, int, int)) -> bool {
    let o = dir_offset(d);
    &&& 0 <= d < 6
    &&& in_chunk3(v)
    &&& solid_local(refs, v.0, v.1, v.2)
    &&& !solid_local(refs, v.0 + o.0, v.1 + o.1, v.2 + o.2)
}

/// The voxel behind cell (`row`, `col`) of a plane of direction `d` at
/// depth `depth`.
pub open spec fn plane_voxel(d: int, row: int, col: int, depth: int) -> (int, int, int) {
    if d < 2 {
        (row, depth, col)
    } else if d < 4 {
        (depth, col, row)
    } else {
        (row, col, depth)
    }
}

/// Offset of AO sample `k` (0 to 8, 4 being the face's own neighbour) of a
/// face in direction `d`: the 3x3 square of cells in front of the face.
pub open spec fn ao_offset(d: int, k: int) -> (int, int, int) {
    let a = k / 3 - 1;
    let b = k % 3 - 1;
    if d == 0 {
        (a, -1, b)
    } else if d == 1 {
        (a, 1, b)
    } else if d == 2 {
        (-1, b, a)
    } else if d == 3 {
        (1, b, a)
    } else if d == 4 {
        (a, b, -1)
    } else {
        (a, b, 1)
    }
}

/// AO sample `k` of the face of voxel `v` in direction `d` is solid.
pub open spec fn ao_solid(refs: ChunksRefs, d: int, v: (int, int, int), k: int) -> bool {
    let o = ao_offset(d, k);
    solid_local(refs, v.0 + o.0, v.1 + o.1, v.2 + o.2)
}

/// Bit `k` of the AO pattern, as a number.
pub open spec fn ao_weight(refs: ChunksRefs, d: int, v: (int, int, int), k: int) -> int {
    if k != 4 && ao_solid(refs, d, v, k) {
        if k == 0 {
            1
        } else if k == 1 {
            2
        } else if k == 2 {
            4
        } else if k == 3 {
            8
        } else if k == 5 {
            32
        } else if k == 6 {
            64
        } else if k == 7 {
            128
        } else {
            256
        }
    } else {
        0
    }
}

/// The AO pattern of a face: bit `k` is set when sample `k` (not 4) is solid.
pub open spec fn ao_pattern(refs: ChunksRefs, d: int, v: (int, int, int)) -> int {
    ao_weight(refs, d, v, 0) + ao_weight(refs, d, v, 1) + ao_weight(refs, d, v, 2) + ao_weight(
        refs,
        d,
        v,
        3,
    ) + ao_weight(refs, d, v, 5) + ao_weight(refs, d, v, 6) + ao_weight(refs, d, v, 7)
        + ao_weight(refs, d, v, 8)
}

/// Group key of a face: its AO pattern in the low 9 bits, the voxel's block
/// type above.
pub open spec fn face_key(refs: ChunksRefs, d: int, v: (int, int, int)) -> int {
    ao_pattern(refs, d, v) + refs.block_at(v.0, v.1, v.2).block_type * 512
}

/// One binary plane: the faces of direction `dir` at depth `depth` whose
/// group key is `key`.
#[derive(Debug, Clone, Copy)]
pub struct FaceGroup {
    pub dir: usize,
    pub key: u32,
    pub depth: u32,
    pub rows: [u32; 32],
}

/// The table holds cell (`r`, `c`) in the plane of (`d`, `key`, `depth`).
pub open spec fn group_has(groups: Seq<FaceGroup>, d: int, key: int, depth: int, r: int, c: int) -> bool {
    exists|g: int|
        0 <= g < groups.len() && groups[g].dir == d && groups[g].key == key && groups[g].depth
            == depth && #[trigger] plane_bit(groups[g].rows@, r, c)
}

/// No two planes of the table share direction, key and depth.
pub open spec fn groups_unique(groups: Seq<FaceGroup>) -> bool {
    forall|g: int, h: int|
        0 <= g < groups.len() && 0 <= h < groups.len() && g != h ==> !(#[trigger] groups[g].dir
            == #[trigger] groups[h].dir && groups[g].key == groups[h].key && groups[g].depth
            == groups[h].depth)
}

/// Every plane of the table has a direction below 6 and a depth below 32.
pub open spec fn groups_ok(groups: Seq<FaceGroup>) -> bool {
    forall|g: int| 0 <= g < groups.len() ==> (#[trigger] groups[g]).dir < 6 && groups[g].depth < 32
}

proof fn lemma_or_bit32(v: u32, k: u32, c: u32)
    requires
        k < 32,
        c < 32,
    ensures
        ((v | (1u32 << k)) >> c) & 1u32 == 1u32 <==> ((v >> c) & 1u32 == 1u32 || c == k),
{
    assert(((v | (1u32 << k)) >> c) & 1u32 == 1u32 <==> ((v >> c) & 1u32 == 1u32 || c == k))
        by (bit_vector)
        requires
            k < 32,
            c < 32,
    ;
}

proof fn lemma_zero_bit32(c: u32)
    requires
        c < 32,
    ensures
        (0u32 >> c) & 1u32 == 0u32,
{
    assert((0u32 >> c) & 1u32 == 0u32) by (bit_vector);
}

/// `rows` with bit `col` of row `row` set.
fn set_plane_bit(rows: [u32; 32], row: usize, col: u32) -> (r: [u32; 32])
    requires
        row < 32,
        col < 32,
    ensures
        forall|i: int, c: int| #[trigger] plane_bit(r@, i, c) <==> (plane_bit(rows@, i, c) || (i
            == row && c == col)),
{
    let mut r = rows;
    r[row] = rows[row] | (1u32 << col);
    proof {
        assert forall|i: int, c: int| #[trigger] plane_bit(r@, i, c) <==> (plane_bit(rows@, i, c) || (
        i == row && c == col)) by {
            if i == row && 0 <= c < 32 {
                lemma_or_bit32(rows[row as int], col, c as u32);
            }
        }
    }
    r
}

/// The planes of one build as the grouper fills them: for each face
/// direction, a map from group key to a map from depth to binary plane.
#[verifier::external_body]
pub struct FaceTable {
    data: [HashMap<u32, HashMap<u32, [u32; 32]>>; 6],
}

/// What a table holds: the rows of the plane of each (direction, group key,
/// depth).
pub uninterp spec fn table_planes(t: FaceTable) -> Map<(int, int, int), Seq<u32>>;

impl FaceTable {
    /// Relies on `HashMap::new` (hashbrown, through bevy): a new map is empty.
    #[verifier::external_body]
    pub fn new() -> (t: FaceTable)
        ensures
            table_planes(t).dom().finite(),
            table_planes(t).dom().len() == 0,
            forall|k: (int, int, int)| !#[trigger] table_planes(t).contains_key(k),
    {
        FaceTable {
            data: [
                HashMap::new(),
                HashMap::new(),
                HashMap::new(),
                HashMap::new(),
                HashMap::new(),
                HashMap::new(),
            ],
        }
    }

    /// Relies on `HashMap::get` (hashbrown, through bevy): the value stored
    /// under a key, if any; an absent plane reads as all zeros.
    #[verifier::external_body]
    pub fn plane(&self, d: usize, key: u32, depth: u32) -> (r: [u32; 32])
        requires
            d < 6,
        ensures
            table_planes(*self).contains_key((d as int, key as int, depth as int)) ==> r@
                == table_planes(*self)[(d as int, key as int, depth as int)],
            !table_planes(*self).contains_key((d as int, key as int, depth as int)) ==> r@
                == Seq::new(32, |i: int| 0u32),
    {
        match self.data[d].get(&key) {
            Some(planes) => planes.get(&depth).copied().unwrap_or_default(),
            None => <[u32; 32]>::default(),
        }
    }

    /// Relies on `HashMap::entry`, `Entry::or_default` and `HashMap::insert`
    /// (hashbrown, through bevy): the plane of (`d`, `key`, `depth`) is
    /// replaced by `rows`, the other planes stay.
    #[verifier::external_body]
    pub fn set_plane(&mut self, d: usize, key: u32, depth: u32, rows: [u32; 32])
        requires
            d < 6,
        ensures
            table_planes(*final(self)) == table_planes(*old(self)).insert(
                (d as int, key as int, depth as int),
                rows@,
            ),
    {
        self.data[d].entry(key).or_default().insert(depth, rows);
    }

    /// Relies on `HashMap::into_iter` (hashbrown, through bevy): every entry
    /// comes out exactly once, in an order the map chooses.
    #[verifier::external_body]
    pub fn into_groups(self) -> (groups: Vec<FaceGroup>)
        ensures
            groups_unique(groups@),
            groups@.len() == table_planes(self).dom().len(),
            forall|g: int|
                0 <= g < groups@.len() ==> table_planes(self).contains_key(
                    (#[trigger] groups@[g].dir as int, groups@[g].key as int, groups@[g].depth as int),
                ) && table_planes(self)[(
                    groups@[g].dir as int,
                    groups@[g].key as int,
                    groups@[g].depth as int,
                )] == groups@[g].rows@,
            forall|k: (int, int, int)|
                #[trigger] table_planes(self).contains_key(k) ==> exists|g: int|
                    0 <= g < groups@.len() && groups@[g].dir == k.0 && groups@[g].key == k.1
                        && groups@[g].depth == k.2,
    {
        let mut groups = Vec::new();
        for (dir, planes) in self.data.into_iter().enumerate() {
            for (key, by_depth) in planes {
                for (depth, rows) in by_depth {
                    groups.push(FaceGroup { dir, key, depth, rows });
                }
            }
        }
        groups
    }
}

/// Position of a plane in the canonical order: by direction, then group
/// key, then depth.
pub open spec fn rank(g: FaceGroup) -> int {
    g.dir * 0x1_0000_0000_0000_0000 + g.key * 0x1_0000_0000 + g.depth
}

/// The planes come in strictly ascending canonical order.
pub open spec fn groups_sorted(groups: Seq<FaceGroup>) -> bool {
    forall|i: int, j: int| 0 <= i < j < groups.len() ==> rank(#[trigger] groups[i]) < rank(
        #[trigger] groups[j],
    )
}

fn rank_less(a: &FaceGroup, b: &FaceGroup) -> (r: bool)
    requires
        a.dir < 6,
        b.dir < 6,
    ensures
        r == (rank(*a) < rank(*b)),
{
    if a.dir != b.dir {
        a.dir < b.dir
    } else if a.key != b.key {
        a.key < b.key
    } else {
        a.depth < b.depth
    }
}

/// Sorts the planes into canonical order; the same planes come out.
pub fn sort_groups(groups: Vec<FaceGroup>) -> (out: Vec<FaceGroup>)
    requires
        groups_unique(groups@),
        groups_ok(groups@),
    ensures
        groups_sorted(out@),
        groups_ok(out@),
        groups_unique(out@),
        out@.len() == groups@.len(),
        forall|g: FaceGroup| out@.contains(g) <==> groups@.contains(g),
{
    let mut out: Vec<FaceGroup> = Vec::new();
    let mut i: usize = 0;
    while i < groups.len()
        invariant
            i <= groups@.len(),
            groups_unique(groups@),
            groups_ok(groups@),
            groups_sorted(out@),
            out@.len() == i,
            forall|g: FaceGroup| out@.contains(g) <==> groups@.subrange(0, i as int).contains(g),
        decreases groups@.len() - i,
    {
        let g = groups[i];
        proof {
            assert forall|k: int| 0 <= k < out@.len() implies rank(#[trigger] out@[k]) != rank(g)
                && out@[k].dir < 6 by {
                assert(out@.contains(out@[k]));
                assert(groups@.subrange(0, i as int).contains(out@[k]));
                let j = choose|j: int| 0 <= j < i && groups@.subrange(0, i as int)[j] == out@[k];
                assert(groups@[j] == out@[k]);
                assert(groups@[j].dir == groups@[i as int].dir ==> !(groups@[j].key
                    == groups@[i as int].key && groups@[j].depth == groups@[i as int].depth));
            }
        }
        let mut pos: usize = 0;
        while pos < out.len() && !rank_less(&g, &out[pos])
            invariant
                pos <= out@.len(),
                g.dir < 6,
                forall|k: int| 0 <= k < out@.len() ==> out@[k].dir < 6,
                forall|k: int| 0 <= k < pos ==> rank(#[trigger] out@[k]) < rank(g),
                forall|k: int| 0 <= k < out@.len() ==> rank(#[trigger] out@[k]) != rank(g),
            decreases out@.len() - pos,
        {
            pos = pos + 1;
        }
        let ghost before = out@;
        out.insert(pos, g);
        proof {
            assert(out@ == before.insert(pos as int, g));
            assert forall|a: int, b: int| 0 <= a < b < out@.len() implies rank(#[trigger] out@[a])
                < rank(#[trigger] out@[b]) by {
                if b < pos {
                } else if a > pos {
                    assert(out@[a] == before[a - 1] && out@[b] == before[b - 1]);
                } else if a == pos {
                    assert(out@[b] == before[b - 1]);
                    assert(rank(before[pos as int]) > rank(g));
                } else if b == pos {
                } else {
                    assert(out@[b] == before[b - 1]);
                }
            }
            let pre = groups@.subrange(0, i as int);
            let nxt = groups@.subrange(0, i + 1);
            assert(nxt =~= pre.push(g));
            assert forall|x: FaceGroup| out@.contains(x) <==> nxt.contains(x) by {
                if out@.contains(x) {
                    let k = choose|k: int| 0 <= k < out@.len() && out@[k] == x;
                    if k == pos {
                        assert(nxt[i as int] == g);
                    } else {
                        let kb = if k < pos {
                            k
                        } else {
                            k - 1
                        };
                        assert(before[kb] == x);
                        assert(before.contains(x));
                        assert(pre.contains(x));
                        let j = choose|j: int| 0 <= j < pre.len() && pre[j] == x;
                        assert(nxt[j] == x);
                    }
                }
                if nxt.contains(x) {
                    let j = choose|j: int| 0 <= j < nxt.len() && nxt[j] == x;
                    if j == i {
                        assert(out@[pos as int] == g);
                    } else {
                        assert(pre[j] == x);
                        assert(pre.contains(x));
                        assert(before.contains(x));
                        let k = choose|k: int| 0 <= k < before.len() && before[k] == x;
                        if k < pos {
                            assert(out@[k] == x);
                        } else {
                            assert(out@[k + 1] == x);
                        }
                    }
                }
            }
        }
        i = i + 1;
    }
    proof {
        assert(groups@.subrange(0, groups@.len() as int) =~= groups@);
        assert forall|k: int| 0 <= k < out@.len() implies (#[trigger] out@[k]).dir < 6
            && out@[k].depth < 32 by {
            assert(out@.contains(out@[k]));
            let j = choose|j: int| 0 <= j < groups@.len() && groups@[j] == out@[k];
        }
        assert forall|a: int, b: int|
            0 <= a < out@.len() && 0 <= b < out@.len() && a != b implies !(#[trigger] out@[a].dir
            == #[trigger] out@[b].dir && out@[a].key == out@[b].key && out@[a].depth
            == out@[b].depth) by {
            if a < b {
                assert(rank(out@[a]) < rank(out@[b]));
            } else {
                assert(rank(out@[b]) < rank(out@[a]));
            }
        }
    }
    out
}

/// The table holds cell (`r`, `c`) in the plane of (`d`, `key`, `depth`).
pub open spec fn table_has(t: Map<(int, int, int), Seq<u32>>, d: int, key: int, depth: int, r: int, c: int) -> bool {
    t.contains_key((d, key, depth)) && plane_bit(t[(d, key, depth)], r, c)
}

/// Every plane of the table has a direction below 6 and a depth below 32
/// and holds a face, and there are finitely many.
pub open spec fn table_ok(t: Map<(int, int, int), Seq<u32>>) -> bool {
    &&& t.dom().finite()
    &&& forall|k: (int, int, int)| #[trigger] t.contains_key(k) ==> 0 <= k.0 < 6 && 0 <= k.2 < 32
    &&& forall|k: (int, int, int)|
        #[trigger] t.contains_key(k) ==> exists|r: int, c: int| plane_bit(t[k], r, c)
}

/// Records the face at cell (`row`, `col`) in the plane of (`d`, `key`,
/// `depth`), adding the plane to the table if it is not there yet.
pub fn add_face(table: &mut FaceTable, d: usize, key: u32, depth: u32, row: usize, col: u32)
    requires
        table_ok(table_planes(*old(table))),
        d < 6,
        depth < 32,
        row < 32,
        col < 32,
    ensures
        table_ok(table_planes(*final(table))),
        table_planes(*final(table)).dom().len() <= table_planes(*old(table)).dom().len() + 1,
        forall|d2: int, k2: int, e2: int, r2: int, c2: int|
            #[trigger] table_has(table_planes(*final(table)), d2, k2, e2, r2, c2) <==> (table_has(
                table_planes(*old(table)),
                d2,
                k2,
                e2,
                r2,
                c2,
            ) || (d2 == d && k2 == key && e2 == depth && r2 == row && c2 == col)),
{
    let ghost t0 = table_planes(*table);
    let rows = table.plane(d, key, depth);
    proof {
        if !t0.contains_key((d as int, key as int, depth as int)) {
            assert forall|r: int, c: int| !plane_bit(rows@, r, c) by {
                if 0 <= r < 32 && 0 <= c < 32 {
                    lemma_zero_bit32(c as u32);
                }
            }
        }
    }
    let rows = set_plane_bit(rows, row, col);
    table.set_plane(d, key, depth, rows);
    proof {
        let t1 = table_planes(*table);
        let k = (d as int, key as int, depth as int);
        assert(t1.dom() == t0.dom().insert(k));
        if t0.contains_key(k) {
            assert(t0.dom().insert(k) == t0.dom());
        }
        assert(plane_bit(t1[k], row as int, col as int));
        assert forall|k2: (int, int, int)| #[trigger] t1.contains_key(k2) implies exists|
            r: int,
            c: int,
        | plane_bit(t1[k2], r, c) by {
            if k2 == k {
                assert(plane_bit(t1[k2], row as int, col as int));
            } else {
                assert(t0.contains_key(k2));
                assert(t1[k2] == t0[k2]);
            }
        }
    }
}

pub(crate) proof fn lemma_block_type_fits(refs: ChunksRefs, x: int, y: int, z: int)
    requires
        refs.wf(),
        types_fit(refs),
        in_border(x),
        in_border(y),
        in_border(z),
    ensures
        refs.block_at(x, y, z).block_type < BLOCK_TYPE_LIMIT,
{
    let i = crate::voxel::chunk_offset(x) + 3 * crate::voxel::chunk_offset(y) + 9
        * crate::voxel::chunk_offset(z);
    let c = refs.chunks@[i];
    assert(c.wf());
    if c.voxels@.len() == 1 {
        assert(refs.chunks@[i].voxels@[0].block_type < BLOCK_TYPE_LIMIT);
    } else {
        let j = crate::voxel::voxel_index(
            crate::voxel::in_chunk(x),
            crate::voxel::in_chunk(y),
            crate::voxel::in_chunk(z),
        );
        assert(refs.chunks@[i].voxels@[j].block_type < BLOCK_TYPE_LIMIT);
    }
}

/// Weight of AO sample `k` of the face of `pos` in direction `d`.
fn ao_weight_at(refs: &ChunksRefs, d: usize, pos: VoxelPos, k: i32) -> (r: u32)
    requires
        refs.wf(),
        d < 6,
        in_chunk3((pos.x as int, pos.y as int, pos.z as int)),
        0 <= k < 9,
    ensures
        r as int == ao_weight(*refs, d as int, (pos.x as int, pos.y as int, pos.z as int), k as int),
{
    if k == 4 {
        return 0;
    }
    let a = k / 3 - 1;
    let b = k % 3 - 1;
    let off = match d {
        0 => VoxelPos { x: a, y: -1, z: b },
        1 => VoxelPos { x: a, y: 1, z: b },
        2 => VoxelPos { x: -1, y: b, z: a },
        3 => VoxelPos { x: 1, y: b, z: a },
        4 => VoxelPos { x: a, y: b, z: -1 },
        _ => VoxelPos { x: a, y: b, z: 1 },
    };
    let sample = VoxelPos { x: pos.x + off.x, y: pos.y + off.y, z: pos.z + off.z };
    if refs.get_block(sample).is_solid() {
        match k {
            0 => 1,
            1 => 2,
            2 => 4,
            3 => 8,
            5 => 32,
            6 => 64,
            7 => 128,
            _ => 256,
        }
    } else {
        0
    }
}

/// The group key of the face of `pos` in direction `d`: its AO pattern,
/// sampled across chunk borders, with the voxel's block type above bit 9.
pub fn face_key_at(refs: &ChunksRefs, d: usize, pos: VoxelPos) -> (r: u32)
    requires
        refs.wf(),
        types_fit(*refs),
        d < 6,
        in_chunk3((pos.x as int, pos.y as int, pos.z as int)),
    ensures
        r as int == face_key(*refs, d as int, (pos.x as int, pos.y as int, pos.z as int)),
{
    let mut ao_index: u32 = 0;
    ao_index = ao_index + ao_weight_at(refs, d, pos, 0);
    ao_index = ao_index + ao_weight_at(refs, d, pos, 1);
    ao_index = ao_index + ao_weight_at(refs, d, pos, 2);
    ao_index = ao_index + ao_weight_at(refs, d, pos, 3);
    ao_index = ao_index + ao_weight_at(refs, d, pos, 5);
    ao_index = ao_index + ao_weight_at(refs, d, pos, 6);
    ao_index = ao_index + ao_weight_at(refs, d, pos, 7);
    ao_index = ao_index + ao_weight_at(refs, d, pos, 8);
    let current_voxel = refs.get_block_no_neighbour(pos);
    proof {
        lemma_block_type_fits(*refs, pos.x as int, pos.y as int, pos.z as int);
    }
    ao_index + current_voxel.block_type * 512
}

} // verus!
