use vstd::prelude::*;
use vstd::std_specs::bits::*;
use crate::cull::{
    axis_solid, bit64, col_bit, col_idx, cull_faces, encode_solid, face_rule, in_padded,
    COLUMNS_PER_AXIS,
};
use crate::greedy::{greedy_mesh_binary_plane, greedy_spec, plane_bit, quads_cover, GreedyQuad};
use crate::group::{
    add_face, ao_pattern, ao_solid, dir_offset, face_key, face_key_at, face_visible, group_has,
    groups_ok, groups_sorted, groups_unique, plane_voxel, rank, solid_local, sort_groups,
    table_has, table_ok, table_planes, types_fit, FaceGroup, FaceTable,
};
use crate::vertex::{corner_ao, FaceDir, Lod};
use crate::voxel::{ChunksRefs, VoxelPos, CHUNK_SIZE};

verus! {

broadcast use axiom_u64_trailing_zeros;

/// A face mask column without its two padding bits: bit `j` stands for
/// chunk coordinate `j`.
pub open spec fn strip(m: u64) -> u64 {
    (m >> 1u64) & !(1u64 << 32u64)
}

/// The face masks, once stripped, hold exactly the visible faces: for
/// direction `d` and column (`z`, `x`) of the chunk, bit `j` is set when the
/// face of voxel `plane_voxel(d, x, z, j)` is visible.
pub open spec fn masks_exact(refs: ChunksRefs, masks: Seq<u64>) -> bool {
    &&& masks.len() == 6 * COLUMNS_PER_AXIS
    &&& forall|d: int, z: int, x: int, j: int|
        0 <= d < 6 && 0 <= z < 32 && 0 <= x < 32 && 0 <= j < 64 ==> (#[trigger] bit64(
            strip(masks[col_idx(d, z + 1, x + 1)]),
            j,
        ) <==> (j < 32 && face_visible(refs, d, plane_voxel(d, x, z, j))))
}

proof fn lemma_strip_bit(m: u64, j: u64)
    requires
        j < 64,
    ensures
        bit64(strip(m), j as int) <==> (j < 63 && j != 32 && bit64(m, j + 1)),
{
    if j < 63 {
        let i = (j + 1) as u64;
        assert((((m >> 1u64) & !(1u64 << 32u64)) >> j) & 1u64 == 1u64 <==> (j != 32 && (m >> i)
            & 1u64 == 1u64)) by (bit_vector)
            requires
                j < 63,
                i == j + 1,
        ;
    } else {
        assert((((m >> 1u64) & !(1u64 << 32u64)) >> 63u64) & 1u64 == 0u64) by (bit_vector);
    }
}

proof fn lemma_clear_lowest(col: u64, y: u64, j: u64)
    requires
        y < 64,
        j < 64,
        (col >> y) & 1u64 == 1u64,
        y == 0 || col << ((64 - y) as u64) == 0,
    ensures
        bit64(col & (col - 1u64) as u64, j as int) <==> (bit64(col, j as int) && j != y),
{
    if y == 0 {
        assert(((col & (col - 1u64) as u64) >> j) & 1u64 == 1u64 <==> ((col >> j) & 1u64 == 1u64 && j
            != y)) by (bit_vector)
            requires
                y == 0,
                j < 64,
                (col >> y) & 1u64 == 1u64,
        ;
    } else {
        assert(((col & (col - 1u64) as u64) >> j) & 1u64 == 1u64 <==> ((col >> j) & 1u64 == 1u64 && j
            != y)) by (bit_vector)
            requires
                0 < y < 64,
                j < 64,
                (col >> y) & 1u64 == 1u64,
                col << ((64 - y) as u64) == 0,
        ;
    }
}

/// The solid columns of `refs`, as `encode_solid` gives them.
pub open spec fn cols_exact(refs: ChunksRefs, cols: Seq<u64>) -> bool {
    &&& cols.len() == 3 * COLUMNS_PER_AXIS
    &&& forall|f: int, a: int, b: int, i: int|
        0 <= f < 3 && in_padded(a) && in_padded(b) && 0 <= i < 64 ==> (#[trigger] col_bit(
            cols,
            f,
            a,
            b,
            i,
        ) <==> (i < 34 && axis_solid(refs, f, a, b, i)))
}

/// The face masks of `cols`, as `cull_faces` gives them.
pub open spec fn masks_of(cols: Seq<u64>, masks: Seq<u64>) -> bool {
    &&& masks.len() == 6 * COLUMNS_PER_AXIS
    &&& forall|d: int, a: int, b: int, i: int|
        0 <= d < 6 && in_padded(a) && in_padded(b) && 0 <= i < 64 ==> (#[trigger] col_bit(
            masks,
            d,
            a,
            b,
            i,
        ) <==> face_rule(cols[col_idx(d / 2, a, b)], d % 2 == 1, i))
}

proof fn lemma_masks_exact(refs: ChunksRefs, cols: Seq<u64>, masks: Seq<u64>)
    requires
        cols_exact(refs, cols),
        masks_of(cols, masks),
    ensures
        masks_exact(refs, masks),
{
    assert forall|d: int, z: int, x: int, j: int|
        0 <= d < 6 && 0 <= z < 32 && 0 <= x < 32 && 0 <= j < 64 implies (#[trigger] bit64(
        strip(masks[col_idx(d, z + 1, x + 1)]),
        j,
    ) <==> (j < 32 && face_visible(refs, d, plane_voxel(d, x, z, j)))) by {
        let m = masks[col_idx(d, z + 1, x + 1)];
        let f = d / 2;
        lemma_strip_bit(m, j as u64);
        if j < 63 && j != 32 {
            let i = j + 1;
            assert(col_bit(masks, d, z + 1, x + 1, i) == face_rule(
                cols[col_idx(f, z + 1, x + 1)],
                d % 2 == 1,
                i,
            ));
            assert(col_bit(cols, f, z + 1, x + 1, i) == (i < 34 && axis_solid(
                refs,
                f,
                z + 1,
                x + 1,
                i,
            )));
            assert(col_bit(cols, f, z + 1, x + 1, i - 1) == (i - 1 < 34 && axis_solid(
                refs,
                f,
                z + 1,
                x + 1,
                i - 1,
            )));
            if i + 1 < 64 {
                assert(col_bit(cols, f, z + 1, x + 1, i + 1) == (i + 1 < 34 && axis_solid(
                    refs,
                    f,
                    z + 1,
                    x + 1,
                    i + 1,
                )));
            }
        }
    }
}

/// Order in which the grouper visits the columns of the face masks.
pub open spec fn column_order(d: int, z: int, x: int) -> int {
    d * 1024 + z * 32 + x
}

/// The face with direction `d2`, plane cell (`r2`, `c2`), depth `e2` and
/// group key `k2` exists.
pub open spec fn face_in_plane(refs: ChunksRefs, d2: int, k2: int, e2: int, r2: int, c2: int) -> bool {
    let v = plane_voxel(d2, r2, c2, e2);
    &&& 0 <= d2 < 6
    &&& 0 <= r2 < 32
    &&& 0 <= c2 < 32
    &&& 0 <= e2 < 32
    &&& face_visible(refs, d2, v)
    &&& face_key(refs, d2, v) == k2
}

/// The table holds exactly the faces of the columns visited before `cur`,
/// and of column `cur` those whose bit is no longer in `col`.
pub open spec fn grouped_upto(refs: ChunksRefs, groups: Map<(int, int, int), Seq<u32>>, cur: int, col: u64) -> bool {
    forall|d2: int, k2: int, e2: int, r2: int, c2: int|
        #[trigger] table_has(groups, d2, k2, e2, r2, c2) <==> (face_in_plane(refs, d2, k2, e2, r2, c2)
            && (column_order(d2, c2, r2) < cur || (column_order(d2, c2, r2) == cur && !bit64(
            col,
            e2,
        ))))
}

/// The table holds exactly the faces of the columns visited before `cur`.
pub open spec fn grouped_before(refs: ChunksRefs, groups: Map<(int, int, int), Seq<u32>>, cur: int) -> bool {
    forall|d2: int, k2: int, e2: int, r2: int, c2: int|
        #[trigger] table_has(groups, d2, k2, e2, r2, c2) <==> (face_in_plane(refs, d2, k2, e2, r2, c2)
            && column_order(d2, c2, r2) < cur)
}

proof fn lemma_clear_lowest_smaller(col: u64)
    requires
        col != 0,
    ensures
        col & ((col - 1u64) as u64) < col,
{
    assert(col & ((col - 1u64) as u64) < col) by (bit_vector)
        requires
            col != 0,
    ;
}

/// Some bit of the plane is set.
pub open spec fn plane_nonempty(rows: Seq<u32>) -> bool {
    exists|r: int, c: int| plane_bit(rows, r, c)
}

/// The planes of `refs` in canonical order: strictly ascending by
/// (direction, key, depth), each holding at least one face, together holding
/// exactly the visible faces of the chunk.
pub open spec fn canonical_groups(refs: ChunksRefs, gs: Seq<FaceGroup>) -> bool {
    &&& groups_sorted(gs)
    &&& groups_ok(gs)
    &&& forall|g: int| 0 <= g < gs.len() ==> plane_nonempty((#[trigger] gs[g]).rows@)
    &&& forall|d2: int, k2: int, e2: int, r2: int, c2: int|
        #[trigger] group_has(gs, d2, k2, e2, r2, c2) <==> face_in_plane(refs, d2, k2, e2, r2, c2)
}

/// Buckets every visible face into the binary plane of its direction, group
/// key and depth: the result holds exactly the faces of the chunk, each in
/// the one plane of its key.
pub fn group_faces(refs: &ChunksRefs, masks: &Vec<u64>) -> (groups: Vec<FaceGroup>)
    requires
        refs.wf(),
        types_fit(*refs),
        masks_exact(*refs, masks@),
    ensures
        groups_unique(groups@),
        groups_ok(groups@),
        groups@.len() <= 196608,
        canonical_groups(*refs, groups@),
        forall|d2: int, k2: int, e2: int, r2: int, c2: int|
            #[trigger] group_has(groups@, d2, k2, e2, r2, c2) <==> face_in_plane(
                *refs,
                d2,
                k2,
                e2,
                r2,
                c2,
            ),
{
    let mut table = FaceTable::new();
    let mut axis: usize = 0;
    while axis < 6
        invariant
            refs.wf(),
            types_fit(*refs),
            masks_exact(*refs, masks@),
            axis <= 6,
            table_planes(table).dom().len() <= 32 * column_order(axis as int, 0, 0),
            table_ok(table_planes(table)),
            grouped_before(*refs, table_planes(table), column_order(axis as int, 0, 0)),
        decreases 6 - axis,
    {
        let mut z: usize = 0;
        while z < CHUNK_SIZE
            invariant
                refs.wf(),
                types_fit(*refs),
                masks_exact(*refs, masks@),
                axis < 6,
                z <= 32,
                table_planes(table).dom().len() <= 32 * column_order(axis as int, z as int, 0),
                table_ok(table_planes(table)),
                grouped_before(*refs, table_planes(table), column_order(axis as int, z as int, 0)),
            decreases 32 - z,
        {
            let mut x: usize = 0;
            while x < CHUNK_SIZE
                invariant
                    refs.wf(),
                    types_fit(*refs),
                    masks_exact(*refs, masks@),
                    axis < 6,
                    z < 32,
                    x <= 32,
                    table_planes(table).dom().len() <= 32 * column_order(axis as int, z as int, x as int),
                    table_ok(table_planes(table)),
                    grouped_before(*refs, table_planes(table), column_order(axis as int, z as int, x as int)),
                decreases 32 - x,
            {
                let ghost cur = column_order(axis as int, z as int, x as int);
                let mut col = masks[axis * COLUMNS_PER_AXIS + (z + 1) * 34 + (x + 1)];
                col = col >> 1u64;
                col = col & !(1u64 << 32u64);
                let ghost stripped = col;
                let ghost mut t: int = 0;
                proof {
                    assert(stripped == strip(masks@[col_idx(axis as int, z + 1, x + 1)]));
                    assert forall|d2: int, k2: int, e2: int, r2: int, c2: int|
                        #[trigger] table_has(table_planes(table), d2, k2, e2, r2, c2) <==> (face_in_plane(
                            *refs,
                            d2,
                            k2,
                            e2,
                            r2,
                            c2,
                        ) && (column_order(d2, c2, r2) < cur || (column_order(d2, c2, r2) == cur
                            && !bit64(col, e2)))) by {
                        if face_in_plane(*refs, d2, k2, e2, r2, c2) && column_order(d2, c2, r2)
                            == cur {
                            assert(d2 == axis && c2 == z && r2 == x);
                            assert(bit64(stripped, e2));
                        }
                    }
                }
                while col != 0
                    invariant
                        refs.wf(),
                        types_fit(*refs),
                        masks_exact(*refs, masks@),
                        axis < 6,
                        z < 32,
                        x < 32,
                        cur == column_order(axis as int, z as int, x as int),
                        stripped == strip(masks@[col_idx(axis as int, z + 1, x + 1)]),
                        forall|j: int| 0 <= j < 64 && #[trigger] bit64(col, j) ==> bit64(stripped, j),
                        0 <= t <= 32,
                        forall|j: int| 0 <= j < t ==> !#[trigger] bit64(col, j),
                        table_planes(table).dom().len() <= 32 * cur + t,
                        table_ok(table_planes(table)),
                        grouped_upto(*refs, table_planes(table), cur, col),
                    decreases col,
                {
                    let y = col.trailing_zeros();
                    let ghost old_col = col;
                    proof {
                        lemma_clear_lowest_smaller(col);
                    }
                    col = col & (col - 1);
                    proof {
                        assert forall|j: int| 0 <= j < 64 implies #[trigger] bit64(col, j) <==> (bit64(
                            old_col,
                            j,
                        ) && j != y) by {
                            lemma_clear_lowest(old_col, y as u64, j as u64);
                        }
                        assert(bit64(old_col, y as int));
                        assert(bit64(stripped, y as int));
                        assert(y >= t);
                        t = y + 1;
                    }
                    let voxel_pos = if axis < 2 {
                        VoxelPos { x: x as i32, y: y as i32, z: z as i32 }
                    } else if axis < 4 {
                        VoxelPos { x: y as i32, y: z as i32, z: x as i32 }
                    } else {
                        VoxelPos { x: x as i32, y: z as i32, z: y as i32 }
                    };
                    let key = face_key_at(refs, axis, voxel_pos);
                    let ghost before = table_planes(table);
                    add_face(&mut table, axis, key, y, x, z as u32);
                    proof {
                        assert forall|d2: int, k2: int, e2: int, r2: int, c2: int|
                            #[trigger] table_has(table_planes(table), d2, k2, e2, r2, c2) <==> (face_in_plane(
                                *refs,
                                d2,
                                k2,
                                e2,
                                r2,
                                c2,
                            ) && (column_order(d2, c2, r2) < cur || (column_order(d2, c2, r2)
                                == cur && !bit64(col, e2)))) by {
                            assert(table_has(before, d2, k2, e2, r2, c2) <==> (face_in_plane(
                                *refs,
                                d2,
                                k2,
                                e2,
                                r2,
                                c2,
                            ) && (column_order(d2, c2, r2) < cur || (column_order(d2, c2, r2)
                                == cur && !bit64(old_col, e2)))));
                            if column_order(d2, c2, r2) == cur && 0 <= d2 < 6 && 0 <= r2 < 32
                                && 0 <= c2 < 32 {
                                assert(d2 == axis && c2 == z && r2 == x);
                            }
                        }
                    }
                }
                proof {
                    assert forall|d2: int, k2: int, e2: int, r2: int, c2: int|
                        #[trigger] table_has(table_planes(table), d2, k2, e2, r2, c2) <==> (face_in_plane(
                            *refs,
                            d2,
                            k2,
                            e2,
                            r2,
                            c2,
                        ) && column_order(d2, c2, r2) < cur + 1) by {
                        if 0 <= e2 < 64 {
                            crate::cull::lemma_zero_bits(e2 as u64);
                        }
                    }
                }
                x = x + 1;
            }
            z = z + 1;
        }
        axis = axis + 1;
    }
    let ghost planes = table_planes(table);
    let groups = table.into_groups();
    proof {
        assert forall|g: int| 0 <= g < groups@.len() implies (#[trigger] groups@[g]).dir < 6
            && groups@[g].depth < 32 by {
            assert(planes.contains_key(
                (groups@[g].dir as int, groups@[g].key as int, groups@[g].depth as int),
            ));
        }
        assert forall|d2: int, k2: int, e2: int, r2: int, c2: int|
            #[trigger] group_has(groups@, d2, k2, e2, r2, c2) <==> table_has(
                planes,
                d2,
                k2,
                e2,
                r2,
                c2,
            ) by {
            if table_has(planes, d2, k2, e2, r2, c2) {
                let g = choose|g: int|
                    0 <= g < groups@.len() && groups@[g].dir == d2 && groups@[g].key == k2
                        && groups@[g].depth == e2;
                assert(planes[(d2, k2, e2)] == groups@[g].rows@);
            }
            if group_has(groups@, d2, k2, e2, r2, c2) {
                let g = choose|g: int|
                    0 <= g < groups@.len() && groups@[g].dir == d2 && groups@[g].key == k2
                        && groups@[g].depth == e2 && #[trigger] plane_bit(groups@[g].rows@, r2, c2);
                assert(planes.contains_key(
                    (groups@[g].dir as int, groups@[g].key as int, groups@[g].depth as int),
                ));
            }
        }
    }
    let sorted = sort_groups(groups);
    proof {
        assert forall|x: FaceGroup| #[trigger] sorted@.contains(x) implies exists|r: int, c: int|
            plane_bit(x.rows@, r, c) by {
            assert(groups@.contains(x));
            let j = choose|j: int| 0 <= j < groups@.len() && groups@[j] == x;
            assert(planes.contains_key((x.dir as int, x.key as int, x.depth as int)));
        }
        assert forall|g: int| 0 <= g < sorted@.len() implies plane_nonempty(
            (#[trigger] sorted@[g]).rows@,
        ) by {
            assert(sorted@.contains(sorted@[g]));
        }
        assert forall|d2: int, k2: int, e2: int, r2: int, c2: int|
            #[trigger] group_has(sorted@, d2, k2, e2, r2, c2) <==> group_has(
                groups@,
                d2,
                k2,
                e2,
                r2,
                c2,
            ) by {
            if group_has(sorted@, d2, k2, e2, r2, c2) {
                let g = choose|g: int|
                    0 <= g < sorted@.len() && sorted@[g].dir == d2 && sorted@[g].key == k2
                        && sorted@[g].depth == e2 && #[trigger] plane_bit(sorted@[g].rows@, r2, c2);
                assert(sorted@.contains(sorted@[g]));
                assert(groups@.contains(sorted@[g]));
                let j = choose|j: int| 0 <= j < groups@.len() && groups@[j] == sorted@[g];
                assert(plane_bit(groups@[j].rows@, r2, c2));
            }
            if group_has(groups@, d2, k2, e2, r2, c2) {
                let g = choose|g: int|
                    0 <= g < groups@.len() && groups@[g].dir == d2 && groups@[g].key == k2
                        && groups@[g].depth == e2 && #[trigger] plane_bit(groups@[g].rows@, r2, c2);
                assert(groups@.contains(groups@[g]));
                assert(sorted@.contains(groups@[g]));
                let j = choose|j: int| 0 <= j < sorted@.len() && sorted@[j] == groups@[g];
                assert(plane_bit(sorted@[j].rows@, r2, c2));
            }
        }
        assert forall|d2: int, k2: int, e2: int, r2: int, c2: int|
            #[trigger] group_has(sorted@, d2, k2, e2, r2, c2) <==> face_in_plane(
                *refs,
                d2,
                k2,
                e2,
                r2,
                c2,
            ) by {
            assert(group_has(sorted@, d2, k2, e2, r2, c2) <==> group_has(
                groups@,
                d2,
                k2,
                e2,
                r2,
                c2,
            ));
            assert(group_has(groups@, d2, k2, e2, r2, c2) <==> table_has(
                planes,
                d2,
                k2,
                e2,
                r2,
                c2,
            ));
        }
        assert(groups_sorted(sorted@));
        assert(groups_ok(sorted@));
    }
    sorted
}

/// A merged rectangle of faces together with the plane it lies in.
#[derive(Debug, Clone, Copy, PartialEq, Eq, Structural)]
pub struct PlacedQuad {
    pub dir: usize,
    pub key: u32,
    pub depth: u32,
    pub quad: GreedyQuad,
}

impl PlacedQuad {
    /// The quad covers the face at cell (`r`, `c`) of the plane of (`d`,
    /// `k`, `e`).
    pub open spec fn covers_face(self, d: int, k: int, e: int, r: int, c: int) -> bool {
        self.dir == d && self.key == k && self.depth == e && self.quad.covers(r, c)
    }

    pub open spec fn from_group(self, g: FaceGroup) -> bool {
        self.dir == g.dir && self.key == g.key && self.depth == g.depth
    }
}

/// Some quad of the list covers that face.
pub open spec fn placed_cover(pqs: Seq<PlacedQuad>, d: int, k: int, e: int, r: int, c: int) -> bool {
    exists|j: int| 0 <= j < pqs.len() && #[trigger] pqs[j].covers_face(d, k, e, r, c)
}

/// Each quad lies in a plane, at a depth and direction in range.
pub open spec fn placed_ok(pqs: Seq<PlacedQuad>) -> bool {
    forall|j: int|
        0 <= j < pqs.len() ==> (#[trigger] pqs[j]).quad.in_plane() && pqs[j].dir < 6
            && pqs[j].depth < 32
}

/// Every cell of every quad is a visible face of the quad's key.
pub open spec fn placed_sound(refs: ChunksRefs, pqs: Seq<PlacedQuad>) -> bool {
    forall|j: int, r: int, c: int|
        0 <= j < pqs.len() && #[trigger] pqs[j].quad.covers(r, c) ==> face_in_plane(
            refs,
            pqs[j].dir as int,
            pqs[j].key as int,
            pqs[j].depth as int,
            r,
            c,
        )
}

/// No face is covered by two quads: quads of one direction and depth never
/// overlap.
pub open spec fn placed_disjoint(pqs: Seq<PlacedQuad>) -> bool {
    forall|i: int, j: int, r: int, c: int|
        0 <= i < pqs.len() && 0 <= j < pqs.len() && i != j && pqs[i].dir == pqs[j].dir
            && pqs[i].depth == pqs[j].depth && #[trigger] pqs[i].quad.covers(r, c)
            ==> !#[trigger] pqs[j].quad.covers(r, c)
}

/// Every visible face of the chunk is covered by a quad of its key.
pub open spec fn placed_complete(refs: ChunksRefs, pqs: Seq<PlacedQuad>) -> bool {
    forall|d: int, k: int, e: int, r: int, c: int|
        #[trigger] face_in_plane(refs, d, k, e, r, c) ==> placed_cover(pqs, d, k, e, r, c)
}

/// The quads of plane `g`, placed in it.
pub open spec fn placed_of(g: FaceGroup, qs: Seq<GreedyQuad>) -> Seq<PlacedQuad> {
    Seq::new(
        qs.len(),
        |i: int| PlacedQuad { dir: g.dir, key: g.key, depth: g.depth, quad: qs[i] },
    )
}

/// The greedy quads of each plane in turn, in the order of the planes.
pub open spec fn quads_of_groups(gs: Seq<FaceGroup>) -> Seq<PlacedQuad>
    decreases gs.len(),
{
    if gs.len() == 0 {
        Seq::empty()
    } else {
        quads_of_groups(gs.drop_last()) + placed_of(
            gs.last(),
            greedy_spec(gs.last().rows@, 32),
        )
    }
}

/// Runs the solid encoder, the face culler, the attribute grouper and the
/// greedy merger on a neighbourhood. The quads cover every visible face of
/// the chunk, each exactly once, and nothing else.
pub fn mesh_quads(refs: &ChunksRefs) -> (pqs: Vec<PlacedQuad>)
    requires
        refs.wf(),
        types_fit(*refs),
    ensures
        placed_ok(pqs@),
        placed_sound(*refs, pqs@),
        placed_disjoint(pqs@),
        placed_complete(*refs, pqs@),
        pqs@.len() <= 196608 * 1024,
        exists|gs: Seq<FaceGroup>|
            canonical_groups(*refs, gs) && #[trigger] quads_of_groups(gs) == pqs@,
{
    let cols = encode_solid(refs);
    let masks = cull_faces(&cols);
    proof {
        lemma_masks_exact(*refs, cols@, masks@);
    }
    let groups = group_faces(refs, &masks);
    let mut pqs: Vec<PlacedQuad> = Vec::new();
    let ghost mut origin: Seq<int> = Seq::empty();
    let mut gi: usize = 0;
    while gi < groups.len()
        invariant
            refs.wf(),
            gi <= groups@.len(),
            groups@.len() <= 196608,
            pqs@.len() <= gi * 1024,
            pqs@ == quads_of_groups(groups@.subrange(0, gi as int)),
            groups_unique(groups@),
            groups_ok(groups@),
            forall|d2: int, k2: int, e2: int, r2: int, c2: int|
                #[trigger] group_has(groups@, d2, k2, e2, r2, c2) <==> face_in_plane(
                    *refs,
                    d2,
                    k2,
                    e2,
                    r2,
                    c2,
                ),
            origin.len() == pqs@.len(),
            forall|j: int|
                0 <= j < pqs@.len() ==> 0 <= #[trigger] origin[j] < gi && pqs@[j].from_group(
                    groups@[origin[j]],
                ),
            placed_ok(pqs@),
            placed_sound(*refs, pqs@),
            placed_disjoint(pqs@),
            forall|g: int, r: int, c: int|
                0 <= g < gi && #[trigger] plane_bit(groups@[g].rows@, r, c) ==> placed_cover(
                    pqs@,
                    groups@[g].dir as int,
                    groups@[g].key as int,
                    groups@[g].depth as int,
                    r,
                    c,
                ),
        decreases groups@.len() - gi,
    {
        let group = groups[gi];
        let quads = greedy_mesh_binary_plane(group.rows, 32);
        let start = pqs.len();
        let mut qi: usize = 0;
        while qi < quads.len()
            invariant
                refs.wf(),
                gi < groups@.len(),
                groups@.len() <= 196608,
                quads@.len() <= 1024,
                quads@ == greedy_spec(group.rows@, 32),
                pqs@ == quads_of_groups(groups@.subrange(0, gi as int)) + placed_of(
                    group,
                    quads@.subrange(0, qi as int),
                ),
                start <= gi * 1024,
                group == groups@[gi as int],
                groups_unique(groups@),
                groups_ok(groups@),
                forall|d2: int, k2: int, e2: int, r2: int, c2: int|
                    #[trigger] group_has(groups@, d2, k2, e2, r2, c2) <==> face_in_plane(
                        *refs,
                        d2,
                        k2,
                        e2,
                        r2,
                        c2,
                    ),
                forall|k: int| 0 <= k < quads@.len() ==> (#[trigger] quads@[k]).in_plane(),
                forall|k: int, r: int, c: int|
                    0 <= k < quads@.len() && #[trigger] quads@[k].covers(r, c) ==> plane_bit(
                        group.rows@,
                        r,
                        c,
                    ),
                crate::greedy::quads_disjoint(quads@),
                forall|r: int, c: int|
                    0 <= c < 32 && #[trigger] plane_bit(group.rows@, r, c) ==> quads_cover(
                        quads@,
                        r,
                        c,
                    ),
                qi <= quads@.len(),
                start <= pqs@.len(),
                pqs@.len() == start + qi,
                origin.len() == pqs@.len(),
                forall|j: int|
                    0 <= j < start ==> 0 <= #[trigger] origin[j] < gi && pqs@[j].from_group(
                        groups@[origin[j]],
                    ),
                forall|j: int|
                    start <= j < pqs@.len() ==> #[trigger] origin[j] == gi && pqs@[j].quad
                        == quads@[j - start] && pqs@[j].from_group(group),
                placed_ok(pqs@),
                placed_sound(*refs, pqs@),
                placed_disjoint(pqs@),
                forall|g: int, r: int, c: int|
                    0 <= g < gi && #[trigger] plane_bit(groups@[g].rows@, r, c) ==> placed_cover(
                        pqs@,
                        groups@[g].dir as int,
                        groups@[g].key as int,
                        groups@[g].depth as int,
                        r,
                        c,
                    ),
                forall|k: int, r: int, c: int|
                    0 <= k < qi && #[trigger] quads@[k].covers(r, c) ==> placed_cover(
                        pqs@,
                        group.dir as int,
                        group.key as int,
                        group.depth as int,
                        r,
                        c,
                    ),
            decreases quads@.len() - qi,
        {
            let q = quads[qi];
            let pq = PlacedQuad { dir: group.dir, key: group.key, depth: group.depth, quad: q };
            let ghost before = pqs@;
            pqs.push(pq);
            proof {
                assert(placed_of(group, quads@.subrange(0, qi + 1)) =~= placed_of(
                    group,
                    quads@.subrange(0, qi as int),
                ).push(pq));
                assert(pqs@ =~= quads_of_groups(groups@.subrange(0, gi as int)) + placed_of(
                    group,
                    quads@.subrange(0, qi + 1),
                ));
                let n = before.len() as int;
                let o0 = origin;
                origin = origin.push(gi as int);
                assert(pqs@[n] == pq);
                assert forall|j: int| 0 <= j < n implies pqs@[j] == before[j] && origin[j] == o0[j] by {}
                assert forall|j: int| start <= j < pqs@.len() implies #[trigger] origin[j] == gi
                    && pqs@[j].quad == quads@[j - start] && pqs@[j].from_group(group) by {
                    if j < n {
                        assert(o0[j] == gi);
                    }
                }
                assert forall|r: int, c: int| #[trigger] q.covers(r, c) implies face_in_plane(
                    *refs,
                    group.dir as int,
                    group.key as int,
                    group.depth as int,
                    r,
                    c,
                ) by {
                    assert(quads@[qi as int].covers(r, c));
                    assert(group_has(
                        groups@,
                        group.dir as int,
                        group.key as int,
                        group.depth as int,
                        r,
                        c,
                    ));
                }
                assert forall|i: int, j: int, r: int, c: int|
                    0 <= i < pqs@.len() && 0 <= j < pqs@.len() && i != j && pqs@[i].dir
                        == pqs@[j].dir && pqs@[i].depth == pqs@[j].depth && #[trigger] pqs@[i].quad.covers(
                        r,
                        c,
                    ) implies !#[trigger] pqs@[j].quad.covers(r, c) by {
                    if i == n || j == n {
                        let o = if i == n {
                            j
                        } else {
                            i
                        };
                        if pqs@[o].quad.covers(r, c) && q.covers(r, c) {
                            if o < start {
                                let go = origin[o];
                                assert(go != gi);
                                assert(face_in_plane(
                                    *refs,
                                    pqs@[o].dir as int,
                                    pqs@[o].key as int,
                                    pqs@[o].depth as int,
                                    r,
                                    c,
                                ));
                                assert(groups@[go].key != group.key);
                            } else {
                                assert(before[o] == pqs@[o]);
                                assert(pqs@[o].quad == quads@[o - start]);
                                assert(quads@[o - start].covers(r, c));
                                assert(quads@[qi as int].covers(r, c));
                            }
                        }
                    }
                }
                assert forall|g: int, r: int, c: int|
                    0 <= g < gi && #[trigger] plane_bit(groups@[g].rows@, r, c) implies placed_cover(
                    pqs@,
                    groups@[g].dir as int,
                    groups@[g].key as int,
                    groups@[g].depth as int,
                    r,
                    c,
                ) by {
                    let j = choose|j: int|
                        0 <= j < before.len() && #[trigger] before[j].covers_face(
                            groups@[g].dir as int,
                            groups@[g].key as int,
                            groups@[g].depth as int,
                            r,
                            c,
                        );
                    assert(pqs@[j] == before[j]);
                }
                assert forall|k: int, r: int, c: int|
                    0 <= k < qi + 1 && #[trigger] quads@[k].covers(r, c) implies placed_cover(
                    pqs@,
                    group.dir as int,
                    group.key as int,
                    group.depth as int,
                    r,
                    c,
                ) by {
                    if k == qi {
                        assert(pqs@[n].covers_face(
                            group.dir as int,
                            group.key as int,
                            group.depth as int,
                            r,
                            c,
                        ));
                    } else {
                        let j = choose|j: int|
                            0 <= j < before.len() && #[trigger] before[j].covers_face(
                                group.dir as int,
                                group.key as int,
                                group.depth as int,
                                r,
                                c,
                            );
                        assert(pqs@[j] == before[j]);
                    }
                }
            }
            qi = qi + 1;
        }
        proof {
            assert forall|g: int, r: int, c: int|
                0 <= g < gi + 1 && #[trigger] plane_bit(groups@[g].rows@, r, c) implies placed_cover(
                pqs@,
                groups@[g].dir as int,
                groups@[g].key as int,
                groups@[g].depth as int,
                r,
                c,
            ) by {
                if g == gi {
                    let k = choose|k: int| 0 <= k < quads@.len() && #[trigger] quads@[k].covers(r, c);
                }
            }
        }
        proof {
            let sub = groups@.subrange(0, gi + 1);
            assert(sub.drop_last() =~= groups@.subrange(0, gi as int));
            assert(sub.last() == group);
            assert(quads@.subrange(0, quads@.len() as int) =~= quads@);
        }
        gi = gi + 1;
    }
    proof {
        assert(groups@.subrange(0, groups@.len() as int) =~= groups@);
        assert(quads_of_groups(groups@) == pqs@);
        assert forall|d: int, k: int, e: int, r: int, c: int|
            #[trigger] face_in_plane(*refs, d, k, e, r, c) implies placed_cover(pqs@, d, k, e, r, c) by {
            assert(group_has(groups@, d, k, e, r, c));
            let g = choose|g: int|
                0 <= g < groups@.len() && groups@[g].dir == d && groups@[g].key == k
                    && groups@[g].depth == e && #[trigger] plane_bit(groups@[g].rows@, r, c);
        }
    }
    pqs
}

/// A built mesh: packed vertex words, four per quad, and the index list
/// that draws each quad as two triangles.
#[derive(Debug, Clone)]
pub struct ChunkMesh {
    pub vertices: Vec<u32>,
    pub indices: Vec<u32>,
}

/// Offset within its quad of the vertex that index `k` (0 to 5) of the
/// quad's two triangles names.
pub open spec fn triangle_corner(k: int) -> int {
    if k == 0 || k == 3 {
        0
    } else if k == 1 {
        1
    } else if k == 2 || k == 4 {
        2
    } else {
        3
    }
}

/// Six indices per whole quad of `vertex_count` vertices: 0 1 2 and 0 2 3 of
/// each quad.
pub open spec fn quad_indices(vertex_count: nat) -> Seq<u32> {
    Seq::new(
        (vertex_count / 4 * 6) as nat,
        |i: int| (4 * (i / 6) + triangle_corner(i % 6)) as u32,
    )
}

proof fn lemma_div6(q: int, k: int)
    requires
        0 <= q,
        0 <= k < 6,
    ensures
        (6 * q + k) / 6 == q,
        (6 * q + k) % 6 == k,
{
    assert((6 * q + k) / 6 == q && (6 * q + k) % 6 == k) by (nonlinear_arith)
        requires
            0 <= q,
            0 <= k < 6,
    ;
}

proof fn lemma_quads_of(q: int)
    requires
        0 <= q,
    ensures
        (4 * q) / 4 * 6 == 6 * q,
{
    assert((4 * q) / 4 == q) by (nonlinear_arith)
        requires
            0 <= q,
    ;
}

/// Builds the index list for `vertex_count` vertices laid out four per quad.
pub fn generate_indices(vertex_count: usize) -> (indices: Vec<u32>)
    requires
        vertex_count <= 0xffff_ffff,
    ensures
        indices@ == quad_indices(vertex_count as nat),
{
    let quad_count = vertex_count / 4;
    let mut indices: Vec<u32> = Vec::new();
    let mut q: usize = 0;
    while q < quad_count
        invariant
            quad_count == vertex_count / 4,
            vertex_count <= 0xffff_ffff,
            q <= quad_count,
            indices@ =~= quad_indices((4 * q) as nat),
        decreases quad_count - q,
    {
        let base = (q * 4) as u32;
        indices.push(base);
        indices.push(base + 1);
        indices.push(base + 2);
        indices.push(base);
        indices.push(base + 2);
        indices.push(base + 3);
        proof {
            let target = quad_indices((4 * (q + 1)) as nat);
            let prev = quad_indices((4 * q) as nat);
            assert(target.len() == 6 * q + 6 && prev.len() == 6 * q) by {
                lemma_quads_of(q as int);
                lemma_quads_of(q + 1);
            }
            assert forall|i: int| 0 <= i < target.len() implies indices@[i] == target[i] by {
                if i >= 6 * q {
                    lemma_div6(q as int, i - 6 * q);
                } else {
                    assert(prev[i] == target[i]);
                }
            }
            assert(indices@ =~= target);
        }
        q = q + 1;
    }
    proof {
        assert(quad_indices((4 * quad_count) as nat) =~= quad_indices(vertex_count as nat));
    }
    indices
}

/// The four words of a placed quad, positions scaled by `jump`: the AO
/// pattern is the low 9 bits of its key, the block type the bits above.
pub open spec fn placed_words(pq: PlacedQuad, jump: int) -> Seq<u32> {
    pq.quad.quad_words(
        FaceDir::from_index(pq.dir as int),
        pq.depth as int,
        jump,
        (pq.key % 512) as u32,
        (pq.key / 512) as u32,
    )
}

/// The vertex words of a list of placed quads, in order.
pub open spec fn mesh_words(pqs: Seq<PlacedQuad>, jump: int) -> Seq<u32>
    decreases pqs.len(),
{
    if pqs.len() == 0 {
        Seq::empty()
    } else {
        mesh_words(pqs.drop_last(), jump) + placed_words(pqs.last(), jump)
    }
}

/// Some face of the chunk is visible.
pub open spec fn any_face(refs: ChunksRefs) -> bool {
    exists|d: int, x: int, y: int, z: int| #[trigger] face_visible(refs, d, (x, y, z))
}

/// Where quad `pq` covers a face, the block type part of its key is a block
/// type of the neighbourhood.
proof fn lemma_key_fits(refs: ChunksRefs, pq: PlacedQuad)
    requires
        refs.wf(),
        types_fit(refs),
        pq.quad.in_plane(),
        face_in_plane(
            refs,
            pq.dir as int,
            pq.key as int,
            pq.depth as int,
            pq.quad.x as int,
            pq.quad.y as int,
        ),
    ensures
        pq.key / 512 < 128,
{
    let v = plane_voxel(pq.dir as int, pq.quad.x as int, pq.quad.y as int, pq.depth as int);
    crate::group::lemma_block_type_fits(refs, v.0, v.1, v.2);
}

proof fn lemma_mesh_words_len(pqs: Seq<PlacedQuad>, jump: int)
    ensures
        mesh_words(pqs, jump).len() == 4 * pqs.len(),
    decreases pqs.len(),
{
    if pqs.len() > 0 {
        lemma_mesh_words_len(pqs.drop_last(), jump);
    }
}

/// A neighbourhood of one block type has no visible face.
proof fn lemma_all_same_no_face(refs: ChunksRefs)
    requires
        refs.wf(),
        refs.all_same(),
    ensures
        !any_face(refs),
{
    assert forall|x: int, y: int, z: int|
        crate::voxel::in_border(x) && crate::voxel::in_border(y) && crate::voxel::in_border(z)
            implies #[trigger] refs.block_at(x, y, z) == refs.chunks@[0].voxels@[0] by {
        let i = crate::voxel::chunk_offset(x) + 3 * crate::voxel::chunk_offset(y) + 9
            * crate::voxel::chunk_offset(z);
        assert(refs.chunks@[i].voxels@.len() == 1);
    }
    if any_face(refs) {
        let (d, x, y, z) = choose|d: int, x: int, y: int, z: int|
            #[trigger] face_visible(refs, d, (x, y, z));
        let o = dir_offset(d);
        assert(refs.block_at(x, y, z) == refs.chunks@[0].voxels@[0]);
        assert(refs.block_at(x + o.0, y + o.1, z + o.2) == refs.chunks@[0].voxels@[0]);
    }
}

/// A list of placed quads with an exact cover of the visible faces has a
/// quad exactly when some face is visible.
proof fn lemma_quads_iff_face(refs: ChunksRefs, pqs: Seq<PlacedQuad>)
    requires
        placed_ok(pqs),
        placed_sound(refs, pqs),
        placed_complete(refs, pqs),
    ensures
        pqs.len() > 0 <==> any_face(refs),
{
    if pqs.len() > 0 {
        let q = pqs[0].quad;
        assert(q.covers(q.x as int, q.y as int));
        let v = plane_voxel(pqs[0].dir as int, q.x as int, q.y as int, pqs[0].depth as int);
        assert(face_visible(refs, pqs[0].dir as int, (v.0, v.1, v.2)));
    }
    if any_face(refs) {
        let (d, x, y, z) = choose|d: int, x: int, y: int, z: int|
            #[trigger] face_visible(refs, d, (x, y, z));
        let (r, c, e) = if d < 2 {
            (x, z, y)
        } else if d < 4 {
            (z, y, x)
        } else {
            (x, y, z)
        };
        assert(plane_voxel(d, r, c, e) == (x, y, z));
        let k = face_key(refs, d, (x, y, z));
        assert(face_in_plane(refs, d, k, e, r, c));
        assert(placed_cover(pqs, d, k, e, r, c));
    }
}

proof fn lemma_low_bits(key: u32)
    ensures
        key & 0x1ffu32 == key % 512,
        key >> 9u32 == key / 512,
{
    assert(key & 0x1ffu32 == key % 512) by (bit_vector);
    assert(key >> 9u32 == key / 512) by (bit_vector);
}

/// Builds the mesh of a chunk from its neighbourhood: every visible face of
/// the chunk is covered once by a merged quad of its block type and AO
/// pattern, each quad gives four packed vertices, and the indices draw each
/// quad as two triangles. Returns `None` exactly when no face is visible
/// (an all-air chunk, or one enclosed in solid voxels). Faces are found at
/// full resolution; vertex positions are scaled by the jump of `lod`, which
/// must keep them inside the 6-bit position fields of the packed word.
pub fn build_chunk_mesh(refs: &ChunksRefs, lod: Lod) -> (r: Option<ChunkMesh>)
    requires
        refs.wf(),
        types_fit(*refs),
        33 * lod.jump() < 64,
    ensures
        r is None <==> !any_face(*refs),
        r matches Some(mesh) ==> exists|gs: Seq<FaceGroup>|
            {
                &&& #[trigger] canonical_groups(*refs, gs)
                &&& placed_ok(quads_of_groups(gs))
                &&& placed_sound(*refs, quads_of_groups(gs))
                &&& placed_disjoint(quads_of_groups(gs))
                &&& placed_complete(*refs, quads_of_groups(gs))
                &&& mesh_words(quads_of_groups(gs), lod.jump()) == mesh.vertices@
                &&& mesh.indices@ == quad_indices(mesh.vertices@.len())
            },
{
    if refs.is_all_voxels_same() {
        proof {
            lemma_all_same_no_face(*refs);
        }
        return None;
    }
    let pqs = mesh_quads(refs);
    let ghost gs = choose|gs: Seq<FaceGroup>|
        canonical_groups(*refs, gs) && #[trigger] quads_of_groups(gs) == pqs@;
    let mut vertices: Vec<u32> = Vec::new();
    let mut i: usize = 0;
    while i < pqs.len()
        invariant
            refs.wf(),
            types_fit(*refs),
            placed_ok(pqs@),
            placed_sound(*refs, pqs@),
            pqs@.len() <= 196608 * 1024,
            i <= pqs@.len(),
            vertices@ == mesh_words(pqs@.subrange(0, i as int), lod.jump()),
            33 * lod.jump() < 64,
        decreases pqs@.len() - i,
    {
        let pq = pqs[i];
        proof {
            lemma_mesh_words_len(pqs@.subrange(0, i as int), lod.jump());
        }
        let facedir = FaceDir::from_axis(pq.dir);
        let ao = pq.key & 0x1ff;
        let block_type = pq.key >> 9;
        proof {
            lemma_low_bits(pq.key);
            assert(pqs@[i as int].quad.covers(pq.quad.x as int, pq.quad.y as int));
            lemma_key_fits(*refs, pq);
        }
        pq.quad.append_vertices(&mut vertices, facedir, pq.depth, &lod, ao, block_type);
        proof {
            let s = pqs@.subrange(0, i + 1);
            assert(s.drop_last() =~= pqs@.subrange(0, i as int));
            assert(s.last() == pq);
        }
        i = i + 1;
    }
    proof {
        assert(pqs@.subrange(0, pqs@.len() as int) =~= pqs@);
        lemma_mesh_words_len(pqs@, lod.jump());
        lemma_quads_iff_face(*refs, pqs@);
    }
    if vertices.len() == 0 {
        None
    } else {
        let indices = generate_indices(vertices.len());
        Some(ChunkMesh { vertices, indices })
    }
}

proof fn lemma_bits_equal(a: u32, b: u32)
    requires
        forall|c: int| 0 <= c < 32 ==> #[trigger] crate::greedy::bit32(a, c) == crate::greedy::bit32(b, c),
    ensures
        a == b,
{
    if a != b {
        let t = (a ^ b).trailing_zeros();
        assert(a ^ b != 0) by (bit_vector)
            requires
                a != b,
        ;
        assert(((a ^ b) >> t) & 1u32 == 1u32);
        assert(((a >> t) & 1u32 == 1u32) != ((b >> t) & 1u32 == 1u32)) by (bit_vector)
            requires
                ((a ^ b) >> t) & 1u32 == 1u32,
        ;
        assert(crate::greedy::bit32(a, t as int) == crate::greedy::bit32(b, t as int));
    }
}

proof fn lemma_sorted_unique(x: Seq<int>, y: Seq<int>)
    requires
        forall|i: int, j: int| 0 <= i < j < x.len() ==> x[i] < x[j],
        forall|i: int, j: int| 0 <= i < j < y.len() ==> y[i] < y[j],
        forall|v: int| x.contains(v) <==> y.contains(v),
    ensures
        x == y,
    decreases x.len(),
{
    if x.len() == 0 {
        if y.len() > 0 {
            assert(y.contains(y[0]));
        }
        assert(x =~= y);
    } else if y.len() == 0 {
        assert(x.contains(x[0]));
    } else {
        assert(x.contains(x[0]));
        assert(y.contains(y[0]));
        let j0 = choose|j: int| 0 <= j < y.len() && y[j] == x[0];
        let i0 = choose|i: int| 0 <= i < x.len() && x[i] == y[0];
        if j0 > 0 {
            assert(y[0] < y[j0]);
        }
        if i0 > 0 {
            assert(x[0] < x[i0]);
        }
        let x1 = x.drop_first();
        let y1 = y.drop_first();
        assert forall|v: int| x1.contains(v) <==> y1.contains(v) by {
            if x1.contains(v) {
                let k = choose|k: int| 0 <= k < x1.len() && x1[k] == v;
                assert(x[k + 1] == v);
                assert(x.contains(v));
                let m = choose|m: int| 0 <= m < y.len() && y[m] == v;
                assert(m != 0);
                assert(y1[m - 1] == v);
            }
            if y1.contains(v) {
                let k = choose|k: int| 0 <= k < y1.len() && y1[k] == v;
                assert(y[k + 1] == v);
                assert(y.contains(v));
                let m = choose|m: int| 0 <= m < x.len() && x[m] == v;
                assert(m != 0);
                assert(x1[m - 1] == v);
            }
        }
        lemma_sorted_unique(x1, y1);
        assert forall|i: int| 0 <= i < x.len() implies x[i] == y[i] by {
            if i > 0 {
                assert(x1[i - 1] == x[i] && y1[i - 1] == y[i]);
            }
        }
        assert(x =~= y);
    }
}

/// The ranks of the planes of a canonical list.
pub open spec fn ranks(gs: Seq<FaceGroup>) -> Seq<int> {
    Seq::new(gs.len(), |i: int| rank(gs[i]))
}

proof fn lemma_ranks_contained(refs: ChunksRefs, a: Seq<FaceGroup>, b: Seq<FaceGroup>)
    requires
        canonical_groups(refs, a),
        canonical_groups(refs, b),
    ensures
        forall|v: int| ranks(a).contains(v) ==> ranks(b).contains(v),
{
    assert forall|v: int| ranks(a).contains(v) implies ranks(b).contains(v) by {
        let i = choose|i: int| 0 <= i < ranks(a).len() && ranks(a)[i] == v;
        assert(plane_nonempty(a[i].rows@));
        let (r, c) = choose|r: int, c: int| plane_bit(a[i].rows@, r, c);
        assert(group_has(a, a[i].dir as int, a[i].key as int, a[i].depth as int, r, c));
        assert(group_has(b, a[i].dir as int, a[i].key as int, a[i].depth as int, r, c));
        let j = choose|j: int|
            0 <= j < b.len() && b[j].dir == a[i].dir && b[j].key == a[i].key && b[j].depth
                == a[i].depth && #[trigger] plane_bit(b[j].rows@, r, c);
        assert(ranks(b)[j] == v);
    }
}

proof fn lemma_row_bits_agree(refs: ChunksRefs, a: Seq<FaceGroup>, b: Seq<FaceGroup>, i: int, r: int, c: int)
    requires
        canonical_groups(refs, a),
        canonical_groups(refs, b),
        0 <= i < a.len(),
        i < b.len(),
        a[i].dir == b[i].dir && a[i].key == b[i].key && a[i].depth == b[i].depth,
    ensures
        plane_bit(a[i].rows@, r, c) ==> plane_bit(b[i].rows@, r, c),
{
    let (d, k, e) = (a[i].dir as int, a[i].key as int, a[i].depth as int);
    if plane_bit(a[i].rows@, r, c) {
        assert(group_has(a, d, k, e, r, c));
        assert(group_has(b, d, k, e, r, c));
        let j = choose|j: int|
            0 <= j < b.len() && b[j].dir == d && b[j].key == k && b[j].depth == e
                && #[trigger] plane_bit(b[j].rows@, r, c);
        if j < i {
            assert(rank(b[j]) < rank(b[i]));
        } else if j > i {
            assert(rank(b[i]) < rank(b[j]));
        }
    }
}

/// The planes of a snapshot in canonical order are determined by it: two
/// such lists are equal, so the quads and vertex words built from them are
/// bit-identical. Building twice from an unchanged snapshot gives the same
/// mesh.
pub proof fn lemma_canonical_unique(refs: ChunksRefs, a: Seq<FaceGroup>, b: Seq<FaceGroup>, jump: int)
    requires
        canonical_groups(refs, a),
        canonical_groups(refs, b),
    ensures
        a == b,
        mesh_words(quads_of_groups(a), jump) == mesh_words(quads_of_groups(b), jump),
{
    lemma_ranks_contained(refs, a, b);
    lemma_ranks_contained(refs, b, a);
    lemma_sorted_unique(ranks(a), ranks(b));
    assert(a.len() == ranks(a).len() && b.len() == ranks(b).len());
    assert forall|i: int| 0 <= i < a.len() implies #[trigger] a[i] == b[i] by {
        assert(ranks(a)[i] == ranks(b)[i]);
        assert(a[i].dir == b[i].dir && a[i].key == b[i].key && a[i].depth == b[i].depth);
        assert forall|r: int| 0 <= r < 32 implies a[i].rows[r] == b[i].rows[r] by {
            assert forall|c: int| 0 <= c < 32 implies #[trigger] crate::greedy::bit32(
                a[i].rows[r],
                c,
            ) == crate::greedy::bit32(b[i].rows[r], c) by {
                lemma_row_bits_agree(refs, a, b, i, r, c);
                lemma_row_bits_agree(refs, b, a, i, r, c);
            }
            lemma_bits_equal(a[i].rows[r], b[i].rows[r]);
        }
        assert(a[i].rows =~= b[i].rows);
    }
    assert(a =~= b);
}

/// Plane cell and depth (`row`, `col`, `depth`) of voxel `v`'s face in
/// direction `d`: the inverse of `plane_voxel`.
pub open spec fn plane_coords(d: int, v: (int, int, int)) -> (int, int, int) {
    if d < 2 {
        (v.0, v.2, v.1)
    } else if d < 4 {
        (v.2, v.1, v.0)
    } else {
        (v.0, v.1, v.2)
    }
}

/// Quad `pq` covers the face of voxel `v` in direction `d`.
pub open spec fn covers_voxel_face(pq: PlacedQuad, d: int, v: (int, int, int)) -> bool {
    let p = plane_coords(d, v);
    pq.dir == d && pq.depth == p.2 && pq.quad.covers(p.0, p.1)
}

/// Faces at chunk seams, and everywhere else: where the neighbour of voxel
/// `v` in direction `d` is solid, also in a neighbouring chunk, no quad
/// covers that face of `v`; where `v` is solid and the neighbour is not,
/// exactly one quad covers it. This holds of any exact cover such as
/// `mesh_quads` returns.
pub proof fn lemma_seam_faces(refs: ChunksRefs, pqs: Seq<PlacedQuad>, d: int, v: (int, int, int))
    requires
        placed_sound(refs, pqs),
        placed_disjoint(pqs),
        placed_complete(refs, pqs),
        0 <= d < 6,
        crate::group::in_chunk3(v),
    ensures
        solid_local(refs, v.0 + dir_offset(d).0, v.1 + dir_offset(d).1, v.2 + dir_offset(d).2)
            ==> forall|j: int| 0 <= j < pqs.len() ==> !#[trigger] covers_voxel_face(pqs[j], d, v),
        solid_local(refs, v.0, v.1, v.2) && !solid_local(
            refs,
            v.0 + dir_offset(d).0,
            v.1 + dir_offset(d).1,
            v.2 + dir_offset(d).2,
        ) ==> exists|j: int|
            0 <= j < pqs.len() && #[trigger] covers_voxel_face(pqs[j], d, v) && forall|i: int|
                0 <= i < pqs.len() && #[trigger] covers_voxel_face(pqs[i], d, v) ==> i == j,
{
    let p = plane_coords(d, v);
    assert(plane_voxel(d, p.0, p.1, p.2) == v);
    assert forall|j: int| 0 <= j < pqs.len() && #[trigger] covers_voxel_face(pqs[j], d, v) implies face_visible(
        refs,
        d,
        v,
    ) by {
        assert(pqs[j].quad.covers(p.0, p.1));
    }
    if solid_local(refs, v.0, v.1, v.2) && !solid_local(
        refs,
        v.0 + dir_offset(d).0,
        v.1 + dir_offset(d).1,
        v.2 + dir_offset(d).2,
    ) {
        let k = face_key(refs, d, v);
        assert(face_in_plane(refs, d, k, p.2, p.0, p.1));
        assert(placed_cover(pqs, d, k, p.2, p.0, p.1));
        let j = choose|j: int| 0 <= j < pqs.len() && #[trigger] pqs[j].covers_face(d, k, p.2, p.0, p.1);
        assert(covers_voxel_face(pqs[j], d, v));
        assert forall|i: int| 0 <= i < pqs.len() && #[trigger] covers_voxel_face(pqs[i], d, v) implies i
            == j by {
            if i != j {
                assert(pqs[i].quad.covers(p.0, p.1));
                assert(pqs[j].quad.covers(p.0, p.1));
            }
        }
    }
}

/// A face whose eight surrounding samples are all solid has every sample
/// bit of its AO pattern set, and all four of its corners get AO intensity 3.
pub proof fn lemma_fully_occluded_face(refs: ChunksRefs, d: int, v: (int, int, int))
    requires
        forall|k: int| 0 <= k < 9 && k != 4 ==> #[trigger] ao_solid(refs, d, v, k),
    ensures
        ao_pattern(refs, d, v) == 0x1ef,
        face_key(refs, d, v) % 512 == 0x1ef,
        forall|c: int|
            1 <= c <= 4 ==> #[trigger] corner_ao((face_key(refs, d, v) % 512) as u32, c) == 3,
{
    assert(ao_solid(refs, d, v, 0) && ao_solid(refs, d, v, 1) && ao_solid(refs, d, v, 2)
        && ao_solid(refs, d, v, 3) && ao_solid(refs, d, v, 5) && ao_solid(refs, d, v, 6)
        && ao_solid(refs, d, v, 7) && ao_solid(refs, d, v, 8));
    let b = refs.block_at(v.0, v.1, v.2).block_type as int;
    assert((0x1ef + b * 512) % 512 == 0x1ef) by (nonlinear_arith)
        requires
            b >= 0,
    ;
    let ao = 0x1efu32;
    assert((ao >> 0u32) & 1u32 == 1u32 && (ao >> 1u32) & 1u32 == 1u32 && (ao >> 2u32) & 1u32
        == 1u32 && (ao >> 3u32) & 1u32 == 1u32 && (ao >> 5u32) & 1u32 == 1u32 && (ao >> 6u32)
        & 1u32 == 1u32 && (ao >> 7u32) & 1u32 == 1u32 && (ao >> 8u32) & 1u32 == 1u32)
        by (bit_vector)
        requires
            ao == 0x1efu32,
    ;
}

} // verus!
