use vstd::prelude::*;
use crate::voxel::{BlockData, ChunksRefs, VoxelPos, CHUNK_SIZE, CHUNK_SIZE_P, CENTER_CHUNK};

verus! {

/// Number of columns in one family of axis columns, `CHUNK_SIZE_P` squared.
pub const COLUMNS_PER_AXIS: usize = 1156;

/// Bit `i` of `v` is set.
pub open spec fn bit64(v: u64, i: int) -> bool {
    (v >> (i as u64)) & 1u64 == 1u64
}

/// Index of column (`a`, `b`) of family `f` in a flat table of columns.
pub open spec fn col_idx(f: int, a: int, b: int) -> int {
    f * 1156 + a * 34 + b
}

/// Bit `i` of column (`a`, `b`) of family `f`.
pub open spec fn col_bit(cols: Seq<u64>, f: int, a: int, b: int, i: int) -> bool {
    bit64(cols[col_idx(f, a, b)], i)
}

/// The padded-grid voxel that bit `i` of column (`a`, `b`) of axis family
/// `axis` stands for: family 0 runs along y at `[z][x]`, family 1 along x at
/// `[y][z]`, family 2 along z at `[y][x]`.
pub open spec fn col_voxel(axis: int, a: int, b: int, i: int) -> (int, int, int) {
    if axis == 0 {
        (b, i, a)
    } else if axis == 1 {
        (i, a, b)
    } else {
        (b, a, i)
    }
}

/// The voxel at padded coordinates (`x`, `y`, `z`), each in `0..CHUNK_SIZE_P`,
/// is solid.
pub open spec fn padded_solid(refs: ChunksRefs, x: int, y: int, z: int) -> bool {
    refs.block_at(x - 1, y - 1, z - 1).solid()
}

pub open spec fn axis_solid(refs: ChunksRefs, axis: int, a: int, b: int, i: int) -> bool {
    let v = col_voxel(axis, a, b, i);
    padded_solid(refs, v.0, v.1, v.2)
}

/// Position of a padded voxel in the order the encoder visits them.
pub open spec fn visit_order(v: (int, int, int)) -> int {
    v.0 + 34 * v.1 + 1156 * v.2
}

pub open spec fn in_padded(v: int) -> bool {
    0 <= v < 34
}

pub open spec fn cols_encode(refs: ChunksRefs, cols: Seq<u64>, upto: int) -> bool {
    &&& cols.len() == 3 * COLUMNS_PER_AXIS
    &&& forall|f: int, a: int, b: int, i: int|
        0 <= f < 3 && in_padded(a) && in_padded(b) && 0 <= i < 64 ==> (#[trigger] col_bit(
            cols,
            f,
            a,
            b,
            i,
        ) <==> (i < 34 && axis_solid(refs, f, a, b, i) && visit_order(col_voxel(f, a, b, i))
            < upto))
}

proof fn lemma_or_bit(v: u64, k: u64, i: u64)
    requires
        k < 64,
        i < 64,
    ensures
        ((v | (1u64 << k)) >> i) & 1u64 == 1u64 <==> ((v >> i) & 1u64 == 1u64 || i == k),
{
    assert(((v | (1u64 << k)) >> i) & 1u64 == 1u64 <==> ((v >> i) & 1u64 == 1u64 || i == k))
        by (bit_vector)
        requires
            k < 64,
            i < 64,
    ;
}

pub(crate) proof fn lemma_zero_bits(i: u64)
    requires
        i < 64,
    ensures
        (0u64 >> i) & 1u64 == 0u64,
{
    assert((0u64 >> i) & 1u64 == 0u64) by (bit_vector);
}

fn set_col_bit(cols: &mut Vec<u64>, idx: usize, k: u64)
    requires
        idx < old(cols)@.len(),
        k < 64,
    ensures
        final(cols)@.len() == old(cols)@.len(),
        forall|j: int| 0 <= j < old(cols)@.len() && j != idx ==> final(cols)@[j] == old(cols)@[j],
        forall|i: int| 0 <= i < 64 ==> (#[trigger] bit64(final(cols)@[idx as int], i) <==> (bit64(
            old(cols)@[idx as int],
            i,
        ) || i == k)),
{
    let v = cols[idx];
    proof {
        assert forall|i: int| 0 <= i < 64 implies (#[trigger] bit64(v | (1u64 << k), i) <==> (
        bit64(v, i) || i == k)) by {
            lemma_or_bit(v, k, i as u64);
        }
    }
    cols.set(idx, v | (1u64 << k));
}

/// Records the voxel `b` at padded coordinates (`x`, `y`, `z`): if it is solid,
/// its bit is set in the one column of each axis family that passes through it.
pub fn add_voxel_to_axis_cols(b: BlockData, x: usize, y: usize, z: usize, cols: &mut Vec<u64>)
    requires
        old(cols)@.len() == 3 * COLUMNS_PER_AXIS,
        x < CHUNK_SIZE_P,
        y < CHUNK_SIZE_P,
        z < CHUNK_SIZE_P,
    ensures
        final(cols)@.len() == 3 * COLUMNS_PER_AXIS,
        forall|f: int, a: int, c: int, i: int|
            0 <= f < 3 && in_padded(a) && in_padded(c) && 0 <= i < 64 ==> (#[trigger] col_bit(
                final(cols)@,
                f,
                a,
                c,
                i,
            ) <==> (col_bit(old(cols)@, f, a, c, i) || (b.solid() && col_voxel(f, a, c, i) == (
            x as int,
            y as int,
            z as int,
        )))),
{
    if b.is_solid() {
        let ghost c0 = cols@;
        set_col_bit(cols, z * CHUNK_SIZE_P + x, y as u64);
        let ghost c1 = cols@;
        set_col_bit(cols, COLUMNS_PER_AXIS + y * CHUNK_SIZE_P + z, x as u64);
        let ghost c2 = cols@;
        set_col_bit(cols, 2 * COLUMNS_PER_AXIS + y * CHUNK_SIZE_P + x, z as u64);
        proof {
            assert forall|f: int, a: int, c: int, i: int|
                0 <= f < 3 && in_padded(a) && in_padded(c) && 0 <= i < 64 implies (
            #[trigger] col_bit(cols@, f, a, c, i) <==> (col_bit(c0, f, a, c, i) || col_voxel(
                f,
                a,
                c,
                i,
            ) == (x as int, y as int, z as int))) by {
                let j = col_idx(f, a, c);
                if f == 0 {
                    assert(bit64(c1[j], i) <==> (bit64(c0[j], i) || (a == z && c == x && i == y)));
                    assert(cols@[j] == c1[j]);
                } else if f == 1 {
                    assert(c1[j] == c0[j]);
                    assert(cols@[j] == c2[j]);
                } else {
                    assert(c1[j] == c0[j]);
                    assert(c2[j] == c1[j]);
                }
            }
        }
    }
}

/// Total number of padded voxels, `CHUNK_SIZE_P` cubed.
pub const PADDED_VOLUME: usize = 39304;

/// Packs the solidity of the padded grid into the three axis families: bit `i`
/// of a column is set exactly when the padded voxel it stands for is solid.
/// Inner voxels are read from the chunk itself, border voxels through the
/// neighbourhood.
pub fn encode_solid(refs: &ChunksRefs) -> (cols: Vec<u64>)
    requires
        refs.wf(),
    ensures
        cols@.len() == 3 * COLUMNS_PER_AXIS,
        forall|f: int, a: int, b: int, i: int|
            0 <= f < 3 && in_padded(a) && in_padded(b) && 0 <= i < 64 ==> (#[trigger] col_bit(
                cols@,
                f,
                a,
                b,
                i,
            ) <==> (i < 34 && axis_solid(*refs, f, a, b, i))),
{
    let mut cols: Vec<u64> = vec![0u64; 3 * COLUMNS_PER_AXIS];
    proof {
        assert forall|f: int, a: int, b: int, i: int|
            0 <= f < 3 && in_padded(a) && in_padded(b) && 0 <= i < 64 implies !#[trigger] col_bit(
            cols@,
            f,
            a,
            b,
            i,
        ) by {
            assert(cols@[col_idx(f, a, b)] == 0u64);
            lemma_zero_bits(i as u64);
        }
    }
    let center = &refs.chunks[CENTER_CHUNK];
    let mut z: usize = 0;
    while z < CHUNK_SIZE_P
        invariant
            refs.wf(),
            center == refs.chunks@[CENTER_CHUNK as int],
            z <= CHUNK_SIZE_P,
            cols_encode(*refs, cols@, 1156 * z),
        decreases CHUNK_SIZE_P - z,
    {
        let mut y: usize = 0;
        while y < CHUNK_SIZE_P
            invariant
                refs.wf(),
                center == refs.chunks@[CENTER_CHUNK as int],
                z < CHUNK_SIZE_P,
                y <= CHUNK_SIZE_P,
                cols_encode(*refs, cols@, 34 * y + 1156 * z),
            decreases CHUNK_SIZE_P - y,
        {
            let mut x: usize = 0;
            while x < CHUNK_SIZE_P
                invariant
                    refs.wf(),
                    center == refs.chunks@[CENTER_CHUNK as int],
                    z < CHUNK_SIZE_P,
                    y < CHUNK_SIZE_P,
                    x <= CHUNK_SIZE_P,
                    cols_encode(*refs, cols@, x + 34 * y + 1156 * z),
                decreases CHUNK_SIZE_P - x,
            {
                let inner = 1 <= x && x <= CHUNK_SIZE && 1 <= y && y <= CHUNK_SIZE && 1 <= z && z
                    <= CHUNK_SIZE;
                let b = if inner {
                    center.get(x - 1, y - 1, z - 1)
                } else {
                    refs.get_block(VoxelPos { x: x as i32 - 1, y: y as i32 - 1, z: z as i32 - 1 })
                };
                proof {
                    assert(refs.chunks@[CENTER_CHUNK as int].wf());
                }
                let ghost before = cols@;
                add_voxel_to_axis_cols(b, x, y, z, &mut cols);
                proof {
                    assert(b.solid() == padded_solid(*refs, x as int, y as int, z as int));
                    let upto = x + 34 * y + 1156 * z;
                    assert forall|f: int, a: int, c: int, i: int|
                        0 <= f < 3 && in_padded(a) && in_padded(c) && 0 <= i < 64 implies (
                    #[trigger] col_bit(cols@, f, a, c, i) <==> (i < 34 && axis_solid(
                        *refs,
                        f,
                        a,
                        c,
                        i,
                    ) && visit_order(col_voxel(f, a, c, i)) < upto + 1)) by {
                        assert(col_bit(before, f, a, c, i) <==> (i < 34 && axis_solid(
                            *refs,
                            f,
                            a,
                            c,
                            i,
                        ) && visit_order(col_voxel(f, a, c, i)) < upto));
                    }
                }
                x = x + 1;
            }
            y = y + 1;
        }
        z = z + 1;
    }
    cols
}

/// Bit `i` of the face mask of a column `col`: voxel `i` is solid and its
/// neighbour towards lower coordinates (`ascending` false) or higher
/// coordinates (`ascending` true) is not.
pub open spec fn face_rule(col: u64, ascending: bool, i: int) -> bool {
    bit64(col, i) && if ascending {
        i == 63 || !bit64(col, i + 1)
    } else {
        i == 0 || !bit64(col, i - 1)
    }
}

proof fn lemma_descending(col: u64, i: u64)
    requires
        i < 64,
    ensures
        bit64(col & !(col << 1u64), i as int) == face_rule(col, false, i as int),
{
    if i == 0 {
        assert(((col & !(col << 1u64)) >> 0u64) & 1u64 == 1u64 <==> (col >> 0u64) & 1u64 == 1u64)
            by (bit_vector);
    } else {
        let j = (i - 1) as u64;
        assert(((col & !(col << 1u64)) >> i) & 1u64 == 1u64 <==> ((col >> i) & 1u64 == 1u64 && !((
        col >> j) & 1u64 == 1u64))) by (bit_vector)
            requires
                0 < i < 64,
                j == i - 1,
        ;
    }
}

proof fn lemma_ascending(col: u64, i: u64)
    requires
        i < 64,
    ensures
        bit64(col & !(col >> 1u64), i as int) == face_rule(col, true, i as int),
{
    if i == 63 {
        assert(((col & !(col >> 1u64)) >> 63u64) & 1u64 == 1u64 <==> (col >> 63u64) & 1u64 == 1u64)
            by (bit_vector);
    } else {
        let j = (i + 1) as u64;
        assert(((col & !(col >> 1u64)) >> i) & 1u64 == 1u64 <==> ((col >> i) & 1u64 == 1u64 && !((
        col >> j) & 1u64 == 1u64))) by (bit_vector)
            requires
                i < 63,
                j == i + 1,
        ;
    }
}

/// Computes the six face masks from the three axis families. Family `f` gives
/// direction `2 * f` (faces towards lower coordinates) and `2 * f + 1`
/// (towards higher coordinates); a mask bit is set exactly when the voxel is
/// solid and its neighbour in that direction is not.
pub fn cull_faces(cols: &Vec<u64>) -> (masks: Vec<u64>)
    requires
        cols@.len() == 3 * COLUMNS_PER_AXIS,
    ensures
        masks@.len() == 6 * COLUMNS_PER_AXIS,
        forall|d: int, a: int, b: int, i: int|
            0 <= d < 6 && in_padded(a) && in_padded(b) && 0 <= i < 64 ==> (#[trigger] col_bit(
                masks@,
                d,
                a,
                b,
                i,
            ) <==> face_rule(cols@[col_idx(d / 2, a, b)], d % 2 == 1, i)),
{
    let mut masks: Vec<u64> = Vec::new();
    let mut axis: usize = 0;
    while axis < 3
        invariant
            axis <= 3,
            cols@.len() == 3 * COLUMNS_PER_AXIS,
            masks@.len() == 2 * axis * COLUMNS_PER_AXIS,
            forall|j: int, i: int|
                0 <= j < masks@.len() && 0 <= i < 64 ==> (#[trigger] bit64(masks@[j], i) <==> face_rule(
                    cols@[(j / 2312) * 1156 + j % 1156],
                    (j / 1156) % 2 == 1,
                    i,
                )),
        decreases 3 - axis,
    {
        let mut pass: usize = 0;
        while pass < 2
            invariant
                axis < 3,
                pass <= 2,
                cols@.len() == 3 * COLUMNS_PER_AXIS,
                masks@.len() == (2 * axis + pass) * COLUMNS_PER_AXIS,
                forall|j: int, i: int|
                    0 <= j < masks@.len() && 0 <= i < 64 ==> (#[trigger] bit64(masks@[j], i)
                        <==> face_rule(cols@[(j / 2312) * 1156 + j % 1156], (j / 1156) % 2 == 1, i)),
            decreases 2 - pass,
        {
            let mut k: usize = 0;
            while k < COLUMNS_PER_AXIS
                invariant
                    axis < 3,
                    pass < 2,
                    k <= COLUMNS_PER_AXIS,
                    cols@.len() == 3 * COLUMNS_PER_AXIS,
                    masks@.len() == (2 * axis + pass) * COLUMNS_PER_AXIS + k,
                    forall|j: int, i: int|
                        0 <= j < masks@.len() && 0 <= i < 64 ==> (#[trigger] bit64(masks@[j], i)
                            <==> face_rule(
                            cols@[(j / 2312) * 1156 + j % 1156],
                            (j / 1156) % 2 == 1,
                            i,
                        )),
                decreases COLUMNS_PER_AXIS - k,
            {
                let col = cols[axis * COLUMNS_PER_AXIS + k];
                let m = if pass == 0 {
                    col & !(col << 1u64)
                } else {
                    col & !(col >> 1u64)
                };
                proof {
                    let j = masks@.len() as int;
                    assert(j / 2312 == axis && j % 1156 == k && (j / 1156) % 2 == pass);
                    assert forall|i: int| 0 <= i < 64 implies (#[trigger] bit64(m, i) <==> face_rule(
                        col,
                        pass == 1,
                        i,
                    )) by {
                        if pass == 0 {
                            lemma_descending(col, i as u64);
                        } else {
                            lemma_ascending(col, i as u64);
                        }
                    }
                }
                masks.push(m);
                k = k + 1;
            }
            pass = pass + 1;
        }
        axis = axis + 1;
    }
    proof {
        assert forall|d: int, a: int, b: int, i: int|
            0 <= d < 6 && in_padded(a) && in_padded(b) && 0 <= i < 64 implies (#[trigger] col_bit(
            masks@,
            d,
            a,
            b,
            i,
        ) <==> face_rule(cols@[col_idx(d / 2, a, b)], d % 2 == 1, i)) by {
            let j = col_idx(d, a, b);
            assert(j / 2312 == d / 2 && j % 1156 == a * 34 + b && (j / 1156) % 2 == d % 2);
            assert(bit64(masks@[j], i) <==> face_rule(
                cols@[(j / 2312) * 1156 + j % 1156],
                (j / 1156) % 2 == 1,
                i,
            ));
        }
    }
    masks
}

} // verus!
