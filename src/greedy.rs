use vstd::prelude::*;
use vstd::std_specs::bits::*;

verus! {

broadcast use {axiom_u32_trailing_zeros, axiom_u32_trailing_ones};

/// Side length of a binary plane, in rows and in bit columns.
pub const PLANE_SIZE: u32 = 32;

/// An axis-aligned rectangle of faces inside one binary plane: rows
/// `x .. x + w`, bit columns `y .. y + h`.
#[derive(Debug, Clone, Copy, PartialEq, Eq, Structural)]
pub struct GreedyQuad {
    pub x: u32,
    pub y: u32,
    pub w: u32,
    pub h: u32,
}

/// Bit `c` of row `r` of a plane is set.
pub open spec fn plane_bit(data: Seq<u32>, r: int, c: int) -> bool {
    0 <= r < data.len() && 0 <= c < 32 && bit32(data[r], c)
}

/// Bit `c` of `v` is set.
pub open spec fn bit32(v: u32, c: int) -> bool {
    (v >> (c as u32)) & 1u32 == 1u32
}

impl GreedyQuad {
    /// The quad covers cell (row `r`, column `c`).
    pub open spec fn covers(self, r: int, c: int) -> bool {
        self.x <= r < self.x + self.w && self.y <= c < self.y + self.h
    }

    /// The quad is non-empty and lies inside a plane.
    pub open spec fn in_plane(self) -> bool {
        1 <= self.w && self.x + self.w <= 32 && 1 <= self.h && self.y + self.h <= 32
    }
}

/// No cell is covered by two quads of the list.
pub open spec fn quads_disjoint(qs: Seq<GreedyQuad>) -> bool {
    forall|i: int, j: int, r: int, c: int|
        0 <= i < qs.len() && 0 <= j < qs.len() && i != j && #[trigger] qs[i].covers(r, c)
            ==> !#[trigger] qs[j].covers(r, c)
}

/// Some quad of the list covers cell (`r`, `c`).
pub open spec fn quads_cover(qs: Seq<GreedyQuad>, r: int, c: int) -> bool {
    exists|k: int| 0 <= k < qs.len() && #[trigger] qs[k].covers(r, c)
}

/// A run of `h` low bits, also for `h == 32`.
pub open spec fn low_mask(h: u32) -> u32 {
    if h < 32 {
        ((1u32 << h) - 1u32) as u32
    } else {
        0xffff_ffffu32
    }
}

/// Width of the quad that starts in row `row` with the run of `h` bits at
/// `y`: `w`, widened over each following row below `lod` that holds the
/// whole run.
pub open spec fn widen(data: Seq<u32>, row: int, y: int, h: u32, lod: int, w: int) -> int
    decreases 32 - w,
{
    if w < 1 || w >= 32 || row + w >= lod || (data[row + w] >> (y as u32)) & low_mask(h)
        != low_mask(h) {
        w
    } else {
        widen(data, row, y, h, lod, w + 1)
    }
}

/// `data` with the run of `h` bits at `y` cleared in rows `row + 1 .. row + w`.
pub open spec fn clear_rows(data: Seq<u32>, row: int, y: int, h: u32, w: int) -> Seq<u32> {
    Seq::new(
        data.len(),
        |i: int|
            if row < i < row + w {
                data[i] & !((low_mask(h) << (y as u32)) as u32)
            } else {
                data[i]
            },
    )
}

/// The quads that the scan of row `row` emits from column `y` on, and the
/// plane after it: skip to the next set bit, take the run of set bits there
/// as the height, widen over the following rows that hold exactly that run
/// (clearing it from them), emit the quad, go on after the run.
pub open spec fn scan_row(data: Seq<u32>, row: int, y: int, lod: int) -> (Seq<GreedyQuad>, Seq<u32>)
    decreases lod + 32 - y,
{
    if y < 0 || y >= lod || row < 0 || row >= data.len() {
        (Seq::empty(), data)
    } else {
        let y2 = y + (data[row] >> (y as u32)).trailing_zeros();
        if y2 >= lod {
            (Seq::empty(), data)
        } else {
            let h = (data[row] >> (y2 as u32)).trailing_ones();
            if h == 0 {
                (Seq::empty(), data)
            } else {
                let w = widen(data, row, y2, h, lod, 1);
                let rest = scan_row(clear_rows(data, row, y2, h, w), row, y2 + h, lod);
                (seq![GreedyQuad { x: row as u32, y: y2 as u32, w: w as u32, h }] + rest.0, rest.1)
            }
        }
    }
}

/// The quads of rows `row` onwards, row by row.
pub open spec fn scan_rows(data: Seq<u32>, row: int, lod: int) -> Seq<GreedyQuad>
    decreases 32 - row,
{
    if row < 0 || row >= 32 {
        Seq::empty()
    } else {
        let r = scan_row(data, row, 0, lod);
        r.0 + scan_rows(r.1, row + 1, lod)
    }
}

/// The quads that greedy meshing emits for a plane, in order: rows ascending,
/// and within a row, runs by ascending column.
pub open spec fn greedy_spec(data: Seq<u32>, lod: int) -> Seq<GreedyQuad> {
    scan_rows(data, 0, lod)
}

/// The quads still to come when row `row` is scanned from column `y`.
pub open spec fn rest_from(data: Seq<u32>, row: int, y: int, lod: int) -> Seq<GreedyQuad> {
    let r = scan_row(data, row, y, lod);
    r.0 + scan_rows(r.1, row + 1, lod)
}

proof fn lemma_shift_bit(d: u32, y: u32, j: u32)
    requires
        y + j < 32,
    ensures
        ((d >> y) >> j) & 1u32 == (d >> ((y + j) as u32)) & 1u32,
{
    assert(((d >> y) >> j) & 1u32 == (d >> ((y + j) as u32)) & 1u32) by (bit_vector)
        requires
            y + j < 32,
    ;
}

proof fn lemma_shifted_top_clear(d: u32, y: u32)
    requires
        0 < y < 32,
    ensures
        ((d >> y) >> ((32 - y) as u32)) & 1u32 == 0u32,
{
    assert(((d >> y) >> ((32 - y) as u32)) & 1u32 == 0u32) by (bit_vector)
        requires
            0 < y < 32,
    ;
}

proof fn lemma_mask_match(e: u32, y: u32, h: u32, m: u32, j: u32)
    requires
        1 <= h,
        y + h <= 32,
        j < h,
        m == low_mask(h),
        (e >> y) & m == m,
    ensures
        (e >> ((y + j) as u32)) & 1u32 == 1u32,
{
    if h < 32 {
        assert((e >> ((y + j) as u32)) & 1u32 == 1u32) by (bit_vector)
            requires
                1 <= h < 32,
                y + h <= 32,
                j < h,
                m == ((1u32 << h) - 1u32) as u32,
                (e >> y) & m == m,
        ;
    } else {
        assert((e >> ((y + j) as u32)) & 1u32 == 1u32) by (bit_vector)
            requires
                h == 32,
                y + h <= 32,
                j < h,
                m == 0xffff_ffffu32,
                (e >> y) & m == m,
        ;
    }
}

proof fn lemma_mask_clear(e: u32, y: u32, h: u32, m: u32, c: u32)
    requires
        1 <= h,
        y + h <= 32,
        c < 32,
        m == low_mask(h),
    ensures
        ((e & !((m << y) as u32)) >> c) & 1u32 == 1u32 <==> ((e >> c) & 1u32 == 1u32 && !(y
            <= c < y + h)),
{
    if h < 32 {
        assert(((e & !((m << y) as u32)) >> c) & 1u32 == 1u32 <==> ((e >> c) & 1u32 == 1u32 && !(
        y <= c < y + h))) by (bit_vector)
            requires
                1 <= h < 32,
                y + h <= 32,
                c < 32,
                m == ((1u32 << h) - 1u32) as u32,
        ;
    } else {
        assert(((e & !((m << y) as u32)) >> c) & 1u32 == 1u32 <==> ((e >> c) & 1u32 == 1u32 && !(
        y <= c < y + h))) by (bit_vector)
            requires
                h == 32,
                y + h <= 32,
                c < 32,
                m == 0xffff_ffffu32,
        ;
    }
}

/// Merges the set bits of a binary plane into rectangles, row by row: each
/// run of set bits in a row becomes a quad, widened over the following rows
/// (below `lod_size`) for as long as they hold the same run.
///
/// Every returned quad lies on set bits only, no two quads share a cell, and
/// every set bit in a column below `lod_size` is covered.
pub fn greedy_mesh_binary_plane(data: [u32; 32], lod_size: u32) -> (quads: Vec<GreedyQuad>)
    requires
        lod_size <= PLANE_SIZE,
    ensures
        forall|k: int| 0 <= k < quads@.len() ==> (#[trigger] quads@[k]).in_plane(),
        forall|k: int, r: int, c: int|
            0 <= k < quads@.len() && #[trigger] quads@[k].covers(r, c) ==> plane_bit(data@, r, c),
        quads_disjoint(quads@),
        forall|r: int, c: int|
            0 <= c < lod_size && #[trigger] plane_bit(data@, r, c) ==> quads_cover(quads@, r, c),
        quads@.len() <= 1024,
        quads@ == greedy_spec(data@, lod_size as int),
{
    let ghost orig = data@;
    let mut data = data;
    let mut greedy_quads: Vec<GreedyQuad> = Vec::new();
    let mut row: usize = 0;
    while row < 32
        invariant
            row <= 32,
            lod_size <= 32,
            greedy_quads@.len() <= row * 32,
            greedy_quads@ + scan_rows(data@, row as int, lod_size as int) == greedy_spec(
                orig,
                lod_size as int,
            ),
            data@.len() == 32,
            orig.len() == 32,
            forall|r: int, c: int| #[trigger] plane_bit(data@, r, c) ==> plane_bit(orig, r, c),
            forall|k: int| 0 <= k < greedy_quads@.len() ==> (#[trigger] greedy_quads@[k]).in_plane(),
            forall|k: int, r: int, c: int|
                0 <= k < greedy_quads@.len() && #[trigger] greedy_quads@[k].covers(r, c)
                    ==> plane_bit(orig, r, c),
            quads_disjoint(greedy_quads@),
            forall|k: int, r: int, c: int|
                0 <= k < greedy_quads@.len() && #[trigger] greedy_quads@[k].covers(r, c) && r
                    >= row ==> !plane_bit(data@, r, c),
            forall|r: int, c: int|
                0 <= c < lod_size && r < row && #[trigger] plane_bit(orig, r, c) ==> quads_cover(
                    greedy_quads@,
                    r,
                    c,
                ),
            forall|r: int, c: int|
                r >= row && #[trigger] plane_bit(orig, r, c) && !plane_bit(data@, r, c)
                    ==> quads_cover(greedy_quads@, r, c),
        decreases 32 - row,
    {
        let mut y: u32 = 0;
        proof {
            assert(scan_rows(data@, row as int, lod_size as int) == rest_from(
                data@,
                row as int,
                0,
                lod_size as int,
            ));
        }
        while y < lod_size
            invariant
                row < 32,
                lod_size <= 32,
                greedy_quads@ + rest_from(data@, row as int, y as int, lod_size as int)
                    == greedy_spec(orig, lod_size as int),
                greedy_quads@.len() <= row * 32 + (if y < 32 {
                    y as int
                } else {
                    32
                }),
                data@.len() == 32,
                orig.len() == 32,
                forall|r: int, c: int| #[trigger] plane_bit(data@, r, c) ==> plane_bit(orig, r, c),
                forall|k: int|
                    0 <= k < greedy_quads@.len() ==> (#[trigger] greedy_quads@[k]).in_plane(),
                forall|k: int, r: int, c: int|
                    0 <= k < greedy_quads@.len() && #[trigger] greedy_quads@[k].covers(r, c)
                        ==> plane_bit(orig, r, c),
                quads_disjoint(greedy_quads@),
                forall|k: int, r: int, c: int|
                    0 <= k < greedy_quads@.len() && #[trigger] greedy_quads@[k].covers(r, c) && (r
                        > row || (r == row && c >= y)) ==> !plane_bit(data@, r, c),
                forall|r: int, c: int|
                    0 <= c < lod_size && (r < row || (r == row && c < y)) && #[trigger] plane_bit(
                        orig,
                        r,
                        c,
                    ) ==> quads_cover(greedy_quads@, r, c),
                forall|r: int, c: int|
                    (r > row || (r == row && c >= y)) && #[trigger] plane_bit(orig, r, c)
                        && !plane_bit(data@, r, c) ==> quads_cover(greedy_quads@, r, c),
            decreases 64 - y,
        {
            let ghost qs_old = greedy_quads@;
            let ghost ds = data@;
            let cur = data[row];
            let tz = (cur >> y).trailing_zeros();
            proof {
                assert forall|c: int| y <= c < y + tz && c < 32 implies !#[trigger] plane_bit(
                    data@,
                    row as int,
                    c,
                ) by {
                    lemma_shift_bit(cur, y, (c - y) as u32);
                }
            }
            let y0 = y;
            y = y + tz;
            proof {
                assert forall|c: int|
                    0 <= c < lod_size && y0 <= c < y && #[trigger] plane_bit(orig, row as int, c)
                        implies quads_cover(qs_old, row as int, c) by {
                    assert(!plane_bit(ds, row as int, c));
                }
            }
            if y >= lod_size {
                proof {
                    assert(scan_row(ds, row as int, y0 as int, lod_size as int) == (
                    Seq::<GreedyQuad>::empty(),
                    ds,
                    ));
                    assert(scan_row(ds, row as int, y as int, lod_size as int) == (
                    Seq::<GreedyQuad>::empty(),
                    ds,
                    ));
                }
            }
            if y < lod_size {
                proof {
                    lemma_shift_bit(cur, y0, tz);
                }
                let h = (cur >> y).trailing_ones();
                proof {
                    lemma_shift_bit(cur, y, 0);
                    if y > 0 && h > 32 - y {
                        lemma_shifted_top_clear(cur, y);
                    }
                    assert forall|c: int| y <= c < y + h implies #[trigger] plane_bit(
                        data@,
                        row as int,
                        c,
                    ) by {
                        lemma_shift_bit(cur, y, (c - y) as u32);
                    }
                }
                let h_as_mask: u32 = if h < 32 {
                    proof {
                        assert(1u32 << h >= 1u32) by (bit_vector)
                            requires
                                h < 32,
                        ;
                    }
                    (1u32 << h) - 1
                } else {
                    0xffff_ffffu32
                };
                let mask: u32 = h_as_mask << y;
                let ghost d0 = data@;
                let mut w: usize = 1;
                proof {
                    assert(clear_rows(d0, row as int, y as int, h, 1) =~= d0);
                }
                while row + w < lod_size as usize
                    invariant
                        row < 32,
                        1 <= w,
                        row + w <= 32,
                        lod_size <= 32,
                        1 <= h,
                        y + h <= 32,
                        h_as_mask == low_mask(h),
                        mask == (h_as_mask << y) as u32,
                        data@.len() == 32,
                        d0.len() == 32,
                        data@ == clear_rows(d0, row as int, y as int, h, w as int),
                        widen(d0, row as int, y as int, h, lod_size as int, w as int) == widen(
                            d0,
                            row as int,
                            y as int,
                            h,
                            lod_size as int,
                            1,
                        ),
                        forall|r: int, c: int|
                            row < r < row + w && y <= c < y + h ==> #[trigger] plane_bit(d0, r, c)
                                && !plane_bit(data@, r, c),
                        forall|r: int, c: int|
                            !(row < r < row + w && y <= c < y + h) ==> #[trigger] plane_bit(
                                data@,
                                r,
                                c,
                            ) == plane_bit(d0, r, c),
                    ensures
                        widen(d0, row as int, y as int, h, lod_size as int, w as int) == w,
                    decreases 32 - w,
                {
                    let next = data[row + w];
                    let next_row_h = (next >> y) & h_as_mask;
                    proof {
                        assert(next == d0[row + w]);
                    }
                    if next_row_h != h_as_mask {
                        break;
                    }
                    let cleared = next & !mask;
                    let ghost dprev = data@;
                    data[row + w] = cleared;
                    proof {
                        assert forall|r: int, c: int| #[trigger]
                            plane_bit(data@, r, c) == (if r == row + w {
                                plane_bit(dprev, r, c) && !(y <= c < y + h)
                            } else {
                                plane_bit(dprev, r, c)
                            }) by {
                            if r == row + w && 0 <= c < 32 {
                                lemma_mask_clear(next, y, h, h_as_mask, c as u32);
                            }
                        }
                        assert forall|c: int| y <= c < y + h implies #[trigger] plane_bit(
                            dprev,
                            row + w,
                            c,
                        ) && plane_bit(d0, row + w, c) by {
                            lemma_mask_match(next, y, h, h_as_mask, (c - y) as u32);
                        }
                    }
                    proof {
                        assert forall|r: int, c: int|
                            row < r < row + w + 1 && y <= c < y + h implies #[trigger] plane_bit(
                            d0,
                            r,
                            c,
                        ) && !plane_bit(data@, r, c) by {
                            if r == row + w {
                                assert(plane_bit(dprev, r, c));
                                assert(plane_bit(d0, r, c));
                            }
                            assert(plane_bit(data@, r, c) == (if r == row + w {
                                plane_bit(dprev, r, c) && !(y <= c < y + h)
                            } else {
                                plane_bit(dprev, r, c)
                            }));
                        }
                        assert forall|r: int, c: int|
                            !(row < r < row + w + 1 && y <= c < y + h) implies #[trigger] plane_bit(
                            data@,
                            r,
                            c,
                        ) == plane_bit(d0, r, c) by {
                            assert(plane_bit(data@, r, c) == (if r == row + w {
                                plane_bit(dprev, r, c) && !(y <= c < y + h)
                            } else {
                                plane_bit(dprev, r, c)
                            }));
                        }
                    }
                    proof {
                        assert(data@ =~= clear_rows(d0, row as int, y as int, h, w + 1));
                    }
                    w = w + 1;
                }
                let q = GreedyQuad { y, w: w as u32, h, x: row as u32 };
                proof {
                    assert forall|r: int, c: int| #[trigger] plane_bit(data@, r, c) implies plane_bit(
                        d0,
                        r,
                        c,
                    ) by {
                        if row < r < row + w && y <= c < y + h {
                        }
                    }
                    assert forall|r: int, c: int| #[trigger] q.covers(r, c) implies plane_bit(
                        d0,
                        r,
                        c,
                    ) by {
                        if r > row {
                        }
                    }
                }
                greedy_quads.push(q);
                proof {
                    let n = greedy_quads@.len() - 1;
                    assert(greedy_quads@[n] == q);
                    assert forall|r: int, c: int| quads_cover(qs_old, r, c) implies quads_cover(
                        greedy_quads@,
                        r,
                        c,
                    ) by {
                        let k = choose|k: int| 0 <= k < qs_old.len() && #[trigger] qs_old[k].covers(
                            r,
                            c,
                        );
                        assert(greedy_quads@[k] == qs_old[k]);
                    }
                    assert forall|r: int, c: int| q.covers(r, c) implies quads_cover(
                        greedy_quads@,
                        r,
                        c,
                    ) by {
                        assert(greedy_quads@[n].covers(r, c));
                    }
                }
                let ghost ye = y;
                y = y + h;
                proof {
                    let rest = scan_row(data@, row as int, y as int, lod_size as int);
                    assert(d0 == ds);
                    assert(scan_row(ds, row as int, y0 as int, lod_size as int) == (seq![q]
                        + rest.0, rest.1));
                    assert(greedy_quads@ + rest_from(data@, row as int, y as int, lod_size as int)
                        =~= qs_old + rest_from(ds, row as int, y0 as int, lod_size as int));
                    assert forall|c: int|
                        0 <= c < lod_size && y0 <= c < y && #[trigger] plane_bit(orig, row as int, c)
                            implies quads_cover(greedy_quads@, row as int, c) by {
                        if c >= ye {
                            assert(q.covers(row as int, c));
                        }
                    }
                    assert forall|r: int, c: int|
                        (r > row || (r == row && c >= y)) && #[trigger] plane_bit(orig, r, c)
                            && !plane_bit(data@, r, c) implies quads_cover(greedy_quads@, r, c) by {
                        if row < r < row + w && ye <= c < y {
                            assert(q.covers(r, c));
                        } else {
                            assert(plane_bit(data@, r, c) == plane_bit(d0, r, c));
                        }
                    }
                }
            }
        }
        proof {
            assert(scan_row(data@, row as int, y as int, lod_size as int) == (
            Seq::<GreedyQuad>::empty(),
            data@,
            ));
            assert(greedy_quads@ + scan_rows(data@, row + 1, lod_size as int) =~= greedy_quads@
                + rest_from(data@, row as int, y as int, lod_size as int));
        }
        row = row + 1;
    }
    proof {
        assert(greedy_quads@ =~= greedy_quads@ + scan_rows(data@, 32, lod_size as int));
    }
    greedy_quads
}

} // verus!
