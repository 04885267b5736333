use vstd::prelude::*;
use crate::greedy::GreedyQuad;
use crate::voxel::VoxelPos;

verus! {

/// The six face directions.
#[derive(Debug, Clone, Copy, PartialEq, Eq, Structural)]
pub enum FaceDir {
    Down,
    Up,
    Left,
    Right,
    Forward,
    Back,
}

/// Level of detail: the side of the sampled grid, 32 at full resolution.
#[derive(Debug, Clone, Copy, PartialEq, Eq, Structural)]
pub enum Lod {
    L32,
    L16,
    L8,
    L4,
    L2,
}

impl Lod {
    pub open spec fn jump(self) -> int {
        match self {
            Lod::L32 => 1,
            Lod::L16 => 2,
            Lod::L8 => 4,
            Lod::L4 => 8,
            Lod::L2 => 16,
        }
    }

    pub open spec fn spec_size(self) -> u32 {
        match self {
            Lod::L32 => 32,
            Lod::L16 => 16,
            Lod::L8 => 8,
            Lod::L4 => 4,
            Lod::L2 => 2,
        }
    }

    /// Scale from sampled cells to voxels.
    pub fn jump_index(&self) -> (r: i32)
        ensures
            r == self.jump(),
    {
        match self {
            Lod::L32 => 1,
            Lod::L16 => 2,
            Lod::L8 => 4,
            Lod::L4 => 8,
            Lod::L2 => 16,
        }
    }

    /// Number of sampled cells along a side.
    pub fn size(&self) -> (r: u32)
        ensures
            r == self.spec_size(),
    {
        match self {
            Lod::L32 => 32,
            Lod::L16 => 16,
            Lod::L8 => 8,
            Lod::L4 => 4,
            Lod::L2 => 2,
        }
    }
}

impl FaceDir {
    /// The direction whose face masks come at index `d` (0 to 5).
    pub open spec fn from_index(d: int) -> FaceDir {
        if d == 0 {
            FaceDir::Down
        } else if d == 1 {
            FaceDir::Up
        } else if d == 2 {
            FaceDir::Left
        } else if d == 3 {
            FaceDir::Right
        } else if d == 4 {
            FaceDir::Forward
        } else {
            FaceDir::Back
        }
    }

    pub fn from_axis(d: usize) -> (r: FaceDir)
        ensures
            r == FaceDir::from_index(d as int),
    {
        match d {
            0 => FaceDir::Down,
            1 => FaceDir::Up,
            2 => FaceDir::Left,
            3 => FaceDir::Right,
            4 => FaceDir::Forward,
            _ => FaceDir::Back,
        }
    }

    pub open spec fn spec_normal_index(self) -> u32 {
        match self {
            FaceDir::Left => 0,
            FaceDir::Right => 1,
            FaceDir::Down => 2,
            FaceDir::Up => 3,
            FaceDir::Forward => 4,
            FaceDir::Back => 5,
        }
    }

    /// Index of the face normal in the packed vertex word.
    pub fn normal_index(&self) -> (r: u32)
        ensures
            r == self.spec_normal_index(),
    {
        match self {
            FaceDir::Left => 0,
            FaceDir::Right => 1,
            FaceDir::Down => 2,
            FaceDir::Up => 3,
            FaceDir::Forward => 4,
            FaceDir::Back => 5,
        }
    }

    pub open spec fn spec_reverse_order(self) -> bool {
        match self {
            FaceDir::Up | FaceDir::Right | FaceDir::Forward => true,
            _ => false,
        }
    }

    /// Whether the base vertex order winds the wrong way for this direction.
    pub fn reverse_order(&self) -> (r: bool)
        ensures
            r == self.spec_reverse_order(),
    {
        match self {
            FaceDir::Up | FaceDir::Right | FaceDir::Forward => true,
            _ => false,
        }
    }

    /// The padded-grid corner of plane cell (`x`, `y`) at depth `axis`.
    pub open spec fn sample(self, axis: int, x: int, y: int) -> (int, int, int) {
        match self {
            FaceDir::Down => (x, axis, y),
            FaceDir::Up => (x, axis + 1, y),
            FaceDir::Left => (axis, y, x),
            FaceDir::Right => (axis + 1, y, x),
            FaceDir::Forward => (x, y, axis),
            FaceDir::Back => (x, y, axis + 1),
        }
    }

    /// Maps plane coordinates (`x`, `y`) at depth `axis` to a vertex position.
    pub fn world_to_sample(&self, axis: i32, x: i32, y: i32, lod: &Lod) -> (r: VoxelPos)
        requires
            0 <= axis < 64,
            0 <= x < 64,
            0 <= y < 64,
        ensures
            (r.x as int, r.y as int, r.z as int) == self.sample(axis as int, x as int, y as int),
    {
        match self {
            FaceDir::Down => VoxelPos { x, y: axis, z: y },
            FaceDir::Up => VoxelPos { x, y: axis + 1, z: y },
            FaceDir::Left => VoxelPos { x: axis, y, z: x },
            FaceDir::Right => VoxelPos { x: axis + 1, y, z: x },
            FaceDir::Forward => VoxelPos { x, y, z: axis },
            FaceDir::Back => VoxelPos { x, y, z: axis + 1 },
        }
    }
}

/// The packed vertex word: position in bits 0 to 17 (6 bits per component),
/// AO intensity from bit 18, normal index from bit 21, block type from bit 25.
pub open spec fn vertex_word(p: (int, int, int), ao: int, normal: int, block_type: int) -> int {
    p.0 + p.1 * 0x40 + p.2 * 0x1000 + ao * 0x40000 + normal * 0x200000 + block_type * 0x2000000
}

/// Packs one vertex.
pub fn make_vertex_u32(pos: VoxelPos, ao: u32, normal: u32, block_type: u32) -> (r: u32)
    requires
        0 <= pos.x < 64,
        0 <= pos.y < 64,
        0 <= pos.z < 64,
        ao < 8,
        normal < 16,
        block_type < 128,
    ensures
        r as int == vertex_word(
            (pos.x as int, pos.y as int, pos.z as int),
            ao as int,
            normal as int,
            block_type as int,
        ),
{
    let x = pos.x as u32;
    let y = pos.y as u32;
    let z = pos.z as u32;
    let r = x | y << 6u32 | z << 12u32 | ao << 18u32 | normal << 21u32 | block_type << 25u32;
    assert(r == x + y * 0x40 + z * 0x1000 + ao * 0x40000 + normal * 0x200000 + block_type
        * 0x2000000) by (bit_vector)
        requires
            x < 64,
            y < 64,
            z < 64,
            ao < 8,
            normal < 16,
            block_type < 128,
            r == x | y << 6u32 | z << 12u32 | ao << 18u32 | normal << 21u32 | block_type << 25u32,
    ;
    r
}

/// Bit `k` of an AO pattern, as 0 or 1.
pub open spec fn ao_bit(ao: u32, k: u32) -> int {
    ((ao >> k) & 1u32) as int
}

/// AO intensity (0 to 3) at corner `corner` (1 to 4) of a face: the number of
/// solid samples among the three that touch it. In the 3x3 sample layout
/// (0 1 2 / 3 4 5 / 6 7 8) corner 1 reads 0, 1, 3; corner 2 reads 3, 6, 7;
/// corner 3 reads 5, 7, 8; corner 4 reads 1, 2, 5.
pub open spec fn corner_ao(ao: u32, corner: int) -> int {
    if corner == 1 {
        ao_bit(ao, 0) + ao_bit(ao, 1) + ao_bit(ao, 3)
    } else if corner == 2 {
        ao_bit(ao, 3) + ao_bit(ao, 6) + ao_bit(ao, 7)
    } else if corner == 3 {
        ao_bit(ao, 5) + ao_bit(ao, 8) + ao_bit(ao, 7)
    } else {
        ao_bit(ao, 1) + ao_bit(ao, 2) + ao_bit(ao, 5)
    }
}

fn ao_bit_exec(ao: u32, k: u32) -> (r: u32)
    requires
        k < 32,
    ensures
        r as int == ao_bit(ao, k),
        r <= 1,
{
    let r = (ao >> k) & 1u32;
    assert(r <= 1) by (bit_vector)
        requires
            r == (ao >> k) & 1u32,
    ;
    r
}

fn corner_ao_exec(ao: u32, corner: u32) -> (r: u32)
    ensures
        r as int == corner_ao(ao, corner as int),
        r <= 3,
{
    if corner == 1 {
        ao_bit_exec(ao, 0) + ao_bit_exec(ao, 1) + ao_bit_exec(ao, 3)
    } else if corner == 2 {
        ao_bit_exec(ao, 3) + ao_bit_exec(ao, 6) + ao_bit_exec(ao, 7)
    } else if corner == 3 {
        ao_bit_exec(ao, 5) + ao_bit_exec(ao, 8) + ao_bit_exec(ao, 7)
    } else {
        ao_bit_exec(ao, 1) + ao_bit_exec(ao, 2) + ao_bit_exec(ao, 5)
    }
}

/// Vertex order of a quad: corners 1, 2, 3, 4; for reversing directions
/// 1, 4, 3, 2; then, where corners 1 and 3 disagree on being occluded at
/// all, rotated by one so that the shared diagonal follows the lighting.
pub open spec fn vertex_order(rev: bool, flip: bool) -> Seq<int> {
    let base = if rev {
        seq![1int, 4, 3, 2]
    } else {
        seq![1int, 2, 3, 4]
    };
    if flip {
        base.subrange(1, 4).push(base[0])
    } else {
        base
    }
}

proof fn lemma_scaled_fits(a: int, bound: int, jump: int)
    requires
        0 <= a <= bound,
        1 <= jump,
        bound * jump < 64,
    ensures
        0 <= a * jump < 64,
        a < 64,
{
    assert(0 <= a * jump <= bound * jump && a <= a * jump) by (nonlinear_arith)
        requires
            0 <= a <= bound,
            1 <= jump,
    ;
}

/// A position scaled by the level-of-detail jump.
fn scale(p: VoxelPos, jump: i32) -> (r: VoxelPos)
    requires
        0 <= p.x * jump < 64,
        0 <= p.y * jump < 64,
        0 <= p.z * jump < 64,
    ensures
        r.x == p.x * jump,
        r.y == p.y * jump,
        r.z == p.z * jump,
{
    VoxelPos { x: p.x * jump, y: p.y * jump, z: p.z * jump }
}

impl GreedyQuad {
    /// Plane coordinates of corner `corner` (1 to 4): bottom-left,
    /// bottom-right, top-right, top-left.
    pub open spec fn corner(self, corner: int) -> (int, int) {
        if corner == 1 {
            (self.x as int, self.y as int)
        } else if corner == 2 {
            (self.x + self.w, self.y as int)
        } else if corner == 3 {
            (self.x + self.w, self.y + self.h)
        } else {
            (self.x as int, self.y + self.h)
        }
    }

    /// The packed word of corner `corner` of this quad.
    pub open spec fn corner_word(
        self,
        face_dir: FaceDir,
        axis: int,
        jump: int,
        ao: u32,
        block_type: u32,
        corner: int,
    ) -> int {
        let c = self.corner(corner);
        let p = face_dir.sample(axis, c.0, c.1);
        vertex_word(
            (p.0 * jump, p.1 * jump, p.2 * jump),
            corner_ao(ao, corner),
            face_dir.spec_normal_index() as int,
            block_type as int,
        )
    }

    /// The four words that `append_vertices` emits for this quad.
    pub open spec fn quad_words(
        self,
        face_dir: FaceDir,
        axis: int,
        jump: int,
        ao: u32,
        block_type: u32,
    ) -> Seq<u32> {
        let order = vertex_order(
            face_dir.spec_reverse_order(),
            (corner_ao(ao, 1) > 0) != (corner_ao(ao, 3) > 0),
        );
        Seq::new(4, |k: int| self.corner_word(face_dir, axis, jump, ao, block_type, order[k]) as u32)
    }

    /// Scaled vertex positions of this quad at depth `axis` fit the 6-bit
    /// position fields.
    pub open spec fn fits(self, axis: int, jump: int) -> bool {
        &&& 0 <= axis
        &&& (axis + 1) * jump < 64
        &&& (self.x + self.w) * jump < 64
        &&& (self.y + self.h) * jump < 64
    }

    /// Appends the four packed vertices of this quad, in winding order.
    pub fn append_vertices(
        &self,
        vertices: &mut Vec<u32>,
        face_dir: FaceDir,
        axis: u32,
        lod: &Lod,
        ao: u32,
        block_type: u32,
    )
        requires
            self.fits(axis as int, lod.jump()),
            block_type < 128,
        ensures
            final(vertices)@ == old(vertices)@ + self.quad_words(
                face_dir,
                axis as int,
                lod.jump(),
                ao,
                block_type,
            ),
    {
        let jump = lod.jump_index();
        let v1ao = corner_ao_exec(ao, 1);
        let v3ao = corner_ao_exec(ao, 3);
        let v1 = self.corner_vertex(face_dir, axis, jump, ao, block_type, 1);
        let v2 = self.corner_vertex(face_dir, axis, jump, ao, block_type, 2);
        let v3 = self.corner_vertex(face_dir, axis, jump, ao, block_type, 3);
        let v4 = self.corner_vertex(face_dir, axis, jump, ao, block_type, 4);
        let mut new_vertices: Vec<u32> = if face_dir.reverse_order() {
            vec![v1, v4, v3, v2]
        } else {
            vec![v1, v2, v3, v4]
        };
        if (v1ao > 0) != (v3ao > 0) {
            let f = new_vertices.remove(0);
            new_vertices.push(f);
        }
        proof {
            let qw = self.quad_words(face_dir, axis as int, lod.jump(), ao, block_type);
            assert(new_vertices@ =~= qw);
        }
        vertices.append(&mut new_vertices);
    }

    /// The packed word of one corner (1 to 4).
    fn corner_vertex(
        &self,
        face_dir: FaceDir,
        axis: u32,
        jump: i32,
        ao: u32,
        block_type: u32,
        corner: u32,
    ) -> (r: u32)
        requires
            self.fits(axis as int, jump as int),
            1 <= jump <= 16,
            block_type < 128,
            1 <= corner <= 4,
        ensures
            r as int == self.corner_word(
                face_dir,
                axis as int,
                jump as int,
                ao,
                block_type,
                corner as int,
            ),
    {
        proof {
            lemma_scaled_fits((self.x + self.w) as int, (self.x + self.w) as int, jump as int);
            lemma_scaled_fits((self.y + self.h) as int, (self.y + self.h) as int, jump as int);
            lemma_scaled_fits(axis + 1, axis + 1, jump as int);
        }
        let cx: u32 = if corner == 1 || corner == 4 {
            self.x
        } else {
            self.x + self.w
        };
        let cy: u32 = if corner <= 2 {
            self.y
        } else {
            self.y + self.h
        };
        let axis = axis as i32;
        let p = face_dir.world_to_sample(axis, cx as i32, cy as i32, &Lod::L32);
        proof {
            lemma_scaled_fits(cx as int, (self.x + self.w) as int, jump as int);
            lemma_scaled_fits(cy as int, (self.y + self.h) as int, jump as int);
            lemma_scaled_fits(axis as int, axis + 1, jump as int);
            lemma_scaled_fits(axis + 1, axis + 1, jump as int);
        }
        let vao = corner_ao_exec(ao, corner);
        make_vertex_u32(scale(p, jump), vao, face_dir.normal_index(), block_type)
    }
}

} // verus!
