use vstd::prelude::*;

verus! {

/// Side length of a chunk, in voxels.
pub const CHUNK_SIZE: usize = 32;

/// Side length of a chunk with its one-voxel border.
pub const CHUNK_SIZE_P: usize = 34;

/// Number of voxels of a chunk stored voxel by voxel.
pub const CHUNK_VOLUME: usize = 32768;

/// Number of chunks of a neighbourhood: the chunk and its 26 neighbours.
pub const NEIGHBOURHOOD_LEN: usize = 27;

/// Index of the central chunk of a neighbourhood.
pub const CENTER_CHUNK: usize = 13;

/// Block type of air, the one non-solid block type.
pub const AIR: u32 = 0;

/// A position in chunk-local voxel coordinates; it may lie one voxel outside
/// the chunk.
#[derive(Debug, Clone, Copy, PartialEq, Eq, Structural)]
pub struct VoxelPos {
    pub x: i32,
    pub y: i32,
    pub z: i32,
}

/// What a voxel holds.
#[derive(Debug, Clone, Copy, PartialEq, Eq, Structural)]
pub struct BlockData {
    pub block_type: u32,
}

impl BlockData {
    pub open spec fn solid(self) -> bool {
        self.block_type != AIR
    }

    pub fn is_solid(&self) -> (r: bool)
        ensures
            r == self.solid(),
    {
        self.block_type != AIR
    }
}

/// The voxels of one chunk: either `CHUNK_VOLUME` voxels, x fastest, then y,
/// then z; or a single voxel that fills the whole chunk.
#[derive(Debug, Clone)]
pub struct ChunkData {
    pub voxels: Vec<BlockData>,
}

/// Index of a local position in a chunk stored voxel by voxel.
pub open spec fn voxel_index(x: int, y: int, z: int) -> int {
    x + y * 32 + z * 1024
}

impl ChunkData {
    pub open spec fn wf(&self) -> bool {
        self.voxels@.len() == CHUNK_VOLUME || self.voxels@.len() == 1
    }

    /// The voxel at a local position `0 <= x, y, z < CHUNK_SIZE`.
    pub open spec fn voxel_at(&self, x: int, y: int, z: int) -> BlockData {
        if self.voxels@.len() == 1 {
            self.voxels@[0]
        } else {
            self.voxels@[voxel_index(x, y, z)]
        }
    }

    pub fn get(&self, x: usize, y: usize, z: usize) -> (r: BlockData)
        requires
            self.wf(),
            x < CHUNK_SIZE,
            y < CHUNK_SIZE,
            z < CHUNK_SIZE,
        ensures
            r == self.voxel_at(x as int, y as int, z as int),
    {
        if self.voxels.len() == 1 {
            self.voxels[0]
        } else {
            self.voxels[x + y * CHUNK_SIZE + z * CHUNK_SIZE * CHUNK_SIZE]
        }
    }
}

/// A chunk together with its 26 neighbours, indexed by
/// `cx + 3 * cy + 9 * cz` for chunk offsets `cx, cy, cz` in `0..3`; the
/// chunk itself is at offset (1, 1, 1).
#[derive(Debug, Clone)]
pub struct ChunksRefs {
    pub chunks: Vec<ChunkData>,
}

/// Offset of the chunk, in `0..3`, that holds local coordinate `v`.
pub open spec fn chunk_offset(v: int) -> int {
    if v < 0 {
        0
    } else if v < 32 {
        1
    } else {
        2
    }
}

/// Coordinate of local coordinate `v` inside the chunk that holds it.
pub open spec fn in_chunk(v: int) -> int {
    v - (chunk_offset(v) - 1) * 32
}

/// `v` is a local coordinate of the chunk or of its one-voxel border.
pub open spec fn in_border(v: int) -> bool {
    -1 <= v <= 32
}

impl ChunksRefs {
    pub open spec fn wf(&self) -> bool {
        &&& self.chunks@.len() == NEIGHBOURHOOD_LEN
        &&& forall|i: int| 0 <= i < NEIGHBOURHOOD_LEN ==> (#[trigger] self.chunks@[i]).wf()
    }

    /// The voxel at a local position of the chunk or of its border.
    pub open spec fn block_at(&self, x: int, y: int, z: int) -> BlockData {
        self.chunks@[chunk_offset(x) + 3 * chunk_offset(y) + 9 * chunk_offset(z)].voxel_at(
            in_chunk(x),
            in_chunk(y),
            in_chunk(z),
        )
    }

    /// Every chunk of the neighbourhood is one repeated voxel, the same in all.
    pub open spec fn all_same(&self) -> bool {
        forall|i: int|
            0 <= i < self.chunks@.len() ==> (#[trigger] self.chunks@[i]).voxels@.len() == 1
                && self.chunks@[i].voxels@[0].block_type == self.chunks@[0].voxels@[0].block_type
    }

    /// Whether the whole neighbourhood is one block type, stored as uniform
    /// chunks; such a neighbourhood has no visible face.
    pub fn is_all_voxels_same(&self) -> (r: bool)
        requires
            self.wf(),
        ensures
            r == self.all_same(),
    {
        let block_type = self.chunks[0].voxels[0].block_type;
        let mut i: usize = 0;
        while i < self.chunks.len()
            invariant
                self.wf(),
                i <= self.chunks@.len(),
                block_type == self.chunks@[0].voxels@[0].block_type,
                forall|j: int|
                    0 <= j < i ==> (#[trigger] self.chunks@[j]).voxels@.len() == 1
                        && self.chunks@[j].voxels@[0].block_type == block_type,
            decreases self.chunks@.len() - i,
        {
            let chunk = &self.chunks[i];
            if chunk.voxels.len() != 1 || chunk.voxels[0].block_type != block_type {
                return false;
            }
            i = i + 1;
        }
        true
    }

    /// The voxel at a position of the chunk or of its border, read from
    /// whichever chunk of the neighbourhood holds it.
    pub fn get_block(&self, pos: VoxelPos) -> (r: BlockData)
        requires
            self.wf(),
            in_border(pos.x as int),
            in_border(pos.y as int),
            in_border(pos.z as int),
        ensures
            r == self.block_at(pos.x as int, pos.y as int, pos.z as int),
    {
        let x = (pos.x + 32) as usize;
        let y = (pos.y + 32) as usize;
        let z = (pos.z + 32) as usize;
        let chunk_index = x / CHUNK_SIZE + 3 * (y / CHUNK_SIZE) + 9 * (z / CHUNK_SIZE);
        proof {
            assert(x / 32 == chunk_offset(pos.x as int));
            assert(y / 32 == chunk_offset(pos.y as int));
            assert(z / 32 == chunk_offset(pos.z as int));
        }
        let chunk = &self.chunks[chunk_index];
        chunk.get(x % CHUNK_SIZE, y % CHUNK_SIZE, z % CHUNK_SIZE)
    }

    /// The voxel at a position inside the chunk itself.
    pub fn get_block_no_neighbour(&self, pos: VoxelPos) -> (r: BlockData)
        requires
            self.wf(),
            0 <= pos.x < CHUNK_SIZE,
            0 <= pos.y < CHUNK_SIZE,
            0 <= pos.z < CHUNK_SIZE,
        ensures
            r == self.block_at(pos.x as int, pos.y as int, pos.z as int),
    {
        self.chunks[CENTER_CHUNK].get(pos.x as usize, pos.y as usize, pos.z as usize)
    }
}

} // verus!
