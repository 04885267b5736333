use greedy_mesher::greedy::{greedy_mesh_binary_plane, GreedyQuad};
use greedy_mesher::group::{add_face, face_key_at, FaceTable};
use greedy_mesher::mesh::{build_chunk_mesh, generate_indices, mesh_quads, PlacedQuad};
use greedy_mesher::vertex::{make_vertex_u32, FaceDir, Lod};
use greedy_mesher::voxel::{BlockData, ChunkData, ChunksRefs, VoxelPos};

const VOLUME: usize = 32 * 32 * 32;

fn uniform(block_type: u32) -> ChunkData {
    ChunkData { voxels: vec![BlockData { block_type }] }
}

fn neighbourhood(center: ChunkData, around: u32) -> ChunksRefs {
    let mut chunks = Vec::new();
    for i in 0..27 {
        if i == 13 {
            chunks.push(center.clone());
        } else {
            chunks.push(uniform(around));
        }
    }
    ChunksRefs { chunks }
}

fn chunk_with(solid: &[(usize, usize, usize, u32)]) -> ChunkData {
    let mut voxels = vec![BlockData { block_type: 0 }; VOLUME];
    for &(x, y, z, t) in solid {
        voxels[x + y * 32 + z * 1024] = BlockData { block_type: t };
    }
    ChunkData { voxels }
}

fn quads_of(refs: &ChunksRefs, dir: usize) -> Vec<PlacedQuad> {
    mesh_quads(refs).into_iter().filter(|q| q.dir == dir).collect()
}

fn ao_of(word: u32) -> u32 {
    (word >> 18) & 0b111
}

#[test]
fn all_air_chunk_has_no_mesh() {
    let refs = neighbourhood(uniform(0), 0);
    assert!(build_chunk_mesh(&refs, Lod::L32).is_none());
    let stored = neighbourhood(chunk_with(&[]), 0);
    assert!(build_chunk_mesh(&stored, Lod::L32).is_none());
}

#[test]
fn all_air_chunk_with_solid_neighbours_has_no_mesh() {
    let refs = neighbourhood(chunk_with(&[]), 3);
    assert!(build_chunk_mesh(&refs, Lod::L32).is_none());
}

#[test]
fn enclosed_solid_chunk_has_no_mesh() {
    let refs = neighbourhood(uniform(1), 1);
    assert!(refs.is_all_voxels_same());
    assert!(build_chunk_mesh(&refs, Lod::L32).is_none());
    let stored = ChunkData { voxels: vec![BlockData { block_type: 1 }; VOLUME] };
    let refs = neighbourhood(stored, 2);
    assert!(!refs.is_all_voxels_same());
    assert!(build_chunk_mesh(&refs, Lod::L32).is_none());
    assert!(mesh_quads(&refs).is_empty());
}

#[test]
fn single_voxel_has_six_unoccluded_faces() {
    let refs = neighbourhood(chunk_with(&[(0, 0, 0, 1)]), 0);
    let mesh = build_chunk_mesh(&refs, Lod::L32).unwrap();
    assert_eq!(mesh.vertices.len(), 24);
    assert_eq!(mesh.indices.len(), 36);
    for &v in mesh.vertices.iter() {
        assert_eq!(ao_of(v), 0);
    }
    let quads = mesh_quads(&refs);
    assert_eq!(quads.len(), 6);
    for dir in 0..6 {
        let q = quads_of(&refs, dir);
        assert_eq!(q.len(), 1);
        assert_eq!((q[0].quad.w, q[0].quad.h), (1, 1));
    }
}

#[test]
fn row_of_two_merges_into_one_quad() {
    let refs = neighbourhood(chunk_with(&[(0, 0, 0, 1), (1, 0, 0, 1)]), 0);
    let up = quads_of(&refs, 1);
    assert_eq!(up.len(), 1);
    assert_eq!(up[0].quad, GreedyQuad { x: 0, y: 0, w: 2, h: 1 });
    assert_eq!(up[0].depth, 0);
    let mesh = build_chunk_mesh(&refs, Lod::L32).unwrap();
    assert_eq!(mesh.vertices.len(), 6 * 4);
}

#[test]
fn different_block_types_do_not_merge() {
    let refs = neighbourhood(chunk_with(&[(0, 0, 0, 1), (1, 0, 0, 2)]), 0);
    let up = quads_of(&refs, 1);
    assert_eq!(up.len(), 2);
    for q in up.iter() {
        assert_eq!((q.quad.w, q.quad.h), (1, 1));
    }
    assert_ne!(up[0].key, up[1].key);
}

#[test]
fn building_twice_gives_identical_output() {
    let refs = neighbourhood(
        chunk_with(&[(0, 0, 0, 1), (1, 0, 0, 2), (5, 6, 7, 3), (5, 7, 7, 3), (31, 31, 31, 4)]),
        0,
    );
    let a = build_chunk_mesh(&refs, Lod::L32).unwrap();
    let b = build_chunk_mesh(&refs, Lod::L32).unwrap();
    assert_eq!(a.vertices, b.vertices);
    assert_eq!(a.indices, b.indices);
}

#[test]
fn seam_against_solid_neighbour_has_no_face() {
    let mut refs = neighbourhood(chunk_with(&[(31, 0, 0, 1)]), 0);
    refs.chunks[14] = uniform(1);
    let right: Vec<PlacedQuad> =
        quads_of(&refs, 3).into_iter().filter(|q| q.depth == 31).collect();
    assert!(right.is_empty());
    let mut refs = neighbourhood(chunk_with(&[(31, 0, 0, 1)]), 0);
    refs.chunks[14] = uniform(0);
    let right = quads_of(&refs, 3);
    assert_eq!(right.len(), 1);
    assert_eq!(right[0].depth, 31);
}

#[test]
fn neighbour_voxels_are_read_across_seams() {
    let mut refs = neighbourhood(chunk_with(&[]), 0);
    refs.chunks[12] = uniform(7);
    assert_eq!(refs.get_block(VoxelPos { x: -1, y: 0, z: 0 }).block_type, 7);
    assert_eq!(refs.get_block(VoxelPos { x: 0, y: 0, z: 0 }).block_type, 0);
    assert_eq!(refs.get_block(VoxelPos { x: 32, y: 0, z: 0 }).block_type, 0);
}

#[test]
fn fully_occluded_face_has_full_ao() {
    let mut solid = vec![(5, 5, 5, 2)];
    for x in 4..7 {
        for z in 4..7 {
            if (x, z) != (5, 5) {
                solid.push((x, 6, z, 1));
            }
        }
    }
    let refs = neighbourhood(chunk_with(&solid), 0);
    let key = face_key_at(&refs, 1, VoxelPos { x: 5, y: 5, z: 5 });
    assert_eq!(key, 0x1ef + 2 * 512);
    let mut vertices = Vec::new();
    let q = GreedyQuad { x: 5, y: 5, w: 1, h: 1 };
    q.append_vertices(&mut vertices, FaceDir::Up, 5, &Lod::L32, key & 0x1ff, key >> 9);
    assert_eq!(vertices.len(), 4);
    for &v in vertices.iter() {
        assert_eq!(ao_of(v), 3);
    }
}

#[test]
fn ao_pattern_marks_solid_samples() {
    let refs = neighbourhood(chunk_with(&[(5, 5, 5, 1), (4, 6, 4, 1)]), 0);
    assert_eq!(face_key_at(&refs, 1, VoxelPos { x: 5, y: 5, z: 5 }), 1 + 512);
    let refs = neighbourhood(chunk_with(&[(5, 5, 5, 1), (6, 6, 6, 1)]), 0);
    assert_eq!(face_key_at(&refs, 1, VoxelPos { x: 5, y: 5, z: 5 }), 256 + 512);
}

#[test]
fn full_plane_is_one_quad() {
    let quads = greedy_mesh_binary_plane([u32::MAX; 32], 32);
    assert_eq!(quads, vec![GreedyQuad { x: 0, y: 0, w: 32, h: 32 }]);
}

#[test]
fn empty_plane_has_no_quads() {
    assert!(greedy_mesh_binary_plane([0; 32], 32).is_empty());
}

#[test]
fn greedy_widens_only_over_exact_matches() {
    let mut data = [0u32; 32];
    data[0] = 0b11;
    data[1] = 0b01;
    data[2] = 0b0110;
    data[3] = 0b0110;
    let quads = greedy_mesh_binary_plane(data, 32);
    assert_eq!(
        quads,
        vec![
            GreedyQuad { x: 0, y: 0, w: 1, h: 2 },
            GreedyQuad { x: 1, y: 0, w: 1, h: 1 },
            GreedyQuad { x: 2, y: 1, w: 2, h: 2 },
        ]
    );
}

#[test]
fn greedy_stops_widening_at_lod_size() {
    let mut data = [0u32; 32];
    data[0] = 1;
    data[1] = 1;
    let quads = greedy_mesh_binary_plane(data, 1);
    assert_eq!(quads, vec![GreedyQuad { x: 0, y: 0, w: 1, h: 1 }, GreedyQuad { x: 1, y: 0, w: 1, h: 1 }]);
}

#[test]
fn vertex_word_layout() {
    let v = make_vertex_u32(VoxelPos { x: 1, y: 2, z: 3 }, 2, 4, 5);
    assert_eq!(v, 1 + 2 * 64 + 3 * 4096 + 2 * 262144 + 4 * 2097152 + 5 * 33554432);
}

#[test]
fn indices_draw_two_triangles_per_quad() {
    assert_eq!(generate_indices(8), vec![0, 1, 2, 0, 2, 3, 4, 5, 6, 4, 6, 7]);
    assert!(generate_indices(0).is_empty());
}

#[test]
fn up_face_winding_is_reversed() {
    let mut vertices = Vec::new();
    let q = GreedyQuad { x: 0, y: 0, w: 1, h: 1 };
    q.append_vertices(&mut vertices, FaceDir::Up, 0, &Lod::L32, 0, 1);
    let base = (3 << 21) | (1 << 25);
    let v1 = base | 64;
    let v2 = base | 65;
    let v3 = base | 4161;
    let v4 = base | 4160;
    assert_eq!(vertices, vec![v1, v4, v3, v2]);
}

#[test]
fn anisotropic_corners_rotate_the_quad() {
    let mut vertices = vec![9];
    let q = GreedyQuad { x: 0, y: 0, w: 1, h: 1 };
    q.append_vertices(&mut vertices, FaceDir::Down, 0, &Lod::L32, 1, 0);
    let base = 2 << 21;
    let v1 = base | (1 << 18);
    let v2 = base | 1;
    let v3 = base | 4097;
    let v4 = base | 4096;
    assert_eq!(vertices, vec![9, v2, v3, v4, v1]);
}

#[test]
fn lod_scales() {
    assert_eq!(Lod::L32.jump_index(), 1);
    assert_eq!(Lod::L2.jump_index(), 16);
    assert_eq!(Lod::L8.size(), 8);
    assert_eq!(FaceDir::Left.normal_index(), 0);
    assert!(FaceDir::Right.reverse_order());
}

#[test]
fn seam_seen_from_the_neighbouring_chunk() {
    let mut refs = neighbourhood(chunk_with(&[(0, 0, 0, 1)]), 0);
    refs.chunks[12] = uniform(1);
    let left: Vec<PlacedQuad> = quads_of(&refs, 2).into_iter().filter(|q| q.depth == 0).collect();
    assert!(left.is_empty());
    let refs = neighbourhood(chunk_with(&[(0, 0, 0, 1)]), 0);
    assert_eq!(quads_of(&refs, 2).len(), 1);
}

#[test]
fn ao_samples_cross_chunk_seams() {
    let mut refs = neighbourhood(chunk_with(&[(0, 0, 0, 1)]), 0);
    refs.chunks[12] = uniform(1);
    assert_eq!(face_key_at(&refs, 1, VoxelPos { x: 0, y: 0, z: 0 }), 0b110 + 512);
    refs.chunks[3] = uniform(1);
    assert_eq!(face_key_at(&refs, 1, VoxelPos { x: 0, y: 0, z: 0 }), 0b111 + 512);
}

#[test]
fn face_table_keeps_planes_apart() {
    let mut table = FaceTable::new();
    assert_eq!(table.plane(1, 5, 3), [0u32; 32]);
    add_face(&mut table, 1, 5, 3, 2, 4);
    add_face(&mut table, 1, 5, 3, 2, 6);
    add_face(&mut table, 4, 5, 3, 0, 0);
    let mut expected = [0u32; 32];
    expected[2] = (1 << 4) | (1 << 6);
    assert_eq!(table.plane(1, 5, 3), expected);
    assert_eq!(table.plane(1, 6, 3), [0u32; 32]);
    let mut rows = [0u32; 32];
    rows[31] = 9;
    table.set_plane(0, 1, 2, rows);
    assert_eq!(table.plane(0, 1, 2), rows);
    let mut groups = table.into_groups();
    groups.sort_by_key(|g| (g.dir, g.key, g.depth));
    assert_eq!(groups.len(), 3);
    assert_eq!((groups[0].dir, groups[0].key, groups[0].depth), (0, 1, 2));
    assert_eq!(groups[0].rows, rows);
    assert_eq!(groups[1].rows, expected);
    assert_eq!((groups[2].dir, groups[2].rows[0]), (4, 1));
}

#[test]
fn stacked_bits_widen_into_one_quad() {
    let mut data = [0u32; 32];
    data[0] = 1;
    data[1] = 1;
    assert_eq!(greedy_mesh_binary_plane(data, 32), vec![GreedyQuad { x: 0, y: 0, w: 2, h: 1 }]);
}

#[test]
fn gap_splits_a_row_into_runs() {
    let mut data = [0u32; 32];
    data[0] = 0b101;
    assert_eq!(
        greedy_mesh_binary_plane(data, 32),
        vec![GreedyQuad { x: 0, y: 0, w: 1, h: 1 }, GreedyQuad { x: 0, y: 2, w: 1, h: 1 }]
    );
}

#[test]
fn merged_bits_are_not_reused() {
    let mut data = [0u32; 32];
    data[0] = 0b01;
    data[1] = 0b11;
    assert_eq!(
        greedy_mesh_binary_plane(data, 32),
        vec![GreedyQuad { x: 0, y: 0, w: 2, h: 1 }, GreedyQuad { x: 1, y: 1, w: 1, h: 1 }]
    );
}

#[test]
fn quads_come_in_canonical_plane_order() {
    let refs = neighbourhood(chunk_with(&[(0, 0, 0, 2), (3, 0, 0, 1), (7, 4, 9, 1)]), 0);
    let quads = mesh_quads(&refs);
    for i in 1..quads.len() {
        let a = &quads[i - 1];
        let b = &quads[i];
        assert!((a.dir, a.key, a.depth) <= (b.dir, b.key, b.depth));
    }
}
