use voxer::renderer::gpu::chunk_entry::CHUNK_DIM;
use voxer::renderer::gpu::chunk_session_mesh_data::{
    chunk_mesh_data, transparent_layer, VoxelBlock, VoxelChunkAdjBlocks, VoxelChunkBlocks,
    VoxelChunkMeshMeta,
};

const AIR: VoxelBlock = VoxelBlock { value: 0 };
const STONE: VoxelBlock = VoxelBlock { value: 3 };

fn air_chunk() -> VoxelChunkBlocks {
    [[[AIR; CHUNK_DIM]; CHUNK_DIM]; CHUNK_DIM]
}

fn stone_chunk() -> VoxelChunkBlocks {
    [[[STONE; CHUNK_DIM]; CHUNK_DIM]; CHUNK_DIM]
}

fn air_adj() -> VoxelChunkAdjBlocks {
    [[[AIR; CHUNK_DIM]; CHUNK_DIM]; 6]
}

fn counts(m: &VoxelChunkMeshMeta) -> ([u16; 3], [u16; 3]) {
    (
        [m.positive_faces.x, m.positive_faces.y, m.positive_faces.z],
        [m.negative_faces.x, m.negative_faces.y, m.negative_faces.z],
    )
}

#[test]
fn air_is_transparent_and_stone_is_not() {
    assert!(AIR.is_transparent());
    assert!(!STONE.is_transparent());
    assert!(!VoxelBlock { value: 1 }.is_transparent());
}

#[test]
fn transparent_layer_is_all_air() {
    let layer = transparent_layer();
    for row in layer.iter() {
        for b in row.iter() {
            assert!(b.is_transparent());
        }
    }
}

#[test]
fn empty_chunk_has_no_faces() {
    let m = chunk_mesh_data(&air_chunk(), &air_adj());
    assert_eq!(counts(&m), ([0, 0, 0], [0, 0, 0]));
}

#[test]
fn corner_block_shows_three_positive_faces() {
    let mut blocks = air_chunk();
    blocks[0][0][0] = STONE;
    let m = chunk_mesh_data(&blocks, &air_adj());
    assert_eq!(counts(&m), ([1, 1, 1], [0, 0, 0]));
}

#[test]
fn inner_block_shows_six_faces() {
    let mut blocks = air_chunk();
    blocks[5][5][5] = STONE;
    let m = chunk_mesh_data(&blocks, &air_adj());
    assert_eq!(counts(&m), ([1, 1, 1], [1, 1, 1]));
}

#[test]
fn solid_chunk_shows_its_positive_borders() {
    let m = chunk_mesh_data(&stone_chunk(), &air_adj());
    assert_eq!(counts(&m), ([256, 256, 256], [0, 0, 0]));
}

#[test]
fn solid_chunk_with_solid_neighbours_has_no_faces() {
    let adj: VoxelChunkAdjBlocks = [[[STONE; CHUNK_DIM]; CHUNK_DIM]; 6];
    let m = chunk_mesh_data(&stone_chunk(), &adj);
    assert_eq!(counts(&m), ([0, 0, 0], [0, 0, 0]));
}

#[test]
fn solid_neighbour_layers_face_an_empty_chunk() {
    let mut adj = air_adj();
    adj[0] = [[STONE; CHUNK_DIM]; CHUNK_DIM];
    adj[1] = [[STONE; CHUNK_DIM]; CHUNK_DIM];
    let m = chunk_mesh_data(&air_chunk(), &adj);
    assert_eq!(counts(&m), ([0, 0, 0], [256, 256, 0]));
}

#[test]
fn negative_neighbour_layers_are_not_read() {
    let mut adj = air_adj();
    adj[3] = [[STONE; CHUNK_DIM]; CHUNK_DIM];
    adj[4] = [[STONE; CHUNK_DIM]; CHUNK_DIM];
    adj[5] = [[STONE; CHUNK_DIM]; CHUNK_DIM];
    let mut blocks = air_chunk();
    blocks[0][0][0] = STONE;
    let m = chunk_mesh_data(&blocks, &adj);
    assert_eq!(counts(&m), ([1, 1, 1], [0, 0, 0]));
}

#[test]
fn border_block_against_a_solid_neighbour() {
    let mut blocks = air_chunk();
    blocks[15][3][7] = STONE;
    let mut adj = air_adj();
    adj[0][3][7] = STONE;
    let m = chunk_mesh_data(&blocks, &adj);
    assert_eq!(counts(&m), ([0, 1, 1], [1, 1, 1]));
}

#[test]
fn neighbour_layers_are_indexed_by_the_other_two_axes() {
    // the +z layer is indexed by (x, y), the +y layer by (x, z)
    let mut blocks = air_chunk();
    blocks[2][9][15] = STONE;
    blocks[4][15][11] = STONE;
    let mut adj = air_adj();
    adj[2][2][9] = STONE;
    adj[1][4][11] = STONE;
    let m = chunk_mesh_data(&blocks, &adj);
    assert_eq!(counts(&m), ([2, 1, 1], [2, 2, 2]));
}

#[test]
fn checkerboard_counts_every_face() {
    let mut blocks = air_chunk();
    for x in 0..CHUNK_DIM {
        for y in 0..CHUNK_DIM {
            for z in 0..CHUNK_DIM {
                if (x + y + z) % 2 == 0 {
                    blocks[x][y][z] = STONE;
                }
            }
        }
    }
    let m = chunk_mesh_data(&blocks, &air_adj());
    // along each axis every solid cell faces air ahead, every air cell faces
    // a solid cell ahead except at the border
    assert_eq!(counts(&m), ([2048, 2048, 2048], [1920, 1920, 1920]));
}
