use crate::math::U16Vec3;
use crate::renderer::gpu::chunk_entry::CHUNK_DIM;
use vstd::prelude::*;

verus! {

/// A voxel block. The value 0 is air: transparent, and never meshed.
#[derive(Clone, Copy, Debug, PartialEq, Eq, Structural)]
pub struct VoxelBlock {
    pub value: u16,
}

impl VoxelBlock {
    /// Whether the block hides the faces behind it.
    pub open spec fn solid(self) -> bool {
        self.value != 0
    }

    pub fn is_transparent(&self) -> (r: bool)
        ensures
            r == !self.solid(),
    {
        self.value == 0
    }
}

/// One layer of a chunk's blocks.
pub type VoxelLayer = [[VoxelBlock; CHUNK_DIM]; CHUNK_DIM];

/// A chunk's blocks, indexed by x, y and z.
pub type VoxelChunkBlocks = [VoxelLayer; CHUNK_DIM];

/// The layers of the six neighbouring chunks that touch a chunk: +x, +y, +z,
/// then -x, -y, -z. The +x layer is indexed by (y, z), the +y layer by (x, z)
/// and the +z layer by (x, y).
pub type VoxelChunkAdjBlocks = [VoxelLayer; 6];

/// A layer of air.
pub fn transparent_layer() -> (r: VoxelLayer)
    ensures
        forall|i: int, j: int| 0 <= i < CHUNK_DIM && 0 <= j < CHUNK_DIM ==> r[i][j].value == 0,
{
    [[VoxelBlock { value: 0 }; CHUNK_DIM]; CHUNK_DIM]
}

// ---------------------------------------------------------------------------
// Counting
// ---------------------------------------------------------------------------
/// Bit `k` of `w` (the lowest bit is bit 0).
pub open spec fn bit(w: u16, k: u16) -> bool {
    (w >> k) & 1u16 == 1u16
}

/// How many `k` in `0..n` satisfy `p`.
pub open spec fn count_below(p: spec_fn(int) -> bool, n: int) -> nat
    decreases n,
{
    if n <= 0 {
        0
    } else {
        count_below(p, n - 1) + if p(n - 1) {
            1nat
        } else {
            0nat
        }
    }
}

/// The row `j` of a predicate over pairs.
pub open spec fn row_of(p: spec_fn(int, int) -> bool, j: int) -> spec_fn(int) -> bool {
    |k: int| p(j, k)
}

/// How many pairs `(j, k)` with `j < n` and `k < CHUNK_DIM` satisfy `p`.
pub open spec fn count_pairs(p: spec_fn(int, int) -> bool, n: int) -> nat
    decreases n,
{
    if n <= 0 {
        0
    } else {
        count_pairs(p, n - 1) + count_below(row_of(p, n - 1), CHUNK_DIM as int)
    }
}

/// The slice `i` of a predicate over cells.
pub open spec fn slice_of(p: spec_fn(int, int, int) -> bool, i: int) -> spec_fn(int, int) -> bool {
    |j: int, k: int| p(i, j, k)
}

/// How many cells `(i, j, k)` with `i < n` and `j, k < CHUNK_DIM` satisfy `p`.
pub open spec fn count_cells(p: spec_fn(int, int, int) -> bool, n: int) -> nat
    decreases n,
{
    if n <= 0 {
        0
    } else {
        count_cells(p, n - 1) + count_pairs(slice_of(p, n - 1), CHUNK_DIM as int)
    }
}

/// The bits of `w`, as a predicate over their positions.
pub open spec fn bit_pred(w: u16) -> spec_fn(int) -> bool {
    |k: int| bit(w, k as u16)
}

/// The number of set bits of `w`.
pub open spec fn popcount(w: u16) -> nat {
    count_below(bit_pred(w), 16)
}

/// The bits of a row of words: `(j, k)` holds when bit `k` of word `j` is set.
pub open spec fn word_bits(a: Seq<u16>) -> spec_fn(int, int) -> bool {
    |j: int, k: int| bit(a[j], k as u16)
}

/// Bits set in `a` and clear in `b`, position by position.
pub open spec fn falling(a: Seq<u16>, b: Seq<u16>) -> spec_fn(int, int) -> bool {
    |j: int, k: int| bit(a[j], k as u16) && !bit(b[j], k as u16)
}

/// Bits clear in `a` and set in `b`, position by position.
pub open spec fn rising(a: Seq<u16>, b: Seq<u16>) -> spec_fn(int, int) -> bool {
    |j: int, k: int| !bit(a[j], k as u16) && bit(b[j], k as u16)
}

proof fn lemma_count_below_ext(p: spec_fn(int) -> bool, q: spec_fn(int) -> bool, n: int)
    requires
        forall|k: int| 0 <= k < n ==> #[trigger] p(k) == q(k),
    ensures
        count_below(p, n) == count_below(q, n),
    decreases n,
{
    if n > 0 {
        lemma_count_below_ext(p, q, n - 1);
    }
}

proof fn lemma_count_below_bound(p: spec_fn(int) -> bool, n: int)
    requires
        0 <= n,
    ensures
        count_below(p, n) <= n,
    decreases n,
{
    if n > 0 {
        lemma_count_below_bound(p, n - 1);
    }
}

proof fn lemma_count_pairs_ext(p: spec_fn(int, int) -> bool, q: spec_fn(int, int) -> bool, n: int)
    requires
        forall|j: int, k: int| 0 <= j < n && 0 <= k < CHUNK_DIM ==> #[trigger] p(j, k) == q(j, k),
    ensures
        count_pairs(p, n) == count_pairs(q, n),
    decreases n,
{
    if n > 0 {
        lemma_count_pairs_ext(p, q, n - 1);
        lemma_count_below_ext(row_of(p, n - 1), row_of(q, n - 1), CHUNK_DIM as int);
    }
}

proof fn lemma_count_pairs_bound(p: spec_fn(int, int) -> bool, n: int)
    requires
        0 <= n,
    ensures
        count_pairs(p, n) <= n * CHUNK_DIM,
    decreases n,
{
    if n > 0 {
        lemma_count_pairs_bound(p, n - 1);
        lemma_count_below_bound(row_of(p, n - 1), CHUNK_DIM as int);
    }
}

proof fn lemma_count_cells_ext(
    p: spec_fn(int, int, int) -> bool,
    q: spec_fn(int, int, int) -> bool,
    n: int,
)
    requires
        forall|i: int, j: int, k: int|
            0 <= i < n && 0 <= j < CHUNK_DIM && 0 <= k < CHUNK_DIM ==> #[trigger] p(i, j, k)
                == q(i, j, k),
    ensures
        count_cells(p, n) == count_cells(q, n),
    decreases n,
{
    if n > 0 {
        lemma_count_cells_ext(p, q, n - 1);
        let (ps, qs) = (slice_of(p, n - 1), slice_of(q, n - 1));
        assert forall|j: int, k: int| 0 <= j < CHUNK_DIM && 0 <= k < CHUNK_DIM implies #[trigger] ps(j, k)
            == qs(j, k) by {
            assert(p(n - 1, j, k) == q(n - 1, j, k));
        }
        lemma_count_pairs_ext(ps, qs, CHUNK_DIM as int);
    }
}

proof fn lemma_count_cells_bound(p: spec_fn(int, int, int) -> bool, n: int)
    requires
        0 <= n,
    ensures
        count_cells(p, n) <= n * 256,
    decreases n,
{
    if n > 0 {
        lemma_count_cells_bound(p, n - 1);
        lemma_count_pairs_bound(slice_of(p, n - 1), CHUNK_DIM as int);
    }
}

// ---------------------------------------------------------------------------
// Bits
// ---------------------------------------------------------------------------
proof fn lemma_bit_set(b: u16, s: u16, i: u16, k: u16)
    by (bit_vector)
    requires
        s <= 1,
        i < 16,
        k < 16,
        !bit(b, i),
    ensures
        bit(b | (s << i), k) == if k == i {
            s == 1
        } else {
            bit(b, k)
        },
{
}

proof fn lemma_bit_zero(k: u16)
    by (bit_vector)
    requires
        k < 16,
    ensures
        !bit(0u16, k),
{
}

proof fn lemma_bit_faces(a: u16, b: u16, k: u16)
    by (bit_vector)
    requires
        k < 16,
    ensures
        bit((a ^ b) & (a & !b), k) == (bit(a, k) && !bit(b, k)),
        bit((a ^ b) & !(a & !b), k) == (!bit(a, k) && bit(b, k)),
{
}

proof fn lemma_bit_shift_in(adj: u16, a: u16, i: u16, k: u16)
    by (bit_vector)
    requires
        i < 16,
        k < 16,
    ensures
        bit((((adj >> i) & 1u16) << 15u16) | (a >> 1u16), k) == if k == 15 {
            bit(adj, i)
        } else {
            bit(a, (k + 1) as u16)
        },
{
}

/// The number of set bits of `w`.
fn pop_count(w: u16) -> (r: u32)
    ensures
        r == popcount(w),
        r <= 16,
{
    let mut c: u32 = 0;
    let mut k: u16 = 0;
    while k < 16
        invariant
            k <= 16,
            c == count_below(bit_pred(w), k as int),
            c <= k,
        decreases 16 - k,
    {
        if (w >> k) & 1 == 1 {
            c += 1;
        }
        k += 1;
    }
    c
}

// ---------------------------------------------------------------------------
// Rows of words
// ---------------------------------------------------------------------------
/// The number of set bits over a row of words.
fn array_pop_count_u16(a: &[u16; CHUNK_DIM]) -> (r: u32)
    ensures
        r == count_pairs(word_bits(a@), CHUNK_DIM as int),
        r <= 256,
{
    let mut c: u32 = 0;
    for j in 0..CHUNK_DIM
        invariant
            c == count_pairs(word_bits(a@), j as int),
            c <= j * 16,
    {
        let n = pop_count(a[j]);
        proof {
            lemma_count_below_ext(row_of(word_bits(a@), j as int), bit_pred(a[j as int]), 16);
        }
        c += n;
    }
    c
}

fn array_xor(a: &[u16; CHUNK_DIM], b: &[u16; CHUNK_DIM]) -> (r: [u16; CHUNK_DIM])
    ensures
        forall|j: int| 0 <= j < CHUNK_DIM ==> r[j] == a[j] ^ b[j],
{
    let mut r = [0u16; CHUNK_DIM];
    for j in 0..CHUNK_DIM
        invariant
            forall|i: int| 0 <= i < j ==> r[i] == a[i] ^ b[i],
    {
        r[j] = a[j] ^ b[j];
    }
    r
}

fn array_and(a: &[u16; CHUNK_DIM], b: &[u16; CHUNK_DIM]) -> (r: [u16; CHUNK_DIM])
    ensures
        forall|j: int| 0 <= j < CHUNK_DIM ==> r[j] == a[j] & b[j],
{
    let mut r = [0u16; CHUNK_DIM];
    for j in 0..CHUNK_DIM
        invariant
            forall|i: int| 0 <= i < j ==> r[i] == a[i] & b[i],
    {
        r[j] = a[j] & b[j];
    }
    r
}

fn array_not(a: &[u16; CHUNK_DIM]) -> (r: [u16; CHUNK_DIM])
    ensures
        forall|j: int| 0 <= j < CHUNK_DIM ==> r[j] == !a[j],
{
    let mut r = [0u16; CHUNK_DIM];
    for j in 0..CHUNK_DIM
        invariant
            forall|i: int| 0 <= i < j ==> r[i] == !a[i],
    {
        r[j] = !a[j];
    }
    r
}

/// Compares two rows of cells, `b` being the neighbours of `a` one step
/// further along an axis. Returns how many cells see a face towards the
/// negative side (air in `a`, solid in `b`) and towards the positive side
/// (solid in `a`, air in `b`).
fn bi_direction_face_counts(a: &[u16; CHUNK_DIM], b: &[u16; CHUNK_DIM]) -> (r: (u32, u32))
    ensures
        r.0 == count_pairs(rising(a@, b@), CHUNK_DIM as int),
        r.1 == count_pairs(falling(a@, b@), CHUNK_DIM as int),
        r.0 <= 256,
        r.1 <= 256,
{
    let faces = array_xor(a, b);
    let not_b = array_not(b);
    let dirs = array_and(a, &not_b);
    let not_dirs = array_not(&dirs);
    let positive_faces = array_and(&faces, &dirs);
    let negative_faces = array_and(&faces, &not_dirs);
    proof {
        assert forall|j: int, k: int| 0 <= j < CHUNK_DIM && 0 <= k < CHUNK_DIM implies #[trigger] word_bits(
            negative_faces@,
        )(j, k) == rising(a@, b@)(j, k) by {
            lemma_bit_faces(a[j], b[j], k as u16);
        }
        assert forall|j: int, k: int| 0 <= j < CHUNK_DIM && 0 <= k < CHUNK_DIM implies #[trigger] word_bits(
            positive_faces@,
        )(j, k) == falling(a@, b@)(j, k) by {
            lemma_bit_faces(a[j], b[j], k as u16);
        }
        lemma_count_pairs_ext(word_bits(negative_faces@), rising(a@, b@), CHUNK_DIM as int);
        lemma_count_pairs_ext(word_bits(positive_faces@), falling(a@, b@), CHUNK_DIM as int);
    }
    (array_pop_count_u16(&negative_faces), array_pop_count_u16(&positive_faces))
}

// ---------------------------------------------------------------------------
// Packing
// ---------------------------------------------------------------------------
/// Packs a row of blocks into a word: bit `k` is set when block `k` is solid.
fn pack_row(row: &[VoxelBlock; CHUNK_DIM]) -> (bits: u16)
    ensures
        forall|k: int| 0 <= k < CHUNK_DIM ==> #[trigger] bit(bits, k as u16) == row[k].solid(),
{
    let mut bits = 0u16;
    proof {
        assert forall|k: int| 0 <= k < CHUNK_DIM implies !#[trigger] bit(bits, k as u16) by {
            lemma_bit_zero(k as u16);
        }
    }
    for i in 0..CHUNK_DIM
        invariant
            forall|k: int| 0 <= k < i ==> #[trigger] bit(bits, k as u16) == row[k].solid(),
            forall|k: int| i <= k < CHUNK_DIM ==> !#[trigger] bit(bits, k as u16),
    {
        let s: u16 = if row[i].is_transparent() {
            0
        } else {
            1
        };
        let ghost old_bits = bits;
        bits = bits | (s << (i as u16));
        proof {
            assert forall|k: int| 0 <= k < CHUNK_DIM implies #[trigger] bit(bits, k as u16) == if k
                == i {
                s == 1
            } else {
                bit(old_bits, k as u16)
            } by {
                lemma_bit_set(old_bits, s, i as u16, k as u16);
            }
        }
    }
    bits
}

/// Packs layers of blocks into words, one per row: word `x * CHUNK_DIM + y`
/// holds the row `(x, y)`, bit `z` set when the block `(x, y, z)` is solid.
fn pack_solid_blocks(blocks: &[VoxelLayer]) -> (bytes: Vec<u16>)
    requires
        blocks.len() * 16 <= usize::MAX,
    ensures
        bytes.len() == blocks.len() * 16,
        forall|x: int, y: int, z: int|
            0 <= x < blocks.len() && 0 <= y < CHUNK_DIM && 0 <= z < CHUNK_DIM ==> #[trigger] bit(
                bytes[x * 16 + y],
                z as u16,
            ) == blocks[x][y][z].solid(),
{
    let mut bytes: Vec<u16> = Vec::new();
    for x in 0..blocks.len()
        invariant
            bytes.len() == x * 16,
            blocks.len() * 16 <= usize::MAX,
            forall|x1: int, y: int, z: int|
                0 <= x1 < x && 0 <= y < CHUNK_DIM && 0 <= z < CHUNK_DIM ==> #[trigger] bit(
                    bytes[x1 * 16 + y],
                    z as u16,
                ) == blocks[x1][y][z].solid(),
    {
        for y in 0..CHUNK_DIM
            invariant
                bytes.len() == x * 16 + y,
                x < blocks.len(),
                forall|x1: int, y1: int, z: int|
                    0 <= x1 < x && 0 <= y1 < CHUNK_DIM && 0 <= z < CHUNK_DIM ==> #[trigger] bit(
                        bytes[x1 * 16 + y1],
                        z as u16,
                    ) == blocks[x1][y1][z].solid(),
                forall|y1: int, z: int|
                    0 <= y1 < y && 0 <= z < CHUNK_DIM ==> #[trigger] bit(
                        bytes[x * 16 + y1],
                        z as u16,
                    ) == blocks[x as int][y1][z].solid(),
        {
            let w = pack_row(&blocks[x][y]);
            bytes.push(w);
        }
    }
    bytes
}

// ---------------------------------------------------------------------------
// Faces
// ---------------------------------------------------------------------------
/// Cells `(x, y, z)` that are solid while their neighbour `(x + dx, y + dy,
/// z + dz)` is not: each holds a face looking towards the positive side.
pub open spec fn faces_towards(solid: spec_fn(int, int, int) -> bool, dx: int, dy: int, dz: int) -> spec_fn(
    int,
    int,
    int,
) -> bool {
    |x: int, y: int, z: int| solid(x, y, z) && !solid(x + dx, y + dy, z + dz)
}

/// Cells `(x, y, z)` that are air while their neighbour `(x + dx, y + dy,
/// z + dz)` is solid: the neighbour holds a face looking towards the negative
/// side.
pub open spec fn faces_from(solid: spec_fn(int, int, int) -> bool, dx: int, dy: int, dz: int) -> spec_fn(
    int,
    int,
    int,
) -> bool {
    |x: int, y: int, z: int| !solid(x, y, z) && solid(x + dx, y + dy, z + dz)
}

/// The face counts of a chunk, per axis, towards the positive and the
/// negative side.
#[derive(Debug, Clone, Copy)]
pub struct VoxelChunkMeshMeta {
    pub positive_faces: U16Vec3,
    pub negative_faces: U16Vec3,
}

impl Default for VoxelChunkMeshMeta {
    fn default() -> (r: Self)
        ensures
            r.positive_faces == (U16Vec3 { x: 0, y: 0, z: 0 }),
            r.negative_faces == (U16Vec3 { x: 0, y: 0, z: 0 }),
    {
        VoxelChunkMeshMeta {
            positive_faces: U16Vec3 { x: 0, y: 0, z: 0 },
            negative_faces: U16Vec3 { x: 0, y: 0, z: 0 },
        }
    }
}

/// The counts of `m` are those of the cells `x, y, z < CHUNK_DIM` of the
/// chunk whose solid cells `solid` gives, each compared with its neighbour one
/// step further along the axis (the neighbour may lie in the next chunk).
pub open spec fn counts_faces_of(m: VoxelChunkMeshMeta, solid: spec_fn(int, int, int) -> bool) -> bool {
    &&& m.positive_faces.x == count_cells(faces_towards(solid, 1, 0, 0), 16)
    &&& m.positive_faces.y == count_cells(faces_towards(solid, 0, 1, 0), 16)
    &&& m.positive_faces.z == count_cells(faces_towards(solid, 0, 0, 1), 16)
    &&& m.negative_faces.x == count_cells(faces_from(solid, 1, 0, 0), 16)
    &&& m.negative_faces.y == count_cells(faces_from(solid, 0, 1, 0), 16)
    &&& m.negative_faces.z == count_cells(faces_from(solid, 0, 0, 1), 16)
}

/// Solid cells as the packed words show them: `packed` holds the chunk's rows
/// and `adj` the rows of the +x, +y and +z layers of its neighbours, which
/// stand for the cells at coordinate `CHUNK_DIM`.
pub open spec fn packed_solid(packed: Seq<u16>, adj: Seq<u16>) -> spec_fn(int, int, int) -> bool {
    |x: int, y: int, z: int|
        if x == 16 {
            bit(adj[y], z as u16)
        } else if y == 16 {
            bit(adj[16 + x], z as u16)
        } else if z == 16 {
            bit(adj[32 + x], y as u16)
        } else {
            bit(packed[x * 16 + y], z as u16)
        }
}

/// Solid cells of a chunk and of the +x, +y and +z layers of its neighbours,
/// which stand for the cells at coordinate `CHUNK_DIM`.
pub open spec fn block_solid(blocks: VoxelChunkBlocks, adj: VoxelChunkAdjBlocks) -> spec_fn(
    int,
    int,
    int,
) -> bool {
    |x: int, y: int, z: int|
        if x == 16 {
            adj[0][y][z].solid()
        } else if y == 16 {
            adj[1][x][z].solid()
        } else if z == 16 {
            adj[2][x][y].solid()
        } else {
            blocks[x][y][z].solid()
        }
}

/// A slice of cells compared with the slice of their neighbours: counts of
/// the slice `i` of the face predicates, given the rows of both.
proof fn lemma_slice_faces(
    solid: spec_fn(int, int, int) -> bool,
    i: int,
    dx: int,
    dy: int,
    dz: int,
    a: Seq<u16>,
    b: Seq<u16>,
)
    requires
        forall|j: int, k: int|
            0 <= j < CHUNK_DIM && 0 <= k < CHUNK_DIM ==> #[trigger] bit(a[j], k as u16) == solid(
                i,
                j,
                k,
            ),
        forall|j: int, k: int|
            0 <= j < CHUNK_DIM && 0 <= k < CHUNK_DIM ==> #[trigger] bit(b[j], k as u16) == solid(
                i + dx,
                j + dy,
                k + dz,
            ),
    ensures
        count_pairs(falling(a, b), CHUNK_DIM as int) == count_pairs(
            slice_of(faces_towards(solid, dx, dy, dz), i),
            CHUNK_DIM as int,
        ),
        count_pairs(rising(a, b), CHUNK_DIM as int) == count_pairs(
            slice_of(faces_from(solid, dx, dy, dz), i),
            CHUNK_DIM as int,
        ),
{
    assert forall|j: int, k: int| 0 <= j < CHUNK_DIM && 0 <= k < CHUNK_DIM implies #[trigger] falling(
        a,
        b,
    )(j, k) == slice_of(faces_towards(solid, dx, dy, dz), i)(j, k) by {
        assert(bit(a[j], k as u16) == solid(i, j, k));
        assert(bit(b[j], k as u16) == solid(i + dx, j + dy, k + dz));
    }
    assert forall|j: int, k: int| 0 <= j < CHUNK_DIM && 0 <= k < CHUNK_DIM implies #[trigger] rising(
        a,
        b,
    )(j, k) == slice_of(faces_from(solid, dx, dy, dz), i)(j, k) by {
        assert(bit(a[j], k as u16) == solid(i, j, k));
        assert(bit(b[j], k as u16) == solid(i + dx, j + dy, k + dz));
    }
    lemma_count_pairs_ext(
        falling(a, b),
        slice_of(faces_towards(solid, dx, dy, dz), i),
        CHUNK_DIM as int,
    );
    lemma_count_pairs_ext(
        rising(a, b),
        slice_of(faces_from(solid, dx, dy, dz), i),
        CHUNK_DIM as int,
    );
}

// ---------------------------------------------------------------------------
// Counting the faces of a chunk
// ---------------------------------------------------------------------------
/// Bit `i` of `w`, as the lowest bit of a word.
fn bit_at(w: u16, i: usize) -> (r: u16)
    requires
        i < 16,
    ensures
        r == (w >> (i as u16)) & 1u16,
{
    (w >> (i as u16)) & 1
}

/// The words `start..start + CHUNK_DIM` of `packed`.
fn row_at(packed: &Vec<u16>, start: usize) -> (row: [u16; CHUNK_DIM])
    requires
        start + CHUNK_DIM <= packed.len(),
    ensures
        forall|j: int| 0 <= j < CHUNK_DIM ==> row[j] == packed[start + j],
{
    let mut row = [0u16; CHUNK_DIM];
    for j in 0..CHUNK_DIM
        invariant
            start + CHUNK_DIM <= packed.len(),
            forall|i: int| 0 <= i < j ==> row[i] == packed[start + i],
    {
        row[j] = packed[start + j];
    }
    row
}

/// The rows of the slice `x` and of the slice `x + 1`.
fn prep_adj_x(
    packed_blocks: &Vec<u16>,
    xa: &mut [u16; CHUNK_DIM],
    xb: &mut [u16; CHUNK_DIM],
    x: usize,
)
    requires
        packed_blocks.len() == 256,
        x + 1 < CHUNK_DIM,
    ensures
        forall|j: int| 0 <= j < CHUNK_DIM ==> final(xa)[j] == packed_blocks[x * 16 + j],
        forall|j: int| 0 <= j < CHUNK_DIM ==> final(xb)[j] == packed_blocks[(x + 1) * 16 + j],
{
    *xa = row_at(packed_blocks, x * CHUNK_DIM);
    *xb = row_at(packed_blocks, (x + 1) * CHUNK_DIM);
}

/// The rows of the slice `x` and the same rows one step further along y; the
/// last one is `packed_adjacent_blocks`, from the +y neighbour.
fn prep_adj_y(
    packed_blocks: &Vec<u16>,
    packed_adjacent_blocks: u16,
    ya: &mut [u16; CHUNK_DIM],
    yb: &mut [u16; CHUNK_DIM],
    x: usize,
)
    requires
        packed_blocks.len() == 256,
        x < CHUNK_DIM,
    ensures
        forall|j: int| 0 <= j < CHUNK_DIM ==> final(ya)[j] == packed_blocks[x * 16 + j],
        forall|j: int| 0 <= j < CHUNK_DIM - 1 ==> final(yb)[j] == packed_blocks[x * 16 + j + 1],
        final(yb)[CHUNK_DIM - 1] == packed_adjacent_blocks,
{
    for j in 0..CHUNK_DIM - 1
        invariant
            packed_blocks.len() == 256,
            x < CHUNK_DIM,
            forall|i: int| 0 <= i < j ==> ya[i] == packed_blocks[x * 16 + i],
            forall|i: int| 0 <= i < j ==> yb[i] == packed_blocks[x * 16 + i + 1],
    {
        ya[j] = packed_blocks[(x * CHUNK_DIM) + j];
        yb[j] = packed_blocks[(x * CHUNK_DIM) + j + 1];
    }
    ya[CHUNK_DIM - 1] = packed_blocks[(x * CHUNK_DIM) + (CHUNK_DIM - 1)];
    yb[CHUNK_DIM - 1] = packed_adjacent_blocks;
}

/// The rows `xa` shifted one step along z; the last bit of row `j` is bit `j`
/// of `packed_adjacent_blocks`, from the +z neighbour.
fn prep_adj_z(packed_adjacent_blocks: u16, xa: &[u16; CHUNK_DIM], zb: &mut [u16; CHUNK_DIM])
    ensures
        forall|j: int, k: int|
            0 <= j < CHUNK_DIM && 0 <= k < CHUNK_DIM ==> #[trigger] bit(final(zb)[j], k as u16)
                == if k == 15 {
                bit(packed_adjacent_blocks, j as u16)
            } else {
                bit(xa[j], (k + 1) as u16)
            },
{
    for i in 0..CHUNK_DIM
        invariant
            forall|j: int, k: int|
                0 <= j < i && 0 <= k < CHUNK_DIM ==> #[trigger] bit(zb[j], k as u16) == if k == 15 {
                    bit(packed_adjacent_blocks, j as u16)
                } else {
                    bit(xa[j], (k + 1) as u16)
                },
    {
        zb[i] = bit_at(packed_adjacent_blocks, i) << 15u16 | (xa[i] >> 1u16);
        proof {
            assert forall|k: int| 0 <= k < CHUNK_DIM implies #[trigger] bit(zb[i as int], k as u16)
                == if k == 15 {
                bit(packed_adjacent_blocks, i as u16)
            } else {
                bit(xa[i as int], (k + 1) as u16)
            } by {
                lemma_bit_shift_in(packed_adjacent_blocks, xa[i as int], i as u16, k as u16);
            }
        }
    }
}

/// The rows `a` are the slice `i` of the packed cells.
proof fn lemma_rows_of_slice(packed: Seq<u16>, adj: Seq<u16>, i: int, a: Seq<u16>)
    requires
        packed.len() == 256,
        0 <= i < CHUNK_DIM,
        forall|j: int| 0 <= j < CHUNK_DIM ==> a[j] == packed[i * 16 + j],
    ensures
        forall|j: int, k: int|
            0 <= j < CHUNK_DIM && 0 <= k < CHUNK_DIM ==> #[trigger] bit(a[j], k as u16)
                == packed_solid(packed, adj)(i, j, k),
{
    assert forall|j: int, k: int| 0 <= j < CHUNK_DIM && 0 <= k < CHUNK_DIM implies #[trigger] bit(
        a[j],
        k as u16,
    ) == packed_solid(packed, adj)(i, j, k) by {
        assert(a[j] == packed[i * 16 + j]);
    }
}

/// Adds the faces of slice `i` along each axis: `(xa, xb)`, `(ya, yb)` and
/// `(xa, zb)` are the rows of the slice and of its neighbours.
proof fn lemma_slice_counts(
    packed: Seq<u16>,
    adj: Seq<u16>,
    i: int,
    xa: Seq<u16>,
    xb: Seq<u16>,
    ya: Seq<u16>,
    yb: Seq<u16>,
    zb: Seq<u16>,
)
    requires
        packed.len() == 256,
        adj.len() == 48,
        0 <= i < CHUNK_DIM,
        forall|j: int| 0 <= j < CHUNK_DIM ==> xa[j] == packed[i * 16 + j],
        forall|j: int| 0 <= j < CHUNK_DIM ==> ya[j] == packed[i * 16 + j],
        forall|j: int, k: int|
            0 <= j < CHUNK_DIM && 0 <= k < CHUNK_DIM ==> #[trigger] bit(xb[j], k as u16)
                == packed_solid(packed, adj)(i + 1, j, k),
        forall|j: int| 0 <= j < CHUNK_DIM - 1 ==> yb[j] == packed[i * 16 + j + 1],
        yb[CHUNK_DIM - 1] == adj[16 + i],
        forall|j: int, k: int|
            0 <= j < CHUNK_DIM && 0 <= k < CHUNK_DIM ==> #[trigger] bit(zb[j], k as u16) == if k
                == 15 {
                bit(adj[32 + i], j as u16)
            } else {
                bit(xa[j], (k + 1) as u16)
            },
    ensures
        ({
            let solid = packed_solid(packed, adj);
            &&& count_pairs(falling(xa, xb), CHUNK_DIM as int) == count_pairs(
                slice_of(faces_towards(solid, 1, 0, 0), i),
                CHUNK_DIM as int,
            )
            &&& count_pairs(rising(xa, xb), CHUNK_DIM as int) == count_pairs(
                slice_of(faces_from(solid, 1, 0, 0), i),
                CHUNK_DIM as int,
            )
            &&& count_pairs(falling(ya, yb), CHUNK_DIM as int) == count_pairs(
                slice_of(faces_towards(solid, 0, 1, 0), i),
                CHUNK_DIM as int,
            )
            &&& count_pairs(rising(ya, yb), CHUNK_DIM as int) == count_pairs(
                slice_of(faces_from(solid, 0, 1, 0), i),
                CHUNK_DIM as int,
            )
            &&& count_pairs(falling(xa, zb), CHUNK_DIM as int) == count_pairs(
                slice_of(faces_towards(solid, 0, 0, 1), i),
                CHUNK_DIM as int,
            )
            &&& count_pairs(rising(xa, zb), CHUNK_DIM as int) == count_pairs(
                slice_of(faces_from(solid, 0, 0, 1), i),
                CHUNK_DIM as int,
            )
        }),
{
    let solid = packed_solid(packed, adj);
    lemma_rows_of_slice(packed, adj, i, xa);
    lemma_rows_of_slice(packed, adj, i, ya);
    assert forall|j: int, k: int| 0 <= j < CHUNK_DIM && 0 <= k < CHUNK_DIM implies #[trigger] bit(
        yb[j],
        k as u16,
    ) == solid(i, j + 1, k) by {
        if j < CHUNK_DIM - 1 {
            assert(yb[j] == packed[i * 16 + j + 1]);
        }
    }
    assert forall|j: int, k: int| 0 <= j < CHUNK_DIM && 0 <= k < CHUNK_DIM implies #[trigger] bit(
        zb[j],
        k as u16,
    ) == solid(i, j, k + 1) by {
        if k < 15 {
            assert(bit(xa[j], (k + 1) as u16) == solid(i, j, k + 1));
        }
    }
    lemma_slice_faces(solid, i, 1, 0, 0, xa, xb);
    lemma_slice_faces(solid, i, 0, 1, 0, ya, yb);
    lemma_slice_faces(solid, i, 0, 0, 1, xa, zb);
}

/// The six face counts after `n` slices are within `n * 256` each.
pub open spec fn counts_after(m: VoxelChunkMeshMeta, solid: spec_fn(int, int, int) -> bool, n: int) -> bool {
    &&& m.positive_faces.x == count_cells(faces_towards(solid, 1, 0, 0), n)
    &&& m.positive_faces.y == count_cells(faces_towards(solid, 0, 1, 0), n)
    &&& m.positive_faces.z == count_cells(faces_towards(solid, 0, 0, 1), n)
    &&& m.negative_faces.x == count_cells(faces_from(solid, 1, 0, 0), n)
    &&& m.negative_faces.y == count_cells(faces_from(solid, 0, 1, 0), n)
    &&& m.negative_faces.z == count_cells(faces_from(solid, 0, 0, 1), n)
}

proof fn lemma_counts_bounded(solid: spec_fn(int, int, int) -> bool, n: int)
    requires
        0 <= n,
    ensures
        count_cells(faces_towards(solid, 1, 0, 0), n) <= n * 256,
        count_cells(faces_towards(solid, 0, 1, 0), n) <= n * 256,
        count_cells(faces_towards(solid, 0, 0, 1), n) <= n * 256,
        count_cells(faces_from(solid, 1, 0, 0), n) <= n * 256,
        count_cells(faces_from(solid, 0, 1, 0), n) <= n * 256,
        count_cells(faces_from(solid, 0, 0, 1), n) <= n * 256,
{
    lemma_count_cells_bound(faces_towards(solid, 1, 0, 0), n);
    lemma_count_cells_bound(faces_towards(solid, 0, 1, 0), n);
    lemma_count_cells_bound(faces_towards(solid, 0, 0, 1), n);
    lemma_count_cells_bound(faces_from(solid, 1, 0, 0), n);
    lemma_count_cells_bound(faces_from(solid, 0, 1, 0), n);
    lemma_count_cells_bound(faces_from(solid, 0, 0, 1), n);
}

/// Counts the faces of a chunk from its packed rows (`packed_blocks`, see
/// `pack_solid_blocks`) and the packed rows of the +x, +y and +z layers of
/// its neighbours (`packed_adj_blocks`, `CHUNK_DIM` rows each).
fn face_count_from_packed(packed_blocks: &Vec<u16>, packed_adj_blocks: &Vec<u16>) -> (mesh_meta:
    VoxelChunkMeshMeta)
    requires
        packed_blocks.len() == 256,
        packed_adj_blocks.len() == 48,
    ensures
        counts_faces_of(mesh_meta, packed_solid(packed_blocks@, packed_adj_blocks@)),
{
    let xa = &mut [0u16; CHUNK_DIM];
    let xb = &mut [0u16; CHUNK_DIM];
    let ya = &mut [0u16; CHUNK_DIM];
    let yb = &mut [0u16; CHUNK_DIM];
    let zb = &mut [0u16; CHUNK_DIM];

    let y_offset: usize = CHUNK_DIM + CHUNK_DIM;
    let z_offset: usize = CHUNK_DIM + CHUNK_DIM + CHUNK_DIM;
    let last_x: usize = CHUNK_DIM - 1;
    let last_y: usize = y_offset - 1;
    let last_z: usize = z_offset - 1;

    let ghost solid = packed_solid(packed_blocks@, packed_adj_blocks@);
    let mut mesh_meta = VoxelChunkMeshMeta::default();

    for i in 0..CHUNK_DIM - 1
        invariant
            packed_blocks.len() == 256,
            packed_adj_blocks.len() == 48,
            y_offset == 32,
            solid == packed_solid(packed_blocks@, packed_adj_blocks@),
            counts_after(mesh_meta, solid, i as int),
            i > 0 ==> forall|j: int| 0 <= j < CHUNK_DIM ==> xb[j] == packed_blocks[i * 16 + j],
    {
        prep_adj_x(packed_blocks, xa, xb, i);
        prep_adj_y(packed_blocks, packed_adj_blocks[CHUNK_DIM + i], ya, yb, i);
        prep_adj_z(packed_adj_blocks[y_offset + i], xa, zb);
        proof {
            lemma_rows_of_slice(packed_blocks@, packed_adj_blocks@, i + 1, xb@);
            lemma_slice_counts(
                packed_blocks@,
                packed_adj_blocks@,
                i as int,
                xa@,
                xb@,
                ya@,
                yb@,
                zb@,
            );
            lemma_counts_bounded(solid, i + 1);
        }

        let x_face_counts = bi_direction_face_counts(xa, xb);
        mesh_meta.negative_faces.x += x_face_counts.0 as u16;
        mesh_meta.positive_faces.x += x_face_counts.1 as u16;

        let y_face_counts = bi_direction_face_counts(ya, yb);
        mesh_meta.negative_faces.y += y_face_counts.0 as u16;
        mesh_meta.positive_faces.y += y_face_counts.1 as u16;

        let z_face_counts = bi_direction_face_counts(xa, zb);
        mesh_meta.negative_faces.z += z_face_counts.0 as u16;
        mesh_meta.positive_faces.z += z_face_counts.1 as u16;
    }
    prep_adj_y(packed_blocks, packed_adj_blocks[last_y], ya, yb, last_x);
    prep_adj_z(packed_adj_blocks[last_z], xb, zb);
    let adj_x = row_at(packed_adj_blocks, 0);
    proof {
        assert forall|j: int, k: int| 0 <= j < CHUNK_DIM && 0 <= k < CHUNK_DIM implies #[trigger] bit(
            adj_x[j],
            k as u16,
        ) == solid(16, j, k) by {
            assert(adj_x[j] == packed_adj_blocks@[j]);
        }
        lemma_slice_counts(
            packed_blocks@,
            packed_adj_blocks@,
            15,
            xb@,
            adj_x@,
            ya@,
            yb@,
            zb@,
        );
        lemma_counts_bounded(solid, 16);
    }

    let x_face_counts = bi_direction_face_counts(xb, &adj_x);
    mesh_meta.negative_faces.x += x_face_counts.0 as u16;
    mesh_meta.positive_faces.x += x_face_counts.1 as u16;

    let y_face_counts = bi_direction_face_counts(ya, yb);
    mesh_meta.negative_faces.y += y_face_counts.0 as u16;
    mesh_meta.positive_faces.y += y_face_counts.1 as u16;

    let z_face_counts = bi_direction_face_counts(xb, zb);
    mesh_meta.negative_faces.z += z_face_counts.0 as u16;
    mesh_meta.positive_faces.z += z_face_counts.1 as u16;

    mesh_meta
}

/// Two ways of telling solid cells apart that agree on the chunk and on its
/// +x, +y and +z neighbours count the same faces.
proof fn lemma_same_faces(s1: spec_fn(int, int, int) -> bool, s2: spec_fn(int, int, int) -> bool)
    requires
        forall|x: int, y: int, z: int|
            0 <= x < CHUNK_DIM && 0 <= y < CHUNK_DIM && 0 <= z < CHUNK_DIM ==> {
                &&& #[trigger] s1(x, y, z) == s2(x, y, z)
                &&& s1(x + 1, y, z) == s2(x + 1, y, z)
                &&& s1(x, y + 1, z) == s2(x, y + 1, z)
                &&& s1(x, y, z + 1) == s2(x, y, z + 1)
            },
    ensures
        forall|m: VoxelChunkMeshMeta| counts_faces_of(m, s1) <==> #[trigger] counts_faces_of(m, s2),
{
    assert forall|x: int, y: int, z: int|
        0 <= x < 16 && 0 <= y < CHUNK_DIM && 0 <= z < CHUNK_DIM implies #[trigger] faces_towards(
        s1,
        1, 0, 0,
    )(x, y, z) == faces_towards(s2, 1, 0, 0)(x, y, z) by {
        assert(s1(x, y, z) == s2(x, y, z));
    }
    assert forall|x: int, y: int, z: int|
        0 <= x < 16 && 0 <= y < CHUNK_DIM && 0 <= z < CHUNK_DIM implies #[trigger] faces_towards(
        s1,
        0, 1, 0,
    )(x, y, z) == faces_towards(s2, 0, 1, 0)(x, y, z) by {
        assert(s1(x, y, z) == s2(x, y, z));
    }
    assert forall|x: int, y: int, z: int|
        0 <= x < 16 && 0 <= y < CHUNK_DIM && 0 <= z < CHUNK_DIM implies #[trigger] faces_towards(
        s1,
        0, 0, 1,
    )(x, y, z) == faces_towards(s2, 0, 0, 1)(x, y, z) by {
        assert(s1(x, y, z) == s2(x, y, z));
    }
    assert forall|x: int, y: int, z: int|
        0 <= x < 16 && 0 <= y < CHUNK_DIM && 0 <= z < CHUNK_DIM implies #[trigger] faces_from(
        s1,
        1, 0, 0,
    )(x, y, z) == faces_from(s2, 1, 0, 0)(x, y, z) by {
        assert(s1(x, y, z) == s2(x, y, z));
    }
    assert forall|x: int, y: int, z: int|
        0 <= x < 16 && 0 <= y < CHUNK_DIM && 0 <= z < CHUNK_DIM implies #[trigger] faces_from(
        s1,
        0, 1, 0,
    )(x, y, z) == faces_from(s2, 0, 1, 0)(x, y, z) by {
        assert(s1(x, y, z) == s2(x, y, z));
    }
    assert forall|x: int, y: int, z: int|
        0 <= x < 16 && 0 <= y < CHUNK_DIM && 0 <= z < CHUNK_DIM implies #[trigger] faces_from(
        s1,
        0, 0, 1,
    )(x, y, z) == faces_from(s2, 0, 0, 1)(x, y, z) by {
        assert(s1(x, y, z) == s2(x, y, z));
    }
    lemma_count_cells_ext(faces_towards(s1, 1, 0, 0), faces_towards(s2, 1, 0, 0), 16);
    lemma_count_cells_ext(faces_towards(s1, 0, 1, 0), faces_towards(s2, 0, 1, 0), 16);
    lemma_count_cells_ext(faces_towards(s1, 0, 0, 1), faces_towards(s2, 0, 0, 1), 16);
    lemma_count_cells_ext(faces_from(s1, 1, 0, 0), faces_from(s2, 1, 0, 0), 16);
    lemma_count_cells_ext(faces_from(s1, 0, 1, 0), faces_from(s2, 0, 1, 0), 16);
    lemma_count_cells_ext(faces_from(s1, 0, 0, 1), faces_from(s2, 0, 0, 1), 16);
}

/// Counts the faces of a chunk: those of its solid blocks against air, along
/// each axis and towards both sides, the blocks at the +x, +y and +z borders
/// compared with the neighbouring layers in `adj_blocks`.
pub fn chunk_mesh_data(blocks: &VoxelChunkBlocks, adj_blocks: &VoxelChunkAdjBlocks) -> (meta:
    VoxelChunkMeshMeta)
    ensures
        counts_faces_of(meta, block_solid(*blocks, *adj_blocks)),
{
    let positive_adj_blocks: [VoxelLayer; 3] = [adj_blocks[0], adj_blocks[1], adj_blocks[2]];
    let packed_blocks = pack_solid_blocks(blocks.as_slice());
    let packed_adj_blocks = pack_solid_blocks(positive_adj_blocks.as_slice());
    let meta = face_count_from_packed(&packed_blocks, &packed_adj_blocks);
    proof {
        let p = packed_blocks@;
        let a = packed_adj_blocks@;
        let s1 = packed_solid(p, a);
        let s2 = block_solid(*blocks, *adj_blocks);
        assert forall|x: int, y: int, z: int|
            0 <= x <= CHUNK_DIM && 0 <= y <= CHUNK_DIM && 0 <= z <= CHUNK_DIM && (x < 16 && y < 16
                || x < 16 && z < 16 || y < 16 && z < 16) implies #[trigger] s1(x, y, z) == s2(
            x,
            y,
            z,
        ) by {
            if x == 16 {
                assert(bit(a[0 * 16 + y], z as u16) == positive_adj_blocks[0][y][z].solid());
            } else if y == 16 {
                assert(bit(a[1 * 16 + x], z as u16) == positive_adj_blocks[1][x][z].solid());
            } else if z == 16 {
                assert(bit(a[2 * 16 + x], y as u16) == positive_adj_blocks[2][x][y].solid());
            } else {
                assert(bit(p[x * 16 + y], z as u16) == blocks[x][y][z].solid());
            }
        }
        lemma_same_faces(s1, s2);
    }
    meta
}

} // verus!
