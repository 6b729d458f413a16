//! Chunks of the world and the choice of the block at each place of a newly
//! generated chunk. The noise that shapes the terrain, the caves and the ore
//! veins is sampled by the caller, which hands in the samples of the chunk.
use vstd::prelude::*;
use crate::block::{BlockInstance, BlockManager, block_named};

verus! {

/// The side of a chunk, in blocks.
pub const CHUNK_SIZE: i32 = 32;

/// The number of blocks of a chunk.
pub const CHUNK_BLOCK_NUMBER: usize = 32768;

/// The place, in a chunk's blocks, of the block at `(x, y, z)` of the chunk.
pub open spec fn block_index(x: int, y: int, z: int) -> int {
    x * 1024 + y * 32 + z
}

/// The place, in a chunk's column samples, of column `(x, z)`.
pub open spec fn column_index(x: int, z: int) -> int {
    x * 32 + z
}

/// A cube of 32 blocks a side at chunk coordinates `(x, y, z)`.
pub struct Chunk {
    pub blocks: Vec<BlockInstance>,
    pub x: i32,
    pub y: i32,
    pub z: i32,
}

impl Chunk {
    /// Puts `block` at `(x, y, z)` of the chunk.
    pub fn set_block_from_xyz(&mut self, x: i32, y: i32, z: i32, block: BlockInstance)
        requires
            0 <= x < 32,
            0 <= y < 32,
            0 <= z < 32,
            old(self).blocks@.len() == CHUNK_BLOCK_NUMBER,
        ensures
            final(self).blocks@ == old(self).blocks@.update(block_index(x as int, y as int, z as int), block),
            final(self).x == old(self).x,
            final(self).y == old(self).y,
            final(self).z == old(self).z,
    {
        let i: usize = (x as usize) * 1024 + (y as usize) * 32 + (z as usize);
        self.blocks[i] = block;
    }

    /// The block at `(x, y, z)` of the chunk.
    pub fn get_block_from_xyz(&self, x: i32, y: i32, z: i32) -> (r: BlockInstance)
        requires
            0 <= x < 32,
            0 <= y < 32,
            0 <= z < 32,
            self.blocks@.len() == CHUNK_BLOCK_NUMBER,
        ensures
            r == self.blocks@[block_index(x as int, y as int, z as int)],
    {
        let i: usize = (x as usize) * 1024 + (y as usize) * 32 + (z as usize);
        self.blocks[i]
    }
}

/// The ids of the blocks that make the ground: its surface, the soil under
/// it and the rock below.
#[derive(Debug, Clone, Copy, PartialEq, Eq, Structural)]
pub struct TerrainIds {
    pub grass: u32,
    pub dirt: u32,
    pub stone: u32,
}

/// A kind of ore vein: the depths it occurs at, and the block it is made of
/// when that block is known.
#[derive(Debug, Clone, Copy, PartialEq, Eq, Structural)]
pub struct OreLayer {
    pub depth_min: i32,
    pub depth_max: i32,
    pub block: Option<u32>,
}

/// The block at height `wy` once the first vein found there is placed: the
/// first of the ores from the `i`-th on whose depths hold `wy` and whose
/// noise says it is there, made of its block, or of `stone` when its block
/// is unknown; `stone` when none is there.
pub open spec fn ore_choice(wy: int, ores: Seq<OreLayer>, hits: Seq<bool>, stone: u32, i: int) -> u32
    decreases ores.len() - i,
{
    if i < 0 || i >= ores.len() {
        stone
    } else if ores[i].depth_min <= wy <= ores[i].depth_max && hits[i] {
        match ores[i].block {
            Some(b) => b,
            None => stone,
        }
    } else {
        ore_choice(wy, ores, hits, stone, i + 1)
    }
}

/// Ore `j`'s depths hold height `wy` and its noise says it is there.
pub open spec fn vein_at(wy: int, ores: Seq<OreLayer>, hits: Seq<bool>, j: int) -> bool {
    ores[j].depth_min <= wy <= ores[j].depth_max && hits[j]
}

/// The block ore `j` is made of, `stone` when its block is unknown.
pub open spec fn ore_block(ores: Seq<OreLayer>, j: int, stone: u32) -> u32 {
    match ores[j].block {
        Some(b) => b,
        None => stone,
    }
}

/// Choosing from ore `i` on gives the first vein at `wy` from there.
proof fn lemma_first_vein_from(wy: int, ores: Seq<OreLayer>, hits: Seq<bool>, stone: u32, i: int, j: int)
    requires
        0 <= i <= j < ores.len(),
        vein_at(wy, ores, hits, j),
        forall|k: int| i <= k < j ==> !#[trigger] vein_at(wy, ores, hits, k),
    ensures
        ore_choice(wy, ores, hits, stone, i) == ore_block(ores, j, stone),
    decreases j - i,
{
    if i < j {
        assert(!vein_at(wy, ores, hits, i));
        lemma_first_vein_from(wy, ores, hits, stone, i + 1, j);
    }
}

/// With no vein at `wy` from ore `i` on, the rock stays.
proof fn lemma_no_vein_from(wy: int, ores: Seq<OreLayer>, hits: Seq<bool>, stone: u32, i: int)
    requires
        0 <= i,
        forall|k: int| i <= k < ores.len() ==> !#[trigger] vein_at(wy, ores, hits, k),
    ensures
        ore_choice(wy, ores, hits, stone, i) == stone,
    decreases ores.len() - i,
{
    if i < ores.len() {
        assert(!vein_at(wy, ores, hits, i));
        lemma_no_vein_from(wy, ores, hits, stone, i + 1);
    }
}

/// Below the soil and outside caves, the block at height `wy` is made of the
/// first ore, in the order the ores are given, whose depths hold `wy` and
/// whose noise says it is there; it is rock when there is none. An earlier
/// ore that is there always wins over a later one.
pub proof fn lemma_first_vein_wins(
    wy: int,
    terrain_y: int,
    ids: TerrainIds,
    ores: Seq<OreLayer>,
    hits: Seq<bool>,
    j: int,
)
    requires
        wy < terrain_y - 4,
        0 <= j < ores.len(),
        vein_at(wy, ores, hits, j),
        forall|k: int| 0 <= k < j ==> !#[trigger] vein_at(wy, ores, hits, k),
    ensures
        chosen_block(wy, terrain_y, false, ids, ores, hits) == Some(ore_block(ores, j, ids.stone)),
{
    lemma_first_vein_from(wy, ores, hits, ids.stone, 0, j);
}

/// Below the soil and outside caves, where no ore is there, the block at
/// height `wy` is rock.
pub proof fn lemma_no_vein_is_rock(
    wy: int,
    terrain_y: int,
    ids: TerrainIds,
    ores: Seq<OreLayer>,
    hits: Seq<bool>,
)
    requires
        wy < terrain_y - 4,
        forall|k: int| 0 <= k < ores.len() ==> !#[trigger] vein_at(wy, ores, hits, k),
    ensures
        chosen_block(wy, terrain_y, false, ids, ores, hits) == Some(ids.stone),
{
    lemma_no_vein_from(wy, ores, hits, ids.stone, 0);
}

/// The block at height `wy` of a column whose ground ends below
/// `terrain_y`: none above the ground or in a cave; the surface block on
/// top, soil for the next three, and rock or ore under that.
pub open spec fn chosen_block(
    wy: int,
    terrain_y: int,
    cave: bool,
    ids: TerrainIds,
    ores: Seq<OreLayer>,
    hits: Seq<bool>,
) -> Option<u32> {
    if wy >= terrain_y || cave {
        None
    } else if wy == terrain_y - 1 {
        Some(ids.grass)
    } else if wy >= terrain_y - 4 {
        Some(ids.dirt)
    } else {
        Some(ore_choice(wy, ores, hits, ids.stone, 0))
    }
}

/// The noise samples of one chunk: the height at which the ground ends for
/// each column, whether each block is in a cave, and for each block and each
/// ore whether the ore's noise puts a vein there.
pub struct ChunkSamples {
    /// By column, at `column_index(x, z)`.
    pub terrain_y: Vec<i32>,
    /// By block, at `block_index(x, y, z)`.
    pub cave: Vec<bool>,
    /// By block and ore, at `block_index(x, y, z) * ores + ore`.
    pub ore_hit: Vec<bool>,
}

/// The block at `(x, y, z)` of chunk row `cy`, from the samples.
pub open spec fn sampled_block(
    cy: i32,
    x: int,
    y: int,
    z: int,
    ids: TerrainIds,
    ores: Seq<OreLayer>,
    samples: ChunkSamples,
) -> BlockInstance {
    let i = block_index(x, y, z);
    let n = ores.len() as int;
    match chosen_block(
        cy * 32 + y,
        samples.terrain_y@[column_index(x, z)] as int,
        samples.cave@[i],
        ids,
        ores,
        samples.ore_hit@.subrange(i * n, i * n + n),
    ) {
        Some(id) => BlockInstance { id },
        None => BlockInstance { id: 0 },
    }
}

/// The block at height `wy` once the first vein found there is placed.
fn pick_ore(wy: i32, ores: &[OreLayer], hits: &[bool], base: usize, stone: u32) -> (r: u32)
    requires
        base + ores@.len() <= hits@.len(),
    ensures
        r == ore_choice(wy as int, ores@, hits@.subrange(base as int, base + ores@.len()), stone, 0),
{
    let ghost h = hits@.subrange(base as int, base + ores@.len());
    let _hits_len = hits.len();
    let mut i: usize = 0;
    while i < ores.len()
        invariant
            i <= ores@.len(),
            hits@.len() <= usize::MAX,
            base + ores@.len() <= hits@.len(),
            h == hits@.subrange(base as int, base + ores@.len()),
            ore_choice(wy as int, ores@, h, stone, 0) == ore_choice(wy as int, ores@, h, stone, i as int),
        decreases ores@.len() - i,
    {
        let ore = ores[i];
        if ore.depth_min <= wy && wy <= ore.depth_max && hits[base + i] {
            return match ore.block {
                Some(b) => b,
                None => stone,
            };
        }
        i = i + 1;
    }
    stone
}

impl Chunk {
    /// Generates chunk `(cx, cy, cz)` from its noise samples: in each column,
    /// the blocks under the ground's end that are not in a cave get the
    /// surface block, soil for three blocks, then rock or ore; the rest is air.
    pub fn generate_with_context(
        cx: i32,
        cy: i32,
        cz: i32,
        ids: TerrainIds,
        ores: &[OreLayer],
        samples: &ChunkSamples,
    ) -> (chunk: Chunk)
        requires
            i32::MIN <= cy * 32,
            cy * 32 + 31 <= i32::MAX,
            samples.terrain_y@.len() == 1024,
            samples.cave@.len() == CHUNK_BLOCK_NUMBER,
            samples.ore_hit@.len() == CHUNK_BLOCK_NUMBER * ores@.len(),
        ensures
            chunk.x == cx,
            chunk.y == cy,
            chunk.z == cz,
            chunk.blocks@.len() == CHUNK_BLOCK_NUMBER,
            forall|x: int, y: int, z: int|
                0 <= x < 32 && 0 <= y < 32 && 0 <= z < 32 ==> #[trigger] chunk.blocks@[block_index(x, y, z)]
                    == sampled_block(cy, x, y, z, ids, ores@, *samples),
    {
        let cwy: i32 = cy * CHUNK_SIZE;
        let n: usize = ores.len();
        let _hit_count = samples.ore_hit.len();
        let blocks = vec![BlockInstance::air(); CHUNK_BLOCK_NUMBER];
        let mut chunk = Chunk { blocks, x: cx, y: cy, z: cz };
        let mut x: i32 = 0;
        while x < CHUNK_SIZE
            invariant
                0 <= x <= 32,
                cwy == cy * 32,
                i32::MIN <= cy * 32,
                cy * 32 + 31 <= i32::MAX,
                n == ores@.len(),
                samples.terrain_y@.len() == 1024,
                samples.cave@.len() == CHUNK_BLOCK_NUMBER,
                samples.ore_hit@.len() == CHUNK_BLOCK_NUMBER * ores@.len(),
                samples.ore_hit@.len() <= usize::MAX,
                chunk.x == cx && chunk.y == cy && chunk.z == cz,
                chunk.blocks@.len() == CHUNK_BLOCK_NUMBER,
                forall|a: int, b: int, c: int|
                    0 <= a < 32 && 0 <= b < 32 && 0 <= c < 32 ==> #[trigger] chunk.blocks@[block_index(a, b, c)]
                        == if a < x {
                        sampled_block(cy, a, b, c, ids, ores@, *samples)
                    } else {
                        BlockInstance { id: 0 }
                    },
            decreases 32 - x,
        {
            let mut z: i32 = 0;
            while z < CHUNK_SIZE
                invariant
                    0 <= x < 32,
                    0 <= z <= 32,
                    cwy == cy * 32,
                    i32::MIN <= cy * 32,
                    cy * 32 + 31 <= i32::MAX,
                    n == ores@.len(),
                    samples.terrain_y@.len() == 1024,
                    samples.cave@.len() == CHUNK_BLOCK_NUMBER,
                    samples.ore_hit@.len() == CHUNK_BLOCK_NUMBER * ores@.len(),
                    samples.ore_hit@.len() <= usize::MAX,
                    chunk.x == cx && chunk.y == cy && chunk.z == cz,
                    chunk.blocks@.len() == CHUNK_BLOCK_NUMBER,
                    forall|a: int, b: int, c: int|
                        0 <= a < 32 && 0 <= b < 32 && 0 <= c < 32 ==> #[trigger] chunk.blocks@[block_index(a, b, c)]
                            == if a < x || (a == x && c < z) {
                            sampled_block(cy, a, b, c, ids, ores@, *samples)
                        } else {
                            BlockInstance { id: 0 }
                        },
                decreases 32 - z,
            {
                let terrain_y: i32 = samples.terrain_y[(x as usize) * 32 + (z as usize)];
                let mut y: i32 = 0;
                while y < CHUNK_SIZE
                    invariant
                        0 <= x < 32,
                        0 <= z < 32,
                        0 <= y <= 32,
                        cwy == cy * 32,
                        i32::MIN <= cy * 32,
                        cy * 32 + 31 <= i32::MAX,
                        n == ores@.len(),
                        terrain_y == samples.terrain_y@[column_index(x as int, z as int)],
                        samples.terrain_y@.len() == 1024,
                        samples.cave@.len() == CHUNK_BLOCK_NUMBER,
                        samples.ore_hit@.len() == CHUNK_BLOCK_NUMBER * ores@.len(),
                        samples.ore_hit@.len() <= usize::MAX,
                        chunk.x == cx && chunk.y == cy && chunk.z == cz,
                        chunk.blocks@.len() == CHUNK_BLOCK_NUMBER,
                        forall|a: int, b: int, c: int|
                            0 <= a < 32 && 0 <= b < 32 && 0 <= c < 32 ==> #[trigger] chunk.blocks@[block_index(a, b, c)]
                                == if a < x || (a == x && c < z) || (a == x && c == z && b < y) {
                                sampled_block(cy, a, b, c, ids, ores@, *samples)
                            } else {
                                BlockInstance { id: 0 }
                            },
                    decreases 32 - y,
                {
                    let wy: i32 = y + cwy;
                    let i: usize = (x as usize) * 1024 + (y as usize) * 32 + (z as usize);
                    proof {
                        assert(i * n + n <= CHUNK_BLOCK_NUMBER * n) by (nonlinear_arith)
                            requires
                                i < CHUNK_BLOCK_NUMBER,
                        ;
                    }
                    let chosen: Option<u32> = if wy >= terrain_y || samples.cave[i] {
                        None
                    } else if (wy as i64) == (terrain_y as i64) - 1 {
                        Some(ids.grass)
                    } else if (wy as i64) >= (terrain_y as i64) - 4 {
                        Some(ids.dirt)
                    } else {
                        Some(pick_ore(wy, ores, samples.ore_hit.as_slice(), i * n, ids.stone))
                    };
                    let ghost before = chunk.blocks@;
                    match chosen {
                        Some(id) => {
                            chunk.set_block_from_xyz(x, y, z, BlockInstance::new(id));
                        },
                        None => {},
                    }
                    proof {
                        assert(chosen == chosen_block(
                            wy as int,
                            terrain_y as int,
                            samples.cave@[i as int],
                            ids,
                            ores@,
                            samples.ore_hit@.subrange(i * n, i * n + n),
                        ));
                        assert(block_index(x as int, y as int, z as int) == i);
                        assert forall|a: int, b: int, c: int|
                            0 <= a < 32 && 0 <= b < 32 && 0 <= c < 32 implies #[trigger] chunk.blocks@[block_index(
                                a,
                                b,
                                c,
                            )] == if a < x || (a == x && c < z) || (a == x && c == z && b < y + 1) {
                                sampled_block(cy, a, b, c, ids, ores@, *samples)
                            } else {
                                BlockInstance { id: 0 }
                            } by {
                            if a != x || b != y || c != z {
                                assert(block_index(a, b, c) != block_index(x as int, y as int, z as int));
                                assert(chunk.blocks@[block_index(a, b, c)] == before[block_index(a, b, c)]);
                            }
                        }
                    }
                    y = y + 1;
                }
                z = z + 1;
            }
            x = x + 1;
        }
        chunk
    }
}

impl TerrainIds {
    /// The ids of the blocks named `grass`, `dirt` and `stone`, when all three
    /// are registered.
    pub fn resolve(blocks: &BlockManager) -> (r: Option<TerrainIds>)
        requires
            blocks.wf(),
        ensures
            match r {
                Some(ids) => {
                    &&& ids.grass < blocks.blocks().len()
                    &&& blocks.blocks()[ids.grass as int].id_str@ == "grass"@
                    &&& ids.dirt < blocks.blocks().len()
                    &&& blocks.blocks()[ids.dirt as int].id_str@ == "dirt"@
                    &&& ids.stone < blocks.blocks().len()
                    &&& blocks.blocks()[ids.stone as int].id_str@ == "stone"@
                },
                None => !block_named(blocks.blocks(), "grass"@) || !block_named(blocks.blocks(), "dirt"@)
                    || !block_named(blocks.blocks(), "stone"@),
            },
    {
        let grass = match blocks.get_block_id_by_string(String::from_str("grass")) {
            Some(id) => id,
            None => {
                return None;
            },
        };
        let dirt = match blocks.get_block_id_by_string(String::from_str("dirt")) {
            Some(id) => id,
            None => {
                return None;
            },
        };
        let stone = match blocks.get_block_id_by_string(String::from_str("stone")) {
            Some(id) => id,
            None => {
                return None;
            },
        };
        Some(TerrainIds { grass, dirt, stone })
    }
}

/// The ore layer of a vein of block `block_id` between the given depths: its
/// block's id when that block is registered.
pub fn ore_layer(blocks: &BlockManager, block_id: String, depth_min: i32, depth_max: i32) -> (r: OreLayer)
    requires
        blocks.wf(),
    ensures
        r.depth_min == depth_min,
        r.depth_max == depth_max,
        match r.block {
            Some(id) => id < blocks.blocks().len() && blocks.blocks()[id as int].id_str@ == block_id@,
            None => !block_named(blocks.blocks(), block_id@),
        },
{
    let block = blocks.get_block_id_by_string(block_id);
    OreLayer { depth_min, depth_max, block }
}

} // verus!
