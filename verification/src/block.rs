//! Block instances, block definitions and the registry that numbers them.
use vstd::prelude::*;
use std::collections::HashMap;
use rustc_hash::FxBuildHasher;
use crate::fx::{
    fx_map_u32_clear, fx_map_u32_get, fx_map_u32_insert, fx_map_u32_new, fx_names, fx_names_clear,
    fx_names_get, fx_names_insert, fx_names_new,
};
use crate::items::{ItemInstance, ItemManager, ItemDefinition, item_named};

verus! {

/// A block as it sits in a chunk: the id of its definition, 0 being air.
#[derive(Debug, Clone, Copy, PartialEq, Eq, Structural)]
pub struct BlockInstance {
    pub id: u32,
}

impl BlockInstance {
    pub fn new(id: u32) -> (b: Self)
        ensures
            b.id == id,
    {
        Self { id }
    }

    /// The empty block.
    pub fn air() -> (b: Self)
        ensures
            b.id == 0,
    {
        Self { id: 0 }
    }

    pub fn is_air(&self) -> (r: bool)
        ensures
            r == (self.id == 0),
    {
        self.id == Self::air().id
    }

    pub fn is_solid(&self) -> (r: bool)
        ensures
            r == (self.id != 0),
    {
        self.id != Self::air().id
    }

    pub fn get_block_id(&self) -> (r: u32)
        ensures
            r == self.id,
    {
        self.id
    }
}

/// A block is air exactly when it is not solid.
pub proof fn lemma_air_xor_solid(b: BlockInstance)
    ensures
        (b.id == 0) != (b.id != 0),
{
}

/// The description of a kind of block, as loaded from the game data.
#[derive(Debug, Clone)]
pub struct BlockData {
    /// The id the registry gave it, once registered.
    pub id: Option<u32>,
    pub id_str: String,
    pub name: String,
    pub solid: bool,
    /// The IEEE-754 single precision bits of the block's hardness.
    pub hardness_bits: u32,
    pub texture_path: Option<String>,
    pub texture_index: Option<u32>,
    pub render_mode: String,
    pub drop: Option<String>,
    pub has_item: bool,
}

impl BlockData {
    /// The id of a registered definition.
    pub fn get_id(&self) -> (r: u32)
        requires
            self.id is Some,
        ensures
            r == self.id.unwrap(),
    {
        match self.id {
            Some(id) => id,
            None => 0,
        }
    }

    pub fn get_id_str(&self) -> (r: &str)
        ensures
            r@ == self.id_str@,
    {
        self.id_str.as_str()
    }
}

/// Some definition of `blocks` has the name `id_str`.
pub open spec fn block_named(blocks: Seq<BlockData>, id_str: Seq<char>) -> bool {
    exists|i: int| 0 <= i < blocks.len() && #[trigger] blocks[i].id_str@ == id_str
}

/// The name of the item a block yields when broken: its drop, or else its own
/// name when it has an item of its own.
pub open spec fn yielded_item_name(b: BlockData) -> Option<Seq<char>> {
    match b.drop {
        Some(d) => Some(d@),
        None => if b.has_item {
            Some(b.id_str@)
        } else {
            None
        },
    }
}

/// Index of the item definition named `name`.
pub open spec fn item_index(items: Seq<ItemDefinition>, name: Seq<char>) -> int {
    choose|i: int| 0 <= i < items.len() && #[trigger] items[i].id_str@ == name
}

/// `m0` extended, block after block, with the id of the item each block
/// yields mapped to the block's id; a later block wins.
pub open spec fn item_block_map(
    m0: Map<u32, u32>,
    blocks: Seq<BlockData>,
    items: Seq<ItemDefinition>,
) -> Map<u32, u32>
    decreases blocks.len(),
{
    if blocks.len() == 0 {
        m0
    } else {
        let m = item_block_map(m0, blocks.drop_last(), items);
        let b = blocks.last();
        match yielded_item_name(b) {
            Some(name) => if item_named(items, name) {
                m.insert(item_index(items, name) as u32, b.id.unwrap())
            } else {
                m
            },
            None => m,
        }
    }
}

/// Block `b` yields the item named like item `x` of `items`.
pub open spec fn yields_item(b: BlockData, items: Seq<ItemDefinition>, x: int) -> bool {
    yielded_item_name(b) == Some(items[x].id_str@)
}

/// With item names distinct, the item a name is found under is the one
/// bearing it.
proof fn lemma_item_index(items: Seq<ItemDefinition>, x: int)
    requires
        0 <= x < items.len(),
        forall|i: int, j: int|
            0 <= i < items.len() && 0 <= j < items.len() && i != j ==> #[trigger] items[i].id_str@
                != #[trigger] items[j].id_str@,
    ensures
        item_named(items, items[x].id_str@),
        item_index(items, items[x].id_str@) == x,
{
    let k = item_index(items, items[x].id_str@);
    assert(items[x].id_str@ == items[x].id_str@);
    assert(items[k].id_str@ == items[x].id_str@);
}

/// Linking the items of `items` to the blocks of `blocks`, item `x` ends up
/// placing the last block of the list that yields it: a block linked later
/// overrides an earlier one for the same item.
pub proof fn lemma_last_block_wins(
    m0: Map<u32, u32>,
    blocks: Seq<BlockData>,
    items: Seq<ItemDefinition>,
    x: int,
    j: int,
)
    requires
        0 <= x < items.len() <= u32::MAX,
        forall|i: int, k: int|
            0 <= i < items.len() && 0 <= k < items.len() && i != k ==> #[trigger] items[i].id_str@
                != #[trigger] items[k].id_str@,
        0 <= j < blocks.len(),
        yields_item(blocks[j], items, x),
        forall|k: int| j < k < blocks.len() ==> !#[trigger] yields_item(blocks[k], items, x),
    ensures
        item_block_map(m0, blocks, items).contains_key(x as u32),
        item_block_map(m0, blocks, items)[x as u32] == blocks[j].id.unwrap(),
    decreases blocks.len(),
{
    lemma_item_index(items, x);
    let init = blocks.drop_last();
    let b = blocks.last();
    if j < blocks.len() - 1 {
        assert(!yields_item(blocks[blocks.len() - 1], items, x));
        assert forall|k: int| j < k < init.len() implies !#[trigger] yields_item(init[k], items, x) by {
            assert(init[k] == blocks[k]);
            assert(!yields_item(blocks[k], items, x));
        }
        assert(init[j] == blocks[j]);
        lemma_last_block_wins(m0, init, items, x, j);
        match yielded_item_name(b) {
            Some(name) => if item_named(items, name) {
                let k = item_index(items, name);
                assert(items[k].id_str@ == name);
                assert(name != items[x].id_str@);
                assert(k != x);
                assert(k < items.len());
                assert((k as u32) != (x as u32));
            },
            None => {},
        }
    }
}

/// Linking the items to the blocks leaves an item that no block yields as it
/// was.
pub proof fn lemma_unyielded_item_kept(
    m0: Map<u32, u32>,
    blocks: Seq<BlockData>,
    items: Seq<ItemDefinition>,
    x: int,
)
    requires
        0 <= x < items.len() <= u32::MAX,
        forall|i: int, k: int|
            0 <= i < items.len() && 0 <= k < items.len() && i != k ==> #[trigger] items[i].id_str@
                != #[trigger] items[k].id_str@,
        forall|k: int| 0 <= k < blocks.len() ==> !#[trigger] yields_item(blocks[k], items, x),
    ensures
        item_block_map(m0, blocks, items).contains_key(x as u32) == m0.contains_key(x as u32),
        m0.contains_key(x as u32) ==> item_block_map(m0, blocks, items)[x as u32] == m0[x as u32],
    decreases blocks.len(),
{
    lemma_item_index(items, x);
    if blocks.len() > 0 {
        let init = blocks.drop_last();
        let b = blocks.last();
        assert(!yields_item(blocks[blocks.len() - 1], items, x));
        assert forall|k: int| 0 <= k < init.len() implies !#[trigger] yields_item(init[k], items, x) by {
            assert(init[k] == blocks[k]);
            assert(!yields_item(blocks[k], items, x));
        }
        lemma_unyielded_item_kept(m0, init, items, x);
        match yielded_item_name(b) {
            Some(name) => if item_named(items, name) {
                let k = item_index(items, name);
                assert(items[k].id_str@ == name);
                assert(k != x);
                assert((k as u32) != (x as u32));
            },
            None => {},
        }
    }
}

/// Numbers block definitions in the order they are registered, finds them by
/// number or by name, and links them with the items they yield.
pub struct BlockManager {
    blocks: Vec<BlockData>,
    mapped_blocks: HashMap<String, u32, FxBuildHasher>,
    texture_lookup: Vec<u32>,
    item_to_block: HashMap<u32, u32, FxBuildHasher>,
}

impl BlockManager {
    /// The registered definitions; definition `i` has id `i`.
    pub closed spec fn blocks(&self) -> Seq<BlockData> {
        self.blocks@
    }

    /// The id of each registered name.
    pub closed spec fn names(&self) -> Map<Seq<char>, u32> {
        fx_names(self.mapped_blocks)
    }

    /// Texture layer of each block, by block id, as last built.
    pub closed spec fn texture_lookup(&self) -> Seq<u32> {
        self.texture_lookup@
    }

    /// The block that each item id places.
    pub closed spec fn item_to_block(&self) -> Map<u32, u32> {
        self.item_to_block@
    }

    /// Each definition carries its index as id, no two share a name, and the
    /// names map to the ids of the definitions that bear them.
    pub closed spec fn wf(&self) -> bool {
        &&& forall|i: int| 0 <= i < self.blocks@.len() ==> #[trigger] self.blocks@[i].id == Some(i as u32)
        &&& forall|i: int, j: int|
            0 <= i < self.blocks@.len() && 0 <= j < self.blocks@.len() && i != j ==> #[trigger] self.blocks@[i].id_str@
                != #[trigger] self.blocks@[j].id_str@
        &&& self.blocks@.len() <= u32::MAX
        &&& forall|name: Seq<char>| #[trigger] self.names().contains_key(name) <==> block_named(self.blocks@, name)
        &&& forall|name: Seq<char>|
            #[trigger] self.names().contains_key(name) ==> self.names()[name] < self.blocks@.len()
                && self.blocks@[self.names()[name] as int].id_str@ == name
    }

    pub fn new() -> (m: Self)
        ensures
            m.wf(),
            m.blocks() == Seq::<BlockData>::empty(),
            m.texture_lookup() == Seq::<u32>::empty(),
            m.item_to_block() == Map::<u32, u32>::empty(),
    {
        Self {
            blocks: Vec::with_capacity(256),
            mapped_blocks: fx_names_new(),
            texture_lookup: Vec::new(),
            item_to_block: fx_map_u32_new(),
        }
    }

    pub fn block_count(&self) -> (r: usize)
        ensures
            r == self.blocks().len(),
    {
        self.blocks.len()
    }

    /// The definition with id `id`.
    pub fn get_block_by_id(&self, id: u32) -> (r: Option<&BlockData>)
        ensures
            id < self.blocks().len() ==> r == Some(&self.blocks()[id as int]),
            id >= self.blocks().len() ==> r is None,
    {
        if (id as usize) < self.blocks.len() {
            Some(&self.blocks[id as usize])
        } else {
            None
        }
    }

    /// The definition named `id_str`.
    pub fn get_block_by_string(&self, id_str: String) -> (r: Option<&BlockData>)
        requires
            self.wf(),
        ensures
            match r {
                Some(b) => b.id_str@ == id_str@ && exists|i: int|
                    0 <= i < self.blocks().len() && self.blocks()[i] == *b,
                None => !block_named(self.blocks(), id_str@),
            },
    {
        match self.get_block_id_by_string(id_str) {
            Some(id) => {
                proof {
                    assert(self.blocks()[id as int] == self.blocks@[id as int]);
                }
                self.get_block_by_id(id)
            },
            None => None,
        }
    }

    /// The id of the definition named `id_str`.
    pub fn get_block_id_by_string(&self, id_str: String) -> (r: Option<u32>)
        requires
            self.wf(),
        ensures
            match r {
                Some(id) => id < self.blocks().len() && self.blocks()[id as int].id_str@ == id_str@,
                None => !block_named(self.blocks(), id_str@),
            },
    {
        let r = fx_names_get(&self.mapped_blocks, id_str.as_str());
        proof {
            assert(self.names().contains_key(id_str@) <==> block_named(self.blocks@, id_str@));
        }
        r
    }

    /// Registers `block` under the next id.
    pub fn register(&mut self, block: BlockData)
        requires
            old(self).wf(),
            !block_named(old(self).blocks(), block.id_str@),
            old(self).blocks().len() < u32::MAX,
        ensures
            final(self).wf(),
            final(self).blocks() == old(self).blocks().push(
                BlockData { id: Some(old(self).blocks().len() as u32), ..block },
            ),
            final(self).texture_lookup() == old(self).texture_lookup(),
            final(self).item_to_block() == old(self).item_to_block(),
    {
        let mut block = block;
        let id = self.blocks.len() as u32;
        block.id = Some(id);
        let name = block.id_str.clone();
        fx_names_insert(&mut self.mapped_blocks, name, id);
        self.blocks.push(block);
        proof {
            let n = self.blocks@;
            let o = old(self).blocks@;
            assert forall|i: int, j: int|
                0 <= i < n.len() && 0 <= j < n.len() && i != j implies #[trigger] n[i].id_str@
                != #[trigger] n[j].id_str@ by {
                if i == o.len() {
                    assert(o[j] == n[j]);
                } else if j == o.len() {
                    assert(o[i] == n[i]);
                } else {
                    assert(o[i] == n[i] && o[j] == n[j]);
                }
            }
            assert forall|nm: Seq<char>| #[trigger] self.names().contains_key(nm) <==> block_named(n, nm) by {
                if block_named(n, nm) && nm != block.id_str@ {
                    let w = choose|w: int| 0 <= w < n.len() && #[trigger] n[w].id_str@ == nm;
                    assert(o[w] == n[w]);
                }
                if old(self).names().contains_key(nm) {
                    let w = old(self).names()[nm] as int;
                    assert(n[w] == o[w]);
                }
                if nm == block.id_str@ {
                    assert(n[o.len() as int].id_str@ == nm);
                }
            }
            assert forall|nm: Seq<char>| #[trigger] self.names().contains_key(nm) implies self.names()[nm]
                < n.len() && n[self.names()[nm] as int].id_str@ == nm by {
                if nm != block.id_str@ {
                    let w = old(self).names()[nm] as int;
                    assert(n[w] == o[w]);
                }
            }
        }
    }

    /// Registers `defs` in order, then rebuilds the texture lookup.
    pub fn load_from_definitions(&mut self, defs: Vec<BlockData>)
        requires
            old(self).wf(),
            forall|i: int| 0 <= i < defs@.len() ==> !block_named(old(self).blocks(), #[trigger] defs@[i].id_str@),
            forall|i: int, j: int|
                0 <= i < j < defs@.len() ==> #[trigger] defs@[i].id_str@ != #[trigger] defs@[j].id_str@,
            old(self).blocks().len() + defs@.len() < u32::MAX,
        ensures
            final(self).wf(),
            final(self).blocks().len() == old(self).blocks().len() + defs@.len(),
            forall|i: int| 0 <= i < old(self).blocks().len() ==> #[trigger] final(self).blocks()[i] == old(self).blocks()[i],
            forall|i: int|
                0 <= i < defs@.len() ==> #[trigger] final(self).blocks()[old(self).blocks().len() + i] == (BlockData {
                    id: Some((old(self).blocks().len() + i) as u32),
                    ..defs@[i]
                }),
            final(self).item_to_block() == old(self).item_to_block(),
            final(self).texture_lookup().len() == final(self).blocks().len(),
            forall|i: int|
                0 <= i < final(self).blocks().len() ==> #[trigger] final(self).texture_lookup()[i] == match final(self).blocks()[i].texture_index {
                    Some(t) => t,
                    None => 0,
                },
    {
        let ghost start = self.blocks@;
        let ghost all = defs@;
        let mut rest = defs;
        while rest.len() > 0
            invariant
                self.wf(),
                all.len() >= rest@.len(),
                rest@ == all.skip(all.len() - rest@.len()),
                self.blocks@.len() == start.len() + (all.len() - rest@.len()),
                forall|i: int| 0 <= i < start.len() ==> #[trigger] self.blocks@[i] == start[i],
                forall|i: int|
                    0 <= i < all.len() - rest@.len() ==> #[trigger] self.blocks@[start.len() + i] == (BlockData {
                        id: Some((start.len() + i) as u32),
                        ..all[i]
                    }),
                forall|i: int| 0 <= i < all.len() ==> !block_named(start, #[trigger] all[i].id_str@),
                forall|i: int, j: int| 0 <= i < j < all.len() ==> #[trigger] all[i].id_str@ != #[trigger] all[j].id_str@,
                start.len() + all.len() < u32::MAX,
                self.item_to_block@ == old(self).item_to_block@,
            decreases rest@.len(),
        {
            let ghost k = all.len() - rest@.len();
            let def = rest.remove(0);
            proof {
                assert(def == all[k]);
                assert(rest@ =~= all.skip(k + 1));
                assert(!block_named(self.blocks@, def.id_str@)) by {
                    if block_named(self.blocks@, def.id_str@) {
                        let w = choose|w: int| 0 <= w < self.blocks@.len() && #[trigger] self.blocks@[w].id_str@ == def.id_str@;
                        if w < start.len() {
                            assert(start[w].id_str@ == def.id_str@);
                            assert(block_named(start, all[k].id_str@));
                        } else {
                            let j = w - start.len();
                            assert(self.blocks@[start.len() + j].id_str@ == all[j].id_str@);
                            assert(all[j].id_str@ != all[k].id_str@);
                        }
                    }
                }
            }
            self.register(def);
        }
        self.build_texture_lookup();
    }

    /// Records, for every block that yields an item known to `item_manager`,
    /// that this item places the block.
    pub fn resolve_item_mappings(&mut self, item_manager: &ItemManager)
        requires
            old(self).wf(),
            item_manager.wf(),
        ensures
            final(self).wf(),
            final(self).blocks() == old(self).blocks(),
            final(self).texture_lookup() == old(self).texture_lookup(),
            final(self).item_to_block() == item_block_map(
                old(self).item_to_block(),
                old(self).blocks(),
                item_manager.items(),
            ),
    {
        let ghost m0 = self.item_to_block@;
        let ghost items = item_manager.items();
        let mut i: usize = 0;
        while i < self.blocks.len()
            invariant
                self.wf(),
                self.blocks == old(self).blocks,
                self.texture_lookup == old(self).texture_lookup,
                item_manager.wf(),
                items == item_manager.items(),
                i <= self.blocks@.len(),
                self.item_to_block@ == item_block_map(m0, self.blocks@.take(i as int), items),
            decreases self.blocks@.len() - i,
        {
            let block = &self.blocks[i];
            let item_str: Option<&String> = match &block.drop {
                Some(d) => Some(d),
                None => if block.has_item {
                    Some(&block.id_str)
                } else {
                    None
                },
            };
            let block_id = block.get_id();
            match item_str {
                Some(item_str) => {
                    match item_manager.get_id_by_string(item_str.as_str()) {
                        Some(item_id) => {
                            fx_map_u32_insert(&mut self.item_to_block, item_id, block_id);
                            proof {
                                let name = item_str@;
                                let k = item_index(items, name);
                                assert(items[item_id as int].id_str@ == name);
                                assert(item_named(items, name));
                                assert(items[k].id_str@ == name);
                                crate::items::lemma_names_distinct(*item_manager, k, item_id as int);
                            }
                        },
                        None => {},
                    }
                },
                None => {},
            }
            proof {
                let t = self.blocks@.take(i + 1);
                assert(t.drop_last() =~= self.blocks@.take(i as int));
                assert(t.last() == self.blocks@[i as int]);
            }
            i = i + 1;
        }
        proof {
            assert(self.blocks@.take(i as int) =~= self.blocks@);
        }
    }

    /// The item that block `block_id` yields, if the item is known.
    pub fn block_to_item(&self, block_id: u32, item_manager: &ItemManager) -> (r: Option<ItemInstance>)
        requires
            item_manager.wf(),
        ensures
            match r {
                Some(item) => {
                    &&& block_id < self.blocks().len()
                    &&& yielded_item_name(self.blocks()[block_id as int]) is Some
                    &&& item.id < item_manager.items().len()
                    &&& item_manager.items()[item.id as int].id_str@ == yielded_item_name(
                        self.blocks()[block_id as int],
                    ).unwrap()
                },
                None => block_id >= self.blocks().len() || match yielded_item_name(
                    self.blocks()[block_id as int],
                ) {
                    Some(name) => !item_named(item_manager.items(), name),
                    None => true,
                },
            },
    {
        let block = match self.get_block_by_id(block_id) {
            Some(b) => b,
            None => {
                return None;
            },
        };
        let item_str: &String = match &block.drop {
            Some(d) => d,
            None => if block.has_item {
                &block.id_str
            } else {
                return None;
            },
        };
        match item_manager.get_id_by_string(item_str.as_str()) {
            Some(id) => Some(ItemInstance::new(id)),
            None => None,
        }
    }

    /// The block that item `item_id` places.
    pub fn item_to_block_id(&self, item_id: u32) -> (r: Option<u32>)
        ensures
            r == if self.item_to_block().contains_key(item_id) {
                Some(self.item_to_block()[item_id])
            } else {
                None::<u32>
            },
    {
        match fx_map_u32_get(&self.item_to_block, item_id) {
            Some(b) => Some(*b),
            None => None,
        }
    }

    /// Rebuilds the texture layer of each block, 0 where a block has none.
    pub fn build_texture_lookup(&mut self)
        ensures
            final(self).blocks() == old(self).blocks(),
            final(self).names() == old(self).names(),
            final(self).item_to_block() == old(self).item_to_block(),
            final(self).texture_lookup().len() == old(self).blocks().len(),
            forall|i: int|
                0 <= i < old(self).blocks().len() ==> #[trigger] final(self).texture_lookup()[i]
                    == match old(self).blocks()[i].texture_index {
                    Some(t) => t,
                    None => 0,
                },
    {
        let mut lookup: Vec<u32> = Vec::new();
        let mut i: usize = 0;
        while i < self.blocks.len()
            invariant
                i <= self.blocks@.len(),
                lookup@.len() == i,
                forall|j: int|
                    0 <= j < i ==> #[trigger] lookup@[j] == match self.blocks@[j].texture_index {
                        Some(t) => t,
                        None => 0,
                    },
            decreases self.blocks@.len() - i,
        {
            let t = match self.blocks[i].texture_index {
                Some(t) => t,
                None => 0,
            };
            lookup.push(t);
            i = i + 1;
        }
        self.texture_lookup = lookup;
    }

    pub fn get_texture_lookup(&self) -> (r: &[u32])
        ensures
            r@ == self.texture_lookup(),
    {
        self.texture_lookup.as_slice()
    }

    /// Forgets every definition and item link; the texture lookup stays.
    pub fn dispose(&mut self)
        ensures
            final(self).wf(),
            final(self).blocks() == Seq::<BlockData>::empty(),
            final(self).item_to_block() == Map::<u32, u32>::empty(),
            final(self).texture_lookup() == old(self).texture_lookup(),
    {
        self.blocks.clear();
        fx_names_clear(&mut self.mapped_blocks);
        fx_map_u32_clear(&mut self.item_to_block);
    }
}

impl Default for BlockManager {
    fn default() -> (m: Self)
        ensures
            m.wf(),
            m.blocks() == Seq::<BlockData>::empty(),
    {
        Self::new()
    }
}

} // verus!
