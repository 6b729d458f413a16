//! Block and item definitions as they are written in the game data files:
//! their defaults, their validation, and how they become registry entries.
//! Reading the files and decoding them is left to the caller, which hands in
//! the decoded definitions, one per file, in the order of the file names.
use vstd::prelude::*;
use crate::block::BlockData;
use crate::items::ItemDefinition;
use crate::inventory::Item;

verus! {

/// A block is solid unless its file says otherwise.
pub fn default_solid() -> (r: bool)
    ensures
        r,
{
    true
}

/// A block's hardness when its file gives none: the single precision bits of 0.5.
pub fn default_hardness_bits() -> (r: u32)
    ensures
        r == 0x3F00_0000,
{
    0x3F00_0000
}

/// The render mode of a block whose file names none.
pub fn default_render_mode_str() -> (r: String)
    ensures
        r@ == seq!['o', 'p', 'a', 'q', 'u', 'e'],
{
    let r = String::from_str("opaque");
    proof {
        reveal_strlit("opaque");
    }
    r
}

/// A block has an item of its own unless its file says otherwise.
pub fn default_true() -> (r: bool)
    ensures
        r,
{
    true
}

/// The size of a full stack of an item whose file gives none.
pub fn default_max_stack() -> (r: u32)
    ensures
        r == 96,
{
    96
}

/// The kind of an item whose file names none.
pub fn default_item_type() -> (r: String)
    ensures
        r@ == seq!['P', 'l', 'a', 'c', 'e', 'a', 'b', 'l', 'e'],
{
    let r = String::from_str("Placeable");
    proof {
        reveal_strlit("Placeable");
    }
    r
}

/// The single precision number with bits `bits` is below zero: its sign bit is
/// set and it is neither a zero nor a NaN.
pub open spec fn f32_bits_below_zero(bits: u32) -> bool {
    bits >= 0x8000_0000 && 0 < bits - 0x8000_0000 <= 0x7F80_0000
}

/// Whether the single precision number with bits `bits` compares below zero.
pub fn f32_bits_is_negative(bits: u32) -> (r: bool)
    ensures
        r == f32_bits_below_zero(bits),
{
    bits > 0x8000_0000 && bits <= 0xFF80_0000
}

/// `prefix`, then `middle`, then `suffix`.
pub open spec fn framed(prefix: Seq<char>, middle: Seq<char>, suffix: Seq<char>) -> Seq<char> {
    prefix + middle + suffix
}

/// A block definition as written in a data file, defaults filled in.
pub struct BlockDefinitionRaw {
    pub id: String,
    pub name: String,
    pub solid: bool,
    /// The single precision bits of the block's hardness.
    pub hardness_bits: u32,
    pub texture: Option<String>,
    pub render_mode: String,
    pub drop: Option<String>,
    pub has_item: bool,
}

/// The message for a block whose id is empty.
pub open spec fn empty_block_id_msg() -> Seq<char> {
    "Block id cannot be empty"@
}

/// The message for a block whose name is empty.
pub open spec fn empty_block_name_msg() -> Seq<char> {
    "Block name cannot be empty"@
}

/// The message for block `id` when its hardness is below zero.
pub open spec fn negative_hardness_msg(id: Seq<char>) -> Seq<char> {
    framed("Block '"@, id, "' has negative hardness"@)
}

/// What is wrong with block definition `raw`, the first problem found: no
/// id, no name, or a hardness below zero.
pub open spec fn block_problem(raw: BlockDefinitionRaw) -> Option<Seq<char>> {
    if raw.id@.len() == 0 {
        Some(empty_block_id_msg())
    } else if raw.name@.len() == 0 {
        Some(empty_block_name_msg())
    } else if f32_bits_below_zero(raw.hardness_bits) {
        Some(negative_hardness_msg(raw.id@))
    } else {
        None
    }
}

impl BlockDefinitionRaw {
    /// Accepts a definition with an id, a name and a hardness not below zero;
    /// otherwise names the first of these that fails.
    pub fn validate(&self) -> (r: Result<(), String>)
        ensures
            match r {
                Ok(()) => block_problem(*self) is None,
                Err(e) => block_problem(*self) == Some(e@),
            },
    {
        if self.id.as_str().is_empty() {
            let e = String::from_str("Block id cannot be empty");
            proof {
                reveal_strlit("Block id cannot be empty");
            }
            return Err(e);
        }
        if self.name.as_str().is_empty() {
            let e = String::from_str("Block name cannot be empty");
            proof {
                reveal_strlit("Block name cannot be empty");
            }
            return Err(e);
        }
        if f32_bits_is_negative(self.hardness_bits) {
            let mut e = String::from_str("Block '");
            e.append(self.id.as_str());
            e.append("' has negative hardness");
            proof {
                assert(e@ =~= negative_hardness_msg(self.id@));
            }
            return Err(e);
        }
        Ok(())
    }

    /// The registry entry this definition describes, not yet numbered and
    /// without a texture layer.
    pub fn into_block_data(self) -> (b: BlockData)
        ensures
            b.id is None,
            b.id_str == self.id,
            b.name == self.name,
            b.solid == self.solid,
            b.hardness_bits == self.hardness_bits,
            b.texture_path == self.texture,
            b.texture_index is None,
            b.render_mode == self.render_mode,
            b.drop == self.drop,
            b.has_item == self.has_item,
    {
        BlockData {
            id: None,
            id_str: self.id,
            name: self.name,
            solid: self.solid,
            hardness_bits: self.hardness_bits,
            texture_path: self.texture,
            texture_index: None,
            render_mode: self.render_mode,
            drop: self.drop,
            has_item: self.has_item,
        }
    }
}

/// An item definition as written in a data file, defaults filled in.
pub struct ItemDefinitionRaw {
    pub id: String,
    pub name: String,
    pub max_stack: u32,
    pub item_type: String,
    pub texture: Option<String>,
}

/// The message for an item whose id is empty.
pub open spec fn empty_item_id_msg() -> Seq<char> {
    "Item id cannot be empty"@
}

/// The message for an item whose name is empty.
pub open spec fn empty_item_name_msg() -> Seq<char> {
    "Item name cannot be empty"@
}

/// The message for item `id` when a full stack of it would hold nothing.
pub open spec fn zero_stack_msg(id: Seq<char>) -> Seq<char> {
    framed("Item '"@, id, "' has max_stack of 0"@)
}

/// What is wrong with item definition `raw`, the first problem found: no id,
/// no name, or a full stack of nothing.
pub open spec fn item_problem(raw: ItemDefinitionRaw) -> Option<Seq<char>> {
    if raw.id@.len() == 0 {
        Some(empty_item_id_msg())
    } else if raw.name@.len() == 0 {
        Some(empty_item_name_msg())
    } else if raw.max_stack == 0 {
        Some(zero_stack_msg(raw.id@))
    } else {
        None
    }
}

impl ItemDefinitionRaw {
    /// Accepts a definition with an id, a name and a full stack of at least one;
    /// otherwise names the first of these that fails.
    pub fn validate(&self) -> (r: Result<(), String>)
        ensures
            match r {
                Ok(()) => item_problem(*self) is None,
                Err(e) => item_problem(*self) == Some(e@),
            },
    {
        if self.id.as_str().is_empty() {
            let e = String::from_str("Item id cannot be empty");
            proof {
                reveal_strlit("Item id cannot be empty");
            }
            return Err(e);
        }
        if self.name.as_str().is_empty() {
            let e = String::from_str("Item name cannot be empty");
            proof {
                reveal_strlit("Item name cannot be empty");
            }
            return Err(e);
        }
        if self.max_stack == 0 {
            let mut e = String::from_str("Item '");
            e.append(self.id.as_str());
            e.append("' has max_stack of 0");
            proof {
                assert(e@ =~= zero_stack_msg(self.id@));
            }
            return Err(e);
        }
        Ok(())
    }

    /// The registry entry this definition describes, not yet numbered and
    /// without a texture layer.
    pub fn into_item_definition(self) -> (d: ItemDefinition)
        ensures
            d.id is None,
            d.id_str == self.id,
            d.name == self.name,
            d.max_stack == self.max_stack,
            d.item_type == self.item_type,
            d.texture_path == self.texture,
            d.texture_index is None,
    {
        ItemDefinition {
            id: None,
            id_str: self.id,
            name: self.name,
            max_stack: self.max_stack,
            item_type: self.item_type,
            texture_path: self.texture,
            texture_index: None,
        }
    }
}

/// The registry entry block definition `raw` describes, not yet numbered and
/// without a texture layer.
pub open spec fn block_entry(raw: BlockDefinitionRaw) -> BlockData {
    BlockData {
        id: None,
        id_str: raw.id,
        name: raw.name,
        solid: raw.solid,
        hardness_bits: raw.hardness_bits,
        texture_path: raw.texture,
        texture_index: None,
        render_mode: raw.render_mode,
        drop: raw.drop,
        has_item: raw.has_item,
    }
}

/// The registry entry item definition `raw` describes, not yet numbered and
/// without a texture layer.
pub open spec fn item_entry(raw: ItemDefinitionRaw) -> ItemDefinition {
    ItemDefinition {
        id: None,
        id_str: raw.id,
        name: raw.name,
        max_stack: raw.max_stack,
        item_type: raw.item_type,
        texture_path: raw.texture,
        texture_index: None,
    }
}

/// The error a data file stands for: the message it could not be read or
/// decoded with, or its label, `: ` and what is wrong with its definition.
pub open spec fn block_file_error(file: (String, Result<BlockDefinitionRaw, String>)) -> Option<Seq<char>> {
    match file.1 {
        Err(m) => Some(m@),
        Ok(raw) => match block_problem(raw) {
            Some(p) => Some(file.0@ + seq![':', ' '] + p),
            None => None,
        },
    }
}

/// The error of the first of the first `n` block files that has one.
pub open spec fn first_block_file_error(
    files: Seq<(String, Result<BlockDefinitionRaw, String>)>,
    n: int,
) -> Option<Seq<char>>
    decreases n,
{
    if n <= 0 {
        None
    } else {
        match first_block_file_error(files, n - 1) {
            Some(e) => Some(e),
            None => block_file_error(files[n - 1]),
        }
    }
}

/// The error a data file stands for: the message it could not be read or
/// decoded with, or its label, `: ` and what is wrong with its definition.
pub open spec fn item_file_error(file: (String, Result<ItemDefinitionRaw, String>)) -> Option<Seq<char>> {
    match file.1 {
        Err(m) => Some(m@),
        Ok(raw) => match item_problem(raw) {
            Some(p) => Some(file.0@ + seq![':', ' '] + p),
            None => None,
        },
    }
}

/// The error of the first of the first `n` item files that has one.
pub open spec fn first_item_file_error(
    files: Seq<(String, Result<ItemDefinitionRaw, String>)>,
    n: int,
) -> Option<Seq<char>>
    decreases n,
{
    if n <= 0 {
        None
    } else {
        match first_item_file_error(files, n - 1) {
            Some(e) => Some(e),
            None => item_file_error(files[n - 1]),
        }
    }
}

/// The message when a data directory holds no definition.
pub open spec fn no_blocks_msg() -> Seq<char> {
    "No block definitions found"@
}

/// The message when a data directory holds no definition.
pub open spec fn no_items_msg() -> Seq<char> {
    "No item definitions found"@
}

/// Turns the block data files of a directory, each given by a label and its
/// decoded definition or the message it failed with, into registry entries in
/// the same order; fails with the first file's error, or when there is no file.
pub fn assemble_block_definitions(files: Vec<(String, Result<BlockDefinitionRaw, String>)>) -> (r: Result<
    Vec<BlockData>,
    String,
>)
    ensures
        match r {
            Ok(blocks) => {
                &&& first_block_file_error(files@, files@.len() as int) is None
                &&& files@.len() > 0
                &&& blocks@.len() == files@.len()
                &&& forall|i: int|
                    0 <= i < files@.len() ==> (files@[i].1 is Ok && #[trigger] blocks@[i]
                        == block_entry(files@[i].1->Ok_0))
            },
            Err(e) => match first_block_file_error(files@, files@.len() as int) {
                Some(m) => e@ == m,
                None => files@.len() == 0 && e@ == no_blocks_msg(),
            },
        },
{
    let ghost all = files@;
    let mut rest = files;
    let mut blocks: Vec<BlockData> = Vec::new();
    while rest.len() > 0
        invariant
            all == files@,
            rest@.len() <= all.len(),
            rest@ == all.skip(all.len() - rest@.len()),
            first_block_file_error(all, all.len() - rest@.len()) is None,
            blocks@.len() == all.len() - rest@.len(),
            forall|i: int|
                0 <= i < blocks@.len() ==> (all[i].1 is Ok && #[trigger] blocks@[i] == block_entry(all[i].1->Ok_0)),
        decreases rest@.len(),
    {
        let ghost k = all.len() - rest@.len();
        let (label, decoded) = rest.remove(0);
        proof {
            assert(all[k] == (label, decoded));
            assert(rest@ =~= all.skip(k + 1));
        }
        match decoded {
            Err(m) => {
                proof {
                    assert(first_block_file_error(all, k + 1) == Some(m@));
                    lemma_first_block_error_stays(all, k + 1, all.len() as int);
                }
                return Err(m);
            },
            Ok(raw) => {
                match raw.validate() {
                    Err(e) => {
                        let mut msg = label;
                        msg.append(": ");
                        msg.append(e.as_str());
                        proof {
                            reveal_strlit(": ");
                            assert(msg@ =~= block_file_error(all[k]).unwrap());
                            assert(first_block_file_error(all, k + 1) == Some(msg@));
                            lemma_first_block_error_stays(all, k + 1, all.len() as int);
                        }
                        return Err(msg);
                    },
                    Ok(()) => {
                        blocks.push(raw.into_block_data());
                    },
                }
            },
        }
    }
    if blocks.len() == 0 {
        let e = String::from_str("No block definitions found");
        return Err(e);
    }
    Ok(blocks)
}

/// The error reported for block files is that of the earliest file with
/// one, whatever the later files hold; there is none exactly when no file
/// has one.
pub proof fn lemma_earliest_block_error(
    files: Seq<(String, Result<BlockDefinitionRaw, String>)>,
    n: int,
)
    requires
        0 <= n <= files.len(),
    ensures
        forall|j: int|
            0 <= j < n && block_file_error(files[j]) is Some && (forall|k: int|
                0 <= k < j ==> #[trigger] block_file_error(files[k]) is None) ==> first_block_file_error(
                files,
                n,
            ) == block_file_error(files[j]),
        (forall|k: int| 0 <= k < n ==> #[trigger] block_file_error(files[k]) is None)
            <==> first_block_file_error(files, n) is None,
    decreases n,
{
    if n > 0 {
        lemma_earliest_block_error(files, n - 1);
        assert forall|j: int|
            0 <= j < n && block_file_error(files[j]) is Some && (forall|k: int|
                0 <= k < j ==> #[trigger] block_file_error(files[k]) is None) implies first_block_file_error(
            files,
            n,
        ) == block_file_error(files[j]) by {
            if j == n - 1 {
                assert forall|k: int| 0 <= k < n - 1 implies #[trigger] block_file_error(files[k]) is None by {}
            }
        }
        if first_block_file_error(files, n) is None {
            assert forall|k: int| 0 <= k < n implies #[trigger] block_file_error(files[k]) is None by {}
        }
    }
}

/// The error reported for item files is that of the earliest file with one,
/// whatever the later files hold; there is none exactly when no file has one.
pub proof fn lemma_earliest_item_error(
    files: Seq<(String, Result<ItemDefinitionRaw, String>)>,
    n: int,
)
    requires
        0 <= n <= files.len(),
    ensures
        forall|j: int|
            0 <= j < n && item_file_error(files[j]) is Some && (forall|k: int|
                0 <= k < j ==> #[trigger] item_file_error(files[k]) is None) ==> first_item_file_error(
                files,
                n,
            ) == item_file_error(files[j]),
        (forall|k: int| 0 <= k < n ==> #[trigger] item_file_error(files[k]) is None)
            <==> first_item_file_error(files, n) is None,
    decreases n,
{
    if n > 0 {
        lemma_earliest_item_error(files, n - 1);
        assert forall|j: int|
            0 <= j < n && item_file_error(files[j]) is Some && (forall|k: int|
                0 <= k < j ==> #[trigger] item_file_error(files[k]) is None) implies first_item_file_error(
            files,
            n,
        ) == item_file_error(files[j]) by {
            if j == n - 1 {
                assert forall|k: int| 0 <= k < n - 1 implies #[trigger] item_file_error(files[k]) is None by {}
            }
        }
        if first_item_file_error(files, n) is None {
            assert forall|k: int| 0 <= k < n implies #[trigger] item_file_error(files[k]) is None by {}
        }
    }
}

/// Once one of the first `n` block files has an error, it stays the first error
/// among any longer prefix.
pub proof fn lemma_first_block_error_stays(
    files: Seq<(String, Result<BlockDefinitionRaw, String>)>,
    n: int,
    m: int,
)
    requires
        n <= m,
    ensures
        first_block_file_error(files, n) is Some ==> first_block_file_error(files, m)
            == first_block_file_error(files, n),
    decreases m - n,
{
    if n < m {
        lemma_first_block_error_stays(files, n, m - 1);
    }
}

/// Turns the item data files of a directory, each given by a label and its
/// decoded definition or the message it failed with, into registry entries in
/// the same order; fails with the first file's error, or when there is no file.
pub fn assemble_item_definitions(files: Vec<(String, Result<ItemDefinitionRaw, String>)>) -> (r: Result<
    Vec<ItemDefinition>,
    String,
>)
    ensures
        match r {
            Ok(items) => {
                &&& first_item_file_error(files@, files@.len() as int) is None
                &&& files@.len() > 0
                &&& items@.len() == files@.len()
                &&& forall|i: int|
                    0 <= i < files@.len() ==> (files@[i].1 is Ok && #[trigger] items@[i]
                        == item_entry(files@[i].1->Ok_0))
            },
            Err(e) => match first_item_file_error(files@, files@.len() as int) {
                Some(m) => e@ == m,
                None => files@.len() == 0 && e@ == no_items_msg(),
            },
        },
{
    let ghost all = files@;
    let mut rest = files;
    let mut items: Vec<ItemDefinition> = Vec::new();
    while rest.len() > 0
        invariant
            all == files@,
            rest@.len() <= all.len(),
            rest@ == all.skip(all.len() - rest@.len()),
            first_item_file_error(all, all.len() - rest@.len()) is None,
            items@.len() == all.len() - rest@.len(),
            forall|i: int|
                0 <= i < items@.len() ==> (all[i].1 is Ok && #[trigger] items@[i] == item_entry(all[i].1->Ok_0)),
        decreases rest@.len(),
    {
        let ghost k = all.len() - rest@.len();
        let (label, decoded) = rest.remove(0);
        proof {
            assert(all[k] == (label, decoded));
            assert(rest@ =~= all.skip(k + 1));
        }
        match decoded {
            Err(m) => {
                proof {
                    assert(first_item_file_error(all, k + 1) == Some(m@));
                    lemma_first_item_error_stays(all, k + 1, all.len() as int);
                }
                return Err(m);
            },
            Ok(raw) => {
                match raw.validate() {
                    Err(e) => {
                        let mut msg = label;
                        msg.append(": ");
                        msg.append(e.as_str());
                        proof {
                            reveal_strlit(": ");
                            assert(msg@ =~= item_file_error(all[k]).unwrap());
                            assert(first_item_file_error(all, k + 1) == Some(msg@));
                            lemma_first_item_error_stays(all, k + 1, all.len() as int);
                        }
                        return Err(msg);
                    },
                    Ok(()) => {
                        items.push(raw.into_item_definition());
                    },
                }
            },
        }
    }
    if items.len() == 0 {
        let e = String::from_str("No item definitions found");
        return Err(e);
    }
    Ok(items)
}

/// Once one of the first `n` item files has an error, it stays the first error
/// among any longer prefix.
pub proof fn lemma_first_item_error_stays(
    files: Seq<(String, Result<ItemDefinitionRaw, String>)>,
    n: int,
    m: int,
)
    requires
        n <= m,
    ensures
        first_item_file_error(files, n) is Some ==> first_item_file_error(files, m)
            == first_item_file_error(files, n),
    decreases m - n,
{
    if n < m {
        lemma_first_item_error_stays(files, n, m - 1);
    }
}

/// The base game item named by block id `id_str`.
pub open spec fn base_item_named(id_str: Seq<char>) -> Option<Item> {
    if id_str == "dirt"@ {
        Some(Item::Dirt)
    } else if id_str == "grass"@ {
        Some(Item::Grass)
    } else if id_str == "stone"@ {
        Some(Item::Stone)
    } else {
        None
    }
}

/// The base game item that the block named `id_str` turns into, if any.
pub fn block_id_str_to_item(id_str: &str) -> (r: Option<Item>)
    ensures
        r == base_item_named(id_str@),
{
    let name = String::from_str(id_str);
    let dirt = String::from_str("dirt");
    let grass = String::from_str("grass");
    let stone = String::from_str("stone");
    if name == dirt {
        Some(Item::Dirt)
    } else if name == grass {
        Some(Item::Grass)
    } else if name == stone {
        Some(Item::Stone)
    } else {
        None
    }
}

} // verus!
