//! Item instances, item definitions and the registry that numbers them.
use vstd::prelude::*;
use std::collections::HashMap;
use rustc_hash::FxBuildHasher;
use crate::fx::{fx_names, fx_names_clear, fx_names_get, fx_names_insert, fx_names_new};

verus! {

/// An item as it sits in the world or in an inventory: the id of its definition.
#[derive(Debug, Clone, Copy, PartialEq, Eq, Hash, Structural)]
pub struct ItemInstance {
    pub id: u32,
}

impl ItemInstance {
    pub fn new(id: u32) -> (r: Self)
        ensures
            r.id == id,
    {
        Self { id }
    }

    pub fn get_id(&self) -> (r: u32)
        ensures
            r == self.id,
    {
        self.id
    }
}

/// The description of a kind of item, as loaded from the game data.
#[derive(Debug, Clone)]
pub struct ItemDefinition {
    /// The id the registry gave it, once registered.
    pub id: Option<u32>,
    pub id_str: String,
    pub name: String,
    pub max_stack: u32,
    pub item_type: String,
    pub texture_path: Option<String>,
    pub texture_index: Option<u32>,
}

impl ItemDefinition {
    /// The id of a registered definition.
    pub fn get_id(&self) -> (r: u32)
        requires
            self.id is Some,
        ensures
            r == self.id.unwrap(),
    {
        match self.id {
            Some(id) => id,
            None => 0,
        }
    }
}

/// Some definition of `items` has the name `id_str`.
pub open spec fn item_named(items: Seq<ItemDefinition>, id_str: Seq<char>) -> bool {
    exists|i: int| 0 <= i < items.len() && #[trigger] items[i].id_str@ == id_str
}

/// Numbers item definitions in the order they are registered and finds them by
/// number or by name.
pub struct ItemManager {
    items: Vec<ItemDefinition>,
    mapped_items: HashMap<String, u32, FxBuildHasher>,
}

impl ItemManager {
    /// The registered definitions; definition `i` has id `i`.
    pub closed spec fn items(&self) -> Seq<ItemDefinition> {
        self.items@
    }

    /// The id of each registered name.
    pub closed spec fn names(&self) -> Map<Seq<char>, u32> {
        fx_names(self.mapped_items)
    }

    /// Each definition carries its index as id, no two share a name, and the
    /// names map to the ids of the definitions that bear them.
    pub closed spec fn wf(&self) -> bool {
        &&& forall|i: int| 0 <= i < self.items@.len() ==> #[trigger] self.items@[i].id == Some(i as u32)
        &&& forall|i: int, j: int|
            0 <= i < self.items@.len() && 0 <= j < self.items@.len() && i != j ==> #[trigger] self.items@[i].id_str@
                != #[trigger] self.items@[j].id_str@
        &&& self.items@.len() <= u32::MAX
        &&& forall|name: Seq<char>| #[trigger] self.names().contains_key(name) <==> item_named(self.items@, name)
        &&& forall|name: Seq<char>|
            #[trigger] self.names().contains_key(name) ==> self.names()[name] < self.items@.len()
                && self.items@[self.names()[name] as int].id_str@ == name
    }

    pub fn new() -> (m: Self)
        ensures
            m.wf(),
            m.items() == Seq::<ItemDefinition>::empty(),
    {
        Self { items: Vec::with_capacity(64), mapped_items: fx_names_new() }
    }

    /// Registers `item` under the next id.
    pub fn register(&mut self, item: ItemDefinition)
        requires
            old(self).wf(),
            !item_named(old(self).items(), item.id_str@),
            old(self).items().len() < u32::MAX,
        ensures
            final(self).wf(),
            final(self).items() == old(self).items().push(
                ItemDefinition { id: Some(old(self).items().len() as u32), ..item },
            ),
    {
        let mut item = item;
        let id = self.items.len() as u32;
        item.id = Some(id);
        let name = item.id_str.clone();
        fx_names_insert(&mut self.mapped_items, name, id);
        self.items.push(item);
        proof {
            let n = self.items@;
            let o = old(self).items@;
            assert forall|i: int, j: int|
                0 <= i < n.len() && 0 <= j < n.len() && i != j implies #[trigger] n[i].id_str@
                != #[trigger] n[j].id_str@ by {
                if i == o.len() {
                    assert(o[j] == n[j]);
                } else if j == o.len() {
                    assert(o[i] == n[i]);
                } else {
                    assert(o[i] == n[i] && o[j] == n[j]);
                }
            }
            assert forall|nm: Seq<char>| #[trigger] self.names().contains_key(nm) <==> item_named(n, nm) by {
                if item_named(n, nm) && nm != item.id_str@ {
                    let w = choose|w: int| 0 <= w < n.len() && #[trigger] n[w].id_str@ == nm;
                    assert(o[w] == n[w]);
                }
                if old(self).names().contains_key(nm) {
                    let w = old(self).names()[nm] as int;
                    assert(n[w] == o[w]);
                }
                if nm == item.id_str@ {
                    assert(n[o.len() as int].id_str@ == nm);
                }
            }
            assert forall|nm: Seq<char>| #[trigger] self.names().contains_key(nm) implies self.names()[nm]
                < n.len() && n[self.names()[nm] as int].id_str@ == nm by {
                if nm != item.id_str@ {
                    let w = old(self).names()[nm] as int;
                    assert(n[w] == o[w]);
                }
            }
        }
    }

    /// The definition with id `id`.
    pub fn get_by_id(&self, id: u32) -> (r: Option<&ItemDefinition>)
        ensures
            id < self.items().len() ==> r == Some(&self.items()[id as int]),
            id >= self.items().len() ==> r is None,
    {
        if (id as usize) < self.items.len() {
            Some(&self.items[id as usize])
        } else {
            None
        }
    }

    /// The definition named `id_str`.
    pub fn get_by_string(&self, id_str: &str) -> (r: Option<&ItemDefinition>)
        requires
            self.wf(),
        ensures
            match r {
                Some(d) => d.id_str@ == id_str@ && exists|i: int|
                    0 <= i < self.items().len() && self.items()[i] == *d,
                None => !item_named(self.items(), id_str@),
            },
    {
        match self.get_id_by_string(id_str) {
            Some(id) => {
                proof {
                    assert(self.items()[id as int] == self.items@[id as int]);
                }
                self.get_by_id(id)
            },
            None => None,
        }
    }

    /// The id of the definition named `id_str`.
    pub fn get_id_by_string(&self, id_str: &str) -> (r: Option<u32>)
        requires
            self.wf(),
        ensures
            match r {
                Some(id) => id < self.items().len() && self.items()[id as int].id_str@ == id_str@,
                None => !item_named(self.items(), id_str@),
            },
    {
        let r = fx_names_get(&self.mapped_items, id_str);
        proof {
            assert(self.names().contains_key(id_str@) <==> item_named(self.items@, id_str@));
        }
        r
    }

    pub fn item_count(&self) -> (r: usize)
        ensures
            r == self.items().len(),
    {
        self.items.len()
    }

    /// Forgets every definition.
    pub fn dispose(&mut self)
        ensures
            final(self).wf(),
            final(self).items() == Seq::<ItemDefinition>::empty(),
    {
        self.items.clear();
        fx_names_clear(&mut self.mapped_items);
    }
}

impl Default for ItemManager {
    fn default() -> (m: Self)
        ensures
            m.wf(),
            m.items() == Seq::<ItemDefinition>::empty(),
    {
        Self::new()
    }
}

/// In a well-formed registry a name belongs to one definition only: two
/// definitions with the same name are the same definition.
pub proof fn lemma_names_distinct(m: ItemManager, i: int, j: int)
    requires
        m.wf(),
        0 <= i < m.items().len(),
        0 <= j < m.items().len(),
        m.items()[i].id_str@ == m.items()[j].id_str@,
    ensures
        i == j,
        m.items()[i].id == Some(i as u32),
{
}

} // verus!
