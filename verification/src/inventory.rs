//! Inventories: stacks of items in a bounded number of slots, and the rules
//! that say what kind each item is and how many of it fit in one stack.
use vstd::prelude::*;
use std::collections::HashMap;
use crate::items::ItemInstance;
use crate::text::{decimal, push_decimal};

verus! {

broadcast use vstd::std_specs::hash::group_hash_axioms;

/// What an item is used for.
#[derive(Debug, Clone, Copy, PartialEq, Eq, Structural)]
pub enum ItemType {
    Placeable,
    Weapon,
}

/// The items that blocks of the base game turn into when broken.
#[derive(Debug, Clone, Copy, PartialEq, Eq, Structural)]
pub enum Item {
    Dirt,
    Grass,
    Stone,
}

/// The rule for one item: its kind and the size of a full stack of it.
#[derive(Debug, Clone, Copy, PartialEq, Eq, Structural)]
pub struct ItemRule {
    pub item_type: ItemType,
    pub max_stack: u32,
}

/// The rules of every known item, by item id.
pub struct ItemRules {
    rules: HashMap<u32, ItemRule>,
}

impl ItemRules {
    /// The rule recorded for each item id.
    pub closed spec fn rule_map(&self) -> Map<u32, ItemRule> {
        self.rules@
    }

    /// Records (or replaces) the rule of item `item_id`.
    pub fn add_rule(&mut self, item_id: u32, item_type: ItemType, max_stack: u32)
        ensures
            final(self).rule_map() == old(self).rule_map().insert(
                item_id,
                ItemRule { item_type, max_stack },
            ),
    {
        self.rules.insert(item_id, ItemRule { item_type, max_stack });
    }

    /// The rule of item `item_id`, if one was recorded.
    pub fn get_rule(&self, item_id: u32) -> (r: Option<ItemRule>)
        ensures
            r == if self.rule_map().contains_key(item_id) {
                Some(self.rule_map()[item_id])
            } else {
                None::<ItemRule>
            },
    {
        match self.rules.get(&item_id) {
            Some(rule) => Some(*rule),
            None => None,
        }
    }

    /// The kind of item `item_id`, if a rule was recorded for it.
    pub fn get_item_type(&self, item_id: u32) -> (r: Option<ItemType>)
        ensures
            r == if self.rule_map().contains_key(item_id) {
                Some(self.rule_map()[item_id].item_type)
            } else {
                None::<ItemType>
            },
    {
        match self.get_rule(item_id) {
            Some(rule) => Some(rule.item_type),
            None => None,
        }
    }

    /// The size of a full stack of item `item_id`, if a rule was recorded for it.
    pub fn get_max_stack(&self, item_id: u32) -> (r: Option<u32>)
        ensures
            r == if self.rule_map().contains_key(item_id) {
                Some(self.rule_map()[item_id].max_stack)
            } else {
                None::<u32>
            },
    {
        match self.get_rule(item_id) {
            Some(rule) => Some(rule.max_stack),
            None => None,
        }
    }
}

impl Default for ItemRules {
    fn default() -> (r: Self)
        ensures
            r.rule_map() == Map::<u32, ItemRule>::empty(),
    {
        Self { rules: HashMap::new() }
    }
}

/// Two optional names are the same text.
pub open spec fn same_name(a: Option<String>, b: Option<String>) -> bool {
    match (a, b) {
        (Some(x), Some(y)) => x@ == y@,
        (None, None) => true,
        _ => false,
    }
}

/// One item as the player holds it: what it is, and the name the player gave it.
#[derive(Debug, Clone)]
pub struct ItemData {
    pub item: ItemInstance,
    pub custom_name: Option<String>,
}

/// Two items are interchangeable: the same item under the same name.
pub open spec fn same_item(a: ItemData, b: ItemData) -> bool {
    a.item == b.item && same_name(a.custom_name, b.custom_name)
}

impl ItemData {
    pub fn new(item: ItemInstance, custom_name: Option<String>) -> (r: Self)
        ensures
            r.item == item,
            r.custom_name == custom_name,
    {
        Self { item, custom_name }
    }

    pub fn get_item(&self) -> (r: ItemInstance)
        ensures
            r == self.item,
    {
        self.item
    }

    /// The kind of this item under `rules`.
    pub fn get_item_type(&self, rules: &ItemRules) -> (r: ItemType)
        requires
            rules.rule_map().contains_key(self.item.id),
        ensures
            r == rules.rule_map()[self.item.id].item_type,
    {
        match rules.get_item_type(self.item.id) {
            Some(t) => t,
            None => ItemType::Placeable,
        }
    }

    /// Renames the item, or takes its name away with `None`.
    pub fn modify_custom_name(&mut self, custom_name: Option<String>)
        ensures
            final(self).item == old(self).item,
            final(self).custom_name == custom_name,
    {
        self.custom_name = custom_name;
    }

    /// A copy of this item, with the same name.
    pub fn duplicate(&self) -> (r: Self)
        ensures
            r.item == self.item,
            same_name(r.custom_name, self.custom_name),
    {
        let custom_name = match &self.custom_name {
            Some(s) => Some(s.clone()),
            None => None,
        };
        Self { item: self.item, custom_name }
    }

    /// This item and `other` are interchangeable.
    pub fn same_as(&self, other: &ItemData) -> (r: bool)
        ensures
            r == same_item(*self, *other),
    {
        if self.item.id != other.item.id {
            return false;
        }
        match (&self.custom_name, &other.custom_name) {
            (Some(a), Some(b)) => *a == *b,
            (None, None) => true,
            _ => false,
        }
    }
}

/// The stack of `quantity` of `item`.
pub closed spec fn stack_of(item: ItemData, quantity: u32) -> ItemStack {
    ItemStack { item, quantity }
}

/// A number of one item held together in a slot.
#[derive(Debug, Clone)]
pub struct ItemStack {
    item: ItemData,
    quantity: u32,
}

impl ItemStack {
    /// The item held.
    pub closed spec fn held(&self) -> ItemData {
        self.item
    }

    /// How many of it are held.
    pub closed spec fn count(&self) -> u32 {
        self.quantity
    }

    /// The same stack holding `quantity` instead.
    pub closed spec fn with_count(self, quantity: u32) -> ItemStack {
        ItemStack { quantity, ..self }
    }

    pub fn new(item: ItemData, quantity: u32) -> (r: Self)
        ensures
            r == stack_of(item, quantity),
            r.held() == item,
            r.count() == quantity,
    {
        Self { item, quantity }
    }

    pub fn item(&self) -> (r: &ItemData)
        ensures
            *r == self.held(),
    {
        &self.item
    }

    pub fn quantity(&self) -> (r: u32)
        ensures
            r == self.count(),
    {
        self.quantity
    }

    /// `other` holds the same item under the same name, so the two may merge.
    pub fn can_stack_with(&self, other: &ItemStack) -> (r: bool)
        ensures
            r == same_item(self.held(), other.held()),
    {
        self.item.same_as(&other.item)
    }

    /// Moves into this stack as much of `other` as a count can hold; what is
    /// left stays in `other`. The two counts keep their sum.
    pub fn stack_with(&mut self, other: &mut ItemStack)
        ensures
            final(self).held() == old(self).held(),
            final(other).held() == old(other).held(),
            final(self).count() + final(other).count() == old(self).count() + old(other).count(),
            final(self).count() == if old(self).count() + old(other).count() <= u32::MAX {
                old(self).count() + old(other).count()
            } else {
                u32::MAX as int
            },
    {
        let room = u32::MAX - self.quantity;
        let moved = if other.quantity <= room {
            other.quantity
        } else {
            room
        };
        self.quantity = self.quantity + moved;
        other.quantity = other.quantity - moved;
    }

    /// Adds `amount` to the count.
    pub fn add(&mut self, amount: u32)
        requires
            old(self).count() + amount <= u32::MAX,
        ensures
            final(self).held() == old(self).held(),
            final(self).count() == old(self).count() + amount,
    {
        self.quantity = self.quantity + amount;
    }

    /// Takes `amount` from the count, stopping at zero.
    pub fn remove(&mut self, amount: u32)
        ensures
            final(self).held() == old(self).held(),
            final(self).count() == if amount <= old(self).count() {
                old(self).count() - amount
            } else {
                0
            },
    {
        self.quantity = self.quantity.saturating_sub(amount);
    }
}

/// Stack `s` can take `amount` more of `item` without going over `max_stack`.
pub open spec fn takes(s: ItemStack, item: ItemData, amount: u32, max_stack: u32) -> bool {
    same_item(s.held(), item) && s.count() + amount <= max_stack
}

/// `i` is the first slot of `slots` that can take `amount` more of `item`.
pub open spec fn is_first_taker(
    slots: Seq<ItemStack>,
    item: ItemData,
    amount: u32,
    max_stack: u32,
    i: int,
) -> bool {
    &&& 0 <= i < slots.len()
    &&& takes(slots[i], item, amount, max_stack)
    &&& forall|j: int| 0 <= j < i ==> !#[trigger] takes(slots[j], item, amount, max_stack)
}

/// Some slot of `slots` can take `amount` more of `item`.
pub open spec fn has_taker(slots: Seq<ItemStack>, item: ItemData, amount: u32, max_stack: u32) -> bool {
    exists|i: int| 0 <= i < slots.len() && #[trigger] takes(slots[i], item, amount, max_stack)
}

/// The first slot of `slots` that can take `amount` more of `item`.
pub open spec fn first_taker(slots: Seq<ItemStack>, item: ItemData, amount: u32, max_stack: u32) -> int {
    choose|i: int| is_first_taker(slots, item, amount, max_stack, i)
}

/// The slot that receives `amount` of `item`: the first stack of it with room
/// for the whole amount, else a new slot at the end when one is free and the
/// amount fits in one stack, else none.
pub open spec fn add_target(
    slots: Seq<ItemStack>,
    limit: nat,
    item: ItemData,
    amount: u32,
    max_stack: u32,
) -> Option<int> {
    if has_taker(slots, item, amount, max_stack) {
        Some(first_taker(slots, item, amount, max_stack))
    } else if slots.len() < limit && amount <= max_stack {
        Some(slots.len() as int)
    } else {
        None
    }
}

/// The slots once `amount` of `item` went to its target slot.
pub open spec fn slots_after_add(
    slots: Seq<ItemStack>,
    limit: nat,
    item: ItemData,
    amount: u32,
    max_stack: u32,
) -> Seq<ItemStack> {
    match add_target(slots, limit, item, amount, max_stack) {
        Some(i) => if i < slots.len() {
            slots.update(i, slots[i].with_count((slots[i].count() + amount) as u32))
        } else {
            slots.push(stack_of(item, amount))
        },
        None => slots,
    }
}

/// The slots once `amount` of `item` was taken from slot `slot`: nothing
/// changes unless that slot holds that item; a stack that runs out goes away.
pub open spec fn slots_after_remove(slots: Seq<ItemStack>, item: ItemData, amount: u32, slot: int) -> Seq<
    ItemStack,
> {
    if 0 <= slot < slots.len() && same_item(slots[slot].held(), item) {
        let left: u32 = if amount <= slots[slot].count() {
            (slots[slot].count() - amount) as u32
        } else {
            0
        };
        if left == 0 {
            slots.remove(slot)
        } else {
            slots.update(slot, slots[slot].with_count(left))
        }
    } else {
        slots
    }
}

/// The slots with slots `a` and `b` exchanged.
pub open spec fn swapped(slots: Seq<ItemStack>, a: int, b: int) -> Seq<ItemStack> {
    slots.update(a, slots[b]).update(b, slots[a])
}

/// The stack holds at least one item.
pub open spec fn is_nonempty_stack(s: ItemStack) -> bool {
    s.count() > 0
}

/// No slot holds an empty stack.
pub open spec fn no_empty_stacks(slots: Seq<ItemStack>) -> bool {
    forall|i: int| 0 <= i < slots.len() ==> #[trigger] slots[i].count() > 0
}

/// A bounded number of slots, each holding a stack of one item.
pub struct Inventory {
    pub capacity: usize,
    pub slot_data: Vec<ItemStack>,
}

impl Inventory {
    /// The number of slots the inventory has room for.
    pub closed spec fn slot_limit(&self) -> nat {
        self.capacity as nat
    }

    /// An empty inventory with room for `capacity` slots.
    pub fn default(capacity: usize) -> (r: Self)
        ensures
            r.slot_limit() == capacity,
            r.slot_data@ == Seq::<ItemStack>::empty(),
    {
        Self { capacity, slot_data: Vec::new() }
    }

    pub fn is_empty(&self) -> (r: bool)
        ensures
            r == (self.slot_data@.len() == 0),
    {
        self.slot_data.len() == 0
    }

    /// The number of slots in use.
    pub fn slot_count(&self) -> (r: usize)
        ensures
            r == self.slot_data@.len(),
    {
        self.slot_data.len()
    }

    /// The number of slots still free.
    pub fn free_slots_count(&self) -> (r: usize)
        ensures
            r == if self.slot_data@.len() <= self.slot_limit() {
                self.slot_limit() - self.slot_data@.len()
            } else {
                0
            },
    {
        self.capacity.saturating_sub(self.slot_data.len())
    }

    /// Every slot is in use.
    pub fn is_full(&self) -> (r: bool)
        ensures
            r == (self.slot_data@.len() >= self.slot_limit()),
    {
        self.slot_data.len() >= self.capacity
    }

    /// Puts `quantity` of `item` in the first stack of it with room for the
    /// whole amount, or else in a new slot; returns the slot used, or `None`
    /// when the item found no place and nothing changed.
    pub fn add_item(&mut self, item: ItemData, quantity: u32, rules: &ItemRules) -> (r: Option<usize>)
        requires
            rules.rule_map().contains_key(item.item.id),
        ensures
            ({
                let max = rules.rule_map()[item.item.id].max_stack;
                &&& r == match add_target(old(self).slot_data@, old(self).slot_limit(), item, quantity, max) {
                    Some(i) => Some(i as usize),
                    None => None::<usize>,
                }
                &&& final(self).slot_data@ == slots_after_add(
                    old(self).slot_data@,
                    old(self).slot_limit(),
                    item,
                    quantity,
                    max,
                )
                &&& final(self).slot_limit() == old(self).slot_limit()
            }),
    {
        let max = match rules.get_max_stack(item.item.id) {
            Some(m) => m,
            None => 0,
        };
        let ghost slots = self.slot_data@;
        let mut i: usize = 0;
        while i < self.slot_data.len()
            invariant
                self.slot_data@ == slots,
                self.capacity == old(self).capacity,
                slots == old(self).slot_data@,
                max == rules.rule_map()[item.item.id].max_stack,
                i <= slots.len(),
                forall|j: int| 0 <= j < i ==> !#[trigger] takes(slots[j], item, quantity, max),
            decreases slots.len() - i,
        {
            let fits = self.slot_data[i].item.same_as(&item) && self.slot_data[i].quantity <= max
                && quantity <= max - self.slot_data[i].quantity;
            if fits {
                let mut stack = self.slot_data.remove(i);
                stack.quantity = stack.quantity + quantity;
                self.slot_data.insert(i, stack);
                proof {
                    assert(is_first_taker(slots, item, quantity, max, i as int));
                    assert(has_taker(slots, item, quantity, max));
                    let k = first_taker(slots, item, quantity, max);
                    if k < i {
                        assert(!takes(slots[k], item, quantity, max));
                    }
                    if i < k {
                        assert(!takes(slots[i as int], item, quantity, max));
                    }
                    assert(k == i);
                    assert(self.slot_data@ =~= slots.update(
                        i as int,
                        slots[i as int].with_count((slots[i as int].count() + quantity) as u32),
                    ));
                }
                return Some(i);
            }
            i = i + 1;
        }
        proof {
            assert(!has_taker(slots, item, quantity, max));
        }
        if self.slot_data.len() < self.capacity && quantity <= max {
            let n = self.slot_data.len();
            self.slot_data.push(ItemStack::new(item, quantity));
            Some(n)
        } else {
            None
        }
    }

    /// Takes `quantity` of `item` from slot `slot`, removing the slot when its
    /// stack runs out; returns whether the slot held that item.
    pub fn remove_item(&mut self, item: ItemData, quantity: u32, slot: usize) -> (r: bool)
        ensures
            r == (slot < old(self).slot_data@.len() && same_item(
                old(self).slot_data@[slot as int].held(),
                item,
            )),
            final(self).slot_data@ == slots_after_remove(old(self).slot_data@, item, quantity, slot as int),
            final(self).slot_limit() == old(self).slot_limit(),
    {
        if slot >= self.slot_data.len() {
            return false;
        }
        if !self.slot_data[slot].item.same_as(&item) {
            return false;
        }
        let ghost slots = self.slot_data@;
        let mut stack = self.slot_data.remove(slot);
        stack.remove(quantity);
        if stack.quantity > 0 {
            self.slot_data.insert(slot, stack);
            proof {
                assert(stack == slots[slot as int].with_count(stack.quantity));
                assert(self.slot_data@ =~= slots.update(slot as int, slots[slot as int].with_count(stack.quantity)));
            }
        }
        true
    }

    /// The stack in slot `slot`.
    pub fn get_slot(&self, slot: usize) -> (r: Option<&ItemStack>)
        ensures
            slot < self.slot_data@.len() ==> r == Some(&self.slot_data@[slot as int]),
            slot >= self.slot_data@.len() ==> r is None,
    {
        if slot < self.slot_data.len() {
            Some(&self.slot_data[slot])
        } else {
            None
        }
    }

    /// Exchanges the stacks of slots `a` and `b` when both are in use;
    /// returns whether it did.
    pub fn swap_slots(&mut self, a: usize, b: usize) -> (r: bool)
        ensures
            r == (a < old(self).slot_data@.len() && b < old(self).slot_data@.len()),
            r ==> final(self).slot_data@ == swapped(old(self).slot_data@, a as int, b as int),
            !r ==> final(self).slot_data@ == old(self).slot_data@,
            final(self).slot_limit() == old(self).slot_limit(),
    {
        let n = self.slot_data.len();
        if a >= n || b >= n {
            return false;
        }
        if a == b {
            proof {
                assert(swapped(self.slot_data@, a as int, b as int) =~= self.slot_data@);
            }
            return true;
        }
        let (lo, hi) = if a < b {
            (a, b)
        } else {
            (b, a)
        };
        let ghost slots = self.slot_data@;
        let upper = self.slot_data.remove(hi);
        let lower = self.slot_data.remove(lo);
        self.slot_data.insert(lo, upper);
        self.slot_data.insert(hi, lower);
        proof {
            assert(self.slot_data@ =~= swapped(slots, a as int, b as int));
        }
        true
    }

    /// Empties every slot.
    pub fn clear(&mut self)
        ensures
            final(self).slot_data@ == Seq::<ItemStack>::empty(),
            final(self).slot_limit() == old(self).slot_limit(),
    {
        self.slot_data.clear();
    }

    /// A copy of each stack's item with its quantity, slot by slot.
    pub fn get_all_items(&self) -> (r: Vec<(ItemData, u32)>)
        ensures
            r@.len() == self.slot_data@.len(),
            forall|i: int|
                0 <= i < r@.len() ==> {
                    &&& (#[trigger] r@[i]).0.item == self.slot_data@[i].held().item
                    &&& same_name(r@[i].0.custom_name, self.slot_data@[i].held().custom_name)
                    &&& r@[i].1 == self.slot_data@[i].count()
                },
    {
        let mut out: Vec<(ItemData, u32)> = Vec::new();
        let mut i: usize = 0;
        while i < self.slot_data.len()
            invariant
                i <= self.slot_data@.len(),
                out@.len() == i,
                forall|j: int|
                    0 <= j < i ==> {
                        &&& (#[trigger] out@[j]).0.item == self.slot_data@[j].held().item
                        &&& same_name(out@[j].0.custom_name, self.slot_data@[j].held().custom_name)
                        &&& out@[j].1 == self.slot_data@[j].count()
                    },
            decreases self.slot_data@.len() - i,
        {
            let stack = &self.slot_data[i];
            out.push((stack.item.duplicate(), stack.quantity));
            i = i + 1;
        }
        out
    }

    /// Slot `slot` is in use.
    pub fn is_slot_correct(&self, slot: usize) -> (r: bool)
        ensures
            r == (slot < self.slot_data@.len()),
    {
        slot < self.slot_data.len()
    }

    /// The quantity in slot `slot`, 0 for a slot not in use.
    pub fn get_slot_quantity(&self, slot: usize) -> (r: u32)
        ensures
            r == if slot < self.slot_data@.len() {
                self.slot_data@[slot as int].count()
            } else {
                0
            },
    {
        if slot < self.slot_data.len() {
            self.slot_data[slot].quantity
        } else {
            0
        }
    }

    /// Drops the slots whose stack is empty, keeping the others in order.
    pub fn retain(&mut self)
        ensures
            final(self).slot_data@ == old(self).slot_data@.filter(|s: ItemStack| is_nonempty_stack(s)),
            no_empty_stacks(final(self).slot_data@),
            final(self).slot_limit() == old(self).slot_limit(),
    {
        let ghost slots = self.slot_data@;
        let ghost keep = |s: ItemStack| is_nonempty_stack(s);
        let mut rest: Vec<ItemStack> = Vec::new();
        std::mem::swap(&mut rest, &mut self.slot_data);
        let mut kept: Vec<ItemStack> = Vec::new();
        while rest.len() > 0
            invariant
                keep == (|s: ItemStack| is_nonempty_stack(s)),
                rest@.len() <= slots.len(),
                rest@ == slots.skip(slots.len() - rest@.len()),
                kept@ == slots.take(slots.len() - rest@.len()).filter(keep),
                self.capacity == old(self).capacity,
            decreases rest@.len(),
        {
            let ghost k = slots.len() - rest@.len();
            let s = rest.remove(0);
            proof {
                assert(s == slots[k]);
                let t = slots.take(k + 1);
                assert(t.drop_last() =~= slots.take(k));
                assert(t.last() == slots[k]);
                assert(t.filter(keep) == if keep(slots[k]) {
                    slots.take(k).filter(keep).push(slots[k])
                } else {
                    slots.take(k).filter(keep)
                }) by {
                    reveal(Seq::filter);
                }
            }
            let ghost before = kept@;
            if s.quantity > 0 {
                kept.push(s);
            }
            proof {
                assert(rest@ =~= slots.skip(slots.len() - rest@.len()));
                assert(slots.len() - rest@.len() == k + 1);
                assert(before == slots.take(k).filter(keep));
                assert(keep(slots[k]) == (s.quantity > 0));
                assert(kept@ == slots.take(k + 1).filter(keep));
            }
        }
        proof {
            assert(slots.take(slots.len() as int) =~= slots);
            broadcast use vstd::seq_lib::group_filter_ensures;
            assert forall|i: int| 0 <= i < kept@.len() implies #[trigger] kept@[i].count() > 0 by {
                assert(keep(slots.filter(keep)[i]));
            }
        }
        self.slot_data = kept;
    }

    /// The inventory as text: `Inventory: [` then `slot: quantity` for each
    /// slot, separated by `, `, then `]`.
    pub fn to_string(&self) -> (r: String)
        ensures
            r@ == inventory_text(self.slot_data@),
    {
        let mut s = String::from_str("Inventory: [");
        proof {
            reveal_strlit("Inventory: [");
        }
        let mut i: usize = 0;
        while i < self.slot_data.len()
            invariant
                i <= self.slot_data@.len(),
                s@ == inventory_prefix() + slot_list(self.slot_data@, i as int),
            decreases self.slot_data@.len() - i,
        {
            if i > 0 {
                s.append(", ");
                proof {
                    reveal_strlit(", ");
                }
            }
            push_decimal(&mut s, i as u64);
            s.append(": ");
            proof {
                reveal_strlit(": ");
            }
            push_decimal(&mut s, self.slot_data[i].quantity as u64);
            proof {
                assert(s@ =~= inventory_prefix() + slot_list(self.slot_data@, i + 1));
            }
            i = i + 1;
        }
        s.append("]");
        proof {
            reveal_strlit("]");
            assert(s@ =~= inventory_text(self.slot_data@));
        }
        s
    }
}

/// The text that opens an inventory's listing.
pub open spec fn inventory_prefix() -> Seq<char> {
    seq!['I', 'n', 'v', 'e', 'n', 't', 'o', 'r', 'y', ':', ' ', '[']
}

/// `slot: quantity` for slot `i` of `slots`.
pub open spec fn slot_entry(slots: Seq<ItemStack>, i: int) -> Seq<char> {
    decimal(i as nat) + seq![':', ' '] + decimal(slots[i].count() as nat)
}

/// The entries of the first `n` slots, separated by `, `.
pub open spec fn slot_list(slots: Seq<ItemStack>, n: int) -> Seq<char>
    decreases n,
{
    if n <= 0 {
        Seq::empty()
    } else if n == 1 {
        slot_entry(slots, 0)
    } else {
        slot_list(slots, n - 1) + seq![',', ' '] + slot_entry(slots, n - 1)
    }
}

/// The whole listing of an inventory holding `slots`.
pub open spec fn inventory_text(slots: Seq<ItemStack>) -> Seq<char> {
    inventory_prefix() + slot_list(slots, slots.len() as int) + seq![']']
}

/// The listing of the first `n` slots does not look past them.
proof fn lemma_slot_list_push(slots: Seq<ItemStack>, st: ItemStack, n: int)
    requires
        0 <= n <= slots.len(),
    ensures
        slot_list(slots.push(st), n) == slot_list(slots, n),
    decreases n,
{
    if n > 0 {
        lemma_slot_list_push(slots, st, n - 1);
        assert(slots.push(st)[n - 1] == slots[n - 1]);
        assert(slots.push(st)[0] == slots[0]);
    }
}

/// Adding a stack after the last slot adds `, slot: quantity` (without the
/// comma for the first slot) at the end of the listing, before its closing
/// bracket: the listing shows every slot, in order.
pub proof fn lemma_listing_shows_every_slot(slots: Seq<ItemStack>, st: ItemStack)
    ensures
        inventory_text(slots.push(st)) == inventory_text(slots).drop_last() + (if slots.len() > 0 {
            seq![',', ' ']
        } else {
            Seq::<char>::empty()
        }) + decimal(slots.len()) + seq![':', ' '] + decimal(st.count() as nat) + seq![']'],
{
    let n = slots.len() as int;
    lemma_slot_list_push(slots, st, n);
    let t = slots.push(st);
    assert(t[n] == st);
    assert(inventory_text(slots).drop_last() =~= inventory_prefix() + slot_list(slots, n));
    if n == 0 {
        assert(slot_list(t, 1) == slot_entry(t, 0));
        assert(inventory_text(t) =~= inventory_prefix() + slot_list(slots, n) + Seq::<char>::empty()
            + decimal(slots.len()) + seq![':', ' '] + decimal(st.count() as nat) + seq![']']);
    } else {
        assert(slot_list(t, n + 1) == slot_list(t, n) + seq![',', ' '] + slot_entry(t, n));
        assert(inventory_text(t) =~= inventory_prefix() + slot_list(slots, n) + seq![',', ' ']
            + decimal(slots.len()) + seq![':', ' '] + decimal(st.count() as nat) + seq![']']);
    }
}

/// Exchanging the same two slots twice gives back the slots as they were.
pub proof fn lemma_swap_twice(slots: Seq<ItemStack>, a: int, b: int)
    requires
        0 <= a < slots.len(),
        0 <= b < slots.len(),
    ensures
        swapped(swapped(slots, a, b), a, b) == slots,
{
    assert(swapped(swapped(slots, a, b), a, b) =~= slots);
}

/// Taking back from the slot that received an addition the amount that was
/// added gives back the slots as they were, when no stack was empty before.
pub proof fn lemma_remove_undoes_add(
    slots: Seq<ItemStack>,
    limit: nat,
    item: ItemData,
    amount: u32,
    max_stack: u32,
)
    requires
        no_empty_stacks(slots),
        add_target(slots, limit, item, amount, max_stack) is Some,
    ensures
        slots_after_remove(
            slots_after_add(slots, limit, item, amount, max_stack),
            item,
            amount,
            add_target(slots, limit, item, amount, max_stack).unwrap(),
        ) == slots,
{
    let i = add_target(slots, limit, item, amount, max_stack).unwrap();
    let after = slots_after_add(slots, limit, item, amount, max_stack);
    if has_taker(slots, item, amount, max_stack) {
        let w = choose|w: int| 0 <= w < slots.len() && #[trigger] takes(slots[w], item, amount, max_stack);
        lemma_first_taker_exists(slots, item, amount, max_stack, w);
        assert(is_first_taker(slots, item, amount, max_stack, i));
        assert(slots[i].count() > 0);
        assert(after[i].count() == slots[i].count() + amount);
        assert(after[i].with_count(slots[i].count()) == slots[i]);
        assert(slots_after_remove(after, item, amount, i) =~= slots);
    } else {
        assert(same_name(item.custom_name, item.custom_name));
        assert(after[i] == stack_of(item, amount));
        assert(after.remove(i) =~= slots);
    }
}

/// When some slot can take the amount, a first such slot exists.
pub proof fn lemma_first_taker_exists(
    slots: Seq<ItemStack>,
    item: ItemData,
    amount: u32,
    max_stack: u32,
    w: int,
)
    requires
        0 <= w < slots.len(),
        takes(slots[w], item, amount, max_stack),
    ensures
        is_first_taker(slots, item, amount, max_stack, first_taker(slots, item, amount, max_stack)),
    decreases w,
{
    if exists|j: int| 0 <= j < w && #[trigger] takes(slots[j], item, amount, max_stack) {
        let j = choose|j: int| 0 <= j < w && #[trigger] takes(slots[j], item, amount, max_stack);
        lemma_first_taker_exists(slots, item, amount, max_stack, j);
    } else {
        assert(is_first_taker(slots, item, amount, max_stack, w));
    }
}

/// An addition never uses more slots than the inventory has room for, and the
/// stack that receives it stays within a full stack.
pub proof fn lemma_add_respects_limits(
    slots: Seq<ItemStack>,
    limit: nat,
    item: ItemData,
    amount: u32,
    max_stack: u32,
)
    requires
        slots.len() <= limit,
    ensures
        slots_after_add(slots, limit, item, amount, max_stack).len() <= limit,
        add_target(slots, limit, item, amount, max_stack) matches Some(i) ==> slots_after_add(
            slots,
            limit,
            item,
            amount,
            max_stack,
        )[i].count() <= max_stack,
{
    if has_taker(slots, item, amount, max_stack) {
        let w = choose|w: int| 0 <= w < slots.len() && #[trigger] takes(slots[w], item, amount, max_stack);
        lemma_first_taker_exists(slots, item, amount, max_stack, w);
    }
}

} // verus!
