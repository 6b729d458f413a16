//! Bookkeeping of the GPU buffer that holds every mesh of the world.
//!
//! The allocator decides where each piece of data goes in the buffer, keeps
//! the free regions, stages the bytes to upload in an arena, and records, in
//! order, the GPU work that the renderer must carry out: uploads and moves to a
//! bigger buffer.
use vstd::prelude::*;
use vstd::set_lib::*;
use crate::entry::{AllocEntry, EntryId, WriteOperation};
use crate::gap::{
    Gap, GapManager, gaps_within, region_holds, lemma_insert_gap, gaps_hold, gaps_disjoint, gaps_sorted,
    gaps_nonempty, regions_disjoint, released, gap_slot,
};
use crate::id_pool::{IdPool, lemma_new_id_is_fresh, vec_capacity, id_taken, state_after_take};
use std::collections::HashSet;
use rustc_hash::FxBuildHasher;
use crate::fx::fx_set_u32_contains;
use crate::upload_order::{
    entry_bytes, op_touches, uploads_settled, lemma_settled_place, lemma_settled_rewrite,
    lemma_settled_remove, lemma_filter_keeps_entry, lemma_untouched_bytes,
};

verus! {

/// Whether an entry's id is one of `ids`.
pub open spec fn entry_in(ids: Set<EntryId>) -> spec_fn(AllocEntry) -> bool {
    |e: AllocEntry| ids.contains(e.id)
}

/// Capacity, in bytes, of the buffer the allocator starts with.
pub const BUFFER_BASE_SIZE: u32 = 4194304;

/// The smallest buffer the renderer makes: 256 kilobytes.
pub const BUFFER_MIN_CAPACITY: u32 = 262144;

/// The largest buffer the renderer makes: 256 megabytes.
pub const BUFFER_MAX_CAPACITY: u32 = 268435456;

/// `capacity` brought within the sizes a buffer may have.
pub fn clamp_buffer_capacity(capacity: u32) -> (r: u32)
    ensures
        r == if capacity < BUFFER_MIN_CAPACITY {
            BUFFER_MIN_CAPACITY
        } else if capacity > BUFFER_MAX_CAPACITY {
            BUFFER_MAX_CAPACITY
        } else {
            capacity
        },
{
    if capacity < BUFFER_MIN_CAPACITY {
        BUFFER_MIN_CAPACITY
    } else if capacity > BUFFER_MAX_CAPACITY {
        BUFFER_MAX_CAPACITY
    } else {
        capacity
    }
}

/// Initial capacity reserved for the staging arena.
pub const ARENA_MIN_SIZE: usize = 4194304;

/// Why a request to the allocator failed.
#[derive(Debug, PartialEq, Eq, Structural, Clone, Copy)]
pub enum AllocError {
    /// No entry has the given id.
    InvalidId,
    /// The data does not fit, even after growing the buffer.
    NotEnoughSpace,
}

/// A copy of `len` bytes from `src_offset` of the current buffer to
/// `dst_offset` of its replacement.
#[derive(Debug, PartialEq, Eq, Structural, Clone, Copy)]
pub struct BufferCopy {
    pub src_offset: usize,
    pub dst_offset: usize,
    pub len: usize,
}

/// GPU work that the allocator asks for, to be carried out in order.
pub enum GpuCommand {
    /// Upload `bytes` at `offset` of the current buffer.
    Write { offset: usize, bytes: Vec<u8> },
    /// Create a buffer of `capacity` bytes, carry out `copies` from the current
    /// buffer into it, make it the current buffer and schedule the old one for
    /// destruction.
    Reallocate { capacity: u32, copies: Vec<BufferCopy> },
}

/// Some entry of `data` holds byte `b`.
pub open spec fn entries_hold(data: Seq<AllocEntry>, b: int) -> bool {
    exists|i: int| 0 <= i < data.len() && #[trigger] data[i].holds(b)
}

/// No two entries share a byte.
pub open spec fn entries_disjoint(data: Seq<AllocEntry>) -> bool {
    forall|i: int, j: int|
        0 <= i < data.len() && 0 <= j < data.len() && i != j ==> regions_disjoint(
            #[trigger] data[i].position,
            data[i].length,
            #[trigger] data[j].position,
            data[j].length,
        )
}

/// Every entry ends at or before `cap`.
pub open spec fn entries_within(data: Seq<AllocEntry>, cap: int) -> bool {
    forall|i: int| 0 <= i < data.len() ==> #[trigger] data[i].position + data[i].length <= cap
}

/// No entry shares a byte with a gap.
pub open spec fn entries_apart_from_gaps(data: Seq<AllocEntry>, gaps: Seq<Gap>) -> bool {
    forall|i: int, j: int|
        0 <= i < data.len() && 0 <= j < gaps.len() ==> regions_disjoint(
            #[trigger] data[i].position,
            data[i].length,
            #[trigger] gaps[j].position,
            gaps[j].length,
        )
}

/// The entries are ordered by their start.
pub open spec fn entries_sorted(data: Seq<AllocEntry>) -> bool {
    forall|i: int, j: int| 0 <= i <= j < data.len() ==> data[i].position <= data[j].position
}

/// No two entries have the same id.
pub open spec fn ids_distinct(data: Seq<AllocEntry>) -> bool {
    forall|i: int, j: int|
        0 <= i < data.len() && 0 <= j < data.len() && i != j ==> #[trigger] data[i].id
            != #[trigger] data[j].id
}

/// Some entry has id `id`.
pub open spec fn has_id(data: Seq<AllocEntry>, id: EntryId) -> bool {
    exists|i: int| 0 <= i < data.len() && #[trigger] data[i].id == id
}

/// With distinct ids, an entry is found again by its id.
pub proof fn lemma_index_of_id(data: Seq<AllocEntry>, i: int)
    requires
        ids_distinct(data),
        0 <= i < data.len(),
    ensures
        index_of_id(data, data[i].id) == i,
{
    let k = index_of_id(data, data[i].id);
    assert(data[k].id == data[i].id);
}

/// Every upload reads inside an arena of `arena_len` bytes.
pub open spec fn ops_within_arena(ops: Seq<WriteOperation>, arena_len: int) -> bool {
    forall|k: int| 0 <= k < ops.len() ==> #[trigger] ops[k].arena_offset + ops[k].len <= arena_len
}

/// Every upload writes inside a buffer of `cap` bytes.
pub open spec fn ops_within_buffer(ops: Seq<WriteOperation>, cap: int) -> bool {
    forall|k: int| 0 <= k < ops.len() ==> #[trigger] ops[k].buffer_offset + ops[k].len <= cap
}

/// Keeps the uploads that are not for entry `id`.
pub open spec fn not_for_entry(id: EntryId) -> spec_fn(WriteOperation) -> bool {
    |op: WriteOperation| op.id != id
}

/// Index of an entry with id `id`.
pub open spec fn index_of_id(data: Seq<AllocEntry>, id: EntryId) -> int {
    choose|i: int| 0 <= i < data.len() && #[trigger] data[i].id == id
}

/// Sum of the lengths of the entries.
pub open spec fn total_len(data: Seq<AllocEntry>) -> int
    decreases data.len(),
{
    if data.len() == 0 {
        0
    } else {
        total_len(data.drop_last()) + data.last().length
    }
}

/// The bytes that the entries hold.
pub open spec fn held_bytes(data: Seq<AllocEntry>) -> Set<int> {
    Set::new(|b: int| entries_hold(data, b))
}

/// Disjoint entries hold as many bytes as their lengths add up to.
pub proof fn lemma_held_bytes_len(data: Seq<AllocEntry>)
    requires
        entries_disjoint(data),
    ensures
        held_bytes(data).finite(),
        held_bytes(data).len() == total_len(data),
    decreases data.len(),
{
    if data.len() == 0 {
        assert(held_bytes(data) =~= Set::<int>::empty());
    } else {
        let init = data.drop_last();
        let e = data.last();
        assert(entries_disjoint(init)) by {
            assert forall|i: int, j: int|
                0 <= i < init.len() && 0 <= j < init.len() && i != j implies regions_disjoint(
                #[trigger] init[i].position,
                init[i].length,
                #[trigger] init[j].position,
                init[j].length,
            ) by {
                assert(init[i] == data[i] && init[j] == data[j]);
            }
        }
        lemma_held_bytes_len(init);
        let r = set_int_range(e.position as int, e.position + e.length);
        lemma_int_range(e.position as int, e.position + e.length);
        assert(held_bytes(data) =~= held_bytes(init) + r) by {
            assert forall|b: int| held_bytes(data).contains(b) implies (held_bytes(init)
                + r).contains(b) by {
                let i = choose|i: int| 0 <= i < data.len() && #[trigger] data[i].holds(b);
                if i < data.len() - 1 {
                    assert(init[i].holds(b));
                }
            }
            assert forall|b: int| (held_bytes(init) + r).contains(b) implies held_bytes(
                data,
            ).contains(b) by {
                if held_bytes(init).contains(b) {
                    let i = choose|i: int| 0 <= i < init.len() && #[trigger] init[i].holds(b);
                    assert(data[i].holds(b));
                } else {
                    assert(data[data.len() - 1].holds(b));
                }
            }
        }
        assert(held_bytes(init).disjoint(r)) by {
            assert forall|b: int| !(held_bytes(init).contains(b) && r.contains(b)) by {
                if held_bytes(init).contains(b) && r.contains(b) {
                    let i = choose|i: int| 0 <= i < init.len() && #[trigger] init[i].holds(b);
                    assert(data[i].holds(b));
                    assert(regions_disjoint(
                        data[i].position,
                        data[i].length,
                        data[data.len() - 1].position,
                        data[data.len() - 1].length,
                    ));
                }
            }
        }
        lemma_set_disjoint_lens(held_bytes(init), r);
    }
}

/// Disjoint entries that end at or before `cap` add up to at most `cap` bytes.
pub proof fn lemma_total_len_bounded(data: Seq<AllocEntry>, cap: int)
    requires
        0 <= cap,
        entries_disjoint(data),
        entries_within(data, cap),
    ensures
        total_len(data) <= cap,
{
    lemma_held_bytes_len(data);
    let all = set_int_range(0, cap);
    lemma_int_range(0, cap);
    assert(held_bytes(data).subset_of(all)) by {
        assert forall|b: int| held_bytes(data).contains(b) implies all.contains(b) by {
            let i = choose|i: int| 0 <= i < data.len() && #[trigger] data[i].holds(b);
            assert(data[i].position + data[i].length <= cap);
        }
    }
    lemma_len_subset(held_bytes(data), all);
}

/// A prefix of disjoint entries is disjoint too, and stays within the same bound.
pub proof fn lemma_prefix_keeps_shape(data: Seq<AllocEntry>, n: int, cap: int)
    requires
        0 <= n <= data.len(),
        entries_disjoint(data),
        entries_within(data, cap),
    ensures
        entries_disjoint(data.take(n)),
        entries_within(data.take(n), cap),
{
    let p = data.take(n);
    assert forall|i: int, j: int|
        0 <= i < p.len() && 0 <= j < p.len() && i != j implies regions_disjoint(
        #[trigger] p[i].position,
        p[i].length,
        #[trigger] p[j].position,
        p[j].length,
    ) by {
        assert(p[i] == data[i] && p[j] == data[j]);
    }
    assert forall|i: int| 0 <= i < p.len() implies #[trigger] p[i].position + p[i].length
        <= cap by {
        assert(p[i] == data[i]);
    }
}

/// The entry and gap lists are well laid out in a buffer of `cap` bytes.
pub open spec fn layout_ok(d: Seq<AllocEntry>, g: Seq<Gap>, cap: int) -> bool {
    &&& entries_within(d, cap)
    &&& gaps_within(g, cap)
    &&& entries_disjoint(d)
    &&& gaps_disjoint(g)
    &&& entries_apart_from_gaps(d, g)
}

/// Every byte below `cap` is held by an entry or a gap.
pub open spec fn layout_tiled(d: Seq<AllocEntry>, g: Seq<Gap>, cap: int) -> bool {
    forall|b: int| 0 <= b < cap ==> entries_hold(d, b) || gaps_hold(g, b)
}

/// Gap `gi` with its first `e.length` bytes handed to the new entry `e`.
pub open spec fn gaps_after_consume(g: Seq<Gap>, gi: int, n: usize) -> Seq<Gap> {
    if g[gi].length == n {
        g.remove(gi)
    } else {
        g.update(
            gi,
            Gap { position: (g[gi].position + n) as usize, length: (g[gi].length - n) as usize },
        )
    }
}

/// A region inside `[p1, p1 + l1)` shares no byte with what that region shares none with.
pub proof fn lemma_sub_region_disjoint(p1: usize, l1: usize, p2: usize, l2: usize, q: usize, m: usize)
    requires
        regions_disjoint(p1, l1, p2, l2),
        m == 0 || (p1 <= q && q + m <= p1 + l1),
    ensures
        regions_disjoint(q, m, p2, l2),
        regions_disjoint(p2, l2, q, m),
{
}

/// Where element `y` of a list that dropped element `gi` (when `removed`)
/// came from.
pub open spec fn source_index(removed: bool, gi: int, y: int) -> int {
    if removed && y >= gi {
        y + 1
    } else {
        y
    }
}

/// Two regions with no byte in common are disjoint.
pub proof fn lemma_regions_disjoint_from_bytes(p1: usize, l1: usize, p2: usize, l2: usize)
    requires
        forall|b: int| !(region_holds(p1, l1, b) && region_holds(p2, l2, b)),
    ensures
        regions_disjoint(p1, l1, p2, l2),
{
    if !regions_disjoint(p1, l1, p2, l2) {
        let b = if p1 <= p2 { p2 as int } else { p1 as int };
        assert(region_holds(p1, l1, b) && region_holds(p2, l2, b));
    }
}

/// Handing the start of a gap to a new entry keeps the layout, and keeps
/// every byte accounted for.
pub proof fn lemma_place_in_gap(
    d: Seq<AllocEntry>,
    g: Seq<Gap>,
    cap: int,
    gi: int,
    k: int,
    e: AllocEntry,
)
    requires
        layout_ok(d, g, cap),
        cap <= usize::MAX,
        0 <= gi < g.len(),
        0 <= k <= d.len(),
        e.position == g[gi].position,
        e.length <= g[gi].length,
    ensures
        layout_ok(d.insert(k, e), gaps_after_consume(g, gi, e.length), cap),
        layout_tiled(d, g, cap) ==> layout_tiled(
            d.insert(k, e),
            gaps_after_consume(g, gi, e.length),
            cap,
        ),
{
    let d2 = d.insert(k, e);
    let g2 = gaps_after_consume(g, gi, e.length);
    let gg = g[gi];
    let shrunk = Gap {
        position: (gg.position + e.length) as usize,
        length: (gg.length - e.length) as usize,
    };
    assert(gg.spec_end() <= cap);
    // where each element of the new lists comes from
    assert forall|x: int| 0 <= x < d2.len() implies #[trigger] d2[x] == if x < k {
        d[x]
    } else if x == k {
        e
    } else {
        d[x - 1]
    } by {}
    assert forall|y: int| 0 <= y < g2.len() implies #[trigger] g2[y] == if gg.length == e.length {
        if y < gi {
            g[y]
        } else {
            g[y + 1]
        }
    } else if y == gi {
        shrunk
    } else {
        g[y]
    } by {}
    // index into the old gap list
    let removed = gg.length == e.length;
    assert forall|y: int| 0 <= y < g2.len() implies {
        let a = source_index(removed, gi, y);
        &&& 0 <= a < g.len()
        &&& (a != gi ==> #[trigger] g2[y] == g[a])
        &&& (a == gi ==> g2[y] == shrunk)
    } by {}
    assert forall|x: int| 0 <= x < d2.len() implies #[trigger] d2[x].position + d2[x].length
        <= cap by {
        if x != k {
            assert(d[source_index(false, k, x - if x > k { 1int } else { 0int })].position + d[source_index(false, k, x - if x > k { 1int } else { 0int })].length <= cap);
        }
    }
    assert forall|y: int| 0 <= y < g2.len() implies #[trigger] g2[y].spec_end() <= cap by {
        assert(g[source_index(removed, gi, y)].spec_end() <= cap);
    }
    assert forall|x1: int, x2: int|
        0 <= x1 < d2.len() && 0 <= x2 < d2.len() && x1 != x2 implies regions_disjoint(
        #[trigger] d2[x1].position,
        d2[x1].length,
        #[trigger] d2[x2].position,
        d2[x2].length,
    ) by {
        if x1 == k {
            assert(regions_disjoint(
                d[source_index(false, k, x2 - if x2 > k { 1int } else { 0int })].position,
                d[source_index(false, k, x2 - if x2 > k { 1int } else { 0int })].length,
                g[gi].position,
                g[gi].length,
            ));
        } else if x2 == k {
            assert(regions_disjoint(
                d[source_index(false, k, x1 - if x1 > k { 1int } else { 0int })].position,
                d[source_index(false, k, x1 - if x1 > k { 1int } else { 0int })].length,
                g[gi].position,
                g[gi].length,
            ));
        } else {
            assert(regions_disjoint(
                d[source_index(false, k, x1 - if x1 > k { 1int } else { 0int })].position,
                d[source_index(false, k, x1 - if x1 > k { 1int } else { 0int })].length,
                d[source_index(false, k, x2 - if x2 > k { 1int } else { 0int })].position,
                d[source_index(false, k, x2 - if x2 > k { 1int } else { 0int })].length,
            ));
        }
    }
    assert forall|y1: int, y2: int|
        0 <= y1 < g2.len() && 0 <= y2 < g2.len() && y1 != y2 implies regions_disjoint(
        #[trigger] g2[y1].position,
        g2[y1].length,
        #[trigger] g2[y2].position,
        g2[y2].length,
    ) by {
        let a = source_index(removed, gi, y1);
        let c = source_index(removed, gi, y2);
        assert(regions_disjoint(g[a].position, g[a].length, g[c].position, g[c].length));
        lemma_sub_region_disjoint(
            g[a].position,
            g[a].length,
            g[c].position,
            g[c].length,
            g2[y1].position,
            g2[y1].length,
        );
        lemma_sub_region_disjoint(
            g[c].position,
            g[c].length,
            g2[y1].position,
            g2[y1].length,
            g2[y2].position,
            g2[y2].length,
        );
    }
    assert forall|x: int, y: int| 0 <= x < d2.len() && 0 <= y < g2.len() implies regions_disjoint(
        #[trigger] d2[x].position,
        d2[x].length,
        #[trigger] g2[y].position,
        g2[y].length,
    ) by {
        let c = source_index(removed, gi, y);
        if x == k {
            if c != gi {
                assert(regions_disjoint(g[gi].position, g[gi].length, g[c].position, g[c].length));
                lemma_sub_region_disjoint(
                    g[gi].position,
                    g[gi].length,
                    g[c].position,
                    g[c].length,
                    e.position,
                    e.length,
                );
            }
        } else {
            let a = source_index(false, k, x - if x > k { 1int } else { 0int });
            assert(regions_disjoint(d[a].position, d[a].length, g[c].position, g[c].length));
            lemma_sub_region_disjoint(
                g[c].position,
                g[c].length,
                d[a].position,
                d[a].length,
                g2[y].position,
                g2[y].length,
            );
        }
    }
    if layout_tiled(d, g, cap) {
        assert forall|b: int| 0 <= b < cap implies entries_hold(d2, b) || gaps_hold(g2, b) by {
            if entries_hold(d, b) {
                let x = choose|x: int| 0 <= x < d.len() && #[trigger] d[x].holds(b);
                if x < k {
                    assert(d2[x].holds(b));
                } else {
                    assert(d2[x + 1].holds(b));
                }
            } else {
                let y = choose|y: int| 0 <= y < g.len() && #[trigger] g[y].holds(b);
                if y == gi {
                    if b < e.position + e.length {
                        assert(d2[k].holds(b));
                    } else {
                        assert(g2[gi].holds(b));
                    }
                } else if gg.length == e.length && y > gi {
                    assert(g2[y - 1].holds(b));
                } else {
                    assert(g2[y].holds(b));
                }
            }
        }
    }
}

/// Lengths add up to a natural number.
pub proof fn lemma_total_len_nonneg(data: Seq<AllocEntry>)
    ensures
        total_len(data) >= 0,
    decreases data.len(),
{
    if data.len() > 0 {
        lemma_total_len_nonneg(data.drop_last());
    }
}

/// The first `i` entries add up to no more than all of them, and one more
/// entry adds its own length.
pub proof fn lemma_total_len_prefix(data: Seq<AllocEntry>, i: int)
    requires
        0 <= i <= data.len(),
    ensures
        0 <= total_len(data.take(i)) <= total_len(data),
        i < data.len() ==> total_len(data.take(i + 1)) == total_len(data.take(i)) + data[i].length,
    decreases data.len(),
{
    lemma_total_len_nonneg(data.take(i));
    if i < data.len() {
        assert(data.take(i + 1).drop_last() =~= data.take(i));
        let init = data.drop_last();
        if i < data.len() - 1 {
            lemma_total_len_prefix(init, i);
            assert(init.take(i) =~= data.take(i));
        } else {
            assert(init =~= data.take(i));
        }
    } else {
        assert(data.take(i) =~= data);
    }
}

/// Prefix sums grow with the prefix.
pub proof fn lemma_total_len_monotonic(data: Seq<AllocEntry>, i: int, j: int)
    requires
        0 <= i <= j <= data.len(),
    ensures
        total_len(data.take(i)) <= total_len(data.take(j)),
{
    lemma_total_len_prefix(data.take(j), i);
    assert(data.take(j).take(i) =~= data.take(i));
}

/// A byte below the total length falls in the packed place of one entry.
pub proof fn lemma_total_len_find(data: Seq<AllocEntry>, b: int)
    requires
        0 <= b < total_len(data),
    ensures
        exists|k: int|
            0 <= k < data.len() && total_len(data.take(k)) <= b < total_len(data.take(k))
                + #[trigger] data[k].length,
    decreases data.len(),
{
    let init = data.drop_last();
    let last = data.len() - 1;
    assert(data.take(last) =~= init);
    if b < total_len(init) {
        lemma_total_len_find(init, b);
        let k = choose|k: int|
            0 <= k < init.len() && total_len(init.take(k)) <= b < total_len(init.take(k))
                + #[trigger] init[k].length;
        assert(init.take(k) =~= data.take(k));
        assert(data[k] == init[k]);
    } else {
        assert(data[last] == data.last());
    }
}

/// Model of the buffer contents after an upload of `op`, read from `arena`.
pub open spec fn apply_op(img: Seq<u8>, arena: Seq<u8>, op: WriteOperation) -> Seq<u8> {
    Seq::new(
        img.len(),
        |b: int|
            if op.buffer_offset <= b < op.buffer_offset + op.len {
                arena[op.arena_offset + (b - op.buffer_offset)]
            } else {
                img[b]
            },
    )
}

/// Model of the buffer contents after the uploads `ops`, in order.
pub open spec fn apply_ops(img: Seq<u8>, arena: Seq<u8>, ops: Seq<WriteOperation>) -> Seq<u8>
    decreases ops.len(),
{
    if ops.len() == 0 {
        img
    } else {
        apply_op(apply_ops(img, arena, ops.drop_last()), arena, ops.last())
    }
}

/// `b` carries on where `a` stops, both in the arena and in the buffer.
pub open spec fn ops_contiguous(a: WriteOperation, b: WriteOperation) -> bool {
    a.arena_offset + a.len == b.arena_offset && a.buffer_offset + a.len == b.buffer_offset
}

/// The uploads `ops` with each one that carries on from the upload kept
/// before it joined to that upload, in order.
pub open spec fn batched(ops: Seq<WriteOperation>) -> Seq<WriteOperation>
    decreases ops.len(),
{
    if ops.len() == 0 {
        ops
    } else {
        let b = batched(ops.drop_last());
        let o = ops.last();
        if b.len() > 0 && ops_contiguous(b.last(), o) {
            b.drop_last().push(WriteOperation { len: (b.last().len + o.len) as usize, ..b.last() })
        } else {
            b.push(o)
        }
    }
}

/// Two uploads that carry on from each other are one upload.
pub proof fn lemma_merge_ops(img: Seq<u8>, arena: Seq<u8>, a: WriteOperation, b: WriteOperation)
    requires
        ops_contiguous(a, b),
        a.len + b.len <= usize::MAX,
    ensures
        apply_op(apply_op(img, arena, a), arena, b) == apply_op(
            img,
            arena,
            WriteOperation { len: (a.len + b.len) as usize, ..a },
        ),
{
    let m = WriteOperation { len: (a.len + b.len) as usize, ..a };
    assert(apply_op(apply_op(img, arena, a), arena, b) =~= apply_op(img, arena, m));
}

/// Model of the buffer contents after writing `bytes` at `offset`.
pub open spec fn apply_bytes(img: Seq<u8>, offset: int, bytes: Seq<u8>) -> Seq<u8> {
    Seq::new(
        img.len(),
        |b: int|
            if offset <= b < offset + bytes.len() {
                bytes[b - offset]
            } else {
                img[b]
            },
    )
}

/// Copy `k` of `copies` lands on byte `b`.
pub open spec fn copy_lands_on(copies: Seq<BufferCopy>, k: int, b: int) -> bool {
    0 <= k < copies.len() && copies[k].dst_offset <= b < copies[k].dst_offset + copies[k].len
}

/// Model of a new buffer of `capacity` bytes filled by `copies` from the
/// buffer `img`; bytes no copy lands on are zero.
pub open spec fn realloc_image(img: Seq<u8>, capacity: u32, copies: Seq<BufferCopy>) -> Seq<u8> {
    Seq::new(
        capacity as nat,
        |b: int|
            if exists|k: int| copy_lands_on(copies, k, b) {
                let k = choose|k: int| copy_lands_on(copies, k, b);
                img[copies[k].src_offset + (b - copies[k].dst_offset)]
            } else {
                0u8
            },
    )
}

/// Model of the buffer contents after one GPU command.
pub open spec fn apply_command(img: Seq<u8>, c: GpuCommand) -> Seq<u8> {
    match c {
        GpuCommand::Write { offset, bytes } => apply_bytes(img, offset as int, bytes@),
        GpuCommand::Reallocate { capacity, copies } => realloc_image(img, capacity, copies@),
    }
}

/// Model of the buffer contents after the GPU commands `cmds`, in order.
pub open spec fn apply_commands(img: Seq<u8>, cmds: Seq<GpuCommand>) -> Seq<u8>
    decreases cmds.len(),
{
    if cmds.len() == 0 {
        img
    } else {
        apply_command(apply_commands(img, cmds.drop_last()), cmds.last())
    }
}

/// Carrying out two lists of commands is carrying out their concatenation.
pub proof fn lemma_apply_commands_concat(img: Seq<u8>, a: Seq<GpuCommand>, b: Seq<GpuCommand>)
    ensures
        apply_commands(img, a + b) == apply_commands(apply_commands(img, a), b),
    decreases b.len(),
{
    if b.len() == 0 {
        assert(a + b =~= a);
    } else {
        assert((a + b).drop_last() =~= a + b.drop_last());
        assert((a + b).last() == b.last());
        lemma_apply_commands_concat(img, a, b.drop_last());
    }
}

/// An upload reading inside the arena writes the arena bytes it names.
pub proof fn lemma_op_as_bytes(img: Seq<u8>, arena: Seq<u8>, op: WriteOperation)
    requires
        op.arena_offset + op.len <= arena.len(),
    ensures
        apply_op(img, arena, op) == apply_bytes(
            img,
            op.buffer_offset as int,
            arena.subrange(op.arena_offset as int, op.arena_offset + op.len),
        ),
{
    assert(apply_op(img, arena, op) =~= apply_bytes(
        img,
        op.buffer_offset as int,
        arena.subrange(op.arena_offset as int, op.arena_offset + op.len),
    ));
}

/// Uploads that read inside the arena ignore what is appended to it.
pub proof fn lemma_apply_ops_arena_extend(
    img: Seq<u8>,
    arena: Seq<u8>,
    extra: Seq<u8>,
    ops: Seq<WriteOperation>,
)
    requires
        ops_within_arena(ops, arena.len() as int),
    ensures
        apply_ops(img, arena + extra, ops) == apply_ops(img, arena, ops),
    decreases ops.len(),
{
    if ops.len() > 0 {
        let init = ops.drop_last();
        assert forall|k: int| 0 <= k < init.len() implies #[trigger] init[k].arena_offset
            + init[k].len <= arena.len() by {
            assert(init[k] == ops[k]);
        }
        lemma_apply_ops_arena_extend(img, arena, extra, init);
        let op = ops.last();
        assert(op == ops[ops.len() - 1]);
        let base = apply_ops(img, arena, init);
        assert(apply_op(base, arena + extra, op) =~= apply_op(base, arena, op));
    }
}

/// Entry `k` of `data` moved to where the entries before it end.
pub open spec fn packed_entry(data: Seq<AllocEntry>, k: int) -> AllocEntry {
    AllocEntry {
        id: data[k].id,
        position: total_len(data.take(k)) as usize,
        length: data[k].length,
    }
}

/// The copy that moves entry `k` of `data` to its packed place.
pub open spec fn packing_copy(data: Seq<AllocEntry>, k: int) -> BufferCopy {
    BufferCopy {
        src_offset: data[k].position,
        dst_offset: total_len(data.take(k)) as usize,
        len: data[k].length,
    }
}

/// Moving entries to their packed places keeps the bytes of each.
pub proof fn lemma_packing_keeps_bytes(
    before: Seq<u8>,
    d0: Seq<AllocEntry>,
    new_capacity: u32,
    copies: Seq<BufferCopy>,
    k: int,
)
    requires
        0 <= k < d0.len(),
        copies.len() == d0.len(),
        forall|c: int| 0 <= c < copies.len() ==> #[trigger] copies[c] == packing_copy(d0, c),
        total_len(d0) <= new_capacity,
        d0[k].position + d0[k].length <= before.len(),
    ensures
        realloc_image(before, new_capacity, copies).subrange(
            packed_entry(d0, k).position as int,
            packed_entry(d0, k).position + d0[k].length,
        ) == before.subrange(d0[k].position as int, d0[k].position + d0[k].length),
{
    let img = realloc_image(before, new_capacity, copies);
    let p = packed_entry(d0, k);
    lemma_total_len_prefix(d0, k);
    lemma_total_len_prefix(d0, k + 1);
    lemma_total_len_monotonic(d0, k + 1, d0.len() as int);
    assert(d0.take(d0.len() as int) =~= d0);
    assert forall|b: int| p.position <= b < p.position + p.length implies img[b] == before[d0[k].position
        + (b - p.position)] by {
        assert(copy_lands_on(copies, k, b));
        let c = choose|c: int| copy_lands_on(copies, c, b);
        lemma_total_len_prefix(d0, c);
        if c != k {
            if c < k {
                lemma_total_len_prefix(d0, c + 1);
                lemma_total_len_monotonic(d0, c + 1, k);
            } else {
                lemma_total_len_monotonic(d0, k + 1, c);
            }
        }
    }
    assert(img.subrange(p.position as int, p.position + d0[k].length) =~= before.subrange(
        d0[k].position as int,
        d0[k].position + d0[k].length,
    ));
}

/// Some gap can hold `n` bytes.
pub open spec fn some_gap_fits(gaps: Seq<Gap>, n: int) -> bool {
    exists|i: int| 0 <= i < gaps.len() && #[trigger] gaps[i].length >= n
}

/// The gaps are ordered by their start and none is empty.
pub open spec fn gaps_tidy(gaps: Seq<Gap>) -> bool {
    gaps_sorted(gaps) && gaps_nonempty(gaps)
}

/// Index of the gap of `gaps` that starts at `p`.
pub open spec fn gap_at(gaps: Seq<Gap>, p: int) -> int {
    choose|i: int| 0 <= i < gaps.len() && #[trigger] gaps[i].position == p
}

/// A gap starts right where entry `e` ends and, with the bytes of `e`, can
/// hold `n` bytes.
pub open spec fn grows_in_place(gaps: Seq<Gap>, e: AllocEntry, n: int) -> bool {
    exists|i: int|
        0 <= i < gaps.len() && #[trigger] gaps[i].position == e.position + e.length && e.length
            + gaps[i].length >= n
}

/// The gaps once entry `e`, which must move, gives up its bytes: the gap
/// right after it, when there is one, grows back over them; else they become
/// a gap of their own, in its slot.
pub open spec fn vacated(gaps: Seq<Gap>, e: AllocEntry) -> Seq<Gap> {
    if exists|i: int| 0 <= i < gaps.len() && #[trigger] gaps[i].position == e.position + e.length {
        let i = gap_at(gaps, e.position + e.length);
        gaps.update(i, Gap { position: e.position, length: (e.length + gaps[i].length) as usize })
    } else {
        gaps.insert(gap_slot(gaps, e.position as int), Gap { position: e.position, length: e.length })
    }
}

/// In tidy gaps sharing no byte, a gap is the only one starting where it does.
pub proof fn lemma_gap_at(gaps: Seq<Gap>, i: int)
    requires
        gaps_tidy(gaps),
        gaps_disjoint(gaps),
        0 <= i < gaps.len(),
    ensures
        gap_at(gaps, gaps[i].position as int) == i,
{
    let k = gap_at(gaps, gaps[i].position as int);
    assert(0 <= k < gaps.len() && gaps[k].position == gaps[i].position);
    if k != i {
        assert(regions_disjoint(gaps[i].position, gaps[i].length, gaps[k].position, gaps[k].length));
        assert(gaps[i].length > 0 && gaps[k].length > 0);
    }
}

/// The first gap of `gaps` that can hold `n` bytes.
pub open spec fn first_fit(gaps: Seq<Gap>, n: int) -> int {
    choose|i: int|
        0 <= i < gaps.len() && gaps[i].length >= n && forall|j: int| 0 <= j < i ==> #[trigger] gaps[j].length < n
}

/// A gap that holds `n` bytes, with none before it that does, is the first fit.
pub proof fn lemma_first_fit(gaps: Seq<Gap>, n: int, i: int)
    requires
        0 <= i < gaps.len(),
        gaps[i].length >= n,
        forall|j: int| 0 <= j < i ==> #[trigger] gaps[j].length < n,
    ensures
        first_fit(gaps, n) == i,
{
    let f = first_fit(gaps, n);
    assert(0 <= f < gaps.len() && gaps[f].length >= n);
    if f < i {
        assert(gaps[f].length < n);
    } else if f > i {
        assert(gaps[i].length < n);
    }
}

/// The entries as they stand after a move to a new buffer.
pub open spec fn packed_entries(data: Seq<AllocEntry>) -> Seq<AllocEntry> {
    Seq::new(data.len(), |k: int| packed_entry(data, k))
}

/// An upload of the bytes appended last to the arena puts them in place.
pub proof fn lemma_op_writes_data(img: Seq<u8>, arena: Seq<u8>, data: Seq<u8>, op: WriteOperation)
    requires
        op.arena_offset == arena.len(),
        op.len == data.len(),
        op.buffer_offset + op.len <= img.len(),
    ensures
        apply_op(img, arena + data, op).subrange(
            op.buffer_offset as int,
            op.buffer_offset + op.len,
        ) == data,
{
    assert(apply_op(img, arena + data, op).subrange(
        op.buffer_offset as int,
        op.buffer_offset + op.len,
    ) =~= data);
}

/// Uploads keep the length of the buffer.
pub proof fn lemma_apply_ops_len(img: Seq<u8>, arena: Seq<u8>, ops: Seq<WriteOperation>)
    ensures
        apply_ops(img, arena, ops).len() == img.len(),
    decreases ops.len(),
{
    if ops.len() > 0 {
        lemma_apply_ops_len(img, arena, ops.drop_last());
    }
}

/// The gaps left after packing `data` into a buffer of `cap` bytes.
pub open spec fn packed_gaps(data: Seq<AllocEntry>, cap: u32) -> Seq<Gap> {
    if cap > total_len(data) {
        seq![Gap { position: total_len(data) as usize, length: (cap - total_len(data)) as usize }]
    } else {
        Seq::<Gap>::empty()
    }
}

/// Packed entries and the gap after them lay out a buffer of `cap` bytes
/// with every byte accounted for.
pub proof fn lemma_packed_layout(d0: Seq<AllocEntry>, cap: u32)
    requires
        total_len(d0) <= cap,
        ids_distinct(d0),
    ensures
        layout_ok(packed_entries(d0), packed_gaps(d0, cap), cap as int),
        layout_tiled(packed_entries(d0), packed_gaps(d0, cap), cap as int),
        entries_sorted(packed_entries(d0)),
        ids_distinct(packed_entries(d0)),
{
    let d = packed_entries(d0);
    let g = packed_gaps(d0, cap);
    let total = total_len(d0);
    lemma_total_len_nonneg(d0);
    assert(d0.take(d0.len() as int) =~= d0);
    assert forall|k: int| 0 <= k < d.len() implies #[trigger] d[k].position + d[k].length
        <= cap by {
        lemma_total_len_prefix(d0, k);
        lemma_total_len_prefix(d0, k + 1);
        lemma_total_len_monotonic(d0, k + 1, d0.len() as int);
    }
    assert forall|x: int, y: int| 0 <= x <= y < d.len() implies d[x].position <= d[y].position by {
        lemma_total_len_prefix(d0, x);
        lemma_total_len_prefix(d0, y);
        lemma_total_len_monotonic(d0, x, y);
    }
    assert forall|x: int, y: int|
        0 <= x < d.len() && 0 <= y < d.len() && x != y implies regions_disjoint(
        #[trigger] d[x].position,
        d[x].length,
        #[trigger] d[y].position,
        d[y].length,
    ) by {
        lemma_total_len_prefix(d0, x);
        lemma_total_len_prefix(d0, y);
        if x < y {
            lemma_total_len_monotonic(d0, x + 1, y);
        } else {
            lemma_total_len_monotonic(d0, y + 1, x);
        }
    }
    assert forall|x: int, y: int| 0 <= x < d.len() && 0 <= y < g.len() implies regions_disjoint(
        #[trigger] d[x].position,
        d[x].length,
        #[trigger] g[y].position,
        g[y].length,
    ) by {
        lemma_total_len_prefix(d0, x);
        lemma_total_len_monotonic(d0, x + 1, d0.len() as int);
    }
    assert forall|x: int, y: int|
        0 <= x < d.len() && 0 <= y < d.len() && x != y implies #[trigger] d[x].id
        != #[trigger] d[y].id by {
        assert(d0[x].id != d0[y].id);
    }
    assert forall|b: int| 0 <= b < cap implies entries_hold(d, b) || gaps_hold(g, b) by {
        if b < total {
            lemma_total_len_find(d0, b);
            let k = choose|k: int|
                0 <= k < d0.len() && total_len(d0.take(k)) <= b < total_len(d0.take(k))
                    + #[trigger] d0[k].length;
            lemma_total_len_prefix(d0, k);
            assert(d[k].holds(b));
        } else {
            assert(g[0].holds(b));
        }
    }
}

/// The entries as they stand after an addition made room for new data: in
/// place when a gap fitted, packed into a new buffer otherwise.
pub open spec fn moved_entries(data: Seq<AllocEntry>, fitted: bool) -> Seq<AllocEntry> {
    if fitted {
        data
    } else {
        packed_entries(data)
    }
}

/// Entries and gaps sharing no byte are apart.
pub proof fn lemma_apart_from_bytes(d: Seq<AllocEntry>, g: Seq<Gap>)
    requires
        forall|b: int| !(entries_hold(d, b) && gaps_hold(g, b)),
    ensures
        entries_apart_from_gaps(d, g),
{
    assert forall|x: int, y: int| 0 <= x < d.len() && 0 <= y < g.len() implies regions_disjoint(
        #[trigger] d[x].position,
        d[x].length,
        #[trigger] g[y].position,
        g[y].length,
    ) by {
        assert forall|b: int| !(region_holds(d[x].position, d[x].length, b) && region_holds(
            g[y].position,
            g[y].length,
            b,
        )) by {
            if region_holds(d[x].position, d[x].length, b) && region_holds(
                g[y].position,
                g[y].length,
                b,
            ) {
                assert(d[x].holds(b));
                assert(g[y].holds(b));
                assert(entries_hold(d, b));
                assert(gaps_hold(g, b));
                assert(!(entries_hold(d, b) && gaps_hold(g, b)));
            }
        }
        lemma_regions_disjoint_from_bytes(d[x].position, d[x].length, g[y].position, g[y].length);
    }
}

/// Removing an entry takes its length off the total.
pub proof fn lemma_total_len_remove(data: Seq<AllocEntry>, i: int)
    requires
        0 <= i < data.len(),
    ensures
        total_len(data.remove(i)) == total_len(data) - data[i].length,
    decreases data.len(),
{
    if i == data.len() - 1 {
        assert(data.remove(i) =~= data.drop_last());
    } else {
        let init = data.drop_last();
        lemma_total_len_remove(init, i);
        assert(data.remove(i).drop_last() =~= init.remove(i));
        assert(data.remove(i).last() == data.last());
    }
}

/// Entries that stay disjoint, ordered and inside the buffer when one of them
/// is dropped.
pub proof fn lemma_remove_keeps_entries(d: Seq<AllocEntry>, i: int, cap: int)
    requires
        0 <= i < d.len(),
        entries_within(d, cap),
        entries_disjoint(d),
        entries_sorted(d),
        ids_distinct(d),
    ensures
        entries_within(d.remove(i), cap),
        entries_disjoint(d.remove(i)),
        entries_sorted(d.remove(i)),
        ids_distinct(d.remove(i)),
        forall|b: int| entries_hold(d.remove(i), b) ==> entries_hold(d, b),
        forall|b: int| entries_hold(d, b) ==> entries_hold(d.remove(i), b) || d[i].holds(b),
        !has_id(d.remove(i), d[i].id),
{
    let n = d.remove(i);
    assert forall|x: int| 0 <= x < n.len() implies #[trigger] n[x] == d[if x < i { x } else { x + 1 }] by {}
    assert forall|x: int| 0 <= x < n.len() implies #[trigger] n[x].position + n[x].length <= cap by {
        assert(n[x] == d[if x < i { x } else { x + 1 }]);
    }
    assert forall|x: int, y: int|
        0 <= x < n.len() && 0 <= y < n.len() && x != y implies regions_disjoint(
        #[trigger] n[x].position,
        n[x].length,
        #[trigger] n[y].position,
        n[y].length,
    ) by {
        assert(n[x] == d[if x < i { x } else { x + 1 }]);
        assert(n[y] == d[if y < i { y } else { y + 1 }]);
    }
    assert forall|x: int, y: int| 0 <= x <= y < n.len() implies n[x].position <= n[y].position by {
        assert(n[x] == d[if x < i { x } else { x + 1 }]);
        assert(n[y] == d[if y < i { y } else { y + 1 }]);
    }
    assert forall|x: int, y: int|
        0 <= x < n.len() && 0 <= y < n.len() && x != y implies #[trigger] n[x].id
        != #[trigger] n[y].id by {
        assert(n[x] == d[if x < i { x } else { x + 1 }]);
        assert(n[y] == d[if y < i { y } else { y + 1 }]);
    }
    assert forall|b: int| entries_hold(n, b) implies entries_hold(d, b) by {
        let x = choose|x: int| 0 <= x < n.len() && #[trigger] n[x].holds(b);
        assert(d[if x < i { x } else { x + 1 }].holds(b));
    }
    assert forall|b: int| entries_hold(d, b) implies entries_hold(n, b) || d[i].holds(b) by {
        let x = choose|x: int| 0 <= x < d.len() && #[trigger] d[x].holds(b);
        if x < i {
            assert(n[x].holds(b));
        } else if x > i {
            assert(n[x - 1].holds(b));
        }
    }
    if has_id(n, d[i].id) {
        let x = choose|x: int| 0 <= x < n.len() && #[trigger] n[x].id == d[i].id;
        assert(n[x] == d[if x < i { x } else { x + 1 }]);
    }
}

/// Taking the first `n` bytes of gap `gi` frees no byte and takes exactly
/// those bytes away.
pub proof fn lemma_consume_bytes(g: Seq<Gap>, gi: int, n: usize, b: int)
    requires
        0 <= gi < g.len(),
        n <= g[gi].length,
        gaps_disjoint(g),
        g[gi].spec_end() <= usize::MAX,
    ensures
        gaps_hold(gaps_after_consume(g, gi, n), b) <==> gaps_hold(g, b) && !(g[gi].position <= b
            < g[gi].position + n),
{
    let g2 = gaps_after_consume(g, gi, n);
    let removed = g[gi].length == n;
    if gaps_hold(g2, b) {
        let y = choose|y: int| 0 <= y < g2.len() && #[trigger] g2[y].holds(b);
        let a = source_index(removed, gi, y);
        assert(g[a].holds(b));
        if a != gi {
            assert(g2[y] == g[a]);
            assert(regions_disjoint(g[a].position, g[a].length, g[gi].position, g[gi].length));
        }
    }
    if gaps_hold(g, b) && !(g[gi].position <= b < g[gi].position + n) {
        let y = choose|y: int| 0 <= y < g.len() && #[trigger] g[y].holds(b);
        if y == gi {
            assert(g2[gi].holds(b));
        } else if removed && y > gi {
            assert(g2[y - 1].holds(b));
        } else {
            assert(g2[y].holds(b));
        }
    }
}

/// An entry changed in place to `e1`, growing only into free bytes, with the
/// gaps updated to match, keeps the layout and every byte accounted for.
pub proof fn lemma_resize_in_place(
    d0: Seq<AllocEntry>,
    g0: Seq<Gap>,
    g1: Seq<Gap>,
    cap: int,
    index: int,
    e1: AllocEntry,
)
    requires
        layout_ok(d0, g0, cap),
        entries_sorted(d0),
        ids_distinct(d0),
        0 <= index < d0.len(),
        e1.id == d0[index].id,
        e1.position == d0[index].position,
        e1.position + e1.length <= cap,
        gaps_within(g1, cap),
        gaps_disjoint(g1),
        forall|b: int| e1.holds(b) && !d0[index].holds(b) ==> gaps_hold(g0, b),
        forall|b: int|
            gaps_hold(g1, b) <==> (gaps_hold(g0, b) || (d0[index].holds(b) && !e1.holds(b))) && !(
            e1.holds(b) && !d0[index].holds(b)),
    ensures
        layout_ok(d0.update(index, e1), g1, cap),
        entries_sorted(d0.update(index, e1)),
        ids_distinct(d0.update(index, e1)),
        layout_tiled(d0, g0, cap) ==> layout_tiled(d0.update(index, e1), g1, cap),
{
    let d1 = d0.update(index, e1);
    let e0 = d0[index];
    assert forall|x: int| 0 <= x < d1.len() implies #[trigger] d1[x].position + d1[x].length
        <= cap by {
        if x != index {
            assert(d1[x] == d0[x]);
        }
    }
    // no byte of another entry is in e0 or in a gap
    assert forall|x: int, b: int| 0 <= x < d0.len() && x != index && #[trigger] d0[x].holds(b) implies !e0.holds(b)
        && !gaps_hold(g0, b) by {
        assert(regions_disjoint(d0[x].position, d0[x].length, e0.position, e0.length));
        if gaps_hold(g0, b) {
            let y = choose|y: int| 0 <= y < g0.len() && #[trigger] g0[y].holds(b);
            assert(regions_disjoint(d0[x].position, d0[x].length, g0[y].position, g0[y].length));
        }
    }
    assert forall|x: int, y: int|
        0 <= x < d1.len() && 0 <= y < d1.len() && x != y implies regions_disjoint(
        #[trigger] d1[x].position,
        d1[x].length,
        #[trigger] d1[y].position,
        d1[y].length,
    ) by {
        if x != index && y != index {
            assert(d1[x] == d0[x] && d1[y] == d0[y]);
        } else {
            let o = if x == index { y } else { x };
            assert(d1[o] == d0[o]);
            assert forall|b: int| !(region_holds(d0[o].position, d0[o].length, b) && region_holds(
                e1.position,
                e1.length,
                b,
            )) by {
                if region_holds(d0[o].position, d0[o].length, b) && region_holds(
                    e1.position,
                    e1.length,
                    b,
                ) {
                    assert(d0[o].holds(b));
                    assert(e1.holds(b));
                }
            }
            lemma_regions_disjoint_from_bytes(d0[o].position, d0[o].length, e1.position, e1.length);
        }
    }
    assert forall|b: int| !(entries_hold(d1, b) && gaps_hold(g1, b)) by {
        if entries_hold(d1, b) && gaps_hold(g1, b) {
            let x = choose|x: int| 0 <= x < d1.len() && #[trigger] d1[x].holds(b);
            if x != index {
                assert(d1[x] == d0[x]);
                assert(d0[x].holds(b));
            } else {
                if e0.holds(b) {
                    if gaps_hold(g0, b) {
                        let y = choose|y: int| 0 <= y < g0.len() && #[trigger] g0[y].holds(b);
                        assert(regions_disjoint(e0.position, e0.length, g0[y].position, g0[y].length));
                    }
                }
            }
        }
    }
    lemma_apart_from_bytes(d1, g1);
    assert forall|x: int, y: int| 0 <= x <= y < d1.len() implies d1[x].position <= d1[y].position by {
        assert(d0[x].position <= d0[y].position);
    }
    assert forall|x: int, y: int|
        0 <= x < d1.len() && 0 <= y < d1.len() && x != y implies #[trigger] d1[x].id
        != #[trigger] d1[y].id by {
        assert(d0[x].id != d0[y].id);
    }
    if layout_tiled(d0, g0, cap) {
        assert forall|b: int| 0 <= b < cap implies entries_hold(d1, b) || gaps_hold(g1, b) by {
            if e1.holds(b) {
                assert(d1[index].holds(b));
            } else if e0.holds(b) {
                assert(gaps_hold(g1, b));
            } else if entries_hold(d0, b) {
                let x = choose|x: int| 0 <= x < d0.len() && #[trigger] d0[x].holds(b);
                assert(d1[x].holds(b));
            } else {
                assert(gaps_hold(g1, b));
            }
        }
    }
}

/// Dropping an entry whose bytes went to the gaps keeps the layout and every
/// byte accounted for.
pub proof fn lemma_release_entry(
    d0: Seq<AllocEntry>,
    g0: Seq<Gap>,
    g1: Seq<Gap>,
    cap: int,
    index: int,
)
    requires
        layout_ok(d0, g0, cap),
        entries_sorted(d0),
        ids_distinct(d0),
        0 <= index < d0.len(),
        gaps_within(g1, cap),
        gaps_disjoint(g1),
        forall|b: int| gaps_hold(g1, b) <==> gaps_hold(g0, b) || d0[index].holds(b),
    ensures
        layout_ok(d0.remove(index), g1, cap),
        entries_sorted(d0.remove(index)),
        ids_distinct(d0.remove(index)),
        !has_id(d0.remove(index), d0[index].id),
        layout_tiled(d0, g0, cap) ==> layout_tiled(d0.remove(index), g1, cap),
{
    let d1 = d0.remove(index);
    let e0 = d0[index];
    lemma_remove_keeps_entries(d0, index, cap);
    assert forall|b: int| !(entries_hold(d1, b) && gaps_hold(g1, b)) by {
        if entries_hold(d1, b) && gaps_hold(g1, b) {
            let x = choose|x: int| 0 <= x < d1.len() && #[trigger] d1[x].holds(b);
            let ox = if x < index { x } else { x + 1 };
            assert(d1[x] == d0[ox]);
            assert(regions_disjoint(d0[ox].position, d0[ox].length, e0.position, e0.length));
            if gaps_hold(g0, b) {
                let y = choose|y: int| 0 <= y < g0.len() && #[trigger] g0[y].holds(b);
                assert(regions_disjoint(d0[ox].position, d0[ox].length, g0[y].position, g0[y].length));
            }
        }
    }
    lemma_apart_from_bytes(d1, g1);
    if layout_tiled(d0, g0, cap) {
        assert forall|b: int| 0 <= b < cap implies entries_hold(d1, b) || gaps_hold(g1, b) by {
            if entries_hold(d0, b) && !e0.holds(b) {
                assert(entries_hold(d1, b));
            }
        }
    }
}

/// How many of each of its records an allocator holds and has room for, and
/// how much of its buffer is in use.
#[derive(Debug, Clone, Copy, PartialEq, Eq, Structural)]
pub struct MemoryCounts {
    pub arena_len: usize,
    pub arena_capacity: usize,
    pub id_pool_len: usize,
    pub id_pool_capacity: usize,
    pub gaps_len: usize,
    pub gaps_capacity: usize,
    pub writes_len: usize,
    pub writes_capacity: usize,
    pub entries_len: usize,
    pub entries_capacity: usize,
    /// Bytes of the buffer held by live entries.
    pub data_bytes: usize,
    /// Capacity of the buffer.
    pub gpu_capacity: u32,
}

/// Keeps track of the entries and free regions of one GPU buffer and of the
/// GPU work needed to keep the buffer in step with them.
pub struct GpuAllocator {
    /// The live entries, ordered by position.
    pub data: Vec<AllocEntry>,
    id_pool: IdPool,
    gaps: GapManager,
    write_operations: Vec<WriteOperation>,
    schedule_batch: bool,
    arena: Vec<u8>,
    capacity: u32,
    commands: Vec<GpuCommand>,
}

impl GpuAllocator {
    /// The live entries, ordered by position.
    pub closed spec fn entries(&self) -> Seq<AllocEntry> {
        self.data@
    }

    /// Capacity of the current buffer.
    pub closed spec fn buffer_capacity(&self) -> u32 {
        self.capacity
    }

    /// The free regions of the current buffer.
    pub closed spec fn gap_list(&self) -> Seq<Gap> {
        self.gaps@
    }

    /// The uploads staged since the last flush.
    pub closed spec fn pending_writes(&self) -> Seq<WriteOperation> {
        self.write_operations@
    }

    /// The staging arena the pending uploads read from.
    pub closed spec fn arena_bytes(&self) -> Seq<u8> {
        self.arena@
    }

    /// The GPU work recorded and not yet taken.
    pub closed spec fn gpu_commands(&self) -> Seq<GpuCommand> {
        self.commands@
    }

    /// Number of GPU commands recorded and not yet taken.
    pub open spec fn command_count(&self) -> nat {
        self.gpu_commands().len()
    }

    /// What the buffer holds once the recorded commands and then the staged
    /// uploads are carried out, starting from `img`, what it held when the
    /// commands were last taken.
    pub closed spec fn staged_image(&self, img: Seq<u8>) -> Seq<u8> {
        apply_ops(apply_commands(img, self.commands@), self.arena@, self.write_operations@)
    }

    /// The id pool: the next fresh id and the freed ids awaiting reuse.
    pub closed spec fn id_pool_state(&self) -> (u32, Seq<u32>) {
        (self.id_pool.next_id(), self.id_pool.free_ids())
    }

    /// A new entry can get an id: a freed one waits, or fresh ones are left.
    pub open spec fn ids_available(&self) -> bool {
        self.id_pool_state().1.len() > 0 || self.id_pool_state().0 < u32::MAX
    }

    /// The allocator's records are consistent: entries and gaps lie inside
    /// the buffer and share no byte, entries are ordered and have distinct ids
    /// that the id pool will not hand out again, every staged upload reads
    /// inside the arena, and an upload staged for one entry that lands on
    /// another is followed by one that rewrites the other whole.
    pub closed spec fn wf(&self) -> bool {
        let d = self.entries();
        let g = self.gaps@;
        let cap = self.capacity as int;
        let free = self.id_pool.free_ids();
        &&& entries_within(d, cap)
        &&& gaps_within(g, cap)
        &&& entries_disjoint(d)
        &&& gaps_disjoint(g)
        &&& entries_apart_from_gaps(d, g)
        &&& entries_sorted(d)
        &&& ids_distinct(d)
        &&& forall|i: int|
            0 <= i < d.len() ==> #[trigger] d[i].id < self.id_pool.next_id() && !free.contains(
                d[i].id,
            )
        &&& free.no_duplicates()
        &&& forall|k: int| 0 <= k < free.len() ==> #[trigger] free[k] < self.id_pool.next_id()
        &&& ops_within_arena(self.write_operations@, self.arena@.len() as int)
        &&& ops_within_buffer(self.write_operations@, cap)
        &&& uploads_settled(d, self.write_operations@)
    }

    /// Every byte of the buffer belongs to an entry or to a gap.
    pub closed spec fn tiled(&self) -> bool {
        forall|b: int|
            0 <= b < self.capacity ==> entries_hold(self.entries(), b) || gaps_hold(self.gaps@, b)
    }

    /// In a consistent allocator the entries and gaps lie in the buffer and
    /// share no byte, the entries are ordered and have distinct ids, and no
    /// staged upload of one entry will land on another.
    pub proof fn lemma_layout(&self)
        requires
            self.wf(),
        ensures
            entries_within(self.entries(), self.buffer_capacity() as int),
            gaps_within(self.gap_list(), self.buffer_capacity() as int),
            entries_disjoint(self.entries()),
            gaps_disjoint(self.gap_list()),
            entries_apart_from_gaps(self.entries(), self.gap_list()),
            entries_sorted(self.entries()),
            ids_distinct(self.entries()),
            uploads_settled(self.entries(), self.pending_writes()),
    {
    }

    proof fn lemma_gaps_wf(&self)
        requires
            self.wf(),
        ensures
            self.gaps.wf(),
    {
        assert forall|i: int| 0 <= i < self.gaps@.len() implies #[trigger] self.gaps@[i].spec_end()
            <= usize::MAX by {
            assert(self.gaps@[i].spec_end() <= self.capacity);
        }
    }

    pub fn new() -> (alloc: Self)
        ensures
            alloc.wf(),
            alloc.entries() == Seq::<AllocEntry>::empty(),
            alloc.gap_list() == Seq::<Gap>::empty(),
            alloc.buffer_capacity() == BUFFER_BASE_SIZE,
            alloc.pending_writes() == Seq::<WriteOperation>::empty(),
            alloc.command_count() == 0,
            alloc.ids_available(),
            alloc.id_pool_state() == (0u32, Seq::<u32>::empty()),
    {
        let alloc = Self {
            data: Vec::with_capacity(256),
            id_pool: IdPool::new(),
            gaps: GapManager::new(),
            write_operations: Vec::new(),
            schedule_batch: false,
            arena: Vec::with_capacity(ARENA_MIN_SIZE),
            capacity: BUFFER_BASE_SIZE,
            commands: Vec::new(),
        };
        proof {
            assert(alloc.id_pool.free_ids().no_duplicates());
        }
        alloc
    }

    /// The gaps of the current buffer.
    pub fn gaps(&self) -> (r: &Vec<Gap>)
        ensures
            r@ == self.gap_list(),
    {
        self.gaps.gaps()
    }

    /// Capacity of the current buffer.
    pub fn capacity(&self) -> (r: u32)
        ensures
            r == self.buffer_capacity(),
    {
        self.capacity
    }

    /// Whether a new entry can get an id.
    pub fn can_issue_id(&self) -> (r: bool)
        ensures
            r == self.ids_available(),
    {
        self.id_pool.free_ids_len() > 0 || self.id_pool_next() < u32::MAX
    }

    fn id_pool_next(&self) -> (r: u32)
        ensures
            r == self.id_pool.next_id(),
    {
        self.id_pool.peek_next()
    }

    /// Index of the entry with id `id`.
    pub fn get_entry_index(&self, id: EntryId) -> (r: Result<usize, AllocError>)
        ensures
            match r {
                Ok(i) => i < self.entries().len() && self.entries()[i as int].id == id && forall|j: int|
                    0 <= j < i ==> #[trigger] self.entries()[j].id != id,
                Err(e) => e == AllocError::InvalidId && !has_id(self.entries(), id),
            },
    {
        let mut i: usize = 0;
        while i < self.data.len()
            invariant
                i <= self.entries().len(),
                forall|j: int| 0 <= j < i ==> #[trigger] self.entries()[j].id != id,
            decreases self.entries().len() - i,
        {
            if self.data[i].id == id {
                return Ok(i);
            }
            i = i + 1;
        }
        Err(AllocError::InvalidId)
    }

    /// The entry with id `id`.
    pub fn get_entry(&self, id: EntryId) -> (r: Result<&AllocEntry, AllocError>)
        ensures
            match r {
                Ok(e) => e.id == id && exists|i: int|
                    0 <= i < self.entries().len() && self.entries()[i] == *e,
                Err(e) => e == AllocError::InvalidId && !has_id(self.entries(), id),
            },
    {
        let index = self.get_entry_index(id)?;
        Ok(&self.data[index])
    }

    /// How many of each of its records the allocator holds and has room for,
    /// and how much of the buffer is in use.
    pub fn memory_counts(&self) -> (r: MemoryCounts)
        requires
            self.wf(),
        ensures
            r.arena_len == self.arena_bytes().len(),
            r.arena_capacity >= r.arena_len,
            r.id_pool_len == self.id_pool_state().1.len(),
            r.id_pool_capacity >= r.id_pool_len,
            r.gaps_len == self.gap_list().len(),
            r.gaps_capacity >= r.gaps_len,
            r.writes_len == self.pending_writes().len(),
            r.writes_capacity >= r.writes_len,
            r.entries_len == self.entries().len(),
            r.entries_capacity >= r.entries_len,
            r.data_bytes == total_len(self.entries()),
            r.gpu_capacity == self.buffer_capacity(),
    {
        MemoryCounts {
            arena_len: self.arena.len(),
            arena_capacity: vec_capacity(&self.arena),
            id_pool_len: self.id_pool.free_ids_len(),
            id_pool_capacity: self.id_pool.capacity(),
            gaps_len: self.gaps.gaps.len(),
            gaps_capacity: vec_capacity(&self.gaps.gaps),
            writes_len: self.write_operations.len(),
            writes_capacity: vec_capacity(&self.write_operations),
            entries_len: self.data.len(),
            entries_capacity: vec_capacity(&self.data),
            data_bytes: self.get_entries_length(),
            gpu_capacity: self.capacity,
        }
    }

    /// The live entries whose id is in `ids`, in buffer order.
    pub fn iter_entries_by_intersection(&self, ids: &HashSet<EntryId, FxBuildHasher>) -> (r: Vec<AllocEntry>)
        ensures
            r@ == self.entries().filter(entry_in(ids@)),
    {
        let ghost wanted = entry_in(ids@);
        let mut out: Vec<AllocEntry> = Vec::new();
        let mut i: usize = 0;
        while i < self.data.len()
            invariant
                wanted == entry_in(ids@),
                i <= self.data@.len(),
                out@ == self.data@.take(i as int).filter(wanted),
            decreases self.data@.len() - i,
        {
            let e = self.data[i];
            proof {
                let t = self.data@.take(i + 1);
                assert(t.drop_last() =~= self.data@.take(i as int));
                assert(t.last() == e);
                assert(t.filter(wanted) == if wanted(e) {
                    self.data@.take(i as int).filter(wanted).push(e)
                } else {
                    self.data@.take(i as int).filter(wanted)
                }) by {
                    reveal(Seq::filter);
                }
            }
            if fx_set_u32_contains(ids, e.id) {
                out.push(e);
            }
            i = i + 1;
        }
        proof {
            assert(self.data@.take(self.data@.len() as int) =~= self.data@);
        }
        out
    }

    /// Sum of the lengths of the live entries.
    pub fn get_entries_length(&self) -> (r: usize)
        requires
            self.wf(),
        ensures
            r == total_len(self.entries()),
            r <= self.buffer_capacity(),
    {
        let mut acc: usize = 0;
        let mut i: usize = 0;
        while i < self.data.len()
            invariant
                self.wf(),
                i <= self.entries().len(),
                acc == total_len(self.entries().take(i as int)),
            decreases self.entries().len() - i,
        {
            proof {
                let d = self.entries();
                lemma_prefix_keeps_shape(d, i + 1, self.capacity as int);
                lemma_total_len_bounded(d.take(i + 1), self.capacity as int);
                assert(d.take(i + 1).drop_last() =~= d.take(i as int));
            }
            acc = acc + self.data[i].length;
            i = i + 1;
        }
        proof {
            assert(self.entries().take(i as int) =~= self.entries());
            lemma_total_len_bounded(self.entries(), self.capacity as int);
        }
        acc
    }

    /// Where an entry starting at `position` goes to keep the entries ordered.
    fn entry_slot(&self, position: usize) -> (k: usize)
        ensures
            k <= self.entries().len(),
            entries_sorted(self.entries()) ==> (forall|j: int|
                0 <= j < k ==> #[trigger] self.entries()[j].position <= position) && (forall|j: int|
                k <= j < self.entries().len() ==> #[trigger] self.entries()[j].position >= position),
    {
        let mut lo: usize = 0;
        let mut hi: usize = self.data.len();
        while lo < hi
            invariant
                lo <= hi <= self.entries().len(),
                entries_sorted(self.entries()) ==> forall|j: int|
                    0 <= j < lo ==> #[trigger] self.entries()[j].position < position,
                entries_sorted(self.entries()) ==> forall|j: int|
                    hi <= j < self.entries().len() ==> #[trigger] self.entries()[j].position > position,
            decreases hi - lo,
        {
            let mid = lo + (hi - lo) / 2;
            let p = self.data[mid].position;
            if p == position {
                return mid;
            } else if p < position {
                lo = mid + 1;
            } else {
                hi = mid;
            }
        }
        lo
    }

    /// Inserts `entry` where it keeps the entries ordered by position.
    fn insert_entry(&mut self, entry: AllocEntry)
        ensures
            exists|k: int|
                0 <= k <= old(self).entries().len() && final(self).entries() == old(
                    self,
                ).entries().insert(k, entry),
            entries_sorted(old(self).entries()) ==> entries_sorted(final(self).entries()),
            final(self).gaps == old(self).gaps,
            final(self).id_pool == old(self).id_pool,
            final(self).write_operations == old(self).write_operations,
            final(self).arena == old(self).arena,
            final(self).capacity == old(self).capacity,
            final(self).commands == old(self).commands,
            final(self).schedule_batch == old(self).schedule_batch,
    {
        let index = self.entry_slot(entry.position);
        self.data.insert(index, entry);
        proof {
            let o = old(self).entries();
            let n = self.entries();
            if entries_sorted(o) {
                assert forall|i: int, j: int| 0 <= i <= j < n.len() implies n[i].position
                    <= n[j].position by {
                    if i < index && j > index {
                        assert(o[i].position <= entry.position);
                    }
                }
            }
        }
    }

    /// Stages `data` for upload at `buffer_offset` on behalf of entry `mesh_id`.
    fn write_at(&mut self, buffer_offset: usize, data: &[u8], mesh_id: EntryId)
        ensures
            old(self).arena@.len() <= usize::MAX,
            final(self).arena@ == old(self).arena@ + data@,
            final(self).write_operations@ == old(self).write_operations@.push(
                WriteOperation {
                    id: mesh_id,
                    len: data@.len() as usize,
                    buffer_offset,
                    arena_offset: old(self).arena@.len() as usize,
                },
            ),
            final(self).schedule_batch,
            final(self).data == old(self).data,
            final(self).gaps == old(self).gaps,
            final(self).id_pool == old(self).id_pool,
            final(self).capacity == old(self).capacity,
            final(self).commands == old(self).commands,
    {
        let len = data.len();
        let arena_offset = self.arena.len();
        self.arena.extend_from_slice(data);
        proof {
            assert forall|i: int| 0 <= i < self.arena@.len() implies #[trigger] self.arena@[i] == (
            old(self).arena@ + data@)[i] by {
                if i >= old(self).arena@.len() {
                    assert(cloned::<u8>(data@[i - old(self).arena@.len()], self.arena@[i]));
                }
            }
            assert(self.arena@ =~= old(self).arena@ + data@);
        }
        let operation = WriteOperation::new(mesh_id, len, buffer_offset, arena_offset);
        self.write_operations.push(operation);
        self.schedule_batch = true;
    }

    /// Drops entry `entry_index` and the uploads staged for `entry_id`.
    fn delete_entry(&mut self, entry_index: usize, entry_id: EntryId)
        requires
            entry_index < old(self).entries().len(),
        ensures
            final(self).entries() == old(self).entries().remove(entry_index as int),
            final(self).write_operations@ == old(self).write_operations@.filter(
                not_for_entry(entry_id),
            ),
            ops_within_arena(old(self).write_operations@, old(self).arena@.len() as int)
                ==> ops_within_arena(final(self).write_operations@, old(self).arena@.len() as int),
            ops_within_buffer(old(self).write_operations@, old(self).capacity as int)
                ==> ops_within_buffer(final(self).write_operations@, old(self).capacity as int),
            final(self).gaps == old(self).gaps,
            final(self).id_pool == old(self).id_pool,
            final(self).arena == old(self).arena,
            final(self).capacity == old(self).capacity,
            final(self).commands == old(self).commands,
            final(self).schedule_batch == old(self).schedule_batch,
    {
        self.data.remove(entry_index);
        let ghost ops = self.write_operations@;
        let mut kept: Vec<WriteOperation> = Vec::new();
        let mut i: usize = 0;
        while i < self.write_operations.len()
            invariant
                i <= ops.len(),
                self.write_operations@ == ops,
                kept@ == ops.take(i as int).filter(not_for_entry(entry_id)),
                forall|k: int|
                    0 <= k < kept@.len() ==> exists|j: int|
                        0 <= j < ops.len() && ops[j] == #[trigger] kept@[k],
            decreases ops.len() - i,
        {
            let op = self.write_operations[i];
            let ghost before = kept@;
            if op.id != entry_id {
                kept.push(op);
                assert(ops[i as int] == kept@[kept@.len() - 1]);
            }
            proof {
                let t = ops.take(i + 1);
                assert(t.drop_last() =~= ops.take(i as int));
                assert(t.last() == op);
                assert(not_for_entry(entry_id)(op) == (op.id != entry_id));
                assert(t.filter(not_for_entry(entry_id)) == if not_for_entry(entry_id)(op) { before.push(op) } else { before }) by {
                    reveal(Seq::filter);
                }
                assert(kept@ == t.filter(not_for_entry(entry_id)));
                assert forall|k: int| 0 <= k < kept@.len() implies exists|j: int|
                    0 <= j < ops.len() && ops[j] == #[trigger] kept@[k] by {
                    if k < before.len() {
                        assert(kept@[k] == before[k]);
                    } else {
                        assert(ops[i as int] == kept@[k]);
                    }
                }
            }
            i = i + 1;
        }
        proof {
            assert(ops.take(i as int) =~= ops);
        }
        self.write_operations = kept;
        proof {
            if ops_within_arena(ops, self.arena@.len() as int) {
                assert forall|k: int| 0 <= k < self.write_operations@.len() implies #[trigger] self.write_operations@[k].arena_offset
                    + self.write_operations@[k].len <= self.arena@.len() by {
                    let j = choose|j: int| 0 <= j < ops.len() && ops[j] == self.write_operations@[k];
                    assert(ops[j].arena_offset + ops[j].len <= self.arena@.len());
                }
            }
            if ops_within_buffer(ops, self.capacity as int) {
                assert forall|k: int| 0 <= k < self.write_operations@.len() implies #[trigger] self.write_operations@[k].buffer_offset
                    + self.write_operations@[k].len <= self.capacity by {
                    let j = choose|j: int| 0 <= j < ops.len() && ops[j] == self.write_operations@[k];
                    assert(ops[j].buffer_offset + ops[j].len <= self.capacity);
                }
            }
        }
    }

    /// Puts `data` at the start of gap `gap_index` as an entry with id `id`,
    /// or with a new id when `id` is `None`, and stages its upload.
    fn insert_data_at_gap(&mut self, id: Option<EntryId>, data: &[u8], gap_index: usize) -> (r: EntryId)
        requires
            old(self).wf(),
            gap_index < old(self).gap_list().len(),
            data@.len() <= old(self).gap_list()[gap_index as int].length,
            match id {
                Some(x) => !has_id(old(self).entries(), x) && x < old(self).id_pool.next_id()
                    && !old(self).id_pool.free_ids().contains(x),
                None => old(self).ids_available(),
            },
        ensures
            final(self).wf(),
            id matches Some(x) ==> r == x,
            !has_id(old(self).entries(), r),
            exists|k: int|
                0 <= k <= old(self).entries().len() && final(self).entries() == #[trigger] old(
                    self,
                ).entries().insert(
                    k,
                    AllocEntry {
                        id: r,
                        position: old(self).gap_list()[gap_index as int].position,
                        length: data@.len() as usize,
                    },
                ),
            final(self).gap_list() == gaps_after_consume(
                old(self).gap_list(),
                gap_index as int,
                data@.len() as usize,
            ),
            final(self).buffer_capacity() == old(self).buffer_capacity(),
            final(self).commands == old(self).commands,
            final(self).arena_bytes() == old(self).arena_bytes() + data@,
            old(self).arena_bytes().len() <= usize::MAX,
            final(self).pending_writes() == old(self).pending_writes().push(
                WriteOperation {
                    id: r,
                    len: data@.len() as usize,
                    buffer_offset: old(self).gap_list()[gap_index as int].position,
                    arena_offset: old(self).arena_bytes().len() as usize,
                },
            ),
            old(self).tiled() ==> final(self).tiled(),
            id is None ==> r == id_taken(old(self).id_pool_state().0, old(self).id_pool_state().1)
                && final(self).id_pool_state() == state_after_take(
                old(self).id_pool_state().0,
                old(self).id_pool_state().1,
            ),
            id is Some ==> final(self).id_pool_state() == old(self).id_pool_state(),
            gaps_tidy(old(self).gap_list()) ==> gaps_tidy(final(self).gap_list()),
    {
        let data_length = data.len();
        let ghost pool0 = self.id_pool;
        let ghost fresh = id.is_none();
        let id = match id {
            Some(id) => id,
            None => self.id_pool.get_new_id(),
        };
        proof {
            if fresh {
                let live = Set::new(|x: u32| has_id(old(self).entries(), x));
                lemma_new_id_is_fresh(pool0, self.id_pool, id, live);
                if has_id(old(self).entries(), id) {
                    assert(live.contains(id));
                }
            }
        }
        proof {
            self.lemma_gaps_wf();
        }
        let ghost g0 = self.gaps@;
        let position = self.gaps.consume_gap(gap_index, data_length);
        let entry = AllocEntry::new(id, position, data_length);
        let ghost d0 = self.data@;
        self.insert_entry(entry);
        let ghost k = choose|k: int| 0 <= k <= d0.len() && self.data@ == d0.insert(k, entry);
        self.write_at(position, data, id);
        proof {
            let cap = self.capacity as int;
            lemma_place_in_gap(d0, g0, cap, gap_index as int, k, entry);
            let d = self.data@;
            assert forall|i: int, j: int|
                0 <= i < d.len() && 0 <= j < d.len() && i != j implies #[trigger] d[i].id
                != #[trigger] d[j].id by {
                if i != k && j != k {
                    let oi = if i < k { i } else { i - 1 };
                    let oj = if j < k { j } else { j - 1 };
                    assert(d[i] == d0[oi] && d[j] == d0[oj]);
                } else if i == k {
                    let oj = if j < k { j } else { j - 1 };
                    assert(d[j] == d0[oj]);
                } else {
                    let oi = if i < k { i } else { i - 1 };
                    assert(d[i] == d0[oi]);
                }
            }
            let free = self.id_pool.free_ids();
            assert forall|i: int| 0 <= i < d.len() implies #[trigger] d[i].id
                < self.id_pool.next_id() && !free.contains(d[i].id) by {
                if i != k {
                    let oi = if i < k { i } else { i - 1 };
                    assert(d[i] == d0[oi]);
                    assert(d0[oi].id < pool0.next_id() && !pool0.free_ids().contains(d0[oi].id));
                    if free.contains(d[i].id) {
                        let z = choose|z: int| 0 <= z < free.len() && free[z] == d[i].id;
                        if fresh && pool0.free_ids().len() > 0 {
                            assert(pool0.free_ids()[z] == free[z]);
                        }
                    }
                }
            }
            assert forall|z: int| 0 <= z < free.len() implies #[trigger] free[z]
                < self.id_pool.next_id() by {
                if fresh && pool0.free_ids().len() > 0 {
                    assert(pool0.free_ids()[z] == free[z]);
                }
            }
            if fresh && pool0.free_ids().len() > 0 {
                assert(free =~= pool0.free_ids().drop_last());
            }
            let ops = self.write_operations@;
            assert forall|x: int| 0 <= x < ops.len() implies #[trigger] ops[x].arena_offset
                + ops[x].len <= self.arena@.len() by {
                if x < ops.len() - 1 {
                    assert(ops[x] == old(self).write_operations@[x]);
                }
            }
            assert(g0[gap_index as int].spec_end() <= cap);
            assert forall|x: int| 0 <= x < ops.len() implies #[trigger] ops[x].buffer_offset
                + ops[x].len <= cap by {
                if x < ops.len() - 1 {
                    assert(ops[x] == old(self).write_operations@[x]);
                }
            }
            assert forall|j: int| 0 <= j < d0.len() implies !op_touches(ops.last(), #[trigger] d0[j]) by {
                let jj = if j < k { j } else { j + 1 };
                assert(d[jj] == d0[j]);
                assert(regions_disjoint(d[k].position, d[k].length, d[jj].position, d[jj].length));
            }
            assert(ops == old(self).write_operations@.push(ops.last()));
            lemma_settled_place(d0, old(self).write_operations@, k, entry, ops.last());
        }
        id
    }

    /// Releases the entry with id `id`: its bytes become free and its id goes
    /// back to the pool.
    pub fn free(&mut self, id: EntryId) -> (r: Result<(), AllocError>)
        requires
            old(self).wf(),
        ensures
            final(self).wf(),
            r is Err <==> !has_id(old(self).entries(), id),
            r is Err ==> r == Err::<(), AllocError>(AllocError::InvalidId) && final(self).entries()
                == old(self).entries() && final(self).gap_list() == old(self).gap_list(),
            r is Ok ==> exists|i: int|
                0 <= i < old(self).entries().len() && #[trigger] old(self).entries()[i].id == id
                    && final(self).entries() == old(self).entries().remove(i) && forall|b: int|
                    gaps_hold(final(self).gap_list(), b) <==> gaps_hold(old(self).gap_list(), b)
                        || old(self).entries()[i].holds(b),
            r is Ok ==> final(self).ids_available(),
            r is Ok ==> final(self).id_pool_state() == (
                old(self).id_pool_state().0,
                old(self).id_pool_state().1.push(id),
            ),
            r is Err ==> final(self).id_pool_state() == old(self).id_pool_state(),
            final(self).buffer_capacity() == old(self).buffer_capacity(),
            final(self).command_count() == old(self).command_count(),
            old(self).tiled() ==> final(self).tiled(),
            r is Ok ==> forall|img: Seq<u8>, j: int|
                0 <= j < old(self).entries().len() && old(self).entries()[j].id != id && old(
                    self,
                ).staged_image(img).len() == old(self).buffer_capacity() ==> entry_bytes(
                    #[trigger] final(self).staged_image(img),
                    #[trigger] old(self).entries()[j],
                ) == entry_bytes(old(self).staged_image(img), old(self).entries()[j]),
            r is Ok ==> ({
                let e = old(self).entries()[index_of_id(old(self).entries(), id)];
                gaps_tidy(old(self).gap_list()) && e.length > 0 ==> final(self).gap_list() == released(
                    old(self).gap_list(),
                    e.position,
                    e.length,
                ) && gaps_tidy(final(self).gap_list())
            }),
    {
        let entry_index = match self.get_entry_index(id) {
            Ok(i) => i,
            Err(e) => {
                return Err(e);
            },
        };
        let position = self.data[entry_index].position;
        let length = self.data[entry_index].length;
        let ghost d0 = self.data@;
        let ghost g0 = self.gaps@;
        let ghost e0 = d0[entry_index as int];
        let ghost cap = self.capacity as int;
        proof {
            lemma_index_of_id(d0, entry_index as int);
            self.lemma_gaps_wf();
            assert(d0[entry_index as int].position + d0[entry_index as int].length <= cap);
        }
        self.delete_entry(entry_index, id);
        self.gaps.release_after(position, length);
        self.id_pool.free_id(id);
        proof {
            let d = self.data@;
            let g = self.gaps@;
            assert(gaps_within(g, cap));
            assert forall|x: int, y: int| 0 <= x < d.len() && 0 <= y < g.len() implies regions_disjoint(
                #[trigger] d[x].position,
                d[x].length,
                #[trigger] g[y].position,
                g[y].length,
            ) by {
                let ox = if x < entry_index { x } else { x + 1 };
                assert(d[x] == d0[ox]);
                assert forall|b: int| !(region_holds(d[x].position, d[x].length, b) && region_holds(
                    g[y].position,
                    g[y].length,
                    b,
                )) by {
                    if region_holds(d[x].position, d[x].length, b) && region_holds(
                        g[y].position,
                        g[y].length,
                        b,
                    ) {
                        assert(g[y].holds(b));
                        assert(gaps_hold(g, b));
                        if gaps_hold(g0, b) {
                            let z = choose|z: int| 0 <= z < g0.len() && #[trigger] g0[z].holds(b);
                            assert(regions_disjoint(
                                d0[ox].position,
                                d0[ox].length,
                                g0[z].position,
                                g0[z].length,
                            ));
                        } else {
                            assert(regions_disjoint(
                                d0[ox].position,
                                d0[ox].length,
                                d0[entry_index as int].position,
                                d0[entry_index as int].length,
                            ));
                        }
                    }
                }
                lemma_regions_disjoint_from_bytes(d[x].position, d[x].length, g[y].position, g[y].length);
            }
            let free = self.id_pool.free_ids();
            assert forall|i: int| 0 <= i < d.len() implies #[trigger] d[i].id
                < self.id_pool.next_id() && !free.contains(d[i].id) by {
                let oi = if i < entry_index { i } else { i + 1 };
                assert(d[i] == d0[oi]);
                assert(d0[oi].id != d0[entry_index as int].id);
                if free.contains(d[i].id) {
                    let z = choose|z: int| 0 <= z < free.len() && free[z] == d[i].id;
                    if z < free.len() - 1 {
                        assert(old(self).id_pool.free_ids()[z] == free[z]);
                    }
                }
            }
            assert(!old(self).id_pool.free_ids().contains(id));
            assert(free.no_duplicates()) by {
                let f0 = old(self).id_pool.free_ids();
                assert forall|a: int, c: int| 0 <= a < c < free.len() implies free[a] != free[c] by {
                    if c == free.len() - 1 {
                        assert(f0[a] == free[a]);
                    }
                }
            }
            assert forall|z: int| 0 <= z < free.len() implies #[trigger] free[z]
                < self.id_pool.next_id() by {
                if z < free.len() - 1 {
                    assert(old(self).id_pool.free_ids()[z] == free[z]);
                }
            }
            assert forall|i: int, j: int| 0 <= i <= j < d.len() implies d[i].position <= d[j].position by {
                let oi = if i < entry_index { i } else { i + 1 };
                let oj = if j < entry_index { j } else { j + 1 };
                assert(d[i] == d0[oi] && d[j] == d0[oj]);
            }
            assert forall|i: int, j: int|
                0 <= i < d.len() && 0 <= j < d.len() && i != j implies regions_disjoint(
                #[trigger] d[i].position,
                d[i].length,
                #[trigger] d[j].position,
                d[j].length,
            ) by {
                let oi = if i < entry_index { i } else { i + 1 };
                let oj = if j < entry_index { j } else { j + 1 };
                assert(d[i] == d0[oi] && d[j] == d0[oj]);
            }
            assert forall|i: int, j: int|
                0 <= i < d.len() && 0 <= j < d.len() && i != j implies #[trigger] d[i].id
                != #[trigger] d[j].id by {
                let oi = if i < entry_index { i } else { i + 1 };
                let oj = if j < entry_index { j } else { j + 1 };
                assert(d[i] == d0[oi] && d[j] == d0[oj]);
            }
            assert forall|i: int| 0 <= i < d.len() implies #[trigger] d[i].position + d[i].length
                <= cap by {
                let oi = if i < entry_index { i } else { i + 1 };
                assert(d[i] == d0[oi]);
            }
            if old(self).tiled() {
                assert forall|b: int| 0 <= b < cap implies entries_hold(d, b) || gaps_hold(g, b) by {
                    if entries_hold(d0, b) {
                        let x = choose|x: int| 0 <= x < d0.len() && #[trigger] d0[x].holds(b);
                        if x < entry_index {
                            assert(d[x].holds(b));
                        } else if x > entry_index {
                            assert(d[x - 1].holds(b));
                        } else {
                            assert(region_holds(position, length, b));
                        }
                    }
                }
            }
            assert forall|j: int|
                0 <= j < d0.len() && j != entry_index implies #[trigger] d0[j].id != d0[entry_index as int].id by {
            }
            lemma_settled_remove(d0, old(self).write_operations@, entry_index as int);
            assert forall|img: Seq<u8>, j: int|
                0 <= j < d0.len() && d0[j].id != id && old(self).staged_image(img).len()
                    == old(self).buffer_capacity() implies entry_bytes(
                #[trigger] self.staged_image(img),
                #[trigger] d0[j],
            ) == entry_bytes(old(self).staged_image(img), d0[j]) by {
                let c = apply_commands(img, self.commands@);
                lemma_apply_ops_len(c, self.arena@, old(self).write_operations@);
                lemma_filter_keeps_entry(c, self.arena@, old(self).write_operations@, d0[j], id);
            }
        }
        Ok(())
    }

    /// Joins staged uploads that carry on from each other into single uploads.
    fn batch_commands(&mut self)
        requires
            ops_within_arena(old(self).write_operations@, old(self).arena@.len() as int),
            ops_within_buffer(old(self).write_operations@, usize::MAX as int),
        ensures
            forall|img: Seq<u8>|
                #[trigger] apply_ops(img, old(self).arena@, final(self).write_operations@)
                    == apply_ops(img, old(self).arena@, old(self).write_operations@),
            final(self).write_operations@ == batched(old(self).write_operations@),
            final(self).write_operations@.len() <= old(self).write_operations@.len(),
            ops_within_arena(final(self).write_operations@, old(self).arena@.len() as int),
            forall|c: int|
                ops_within_buffer(old(self).write_operations@, c) ==> #[trigger] ops_within_buffer(
                    final(self).write_operations@,
                    c,
                ),
            final(self).data == old(self).data,
            final(self).gaps == old(self).gaps,
            final(self).id_pool == old(self).id_pool,
            final(self).arena == old(self).arena,
            final(self).capacity == old(self).capacity,
            final(self).commands == old(self).commands,
            final(self).schedule_batch == old(self).schedule_batch,
    {
        let base_len = self.write_operations.len();
        if base_len <= 1 {
            proof {
                let o = self.write_operations@;
                if o.len() == 1 {
                    assert(o.drop_last().len() == 0);
                    assert(batched(o.drop_last()) == o.drop_last());
                    assert(o.drop_last().push(o.last()) =~= o);
                }
            }
            return;
        }
        let ghost orig = self.write_operations@;
        let ghost arena = self.arena@;
        let arena_len = self.arena.len();
        let mut head: usize = 0;
        let mut i: usize = 1;
        proof {
            assert(orig.take(1).drop_last() =~= orig.take(0));
            assert(self.write_operations@.take(1) =~= orig.take(1));
            assert(batched(orig.take(0)) =~= orig.take(0));
            assert(orig.take(0).push(orig.take(1).last()) =~= orig.take(1));
        }
        while i < base_len
            invariant
                self.write_operations@.len() == base_len == orig.len(),
                0 <= head < i <= base_len,
                self.arena@ == arena,
                arena_len == arena.len(),
                forall|k: int| i <= k < base_len ==> #[trigger] self.write_operations@[k] == orig[k],
                self.write_operations@.take(head + 1) == batched(orig.take(i as int)),
                forall|img: Seq<u8>|
                    #[trigger] apply_ops(img, arena, self.write_operations@.take(head + 1))
                        == apply_ops(img, arena, orig.take(i as int)),
                ops_within_arena(orig, arena.len() as int),
                ops_within_arena(self.write_operations@, arena.len() as int),
                forall|c: int|
                    ops_within_buffer(orig, c) ==> #[trigger] ops_within_buffer(
                        self.write_operations@,
                        c,
                    ),
                ops_within_buffer(orig, usize::MAX as int),
                self.data == old(self).data,
                self.gaps == old(self).gaps,
                self.id_pool == old(self).id_pool,
                self.arena == old(self).arena,
                self.capacity == old(self).capacity,
                self.commands == old(self).commands,
                self.schedule_batch == old(self).schedule_batch,
            decreases base_len - i,
        {
            let ghost before = self.write_operations@;
            let curr = self.write_operations[head];
            let next = self.write_operations[i];
            proof {
                assert(ops_within_buffer(before, usize::MAX as int));
                assert(before[head as int].arena_offset + before[head as int].len <= arena.len());
                assert(before[head as int].buffer_offset + before[head as int].len <= usize::MAX);
                assert(orig[i as int].arena_offset + orig[i as int].len <= arena.len());
            }
            let can_merge = curr.arena_offset + curr.len == next.arena_offset && curr.buffer_offset
                + curr.len == next.buffer_offset;
            if can_merge {
                let consumed_len = next.len;
                let merged = WriteOperation { len: curr.len + consumed_len, ..curr };
                self.write_operations.set(head, merged);
                proof {
                    let now = self.write_operations@;
                    assert(now.take(head + 1).drop_last() =~= before.take(head as int));
                    assert(before.take(head + 1).drop_last() =~= before.take(head as int));
                    assert(orig.take(i + 1).drop_last() =~= orig.take(i as int));
                    assert(orig.take(i + 1).last() == orig[i as int]);
                    assert(before.take(head + 1).last() == curr);
                    assert(now.take(head + 1) =~= before.take(head + 1).drop_last().push(merged));
                    assert forall|img: Seq<u8>|
                        #[trigger] apply_ops(img, arena, now.take(head + 1)) == apply_ops(
                            img,
                            arena,
                            orig.take(i + 1),
                        ) by {
                        let base = apply_ops(img, arena, before.take(head as int));
                        lemma_merge_ops(base, arena, curr, next);
                        assert(apply_ops(img, arena, before.take(head + 1)) == apply_ops(
                            img,
                            arena,
                            orig.take(i as int),
                        ));
                    }
                    assert forall|c: int|
                        ops_within_buffer(orig, c) implies #[trigger] ops_within_buffer(now, c) by {
                        assert(ops_within_buffer(before, c));
                        assert forall|k: int| 0 <= k < now.len() implies #[trigger] now[k].buffer_offset
                            + now[k].len <= c by {
                            if k == head {
                                assert(before[i as int].buffer_offset + before[i as int].len <= c);
                            } else {
                                assert(now[k] == before[k]);
                            }
                        }
                    }
                    assert forall|k: int| 0 <= k < now.len() implies #[trigger] now[k].arena_offset
                        + now[k].len <= arena.len() by {
                        if k != head {
                            assert(now[k] == before[k]);
                        }
                    }
                }
            } else {
                head = head + 1;
                if head != i {
                    let stale = self.write_operations[head];
                    self.write_operations.set(head, next);
                    self.write_operations.set(i, stale);
                }
                proof {
                    let now = self.write_operations@;
                    assert(now.take(head + 1) =~= before.take(head as int).push(orig[i as int]));
                    assert(orig.take(i + 1).drop_last() =~= orig.take(i as int));
                    assert(orig.take(i + 1).last() == orig[i as int]);
                    assert(before.take(head as int).last() == curr);
                    assert(now.take(head + 1).drop_last() =~= before.take(head as int));
                    assert forall|img: Seq<u8>|
                        #[trigger] apply_ops(img, arena, now.take(head + 1)) == apply_ops(
                            img,
                            arena,
                            orig.take(i + 1),
                        ) by {
                        assert(apply_ops(img, arena, before.take(head as int)) == apply_ops(
                            img,
                            arena,
                            orig.take(i as int),
                        ));
                        assert(now.take(head + 1).last() == orig[i as int]);
                        assert(orig.take(i + 1).last() == orig[i as int]);
                    }
                    assert forall|c: int|
                        ops_within_buffer(orig, c) implies #[trigger] ops_within_buffer(now, c) by {
                        assert(ops_within_buffer(before, c));
                        assert forall|k: int| 0 <= k < now.len() implies #[trigger] now[k].buffer_offset
                            + now[k].len <= c by {
                            if k == head || k == i {
                                assert(before[head as int].buffer_offset + before[head as int].len <= c);
                                assert(before[i as int].buffer_offset + before[i as int].len <= c);
                            } else {
                                assert(now[k] == before[k]);
                            }
                        }
                    }
                    assert forall|k: int| 0 <= k < now.len() implies #[trigger] now[k].arena_offset
                        + now[k].len <= arena.len() by {
                        if k == head || k == i {
                            assert(before[head as int].arena_offset + before[head as int].len <= arena.len());
                            assert(before[i as int].arena_offset + before[i as int].len <= arena.len());
                        } else {
                            assert(now[k] == before[k]);
                        }
                    }
                }
            }
            i = i + 1;
        }
        let ghost before = self.write_operations@;
        self.write_operations.truncate(head + 1);
        proof {
            assert(self.write_operations@ =~= before.take(head + 1));
            assert(orig.take(i as int) =~= orig);
            let now = self.write_operations@;
            assert forall|c: int| ops_within_buffer(orig, c) implies #[trigger] ops_within_buffer(now, c) by {
                assert(ops_within_buffer(before, c));
                assert forall|k: int| 0 <= k < now.len() implies #[trigger] now[k].buffer_offset
                    + now[k].len <= c by {
                    assert(now[k] == before[k]);
                }
            }
            assert forall|k: int| 0 <= k < now.len() implies #[trigger] now[k].arena_offset
                + now[k].len <= arena.len() by {
                assert(now[k] == before[k]);
            }
        }
    }

    /// Turns the staged uploads into GPU write commands and empties the arena.
    pub fn flush(&mut self)
        requires
            old(self).wf(),
        ensures
            final(self).wf(),
            final(self).entries() == old(self).entries(),
            final(self).gap_list() == old(self).gap_list(),
            final(self).buffer_capacity() == old(self).buffer_capacity(),
            final(self).ids_available() == old(self).ids_available(),
            final(self).id_pool_state() == old(self).id_pool_state(),
            final(self).pending_writes() == Seq::<WriteOperation>::empty(),
            old(self).pending_writes().len() > 0 ==> final(self).arena_bytes()
                == Seq::<u8>::empty(),
            old(self).pending_writes().len() == 0 ==> final(self).gpu_commands() == old(
                self,
            ).gpu_commands() && final(self).arena_bytes() == old(self).arena_bytes(),
            old(self).gpu_commands().is_prefix_of(final(self).gpu_commands()),
            forall|img: Seq<u8>| #[trigger]
                final(self).staged_image(img) == old(self).staged_image(img),
            old(self).tiled() ==> final(self).tiled(),
    {
        if self.write_operations.is_empty() {
            return;
        }
        if self.schedule_batch {
            proof {
                let ops = self.write_operations@;
                assert forall|k: int| 0 <= k < ops.len() implies #[trigger] ops[k].buffer_offset
                    + ops[k].len <= usize::MAX by {
                    assert(ops[k].buffer_offset + ops[k].len <= self.capacity);
                }
            }
            self.batch_commands();
            self.schedule_batch = false;
        }
        let ghost ops = self.write_operations@;
        let ghost arena = self.arena@;
        let ghost cmds0 = self.commands@;
        let arena_len = self.arena.len();
        let mut k: usize = 0;
        while k < self.write_operations.len()
            invariant
                k <= ops.len(),
                arena_len == arena.len(),
                self.write_operations@ == ops,
                self.arena@ == arena,
                ops_within_arena(ops, arena.len() as int),
                cmds0.is_prefix_of(self.commands@),
                forall|img: Seq<u8>|
                    #[trigger] apply_commands(img, self.commands@) == apply_ops(
                        apply_commands(img, cmds0),
                        arena,
                        ops.take(k as int),
                    ),
                self.data == old(self).data,
                self.gaps == old(self).gaps,
                self.id_pool == old(self).id_pool,
                self.capacity == old(self).capacity,
            decreases ops.len() - k,
        {
            let op = self.write_operations[k];
            proof {
                assert(ops[k as int].arena_offset + ops[k as int].len <= arena.len());
            }
            let bytes = vstd::slice::slice_to_vec(
                vstd::slice::slice_subrange(
                    self.arena.as_slice(),
                    op.arena_offset,
                    op.arena_offset + op.len,
                ),
            );
            let ghost before = self.commands@;
            let ghost written = bytes@;
            assert(written == arena.subrange(op.arena_offset as int, op.arena_offset + op.len));
            let cmd = GpuCommand::Write { offset: op.buffer_offset, bytes };
            self.commands.push(cmd);
            proof {
                assert(self.commands@.last() == cmd);
                assert(apply_command(apply_commands(Seq::<u8>::empty(), before), cmd) == apply_bytes(
                    apply_commands(Seq::<u8>::empty(), before),
                    op.buffer_offset as int,
                    written,
                ));
                assert(ops.take(k + 1).drop_last() =~= ops.take(k as int));
                assert(ops.take(k + 1).last() == op);
                assert(self.commands@.drop_last() =~= before);
                assert forall|img: Seq<u8>|
                    #[trigger] apply_commands(img, self.commands@) == apply_ops(
                        apply_commands(img, cmds0),
                        arena,
                        ops.take(k + 1),
                    ) by {
                    lemma_op_as_bytes(
                        apply_ops(apply_commands(img, cmds0), arena, ops.take(k as int)),
                        arena,
                        op,
                    );
                    assert(apply_commands(img, before) == apply_ops(
                        apply_commands(img, cmds0),
                        arena,
                        ops.take(k as int),
                    ));
                    assert(apply_command(apply_commands(img, before), cmd) == apply_bytes(
                        apply_commands(img, before),
                        op.buffer_offset as int,
                        written,
                    ));
                }
                assert(cmds0.is_prefix_of(self.commands@)) by {
                    assert forall|x: int| 0 <= x < cmds0.len() implies cmds0[x] == self.commands@[x] by {
                        assert(before[x] == self.commands@[x]);
                    }
                }
            }
            k = k + 1;
        }
        self.write_operations.clear();
        self.arena.clear();
        proof {
            assert(ops.take(k as int) =~= ops);
            assert forall|img: Seq<u8>| #[trigger] self.staged_image(img) == old(self).staged_image(img) by {
                assert(apply_ops(apply_commands(img, self.commands@), self.arena@, self.write_operations@)
                    == apply_commands(img, self.commands@));
            }
        }
    }

    /// Hands over the recorded GPU commands, oldest first.
    pub fn take_gpu_commands(&mut self) -> (r: Vec<GpuCommand>)
        requires
            old(self).wf(),
        ensures
            final(self).wf(),
            r@ == old(self).gpu_commands(),
            final(self).gpu_commands() == Seq::<GpuCommand>::empty(),
            final(self).entries() == old(self).entries(),
            final(self).gap_list() == old(self).gap_list(),
            final(self).buffer_capacity() == old(self).buffer_capacity(),
            final(self).pending_writes() == old(self).pending_writes(),
            final(self).arena_bytes() == old(self).arena_bytes(),
            final(self).ids_available() == old(self).ids_available(),
            forall|img: Seq<u8>| #[trigger]
                final(self).staged_image(apply_commands(img, r@)) == old(self).staged_image(img),
            old(self).tiled() ==> final(self).tiled(),
    {
        let mut taken: Vec<GpuCommand> = Vec::new();
        std::mem::swap(&mut taken, &mut self.commands);
        taken
    }

    /// Moves to a buffer of `new_capacity` bytes: staged uploads are flushed,
    /// the entries are packed from the start of the new buffer in their order,
    /// and the rest of it becomes the only gap.
    #[verifier::rlimit(60)]
    pub fn reallocate_defragment(&mut self, new_capacity: u32)
        requires
            old(self).wf(),
            new_capacity >= total_len(old(self).entries()),
        ensures
            final(self).wf(),
            final(self).tiled(),
            final(self).buffer_capacity() == new_capacity,
            final(self).entries().len() == old(self).entries().len(),
            forall|k: int|
                0 <= k < old(self).entries().len() ==> #[trigger] final(self).entries()[k]
                    == packed_entry(old(self).entries(), k),
            final(self).gap_list() == packed_gaps(old(self).entries(), new_capacity),
            final(self).pending_writes() == Seq::<WriteOperation>::empty(),
            final(self).ids_available() == old(self).ids_available(),
            final(self).id_pool_state() == old(self).id_pool_state(),
            old(self).gpu_commands().is_prefix_of(final(self).gpu_commands()),
            ({
                let last = final(self).gpu_commands().last();
                &&& final(self).gpu_commands().len() > 0
                &&& last matches GpuCommand::Reallocate { capacity, copies } && capacity
                    == new_capacity && copies@.len() == old(self).entries().len() && forall|k: int|
                    0 <= k < copies@.len() ==> #[trigger] copies@[k] == packing_copy(
                        old(self).entries(),
                        k,
                    )
            }),
            forall|img: Seq<u8>, k: int|
                #![trigger final(self).staged_image(img), final(self).entries()[k]]
                0 <= k < old(self).entries().len() && old(self).staged_image(img).len()
                    == old(self).buffer_capacity() ==> final(self).staged_image(img).subrange(
                    final(self).entries()[k].position as int,
                    final(self).entries()[k].position + final(self).entries()[k].length,
                ) == old(self).staged_image(img).subrange(
                    old(self).entries()[k].position as int,
                    old(self).entries()[k].position + old(self).entries()[k].length,
                ),
    {
        if !self.write_operations.is_empty() {
            self.flush();
        }
        let ghost d0 = self.data@;
        let ghost flushed = self;
        proof {
            lemma_total_len_bounded(d0, self.capacity as int);
        }
        let mut copies: Vec<BufferCopy> = Vec::new();
        let mut current_position: usize = 0;
        let mut i: usize = 0;
        while i < self.data.len()
            invariant
                self.data@.len() == d0.len(),
                i <= d0.len(),
                current_position == total_len(d0.take(i as int)),
                total_len(d0) <= new_capacity,
                forall|k: int| 0 <= k < i ==> #[trigger] self.data@[k] == packed_entry(d0, k),
                forall|k: int| i <= k < d0.len() ==> #[trigger] self.data@[k] == d0[k],
                copies@.len() == i,
                forall|k: int| 0 <= k < i ==> #[trigger] copies@[k] == packing_copy(d0, k),
                self.gaps == flushed.gaps,
                self.id_pool == flushed.id_pool,
                self.write_operations == flushed.write_operations,
                self.arena == flushed.arena,
                self.capacity == flushed.capacity,
                self.commands == flushed.commands,
                self.schedule_batch == flushed.schedule_batch,
            decreases d0.len() - i,
        {
            let e = self.data[i];
            proof {
                lemma_total_len_prefix(d0, i as int);
                lemma_total_len_prefix(d0, i + 1);
            }
            copies.push(
                BufferCopy { src_offset: e.position, dst_offset: current_position, len: e.length },
            );
            self.data.set(i, AllocEntry { id: e.id, position: current_position, length: e.length });
            current_position = current_position + e.length;
            i = i + 1;
        }
        proof {
            assert(d0.take(i as int) =~= d0);
        }
        self.gaps.gaps.clear();
        let gap_length = new_capacity as usize - current_position;
        if gap_length != 0 {
            self.gaps.gaps.push(Gap::new(current_position, gap_length));
        }
        let ghost cmds1 = self.commands@;
        let ghost copies_view = copies@;
        self.commands.push(GpuCommand::Reallocate { capacity: new_capacity, copies });
        self.capacity = new_capacity;
        proof {
            let d = self.data@;
            assert(d =~= packed_entries(d0));
            lemma_packed_layout(d0, new_capacity);
            assert forall|x: int| 0 <= x < d.len() implies #[trigger] d[x].id
                < self.id_pool.next_id() && !self.id_pool.free_ids().contains(d[x].id) by {
                assert(d0[x].id < self.id_pool.next_id());
            }
            // the new buffer keeps each entry's bytes
            let r = self.commands@.last();
            assert(self.commands@.drop_last() =~= cmds1);
            assert(cmds1 == flushed.commands@);
            assert(old(self).gpu_commands().is_prefix_of(self.commands@)) by {
                assert forall|x: int| 0 <= x < old(self).gpu_commands().len() implies old(
                    self,
                ).gpu_commands()[x] == self.commands@[x] by {
                    assert(cmds1[x] == self.commands@[x]);
                }
            }
            assert forall|img: Seq<u8>, k: int|
                #![trigger self.staged_image(img), self.data@[k]]
                0 <= k < d0.len() && old(self).staged_image(img).len() == old(self).capacity implies self.staged_image(img).subrange(
                d[k].position as int,
                d[k].position + d[k].length,
            ) == old(self).staged_image(img).subrange(
                d0[k].position as int,
                d0[k].position + d0[k].length,
            ) by {
                let before = apply_commands(img, cmds1);
                assert(before == flushed.staged_image(img));
                assert(self.staged_image(img) == realloc_image(before, new_capacity, copies_view));
                assert(d[k] == packed_entry(d0, k));
                assert(d0[k].position + d0[k].length <= old(self).capacity);
                lemma_packing_keeps_bytes(before, d0, new_capacity, copies_view, k);
            }
        }
    }

    /// Stores `data` in a new entry and returns its id. When no gap can hold
    /// it, the allocator first moves to a buffer of `grown_capacity` bytes,
    /// or fails with nothing changed when that buffer would be too small.
    #[verifier::spinoff_prover]
    #[verifier::rlimit(40)]
    pub fn add(&mut self, data: &[u8], grown_capacity: u32) -> (r: Result<EntryId, AllocError>)
        requires
            old(self).wf(),
            old(self).ids_available(),
        ensures
            final(self).wf(),
            old(self).tiled() ==> final(self).tiled(),
            r is Err <==> !some_gap_fits(old(self).gap_list(), data@.len() as int) && (grown_capacity
                < total_len(old(self).entries()) + data@.len() || grown_capacity == total_len(
                old(self).entries(),
            )),
            !some_gap_fits(old(self).gap_list(), data@.len() as int) && grown_capacity < total_len(
                old(self).entries(),
            ) + data@.len() ==> *final(self) == *old(self),
            r is Err ==> r == Err::<EntryId, AllocError>(AllocError::NotEnoughSpace),
            some_gap_fits(old(self).gap_list(), data@.len() as int) ==> final(self).buffer_capacity()
                == old(self).buffer_capacity(),
            !some_gap_fits(old(self).gap_list(), data@.len() as int) && grown_capacity >= total_len(
                old(self).entries(),
            ) + data@.len() ==> final(self).buffer_capacity() == grown_capacity && final(self).tiled(),
            old(self).gpu_commands().is_prefix_of(final(self).gpu_commands()),
            r matches Ok(id) ==> !has_id(old(self).entries(), id),
            r matches Ok(id) ==> {
                let k = index_of_id(final(self).entries(), id);
                let e = final(self).entries()[k];
                &&& has_id(final(self).entries(), id)
                &&& k <= old(self).entries().len()
                &&& final(self).entries() == moved_entries(
                    old(self).entries(),
                    some_gap_fits(old(self).gap_list(), data@.len() as int),
                ).insert(k, e)
                &&& e.id == id
                &&& e.length == data@.len()
                &&& forall|img: Seq<u8>|
                    old(self).staged_image(img).len() == old(self).buffer_capacity() ==> (
                    #[trigger] final(self).staged_image(img)).subrange(
                        e.position as int,
                        e.position + e.length,
                    ) == data@
            },
            r is Err && grown_capacity >= total_len(old(self).entries()) + data@.len()
                ==> final(self).entries() == packed_entries(old(self).entries()),
            r matches Ok(id) ==> id == id_taken(old(self).id_pool_state().0, old(self).id_pool_state().1)
                && final(self).id_pool_state() == state_after_take(
                old(self).id_pool_state().0,
                old(self).id_pool_state().1,
            ),
            r is Err ==> final(self).id_pool_state() == old(self).id_pool_state(),
            gaps_tidy(old(self).gap_list()) || (!some_gap_fits(old(self).gap_list(), data@.len() as int)
                && grown_capacity >= total_len(old(self).entries()) + data@.len()) ==> gaps_tidy(
                final(self).gap_list(),
            ),
            r matches Ok(id) ==> (some_gap_fits(old(self).gap_list(), data@.len() as int) ==> {
                let g = first_fit(old(self).gap_list(), data@.len() as int);
                &&& final(self).entries()[index_of_id(final(self).entries(), id)].position
                    == old(self).gap_list()[g].position
                &&& final(self).gap_list() == gaps_after_consume(
                    old(self).gap_list(),
                    g,
                    data@.len() as usize,
                )
            }),
            r matches Ok(id) ==> (!some_gap_fits(old(self).gap_list(), data@.len() as int) ==> {
                &&& final(self).entries()[index_of_id(final(self).entries(), id)].position
                    == total_len(old(self).entries())
                &&& final(self).gap_list() == gaps_after_consume(
                    packed_gaps(old(self).entries(), grown_capacity),
                    0,
                    data@.len() as usize,
                )
            }),
            forall|img: Seq<u8>, j: int|
                0 <= j < old(self).entries().len() && old(self).staged_image(img).len() == old(
                    self,
                ).buffer_capacity() && (some_gap_fits(old(self).gap_list(), data@.len() as int)
                    || grown_capacity >= total_len(old(self).entries()) + data@.len()) ==> entry_bytes(
                    #[trigger] final(self).staged_image(img),
                    #[trigger] moved_entries(
                        old(self).entries(),
                        some_gap_fits(old(self).gap_list(), data@.len() as int),
                    )[j],
                ) == entry_bytes(old(self).staged_image(img), old(self).entries()[j]),
    {
        let mut position = self.gaps.find_place(data.len());
        let ghost fits = some_gap_fits(self.gaps@, data@.len() as int);
        proof {
            if position is Some {
                lemma_first_fit(self.gaps@, data@.len() as int, position.unwrap() as int);
            }
            lemma_total_len_nonneg(self.data@);
            if fits {
                let i = choose|i: int| 0 <= i < self.gaps@.len() && #[trigger] self.gaps@[i].length
                    >= data@.len();
                assert(self.gaps@[i].length >= data@.len());
            }
        }
        let ghost d0 = self.data@;
        if position.is_none() {
            let total = self.get_entries_length();
            if data.len() > grown_capacity as usize || (grown_capacity as usize) - data.len() < total {
                // The buffer cannot grow enough to hold the data.
                return Err(AllocError::NotEnoughSpace);
            }
            self.reallocate_defragment(grown_capacity);
            position = self.gaps.find_place(data.len());
            proof {
                assert(self.data@ =~= packed_entries(d0));
            }
        }
        proof {
            assert forall|img: Seq<u8>, j: int|
                0 <= j < d0.len() && old(self).staged_image(img).len() == old(self).buffer_capacity() implies entry_bytes(
                #[trigger] self.staged_image(img),
                #[trigger] moved_entries(d0, fits)[j],
            ) == entry_bytes(old(self).staged_image(img), d0[j]) by {
                if !fits {
                    assert(self.data@[j] == packed_entry(d0, j));
                }
            }
        }
        let gap_index = match position {
            Some(i) => i,
            None => {
                proof {
                    if grown_capacity > total_len(d0) {
                        assert(self.gaps@ == packed_gaps(d0, grown_capacity));
                        assert(self.gaps@[0].length >= data@.len());
                    }
                }
                return Err(AllocError::NotEnoughSpace);
            },
        };
        proof {
            if !fits {
                assert(grown_capacity > total_len(d0) || data@.len() == 0);
            }
        }
        let ghost mid = *self;
        let id = self.insert_data_at_gap(None, data, gap_index);
        proof {
            let p = mid.gaps@[gap_index as int].position;
            let k = choose|k: int|
                0 <= k <= mid.data@.len() && self.data@ == #[trigger] mid.data@.insert(
                    k,
                    AllocEntry { id, position: p, length: data@.len() as usize },
                );
            assert(mid.gaps@[gap_index as int].spec_end() <= mid.capacity);
            if has_id(d0, id) {
                let j = choose|j: int| 0 <= j < d0.len() && #[trigger] d0[j].id == id;
                assert(mid.data@[j].id == id);
            }
            assert forall|img: Seq<u8>|
                old(self).staged_image(img).len() == old(self).buffer_capacity() implies (
                #[trigger] self.staged_image(img)).subrange(p as int, p + data@.len()) == data@ by {
                let c = apply_commands(img, mid.commands@);
                lemma_apply_ops_len(c, mid.arena@, mid.write_operations@);
                assert(mid.staged_image(img).len() == mid.capacity) by {
                    if fits {
                        assert(mid.staged_image(img) == old(self).staged_image(img));
                    } else {
                        assert(mid.write_operations@.len() == 0);
                        assert(mid.commands@.last() matches GpuCommand::Reallocate { capacity, copies } && capacity == grown_capacity);
                        assert(mid.commands@.drop_last().push(mid.commands@.last()) =~= mid.commands@);
                    }
                }
                lemma_apply_ops_arena_extend(c, mid.arena@, data@, mid.write_operations@);
                let op = self.write_operations@.last();
                assert(self.write_operations@.drop_last() =~= mid.write_operations@);
                lemma_op_writes_data(mid.staged_image(img), mid.arena@, data@, op);
            }
            let moved = moved_entries(old(self).entries(), fits);
            assert(mid.data@ == moved);
            let e = AllocEntry { id, position: p, length: data@.len() as usize };
            assert(self.entries() == moved.insert(k, e));
            assert(fits == some_gap_fits(old(self).gap_list(), data@.len() as int));
            assert(0 <= k <= old(self).entries().len());
            assert(self.data@[k].id == id);
            let i = index_of_id(self.data@, id);
            assert(i == k);
            assert(self.data@[k].position == p);
            if !fits {
                assert(mid.gaps@ == packed_gaps(d0, grown_capacity));
                assert(gap_index == 0);
            }
            assert(self.write_operations@.drop_last() =~= mid.write_operations@);
            Self::lemma_place_keeps_others(*self, mid, data@, k);
            assert forall|img: Seq<u8>, j: int|
                0 <= j < d0.len() && old(self).staged_image(img).len() == old(self).buffer_capacity() implies entry_bytes(
                #[trigger] self.staged_image(img),
                #[trigger] moved[j],
            ) == entry_bytes(old(self).staged_image(img), d0[j]) by {
                let c = apply_commands(img, mid.commands@);
                lemma_apply_ops_len(c, mid.arena@, mid.write_operations@);
                assert(mid.staged_image(img).len() == mid.capacity) by {
                    if fits {
                        assert(mid.staged_image(img) == old(self).staged_image(img));
                    } else {
                        assert(mid.write_operations@.len() == 0);
                        assert(mid.commands@.last() matches GpuCommand::Reallocate { capacity, copies } && capacity == grown_capacity);
                        assert(mid.commands@.drop_last().push(mid.commands@.last()) =~= mid.commands@);
                    }
                }
                assert(mid.data@[j] == moved[j]);
                assert(entry_bytes(mid.staged_image(img), moved_entries(d0, fits)[j]) == entry_bytes(old(self).staged_image(img), d0[j]));
            }
        }
        Ok(id)
    }

    /// Closes an update that kept the entry in place.
    proof fn lemma_in_place_done(fin: Self, old0: Self, mid: Self, index: int, data: Seq<u8>)
        requires
            old0.wf(),
            0 <= index < old0.data@.len(),
            mid.data@ == old0.data@.update(
                index,
                AllocEntry {
                    id: old0.data@[index].id,
                    position: old0.data@[index].position,
                    length: data.len() as usize,
                },
            ),
            data.len() <= usize::MAX,
            layout_ok(mid.data@, mid.gaps@, mid.capacity as int),
            entries_sorted(mid.data@),
            ids_distinct(mid.data@),
            layout_tiled(old0.data@, old0.gaps@, old0.capacity as int) ==> layout_tiled(
                mid.data@,
                mid.gaps@,
                mid.capacity as int,
            ),
            mid.id_pool == old0.id_pool,
            mid.write_operations == old0.write_operations,
            mid.arena == old0.arena,
            mid.capacity == old0.capacity,
            mid.commands == old0.commands,
            fin.data == mid.data,
            fin.gaps == mid.gaps,
            fin.id_pool == mid.id_pool,
            fin.capacity == mid.capacity,
            fin.commands == mid.commands,
            mid.arena@.len() <= usize::MAX,
            fin.arena@ == mid.arena@ + data,
            fin.write_operations@ == mid.write_operations@.push(
                WriteOperation {
                    id: old0.data@[index].id,
                    len: data.len() as usize,
                    buffer_offset: old0.data@[index].position,
                    arena_offset: mid.arena@.len() as usize,
                },
            ),
        ensures
            fin.wf(),
            old0.tiled() ==> fin.tiled(),
            ({
                let id = old0.data@[index].id;
                let e = fin.entries()[index_of_id(fin.entries(), id)];
                &&& has_id(fin.entries(), id)
                &&& e.length == data.len()
                &&& e.position == old0.data@[index].position
                &&& forall|img: Seq<u8>|
                    old0.staged_image(img).len() == old0.buffer_capacity() ==> (
                    #[trigger] fin.staged_image(img)).subrange(
                        e.position as int,
                        e.position + e.length,
                    ) == data
            }),
            forall|j: int|
                0 <= j < old0.entries().len() && #[trigger] old0.entries()[j].id != old0.data@[index].id ==> {
                    let x = old0.entries()[j];
                    &&& has_id(fin.entries(), x.id)
                    &&& fin.entries()[index_of_id(fin.entries(), x.id)].length == x.length
                },
            forall|j: int|
                0 <= j < fin.entries().len() ==> #[trigger] fin.entries()[j].id == old0.data@[index].id
                    || has_id(old0.entries(), fin.entries()[j].id),
            old0.gpu_commands().is_prefix_of(fin.gpu_commands()),
            forall|img: Seq<u8>, j: int|
                0 <= j < old0.entries().len() && old0.entries()[j].id != old0.data@[index].id
                    && old0.staged_image(img).len() == old0.buffer_capacity() ==> entry_bytes(
                    #[trigger] fin.staged_image(img),
                    fin.entries()[index_of_id(fin.entries(), old0.entries()[j].id)],
                ) == entry_bytes(old0.staged_image(img), #[trigger] old0.entries()[j]),
    {
        let d = fin.data@;
        let d0 = old0.data@;
        let id = d0[index].id;
        let cap = fin.capacity as int;
        assert(d[index].id == id);
        let ops = fin.write_operations@;
        assert forall|x: int| 0 <= x < ops.len() implies #[trigger] ops[x].arena_offset + ops[x].len
            <= fin.arena@.len() by {
            if x < ops.len() - 1 {
                assert(ops[x] == old0.write_operations@[x]);
            }
        }
        assert(d[index].position + d[index].length <= cap);
        assert forall|x: int| 0 <= x < ops.len() implies #[trigger] ops[x].buffer_offset + ops[x].len
            <= cap by {
            if x < ops.len() - 1 {
                assert(ops[x] == old0.write_operations@[x]);
            }
        }
        assert forall|x: int| 0 <= x < d.len() implies #[trigger] d[x].id < fin.id_pool.next_id()
            && !fin.id_pool.free_ids().contains(d[x].id) by {
            assert(d[x].id == d0[x].id);
        }
        let i = index_of_id(d, id);
        assert(i == index);
        assert forall|img: Seq<u8>|
            old0.staged_image(img).len() == old0.buffer_capacity() implies (
            #[trigger] fin.staged_image(img)).subrange(
                d[index].position as int,
                d[index].position + d[index].length,
            ) == data by {
            let c = apply_commands(img, mid.commands@);
            lemma_apply_ops_len(c, mid.arena@, mid.write_operations@);
            lemma_apply_ops_arena_extend(c, mid.arena@, data, mid.write_operations@);
            let op = ops.last();
            assert(ops.drop_last() =~= mid.write_operations@);
            lemma_op_writes_data(mid.staged_image(img), mid.arena@, data, op);
        }
        assert forall|j: int|
            0 <= j < d0.len() && #[trigger] d0[j].id != id implies has_id(d, d0[j].id)
                && d[index_of_id(d, d0[j].id)].length == d0[j].length by {
            assert(d[j] == d0[j]);
            let i2 = index_of_id(d, d0[j].id);
            assert(d[i2].id == d0[j].id);
            assert(i2 == j);
        }
        assert forall|j: int| 0 <= j < d.len() implies #[trigger] d[j].id == id || has_id(d0, d[j].id) by {
            assert(d[j].id == d0[j].id);
        }
        let o = ops.last();
        assert(ops == old0.write_operations@.push(o));
        assert forall|j: int| 0 <= j < d0.len() && j != index implies !op_touches(o, #[trigger] d0[j]) by {
            assert(d[j] == d0[j]);
            assert(regions_disjoint(d[index].position, d[index].length, d[j].position, d[j].length));
        }
        lemma_settled_rewrite(d0, old0.write_operations@, index, d[index], o);
        assert forall|img: Seq<u8>, j: int|
            0 <= j < d0.len() && d0[j].id != id && old0.staged_image(img).len()
                == old0.buffer_capacity() implies entry_bytes(
            #[trigger] fin.staged_image(img),
            #[trigger] d0[j],
        ) == entry_bytes(old0.staged_image(img), d0[j]) by {
            let c = apply_commands(img, mid.commands@);
            lemma_apply_ops_len(c, mid.arena@, mid.write_operations@);
            lemma_apply_ops_arena_extend(c, mid.arena@, data, mid.write_operations@);
            assert(ops.drop_last() =~= mid.write_operations@);
            assert(j != index);
            assert(d0[j].position + d0[j].length <= old0.capacity);
            lemma_untouched_bytes(old0.staged_image(img), fin.arena@, o, d0[j]);
            assert(d[j] == d0[j]);
            lemma_index_of_id(d, j);
        }
    }

    /// The allocator is consistent again once an entry has been dropped to
    /// be put elsewhere.
    proof fn lemma_moved_out(s: Self, old0: Self, index: int)
        requires
            old0.wf(),
            0 <= index < old0.data@.len(),
            s.data@ == old0.data@.remove(index),
            layout_ok(s.data@, s.gaps@, s.capacity as int),
            entries_sorted(s.data@),
            ids_distinct(s.data@),
            s.id_pool == old0.id_pool,
            s.capacity == old0.capacity,
            s.arena == old0.arena,
            ops_within_arena(s.write_operations@, s.arena@.len() as int),
            ops_within_buffer(s.write_operations@, s.capacity as int),
            s.write_operations@ == old0.write_operations@.filter(not_for_entry(old0.data@[index].id)),
        ensures
            s.wf(),
            !has_id(s.data@, old0.data@[index].id),
            old0.data@[index].id < s.id_pool.next_id(),
            !s.id_pool.free_ids().contains(old0.data@[index].id),
    {
        let d = s.data@;
        let d0 = old0.data@;
        assert forall|x: int| 0 <= x < d.len() implies #[trigger] d[x].id < s.id_pool.next_id()
            && !s.id_pool.free_ids().contains(d[x].id) by {
            assert(d[x] == d0[if x < index { x } else { x + 1 }]);
        }
        if has_id(d, d0[index].id) {
            let x = choose|x: int| 0 <= x < d.len() && #[trigger] d[x].id == d0[index].id;
            assert(d[x] == d0[if x < index { x } else { x + 1 }]);
        }
        assert forall|j: int| 0 <= j < d0.len() && j != index implies #[trigger] d0[j].id != d0[index].id by {
        }
        lemma_settled_remove(d0, old0.write_operations@, index);
    }

    /// Closes an update that put the entry elsewhere, in the same buffer or,
    /// when `grew`, in a new one.
    proof fn lemma_moved_in(fin: Self, old0: Self, mid: Self, index: int, data: Seq<u8>, grew: bool)
        requires
            old0.wf(),
            mid.wf(),
            0 <= index < old0.data@.len(),
            mid.data@ == if grew {
                packed_entries(old0.data@.remove(index))
            } else {
                old0.data@.remove(index)
            },
            grew ==> mid.write_operations@.len() == 0,
            grew ==> mid.commands@.len() > 0 && (mid.commands@.last() matches GpuCommand::Reallocate {
                capacity,
                copies,
            } && capacity == mid.capacity),
            !grew ==> mid.capacity == old0.capacity && old0.commands@.is_prefix_of(mid.commands@)
                && mid.commands@ == old0.commands@,
            grew ==> old0.commands@.is_prefix_of(mid.commands@),
            old0.tiled() ==> mid.tiled(),
            fin.wf(),
            mid.tiled() ==> fin.tiled(),
            !has_id(mid.data@, old0.data@[index].id),
            exists|k: int|
                0 <= k <= mid.data@.len() && fin.data@ == #[trigger] mid.data@.insert(
                    k,
                    AllocEntry {
                        id: old0.data@[index].id,
                        position: fin.data@[k].position,
                        length: data.len() as usize,
                    },
                ),
            fin.commands == mid.commands,
            fin.capacity == mid.capacity,
            mid.arena@.len() <= usize::MAX,
            fin.arena@ == mid.arena@ + data,
            ops_within_arena(mid.write_operations@, mid.arena@.len() as int),
            fin.write_operations@.len() == mid.write_operations@.len() + 1,
            fin.write_operations@.drop_last() == mid.write_operations@,
            ({
                let op = fin.write_operations@.last();
                &&& op.arena_offset == mid.arena@.len()
                &&& op.len == data.len()
                &&& exists|k: int|
                    0 <= k < fin.data@.len() && fin.data@[k].id == old0.data@[index].id
                        && op.buffer_offset == #[trigger] fin.data@[k].position
            }),
        ensures
            old0.tiled() ==> fin.tiled(),
            ({
                let id = old0.data@[index].id;
                let e = fin.entries()[index_of_id(fin.entries(), id)];
                &&& has_id(fin.entries(), id)
                &&& e.length == data.len()
                &&& forall|img: Seq<u8>|
                    old0.staged_image(img).len() == old0.buffer_capacity() ==> (
                    #[trigger] fin.staged_image(img)).subrange(
                        e.position as int,
                        e.position + e.length,
                    ) == data
            }),
            forall|j: int|
                0 <= j < old0.entries().len() && #[trigger] old0.entries()[j].id != old0.data@[index].id ==> {
                    let x = old0.entries()[j];
                    &&& has_id(fin.entries(), x.id)
                    &&& fin.entries()[index_of_id(fin.entries(), x.id)].length == x.length
                },
            forall|j: int|
                0 <= j < fin.entries().len() ==> #[trigger] fin.entries()[j].id == old0.data@[index].id
                    || has_id(old0.entries(), fin.entries()[j].id),
            old0.gpu_commands().is_prefix_of(fin.gpu_commands()),
    {
        let d0 = old0.data@;
        let id = d0[index].id;
        let d = fin.data@;
        let m = mid.data@;
        let r = d0.remove(index);
        let k = choose|k: int|
            0 <= k <= m.len() && d == #[trigger] m.insert(
                k,
                AllocEntry { id, position: d[k].position, length: data.len() as usize },
            );
        assert(d[k].id == id);
        let i = index_of_id(d, id);
        assert(d[i].id == id);
        assert(i == k);
        // every other entry keeps its id and length, only its place may change
        assert forall|x: int| 0 <= x < m.len() implies #[trigger] m[x].id == r[x].id && m[x].length
            == r[x].length by {
            if grew {
                assert(m[x] == packed_entry(r, x));
            }
        }
        assert forall|j: int|
            0 <= j < d0.len() && #[trigger] d0[j].id != id implies has_id(d, d0[j].id)
                && d[index_of_id(d, d0[j].id)].length == d0[j].length by {
            let rj = if j < index { j } else { j - 1 };
            assert(j != index);
            assert(r[rj] == d0[j]);
            let dj = if rj < k { rj } else { rj + 1 };
            assert(d[dj] == m[rj]);
            assert(d[dj].id == d0[j].id);
            let i2 = index_of_id(d, d0[j].id);
            assert(d[i2].id == d0[j].id);
        }
        assert forall|j: int| 0 <= j < d.len() implies #[trigger] d[j].id == id || has_id(d0, d[j].id) by {
            if j != k {
                let mj = if j < k { j } else { j - 1 };
                assert(d[j] == m[mj]);
                let rj = mj;
                let oj = if rj < index { rj } else { rj + 1 };
                assert(r[rj] == d0[oj]);
                assert(d0[oj].id == d[j].id);
            }
        }
        // the data lands at the new place
        let op = fin.write_operations@.last();
        let kk = choose|kk: int|
            0 <= kk < d.len() && d[kk].id == id && op.buffer_offset == #[trigger] d[kk].position;
        assert(d[kk].id == d[k].id);
        assert(kk == k);
        assert(d[k].position + d[k].length <= fin.capacity);
        assert forall|img: Seq<u8>|
            old0.staged_image(img).len() == old0.buffer_capacity() implies (
            #[trigger] fin.staged_image(img)).subrange(
                d[k].position as int,
                d[k].position + d[k].length,
            ) == data by {
            let c = apply_commands(img, mid.commands@);
            lemma_apply_ops_len(c, mid.arena@, mid.write_operations@);
            lemma_apply_ops_len(apply_commands(img, old0.commands@), old0.arena@, old0.write_operations@);
            if grew {
                assert(mid.commands@.drop_last().push(mid.commands@.last()) =~= mid.commands@);
            }
            assert(mid.staged_image(img).len() == mid.capacity);
            lemma_apply_ops_arena_extend(c, mid.arena@, data, mid.write_operations@);
            lemma_op_writes_data(mid.staged_image(img), mid.arena@, data, op);
        }
    }

    /// Restates where `insert_data_at_gap` put entry `id`.
    proof fn lemma_placed(fin: Self, mid: Self, id: EntryId, gap_index: int, data: Seq<u8>)
        requires
            0 <= gap_index < mid.gaps@.len(),
            data.len() <= usize::MAX,
            exists|k: int|
                0 <= k <= mid.data@.len() && fin.data@ == #[trigger] mid.data@.insert(
                    k,
                    AllocEntry {
                        id,
                        position: mid.gaps@[gap_index].position,
                        length: data.len() as usize,
                    },
                ),
            fin.write_operations@.len() > 0,
            fin.write_operations@.last().buffer_offset == mid.gaps@[gap_index].position,
        ensures
            exists|k: int|
                0 <= k <= mid.data@.len() && fin.data@ == #[trigger] mid.data@.insert(
                    k,
                    AllocEntry { id, position: fin.data@[k].position, length: data.len() as usize },
                ),
            exists|k: int|
                0 <= k < fin.data@.len() && fin.data@[k].id == id
                    && fin.write_operations@.last().buffer_offset == #[trigger] fin.data@[k].position,
    {
        let p = mid.gaps@[gap_index].position;
        let k = choose|k: int|
            0 <= k <= mid.data@.len() && fin.data@ == #[trigger] mid.data@.insert(
                k,
                AllocEntry { id, position: p, length: data.len() as usize },
            );
        assert(fin.data@[k].position == p);
        assert(fin.data@ == mid.data@.insert(
            k,
            AllocEntry { id, position: fin.data@[k].position, length: data.len() as usize },
        ));
        assert(fin.data@[k].id == id);
    }

    /// An update that moved its entry, with or without a move to a new
    /// buffer, left the bytes of every other entry as they were.
    proof fn lemma_moved_keeps_others(
        fin: Self,
        old0: Self,
        s1: Self,
        mid: Self,
        index: int,
        data: Seq<u8>,
        k: int,
        grew: bool,
    )
        requires
            old0.wf(),
            mid.wf(),
            fin.wf(),
            0 <= index < old0.data@.len(),
            s1.data@ == old0.data@.remove(index),
            s1.write_operations@ == old0.write_operations@.filter(not_for_entry(old0.data@[index].id)),
            s1.commands == old0.commands,
            s1.arena == old0.arena,
            s1.capacity == old0.capacity,
            !grew ==> mid == s1,
            grew ==> mid.data@ == packed_entries(s1.data@),
            grew ==> mid.write_operations@.len() == 0,
            grew ==> mid.commands@.len() > 0 && (mid.commands@.last() matches GpuCommand::Reallocate {
                capacity,
                copies,
            } && capacity == mid.capacity),
            grew ==> forall|img: Seq<u8>, x: int|
                #![trigger mid.staged_image(img), mid.data@[x]]
                0 <= x < s1.data@.len() && s1.staged_image(img).len() == s1.capacity ==> mid.staged_image(
                    img,
                ).subrange(mid.data@[x].position as int, mid.data@[x].position + mid.data@[x].length)
                    == s1.staged_image(img).subrange(
                    s1.data@[x].position as int,
                    s1.data@[x].position + s1.data@[x].length,
                ),
            fin.commands == mid.commands,
            fin.capacity == mid.capacity,
            fin.arena@ == mid.arena@ + data,
            fin.write_operations@.len() > 0,
            fin.write_operations@.drop_last() == mid.write_operations@,
            0 <= k <= mid.data@.len(),
            fin.data@ == mid.data@.insert(k, fin.data@[k]),
            fin.write_operations@.last().buffer_offset == fin.data@[k].position,
            fin.write_operations@.last().len == fin.data@[k].length,
        ensures
            forall|img: Seq<u8>, j: int|
                0 <= j < old0.entries().len() && old0.entries()[j].id != old0.data@[index].id
                    && old0.staged_image(img).len() == old0.buffer_capacity() ==> entry_bytes(
                    #[trigger] fin.staged_image(img),
                    fin.entries()[index_of_id(fin.entries(), old0.entries()[j].id)],
                ) == entry_bytes(old0.staged_image(img), #[trigger] old0.entries()[j]),
    {
        let d0 = old0.data@;
        let id = d0[index].id;
        Self::lemma_place_keeps_others(fin, mid, data, k);
        assert forall|img: Seq<u8>, j: int|
            0 <= j < d0.len() && d0[j].id != id && old0.staged_image(img).len()
                == old0.buffer_capacity() implies entry_bytes(
            #[trigger] fin.staged_image(img),
            fin.entries()[index_of_id(fin.entries(), d0[j].id)],
        ) == entry_bytes(old0.staged_image(img), #[trigger] d0[j]) by {
            let x = d0[j];
            let jj = if j < index { j } else { j - 1 };
            assert(s1.data@[jj] == x);
            let c = apply_commands(img, old0.commands@);
            lemma_apply_ops_len(c, old0.arena@, old0.write_operations@);
            lemma_apply_ops_len(c, old0.arena@, s1.write_operations@);
            assert(x.position + x.length <= old0.capacity);
            lemma_filter_keeps_entry(c, old0.arena@, old0.write_operations@, x, id);
            assert(entry_bytes(s1.staged_image(img), x) == entry_bytes(old0.staged_image(img), x));
            let m = mid.staged_image(img);
            let cm = apply_commands(img, mid.commands@);
            lemma_apply_ops_len(cm, mid.arena@, mid.write_operations@);
            assert(m.len() == mid.capacity) by {
                if grew {
                    assert(mid.commands@.drop_last().push(mid.commands@.last()) =~= mid.commands@);
                }
            }
            assert(entry_bytes(fin.staged_image(img), mid.data@[jj]) == entry_bytes(m, mid.data@[jj]));
            if grew {
                assert(entry_bytes(m, mid.data@[jj]) == entry_bytes(s1.staged_image(img), s1.data@[jj]));
            }
            let jx = if jj < k { jj } else { jj + 1 };
            assert(fin.data@[jx] == mid.data@[jj]);
            assert(mid.data@[jj].id == x.id);
            lemma_index_of_id(fin.data@, jx);
        }
    }

    /// Placing a new entry with its upload leaves the bytes of the entries
    /// already there as they were.
    proof fn lemma_place_keeps_others(fin: Self, mid: Self, data: Seq<u8>, k: int)
        requires
            mid.wf(),
            fin.wf(),
            fin.commands == mid.commands,
            fin.capacity == mid.capacity,
            fin.arena@ == mid.arena@ + data,
            fin.write_operations@.len() > 0,
            fin.write_operations@.drop_last() == mid.write_operations@,
            0 <= k <= mid.data@.len(),
            fin.data@ == mid.data@.insert(k, fin.data@[k]),
            fin.write_operations@.last().buffer_offset == fin.data@[k].position,
            fin.write_operations@.last().len == fin.data@[k].length,
        ensures
            forall|img: Seq<u8>, j: int|
                0 <= j < mid.data@.len() && mid.staged_image(img).len() == mid.capacity ==> entry_bytes(
                    #[trigger] fin.staged_image(img),
                    #[trigger] mid.data@[j],
                ) == entry_bytes(mid.staged_image(img), mid.data@[j]),
    {
        let o = fin.write_operations@.last();
        let d = fin.data@;
        assert forall|img: Seq<u8>, j: int|
            0 <= j < mid.data@.len() && mid.staged_image(img).len() == mid.capacity implies entry_bytes(
            #[trigger] fin.staged_image(img),
            #[trigger] mid.data@[j],
        ) == entry_bytes(mid.staged_image(img), mid.data@[j]) by {
            let jj = if j < k { j } else { j + 1 };
            assert(d[jj] == mid.data@[j]);
            assert(regions_disjoint(d[k].position, d[k].length, d[jj].position, d[jj].length));
            assert(!op_touches(o, mid.data@[j]));
            let c = apply_commands(img, mid.commands@);
            lemma_apply_ops_len(c, mid.arena@, mid.write_operations@);
            lemma_apply_ops_arena_extend(c, mid.arena@, data, mid.write_operations@);
            assert(fin.write_operations@ == mid.write_operations@.push(o));
            assert(fin.write_operations@.drop_last() == mid.write_operations@);
            assert(fin.staged_image(img) == apply_op(mid.staged_image(img), fin.arena@, o));
            assert(mid.data@[j].position + mid.data@[j].length <= mid.capacity);
            lemma_untouched_bytes(mid.staged_image(img), fin.arena@, o, mid.data@[j]);
        }
    }

    /// Replaces the data of entry `id` by `data`: in place when it fits there
    /// or in the gap right after, elsewhere otherwise, moving to a buffer of
    /// `grown_capacity` bytes as a last resort; when that buffer would be too
    /// small, the entry is left out and the update fails.
    #[verifier::spinoff_prover]
    #[verifier::rlimit(100)]
    pub fn update(&mut self, id: EntryId, data: &[u8], grown_capacity: u32) -> (r: Result<(), AllocError>)
        requires
            old(self).wf(),
        ensures
            final(self).wf(),
            old(self).tiled() ==> final(self).tiled(),
            !has_id(old(self).entries(), id) ==> r == Err::<(), AllocError>(AllocError::InvalidId)
                && final(self).entries() == old(self).entries() && final(self).gap_list() == old(
                self,
            ).gap_list(),
            has_id(old(self).entries(), id) && grown_capacity >= total_len(old(self).entries())
                - old(self).entries()[index_of_id(old(self).entries(), id)].length + data@.len()
                ==> r is Ok,
            r is Err ==> r == Err::<(), AllocError>(AllocError::InvalidId) || r == Err::<(), AllocError>(
                AllocError::NotEnoughSpace,
            ),
            r == Err::<(), AllocError>(AllocError::NotEnoughSpace) ==> {
                let i = index_of_id(old(self).entries(), id);
                &&& has_id(old(self).entries(), id)
                &&& grown_capacity < total_len(old(self).entries()) - old(self).entries()[i].length
                    + data@.len()
                &&& final(self).entries() == old(self).entries().remove(i)
            },
            has_id(old(self).entries(), id) && gaps_tidy(old(self).gap_list()) && old(self).entries()[index_of_id(
                old(self).entries(),
                id,
            )].length > 0 ==> ({
                let g0 = old(self).gap_list();
                let e0 = old(self).entries()[index_of_id(old(self).entries(), id)];
                let n = data@.len();
                (r == Err::<(), AllocError>(AllocError::NotEnoughSpace)) <==> (n > e0.length
                    && !grows_in_place(g0, e0, n as int) && !some_gap_fits(vacated(g0, e0), n as int)
                    && grown_capacity < total_len(old(self).entries()) - e0.length + n)
            }),
            r is Ok ==> {
                let e = final(self).entries()[index_of_id(final(self).entries(), id)];
                &&& has_id(final(self).entries(), id)
                &&& e.length == data@.len()
                &&& forall|img: Seq<u8>|
                    old(self).staged_image(img).len() == old(self).buffer_capacity() ==> (
                    #[trigger] final(self).staged_image(img)).subrange(
                        e.position as int,
                        e.position + e.length,
                    ) == data@
            },
            forall|j: int|
                0 <= j < old(self).entries().len() && #[trigger] old(self).entries()[j].id != id ==> {
                    let x = old(self).entries()[j];
                    &&& has_id(final(self).entries(), x.id)
                    &&& final(self).entries()[index_of_id(final(self).entries(), x.id)].length
                        == x.length
                },
            forall|j: int|
                0 <= j < final(self).entries().len() ==> #[trigger] final(self).entries()[j].id == id
                    || has_id(old(self).entries(), final(self).entries()[j].id),
            old(self).gpu_commands().is_prefix_of(final(self).gpu_commands()),
            r is Ok ==> forall|img: Seq<u8>, j: int|
                0 <= j < old(self).entries().len() && old(self).entries()[j].id != id && old(
                    self,
                ).staged_image(img).len() == old(self).buffer_capacity() ==> entry_bytes(
                    #[trigger] final(self).staged_image(img),
                    final(self).entries()[index_of_id(final(self).entries(), old(self).entries()[j].id)],
                ) == entry_bytes(old(self).staged_image(img), #[trigger] old(self).entries()[j]),
            r is Ok ==> ({
                let g0 = old(self).gap_list();
                let e0 = old(self).entries()[index_of_id(old(self).entries(), id)];
                let e = final(self).entries()[index_of_id(final(self).entries(), id)];
                let n = data@.len();
                &&& n <= e0.length ==> e.position == e0.position
                &&& n == e0.length ==> final(self).gap_list() == g0
                &&& n < e0.length && gaps_tidy(g0) ==> final(self).gap_list() == released(
                    g0,
                    (e0.position + n) as usize,
                    (e0.length - n) as usize,
                )
                &&& n > e0.length && gaps_tidy(g0) && grows_in_place(g0, e0, n as int) ==> e.position
                    == e0.position && final(self).gap_list() == gaps_after_consume(
                    g0,
                    gap_at(g0, e0.position + e0.length),
                    (n - e0.length) as usize,
                )
                &&& gaps_tidy(g0) && e0.length > 0 ==> gaps_tidy(final(self).gap_list())
                &&& n > e0.length && gaps_tidy(g0) && e0.length > 0 && !grows_in_place(g0, e0, n as int)
                    && some_gap_fits(vacated(g0, e0), n as int) ==> {
                    let v = vacated(g0, e0);
                    &&& final(self).buffer_capacity() == old(self).buffer_capacity()
                    &&& e.position == v[first_fit(v, n as int)].position
                    &&& final(self).gap_list() == gaps_after_consume(v, first_fit(v, n as int), n as usize)
                }
                &&& n > e0.length && gaps_tidy(g0) && e0.length > 0 && !grows_in_place(g0, e0, n as int)
                    && !some_gap_fits(vacated(g0, e0), n as int) ==> {
                    &&& final(self).buffer_capacity() == grown_capacity
                    &&& e.position == total_len(
                        old(self).entries().remove(index_of_id(old(self).entries(), id)),
                    )
                }
            }),
    {
        let index = match self.get_entry_index(id) {
            Ok(i) => i,
            Err(e) => {
                return Err(e);
            },
        };
        let position = self.data[index].position;
        let old_len = self.data[index].length;
        let new_len = data.len();
        let ghost d0 = self.data@;
        let ghost g0 = self.gaps@;
        let ghost cap = self.capacity as int;
        let ghost e0 = d0[index as int];
        proof {
            self.lemma_gaps_wf();
            assert(e0.position + e0.length <= cap);
            assert(index_of_id(d0, id) == index as int) by {
                let i = index_of_id(d0, id);
                assert(d0[i].id == id);
            }
        }
        // The new data is not longer: it stays in place and the tail is freed.
        if new_len <= old_len {
            if new_len < old_len {
                proof {
                    assert forall|i: int| 0 <= i < g0.len() implies regions_disjoint(
                        #[trigger] g0[i].position,
                        g0[i].length,
                        (position + new_len) as usize,
                        (old_len - new_len) as usize,
                    ) by {
                        assert(regions_disjoint(e0.position, e0.length, g0[i].position, g0[i].length));
                        lemma_sub_region_disjoint(
                            e0.position,
                            e0.length,
                            g0[i].position,
                            g0[i].length,
                            (position + new_len) as usize,
                            (old_len - new_len) as usize,
                        );
                    }
                }
                self.gaps.release_after(position + new_len, old_len - new_len);
            }
            let mut entry = self.data[index];
            entry.length = new_len;
            self.data.set(index, entry);
            let ghost mid = *self;
            self.write_at(position, data, id);
            proof {
                lemma_resize_in_place(d0, g0, self.gaps@, cap, index as int, entry);
                Self::lemma_in_place_done(*self, *old(self), mid, index as int, data@);
            }
            return Ok(());
        }
        // The data grows: use the gap right after it when there is one.
        let gap_index = self.gaps.get_gap_index_at(position + old_len);
        match gap_index {
            Ok(gap_index) => {
                let mut gap = self.gaps.gaps[gap_index];
                proof {
                    assert(g0[gap_index as int].spec_end() <= cap);
                }
                let available_space = old_len + gap.length;
                if new_len <= available_space {
                    let delta_len = new_len - old_len;
                    self.gaps.consume_gap(gap_index, delta_len);
                    let mut entry = self.data[index];
                    entry.length = new_len;
                    self.data.set(index, entry);
                    let ghost mid = *self;
                    self.write_at(position, data, id);
                    proof {
                        assert forall|b: int|
                            gaps_hold(self.gaps@, b) <==> (gaps_hold(g0, b) || (e0.holds(b)
                                && !entry.holds(b))) && !(entry.holds(b) && !e0.holds(b)) by {
                            lemma_consume_bytes(g0, gap_index as int, delta_len, b);
                        }
                        assert forall|b: int| entry.holds(b) && !e0.holds(b) implies gaps_hold(g0, b) by {
                            assert(g0[gap_index as int].holds(b));
                        }
                        assert(gaps_within(self.gaps@, cap)) by {
                            assert forall|y: int| 0 <= y < self.gaps@.len() implies #[trigger] self.gaps@[y].spec_end()
                                <= cap by {
                                let a = source_index(g0[gap_index as int].length == delta_len, gap_index as int, y);
                                assert(g0[a].spec_end() <= cap);
                            }
                        }
                        assert(gaps_disjoint(self.gaps@)) by {
                            assert forall|y1: int, y2: int|
                                0 <= y1 < self.gaps@.len() && 0 <= y2 < self.gaps@.len() && y1 != y2 implies regions_disjoint(
                                #[trigger] self.gaps@[y1].position,
                                self.gaps@[y1].length,
                                #[trigger] self.gaps@[y2].position,
                                self.gaps@[y2].length,
                            ) by {
                                let rm = g0[gap_index as int].length == delta_len;
                                let a = source_index(rm, gap_index as int, y1);
                                let c = source_index(rm, gap_index as int, y2);
                                assert(regions_disjoint(g0[a].position, g0[a].length, g0[c].position, g0[c].length));
                                lemma_sub_region_disjoint(
                                    g0[a].position,
                                    g0[a].length,
                                    g0[c].position,
                                    g0[c].length,
                                    self.gaps@[y1].position,
                                    self.gaps@[y1].length,
                                );
                                lemma_sub_region_disjoint(
                                    g0[c].position,
                                    g0[c].length,
                                    self.gaps@[y1].position,
                                    self.gaps@[y1].length,
                                    self.gaps@[y2].position,
                                    self.gaps@[y2].length,
                                );
                            }
                        }
                        lemma_resize_in_place(d0, g0, self.gaps@, cap, index as int, entry);
                        Self::lemma_in_place_done(*self, *old(self), mid, index as int, data@);
                    }
                    return Ok(());
                }
                // Not enough room: the gap swallows the entry's bytes.
                gap.extend_left(old_len);
                self.gaps.gaps.set(gap_index, gap);
                proof {
                    if gaps_tidy(g0) && e0.length > 0 {
                        lemma_gap_at(g0, gap_index as int);
                        assert(self.gaps@ == vacated(g0, e0));
                    }
                }
                proof {
                    let g1 = self.gaps@;
                    assert(g1 == g0.update(gap_index as int, gap));
                    assert forall|b: int| gaps_hold(g1, b) <==> gaps_hold(g0, b) || e0.holds(b) by {
                        if gaps_hold(g1, b) {
                            let y = choose|y: int| 0 <= y < g1.len() && #[trigger] g1[y].holds(b);
                            if y != gap_index {
                                assert(g0[y].holds(b));
                            } else if !e0.holds(b) {
                                assert(g0[gap_index as int].holds(b));
                            }
                        }
                        if gaps_hold(g0, b) {
                            let y = choose|y: int| 0 <= y < g0.len() && #[trigger] g0[y].holds(b);
                            assert(g1[y].holds(b));
                        }
                        if e0.holds(b) {
                            assert(g1[gap_index as int].holds(b));
                        }
                    }
                    assert forall|y: int| 0 <= y < g1.len() implies #[trigger] g1[y].spec_end() <= cap by {
                        assert(g0[y].spec_end() <= cap);
                    }
                    assert forall|y1: int, y2: int|
                        0 <= y1 < g1.len() && 0 <= y2 < g1.len() && y1 != y2 implies regions_disjoint(
                        #[trigger] g1[y1].position,
                        g1[y1].length,
                        #[trigger] g1[y2].position,
                        g1[y2].length,
                    ) by {
                        if y1 != gap_index && y2 != gap_index {
                            assert(regions_disjoint(g0[y1].position, g0[y1].length, g0[y2].position, g0[y2].length));
                        } else {
                            let o = if y1 == gap_index { y2 } else { y1 };
                            assert(regions_disjoint(g0[o].position, g0[o].length, g0[gap_index as int].position, g0[gap_index as int].length));
                            assert(regions_disjoint(e0.position, e0.length, g0[o].position, g0[o].length));
                            assert forall|b: int| !(region_holds(g0[o].position, g0[o].length, b) && region_holds(
                                gap.position,
                                gap.length,
                                b,
                            )) by {
                                if region_holds(g0[o].position, g0[o].length, b) && region_holds(
                                    gap.position,
                                    gap.length,
                                    b,
                                ) {
                                    assert(g0[o].holds(b));
                                }
                            }
                            lemma_regions_disjoint_from_bytes(g0[o].position, g0[o].length, gap.position, gap.length);
                        }
                    }
                }
            },
            Err(_) => {
                // No gap right after: the entry's bytes become a gap of their own.
                let gap = Gap::new(position, old_len);
                proof {
                    if gaps_tidy(g0) && e0.length > 0 {
                        assert forall|y: int| 0 <= y < g0.len() implies #[trigger] g0[y].position != position by {
                            assert(regions_disjoint(e0.position, e0.length, g0[y].position, g0[y].length));
                        }
                    }
                }
                self.gaps.insert_gap_at(gap, position);
                proof {
                    if gaps_tidy(g0) && e0.length > 0 {
                        assert(!(exists|i: int| 0 <= i < g0.len() && #[trigger] g0[i].position == e0.position + e0.length));
                        assert(self.gaps@ == vacated(g0, e0));
                    }
                }
                proof {
                    let k = choose|k: int| 0 <= k <= g0.len() && self.gaps@ == g0.insert(k, gap);
                    lemma_insert_gap(g0, k, gap);
                    assert forall|b: int| gaps_hold(self.gaps@, b) <==> gaps_hold(g0, b) || e0.holds(b) by {
                        assert(gap.holds(b) == e0.holds(b));
                    }
                    assert forall|y: int| 0 <= y < g0.len() implies regions_disjoint(
                        #[trigger] g0[y].position,
                        g0[y].length,
                        gap.position,
                        gap.length,
                    ) by {
                        assert(regions_disjoint(e0.position, e0.length, g0[y].position, g0[y].length));
                    }
                    assert(gaps_within(self.gaps@, cap));
                }
            },
        }
        let ghost g1 = self.gaps@;
        self.delete_entry(index, id);
        proof {
            lemma_release_entry(d0, g0, g1, cap, index as int);
            Self::lemma_moved_out(*self, *old(self), index as int);
        }
        let ghost s1 = *self;
        // Somewhere else in the buffer.
        match self.gaps.find_place(new_len) {
            Some(gap_index) => {
                let ghost mid = *self;
                self.insert_data_at_gap(Some(id), data, gap_index);
                proof {
                    assert(self.write_operations@.drop_last() =~= mid.write_operations@);
                    Self::lemma_placed(*self, mid, id, gap_index as int, data@);
                    Self::lemma_moved_in(*self, *old(self), mid, index as int, data@, false);
                    let k = choose|k: int|
                        0 <= k <= mid.data@.len() && self.data@ == #[trigger] mid.data@.insert(
                            k,
                            AllocEntry {
                                id,
                                position: mid.gaps@[gap_index as int].position,
                                length: data@.len() as usize,
                            },
                        );
                    Self::lemma_moved_keeps_others(*self, *old(self), s1, mid, index as int, data@, k, false);
                    lemma_index_of_id(self.data@, k);
                    assert(self.data@[k].id == id);
                    lemma_first_fit(g1, new_len as int, gap_index as int);
                    assert(some_gap_fits(g1, new_len as int)) by {
                        assert(g1[gap_index as int].length >= new_len);
                    }
                }
                return Ok(());
            },
            None => {},
        }
        // Last resort: a bigger buffer.
        let ghost d2 = self.data@;
        let total = self.get_entries_length();
        if new_len > grown_capacity as usize || (grown_capacity as usize) - new_len < total {
            // The buffer cannot grow enough to hold the data.
            proof {
                lemma_total_len_remove(d0, index as int);
                assert(!some_gap_fits(g1, new_len as int)) by {
                    if some_gap_fits(g1, new_len as int) {
                        let w = choose|w: int| 0 <= w < g1.len() && #[trigger] g1[w].length >= new_len;
                        assert(g1[w].length < new_len);
                    }
                }
                assert forall|j: int|
                    0 <= j < d0.len() && #[trigger] d0[j].id != id implies has_id(d2, d0[j].id)
                        && d2[index_of_id(d2, d0[j].id)].length == d0[j].length by {
                    let jj = if j < index { j } else { j - 1 };
                    assert(d2[jj] == d0[j]);
                    lemma_index_of_id(d2, jj);
                }
            }
            return Err(AllocError::NotEnoughSpace);
        }
        proof {
            lemma_total_len_remove(d0, index as int);
            lemma_total_len_nonneg(d2);
            assert(!some_gap_fits(g1, new_len as int)) by {
                if some_gap_fits(g1, new_len as int) {
                    let w = choose|w: int| 0 <= w < g1.len() && #[trigger] g1[w].length >= new_len;
                    assert(g1[w].length < new_len);
                }
            }
        }
        self.reallocate_defragment(grown_capacity);
        let gap_index = match self.gaps.find_place(new_len) {
            Some(i) => i,
            None => {
                proof {
                    assert(self.gaps@ == packed_gaps(d2, grown_capacity));
                    assert(self.gaps@[0].length >= new_len);
                }
                return Err(AllocError::NotEnoughSpace);
            },
        };
        proof {
            assert(self.data@ =~= packed_entries(d2));
            if has_id(self.data@, id) {
                let x = choose|x: int| 0 <= x < self.data@.len() && #[trigger] self.data@[x].id == id;
                assert(self.data@[x] == packed_entry(d2, x));
                assert(d2[x].id == id);
            }
        }
        let ghost mid = *self;
        self.insert_data_at_gap(Some(id), data, gap_index);
        proof {
            assert(self.write_operations@.drop_last() =~= mid.write_operations@);
            assert(mid.data@ =~= packed_entries(d2));
            Self::lemma_placed(*self, mid, id, gap_index as int, data@);
            Self::lemma_moved_in(*self, *old(self), mid, index as int, data@, true);
            let k = choose|k: int|
                0 <= k <= mid.data@.len() && self.data@ == #[trigger] mid.data@.insert(
                    k,
                    AllocEntry {
                        id,
                        position: mid.gaps@[gap_index as int].position,
                        length: data@.len() as usize,
                    },
                );
            Self::lemma_moved_keeps_others(*self, *old(self), s1, mid, index as int, data@, k, true);
            lemma_index_of_id(self.data@, k);
            assert(self.data@[k].id == id);
            assert(mid.gaps@ == packed_gaps(d2, grown_capacity));
            assert(gap_index == 0);
            assert(d2 == d0.remove(index as int));
        }
        Ok(())
    }
}

} // verus!
