//! Which staged upload decides the bytes of an entry: the facts that let the
//! allocator drop the uploads of one entry without disturbing the others.
use vstd::prelude::*;
use crate::entry::{AllocEntry, EntryId, WriteOperation};

use crate::allocator::{apply_op, apply_ops, lemma_apply_ops_len, not_for_entry};

verus! {

/// The bytes of entry `e` in the buffer contents `img`.
pub open spec fn entry_bytes(img: Seq<u8>, e: AllocEntry) -> Seq<u8> {
    img.subrange(e.position as int, e.position + e.length)
}

/// Upload `op` writes some byte of entry `e`.
pub open spec fn op_touches(op: WriteOperation, e: AllocEntry) -> bool {
    &&& op.len > 0
    &&& e.length > 0
    &&& op.buffer_offset < e.position + e.length
    &&& e.position < op.buffer_offset + op.len
}

/// Upload `op` writes the whole of entry `e`, on its behalf.
pub open spec fn op_rewrites(op: WriteOperation, e: AllocEntry) -> bool {
    op.id == e.id && op.buffer_offset == e.position && op.len == e.length
}

/// Read from the last upload back: every upload that touches `e` on behalf
/// of another entry comes before one that rewrites `e` whole.
pub open spec fn uploads_settled_for(e: AllocEntry, ops: Seq<WriteOperation>) -> bool
    decreases ops.len(),
{
    if ops.len() == 0 {
        true
    } else if op_rewrites(ops.last(), e) {
        true
    } else {
        !(op_touches(ops.last(), e) && ops.last().id != e.id) && uploads_settled_for(
            e,
            ops.drop_last(),
        )
    }
}

/// Every entry of `d` is settled with respect to the uploads `ops`.
pub open spec fn uploads_settled(d: Seq<AllocEntry>, ops: Seq<WriteOperation>) -> bool {
    forall|i: int| 0 <= i < d.len() ==> uploads_settled_for(#[trigger] d[i], ops)
}

/// Dropping the uploads of another entry keeps an entry settled.
pub proof fn lemma_settled_filter(e: AllocEntry, ops: Seq<WriteOperation>, x: EntryId)
    requires
        uploads_settled_for(e, ops),
        e.id != x,
    ensures
        uploads_settled_for(e, ops.filter(not_for_entry(x))),
    decreases ops.len(),
{
    if ops.len() > 0 {
        let init = ops.drop_last();
        let o = ops.last();
        let f = ops.filter(not_for_entry(x));
        let fi = init.filter(not_for_entry(x));
        assert(not_for_entry(x)(o) == (o.id != x));
        assert(f == if not_for_entry(x)(o) { fi.push(o) } else { fi }) by {
            reveal(Seq::filter);
        }
        if o.id == x {
            assert(f == fi);
            lemma_settled_filter(e, init, x);
        } else {
            assert(f == fi.push(o));
            assert(f.drop_last() =~= fi);
            assert(f.last() == o);
            if !op_rewrites(o, e) {
                lemma_settled_filter(e, init, x);
            }
        }
    }
}

/// Dropping the uploads of another entry leaves the bytes of a settled entry
/// as they were.
pub proof fn lemma_filter_keeps_bytes(
    img: Seq<u8>,
    arena: Seq<u8>,
    ops: Seq<WriteOperation>,
    e: AllocEntry,
    x: EntryId,
    b: int,
)
    requires
        uploads_settled_for(e, ops),
        e.id != x,
        e.holds(b),
        0 <= b < img.len(),
    ensures
        apply_ops(img, arena, ops.filter(not_for_entry(x)))[b] == apply_ops(img, arena, ops)[b],
    decreases ops.len(),
{
    if ops.len() > 0 {
        let init = ops.drop_last();
        let o = ops.last();
        let f = ops.filter(not_for_entry(x));
        let fi = init.filter(not_for_entry(x));
        lemma_apply_ops_len(img, arena, init);
        lemma_apply_ops_len(img, arena, fi);
        assert(not_for_entry(x)(o) == (o.id != x));
        assert(f == if not_for_entry(x)(o) { fi.push(o) } else { fi }) by {
            reveal(Seq::filter);
        }
        if o.id == x {
            assert(f == fi);
            lemma_filter_keeps_bytes(img, arena, init, e, x, b);
        } else {
            assert(f == fi.push(o));
            assert(f.drop_last() =~= fi);
            assert(f.last() == o);
            if !op_rewrites(o, e) {
                lemma_filter_keeps_bytes(img, arena, init, e, x, b);
            }
        }
    }
}

/// Dropping the uploads of another entry leaves the bytes of a settled entry
/// as they were, all of them.
pub proof fn lemma_filter_keeps_entry(
    img: Seq<u8>,
    arena: Seq<u8>,
    ops: Seq<WriteOperation>,
    e: AllocEntry,
    x: EntryId,
)
    requires
        uploads_settled_for(e, ops),
        e.id != x,
        e.position + e.length <= img.len(),
    ensures
        entry_bytes(apply_ops(img, arena, ops.filter(not_for_entry(x))), e) == entry_bytes(
            apply_ops(img, arena, ops),
            e,
        ),
{
    let a = apply_ops(img, arena, ops.filter(not_for_entry(x)));
    let c = apply_ops(img, arena, ops);
    lemma_apply_ops_len(img, arena, ops);
    lemma_apply_ops_len(img, arena, ops.filter(not_for_entry(x)));
    assert forall|k: int| 0 <= k < e.length implies #[trigger] entry_bytes(a, e)[k] == entry_bytes(
        c,
        e,
    )[k] by {
        lemma_filter_keeps_bytes(img, arena, ops, e, x, e.position + k);
    }
    assert(entry_bytes(a, e) =~= entry_bytes(c, e));
}

/// An upload that does not touch an entry keeps it settled.
pub proof fn lemma_settled_push(e: AllocEntry, ops: Seq<WriteOperation>, o: WriteOperation)
    requires
        uploads_settled_for(e, ops) || op_rewrites(o, e),
        !op_touches(o, e) || o.id == e.id || op_rewrites(o, e),
    ensures
        uploads_settled_for(e, ops.push(o)),
{
    assert(ops.push(o).drop_last() =~= ops);
    assert(ops.push(o).last() == o);
}

/// Placing entry `e` at index `k`, with an upload that rewrites it whole and
/// touches no other entry, keeps every entry settled.
pub proof fn lemma_settled_place(
    d: Seq<AllocEntry>,
    ops: Seq<WriteOperation>,
    k: int,
    e: AllocEntry,
    o: WriteOperation,
)
    requires
        uploads_settled(d, ops),
        0 <= k <= d.len(),
        op_rewrites(o, e),
        forall|j: int| 0 <= j < d.len() ==> !op_touches(o, #[trigger] d[j]),
    ensures
        uploads_settled(d.insert(k, e), ops.push(o)),
{
    let n = d.insert(k, e);
    assert forall|i: int| 0 <= i < n.len() implies uploads_settled_for(#[trigger] n[i], ops.push(o)) by {
        if i == k {
            lemma_settled_push(e, ops, o);
        } else if i < k {
            assert(n[i] == d[i]);
            lemma_settled_push(d[i], ops, o);
        } else {
            assert(n[i] == d[i - 1]);
            lemma_settled_push(d[i - 1], ops, o);
        }
    }
}

/// Replacing entry `i` by `e`, with an upload that rewrites `e` whole and
/// touches no other entry, keeps every entry settled.
pub proof fn lemma_settled_rewrite(
    d: Seq<AllocEntry>,
    ops: Seq<WriteOperation>,
    i: int,
    e: AllocEntry,
    o: WriteOperation,
)
    requires
        uploads_settled(d, ops),
        0 <= i < d.len(),
        op_rewrites(o, e),
        forall|j: int| 0 <= j < d.len() && j != i ==> !op_touches(o, #[trigger] d[j]),
    ensures
        uploads_settled(d.update(i, e), ops.push(o)),
{
    let n = d.update(i, e);
    assert forall|j: int| 0 <= j < n.len() implies uploads_settled_for(#[trigger] n[j], ops.push(o)) by {
        if j == i {
            lemma_settled_push(e, ops, o);
        } else {
            assert(n[j] == d[j]);
            lemma_settled_push(d[j], ops, o);
        }
    }
}

/// Dropping entry `i` with the uploads staged for its id keeps the other
/// entries settled, when no other entry shares that id.
pub proof fn lemma_settled_remove(d: Seq<AllocEntry>, ops: Seq<WriteOperation>, i: int)
    requires
        uploads_settled(d, ops),
        0 <= i < d.len(),
        forall|j: int| 0 <= j < d.len() && j != i ==> #[trigger] d[j].id != d[i].id,
    ensures
        uploads_settled(d.remove(i), ops.filter(not_for_entry(d[i].id))),
{
    let n = d.remove(i);
    assert forall|j: int| 0 <= j < n.len() implies uploads_settled_for(
        #[trigger] n[j],
        ops.filter(not_for_entry(d[i].id)),
    ) by {
        let o = if j < i { j } else { j + 1 };
        assert(n[j] == d[o]);
        lemma_settled_filter(d[o], ops, d[i].id);
    }
}

/// An upload that does not touch an entry leaves its bytes as they were.
pub proof fn lemma_untouched_bytes(img: Seq<u8>, arena: Seq<u8>, o: WriteOperation, e: AllocEntry)
    requires
        !op_touches(o, e),
        e.position + e.length <= img.len(),
    ensures
        entry_bytes(apply_op(img, arena, o), e) == entry_bytes(img, e),
{
    assert(entry_bytes(apply_op(img, arena, o), e) =~= entry_bytes(img, e));
}

} // verus!
