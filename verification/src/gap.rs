//! Free regions ("gaps") of a GPU buffer and the list that tracks them.
use vstd::prelude::*;

verus! {

/// A free region `[position, position + length)` of a buffer.
#[derive(Clone, Copy, Debug, PartialEq, Eq, Structural)]
pub struct Gap {
    pub position: usize,
    pub length: usize,
}

/// One past the last byte of a region that starts at `position` and spans `length` bytes.
pub open spec fn region_end(position: usize, length: usize) -> int {
    position + length
}

/// Byte `b` lies in the region `[position, position + length)`.
pub open spec fn region_holds(position: usize, length: usize, b: int) -> bool {
    position <= b < position + length
}

/// Two regions share no byte.
pub open spec fn regions_disjoint(p1: usize, l1: usize, p2: usize, l2: usize) -> bool {
    l1 == 0 || l2 == 0 || p1 + l1 <= p2 || p2 + l2 <= p1
}

impl Gap {
    pub open spec fn spec_end(self) -> int {
        self.position + self.length
    }

    pub open spec fn holds(self, b: int) -> bool {
        region_holds(self.position, self.length, b)
    }

    pub fn new(position: usize, length: usize) -> (gap: Self)
        ensures
            gap.position == position,
            gap.length == length,
    {
        Self { position, length }
    }

    pub fn start(&self) -> (r: usize)
        ensures
            r == self.position,
    {
        self.position
    }

    pub fn end(&self) -> (r: usize)
        requires
            self.position + self.length <= usize::MAX,
        ensures
            r == self.position + self.length,
    {
        self.position + self.length
    }

    /// Gives up the first `offset` bytes of the gap.
    pub fn shrink_left(&mut self, offset: usize)
        requires
            old(self).position + offset <= usize::MAX,
            offset <= old(self).length,
        ensures
            final(self).position == old(self).position + offset,
            final(self).length == old(self).length - offset,
    {
        self.position = self.position + offset;
        self.length = self.length - offset;
    }

    /// Grows the gap by `offset` bytes towards the start of the buffer.
    pub fn extend_left(&mut self, offset: usize)
        requires
            offset <= old(self).position,
            old(self).length + offset <= usize::MAX,
        ensures
            final(self).position == old(self).position - offset,
            final(self).length == old(self).length + offset,
    {
        self.position = self.position - offset;
        self.length = self.length + offset;
    }

    /// Grows the gap by `offset` bytes towards the end of the buffer.
    pub fn extend_right(&mut self, offset: usize)
        requires
            old(self).length + offset <= usize::MAX,
        ensures
            final(self).position == old(self).position,
            final(self).length == old(self).length + offset,
    {
        self.length = self.length + offset;
    }
}

/// Some gap of `gaps` holds byte `b`.
pub open spec fn gaps_hold(gaps: Seq<Gap>, b: int) -> bool {
    exists|i: int| 0 <= i < gaps.len() && #[trigger] gaps[i].holds(b)
}

/// Every gap ends within the address space.
pub open spec fn gaps_bounded(gaps: Seq<Gap>) -> bool {
    forall|i: int| 0 <= i < gaps.len() ==> #[trigger] gaps[i].spec_end() <= usize::MAX
}

/// Every gap ends at or before `cap`.
pub open spec fn gaps_within(gaps: Seq<Gap>, cap: int) -> bool {
    forall|i: int| 0 <= i < gaps.len() ==> #[trigger] gaps[i].spec_end() <= cap
}

/// The gaps are ordered by their start.
pub open spec fn gaps_sorted(gaps: Seq<Gap>) -> bool {
    forall|i: int, j: int| 0 <= i <= j < gaps.len() ==> gaps[i].position <= gaps[j].position
}

/// No two gaps share a byte.
pub open spec fn gaps_disjoint(gaps: Seq<Gap>) -> bool {
    forall|i: int, j: int|
        0 <= i < gaps.len() && 0 <= j < gaps.len() && i != j ==> regions_disjoint(
            #[trigger] gaps[i].position,
            gaps[i].length,
            #[trigger] gaps[j].position,
            gaps[j].length,
        )
}

/// No gap is empty.
pub open spec fn gaps_nonempty(gaps: Seq<Gap>) -> bool {
    forall|i: int| 0 <= i < gaps.len() ==> #[trigger] gaps[i].length > 0
}

/// The gap made of two adjacent gaps `a` and `b`.
pub open spec fn merged(a: Gap, b: Gap) -> Gap {
    Gap { position: a.position, length: (a.length + b.length) as usize }
}

/// Where a gap starting at `p` goes in the ordered list `g`: after the gaps
/// that start before `p`, before those that start after it.
pub open spec fn gap_slot(g: Seq<Gap>, p: int) -> int {
    choose|k: int| #[trigger] is_gap_slot(g, p, k)
}

/// The gaps of `g` before index `k` start before `p`, the others after it.
pub open spec fn is_gap_slot(g: Seq<Gap>, p: int, k: int) -> bool {
    &&& 0 <= k <= g.len()
    &&& forall|j: int| 0 <= j < k ==> #[trigger] g[j].position < p
    &&& forall|j: int| k <= j < g.len() ==> #[trigger] g[j].position > p
}

/// The slot a gap starting at `p` goes to is the only one.
pub proof fn lemma_gap_slot(g: Seq<Gap>, p: int, k: int)
    requires
        0 <= k <= g.len(),
        forall|j: int| 0 <= j < k ==> #[trigger] g[j].position < p,
        forall|j: int| k <= j < g.len() ==> #[trigger] g[j].position > p,
    ensures
        gap_slot(g, p) == k,
{
    assert(is_gap_slot(g, p, k));
    let s = gap_slot(g, p);
    assert(0 <= s <= g.len());
    if s < k {
        assert(g[s].position < p);
    } else if s > k {
        assert(g[k].position > p);
    }
}

/// The ordered gaps `g` once `[p, p + len)` is freed: a gap for it goes in
/// its slot and is joined to the gaps it touches.
pub open spec fn released(g: Seq<Gap>, p: usize, len: usize) -> Seq<Gap> {
    let k = gap_slot(g, p as int);
    merge_around(g.insert(k, Gap { position: p, length: len }), k)
}

/// `g` with gap `i` joined to the gap after it when they touch.
pub open spec fn merge_next(g: Seq<Gap>, i: int) -> Seq<Gap> {
    if i + 1 < g.len() && g[i].spec_end() == g[i + 1].position {
        g.update(i, merged(g[i], g[i + 1])).remove(i + 1)
    } else {
        g
    }
}

/// `g` with gap `i` joined to the gap before it when they touch.
pub open spec fn merge_prev(g: Seq<Gap>, i: int) -> Seq<Gap> {
    if i > 0 && g[i - 1].spec_end() == g[i].position {
        g.update(i, merged(g[i - 1], g[i])).remove(i - 1)
    } else {
        g
    }
}

/// `g` once gap `i` has been joined to the gap before it when they touch,
/// and then the gap at index `i` to the gap after it when they touch.
pub open spec fn merge_around(g: Seq<Gap>, i: int) -> Seq<Gap> {
    merge_next(merge_prev(g, i), i)
}

/// The ordered list of free regions of a buffer.
pub struct GapManager {
    pub gaps: Vec<Gap>,
}

impl GapManager {
    pub open spec fn view(&self) -> Seq<Gap> {
        self.gaps@
    }

    pub open spec fn wf(&self) -> bool {
        gaps_bounded(self.gaps@)
    }

    pub fn new() -> (m: Self)
        ensures
            m@ == Seq::<Gap>::empty(),
    {
        GapManager { gaps: Vec::new() }
    }

    pub fn gaps(&self) -> (r: &Vec<Gap>)
        ensures
            r@ == self@,
    {
        &self.gaps
    }

    /// Index of the first gap that can hold `needed` bytes.
    pub fn find_place(&self, needed: usize) -> (r: Option<usize>)
        ensures
            match r {
                Some(i) => i < self@.len() && self@[i as int].length >= needed && forall|j: int|
                    0 <= j < i ==> #[trigger] self@[j].length < needed,
                None => forall|j: int| 0 <= j < self@.len() ==> #[trigger] self@[j].length < needed,
            },
    {
        let mut i: usize = 0;
        while i < self.gaps.len()
            invariant
                i <= self@.len(),
                forall|j: int| 0 <= j < i ==> #[trigger] self@[j].length < needed,
            decreases self@.len() - i,
        {
            if self.gaps[i].length >= needed {
                return Some(i);
            }
            i = i + 1;
        }
        None
    }

    /// Looks up the gap that starts exactly at `position`.
    ///
    /// - `Ok(i)`: gap `i` starts at `position`.
    /// - `Err(i)`: no gap starts at `position`; on a sorted list, `i` is where
    ///   such a gap keeps the list sorted.
    pub fn get_gap_index_at(&self, position: usize) -> (r: Result<usize, usize>)
        ensures
            match r {
                Ok(i) => i < self@.len() && self@[i as int].position == position,
                Err(i) => i <= self@.len() && (gaps_sorted(self@) ==> (forall|j: int|
                    0 <= j < i ==> #[trigger] self@[j].position < position) && (forall|j: int|
                    i <= j < self@.len() ==> #[trigger] self@[j].position > position)),
            },
    {
        let mut lo: usize = 0;
        let mut hi: usize = self.gaps.len();
        while lo < hi
            invariant
                lo <= hi <= self@.len(),
                gaps_sorted(self@) ==> forall|j: int|
                    0 <= j < lo ==> #[trigger] self@[j].position < position,
                gaps_sorted(self@) ==> forall|j: int|
                    hi <= j < self@.len() ==> #[trigger] self@[j].position > position,
            decreases hi - lo,
        {
            let mid = lo + (hi - lo) / 2;
            let p = self.gaps[mid].position;
            if p == position {
                return Ok(mid);
            } else if p < position {
                lo = mid + 1;
            } else {
                hi = mid;
            }
        }
        Err(lo)
    }

    /// Inserts `new_gap` right after the gap that starts at `position`, or, if
    /// there is none, where such a gap belongs.
    pub fn insert_gap_at(&mut self, new_gap: Gap, position: usize)
        requires
            old(self).wf(),
            new_gap.spec_end() <= usize::MAX,
        ensures
            final(self).wf(),
            exists|k: int|
                0 <= k <= old(self)@.len() && final(self)@ == old(self)@.insert(k, new_gap),
            gaps_sorted(old(self)@) && new_gap.position == position ==> gaps_sorted(final(self)@),
            gaps_sorted(old(self)@) && (forall|i: int|
                0 <= i < old(self)@.len() ==> #[trigger] old(self)@[i].position != position)
                ==> final(self)@ == old(self)@.insert(gap_slot(old(self)@, position as int), new_gap)
                && is_gap_slot(old(self)@, position as int, gap_slot(old(self)@, position as int)),
    {
        let _len = self.gaps.len();
        let index = match self.get_gap_index_at(position) {
            Ok(found) => found + 1,
            Err(found) => found,
        };
        self.gaps.insert(index, new_gap);
        proof {
            let o = old(self)@;
            let n = self@;
            assert(n == o.insert(index as int, new_gap));
            if gaps_sorted(o) && (forall|i: int| 0 <= i < o.len() ==> #[trigger] o[i].position != position) {
                if index > 0 && index - 1 < o.len() && o[index - 1].position == position {
                    assert(o[index - 1].position != position);
                }
                assert forall|j: int| index <= j < o.len() implies #[trigger] o[j].position > position by {
                    assert(o[j].position != position);
                }
                assert forall|j: int| 0 <= j < index implies #[trigger] o[j].position < position by {
                    assert(o[j].position != position);
                }
                lemma_gap_slot(o, position as int, index as int);
            }
            if gaps_sorted(o) && new_gap.position == position {
                assert forall|i: int, j: int| 0 <= i <= j < n.len() implies n[i].position
                    <= n[j].position by {
                    if i < index && j > index {
                        assert(o[i].position <= position);
                    }
                }
            }
        }
    }

    /// Takes `data_length` bytes from the start of gap `gap_index` and returns
    /// where they start; a gap left empty is dropped.
    pub fn consume_gap(&mut self, gap_index: usize, data_length: usize) -> (r: usize)
        requires
            old(self).wf(),
            gap_index < old(self)@.len(),
            data_length <= old(self)@[gap_index as int].length,
        ensures
            final(self).wf(),
            r == old(self)@[gap_index as int].position,
            final(self)@ == if old(self)@[gap_index as int].length == data_length {
                old(self)@.remove(gap_index as int)
            } else {
                old(self)@.update(
                    gap_index as int,
                    Gap {
                        position: (r + data_length) as usize,
                        length: (old(self)@[gap_index as int].length - data_length) as usize,
                    },
                )
            },
            gaps_sorted(old(self)@) && gaps_disjoint(old(self)@) && gaps_nonempty(old(self)@)
                ==> gaps_sorted(final(self)@) && gaps_nonempty(final(self)@),
    {
        let mut gap = self.gaps[gap_index];
        assert(self@[gap_index as int].spec_end() <= usize::MAX);
        let old_gap_position = gap.start();
        gap.shrink_left(data_length);
        let bytes_left = gap.length;
        self.gaps.set(gap_index, gap);
        if bytes_left == 0 {
            self.gaps.remove(gap_index);
        }
        proof {
            let o = old(self)@;
            let n = self@;
            if gaps_sorted(o) && gaps_disjoint(o) && gaps_nonempty(o) && bytes_left != 0 {
                assert forall|i: int, j: int| 0 <= i <= j < n.len() implies n[i].position
                    <= n[j].position by {
                    if i == gap_index && j != i {
                        assert(regions_disjoint(o[i].position, o[i].length, o[j].position, o[j].length));
                    }
                }
            }
        }
        old_gap_position
    }

    /// Merges gap `index` with the gap before it when they touch.
    pub fn try_merge_prev_gap(&mut self, index: usize)
        requires
            old(self).wf(),
            index == 0 || index < old(self)@.len(),
        ensures
            final(self).wf(),
            final(self)@ == if index > 0 && old(self)@[index - 1].spec_end()
                == old(self)@[index as int].position {
                old(self)@.update(
                    index as int,
                    merged(old(self)@[index - 1], old(self)@[index as int]),
                ).remove(index - 1)
            } else {
                old(self)@
            },
    {
        if index == 0 {
            return;
        }
        let prev = self.gaps[index - 1];
        let mut curr = self.gaps[index];
        assert(self@[index - 1].spec_end() <= usize::MAX);
        assert(self@[index as int].spec_end() <= usize::MAX);
        if prev.end() == curr.start() {
            let offset = prev.length;
            curr.extend_left(offset);
            self.gaps.set(index, curr);
            self.gaps.remove(index - 1);
        }
    }

    /// Merges gap `index` with the gap after it when they touch.
    pub fn try_merge_next_gap(&mut self, index: usize)
        requires
            old(self).wf(),
            index <= old(self)@.len(),
        ensures
            final(self).wf(),
            final(self)@ == if index + 1 < old(self)@.len() && old(self)@[index as int].spec_end()
                == old(self)@[index + 1].position {
                old(self)@.update(
                    index as int,
                    merged(old(self)@[index as int], old(self)@[index + 1]),
                ).remove(index + 1)
            } else {
                old(self)@
            },
    {
        if index >= self.gaps.len() || index + 1 >= self.gaps.len() {
            return;
        }
        let mut curr = self.gaps[index];
        let next = self.gaps[index + 1];
        assert(self@[index + 1].spec_end() <= usize::MAX);
        assert(self@[index as int].spec_end() <= usize::MAX);
        if curr.end() == next.start() {
            let offset = next.length;
            curr.extend_right(offset);
            self.gaps.set(index, curr);
            self.gaps.remove(index + 1);
        }
    }

    /// Merges the gap that starts at `position` with its neighbours when they touch.
    pub fn try_merge_gap(&mut self, position: usize)
        requires
            old(self).wf(),
        ensures
            final(self).wf(),
            final(self)@.len() <= old(self)@.len(),
            forall|b: int| #[trigger] gaps_hold(final(self)@, b) <==> gaps_hold(old(self)@, b),
            gaps_disjoint(old(self)@) ==> gaps_disjoint(final(self)@),
            gaps_sorted(old(self)@) ==> gaps_sorted(final(self)@),
            gaps_nonempty(old(self)@) ==> gaps_nonempty(final(self)@),
            forall|c: int| gaps_within(old(self)@, c) ==> #[trigger] gaps_within(final(self)@, c),
            final(self)@ == old(self)@ || exists|i: int|
                0 <= i < old(self)@.len() && #[trigger] old(self)@[i].position == position
                    && final(self)@ == merge_around(old(self)@, i),
            (forall|i: int| 0 <= i < old(self)@.len() ==> #[trigger] old(self)@[i].position != position)
                ==> final(self)@ == old(self)@,
            gaps_sorted(old(self)@) && (exists|i: int|
                0 <= i < old(self)@.len() && #[trigger] old(self)@[i].position == position) ==> exists|i: int|
                0 <= i < old(self)@.len() && #[trigger] old(self)@[i].position == position
                    && final(self)@ == merge_around(old(self)@, i),
    {
        let index = match self.get_gap_index_at(position) {
            Ok(index) => index,
            Err(_) => {
                return ;
            },
        };
        let ghost g0 = self@;
        self.try_merge_prev_gap(index);
        proof {
            if index > 0 && g0[index - 1].spec_end() == g0[index as int].position {
                let i = index - 1;
                assert(self@ =~= g0.update(i, merged(g0[i], g0[i + 1])).remove(i + 1));
                lemma_merge_pair(g0, i);
            }
        }
        let ghost g1 = self@;
        self.try_merge_next_gap(index);
        proof {
            if index + 1 < g1.len() && g1[index as int].spec_end() == g1[index + 1].position {
                lemma_merge_pair(g1, index as int);
            }
            assert(g1 == merge_prev(g0, index as int));
            assert(self@ == merge_around(g0, index as int));
        }
    }

    /// Marks `[position, position + length)` as free and merges it with the
    /// gaps it touches.
    pub fn release_after(&mut self, position: usize, length: usize)
        requires
            old(self).wf(),
            position + length <= usize::MAX,
        ensures
            final(self).wf(),
            final(self)@.len() <= old(self)@.len() + 1,
            forall|b: int|
                #[trigger] gaps_hold(final(self)@, b) <==> gaps_hold(old(self)@, b) || region_holds(
                    position,
                    length,
                    b,
                ),
            gaps_disjoint(old(self)@) && (forall|i: int|
                0 <= i < old(self)@.len() ==> regions_disjoint(
                    #[trigger] old(self)@[i].position,
                    old(self)@[i].length,
                    position,
                    length,
                )) ==> gaps_disjoint(final(self)@),
            gaps_sorted(old(self)@) ==> gaps_sorted(final(self)@),
            gaps_nonempty(old(self)@) && length > 0 ==> gaps_nonempty(final(self)@),
            forall|c: int|
                gaps_within(old(self)@, c) && position + length <= c ==> #[trigger] gaps_within(
                    final(self)@,
                    c,
                ),
            gaps_sorted(old(self)@) && gaps_nonempty(old(self)@) && length > 0 && (forall|i: int|
                0 <= i < old(self)@.len() ==> regions_disjoint(
                    #[trigger] old(self)@[i].position,
                    old(self)@[i].length,
                    position,
                    length,
                )) ==> final(self)@ == released(old(self)@, position, length),
    {
        let gap = Gap::new(position, length);
        let ghost g0 = self@;
        self.insert_gap_at(gap, position);
        proof {
            let k = choose|k: int| 0 <= k <= g0.len() && self@ == g0.insert(k, gap);
            lemma_insert_gap(g0, k, gap);
        }
        let ghost g1 = self@;
        self.try_merge_gap(position);
        assert(gaps_sorted(g0) && gaps_nonempty(g0) && length > 0 && (forall|i: int|
            0 <= i < g0.len() ==> regions_disjoint(
                #[trigger] g0[i].position,
                g0[i].length,
                position,
                length,
            )) ==> self@ == released(g0, position, length)) by {
            if gaps_sorted(g0) && gaps_nonempty(g0) && length > 0 && (forall|i: int|
                0 <= i < g0.len() ==> regions_disjoint(
                    #[trigger] g0[i].position,
                    g0[i].length,
                    position,
                    length,
                )) {
                assert forall|i: int| 0 <= i < g0.len() implies #[trigger] g0[i].position != position by {
                    assert(regions_disjoint(g0[i].position, g0[i].length, position, length));
                    assert(g0[i].length > 0);
                }
                let k = gap_slot(g0, position as int);
                assert(g1 == g0.insert(k, gap));
                assert(g1[k].position == position);
                assert forall|i: int| 0 <= i < g1.len() && #[trigger] g1[i].position == position implies i == k by {
                    assert(is_gap_slot(g0, position as int, k));
                    if i < k {
                        assert(g1[i] == g0[i]);
                    } else if i > k {
                        assert(g1[i] == g0[i - 1]);
                    }
                }
            }
        }
    }
}

/// Inserting a gap adds exactly its bytes, and keeps the gaps apart when it
/// overlaps none of them.
pub proof fn lemma_insert_gap(gaps: Seq<Gap>, k: int, g: Gap)
    requires
        0 <= k <= gaps.len(),
    ensures
        forall|b: int| gaps_hold(gaps.insert(k, g), b) <==> gaps_hold(gaps, b) || g.holds(b),
        gaps_disjoint(gaps) && (forall|i: int|
            0 <= i < gaps.len() ==> regions_disjoint(
                #[trigger] gaps[i].position,
                gaps[i].length,
                g.position,
                g.length,
            )) ==> gaps_disjoint(gaps.insert(k, g)),
        gaps_nonempty(gaps) && g.length > 0 ==> gaps_nonempty(gaps.insert(k, g)),
        forall|c: int|
            gaps_within(gaps, c) && g.spec_end() <= c ==> #[trigger] gaps_within(gaps.insert(k, g), c),
{
    let n = gaps.insert(k, g);
    assert forall|c: int| gaps_within(gaps, c) && g.spec_end() <= c implies #[trigger] gaps_within(
        n,
        c,
    ) by {
        assert forall|x: int| 0 <= x < n.len() implies #[trigger] n[x].spec_end() <= c by {
            if x < k {
                assert(gaps[x].spec_end() <= c);
            } else if x > k {
                assert(gaps[x - 1].spec_end() <= c);
            }
        }
    }
    assert forall|b: int| gaps_hold(n, b) <==> gaps_hold(gaps, b) || g.holds(b) by {
        if gaps_hold(n, b) {
            let i = choose|i: int| 0 <= i < n.len() && #[trigger] n[i].holds(b);
            if i < k {
                assert(gaps[i].holds(b));
            } else if i > k {
                assert(gaps[i - 1].holds(b));
            }
        }
        if gaps_hold(gaps, b) {
            let i = choose|i: int| 0 <= i < gaps.len() && #[trigger] gaps[i].holds(b);
            if i < k {
                assert(n[i].holds(b));
            } else {
                assert(n[i + 1].holds(b));
            }
        }
        if g.holds(b) {
            assert(n[k].holds(b));
        }
    }
    if gaps_disjoint(gaps) && (forall|i: int|
        0 <= i < gaps.len() ==> regions_disjoint(
            #[trigger] gaps[i].position,
            gaps[i].length,
            g.position,
            g.length,
        )) {
        assert forall|i: int, j: int|
            0 <= i < n.len() && 0 <= j < n.len() && i != j implies regions_disjoint(
            #[trigger] n[i].position,
            n[i].length,
            #[trigger] n[j].position,
            n[j].length,
        ) by {
            let oi = if i < k { i } else { i - 1 };
            let oj = if j < k { j } else { j - 1 };
            if i == k {
                assert(regions_disjoint(gaps[oj].position, gaps[oj].length, g.position, g.length));
            } else if j == k {
                assert(regions_disjoint(gaps[oi].position, gaps[oi].length, g.position, g.length));
            } else {
                assert(regions_disjoint(
                    gaps[oi].position,
                    gaps[oi].length,
                    gaps[oj].position,
                    gaps[oj].length,
                ));
            }
        }
    }
}

/// Merging two touching neighbours `i` and `i + 1` keeps the bytes the gaps
/// hold, their order, their bounds and their separation.
pub proof fn lemma_merge_pair(gaps: Seq<Gap>, i: int)
    requires
        0 <= i,
        i + 1 < gaps.len(),
        gaps[i].spec_end() == gaps[i + 1].position,
        gaps_bounded(gaps),
    ensures
        ({
            let n = gaps.update(i, merged(gaps[i], gaps[i + 1])).remove(i + 1);
            &&& gaps_bounded(n)
            &&& forall|b: int| gaps_hold(n, b) <==> gaps_hold(gaps, b)
            &&& gaps_disjoint(gaps) ==> gaps_disjoint(n)
            &&& gaps_sorted(gaps) ==> gaps_sorted(n)
            &&& gaps_nonempty(gaps) ==> gaps_nonempty(n)
            &&& forall|c: int| gaps_within(gaps, c) ==> #[trigger] gaps_within(n, c)
        }),
{
    let m = merged(gaps[i], gaps[i + 1]);
    let n = gaps.update(i, m).remove(i + 1);
    assert(gaps[i + 1].spec_end() <= usize::MAX);
    assert(m.spec_end() == gaps[i + 1].spec_end());
    assert(n.len() == gaps.len() - 1);
    assert forall|k: int| 0 <= k < n.len() implies #[trigger] n[k] == if k < i {
        gaps[k]
    } else if k == i {
        m
    } else {
        gaps[k + 1]
    } by {}
    assert forall|k: int| 0 <= k < n.len() implies #[trigger] n[k].spec_end() <= usize::MAX by {
        if k < i {
            assert(gaps[k].spec_end() <= usize::MAX);
        } else if k > i {
            assert(gaps[k + 1].spec_end() <= usize::MAX);
        }
    }
    assert forall|b: int| gaps_hold(n, b) <==> gaps_hold(gaps, b) by {
        if gaps_hold(n, b) {
            let k = choose|k: int| 0 <= k < n.len() && #[trigger] n[k].holds(b);
            if k < i {
                assert(gaps[k].holds(b));
            } else if k > i {
                assert(gaps[k + 1].holds(b));
            } else if b < gaps[i].spec_end() {
                assert(gaps[i].holds(b));
            } else {
                assert(gaps[i + 1].holds(b));
            }
        }
        if gaps_hold(gaps, b) {
            let k = choose|k: int| 0 <= k < gaps.len() && #[trigger] gaps[k].holds(b);
            if k < i {
                assert(n[k].holds(b));
            } else if k > i + 1 {
                assert(n[k - 1].holds(b));
            } else {
                assert(n[i].holds(b));
            }
        }
    }
    if gaps_disjoint(gaps) {
        assert forall|x: int, y: int|
            0 <= x < n.len() && 0 <= y < n.len() && x != y implies regions_disjoint(
            #[trigger] n[x].position,
            n[x].length,
            #[trigger] n[y].position,
            n[y].length,
        ) by {
            let ox = if x <= i { x } else { x + 1 };
            let oy = if y <= i { y } else { y + 1 };
            assert(regions_disjoint(
                gaps[ox].position,
                gaps[ox].length,
                gaps[oy].position,
                gaps[oy].length,
            ));
            if x == i {
                assert(regions_disjoint(
                    gaps[i + 1].position,
                    gaps[i + 1].length,
                    gaps[oy].position,
                    gaps[oy].length,
                ));
            }
            if y == i {
                assert(regions_disjoint(
                    gaps[ox].position,
                    gaps[ox].length,
                    gaps[i + 1].position,
                    gaps[i + 1].length,
                ));
            }
        }
    }
    if gaps_sorted(gaps) {
        assert forall|x: int, y: int| 0 <= x <= y < n.len() implies n[x].position
            <= n[y].position by {
            let ox = if x <= i { x } else { x + 1 };
            let oy = if y <= i { y } else { y + 1 };
            assert(gaps[ox].position <= gaps[oy].position);
        }
    }
    assert forall|c: int| gaps_within(gaps, c) implies #[trigger] gaps_within(n, c) by {
        assert forall|k: int| 0 <= k < n.len() implies #[trigger] n[k].spec_end() <= c by {
            if k < i {
                assert(gaps[k].spec_end() <= c);
            } else {
                assert(gaps[k + 1].spec_end() <= c);
            }
        }
    }
    if gaps_nonempty(gaps) {
        assert forall|k: int| 0 <= k < n.len() implies #[trigger] n[k].length > 0 by {
            if k < i {
                assert(gaps[k].length > 0);
            } else if k > i {
                assert(gaps[k + 1].length > 0);
            } else {
                assert(gaps[i].length > 0);
            }
        }
    }
}

} // verus!
