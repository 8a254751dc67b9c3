use vstd::arithmetic::power2::{lemma_pow2_unfold, pow2};
use vstd::prelude::*;

verus! {

/// Storage offset of the `index`th element of a block whose gap spans `start..end`.
pub open spec fn raw_offset(index: int, start: int, end: int) -> int {
    if index < start {
        index
    } else {
        index + (end - start)
    }
}

/// Capacity that a full block of capacity `cap` grows to.
pub open spec fn grown_capacity(cap: nat) -> nat {
    if cap == 0 {
        4
    } else {
        2 * cap
    }
}

/// A capacity that growth can reach from an empty block: zero, or four times a power of two.
pub open spec fn is_grown_size(cap: nat) -> bool {
    cap == 0 || exists|k: nat| cap == 4 * #[trigger] pow2(k)
}

/// Capacity after one insert into a block of capacity `cap` holding `len` elements: unchanged
/// while a free slot is left, grown when the block is full.
pub open spec fn capacity_after_insert(cap: nat, len: nat) -> nat {
    if len < cap {
        cap
    } else {
        grown_capacity(cap)
    }
}

/// Capacity after `n` successive inserts into a block of capacity `cap` holding `len` elements.
pub open spec fn capacity_after(cap: nat, len: nat, n: nat) -> nat
    decreases n,
{
    if n == 0 {
        cap
    } else {
        capacity_after(capacity_after_insert(cap, len), len + 1, (n - 1) as nat)
    }
}

/// Growth keeps a capacity that growth can reach.
proof fn lemma_grown_size(cap: nat)
    requires
        is_grown_size(cap),
    ensures
        is_grown_size(grown_capacity(cap)),
        cap == 0 || cap >= 4,
{
    if cap == 0 {
        vstd::arithmetic::power2::lemma_pow2(0);
        vstd::arithmetic::power::lemma_pow0(2);
        assert(grown_capacity(cap) == 4 * pow2(0));
    } else {
        let k = choose|k: nat| cap == 4 * #[trigger] pow2(k);
        lemma_pow2_unfold(k + 1);
        vstd::arithmetic::power2::lemma_pow2_pos(k);
        assert(grown_capacity(cap) == 4 * pow2(k + 1));
    }
}

/// Content after inserting the elements of `xs` one at a time at a cursor that starts at
/// `pos` in `s` and moves past each inserted element.
pub open spec fn insert_each<T>(s: Seq<T>, pos: int, xs: Seq<T>) -> Seq<T>
    decreases xs.len(),
{
    if xs.len() == 0 {
        s
    } else {
        insert_each(s.insert(pos, xs[0]), pos + 1, xs.drop_first())
    }
}

/// Successive inserts at the cursor place the inserted elements, in the order given, between
/// the elements before the cursor and those after it; from an empty buffer they give exactly
/// the inserted sequence.
pub proof fn lemma_inserts_keep_order<T>(s: Seq<T>, pos: int, xs: Seq<T>)
    requires
        0 <= pos <= s.len(),
    ensures
        insert_each(s, pos, xs) == s.take(pos) + xs + s.skip(pos),
        insert_each(Seq::<T>::empty(), 0, xs) == xs,
    decreases xs.len(),
{
    if xs.len() > 0 {
        lemma_inserts_keep_order(s.insert(pos, xs[0]), pos + 1, xs.drop_first());
        lemma_inserts_keep_order(Seq::<T>::empty().insert(0, xs[0]), 1, xs.drop_first());
        assert(s.insert(pos, xs[0]).take(pos + 1) + xs.drop_first() + s.insert(pos, xs[0]).skip(
            pos + 1,
        ) =~= s.take(pos) + xs + s.skip(pos));
        assert(Seq::<T>::empty().insert(0, xs[0]).take(1) + xs.drop_first() + Seq::<T>::empty().insert(
            0,
            xs[0],
        ).skip(1) =~= xs);
    } else {
        assert(s.take(pos) + xs + s.skip(pos) =~= s);
    }
}

/// An element inserted at cursor `p` sits at index `p`; moving the cursor back to `p` and
/// removing gives it back and restores the content. Removing without moving the cursor back
/// takes the element that followed the cursor instead, which restores the length.
pub proof fn lemma_insert_then_remove<T>(s: Seq<T>, p: int, x: T)
    requires
        0 <= p <= s.len(),
    ensures
        s.insert(p, x)[p] == x,
        s.insert(p, x).remove(p) == s,
        p < s.len() ==> s.insert(p, x)[p + 1] == s[p] && s.insert(p, x).remove(p + 1) == s.remove(
            p,
        ).insert(p, x),
{
    assert(s.insert(p, x).remove(p) =~= s);
    if p < s.len() {
        assert(s.insert(p, x).remove(p + 1) =~= s.remove(p).insert(p, x));
    }
}

/// A sequence with an edit cursor, stored in one block that keeps a hole (the gap) at the
/// cursor. Slots of the gap hold `None`; every other slot holds a live element.
pub struct GapBuffer<T> {
    storage: Vec<Option<T>>,
    gap_start: usize,
    gap_end: usize,
}

impl<T> View for GapBuffer<T> {
    type V = Seq<T>;

    /// The live elements in logical order: those before the gap, then those after it.
    closed spec fn view(&self) -> Seq<T> {
        Seq::new(
            (self.storage@.len() - (self.gap_end - self.gap_start)) as nat,
            |i: int| self.storage@[raw_offset(i, self.gap_start as int, self.gap_end as int)]->Some_0,
        )
    }
}

impl<T> GapBuffer<T> {
    /// The block is partitioned by the gap: live slots outside it, empty slots inside it.
    pub closed spec fn wf(&self) -> bool {
        &&& self.gap_start <= self.gap_end <= self.storage@.len() <= usize::MAX
        &&& is_grown_size(self.storage@.len())
        &&& forall|j: int|
            0 <= j < self.storage@.len() ==> (#[trigger] self.storage@[j] is Some <==> !(
            self.gap_start <= j < self.gap_end))
    }

    /// Number of slots in the block.
    pub closed spec fn spec_capacity(&self) -> nat {
        self.storage@.len()
    }

    /// Logical index of the cursor.
    pub closed spec fn spec_position(&self) -> nat {
        self.gap_start as nat
    }

    /// Storage offset just past the gap.
    pub closed spec fn spec_gap_end(&self) -> nat {
        self.gap_end as nat
    }

    proof fn lemma_view_len(&self)
        requires
            self.wf(),
        ensures
            self@.len() == self.spec_capacity() - (self.gap_end - self.gap_start),
            self.spec_position() <= self@.len(),
    {
    }

    /// Between calls the cursor lies within the content, the content fits in the block, and
    /// the block has a capacity that growth can reach.
    pub proof fn lemma_bounds(&self)
        requires
            self.wf(),
        ensures
            self.spec_position() <= self@.len() <= self.spec_capacity(),
            is_grown_size(self.spec_capacity()),
    {
    }

    pub fn new() -> (r: GapBuffer<T>)
        ensures
            r.wf(),
            r@ == Seq::<T>::empty(),
            r.spec_capacity() == 0,
            r.spec_position() == 0,
    {
        let r = GapBuffer { storage: Vec::new(), gap_start: 0, gap_end: 0 };
        assert(is_grown_size(r.storage@.len()));
        assert(r@ =~= Seq::<T>::empty());
        r
    }

    pub fn capacity(&self) -> (r: usize)
        requires
            self.wf(),
        ensures
            r == self.spec_capacity(),
    {
        self.storage.len()
    }

    pub fn len(&self) -> (r: usize)
        requires
            self.wf(),
        ensures
            r == self@.len(),
            r <= self.spec_capacity(),
    {
        self.storage.len() - (self.gap_end - self.gap_start)
    }

    pub fn position(&self) -> (r: usize)
        requires
            self.wf(),
        ensures
            r == self.spec_position(),
            r <= self@.len(),
    {
        self.gap_start
    }

    /// The raw slot `index` of the block, whether or not it lies in the gap.
    pub fn space(&self, index: usize) -> (r: Option<&T>)
        requires
            self.wf(),
        ensures
            index >= self.spec_capacity() ==> r is None,
            self.spec_position() <= index < self.spec_gap_end() ==> r is None,
            index < self.spec_position() ==> r == Some(&self@[index as int]),
            self.spec_gap_end() <= index < self.spec_capacity() ==> r == Some(
                &self@[index - (self.spec_gap_end() - self.spec_position())],
            ),
    {
        if index < self.storage.len() {
            proof {
                if index >= self.gap_end {
                    let i = index - (self.gap_end - self.gap_start);
                    assert(raw_offset(i, self.gap_start as int, self.gap_end as int) == index);
                }
            }
            self.storage[index].as_ref()
        } else {
            None
        }
    }

    /// Storage offset of the `index`th element, for any index whose offset fits in `usize`;
    /// never an offset inside the gap, and within the block exactly for the indices below the
    /// length.
    fn index_to_raw(&self, index: usize) -> (r: usize)
        requires
            self.wf(),
            index < self.gap_start || index + (self.gap_end - self.gap_start) <= usize::MAX,
        ensures
            r == raw_offset(index as int, self.gap_start as int, self.gap_end as int),
            r < self.spec_capacity() <==> index < self@.len(),
            !(self.gap_start <= r < self.gap_end),
    {
        proof {
            self.lemma_view_len();
        }
        if index < self.gap_start {
            index
        } else {
            index + (self.gap_end - self.gap_start)
        }
    }

    /// The `index`th element, or `None` past the end.
    pub fn get(&self, index: usize) -> (r: Option<&T>)
        requires
            self.wf(),
        ensures
            index < self@.len() ==> r == Some(&self@[index as int]),
            index >= self@.len() ==> r is None,
    {
        proof {
            self.lemma_view_len();
        }
        let gap_len = self.gap_end - self.gap_start;
        if index >= self.gap_start && index > usize::MAX - gap_len {
            return None;
        }
        let raw = self.index_to_raw(index);
        if raw < self.storage.len() {
            self.storage[raw].as_ref()
        } else {
            None
        }
    }

    /// Moves the cursor to `pos`, shifting the elements between the old and the new cursor
    /// across the gap. The content is unchanged.
    pub fn set_potision(&mut self, pos: usize)
        requires
            old(self).wf(),
            pos <= old(self)@.len(),
        ensures
            final(self).wf(),
            final(self)@ == old(self)@,
            final(self).spec_position() == pos,
            final(self).spec_capacity() == old(self).spec_capacity(),
    {
        proof {
            self.lemma_view_len();
        }
        let ghost old_slots = self.storage@;
        let gs = self.gap_start;
        let ge = self.gap_end;
        let ghost gap_len = ge - gs;
        if pos > gs {
            let distance = pos - gs;
            let mut k: usize = 0;
            while k < distance
                invariant
                    self.storage@.len() == old_slots.len(),
                    gs <= ge <= old_slots.len() <= usize::MAX,
                    pos <= old_slots.len() - gap_len,
                    distance == pos - gs,
                    gap_len == ge - gs,
                    k <= distance,
                    self.gap_start == gs && self.gap_end == ge,
                    forall|j: int| 0 <= j < gs ==> #[trigger] self.storage@[j] == old_slots[j],
                    forall|j: int| gs <= j < gs + k ==> #[trigger] self.storage@[j] == old_slots[j + gap_len],
                    forall|j: int| gs + k <= j < ge + k ==> #[trigger] self.storage@[j] is None,
                    forall|j: int| ge + k <= j < old_slots.len() ==> #[trigger] self.storage@[j] == old_slots[j],
                decreases distance - k,
            {
                let moved = self.storage[ge + k].take();
                self.storage[gs + k] = moved;
                k = k + 1;
            }
        } else if pos < gs {
            let distance = gs - pos;
            let mut k: usize = 0;
            while k < distance
                invariant
                    self.storage@.len() == old_slots.len(),
                    gs <= ge <= old_slots.len(),
                    distance == gs - pos,
                    gap_len == ge - gs,
                    k <= distance,
                    self.gap_start == gs && self.gap_end == ge,
                    forall|j: int| 0 <= j < gs - k ==> #[trigger] self.storage@[j] == old_slots[j],
                    forall|j: int| gs - k <= j < ge - k ==> #[trigger] self.storage@[j] is None,
                    forall|j: int| ge - k <= j < ge ==> #[trigger] self.storage@[j] == old_slots[j - gap_len],
                    forall|j: int| ge <= j < old_slots.len() ==> #[trigger] self.storage@[j] == old_slots[j],
                decreases distance - k,
            {
                let moved = self.storage[gs - 1 - k].take();
                self.storage[ge - 1 - k] = moved;
                k = k + 1;
            }
        }
        self.gap_start = pos;
        self.gap_end = pos + (ge - gs);
        assert(self@ =~= old(self)@);
    }

    /// Grows the block to `grown_capacity` slots; the new slots all join the gap, and the
    /// elements before and after the gap keep their counts.
    fn enlarge_gap(&mut self)
        requires
            old(self).wf(),
            old(self).spec_capacity() <= usize::MAX / 2,
        ensures
            final(self).wf(),
            final(self)@ == old(self)@,
            final(self).spec_position() == old(self).spec_position(),
            final(self).spec_capacity() == grown_capacity(old(self).spec_capacity()),
    {
        let cap = self.storage.len();
        proof {
            lemma_grown_size(cap as nat);
        }
        let new_capacity: usize = if cap == 0 {
            4
        } else {
            cap * 2
        };
        let gs = self.gap_start;
        let ge = self.gap_end;
        let after_gap = cap - ge;
        let new_gap_end = new_capacity - after_gap;
        let ghost old_slots = self.storage@;
        let mut grown: Vec<Option<T>> = Vec::with_capacity(new_capacity);
        let mut i: usize = 0;
        while i < gs
            invariant
                gs <= ge <= cap <= new_gap_end <= new_capacity,
                self.storage@.len() == cap,
                old_slots.len() == cap,
                self.gap_start == gs && self.gap_end == ge,
                i <= gs,
                grown@.len() == i,
                forall|j: int| 0 <= j < i ==> #[trigger] grown@[j] == old_slots[j],
                forall|j: int| i <= j < gs ==> #[trigger] self.storage@[j] == old_slots[j],
                forall|j: int| ge <= j < cap ==> #[trigger] self.storage@[j] == old_slots[j],
            decreases gs - i,
        {
            grown.push(self.storage[i].take());
            i = i + 1;
        }
        while i < new_gap_end
            invariant
                gs <= ge <= cap <= new_gap_end <= new_capacity,
                self.storage@.len() == cap,
                old_slots.len() == cap,
                self.gap_start == gs && self.gap_end == ge,
                gs <= i <= new_gap_end,
                grown@.len() == i,
                forall|j: int| 0 <= j < gs ==> #[trigger] grown@[j] == old_slots[j],
                forall|j: int| gs <= j < i ==> #[trigger] grown@[j] is None,
                forall|j: int| ge <= j < cap ==> #[trigger] self.storage@[j] == old_slots[j],
            decreases new_gap_end - i,
        {
            grown.push(None);
            i = i + 1;
        }
        let mut k: usize = ge;
        while k < cap
            invariant
                gs <= ge <= cap <= new_gap_end <= new_capacity,
                new_gap_end == new_capacity - (cap - ge),
                self.storage@.len() == cap,
                old_slots.len() == cap,
                self.gap_start == gs && self.gap_end == ge,
                ge <= k <= cap,
                grown@.len() == new_gap_end + (k - ge),
                forall|j: int| 0 <= j < gs ==> #[trigger] grown@[j] == old_slots[j],
                forall|j: int| gs <= j < new_gap_end ==> #[trigger] grown@[j] is None,
                forall|j: int|
                    new_gap_end <= j < new_gap_end + (k - ge) ==> #[trigger] grown@[j]
                        == old_slots[j - new_gap_end + ge],
                forall|j: int| k <= j < cap ==> #[trigger] self.storage@[j] == old_slots[j],
            decreases cap - k,
        {
            grown.push(self.storage[k].take());
            k = k + 1;
        }
        self.storage = grown;
        self.gap_end = new_gap_end;
        assert(self@ =~= old(self)@);
    }

    /// Inserts `elt` at the cursor and leaves the cursor after it.
    pub fn insert(&mut self, elt: T)
        requires
            old(self).wf(),
            old(self)@.len() < usize::MAX / 2,
        ensures
            final(self).wf(),
            final(self)@ == old(self)@.insert(old(self).spec_position() as int, elt),
            final(self)@.len() == old(self)@.len() + 1,
            final(self).spec_position() == old(self).spec_position() + 1,
            final(self).spec_capacity() == capacity_after_insert(
                old(self).spec_capacity(),
                old(self)@.len(),
            ),
    {
        proof {
            self.lemma_view_len();
        }
        if self.gap_start == self.gap_end {
            self.enlarge_gap();
        }
        let ghost before = self@;
        let index = self.gap_start;
        self.storage[index] = Some(elt);
        self.gap_start = index + 1;
        assert(self@ =~= before.insert(index as int, elt));
    }

    /// Removes and returns the element just after the cursor, or `None` at the end.
    pub fn remove(&mut self) -> (r: Option<T>)
        requires
            old(self).wf(),
        ensures
            final(self).wf(),
            final(self).spec_position() == old(self).spec_position(),
            final(self).spec_capacity() == old(self).spec_capacity(),
            old(self).spec_position() == old(self)@.len() ==> r is None && final(self)@ == old(
                self,
            )@,
            old(self).spec_position() < old(self)@.len() ==> r == Some(
                old(self)@[old(self).spec_position() as int],
            ) && final(self)@ == old(self)@.remove(old(self).spec_position() as int),
    {
        proof {
            self.lemma_view_len();
        }
        if self.gap_end == self.storage.len() {
            return None;
        }
        let ghost before = self@;
        let index = self.gap_end;
        assert(raw_offset(self.gap_start as int, self.gap_start as int, index as int) == index);
        let elem = self.storage[index].take();
        self.gap_end = index + 1;
        assert(self@ =~= before.remove(self.gap_start as int));
        elem
    }

    /// Inserts the elements of `values` in order at the cursor, leaving the cursor after the
    /// last of them.
    pub fn insert_iter(&mut self, values: Vec<T>)
        requires
            old(self).wf(),
            old(self)@.len() + values@.len() < usize::MAX / 2,
        ensures
            final(self).wf(),
            final(self)@ == old(self)@.take(old(self).spec_position() as int) + values@
                + old(self)@.skip(old(self).spec_position() as int),
            final(self).spec_position() == old(self).spec_position() + values@.len(),
            final(self).spec_capacity() == capacity_after(
                old(self).spec_capacity(),
                old(self)@.len(),
                values@.len(),
            ),
    {
        let ghost pos = self.spec_position() as int;
        let ghost front = old(self)@.take(pos);
        let ghost back = old(self)@.skip(pos);
        let ghost all = values@;
        let mut rest = values;
        let ghost mut done: Seq<T> = Seq::empty();
        while rest.len() > 0
            invariant
                self.wf(),
                all.len() == done.len() + rest@.len(),
                done == all.take(done.len() as int),
                rest@ == all.skip(done.len() as int),
                self@ == front + done + back,
                self.spec_position() == pos + done.len(),
                front.len() == pos,
                front.len() + all.len() + back.len() < usize::MAX / 2,
                capacity_after(old(self).spec_capacity(), old(self)@.len(), all.len())
                    == capacity_after(self.spec_capacity(), self@.len(), rest@.len()),
            decreases rest@.len(),
        {
            let elt = rest.remove(0);
            proof {
                self.lemma_view_len();
            }
            self.insert(elt);
            proof {
                assert(elt == all[done.len() as int]);
                done = done.push(elt);
                assert(done =~= all.take(done.len() as int));
                assert(rest@ =~= all.skip(done.len() as int));
                assert(self@ =~= front + done + back);
            }
        }
        proof {
            assert(done =~= all);
        }
    }
}

} // verus!
