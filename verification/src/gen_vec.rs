//! A generational slot table: values live behind `(slot, generation)` handles,
//! vacated slots are threaded into an intrusive free list and reused.

use vstd::prelude::*;

verus! {

/// A handle to one occupancy of one slot.
#[derive(Clone, Copy, PartialEq, Eq, Structural, Hash, PartialOrd, Ord, Debug)]
pub struct Index {
    pub index: usize,
    pub generation: u32,
}

impl Index {
    /// The slot.
    pub fn index(&self) -> (r: usize)
        ensures
            r == self.index,
    {
        self.index
    }

    /// The generation of the slot at which the handle was handed out.
    pub fn generation(&self) -> (r: u32)
        ensures
            r == self.generation,
    {
        self.generation
    }
}

/// One slot of the table. An open slot carries the link to the next open slot.
#[derive(Debug, Clone, PartialEq)]
pub enum Element<T> {
    Occupied { value: T, generation: u32 },
    Open { generation: u32, next: Option<usize> },
}

impl<T> Element<T> {
    /// The generation of the slot.
    pub open spec fn spec_generation(&self) -> u32 {
        match *self {
            Element::Occupied { generation, .. } => generation,
            Element::Open { generation, .. } => generation,
        }
    }

    /// The next open slot after this one, if this one is open and not the last.
    pub open spec fn spec_next_open(&self) -> Option<usize> {
        match *self {
            Element::Occupied { .. } => None,
            Element::Open { next, .. } => next,
        }
    }

    /// The value, if the slot is occupied.
    pub open spec fn spec_value(&self) -> Option<T> {
        match *self {
            Element::Occupied { value, .. } => Some(value),
            Element::Open { .. } => None,
        }
    }

    /// What the slot looks like once the free-list link is forgotten.
    pub open spec fn slot(&self) -> SlotView<T> {
        SlotView { generation: self.spec_generation(), value: self.spec_value() }
    }

    /// The value, if the slot is occupied.
    pub fn as_occupied(self) -> (r: Option<T>)
        ensures
            r == self.spec_value(),
    {
        match self {
            Element::Occupied { value, .. } => Some(value),
            Element::Open { .. } => None,
        }
    }

    /// The generation of the slot.
    pub fn generation(&self) -> (r: u32)
        ensures
            r == self.spec_generation(),
    {
        match self {
            Element::Occupied { generation, .. } => *generation,
            Element::Open { generation, .. } => *generation,
        }
    }

    /// The next open slot after this one, if this one is open and not the last.
    pub fn next_open(&self) -> (r: Option<usize>)
        ensures
            r == self.spec_next_open(),
    {
        match self {
            Element::Occupied { .. } => None,
            Element::Open { next, .. } => *next,
        }
    }
}

/// The state of one slot: its generation and, when occupied, its value.
pub ghost struct SlotView<T> {
    pub generation: u32,
    pub value: Option<T>,
}

/// The mathematical model of a table: the slots in order, and the free list
/// from its head on.
pub ghost struct GenVecView<T> {
    pub slots: Seq<SlotView<T>>,
    pub free: Seq<usize>,
}

impl<T> GenVecView<T> {
    /// The table without a slot.
    pub open spec fn empty() -> Self {
        GenVecView { slots: Seq::empty(), free: Seq::empty() }
    }

    /// Free-list soundness: the free list names open slots only, names none
    /// twice, and misses no open slot.
    pub open spec fn wf(self) -> bool {
        &&& self.slots.len() <= usize::MAX
        &&& forall|k: int|
            0 <= k < self.free.len() ==> (#[trigger] self.free[k]) < self.slots.len()
                && self.slots[self.free[k] as int].value.is_none()
        &&& forall|j: int, k: int|
            0 <= j < k < self.free.len() ==> self.free[j] != self.free[k]
        &&& forall|s: usize|
            s < self.slots.len() && (#[trigger] self.slots[s as int]).value.is_none()
                ==> self.free.contains(s)
    }

    /// The handle resolves: its slot is occupied at exactly its generation.
    pub open spec fn contains(self, index: Index) -> bool {
        &&& index.index < self.slots.len()
        &&& self.slots[index.index as int].value.is_some()
        &&& self.slots[index.index as int].generation == index.generation
    }

    /// The value behind a handle that resolves.
    pub open spec fn value(self, index: Index) -> T
        recommends
            self.contains(index),
    {
        self.slots[index.index as int].value.unwrap()
    }

    /// The value behind the handle, if the handle resolves.
    pub open spec fn get(self, index: Index) -> Option<T> {
        if self.contains(index) {
            Some(self.value(index))
        } else {
            None
        }
    }

    /// The slot is open at exactly this generation.
    pub open spec fn is_open_at(self, slot: int, generation: int) -> bool {
        &&& 0 <= slot < self.slots.len()
        &&& self.slots[slot].value.is_none()
        &&& self.slots[slot].generation == generation
    }

    /// The handle was vacated for good: its slot has moved on to a later
    /// generation.
    pub open spec fn retired(self, index: Index) -> bool {
        &&& index.index < self.slots.len()
        &&& self.slots[index.index as int].generation > index.generation
    }

    /// A slot is open, or one more slot can be had.
    pub open spec fn has_room(self) -> bool {
        self.free.len() > 0 || self.slots.len() < usize::MAX
    }

    /// The handle that the next `add` hands out.
    pub open spec fn next_index(self) -> Index {
        if self.free.len() > 0 {
            Index {
                index: self.free[0],
                generation: self.slots[self.free[0] as int].generation,
            }
        } else {
            Index { index: self.slots.len() as usize, generation: 0 }
        }
    }

    /// The table after `add(value)`: the head of the free list is reused at
    /// the generation it was left with, or a slot of generation 0 is appended.
    pub open spec fn add(self, value: T) -> Self {
        if self.free.len() > 0 {
            GenVecView {
                slots: self.slots.update(
                    self.free[0] as int,
                    SlotView {
                        generation: self.slots[self.free[0] as int].generation,
                        value: Some(value),
                    },
                ),
                free: self.free.drop_first(),
            }
        } else {
            GenVecView {
                slots: self.slots.push(SlotView { generation: 0, value: Some(value) }),
                free: self.free,
            }
        }
    }

    /// The table with the slot vacated at the given generation and made the
    /// head of the free list.
    pub open spec fn vacate(self, slot: usize, generation: u32) -> Self {
        GenVecView {
            slots: self.slots.update(slot as int, SlotView { generation, value: None }),
            free: seq![slot] + self.free,
        }
    }

    /// The table after `remove(index)`.
    pub open spec fn remove(self, index: Index) -> Self {
        if self.contains(index) {
            self.vacate(index.index, (index.generation + 1) as u32)
        } else {
            self
        }
    }

    /// The table after a removal that leaves the generation as it was.
    pub open spec fn remove_keeping_generation(self, index: Index) -> Self {
        if self.contains(index) {
            self.vacate(index.index, index.generation)
        } else {
            self
        }
    }

    /// The table with `value` written into the open slot of `index`, at the
    /// generation of `index`, and the slot taken out of the free list.
    pub open spec fn restore(self, index: Index, value: T) -> Self {
        GenVecView {
            slots: self.slots.update(
                index.index as int,
                SlotView { generation: index.generation, value: Some(value) },
            ),
            free: self.free.remove(self.free.index_of(index.index)),
        }
    }

    /// The handle under which a slot would be live now.
    pub open spec fn handle_at(self, slot: int) -> Index {
        Index { index: slot as usize, generation: self.slots[slot].generation }
    }

    /// One handle for each slot, in slot order, at the slot's generation.
    pub open spec fn handles(self) -> Seq<Index> {
        Seq::new(self.slots.len(), |i: int| self.handle_at(i))
    }

    /// The handles among those of the first `n` slots that resolve.
    pub open spec fn live_prefix(self, n: int) -> Seq<Index> {
        self.handles().take(n).filter(|h: Index| self.contains(h))
    }

    /// The handles that resolve, in slot order.
    pub open spec fn live_indexes(self) -> Seq<Index> {
        self.live_prefix(self.slots.len() as int)
    }

    /// The slot is open, at whatever generation.
    pub open spec fn is_open(self, slot: usize) -> bool {
        slot < self.slots.len() && self.slots[slot as int].value.is_none()
    }

    /// Going one slot further adds that slot's handle if the slot is occupied.
    pub proof fn lemma_live_prefix_step(self, n: int)
        requires
            0 <= n < self.slots.len(),
            self.slots.len() <= usize::MAX,
        ensures
            self.live_prefix(n + 1) == (if self.slots[n].value.is_some() {
                self.live_prefix(n).push(self.handle_at(n))
            } else {
                self.live_prefix(n)
            }),
    {
        reveal(Seq::filter);
        assert(self.handles().take(n + 1).drop_last() =~= self.handles().take(n));
    }

    /// No handle comes from no slot.
    pub proof fn lemma_live_prefix_empty(self)
        ensures
            self.live_prefix(0) == Seq::<Index>::empty(),
    {
        reveal(Seq::filter);
        assert(self.handles().take(0) =~= Seq::<Index>::empty());
    }

    /// Every live handle is listed, each listed handle is live, and the
    /// listing goes up by slot.
    pub proof fn lemma_live_prefix(self, n: int)
        requires
            0 <= n <= self.slots.len(),
            self.slots.len() <= usize::MAX,
        ensures
            forall|k: int|
                0 <= k < self.live_prefix(n).len() ==> self.contains(
                    #[trigger] self.live_prefix(n)[k],
                ) && self.live_prefix(n)[k].index < n,
            forall|j: int, k: int|
                0 <= j < k < self.live_prefix(n).len() ==> self.live_prefix(n)[j].index
                    < self.live_prefix(n)[k].index,
            forall|h: Index|
                self.contains(h) && h.index < n ==> self.live_prefix(n).contains(h),
            self.live_prefix(n).len() <= n,
        decreases n,
    {
        if n == 0 {
            self.lemma_live_prefix_empty();
        } else {
            self.lemma_live_prefix(n - 1);
            self.lemma_live_prefix_step(n - 1);
            let before = self.live_prefix(n - 1);
            let now = self.live_prefix(n);
            assert forall|h: Index| self.contains(h) && h.index < n implies now.contains(h) by {
                if h.index < n - 1 {
                    let k = choose|k: int| 0 <= k < before.len() && before[k] == h;
                    assert(now[k] == h);
                } else {
                    assert(h == self.handle_at(n - 1));
                    assert(now[now.len() - 1] == h);
                }
            }
        }
    }

    /// The same table with every value seen through `f`.
    pub open spec fn map_values<U>(self, f: spec_fn(T) -> U) -> GenVecView<U> {
        GenVecView {
            slots: Seq::new(
                self.slots.len(),
                |i: int|
                    SlotView {
                        generation: self.slots[i].generation,
                        value: match self.slots[i].value {
                            Some(v) => Some(f(v)),
                            None => None,
                        },
                    },
            ),
            free: self.free,
        }
    }

    /// The table with the value of a live entry replaced.
    pub open spec fn set_value(self, index: Index, value: T) -> Self {
        GenVecView {
            slots: self.slots.update(
                index.index as int,
                SlotView { generation: index.generation, value: Some(value) },
            ),
            free: self.free,
        }
    }
}

impl<T> GenVecView<T> {
    /// What `add` does to the handles: the next handle starts to resolve,
    /// to the new value, and nothing else changes.
    pub proof fn lemma_add(self, value: T)
        requires
            self.wf(),
            self.has_room(),
        ensures
            self.add(value).wf(),
            !self.contains(self.next_index()),
            self.add(value).contains(self.next_index()),
            self.add(value).value(self.next_index()) == value,
            forall|i: Index| #[trigger]
                self.add(value).contains(i) == (self.contains(i) || i == self.next_index()),
            forall|i: Index| self.contains(i) ==> #[trigger] self.add(value).value(i) == self.value(i),
            forall|i: Index| self.retired(i) ==> #[trigger] self.add(value).retired(i),
    {
        let after = self.add(value);
        if self.free.len() > 0 {
            assert(self.free[0] < self.slots.len());
            assert forall|s: usize|
                s < after.slots.len() && (#[trigger] after.slots[s as int]).value.is_none() implies after.free.contains(
                s,
            ) by {
                assert(self.slots[s as int].value.is_none());
                let k = choose|k: int| 0 <= k < self.free.len() && self.free[k] == s;
                assert(after.free[k - 1] == s);
            }
            assert forall|k: int| 0 <= k < after.free.len() implies (#[trigger] after.free[k])
                < after.slots.len() && after.slots[after.free[k] as int].value.is_none() by {
                assert(after.free[k] == self.free[k + 1]);
                assert(self.free[0] != self.free[k + 1]);
            }
            assert forall|j: int, k: int| 0 <= j < k < after.free.len() implies after.free[j]
                != after.free[k] by {
                assert(self.free[j + 1] != self.free[k + 1]);
            }
        } else {
            assert forall|s: usize|
                s < after.slots.len() && (#[trigger] after.slots[s as int]).value.is_none() implies after.free.contains(
                s,
            ) by {
                assert(self.slots[s as int].value.is_none());
            }
        }
    }

    /// The state of a slot: its generation, and whether it is occupied.
    pub open spec fn state(self, slot: int) -> (u32, bool) {
        (self.slots[slot].generation, self.slots[slot].value.is_some())
    }

    /// The two tables have the same slots in the same states, but perhaps
    /// for `slot`.
    pub open spec fn same_states_but(self, before: Self, slot: int) -> bool {
        &&& self.slots.len() == before.slots.len()
        &&& forall|s: int|
            0 <= s < before.slots.len() && s != slot ==> #[trigger] self.state(s) == before.state(s)
    }

    /// The two tables have the same slots in the same states.
    pub open spec fn same_states(self, before: Self) -> bool {
        &&& self.slots.len() == before.slots.len()
        &&& forall|s: int| 0 <= s < before.slots.len() ==> #[trigger] self.state(s) == before.state(s)
    }

    /// Every slot of `before` is there in the state in which `before` has
    /// it, and every further slot is open at generation 0.
    pub open spec fn keeps_states(self, before: Self) -> bool {
        &&& before.slots.len() <= self.slots.len()
        &&& forall|s: int| 0 <= s < before.slots.len() ==> #[trigger] self.state(s) == before.state(s)
        &&& forall|s: int|
            before.slots.len() <= s < self.slots.len() ==> #[trigger] self.state(s) == (0u32, false)
    }

    /// No slot of `before` is missing, and none stands at an earlier
    /// generation than it did in `before`.
    pub open spec fn not_older(self, before: Self) -> bool {
        &&& before.slots.len() <= self.slots.len()
        &&& forall|s: int|
            0 <= s < before.slots.len() ==> before.slots[s].generation <= (
            #[trigger] self.slots[s]).generation
    }

    /// A handle that was vacated for good stays so while no generation goes
    /// back, and it does not resolve.
    pub proof fn lemma_retired_kept(self, before: Self, index: Index)
        requires
            self.not_older(before),
            before.retired(index),
        ensures
            self.retired(index),
            !self.contains(index),
    {
        assert(before.slots[index.index as int].generation <= self.slots[index.index as int].generation);
    }

    /// `add` takes no generation back.
    pub proof fn lemma_add_not_older(self, value: T)
        requires
            self.wf(),
        ensures
            self.add(value).not_older(self),
    {
        if self.free.len() > 0 {
            assert(self.free[0] < self.slots.len());
        }
    }

    /// A new value for a live entry takes no generation back.
    pub proof fn lemma_set_value_not_older(self, index: Index, value: T)
        requires
            self.contains(index),
        ensures
            self.set_value(index, value).not_older(self),
    {
    }

    /// A removal that does not lower the generation takes no generation
    /// back, and one that raises it retires the handle.
    pub proof fn lemma_vacate_not_older(self, index: Index, generation: u32)
        requires
            self.contains(index),
            generation >= index.generation,
        ensures
            self.vacate(index.index, generation).not_older(self),
            generation > index.generation ==> self.vacate(index.index, generation).retired(index),
    {
    }

    /// Going on from a later state keeps what was said of an earlier one.
    pub proof fn lemma_not_older_trans(self, middle: Self, before: Self)
        requires
            self.not_older(middle),
            middle.not_older(before),
        ensures
            self.not_older(before),
    {
        assert forall|s: int| 0 <= s < before.slots.len() implies before.slots[s].generation <= (
        #[trigger] self.slots[s]).generation by {
            assert(before.slots[s].generation <= middle.slots[s].generation);
            assert(middle.slots[s].generation <= self.slots[s].generation);
        }
    }

    /// Replacing a live value changes that value and nothing else.
    pub proof fn lemma_set_value(self, index: Index, value: T)
        requires
            self.contains(index),
        ensures
            self.set_value(index, value).wf() == self.wf(),
            self.set_value(index, value).value(index) == value,
            forall|i: Index| #[trigger] self.set_value(index, value).contains(i) == self.contains(i),
            forall|i: Index|
                i != index && self.contains(i) ==> #[trigger] self.set_value(index, value).value(i)
                    == self.value(i),
            forall|i: Index| #[trigger] self.set_value(index, value).retired(i) == self.retired(i),
    {
        let after = self.set_value(index, value);
        if self.wf() {
            assert forall|s: usize|
                s < after.slots.len() && (#[trigger] after.slots[s as int]).value.is_none() implies after.free.contains(
                s,
            ) by {
                assert(self.slots[s as int].value.is_none());
            }
            assert forall|k: int| 0 <= k < after.free.len() implies (#[trigger] after.free[k])
                < after.slots.len() && after.slots[after.free[k] as int].value.is_none() by {
                assert(self.slots[self.free[k] as int].value.is_none());
            }
        }
        if after.wf() {
            assert forall|s: usize|
                s < self.slots.len() && (#[trigger] self.slots[s as int]).value.is_none() implies self.free.contains(
                s,
            ) by {
                assert(after.slots[s as int].value.is_none());
            }
            assert forall|k: int| 0 <= k < self.free.len() implies (#[trigger] self.free[k])
                < self.slots.len() && self.slots[self.free[k] as int].value.is_none() by {
                assert(after.slots[after.free[k] as int].value.is_none());
            }
        }
    }

    /// What writing into an open slot does to the handles: the written
    /// handle starts to resolve, and nothing else changes.
    pub proof fn lemma_restore(self, index: Index, value: T)
        requires
            self.wf(),
            self.is_open(index.index),
        ensures
            self.restore(index, value).wf(),
            !self.contains(index),
            self.restore(index, value).contains(index),
            self.restore(index, value).value(index) == value,
            forall|i: Index| #[trigger]
                self.restore(index, value).contains(i) == (self.contains(i) || i == index),
            forall|i: Index|
                self.contains(i) ==> #[trigger] self.restore(index, value).value(i) == self.value(i),
            forall|s: usize|
                s != index.index ==> #[trigger] self.restore(index, value).is_open(s)
                    == self.is_open(s),
            forall|s: int, g: int|
                s != index.index ==> #[trigger] self.restore(index, value).is_open_at(s, g)
                    == self.is_open_at(s, g),
    {
        let after = self.restore(index, value);
        let slot = index.index;
        assert(self.slots[slot as int].value.is_none());
        assert(self.free.contains(slot));
        let pos = self.free.index_of(slot);
        assert forall|k: int| 0 <= k < after.free.len() implies (#[trigger] after.free[k])
            < after.slots.len() && after.slots[after.free[k] as int].value.is_none() by {
            let kk = if k < pos { k } else { k + 1 };
            assert(after.free[k] == self.free[kk]);
            if kk < pos {
                assert(self.free[kk] != self.free[pos]);
            } else {
                assert(self.free[pos] != self.free[kk]);
            }
        }
        assert forall|j: int, k: int| 0 <= j < k < after.free.len() implies after.free[j]
            != after.free[k] by {
            let jj = if j < pos { j } else { j + 1 };
            let kk = if k < pos { k } else { k + 1 };
            assert(self.free[jj] != self.free[kk]);
        }
        assert forall|s: usize|
            s < after.slots.len() && (#[trigger] after.slots[s as int]).value.is_none() implies after.free.contains(
            s,
        ) by {
            assert(self.slots[s as int].value.is_none());
            let k = choose|k: int| 0 <= k < self.free.len() && self.free[k] == s;
            if k < pos {
                assert(after.free[k] == s);
            } else {
                assert(after.free[k - 1] == s);
            }
        }
    }

    /// What vacating the slot of a live handle does to the handles: that
    /// handle stops resolving, and nothing else changes.
    pub proof fn lemma_vacate(self, index: Index, generation: u32)
        requires
            self.wf(),
            self.contains(index),
        ensures
            self.vacate(index.index, generation).wf(),
            !self.vacate(index.index, generation).contains(index),
            self.vacate(index.index, generation).is_open_at(
                index.index as int,
                generation as int,
            ),
            forall|i: Index| #[trigger]
                self.vacate(index.index, generation).contains(i) == (self.contains(i) && i
                    != index),
            forall|i: Index|
                self.contains(i) && i != index ==> #[trigger] self.vacate(
                    index.index,
                    generation,
                ).value(i) == self.value(i),
            forall|s: usize|
                s != index.index ==> #[trigger] self.vacate(index.index, generation).is_open(s)
                    == self.is_open(s),
            forall|s: int, g: int|
                s != index.index ==> #[trigger] self.vacate(index.index, generation).is_open_at(
                    s,
                    g,
                ) == self.is_open_at(s, g),
    {
        let after = self.vacate(index.index, generation);
        let slot = index.index;
        assert(!self.free.contains(slot));
        assert forall|k: int| 0 <= k < after.free.len() implies (#[trigger] after.free[k])
            < after.slots.len() && after.slots[after.free[k] as int].value.is_none() by {
            if k > 0 {
                assert(after.free[k] == self.free[k - 1]);
            }
        }
        assert forall|j: int, k: int| 0 <= j < k < after.free.len() implies after.free[j]
            != after.free[k] by {
            assert(after.free[k] == self.free[k - 1]);
            assert(self.free.contains(self.free[k - 1]));
            if j > 0 {
                assert(after.free[j] == self.free[j - 1]);
            }
        }
        assert forall|s: usize|
            s < after.slots.len() && (#[trigger] after.slots[s as int]).value.is_none() implies after.free.contains(
            s,
        ) by {
            if s == slot {
                assert(after.free[0] == s);
            } else {
                assert(self.slots[s as int].value.is_none());
                let k = choose|k: int| 0 <= k < self.free.len() && self.free[k] == s;
                assert(after.free[k + 1] == s);
            }
        }
    }

    /// Seeing the values through `f` changes neither which handles resolve
    /// nor the free list.
    pub proof fn lemma_map_values<U>(self, f: spec_fn(T) -> U)
        ensures
            self.map_values(f).slots.len() == self.slots.len(),
            self.map_values(f).free == self.free,
            self.map_values(f).wf() == self.wf(),
            self.wf() ==> self.map_values(f).next_index() == self.next_index(),
            self.map_values(f).has_room() == self.has_room(),
            forall|i: Index| #[trigger] self.map_values(f).contains(i) == self.contains(i),
            forall|i: Index|
                self.contains(i) ==> #[trigger] self.map_values(f).value(i) == f(self.value(i)),
            forall|s: usize| #[trigger] self.map_values(f).is_open(s) == self.is_open(s),
            forall|s: int, g: int| #[trigger]
                self.map_values(f).is_open_at(s, g) == self.is_open_at(s, g),
    {
        let m = self.map_values(f);
        if self.wf() {
            assert forall|s: usize|
                s < m.slots.len() && (#[trigger] m.slots[s as int]).value.is_none() implies m.free.contains(
                s,
            ) by {
                assert(self.slots[s as int].value.is_none());
            }
            assert(m.wf());
        }
        if m.wf() {
            assert forall|s: usize|
                s < self.slots.len() && (#[trigger] self.slots[s as int]).value.is_none() implies self.free.contains(
                s,
            ) by {
                assert(m.slots[s as int].value.is_none());
            }
            assert forall|k: int| 0 <= k < self.free.len() implies (#[trigger] self.free[k])
                < self.slots.len() && self.slots[self.free[k] as int].value.is_none() by {
                assert(m.free[k] < m.slots.len());
                assert(m.slots[m.free[k] as int].value.is_none());
            }
            assert(self.wf());
        }
    }

    /// Seeing the values through `f` changes nothing about the listing of
    /// the live handles.
    pub proof fn lemma_map_live<U>(self, f: spec_fn(T) -> U, n: int)
        requires
            0 <= n <= self.slots.len(),
            self.slots.len() <= usize::MAX,
        ensures
            self.map_values(f).live_prefix(n) == self.live_prefix(n),
        decreases n,
    {
        if n == 0 {
            self.lemma_live_prefix_empty();
            self.map_values(f).lemma_live_prefix_empty();
        } else {
            self.lemma_map_live(f, n - 1);
            self.lemma_live_prefix_step(n - 1);
            self.map_values(f).lemma_live_prefix_step(n - 1);
        }
    }

    /// `add` of a value seen through `f` is `add` seen through `f`.
    pub proof fn lemma_map_add<U>(self, f: spec_fn(T) -> U, value: T)
        requires
            self.wf(),
        ensures
            self.add(value).map_values(f) == self.map_values(f).add(f(value)),
    {
        assert(self.add(value).map_values(f).slots =~= self.map_values(f).add(f(value)).slots);
    }

    /// A vacated slot seen through `f` is vacated.
    pub proof fn lemma_map_vacate<U>(self, f: spec_fn(T) -> U, slot: usize, generation: u32)
        requires
            slot < self.slots.len(),
        ensures
            self.vacate(slot, generation).map_values(f) == self.map_values(f).vacate(
                slot,
                generation,
            ),
    {
        assert(self.vacate(slot, generation).map_values(f).slots =~= self.map_values(f).vacate(
            slot,
            generation,
        ).slots);
    }

    /// A value written back and seen through `f` is the value seen through `f`, written back.
    pub proof fn lemma_map_restore<U>(self, f: spec_fn(T) -> U, index: Index, value: T)
        requires
            index.index < self.slots.len(),
        ensures
            self.restore(index, value).map_values(f) == self.map_values(f).restore(index, f(value)),
    {
        assert(self.restore(index, value).map_values(f).slots =~= self.map_values(f).restore(
            index,
            f(value),
        ).slots);
    }

    /// A value replaced and seen through `f` is replaced by the value seen through `f`.
    pub proof fn lemma_map_set_value<U>(self, f: spec_fn(T) -> U, index: Index, value: T)
        requires
            index.index < self.slots.len(),
        ensures
            self.set_value(index, value).map_values(f) == self.map_values(f).set_value(
                index,
                f(value),
            ),
    {
        assert(self.set_value(index, value).map_values(f).slots =~= self.map_values(f).set_value(
            index,
            f(value),
        ).slots);
    }
}

impl<T> GenVecView<T> {
    /// The number of slots that a table needs to hold `entries`: one more
    /// than the highest slot that an entry names.
    pub open spec fn slots_for(entries: Seq<(Index, T)>) -> nat
        decreases entries.len(),
    {
        if entries.len() == 0 {
            0
        } else if entries.last().0.index + 1 > Self::slots_for(entries.drop_last()) {
            (entries.last().0.index + 1) as nat
        } else {
            Self::slots_for(entries.drop_last())
        }
    }

    /// What a slot holds once `entries` are loaded: the last entry that
    /// names the slot, at the generation of its handle; a slot that no
    /// entry names is open at generation 0.
    pub open spec fn loaded(entries: Seq<(Index, T)>, slot: int) -> SlotView<T>
        decreases entries.len(),
    {
        if entries.len() == 0 {
            SlotView { generation: 0, value: None }
        } else if entries.last().0.index == slot {
            SlotView { generation: entries.last().0.generation, value: Some(entries.last().1) }
        } else {
            Self::loaded(entries.drop_last(), slot)
        }
    }

    /// The open slots, the highest first.
    pub open spec fn open_descending(slots: Seq<SlotView<T>>) -> Seq<usize>
        decreases slots.len(),
    {
        if slots.len() == 0 {
            Seq::empty()
        } else if slots.last().value.is_none() {
            seq![(slots.len() - 1) as usize] + Self::open_descending(slots.drop_last())
        } else {
            Self::open_descending(slots.drop_last())
        }
    }

    /// The table that holds `entries`, each under its handle. The slots
    /// that no entry names are open, and the free list runs through them
    /// from the highest down.
    pub open spec fn from_entries(entries: Seq<(Index, T)>) -> Self {
        GenVecView {
            slots: Seq::new(Self::slots_for(entries), |s: int| Self::loaded(entries, s)),
            free: Self::open_descending(
                Seq::new(Self::slots_for(entries), |s: int| Self::loaded(entries, s)),
            ),
        }
    }

    /// No entry names a slot beyond those that the table needs.
    pub proof fn lemma_loaded_beyond(entries: Seq<(Index, T)>, slot: int)
        requires
            slot >= Self::slots_for(entries),
        ensures
            Self::loaded(entries, slot) == (SlotView::<T> { generation: 0, value: None }),
        decreases entries.len(),
    {
        if entries.len() > 0 {
            Self::lemma_loaded_beyond(entries.drop_last(), slot);
        }
    }

    /// The listing of the open slots names each open slot, and goes down.
    pub proof fn lemma_open_descending(slots: Seq<SlotView<T>>)
        requires
            slots.len() <= usize::MAX,
        ensures
            forall|k: int|
                0 <= k < Self::open_descending(slots).len() ==> (#[trigger] Self::open_descending(
                    slots,
                )[k]) < slots.len() && slots[Self::open_descending(slots)[k] as int].value.is_none(),
            forall|j: int, k: int|
                0 <= j < k < Self::open_descending(slots).len() ==> Self::open_descending(slots)[j]
                    > Self::open_descending(slots)[k],
            forall|s: usize|
                s < slots.len() && (#[trigger] slots[s as int]).value.is_none()
                    ==> Self::open_descending(slots).contains(s),
        decreases slots.len(),
    {
        if slots.len() > 0 {
            let front = slots.drop_last();
            Self::lemma_open_descending(front);
            let before = Self::open_descending(front);
            let now = Self::open_descending(slots);
            let top = (slots.len() - 1) as usize;
            assert forall|s: usize|
                s < slots.len() && (#[trigger] slots[s as int]).value.is_none() implies now.contains(
                s,
            ) by {
                if s == top {
                    assert(now[0] == s);
                } else {
                    assert(front[s as int].value.is_none());
                    let k = choose|k: int| 0 <= k < before.len() && before[k] == s;
                    if slots.last().value.is_none() {
                        assert(now[k + 1] == s);
                    } else {
                        assert(now[k] == s);
                    }
                }
            }
            assert forall|k: int| 0 <= k < now.len() implies (#[trigger] now[k]) < slots.len()
                && slots[now[k] as int].value.is_none() by {
                if slots.last().value.is_none() {
                    if k > 0 {
                        assert(now[k] == before[k - 1]);
                        assert(front[before[k - 1] as int].value.is_none());
                    }
                } else {
                    assert(front[before[k] as int].value.is_none());
                }
            }
            assert forall|j: int, k: int| 0 <= j < k < now.len() implies now[j] > now[k] by {
                if slots.last().value.is_none() {
                    assert(now[k] == before[k - 1]);
                    if j > 0 {
                        assert(now[j] == before[j - 1]);
                    }
                }
            }
        }
    }

    /// A table loaded from entries has a sound free list.
    pub proof fn lemma_from_entries_wf(entries: Seq<(Index, T)>)
        requires
            Self::slots_for(entries) <= usize::MAX,
        ensures
            Self::from_entries(entries).wf(),
    {
        Self::lemma_open_descending(Self::from_entries(entries).slots);
    }
}

/// Seeing the values through `f` changes nothing about the soundness of
/// the free list.
pub broadcast proof fn lemma_mapped_wf<T, U>(table: GenVecView<T>, f: spec_fn(T) -> U)
    ensures
        #[trigger] table.map_values(f).wf() == table.wf(),
{
    table.lemma_map_values(f);
}

/// The table itself.
#[derive(Debug, Clone)]
pub struct GenVec<T> {
    vec: Vec<Element<T>>,
    next_open_slot: Option<usize>,
}

impl<T> View for GenVec<T> {
    type V = GenVecView<T>;

    closed spec fn view(&self) -> GenVecView<T> {
        GenVecView {
            slots: Seq::new(self.vec@.len(), |i: int| self.vec@[i].slot()),
            free: self.free_list(),
        }
    }
}

/// Place `k` of the chain `free` names an open slot, and the link of that
/// slot leads to the slot at place `k + 1`, or nowhere from the last place.
spec fn link_at<T>(elements: Seq<Element<T>>, free: Seq<usize>, k: int) -> bool {
    &&& free[k] < elements.len()
    &&& elements[free[k] as int] is Open
    &&& elements[free[k] as int].spec_next_open() == (if k + 1 < free.len() {
        Some(free[k + 1])
    } else {
        None
    })
}

impl<T> GenVec<T> {
    /// `free` is the chain that the links spell out from the head, and it
    /// covers every open slot.
    closed spec fn chain_is(&self, free: Seq<usize>) -> bool {
        &&& forall|k: int| 0 <= k < free.len() ==> #[trigger] link_at(self.vec@, free, k)
        &&& forall|j: int, k: int| 0 <= j < k < free.len() ==> free[j] != free[k]
        &&& forall|s: usize|
            s < self.vec@.len() && (#[trigger] self.vec@[s as int]) is Open ==> free.contains(s)
        &&& self.next_open_slot == (if free.len() > 0 {
            Some(free[0])
        } else {
            None
        })
    }

    /// The open slots in the order in which `add` will reuse them.
    pub closed spec fn free_list(&self) -> Seq<usize> {
        choose|free: Seq<usize>| self.chain_is(free)
    }

    /// The links of the open slots form one chain from the head, through
    /// every open slot, without a cycle.
    pub closed spec fn linked(&self) -> bool {
        self.chain_is(self.free_list())
    }

    /// The invariant of the table: the open slots are linked into the free
    /// list, and the free list is sound.
    pub open spec fn wf(&self) -> bool {
        self.linked() && self@.wf()
    }

    /// Two chains that fit the links agree place by place.
    proof fn lemma_chain_agree(&self, f1: Seq<usize>, f2: Seq<usize>, k: int)
        requires
            self.chain_is(f1),
            self.chain_is(f2),
            0 <= k < f1.len(),
            k < f2.len(),
        ensures
            f1[k] == f2[k],
        decreases k,
    {
        if k > 0 {
            self.lemma_chain_agree(f1, f2, k - 1);
            assert(link_at(self.vec@, f1, k - 1));
            assert(link_at(self.vec@, f2, k - 1));
        }
    }

    /// Of two chains that fit the links, neither is longer than the other.
    proof fn lemma_chain_length(&self, f1: Seq<usize>, f2: Seq<usize>)
        requires
            self.chain_is(f1),
            self.chain_is(f2),
        ensures
            f1.len() <= f2.len(),
    {
        if f1.len() > f2.len() {
            if f2.len() > 0 {
                let k = f2.len() - 1;
                self.lemma_chain_agree(f1, f2, k);
                assert(link_at(self.vec@, f1, k));
                assert(link_at(self.vec@, f2, k));
            }
        }
    }

    /// One chain only fits the links.
    proof fn lemma_chain_unique(&self, f1: Seq<usize>, f2: Seq<usize>)
        requires
            self.chain_is(f1),
            self.chain_is(f2),
        ensures
            f1 == f2,
    {
        self.lemma_chain_length(f1, f2);
        self.lemma_chain_length(f2, f1);
        assert forall|k: int| 0 <= k < f1.len() implies f1[k] == f2[k] by {
            self.lemma_chain_agree(f1, f2, k);
        }
        assert(f1 =~= f2);
    }

    /// A chain that fits the links is the free list.
    proof fn lemma_chain_found(&self, free: Seq<usize>)
        requires
            self.chain_is(free),
        ensures
            self.wf(),
            self.free_list() == free,
            self@.free == free,
    {
        self.lemma_chain_unique(free, self.free_list());
        assert(self.vec@.len() == self.vec.len());
        assert forall|k: int| 0 <= k < free.len() implies (#[trigger] free[k]) < self@.slots.len()
            && self@.slots[free[k] as int].value.is_none() by {
            assert(link_at(self.vec@, free, k));
        }
        assert forall|s: usize|
            s < self@.slots.len() && (#[trigger] self@.slots[s as int]).value.is_none() implies free.contains(
            s,
        ) by {
            assert(self.vec@[s as int] is Open);
        }
    }

    /// The table has no more slots than fit a `usize`.
    pub proof fn lemma_slots_fit(&self)
        ensures
            self@.slots.len() <= usize::MAX,
    {
        assert(self.vec@.len() == self.vec.len());
    }

    /// An empty table.
    pub fn new() -> (r: GenVec<T>)
        ensures
            r.wf(),
            r@ == GenVecView::<T>::empty(),
    {
        let r = GenVec { vec: Vec::new(), next_open_slot: None };
        proof {
            r.lemma_chain_found(Seq::empty());
            assert(r@.slots =~= Seq::empty());
        }
        r
    }

    /// Stores `value` in the slot at the head of the free list, or in a new
    /// slot when no slot is open, and returns its handle.
    pub fn add(&mut self, value: T) -> (r: Index)
        requires
            old(self).wf(),
        ensures
            final(self).wf(),
            final(self)@ == old(self)@.add(value),
            r == old(self)@.next_index(),
            final(self)@.contains(r),
            old(self)@.has_room(),
    {
        let ghost free = self.free_list();
        match self.next_open_slot {
            Some(slot) => {
                assert(slot == free[0]);
                assert(link_at(self.vec@, free, 0));
                let generation = self.vec[slot].generation();
                let next = self.vec[slot].next_open();
                self.vec[slot] = Element::Occupied { value, generation };
                self.next_open_slot = next;
                proof {
                    let rest = free.drop_first();
                    assert forall|k: int| 0 <= k < rest.len() implies #[trigger] link_at(
                        self.vec@,
                        rest,
                        k,
                    ) by {
                        assert(link_at(old(self).vec@, free, k + 1));
                        assert(rest[k] == free[k + 1]);
                        assert(free[0] != free[k + 1]);
                        if k + 1 < rest.len() {
                            assert(rest[k + 1] == free[k + 2]);
                        }
                    }
                    assert forall|j: int, k: int| 0 <= j < k < rest.len() implies rest[j]
                        != rest[k] by {
                        assert(free[j + 1] != free[k + 1]);
                    }
                    if rest.len() > 0 {
                        assert(rest[0] == free[1]);
                    }
                    assert forall|s: usize|
                        s < self.vec@.len() && (#[trigger] self.vec@[s as int]) is Open implies rest.contains(
                        s,
                    ) by {
                        assert(old(self).vec@[s as int] is Open);
                        let k = choose|k: int| 0 <= k < free.len() && free[k] == s;
                        assert(rest[k - 1] == s);
                    }
                    self.lemma_chain_found(rest);
                    assert(self@.slots =~= old(self)@.add(value).slots);
                }
                Index { index: slot, generation }
            },
            None => {
                assert(free.len() == 0);
                self.vec.push(Element::Occupied { value, generation: 0 });
                proof {
                    assert forall|s: usize|
                        s < self.vec@.len() && (#[trigger] self.vec@[s as int]) is Open implies free.contains(
                        s,
                    ) by {
                        assert(old(self).vec@[s as int] is Open);
                    }
                    self.lemma_chain_found(free);
                    assert(self@.slots =~= old(self)@.add(value).slots);
                }
                Index { index: self.vec.len() - 1, generation: 0 }
            },
        }
    }

    /// The value behind the handle, if the handle resolves.
    pub fn get(&self, index: Index) -> (r: Option<&T>)
        ensures
            r.is_some() == self@.contains(index),
            r.is_some() ==> *r.unwrap() == self@.value(index),
    {
        if index.index >= self.vec.len() {
            return None;
        }
        match &self.vec[index.index] {
            Element::Occupied { value, generation } => {
                if *generation == index.generation {
                    Some(value)
                } else {
                    None
                }
            },
            Element::Open { .. } => None,
        }
    }

    /// Vacates the slot of a handle that resolves, at the given generation,
    /// and makes it the head of the free list.
    fn vacate(&mut self, index: Index, generation: u32) -> (r: Option<T>)
        requires
            old(self).wf(),
        ensures
            final(self).wf(),
            r == old(self)@.get(index),
            old(self)@.contains(index) ==> final(self)@ == old(self)@.vacate(
                index.index,
                generation,
            ),
            !old(self)@.contains(index) ==> final(self)@ == old(self)@,
    {
        if self.get(index).is_none() {
            return None;
        }
        let ghost free = self.free_list();
        let mut removed = Element::Open { generation, next: self.next_open_slot };
        std::mem::swap(&mut self.vec[index.index], &mut removed);
        self.next_open_slot = Some(index.index);
        proof {
            let slot = index.index;
            let grown = seq![slot] + free;
            assert(!free.contains(slot)) by {
                if free.contains(slot) {
                    let k = choose|k: int| 0 <= k < free.len() && free[k] == slot;
                    assert(link_at(old(self).vec@, free, k));
                }
            }
            assert forall|k: int| 0 <= k < grown.len() implies #[trigger] link_at(
                self.vec@,
                grown,
                k,
            ) by {
                if k > 0 {
                    assert(link_at(old(self).vec@, free, k - 1));
                    assert(grown[k] == free[k - 1]);
                    assert(free.contains(free[k - 1]));
                    if k + 1 < grown.len() {
                        assert(grown[k + 1] == free[k]);
                    }
                } else {
                    if grown.len() > 1 {
                        assert(grown[1] == free[0]);
                    }
                }
            }
            assert forall|j: int, k: int| 0 <= j < k < grown.len() implies grown[j] != grown[k] by {
                assert(grown[k] == free[k - 1]);
                assert(free.contains(free[k - 1]));
                if j > 0 {
                    assert(grown[j] == free[j - 1]);
                }
            }
            assert forall|s: usize|
                s < self.vec@.len() && (#[trigger] self.vec@[s as int]) is Open implies grown.contains(
                s,
            ) by {
                if s == slot {
                    assert(grown[0] == s);
                } else {
                    assert(old(self).vec@[s as int] is Open);
                    let k = choose|k: int| 0 <= k < free.len() && free[k] == s;
                    assert(grown[k + 1] == s);
                }
            }
            self.lemma_chain_found(grown);
            assert(self@.slots =~= old(self)@.vacate(slot, generation).slots);
        }
        removed.as_occupied()
    }

    /// Removes the entry behind the handle, if the handle resolves. The slot
    /// moves on to the next generation, so the handle never resolves again.
    pub fn remove(&mut self, index: Index) -> (r: Option<T>)
        requires
            old(self).wf(),
            old(self)@.contains(index) ==> index.generation < u32::MAX,
        ensures
            final(self).wf(),
            r == old(self)@.get(index),
            final(self)@ == old(self)@.remove(index),
            !final(self)@.contains(index),
    {
        if index.generation == u32::MAX {
            return None;
        }
        self.vacate(index, index.generation + 1)
    }
}

impl<T> GenVec<T> {
    /// Replacing the value of a live entry leaves the free list alone.
    proof fn lemma_value_changed(&self, after: Self, index: Index, value: T)
        requires
            self.wf(),
            self@.contains(index),
            after.next_open_slot == self.next_open_slot,
            after.vec@ == self.vec@.update(
                index.index as int,
                Element::Occupied { value, generation: index.generation },
            ),
        ensures
            after.wf(),
            after@ == self@.set_value(index, value),
    {
        let free = self.free_list();
        assert forall|k: int| 0 <= k < free.len() implies #[trigger] link_at(
            after.vec@,
            free,
            k,
        ) by {
            assert(link_at(self.vec@, free, k));
        }
        assert forall|s: usize|
            s < after.vec@.len() && (#[trigger] after.vec@[s as int]) is Open implies free.contains(
            s,
        ) by {
            assert(self.vec@[s as int] is Open);
        }
        after.lemma_chain_found(free);
        assert(after@.slots =~= self@.set_value(index, value).slots);
    }

    /// Mutable access to the value behind the handle, if the handle resolves.
    pub fn get_mut(&mut self, index: Index) -> (r: Option<&mut T>)
        requires
            old(self).wf(),
        ensures
            final(self).wf(),
            r.is_some() == old(self)@.contains(index),
            match r {
                Some(v) => *v == old(self)@.value(index) && final(self)@ == old(self)@.set_value(
                    index,
                    *final(v),
                ),
                None => final(self)@ == old(self)@,
            },
    {
        if self.get(index).is_none() {
            return None;
        }
        let ghost after = *final(self);
        match &mut self.vec[index.index] {
            Element::Occupied { value, generation } => {
                if *generation == index.generation {
                    proof {
                        old(self).lemma_value_changed(after, index, *final(value));
                    }
                    Some(value)
                } else {
                    None
                }
            },
            Element::Open { .. } => None,
        }
    }
}

impl<T> GenVec<T> {
    /// Removes the entry behind the handle, if the handle resolves, and
    /// leaves the slot open at the generation of the handle.
    pub(crate) fn remove_but_maintain_generation(&mut self, index: Index) -> (r: Option<T>)
        requires
            old(self).wf(),
        ensures
            final(self).wf(),
            r == old(self)@.get(index),
            final(self)@ == old(self)@.remove_keeping_generation(index),
    {
        self.vacate(index, index.generation)
    }

    /// Whether the slot is open at the generation that follows the handle's.
    pub(crate) fn is_replaceable_by_index_rollback(&self, index: Index) -> (r: bool)
        ensures
            r == self@.is_open_at(index.index as int, index.generation + 1),
    {
        if index.index >= self.vec.len() || index.generation == u32::MAX {
            return false;
        }
        match &self.vec[index.index] {
            Element::Open { generation, .. } => *generation == index.generation + 1,
            Element::Occupied { .. } => false,
        }
    }

    /// Whether the slot is open at the generation of the handle.
    pub(crate) fn is_replaceable_by_index_apply(&self, index: Index) -> (r: bool)
        ensures
            r == self@.is_open_at(index.index as int, index.generation as int),
    {
        if index.index >= self.vec.len() {
            return false;
        }
        match &self.vec[index.index] {
            Element::Open { generation, .. } => *generation == index.generation,
            Element::Occupied { .. } => false,
        }
    }

    /// Whether the link of the slot `from` leads to the slot `to`.
    fn links_to(&self, from: usize, to: usize) -> (r: bool)
        requires
            from < self.vec@.len(),
        ensures
            r == (self.vec@[from as int].spec_next_open() == Some(to)),
    {
        match self.vec[from].next_open() {
            Some(n) => n == to,
            None => false,
        }
    }

    /// The slot before `slot` in the free list, if `slot` is not its head.
    fn previous_open(&self, slot: usize) -> (r: Option<usize>)
        requires
            self.wf(),
            self@.is_open(slot),
        ensures
            self.free_list().contains(slot),
            match r {
                None => self.free_list().index_of(slot) == 0,
                Some(p) => self.free_list().index_of(slot) > 0 && p == self.free_list()[self.free_list().index_of(
                    slot,
                ) - 1],
            },
    {
        let ghost free = self.free_list();
        let ghost pos = free.index_of(slot);
        proof {
            assert(self.vec@[slot as int] is Open);
            assert(free.contains(slot));
        }
        let mut cur: usize = slot;
        if let Some(head) = self.next_open_slot {
            cur = head;
        }
        if cur == slot {
            proof {
                if pos != 0 {
                    assert(free[0] != free[pos]);
                }
            }
            return None;
        }
        let ghost mut k: int = 0;
        proof {
            assert(link_at(self.vec@, free, 0));
        }
        while !self.links_to(cur, slot)
            invariant
                self.chain_is(free),
                0 <= k < pos < free.len(),
                cur == free[k],
                cur < self.vec@.len(),
                free[pos] == slot,
            decreases pos - k,
        {
            proof {
                assert(link_at(self.vec@, free, k));
                assert(link_at(self.vec@, free, k + 1));
            }
            if let Some(n) = self.vec[cur].next_open() {
                cur = n;
            }
            proof {
                k = k + 1;
            }
        }
        proof {
            assert(link_at(self.vec@, free, k));
            if k + 1 < pos {
                assert(free[k + 1] != free[pos]);
            }
            if k + 1 > pos {
                assert(free[pos] != free[k + 1]);
            }
        }
        Some(cur)
    }

    /// How the table stands once the open slot of `index` has been taken
    /// out of the chain, its link handed to the slot before it or to the
    /// head, and `value` written into it.
    closed spec fn taken_out(&self, after: Self, index: Index, value: T) -> bool {
        let pos = self.free_list().index_of(index.index);
        &&& after.vec@.len() == self.vec@.len()
        &&& after.vec@[index.index as int] == (Element::Occupied {
            value,
            generation: index.generation,
        })
        &&& pos == 0 ==> after.next_open_slot == self.vec@[index.index as int].spec_next_open()
        &&& pos != 0 ==> after.next_open_slot == self.next_open_slot
        &&& forall|s: int|
            0 <= s < self.vec@.len() && s != index.index ==> (#[trigger] after.vec@[s]) == (if pos
                > 0 && s == self.free_list()[pos - 1] {
                Element::Open {
                    generation: self.vec@[s].spec_generation(),
                    next: self.vec@[index.index as int].spec_next_open(),
                }
            } else {
                self.vec@[s]
            })
    }

    /// A list without one of its places names no slot twice if the list
    /// did not.
    proof fn lemma_rest_distinct(free: Seq<usize>, pos: int)
        requires
            0 <= pos < free.len(),
            forall|j: int, k: int| 0 <= j < k < free.len() ==> free[j] != free[k],
        ensures
            forall|j: int, k: int|
                0 <= j < k < free.remove(pos).len() ==> free.remove(pos)[j] != free.remove(pos)[k],
            forall|k: int| 0 <= k < free.remove(pos).len() ==> free.remove(pos)[k] != free[pos],
    {
        let rest = free.remove(pos);
        assert forall|j: int, k: int| 0 <= j < k < rest.len() implies rest[j] != rest[k] by {
            let jj = if j < pos {
                j
            } else {
                j + 1
            };
            let kk = if k < pos {
                k
            } else {
                k + 1
            };
            assert(free[jj] != free[kk]);
        }
        assert forall|k: int| 0 <= k < rest.len() implies rest[k] != free[pos] by {
            if k < pos {
                assert(free[k] != free[pos]);
            } else {
                assert(free[pos] != free[k + 1]);
            }
        }
    }

    /// The links of the other open slots form the chain without the slot
    /// that was taken out.
    proof fn lemma_rest_linked(&self, after: Self, index: Index, value: T, k: int)
        requires
            self.linked(),
            self.free_list().contains(index.index),
            self.taken_out(after, index, value),
            0 <= k < self.free_list().len() - 1,
        ensures
            link_at(
                after.vec@,
                self.free_list().remove(self.free_list().index_of(index.index)),
                k,
            ),
    {
        let free = self.free_list();
        let pos = free.index_of(index.index);
        let rest = free.remove(pos);
        Self::lemma_rest_distinct(free, pos);
        let kk = if k < pos {
            k
        } else {
            k + 1
        };
        assert(rest[k] == free[kk]);
        assert(free[kk] != free[pos]);
        assert(link_at(self.vec@, free, kk));
        assert(link_at(self.vec@, free, pos));
        if pos > 0 && kk != pos - 1 {
            if kk < pos - 1 {
                assert(free[kk] != free[pos - 1]);
            } else {
                assert(free[pos - 1] != free[kk]);
            }
        }
        if k + 1 < rest.len() {
            assert(rest[k + 1] == free[kk + 1 + (if kk + 1 == pos {
                1int
            } else {
                0int
            })]);
        }
    }

    /// Every slot that is open once one has been taken out is in the rest
    /// of the chain.
    proof fn lemma_rest_complete(&self, after: Self, index: Index, value: T, s: usize)
        requires
            self.linked(),
            self.free_list().contains(index.index),
            self.taken_out(after, index, value),
            s < after.vec@.len(),
            after.vec@[s as int] is Open,
        ensures
            self.free_list().remove(self.free_list().index_of(index.index)).contains(s),
    {
        let free = self.free_list();
        let pos = free.index_of(index.index);
        let rest = free.remove(pos);
        assert(s != index.index);
        assert(after.vec@[s as int] == (if pos > 0 && s == free[pos - 1] {
            Element::Open {
                generation: self.vec@[s as int].spec_generation(),
                next: self.vec@[index.index as int].spec_next_open(),
            }
        } else {
            self.vec@[s as int]
        }));
        if pos > 0 && s == free[pos - 1] {
            assert(link_at(self.vec@, free, pos - 1));
        }
        assert(self.vec@[s as int] is Open);
        let k = choose|k: int| 0 <= k < free.len() && free[k] == s;
        if k < pos {
            assert(rest[k] == s);
        } else {
            assert(rest[k - 1] == s);
        }
    }

    /// The head of the table, once a slot has been taken out, is the head
    /// of the rest of the chain.
    proof fn lemma_rest_head(&self, after: Self, index: Index, value: T)
        requires
            self.linked(),
            self.free_list().contains(index.index),
            self.taken_out(after, index, value),
        ensures
            ({
                let rest = self.free_list().remove(self.free_list().index_of(index.index));
                after.next_open_slot == (if rest.len() > 0 {
                    Some(rest[0])
                } else {
                    None
                })
            }),
    {
        let free = self.free_list();
        let pos = free.index_of(index.index);
        let rest = free.remove(pos);
        assert(link_at(self.vec@, free, pos));
        if rest.len() > 0 {
            if pos == 0 {
                assert(rest[0] == free[1]);
            } else {
                assert(rest[0] == free[0]);
            }
        }
    }

    /// Taking an open slot out of the chain and writing a value into it
    /// leaves the chain of the other open slots.
    proof fn lemma_taken_out(&self, after: Self, index: Index, value: T)
        requires
            self.wf(),
            self@.is_open(index.index),
            self.taken_out(after, index, value),
        ensures
            after.wf(),
            after@ == self@.restore(index, value),
    {
        let free = self.free_list();
        assert(self.vec@[index.index as int] is Open);
        assert(free.contains(index.index));
        let pos = free.index_of(index.index);
        let rest = free.remove(pos);
        Self::lemma_rest_distinct(free, pos);
        self.lemma_rest_head(after, index, value);
        assert forall|k: int| 0 <= k < rest.len() implies #[trigger] link_at(
            after.vec@,
            rest,
            k,
        ) by {
            self.lemma_rest_linked(after, index, value, k);
        }
        assert forall|s: usize|
            s < after.vec@.len() && (#[trigger] after.vec@[s as int]) is Open implies rest.contains(
            s,
        ) by {
            self.lemma_rest_complete(after, index, value, s);
        }
        assert(after.chain_is(rest));
        after.lemma_chain_found(rest);
        assert(after@.slots =~= self@.restore(index, value).slots);
    }

    /// Writes `value` into the open slot of `index`, at the generation of
    /// `index`, and takes the slot out of the free list wherever it stands.
    pub(crate) fn restore(&mut self, index: Index, value: T)
        requires
            old(self).wf(),
            old(self)@.is_open(index.index),
        ensures
            final(self).wf(),
            final(self)@ == old(self)@.restore(index, value),
            final(self)@.contains(index),
    {
        let slot = index.index;
        let next = self.vec[slot].next_open();
        match self.previous_open(slot) {
            None => {
                self.next_open_slot = next;
            },
            Some(previous) => {
                let generation = self.vec[previous].generation();
                self.vec[previous] = Element::Open { generation, next };
            },
        }
        self.vec[slot] = Element::Occupied { value, generation: index.generation };
        proof {
            old(self).lemma_taken_out(*self, index, value);
        }
    }

    /// Drops every entry and every slot.
    pub fn clear(&mut self)
        ensures
            final(self).wf(),
            final(self)@ == GenVecView::<T>::empty(),
    {
        self.vec.clear();
        self.next_open_slot = None;
        proof {
            self.lemma_chain_found(Seq::empty());
            assert(self@.slots =~= Seq::empty());
        }
    }

    /// The handles that resolve, in slot order.
    pub fn indexes(&self) -> (r: Vec<Index>)
        ensures
            r@ == self@.live_indexes(),
    {
        let mut out: Vec<Index> = Vec::new();
        let mut i: usize = 0;
        proof {
            self@.lemma_live_prefix_empty();
        }
        while i < self.vec.len()
            invariant
                i <= self.vec@.len(),
                out@ == self@.live_prefix(i as int),
            decreases self.vec@.len() - i,
        {
            proof {
                self@.lemma_live_prefix_step(i as int);
            }
            match &self.vec[i] {
                Element::Occupied { generation, .. } => {
                    out.push(Index { index: i, generation: *generation });
                },
                Element::Open { .. } => {},
            }
            i += 1;
        }
        out
    }

    /// The number of live entries.
    pub fn len(&self) -> (r: usize)
        ensures
            r == self@.live_indexes().len(),
    {
        let mut count: usize = 0;
        let mut i: usize = 0;
        proof {
            self@.lemma_live_prefix_empty();
        }
        while i < self.vec.len()
            invariant
                i <= self.vec@.len(),
                count == self@.live_prefix(i as int).len(),
                count <= i,
            decreases self.vec@.len() - i,
        {
            proof {
                self@.lemma_live_prefix_step(i as int);
            }
            match &self.vec[i] {
                Element::Occupied { .. } => {
                    count += 1;
                },
                Element::Open { .. } => {},
            }
            i += 1;
        }
        count
    }

    /// Whether no entry is live.
    pub fn is_empty(&self) -> (r: bool)
        ensures
            r == (self@.live_indexes().len() == 0),
            r == (forall|h: Index| !self@.contains(h)),
    {
        let mut i: usize = 0;
        proof {
            self@.lemma_live_prefix_empty();
        }
        while i < self.vec.len()
            invariant
                i <= self.vec@.len(),
                self@.live_prefix(i as int).len() == 0,
                forall|s: int| 0 <= s < i ==> self.vec@[s] is Open,
            decreases self.vec@.len() - i,
        {
            proof {
                self@.lemma_live_prefix_step(i as int);
            }
            match &self.vec[i] {
                Element::Occupied { .. } => {
                    proof {
                        self@.lemma_live_prefix(self@.slots.len() as int);
                        assert(self@.contains(self@.handle_at(i as int)));
                    }
                    return false;
                },
                Element::Open { .. } => {},
            }
            i += 1;
        }
        true
    }

    /// The live entries, in slot order.
    pub fn iter(&self) -> (r: Vec<(Index, &T)>)
        ensures
            r@.len() == self@.live_indexes().len(),
            forall|k: int|
                0 <= k < r@.len() ==> (#[trigger] r@[k]).0 == self@.live_indexes()[k] && *r@[k].1
                    == self@.value(r@[k].0),
    {
        let mut out: Vec<(Index, &T)> = Vec::new();
        let mut i: usize = 0;
        proof {
            self@.lemma_live_prefix_empty();
        }
        while i < self.vec.len()
            invariant
                i <= self.vec@.len(),
                out@.len() == self@.live_prefix(i as int).len(),
                forall|k: int|
                    0 <= k < out@.len() ==> (#[trigger] out@[k]).0 == self@.live_prefix(i as int)[k]
                        && *out@[k].1 == self@.value(out@[k].0),
            decreases self.vec@.len() - i,
        {
            proof {
                self@.lemma_live_prefix_step(i as int);
            }
            match &self.vec[i] {
                Element::Occupied { value, generation } => {
                    out.push((Index { index: i, generation: *generation }, value));
                },
                Element::Open { .. } => {},
            }
            i += 1;
        }
        out
    }
}

impl<T> GenVec<T> {
    /// The live entries, in slot order, taken out of the table.
    pub fn into_iter(self) -> (r: Vec<(Index, T)>)
        ensures
            r@.len() == self@.live_indexes().len(),
            forall|k: int|
                0 <= k < r@.len() ==> (#[trigger] r@[k]).0 == self@.live_indexes()[k] && r@[k].1
                    == self@.value(r@[k].0),
    {
        let mut out: Vec<(Index, T)> = Vec::new();
        let ghost view = self@;
        let ghost all = self.vec@;
        proof {
            view.lemma_live_prefix_empty();
            self.lemma_slots_fit();
            assert(view.slots.len() == all.len());
        }
        let mut i: usize = 0;
        for element in it: self.vec
            invariant
                it.seq() == all,
                i == it.index(),
                view.slots.len() == all.len(),
                all.len() <= usize::MAX,
                forall|s: int| 0 <= s < all.len() ==> view.slots[s] == (#[trigger] all[s]).slot(),
                out@.len() == view.live_prefix(i as int).len(),
                forall|k: int|
                    0 <= k < out@.len() ==> (#[trigger] out@[k]).0 == view.live_prefix(i as int)[k]
                        && out@[k].1 == view.value(out@[k].0),
        {
            proof {
                view.lemma_live_prefix_step(i as int);
                assert(view.slots[i as int] == all[i as int].slot());
            }
            match element {
                Element::Occupied { value, generation } => {
                    out.push((Index { index: i, generation }, value));
                },
                Element::Open { .. } => {},
            }
            i += 1;
        }
        out
    }
}

impl<T> GenVec<T> {
    /// Builds the table that holds `entries`, each under its handle; of two
    /// entries for one slot the later one stays. The slots in between that
    /// no entry names are open at generation 0.
    pub fn from_entries(entries: Vec<(Index, T)>) -> (r: GenVec<T>)
        requires
            forall|i: int| 0 <= i < entries@.len() ==> (#[trigger] entries@[i]).0.index < usize::MAX,
        ensures
            r.wf(),
            r@ == GenVecView::from_entries(entries@),
    {
        let mut vec: Vec<Element<T>> = Vec::new();
        let ghost all = entries@;
        proof {
            assert(all.take(0) =~= Seq::<(Index, T)>::empty());
        }
        for entry in it: entries
            invariant
                it.seq() == all,
                forall|i: int| 0 <= i < all.len() ==> (#[trigger] all[i]).0.index < usize::MAX,
                vec@.len() == GenVecView::slots_for(all.take(it.index() as int)),
                forall|s: int|
                    0 <= s < vec@.len() ==> (#[trigger] vec@[s]).slot() == GenVecView::loaded(
                        all.take(it.index() as int),
                        s,
                    ),
        {
            let (key, value) = entry;
            let ghost done = all.take(it.index() as int);
            let ghost next = all.take(it.index() + 1);
            proof {
                assert(next.drop_last() =~= done);
                assert(next.last() == all[it.index() as int]);
                assert(key == all[it.index() as int].0);
            }
            let ghost start = vec@.len();
            while vec.len() <= key.index
                invariant
                    key.index < usize::MAX,
                    start <= vec@.len(),
                    vec@.len() <= key.index + 1 || vec@.len() == start,
                    start == GenVecView::slots_for(done),
                    forall|s: int|
                        0 <= s < vec@.len() ==> (#[trigger] vec@[s]).slot() == GenVecView::loaded(
                            done,
                            s,
                        ),
                decreases key.index + 1 - vec@.len(),
            {
                proof {
                    GenVecView::lemma_loaded_beyond(done, vec@.len() as int);
                }
                vec.push(Element::Open { generation: 0, next: None });
            }
            vec[key.index] = Element::Occupied { value, generation: key.generation };
        }
        proof {
            assert(all.take(all.len() as int) =~= all);
        }
        let ghost slots = Seq::new(vec@.len(), |s: int| vec@[s].slot());
        proof {
            assert(slots =~= GenVecView::from_entries(all).slots);
            assert(slots.take(0) =~= Seq::<SlotView<T>>::empty());
        }
        let mut last_open: Option<usize> = None;
        let mut i: usize = 0;
        let ghost mut free: Seq<usize> = Seq::empty();
        while i < vec.len()
            invariant
                i <= vec@.len(),
                vec@.len() == slots.len(),
                forall|s: int| 0 <= s < vec@.len() ==> (#[trigger] vec@[s]).slot() == slots[s],
                free == GenVecView::open_descending(slots.take(i as int)),
                last_open == (if free.len() > 0 {
                    Some(free[0])
                } else {
                    None
                }),
                forall|k: int| 0 <= k < free.len() ==> #[trigger] link_at(vec@, free, k),
                forall|k: int| 0 <= k < free.len() ==> (#[trigger] free[k]) < i,
            decreases vec@.len() - i,
        {
            let ghost grown = GenVecView::open_descending(slots.take(i + 1));
            proof {
                assert(slots.take(i + 1).drop_last() =~= slots.take(i as int));
                assert(slots.take(i + 1).last() == slots[i as int]);
                assert(vec@[i as int].slot() == slots[i as int]);
            }
            let ghost before = vec@;
            let generation = vec[i].generation();
            let open = match &vec[i] {
                Element::Open { .. } => true,
                Element::Occupied { .. } => false,
            };
            if open {
                vec[i] = Element::Open { generation, next: last_open };
                last_open = Some(i);
                proof {
                    assert(grown =~= seq![i] + free);
                    assert forall|k: int| 0 <= k < grown.len() implies #[trigger] link_at(
                        vec@,
                        grown,
                        k,
                    ) by {
                        if k > 0 {
                            assert(link_at(before, free, k - 1));
                            assert(grown[k] == free[k - 1]);
                            assert(free[k - 1] < i);
                            if k + 1 < grown.len() {
                                assert(grown[k + 1] == free[k]);
                            }
                        } else {
                            if grown.len() > 1 {
                                assert(grown[1] == free[0]);
                            }
                        }
                    }
                    assert forall|k: int| 0 <= k < grown.len() implies (#[trigger] grown[k]) < i
                        + 1 by {
                        if k > 0 {
                            assert(grown[k] == free[k - 1]);
                        }
                    }
                }
            } else {
                proof {
                    assert(grown == free);
                }
            }
            proof {
                free = grown;
            }
            i += 1;
        }
        let r = GenVec { vec, next_open_slot: last_open };
        proof {
            assert(slots.take(slots.len() as int) =~= slots);
            assert(vec@.len() == vec.len());
            GenVecView::lemma_open_descending(slots);
            assert forall|s: usize|
                s < r.vec@.len() && (#[trigger] r.vec@[s as int]) is Open implies free.contains(
                s,
            ) by {
                assert(r.vec@[s as int].slot() == slots[s as int]);
            }
            r.lemma_chain_found(free);
            assert(r@.slots =~= slots);
        }
        r
    }
}

impl<T> GenVec<T> {
    /// New values for live entries leave the free list alone.
    proof fn lemma_values_changed(&self, after: Self)
        requires
            self.wf(),
            after.next_open_slot == self.next_open_slot,
            after.vec@.len() == self.vec@.len(),
            forall|s: int|
                0 <= s < self.vec@.len() ==> (#[trigger] after.vec@[s]).spec_generation()
                    == self.vec@[s].spec_generation() && after.vec@[s].spec_next_open()
                    == self.vec@[s].spec_next_open() && (after.vec@[s] is Open) == (
                self.vec@[s] is Open),
        ensures
            after.wf(),
            after@.free == self@.free,
            after@.slots.len() == self@.slots.len(),
            forall|s: int|
                0 <= s < self@.slots.len() ==> (#[trigger] after@.slots[s]).generation
                    == self@.slots[s].generation && after@.slots[s].value.is_some()
                    == self@.slots[s].value.is_some(),
            forall|s: int|
                0 <= s < self@.slots.len() ==> (#[trigger] after@.slots[s]).value
                    == after.vec@[s].spec_value(),
    {
        let free = self.free_list();
        assert forall|k: int| 0 <= k < free.len() implies #[trigger] link_at(
            after.vec@,
            free,
            k,
        ) by {
            assert(link_at(self.vec@, free, k));
        }
        assert forall|s: usize|
            s < after.vec@.len() && (#[trigger] after.vec@[s as int]) is Open implies free.contains(
            s,
        ) by {
            assert(self.vec@[s as int] is Open);
        }
        after.lemma_chain_found(free);
    }

    /// Mutable access to the live entries, in slot order. What is written
    /// through it changes the values and nothing else.
    pub fn iter_mut(&mut self) -> (r: Vec<(Index, &mut T)>)
        requires
            old(self).wf(),
        ensures
            final(self).wf(),
            final(self)@.free == old(self)@.free,
            final(self)@.slots.len() == old(self)@.slots.len(),
            forall|s: int|
                0 <= s < old(self)@.slots.len() ==> (#[trigger] final(self)@.slots[s]).generation
                    == old(self)@.slots[s].generation && final(self)@.slots[s].value.is_some()
                    == old(self)@.slots[s].value.is_some(),
            r@.len() == old(self)@.live_indexes().len(),
            forall|k: int|
                0 <= k < r@.len() ==> {
                    &&& (#[trigger] r@[k]).0 == old(self)@.live_indexes()[k]
                    &&& *r@[k].1 == old(self)@.value(r@[k].0)
                    &&& *final(r@[k].1) == final(self)@.value(r@[k].0)
                },
    {
        let mut out: Vec<(Index, &mut T)> = Vec::new();
        let ghost start = *old(self);
        let ghost view = old(self)@;
        let ghost all = old(self).vec@;
        let ghost fin = *final(self);
        proof {
            view.lemma_live_prefix_empty();
            start.lemma_slots_fit();
        }
        let mut rest: &mut [Element<T>] = self.vec.as_mut_slice();
        let mut i: usize = 0;
        proof {
            assert(rest@ =~= all.subrange(0, all.len() as int));
        }
        while rest.len() > 0
            invariant
                view == start@,
                all == start.vec@,
                all.len() <= usize::MAX,
                i <= all.len(),
                rest@ == all.subrange(i as int, all.len() as int),
                fin.vec@.len() == i + final(rest)@.len(),
                forall|j: int|
                    0 <= j < final(rest)@.len() ==> fin.vec@[i + j] == (#[trigger] final(rest)@[j]),
                forall|s: int|
                    0 <= s < i ==> (#[trigger] fin.vec@[s]).spec_generation()
                        == all[s].spec_generation() && fin.vec@[s].spec_next_open()
                        == all[s].spec_next_open() && (fin.vec@[s] is Open) == (all[s] is Open),
                out@.len() == view.live_prefix(i as int).len(),
                forall|k: int|
                    0 <= k < out@.len() ==> {
                        &&& (#[trigger] out@[k]).0 == view.live_prefix(i as int)[k]
                        &&& out@[k].0.index < i
                        &&& *out@[k].1 == view.value(out@[k].0)
                        &&& fin.vec@[out@[k].0.index as int].spec_value() == Some(
                            *final(out@[k].1),
                        )
                    },
            decreases rest@.len(),
        {
            proof {
                view.lemma_live_prefix_step(i as int);
                assert(view.slots[i as int] == all[i as int].slot());
                assert(rest@[0] == all[i as int]);
            }
            let ghost whole = final(rest)@;
            let (head, tail) = rest.split_at_mut(1);
            let ghost first = final(head)@;
            let ghost others = final(tail)@;
            proof {
                assert(whole == first + others);
                assert(tail@ =~= all.subrange(i + 1, all.len() as int));
                assert(head@ =~= seq![all[i as int]]);
            }
            match head.first_mut() {
                Some(Element::Occupied { value, generation }) => {
                    proof {
                        assert(first.len() == 1);
                        assert(whole[0] == first[0]);
                        assert(fin.vec@[i + 0] == whole[0]);
                    }
                    out.push((Index { index: i, generation: *generation }, value));
                },
                _ => {
                    proof {
                        assert(first.len() == 1);
                        assert(whole[0] == first[0]);
                        assert(fin.vec@[i + 0] == whole[0]);
                    }
                },
            }
            rest = tail;
            proof {
                assert forall|j: int| 0 <= j < others.len() implies fin.vec@[i + 1 + j] == (
                #[trigger] others[j]) by {
                    assert(whole[1 + j] == others[j]);
                    assert(fin.vec@[i + (1 + j)] == whole[1 + j]);
                }
            }
            i += 1;
        }
        proof {
            start.lemma_values_changed(fin);
        }
        out
    }
}

} // verus!
