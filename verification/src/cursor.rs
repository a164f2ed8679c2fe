use vstd::prelude::*;
use crate::slots::{
    bias_assignment, bias_blocks, descending_order, is_descending, lemma_bias_index,
    lemma_passes_end, lemma_round_robin_index, lemma_width, most_slots, occurrences,
    round_robin_assignment, round_robin_passes, slots_after, sort_descending, width,
    AvailableTaskSlots,
};

verus! {

/// Walks a slot snapshot in the order in which a placement policy hands its
/// slots out, and takes them one by one.
pub struct SlotCursor {
    round_robin: bool,
    order: Vec<usize>,
    idx: usize,
    pass: Ghost<int>,
    taken: Ghost<int>,
    initial: Ghost<Seq<AvailableTaskSlots>>,
}

impl SlotCursor {
    /// The snapshot that the cursor was made for.
    pub closed spec fn initial(&self) -> Seq<AvailableTaskSlots> {
        self.initial@
    }

    /// Whether the cursor places round-robin; else it places by bias.
    pub closed spec fn round_robin(&self) -> bool {
        self.round_robin
    }

    /// How many slots the cursor has taken.
    pub closed spec fn taken(&self) -> int {
        self.taken@
    }

    /// The entry that each slot taken comes from, in turn.
    pub open spec fn assignment(&self) -> Seq<int> {
        if self.round_robin() {
            round_robin_assignment(self.initial())
        } else {
            bias_assignment(self.initial())
        }
    }

    /// The slots that the entry at position `a` of the order had at the start.
    spec fn had(&self, a: int) -> int {
        self.initial@[self.order@[a] as int].slots as int
    }

    /// Bias: the entries before the cursor are empty, those behind it are
    /// untouched, and the slots taken are those of the entries before the
    /// cursor and those that the entry at the cursor has lost.
    spec fn bias_inv(&self, slots: Seq<AvailableTaskSlots>) -> bool {
        let m = self.order@.len() as int;
        &&& forall|a: int| 0 <= a < self.idx ==> slots[(#[trigger] self.order@[a]) as int].slots == 0
        &&& forall|a: int|
            self.idx < a < m ==> slots[(#[trigger] self.order@[a]) as int].slots == self.had(a)
        &&& self.idx < m ==> self.taken@ == bias_blocks(self.initial@, self.order@, self.idx as int).len()
            + self.had(self.idx as int) - slots[self.order@[self.idx as int] as int].slots
        &&& self.idx == m ==> self.taken@ == bias_blocks(self.initial@, self.order@, m).len()
    }

    /// Round-robin: every entry has lost one slot for each full pass in
    /// which it had one, and the entries before the cursor one more.
    spec fn round_robin_inv(&self, slots: Seq<AvailableTaskSlots>) -> bool {
        let m = self.order@.len() as int;
        &&& self.pass@ >= 0
        &&& self.taken@ == round_robin_passes(self.initial@, self.order@, self.pass@).len() + self.idx
        &&& self.idx <= width(self.initial@, self.order@, self.pass@, m)
        &&& forall|a: int|
            0 <= a < m ==> slots[(#[trigger] self.order@[a]) as int].slots == (if a < self.idx {
                self.had(a) - self.pass@ - 1
            } else if self.had(a) > self.pass@ {
                self.had(a) - self.pass@
            } else {
                0
            })
    }

    /// The cursor stands for `taken()` slots taken from its snapshot, and
    /// `slots` is what is left of the snapshot.
    pub closed spec fn inv(&self, slots: Seq<AvailableTaskSlots>) -> bool {
        &&& self.initial@.len() <= usize::MAX
        &&& self.order@ == descending_order(self.initial@, self.initial@.len() as int)
        &&& is_descending(self.initial@, self.order@)
        &&& slots.len() == self.initial@.len()
        &&& self.idx <= self.order@.len()
        &&& 0 <= self.taken@ <= self.assignment().len()
        &&& forall|e: int|
            0 <= e < slots.len() ==> (#[trigger] slots[e]).executor_id == self.initial@[e].executor_id
                && slots[e].slots + occurrences(self.assignment(), self.taken@, e) == self.initial@[e].slots
        &&& if self.round_robin {
            self.round_robin_inv(slots)
        } else {
            self.bias_inv(slots)
        }
    }

    /// What is left of the snapshot is the snapshot less the slots taken.
    pub proof fn lemma_slots(&self, slots: Seq<AvailableTaskSlots>)
        requires
            self.inv(slots),
        ensures
            slots == slots_after(self.initial(), self.assignment(), self.taken()),
            0 <= self.taken() <= self.assignment().len(),
            slots.len() == self.initial().len(),
            forall|e: int|
                0 <= e < slots.len() ==> (#[trigger] slots[e]).slots + occurrences(
                    self.assignment(),
                    self.taken(),
                    e,
                ) == self.initial()[e].slots,
    {
    }

    /// A cursor at the start of a snapshot.
    pub fn new(slots: &Vec<AvailableTaskSlots>, round_robin: bool) -> (cursor: SlotCursor)
        ensures
            cursor.inv(slots@),
            cursor.initial() == slots@,
            cursor.round_robin() == round_robin,
            cursor.taken() == 0,
    {
        let order = sort_descending(slots);
        assert(order@.len() <= usize::MAX) by {
            assert(order.len() <= usize::MAX);
        }
        let cursor = SlotCursor {
            round_robin,
            order,
            idx: 0,
            pass: Ghost(0),
            taken: Ghost(0),
            initial: Ghost(slots@),
        };
        cursor
    }

    /// Takes the next slot by bias: of the first entry of the order that has
    /// one left.
    fn take_bias(&mut self, slots: &mut Vec<AvailableTaskSlots>) -> (taken: Option<usize>)
        requires
            old(self).inv(old(slots)@),
            !old(self).round_robin(),
        ensures
            final(self).inv(final(slots)@),
            final(self).initial() == old(self).initial(),
            final(self).round_robin() == old(self).round_robin(),
            match taken {
                Some(e) => {
                    &&& old(self).taken() < old(self).assignment().len()
                    &&& e == old(self).assignment()[old(self).taken()]
                    &&& e < old(slots)@.len()
                    &&& old(slots)@[e as int].slots > 0
                    &&& final(self).taken() == old(self).taken() + 1
                    &&& final(slots)@ == old(slots)@.update(
                        e as int,
                        AvailableTaskSlots {
                            executor_id: old(slots)@[e as int].executor_id,
                            slots: (old(slots)@[e as int].slots - 1) as u32,
                        },
                    )
                },
                None => {
                    &&& old(self).taken() == old(self).assignment().len()
                    &&& final(self).taken() == old(self).taken()
                    &&& final(slots)@ == old(slots)@
                },
            },
    {
        while self.idx < self.order.len() && slots[self.order[self.idx]].slots == 0
            invariant
                self.inv(slots@),
                !self.round_robin,
                slots@ == old(slots)@,
                self.initial@ == old(self).initial@,
                self.taken@ == old(self).taken@,
            decreases self.order.len() - self.idx,
        {
            self.idx = self.idx + 1;
        }
        if self.idx >= self.order.len() {
            return None;
        }
        let e = self.order[self.idx];
        proof {
            lemma_bias_index(
                self.initial@,
                self.order@,
                self.idx as int,
                self.order@.len() as int,
                self.taken@,
            );
        }
        let entry = &mut slots[e];
        entry.slots = entry.slots - 1;
        self.taken = Ghost(self.taken@ + 1);
        Some(e)
    }

    /// Takes the next slot round-robin: of the entry at the cursor, or of the
    /// first entry where the pass is over.
    fn take_round_robin(&mut self, slots: &mut Vec<AvailableTaskSlots>) -> (taken: Option<usize>)
        requires
            old(self).inv(old(slots)@),
            old(self).round_robin(),
        ensures
            final(self).inv(final(slots)@),
            final(self).initial() == old(self).initial(),
            final(self).round_robin() == old(self).round_robin(),
            match taken {
                Some(e) => {
                    &&& old(self).taken() < old(self).assignment().len()
                    &&& e == old(self).assignment()[old(self).taken()]
                    &&& e < old(slots)@.len()
                    &&& old(slots)@[e as int].slots > 0
                    &&& final(self).taken() == old(self).taken() + 1
                    &&& final(slots)@ == old(slots)@.update(
                        e as int,
                        AvailableTaskSlots {
                            executor_id: old(slots)@[e as int].executor_id,
                            slots: (old(slots)@[e as int].slots - 1) as u32,
                        },
                    )
                },
                None => {
                    &&& old(self).taken() == old(self).assignment().len()
                    &&& final(self).taken() == old(self).taken()
                    &&& final(slots)@ == old(slots)@
                },
            },
    {
        let m = self.order.len();
        let ghost top = most_slots(self.initial@, self.order@);
        proof {
            lemma_width(self.initial@, self.order@, self.pass@, m as int);
        }
        if self.idx >= m || slots[self.order[self.idx]].slots == 0 {
            // the pass is over
            if m == 0 || slots[self.order[0]].slots == 0 {
                proof {
                    lemma_passes_end(self.initial@, self.order@, self.pass@ + 1);
                }
                return None;
            }
            proof {
                lemma_width(self.initial@, self.order@, self.pass@ + 1, m as int);
            }
            self.idx = 0;
            self.pass = Ghost(self.pass@ + 1);
        }
        let e = self.order[self.idx];
        proof {
            lemma_round_robin_index(self.initial@, self.order@, self.pass@, top, self.idx as int);
        }
        let entry = &mut slots[e];
        entry.slots = entry.slots - 1;
        self.taken = Ghost(self.taken@ + 1);
        self.idx = self.idx + 1;
        Some(e)
    }

    /// Takes the next slot of the policy's order out of `slots`, and says
    /// which entry it came from; `None` when no slot is left.
    pub fn take(&mut self, slots: &mut Vec<AvailableTaskSlots>) -> (taken: Option<usize>)
        requires
            old(self).inv(old(slots)@),
        ensures
            final(self).inv(final(slots)@),
            final(self).initial() == old(self).initial(),
            final(self).round_robin() == old(self).round_robin(),
            match taken {
                Some(e) => {
                    &&& old(self).taken() < old(self).assignment().len()
                    &&& e == old(self).assignment()[old(self).taken()]
                    &&& e < old(slots)@.len()
                    &&& old(slots)@[e as int].slots > 0
                    &&& final(self).taken() == old(self).taken() + 1
                    &&& final(slots)@ == old(slots)@.update(
                        e as int,
                        AvailableTaskSlots {
                            executor_id: old(slots)@[e as int].executor_id,
                            slots: (old(slots)@[e as int].slots - 1) as u32,
                        },
                    )
                },
                None => {
                    &&& old(self).taken() == old(self).assignment().len()
                    &&& final(self).taken() == old(self).taken()
                    &&& final(slots)@ == old(slots)@
                },
            },
    {
        if self.round_robin {
            self.take_round_robin(slots)
        } else {
            self.take_bias(slots)
        }
    }
}

} // verus!
