use vstd::prelude::*;

verus! {

/// The free task slots of one executor.
#[derive(Debug)]
pub struct AvailableTaskSlots {
    pub executor_id: String,
    pub slots: u32,
}

/// Slots to give back to an executor: its id, then how many.
pub type ExecutorSlot = (String, u32);

/// Where entry `e` goes into an order of earlier entries that is sorted by
/// falling slot count: behind every entry that has at least as many slots.
pub open spec fn insert_position(slots: Seq<AvailableTaskSlots>, order: Seq<usize>, e: int) -> int
    decreases order.len(),
{
    if order.len() == 0 {
        0
    } else if slots[order.last() as int].slots >= slots[e].slots {
        order.len() as int
    } else {
        insert_position(slots, order.drop_last(), e)
    }
}

/// The first `n` entries of a snapshot, ordered by falling slot count; entries
/// with equal counts keep the order of the snapshot.
pub open spec fn descending_order(slots: Seq<AvailableTaskSlots>, n: int) -> Seq<usize>
    decreases n,
{
    if n <= 0 {
        Seq::empty()
    } else {
        let earlier = descending_order(slots, n - 1);
        earlier.insert(insert_position(slots, earlier, n - 1), (n - 1) as usize)
    }
}

/// `order` lists every entry of the snapshot once, by falling slot count.
pub open spec fn is_descending(slots: Seq<AvailableTaskSlots>, order: Seq<usize>) -> bool {
    &&& order.len() == slots.len()
    &&& forall|a: int| 0 <= a < order.len() ==> (#[trigger] order[a]) < slots.len()
    &&& forall|a: int, b: int| 0 <= a < b < order.len() ==> #[trigger] order[a] != #[trigger] order[b]
    &&& forall|a: int, b: int|
        0 <= a <= b < order.len() ==> slots[(#[trigger] order[a]) as int].slots >= slots[(
        #[trigger] order[b]) as int].slots
}

/// An entry goes behind the entries that have at least as many slots, and
/// before the entries that have fewer.
pub proof fn lemma_insert_position(slots: Seq<AvailableTaskSlots>, order: Seq<usize>, e: int)
    ensures
        0 <= insert_position(slots, order, e) <= order.len(),
        forall|a: int|
            insert_position(slots, order, e) <= a < order.len() ==> slots[(#[trigger] order[a]) as int].slots
                < slots[e].slots,
        insert_position(slots, order, e) > 0 ==> slots[order[insert_position(slots, order, e) - 1] as int].slots
            >= slots[e].slots,
    decreases order.len(),
{
    if order.len() > 0 && slots[order.last() as int].slots < slots[e].slots {
        lemma_insert_position(slots, order.drop_last(), e);
        let pos = insert_position(slots, order.drop_last(), e);
        assert forall|a: int| pos <= a < order.len() implies slots[(#[trigger] order[a]) as int].slots
            < slots[e].slots by {
            if a < order.len() - 1 {
                assert(order.drop_last()[a] == order[a]);
            }
        }
    }
}

/// The order of the first `n` entries lists each of them once, sorted.
pub proof fn lemma_descending_order(slots: Seq<AvailableTaskSlots>, n: int)
    requires
        0 <= n <= slots.len(),
        n <= usize::MAX,
    ensures
        is_descending(slots.take(n), descending_order(slots, n)),
    decreases n,
{
    if n > 0 {
        lemma_descending_order(slots, n - 1);
        let earlier = descending_order(slots, n - 1);
        lemma_insert_position(slots, earlier, n - 1);
    }
}

/// The entries of a snapshot ordered by falling slot count.
pub fn sort_descending(slots: &Vec<AvailableTaskSlots>) -> (order: Vec<usize>)
    ensures
        order@ == descending_order(slots@, slots@.len() as int),
        is_descending(slots@, order@),
{
    let mut order: Vec<usize> = Vec::new();
    let mut e: usize = 0;
    while e < slots.len()
        invariant
            e <= slots.len(),
            order@ == descending_order(slots@, e as int),
            is_descending(slots@.take(e as int), order@),
        decreases slots.len() - e,
    {
        let mut pos: usize = order.len();
        assert(order@.take(pos as int) =~= order@);
        while pos > 0 && slots[order[pos - 1]].slots < slots[e].slots
            invariant
                pos <= order.len(),
                e < slots.len(),
                is_descending(slots@.take(e as int), order@),
                insert_position(slots@, order@, e as int) == insert_position(
                    slots@,
                    order@.take(pos as int),
                    e as int,
                ),
            decreases pos,
        {
            assert(order@.take(pos as int).drop_last() =~= order@.take(pos - 1));
            pos = pos - 1;
        }
        order.insert(pos, e);
        e = e + 1;
        proof {
            lemma_descending_order(slots@, e as int);
        }
    }
    order
}

/// How many of the first `n` bindings went to entry `e`.
pub open spec fn occurrences(assigned: Seq<int>, n: int, e: int) -> nat
    decreases n,
{
    if n <= 0 {
        0
    } else {
        occurrences(assigned, n - 1, e) + if assigned[n - 1] == e {
            1nat
        } else {
            0nat
        }
    }
}

/// The snapshot after the first `n` bindings: each binding took one slot of
/// the entry that it went to.
pub open spec fn slots_after(initial: Seq<AvailableTaskSlots>, assigned: Seq<int>, n: int) -> Seq<
    AvailableTaskSlots,
> {
    Seq::new(
        initial.len(),
        |e: int|
            AvailableTaskSlots {
                executor_id: initial[e].executor_id,
                slots: (initial[e].slots - occurrences(assigned, n, e)) as u32,
            },
    )
}

/// The entries that bias placement binds to, one for each binding in turn:
/// the first `upto` entries of the order, each as often as it has slots.
pub open spec fn bias_blocks(slots: Seq<AvailableTaskSlots>, order: Seq<usize>, upto: int) -> Seq<int>
    decreases upto,
{
    if upto <= 0 {
        Seq::empty()
    } else {
        bias_blocks(slots, order, upto - 1) + Seq::new(
            slots[order[upto - 1] as int].slots as nat,
            |i: int| order[upto - 1] as int,
        )
    }
}

/// How many of the first `upto` entries of the order have more than `pass`
/// slots.
pub open spec fn width(slots: Seq<AvailableTaskSlots>, order: Seq<usize>, pass: int, upto: int) -> nat
    decreases upto,
{
    if upto <= 0 {
        0
    } else {
        width(slots, order, pass, upto - 1) + if slots[order[upto - 1] as int].slots > pass {
            1nat
        } else {
            0nat
        }
    }
}

/// The entries that round-robin placement binds to in its first `passes`
/// passes: each pass goes once through the entries that still have a slot, in
/// the order.
pub open spec fn round_robin_passes(slots: Seq<AvailableTaskSlots>, order: Seq<usize>, passes: int) -> Seq<
    int,
>
    decreases passes,
{
    if passes <= 0 {
        Seq::empty()
    } else {
        round_robin_passes(slots, order, passes - 1) + Seq::new(
            width(slots, order, passes - 1, order.len() as int),
            |i: int| order[i] as int,
        )
    }
}

/// The largest slot count of a snapshot, given its order.
pub open spec fn most_slots(slots: Seq<AvailableTaskSlots>, order: Seq<usize>) -> int {
    if order.len() == 0 {
        0
    } else {
        slots[order[0] as int].slots as int
    }
}

/// The entry that each binding of a bias round goes to: the entry with the
/// most slots until it is full, then the next.
pub open spec fn bias_assignment(slots: Seq<AvailableTaskSlots>) -> Seq<int> {
    bias_blocks(slots, descending_order(slots, slots.len() as int), slots.len() as int)
}

/// The entry that each binding of a round-robin round goes to: one binding
/// for each entry that has a slot left, by falling slot count, and again.
pub open spec fn round_robin_assignment(slots: Seq<AvailableTaskSlots>) -> Seq<int> {
    let order = descending_order(slots, slots.len() as int);
    round_robin_passes(slots, order, most_slots(slots, order))
}

/// In a bias round the bindings from `bias_blocks(.., a).len()` on go to the
/// entry at position `a` of the order, as many as it has slots.
pub proof fn lemma_bias_index(
    slots: Seq<AvailableTaskSlots>,
    order: Seq<usize>,
    a: int,
    upto: int,
    k: int,
)
    requires
        0 <= a < upto,
        bias_blocks(slots, order, a).len() <= k < bias_blocks(slots, order, a + 1).len(),
    ensures
        k < bias_blocks(slots, order, upto).len(),
        bias_blocks(slots, order, upto)[k] == order[a] as int,
    decreases upto,
{
    if upto > a + 1 {
        lemma_bias_index(slots, order, a, upto - 1, k);
    }
}

/// With the order sorted, the entries with more than `pass` slots are the
/// first `width` ones.
pub proof fn lemma_width(slots: Seq<AvailableTaskSlots>, order: Seq<usize>, pass: int, upto: int)
    requires
        is_descending(slots, order),
        0 <= upto <= order.len(),
    ensures
        width(slots, order, pass, upto) <= upto,
        forall|a: int|
            0 <= a < upto ==> (slots[(#[trigger] order[a]) as int].slots > pass <==> a < width(
                slots,
                order,
                pass,
                upto,
            )),
    decreases upto,
{
    if upto > 0 {
        lemma_width(slots, order, pass, upto - 1);
        let w = width(slots, order, pass, upto - 1);
        if slots[order[upto - 1] as int].slots > pass {
            // every earlier entry has at least as many slots
            assert forall|a: int| 0 <= a < upto - 1 implies slots[(#[trigger] order[a]) as int].slots
                > pass by {
                assert(slots[order[a] as int].slots >= slots[order[upto - 1] as int].slots);
            }
            if w < upto - 1 {
                assert(slots[order[w as int] as int].slots > pass);
            }
        }
    }
}

/// Once the entry with the most slots has none left, a pass comes to no
/// entry.
pub proof fn lemma_width_zero(slots: Seq<AvailableTaskSlots>, order: Seq<usize>, pass: int, upto: int)
    requires
        is_descending(slots, order),
        0 <= upto <= order.len(),
        pass >= most_slots(slots, order),
    ensures
        width(slots, order, pass, upto) == 0,
    decreases upto,
{
    if upto > 0 {
        lemma_width_zero(slots, order, pass, upto - 1);
    }
}

/// Passes after the last slot is taken add nothing.
pub proof fn lemma_passes_end(slots: Seq<AvailableTaskSlots>, order: Seq<usize>, passes: int)
    requires
        is_descending(slots, order),
        passes >= most_slots(slots, order),
    ensures
        round_robin_passes(slots, order, passes) == round_robin_passes(
            slots,
            order,
            most_slots(slots, order),
        ),
    decreases passes,
{
    if passes > most_slots(slots, order) {
        lemma_passes_end(slots, order, passes - 1);
        lemma_width_zero(slots, order, passes - 1, order.len() as int);
    }
}

/// In a round-robin round the binding at place `i` of pass `pass` goes to the
/// entry at position `i` of the order.
pub proof fn lemma_round_robin_index(
    slots: Seq<AvailableTaskSlots>,
    order: Seq<usize>,
    pass: int,
    passes: int,
    i: int,
)
    requires
        0 <= pass < passes,
        0 <= i < width(slots, order, pass, order.len() as int),
    ensures
        round_robin_passes(slots, order, pass).len() + i < round_robin_passes(slots, order, passes).len(),
        round_robin_passes(slots, order, passes)[round_robin_passes(slots, order, pass).len() + i]
            == order[i] as int,
    decreases passes,
{
    if passes > pass + 1 {
        lemma_round_robin_index(slots, order, pass, passes - 1, i);
    }
}

} // verus!
