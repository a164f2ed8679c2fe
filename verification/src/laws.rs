use vstd::prelude::*;
use crate::cluster::{release_all, ExecutorRecord, ReleaseFailure};
use crate::consistent_hash::{hash_round, PlanScan};
use crate::graph::{bound_to, BoundTask, GraphView, PlanHandle};
use crate::ring::TopologyNode;
use crate::slots::{
    bias_assignment, bias_blocks, descending_order, is_descending, lemma_bias_index,
    lemma_descending_order, lemma_round_robin_index, lemma_width, most_slots, occurrences,
    round_robin_assignment, round_robin_passes, width, AvailableTaskSlots, ExecutorSlot,
};
use crate::work::{bound_count, bound_task, bound_tasks, executors_of, round_outcome, round_work};

verus! {

/// A count over the first bindings of a list does not see what follows.
pub proof fn lemma_occurrences_prefix(front: Seq<int>, back: Seq<int>, n: int, e: int)
    requires
        0 <= n <= front.len(),
    ensures
        occurrences(front + back, n, e) == occurrences(front, n, e),
    decreases n,
{
    if n > 0 {
        lemma_occurrences_prefix(front, back, n - 1, e);
    }
}

/// A count over two lists in a row is the count over the first and over the
/// second.
pub proof fn lemma_occurrences_concat(front: Seq<int>, back: Seq<int>, n: int, e: int)
    requires
        0 <= n <= back.len(),
    ensures
        occurrences(front + back, front.len() + n, e) == occurrences(front, front.len() as int, e)
            + occurrences(back, n, e),
    decreases n,
{
    if n > 0 {
        lemma_occurrences_concat(front, back, n - 1, e);
    } else {
        lemma_occurrences_prefix(front, back, front.len() as int, e);
    }
}

/// A count grows with the number of bindings counted, by one at most for
/// each.
pub proof fn lemma_occurrences_monotone(assigned: Seq<int>, m: int, n: int, e: int)
    requires
        0 <= m <= n,
    ensures
        occurrences(assigned, m, e) <= occurrences(assigned, n, e) <= occurrences(assigned, m, e) + (n
            - m),
    decreases n - m,
{
    if m < n {
        lemma_occurrences_monotone(assigned, m, n - 1, e);
    }
}

/// In a run of one entry, the count of that entry is the length counted, and
/// the count of any other entry is nothing.
pub proof fn lemma_occurrences_run(count: nat, entry: int, n: int, e: int)
    requires
        0 <= n <= count,
    ensures
        occurrences(Seq::new(count, |i: int| entry), n, e) == if entry == e {
            n
        } else {
            0
        },
    decreases n,
{
    if n > 0 {
        lemma_occurrences_run(count, entry, n - 1, e);
    }
}

/// Bias placement binds to the entries of the order only, and to each no more
/// often than it has slots; once the round is past an entry, the entry is
/// full.
pub proof fn lemma_bias_counts(slots: Seq<AvailableTaskSlots>, order: Seq<usize>, upto: int, n: int, e: int)
    requires
        is_descending(slots, order),
        0 <= upto <= order.len(),
        0 <= n <= bias_blocks(slots, order, upto).len(),
        0 <= e < slots.len(),
    ensures
        occurrences(bias_blocks(slots, order, upto), n, e) <= slots[e].slots,
        (forall|a: int| 0 <= a < upto ==> order[a] != e) ==> occurrences(
            bias_blocks(slots, order, upto),
            n,
            e,
        ) == 0,
        (exists|a: int| 0 <= a < upto && order[a] == e) && n == bias_blocks(slots, order, upto).len()
            ==> occurrences(bias_blocks(slots, order, upto), n, e) == slots[e].slots,
    decreases upto,
{
    if upto > 0 {
        let front = bias_blocks(slots, order, upto - 1);
        let entry = order[upto - 1] as int;
        let back = Seq::new(slots[entry].slots as nat, |i: int| entry);
        assert(bias_blocks(slots, order, upto) == front + back);
        if n <= front.len() {
            lemma_bias_counts(slots, order, upto - 1, n, e);
            lemma_occurrences_prefix(front, back, n, e);
        } else {
            lemma_bias_counts(slots, order, upto - 1, front.len() as int, e);
            lemma_occurrences_concat(front, back, n - front.len(), e);
            lemma_occurrences_run(slots[entry].slots as nat, entry, n - front.len(), e);
        }
        if entry == e {
            assert forall|a: int| 0 <= a < upto - 1 implies order[a] != e by {
                assert(order[a] != order[upto - 1]);
            }
        } else if exists|a: int| 0 <= a < upto && order[a] == e {
            let a = choose|a: int| 0 <= a < upto && order[a] == e;
            assert(0 <= a < upto - 1 && order[a] == e);
        }
    }
}

/// In one pass of round-robin placement an entry is bound once at most, and
/// only if it stands among the entries that the pass has come to.
pub proof fn lemma_pass_counts(order: Seq<usize>, wide: nat, n: int, e: int)
    requires
        forall|a: int, b: int| 0 <= a < b < order.len() ==> #[trigger] order[a] != #[trigger] order[b],
        0 <= n <= wide <= order.len(),
    ensures
        occurrences(Seq::new(wide, |i: int| order[i] as int), n, e) == if exists|a: int|
            0 <= a < n && order[a] == e {
            1nat
        } else {
            0nat
        },
    decreases n,
{
    if n > 0 {
        lemma_pass_counts(order, wide, n - 1, e);
        let pass = Seq::new(wide, |i: int| order[i] as int);
        assert(pass[n - 1] == order[n - 1]);
        if order[n - 1] == e {
            assert forall|a: int| 0 <= a < n - 1 implies order[a] != e by {
                assert(order[a] != order[n - 1]);
            }
        } else if exists|a: int| 0 <= a < n && order[a] == e {
            let a = choose|a: int| 0 <= a < n && order[a] == e;
            assert(0 <= a < n - 1 && order[a] == e);
        }
    }
}

/// After `passes` full passes of round-robin placement an entry has been
/// bound once in each pass in which it had a slot left.
pub proof fn lemma_round_robin_counts(
    slots: Seq<AvailableTaskSlots>,
    order: Seq<usize>,
    passes: int,
    e: int,
)
    requires
        is_descending(slots, order),
        0 <= passes,
        0 <= e < slots.len(),
        exists|a: int| 0 <= a < order.len() && order[a] == e,
    ensures
        occurrences(
            round_robin_passes(slots, order, passes),
            round_robin_passes(slots, order, passes).len() as int,
            e,
        ) == if passes <= slots[e].slots {
            passes
        } else {
            slots[e].slots as int
        },
    decreases passes,
{
    if passes > 0 {
        lemma_round_robin_counts(slots, order, passes - 1, e);
        let front = round_robin_passes(slots, order, passes - 1);
        let wide = width(slots, order, passes - 1, order.len() as int);
        let back = Seq::new(wide, |i: int| order[i] as int);
        assert(round_robin_passes(slots, order, passes) == front + back);
        lemma_width(slots, order, passes - 1, order.len() as int);
        lemma_occurrences_concat(front, back, wide as int, e);
        lemma_pass_counts(order, wide, wide as int, e);
        let a = choose|a: int| 0 <= a < order.len() && order[a] == e;
        if slots[e].slots > passes - 1 {
            assert(a < wide);
        } else {
            if exists|b: int| 0 <= b < wide && order[b] == e {
                let b = choose|b: int| 0 <= b < wide && order[b] == e;
                assert(slots[order[b] as int].slots > passes - 1);
            }
        }
    }
}

/// The first bindings of a bias round are those of its first blocks.
pub proof fn lemma_blocks_prefix(
    slots: Seq<AvailableTaskSlots>,
    order: Seq<usize>,
    a: int,
    upto: int,
    n: int,
    e: int,
)
    requires
        0 <= a <= upto,
        0 <= n <= bias_blocks(slots, order, a).len(),
    ensures
        bias_blocks(slots, order, a).len() <= bias_blocks(slots, order, upto).len(),
        occurrences(bias_blocks(slots, order, upto), n, e) == occurrences(bias_blocks(slots, order, a), n, e),
    decreases upto,
{
    if a < upto {
        lemma_blocks_prefix(slots, order, a, upto - 1, n, e);
        let front = bias_blocks(slots, order, upto - 1);
        let entry = order[upto - 1] as int;
        let back = Seq::new(slots[entry].slots as nat, |i: int| entry);
        lemma_occurrences_prefix(front, back, n, e);
    }
}

/// Every binding of a bias round lies in the block of one entry of the order.
pub proof fn lemma_block_of(slots: Seq<AvailableTaskSlots>, order: Seq<usize>, upto: int, k: int) -> (a: int)
    requires
        0 <= upto,
        0 <= k < bias_blocks(slots, order, upto).len(),
    ensures
        0 <= a < upto,
        bias_blocks(slots, order, a).len() <= k < bias_blocks(slots, order, a + 1).len(),
    decreases upto,
{
    if k < bias_blocks(slots, order, upto - 1).len() {
        lemma_block_of(slots, order, upto - 1, k)
    } else {
        upto - 1
    }
}

/// Every binding of a bias round goes to an entry of the snapshot.
pub proof fn lemma_bias_in_range(slots: Seq<AvailableTaskSlots>, k: int)
    requires
        slots.len() <= usize::MAX,
        0 <= k < bias_assignment(slots).len(),
    ensures
        0 <= bias_assignment(slots)[k] < slots.len(),
{
    let m = slots.len() as int;
    let order = descending_order(slots, m);
    lemma_descending_order(slots, m);
    let a = lemma_block_of(slots, order, m, k);
    lemma_bias_index(slots, order, a, m, k);
}

/// The first bindings of a round-robin round are those of its first passes.
pub proof fn lemma_passes_prefix(
    slots: Seq<AvailableTaskSlots>,
    order: Seq<usize>,
    few: int,
    passes: int,
    n: int,
    e: int,
)
    requires
        0 <= few <= passes,
        0 <= n <= round_robin_passes(slots, order, few).len(),
    ensures
        round_robin_passes(slots, order, few).len() <= round_robin_passes(slots, order, passes).len(),
        occurrences(round_robin_passes(slots, order, passes), n, e) == occurrences(
            round_robin_passes(slots, order, few),
            n,
            e,
        ),
    decreases passes,
{
    if few < passes {
        lemma_passes_prefix(slots, order, few, passes - 1, n, e);
        let front = round_robin_passes(slots, order, passes - 1);
        let back = Seq::new(
            width(slots, order, passes - 1, order.len() as int),
            |i: int| order[i] as int,
        );
        lemma_occurrences_prefix(front, back, n, e);
    }
}

/// Every binding of a round-robin round lies in one pass.
pub proof fn lemma_pass_of(slots: Seq<AvailableTaskSlots>, order: Seq<usize>, passes: int, k: int) -> (pass:
    int)
    requires
        0 <= passes,
        0 <= k < round_robin_passes(slots, order, passes).len(),
    ensures
        0 <= pass < passes,
        round_robin_passes(slots, order, pass).len() <= k < round_robin_passes(slots, order, pass).len()
            + width(slots, order, pass, order.len() as int),
    decreases passes,
{
    if k < round_robin_passes(slots, order, passes - 1).len() {
        lemma_pass_of(slots, order, passes - 1, k)
    } else {
        passes - 1
    }
}

/// Every binding of a round-robin round goes to an entry of the snapshot.
pub proof fn lemma_round_robin_in_range(slots: Seq<AvailableTaskSlots>, k: int)
    requires
        slots.len() <= usize::MAX,
        0 <= k < round_robin_assignment(slots).len(),
    ensures
        0 <= round_robin_assignment(slots)[k] < slots.len(),
{
    let m = slots.len() as int;
    let order = descending_order(slots, m);
    lemma_descending_order(slots, m);
    let top = most_slots(slots, order);
    let pass = lemma_pass_of(slots, order, top, k);
    let i = k - round_robin_passes(slots, order, pass).len();
    lemma_width(slots, order, pass, m);
    lemma_round_robin_index(slots, order, pass, top, i);
}

/// Bias: when a binding goes to an executor, every executor that stands
/// before it in the order by falling slot count is full. So the executor with
/// the most free slots is filled before one with fewer slots gets a task.
pub proof fn law_bias_fills_in_order(slots: Seq<AvailableTaskSlots>, k: int, earlier: int, a: int)
    requires
        slots.len() <= usize::MAX,
        0 <= earlier < a < slots.len(),
        0 <= k < bias_assignment(slots).len(),
        bias_assignment(slots)[k] == descending_order(slots, slots.len() as int)[a],
    ensures
        occurrences(
            bias_assignment(slots),
            k,
            descending_order(slots, slots.len() as int)[earlier] as int,
        ) == slots[descending_order(slots, slots.len() as int)[earlier] as int].slots,
{
    let m = slots.len() as int;
    let order = descending_order(slots, m);
    lemma_descending_order(slots, m);
    let x = order[earlier] as int;
    let block = lemma_block_of(slots, order, m, k);
    lemma_bias_index(slots, order, block, m, k);
    let full = bias_blocks(slots, order, earlier + 1).len() as int;
    lemma_blocks_prefix(slots, order, earlier + 1, a, full, x);
    lemma_blocks_prefix(slots, order, earlier + 1, m, full, x);
    lemma_bias_counts(slots, order, earlier + 1, full, x);
    lemma_bias_counts(slots, order, m, k, x);
    lemma_occurrences_monotone(bias_assignment(slots), full, k, x);
}

/// While every entry has a slot left, an entry has one task for each full
/// pass, and one more if the next pass has come to it.
pub proof fn lemma_even_count(slots: Seq<AvailableTaskSlots>, pass: int, place: int, e: int)
    requires
        slots.len() <= usize::MAX,
        0 <= e < slots.len(),
        0 <= place <= slots.len(),
        0 <= pass,
        forall|x: int| 0 <= x < slots.len() ==> pass < (#[trigger] slots[x]).slots,
    ensures
        ({
            let order = descending_order(slots, slots.len() as int);
            let n = round_robin_passes(slots, order, pass).len() + place;
            &&& n <= round_robin_assignment(slots).len()
            &&& pass <= occurrences(round_robin_assignment(slots), n, e) <= pass + 1
        }),
{
    let m = slots.len() as int;
    let order = descending_order(slots, m);
    lemma_descending_order(slots, m);
    let top = most_slots(slots, order);
    let front = round_robin_passes(slots, order, pass);
    let wide = width(slots, order, pass, m);
    let back = Seq::new(wide, |i: int| order[i] as int);
    lemma_width(slots, order, pass, m);
    let n = front.len() + place;
    lemma_entry_in_order(slots, order, e);
    lemma_passes_prefix(slots, order, pass + 1, top, n, e);
    lemma_occurrences_concat(front, back, place, e);
    lemma_pass_counts(order, wide, place, e);
    lemma_round_robin_counts(slots, order, pass, e);
}

/// Round-robin: while every executor has a slot left, the numbers of tasks
/// of any two executors differ by one at most. The law speaks of the round
/// after `pass` full passes and `place` bindings of the next pass, where
/// `pass` is less than the smallest slot count.
pub proof fn law_round_robin_is_even(slots: Seq<AvailableTaskSlots>, pass: int, place: int, a: int, b: int)
    requires
        slots.len() <= usize::MAX,
        0 <= a < slots.len(),
        0 <= b < slots.len(),
        0 <= place <= slots.len(),
        0 <= pass,
        forall|e: int| 0 <= e < slots.len() ==> pass < (#[trigger] slots[e]).slots,
    ensures
        ({
            let order = descending_order(slots, slots.len() as int);
            let n = round_robin_passes(slots, order, pass).len() + place;
            &&& n <= round_robin_assignment(slots).len()
            &&& occurrences(round_robin_assignment(slots), n, a) <= occurrences(
                round_robin_assignment(slots),
                n,
                b,
            ) + 1
        }),
{
    lemma_even_count(slots, pass, place, a);
    lemma_even_count(slots, pass, place, b);
}

/// Every entry of a snapshot stands in its order.
pub proof fn lemma_entry_in_order(slots: Seq<AvailableTaskSlots>, order: Seq<usize>, e: int)
    requires
        is_descending(slots, order),
        0 <= e < slots.len(),
    ensures
        exists|a: int| 0 <= a < order.len() && order[a] == e,
{
    let hit = Seq::new(order.len(), |a: int| order[a] as int);
    if !hit.contains(e) {
        let all = Set::new(|x: int| 0 <= x < slots.len() && x != e);
        vstd::set_lib::lemma_int_range(0, slots.len() as int);
        let range = vstd::set_lib::set_int_range(0, slots.len() as int);
        assert(all =~= range.remove(e));
        hit.unique_seq_to_set();
        vstd::set_lib::lemma_len_subset(hit.to_set(), all);
    }
    let a = choose|a: int| 0 <= a < hit.len() && hit[a] == e;
}

/// No two entries of a snapshot are of one executor.
pub open spec fn executors_distinct(slots: Seq<AvailableTaskSlots>) -> bool {
    forall|a: int, b: int|
        0 <= a < b < slots.len() ==> (#[trigger] slots[a]).executor_id@ != (#[trigger] slots[b]).executor_id@
}

/// The tasks of a round that are bound to an executor are the bindings that
/// went to its entry of the snapshot.
pub proof fn lemma_tasks_follow_assignment(
    jobs: Seq<GraphView>,
    skip: Seq<PlanHandle>,
    slots: Seq<AvailableTaskSlots>,
    assigned: Seq<int>,
    now: u64,
    n: int,
    e: int,
)
    requires
        executors_distinct(slots),
        0 <= n <= assigned.len(),
        forall|k: int| 0 <= k < n ==> 0 <= #[trigger] assigned[k] < slots.len(),
        0 <= e < slots.len(),
    ensures
        bound_to(
            bound_tasks(
                jobs,
                round_work(jobs, skip, jobs.len() as int),
                executors_of(slots, assigned),
                now,
                false,
                n,
            ),
            slots[e].executor_id@,
            n,
        ) == occurrences(assigned, n, e),
    decreases n,
{
    if n > 0 {
        let work = round_work(jobs, skip, jobs.len() as int);
        let executors = executors_of(slots, assigned);
        let fewer = bound_tasks(jobs, work, executors, now, false, n - 1);
        let tasks = bound_tasks(jobs, work, executors, now, false, n);
        lemma_tasks_follow_assignment(jobs, skip, slots, assigned, now, n - 1, e);
        assert(tasks =~= fewer.push(bound_task(jobs, work, executors, now, false, n - 1)));
        crate::graph::lemma_bound_to_push(
            fewer,
            bound_task(jobs, work, executors, now, false, n - 1),
            slots[e].executor_id@,
            n - 1,
        );
        let other = assigned[n - 1];
        assert(tasks[n - 1].0 == slots[other].executor_id);
        if other != e {
            if other < e {
                assert(slots[other].executor_id@ != slots[e].executor_id@);
            } else {
                assert(slots[e].executor_id@ != slots[other].executor_id@);
            }
        }
    }
}

/// Bias: for every executor the tasks that a round binds to it are the slots
/// that the round takes from it.
pub proof fn law_bias_slots_pay_for_tasks(
    jobs: Seq<GraphView>,
    skip: Seq<PlanHandle>,
    slots: Seq<AvailableTaskSlots>,
    now: u64,
    e: int,
)
    requires
        slots.len() <= usize::MAX,
        executors_distinct(slots),
        0 <= e < slots.len(),
    ensures
        ({
            let outcome = round_outcome(jobs, skip, slots, bias_assignment(slots), now);
            outcome.slots[e].slots + bound_to(
                outcome.tasks,
                slots[e].executor_id@,
                outcome.tasks.len() as int,
            ) == slots[e].slots
        }),
{
    let assigned = bias_assignment(slots);
    let n = bound_count(jobs, skip, assigned);
    assert forall|k: int| 0 <= k < n implies 0 <= #[trigger] assigned[k] < slots.len() by {
        lemma_bias_in_range(slots, k);
    }
    lemma_tasks_follow_assignment(jobs, skip, slots, assigned, now, n, e);
    let m = slots.len() as int;
    lemma_descending_order(slots, m);
    lemma_bias_counts(slots, descending_order(slots, m), m, n, e);
}

/// Round-robin: for every executor the tasks that a round binds to it are
/// the slots that the round takes from it.
pub proof fn law_round_robin_slots_pay_for_tasks(
    jobs: Seq<GraphView>,
    skip: Seq<PlanHandle>,
    slots: Seq<AvailableTaskSlots>,
    now: u64,
    e: int,
)
    requires
        slots.len() <= usize::MAX,
        executors_distinct(slots),
        0 <= e < slots.len(),
    ensures
        ({
            let outcome = round_outcome(jobs, skip, slots, round_robin_assignment(slots), now);
            outcome.slots[e].slots + bound_to(
                outcome.tasks,
                slots[e].executor_id@,
                outcome.tasks.len() as int,
            ) == slots[e].slots
        }),
{
    let assigned = round_robin_assignment(slots);
    let n = bound_count(jobs, skip, assigned);
    assert forall|k: int| 0 <= k < n implies 0 <= #[trigger] assigned[k] < slots.len() by {
        lemma_round_robin_in_range(slots, k);
    }
    lemma_tasks_follow_assignment(jobs, skip, slots, assigned, now, n, e);
    let m = slots.len() as int;
    let order = descending_order(slots, m);
    lemma_descending_order(slots, m);
    lemma_entry_in_order(slots, order, e);
    let top = most_slots(slots, order);
    lemma_round_robin_counts(slots, order, top, e);
    lemma_occurrences_monotone(assigned, n, assigned.len() as int, e);
}

/// The id of a task that a round binds in a stage is greater than every task
/// id that the stage held before the round.
pub proof fn law_task_ids_are_fresh(
    before: Seq<GraphView>,
    after: Seq<GraphView>,
    task: BoundTask,
    now: u64,
    j: int,
    s: int,
    p: int,
    q: int,
)
    requires
        crate::graph::jobs_wf(before),
        crate::graph::fills(before, after, task, now, j, s, p),
        0 <= q < before[j].stages[s].task_infos.len(),
        before[j].stages[s].task_infos[q] is Some,
    ensures
        before[j].stages[s].task_infos[q]->0.task_id < task.1.task_id,
{
}

/// The task ids that a round gives out in a stage are the next ones of the
/// stage without a gap: each id from the generator's value before the round
/// up to its value after stands in a cell that the round has filled.
pub proof fn law_task_ids_are_contiguous(before: Seq<GraphView>, after: Seq<GraphView>, j: int, s: int, id: int)
    requires
        crate::graph::jobs_advanced(before, after),
        0 <= j < before.len(),
        0 <= s < before[j].stages.len(),
        before[j].stages[s].task_id_gen <= id < after[j].stages[s].task_id_gen,
    ensures
        exists|p: int| #[trigger] crate::graph::filled_with(before[j].stages[s], after[j].stages[s], p, id),
{
    assert(crate::graph::issued(before[j].stages[s], after[j].stages[s], id));
}

/// A round of bias or round-robin placement marks no task as placed by its
/// data.
pub proof fn law_rounds_mark_no_task(
    jobs: Seq<GraphView>,
    skip: Seq<PlanHandle>,
    slots: Seq<AvailableTaskSlots>,
    assigned: Seq<int>,
    now: u64,
    k: int,
)
    requires
        0 <= k < round_outcome(jobs, skip, slots, assigned, now).tasks.len(),
    ensures
        !round_outcome(jobs, skip, slots, assigned, now).tasks[k].1.data_cache,
{
}

/// Consistent hashing: what a round comes to depends on the nodes only by
/// the ring that they make. Two lists of nodes with the same names in the
/// same order, the same node under each name and the same number of free
/// slots bind alike.
pub proof fn law_same_ring_binds_alike(
    jobs: Seq<GraphView>,
    nodes: Seq<TopologyNode>,
    others: Seq<TopologyNode>,
    num_replicas: nat,
    tolerance: nat,
    table: Seq<PlanScan>,
    now: u64,
)
    requires
        crate::ring::names_of(nodes) == crate::ring::names_of(others),
        crate::ring::nodes_by_name(nodes, nodes.len() as int) == crate::ring::nodes_by_name(
            others,
            others.len() as int,
        ),
        crate::consistent_hash::total_slots(nodes, nodes.len() as int)
            == crate::consistent_hash::total_slots(others, others.len() as int),
    ensures
        hash_round(jobs, nodes, num_replicas, tolerance, table, now) == hash_round(
            jobs,
            others,
            num_replicas,
            tolerance,
            table,
            now,
        ),
{
}

/// Giving slots back and then giving nothing back is giving the slots back.
pub proof fn law_unbind_then_nothing(records: Seq<ExecutorRecord>, pairs: Seq<ExecutorSlot>)
    ensures
        ({
            let nothing = Seq::<ExecutorSlot>::empty();
            match release_all(records, pairs, pairs.len() as int) {
                Ok(released) => release_all(released, nothing, nothing.len() as int) == Ok::<
                    Seq<ExecutorRecord>,
                    ReleaseFailure,
                >(released),
                Err(_) => release_all(records, nothing, nothing.len() as int) == Ok::<
                    Seq<ExecutorRecord>,
                    ReleaseFailure,
                >(records),
            }
        }),
{
}

/// The free slots of the first `upto` entries of an order together, each
/// entry counted up to `cap` slots.
pub open spec fn capped_slots(slots: Seq<AvailableTaskSlots>, order: Seq<usize>, cap: int, upto: int) -> int
    decreases upto,
{
    if upto <= 0 {
        0
    } else {
        capped_slots(slots, order, cap, upto - 1) + if slots[order[upto - 1] as int].slots <= cap {
            slots[order[upto - 1] as int].slots as int
        } else {
            cap
        }
    }
}

/// A pass is as wide as there are entries that have a slot more than `pass`.
pub proof fn lemma_width_is_a_step(slots: Seq<AvailableTaskSlots>, order: Seq<usize>, pass: int, upto: int)
    requires
        0 <= pass,
        0 <= upto,
    ensures
        capped_slots(slots, order, pass + 1, upto) == capped_slots(slots, order, pass, upto) + width(
            slots,
            order,
            pass,
            upto,
        ),
    decreases upto,
{
    if upto > 0 {
        lemma_width_is_a_step(slots, order, pass, upto - 1);
    }
}

/// After some passes round-robin placement has bound, for each entry, as
/// many tasks as there were passes, or as the entry has slots.
pub proof fn lemma_passes_len(slots: Seq<AvailableTaskSlots>, order: Seq<usize>, passes: int)
    requires
        0 <= passes,
    ensures
        round_robin_passes(slots, order, passes).len() == capped_slots(
            slots,
            order,
            passes,
            order.len() as int,
        ),
    decreases passes,
{
    if passes > 0 {
        lemma_passes_len(slots, order, passes - 1);
        lemma_width_is_a_step(slots, order, passes - 1, order.len() as int);
    } else {
        lemma_capped_by_nothing(slots, order, order.len() as int);
    }
}

/// With no slot counted, the slots together are none.
pub proof fn lemma_capped_by_nothing(slots: Seq<AvailableTaskSlots>, order: Seq<usize>, upto: int)
    ensures
        capped_slots(slots, order, 0, upto) == 0,
    decreases upto,
{
    if upto > 0 {
        lemma_capped_by_nothing(slots, order, upto - 1);
    }
}

/// A cap that no entry reaches does not count.
pub proof fn lemma_capped_by_most(
    slots: Seq<AvailableTaskSlots>,
    order: Seq<usize>,
    cap: int,
    other: int,
    upto: int,
)
    requires
        0 <= upto <= order.len(),
        forall|a: int| 0 <= a < upto ==> slots[(#[trigger] order[a]) as int].slots <= cap,
        forall|a: int| 0 <= a < upto ==> slots[(#[trigger] order[a]) as int].slots <= other,
    ensures
        capped_slots(slots, order, cap, upto) == capped_slots(slots, order, other, upto),
    decreases upto,
{
    if upto > 0 {
        lemma_capped_by_most(slots, order, cap, other, upto - 1);
    }
}

/// Bias placement has a binding for every slot of the first entries of the
/// order.
pub proof fn lemma_blocks_len(slots: Seq<AvailableTaskSlots>, order: Seq<usize>, upto: int)
    requires
        0 <= upto <= order.len(),
    ensures
        bias_blocks(slots, order, upto).len() == capped_slots(slots, order, u32::MAX as int, upto),
    decreases upto,
{
    if upto > 0 {
        lemma_blocks_len(slots, order, upto - 1);
    }
}

/// Bias and round-robin placement have a binding for every free slot of the
/// snapshot, and for no more: a round of either binds as many tasks as there
/// are cells to fill, or as there are free slots.
pub proof fn law_rounds_use_every_slot(slots: Seq<AvailableTaskSlots>)
    requires
        slots.len() <= usize::MAX,
    ensures
        bias_assignment(slots).len() == capped_slots(
            slots,
            descending_order(slots, slots.len() as int),
            u32::MAX as int,
            slots.len() as int,
        ),
        round_robin_assignment(slots).len() == bias_assignment(slots).len(),
{
    let m = slots.len() as int;
    let order = descending_order(slots, m);
    lemma_descending_order(slots, m);
    let top = most_slots(slots, order);
    lemma_blocks_len(slots, order, m);
    lemma_passes_len(slots, order, top);
    lemma_capped_by_most(slots, order, top, u32::MAX as int, m);
}

/// While every entry has a slot left, each pass of round-robin placement
/// goes through all entries.
pub proof fn law_full_passes(slots: Seq<AvailableTaskSlots>, passes: int)
    requires
        slots.len() <= usize::MAX,
        0 <= passes,
        forall|e: int| 0 <= e < slots.len() ==> passes <= (#[trigger] slots[e]).slots,
    ensures
        round_robin_passes(slots, descending_order(slots, slots.len() as int), passes).len() == passes
            * slots.len(),
    decreases passes,
{
    let m = slots.len() as int;
    let order = descending_order(slots, m);
    lemma_descending_order(slots, m);
    if passes > 0 {
        law_full_passes(slots, passes - 1);
        lemma_width(slots, order, passes - 1, m);
        assert(passes * m == (passes - 1) * m + m) by (nonlinear_arith);
    } else {
        assert(0 * m == 0) by (nonlinear_arith);
    }
}

/// Fetching with a growing list goes through the stages once: after the id
/// of the stage that was handed out is put on the list, the next stage that
/// is handed out stands behind it.
pub proof fn law_fetching_moves_on(graph: GraphView, black_list: Seq<usize>)
    requires
        graph.wf(),
        graph.running_stage(black_list) is Some,
    ensures
        ({
            let s = graph.running_stage(black_list)->0;
            let listed = black_list.push(graph.stages[s].stage_id);
            &&& 0 <= s < graph.stages.len()
            &&& graph.stages[s].available(black_list)
            &&& !graph.stages[s].available(listed)
            &&& graph.running_stage(listed) is Some ==> graph.running_stage(listed)->0 > s
        }),
{
    let s = graph.running_stage(black_list)->0;
    let listed = black_list.push(graph.stages[s].stage_id);
    crate::graph::lemma_first_available(graph, black_list, 0);
    crate::graph::lemma_first_available(graph, listed, 0);
    assert(listed[black_list.len() as int] == graph.stages[s].stage_id);
    if graph.running_stage(listed) is Some {
        let next = graph.running_stage(listed)->0;
        if next < s {
            assert(!graph.stages[next].available(black_list));
            if black_list.contains(graph.stages[next].stage_id) {
                let i = choose|i: int| 0 <= i < black_list.len() && black_list[i] == graph.stages[next].stage_id;
                assert(listed[i] == graph.stages[next].stage_id);
            }
        }
    }
}

} // verus!
