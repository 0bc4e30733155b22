use vstd::prelude::*;

use crate::task::Task;
use crate::task::TaskV;
use crate::task::same_key;
use crate::worker::Worker;
use crate::worker::child_path;
use crate::worker::spawns_child;

verus! {

// ---------------------------------------------------------------------------
// The scheduler's mathematical model.
//
// The task list is a sequence of task images. Statuses move forward only:
// 0 (pending) when a task enters the list, 1 (in flight) once it has been
// handed to a worker, 2 (done) once that worker's result has been merged.
// ---------------------------------------------------------------------------

/// Some tracked task already carries the candidate's key.
pub open spec fn key_in(list: Seq<TaskV>, c: TaskV) -> bool {
    exists|i: int| 0 <= i < list.len() && same_key(list[i], c)
}

/// The candidate is itself one of the tracked tasks.
pub open spec fn appears_in(list: Seq<TaskV>, t: TaskV) -> bool {
    exists|i: int| 0 <= i < list.len() && #[trigger] list[i] == t
}

/// No two tracked tasks share a key.
pub open spec fn distinct_keys(list: Seq<TaskV>) -> bool {
    forall|i: int, j: int| 0 <= i < j < list.len() ==> !same_key(list[i], list[j])
}

/// The list after a completed task's key has been marked done. A
/// completed task whose key is not tracked marks nothing.
pub open spec fn mark_done(list: Seq<TaskV>, completed: TaskV) -> Seq<TaskV> {
    Seq::new(
        list.len(),
        |i: int|
            if same_key(list[i], completed) {
                TaskV { domain: list[i].domain, path: list[i].path, status: 2 }
            } else {
                list[i]
            },
    )
}

/// A discovered candidate enters the list as a new pending task.
pub open spec fn as_pending(c: TaskV) -> TaskV {
    TaskV { domain: c.domain, path: c.path, status: 0 }
}

/// The dedup rule: candidates are considered one at a time against the
/// current list; a candidate whose key is already tracked (in any
/// status) is dropped, any other is appended as a new pending task.
pub open spec fn merge_new(list: Seq<TaskV>, cands: Seq<TaskV>) -> Seq<TaskV>
    decreases cands.len(),
{
    if cands.len() == 0 {
        list
    } else {
        let next = if key_in(list, cands[0]) {
            list
        } else {
            list.push(as_pending(cands[0]))
        };
        merge_new(next, cands.subrange(1, cands.len() as int))
    }
}

/// One worker result merged into the list: the completed task's key is
/// marked done, then the discovered candidates are deduplicated in order.
pub open spec fn merge_result(list: Seq<TaskV>, completed: TaskV, discovered: Seq<TaskV>) -> Seq<
    TaskV,
> {
    merge_new(mark_done(list, completed), discovered)
}

/// Dispatch marks every pending task in flight and changes nothing else.
pub open spec fn dispatch_all(list: Seq<TaskV>) -> Seq<TaskV> {
    Seq::new(
        list.len(),
        |i: int|
            if list[i].status == 0 {
                TaskV { domain: list[i].domain, path: list[i].path, status: 1 }
            } else {
                list[i]
            },
    )
}

/// The pending tasks, in list order, exactly as workers receive them.
pub open spec fn pendings_of(list: Seq<TaskV>) -> Seq<TaskV>
    decreases list.len(),
{
    if list.len() == 0 {
        Seq::empty()
    } else {
        let rest = pendings_of(list.drop_last());
        if list.last().status == 0 {
            rest.push(list.last())
        } else {
            rest
        }
    }
}

/// How many tracked tasks are not yet done.
pub open spec fn undone_count(list: Seq<TaskV>) -> nat
    decreases list.len(),
{
    if list.len() == 0 {
        0
    } else if list.last().status != 2 {
        undone_count(list.drop_last()) + 1
    } else {
        undone_count(list.drop_last())
    }
}

/// How many tracked tasks are not yet done and have an odd-length path.
pub open spec fn undone_odd_count(list: Seq<TaskV>) -> nat
    decreases list.len(),
{
    if list.len() == 0 {
        0
    } else if list.last().status != 2 && list.last().path.len() % 2 == 1 {
        undone_odd_count(list.drop_last()) + 1
    } else {
        undone_odd_count(list.drop_last())
    }
}

/// The discovery a spawning task makes, as a pending task image.
pub open spec fn child_of(t: TaskV) -> TaskV {
    TaskV { domain: t.domain, path: child_path(t.path), status: 0 }
}

/// `c` is exactly the discovery that `p` spawns under the test strategy.
pub open spec fn is_child_of(c: TaskV, p: TaskV) -> bool {
    spawns_child(p) && c.domain == p.domain && c.path == child_path(p.path)
}

/// `c` is the discovery of some task tracked in the list.
pub open spec fn discovered_from(list: Seq<TaskV>, c: TaskV) -> bool {
    exists|i: int| 0 <= i < list.len() && is_child_of(c, #[trigger] list[i])
}

/// Beyond the seed prefix, every tracked task is the discovery of some
/// tracked task: the crawl invents nothing.
pub open spec fn discoveries_sound(seeds_len: int, list: Seq<TaskV>) -> bool {
    forall|j: int|
        #![trigger list[j]]
        seeds_len <= j < list.len() ==> discovered_from(list, list[j])
}

/// Every tracked task that spawns a discovery has that discovery's key
/// tracked too: the crawl misses nothing it was shown.
pub open spec fn discoveries_complete(list: Seq<TaskV>) -> bool {
    forall|i: int|
        0 <= i < list.len() && spawns_child(#[trigger] list[i]) ==> key_in(list, child_of(list[i]))
}

/// The seed tasks keep their place and their key.
pub open spec fn keys_preserved(seeds: Seq<TaskV>, list: Seq<TaskV>) -> bool {
    list.len() >= seeds.len() && forall|i: int|
        0 <= i < seeds.len() ==> same_key(#[trigger] list[i], seeds[i])
}

// ---------------------------------------------------------------------------
// Facts about the model.
// ---------------------------------------------------------------------------

proof fn lemma_merge_new_grows(list: Seq<TaskV>, cands: Seq<TaskV>)
    ensures
        merge_new(list, cands).len() >= list.len(),
        forall|i: int| 0 <= i < list.len() ==> #[trigger] merge_new(list, cands)[i] == list[i],
    decreases cands.len(),
{
    if cands.len() > 0 {
        let rest = cands.subrange(1, cands.len() as int);
        let next = if key_in(list, cands[0]) {
            list
        } else {
            list.push(as_pending(cands[0]))
        };
        lemma_merge_new_grows(next, rest);
        assert(merge_new(list, cands) == merge_new(next, rest));
        assert forall|i: int| 0 <= i < list.len() implies #[trigger] merge_new(list, cands)[i]
            == list[i] by {
            assert(merge_new(next, rest)[i] == next[i]);
        }
    }
}

proof fn lemma_merge_new_appends(list: Seq<TaskV>, cands: Seq<TaskV>)
    ensures
        forall|j: int|
            #![trigger merge_new(list, cands)[j]]
            list.len() <= j < merge_new(list, cands).len() ==> exists|k: int|
                #![trigger cands[k]]
                0 <= k < cands.len() && merge_new(list, cands)[j] == as_pending(cands[k]),
    decreases cands.len(),
{
    if cands.len() > 0 {
        let rest = cands.subrange(1, cands.len() as int);
        let next = if key_in(list, cands[0]) {
            list
        } else {
            list.push(as_pending(cands[0]))
        };
        lemma_merge_new_appends(next, rest);
        lemma_merge_new_grows(next, rest);
        assert(merge_new(list, cands) == merge_new(next, rest));
        assert forall|j: int|
            #![trigger merge_new(list, cands)[j]]
            list.len() <= j < merge_new(list, cands).len() implies exists|k: int|
            #![trigger cands[k]]
            0 <= k < cands.len() && merge_new(list, cands)[j] == as_pending(cands[k]) by {
            if j < next.len() {
                assert(merge_new(next, rest)[j] == next[j]);
                assert(next[j] == as_pending(cands[0]));
            } else {
                assert(merge_new(next, rest)[j] == merge_new(list, cands)[j]);
                let k0 = choose|k: int|
                    #![trigger rest[k]]
                    0 <= k < rest.len() && merge_new(next, rest)[j] == as_pending(rest[k]);
                assert(rest[k0] == cands[k0 + 1]);
                assert(merge_new(list, cands)[j] == as_pending(cands[k0 + 1]));
            }
        }
    }
}

proof fn lemma_merge_new_covers(list: Seq<TaskV>, cands: Seq<TaskV>)
    ensures
        forall|k: int| 0 <= k < cands.len() ==> key_in(merge_new(list, cands), #[trigger] cands[k]),
    decreases cands.len(),
{
    if cands.len() > 0 {
        let rest = cands.subrange(1, cands.len() as int);
        let next = if key_in(list, cands[0]) {
            list
        } else {
            list.push(as_pending(cands[0]))
        };
        lemma_merge_new_covers(next, rest);
        lemma_merge_new_grows(next, rest);
        assert(merge_new(list, cands) == merge_new(next, rest));
        assert(key_in(next, cands[0])) by {
            if !key_in(list, cands[0]) {
                assert(same_key(next[list.len() as int], cands[0]));
            }
        }
        assert forall|k: int| 0 <= k < cands.len() implies key_in(
            merge_new(list, cands),
            #[trigger] cands[k],
        ) by {
            if k == 0 {
                let i0 = choose|i: int| 0 <= i < next.len() && same_key(#[trigger] next[i], cands[0]);
                assert(merge_new(next, rest)[i0] == next[i0]);
                assert(same_key(merge_new(list, cands)[i0], cands[0]));
            } else {
                assert(rest[k - 1] == cands[k]);
                assert(key_in(merge_new(next, rest), rest[k - 1]));
            }
        }
    }
}

proof fn lemma_merge_new_distinct(list: Seq<TaskV>, cands: Seq<TaskV>)
    requires
        distinct_keys(list),
    ensures
        distinct_keys(merge_new(list, cands)),
    decreases cands.len(),
{
    if cands.len() > 0 {
        let next = if key_in(list, cands[0]) {
            list
        } else {
            list.push(as_pending(cands[0]))
        };
        assert(distinct_keys(next));
        lemma_merge_new_distinct(next, cands.subrange(1, cands.len() as int));
    }
}

/// Dedup idempotence: merging candidates whose keys are all already
/// tracked — in any status — leaves the list exactly as it is: same
/// length, same tasks, same statuses.
pub proof fn lemma_dedup_idempotent(list: Seq<TaskV>, cands: Seq<TaskV>)
    requires
        forall|k: int| 0 <= k < cands.len() ==> key_in(list, #[trigger] cands[k]),
    ensures
        merge_new(list, cands) == list,
    decreases cands.len(),
{
    if cands.len() > 0 {
        let rest = cands.subrange(1, cands.len() as int);
        assert(forall|k: int| 0 <= k < rest.len() ==> rest[k] == cands[k + 1]);
        lemma_dedup_idempotent(list, rest);
    }
}

/// Monotonic status under merge: merging a worker result never shortens
/// the list, never lowers any tracked task's status, and never changes a
/// tracked task's key.
pub proof fn lemma_merge_status_monotonic(list: Seq<TaskV>, completed: TaskV, discovered: Seq<TaskV>)
    requires
        forall|i: int| 0 <= i < list.len() ==> 0 <= (#[trigger] list[i]).status <= 2,
    ensures
        merge_result(list, completed, discovered).len() >= list.len(),
        forall|i: int|
            0 <= i < list.len() ==> list[i].status <= (#[trigger] merge_result(
                list,
                completed,
                discovered,
            )[i]).status,
        forall|i: int|
            0 <= i < list.len() ==> same_key(
                #[trigger] merge_result(list, completed, discovered)[i],
                list[i],
            ),
{
    let marked = mark_done(list, completed);
    lemma_merge_new_grows(marked, discovered);
    assert forall|i: int| 0 <= i < list.len() implies list[i].status <= (#[trigger] merge_result(
        list,
        completed,
        discovered,
    )[i]).status && same_key(merge_result(list, completed, discovered)[i], list[i]) by {
        assert(merge_new(marked, discovered)[i] == marked[i]);
    }
}

/// Monotonic status under dispatch, and no double dispatch: dispatching
/// moves exactly the pending tasks to in flight, touches nothing else,
/// and a second dispatch straight after the first finds nothing pending,
/// hands out no task and changes nothing.
pub proof fn lemma_no_double_dispatch(list: Seq<TaskV>)
    ensures
        dispatch_all(list).len() == list.len(),
        forall|i: int|
            0 <= i < list.len() ==> (#[trigger] list[i]).status <= dispatch_all(list)[i].status
                <= 2 || list[i].status == dispatch_all(list)[i].status,
        forall|i: int| 0 <= i < list.len() ==> same_key(#[trigger] dispatch_all(list)[i], list[i]),
        pendings_of(dispatch_all(list)) == Seq::<TaskV>::empty(),
        dispatch_all(dispatch_all(list)) == dispatch_all(list),
{
    lemma_pendings_of_none(dispatch_all(list));
    assert(dispatch_all(dispatch_all(list)) =~= dispatch_all(list));
}

proof fn lemma_pendings_of_none(list: Seq<TaskV>)
    requires
        forall|i: int| 0 <= i < list.len() ==> (#[trigger] list[i]).status != 0,
    ensures
        pendings_of(list) == Seq::<TaskV>::empty(),
    decreases list.len(),
{
    if list.len() > 0 {
        lemma_pendings_of_none(list.drop_last());
    }
}

proof fn lemma_pendings_of_elements(list: Seq<TaskV>)
    ensures
        forall|k: int|
            0 <= k < pendings_of(list).len() ==> (#[trigger] pendings_of(list)[k]).status == 0,
        forall|k: int|
            0 <= k < pendings_of(list).len() ==> key_in(list, #[trigger] pendings_of(list)[k]),
        forall|k: int|
            0 <= k < pendings_of(list).len() ==> appears_in(list, #[trigger] pendings_of(list)[k]),
    decreases list.len(),
{
    if list.len() > 0 {
        let prefix = list.drop_last();
        let rest = pendings_of(prefix);
        lemma_pendings_of_elements(prefix);
        assert forall|k: int| 0 <= k < pendings_of(list).len() implies (#[trigger] pendings_of(
            list,
        )[k]).status == 0 && key_in(list, pendings_of(list)[k]) && appears_in(
            list,
            pendings_of(list)[k],
        ) by {
            if k < rest.len() {
                assert(rest[k].status == 0 && key_in(prefix, rest[k]));
                let i0 = choose|i: int| 0 <= i < prefix.len() && same_key(#[trigger] prefix[i], rest[k]);
                assert(same_key(list[i0], pendings_of(list)[k]));
                assert(appears_in(prefix, rest[k]));
                let i1 = choose|i: int| 0 <= i < prefix.len() && #[trigger] prefix[i] == rest[k];
                assert(list[i1] == pendings_of(list)[k]);
            } else {
                assert(pendings_of(list)[k] == list[list.len() - 1]);
                assert(same_key(list[list.len() - 1], pendings_of(list)[k]));
            }
        }
    }
}

/// One merge step of the test-strategy run preserves every round
/// invariant: statuses move forward, batch coverage shrinks by the
/// processed task, appended tasks are even-length pending discoveries,
/// and keys stay distinct and accounted for.
#[verifier::rlimit(100)]
proof fn lemma_process_step(
    seeds: Seq<TaskV>,
    head: Seq<TaskV>,
    l0: Seq<TaskV>,
    d: Seq<TaskV>,
    cur0: Seq<TaskV>,
    cur1: Seq<TaskV>,
    disc: Seq<TaskV>,
    jj: int,
    m: int,
)
    requires
        l0 == dispatch_all(head),
        d == pendings_of(head),
        m == d.len(),
        0 <= jj < m,
        distinct_keys(head),
        forall|k: int| 0 <= k < d.len() ==> (#[trigger] d[k]).status == 0 && key_in(head, d[k]),
        cur0.len() >= l0.len(),
        forall|i: int| 0 <= i < l0.len() ==> same_key(#[trigger] cur0[i], l0[i]),
        forall|i: int|
            #![trigger cur0[i]]
            0 <= i < l0.len() ==> cur0[i].status == 2 || (cur0[i].status == 1 && exists|k: int|
                #![trigger d[k]]
                jj <= k < m && same_key(cur0[i], d[k])),
        forall|i: int|
            #![trigger cur0[i]]
            l0.len() <= i < cur0.len() ==> cur0[i].status == 0 && cur0[i].path.len() % 2 == 0
                && exists|k: int| #![trigger d[k]] 0 <= k < jj && is_child_of(cur0[i], d[k]),
        distinct_keys(cur0),
        forall|i: int|
            0 <= i < cur0.len() && spawns_child(#[trigger] cur0[i]) ==> cur0[i].path.len()
                < usize::MAX,
        keys_preserved(seeds, cur0),
        discoveries_sound(seeds.len() as int, cur0),
        forall|i: int|
            0 <= i < cur0.len() && (#[trigger] cur0[i]).status == 2 && spawns_child(cur0[i])
                ==> key_in(cur0, child_of(cur0[i])),
        cur1 == merge_result(cur0, d[jj], disc),
        spawns_child(d[jj]) ==> disc.len() == 1 && disc[0].domain == d[jj].domain && disc[0].path
            == child_path(d[jj].path) && disc[0].status == 0,
        !spawns_child(d[jj]) ==> disc.len() == 0,
    ensures
        cur1.len() >= l0.len(),
        forall|i: int| 0 <= i < l0.len() ==> same_key(#[trigger] cur1[i], l0[i]),
        forall|i: int|
            #![trigger cur1[i]]
            0 <= i < l0.len() ==> cur1[i].status == 2 || (cur1[i].status == 1 && exists|k: int|
                #![trigger d[k]]
                jj + 1 <= k < m && same_key(cur1[i], d[k])),
        forall|i: int|
            #![trigger cur1[i]]
            l0.len() <= i < cur1.len() ==> cur1[i].status == 0 && cur1[i].path.len() % 2 == 0
                && exists|k: int| #![trigger d[k]] 0 <= k < jj + 1 && is_child_of(cur1[i], d[k]),
        distinct_keys(cur1),
        forall|i: int|
            0 <= i < cur1.len() && spawns_child(#[trigger] cur1[i]) ==> cur1[i].path.len()
                < usize::MAX,
        keys_preserved(seeds, cur1),
        discoveries_sound(seeds.len() as int, cur1),
        forall|i: int|
            0 <= i < cur1.len() && (#[trigger] cur1[i]).status == 2 && spawns_child(cur1[i])
                ==> key_in(cur1, child_of(cur1[i])),
{
            let marked = mark_done(cur0, d[jj]);
            assert(cur1 == merge_new(marked, disc));
            lemma_merge_new_grows(marked, disc);
            lemma_merge_new_appends(marked, disc);
            lemma_merge_new_covers(marked, disc);
            assert forall|a: int, b: int| 0 <= a < b < marked.len() implies !same_key(
                #[trigger] marked[a],
                #[trigger] marked[b],
            ) by {
                assert(!same_key(cur0[a], cur0[b]));
            }
            lemma_merge_new_distinct(marked, disc);
            // The key of the dispatched task sits in the stable prefix.
            assert(key_in(head, d[jj]));
            let ih = choose|i: int| 0 <= i < head.len() && same_key(#[trigger] head[i], d[jj]);
            assert(same_key(cur0[ih], d[jj]));
            // Tasks appended in earlier steps never share the
            // dispatched task's key, so marking leaves them alone.
            assert forall|i: int| l0.len() <= i < cur0.len() implies !same_key(
                #[trigger] cur0[i],
                d[jj],
            ) by {
                if same_key(cur0[i], d[jj]) {
                    assert(same_key(cur0[ih], cur0[i]));
                    assert(false);
                }
            }
            // Prefix statuses move forward as required.
            assert forall|i: int|
                #![trigger cur1[i]]
                0 <= i < l0.len() implies cur1[i].status == 2 || (cur1[i].status == 1
                && exists|k: int|
                #![trigger d[k]]
                jj + 1 <= k < m && same_key(cur1[i], d[k])) by {
                assert(cur1[i] == marked[i]);
                if cur0[i].status == 1 && !same_key(cur0[i], d[jj]) {
                    let kw = choose|k: int|
                        #![trigger d[k]]
                        jj <= k < m && same_key(cur0[i], d[k]);
                    assert(kw != jj);
                    assert(jj + 1 <= kw < m && same_key(cur1[i], d[kw]));
                }
            }
            // Appended tasks are pending, even-length discoveries.
            assert forall|i: int|
                #![trigger cur1[i]]
                l0.len() <= i < cur1.len() implies cur1[i].status == 0 && cur1[i].path.len()
                % 2 == 0 && exists|k: int| #![trigger d[k]] 0 <= k < jj + 1 && is_child_of(
                cur1[i],
                d[k],
            ) by {
                if i < cur0.len() {
                    assert(cur1[i] == marked[i]);
                    assert(marked[i] == cur0[i]);
                } else {
                    let k2 = choose|k: int|
                        #![trigger disc[k]]
                        0 <= k < disc.len() && cur1[i] == as_pending(disc[k]);
                    assert(spawns_child(d[jj]));
                    assert(disc[k2] == disc[0]);
                    assert(is_child_of(cur1[i], d[jj]));
                    assert(cur1[i].path.len() == d[jj].path.len() + 1);
                }
            }
            // Prefix keys are stable.
            assert forall|i: int| 0 <= i < l0.len() implies same_key(
                #[trigger] cur1[i],
                l0[i],
            ) by {
                assert(cur1[i] == marked[i]);
                assert(same_key(marked[i], cur0[i]));
            }
            // The spawn bound carries over.
            assert forall|i: int|
                0 <= i < cur1.len() && spawns_child(#[trigger] cur1[i]) implies cur1[i].path.len()
                < usize::MAX by {
                if i < cur0.len() {
                    assert(cur1[i] == marked[i]);
                    assert(cur1[i].path == cur0[i].path);
                }
            }
            assert(keys_preserved(seeds, cur1));
            // Every appended task is the discovery of an earlier one.
            assert forall|j2: int|
                #![trigger cur1[j2]]
                seeds.len() <= j2 < cur1.len() implies discovered_from(cur1, cur1[j2]) by {
                if j2 < cur0.len() {
                    assert(discovered_from(cur0, cur0[j2]));
                    let i2 = choose|i2: int|
                        0 <= i2 < cur0.len() && is_child_of(cur0[j2], #[trigger] cur0[i2]);
                    assert(cur1[i2] == marked[i2]);
                    assert(cur1[j2] == marked[j2]);
                    assert(cur1[i2].path == cur0[i2].path && cur1[i2].domain
                        == cur0[i2].domain);
                    assert(cur1[j2].path == cur0[j2].path && cur1[j2].domain
                        == cur0[j2].domain);
                    assert(is_child_of(cur1[j2], cur1[i2]));
                } else {
                    assert(cur1[ih].path == d[jj].path && cur1[ih].domain == d[jj].domain);
                    assert(is_child_of(cur1[j2], cur1[ih]));
                }
            }
            // Done tasks keep their discoveries tracked.
            assert forall|i2: int|
                0 <= i2 < cur1.len() && (#[trigger] cur1[i2]).status == 2 && spawns_child(
                    cur1[i2],
                ) implies key_in(cur1, child_of(cur1[i2])) by {
                if i2 < cur0.len() {
                    assert(cur1[i2] == marked[i2]);
                    if cur0[i2].status == 2 {
                        assert(spawns_child(cur0[i2]));
                        assert(key_in(cur0, child_of(cur0[i2])));
                        let iw = choose|i: int|
                            0 <= i < cur0.len() && same_key(
                                #[trigger] cur0[i],
                                child_of(cur0[i2]),
                            );
                        assert(cur1[iw] == marked[iw]);
                        assert(same_key(cur1[iw], child_of(cur1[i2])));
                    } else {
                        // Newly marked done: its key is the dispatched
                        // task's, whose discovery was just merged.
                        assert(same_key(cur0[i2], d[jj]));
                        assert(spawns_child(d[jj]));
                        assert(disc.len() == 1);
                        assert(key_in(cur1, disc[0]));
                        let iw = choose|i: int|
                            0 <= i < cur1.len() && same_key(#[trigger] cur1[i], disc[0]);
                        assert(same_key(cur1[iw], child_of(cur1[i2])));
                    }
                }
            }
    }

// ---------------------------------------------------------------------------
// The scheduler itself.
// ---------------------------------------------------------------------------

/// The crawl scheduler: sole owner of the authoritative task list. It
/// hands every pending task out to a worker, merges worker results back
/// in (marking tasks done and appending deduplicated discoveries), and
/// stops once no task is pending or in flight.
pub struct Scheduler {
    pub tasks: Vec<Task>,
    pub loop_delay: u64,
    pub test: bool,
}

impl Scheduler {
    pub fn new(tasks: Vec<Task>, loop_delay: u64, test: bool) -> (s: Self)
        ensures
            s.tasks == tasks,
            s.loop_delay == loop_delay,
            s.test == test,
    {
        Scheduler { tasks, loop_delay, test }
    }

    pub fn get_tasks(self) -> (tasks: Vec<Task>)
        ensures
            tasks == self.tasks,
    {
        self.tasks
    }

    /// True when some tracked task is still pending.
    #[verifier::loop_isolation(false)]
    pub fn any_pending(&self) -> (r: bool)
        ensures
            r == exists|i: int|
                0 <= i < self.tasks.deep_view().len() && (#[trigger] self.tasks.deep_view()[i]).status
                    == 0,
    {
        let n = self.tasks.len();
        let mut i: usize = 0;
        while i < n
            invariant
                i <= n,
                forall|k: int| 0 <= k < i ==> (#[trigger] self.tasks.deep_view()[k]).status != 0,
            decreases n - i,
        {
            if self.tasks[i].status == 0 {
                proof {
                    assert((self.tasks.deep_view()[i as int]).status == 0);
                }
                return true;
            }
            i += 1;
        }
        false
    }

    /// True when every tracked task is done.
    #[verifier::loop_isolation(false)]
    pub fn all_done(&self) -> (r: bool)
        ensures
            r == forall|i: int|
                0 <= i < self.tasks.deep_view().len() ==> (#[trigger] self.tasks.deep_view()[i]).status
                    == 2,
    {
        let n = self.tasks.len();
        let mut i: usize = 0;
        while i < n
            invariant
                i <= n,
                forall|k: int| 0 <= k < i ==> (#[trigger] self.tasks.deep_view()[k]).status == 2,
            decreases n - i,
        {
            if self.tasks[i].status != 2 {
                proof {
                    assert((self.tasks.deep_view()[i as int]).status != 2);
                }
                return false;
            }
            i += 1;
        }
        true
    }

    /// True when some tracked task shares the candidate's key.
    #[verifier::loop_isolation(false)]
    fn contains_key(&self, cand: &Task) -> (r: bool)
        ensures
            r == key_in(self.tasks.deep_view(), cand@),
    {
        let n = self.tasks.len();
        let mut i: usize = 0;
        while i < n
            invariant
                i <= n,
                forall|k: int|
                    0 <= k < i ==> !same_key(#[trigger] self.tasks.deep_view()[k], cand@),
            decreases n - i,
        {
            if self.tasks[i].key_matches(cand) {
                proof {
                    assert(same_key(self.tasks.deep_view()[i as int], cand@));
                }
                return true;
            }
            i += 1;
        }
        false
    }

    /// Merge one worker result into the task list: every tracked task
    /// sharing the completed task's key is marked done, then each
    /// discovered candidate is checked against the current list and
    /// appended as a new pending task only when its key is not yet
    /// tracked (the dedup rule). A completed task whose key is unknown
    /// marks nothing.
    #[verifier::loop_isolation(false)]
    pub fn handle_received_data(&mut self, data: (Task, Vec<Task>))
        ensures
            final(self).tasks.deep_view() == merge_result(
                old(self).tasks.deep_view(),
                data.0@,
                data.1.deep_view(),
            ),
            final(self).loop_delay == old(self).loop_delay,
            final(self).test == old(self).test,
    {
        let (task_complete, tasks_todo) = data;
        let ghost orig = self.tasks.deep_view();
        let ghost marked = mark_done(orig, task_complete@);
        let ghost odelay = self.loop_delay;
        let ghost otest = self.test;
        let n = self.tasks.len();
        let mut i: usize = 0;
        while i < n
            invariant
                n == self.tasks@.len(),
                i <= n,
                self.tasks@.len() == orig.len(),
                self.loop_delay == odelay,
                self.test == otest,
                forall|k: int| 0 <= k < i ==> #[trigger] self.tasks.deep_view()[k] == marked[k],
                forall|k: int| i <= k < n ==> #[trigger] self.tasks.deep_view()[k] == orig[k],
            decreases n - i,
        {
            let ghost prev = self.tasks.deep_view();
            proof {
                assert(prev[i as int] == orig[i as int]);
            }
            if self.tasks[i].key_matches(&task_complete) {
                self.tasks[i].status = 2;
                proof {
                    assert(same_key(orig[i as int], task_complete@));
                    assert(self.tasks@[i as int].status == 2);
                    assert(self.tasks@[i as int].domain@ == orig[i as int].domain);
                    assert(self.tasks@[i as int].sub_domain@ == orig[i as int].path);
                    assert(self.tasks.deep_view()[i as int] == marked[i as int]);
                }
            } else {
                proof {
                    assert(!same_key(orig[i as int], task_complete@));
                    assert(self.tasks.deep_view()[i as int] == orig[i as int]);
                    assert(marked[i as int] == orig[i as int]);
                }
            }
            proof {
                assert(self.tasks@.len() == prev.len());
                assert(forall|k: int|
                    0 <= k < n && k != i ==> #[trigger] self.tasks.deep_view()[k] == prev[k]);
                assert(self.tasks.deep_view()[i as int] == marked[i as int]);
            }
            i += 1;
        }
        proof {
            assert(self.tasks.deep_view() =~= marked);
            assert(tasks_todo.deep_view().subrange(0, tasks_todo.deep_view().len() as int)
                =~= tasks_todo.deep_view());
        }
        let m = tasks_todo.len();
        let mut j: usize = 0;
        while j < m
            invariant
                m == tasks_todo@.len(),
                j <= m,
                self.loop_delay == odelay,
                self.test == otest,
                merge_new(
                    self.tasks.deep_view(),
                    tasks_todo.deep_view().subrange(j as int, m as int),
                ) == merge_new(marked, tasks_todo.deep_view()),
            decreases m - j,
        {
            let ghost before = self.tasks.deep_view();
            let ghost suffix = tasks_todo.deep_view().subrange(j as int, m as int);
            let cand = &tasks_todo[j];
            if !self.contains_key(cand) {
                let t = Task {
                    domain: cand.domain.clone(),
                    sub_domain: cand.sub_domain.clone(),
                    status: 0,
                };
                self.tasks.push(t);
                proof {
                    assert(t@ == as_pending(cand@));
                    assert(self.tasks.deep_view() =~= before.push(as_pending(cand@)));
                }
            }
            proof {
                assert(suffix[0] == cand@);
                assert(suffix.subrange(1, suffix.len() as int) =~= tasks_todo.deep_view().subrange(
                    j + 1,
                    m as int,
                ));
            }
            j += 1;
        }
        proof {
            assert(tasks_todo.deep_view().subrange(m as int, m as int).len() == 0);
        }
    }

    /// Dispatch: every pending task is handed out as an owned pending
    /// copy, in list order, and is marked in flight at the same moment —
    /// so no task can ever be dispatched twice.
    #[verifier::loop_isolation(false)]
    pub fn start_new_tasks(&mut self) -> (dispatched: Vec<Task>)
        ensures
            final(self).tasks.deep_view() == dispatch_all(old(self).tasks.deep_view()),
            dispatched.deep_view() == pendings_of(old(self).tasks.deep_view()),
            final(self).loop_delay == old(self).loop_delay,
            final(self).test == old(self).test,
    {
        let ghost orig = self.tasks.deep_view();
        let ghost odelay = self.loop_delay;
        let ghost otest = self.test;
        let mut dispatched: Vec<Task> = Vec::new();
        let n = self.tasks.len();
        let mut i: usize = 0;
        proof {
            assert(dispatched.deep_view() =~= pendings_of(orig.subrange(0, 0)));
        }
        while i < n
            invariant
                n == self.tasks@.len(),
                i <= n,
                self.tasks@.len() == orig.len(),
                self.loop_delay == odelay,
                self.test == otest,
                forall|k: int|
                    0 <= k < i ==> #[trigger] self.tasks.deep_view()[k] == dispatch_all(orig)[k],
                forall|k: int| i <= k < n ==> #[trigger] self.tasks.deep_view()[k] == orig[k],
                dispatched.deep_view() == pendings_of(orig.subrange(0, i as int)),
            decreases n - i,
        {
            let ghost dprev = dispatched.deep_view();
            let ghost prev = self.tasks.deep_view();
            if self.tasks[i].status == 0 {
                let t = self.tasks[i].clone();
                proof {
                    assert(t@ == self.tasks.deep_view()[i as int]);
                    assert(t@ == orig[i as int]);
                }
                dispatched.push(t);
                self.tasks[i].status = 1;
                proof {
                    assert(dispatched.deep_view() =~= dprev.push(orig[i as int]));
                    assert(self.tasks.deep_view()[i as int] == dispatch_all(orig)[i as int]);
                }
            } else {
                proof {
                    assert(self.tasks.deep_view()[i as int] == dispatch_all(orig)[i as int]);
                }
            }
            proof {
                assert(self.tasks@.len() == prev.len());
                assert(forall|k: int|
                    0 <= k < n && k != i ==> #[trigger] self.tasks.deep_view()[k] == prev[k]);
                assert(orig.subrange(0, i + 1).drop_last() =~= orig.subrange(0, i as int));
                assert(orig.subrange(0, i + 1).last() == orig[i as int]);
            }
            i += 1;
        }
        proof {
            assert(orig.subrange(0, n as int) =~= orig);
            assert(self.tasks.deep_view() =~= dispatch_all(orig));
        }
        dispatched
    }

    /// Run the crawl to completion under the deterministic test
    /// strategy: each round dispatches every pending task, feeds each
    /// dispatched task to a worker, and merges each result back in. The
    /// loop halts — after finitely many rounds, whatever the configured
    /// polling delay — exactly when no task is pending or in flight,
    /// that is, when every tracked task is done.
    ///
    /// On return the list extends the seed list: seeds keep their place
    /// and key, every appended task is the discovery of an earlier
    /// tracked task, every discovery a tracked task spawns is itself
    /// tracked, and keys stay pairwise distinct.
    ///
    /// A live (network-backed) run is driven from outside the library
    /// with the same [`Scheduler::start_new_tasks`] /
    /// [`Scheduler::handle_received_data`] protocol.
    #[verifier::loop_isolation(false)]
    #[verifier::rlimit(100)]
    pub fn run_tasks(&mut self)
        requires
            old(self).test,
            distinct_keys(old(self).tasks.deep_view()),
            forall|i: int|
                0 <= i < old(self).tasks.deep_view().len()
                    ==> (#[trigger] old(self).tasks.deep_view()[i]).status == 0,
            forall|i: int|
                0 <= i < old(self).tasks.deep_view().len() && spawns_child(
                    #[trigger] old(self).tasks.deep_view()[i],
                ) ==> old(self).tasks.deep_view()[i].path.len() < usize::MAX,
        ensures
            forall|i: int|
                0 <= i < final(self).tasks.deep_view().len()
                    ==> (#[trigger] final(self).tasks.deep_view()[i]).status == 2,
            keys_preserved(old(self).tasks.deep_view(), final(self).tasks.deep_view()),
            discoveries_sound(
                old(self).tasks.deep_view().len() as int,
                final(self).tasks.deep_view(),
            ),
            discoveries_complete(final(self).tasks.deep_view()),
            distinct_keys(final(self).tasks.deep_view()),
            final(self).loop_delay == old(self).loop_delay,
            final(self).test == old(self).test,
    {
        let ghost seeds = self.tasks.deep_view();
        while self.any_pending()
            invariant
                self.loop_delay == old(self).loop_delay,
                self.test == old(self).test,
                distinct_keys(self.tasks.deep_view()),
                forall|i: int|
                    0 <= i < self.tasks.deep_view().len() ==> (#[trigger] self.tasks.deep_view()[i]).status
                        == 0 || self.tasks.deep_view()[i].status == 2,
                forall|i: int|
                    0 <= i < self.tasks.deep_view().len() && spawns_child(
                        #[trigger] self.tasks.deep_view()[i],
                    ) ==> self.tasks.deep_view()[i].path.len() < usize::MAX,
                keys_preserved(seeds, self.tasks.deep_view()),
                discoveries_sound(seeds.len() as int, self.tasks.deep_view()),
                forall|i: int|
                    0 <= i < self.tasks.deep_view().len() && (#[trigger] self.tasks.deep_view()[i]).status
                        == 2 && spawns_child(self.tasks.deep_view()[i]) ==> key_in(
                        self.tasks.deep_view(),
                        child_of(self.tasks.deep_view()[i]),
                    ),
            decreases undone_odd_count(self.tasks.deep_view()), undone_count(
                self.tasks.deep_view(),
            ),
        {
            let ghost head = self.tasks.deep_view();
            let ghost pend0 = choose|i: int|
                0 <= i < head.len() && (#[trigger] head[i]).status == 0;
            let dispatched = self.start_new_tasks();
            let ghost l0 = self.tasks.deep_view();
            let ghost d = dispatched.deep_view();
            proof {
                lemma_pendings_of_elements(head);
                lemma_pendings_of_covers(head);
                assert forall|k: int|
                    0 <= k < d.len() && spawns_child(#[trigger] d[k]) implies d[k].path.len()
                    < usize::MAX by {
                    assert(key_in(head, d[k]));
                    let ih = choose|i: int| 0 <= i < head.len() && same_key(#[trigger] head[i], d[k]);
                    assert(head[ih].path == d[k].path);
                }
                assert(l0.len() == head.len());
                assert forall|i: int| 0 <= i < l0.len() implies same_key(
                    #[trigger] l0[i],
                    head[i],
                ) && l0[i].status != 0 && (l0[i].status == 2 || l0[i].status == 1) by {
                    assert(head[i].status == 0 || head[i].status == 2);
                }
                lemma_keys_stable(head, l0, seeds);
                // Every freshly in-flight task is covered by the batch.
                assert forall|i: int|
                    #![trigger l0[i]]
                    0 <= i < l0.len() implies l0[i].status == 2 || (l0[i].status == 1
                    && exists|k: int| #![trigger d[k]] 0 <= k < d.len() && same_key(l0[i], d[k])) by {
                    if head[i].status == 0 {
                        let k0 = choose|k: int|
                            #![trigger d[k]]
                            0 <= k < d.len() && d[k] == head[i];
                        assert(same_key(l0[i], d[k0]));
                    }
                }
                // Done tasks carried over keep their discoveries tracked.
                assert forall|i: int|
                    0 <= i < l0.len() && (#[trigger] l0[i]).status == 2 && spawns_child(l0[i])
                    implies key_in(l0, child_of(l0[i])) by {
                    assert(head[i].status == 2);
                    assert(spawns_child(head[i]));
                    assert(key_in(head, child_of(head[i])));
                    let iw = choose|i2: int|
                        0 <= i2 < head.len() && same_key(#[trigger] head[i2], child_of(head[i]));
                    assert(same_key(l0[iw], child_of(l0[i])));
                }
            }
            let m = dispatched.len();
            let mut j: usize = 0;
            while j < m
                invariant
                    j <= m,
                    m == dispatched@.len(),
                    d == dispatched.deep_view(),
                    self.loop_delay == old(self).loop_delay,
                    self.test == old(self).test,
                    self.tasks.deep_view().len() >= l0.len(),
                    forall|i: int|
                        0 <= i < l0.len() ==> same_key(#[trigger] self.tasks.deep_view()[i], l0[i]),
                    forall|i: int|
                        #![trigger self.tasks.deep_view()[i]]
                        0 <= i < l0.len() ==> self.tasks.deep_view()[i].status == 2 || (
                        self.tasks.deep_view()[i].status == 1 && exists|k: int|
                            #![trigger d[k]]
                            j <= k < m && same_key(self.tasks.deep_view()[i], d[k])),
                    forall|i: int|
                        #![trigger self.tasks.deep_view()[i]]
                        l0.len() <= i < self.tasks.deep_view().len()
                            ==> self.tasks.deep_view()[i].status == 0
                            && self.tasks.deep_view()[i].path.len() % 2 == 0 && exists|k: int|
                            #![trigger d[k]]
                            0 <= k < j && is_child_of(self.tasks.deep_view()[i], d[k]),
                    distinct_keys(self.tasks.deep_view()),
                    forall|i: int|
                        0 <= i < self.tasks.deep_view().len() && spawns_child(
                            #[trigger] self.tasks.deep_view()[i],
                        ) ==> self.tasks.deep_view()[i].path.len() < usize::MAX,
                    keys_preserved(seeds, self.tasks.deep_view()),
                    discoveries_sound(seeds.len() as int, self.tasks.deep_view()),
                    forall|i: int|
                        0 <= i < self.tasks.deep_view().len() && (
                        #[trigger] self.tasks.deep_view()[i]).status == 2 && spawns_child(
                            self.tasks.deep_view()[i],
                        ) ==> key_in(self.tasks.deep_view(), child_of(self.tasks.deep_view()[i])),
                decreases m - j,
            {
                let ghost cur0 = self.tasks.deep_view();
                let w = Worker::new(dispatched[j].clone(), true);
                proof {
                    assert(w.task@ == d[j as int]);
                }
                let (done_task, discovered) = w.run_task();
                let ghost disc = discovered.deep_view();
                self.handle_received_data((done_task, discovered));
                proof {
                    lemma_process_step(
                        seeds,
                        head,
                        l0,
                        d,
                        cur0,
                        self.tasks.deep_view(),
                        disc,
                        j as int,
                        m as int,
                    );
                }
                j += 1;
            }
            proof {
                let cur = self.tasks.deep_view();
                // Every prefix task is done; appended tasks are pending and
                // even, so nothing undone has an odd path.
                assert forall|i: int|
                    0 <= i < cur.len() implies (#[trigger] cur[i]).status == 0 || cur[i].status
                    == 2 by {}
                lemma_undone_odd_zero(cur);
                lemma_undone_count_pos(head, pend0);
                if exists|i: int|
                    0 <= i < head.len() && (#[trigger] head[i]).status != 2 && head[i].path.len()
                        % 2 == 1 {
                    let io = choose|i: int|
                        0 <= i < head.len() && (#[trigger] head[i]).status != 2 && head[i].path.len()
                            % 2 == 1;
                    lemma_undone_odd_pos(head, io);
                    assert(undone_odd_count(cur) < undone_odd_count(head));
                } else {
                    // No undone task in this round had an odd path, so the
                    // batch spawned nothing and the whole list is now done.
                    lemma_undone_odd_zero(head);
                    assert forall|k: int| 0 <= k < d.len() implies !spawns_child(
                        #[trigger] d[k],
                    ) by {
                        assert(appears_in(head, d[k]));
                        let ihk = choose|i: int| 0 <= i < head.len() && #[trigger] head[i] == d[k];
                        assert(head[ihk].status != 2 ==> head[ihk].path.len() % 2 == 0);
                    }
                    assert(cur.len() == l0.len()) by {
                        if cur.len() > l0.len() {
                            assert(cur[l0.len() as int].status == 0);
                        }
                    }
                    assert forall|i: int| 0 <= i < cur.len() implies (#[trigger] cur[i]).status
                        == 2 by {}
                    lemma_undone_count_all_done(cur);
                    assert(undone_count(cur) < undone_count(head));
                }
            }
        }
        proof {
            assert forall|i: int|
                0 <= i < self.tasks.deep_view().len() implies (
            #[trigger] self.tasks.deep_view()[i]).status == 2 by {
                assert(self.tasks.deep_view()[i].status != 0);
            }
        }
    }
}

proof fn lemma_pendings_of_covers(list: Seq<TaskV>)
    ensures
        forall|i: int|
            #![trigger list[i]]
            0 <= i < list.len() && list[i].status == 0 ==> exists|k: int|
                #![trigger pendings_of(list)[k]]
                0 <= k < pendings_of(list).len() && pendings_of(list)[k] == list[i],
    decreases list.len(),
{
    if list.len() > 0 {
        let prefix = list.drop_last();
        let rest = pendings_of(prefix);
        lemma_pendings_of_covers(prefix);
        assert forall|i: int|
            #![trigger list[i]]
            0 <= i < list.len() && list[i].status == 0 implies exists|k: int|
            #![trigger pendings_of(list)[k]]
            0 <= k < pendings_of(list).len() && pendings_of(list)[k] == list[i] by {
            if i < list.len() - 1 {
                assert(prefix[i] == list[i]);
                let k0 = choose|k: int|
                    #![trigger rest[k]]
                    0 <= k < rest.len() && rest[k] == prefix[i];
                assert(pendings_of(list)[k0] == list[i]);
            } else {
                assert(pendings_of(list)[rest.len() as int] == list[i]);
            }
        }
    }
}

/// Changing statuses alone disturbs none of the key-based properties.
proof fn lemma_keys_stable(a: Seq<TaskV>, b: Seq<TaskV>, seeds: Seq<TaskV>)
    requires
        b.len() == a.len(),
        forall|i: int|
            0 <= i < a.len() ==> (#[trigger] b[i]).domain == a[i].domain && b[i].path == a[i].path,
        distinct_keys(a),
        keys_preserved(seeds, a),
        discoveries_sound(seeds.len() as int, a),
        forall|i: int|
            0 <= i < a.len() && spawns_child(#[trigger] a[i]) ==> a[i].path.len() < usize::MAX,
    ensures
        distinct_keys(b),
        keys_preserved(seeds, b),
        discoveries_sound(seeds.len() as int, b),
        forall|i: int|
            0 <= i < b.len() && spawns_child(#[trigger] b[i]) ==> b[i].path.len() < usize::MAX,
{
    assert forall|i: int, j: int| 0 <= i < j < b.len() implies !same_key(
        #[trigger] b[i],
        #[trigger] b[j],
    ) by {
        assert(!same_key(a[i], a[j]));
    }
    assert forall|i: int| 0 <= i < seeds.len() implies same_key(#[trigger] b[i], seeds[i]) by {
        assert(same_key(a[i], seeds[i]));
    }
    assert forall|j: int|
        #![trigger b[j]]
        seeds.len() <= j < b.len() implies discovered_from(b, b[j]) by {
        assert(discovered_from(a, a[j]));
        let i0 = choose|i: int| 0 <= i < a.len() && is_child_of(a[j], #[trigger] a[i]);
        assert(is_child_of(b[j], b[i0]));
    }
    assert forall|i: int|
        0 <= i < b.len() && spawns_child(#[trigger] b[i]) implies b[i].path.len()
        < usize::MAX by {
        assert(spawns_child(a[i]));
    }
}

proof fn lemma_undone_count_all_done(list: Seq<TaskV>)
    requires
        forall|i: int| 0 <= i < list.len() ==> (#[trigger] list[i]).status == 2,
    ensures
        undone_count(list) == 0,
        undone_odd_count(list) == 0,
    decreases list.len(),
{
    if list.len() > 0 {
        lemma_undone_count_all_done(list.drop_last());
    }
}

proof fn lemma_undone_count_pos(list: Seq<TaskV>, i: int)
    requires
        0 <= i < list.len(),
        list[i].status != 2,
    ensures
        undone_count(list) >= 1,
    decreases list.len(),
{
    if i < list.len() - 1 {
        lemma_undone_count_pos(list.drop_last(), i);
    }
}

proof fn lemma_undone_odd_zero(list: Seq<TaskV>)
    requires
        forall|i: int|
            0 <= i < list.len() && (#[trigger] list[i]).status != 2 ==> list[i].path.len() % 2 == 0,
    ensures
        undone_odd_count(list) == 0,
    decreases list.len(),
{
    if list.len() > 0 {
        lemma_undone_odd_zero(list.drop_last());
    }
}

proof fn lemma_undone_odd_pos(list: Seq<TaskV>, i: int)
    requires
        0 <= i < list.len(),
        list[i].status != 2,
        list[i].path.len() % 2 == 1,
    ensures
        undone_odd_count(list) >= 1,
    decreases list.len(),
{
    if i < list.len() - 1 {
        lemma_undone_odd_pos(list.drop_last(), i);
    }
}

} // verus!
