//! The executable task table.
//!
//! `TaskStore` keeps the tasks in memory and serves one request at a time:
//! each method is one indivisible step of the protocol, and does to the table
//! exactly what the model in [`crate::protocol`] says.

use crate::error::StoreError;
use crate::models::{Data, OptionalData, RowId, Task};
use crate::outcome::{
    claim_outcome, completion_outcome, group_bounds, group_count, group_end, group_start,
};
use crate::protocol::{
    has_incomplete, is_next, is_open, is_open_at, lemma_next_index, lemma_open_index,
    lemma_with_records_twice, next_index, open_index, goes_first, Reply, Request, StoreState,
};
use vstd::prelude::*;
use vstd::slice::slice_subrange;

verus! {

/// A task table with its ordering sequence.
pub struct TaskStore {
    tasks: Vec<Task>,
    last_id: i64,
    sequence: u64,
}

impl View for TaskStore {
    type V = StoreState;

    closed spec fn view(&self) -> StoreState {
        StoreState { tasks: self.tasks@, last_id: self.last_id, sequence: self.sequence }
    }
}

impl TaskStore {
    #[verifier::type_invariant]
    spec fn well_formed(self) -> bool {
        self@.wf()
    }

    /// An empty table: no task, no identifier and no key given out yet.
    pub fn new() -> (store: TaskStore)
        ensures
            store@ == StoreState::empty(),
            store@.wf(),
    {
        TaskStore { tasks: Vec::new(), last_id: 0, sequence: 0 }
    }

    /// An empty table whose counters start where another table left off: the
    /// first task gets the identifier `last_id + 1` and the key `sequence + 1`.
    ///
    /// `None` where `last_id` is negative: no table has given out such an
    /// identifier.
    pub fn with_counters(last_id: i64, sequence: u64) -> (store: Option<TaskStore>)
        ensures
            match store {
                Some(store) => {
                    &&& last_id >= 0
                    &&& store@ == (StoreState { tasks: Seq::empty(), last_id, sequence })
                    &&& store@.wf()
                },
                None => last_id < 0,
            },
    {
        if last_id < 0 {
            None
        } else {
            Some(TaskStore { tasks: Vec::new(), last_id, sequence })
        }
    }

    /// The number of tasks, complete or not.
    pub fn len(&self) -> (len: usize)
        ensures
            len == self@.tasks.len(),
    {
        self.tasks.len()
    }

    /// The task with the identifier `id`, as it stands now; `None` where the
    /// table has no such task. A task is never seen partly completed.
    pub fn task(&self, id: RowId) -> (found: Option<Task>)
        ensures
            self@.wf(),
            match found {
                Some(task) => task.id == id && task.settled() && self@.tasks.contains(task),
                None => forall|i: int|
                    0 <= i < self@.tasks.len() ==> (#[trigger] self@.tasks[i]).id != id,
            },
    {
        proof {
            use_type_invariant(self);
        }
        let mut i: usize = 0;
        while i < self.tasks.len()
            invariant
                i <= self.tasks.len(),
                self@.wf(),
                forall|j: int| 0 <= j < i ==> (#[trigger] self.tasks@[j]).id != id,
            decreases self.tasks.len() - i,
        {
            let task = self.tasks[i];
            if task.id.0 == id.0 {
                return Some(task);
            }
            i += 1;
        }
        None
    }

    /// The place of the task that the next claim hands out, if any task is
    /// incomplete.
    fn next_task(&self) -> (found: Option<usize>)
        ensures
            match found {
                Some(i) => is_next(self.tasks@, i as int),
                None => !has_incomplete(self.tasks@),
            },
    {
        let mut best: Option<usize> = None;
        let mut i: usize = 0;
        while i < self.tasks.len()
            invariant
                i <= self.tasks.len(),
                match best {
                    Some(b) => {
                        &&& b < i
                        &&& !self.tasks@[b as int].complete
                        &&& forall|j: int|
                            0 <= j < i && !(#[trigger] self.tasks@[j]).complete ==> goes_first(
                                self.tasks@[b as int],
                                self.tasks@[j],
                            )
                    },
                    None => forall|j: int| 0 <= j < i ==> (#[trigger] self.tasks@[j]).complete,
                },
            decreases self.tasks.len() - i,
        {
            let task = self.tasks[i];
            if !task.complete {
                match best {
                    None => {
                        best = Some(i);
                    },
                    Some(b) => {
                        let held = self.tasks[b];
                        if task.order_key < held.order_key || (task.order_key == held.order_key
                            && task.id.0 < held.id.0) {
                            best = Some(i);
                        }
                    },
                }
            }
            i += 1;
        }
        best
    }

    /// Claims the next task: the incomplete task with the smallest key is
    /// moved to the back of the claim order and handed out.
    ///
    /// Fails with `NoTaskAvailable` where every task is complete, and with
    /// `StoreUnavailable` where the ordering sequence is used up; a failed
    /// claim changes nothing.
    pub fn claim(&mut self) -> (claimed: Result<(Data, RowId), StoreError>)
        ensures
            (final(self)@, claimed) == old(self)@.claim(),
            final(self)@.wf(),
    {
        proof {
            use_type_invariant(&*self);
        }
        match self.next_task() {
            None => claim_outcome(None),
            Some(i) => {
                if self.sequence == u64::MAX {
                    return Err(StoreError::StoreUnavailable);
                }
                proof {
                    assert(!self.tasks@[i as int].complete);
                    lemma_next_index(self@, i as int);
                }
                let task = self.tasks[i];
                let key: u64 = self.sequence + 1;
                let mut tasks: Vec<Task> = Vec::new();
                std::mem::swap(&mut tasks, &mut self.tasks);
                tasks.set(i, Task { order_key: key, ..task });
                self.sequence = key;
                self.tasks = tasks;
                claim_outcome(Some((task.data, task.id)))
            },
        }
    }

    /// Writes the results to the incomplete task with the identifier `id` and
    /// marks it complete, in one step; gives the number of tasks changed.
    fn mark_complete(&mut self, id: RowId, results: OptionalData) -> (rows: u64)
        ensures
            final(self)@ == old(self)@.complete(id, results).0,
            final(self)@.wf(),
            rows == if is_open(old(self)@.tasks, id) {
                1u64
            } else {
                0u64
            },
    {
        proof {
            use_type_invariant(&*self);
        }
        let mut i: usize = 0;
        while i < self.tasks.len()
            invariant
                i <= self.tasks.len(),
                *self == *old(self),
                self@.wf(),
                forall|j: int| 0 <= j < i ==> !is_open_at(self.tasks@, id, j),
            decreases self.tasks.len() - i,
        {
            let task = self.tasks[i];
            if task.id.0 == id.0 && !task.complete {
                proof {
                    assert(is_open_at(self.tasks@, id, i as int));
                    lemma_open_index(self@, id, i as int);
                }
                let mut tasks: Vec<Task> = Vec::new();
                std::mem::swap(&mut tasks, &mut self.tasks);
                tasks.set(i, Task { data: task.data.with_results(results), complete: true, ..task });
                self.tasks = tasks;
                return 1;
            }
            i += 1;
        }
        0
    }

    /// Completes a task: records the results of the task with the identifier
    /// `id` and marks it complete, in one step.
    ///
    /// Fails with `AlreadyCompletedOrUnknown`, and changes nothing, where the
    /// table has no such task or the task is complete already.
    pub fn complete(&mut self, id: RowId, results: OptionalData) -> (completed: Result<
        (),
        StoreError,
    >)
        ensures
            (final(self)@, completed) == old(self)@.complete(id, results),
            final(self)@.wf(),
    {
        let rows = self.mark_complete(id, results);
        completion_outcome(rows)
    }

    /// Serves one request, a claim or a completion, and gives the answer.
    pub fn serve(&mut self, request: Request) -> (reply: Reply)
        ensures
            (final(self)@, reply) == old(self)@.step(request),
            final(self)@.wf(),
    {
        match request {
            Request::Claim => Reply::Claimed(self.claim()),
            Request::Complete(id, results) => Reply::Completed(self.complete(id, results)),
        }
    }

    /// Inserts one group of records as new tasks, all of them or none.
    ///
    /// Fails with `StoreUnavailable`, and changes nothing, where the table has
    /// no room for the whole group.
    pub fn insert_simulation_rows(&mut self, data_slice: &[Data]) -> (inserted: Result<
        (),
        StoreError,
    >)
        ensures
            (final(self)@, inserted) == old(self)@.insert(data_slice@),
            final(self)@.wf(),
    {
        proof {
            use_type_invariant(&*self);
        }
        let count: usize = data_slice.len();
        let free_ids: u64 = (i64::MAX - self.last_id) as u64;
        let free_keys: u64 = u64::MAX - self.sequence;
        if count as u64 > free_ids || count as u64 > free_keys {
            return Err(StoreError::StoreUnavailable);
        }
        let mut tasks: Vec<Task> = Vec::new();
        std::mem::swap(&mut tasks, &mut self.tasks);
        let mut id: i64 = self.last_id;
        let mut key: u64 = self.sequence;
        let mut k: usize = 0;
        while k < count
            invariant
                k <= count,
                count == data_slice@.len(),
                count <= old(self)@.room(),
                id == old(self)@.last_id + k,
                key == old(self)@.sequence + k,
                tasks@ == old(self)@.with_records(data_slice@.take(k as int)).tasks,
            decreases count - k,
        {
            id = id + 1;
            key = key + 1;
            let task = Task {
                id: RowId(id),
                data: data_slice[k].without_results(),
                complete: false,
                order_key: key,
            };
            tasks.push(task);
            proof {
                let before = old(self)@.with_records(data_slice@.take(k as int));
                let after = old(self)@.with_records(data_slice@.take(k + 1));
                assert(after.tasks =~= before.tasks.push(task));
            }
            k += 1;
        }
        proof {
            assert(data_slice@.take(count as int) =~= data_slice@);
            crate::protocol::lemma_with_records_wf(old(self)@, data_slice@);
        }
        self.last_id = id;
        self.sequence = key;
        self.tasks = tasks;
        Ok(())
    }

    /// Seeds the table: one new task for each record, in the order of the
    /// records, inserted in groups of at most `GROUP_SIZE`.
    ///
    /// Fails with `StoreUnavailable` at the first group that does not fit; the
    /// groups before it stay, that group and those after it are left out.
    pub fn seed(&mut self, records: &[Data]) -> (seeded: Result<(), StoreError>)
        ensures
            (final(self)@, seeded) == old(self)@.seed(records@),
            final(self)@.wf(),
    {
        proof {
            use_type_invariant(&*self);
        }
        let len: usize = records.len();
        let groups = group_bounds(len);
        let mut done: usize = 0;
        let mut g: usize = 0;
        proof {
            assert(records@.take(0) =~= Seq::<Data>::empty());
            assert(self@.with_records(Seq::<Data>::empty()).tasks =~= self@.tasks);
        }
        while g < groups.len()
            invariant
                g <= groups.len(),
                len == records@.len(),
                groups@.len() == group_count(len as int),
                forall|k: int|
                    0 <= k < groups@.len() ==> (#[trigger] groups@[k]).0 == group_start(k)
                        && groups@[k].1 == group_end(k, len as int),
                old(self)@.wf(),
                self@.wf(),
                done <= len,
                done <= old(self)@.room(),
                g < groups@.len() ==> done == group_start(g as int),
                g == groups@.len() ==> done == len,
                self@ == old(self)@.with_records(records@.take(done as int)),
            decreases groups.len() - g,
        {
            let (start, end) = groups[g];
            let group = slice_subrange(records, start, end);
            match self.insert_simulation_rows(group) {
                Ok(()) => {
                    proof {
                        lemma_with_records_twice(
                            old(self)@,
                            records@.take(start as int),
                            group@,
                        );
                        assert(records@.take(start as int) + group@ =~= records@.take(end as int));
                    }
                    done = end;
                },
                Err(_) => {
                    return Err(StoreError::StoreUnavailable);
                },
            }
            g += 1;
        }
        proof {
            assert(records@.take(len as int) =~= records@);
        }
        Ok(())
    }
}

} // verus!
