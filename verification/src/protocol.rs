//! The model of the task table: a sequence of tasks, the last identifier given
//! out and the last value of the ordering sequence. Each operation of the
//! store is a function from one state to the next state and a result.

use crate::error::StoreError;
use crate::models::{Data, OptionalData, RowId, Task};
use vstd::prelude::*;

verus! {

/// The largest number of records that a seeding inserts as one atomic group.
pub const GROUP_SIZE: usize = 20;

/// The state of a task table.
pub struct StoreState {
    /// The tasks, in the order of their creation.
    pub tasks: Seq<Task>,
    /// The identifier of the task created last; 0 before the first.
    pub last_id: i64,
    /// The value that the ordering sequence handed out last; 0 before the first.
    pub sequence: u64,
}

/// One request to the store.
#[derive(Clone, Copy, Debug, PartialEq, Eq)]
pub enum Request {
    Claim,
    Complete(RowId, OptionalData),
}

/// The store's answer to one request.
#[derive(Clone, Copy, Debug, PartialEq, Eq)]
pub enum Reply {
    Claimed(Result<(Data, RowId), StoreError>),
    Completed(Result<(), StoreError>),
}

/// Some task is incomplete.
pub open spec fn has_incomplete(tasks: Seq<Task>) -> bool {
    exists|i: int| 0 <= i < tasks.len() && !(#[trigger] tasks[i]).complete
}

/// The number of incomplete tasks.
pub open spec fn incomplete_count(tasks: Seq<Task>) -> nat
    decreases tasks.len(),
{
    if tasks.len() == 0 {
        0
    } else {
        incomplete_count(tasks.drop_last()) + if tasks.last().complete {
            0nat
        } else {
            1nat
        }
    }
}

/// `a` is claimed no later than `b`: by the smaller key, and between equal
/// keys by the smaller identifier.
pub open spec fn goes_first(a: Task, b: Task) -> bool {
    a.order_key < b.order_key || (a.order_key == b.order_key && a.id.0 <= b.id.0)
}

/// The task at `i` is the one that the next claim hands out.
pub open spec fn is_next(tasks: Seq<Task>, i: int) -> bool {
    &&& 0 <= i < tasks.len()
    &&& !tasks[i].complete
    &&& forall|j: int|
        0 <= j < tasks.len() && !(#[trigger] tasks[j]).complete ==> goes_first(tasks[i], tasks[j])
}

/// The place of the task that the next claim hands out.
pub open spec fn next_index(tasks: Seq<Task>) -> int {
    choose|i: int| is_next(tasks, i)
}

/// The task at `i` has the identifier `id` and is incomplete.
pub open spec fn is_open_at(tasks: Seq<Task>, id: RowId, i: int) -> bool {
    0 <= i < tasks.len() && tasks[i].id == id && !tasks[i].complete
}

/// A task with the identifier `id` exists and is incomplete.
pub open spec fn is_open(tasks: Seq<Task>, id: RowId) -> bool {
    exists|i: int| is_open_at(tasks, id, i)
}

/// The place of the incomplete task with the identifier `id`.
pub open spec fn open_index(tasks: Seq<Task>, id: RowId) -> int {
    choose|i: int| is_open_at(tasks, id, i)
}

impl StoreState {
    /// The table before anything was seeded.
    pub open spec fn empty() -> StoreState {
        StoreState { tasks: Seq::empty(), last_id: 0, sequence: 0 }
    }

    /// What holds of every table at every moment: no task is partly
    /// completed, identifiers grow with the order of creation (so none occurs
    /// twice), and no task has a key that the ordering sequence has yet to
    /// hand out.
    pub open spec fn wf(self) -> bool {
        &&& 0 <= self.last_id
        &&& forall|i: int|
            0 <= i < self.tasks.len() ==> {
                &&& (#[trigger] self.tasks[i]).settled()
                &&& 1 <= self.tasks[i].id.0 <= self.last_id
                &&& self.tasks[i].order_key <= self.sequence
            }
        &&& forall|i: int, j: int|
            0 <= i < j < self.tasks.len() ==> (#[trigger] self.tasks[i]).id.0 < (
            #[trigger] self.tasks[j]).id.0
    }

    /// A claim: the incomplete task with the smallest key gets the next value
    /// of the ordering sequence as its key, and its inputs and identifier are
    /// handed out. With no incomplete task the claim finds nothing; with the
    /// ordering sequence used up the store cannot serve it. A failed claim
    /// changes nothing.
    pub open spec fn claim(self) -> (StoreState, Result<(Data, RowId), StoreError>) {
        if !has_incomplete(self.tasks) {
            (self, Err(StoreError::NoTaskAvailable))
        } else if self.sequence == u64::MAX {
            (self, Err(StoreError::StoreUnavailable))
        } else {
            let i = next_index(self.tasks);
            let task = self.tasks[i];
            let key = (self.sequence + 1) as u64;
            (
                StoreState {
                    tasks: self.tasks.update(i, Task { order_key: key, ..task }),
                    sequence: key,
                    ..self
                },
                Ok((task.data, task.id)),
            )
        }
    }

    /// A completion: the incomplete task with this identifier gets the
    /// results and becomes complete, in one step. Where no such task exists
    /// the completion fails and changes nothing.
    pub open spec fn complete(self, id: RowId, results: OptionalData) -> (
        StoreState,
        Result<(), StoreError>,
    ) {
        if is_open(self.tasks, id) {
            let i = open_index(self.tasks, id);
            let task = self.tasks[i];
            (
                StoreState {
                    tasks: self.tasks.update(
                        i,
                        Task { data: task.data.solved_with(results), complete: true, ..task },
                    ),
                    ..self
                },
                Ok(()),
            )
        } else {
            (self, Err(StoreError::AlreadyCompletedOrUnknown))
        }
    }

    /// How many more tasks the table can take: each needs an identifier and a
    /// value of the ordering sequence.
    pub open spec fn room(self) -> int {
        if i64::MAX - self.last_id <= u64::MAX - self.sequence {
            i64::MAX - self.last_id
        } else {
            u64::MAX - self.sequence
        }
    }

    /// The table with one new task for each record, in the order of the
    /// records: incomplete, without results, with the next identifier and the
    /// next value of the ordering sequence.
    pub open spec fn with_records(self, records: Seq<Data>) -> StoreState {
        StoreState {
            tasks: self.tasks + Seq::new(
                records.len(),
                |k: int|
                    Task {
                        id: RowId((self.last_id + 1 + k) as i64),
                        data: records[k].cleared(),
                        complete: false,
                        order_key: (self.sequence + 1 + k) as u64,
                    },
            ),
            last_id: (self.last_id + records.len()) as i64,
            sequence: (self.sequence + records.len()) as u64,
        }
    }

    /// The insertion of one group: all of its records or, where the table has
    /// no room for all of them, none.
    pub open spec fn insert(self, records: Seq<Data>) -> (StoreState, Result<(), StoreError>) {
        if records.len() <= self.room() {
            (self.with_records(records), Ok(()))
        } else {
            (self, Err(StoreError::StoreUnavailable))
        }
    }

    /// How many of `count` records a seeding inserts: all of them where the
    /// table has room, else the whole groups that fit.
    pub open spec fn seeded_count(self, count: nat) -> nat {
        if count <= self.room() {
            count
        } else {
            (self.room() / (GROUP_SIZE as int) * (GROUP_SIZE as int)) as nat
        }
    }

    /// A seeding: the records are inserted group by group, in their order,
    /// until all are in or a group does not fit. A group is never inserted in
    /// part.
    pub open spec fn seed(self, records: Seq<Data>) -> (StoreState, Result<(), StoreError>) {
        let count = self.seeded_count(records.len());
        (
            self.with_records(records.take(count as int)),
            if count == records.len() {
                Ok(())
            } else {
                Err(StoreError::StoreUnavailable)
            },
        )
    }

    /// The state and the answer after one request.
    pub open spec fn step(self, request: Request) -> (StoreState, Reply) {
        match request {
            Request::Claim => (self.claim().0, Reply::Claimed(self.claim().1)),
            Request::Complete(id, results) => (
                self.complete(id, results).0,
                Reply::Completed(self.complete(id, results).1),
            ),
        }
    }

    /// The state after a series of requests, served one after another.
    pub open spec fn run(self, requests: Seq<Request>) -> StoreState
        decreases requests.len(),
    {
        if requests.len() == 0 {
            self
        } else {
            self.run(requests.drop_last()).step(requests.last()).0
        }
    }

    /// The answer to the request at `i` of a series served one after another.
    pub open spec fn reply_at(self, requests: Seq<Request>, i: int) -> Reply {
        self.run(requests.take(i)).step(requests[i]).1
    }
}

/// The task that is next in line is the only one: no other task comes
/// before every incomplete task.
pub proof fn lemma_next_index(s: StoreState, p: int)
    requires
        s.wf(),
        is_next(s.tasks, p),
    ensures
        has_incomplete(s.tasks),
        next_index(s.tasks) == p,
{
    let q = next_index(s.tasks);
    assert(!s.tasks[p].complete);
    assert(is_next(s.tasks, q));
    assert(goes_first(s.tasks[p], s.tasks[q]));
    assert(goes_first(s.tasks[q], s.tasks[p]));
    if p < q {
        assert(s.tasks[p].id.0 < s.tasks[q].id.0);
    } else if q < p {
        assert(s.tasks[q].id.0 < s.tasks[p].id.0);
    }
}

/// The incomplete task with a given identifier is the only one.
pub proof fn lemma_open_index(s: StoreState, id: RowId, p: int)
    requires
        s.wf(),
        is_open_at(s.tasks, id, p),
    ensures
        is_open(s.tasks, id),
        open_index(s.tasks, id) == p,
{
    let q = open_index(s.tasks, id);
    assert(is_open_at(s.tasks, id, q));
    if p < q {
        assert(s.tasks[p].id.0 < s.tasks[q].id.0);
    } else if q < p {
        assert(s.tasks[q].id.0 < s.tasks[p].id.0);
    }
}

/// Inserting two runs of records one after the other is inserting them as one run.
pub proof fn lemma_with_records_twice(s: StoreState, first: Seq<Data>, second: Seq<Data>)
    requires
        s.wf(),
        first.len() + second.len() <= s.room(),
    ensures
        s.with_records(first).with_records(second) == s.with_records(first + second),
{
    let a = s.with_records(first).with_records(second);
    let b = s.with_records(first + second);
    assert(a.tasks =~= b.tasks);
}

/// New tasks keep a table well-formed, where it has room for them.
pub proof fn lemma_with_records_wf(s: StoreState, records: Seq<Data>)
    requires
        s.wf(),
        records.len() <= s.room(),
    ensures
        s.with_records(records).wf(),
{
    let t = s.with_records(records);
    assert forall|i: int| 0 <= i < t.tasks.len() implies {
        &&& (#[trigger] t.tasks[i]).settled()
        &&& 1 <= t.tasks[i].id.0 <= t.last_id
        &&& t.tasks[i].order_key <= t.sequence
    } by {
        if i < s.tasks.len() {
            assert(t.tasks[i] == s.tasks[i]);
        }
    }
    assert forall|i: int, j: int| 0 <= i < j < t.tasks.len() implies (#[trigger] t.tasks[i]).id.0 < (
    #[trigger] t.tasks[j]).id.0 by {
        if j < s.tasks.len() {
            assert(t.tasks[i] == s.tasks[i] && t.tasks[j] == s.tasks[j]);
        } else if i < s.tasks.len() {
            assert(t.tasks[i] == s.tasks[i]);
        }
    }
}

} // verus!
