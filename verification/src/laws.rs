//! What holds of every table and of every series of requests, proved from the
//! model in [`crate::protocol`].
//!
//! Requests that arrive at the same time are served one after another, in
//! some order: each law speaks of every order.

use crate::error::StoreError;
use crate::models::{Data, OptionalData, RowId, Task};
use crate::protocol::{
    goes_first, has_incomplete, incomplete_count, is_next, is_open, is_open_at,
    lemma_next_index, lemma_with_records_wf, next_index, open_index, Reply, Request, StoreState,
};
use vstd::prelude::*;

verus! {

/// The identifier that a reply hands out, where the reply is a successful claim.
pub open spec fn claimed_id(reply: Reply) -> Option<RowId> {
    match reply {
        Reply::Claimed(Ok(task)) => Some(task.1),
        _ => None,
    }
}

/// The request is a completion of the task with the identifier `id`.
pub open spec fn targets(request: Request, id: RowId) -> bool {
    match request {
        Request::Complete(target, _) => target == id,
        Request::Claim => false,
    }
}

/// `later` can come after `earlier`: the same tasks with the same identifiers
/// and inputs, no key smaller than before, and every task that was complete
/// exactly as it was.
pub open spec fn follows(earlier: StoreState, later: StoreState) -> bool {
    &&& later.tasks.len() == earlier.tasks.len()
    &&& later.last_id == earlier.last_id
    &&& earlier.sequence <= later.sequence
    &&& forall|i: int|
        #![trigger later.tasks[i]]
        #![trigger earlier.tasks[i]]
        0 <= i < earlier.tasks.len() ==> {
            &&& later.tasks[i].id == earlier.tasks[i].id
            &&& later.tasks[i].data.cleared() == earlier.tasks[i].data.cleared()
            &&& earlier.tasks[i].order_key <= later.tasks[i].order_key
            &&& earlier.tasks[i].complete ==> later.tasks[i] == earlier.tasks[i]
        }
}

/// Among the first `n` tasks, where one is incomplete, one goes first.
proof fn lemma_first_of_prefix(tasks: Seq<Task>, n: int) -> (p: int)
    requires
        0 <= n <= tasks.len(),
        exists|i: int| 0 <= i < n && !(#[trigger] tasks[i]).complete,
    ensures
        0 <= p < n,
        !tasks[p].complete,
        forall|j: int| 0 <= j < n && !(#[trigger] tasks[j]).complete ==> goes_first(tasks[p], tasks[j]),
    decreases n,
{
    if exists|i: int| 0 <= i < n - 1 && !(#[trigger] tasks[i]).complete {
        let q = lemma_first_of_prefix(tasks, n - 1);
        if !tasks[n - 1].complete && !goes_first(tasks[q], tasks[n - 1]) {
            n - 1
        } else {
            q
        }
    } else {
        n - 1
    }
}

/// Where a task is incomplete, one task is next in line.
pub proof fn lemma_next_exists(tasks: Seq<Task>)
    requires
        has_incomplete(tasks),
    ensures
        is_next(tasks, next_index(tasks)),
{
    let p = lemma_first_of_prefix(tasks, tasks.len() as int);
    assert(is_next(tasks, p));
}

/// What a claim does: it keeps the table well-formed, and it changes at most
/// the key of the task that it hands out, to a key larger than every key in
/// the table.
pub proof fn lemma_claim_effect(s: StoreState)
    requires
        s.wf(),
    ensures
        s.claim().0.wf(),
        follows(s, s.claim().0),
        match s.claim().1 {
            Ok(task) => {
                let p = next_index(s.tasks);
                &&& is_next(s.tasks, p)
                &&& task == (s.tasks[p].data, s.tasks[p].id)
                &&& s.claim().0.sequence == s.sequence + 1
                &&& s.claim().0.tasks == s.tasks.update(
                    p,
                    Task { order_key: (s.sequence + 1) as u64, ..s.tasks[p] },
                )
            },
            Err(e) => {
                &&& s.claim().0 == s
                &&& e == StoreError::NoTaskAvailable <==> !has_incomplete(s.tasks)
                &&& e == StoreError::StoreUnavailable <==> has_incomplete(s.tasks)
            },
        },
{
    if has_incomplete(s.tasks) && s.sequence < u64::MAX {
        lemma_next_exists(s.tasks);
        let p = next_index(s.tasks);
        let t = s.claim().0;
        assert(s.tasks[p].settled());
        assert forall|i: int| 0 <= i < t.tasks.len() implies {
            &&& (#[trigger] t.tasks[i]).settled()
            &&& 1 <= t.tasks[i].id.0 <= t.last_id
            &&& t.tasks[i].order_key <= t.sequence
        } by {
            assert(s.tasks[i].settled());
        }
        assert forall|i: int, j: int| 0 <= i < j < t.tasks.len() implies (#[trigger] t.tasks[i]).id.0
            < (#[trigger] t.tasks[j]).id.0 by {
            assert(s.tasks[i].id.0 < s.tasks[j].id.0);
        }
    }
}

/// What a completion does: it keeps the table well-formed, and it changes at
/// most the one incomplete task with the given identifier, which it completes.
pub proof fn lemma_complete_effect(s: StoreState, id: RowId, results: OptionalData)
    requires
        s.wf(),
    ensures
        s.complete(id, results).0.wf(),
        follows(s, s.complete(id, results).0),
        match s.complete(id, results).1 {
            Ok(_) => {
                let p = open_index(s.tasks, id);
                &&& is_open_at(s.tasks, id, p)
                &&& s.complete(id, results).0.tasks == s.tasks.update(
                    p,
                    Task { data: s.tasks[p].data.solved_with(results), complete: true, ..s.tasks[p] },
                )
                &&& !is_open(s.complete(id, results).0.tasks, id)
            },
            Err(e) => {
                &&& s.complete(id, results).0 == s
                &&& e == StoreError::AlreadyCompletedOrUnknown
                &&& !is_open(s.tasks, id)
            },
        },
{
    if is_open(s.tasks, id) {
        let p = open_index(s.tasks, id);
        let t = s.complete(id, results).0;
        assert(s.tasks[p].settled());
        assert forall|i: int| 0 <= i < t.tasks.len() implies {
            &&& (#[trigger] t.tasks[i]).settled()
            &&& 1 <= t.tasks[i].id.0 <= t.last_id
            &&& t.tasks[i].order_key <= t.sequence
        } by {
            assert(s.tasks[i].settled());
        }
        assert forall|i: int, j: int| 0 <= i < j < t.tasks.len() implies (#[trigger] t.tasks[i]).id.0
            < (#[trigger] t.tasks[j]).id.0 by {
            assert(s.tasks[i].id.0 < s.tasks[j].id.0);
        }
        assert forall|i: int| !is_open_at(t.tasks, id, i) by {
            if is_open_at(t.tasks, id, i) {
                assert(i != p);
                if i < p {
                    assert(s.tasks[i].id.0 < s.tasks[p].id.0);
                } else {
                    assert(s.tasks[p].id.0 < s.tasks[i].id.0);
                }
            }
        }
    }
}

/// One request keeps the table well-formed and never undoes anything.
pub proof fn lemma_step_follows(s: StoreState, request: Request)
    requires
        s.wf(),
    ensures
        s.step(request).0.wf(),
        follows(s, s.step(request).0),
{
    match request {
        Request::Claim => lemma_claim_effect(s),
        Request::Complete(id, results) => lemma_complete_effect(s, id, results),
    }
}

/// The state after the first `i + 1` requests is the state after the first
/// `i`, one request later.
pub proof fn lemma_run_next(s: StoreState, requests: Seq<Request>, i: int)
    requires
        0 <= i < requests.len(),
    ensures
        s.run(requests.take(i + 1)) == s.run(requests.take(i)).step(requests[i]).0,
{
    assert(requests.take(i + 1).drop_last() =~= requests.take(i));
}

/// No partial state, and no way back: after any series of requests the table
/// is well-formed, so every task is either incomplete without results or
/// complete with all of them; every task that was complete is exactly as it
/// was; and every task has the identifier and the inputs that it had.
pub proof fn lemma_run_follows(s: StoreState, requests: Seq<Request>)
    requires
        s.wf(),
    ensures
        s.run(requests).wf(),
        follows(s, s.run(requests)),
    decreases requests.len(),
{
    if requests.len() > 0 {
        lemma_run_follows(s, requests.drop_last());
        lemma_step_follows(s.run(requests.drop_last()), requests.last());
    }
}

/// Exhaustion: once every task is complete, every later claim fails with
/// `NoTaskAvailable`, whatever was requested in between.
pub proof fn lemma_exhaustion(s: StoreState, requests: Seq<Request>, i: int)
    requires
        s.wf(),
        !has_incomplete(s.tasks),
        0 <= i < requests.len(),
        requests[i] is Claim,
    ensures
        s.reply_at(requests, i) == Reply::Claimed(Err(StoreError::NoTaskAvailable)),
{
    let t = s.run(requests.take(i));
    lemma_run_follows(s, requests.take(i));
    assert forall|k: int| 0 <= k < t.tasks.len() implies (#[trigger] t.tasks[k]).complete by {
        assert(s.tasks[k].complete);
    }
}

/// A request that is no completion of the task `id` leaves that task incomplete.
proof fn lemma_step_keeps_open(s: StoreState, request: Request, id: RowId)
    requires
        s.wf(),
        is_open(s.tasks, id),
        !targets(request, id),
    ensures
        is_open(s.step(request).0.tasks, id),
{
    let p = open_index(s.tasks, id);
    let t = s.step(request).0;
    match request {
        Request::Claim => {
            lemma_claim_effect(s);
        },
        Request::Complete(other, results) => {
            lemma_complete_effect(s, other, results);
        },
    }
    assert(is_open_at(t.tasks, id, p));
}

/// No request makes a task incomplete again, nor creates one.
proof fn lemma_step_keeps_closed(s: StoreState, request: Request, id: RowId)
    requires
        s.wf(),
        !is_open(s.tasks, id),
    ensures
        !is_open(s.step(request).0.tasks, id),
{
    let t = s.step(request).0;
    lemma_step_follows(s, request);
    assert forall|i: int| !is_open_at(t.tasks, id, i) by {
        if is_open_at(t.tasks, id, i) {
            assert(t.tasks[i].id == s.tasks[i].id);
            assert(is_open_at(s.tasks, id, i));
        }
    }
}

/// A task stays incomplete as long as no request completes it.
proof fn lemma_open_until(s: StoreState, requests: Seq<Request>, id: RowId, k: int)
    requires
        s.wf(),
        is_open(s.tasks, id),
        0 <= k <= requests.len(),
        forall|j: int| 0 <= j < k ==> !targets(#[trigger] requests[j], id),
    ensures
        s.run(requests.take(k)).wf(),
        is_open(s.run(requests.take(k)).tasks, id),
    decreases k,
{
    if k == 0 {
        assert(requests.take(0) =~= Seq::<Request>::empty());
    } else {
        lemma_open_until(s, requests, id, k - 1);
        lemma_run_next(s, requests, k - 1);
        lemma_step_follows(s.run(requests.take(k - 1)), requests[k - 1]);
        lemma_step_keeps_open(s.run(requests.take(k - 1)), requests[k - 1], id);
    }
}

/// A task that is not incomplete before the request at `k` is not incomplete
/// before any later request.
proof fn lemma_closed_from(s: StoreState, requests: Seq<Request>, id: RowId, k: int, j: int)
    requires
        s.wf(),
        0 <= k <= j <= requests.len(),
        !is_open(s.run(requests.take(k)).tasks, id),
    ensures
        !is_open(s.run(requests.take(j)).tasks, id),
    decreases j - k,
{
    if k < j {
        lemma_closed_from(s, requests, id, k, j - 1);
        lemma_run_follows(s, requests.take(j - 1));
        lemma_run_next(s, requests, j - 1);
        lemma_step_keeps_closed(s.run(requests.take(j - 1)), requests[j - 1], id);
    }
}

/// Single completion: of all the completions of one incomplete task in a
/// series of requests, the first succeeds and every other one fails with
/// `AlreadyCompletedOrUnknown`.
pub proof fn lemma_single_completion(s: StoreState, requests: Seq<Request>, id: RowId, first: int)
    requires
        s.wf(),
        is_open(s.tasks, id),
        0 <= first < requests.len(),
        targets(requests[first], id),
        forall|j: int| 0 <= j < first ==> !targets(#[trigger] requests[j], id),
    ensures
        s.reply_at(requests, first) == Reply::Completed(Ok(())),
        forall|j: int|
            first < j < requests.len() && targets(#[trigger] requests[j], id) ==> s.reply_at(
                requests,
                j,
            ) == Reply::Completed(Err(StoreError::AlreadyCompletedOrUnknown)),
{
    lemma_open_until(s, requests, id, first);
    let before = s.run(requests.take(first));
    let results = requests[first]->Complete_1;
    lemma_complete_effect(before, id, results);
    lemma_run_next(s, requests, first);
    assert forall|j: int| first < j < requests.len() && targets(#[trigger] requests[j], id) implies
        s.reply_at(requests, j) == Reply::Completed(Err(StoreError::AlreadyCompletedOrUnknown)) by {
        lemma_closed_from(s, requests, id, first + 1, j);
        lemma_run_follows(s, requests.take(j));
        lemma_complete_effect(s.run(requests.take(j)), id, requests[j]->Complete_1);
    }
}

/// A completion of a task that does not exist, or that is complete, fails
/// with `AlreadyCompletedOrUnknown`, whatever was requested before it.
pub proof fn lemma_closed_task_rejects(s: StoreState, requests: Seq<Request>, id: RowId, j: int)
    requires
        s.wf(),
        !is_open(s.tasks, id),
        0 <= j < requests.len(),
        targets(requests[j], id),
    ensures
        s.reply_at(requests, j) == Reply::Completed(Err(StoreError::AlreadyCompletedOrUnknown)),
{
    assert(requests.take(0) =~= Seq::<Request>::empty());
    lemma_closed_from(s, requests, id, 0, j);
    lemma_run_follows(s, requests.take(j));
    lemma_complete_effect(s.run(requests.take(j)), id, requests[j]->Complete_1);
}

/// A series of `n` claims.
pub open spec fn claims(n: nat) -> Seq<Request> {
    Seq::new(n, |k: int| Request::Claim)
}

/// The number of incomplete tasks whose key is at most `bound`.
pub open spec fn waiting_count(tasks: Seq<Task>, bound: u64) -> nat
    decreases tasks.len(),
{
    if tasks.len() == 0 {
        0
    } else {
        waiting_count(tasks.drop_last(), bound) + if !tasks.last().complete
            && tasks.last().order_key <= bound {
            1nat
        } else {
            0nat
        }
    }
}

/// Where no key is above the bound, every incomplete task is counted.
proof fn lemma_waiting_all(tasks: Seq<Task>, bound: u64)
    requires
        forall|i: int| 0 <= i < tasks.len() ==> (#[trigger] tasks[i]).order_key <= bound,
    ensures
        waiting_count(tasks, bound) == incomplete_count(tasks),
    decreases tasks.len(),
{
    if tasks.len() > 0 {
        assert forall|i: int| 0 <= i < tasks.drop_last().len() implies (
        #[trigger] tasks.drop_last()[i]).order_key <= bound by {
            assert(tasks.drop_last()[i] == tasks[i]);
        }
        lemma_waiting_all(tasks.drop_last(), bound);
    }
}

/// A change to one task takes at most one task out of the count.
proof fn lemma_waiting_update(tasks: Seq<Task>, p: int, task: Task, bound: u64)
    requires
        0 <= p < tasks.len(),
    ensures
        waiting_count(tasks.update(p, task), bound) + 1 >= waiting_count(tasks, bound),
    decreases tasks.len(),
{
    let changed = tasks.update(p, task);
    if p == tasks.len() - 1 {
        assert(changed.drop_last() =~= tasks.drop_last());
    } else {
        assert(changed.drop_last() =~= tasks.drop_last().update(p, task));
        lemma_waiting_update(tasks.drop_last(), p, task, bound);
    }
}

/// Where the count is not zero, some incomplete task has a key within the bound.
proof fn lemma_waiting_exists(tasks: Seq<Task>, bound: u64) -> (q: int)
    requires
        waiting_count(tasks, bound) > 0,
    ensures
        0 <= q < tasks.len(),
        !tasks[q].complete,
        tasks[q].order_key <= bound,
    decreases tasks.len(),
{
    if !tasks.last().complete && tasks.last().order_key <= bound {
        tasks.len() - 1
    } else {
        let q = lemma_waiting_exists(tasks.drop_last(), bound);
        assert(tasks.drop_last()[q] == tasks[q]);
        q
    }
}

/// The task with the identifier `id` has a key above `bound`.
pub open spec fn moved_back(tasks: Seq<Task>, id: RowId, bound: u64) -> bool {
    exists|p: int| 0 <= p < tasks.len() && (#[trigger] tasks[p]).id == id && tasks[p].order_key > bound
}

/// The table after `k` claims in a row: every task that one of them handed
/// out has a key above all the keys from before the first claim, and for each
/// claim at most one task has left the tasks that still have such a key.
proof fn lemma_claims_state(s: StoreState, k: nat)
    requires
        s.wf(),
    ensures
        s.run(claims(k)).wf(),
        follows(s, s.run(claims(k))),
        waiting_count(s.run(claims(k)).tasks, s.sequence) + k >= incomplete_count(s.tasks),
        forall|m: int|
            0 <= m < k ==> match claimed_id(#[trigger] s.reply_at(claims(k), m)) {
                Some(id) => moved_back(s.run(claims(k)).tasks, id, s.sequence),
                None => true,
            },
    decreases k,
{
    if k == 0 {
        lemma_waiting_all(s.tasks, s.sequence);
    } else {
        let before = s.run(claims((k - 1) as nat));
        let after = s.run(claims(k));
        assert(claims(k).drop_last() =~= claims((k - 1) as nat));
        lemma_claims_state(s, (k - 1) as nat);
        lemma_claim_effect(before);
        assert(after == before.claim().0);
        if before.claim().1 is Ok {
            let p = next_index(before.tasks);
            lemma_waiting_update(
                before.tasks,
                p,
                Task { order_key: (before.sequence + 1) as u64, ..before.tasks[p] },
                s.sequence,
            );
        }
        assert forall|m: int| 0 <= m < k implies match claimed_id(
            #[trigger] s.reply_at(claims(k), m),
        ) {
            Some(id) => moved_back(after.tasks, id, s.sequence),
            None => true,
        } by {
            assert(claims(k).take(m) =~= claims(m as nat));
            if m < k - 1 {
                assert(claims((k - 1) as nat).take(m) =~= claims(m as nat));
                assert(s.reply_at(claims(k), m) == s.reply_at(claims((k - 1) as nat), m));
                if claimed_id(s.reply_at(claims(k), m)) is Some {
                    let id = claimed_id(s.reply_at(claims(k), m))->Some_0;
                    let q = choose|q: int|
                        0 <= q < before.tasks.len() && (#[trigger] before.tasks[q]).id == id
                            && before.tasks[q].order_key > s.sequence;
                    assert(after.tasks[q].id == id && after.tasks[q].order_key > s.sequence);
                }
            } else {
                assert(s.reply_at(claims(k), m) == Reply::Claimed(before.claim().1));
                if claimed_id(s.reply_at(claims(k), m)) is Some {
                    let id = claimed_id(s.reply_at(claims(k), m))->Some_0;
                    let p = next_index(before.tasks);
                    assert(after.tasks[p].id == id && after.tasks[p].order_key > s.sequence);
                }
            }
        }
    }
}

/// Disjoint claims: where at least `n` tasks are incomplete, `n` claims in a
/// row never find the table empty, and no two of them hand out the same task.
pub proof fn lemma_disjoint_claims(s: StoreState, n: nat, i: int, j: int)
    requires
        s.wf(),
        incomplete_count(s.tasks) >= n,
        0 <= i < j < n,
    ensures
        s.reply_at(claims(n), i) != Reply::Claimed(Err(StoreError::NoTaskAvailable)),
        s.reply_at(claims(n), j) != Reply::Claimed(Err(StoreError::NoTaskAvailable)),
        claimed_id(s.reply_at(claims(n), i)) is Some && claimed_id(s.reply_at(claims(n), j)) is Some
            ==> claimed_id(s.reply_at(claims(n), i)) != claimed_id(s.reply_at(claims(n), j)),
{
    lemma_claims_not_empty(s, n, i);
    lemma_claims_not_empty(s, n, j);
    let t = s.run(claims(j as nat));
    assert(claims(n).take(j) =~= claims(j as nat));
    assert(claims(n).take(i) =~= claims(i as nat));
    assert(claims(j as nat).take(i) =~= claims(i as nat));
    assert(s.reply_at(claims(n), i) == s.reply_at(claims(j as nat), i));
    lemma_claims_state(s, j as nat);
    lemma_claim_effect(t);
    if claimed_id(s.reply_at(claims(n), i)) is Some {
        if claimed_id(s.reply_at(claims(n), j)) is Some {
            let a = claimed_id(s.reply_at(claims(n), i))->Some_0;
            let q = lemma_waiting_exists(t.tasks, s.sequence);
            let p = next_index(t.tasks);
            assert(goes_first(t.tasks[p], t.tasks[q]));
            let pa = choose|pa: int|
                0 <= pa < t.tasks.len() && (#[trigger] t.tasks[pa]).id == a && t.tasks[pa].order_key
                    > s.sequence;
            assert(pa != p);
            if pa < p {
                assert(t.tasks[pa].id.0 < t.tasks[p].id.0);
            } else {
                assert(t.tasks[p].id.0 < t.tasks[pa].id.0);
            }
        }
    }
}

/// Where at least `n` tasks are incomplete, none of `n` claims in a row finds
/// the table empty.
proof fn lemma_claims_not_empty(s: StoreState, n: nat, i: int)
    requires
        s.wf(),
        incomplete_count(s.tasks) >= n,
        0 <= i < n,
    ensures
        s.reply_at(claims(n), i) != Reply::Claimed(Err(StoreError::NoTaskAvailable)),
{
    let t = s.run(claims(i as nat));
    assert(claims(n).take(i) =~= claims(i as nat));
    lemma_claims_state(s, i as nat);
    let q = lemma_waiting_exists(t.tasks, s.sequence);
    assert(has_incomplete(t.tasks));
}

/// The request at `j` reaches the task `id`: it is a claim that hands the
/// task out, or a completion of the task that succeeds.
pub open spec fn reaches(s: StoreState, requests: Seq<Request>, j: int, id: RowId) -> bool {
    ||| claimed_id(s.reply_at(requests, j)) == Some(id)
    ||| (targets(requests[j], id) && s.reply_at(requests, j) == Reply::Completed(Ok(())))
}

/// The task at `pb` is incomplete and comes before the task at `pa` in the
/// claim order.
spec fn ahead(t: StoreState, pa: int, pb: int) -> bool {
    &&& 0 <= pa < t.tasks.len()
    &&& 0 <= pb < t.tasks.len()
    &&& !t.tasks[pb].complete
    &&& t.tasks[pb].order_key < t.tasks[pa].order_key
}

/// As long as no request reaches the task at `pb`, it stays ahead of the task
/// at `pa`.
proof fn lemma_stays_ahead(s: StoreState, requests: Seq<Request>, pa: int, pb: int, k: int)
    requires
        s.wf(),
        ahead(s, pa, pb),
        0 <= k <= requests.len(),
        forall|j: int| 0 <= j < k ==> !#[trigger] reaches(s, requests, j, s.tasks[pb].id),
    ensures
        s.run(requests.take(k)).wf(),
        follows(s, s.run(requests.take(k))),
        ahead(s.run(requests.take(k)), pa, pb),
    decreases k,
{
    if k == 0 {
        assert(requests.take(0) =~= Seq::<Request>::empty());
    } else {
        lemma_stays_ahead(s, requests, pa, pb, k - 1);
        let t = s.run(requests.take(k - 1));
        let b = s.tasks[pb].id;
        lemma_run_next(s, requests, k - 1);
        lemma_step_follows(t, requests[k - 1]);
        assert(!reaches(s, requests, k - 1, b));
        assert(t.tasks[pb].id == b);
        match requests[k - 1] {
            Request::Claim => {
                lemma_claim_effect(t);
                if t.claim().1 is Ok {
                    let p = next_index(t.tasks);
                    assert(goes_first(t.tasks[p], t.tasks[pb]));
                    assert(p != pa);
                    assert(p != pb);
                }
            },
            Request::Complete(id, results) => {
                lemma_complete_effect(t, id, results);
                if t.complete(id, results).1 is Ok {
                    let p = open_index(t.tasks, id);
                    assert(p != pb);
                }
            },
        }
    }
}

/// Re-claim ordering: once a claim has handed out the task `a`, no later
/// claim hands `a` out again before another incomplete task `b` has been
/// claimed or completed. A task that was just claimed waits behind every
/// other incomplete task.
pub proof fn lemma_reclaim_ordering(
    s: StoreState,
    requests: Seq<Request>,
    a: RowId,
    b: RowId,
    i: int,
)
    requires
        s.wf(),
        claimed_id(Reply::Claimed(s.claim().1)) == Some(a),
        b != a,
        is_open(s.claim().0.tasks, b),
        0 <= i < requests.len(),
        claimed_id(s.claim().0.reply_at(requests, i)) == Some(a),
    ensures
        exists|j: int| 0 <= j < i && #[trigger] reaches(s.claim().0, requests, j, b),
{
    let s1 = s.claim().0;
    lemma_claim_effect(s);
    let pa = next_index(s.tasks);
    let pb = open_index(s1.tasks, b);
    assert(is_open_at(s1.tasks, b, pb));
    assert(pb != pa);
    assert(s1.tasks[pb] == s.tasks[pb]);
    assert(ahead(s1, pa, pb));
    if !exists|j: int| 0 <= j < i && #[trigger] reaches(s1, requests, j, b) {
        lemma_stays_ahead(s1, requests, pa, pb, i);
        let t = s1.run(requests.take(i));
        lemma_claim_effect(t);
        let p = next_index(t.tasks);
        assert(goes_first(t.tasks[p], t.tasks[pb]));
        assert(t.tasks[pa].id == a);
        assert(t.tasks[p].id == a);
        if p < pa {
            assert(t.tasks[p].id.0 < t.tasks[pa].id.0);
        } else if pa < p {
            assert(t.tasks[pa].id.0 < t.tasks[p].id.0);
        }
        assert(false);
    }
}

/// Right after a claim has handed out the task `a`, with `b` the only other
/// incomplete task, the next claim hands out `b`; it fails only where the
/// ordering sequence is used up.
pub proof fn lemma_next_claim_is_other(s: StoreState, a: RowId, b: RowId)
    requires
        s.wf(),
        claimed_id(Reply::Claimed(s.claim().1)) == Some(a),
        b != a,
        is_open(s.claim().0.tasks, b),
        forall|i: int|
            0 <= i < s.tasks.len() && !(#[trigger] s.tasks[i]).complete ==> s.tasks[i].id == a
                || s.tasks[i].id == b,
    ensures
        match s.claim().0.claim().1 {
            Ok(task) => task.1 == b,
            Err(e) => e == StoreError::StoreUnavailable && s.claim().0.sequence == u64::MAX,
        },
{
    let s1 = s.claim().0;
    lemma_claim_effect(s);
    let pa = next_index(s.tasks);
    let pb = open_index(s1.tasks, b);
    assert(is_open_at(s1.tasks, b, pb));
    assert(has_incomplete(s1.tasks));
    lemma_claim_effect(s1);
    if s1.claim().1 is Ok {
        let p = next_index(s1.tasks);
        assert(goes_first(s1.tasks[p], s1.tasks[pb]));
        assert(s1.tasks[pb] == s.tasks[pb]);
        assert(p != pa);
        assert(s1.tasks[p] == s.tasks[p]);
    }
}

/// How many of `m` claims in a row succeed on a table that was just seeded
/// with `count` records: all of them, or as many as the ordering sequence has
/// values left.
spec fn served(s: StoreState, count: nat, m: nat) -> nat {
    if s.sequence + count + m <= u64::MAX {
        m
    } else {
        (u64::MAX - s.sequence - count) as nat
    }
}

/// The table after a seeding and `m` claims in a row, where every task from
/// before the seeding is complete: the claims went to the new tasks in the
/// order of the records.
proof fn lemma_seeded_claims_state(s: StoreState, records: Seq<Data>, m: nat)
    requires
        s.wf(),
        !has_incomplete(s.tasks),
        records.len() <= s.room(),
        m <= records.len(),
    ensures
        ({
            let seeded = s.with_records(records);
            let t = seeded.run(claims(m));
            let p = served(s, records.len(), m);
            &&& t.wf()
            &&& t.tasks.len() == s.tasks.len() + records.len()
            &&& t.sequence == seeded.sequence + p
            &&& forall|i: int| 0 <= i < s.tasks.len() ==> #[trigger] t.tasks[i] == s.tasks[i]
            &&& forall|i: int|
                0 <= i < records.len() ==> #[trigger] t.tasks[s.tasks.len() + i] == (Task {
                    id: RowId((s.last_id + 1 + i) as i64),
                    data: records[i].cleared(),
                    complete: false,
                    order_key: if i < p {
                        (seeded.sequence + 1 + i) as u64
                    } else {
                        (s.sequence + 1 + i) as u64
                    },
                })
        }),
    decreases m,
{
    let seeded = s.with_records(records);
    let base = s.tasks.len() as int;
    lemma_with_records_wf(s, records);
    if m > 0 {
        let before = seeded.run(claims((m - 1) as nat));
        let q = served(s, records.len(), (m - 1) as nat);
        assert(claims(m).drop_last() =~= claims((m - 1) as nat));
        lemma_seeded_claims_state(s, records, (m - 1) as nat);
        lemma_claim_effect(before);
        assert(!before.tasks[base + (m - 1)].complete);
        if before.sequence < u64::MAX {
            let target = base + (m - 1);
            assert forall|j: int| 0 <= j < before.tasks.len() && !(#[trigger] before.tasks[j]).complete
            implies goes_first(before.tasks[target], before.tasks[j]) by {
                if j < base {
                    assert(before.tasks[j] == s.tasks[j]);
                } else {
                    assert(before.tasks[j] == before.tasks[base + (j - base)]);
                }
            }
            assert(is_next(before.tasks, target));
            lemma_next_index(before, target);
            let t = seeded.run(claims(m));
            assert forall|i: int| 0 <= i < records.len() implies #[trigger] t.tasks[base + i] == (Task {
                id: RowId((s.last_id + 1 + i) as i64),
                data: records[i].cleared(),
                complete: false,
                order_key: if i < m {
                    (seeded.sequence + 1 + i) as u64
                } else {
                    (s.sequence + 1 + i) as u64
                },
            }) by {
                assert(before.tasks[base + i].complete == false);
            }
            assert forall|i: int| 0 <= i < s.tasks.len() implies #[trigger] t.tasks[i] == s.tasks[i] by {
                assert(before.tasks[i] == s.tasks[i]);
            }
        }
    } else {
        assert forall|i: int| 0 <= i < s.tasks.len() implies #[trigger] seeded.tasks[i]
            == s.tasks[i] by {}
    }
}

/// Seeding order: where every task from before a seeding is complete, the
/// claims that follow the seeding hand out the new tasks in the order of the
/// records, each with the inputs of its record. A claim fails only where the
/// ordering sequence is used up.
pub proof fn lemma_seed_order(s: StoreState, records: Seq<Data>, k: int)
    requires
        s.wf(),
        !has_incomplete(s.tasks),
        s.seed(records).1 is Ok,
        0 <= k < records.len(),
    ensures
        match s.seed(records).0.reply_at(claims(records.len()), k) {
            Reply::Claimed(Ok(task)) => task == (
                records[k].cleared(),
                RowId((s.last_id + 1 + k) as i64),
            ),
            Reply::Claimed(Err(e)) => e == StoreError::StoreUnavailable,
            Reply::Completed(_) => false,
        },
{
    assert(records.take(records.len() as int) =~= records);
    let seeded = s.with_records(records);
    let base = s.tasks.len() as int;
    let before = seeded.run(claims(k as nat));
    assert(claims(records.len()).take(k) =~= claims(k as nat));
    lemma_seeded_claims_state(s, records, k as nat);
    lemma_claim_effect(before);
    assert(!before.tasks[base + k].complete);
    if before.sequence < u64::MAX {
        assert forall|j: int| 0 <= j < before.tasks.len() && !(#[trigger] before.tasks[j]).complete
        implies goes_first(before.tasks[base + k], before.tasks[j]) by {
            if j < base {
                assert(before.tasks[j] == s.tasks[j]);
            } else {
                assert(before.tasks[j] == before.tasks[base + (j - base)]);
            }
        }
        assert(is_next(before.tasks, base + k));
        lemma_next_index(before, base + k);
    }
}

} // verus!
