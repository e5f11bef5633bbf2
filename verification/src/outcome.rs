//! From the raw answers of a store to the protocol's results.
//!
//! A durable store answers a claim with at most one row and a completion with
//! the number of rows that it changed. What those answers mean is decided
//! here, once, for every store.

use crate::error::StoreError;
use crate::models::{Data, RowId};
use crate::protocol::GROUP_SIZE;
use vstd::prelude::*;

verus! {

/// The result of a claim, from the row that the store's select-and-bump
/// returned: the claimed task, or `NoTaskAvailable` where it returned none.
pub fn claim_outcome(row: Option<(Data, RowId)>) -> (outcome: Result<(Data, RowId), StoreError>)
    ensures
        outcome == match row {
            Some(task) => Ok::<(Data, RowId), StoreError>(task),
            None => Err(StoreError::NoTaskAvailable),
        },
{
    match row {
        Some(task) => Ok(task),
        None => Err(StoreError::NoTaskAvailable),
    }
}

/// The result of a completion, from the number of rows that the store's
/// conditional update changed: success where it changed one, and
/// `AlreadyCompletedOrUnknown` where it changed none.
pub fn completion_outcome(rows: u64) -> (outcome: Result<(), StoreError>)
    ensures
        outcome == if rows == 0 {
            Err::<(), StoreError>(StoreError::AlreadyCompletedOrUnknown)
        } else {
            Ok(())
        },
{
    if rows == 0 {
        Err(StoreError::AlreadyCompletedOrUnknown)
    } else {
        Ok(())
    }
}

/// The number of groups that `len` records are inserted in.
pub open spec fn group_count(len: int) -> int {
    (len + GROUP_SIZE - 1) / (GROUP_SIZE as int)
}

/// Where the group `k` starts.
pub open spec fn group_start(k: int) -> int {
    k * GROUP_SIZE
}

/// Where the group `k` of `len` records ends: a full group later, or at the
/// last record.
pub open spec fn group_end(k: int, len: int) -> int {
    if (k + 1) * GROUP_SIZE <= len {
        (k + 1) * GROUP_SIZE
    } else {
        len
    }
}

/// The groups that a seeding inserts `len` records in, each as the place of
/// its first record and the place after its last: consecutive, in order, all
/// of `GROUP_SIZE` records but for a shorter last one.
pub fn group_bounds(len: usize) -> (groups: Vec<(usize, usize)>)
    ensures
        groups@.len() == group_count(len as int),
        forall|k: int|
            0 <= k < groups@.len() ==> (#[trigger] groups@[k]).0 == group_start(k) && groups@[k].1
                == group_end(k, len as int),
{
    let mut groups: Vec<(usize, usize)> = Vec::new();
    let mut start: usize = 0;
    while start < len
        invariant
            start <= len,
            start == groups@.len() * GROUP_SIZE || start == len,
            groups@.len() == group_count(start as int),
            forall|k: int|
                0 <= k < groups@.len() ==> (#[trigger] groups@[k]).0 == group_start(k)
                    && groups@[k].1 == group_end(k, len as int),
        decreases len - start,
    {
        let end: usize = if len - start > GROUP_SIZE {
            start + GROUP_SIZE
        } else {
            len
        };
        groups.push((start, end));
        start = end;
    }
    groups
}

} // verus!
