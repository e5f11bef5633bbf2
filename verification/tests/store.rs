use task_distributor::error::StoreError;
use task_distributor::models::{Data, OptionalData, RowId, Task};
use task_distributor::protocol::{Reply, Request};
use task_distributor::store::TaskStore;

fn record(seed: f64) -> Data {
    Data::from_parameters([
        seed.to_bits(),
        (seed + 0.5).to_bits(),
        (seed * 2.0).to_bits(),
        (seed - 1.25).to_bits(),
        (seed + 10.0).to_bits(),
        (seed + 20.0).to_bits(),
        (seed + 30.0).to_bits(),
        (seed + 40.0).to_bits(),
        (seed + 50.0).to_bits(),
        (seed + 60.0).to_bits(),
        (seed + 70.0).to_bits(),
        (seed / 4.0).to_bits(),
    ])
}

fn records(count: usize) -> Vec<Data> {
    let mut out = Vec::new();
    for k in 0..count {
        out.push(record(k as f64));
    }
    out
}

fn results(seed: f64) -> OptionalData {
    OptionalData {
        power_on_bs: seed.to_bits(),
        power_off_bs: (seed + 1.0).to_bits(),
        power_on_s: (seed + 2.0).to_bits(),
        power_off_s: (seed + 3.0).to_bits(),
    }
}

fn seeded(count: usize) -> TaskStore {
    let mut store = TaskStore::new();
    assert_eq!(store.seed(&records(count)), Ok(()));
    store
}

fn key_of(store: &TaskStore, id: i64) -> u64 {
    store.task(RowId(id)).unwrap().order_key
}

#[test]
fn new_store_is_empty() {
    let mut store = TaskStore::new();
    assert_eq!(store.len(), 0);
    assert_eq!(store.task(RowId(1)), None);
    assert_eq!(store.claim(), Err(StoreError::NoTaskAvailable));
    assert_eq!(store.complete(RowId(1), results(1.0)), Err(StoreError::AlreadyCompletedOrUnknown));
}

#[test]
fn seed_gives_ids_and_keys_in_input_order() {
    let store = seeded(3);
    assert_eq!(store.len(), 3);
    for k in 0..3 {
        let id = (k + 1) as i64;
        assert_eq!(
            store.task(RowId(id)),
            Some(Task { id: RowId(id), data: record(k as f64), complete: false, order_key: (k + 1) as u64 })
        );
    }
    assert_eq!(store.task(RowId(4)), None);
    assert_eq!(store.task(RowId(0)), None);
}

#[test]
fn seed_drops_results_of_the_records() {
    let mut store = TaskStore::new();
    let solved = record(7.0).with_results(results(1.0));
    assert_eq!(store.seed(&[solved]), Ok(()));
    let task = store.task(RowId(1)).unwrap();
    assert_eq!(task.data, record(7.0));
    assert!(!task.complete);
    assert_eq!(store.claim(), Ok((record(7.0), RowId(1))));
}

#[test]
fn scenario_three_tasks() {
    let mut store = seeded(3);
    assert_eq!((key_of(&store, 1), key_of(&store, 2), key_of(&store, 3)), (1, 2, 3));

    assert_eq!(store.claim(), Ok((record(0.0), RowId(1))));
    assert_eq!(key_of(&store, 1), 4);

    assert_eq!(store.claim(), Ok((record(1.0), RowId(2))));
    assert_eq!(key_of(&store, 2), 5);

    assert_eq!(store.complete(RowId(1), results(9.0)), Ok(()));
    assert_eq!(store.complete(RowId(1), results(9.0)), Err(StoreError::AlreadyCompletedOrUnknown));

    assert_eq!(store.claim(), Ok((record(2.0), RowId(3))));
    assert_eq!(key_of(&store, 3), 6);

    assert_eq!(store.claim(), Ok((record(1.0), RowId(2))));
    assert_eq!(key_of(&store, 2), 7);

    assert_eq!(store.claim(), Ok((record(2.0), RowId(3))));
    assert_eq!(key_of(&store, 3), 8);

    assert_eq!(store.complete(RowId(2), results(1.0)), Ok(()));
    assert_eq!(store.claim(), Ok((record(2.0), RowId(3))));
    assert_eq!(store.complete(RowId(3), results(2.0)), Ok(()));
    assert_eq!(store.claim(), Err(StoreError::NoTaskAvailable));
}

#[test]
fn claims_in_a_row_are_disjoint() {
    let mut store = seeded(7);
    assert_eq!(store.complete(RowId(3), results(0.0)), Ok(()));
    assert_eq!(store.complete(RowId(6), results(0.0)), Ok(()));
    let mut ids = Vec::new();
    for _ in 0..5 {
        let (_, id) = store.claim().unwrap();
        assert!(!ids.contains(&id));
        ids.push(id);
    }
    assert_eq!(ids, vec![RowId(1), RowId(2), RowId(4), RowId(5), RowId(7)]);
    assert_eq!(store.claim(), Ok((record(0.0), RowId(1))));
}

#[test]
fn claim_does_not_complete_or_change_inputs() {
    let mut store = seeded(2);
    assert_eq!(store.claim(), Ok((record(0.0), RowId(1))));
    assert_eq!(
        store.task(RowId(1)),
        Some(Task { id: RowId(1), data: record(0.0), complete: false, order_key: 3 })
    );
    assert_eq!(
        store.task(RowId(2)),
        Some(Task { id: RowId(2), data: record(1.0), complete: false, order_key: 2 })
    );
}

#[test]
fn exhausted_store_refuses_every_claim() {
    let mut store = seeded(2);
    assert_eq!(store.complete(RowId(2), results(2.0)), Ok(()));
    assert_eq!(store.complete(RowId(1), results(1.0)), Ok(()));
    for _ in 0..4 {
        assert_eq!(store.claim(), Err(StoreError::NoTaskAvailable));
        assert_eq!(store.complete(RowId(1), results(5.0)), Err(StoreError::AlreadyCompletedOrUnknown));
    }
    assert_eq!(key_of(&store, 1), 1);
    assert_eq!(key_of(&store, 2), 2);
}

#[test]
fn only_the_first_completion_succeeds() {
    let mut store = seeded(3);
    assert_eq!(store.claim(), Ok((record(0.0), RowId(1))));
    assert_eq!(store.complete(RowId(2), results(10.0)), Ok(()));
    assert_eq!(store.claim(), Ok((record(2.0), RowId(3))));
    assert_eq!(store.complete(RowId(2), results(20.0)), Err(StoreError::AlreadyCompletedOrUnknown));
    assert_eq!(store.complete(RowId(2), results(30.0)), Err(StoreError::AlreadyCompletedOrUnknown));
    let task = store.task(RowId(2)).unwrap();
    assert!(task.complete);
    assert_eq!(task.data, record(1.0).with_results(results(10.0)));
    assert_eq!(task.data.results(), Some(results(10.0)));
    assert_eq!(task.order_key, 2);
}

#[test]
fn completion_of_an_unknown_task_fails_and_changes_nothing() {
    let mut store = seeded(2);
    for id in [0, -1, 3, i64::MAX, i64::MIN] {
        assert_eq!(store.complete(RowId(id), results(1.0)), Err(StoreError::AlreadyCompletedOrUnknown));
    }
    assert_eq!(store.len(), 2);
    assert_eq!(
        store.task(RowId(1)),
        Some(Task { id: RowId(1), data: record(0.0), complete: false, order_key: 1 })
    );
    assert_eq!(
        store.task(RowId(2)),
        Some(Task { id: RowId(2), data: record(1.0), complete: false, order_key: 2 })
    );
}

#[test]
fn a_task_can_be_completed_without_a_claim() {
    let mut store = seeded(1);
    assert_eq!(store.complete(RowId(1), results(4.0)), Ok(()));
    assert_eq!(store.claim(), Err(StoreError::NoTaskAvailable));
}

#[test]
fn no_task_is_ever_partly_complete() {
    let mut store = seeded(4);
    let check = |store: &TaskStore| {
        for id in 1..=4 {
            let task = store.task(RowId(id)).unwrap();
            let present = [
                task.data.power_on_bs.is_some(),
                task.data.power_off_bs.is_some(),
                task.data.power_on_s.is_some(),
                task.data.power_off_s.is_some(),
            ];
            assert_eq!(present, [task.complete; 4]);
        }
    };
    check(&store);
    store.claim().unwrap();
    check(&store);
    store.complete(RowId(1), results(1.0)).unwrap();
    check(&store);
    store.complete(RowId(1), results(2.0)).unwrap_err();
    check(&store);
    store.complete(RowId(9), results(2.0)).unwrap_err();
    check(&store);
    store.claim().unwrap();
    store.complete(RowId(4), results(3.0)).unwrap();
    check(&store);
}

#[test]
fn a_claimed_task_waits_behind_the_other() {
    let mut store = seeded(2);
    assert_eq!(store.claim().unwrap().1, RowId(1));
    assert_eq!(store.claim().unwrap().1, RowId(2));
    assert_eq!(store.claim().unwrap().1, RowId(1));
    assert_eq!(store.claim().unwrap().1, RowId(2));
    assert_eq!(store.claim().unwrap().1, RowId(1));
    assert_eq!((key_of(&store, 1), key_of(&store, 2)), (7, 6));
}

#[test]
fn a_single_incomplete_task_is_claimed_again() {
    let mut store = seeded(1);
    assert_eq!(store.claim(), Ok((record(0.0), RowId(1))));
    assert_eq!(store.claim(), Ok((record(0.0), RowId(1))));
    assert_eq!(key_of(&store, 1), 3);
}

#[test]
fn insert_simulation_rows_appends_one_group() {
    let mut store = seeded(2);
    store.claim().unwrap();
    assert_eq!(store.insert_simulation_rows(&records(3)), Ok(()));
    assert_eq!(store.len(), 5);
    assert_eq!(
        store.task(RowId(3)),
        Some(Task { id: RowId(3), data: record(0.0), complete: false, order_key: 4 })
    );
    assert_eq!(
        store.task(RowId(5)),
        Some(Task { id: RowId(5), data: record(2.0), complete: false, order_key: 6 })
    );
    assert_eq!(store.insert_simulation_rows(&[]), Ok(()));
    assert_eq!(store.len(), 5);
}

#[test]
fn seed_of_many_records_keeps_their_order() {
    let mut store = seeded(45);
    assert_eq!(store.len(), 45);
    for k in 0..45 {
        assert_eq!(store.claim(), Ok((record(k as f64), RowId((k + 1) as i64))));
    }
    assert_eq!(store.claim(), Ok((record(0.0), RowId(1))));
    assert_eq!(key_of(&store, 45), 90);
}

#[test]
fn seed_of_nothing_changes_nothing() {
    let mut store = seeded(2);
    assert_eq!(store.seed(&[]), Ok(()));
    assert_eq!(store.len(), 2);
    assert_eq!(store.claim(), Ok((record(0.0), RowId(1))));
    assert_eq!(key_of(&store, 1), 3);
}

#[test]
fn with_counters_rejects_a_negative_identifier() {
    assert!(TaskStore::with_counters(-1, 0).is_none());
    assert!(TaskStore::with_counters(i64::MIN, 5).is_none());
    let mut store = TaskStore::with_counters(10, 100).unwrap();
    assert_eq!(store.len(), 0);
    assert_eq!(store.seed(&records(1)), Ok(()));
    assert_eq!(
        store.task(RowId(11)),
        Some(Task { id: RowId(11), data: record(0.0), complete: false, order_key: 101 })
    );
}

#[test]
fn claim_fails_when_the_sequence_is_used_up() {
    let mut store = TaskStore::with_counters(0, u64::MAX - 2).unwrap();
    assert_eq!(store.seed(&records(1)), Ok(()));
    assert_eq!(key_of(&store, 1), u64::MAX - 1);
    assert_eq!(store.claim(), Ok((record(0.0), RowId(1))));
    assert_eq!(key_of(&store, 1), u64::MAX);
    assert_eq!(store.claim(), Err(StoreError::StoreUnavailable));
    assert_eq!(store.claim(), Err(StoreError::StoreUnavailable));
    assert_eq!(key_of(&store, 1), u64::MAX);
    assert_eq!(store.complete(RowId(1), results(1.0)), Ok(()));
    assert_eq!(store.claim(), Err(StoreError::NoTaskAvailable));
}

#[test]
fn a_group_that_does_not_fit_is_left_out_whole() {
    let mut store = TaskStore::with_counters(i64::MAX - 2, 0).unwrap();
    assert_eq!(store.insert_simulation_rows(&records(3)), Err(StoreError::StoreUnavailable));
    assert_eq!(store.len(), 0);
    assert_eq!(store.insert_simulation_rows(&records(2)), Ok(()));
    assert_eq!(store.len(), 2);
    assert_eq!(store.task(RowId(i64::MAX)).unwrap().order_key, 2);
    assert_eq!(store.insert_simulation_rows(&records(1)), Err(StoreError::StoreUnavailable));
    assert_eq!(store.len(), 2);
}

#[test]
fn seed_stops_at_the_first_group_that_does_not_fit() {
    let mut store = TaskStore::with_counters(0, u64::MAX - 45).unwrap();
    assert_eq!(store.seed(&records(50)), Err(StoreError::StoreUnavailable));
    assert_eq!(store.len(), 40);
    assert_eq!(store.task(RowId(40)).unwrap().data, record(39.0));
    assert_eq!(store.task(RowId(41)), None);

    let mut exact = TaskStore::with_counters(0, u64::MAX - 45).unwrap();
    assert_eq!(exact.seed(&records(45)), Ok(()));
    assert_eq!(exact.len(), 45);
    assert_eq!(key_of(&exact, 45), u64::MAX);
}

#[test]
fn serve_answers_each_request_in_turn() {
    let mut store = seeded(2);
    let replies: Vec<Reply> = [
        Request::Claim,
        Request::Complete(RowId(2), results(1.0)),
        Request::Complete(RowId(2), results(2.0)),
        Request::Claim,
        Request::Complete(RowId(1), results(3.0)),
        Request::Claim,
        Request::Complete(RowId(5), results(4.0)),
    ]
    .into_iter()
    .map(|request| store.serve(request))
    .collect();
    assert_eq!(
        replies,
        vec![
            Reply::Claimed(Ok((record(0.0), RowId(1)))),
            Reply::Completed(Ok(())),
            Reply::Completed(Err(StoreError::AlreadyCompletedOrUnknown)),
            Reply::Claimed(Ok((record(0.0), RowId(1)))),
            Reply::Completed(Ok(())),
            Reply::Claimed(Err(StoreError::NoTaskAvailable)),
            Reply::Completed(Err(StoreError::AlreadyCompletedOrUnknown)),
        ]
    );
    assert_eq!(store.task(RowId(2)).unwrap().data.results(), Some(results(1.0)));
    assert_eq!(store.task(RowId(1)).unwrap().order_key, 4);
}

#[test]
fn claims_go_round_from_any_counters() {
    let mut store = TaskStore::with_counters(5, 9).unwrap();
    assert_eq!(store.seed(&records(3)), Ok(()));
    assert_eq!(store.claim().unwrap().1, RowId(6));
    assert_eq!(store.claim().unwrap().1, RowId(7));
    assert_eq!(store.claim().unwrap().1, RowId(8));
    assert_eq!(store.claim().unwrap().1, RowId(6));
    assert_eq!(key_of(&store, 6), 16);
}
