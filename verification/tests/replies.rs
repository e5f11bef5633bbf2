use task_distributor::config::certificate_from;
use task_distributor::error::{ConfigError, StoreError};
use task_distributor::models::{Data, EnvConfig, GetResponse, RowId};
use task_distributor::outcome::{claim_outcome, completion_outcome, group_bounds};
use task_distributor::transport::{get_task, submit_task, STATUS_BAD_REQUEST, STATUS_OK};

fn data() -> Data {
    Data::from_parameters([1, 2, 3, 4, 5, 6, 7, 8, 9, 10, 11, 12])
}

fn config(db_cert: &str) -> EnvConfig {
    EnvConfig {
        db_host: "localhost".to_string(),
        db_port: 5432,
        db_name: "simulations".to_string(),
        db_user: "bot".to_string(),
        db_password: "hunter2".to_string(),
        db_cert: db_cert.to_string(),
        listen_addr: "127.0.0.1:3000".to_string(),
        listen_password: "open sesame".to_string(),
        setup_csv: None,
    }
}

#[test]
fn claim_outcome_of_a_row_and_of_none() {
    assert_eq!(claim_outcome(Some((data(), RowId(3)))), Ok((data(), RowId(3))));
    assert_eq!(claim_outcome(None), Err(StoreError::NoTaskAvailable));
}

#[test]
fn completion_outcome_by_rows_changed() {
    assert_eq!(completion_outcome(0), Err(StoreError::AlreadyCompletedOrUnknown));
    assert_eq!(completion_outcome(1), Ok(()));
    assert_eq!(completion_outcome(2), Ok(()));
    assert_eq!(completion_outcome(u64::MAX), Ok(()));
}

#[test]
fn group_bounds_split_by_twenty() {
    assert_eq!(group_bounds(0), Vec::<(usize, usize)>::new());
    assert_eq!(group_bounds(1), vec![(0, 1)]);
    assert_eq!(group_bounds(19), vec![(0, 19)]);
    assert_eq!(group_bounds(20), vec![(0, 20)]);
    assert_eq!(group_bounds(21), vec![(0, 20), (20, 21)]);
    assert_eq!(group_bounds(45), vec![(0, 20), (20, 40), (40, 45)]);
    assert_eq!(group_bounds(60), vec![(0, 20), (20, 40), (40, 60)]);
}

#[test]
fn get_task_replies() {
    assert_eq!(get_task(Ok((data(), RowId(8)))), Ok(GetResponse { id: RowId(8), data: data() }));
    assert_eq!(
        get_task(Err(StoreError::NoTaskAvailable)),
        Err((400, "No incomplete task is available!".to_string()))
    );
    assert_eq!(
        get_task(Err(StoreError::StoreUnavailable)),
        Err((STATUS_BAD_REQUEST, "The task store is unavailable!".to_string()))
    );
    assert_eq!(
        get_task(Err(StoreError::AlreadyCompletedOrUnknown)),
        Err((400, "Task does not exist or was already submitted!".to_string()))
    );
}

#[test]
fn submit_task_replies() {
    assert_eq!(submit_task(Ok(())), (200, "Submitted!".to_string()));
    assert_eq!(STATUS_OK, 200);
    assert_eq!(
        submit_task(Err(StoreError::AlreadyCompletedOrUnknown)),
        (400, "Task does not exist or was already submitted!".to_string())
    );
    assert_eq!(
        submit_task(Err(StoreError::StoreUnavailable)),
        (400, "The task store is unavailable!".to_string())
    );
    assert_eq!(
        submit_task(Err(StoreError::NoTaskAvailable)),
        (400, "No incomplete task is available!".to_string())
    );
}

#[test]
fn messages_tell_the_failures_apart() {
    let a = StoreError::NoTaskAvailable.message();
    let b = StoreError::AlreadyCompletedOrUnknown.message();
    let c = StoreError::StoreUnavailable.message();
    assert_ne!(a, b);
    assert_ne!(b, c);
    assert_ne!(a, c);
}

#[test]
fn certificate_is_decoded_from_base64() {
    assert_eq!(config("aGVsbG8gd29ybGQ=").certificate(), Ok(b"hello world".to_vec()));
    assert_eq!(config("MIIB").certificate(), Ok(vec![0x30, 0x82, 0x01]));
    assert_eq!(config("").certificate(), Ok(Vec::new()));
}

#[test]
fn certificate_that_is_not_base64_is_refused() {
    assert_eq!(config("not base64!").certificate(), Err(ConfigError::InvalidCertificate));
    assert_eq!(config("a").certificate(), Err(ConfigError::InvalidCertificate));
    assert_eq!(config("aGVsbG8gd29ybGQ=\n").certificate(), Err(ConfigError::InvalidCertificate));
}

#[test]
fn certificate_from_a_decoder_result() {
    assert_eq!(certificate_from(Ok(vec![1, 2, 3])), Ok(vec![1, 2, 3]));
    assert_eq!(certificate_from(base64::decode("AQID")), Ok(vec![1, 2, 3]));
    assert_eq!(certificate_from(base64::decode("%%%%")), Err(ConfigError::InvalidCertificate));
    assert_eq!(
        certificate_from(Err(base64::DecodeError::InvalidLength)),
        Err(ConfigError::InvalidCertificate)
    );
}
