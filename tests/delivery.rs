use c_ares_resolver::{settle_delivery, NameInfoResult};

#[derive(Debug, PartialEq)]
enum Failure {
    Cancelled,
    Timeout,
}

#[test]
fn published_success_is_handed_on() {
    let r: Result<u32, Failure> = settle_delivery(Some(Ok(42)), Failure::Cancelled);
    assert_eq!(r, Ok(42));
}

#[test]
fn published_failure_is_handed_on() {
    let r: Result<u32, Failure> = settle_delivery(Some(Err(Failure::Timeout)), Failure::Cancelled);
    assert_eq!(r, Err(Failure::Timeout));
}

#[test]
fn vanished_publisher_reads_as_cancelled() {
    let r: Result<u32, Failure> = settle_delivery(None, Failure::Cancelled);
    assert_eq!(r, Err(Failure::Cancelled));
}

fn assert_send<T: Send>() {}
fn assert_sync<T: Sync>() {}

#[test]
fn name_info_result_is_send() {
    assert_send::<NameInfoResult>();
}

#[test]
fn name_info_result_is_sync() {
    assert_sync::<NameInfoResult>();
}

#[test]
fn name_info_results_compare_by_fields() {
    let a = NameInfoResult { node: Some("localhost".to_string()), service: None };
    let b = a.clone();
    assert_eq!(a, b);
    let c = NameInfoResult { node: Some("localhost".to_string()), service: Some("domain".to_string()) };
    assert!(a < c);
}
