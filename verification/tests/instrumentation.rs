use ros2dds_routes::test_instrumentation::{
    record_activation_failure, test_dds_activation_failure_details, test_dds_activation_failures,
    test_reset_activation_failures, ActivationFailures,
};

#[test]
fn failures_are_counted_and_described() {
    let mut failures = ActivationFailures::new();
    assert_eq!(test_dds_activation_failures(&failures), 0);
    record_activation_failure(&mut failures, "route_publisher:activate", "retcode=-3");
    record_activation_failure(&mut failures, "route_service_cli:add_remote_route", "Bad Parameter");
    assert_eq!(test_dds_activation_failures(&failures), 2);
    assert_eq!(
        test_dds_activation_failure_details(&mut failures),
        vec![
            "route_publisher:activate: retcode=-3".to_string(),
            "route_service_cli:add_remote_route: Bad Parameter".to_string(),
        ]
    );
}

#[test]
fn reading_the_details_drains_them_and_keeps_the_count() {
    let mut failures = ActivationFailures::new();
    record_activation_failure(&mut failures, "a", "b");
    assert_eq!(test_dds_activation_failure_details(&mut failures).len(), 1);
    assert!(test_dds_activation_failure_details(&mut failures).is_empty());
    assert_eq!(test_dds_activation_failures(&failures), 1);
}

#[test]
fn only_the_first_details_are_kept() {
    let mut failures = ActivationFailures::new();
    for i in 0..1030 {
        record_activation_failure(&mut failures, "path", &format!("{i}"));
    }
    assert_eq!(test_dds_activation_failures(&failures), 1030);
    let details = test_dds_activation_failure_details(&mut failures);
    assert_eq!(details.len(), 1024);
    assert_eq!(details[0], "path: 0");
    assert_eq!(details[1023], "path: 1023");
}

#[test]
fn a_reset_forgets_everything() {
    let mut failures = ActivationFailures::default();
    record_activation_failure(&mut failures, "a", "b");
    test_reset_activation_failures(&mut failures);
    assert_eq!(test_dds_activation_failures(&failures), 0);
    assert!(test_dds_activation_failure_details(&mut failures).is_empty());
}
