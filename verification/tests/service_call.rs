use ros2dds_routes::service_call::{env_u64, exit_code, parse_u64, verdict_line, CallOutcome};

#[test]
fn numbers_are_read_like_the_standard_library_does() {
    for text in [
        "0", "30", "007", "+5", "18446744073709551615", "18446744073709551616", "", "+", "-1",
        "++1", " 1", "1 ", "1a", "99999999999999999999999a",
    ] {
        assert_eq!(parse_u64(text), text.parse::<u64>().ok(), "{text:?}");
    }
}

#[test]
fn the_default_stands_in_for_what_is_no_number() {
    assert_eq!(env_u64(None, 30), 30);
    assert_eq!(env_u64(Some("45"), 30), 45);
    assert_eq!(env_u64(Some("soon"), 30), 30);
    assert_eq!(env_u64(Some(""), 20), 20);
}

#[test]
fn every_outcome_has_its_line() {
    assert_eq!(verdict_line(&CallOutcome::Unavailable), "CALLER_SERVICE_UNAVAILABLE");
    assert_eq!(verdict_line(&CallOutcome::Response(42)), "CALLER_GOT_RESPONSE sum=42");
    assert_eq!(verdict_line(&CallOutcome::Response(0)), "CALLER_GOT_RESPONSE sum=0");
    assert_eq!(verdict_line(&CallOutcome::Response(-7)), "CALLER_GOT_RESPONSE sum=-7");
    assert_eq!(
        verdict_line(&CallOutcome::Response(i64::MIN)),
        format!("CALLER_GOT_RESPONSE sum={}", i64::MIN)
    );
    assert_eq!(verdict_line(&CallOutcome::Timeout), "CALLER_TIMEOUT");
    assert_eq!(
        verdict_line(&CallOutcome::Failed("closed".to_string())),
        "CALLER_ERROR closed"
    );
}

#[test]
fn only_an_unavailable_service_fails_the_caller() {
    assert_eq!(exit_code(&CallOutcome::Unavailable), 2);
    assert_eq!(exit_code(&CallOutcome::Timeout), 0);
    assert_eq!(exit_code(&CallOutcome::Response(1)), 0);
}
