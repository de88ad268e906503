use relay_core::gui::greet;
use relay_core::report::{
    any_failed, decimal_string, escape_xml, junit_report, outcome_of_failure,
    outcome_of_parse_failure, outcome_of_response, total_time_ms,
};

#[test]
fn escape_xml_escapes_the_five_characters() {
    assert_eq!(escape_xml("a&b<c>d\"e'f"), "a&amp;b&lt;c&gt;d&quot;e&apos;f");
    assert_eq!(escape_xml("plain text"), "plain text");
    assert_eq!(escape_xml("&amp;"), "&amp;amp;");
    assert_eq!(escape_xml(""), "");
}

#[test]
fn outcome_of_status_codes() {
    let ok = outcome_of_response("f".into(), "GET".into(), "u".into(), 201, 12);
    assert!(ok.error.is_none());
    assert_eq!(ok.status_code, 201);
    let nf = outcome_of_response("f".into(), "GET".into(), "u".into(), 404, 3);
    assert_eq!(nf.error.as_deref(), Some("HTTP Status 404"));
    let low = outcome_of_response("f".into(), "GET".into(), "u".into(), 199, 3);
    assert_eq!(low.error.as_deref(), Some("HTTP Status 199"));
    let edge = outcome_of_response("f".into(), "GET".into(), "u".into(), 300, 3);
    assert_eq!(edge.error.as_deref(), Some("HTTP Status 300"));
    let top = outcome_of_response("f".into(), "GET".into(), "u".into(), 299, 3);
    assert!(top.error.is_none());
}

#[test]
fn failures_and_parse_failures() {
    let f = outcome_of_failure("f".into(), "GET".into(), "u".into(), "boom".into());
    assert_eq!((f.status_code, f.time_ms), (0, 0));
    assert_eq!(f.error.as_deref(), Some("boom"));
    let p = outcome_of_parse_failure("f".into(), "bad");
    assert_eq!(p.method, "UNKNOWN");
    assert_eq!(p.url, "UNKNOWN");
    assert_eq!(p.error.as_deref(), Some("Parse error: bad"));
    assert!(any_failed(&vec![p]));
    let ok = outcome_of_response("f".into(), "GET".into(), "u".into(), 200, 1);
    assert!(!any_failed(&vec![ok]));
    assert!(!any_failed(&vec![]));
}

#[test]
fn decimal_notation() {
    assert_eq!(decimal_string(0), "0");
    assert_eq!(decimal_string(7), "7");
    assert_eq!(decimal_string(10), "10");
    assert_eq!(decimal_string(65535), "65535");
    assert_eq!(decimal_string(u128::MAX), u128::MAX.to_string());
}

#[test]
fn junit_report_of_two_results() {
    let ok = outcome_of_response("a.rl".into(), "GET".into(), "http://x/?a=1&b=2".into(), 200, 1500);
    let bad = outcome_of_response("<b>.rl".into(), "POST".into(), "http://y".into(), 500, 20);
    let xml = junit_report(&vec![ok, bad], &vec!["1.500".into(), "0.020".into()], "1.520");
    let expected = [
        "<?xml version=\"1.0\" encoding=\"UTF-8\"?>\n",
        "<testsuites>\n  <testsuite name=\"relay\" tests=\"2\" failures=\"1\" errors=\"0\" time=\"1.520\">\n",
        "    <testcase name=\"GET http://x/?a=1&amp;b=2\" classname=\"a.rl\" time=\"1.500\" />\n",
        "    <testcase name=\"POST http://y\" classname=\"&lt;b&gt;.rl\" time=\"0.020\">\n",
        "      <failure message=\"HTTP Status 500\">HTTP Status 500</failure>\n",
        "    </testcase>\n",
        "  </testsuite>\n</testsuites>\n",
    ]
    .concat();
    assert_eq!(xml, expected);
}

#[test]
fn junit_report_of_no_results() {
    let xml = junit_report(&vec![], &vec![], "0.000");
    assert_eq!(
        xml,
        "<?xml version=\"1.0\" encoding=\"UTF-8\"?>\n<testsuites>\n  <testsuite name=\"relay\" tests=\"0\" failures=\"0\" errors=\"0\" time=\"0.000\">\n  </testsuite>\n</testsuites>\n"
    );
}

#[test]
fn greeting() {
    assert_eq!(greet("Ann"), "Hello, Ann! You've been greeted from Rust!");
}

#[test]
fn total_time_sums_and_detects_overflow() {
    let a = outcome_of_response("f".into(), "GET".into(), "u".into(), 200, 1500);
    let b = outcome_of_response("f".into(), "GET".into(), "u".into(), 200, 20);
    assert_eq!(total_time_ms(&vec![a, b]), Some(1520));
    assert_eq!(total_time_ms(&vec![]), Some(0));
    let big = outcome_of_response("f".into(), "GET".into(), "u".into(), 200, u128::MAX);
    let one = outcome_of_response("f".into(), "GET".into(), "u".into(), 200, 1);
    assert_eq!(total_time_ms(&vec![big, one]), None);
}
