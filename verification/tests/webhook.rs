use bhf::daemon_error::DaemonError;
use bhf::scheduler::TimeSpan;
use bhf::webhook::{
    check_remaining, check_written, judge_reply, parse_http_status, parse_http_url, plan_webhook, read_more, unresolved,
    MAX_WEBHOOK_RESPONSE_BYTES,
};

#[test]
fn parse_http_url_handles_explicit_port() {
    let parsed = parse_http_url("http://localhost:9090/notify").unwrap();
    assert_eq!(parsed.scheme, "http");
    assert_eq!(parsed.host, "localhost");
    assert_eq!(parsed.port, 9090);
    assert_eq!(parsed.path, "/notify");
}

#[test]
fn parse_http_url_defaults_port_80() {
    let parsed = parse_http_url("http://example.com/").unwrap();
    assert_eq!(parsed.port, 80);
    assert_eq!(parsed.path, "/");
}

#[test]
fn parse_http_url_defaults_port_443_for_https() {
    let parsed = parse_http_url("https://example.com/x").unwrap();
    assert_eq!(parsed.port, 443);
}

#[test]
fn parse_http_status_picks_status_code() {
    let response = b"HTTP/1.1 204 No Content\r\nFoo: bar\r\n\r\n";
    assert_eq!(parse_http_status(response), Some(204));
}

#[test]
fn post_webhook_rejects_invalid_url() {
    let result = plan_webhook("not-a-url", "{}");
    assert!(result.is_err());
}

#[test]
fn post_webhook_rejects_https_v0_1() {
    let result = plan_webhook("https://example.com/notify", "{}");
    assert!(result.is_err());
}

#[test]
fn webhook_deadline_stops_trickle_and_response_cap_stops_large_body() {
    let mut reply = Vec::new();
    read_more(&mut reply, b"HTTP/1.1 200 OK\r\n\r\n").unwrap();
    assert_eq!(reply, b"HTTP/1.1 200 OK\r\n\r\n".to_vec());
    let body = vec![b'x'; MAX_WEBHOOK_RESPONSE_BYTES + 1];
    assert!(matches!(
        read_more(&mut reply, &body),
        Err(DaemonError::Capacity("webhook response bytes"))
    ));
}

#[test]
fn webhook_small_success_response_is_accepted() {
    judge_reply(b"HTTP/1.1 204 No Content\r\nConnection: close\r\n\r\n").unwrap();
}

#[test]
fn a_reply_that_is_no_success_is_an_error() {
    assert!(judge_reply(b"HTTP/1.1 500 Oops\r\n\r\n").is_err());
    assert!(judge_reply(b"nonsense").is_err());
    assert!(judge_reply(&[0xff, 0xfe]).is_err());
    assert!(judge_reply(b"").is_err());
}

#[test]
fn a_request_carries_its_payload() {
    let request = plan_webhook("http://h.example:81/p?q=1", "{\"a\":1}").unwrap();
    assert_eq!(request.host, "h.example");
    assert_eq!(request.port, 81);
    assert!(request.text.starts_with("POST /p?q=1 HTTP/1.1\r\n"), "{}", request.text);
    assert!(request.text.contains("Content-Length: 7\r\n"), "{}", request.text);
    assert!(request.text.ends_with("\r\n\r\n{\"a\":1}"), "{}", request.text);
    assert!(unresolved(&request).sentence().contains("h.example"));
}

#[test]
fn addresses_without_a_host_or_a_port_are_refused() {
    assert!(parse_http_url("http://h:x/").is_none());
    assert_eq!(parse_http_url("ftp://h/").unwrap().port, 80);
    assert!(plan_webhook("ftp://h/", "{}").is_err());
    assert!(parse_http_url("http://h:65536/").is_none());
    assert_eq!(parse_http_url("http://h").unwrap().path, "/");
    assert_eq!(parse_http_status(b"HTTP/1.1 abc"), None);
}

#[test]
fn a_webhook_ends_with_its_time_and_its_progress() {
    let some = TimeSpan { secs: 0, nanos: 1 };
    assert_eq!(check_remaining(some), Ok(some));
    let error = check_remaining(TimeSpan { secs: 0, nanos: 0 }).unwrap_err();
    assert_eq!(error.sentence(), "I/O error: webhook overall deadline exceeded");
    assert_eq!(check_written(1), Ok(()));
    let error = check_written(0).unwrap_err();
    assert_eq!(error.sentence(), "I/O error: webhook request write returned zero");
}

#[test]
fn an_address_comes_apart_as_it_was_put_together() {
    let parsed = parse_http_url("http://a.b-c:8080/x/y?z=1:2").unwrap();
    assert_eq!(
        format!("{}://{}:{}{}", parsed.scheme, parsed.host, parsed.port, parsed.path),
        "http://a.b-c:8080/x/y?z=1:2"
    );
}
