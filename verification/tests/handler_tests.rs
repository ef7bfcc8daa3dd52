use reverse_http_proxy::handler::advance;
use reverse_http_proxy::handler::bad_gateway_response;
use reverse_http_proxy::handler::plan_forward;
use reverse_http_proxy::handler::should_log;
use reverse_http_proxy::handler::Action;
use reverse_http_proxy::handler::Event;
use reverse_http_proxy::handler::Phase;
use reverse_http_proxy::handler::RelayFault;
use reverse_http_proxy::header::HeaderReader;
use reverse_http_proxy::header::ReadError;
use reverse_http_proxy::header::ReadStep;
use reverse_http_proxy::route::RouteConfig;

fn config(rewrite: bool) -> RouteConfig {
    match RouteConfig::new("backend_b:80".to_string(), vec!["/api=backend_a:80".to_string()], rewrite) {
        Ok(c) => c,
        Err(_) => panic!("refused"),
    }
}

fn read(request: &[u8]) -> (String, Vec<u8>) {
    let mut reader = HeaderReader::new();
    match reader.feed(request) {
        ReadStep::Done { path, raw } => (path, raw),
        _ => panic!("expected a complete head"),
    }
}

#[test]
fn matching_request_goes_to_its_backend_unchanged_without_rewriting() {
    let request = b"GET /api/users HTTP/1.1\r\nHost: h\r\n\r\n";
    let (path, raw) = read(request);
    let plan = plan_forward(&config(false), &path, &raw);
    assert_eq!(plan.backend, "backend_a:80");
    assert_eq!(plan.matched_prefix, "/api");
    assert_eq!(plan.rewritten_path, None);
    assert_eq!(plan.request, request.to_vec());
}

#[test]
fn matching_request_is_rewritten_when_rewriting_is_on() {
    let (path, raw) = read(b"GET /api/users HTTP/1.1\r\nHost: h\r\n\r\n");
    let plan = plan_forward(&config(true), &path, &raw);
    assert_eq!(plan.backend, "backend_a:80");
    assert_eq!(plan.matched_prefix, "/api");
    assert_eq!(plan.rewritten_path, Some("/users".to_string()));
    assert_eq!(plan.request, b"GET /users HTTP/1.1\r\nHost: h\r\n\r\n".to_vec());
    let first_line_end = plan.request.iter().position(|b| *b == b'\r').unwrap_or(0);
    assert_eq!(&plan.request[..first_line_end], b"GET /users HTTP/1.1");
}

#[test]
fn unknown_path_goes_to_the_default_backend_unchanged() {
    let request = b"GET /unknown HTTP/1.1\r\nHost: h\r\n\r\n";
    let (path, raw) = read(request);
    let plan = plan_forward(&config(true), &path, &raw);
    assert_eq!(plan.backend, "backend_b:80");
    assert_eq!(plan.matched_prefix, "");
    assert_eq!(plan.rewritten_path, Some("/unknown".to_string()));
    assert_eq!(plan.request, request.to_vec());
    let plan = plan_forward(&config(false), &path, &raw);
    assert_eq!(plan.backend, "backend_b:80");
    assert_eq!(plan.request, request.to_vec());
}

#[test]
fn bad_gateway_response_is_the_fixed_literal() {
    assert_eq!(
        bad_gateway_response(),
        b"HTTP/1.1 502 Bad Gateway\r\nContent-Length: 15\r\n\r\nBad Gateway\r\n".to_vec()
    );
}

#[test]
fn failed_connect_answers_bad_gateway_and_closes() {
    let (phase, action) = advance(Phase::Accepted, Event::HeadRead);
    assert_eq!((phase, action), (Phase::BackendConnecting, Action::Connect));
    assert_eq!(advance(phase, Event::ConnectFailed), (Phase::Closed, Action::ReplyBadGateway));
}

#[test]
fn early_close_is_logged_and_sends_nothing() {
    let mut reader = HeaderReader::new();
    assert!(matches!(reader.feed(b"GET / HTTP/1.1\r\nHost: h\r\n"), ReadStep::NeedMore));
    let error = match reader.feed(b"") {
        ReadStep::Failed(e) => e,
        _ => panic!("expected a failure"),
    };
    assert_eq!(error, ReadError::ConnectionClosedEarly);
    assert_eq!(advance(Phase::Accepted, Event::ReadFailed(error)), (Phase::Closed, Action::LogAndClose));
}

#[test]
fn successful_connection_runs_through_every_phase() {
    assert_eq!(advance(Phase::Accepted, Event::HeadRead), (Phase::BackendConnecting, Action::Connect));
    assert_eq!(advance(Phase::BackendConnecting, Event::Connected), (Phase::BackendConnected, Action::Forward));
    assert_eq!(advance(Phase::BackendConnected, Event::Forwarded), (Phase::Relaying, Action::Relay));
    assert_eq!(advance(Phase::Relaying, Event::RelayEnded), (Phase::Closed, Action::Close));
}

#[test]
fn failures_close_the_connection() {
    assert_eq!(
        advance(Phase::Accepted, Event::ReadFailed(ReadError::MalformedRequest)),
        (Phase::Closed, Action::LogAndClose)
    );
    assert_eq!(advance(Phase::BackendConnected, Event::ForwardFailed), (Phase::Closed, Action::LogAndClose));
    assert_eq!(advance(Phase::Relaying, Event::RelayFailed(RelayFault::Other)), (Phase::Closed, Action::LogAndClose));
    assert_eq!(advance(Phase::Relaying, Event::RelayFailed(RelayFault::UnexpectedEof)), (Phase::Closed, Action::Close));
    assert_eq!(advance(Phase::Relaying, Event::RelayFailed(RelayFault::ConnectionReset)), (Phase::Closed, Action::Close));
}

#[test]
fn event_out_of_place_closes() {
    assert_eq!(advance(Phase::Accepted, Event::Connected), (Phase::Closed, Action::Close));
    assert_eq!(advance(Phase::Closed, Event::HeadRead), (Phase::Closed, Action::Close));
    assert_eq!(advance(Phase::Relaying, Event::ConnectFailed), (Phase::Closed, Action::Close));
}

#[test]
fn only_unexpected_relay_faults_are_logged() {
    assert!(!should_log(RelayFault::UnexpectedEof));
    assert!(!should_log(RelayFault::ConnectionReset));
    assert!(should_log(RelayFault::Other));
}
