use netsys::{
    classify, gateway_failure_response, ConnectEvent, FailureKind, FailureScope, Forwarder,
    ReadEvent, Request, Response, SessionState, StartupError, TransportEvent, UpstreamManager,
};

fn request(text: &str) -> Request {
    Request {
        bytes: text.as_bytes().to_vec(),
    }
}

fn reply(status: u16, text: &str) -> TransportEvent {
    TransportEvent::Replied(Response {
        status,
        body: text.as_bytes().to_vec(),
    })
}

#[test]
fn startup_refused_is_fatal() {
    assert_eq!(
        UpstreamManager::startup(ConnectEvent::Refused).err(),
        Some(StartupError::ConnectFailed)
    );
}

#[test]
fn two_requests_one_connection_served_in_order() {
    // one kept-open client connection, healthy upstream: both requests
    // are forwarded in order and both responses come back in order
    let mut manager = UpstreamManager::startup(ConnectEvent::Established).unwrap();
    let mut client = Forwarder::accept();
    client.serve_step(
        &mut manager,
        ReadEvent::Received(request("GET /a")),
        reply(200, "alpha"),
        ConnectEvent::Established,
        true,
    );
    client.serve_step(
        &mut manager,
        ReadEvent::Received(request("GET /b")),
        reply(200, "beta"),
        ConnectEvent::Established,
        true,
    );
    assert_eq!(client.state, SessionState::AwaitingRequest);
    assert_eq!(client.written.len(), 2);
    assert_eq!(client.written[0].body, b"alpha".to_vec());
    assert_eq!(client.written[1].body, b"beta".to_vec());
    assert_eq!(manager.wire_log.len(), 2);
    assert_eq!(manager.wire_log[0].bytes, b"GET /a".to_vec());
    assert_eq!(manager.wire_log[1].bytes, b"GET /b".to_vec());
    assert_eq!(manager.generation, 1);
    assert!(manager.connected);
}

#[test]
fn severed_upstream_gives_gateway_failure_then_recovers() {
    // the wire breaks under /a: the client gets the synthesized bad
    // gateway response, stays connected, and /b succeeds against the
    // reconnected upstream
    let mut manager = UpstreamManager::startup(ConnectEvent::Established).unwrap();
    let mut client = Forwarder::accept();
    client.serve_step(
        &mut manager,
        ReadEvent::Received(request("GET /a")),
        TransportEvent::Broken,
        ConnectEvent::Established,
        true,
    );
    assert_eq!(client.state, SessionState::AwaitingRequest);
    assert_eq!(client.written.len(), 1);
    assert_eq!(client.written[0].status, 502);
    assert!(client.written[0].body.is_empty());
    assert_eq!(manager.generation, 2);
    assert!(manager.connected);
    client.serve_step(
        &mut manager,
        ReadEvent::Received(request("GET /b")),
        reply(200, "beta"),
        ConnectEvent::Established,
        true,
    );
    assert_eq!(client.written.len(), 2);
    assert_eq!(client.written[1].status, 200);
    assert_eq!(client.written[1].body, b"beta".to_vec());
    assert_eq!(client.state, SessionState::AwaitingRequest);
}

#[test]
fn break_between_exchanges_is_transparent() {
    // the upstream is forcibly closed between two exchanges; once the
    // manager has seen the break, the next exchange succeeds on a new
    // connection and no client connection is lost
    let mut manager = UpstreamManager::startup(ConnectEvent::Established).unwrap();
    let mut client = Forwarder::accept();
    client.serve_step(
        &mut manager,
        ReadEvent::Received(request("GET /a")),
        reply(200, "alpha"),
        ConnectEvent::Established,
        true,
    );
    manager.notify_broken();
    assert!(!manager.connected);
    client.serve_step(
        &mut manager,
        ReadEvent::Received(request("GET /b")),
        reply(200, "beta"),
        ConnectEvent::Established,
        true,
    );
    assert_eq!(client.state, SessionState::AwaitingRequest);
    assert_eq!(client.written.len(), 2);
    assert_eq!(client.written[1].status, 200);
    assert_eq!(client.written[1].body, b"beta".to_vec());
    assert_eq!(manager.generation, 2);
    assert!(manager.connected);
}

#[test]
fn unreachable_upstream_fails_fast_then_retries_lazily() {
    // reconnect refused: the exchange fails fast with the gateway
    // response and the request never reaches the wire; the next
    // exchange connects lazily and succeeds
    let mut manager = UpstreamManager::startup(ConnectEvent::Established).unwrap();
    manager.notify_broken();
    let mut client = Forwarder::accept();
    client.serve_step(
        &mut manager,
        ReadEvent::Received(request("GET /a")),
        TransportEvent::Broken,
        ConnectEvent::Refused,
        true,
    );
    assert_eq!(client.written.len(), 1);
    assert_eq!(client.written[0].status, 502);
    assert_eq!(manager.wire_log.len(), 0);
    assert!(!manager.connected);
    client.serve_step(
        &mut manager,
        ReadEvent::Received(request("GET /b")),
        reply(200, "beta"),
        ConnectEvent::Established,
        true,
    );
    assert_eq!(client.written[1].status, 200);
    assert_eq!(manager.wire_log.len(), 1);
    assert!(manager.connected);
}

#[test]
fn client_loss_touches_nothing_else() {
    let mut manager = UpstreamManager::startup(ConnectEvent::Established).unwrap();
    let mut one = Forwarder::accept();
    let mut other = Forwarder::accept();
    one.serve_step(
        &mut manager,
        ReadEvent::ClientGone,
        reply(200, "unused"),
        ConnectEvent::Established,
        true,
    );
    assert_eq!(one.state, SessionState::Closed);
    other.serve_step(
        &mut manager,
        ReadEvent::Received(request("GET /x")),
        reply(200, "x"),
        ConnectEvent::Established,
        true,
    );
    assert_eq!(other.state, SessionState::AwaitingRequest);
    assert_eq!(other.written.len(), 1);
    assert!(manager.connected);
    assert_eq!(manager.wire_log.len(), 1);
}

#[test]
fn fifty_clients_make_fifty_sequential_exchanges() {
    let mut manager = UpstreamManager::startup(ConnectEvent::Established).unwrap();
    let mut clients: Vec<Forwarder> = (0..50).map(|_| Forwarder::accept()).collect();
    for (index, client) in clients.iter_mut().enumerate() {
        client.serve_step(
            &mut manager,
            ReadEvent::Received(request(&format!("GET /{}", index))),
            reply(200, &format!("answer {}", index)),
            ConnectEvent::Established,
            true,
        );
    }
    assert_eq!(manager.wire_log.len(), 50);
    assert_eq!(manager.generation, 1);
    for (index, client) in clients.iter().enumerate() {
        assert_eq!(client.state, SessionState::AwaitingRequest);
        assert_eq!(client.written.len(), 1);
        assert_eq!(client.written[0].status, 200);
        assert_eq!(
            client.written[0].body,
            format!("answer {}", index).into_bytes()
        );
        assert_eq!(manager.wire_log[index].bytes, format!("GET /{}", index).into_bytes());
    }
}

#[test]
fn gateway_failure_response_shape() {
    let resp = gateway_failure_response();
    assert_eq!(resp.status, 502);
    assert!(resp.body.is_empty());
}

#[test]
fn failure_scopes_are_contained() {
    assert_eq!(classify(FailureKind::UpstreamTransport), FailureScope::ExchangeOnly);
    assert_eq!(classify(FailureKind::ReconnectConnect), FailureScope::ExchangeOnly);
    assert_eq!(classify(FailureKind::ClientDecode), FailureScope::ClientConnectionOnly);
    assert_eq!(classify(FailureKind::ClientWrite), FailureScope::ClientConnectionOnly);
    assert_eq!(classify(FailureKind::AcceptTransient), FailureScope::ContinueAccepting);
    assert_eq!(classify(FailureKind::Bind), FailureScope::Fatal);
    assert_eq!(classify(FailureKind::StartupConnect), FailureScope::Fatal);
    assert_eq!(classify(FailureKind::AcceptFatal), FailureScope::Fatal);
}
