use cs110l::load_balancer::{
    next_action, request_error_status, ClientWindow, ConnectionAction, ConnectionEvent,
    ProxyError, RateLimiter, RequestError, Upstream, BAD_GATEWAY, BAD_REQUEST, PAYLOAD_TOO_LARGE,
    SERVICE_UNAVAILABLE, TOO_MANY_REQUESTS, WINDOW_NANOS,
};

fn servers() -> Vec<String> {
    vec![String::from("a:80"), String::from("b:80"), String::from("c:80")]
}

#[test]
fn all_servers_start_in_the_pool() {
    let up = Upstream::new(servers());
    assert_eq!(up.addresses(), &servers());
    for i in 0..3 {
        assert!(up.is_valid(i));
    }
    assert!(!up.is_valid(3));
}

#[test]
fn a_pick_is_a_pooled_server() {
    let mut up = Upstream::new(servers());
    up.set_valid(0, false);
    up.set_valid(2, false);
    for _ in 0..20 {
        assert_eq!(up.get_valid(), Ok((String::from("b:80"), 1)));
    }
    up.set_valid(1, false);
    assert_eq!(up.get_valid(), Err(()));
    assert_eq!(up.next_upstream(), Err(ProxyError::NoUpstream));
    up.set_valid(2, true);
    assert_eq!(up.next_upstream(), Ok((String::from("c:80"), 2)));
}

#[test]
fn an_index_without_a_server_can_be_pooled_and_taken_out() {
    let mut up = Upstream::new(servers());
    assert!(up.pool_names_servers());
    up.set_valid(7, true);
    assert!(up.is_valid(7));
    assert!(!up.pool_names_servers());
    up.set_valid(7, false);
    assert!(!up.is_valid(7));
    assert!(up.pool_names_servers());
    up.connect_failed(9);
    assert!(up.pool_names_servers());
}

#[test]
fn failed_connections_empty_the_pool_in_at_most_n_tries() {
    let mut up = Upstream::new(servers());
    let mut tries = 0;
    while let Ok((_, index)) = up.next_upstream() {
        up.connect_failed(index);
        assert!(!up.is_valid(index));
        tries += 1;
    }
    assert_eq!(tries, 3);
}

#[test]
fn empty_address_list_gives_no_upstream() {
    let up = Upstream::new(Vec::new());
    assert_eq!(up.next_upstream(), Err(ProxyError::NoUpstream));
    assert_eq!(ProxyError::NoUpstream.message(), "No avaliable upstream");
}

#[test]
fn limit_applies_per_client_per_minute() {
    let mut limiter = RateLimiter::new(2);
    limiter.register_client(1, 0);
    limiter.register_client(2, 0);
    assert!(!limiter.check_request(1, 10));
    assert!(!limiter.check_request(1, 20));
    assert!(limiter.check_request(1, 30));
    assert!(!limiter.check_request(2, 40));
    assert!(limiter.check_request(1, WINDOW_NANOS));
    assert!(!limiter.check_request(1, WINDOW_NANOS + 1));
    assert!(!limiter.check_request(1, WINDOW_NANOS + 2));
    assert!(limiter.check_request(1, WINDOW_NANOS + 3));
}

#[test]
fn a_new_window_admits_again_after_a_minute() {
    let mut limiter = RateLimiter::new(1);
    limiter.register_client(9, 100);
    assert!(!limiter.check_request(9, 100));
    assert!(limiter.check_request(9, 200));
    assert!(!limiter.check_request(9, 100 + WINDOW_NANOS + 1));
    assert!(limiter.check_request(9, 100 + WINDOW_NANOS + 2));
    assert!(!limiter.check_request(9, 2 * WINDOW_NANOS + 200));
}

#[test]
fn zero_means_unlimited() {
    let mut limiter = RateLimiter::new(0);
    limiter.register_client(5, 0);
    for t in 0..1000u64 {
        assert!(!limiter.check_request(5, t));
    }
}

#[test]
fn registering_twice_keeps_the_window() {
    let mut limiter = RateLimiter::new(1);
    limiter.register_client(3, 0);
    assert!(!limiter.check_request(3, 1));
    limiter.register_client(3, 2);
    assert!(limiter.check_request(3, 3));
    let w = ClientWindow { count: 1, started: 0 };
    assert_eq!(w, ClientWindow { count: 1, started: 0 });
}

#[test]
fn request_errors_map_to_statuses() {
    assert_eq!(request_error_status(RequestError::IncompleteRequest(3)), BAD_REQUEST);
    assert_eq!(request_error_status(RequestError::MalformedRequest(3)), BAD_REQUEST);
    assert_eq!(request_error_status(RequestError::InvalidContentLength), BAD_REQUEST);
    assert_eq!(request_error_status(RequestError::ContentLengthMismatch), BAD_REQUEST);
    assert_eq!(request_error_status(RequestError::RequestBodyTooLarge), PAYLOAD_TOO_LARGE);
    assert_eq!(request_error_status(RequestError::ConnectionError), SERVICE_UNAVAILABLE);
}

#[test]
fn connection_turns() {
    assert_eq!(next_action(ConnectionEvent::NoUpstream), ConnectionAction::ReplyAndClose(BAD_GATEWAY));
    assert_eq!(
        next_action(ConnectionEvent::RequestFailed(RequestError::IncompleteRequest(0))),
        ConnectionAction::Close
    );
    assert_eq!(
        next_action(ConnectionEvent::RequestFailed(RequestError::IncompleteRequest(5))),
        ConnectionAction::ReplyAndContinue(BAD_REQUEST)
    );
    assert_eq!(
        next_action(ConnectionEvent::RequestFailed(RequestError::ConnectionError)),
        ConnectionAction::Close
    );
    assert_eq!(
        next_action(ConnectionEvent::RequestFailed(RequestError::RequestBodyTooLarge)),
        ConnectionAction::ReplyAndContinue(PAYLOAD_TOO_LARGE)
    );
    assert_eq!(
        next_action(ConnectionEvent::RequestRead { restricted: true }),
        ConnectionAction::ReplyAndContinue(TOO_MANY_REQUESTS)
    );
    assert_eq!(
        next_action(ConnectionEvent::RequestRead { restricted: false }),
        ConnectionAction::Forward
    );
    assert_eq!(next_action(ConnectionEvent::ForwardFailed), ConnectionAction::ReplyAndClose(BAD_GATEWAY));
    assert_eq!(next_action(ConnectionEvent::ResponseFailed), ConnectionAction::ReplyAndClose(BAD_GATEWAY));
    assert_eq!(next_action(ConnectionEvent::ResponseRead), ConnectionAction::Relay);
}
