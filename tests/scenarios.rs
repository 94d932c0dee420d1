use sockudo::app::App;
use sockudo::codec::{decode_broadcast, decode_response, encode_broadcast, encode_response};
use sockudo::handler::{ConnectionHandler, ConnectionStatus, Liveness, TimeoutAction, CLOSE_PONG_TIMEOUT};
use sockudo::horizontal::{process_request, HorizontalAdapterBase, RequestType};
use sockudo::local_adapter::resolve_targets;
use sockudo::manager::{ChannelManager, SubscriptionRequest};
use sockudo::namespace::Namespace;

fn s(x: &str) -> String {
    x.to_string()
}

fn app() -> App {
    App::new(s("app-1"), s("app-key"), s("app-secret"))
}

fn public_request(channel: &str) -> SubscriptionRequest {
    SubscriptionRequest { channel: s(channel), auth: None, channel_data: None }
}

fn presence_request(channel: &str, user: &str) -> SubscriptionRequest {
    SubscriptionRequest {
        channel: s(channel),
        auth: None,
        channel_data: Some(format!("{{\"user_id\":\"{}\",\"user_info\":{{\"name\":\"{}\"}}}}", user, user)),
    }
}

#[test]
fn public_broadcast_reaches_each_subscriber_once() {
    let mut ns = Namespace::new(s("app-1"));
    for id in ["s1", "s2"] {
        ns.add_socket(&s(id)).unwrap();
        let joined = ChannelManager::subscribe(&mut ns, &s(id), &public_request("chat"), false).unwrap();
        assert!(joined.success);
    }
    let targets = resolve_targets(&ns, &s("chat"), None);
    let mut sorted = targets.clone();
    sorted.sort();
    assert_eq!(sorted, vec![s("s1"), s("s2")]);

    // The payload travels unchanged through a cluster broadcast frame.
    let node = HorizontalAdapterBase::new(s("n1"), 1000);
    let msg = node.make_broadcast(&s("app-1"), &s("chat"), &s("{\"event\":\"msg\",\"channel\":\"chat\",\"data\":\"{\\\"t\\\":1}\"}"), None, 7);
    let back = decode_broadcast(&encode_broadcast(&msg)).unwrap();
    assert_eq!(back.message, "{\"event\":\"msg\",\"channel\":\"chat\",\"data\":\"{\\\"t\\\":1}\"}");
}

#[test]
fn private_subscription_checks_the_token() {
    let app = app();
    let good = ChannelManager::get_expected_signature(&app, "1.1", &SubscriptionRequest {
        channel: s("private-x"),
        auth: None,
        channel_data: None,
    });
    let req = SubscriptionRequest { channel: s("private-x"), auth: Some(good.clone()), channel_data: None };
    assert_eq!(ConnectionHandler::verify_channel_authentication(&app, "1.1", &req).unwrap(), true);

    let mut ns = Namespace::new(s("app-1"));
    ns.add_socket(&s("1.1")).unwrap();
    let joined = ConnectionHandler::handle_subscribe(&mut ns, &app, &s("1.1"), &req).unwrap();
    assert!(joined.success);
    assert!(ns.is_in_channel(&s("private-x"), &s("1.1")));

    // A wrong HMAC is refused; the socket stays registered and may retry.
    let bad = SubscriptionRequest {
        channel: s("private-x"),
        auth: Some(s("app-key:0000000000000000000000000000000000000000000000000000000000000000")),
        channel_data: None,
    };
    assert_eq!(ConnectionHandler::verify_channel_authentication(&app, "2.2", &bad).unwrap(), false);
    ns.add_socket(&s("2.2")).unwrap();
    let refused = ConnectionHandler::handle_subscribe(&mut ns, &app, &s("2.2"), &bad);
    assert!(matches!(refused, Err(sockudo::error::Error::Auth(_))));
    assert!(!ns.is_in_channel(&s("private-x"), &s("2.2")));
    assert!(ns.add_socket(&s("2.2")).is_err());
}

#[test]
fn presence_double_join_announces_user_once() {
    let mut ns = Namespace::new(s("app-1"));
    ns.add_socket(&s("s1")).unwrap();
    ns.add_socket(&s("s2")).unwrap();
    ns.add_socket(&s("watcher")).unwrap();
    ChannelManager::subscribe(&mut ns, &s("watcher"), &presence_request("presence-room", "w"), true).unwrap();

    let first = ChannelManager::subscribe(&mut ns, &s("s1"), &presence_request("presence-room", "U"), true).unwrap();
    assert!(first.member_added);
    // Everyone but the joiner sees member_added.
    let audience = resolve_targets(&ns, &s("presence-room"), Some(&s("s1")));
    assert_eq!(audience, vec![s("watcher")]);

    let second = ChannelManager::subscribe(&mut ns, &s("s2"), &presence_request("presence-room", "U"), true).unwrap();
    assert!(!second.member_added);
    assert_eq!(second.channel_connections, Some(3));

    let gone_first = ns.remove_connection(&s("s1"));
    assert!(gone_first.is_empty());
    let gone_second = ns.remove_connection(&s("s2"));
    assert_eq!(gone_second.len(), 1);
    assert_eq!(gone_second[0].0, "presence-room");
    assert_eq!(gone_second[0].1.user_id, "U");
    assert_eq!(resolve_targets(&ns, &s("presence-room"), None), vec![s("watcher")]);
}

#[test]
fn idle_socket_is_pinged_then_closed() {
    let mut l = Liveness::setup_initial_timeouts(0, 5, None);
    assert_eq!(l.set_activity_timeout(4), TimeoutAction::Nothing);
    assert_eq!(l.set_activity_timeout(5), TimeoutAction::SendPing);
    assert_eq!(l.status, ConnectionStatus::PingSent(5));
    assert_eq!(l.set_activity_timeout(7), TimeoutAction::Nothing);
    assert_eq!(l.set_activity_timeout(8), TimeoutAction::Close(CLOSE_PONG_TIMEOUT));
    assert_eq!(l.status, ConnectionStatus::Closing(4201));
    assert_eq!(l.set_activity_timeout(100), TimeoutAction::Nothing);
}

#[test]
fn cluster_fan_out_delivers_one_copy_per_subscriber() {
    let mut ns1 = Namespace::new(s("app-1"));
    let mut ns2 = Namespace::new(s("app-1"));
    ns1.add_socket(&s("a")).unwrap();
    ns2.add_socket(&s("b")).unwrap();
    ChannelManager::subscribe(&mut ns1, &s("a"), &public_request("chat"), false).unwrap();
    ChannelManager::subscribe(&mut ns2, &s("b"), &public_request("chat"), false).unwrap();
    let n1 = HorizontalAdapterBase::new(s("n1"), 1000);
    let n2 = HorizontalAdapterBase::new(s("n2"), 1000);

    // N1 delivers locally first, then publishes the broadcast.
    let local = resolve_targets(&ns1, &s("chat"), None);
    assert_eq!(local, vec![s("a")]);
    let frame = encode_broadcast(&n1.make_broadcast(&s("app-1"), &s("chat"), &s("payload"), None, 1));

    // Every node (the publisher too) hears the bus; only peers replay.
    let heard_by_n1 = decode_broadcast(&frame).unwrap();
    assert!(!n1.should_replay_broadcast(&heard_by_n1));
    let heard_by_n2 = decode_broadcast(&frame).unwrap();
    assert!(n2.should_replay_broadcast(&heard_by_n2));
    let remote = resolve_targets(&ns2, &heard_by_n2.channel, heard_by_n2.except_socket_id.as_ref());
    assert_eq!(remote, vec![s("b")]);
}

#[test]
fn cluster_query_with_timeout_uses_partial_answers() {
    let mut n1 = HorizontalAdapterBase::new(s("n1"), 500);
    let n2 = HorizontalAdapterBase::new(s("n2"), 500);
    let mut ns1 = Namespace::new(s("app-1"));
    let mut ns2 = Namespace::new(s("app-1"));
    for id in ["a1", "a2"] {
        ns1.add_socket(&s(id)).unwrap();
        ChannelManager::subscribe(&mut ns1, &s(id), &public_request("chat"), false).unwrap();
    }
    for id in ["b1", "b2", "b3", "b4"] {
        ns2.add_socket(&s(id)).unwrap();
        ChannelManager::subscribe(&mut ns2, &s(id), &public_request("chat"), false).unwrap();
    }
    let local = ns1.get_channel_socket_count(&s("chat"));

    let (req, expected) = n1
        .send_request(&s("app-1"), RequestType::ChannelSocketsCount, Some(&s("chat")), None, None, 3, 0)
        .unwrap();
    assert_eq!(expected, 2);

    // N2 answers over the wire; N3 never does.
    let answer = n2.on_request(&ns2, &req).unwrap();
    let answer = decode_response(&encode_response(&answer)).unwrap();
    assert_eq!(answer.sockets_count, 4);
    assert!(n1.on_response(answer));
    assert!(!n1.request_done(&req.request_id, expected, false));
    assert!(n1.request_done(&req.request_id, expected, true));

    let combined = n1.finish_request(&ns1, &req);
    assert_eq!(local, 2);
    assert_eq!(combined.sockets_count, 6);
    // The slot is freed: a late answer is dropped.
    let late = process_request(&ns2, &s("n3"), &req);
    assert!(!n1.on_response(late));
}
