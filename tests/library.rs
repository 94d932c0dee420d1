use sockudo::cleanup::{parse_usize, WorkerThreadsConfig};
use sockudo::app::{App, AppManagerDriver, AppManagerFactory, MemoryAppManager};
use sockudo::channel::{server_to_user_target, ChannelType};
use sockudo::codec::{decode_broadcast, decode_request, decode_response, encode_broadcast, encode_request, encode_response};
use sockudo::handler::{ConnectionHandler, Liveness, SignInRequest, TimeoutAction, CLOSE_AUTH_TIMEOUT};
use sockudo::horizontal::{
    aggregate_responses, any_response_exists, combine_with_local, expected_responses, merge_members, sum_counts, union_socket_ids, wait_is_over,
    BroadcastMessage, ChannelCount, MemberInfo, PendingRequests, RequestBody, RequestType, ResponseBody,
};
use sockudo::local_adapter::{chunk_plan, chunk_ranges, resolve_targets, LocalAdapter, PermitPool};
use sockudo::manager::{ChannelManager, SubscriptionRequest};
use sockudo::namespace::{Namespace, PresenceMember};
use sockudo::token::{secure_compare, sign};

fn s(x: &str) -> String {
    x.to_string()
}

fn response(id: &str, node: &str, count: usize, exists: bool, sockets: &[&str], members: &[(&str, &str)]) -> ResponseBody {
    ResponseBody {
        request_id: s(id),
        node_id: s(node),
        app_id: s("app"),
        members: members.iter().map(|(u, i)| MemberInfo { user_id: s(u), user_info: s(i) }).collect(),
        socket_ids: sockets.iter().map(|x| s(x)).collect(),
        sockets_count: count,
        channels_with_sockets_count: vec![ChannelCount { channel: s("chat"), count }],
        exists,
        channels: vec![s("chat")],
        members_count: members.len(),
    }
}

#[test]
fn channel_types_follow_prefixes() {
    assert_eq!(ChannelType::from_name("presence-room"), ChannelType::Presence);
    assert_eq!(ChannelType::from_name("private-encrypted-x"), ChannelType::PrivateEncrypted);
    assert_eq!(ChannelType::from_name("private-x"), ChannelType::Private);
    assert_eq!(ChannelType::from_name("#server-to-user-42"), ChannelType::ServerToUser);
    assert_eq!(ChannelType::from_name("chat"), ChannelType::Public);
    assert_eq!(ChannelType::from_name(""), ChannelType::Public);
    assert!(ChannelType::Private.requires_authentication());
    assert!(ChannelType::PrivateEncrypted.requires_authentication());
    assert!(ChannelType::Presence.requires_authentication());
    assert!(!ChannelType::Public.requires_authentication());
    assert_eq!(server_to_user_target("#server-to-user-42"), Some(s("42")));
    assert_eq!(server_to_user_target("chat"), None);
    assert_eq!(ChannelManager::get_channel_type("private-encrypted-z"), ChannelType::PrivateEncrypted);
}

#[test]
fn hmac_tokens_match_known_values() {
    // HMAC-SHA256 test vector (RFC 4231, test case 2).
    assert_eq!(
        sign("Jefe", "what do ya want for nothing?"),
        "5bdcc146bf60754e6a042426089575c75a003f089d2739839dec58b964ec3843"
    );
    let app = App::new(s("1"), s("278d425bdf160c739803"), s("7ad3773142a6692b25b8"));
    let req = SubscriptionRequest { channel: s("private-foobar"), auth: None, channel_data: None };
    assert_eq!(ChannelManager::get_data_to_sign_for_signature("1234.1234", &req), "1234.1234:private-foobar");
    let expected = format!("278d425bdf160c739803:{}", sign("7ad3773142a6692b25b8", "1234.1234:private-foobar"));
    assert_eq!(ChannelManager::get_expected_signature(&app, "1234.1234", &req), expected);
    assert!(ChannelManager::signature_is_valid(&app, "1234.1234", &expected, &req));
    assert!(!ChannelManager::signature_is_valid(&app, "1234.1235", &expected, &req));
}

#[test]
fn presence_data_is_signed_only_when_present() {
    let with = SubscriptionRequest { channel: s("presence-r"), auth: None, channel_data: Some(s("{\"user_id\":\"1\"}")) };
    assert_eq!(ChannelManager::get_data_to_sign_for_signature("9.9", &with), "9.9:presence-r:{\"user_id\":\"1\"}");
    let empty = SubscriptionRequest { channel: s("presence-r"), auth: None, channel_data: Some(s("")) };
    assert_eq!(ChannelManager::get_data_to_sign_for_signature("9.9", &empty), "9.9:presence-r");
    let private = SubscriptionRequest { channel: s("private-r"), auth: None, channel_data: Some(s("x")) };
    assert_eq!(ChannelManager::get_data_to_sign_for_signature("9.9", &private), "9.9:private-r");
}

#[test]
fn secure_compare_is_equality() {
    assert!(secure_compare("abc", "abc"));
    assert!(!secure_compare("abc", "abd"));
    assert!(!secure_compare("abc", "abcd"));
    assert!(secure_compare("", ""));
}

#[test]
fn signin_requires_matching_token() {
    let app = App::new(s("1"), s("key"), s("secret"));
    let user_data = "{\"id\":\"123\",\"name\":\"John\"}";
    let good = format!("key:{}", sign("secret", &format!("1.2::{}", user_data)));
    let ok = SignInRequest { user_data: s(user_data), auth: good };
    assert!(ConnectionHandler::verify_signin_authentication("1.2", &app, &ok).is_ok());
    let bad = SignInRequest { user_data: s(user_data), auth: s("key:signature") };
    assert!(matches!(
        ConnectionHandler::verify_signin_authentication("1.2", &app, &bad),
        Err(sockudo::error::Error::Auth(_))
    ));
}

#[test]
fn channel_auth_requires_a_token_on_private_channels() {
    let app = App::new(s("1"), s("key"), s("secret"));
    let public = SubscriptionRequest { channel: s("news"), auth: None, channel_data: None };
    assert_eq!(ConnectionHandler::verify_channel_authentication(&app, "1.1", &public).unwrap(), true);
    let missing = SubscriptionRequest { channel: s("private-a"), auth: None, channel_data: None };
    assert!(matches!(
        ConnectionHandler::verify_channel_authentication(&app, "1.1", &missing),
        Err(sockudo::error::Error::Auth(_))
    ));
}

#[test]
fn presence_subscription_needs_valid_channel_data() {
    let mut ns = Namespace::new(s("a"));
    let no_data = SubscriptionRequest { channel: s("presence-r"), auth: None, channel_data: None };
    assert!(matches!(ChannelManager::subscribe(&mut ns, &s("x"), &no_data, true), Err(sockudo::error::Error::Channel(_))));
    let bad_json = SubscriptionRequest { channel: s("presence-r"), auth: None, channel_data: Some(s("{not json")) };
    assert!(matches!(ChannelManager::subscribe(&mut ns, &s("x"), &bad_json, true), Err(sockudo::error::Error::Channel(_))));
    let no_user = SubscriptionRequest { channel: s("presence-r"), auth: None, channel_data: Some(s("{\"user_info\":{}}")) };
    assert!(matches!(ChannelManager::subscribe(&mut ns, &s("x"), &no_user, true), Err(sockudo::error::Error::Channel(_))));
    assert!(!ns.is_in_channel(&s("presence-r"), &s("x")));

    let good = SubscriptionRequest { channel: s("presence-r"), auth: None, channel_data: Some(s("{\"user_id\":\"u1\"}")) };
    let joined = ChannelManager::subscribe(&mut ns, &s("x"), &good, true).unwrap();
    let member = joined.member.unwrap();
    assert_eq!(member.user_id, "u1");
    assert_eq!(member.user_info, "{}");
    assert!(joined.member_added);
    let again = ChannelManager::subscribe(&mut ns, &s("x"), &good, true).unwrap();
    assert!(again.member.is_none());
    assert!(!again.member_added);
    assert_eq!(again.channel_connections, Some(1));
}

#[test]
fn index_views_agree_after_mixed_operations() {
    let mut ns = Namespace::new(s("a"));
    for id in ["x", "y", "z"] {
        ns.add_socket(&s(id)).unwrap();
    }
    assert!(ns.add_to_channel(&s("c1"), &s("x")));
    assert!(!ns.add_to_channel(&s("c1"), &s("x")));
    assert!(ns.add_to_channel(&s("c2"), &s("x")));
    assert!(ns.add_to_channel(&s("c1"), &s("y")));
    assert!(ns.add_to_channel(&s("c2"), &s("z")));
    let leave = ChannelManager::unsubscribe(&mut ns, &s("x"), &s("c1")).unwrap();
    assert!(leave.left);
    assert_eq!(leave.remaining_connections, Some(1));
    let again = ChannelManager::unsubscribe(&mut ns, &s("x"), &s("c1")).unwrap();
    assert!(!again.left);
    ns.remove_connection(&s("z"));
    for id in ["x", "y", "z"] {
        let chans = ns.get_socket_channels(&s(id));
        for c in ["c1", "c2"] {
            let in_channel = ns.get_channel_sockets(&s(c)).contains(&s(id));
            assert_eq!(in_channel, chans.contains(&s(c)));
        }
    }
    assert_eq!(ns.get_channel_sockets(&s("c2")), vec![s("x")]);
    assert_eq!(ns.get_sockets_count(), 2);
    let counts = ns.get_channels_with_socket_count();
    assert_eq!(counts.len(), 2);
    assert!(counts.contains(&(s("c1"), 1)) && counts.contains(&(s("c2"), 1)));
}

#[test]
fn batch_unsubscribe_reports_each_operation() {
    let mut ns = Namespace::new(s("a"));
    ns.add_to_channel(&s("c1"), &s("x"));
    ns.add_to_channel(&s("c1"), &s("y"));
    ns.add_to_channel(&s("c2"), &s("x"));
    let ops = vec![(s("x"), s("c1")), (s("x"), s("c2")), (s("x"), s("c3"))];
    let results = ChannelManager::batch_unsubscribe(&mut ns, &ops);
    assert_eq!(results, vec![(s("c1"), (true, 1)), (s("c2"), (true, 0)), (s("c3"), (false, 0))]);
    assert!(ns.get_socket_channels(&s("x")).is_empty());
}

#[test]
fn presence_events_track_distinct_users() {
    let mut ns = Namespace::new(s("a"));
    let c = s("presence-p");
    let (new1, added1) = ns.join_presence(&c, &s("s1"), PresenceMember::new(s("u"), s("{}")));
    assert!(new1 && added1 == Some(s("u")));
    let (new2, added2) = ns.join_presence(&c, &s("s2"), PresenceMember::new(s("u"), s("{}")));
    assert!(new2 && added2.is_none());
    let (new3, added3) = ns.join_presence(&c, &s("s3"), PresenceMember::new(s("v"), s("{}")));
    assert!(new3 && added3 == Some(s("v")));
    assert_eq!(ns.get_channel_members(&c).len(), 2);
    assert_eq!(ns.count_user_connections_in_channel(&s("u"), &c, None), 2);
    assert_eq!(ns.count_user_connections_in_channel(&s("u"), &c, Some(&s("s1"))), 1);
    let (gone1, member1, last1) = ns.remove_from_channel(&c, &s("s1"));
    assert!(gone1 && !last1);
    assert_eq!(member1.map(|m| m.user_id), Some(s("u")));
    let (gone2, member2, last2) = ns.remove_from_channel(&c, &s("s2"));
    assert!(gone2 && last2);
    assert_eq!(member2.map(|m| m.user_id), Some(s("u")));
    let (gone3, member3, last3) = ns.remove_from_channel(&c, &s("s2"));
    assert!(!gone3 && member3.is_none() && !last3);
    assert_eq!(ns.get_channel_members(&c).len(), 1);
}

#[test]
fn user_index_and_server_to_user_channels() {
    let mut ns = Namespace::new(s("a"));
    assert!(!ns.add_user(&s("42"), &s("s1")));
    for id in ["s1", "s2", "s3"] {
        ns.add_socket(&s(id)).unwrap();
    }
    assert!(ns.add_user(&s("42"), &s("s1")));
    assert!(!ns.add_user(&s("42"), &s("s1")));
    assert!(ns.add_user(&s("42"), &s("s2")));
    assert!(ns.add_user(&s("7"), &s("s3")));
    let mut targets = resolve_targets(&ns, &s("#server-to-user-42"), Some(&s("s2")));
    targets.sort();
    assert_eq!(targets, vec![s("s1")]);
    assert!(ns.remove_user(&s("42"), &s("s1")));
    assert!(!ns.remove_user(&s("42"), &s("s1")));
    assert_eq!(ns.get_user_sockets(&s("42")), vec![s("s2")]);
    ns.remove_connection(&s("s2"));
    assert!(ns.get_user_sockets(&s("42")).is_empty());
}

#[test]
fn chunk_plan_follows_formula() {
    assert_eq!(chunk_plan(0, 128), (1, 1));
    assert_eq!(chunk_plan(10, 128), (1, 10));
    assert_eq!(chunk_plan(300, 128), (3, 100));
    assert_eq!(chunk_plan(10_000, 128), (8, 128));
    assert_eq!(chunk_plan(7, 1), (7, 1));
    assert_eq!(chunk_ranges(0, 4), vec![]);
    assert_eq!(chunk_ranges(10, 4), vec![(0, 4), (4, 8), (8, 10)]);
}

#[test]
fn permits_bound_sends_in_flight() {
    let mut pool = PermitPool::new(4);
    assert!(pool.try_acquire_many(3));
    assert!(!pool.try_acquire_many(2));
    assert_eq!(pool.available(), 1);
    pool.release(3);
    assert_eq!(pool.available(), 4);

    let mut adapter = LocalAdapter::new_with_buffer_multiplier(2);
    assert!(adapter.max_concurrent() >= 2);
    assert_eq!(adapter.buffer_multiplier_per_cpu(), 2);
    let cap = adapter.max_concurrent();
    assert!(adapter.acquire_chunk(cap));
    assert!(!adapter.acquire_chunk(1));
    adapter.release_chunk(cap);
    assert!(adapter.acquire_chunk(1));
    assert!(LocalAdapter::new().max_concurrent() >= 128);
}

#[test]
fn liveness_handles_activity_and_signin_deadline() {
    let mut l = Liveness::setup_initial_timeouts(100, 10, Some(30));
    assert_eq!(l.auth_deadline, Some(130));
    assert_eq!(l.set_activity_timeout(110), TimeoutAction::SendPing);
    l.handle_ping_frame(111);
    assert_eq!(l.last_activity, 111);
    assert_eq!(l.set_activity_timeout(115), TimeoutAction::Nothing);
    assert_eq!(l.set_activity_timeout(130), TimeoutAction::Close(CLOSE_AUTH_TIMEOUT));

    let mut m = Liveness::setup_initial_timeouts(0, 10, None);
    m.set_user_authentication_timeout(0, 30);
    assert_eq!(m.auth_deadline, Some(30));
    m.clear_user_authentication_timeout();
    m.update_activity_timeout(25);
    assert_eq!(m.set_activity_timeout(30), TimeoutAction::Nothing);
    assert_eq!(m.set_activity_timeout(35), TimeoutAction::SendPing);
    m.update_activity_timeout(36);
    assert_eq!(m.set_activity_timeout(40), TimeoutAction::Nothing);
}

#[test]
fn aggregation_combines_by_request_type() {
    let rs = vec![
        response("r", "n2", 4, false, &["a", "b"], &[("u1", "{\"n\":2}")]),
        response("r", "n3", 3, true, &["b", "c"], &[("u1", "{\"n\":3}"), ("u2", "{}")]),
    ];
    assert_eq!(sum_counts(2, &rs), 9);
    assert_eq!(sum_counts(usize::MAX, &rs), usize::MAX);
    assert!(any_response_exists(false, &rs));
    assert!(any_response_exists(true, &vec![]));
    assert!(!any_response_exists(false, &vec![]));
    let mut ids = union_socket_ids(&vec![s("z"), s("a")], &rs);
    ids.sort();
    assert_eq!(ids, vec![s("a"), s("b"), s("c"), s("z")]);
    let local = vec![MemberInfo { user_id: s("u1"), user_info: s("{\"n\":1}") }];
    let merged = merge_members(&local, &rs);
    assert_eq!(merged.len(), 2);
    assert!(merged.iter().any(|m| m.user_id == "u1" && m.user_info == "{\"n\":1}"));

    let count = aggregate_responses(&s("r"), &s("n1"), &s("app"), RequestType::ChannelSocketsCount, &rs);
    assert_eq!(count.sockets_count, 7);
    let per_channel = aggregate_responses(&s("r"), &s("n1"), &s("app"), RequestType::ChannelsWithSocketsCount, &rs);
    assert_eq!(per_channel.channels_with_sockets_count.len(), 1);
    assert_eq!(per_channel.channels_with_sockets_count[0].count, 7);
    let members = aggregate_responses(&s("r"), &s("n1"), &s("app"), RequestType::ChannelMembers, &rs);
    assert_eq!(members.members_count, 2);
    let exists = aggregate_responses(&s("r"), &s("n1"), &s("app"), RequestType::SocketExistsInChannel, &rs);
    assert!(exists.exists);
    let terminate = aggregate_responses(&s("r"), &s("n1"), &s("app"), RequestType::TerminateUserConnections, &rs);
    assert!(terminate.socket_ids.is_empty());

    // The order of the answers does not matter.
    let reversed = vec![
        response("r", "n3", 3, true, &["b", "c"], &[("u1", "{\"n\":3}"), ("u2", "{}")]),
        response("r", "n2", 4, false, &["a", "b"], &[("u1", "{\"n\":2}")]),
    ];
    assert_eq!(sum_counts(2, &reversed), sum_counts(2, &rs));
    let mut ids2 = union_socket_ids(&vec![s("z"), s("a")], &reversed);
    ids2.sort();
    assert_eq!(ids, ids2);
}

#[test]
fn quorum_and_pending_slots() {
    assert_eq!(expected_responses(1), 0);
    assert_eq!(expected_responses(3), 2);
    assert_eq!(expected_responses(0), 0);
    assert!(wait_is_over(2, 2, false));
    assert!(!wait_is_over(1, 2, false));
    assert!(wait_is_over(0, 2, true));

    let mut p = PendingRequests::new();
    assert!(p.insert(&s("r1"), &s("app"), 0));
    assert!(!p.insert(&s("r1"), &s("app"), 0));
    assert!(p.add_response(response("r1", "n2", 1, false, &[], &[])));
    assert!(!p.add_response(response("zz", "n2", 1, false, &[], &[])));
    assert_eq!(p.response_count(&s("r1")), Some(1));
    let got = p.remove(&s("r1")).unwrap();
    assert_eq!(got.len(), 1);
    assert_eq!(p.response_count(&s("r1")), None);
    assert!(p.remove(&s("r1")).is_none());
}

#[test]
fn messages_survive_encoding() {
    let b = BroadcastMessage {
        node_id: s("n1"),
        app_id: s("app"),
        channel: s("chat"),
        message: s("{\"event\":\"é\"}"),
        except_socket_id: Some(s("1.2")),
        timestamp_ms: Some(1_700_000_000_000),
    };
    let bytes = encode_broadcast(&b);
    let d = decode_broadcast(&bytes).unwrap();
    assert_eq!((d.node_id.clone(), d.app_id.clone(), d.channel.clone(), d.message.clone()), (b.node_id.clone(), b.app_id.clone(), b.channel.clone(), b.message.clone()));
    assert_eq!(d.except_socket_id, b.except_socket_id);
    assert_eq!(d.timestamp_ms, b.timestamp_ms);
    // Truncated or padded frames are refused.
    assert!(decode_broadcast(&bytes[..bytes.len() - 1]).is_none());
    let mut longer = bytes.clone();
    longer.push(0);
    assert!(decode_broadcast(&longer).is_none());

    let r = RequestBody {
        request_id: s("r"),
        node_id: s("n1"),
        app_id: s("app"),
        request_type: RequestType::CountUserConnectionsInChannel,
        channel: Some(s("presence-x")),
        socket_id: None,
        user_id: Some(s("u")),
    };
    let d = decode_request(&encode_request(&r)).unwrap();
    assert_eq!(d.request_id, "r");
    assert_eq!(d.request_type, RequestType::CountUserConnectionsInChannel);
    assert_eq!(d.channel, Some(s("presence-x")));
    assert_eq!(d.socket_id, None);
    assert_eq!(d.user_id, Some(s("u")));

    let resp = response("r", "n2", 5, true, &["a", "b"], &[("u1", "{}")]);
    let d = decode_response(&encode_response(&resp)).unwrap();
    assert_eq!(d.request_id, "r");
    assert_eq!(d.sockets_count, 5);
    assert!(d.exists);
    assert_eq!(d.socket_ids, vec![s("a"), s("b")]);
    assert_eq!(d.members.len(), 1);
    assert_eq!(d.members[0].user_id, "u1");
    assert_eq!(d.channels_with_sockets_count[0].channel, "chat");
    assert_eq!(d.channels_with_sockets_count[0].count, 5);
    assert_eq!(d.channels, vec![s("chat")]);
    assert_eq!(d.members_count, 1);
    assert!(decode_response(&[1, 2, 3]).is_none());
}

#[test]
fn encoding_layout_is_length_prefixed_little_endian() {
    let b = BroadcastMessage {
        node_id: s("n"),
        app_id: s(""),
        channel: s(""),
        message: s(""),
        except_socket_id: None,
        timestamp_ms: None,
    };
    let bytes = encode_broadcast(&b);
    let mut expected = vec![1, 0, 0, 0, 0, 0, 0, 0, b'n'];
    expected.extend_from_slice(&[0; 24]);
    expected.extend_from_slice(&[0, 0]);
    assert_eq!(bytes, expected);
}

#[test]
fn local_adapter_keeps_one_namespace_per_app() {
    let mut adapter = LocalAdapter::new_with_buffer_multiplier(1);
    adapter.add_socket(&s("app-a"), &s("s1")).unwrap();
    adapter.add_socket(&s("app-b"), &s("s1")).unwrap();
    assert!(adapter.add_socket(&s("app-a"), &s("s1")).is_err());
    let req = SubscriptionRequest { channel: s("chat"), auth: None, channel_data: None };
    adapter.subscribe(&s("app-a"), &s("s1"), &req, false).unwrap();
    assert_eq!(adapter.send_targets(&s("app-a"), &s("chat"), None), vec![s("s1")]);
    assert!(adapter.send_targets(&s("app-b"), &s("chat"), None).is_empty());
    assert!(adapter.send_targets(&s("app-c"), &s("chat"), None).is_empty());
    assert_eq!(adapter.get_sockets_count(&s("app-a")), 1);
    assert_eq!(adapter.get_sockets_count(&s("app-c")), 0);
    let left = adapter.unsubscribe(&s("app-a"), &s("s1"), &s("chat")).unwrap();
    assert!(left.left);
    assert!(matches!(adapter.unsubscribe(&s("app-c"), &s("s1"), &s("chat")), Err(sockudo::error::Error::Connection(_))));
    adapter.remove_connection(&s("app-b"), &s("s1")).unwrap();
    assert_eq!(adapter.get_sockets_count(&s("app-b")), 0);
    assert!(adapter.remove_connection(&s("app-c"), &s("s1")).is_err());
    let i = adapter.get_or_create_namespace(&s("app-a"));
    assert_eq!(adapter.namespace(i).app_id(), "app-a");
}

#[test]
fn app_store_and_factory() {
    assert_eq!(AppManagerFactory::create(AppManagerDriver::Mysql, true), AppManagerDriver::Mysql);
    assert_eq!(AppManagerFactory::create(AppManagerDriver::Mysql, false), AppManagerDriver::Memory);
    assert_eq!(AppManagerFactory::create(AppManagerDriver::Dynamodb, false), AppManagerDriver::Memory);
    assert_eq!(AppManagerFactory::create(AppManagerDriver::Memory, false), AppManagerDriver::Memory);

    let mut store = MemoryAppManager::new();
    assert!(store.create_app(App::new(s("1"), s("k1"), s("s1"))));
    assert!(store.create_app(App::new(s("2"), s("k2"), s("s2"))));
    assert!(!store.create_app(App::new(s("1"), s("k3"), s("s3"))));
    assert_eq!(store.app_count(), 2);
    assert_eq!(store.find_by_id("2").unwrap().key, "k2");
    assert_eq!(store.find_by_key("k1").unwrap().id, "1");
    assert!(store.find_by_id("3").is_none());
    assert!(store.find_by_key("k3").is_none());
}

#[test]
fn signin_indexes_the_user_and_lifts_the_deadline() {
    let app = App::new(s("1"), s("key"), s("secret"));
    let mut ns = Namespace::new(s("1"));
    ns.add_socket(&s("1.2")).unwrap();
    let mut l = Liveness::setup_initial_timeouts(0, 120, Some(30));
    let user_data = "{\"id\":\"123\",\"name\":\"John\"}";
    let bad = SignInRequest { user_data: s(user_data), auth: s("key:signature") };
    assert!(ConnectionHandler::handle_signin(&mut ns, &mut l, &s("1.2"), &app, &bad).is_err());
    assert_eq!(l.auth_deadline, Some(30));
    assert!(ns.get_user_sockets(&s("123")).is_empty());

    let good = SignInRequest {
        user_data: s(user_data),
        auth: format!("key:{}", sign("secret", &format!("1.2::{}", user_data))),
    };
    assert_eq!(ConnectionHandler::handle_signin(&mut ns, &mut l, &s("1.2"), &app, &good).unwrap(), "123");
    assert_eq!(l.auth_deadline, None);
    assert_eq!(ns.get_user_sockets(&s("123")), vec![s("1.2")]);

    let no_id_data = "{\"name\":\"John\"}";
    let no_id = SignInRequest {
        user_data: s(no_id_data),
        auth: format!("key:{}", sign("secret", &format!("1.2::{}", no_id_data))),
    };
    assert!(ConnectionHandler::handle_signin(&mut ns, &mut l, &s("1.2"), &app, &no_id).is_err());
}

#[test]
fn presence_subscription_payload_lists_members() {
    let members = vec![
        PresenceMember::new(s("user1"), s("{\"name\":\"Alice\"}")),
        PresenceMember::new(s("user2"), s("{\"name\":\"Bob\"}")),
    ];
    assert_eq!(
        ChannelManager::presence_subscription_data(&members),
        "{\"presence\":{\"ids\":[\"user1\",\"user2\"],\"hash\":{\"user1\":{\"name\":\"Alice\"},\"user2\":{\"name\":\"Bob\"}},\"count\":2}}"
    );
    assert_eq!(
        ChannelManager::presence_subscription_data(&vec![]),
        "{\"presence\":{\"ids\":[],\"hash\":{},\"count\":0}}"
    );
    let quoted = vec![PresenceMember::new(s("a\"b"), s("{}"))];
    assert_eq!(
        ChannelManager::presence_subscription_data(&quoted),
        "{\"presence\":{\"ids\":[\"a\\\"b\"],\"hash\":{\"a\\\"b\":{}},\"count\":1}}"
    );
}

#[test]
fn bus_topics_and_node_count() {
    assert_eq!(sockudo::horizontal::topic_name("sockudo", sockudo::horizontal::Topic::Broadcast), "sockudo:#broadcast");
    assert_eq!(sockudo::horizontal::topic_name("p", sockudo::horizontal::Topic::Requests), "p:#requests");
    assert_eq!(sockudo::horizontal::topic_name("p", sockudo::horizontal::Topic::Responses), "p:#responses");
    assert_eq!(sockudo::horizontal::node_count_from_subscribers(None), 1);
    assert_eq!(sockudo::horizontal::node_count_from_subscribers(Some(0)), 1);
    assert_eq!(sockudo::horizontal::node_count_from_subscribers(Some(-3)), 1);
    assert_eq!(sockudo::horizontal::node_count_from_subscribers(Some(3)), 3);
}

#[test]
fn local_answer_is_combined_with_peer_answers() {
    let local = response("r", "n1", 2, false, &["a"], &[("u1", "{\"n\":1}")]);
    let rs = vec![
        response("r", "n2", 4, true, &["b"], &[("u1", "{\"n\":2}"), ("u2", "{}")]),
    ];
    assert_eq!(combine_with_local(&local, RequestType::ChannelSocketsCount, &rs).sockets_count, 6);
    assert!(combine_with_local(&local, RequestType::SocketExistsInChannel, &rs).exists);
    let mut ids = combine_with_local(&local, RequestType::ChannelSockets, &rs).socket_ids;
    ids.sort();
    assert_eq!(ids, vec![s("a"), s("b")]);
    let members = combine_with_local(&local, RequestType::ChannelMembers, &rs).members;
    assert_eq!(members.len(), 2);
    assert!(members.iter().any(|m| m.user_id == "u1" && m.user_info == "{\"n\":1}"));
    let per_channel = combine_with_local(&local, RequestType::ChannelsWithSocketsCount, &rs).channels_with_sockets_count;
    assert_eq!(per_channel.len(), 1);
    assert_eq!(per_channel[0].count, 6);
    assert_eq!(combine_with_local(&local, RequestType::TerminateUserConnections, &rs).socket_ids, vec![s("a")]);
}

#[test]
fn stale_pending_requests_are_swept() {
    let mut p = PendingRequests::new();
    assert!(p.insert(&s("old"), &s("app"), 100));
    assert!(p.insert(&s("new"), &s("app"), 900));
    assert!(p.insert(&s("older"), &s("app"), 0));
    assert_eq!(p.remove_expired(1000, 500), 2);
    assert_eq!(p.response_count(&s("old")), None);
    assert_eq!(p.response_count(&s("older")), None);
    assert_eq!(p.response_count(&s("new")), Some(0));
    assert_eq!(p.remove_expired(1000, 500), 0);
}

#[test]
fn requests_open_under_unused_ids_only() {
    let mut node = sockudo::horizontal::HorizontalAdapterBase::new(s("n1"), 100);
    let (req, expected) = node
        .open_request(s("fixed"), &s("app"), RequestType::SocketsCount, None, None, None, 1, 0)
        .unwrap();
    assert_eq!(req.request_id, "fixed");
    assert_eq!(req.node_id, "n1");
    assert_eq!(expected, 0);
    let again = node.open_request(s("fixed"), &s("app"), RequestType::SocketsCount, None, None, None, 1, 0);
    assert!(matches!(again, Err(sockudo::error::Error::Transport(_))));
    // With one node there is nothing to wait for: the local answer stands.
    assert!(node.request_done(&s("fixed"), expected, false));
    let mut ns = Namespace::new(s("app"));
    ns.add_socket(&s("x")).unwrap();
    let answer = node.finish_request(&ns, &req);
    assert_eq!(answer.sockets_count, 1);
    assert_eq!(answer.request_id, "fixed");
    assert!(node.send_request(&s("app"), RequestType::SocketsCount, None, None, None, 3, 0).is_ok());
}

#[test]
fn local_socket_short_circuits_the_cluster_round() {
    let node = sockudo::horizontal::HorizontalAdapterBase::new(s("n1"), 100);
    let mut ns = Namespace::new(s("app"));
    ns.add_to_channel(&s("chat"), &s("x"));
    let hit = node.short_circuit(&ns, &s("app"), RequestType::SocketExistsInChannel, Some(&s("chat")), Some(&s("x")));
    assert!(hit.unwrap().exists);
    assert!(node.short_circuit(&ns, &s("app"), RequestType::SocketExistsInChannel, Some(&s("chat")), Some(&s("y"))).is_none());
    assert!(node.short_circuit(&ns, &s("app"), RequestType::ChannelSockets, Some(&s("chat")), Some(&s("x"))).is_none());
}

#[test]
fn cluster_members_keep_local_info_and_remote_only_users() {
    let mut n1 = sockudo::horizontal::HorizontalAdapterBase::new(s("n1"), 100);
    let mut ns = Namespace::new(s("app"));
    ns.join_presence(&s("presence-r"), &s("x"), PresenceMember::new(s("u1"), s("{\"here\":1}")));
    let (req, _) = n1
        .send_request(&s("app"), RequestType::ChannelMembers, Some(&s("presence-r")), None, None, 2, 0)
        .unwrap();
    let mut remote = response("", "n2", 0, false, &[], &[("u1", "{\"there\":1}"), ("u2", "{\"there\":2}")]);
    remote.request_id = req.request_id.clone();
    assert!(n1.on_response(remote));
    let r = n1.finish_request(&ns, &req);
    assert_eq!(r.members.len(), 2);
    assert!(r.members.iter().any(|m| m.user_id == "u1" && m.user_info == "{\"here\":1}"));
    assert!(r.members.iter().any(|m| m.user_id == "u2" && m.user_info == "{\"there\":2}"));
}

#[test]
fn presence_data_may_nest_its_member() {
    let nested = Some(s("{\"channel_data\":\"{\\\"user_id\\\":\\\"u9\\\",\\\"user_info\\\":{\\\"a\\\":1}}\"}"));
    let m = ChannelManager::parse_presence_data(nested.as_ref()).unwrap();
    assert_eq!(m.user_id, "u9");
    assert_eq!(m.user_info, "{\"a\":1}");
    let direct = Some(s("{\"user_id\":\"u1\",\"user_info\":{\"b\":2}}"));
    let m = ChannelManager::parse_presence_data(direct.as_ref()).unwrap();
    assert_eq!(m.user_id, "u1");
    assert_eq!(m.user_info, "{\"b\":2}");
    let bad_inner = Some(s("{\"channel_data\":\"not json\",\"user_id\":\"u1\"}"));
    assert!(ChannelManager::parse_presence_data(bad_inner.as_ref()).is_err());
    let numeric = Some(s("{\"user_id\":10}"));
    assert!(ChannelManager::parse_presence_data(numeric.as_ref()).is_err());
    let quoted = vec![PresenceMember::new(s("a\nb\u{1}"), s("{}"))];
    assert_eq!(
        ChannelManager::presence_subscription_data(&quoted),
        "{\"presence\":{\"ids\":[\"a\\nb\\u0001\"],\"hash\":{\"a\\nb\\u0001\":{}},\"count\":1}}"
    );
}

#[test]
fn adapter_signin_indexes_user_in_app_namespace() {
    let app = App::new(s("app-a"), s("key"), s("secret"));
    let mut adapter = LocalAdapter::new_with_buffer_multiplier(1);
    let mut l = Liveness::setup_initial_timeouts(0, 120, Some(30));
    let user_data = "{\"id\":\"7\"}";
    let request = SignInRequest {
        user_data: s(user_data),
        auth: format!("key:{}", sign("secret", &format!("1.1::{}", user_data))),
    };
    assert!(matches!(
        adapter.signin(&s("app-a"), &mut l, &s("1.1"), &app, &request),
        Err(sockudo::error::Error::Connection(_))
    ));
    adapter.add_socket(&s("app-a"), &s("1.1")).unwrap();
    assert_eq!(adapter.signin(&s("app-a"), &mut l, &s("1.1"), &app, &request).unwrap(), "7");
    assert_eq!(l.auth_deadline, None);
    assert_eq!(adapter.send_targets(&s("app-a"), &s("#server-to-user-7"), None), vec![s("1.1")]);
}

#[test]
fn leaving_reports_the_sockets_own_member() {
    let mut ns = Namespace::new(s("a"));
    let room = s("presence-room");
    ns.join_presence(&room, &s("S1"), PresenceMember::new(s("U"), s("{}")));
    ns.join_presence(&room, &s("S2"), PresenceMember::new(s("U"), s("{}")));
    let first = ChannelManager::unsubscribe(&mut ns, &s("S1"), &room).unwrap();
    assert!(first.left);
    assert_eq!(first.remaining_connections, Some(1));
    assert_eq!(first.member.map(|m| m.user_id), Some(s("U")));
    assert!(!first.member_removed);
    assert_eq!(ns.get_channel_members(&room).len(), 1);
    let second = ChannelManager::unsubscribe(&mut ns, &s("S2"), &room).unwrap();
    assert_eq!(second.remaining_connections, Some(0));
    assert_eq!(second.member.map(|m| m.user_id), Some(s("U")));
    assert!(second.member_removed);
    assert!(ns.get_channel_members(&room).is_empty());
}

#[test]
fn presence_announcements_count_the_whole_cluster() {
    assert!(ChannelManager::member_added_in_cluster(true, 1));
    assert!(!ChannelManager::member_added_in_cluster(true, 2));
    assert!(!ChannelManager::member_added_in_cluster(false, 1));
    assert!(ChannelManager::member_removed_in_cluster(true, 0));
    assert!(!ChannelManager::member_removed_in_cluster(true, 1));
    assert!(!ChannelManager::member_removed_in_cluster(false, 0));
    assert_eq!(WorkerThreadsConfig::from_lowered("AuTo", "auto"), Ok(WorkerThreadsConfig::Auto));
    assert_eq!(WorkerThreadsConfig::from_lowered("12", "12"), Ok(WorkerThreadsConfig::Fixed(12)));
    assert_eq!(
        WorkerThreadsConfig::from_lowered("x", "x"),
        Err(s("expected \"auto\" or positive integer, got \"x\""))
    );
}

#[test]
fn usize_parsing_matches_std() {
    for text in ["0", "7", "+12", "", "+", "-1", "1a", " 1", "18446744073709551615", "18446744073709551616", "00042"] {
        assert_eq!(parse_usize(text), text.parse::<usize>().ok(), "{}", text);
    }
    assert_eq!(sockudo::text::decimal(0), "0");
    assert_eq!(sockudo::text::decimal(u64::MAX), u64::MAX.to_string());
    assert_eq!(sign("", ""), "b613679a0814d9ec772f95d778c35fc5ff1697c493715653c6c712144292c5ad");
}
