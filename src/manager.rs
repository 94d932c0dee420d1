//! Channel manager: the strings that subscription tokens sign, and their checks.
use vstd::prelude::*;
use vstd::string::*;
use crate::app::App;
use crate::channel::{channel_type_of, presence_prefix, spec_requires_authentication, ChannelType};
use crate::error::Error;
use crate::namespace::{lemma_count_is_channel_size, lemma_empty_iff_unoccupied, Namespace, PresenceMember};
use crate::text::{decimal, decimal_spec, join3, starts_with};
use crate::token::{hex_digit, secure_compare, sign, sign_spec};

verus! {

/// The `data` of a `pusher:subscribe` frame.
#[derive(Debug, Clone)]
pub struct SubscriptionRequest {
    pub channel: String,
    pub auth: Option<String>,
    pub channel_data: Option<String>,
}

pub open spec fn opt_text(o: Option<String>) -> Seq<char> {
    match o {
        Some(s) => s@,
        None => Seq::empty(),
    }
}

/// `socket_id ":" channel [":" channel_data]`; the last segment only for a
/// presence channel with non-empty channel data.
pub open spec fn data_to_sign(socket_id: Seq<char>, channel: Seq<char>, channel_data: Seq<char>) -> Seq<char> {
    if presence_prefix().is_prefix_of(channel) && channel_data.len() > 0 {
        socket_id + seq![':'] + channel + seq![':'] + channel_data
    } else {
        socket_id + seq![':'] + channel
    }
}

/// `key ":" HMAC_SHA256_hex(secret, data)`.
pub open spec fn token_for(key: Seq<char>, secret: Seq<char>, data: Seq<char>) -> Seq<char> {
    key + seq![':'] + sign_spec(secret, data)
}

/// The token that a subscription request must carry.
pub open spec fn expected_subscription_token(app: App, socket_id: Seq<char>, req: SubscriptionRequest) -> Seq<char> {
    token_for(app.key@, app.secret@, data_to_sign(socket_id, req.channel@, opt_text(req.channel_data)))
}

/// `socket_id "::" user_data`.
pub open spec fn signin_data_to_sign(socket_id: Seq<char>, user_data: Seq<char>) -> Seq<char> {
    socket_id + seq![':', ':'] + user_data
}

/// What the JSON text `text` holds, if it is JSON: its string `user_id`
/// field, its `user_info` field as JSON text, and its string `channel_data`
/// field, each if present.
pub uninterp spec fn presence_fields_of(text: Seq<char>) -> Option<(Option<Seq<char>>, Option<Seq<char>>, Option<Seq<char>>)>;

pub open spec fn opt_seq(o: Option<String>) -> Option<Seq<char>> {
    match o {
        Some(s) => Some(s@),
        None => None,
    }
}

/// Relies on `serde_json::from_str::<serde_json::Value>`, `Value::get`,
/// `Value::as_str` and `Value::to_string`: the fields read depend on the text alone.
#[verifier::external_body]
fn parse_channel_data(text: &str) -> (r: Option<(Option<String>, Option<String>, Option<String>)>)
    ensures
        match r {
            Some(p) => presence_fields_of(text@) == Some((opt_seq(p.0), opt_seq(p.1), opt_seq(p.2))),
            None => presence_fields_of(text@).is_none(),
        },
{
    let v: serde_json::Value = serde_json::from_str(text).ok()?;
    Some((
        v.get("user_id").and_then(|x| x.as_str()).map(|x| x.to_string()),
        v.get("user_info").map(|x| x.to_string()),
        v.get("channel_data").and_then(|x| x.as_str()).map(|x| x.to_string()),
    ))
}

/// A member from a user id (required) and user info (`{}` when absent).
pub open spec fn member_from(user_id: Option<Seq<char>>, user_info: Option<Seq<char>>) -> Option<(Seq<char>, Seq<char>)> {
    match user_id {
        None => None,
        Some(u) => Some((u, match user_info { Some(i) => i, None => empty_object() })),
    }
}

/// The presence member that `channel_data` describes: its own `user_id` and
/// `user_info`, or, when it carries a `channel_data` string of its own, those
/// of that inner JSON text.
pub open spec fn presence_member_of(text: Seq<char>) -> Option<(Seq<char>, Seq<char>)> {
    match presence_fields_of(text) {
        None => None,
        Some((user_id, user_info, nested)) => match nested {
            None => member_from(user_id, user_info),
            Some(inner) => match presence_fields_of(inner) {
                None => None,
                Some((inner_id, inner_info, _)) => member_from(inner_id, inner_info),
            },
        },
    }
}

pub open spec fn empty_object() -> Seq<char> {
    seq!['{', '}']
}

/// `resp` reports socket `id` leaving channel `c`, `before` and `after` being
/// the index around the call: whether it was subscribed, the sockets left
/// (none exactly when the channel is gone), the socket's own presence member
/// (a socket is a member as one user at most), and whether that was the
/// user's last socket in the channel. The index loses exactly that pair, and
/// the channel's user ids lose the user exactly when `member_removed`.
pub open spec fn leave_matches(before: Namespace, after: Namespace, c: Seq<char>, id: Seq<char>, resp: LeaveResponse) -> bool {
    &&& resp.left == before.subscribed(c, id)
    &&& resp.remaining_connections is Some
    &&& resp.remaining_connections->Some_0 == after.channel_sockets(c).len()
    &&& (resp.remaining_connections->Some_0 == 0) == !after.occupied(c)
    &&& resp.member.is_some() == exists|u: Seq<char>| #[trigger] before.member_user(c, id, u)
    &&& resp.member.is_some() ==> before.member_user(c, id, resp.member->Some_0.user_id@)
    &&& resp.member.is_some() ==> forall|u: Seq<char>| #[trigger] before.member_user(c, id, u) ==> u == resp.member->Some_0.user_id@
    &&& resp.member_removed == (resp.member.is_some() && !before.user_elsewhere(c, resp.member->Some_0.user_id@, id))
    &&& forall|c2: Seq<char>, x: Seq<char>| #[trigger] after.subscribed(c2, x) == (before.subscribed(c2, x) && !(c2 == c && x == id))
    &&& resp.member_removed ==> before.presence_user_ids(c).contains(resp.member->Some_0.user_id@)
    &&& resp.member_removed ==> after.presence_user_ids(c) == before.presence_user_ids(c).remove(resp.member->Some_0.user_id@)
    &&& !resp.member_removed ==> after.presence_user_ids(c) == before.presence_user_ids(c)
    &&& forall|c2: Seq<char>| c2 != c ==> #[trigger] after.presence_user_ids(c2) == before.presence_user_ids(c2)
}

/// Some of the first `n` operations unsubscribes socket `id` from `c`.
pub open spec fn batch_removed(ops: Seq<(String, String)>, n: int, c: Seq<char>, id: Seq<char>) -> bool {
    exists|j: int| 0 <= j < n && #[trigger] ops[j].0@ == id && ops[j].1@ == c
}

/// The sockets of `c` left once the first `n` operations have run.
pub open spec fn left_after(ns: Namespace, ops: Seq<(String, String)>, n: int, c: Seq<char>) -> Set<Seq<char>> {
    Set::new(|id: Seq<char>| ns.subscribed(c, id) && !batch_removed(ops, n, c, id))
}

/// When a subscription is accepted: the channel needs no token or the caller
/// vouches for one, and presence channels come with a readable member.
pub open spec fn subscribe_succeeds(request: SubscriptionRequest, is_authenticated: bool) -> bool {
    &&& !(spec_requires_authentication(channel_type_of(request.channel@)) && !is_authenticated)
    &&& (channel_type_of(request.channel@) == ChannelType::Presence ==>
        request.channel_data is Some && presence_member_of(request.channel_data->Some_0@) is Some)
}

/// The member that valid presence `channel_data` describes.
pub open spec fn presence_member_matches(m: PresenceMember, text: Seq<char>) -> bool {
    presence_member_of(text) == Some((m.user_id@, m.user_info@))
}

/// Outcome of a subscription.
#[derive(Debug)]
pub struct JoinResponse {
    pub success: bool,
    pub channel_connections: Option<usize>,
    pub auth_error: Option<String>,
    /// The presence member, on a presence channel when the socket was newly added.
    pub member: Option<PresenceMember>,
    pub error_message: Option<String>,
    pub error_code: Option<i32>,
    pub _type: Option<String>,
    /// This join is the user's first socket in the presence channel: announce `member_added`.
    pub member_added: bool,
}

/// Outcome of an unsubscription.
#[derive(Debug)]
pub struct LeaveResponse {
    pub left: bool,
    pub remaining_connections: Option<usize>,
    /// The socket's presence member in the channel, if it was one.
    pub member: Option<PresenceMember>,
    /// This was the member's last socket in the channel: announce `member_removed`.
    pub member_removed: bool,
}

/// How a character stands inside a JSON string literal: `"`, `\` and
/// the control characters are escaped (the short forms where JSON has one,
/// else `\u00XX` in lower-case hex); every other character stands as it is.
pub open spec fn json_escape(c: char) -> Seq<char> {
    if c == '"' {
        seq!['\\', '"']
    } else if c == '\\' {
        seq!['\\', '\\']
    } else if c == '\u{8}' {
        seq!['\\', 'b']
    } else if c == '\t' {
        seq!['\\', 't']
    } else if c == '\n' {
        seq!['\\', 'n']
    } else if c == '\u{c}' {
        seq!['\\', 'f']
    } else if c == '\r' {
        seq!['\\', 'r']
    } else if (c as u32) < 0x20 {
        seq!['\\', 'u', '0', '0', hex_digit(((c as u32) / 16) as u8), hex_digit(((c as u32) % 16) as u8)]
    } else {
        seq![c]
    }
}

pub open spec fn json_escape_all(s: Seq<char>) -> Seq<char>
    decreases s.len(),
{
    if s.len() == 0 { Seq::empty() } else { json_escape_all(s.drop_last()) + json_escape(s.last()) }
}

/// The JSON string literal for `s`: quoted, with each character escaped.
pub open spec fn json_string_of(s: Seq<char>) -> Seq<char> {
    seq!['"'] + json_escape_all(s) + seq!['"']
}

/// Relies on `serde_json::to_string` on a `&str` (`format_escaped_str` and
/// its `ESCAPE` table): the quoted literal escapes exactly as `json_escape`
/// says. Serialising a string does not fail.
#[verifier::external_body]
fn json_quote(s: &str) -> (r: String)
    ensures
        r@ == json_string_of(s@),
{
    serde_json::to_string(s).expect("a string always serialises")
}

/// `"id1","id2",...` for the members in order.
pub open spec fn presence_ids(ms: Seq<PresenceMember>) -> Seq<char>
    decreases ms.len(),
{
    if ms.len() == 0 {
        Seq::empty()
    } else if ms.len() == 1 {
        json_string_of(ms[0].user_id@)
    } else {
        presence_ids(ms.drop_last()) + seq![','] + json_string_of(ms.last().user_id@)
    }
}

/// `"id1":info1,"id2":info2,...` for the members in order.
pub open spec fn presence_hash(ms: Seq<PresenceMember>) -> Seq<char>
    decreases ms.len(),
{
    if ms.len() == 0 {
        Seq::empty()
    } else if ms.len() == 1 {
        json_string_of(ms[0].user_id@) + seq![':'] + ms[0].user_info@
    } else {
        presence_hash(ms.drop_last()) + seq![','] + json_string_of(ms.last().user_id@) + seq![':'] + ms.last().user_info@
    }
}

/// `{"presence":{"ids":[...],"hash":{...},"count":N}}`.
pub open spec fn presence_data_spec(ms: Seq<PresenceMember>) -> Seq<char> {
    "{\"presence\":{\"ids\":["@ + presence_ids(ms) + "],\"hash\":{"@ + presence_hash(ms) + "},\"count\":"@
        + decimal_spec(ms.len()) + "}}"@
}

/// Channel subscription bookkeeping and signature validation.
pub struct ChannelManager;

impl ChannelManager {
    /// The string that a subscription token signs.
    pub fn get_data_to_sign_for_signature(socket_id: &str, message: &SubscriptionRequest) -> (r: String)
        ensures
            r@ == data_to_sign(socket_id@, message.channel@, opt_text(message.channel_data)),
    {
        proof {
            reveal_strlit("presence-");
            reveal_strlit(":");
            assert("presence-"@ =~= presence_prefix());
        }
        let is_presence = starts_with(message.channel.as_str(), "presence-");
        let head = join3(socket_id, ":", message.channel.as_str());
        assert(":"@ =~= seq![':']);
        match &message.channel_data {
            Some(cd) => {
                if is_presence && cd.as_str().unicode_len() > 0 {
                    join3(head.as_str(), ":", cd.as_str())
                } else {
                    head
                }
            },
            None => head,
        }
    }

    /// The token `key:hmac` expected for a subscription request.
    pub fn get_expected_signature(app_config: &App, socket_id: &str, message: &SubscriptionRequest) -> (r: String)
        ensures
            r@ == expected_subscription_token(*app_config, socket_id@, *message),
    {
        let data = Self::get_data_to_sign_for_signature(socket_id, message);
        let mac = sign(app_config.secret.as_str(), data.as_str());
        proof { reveal_strlit(":"); assert(":"@ =~= seq![':']); }
        join3(app_config.key.as_str(), ":", mac.as_str())
    }

    /// True iff `signature` equals the expected token, compared in constant time.
    pub fn signature_is_valid(app_config: &App, socket_id: &str, signature: &str, message: &SubscriptionRequest) -> (r: bool)
        ensures
            r == (signature@ == expected_subscription_token(*app_config, socket_id@, *message)),
    {
        let expected = Self::get_expected_signature(app_config, socket_id, message);
        secure_compare(signature, expected.as_str())
    }

    /// The token `key:hmac` expected for a signin of `user_data` on `socket_id`.
    pub fn get_expected_signin_signature(app_config: &App, socket_id: &str, user_data: &str) -> (r: String)
        ensures
            r@ == token_for(app_config.key@, app_config.secret@, signin_data_to_sign(socket_id@, user_data@)),
    {
        proof { reveal_strlit("::"); reveal_strlit(":"); assert("::"@ =~= seq![':', ':']); assert(":"@ =~= seq![':']); }
        let data = join3(socket_id, "::", user_data);
        let mac = sign(app_config.secret.as_str(), data.as_str());
        join3(app_config.key.as_str(), ":", mac.as_str())
    }

    /// The type of a channel.
    pub fn get_channel_type(channel_name: &str) -> (r: ChannelType)
        ensures
            r == channel_type_of(channel_name@),
    {
        ChannelType::from_name(channel_name)
    }

    /// Reads the presence member out of a subscription's `channel_data`.
    pub fn parse_presence_data(channel_data: Option<&String>) -> (r: Result<PresenceMember, Error>)
        ensures
            r is Ok == (channel_data is Some && presence_member_of(channel_data->Some_0@) is Some),
            r is Ok ==> presence_member_matches(r->Ok_0, channel_data->Some_0@),
            r is Err ==> r->Err_0.is_channel(),
    {
        let text = match channel_data {
            None => {
                return Err(Error::Channel("Missing channel_data".to_string()));
            },
            Some(text) => text,
        };
        let (user_id, user_info, nested) = match parse_channel_data(text.as_str()) {
            None => {
                return Err(Error::Channel("Invalid JSON in channel_data".to_string()));
            },
            Some(fields) => fields,
        };
        let (user_id, user_info) = match nested {
            None => (user_id, user_info),
            Some(inner) => match parse_channel_data(inner.as_str()) {
                None => {
                    return Err(Error::Channel("Invalid JSON in channel_data".to_string()));
                },
                Some((inner_id, inner_info, _)) => (inner_id, inner_info),
            },
        };
        let user_id = match user_id {
            None => {
                return Err(Error::Channel("Missing user_id in channel_data".to_string()));
            },
            Some(u) => u,
        };
        let user_info = match user_info {
            Some(i) => i,
            None => {
                proof {
                    reveal_strlit("{}");
                    assert("{}"@ =~= empty_object());
                }
                "{}".to_string()
            },
        };
        Ok(PresenceMember::new(user_id, user_info))
    }

    /// Subscribes a socket: refuses an unauthenticated request for a channel
    /// that needs one, parses presence data before touching the index, then
    /// adds the socket (idempotently) and reports the channel's socket count.
    pub fn subscribe(namespace: &mut Namespace, socket_id: &String, request: &SubscriptionRequest, is_authenticated: bool) -> (r: Result<JoinResponse, Error>)
        requires
            old(namespace).wf(),
        ensures
            final(namespace).wf(),
            final(namespace).spec_app_id() == old(namespace).spec_app_id(),
            spec_requires_authentication(channel_type_of(request.channel@)) && !is_authenticated ==> r is Err && r->Err_0.is_auth(),
            r is Err ==> *final(namespace) == *old(namespace),
            r is Ok == subscribe_succeeds(*request, is_authenticated),
            !(spec_requires_authentication(channel_type_of(request.channel@)) && !is_authenticated) && r is Err ==> r->Err_0.is_channel(),
            r is Ok ==> ({
                let resp = r->Ok_0;
                let c = request.channel@;
                let newly = !old(namespace).subscribed(c, socket_id@);
                let presence = channel_type_of(c) == ChannelType::Presence;
                &&& resp.success
                &&& resp.channel_connections == Some(final(namespace).channel_sockets(c).len() as usize)
                &&& forall|c2: Seq<char>, id: Seq<char>| #[trigger] final(namespace).subscribed(c2, id)
                        == (old(namespace).subscribed(c2, id) || (c2 == c && id == socket_id@))
                &&& resp.member.is_some() == (presence && newly)
                &&& resp.member.is_some() ==> presence_member_matches(resp.member->Some_0, request.channel_data->Some_0@)
                &&& resp.member_added == (presence && newly && !old(namespace).presence_user_ids(c).contains(resp.member->Some_0.user_id@))
                &&& presence && newly ==> final(namespace).presence_user_ids(c) == old(namespace).presence_user_ids(c).insert(resp.member->Some_0.user_id@)
                &&& !(presence && newly) ==> final(namespace).presence_user_ids(c) == old(namespace).presence_user_ids(c)
                &&& forall|c2: Seq<char>| c2 != c ==> #[trigger] final(namespace).presence_user_ids(c2) == old(namespace).presence_user_ids(c2)
            }),
    {
        let channel_type = Self::get_channel_type(request.channel.as_str());
        if channel_type.requires_authentication() && !is_authenticated {
            return Err(Error::Auth("Channel requires authentication".to_string()));
        }
        if channel_type.is_presence() {
            let member = Self::parse_presence_data(request.channel_data.as_ref())?;
            let echo = member.duplicate();
            let (newly, added) = namespace.join_presence(&request.channel, socket_id, member);
            let total = namespace.get_channel_socket_count(&request.channel);
            proof { lemma_count_is_channel_size(namespace, request.channel@); }
            Ok(JoinResponse {
                success: true,
                channel_connections: Some(total),
                auth_error: None,
                member: if newly { Some(echo) } else { None },
                error_message: None,
                error_code: None,
                _type: None,
                member_added: added.is_some(),
            })
        } else {
            let newly = namespace.add_to_channel(&request.channel, socket_id);
            let total = namespace.get_channel_socket_count(&request.channel);
            proof { lemma_count_is_channel_size(namespace, request.channel@); }
            Ok(JoinResponse {
                success: true,
                channel_connections: Some(total),
                auth_error: None,
                member: None,
                error_message: None,
                error_code: None,
                _type: None,
                member_added: false,
            })
        }
    }

    /// Unsubscribes a socket and reports the channel's remaining socket count;
    /// the channel disappears with its last socket.
    pub fn unsubscribe(namespace: &mut Namespace, socket_id: &String, channel_name: &String) -> (r: Result<LeaveResponse, Error>)
        requires
            old(namespace).wf(),
        ensures
            final(namespace).wf(),
            final(namespace).spec_app_id() == old(namespace).spec_app_id(),
            r is Ok,
            leave_matches(*old(namespace), *final(namespace), channel_name@, socket_id@, r->Ok_0),
    {
        let (left, member, member_removed) = namespace.remove_from_channel(channel_name, socket_id);
        let remaining = namespace.get_channel_socket_count(channel_name);
        proof {
            lemma_count_is_channel_size(namespace, channel_name@);
            lemma_empty_iff_unoccupied(namespace, channel_name@);
        }
        Ok(LeaveResponse { left, remaining_connections: Some(remaining), member, member_removed })
    }

    /// Unsubscribes many (socket, channel) pairs in one pass, in order; each
    /// result is the channel with whether the pair was still subscribed and how
    /// many sockets the channel has left after that step.
    pub fn batch_unsubscribe(namespace: &mut Namespace, operations: &Vec<(String, String)>) -> (r: Vec<(String, (bool, usize))>)
        requires
            old(namespace).wf(),
        ensures
            final(namespace).wf(),
            final(namespace).spec_app_id() == old(namespace).spec_app_id(),
            r@.len() == operations@.len(),
            forall|k: int| 0 <= k < r@.len() ==> (#[trigger] r@[k]).0@ == operations@[k].1@,
            forall|k: int| 0 <= k < r@.len() ==> (#[trigger] r@[k]).1.0
                == (old(namespace).subscribed(operations@[k].1@, operations@[k].0@)
                    && !batch_removed(operations@, k, operations@[k].1@, operations@[k].0@)),
            forall|k: int| 0 <= k < r@.len() ==> (#[trigger] r@[k]).1.1
                == left_after(*old(namespace), operations@, k + 1, operations@[k].1@).len(),
            forall|c: Seq<char>, id: Seq<char>| #[trigger] final(namespace).subscribed(c, id)
                == (old(namespace).subscribed(c, id) && !batch_removed(operations@, operations@.len() as int, c, id)),
    {
        let mut results: Vec<(String, (bool, usize))> = Vec::new();
        let mut i: usize = 0;
        while i < operations.len()
            invariant
                namespace.wf(),
                namespace.spec_app_id() == old(namespace).spec_app_id(),
                i <= operations@.len(),
                results@.len() == i,
                forall|k: int| 0 <= k < i ==> (#[trigger] results@[k]).0@ == operations@[k].1@,
                forall|k: int| 0 <= k < i ==> (#[trigger] results@[k]).1.0
                    == (old(namespace).subscribed(operations@[k].1@, operations@[k].0@)
                        && !batch_removed(operations@, k, operations@[k].1@, operations@[k].0@)),
                forall|k: int| 0 <= k < i ==> (#[trigger] results@[k]).1.1
                    == left_after(*old(namespace), operations@, k + 1, operations@[k].1@).len(),
                forall|c: Seq<char>, id: Seq<char>| #[trigger] namespace.subscribed(c, id)
                    == (old(namespace).subscribed(c, id) && !batch_removed(operations@, i as int, c, id)),
            decreases operations@.len() - i,
        {
            let (socket_id, channel) = &operations[i];
            let (removed, _member, _last) = namespace.remove_from_channel(channel, socket_id);
            let remaining = namespace.get_channel_socket_count(channel);
            proof {
                assert forall|c: Seq<char>, id: Seq<char>| #[trigger] namespace.subscribed(c, id)
                    == (old(namespace).subscribed(c, id) && !batch_removed(operations@, i + 1, c, id)) by {
                    if batch_removed(operations@, i + 1, c, id) {
                        let k = choose|k: int| 0 <= k < i + 1 && #[trigger] operations@[k].0@ == id && operations@[k].1@ == c;
                        if k < i {
                            assert(batch_removed(operations@, i as int, c, id));
                        }
                    }
                    if batch_removed(operations@, i as int, c, id) {
                        let k = choose|k: int| 0 <= k < i && #[trigger] operations@[k].0@ == id && operations@[k].1@ == c;
                        assert(operations@[k].0@ == id && operations@[k].1@ == c);
                    }
                    if c == channel@ && id == socket_id@ {
                        assert(operations@[i as int].0@ == id && operations@[i as int].1@ == c);
                    }
                }
                lemma_count_is_channel_size(namespace, channel@);
                assert(namespace.channel_sockets(channel@) =~= left_after(*old(namespace), operations@, i + 1, channel@));
            }
            results.push((channel.clone(), (removed, remaining)));
            i = i + 1;
        }
        results
    }

    /// Whether a join is announced with `member_added` across the cluster: it
    /// is the user's first socket in the channel on this node, and the
    /// cluster-wide count of the user's sockets in the channel, taken after
    /// the join and including this one, shows no other.
    pub fn member_added_in_cluster(first_local_join: bool, user_sockets_in_cluster: usize) -> (r: bool)
        ensures
            r == (first_local_join && user_sockets_in_cluster <= 1),
    {
        first_local_join && user_sockets_in_cluster <= 1
    }

    /// Whether a leave is announced with `member_removed` across the cluster:
    /// it was the user's last socket in the channel on this node, and the
    /// cluster-wide count of the user's sockets in the channel, taken after
    /// the leave, is zero.
    pub fn member_removed_in_cluster(last_local_leave: bool, user_sockets_in_cluster: usize) -> (r: bool)
        ensures
            r == (last_local_leave && user_sockets_in_cluster == 0),
    {
        last_local_leave && user_sockets_in_cluster == 0
    }

    /// The data of `pusher_internal:subscription_succeeded` on a presence
    /// channel with these members (one per user), as JSON text.
    pub fn presence_subscription_data(members: &Vec<PresenceMember>) -> (r: String)
        ensures
            r@ == presence_data_spec(members@),
    {
        let mut ids = String::new();
        let mut hash = String::new();
        let mut i: usize = 0;
        proof {
            reveal_strlit(",");
            reveal_strlit(":");
            assert(","@ =~= seq![',']);
            assert(":"@ =~= seq![':']);
            assert(members@.take(0) =~= Seq::<PresenceMember>::empty());
        }
        while i < members.len()
            invariant
                i <= members@.len(),
                ","@ == seq![','],
                ":"@ == seq![':'],
                ids@ == presence_ids(members@.take(i as int)),
                hash@ == presence_hash(members@.take(i as int)),
            decreases members@.len() - i,
        {
            let q = json_quote(members[i].user_id.as_str());
            proof {
                let t1 = members@.take(i + 1);
                assert(t1.drop_last() =~= members@.take(i as int));
                assert(t1.last() == members@[i as int]);
                if i == 0 {
                    assert(t1.len() == 1);
                    assert(t1[0] == members@[0]);
                }
            }
            if i > 0 {
                ids.append(",");
                hash.append(",");
            }
            ids.append(q.as_str());
            hash.append(q.as_str());
            hash.append(":");
            hash.append(members[i].user_info.as_str());
            proof {
                assert(ids@ =~= presence_ids(members@.take(i + 1)));
                assert(hash@ =~= presence_hash(members@.take(i + 1)));
            }
            i = i + 1;
        }
        assert(members@.take(i as int) =~= members@);
        let count = decimal(members.len() as u64);
        let mut out = String::new();
        out.append("{\"presence\":{\"ids\":[");
        out.append(ids.as_str());
        out.append("],\"hash\":{");
        out.append(hash.as_str());
        out.append("},\"count\":");
        out.append(count.as_str());
        out.append("}}");
        proof {
            assert(out@ =~= presence_data_spec(members@));
        }
        out
    }
}

} // verus!
