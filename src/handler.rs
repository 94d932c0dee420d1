//! Per-connection decisions: subscription and signin authorization, and the
//! liveness machine (activity ping, pong deadline, signin deadline).
//!
//! Timers and socket writes belong to the caller: it reports the clock and
//! incoming frames, and performs the returned actions.
use vstd::prelude::*;
use crate::app::App;
use crate::channel::{channel_type_of, presence_prefix, private_prefix, ChannelType};
use crate::error::Error;
use crate::namespace::Namespace;
use crate::manager::{expected_subscription_token, presence_member_of, signin_data_to_sign, token_for, ChannelManager, JoinResponse, SubscriptionRequest};
use crate::text::starts_with;
use crate::token::secure_compare;

verus! {

/// Close code: no pong within the pong window.
pub const CLOSE_PONG_TIMEOUT: u16 = 4201;
/// Close code: signin required and not done in time.
pub const CLOSE_AUTH_TIMEOUT: u16 = 4009;
/// Seconds that a client has to answer a server ping.
pub const PONG_TIMEOUT: u64 = 3;

/// The `data` of a `pusher:signin` frame.
#[derive(Debug, Clone)]
pub struct SignInRequest {
    pub user_data: String,
    pub auth: String,
}

/// The string `id` field of the JSON text `user_data`, if any.
pub uninterp spec fn signin_user_id_of(user_data: Seq<char>) -> Option<Seq<char>>;

/// Relies on `serde_json::from_str::<serde_json::Value>`, `Value::get` and
/// `Value::as_str`: the field read depends on the text alone.
#[verifier::external_body]
fn parse_signin_user_id(user_data: &str) -> (r: Option<String>)
    ensures
        match r {
            Some(u) => signin_user_id_of(user_data@) == Some(u@),
            None => signin_user_id_of(user_data@) is None,
        },
{
    let v: serde_json::Value = serde_json::from_str(user_data).ok()?;
    Some(v.get("id")?.as_str()?.to_string())
}

/// A channel that needs a token: its name starts with `presence-` or `private-`.
pub open spec fn needs_token(channel: Seq<char>) -> bool {
    presence_prefix().is_prefix_of(channel) || private_prefix().is_prefix_of(channel)
}

/// Liveness status of a connection; times are in seconds on the caller's clock.
#[derive(Debug, Clone, Copy, PartialEq, Eq, Structural)]
pub enum ConnectionStatus {
    Active,
    PingSent(u64),
    Closing(u16),
}

/// What the caller must do after a clock tick.
#[derive(Debug, Clone, Copy, PartialEq, Eq, Structural)]
pub enum TimeoutAction {
    Nothing,
    SendPing,
    Close(u16),
}

/// Liveness state of one connection.
#[derive(Debug, Clone, Copy)]
pub struct Liveness {
    pub last_activity: u64,
    pub status: ConnectionStatus,
    pub activity_timeout: u64,
    pub pong_timeout: u64,
    /// When signin is required: the time by which it must happen.
    pub auth_deadline: Option<u64>,
}

/// The effect of a tick at `now` on a liveness state.
pub open spec fn tick_spec(l: Liveness, now: u64) -> (Liveness, TimeoutAction) {
    match l.status {
        ConnectionStatus::Closing(_) => (l, TimeoutAction::Nothing),
        _ => if l.auth_deadline is Some && now >= l.auth_deadline->Some_0 {
            (Liveness { status: ConnectionStatus::Closing(CLOSE_AUTH_TIMEOUT), ..l }, TimeoutAction::Close(CLOSE_AUTH_TIMEOUT))
        } else {
            match l.status {
                ConnectionStatus::PingSent(t) => if now >= t && now - t >= l.pong_timeout {
                    (Liveness { status: ConnectionStatus::Closing(CLOSE_PONG_TIMEOUT), ..l }, TimeoutAction::Close(CLOSE_PONG_TIMEOUT))
                } else {
                    (l, TimeoutAction::Nothing)
                },
                _ => if now >= l.last_activity && now - l.last_activity >= l.activity_timeout {
                    (Liveness { status: ConnectionStatus::PingSent(now), ..l }, TimeoutAction::SendPing)
                } else {
                    (l, TimeoutAction::Nothing)
                },
            }
        },
    }
}

impl Liveness {
    /// A freshly established connection, active at `now`; with
    /// `auth_timeout`, signin is due `auth_timeout` seconds later.
    pub fn setup_initial_timeouts(now: u64, activity_timeout: u64, auth_timeout: Option<u64>) -> (r: Liveness)
        ensures
            r.last_activity == now,
            r.status == ConnectionStatus::Active,
            r.activity_timeout == activity_timeout,
            r.pong_timeout == PONG_TIMEOUT,
            r.auth_deadline == match auth_timeout {
                Some(t) => Some(if now + t <= u64::MAX { (now + t) as u64 } else { u64::MAX }),
                None => None::<u64>,
            },
    {
        let deadline = match auth_timeout {
            Some(t) => Some(now.saturating_add(t)),
            None => None,
        };
        Liveness {
            last_activity: now,
            status: ConnectionStatus::Active,
            activity_timeout,
            pong_timeout: PONG_TIMEOUT,
            auth_deadline: deadline,
        }
    }

    /// Any client frame (a `pusher:pong`, a WebSocket PING, anything) at
    /// `now`: activity is recorded and a pending ping is answered.
    pub fn update_activity_timeout(&mut self, now: u64)
        ensures
            match old(self).status {
                ConnectionStatus::Closing(_) => *final(self) == *old(self),
                _ => *final(self) == (Liveness { last_activity: now, status: ConnectionStatus::Active, ..*old(self) }),
            },
    {
        match self.status {
            ConnectionStatus::Closing(_) => {},
            _ => {
                self.last_activity = now;
                self.status = ConnectionStatus::Active;
            },
        }
    }

    /// A low-level WebSocket PING frame at `now`; it counts as activity.
    pub fn handle_ping_frame(&mut self, now: u64)
        ensures
            match old(self).status {
                ConnectionStatus::Closing(_) => *final(self) == *old(self),
                _ => *final(self) == (Liveness { last_activity: now, status: ConnectionStatus::Active, ..*old(self) }),
            },
    {
        self.update_activity_timeout(now)
    }

    /// Signin becomes due `timeout` seconds after `now` (saturating).
    pub fn set_user_authentication_timeout(&mut self, now: u64, timeout: u64)
        ensures
            *final(self) == (Liveness {
                auth_deadline: Some(if now + timeout <= u64::MAX { (now + timeout) as u64 } else { u64::MAX }),
                ..*old(self)
            }),
    {
        self.auth_deadline = Some(now.saturating_add(timeout));
    }

    /// Signin succeeded: the signin deadline no longer applies.
    pub fn clear_user_authentication_timeout(&mut self)
        ensures
            *final(self) == (Liveness { auth_deadline: None, ..*old(self) }),
    {
        self.auth_deadline = None;
    }

    /// The clock reads `now`: close on a missed signin deadline or an
    /// unanswered ping, or ping after `activity_timeout` of inactivity.
    pub fn set_activity_timeout(&mut self, now: u64) -> (r: TimeoutAction)
        ensures
            (*final(self), r) == tick_spec(*old(self), now),
    {
        match self.status {
            ConnectionStatus::Closing(_) => {
                return TimeoutAction::Nothing;
            },
            _ => {},
        }
        match self.auth_deadline {
            Some(d) => {
                if now >= d {
                    self.status = ConnectionStatus::Closing(CLOSE_AUTH_TIMEOUT);
                    return TimeoutAction::Close(CLOSE_AUTH_TIMEOUT);
                }
            },
            None => {},
        }
        match self.status {
            ConnectionStatus::PingSent(t) => {
                if now >= t && now - t >= self.pong_timeout {
                    self.status = ConnectionStatus::Closing(CLOSE_PONG_TIMEOUT);
                    TimeoutAction::Close(CLOSE_PONG_TIMEOUT)
                } else {
                    TimeoutAction::Nothing
                }
            },
            _ => {
                if now >= self.last_activity && now - self.last_activity >= self.activity_timeout {
                    self.status = ConnectionStatus::PingSent(now);
                    TimeoutAction::SendPing
                } else {
                    TimeoutAction::Nothing
                }
            },
        }
    }
}

/// Per-connection authorization checks.
pub struct ConnectionHandler;

impl ConnectionHandler {
    /// Public channels pass; a `presence-` or `private-` channel needs a token,
    /// and passes iff it is the expected one.
    pub fn verify_channel_authentication(app_config: &App, socket_id: &str, request: &SubscriptionRequest) -> (r: Result<bool, Error>)
        ensures
            !needs_token(request.channel@) ==> r == Ok::<bool, Error>(true),
            needs_token(request.channel@) && request.auth is None ==> r is Err && r->Err_0.is_auth(),
            needs_token(request.channel@) && request.auth is Some ==> r is Ok
                && r->Ok_0 == (request.auth->Some_0@ == expected_subscription_token(*app_config, socket_id@, *request)),
    {
        proof {
            reveal_strlit("presence-");
            reveal_strlit("private-");
            assert("presence-"@ =~= presence_prefix());
            assert("private-"@ =~= private_prefix());
        }
        if !starts_with(request.channel.as_str(), "presence-") && !starts_with(request.channel.as_str(), "private-") {
            return Ok(true);
        }
        match &request.auth {
            None => Err(Error::Auth("Authentication signature required for this channel".to_string())),
            Some(signature) => Ok(ChannelManager::signature_is_valid(app_config, socket_id, signature.as_str(), request)),
        }
    }

    /// A signin passes iff its token is `key:HMAC(secret, socket_id::user_data)`.
    pub fn verify_signin_authentication(socket_id: &str, app_config: &App, request: &SignInRequest) -> (r: Result<(), Error>)
        ensures
            r is Ok == (request.auth@ == token_for(app_config.key@, app_config.secret@, signin_data_to_sign(socket_id@, request.user_data@))),
            r is Err ==> r->Err_0.is_auth(),
    {
        let expected = ChannelManager::get_expected_signin_signature(app_config, socket_id, request.user_data.as_str());
        if secure_compare(request.auth.as_str(), expected.as_str()) {
            Ok(())
        } else {
            Err(Error::Auth("Connection not authorized for signin.".to_string()))
        }
    }

    /// Signs a socket in: checks the token, reads the user id out of
    /// `user_data`, indexes the socket under that user and lifts the signin
    /// deadline. On failure nothing changes; the caller closes with 4009.
    pub fn handle_signin(namespace: &mut Namespace, liveness: &mut Liveness, socket_id: &String, app_config: &App, request: &SignInRequest) -> (r: Result<String, Error>)
        requires
            old(namespace).wf(),
        ensures
            final(namespace).wf(),
            final(namespace).spec_app_id() == old(namespace).spec_app_id(),
            r is Ok == (request.auth@ == token_for(app_config.key@, app_config.secret@, signin_data_to_sign(socket_id@, request.user_data@))
                && signin_user_id_of(request.user_data@) is Some),
            r is Err ==> r->Err_0.is_auth() && *final(namespace) == *old(namespace) && *final(liveness) == *old(liveness),
            r is Ok ==> ({
                let u = r->Ok_0@;
                &&& signin_user_id_of(request.user_data@) == Some(u)
                &&& final(liveness).auth_deadline is None
                &&& forall|v: Seq<char>, id: Seq<char>| #[trigger] final(namespace).user_has_socket(v, id)
                        == (old(namespace).user_has_socket(v, id) || (old(namespace).has_socket(socket_id@) && v == u && id == socket_id@))
            }),
    {
        Self::verify_signin_authentication(socket_id.as_str(), app_config, request)?;
        let user_id = match parse_signin_user_id(request.user_data.as_str()) {
            Some(u) => u,
            None => {
                return Err(Error::Auth("Signin user_data has no user id".to_string()));
            },
        };
        namespace.add_user(&user_id, socket_id);
        liveness.clear_user_authentication_timeout();
        Ok(user_id)
    }

    /// Handles `pusher:subscribe`: a channel that needs a token gets one
    /// checked first; then the socket is subscribed. A refusal changes nothing
    /// and leaves the socket open (the caller answers `pusher:subscription_error`).
    pub fn handle_subscribe(namespace: &mut Namespace, app_config: &App, socket_id: &String, request: &SubscriptionRequest) -> (r: Result<JoinResponse, Error>)
        requires
            old(namespace).wf(),
        ensures
            final(namespace).wf(),
            final(namespace).spec_app_id() == old(namespace).spec_app_id(),
            r is Err ==> *final(namespace) == *old(namespace),
            needs_token(request.channel@) && (request.auth is None
                || request.auth->Some_0@ != expected_subscription_token(*app_config, socket_id@, *request))
                ==> r is Err && r->Err_0.is_auth(),
            !(needs_token(request.channel@) && (request.auth is None
                || request.auth->Some_0@ != expected_subscription_token(*app_config, socket_id@, *request)))
                ==> (r is Ok == (channel_type_of(request.channel@) == ChannelType::Presence ==>
                    request.channel_data is Some && presence_member_of(request.channel_data->Some_0@) is Some)),
            r is Ok ==> forall|c: Seq<char>, id: Seq<char>| #[trigger] final(namespace).subscribed(c, id)
                == (old(namespace).subscribed(c, id) || (c == request.channel@ && id == socket_id@)),
    {
        let authorized = Self::verify_channel_authentication(app_config, socket_id.as_str(), request)?;
        if !authorized {
            return Err(Error::Auth("Invalid signature".to_string()));
        }
        ChannelManager::subscribe(namespace, socket_id, request, true)
    }
}

} // verus!
