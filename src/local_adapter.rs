//! Local fan-out: target resolution, chunk planning under a global permit
//! budget, and the per-app namespaces of this node.
use vstd::prelude::*;
use crate::channel::{server_to_user_id, server_to_user_prefix, server_to_user_target};
use crate::app::App;
use crate::error::Error;
use crate::handler::{signin_user_id_of, ConnectionHandler, Liveness, SignInRequest};
use crate::manager::{signin_data_to_sign, token_for};
use crate::channel::{channel_type_of, spec_requires_authentication, ChannelType};
use crate::manager::{leave_matches, subscribe_succeeds, ChannelManager, JoinResponse, LeaveResponse, SubscriptionRequest};
use crate::namespace::{departures_announced, opt_view, seq_has, seq_unique, Namespace, PresenceMember};

verus! {

/// Relies on `num_cpus::get`: the number of CPUs available to the process,
/// which its documentation promises is at least 1.
#[verifier::external_body]
pub(crate) fn cpu_count() -> (r: usize)
    ensures
        r >= 1,
{
    num_cpus::get()
}

/// `a * b`, or `usize::MAX` when that does not fit.
pub open spec fn saturating_product(a: int, b: int) -> int {
    if a * b > usize::MAX { usize::MAX as int } else { a * b }
}

pub open spec fn spec_clamp(x: int, lo: int, hi: int) -> int {
    if x < lo { lo } else if x > hi { hi } else { x }
}

pub open spec fn ceil_div(n: int, d: int) -> int {
    (n + d - 1) / d
}

/// Chunk count for `n` targets: `ceil(n / max)` clamped to `[1, 8]`.
pub open spec fn spec_chunks(n: int, max: int) -> int {
    spec_clamp(ceil_div(n, max), 1, 8)
}

/// Chunk size: `n / chunks` clamped to `[1, max]`.
pub open spec fn spec_chunk_size(n: int, max: int) -> int {
    spec_clamp(n / spec_chunks(n, max), 1, max)
}

/// Send permits shared by every fan-out of the node. Sends in flight are
/// `capacity - available`, which never exceeds `capacity`.
#[derive(Debug)]
pub struct PermitPool {
    capacity: usize,
    available: usize,
}

impl PermitPool {
    pub closed spec fn spec_capacity(&self) -> nat {
        self.capacity as nat
    }

    pub closed spec fn spec_available(&self) -> nat {
        self.available as nat
    }

    /// Number of permits handed out and not yet returned.
    pub open spec fn in_flight(&self) -> int {
        self.spec_capacity() - self.spec_available()
    }

    pub open spec fn wf(&self) -> bool {
        self.spec_available() <= self.spec_capacity()
    }

    pub fn new(capacity: usize) -> (r: PermitPool)
        ensures
            r.wf(),
            r.spec_capacity() == capacity,
            r.in_flight() == 0,
    {
        PermitPool { capacity, available: capacity }
    }

    pub fn available(&self) -> (r: usize)
        ensures
            r == self.spec_available(),
    {
        self.available
    }

    /// Takes `n` permits if that many are free; `false` leaves the pool as it is.
    pub fn try_acquire_many(&mut self, n: usize) -> (r: bool)
        requires
            old(self).wf(),
        ensures
            final(self).wf(),
            final(self).spec_capacity() == old(self).spec_capacity(),
            r == (n <= old(self).spec_available()),
            r ==> final(self).in_flight() == old(self).in_flight() + n,
            !r ==> *final(self) == *old(self),
    {
        if n <= self.available {
            self.available = self.available - n;
            true
        } else {
            false
        }
    }

    /// Returns `n` permits taken earlier.
    pub fn release(&mut self, n: usize)
        requires
            old(self).wf(),
            n <= old(self).in_flight(),
        ensures
            final(self).wf(),
            final(self).spec_capacity() == old(self).spec_capacity(),
            final(self).in_flight() == old(self).in_flight() - n,
    {
        self.available = self.available + n;
    }
}

pub open spec fn spaces_unique(v: Seq<Namespace>) -> bool {
    forall|i: int, j: int| 0 <= i < v.len() && 0 <= j < v.len() && i != j ==> (#[trigger] v[i]).spec_app_id() != (#[trigger] v[j]).spec_app_id()
}

pub open spec fn space_index(v: Seq<Namespace>, app_id: Seq<char>) -> int {
    choose|i: int| 0 <= i < v.len() && (#[trigger] v[i]).spec_app_id() == app_id
}

pub open spec fn has_space(v: Seq<Namespace>, app_id: Seq<char>) -> bool {
    exists|i: int| 0 <= i < v.len() && (#[trigger] v[i]).spec_app_id() == app_id
}

proof fn lemma_space_index(v: Seq<Namespace>, i: int)
    requires
        spaces_unique(v),
        0 <= i < v.len(),
    ensures
        has_space(v, v[i].spec_app_id()),
        space_index(v, v[i].spec_app_id()) == i,
{
    assert(v[i].spec_app_id() == v[i].spec_app_id());
}

proof fn lemma_replace_space(v: Seq<Namespace>, i: int, ns: Namespace)
    requires
        spaces_unique(v),
        0 <= i < v.len(),
        ns.spec_app_id() == v[i].spec_app_id(),
    ensures
        spaces_unique(v.update(i, ns)),
        forall|a: Seq<char>| #[trigger] has_space(v.update(i, ns), a) == has_space(v, a),
        forall|a: Seq<char>| has_space(v, a) && a != v[i].spec_app_id() ==>
            v.update(i, ns)[space_index(v.update(i, ns), a)] == v[space_index(v, a)],
        v.update(i, ns)[space_index(v.update(i, ns), v[i].spec_app_id())] == ns,
{
    let w = v.update(i, ns);
    assert forall|a: int, b: int| 0 <= a < w.len() && 0 <= b < w.len() && a != b
        implies (#[trigger] w[a]).spec_app_id() != (#[trigger] w[b]).spec_app_id() by {
        assert(w[a].spec_app_id() == v[a].spec_app_id());
        assert(w[b].spec_app_id() == v[b].spec_app_id());
    }
    assert forall|a: Seq<char>| #[trigger] has_space(w, a) == has_space(v, a) by {
        if has_space(w, a) {
            let k = choose|k: int| 0 <= k < w.len() && (#[trigger] w[k]).spec_app_id() == a;
            assert(v[k].spec_app_id() == a);
        }
        if has_space(v, a) {
            let k = choose|k: int| 0 <= k < v.len() && (#[trigger] v[k]).spec_app_id() == a;
            assert(w[k].spec_app_id() == a);
        }
    }
    assert forall|a: Seq<char>| has_space(v, a) && a != v[i].spec_app_id() implies
        w[space_index(w, a)] == v[space_index(v, a)] by {
        let k = space_index(v, a);
        lemma_space_index(v, k);
        assert(w[k].spec_app_id() == a);
        lemma_space_index(w, k);
    }
    assert(w[i].spec_app_id() == v[i].spec_app_id());
    lemma_space_index(w, i);
}

/// A namespace with nothing registered in it.
pub open spec fn is_empty_space(ns: Namespace) -> bool {
    &&& forall|id: Seq<char>| !#[trigger] ns.has_socket(id)
    &&& forall|c: Seq<char>, id: Seq<char>| !#[trigger] ns.subscribed(c, id)
    &&& forall|u: Seq<char>, id: Seq<char>| !#[trigger] ns.user_has_socket(u, id)
    &&& forall|c: Seq<char>, u: Seq<char>| !#[trigger] ns.presence_user_ids(c).contains(u)
}

proof fn lemma_grow_unchanged(old: Seq<Namespace>, mid: Seq<Namespace>, i: int, app: Seq<char>)
    requires
        spaces_unique(old),
        spaces_unique(mid),
        0 <= i < mid.len(),
        mid[i].spec_app_id() == app,
        mid == old || (i == old.len() && mid == old.push(mid[i])),
    ensures
        forall|a: Seq<char>| #[trigger] has_space(mid, a) == (has_space(old, a) || a == app),
        forall|a: Seq<char>| a != app && has_space(old, a) ==> mid[space_index(mid, a)] == old[space_index(old, a)],
{
    assert forall|a: Seq<char>| #[trigger] has_space(mid, a) == (has_space(old, a) || a == app) by {
        lemma_space_index(mid, i);
        if has_space(old, a) {
            let k = choose|k: int| 0 <= k < old.len() && (#[trigger] old[k]).spec_app_id() == a;
            assert(mid[k] == old[k]);
        }
        if has_space(mid, a) && a != app {
            let k = choose|k: int| 0 <= k < mid.len() && (#[trigger] mid[k]).spec_app_id() == a;
            if mid != old {
                assert(k != i);
                assert(mid[k] == old[k]);
            }
        }
    }
    assert forall|a: Seq<char>| a != app && has_space(old, a) implies mid[space_index(mid, a)] == old[space_index(old, a)] by {
        let k = space_index(old, a);
        lemma_space_index(old, k);
        assert(mid[k] == old[k]);
        lemma_space_index(mid, k);
    }
}

/// Socket `id` was subscribed to `c` in app `app` before a call.
pub open spec fn prior_subscribed(old_self: &LocalAdapter, app: Seq<char>, c: Seq<char>, id: Seq<char>) -> bool {
    old_self.has_app(app) && old_self.namespace_of(app).subscribed(c, id)
}

/// User `u` was a member of `c` in app `app` before a call.
pub open spec fn prior_member(old_self: &LocalAdapter, app: Seq<char>, c: Seq<char>, u: Seq<char>) -> bool {
    old_self.has_app(app) && old_self.namespace_of(app).presence_user_ids(c).contains(u)
}

/// Local (single node) connection manager: namespaces and fan-out limits.
pub struct LocalAdapter {
    namespaces: Vec<Namespace>,
    buffer_multiplier_per_cpu: usize,
    max_concurrent: usize,
    broadcast_permits: PermitPool,
}

impl LocalAdapter {
    pub closed spec fn wf(&self) -> bool {
        &&& self.broadcast_permits.wf()
        &&& self.broadcast_permits.spec_capacity() == self.max_concurrent
        &&& self.max_concurrent >= 1
        &&& forall|i: int| 0 <= i < self.namespaces@.len() ==> (#[trigger] self.namespaces@[i]).wf()
        &&& spaces_unique(self.namespaces@)
    }

    pub closed spec fn spec_max_concurrent(&self) -> int {
        self.max_concurrent as int
    }

    pub closed spec fn spec_multiplier(&self) -> int {
        self.buffer_multiplier_per_cpu as int
    }

    pub fn max_concurrent(&self) -> (r: usize)
        ensures
            r == self.spec_max_concurrent(),
            self.wf() ==> r >= 1,
    {
        self.max_concurrent
    }

    pub fn buffer_multiplier_per_cpu(&self) -> (r: usize)
        ensures
            r == self.spec_multiplier(),
    {
        self.buffer_multiplier_per_cpu
    }

    pub closed spec fn permits(&self) -> PermitPool {
        self.broadcast_permits
    }

    pub closed spec fn spaces(&self) -> Seq<Namespace> {
        self.namespaces@
    }

    /// App `app_id` has a namespace here.
    pub open spec fn has_app(&self, app_id: Seq<char>) -> bool {
        has_space(self.spaces(), app_id)
    }

    /// The namespace of app `app_id`, when it has one.
    pub open spec fn namespace_of(&self, app_id: Seq<char>) -> Namespace {
        self.spaces()[space_index(self.spaces(), app_id)]
    }

    /// Apps other than `app_id` keep their namespaces.
    pub open spec fn others_unchanged(&self, old_self: &LocalAdapter, app_id: Seq<char>) -> bool {
        &&& forall|a: Seq<char>| #[trigger] self.has_app(a) == (old_self.has_app(a) || a == app_id && self.has_app(a))
        &&& forall|a: Seq<char>| a != app_id && old_self.has_app(a) ==> #[trigger] self.namespace_of(a) == old_self.namespace_of(a)
        &&& self.spec_max_concurrent() == old_self.spec_max_concurrent()
        &&& self.permits() == old_self.permits()
    }

    fn find_namespace(&self, app_id: &String) -> (r: Option<usize>)
        requires
            self.wf(),
        ensures
            r is None == !self.has_app(app_id@),
            r is Some ==> r->Some_0 < self.spaces().len() && space_index(self.spaces(), app_id@) == r->Some_0
                && self.spaces()[r->Some_0 as int].spec_app_id() == app_id@,
    {
        let mut i: usize = 0;
        while i < self.namespaces.len()
            invariant
                i <= self.namespaces@.len(),
                spaces_unique(self.namespaces@),
                forall|j: int| 0 <= j < i ==> (#[trigger] self.namespaces@[j]).spec_app_id() != app_id@,
            decreases self.namespaces@.len() - i,
        {
            if *self.namespaces[i].app_id() == *app_id {
                proof {
                    assert(self.spaces() == self.namespaces@);
                    lemma_space_index(self.namespaces@, i as int);
                }
                return Some(i);
            }
            i = i + 1;
        }
        proof { assert(self.spaces() == self.namespaces@); }
        None
    }

    /// The index of the namespace of `app_id`, created empty if missing.
    pub fn get_or_create_namespace(&mut self, app_id: &String) -> (r: usize)
        requires
            old(self).wf(),
        ensures
            final(self).wf(),
            r < final(self).spaces().len(),
            final(self).has_app(app_id@),
            space_index(final(self).spaces(), app_id@) == r,
            old(self).has_app(app_id@) ==> final(self).spaces() == old(self).spaces(),
            !old(self).has_app(app_id@) ==> final(self).spaces() == old(self).spaces().push(final(self).spaces()[r as int])
                && r == old(self).spaces().len() && is_empty_space(final(self).spaces()[r as int]),
            old(self).has_app(app_id@) ==> final(self).spaces()[r as int] == old(self).namespace_of(app_id@),
            final(self).spec_max_concurrent() == old(self).spec_max_concurrent(),
            final(self).permits() == old(self).permits(),
    {
        match self.find_namespace(app_id) {
            Some(i) => {
                proof { assert(self.spaces() == self.namespaces@); }
                i
            },
            None => {
                let ghost before = self.namespaces@;
                let ns = Namespace::new(app_id.clone());
                self.namespaces.push(ns);
                let i = self.namespaces.len() - 1;
                proof {
                    let v = self.namespaces@;
                    assert(v == before.push(ns));
                    assert forall|a: int, b: int| 0 <= a < v.len() && 0 <= b < v.len() && a != b
                        implies (#[trigger] v[a]).spec_app_id() != (#[trigger] v[b]).spec_app_id() by {
                        if a < before.len() && b < before.len() {
                            assert(v[a] == before[a] && v[b] == before[b]);
                        } else if a < before.len() {
                            assert(v[a] == before[a]);
                            assert(!has_space(before, app_id@));
                        } else {
                            assert(v[b] == before[b]);
                            assert(!has_space(before, app_id@));
                        }
                    }
                    assert forall|k: int| 0 <= k < v.len() implies (#[trigger] v[k]).wf() by {
                        if k < before.len() {
                            assert(v[k] == before[k]);
                        }
                    }
                    lemma_space_index(v, i as int);
                    assert(self.spaces() == v);
                }
                i
            },
        }
    }

    /// The namespace at index `i`.
    pub fn namespace(&self, i: usize) -> (r: &Namespace)
        requires
            i < self.spaces().len(),
        ensures
            *r == self.spaces()[i as int],
    {
        &self.namespaces[i]
    }

    /// Registers a socket of app `app_id` (creating its namespace); fails if
    /// the id is already registered there.
    pub fn add_socket(&mut self, app_id: &String, socket_id: &String) -> (r: Result<(), Error>)
        requires
            old(self).wf(),
        ensures
            final(self).wf(),
            final(self).has_app(app_id@),
            final(self).others_unchanged(old(self), app_id@),
            old(self).has_app(app_id@) ==> (r is Err == old(self).namespace_of(app_id@).has_socket(socket_id@)),
            forall|id: Seq<char>| #[trigger] final(self).namespace_of(app_id@).has_socket(id)
                == ((old(self).has_app(app_id@) && old(self).namespace_of(app_id@).has_socket(id)) || id == socket_id@),
    {
        let ghost old_spaces = self.namespaces@;
        let i = self.get_or_create_namespace(app_id);
        let ghost mid = self.namespaces@;
        let mut ns = self.namespaces.remove(i);
        let r = ns.add_socket(socket_id);
        self.namespaces.insert(i, ns);
        proof {
            assert(self.namespaces@ == mid.update(i as int, ns));
            lemma_replace_space(mid, i as int, ns);
            assert(self.spaces() == self.namespaces@);
            assert(old(self).spaces() == old_spaces);
            assert forall|k: int| 0 <= k < self.namespaces@.len() implies (#[trigger] self.namespaces@[k]).wf() by {
                if k != i {
                    assert(self.namespaces@[k] == mid[k]);
                }
            }
            lemma_grow_unchanged(old_spaces, mid, i as int, app_id@);
            self.lemma_frame(old(self), old_spaces, mid, i as int, ns, app_id@);
        }
        r
    }

    /// Subscribes a socket of app `app_id` (creating the app's namespace) as
    /// `ChannelManager::subscribe` does.
    pub fn subscribe(&mut self, app_id: &String, socket_id: &String, request: &SubscriptionRequest, is_authenticated: bool) -> (r: Result<JoinResponse, Error>)
        requires
            old(self).wf(),
        ensures
            final(self).wf(),
            final(self).has_app(app_id@),
            final(self).others_unchanged(old(self), app_id@),
            forall|c: Seq<char>, id: Seq<char>| #[trigger] final(self).namespace_of(app_id@).subscribed(c, id)
                == (prior_subscribed(old(self), app_id@, c, id) || (r is Ok && c == request.channel@ && id == socket_id@)),
            r is Ok == subscribe_succeeds(*request, is_authenticated),
            !(spec_requires_authentication(channel_type_of(request.channel@)) && !is_authenticated) && r is Err ==> r->Err_0.is_channel(),
            r is Ok ==> ({
                let resp = r->Ok_0;
                let c = request.channel@;
                let newly = !prior_subscribed(old(self), app_id@, c, socket_id@);
                let presence = channel_type_of(c) == ChannelType::Presence;
                &&& resp.success
                &&& resp.channel_connections == Some(final(self).namespace_of(app_id@).channel_sockets(c).len() as usize)
                &&& resp.member.is_some() == (presence && newly)
                &&& resp.member_added == (presence && newly && !prior_member(old(self), app_id@, c, resp.member->Some_0.user_id@))
            }),
    {
        let ghost old_spaces = self.namespaces@;
        let i = self.get_or_create_namespace(app_id);
        let ghost mid = self.namespaces@;
        let mut ns = self.namespaces.remove(i);
        let r = ChannelManager::subscribe(&mut ns, socket_id, request, is_authenticated);
        self.namespaces.insert(i, ns);
        proof {
            assert(self.namespaces@ == mid.update(i as int, ns));
            assert(self.spaces() == self.namespaces@);
            assert(old(self).spaces() == old_spaces);
            assert forall|k: int| 0 <= k < self.namespaces@.len() implies (#[trigger] self.namespaces@[k]).wf() by {
                if k != i {
                    assert(self.namespaces@[k] == mid[k]);
                }
            }
            lemma_replace_space(mid, i as int, ns);
            lemma_grow_unchanged(old_spaces, mid, i as int, app_id@);
            self.lemma_frame(old(self), old_spaces, mid, i as int, ns, app_id@);
        }
        r
    }

    /// Unsubscribes a socket of app `app_id` as `ChannelManager::unsubscribe`
    /// does; an app without a namespace is an error.
    pub fn unsubscribe(&mut self, app_id: &String, socket_id: &String, channel: &String) -> (r: Result<LeaveResponse, Error>)
        requires
            old(self).wf(),
        ensures
            final(self).wf(),
            r is Err == !old(self).has_app(app_id@),
            r is Err ==> *final(self) == *old(self) && r->Err_0.is_connection(),
            r is Ok ==> final(self).others_unchanged(old(self), app_id@) && final(self).has_app(app_id@)
                && forall|c: Seq<char>, id: Seq<char>| #[trigger] final(self).namespace_of(app_id@).subscribed(c, id)
                    == (old(self).namespace_of(app_id@).subscribed(c, id) && !(c == channel@ && id == socket_id@)),
            r is Ok ==> leave_matches(old(self).namespace_of(app_id@), final(self).namespace_of(app_id@), channel@, socket_id@, r->Ok_0),
    {
        let i = match self.find_namespace(app_id) {
            Some(i) => i,
            None => {
                return Err(Error::Connection("Namespace not found".to_string()));
            },
        };
        let ghost old_spaces = self.namespaces@;
        proof { assert(old(self).namespace_of(app_id@) == old_spaces[i as int]); }
        let mut ns = self.namespaces.remove(i);
        let ghost ns0 = ns;
        assert(ns0 == old_spaces[i as int]);
        let r = ChannelManager::unsubscribe(&mut ns, socket_id, channel);
        self.namespaces.insert(i, ns);
        proof {
            assert(old(self).spaces() == old_spaces);
            assert(self.namespaces@ == old_spaces.update(i as int, ns));
            assert(self.spaces() == self.namespaces@);
            assert forall|k: int| 0 <= k < self.namespaces@.len() implies (#[trigger] self.namespaces@[k]).wf() by {
                if k != i {
                    assert(self.namespaces@[k] == old_spaces[k]);
                }
            }
            lemma_replace_space(old_spaces, i as int, ns);
            lemma_grow_unchanged(old_spaces, old_spaces, i as int, app_id@);
            self.lemma_frame(old(self), old_spaces, old_spaces, i as int, ns, app_id@);
        }
        r
    }

    /// Signs a socket of app `app_id` in, as `ConnectionHandler::handle_signin`
    /// does; an app without a namespace is a connection error.
    pub fn signin(&mut self, app_id: &String, liveness: &mut Liveness, socket_id: &String, app_config: &App, request: &SignInRequest) -> (r: Result<String, Error>)
        requires
            old(self).wf(),
        ensures
            final(self).wf(),
            !old(self).has_app(app_id@) ==> r is Err && r->Err_0.is_connection() && *final(self) == *old(self),
            old(self).has_app(app_id@) ==> (r is Ok == (request.auth@ == token_for(app_config.key@, app_config.secret@,
                signin_data_to_sign(socket_id@, request.user_data@)) && signin_user_id_of(request.user_data@) is Some)),
            r is Err ==> *final(liveness) == *old(liveness),
            r is Ok ==> ({
                let u = r->Ok_0@;
                let before = old(self).namespace_of(app_id@);
                &&& final(self).others_unchanged(old(self), app_id@) && final(self).has_app(app_id@)
                &&& signin_user_id_of(request.user_data@) == Some(u)
                &&& final(liveness).auth_deadline is None
                &&& forall|v: Seq<char>, id: Seq<char>| #[trigger] final(self).namespace_of(app_id@).user_has_socket(v, id)
                        == (before.user_has_socket(v, id) || (before.has_socket(socket_id@) && v == u && id == socket_id@))
            }),
    {
        let i = match self.find_namespace(app_id) {
            Some(i) => i,
            None => {
                return Err(Error::Connection("Namespace not found".to_string()));
            },
        };
        let ghost old_spaces = self.namespaces@;
        proof { assert(old(self).namespace_of(app_id@) == old_spaces[i as int]); }
        let mut ns = self.namespaces.remove(i);
        let ghost ns0 = ns;
        assert(ns0 == old_spaces[i as int]);
        let r = ConnectionHandler::handle_signin(&mut ns, liveness, socket_id, app_config, request);
        self.namespaces.insert(i, ns);
        proof {
            assert(old(self).spaces() == old_spaces);
            assert(self.namespaces@ == old_spaces.update(i as int, ns));
            assert(self.spaces() == self.namespaces@);
            assert forall|k: int| 0 <= k < self.namespaces@.len() implies (#[trigger] self.namespaces@[k]).wf() by {
                if k != i {
                    assert(self.namespaces@[k] == old_spaces[k]);
                }
            }
            lemma_replace_space(old_spaces, i as int, ns);
            lemma_grow_unchanged(old_spaces, old_spaces, i as int, app_id@);
            self.lemma_frame(old(self), old_spaces, old_spaces, i as int, ns, app_id@);
            if r is Err {
                assert(ns == ns0);
                assert(self.namespaces@ =~= old_spaces);
            }
        }
        r
    }

    /// Drops a socket of app `app_id` and everything indexed under it; returns
    /// the `member_removed` events. An app without a namespace is an error.
    pub fn remove_connection(&mut self, app_id: &String, socket_id: &String) -> (r: Result<Vec<(String, PresenceMember)>, Error>)
        requires
            old(self).wf(),
        ensures
            final(self).wf(),
            r is Err == !old(self).has_app(app_id@),
            r is Err ==> *final(self) == *old(self) && r->Err_0.is_connection(),
            r is Ok ==> final(self).others_unchanged(old(self), app_id@) && final(self).has_app(app_id@)
                && (forall|c: Seq<char>, id: Seq<char>| #[trigger] final(self).namespace_of(app_id@).subscribed(c, id)
                    == (old(self).namespace_of(app_id@).subscribed(c, id) && id != socket_id@))
                && (forall|id: Seq<char>| #[trigger] final(self).namespace_of(app_id@).has_socket(id)
                    == (old(self).namespace_of(app_id@).has_socket(id) && id != socket_id@))
                && (forall|u: Seq<char>, id: Seq<char>| #[trigger] final(self).namespace_of(app_id@).user_has_socket(u, id)
                    == (old(self).namespace_of(app_id@).user_has_socket(u, id) && id != socket_id@)),
            r is Ok ==> departures_announced(old(self).namespace_of(app_id@), socket_id@, r->Ok_0@),
    {
        let i = match self.find_namespace(app_id) {
            Some(i) => i,
            None => {
                return Err(Error::Connection("Namespace not found".to_string()));
            },
        };
        let ghost old_spaces = self.namespaces@;
        proof { assert(old(self).namespace_of(app_id@) == old_spaces[i as int]); }
        let mut ns = self.namespaces.remove(i);
        let ghost ns0 = ns;
        assert(ns0 == old_spaces[i as int]);
        let events = ns.remove_connection(socket_id);
        proof {
            assert(old(self).namespace_of(app_id@) == ns0);
            assert(departures_announced(ns0, socket_id@, events@));
        }
        self.namespaces.insert(i, ns);
        proof {
            assert(old(self).spaces() == old_spaces);
            assert(self.namespaces@ == old_spaces.update(i as int, ns));
            assert(self.spaces() == self.namespaces@);
            assert forall|k: int| 0 <= k < self.namespaces@.len() implies (#[trigger] self.namespaces@[k]).wf() by {
                if k != i {
                    assert(self.namespaces@[k] == old_spaces[k]);
                }
            }
            lemma_replace_space(old_spaces, i as int, ns);
            lemma_grow_unchanged(old_spaces, old_spaces, i as int, app_id@);
            self.lemma_frame(old(self), old_spaces, old_spaces, i as int, ns, app_id@);
        }
        Ok(events)
    }

    /// The sockets of app `app_id` that a message on `channel` goes to (see
    /// `resolve_targets`); none for an app without a namespace.
    pub fn send_targets(&self, app_id: &String, channel: &String, except: Option<&String>) -> (r: Vec<String>)
        requires
            self.wf(),
        ensures
            seq_unique(r@),
            !self.has_app(app_id@) ==> r@.len() == 0,
            self.has_app(app_id@) && server_to_user_prefix().is_prefix_of(channel@) ==> forall|id: Seq<char>| #[trigger] seq_has(r@, id)
                == (self.namespace_of(app_id@).user_has_socket(server_to_user_id(channel@), id) && opt_view(except) != Some(id)),
            self.has_app(app_id@) && !server_to_user_prefix().is_prefix_of(channel@) ==> forall|id: Seq<char>| #[trigger] seq_has(r@, id)
                == (self.namespace_of(app_id@).subscribed(channel@, id) && opt_view(except) != Some(id)),
    {
        match self.find_namespace(app_id) {
            Some(i) => {
                proof { assert(self.spaces() == self.namespaces@); }
                resolve_targets(&self.namespaces[i], channel, except)
            },
            None => Vec::new(),
        }
    }

    /// The number of live sockets of app `app_id` on this node.
    pub fn get_sockets_count(&self, app_id: &String) -> (r: usize)
        requires
            self.wf(),
        ensures
            self.has_app(app_id@) ==> r == self.namespace_of(app_id@).live().len(),
            !self.has_app(app_id@) ==> r == 0,
    {
        match self.find_namespace(app_id) {
            Some(i) => {
                proof { assert(self.spaces() == self.namespaces@); }
                self.namespaces[i].get_sockets_count()
            },
            None => 0,
        }
    }

    proof fn lemma_frame(&self, old_self: &LocalAdapter, old_spaces: Seq<Namespace>, mid: Seq<Namespace>, i: int, ns: Namespace, app: Seq<char>)
        requires
            old_self.spaces() == old_spaces,
            spaces_unique(old_spaces),
            spaces_unique(mid),
            0 <= i < mid.len(),
            mid[i].spec_app_id() == app,
            ns.spec_app_id() == app,
            self.spaces() == mid.update(i, ns),
            forall|a: Seq<char>| #[trigger] has_space(mid, a) == (has_space(old_spaces, a) || a == app),
            forall|a: Seq<char>| a != app && has_space(old_spaces, a) ==> mid[space_index(mid, a)] == old_spaces[space_index(old_spaces, a)],
            self.spec_max_concurrent() == old_self.spec_max_concurrent(),
            self.permits() == old_self.permits(),
        ensures
            self.others_unchanged(old_self, app),
            self.has_app(app),
            self.namespace_of(app) == ns,
    {
        lemma_replace_space(mid, i, ns);
        let f = mid.update(i, ns);
        assert forall|a: Seq<char>| #[trigger] self.has_app(a) == (old_self.has_app(a) || a == app && self.has_app(a)) by {
            assert(has_space(f, a) == has_space(mid, a));
        }
        assert forall|a: Seq<char>| a != app && old_self.has_app(a) implies #[trigger] self.namespace_of(a) == old_self.namespace_of(a) by {
            assert(has_space(mid, a));
            assert(f[space_index(f, a)] == mid[space_index(mid, a)]);
        }
        assert(has_space(f, app)) by {
            assert(has_space(mid, app));
        }
    }


    /// 128 concurrent sends per CPU.
    pub fn new() -> (r: LocalAdapter)
        ensures
            r.wf(),
            r.spec_multiplier() == 128,
            r.spec_max_concurrent() >= 128,
            r.permits().in_flight() == 0,
            r.spaces().len() == 0,
    {
        Self::new_with_buffer_multiplier(128)
    }

    /// `max_concurrent = cpus × multiplier` (saturating).
    pub fn new_with_buffer_multiplier(multiplier: usize) -> (r: LocalAdapter)
        requires
            multiplier >= 1,
        ensures
            r.wf(),
            r.spec_multiplier() == multiplier,
            r.spec_max_concurrent() >= multiplier,
            exists|cpus: int| cpus >= 1 && #[trigger] saturating_product(cpus, multiplier as int) == r.spec_max_concurrent(),
            r.permits().in_flight() == 0,
            r.spaces().len() == 0,
    {
        let cpu_cores = cpu_count();
        let max_concurrent = match cpu_cores.checked_mul(multiplier) {
            Some(m) => m,
            None => usize::MAX,
        };
        proof {
            assert(cpu_cores * multiplier >= multiplier) by (nonlinear_arith)
                requires cpu_cores >= 1, multiplier >= 1;
            assert(saturating_product(cpu_cores as int, multiplier as int) == max_concurrent as int);
        }
        LocalAdapter {
            namespaces: Vec::new(),
            buffer_multiplier_per_cpu: multiplier,
            max_concurrent,
            broadcast_permits: PermitPool::new(max_concurrent),
        }
    }

    /// Sends in flight never exceed `max_concurrent`.
    pub proof fn lemma_in_flight_bounded(&self)
        requires
            self.wf(),
        ensures
            0 <= self.permits().in_flight() <= self.spec_max_concurrent(),
    {
    }

    /// Takes permits for a chunk of `n` sends, if free.
    pub fn acquire_chunk(&mut self, n: usize) -> (r: bool)
        requires
            old(self).wf(),
        ensures
            final(self).wf(),
            final(self).spec_max_concurrent() == old(self).spec_max_concurrent(),
            final(self).spaces() == old(self).spaces(),
            r == (n <= old(self).permits().spec_available()),
            r ==> final(self).permits().in_flight() == old(self).permits().in_flight() + n,
            !r ==> final(self).permits() == old(self).permits(),
    {
        self.broadcast_permits.try_acquire_many(n)
    }

    /// Returns the permits of a finished chunk.
    pub fn release_chunk(&mut self, n: usize)
        requires
            old(self).wf(),
            n <= old(self).permits().in_flight(),
        ensures
            final(self).wf(),
            final(self).spec_max_concurrent() == old(self).spec_max_concurrent(),
            final(self).spaces() == old(self).spaces(),
            final(self).permits().in_flight() == old(self).permits().in_flight() - n,
    {
        self.broadcast_permits.release(n)
    }
}

/// The chunk count and chunk size for fanning out to `socket_count` sockets.
pub fn chunk_plan(socket_count: usize, max_concurrent: usize) -> (r: (usize, usize))
    requires
        max_concurrent >= 1,
    ensures
        r.0 == spec_chunks(socket_count as int, max_concurrent as int),
        r.1 == spec_chunk_size(socket_count as int, max_concurrent as int),
        1 <= r.0 <= 8,
        1 <= r.1 <= max_concurrent,
{
    let q = socket_count / max_concurrent;
    let up = if socket_count % max_concurrent == 0 {
        q
    } else {
        assert(q < usize::MAX) by (nonlinear_arith)
            requires
                q == socket_count / max_concurrent,
                socket_count % max_concurrent != 0,
                max_concurrent >= 1,
        {
            assert(max_concurrent >= 2);
            assert(q <= socket_count / 2);
        }
        q + 1
    };
    proof {
        let n = socket_count as int;
        let d = max_concurrent as int;
        assert(ceil_div(n, d) == up) by (nonlinear_arith)
            requires
                d >= 1, n >= 0,
                q as int == n / d,
                up as int == (if n % d == 0 { q as int } else { q as int + 1 }),
        {
            assert(n == d * (n / d) + n % d);
            if n % d == 0 {
                assert((n + d - 1) == d * q + (d - 1));
            } else {
                assert((n + d - 1) == d * (q + 1) + (n % d - 1));
            }
        }
    }
    let chunks: usize = if up < 1 { 1 } else if up > 8 { 8 } else { up };
    let per = socket_count / chunks;
    let size: usize = if per < 1 { 1 } else if per > max_concurrent { max_concurrent } else { per };
    (chunks, size)
}

/// `[start, end)` ranges that cut `0..n` in order into pieces of at most
/// `chunk_size` (the last may be shorter); none for `n == 0`.
pub fn chunk_ranges(n: usize, chunk_size: usize) -> (r: Vec<(usize, usize)>)
    requires
        chunk_size >= 1,
    ensures
        n == 0 <==> r@.len() == 0,
        r@.len() > 0 ==> r@[0].0 == 0 && r@.last().1 == n,
        forall|k: int| 0 <= k < r@.len() ==> (#[trigger] r@[k]).0 < r@[k].1 && r@[k].1 - r@[k].0 <= chunk_size,
        forall|k: int| 0 <= k < r@.len() - 1 ==> (#[trigger] r@[k]).1 == r@[k + 1].0,
{
    let mut out: Vec<(usize, usize)> = Vec::new();
    let mut start: usize = 0;
    while start < n
        invariant
            start <= n,
            chunk_size >= 1,
            out@.len() == 0 <==> start == 0,
            out@.len() > 0 ==> out@[0].0 == 0 && out@.last().1 == start,
            forall|k: int| 0 <= k < out@.len() ==> (#[trigger] out@[k]).0 < out@[k].1 && out@[k].1 - out@[k].0 <= chunk_size,
            forall|k: int| 0 <= k < out@.len() - 1 ==> (#[trigger] out@[k]).1 == out@[k + 1].0,
        decreases n - start,
    {
        let end = if n - start > chunk_size { start + chunk_size } else { n };
        let ghost prev = out@;
        out.push((start, end));
        proof {
            assert forall|k: int| 0 <= k < out@.len() - 1 implies (#[trigger] out@[k]).1 == out@[k + 1].0 by {
                if k < prev.len() - 1 {
                    assert(out@[k] == prev[k] && out@[k + 1] == prev[k + 1]);
                } else {
                    assert(out@[k] == prev.last());
                }
            }
        }
        start = end;
    }
    out
}

/// The sockets that a message on `channel` goes to: for `#server-to-user-<uid>`
/// the sockets of user `uid`, otherwise the channel's subscribers; `except` is
/// left out while collecting. Each socket once.
pub fn resolve_targets(namespace: &Namespace, channel: &String, except: Option<&String>) -> (r: Vec<String>)
    requires
        namespace.wf(),
    ensures
        seq_unique(r@),
        server_to_user_prefix().is_prefix_of(channel@) ==> forall|id: Seq<char>| #[trigger] seq_has(r@, id)
            == (namespace.user_has_socket(server_to_user_id(channel@), id) && opt_view(except) != Some(id)),
        !server_to_user_prefix().is_prefix_of(channel@) ==> forall|id: Seq<char>| #[trigger] seq_has(r@, id)
            == (namespace.subscribed(channel@, id) && opt_view(except) != Some(id)),
{
    match server_to_user_target(channel.as_str()) {
        Some(user_id) => {
            let sockets = namespace.get_user_sockets(&user_id);
            let mut out: Vec<String> = Vec::new();
            let mut i: usize = 0;
            while i < sockets.len()
                invariant
                    i <= sockets@.len(),
                    seq_unique(sockets@),
                    out@.len() <= i,
                    forall|k: int| 0 <= k < out@.len() ==> exists|j: int| 0 <= j < i && #[trigger] sockets@[j]@ == (#[trigger] out@[k])@,
                    seq_unique(out@),
                    forall|k: int| 0 <= k < out@.len() ==> opt_view(except) != Some((#[trigger] out@[k])@),
                    forall|j: int| 0 <= j < i && opt_view(except) != Some((#[trigger] sockets@[j])@) ==> seq_has(out@, sockets@[j]@),
                decreases sockets@.len() - i,
            {
                let keep = match except {
                    Some(e) => sockets[i] != *e,
                    None => true,
                };
                if keep {
                    let ghost prev = out@;
                    proof {
                        assert forall|k: int| 0 <= k < prev.len() implies (#[trigger] prev[k])@ != sockets@[i as int]@ by {
                            let j = choose|j: int| 0 <= j < i && #[trigger] sockets@[j]@ == prev[k]@;
                        }
                    }
                    out.push(sockets[i].clone());
                    proof {
                        assert forall|k: int| 0 <= k < out@.len() implies exists|j: int| 0 <= j < i + 1 && #[trigger] sockets@[j]@ == (#[trigger] out@[k])@ by {
                            if k < prev.len() {
                                assert(out@[k] == prev[k]);
                                let j = choose|j: int| 0 <= j < i && #[trigger] sockets@[j]@ == prev[k]@;
                            } else {
                                assert(sockets@[i as int]@ == out@[k]@);
                            }
                        }
                        assert forall|j: int| 0 <= j < i + 1 && opt_view(except) != Some((#[trigger] sockets@[j])@) implies seq_has(out@, sockets@[j]@) by {
                            if j < i {
                                let k = choose|k: int| 0 <= k < prev.len() && (#[trigger] prev[k])@ == sockets@[j]@;
                                assert(out@[k] == prev[k]);
                            } else {
                                assert(out@[prev.len() as int]@ == sockets@[j]@);
                            }
                        }
                    }
                } else {
                    proof {
                        assert forall|k: int| 0 <= k < out@.len() implies exists|j: int| 0 <= j < i + 1 && #[trigger] sockets@[j]@ == (#[trigger] out@[k])@ by {
                            let j = choose|j: int| 0 <= j < i && #[trigger] sockets@[j]@ == out@[k]@;
                        }
                    }
                }
                i = i + 1;
            }
            proof {
                assert forall|id: Seq<char>| #[trigger] seq_has(out@, id)
                    == (namespace.user_has_socket(server_to_user_id(channel@), id) && opt_view(except) != Some(id)) by {
                    if seq_has(out@, id) {
                        let k = choose|k: int| 0 <= k < out@.len() && (#[trigger] out@[k])@ == id;
                        let j = choose|j: int| 0 <= j < i && #[trigger] sockets@[j]@ == out@[k]@;
                        assert(seq_has(sockets@, id));
                    }
                    if namespace.user_has_socket(server_to_user_id(channel@), id) && opt_view(except) != Some(id) {
                        assert(seq_has(sockets@, id));
                        let j = choose|j: int| 0 <= j < sockets@.len() && (#[trigger] sockets@[j])@ == id;
                    }
                }
            }
            out
        },
        None => namespace.get_channel_socket_refs_except(channel, except),
    }
}

} // verus!
