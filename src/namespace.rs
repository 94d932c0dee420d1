//! The per-app namespace index: live sockets, channel subscriptions (with the
//! presence member of each presence subscription) and the user index.
//!
//! Subscriptions are held as one relation of (channel, socket) pairs, so the
//! channel→sockets and socket→channels views are two readings of the same data.
use vstd::prelude::*;
use crate::error::Error;

verus! {

/// A presence channel member: its user id and the JSON text of its user info.
#[derive(Debug)]
pub struct PresenceMember {
    pub user_id: String,
    pub user_info: String,
}

impl PresenceMember {
    pub fn new(user_id: String, user_info: String) -> (r: PresenceMember)
        ensures
            r.user_id@ == user_id@,
            r.user_info@ == user_info@,
    {
        PresenceMember { user_id, user_info }
    }

    pub fn duplicate(&self) -> (r: PresenceMember)
        ensures
            r.user_id@ == self.user_id@,
            r.user_info@ == self.user_info@,
    {
        PresenceMember { user_id: self.user_id.clone(), user_info: self.user_info.clone() }
    }
}

/// One (channel, socket) subscription; presence subscriptions carry their member.
#[derive(Debug)]
pub struct Subscription {
    pub channel: String,
    pub socket_id: String,
    pub member: Option<PresenceMember>,
}

pub open spec fn is_pair(s: Subscription, c: Seq<char>, id: Seq<char>) -> bool {
    s.channel@ == c && s.socket_id@ == id
}

pub open spec fn has_pair(subs: Seq<Subscription>, c: Seq<char>, id: Seq<char>) -> bool {
    exists|i: int| 0 <= i < subs.len() && #[trigger] is_pair(subs[i], c, id)
}

pub open spec fn pairs_unique(subs: Seq<Subscription>) -> bool {
    forall|i: int, j: int|
        0 <= i < subs.len() && 0 <= j < subs.len() && i != j
            ==> !is_pair(#[trigger] subs[i], subs[j].channel@, #[trigger] subs[j].socket_id@)
}

pub open spec fn has_user(subs: Seq<Subscription>, c: Seq<char>, u: Seq<char>) -> bool {
    exists|i: int| 0 <= i < subs.len() && #[trigger] member_of(subs[i], c, u)
}

pub open spec fn member_of(s: Subscription, c: Seq<char>, u: Seq<char>) -> bool {
    s.channel@ == c && s.member is Some && s.member->Some_0.user_id@ == u
}

pub open spec fn seq_unique(v: Seq<String>) -> bool {
    forall|i: int, j: int| 0 <= i < v.len() && 0 <= j < v.len() && i != j ==> (#[trigger] v[i])@ != (#[trigger] v[j])@
}

pub open spec fn seq_has(v: Seq<String>, x: Seq<char>) -> bool {
    exists|i: int| 0 <= i < v.len() && (#[trigger] v[i])@ == x
}

/// A (user, socket) entry of the user index.
#[derive(Debug)]
pub struct UserSocket {
    pub user_id: String,
    pub socket_id: String,
}

pub open spec fn is_user_pair(e: UserSocket, u: Seq<char>, id: Seq<char>) -> bool {
    e.user_id@ == u && e.socket_id@ == id
}

pub open spec fn has_user_pair(v: Seq<UserSocket>, u: Seq<char>, id: Seq<char>) -> bool {
    exists|i: int| 0 <= i < v.len() && #[trigger] is_user_pair(v[i], u, id)
}

pub open spec fn user_pairs_unique(v: Seq<UserSocket>) -> bool {
    forall|i: int, j: int|
        0 <= i < v.len() && 0 <= j < v.len() && i != j
            ==> !is_user_pair(#[trigger] v[i], v[j].user_id@, #[trigger] v[j].socket_id@)
}

proof fn lemma_push_sub(old: Seq<Subscription>, x: Subscription)
    requires
        pairs_unique(old),
        !has_pair(old, x.channel@, x.socket_id@),
    ensures
        pairs_unique(old.push(x)),
        forall|c: Seq<char>, id: Seq<char>| #[trigger] has_pair(old.push(x), c, id) == (has_pair(old, c, id) || is_pair(x, c, id)),
        forall|c: Seq<char>, u: Seq<char>| #[trigger] has_user(old.push(x), c, u) == (has_user(old, c, u) || member_of(x, c, u)),
{
    let new = old.push(x);
    assert forall|c: Seq<char>, id: Seq<char>| #[trigger] has_pair(new, c, id) == (has_pair(old, c, id) || is_pair(x, c, id)) by {
        if has_pair(new, c, id) {
            let i = choose|i: int| 0 <= i < new.len() && #[trigger] is_pair(new[i], c, id);
            if i < old.len() {
                assert(is_pair(old[i], c, id));
            }
        }
        if has_pair(old, c, id) {
            let i = choose|i: int| 0 <= i < old.len() && #[trigger] is_pair(old[i], c, id);
            assert(is_pair(new[i], c, id));
        }
        if is_pair(x, c, id) {
            assert(is_pair(new[old.len() as int], c, id));
        }
    }
    assert forall|c: Seq<char>, u: Seq<char>| #[trigger] has_user(new, c, u) == (has_user(old, c, u) || member_of(x, c, u)) by {
        if has_user(new, c, u) {
            let i = choose|i: int| 0 <= i < new.len() && #[trigger] member_of(new[i], c, u);
            if i < old.len() {
                assert(member_of(old[i], c, u));
            }
        }
        if has_user(old, c, u) {
            let i = choose|i: int| 0 <= i < old.len() && #[trigger] member_of(old[i], c, u);
            assert(member_of(new[i], c, u));
        }
        if member_of(x, c, u) {
            assert(member_of(new[old.len() as int], c, u));
        }
    }
    assert forall|i: int, j: int|
        0 <= i < new.len() && 0 <= j < new.len() && i != j
            implies !is_pair(#[trigger] new[i], new[j].channel@, #[trigger] new[j].socket_id@) by {
        if i == old.len() {
            if is_pair(new[i], new[j].channel@, new[j].socket_id@) {
                assert(is_pair(old[j], x.channel@, x.socket_id@));
            }
        } else if j == old.len() {
            if is_pair(new[i], new[j].channel@, new[j].socket_id@) {
                assert(is_pair(old[i], x.channel@, x.socket_id@));
            }
        } else {
            assert(new[i] == old[i] && new[j] == old[j]);
        }
    }
}

proof fn lemma_remove_sub(old: Seq<Subscription>, k: int)
    requires
        pairs_unique(old),
        0 <= k < old.len(),
    ensures
        pairs_unique(old.remove(k)),
        forall|c: Seq<char>, id: Seq<char>| #[trigger] has_pair(old.remove(k), c, id) == (has_pair(old, c, id) && !is_pair(old[k], c, id)),
        forall|c: Seq<char>, u: Seq<char>| #[trigger] has_user(old.remove(k), c, u)
            == (exists|i: int| 0 <= i < old.len() && i != k && #[trigger] member_of(old[i], c, u)),
{
    let new = old.remove(k);
    assert forall|i: int| 0 <= i < new.len() implies #[trigger] new[i] == (if i < k { old[i] } else { old[i + 1] }) by {}
    assert forall|c: Seq<char>, id: Seq<char>| #[trigger] has_pair(new, c, id) == (has_pair(old, c, id) && !is_pair(old[k], c, id)) by {
        if has_pair(new, c, id) {
            let i = choose|i: int| 0 <= i < new.len() && #[trigger] is_pair(new[i], c, id);
            let oi = if i < k { i } else { i + 1 };
            assert(is_pair(old[oi], c, id));
            if is_pair(old[k], c, id) {
                assert(is_pair(old[oi], old[k].channel@, old[k].socket_id@));
            }
        }
        if has_pair(old, c, id) && !is_pair(old[k], c, id) {
            let i = choose|i: int| 0 <= i < old.len() && #[trigger] is_pair(old[i], c, id);
            let ni = if i < k { i } else { i - 1 };
            assert(is_pair(new[ni], c, id));
        }
    }
    assert forall|c: Seq<char>, u: Seq<char>| #[trigger] has_user(new, c, u)
        == (exists|i: int| 0 <= i < old.len() && i != k && #[trigger] member_of(old[i], c, u)) by {
        if has_user(new, c, u) {
            let i = choose|i: int| 0 <= i < new.len() && #[trigger] member_of(new[i], c, u);
            let oi = if i < k { i } else { i + 1 };
            assert(member_of(old[oi], c, u));
        }
        if exists|i: int| 0 <= i < old.len() && i != k && #[trigger] member_of(old[i], c, u) {
            let i = choose|i: int| 0 <= i < old.len() && i != k && #[trigger] member_of(old[i], c, u);
            let ni = if i < k { i } else { i - 1 };
            assert(member_of(new[ni], c, u));
        }
    }
    assert forall|i: int, j: int|
        0 <= i < new.len() && 0 <= j < new.len() && i != j
            implies !is_pair(#[trigger] new[i], new[j].channel@, #[trigger] new[j].socket_id@) by {
        let oi = if i < k { i } else { i + 1 };
        let oj = if j < k { j } else { j + 1 };
        assert(new[i] == old[oi] && new[j] == old[oj]);
    }
}

/// Some subscription to `c` has a member of user `u` with user info `info`.
pub open spec fn member_info_in(subs: Seq<Subscription>, c: Seq<char>, u: Seq<char>, info: Seq<char>) -> bool {
    exists|i: int| 0 <= i < subs.len() && #[trigger] member_of(subs[i], c, u) && subs[i].member->Some_0.user_info@ == info
}

/// Socket `id` holds a subscription to `c` whose member is user `u`.
pub open spec fn socket_member(subs: Seq<Subscription>, c: Seq<char>, id: Seq<char>, u: Seq<char>) -> bool {
    exists|i: int| 0 <= i < subs.len() && #[trigger] is_pair(subs[i], c, id) && member_of(subs[i], c, u)
}

/// Some socket other than `id` holds user `u`'s membership of `c`.
pub open spec fn member_elsewhere(subs: Seq<Subscription>, c: Seq<char>, u: Seq<char>, id: Seq<char>) -> bool {
    exists|x: Seq<char>| x != id && #[trigger] socket_member(subs, c, x, u)
}

proof fn lemma_remove_member(old: Seq<Subscription>, k: int)
    requires
        pairs_unique(old),
        0 <= k < old.len(),
    ensures
        forall|c: Seq<char>, x: Seq<char>, u: Seq<char>| #[trigger] socket_member(old.remove(k), c, x, u)
            == (socket_member(old, c, x, u) && !(c == old[k].channel@ && x == old[k].socket_id@)),
        forall|u: Seq<char>| #[trigger] socket_member(old, old[k].channel@, old[k].socket_id@, u)
            == member_of(old[k], old[k].channel@, u),
        forall|u: Seq<char>| #[trigger] has_user(old.remove(k), old[k].channel@, u)
            == member_elsewhere(old, old[k].channel@, u, old[k].socket_id@),
{
    let new = old.remove(k);
    let c0 = old[k].channel@;
    let id0 = old[k].socket_id@;
    assert forall|i: int| 0 <= i < new.len() implies #[trigger] new[i] == (if i < k { old[i] } else { old[i + 1] }) by {}
    assert forall|c: Seq<char>, x: Seq<char>, u: Seq<char>| #[trigger] socket_member(new, c, x, u)
        == (socket_member(old, c, x, u) && !(c == c0 && x == id0)) by {
        if socket_member(new, c, x, u) {
            let i = choose|i: int| 0 <= i < new.len() && #[trigger] is_pair(new[i], c, x) && member_of(new[i], c, u);
            let j = if i < k { i } else { i + 1 };
            assert(is_pair(old[j], c, x) && member_of(old[j], c, u));
            if c == c0 && x == id0 {
                assert(is_pair(old[j], old[k].channel@, old[k].socket_id@));
            }
        }
        if socket_member(old, c, x, u) && !(c == c0 && x == id0) {
            let j = choose|j: int| 0 <= j < old.len() && #[trigger] is_pair(old[j], c, x) && member_of(old[j], c, u);
            assert(j != k);
            let i = if j < k { j } else { j - 1 };
            assert(is_pair(new[i], c, x) && member_of(new[i], c, u));
        }
    }
    assert forall|u: Seq<char>| #[trigger] socket_member(old, c0, id0, u) == member_of(old[k], c0, u) by {
        if socket_member(old, c0, id0, u) {
            let j = choose|j: int| 0 <= j < old.len() && #[trigger] is_pair(old[j], c0, id0) && member_of(old[j], c0, u);
            if j != k {
                assert(is_pair(old[j], old[k].channel@, old[k].socket_id@));
            }
        }
        if member_of(old[k], c0, u) {
            assert(is_pair(old[k], c0, id0));
        }
    }
    assert forall|u: Seq<char>| #[trigger] has_user(new, c0, u) == member_elsewhere(old, c0, u, id0) by {
        if has_user(new, c0, u) {
            let i = choose|i: int| 0 <= i < new.len() && #[trigger] member_of(new[i], c0, u);
            let j = if i < k { i } else { i + 1 };
            let x = old[j].socket_id@;
            assert(is_pair(old[j], c0, x) && member_of(old[j], c0, u));
            if x == id0 {
                assert(is_pair(old[j], old[k].channel@, old[k].socket_id@));
            }
            assert(socket_member(old, c0, x, u));
        }
        if member_elsewhere(old, c0, u, id0) {
            let x = choose|x: Seq<char>| x != id0 && #[trigger] socket_member(old, c0, x, u);
            let j = choose|j: int| 0 <= j < old.len() && #[trigger] is_pair(old[j], c0, x) && member_of(old[j], c0, u);
            let i = if j < k { j } else { j - 1 };
            assert(member_of(new[i], c0, u));
        }
    }
}

proof fn lemma_count_channel_set(subs: Seq<Subscription>, c: Seq<char>)
    requires
        pairs_unique(subs),
    ensures
        Set::new(|id: Seq<char>| has_pair(subs, c, id)).finite(),
        Set::new(|id: Seq<char>| has_pair(subs, c, id)).len() == count_channel(subs, c),
    decreases subs.len(),
{
    let set = Set::new(|id: Seq<char>| has_pair(subs, c, id));
    if subs.len() == 0 {
        assert(set =~= Set::<Seq<char>>::empty());
    } else {
        let w = subs.drop_last();
        let x = subs.last();
        assert(pairs_unique(w)) by {
            assert forall|i: int, j: int| 0 <= i < w.len() && 0 <= j < w.len() && i != j
                implies !is_pair(#[trigger] w[i], w[j].channel@, #[trigger] w[j].socket_id@) by {
                assert(w[i] == subs[i] && w[j] == subs[j]);
            }
        }
        lemma_count_channel_set(w, c);
        let prev = Set::new(|id: Seq<char>| has_pair(w, c, id));
        assert forall|id: Seq<char>| #[trigger] has_pair(subs, c, id) == (has_pair(w, c, id) || is_pair(x, c, id)) by {
            if has_pair(subs, c, id) {
                let i = choose|i: int| 0 <= i < subs.len() && #[trigger] is_pair(subs[i], c, id);
                if i < w.len() {
                    assert(is_pair(w[i], c, id));
                }
            }
            if has_pair(w, c, id) {
                let i = choose|i: int| 0 <= i < w.len() && #[trigger] is_pair(w[i], c, id);
                assert(is_pair(subs[i], c, id));
            }
        }
        if x.channel@ == c {
            assert(set =~= prev.insert(x.socket_id@));
            assert(!prev.contains(x.socket_id@)) by {
                if has_pair(w, c, x.socket_id@) {
                    let i = choose|i: int| 0 <= i < w.len() && #[trigger] is_pair(w[i], c, x.socket_id@);
                    assert(is_pair(subs[i], subs[subs.len() - 1].channel@, subs[subs.len() - 1].socket_id@));
                }
            }
        } else {
            assert(set =~= prev);
        }
    }
}

/// Number of subscriptions to `c`.
pub open spec fn count_channel(subs: Seq<Subscription>, c: Seq<char>) -> nat
    decreases subs.len(),
{
    if subs.len() == 0 {
        0
    } else {
        count_channel(subs.drop_last(), c) + if subs.last().channel@ == c { 1nat } else { 0nat }
    }
}

/// Number of subscriptions to `c` whose member is user `u`, not counting socket `except`.
pub open spec fn count_user_in_channel(subs: Seq<Subscription>, c: Seq<char>, u: Seq<char>, except: Option<Seq<char>>) -> nat
    decreases subs.len(),
{
    if subs.len() == 0 {
        0
    } else {
        count_user_in_channel(subs.drop_last(), c, u, except) + if member_of(subs.last(), c, u)
            && except != Some(subs.last().socket_id@) { 1nat } else { 0nat }
    }
}

/// Some subscription before index `n` is the pair (`c`, `id`).
pub open spec fn pair_before(subs: Seq<Subscription>, n: int, c: Seq<char>, id: Seq<char>) -> bool {
    exists|j: int| 0 <= j < n && #[trigger] is_pair(subs[j], c, id)
}

/// Some user entry before index `n` is the pair (`u`, `id`).
pub open spec fn user_pair_before(v: Seq<UserSocket>, n: int, u: Seq<char>, id: Seq<char>) -> bool {
    exists|j: int| 0 <= j < n && #[trigger] is_user_pair(v[j], u, id)
}

pub open spec fn opt_view(o: Option<&String>) -> Option<Seq<char>> {
    match o {
        Some(s) => Some(s@),
        None => None,
    }
}

proof fn lemma_remove_user_pair(old: Seq<UserSocket>, k: int)
    requires
        user_pairs_unique(old),
        0 <= k < old.len(),
    ensures
        user_pairs_unique(old.remove(k)),
        forall|u: Seq<char>, id: Seq<char>| #[trigger] has_user_pair(old.remove(k), u, id) == (has_user_pair(old, u, id) && !is_user_pair(old[k], u, id)),
{
    let new = old.remove(k);
    assert forall|i: int| 0 <= i < new.len() implies #[trigger] new[i] == (if i < k { old[i] } else { old[i + 1] }) by {}
    assert forall|u: Seq<char>, id: Seq<char>| #[trigger] has_user_pair(new, u, id) == (has_user_pair(old, u, id) && !is_user_pair(old[k], u, id)) by {
        if has_user_pair(new, u, id) {
            let i = choose|i: int| 0 <= i < new.len() && #[trigger] is_user_pair(new[i], u, id);
            let oi = if i < k { i } else { i + 1 };
            assert(is_user_pair(old[oi], u, id));
            if is_user_pair(old[k], u, id) {
                assert(is_user_pair(old[oi], old[k].user_id@, old[k].socket_id@));
            }
        }
        if has_user_pair(old, u, id) && !is_user_pair(old[k], u, id) {
            let i = choose|i: int| 0 <= i < old.len() && #[trigger] is_user_pair(old[i], u, id);
            let ni = if i < k { i } else { i - 1 };
            assert(is_user_pair(new[ni], u, id));
        }
    }
    assert forall|i: int, j: int|
        0 <= i < new.len() && 0 <= j < new.len() && i != j
            implies !is_user_pair(#[trigger] new[i], new[j].user_id@, #[trigger] new[j].socket_id@) by {
        let oi = if i < k { i } else { i + 1 };
        let oj = if j < k { j } else { j + 1 };
        assert(new[i] == old[oi] && new[j] == old[oj]);
    }
}

proof fn lemma_remove_string(old: Seq<String>, k: int)
    requires
        seq_unique(old),
        0 <= k < old.len(),
    ensures
        seq_unique(old.remove(k)),
        forall|x: Seq<char>| #[trigger] seq_has(old.remove(k), x) == (seq_has(old, x) && old[k]@ != x),
{
    let new = old.remove(k);
    assert forall|i: int| 0 <= i < new.len() implies #[trigger] new[i] == (if i < k { old[i] } else { old[i + 1] }) by {}
    assert forall|x: Seq<char>| #[trigger] seq_has(new, x) == (seq_has(old, x) && old[k]@ != x) by {
        if seq_has(new, x) {
            let i = choose|i: int| 0 <= i < new.len() && (#[trigger] new[i])@ == x;
            let oi = if i < k { i } else { i + 1 };
            assert(old[oi]@ == x);
        }
        if seq_has(old, x) && old[k]@ != x {
            let i = choose|i: int| 0 <= i < old.len() && (#[trigger] old[i])@ == x;
            let ni = if i < k { i } else { i - 1 };
            assert(new[ni]@ == x);
        }
    }
    assert forall|i: int, j: int| 0 <= i < new.len() && 0 <= j < new.len() && i != j
        implies (#[trigger] new[i])@ != (#[trigger] new[j])@ by {
        let oi = if i < k { i } else { i + 1 };
        let oj = if j < k { j } else { j + 1 };
        assert(new[i] == old[oi] && new[j] == old[oj]);
    }
}

/// Channel `c` has an entry in a list of (channel, count) pairs.
pub open spec fn listed(v: Seq<(String, usize)>, c: Seq<char>) -> bool {
    exists|k: int| 0 <= k < v.len() && (#[trigger] v[k]).0@ == c
}

fn is_listed(v: &Vec<(String, usize)>, c: &String) -> (r: bool)
    ensures
        r == listed(v@, c@),
{
    let mut k: usize = 0;
    while k < v.len()
        invariant
            k <= v@.len(),
            forall|a: int| 0 <= a < k ==> (#[trigger] v@[a]).0@ != c@,
        decreases v@.len() - k,
    {
        if v[k].0 == *c {
            return true;
        }
        k = k + 1;
    }
    false
}

/// Every user entry names a live socket.
pub open spec fn users_live(users: Seq<UserSocket>, sockets: Seq<String>) -> bool {
    forall|i: int| 0 <= i < users.len() ==> seq_has(sockets, (#[trigger] users[i]).socket_id@)
}

/// The index of one app.
pub struct Namespace {
    app_id: String,
    sockets: Vec<String>,
    subscriptions: Vec<Subscription>,
    users: Vec<UserSocket>,
}

impl Namespace {
    /// The index is well formed: no socket, subscription or user entry twice.
    pub closed spec fn wf(&self) -> bool {
        &&& seq_unique(self.sockets@)
        &&& pairs_unique(self.subscriptions@)
        &&& user_pairs_unique(self.users@)
        &&& users_live(self.users@, self.sockets@)
    }

    pub closed spec fn spec_app_id(&self) -> Seq<char> {
        self.app_id@
    }

    pub fn app_id(&self) -> (r: &String)
        ensures
            r@ == self.spec_app_id(),
    {
        &self.app_id
    }

    pub closed spec fn subs(&self) -> Seq<Subscription> {
        self.subscriptions@
    }

    pub closed spec fn live(&self) -> Seq<String> {
        self.sockets@
    }

    pub closed spec fn user_entries(&self) -> Seq<UserSocket> {
        self.users@
    }

    /// `id` is subscribed to `c`.
    pub open spec fn subscribed(&self, c: Seq<char>, id: Seq<char>) -> bool {
        has_pair(self.subs(), c, id)
    }

    /// The sockets subscribed to `c`.
    pub open spec fn channel_sockets(&self, c: Seq<char>) -> Set<Seq<char>> {
        Set::new(|id: Seq<char>| self.subscribed(c, id))
    }

    /// The channels that `id` is subscribed to.
    pub open spec fn socket_channels(&self, id: Seq<char>) -> Set<Seq<char>> {
        Set::new(|c: Seq<char>| self.subscribed(c, id))
    }

    /// The distinct user ids among the members of presence channel `c`.
    pub open spec fn presence_user_ids(&self, c: Seq<char>) -> Set<Seq<char>> {
        Set::new(|u: Seq<char>| has_user(self.subs(), c, u))
    }

    /// Socket `id`'s membership of presence channel `c` is as user `u`.
    pub open spec fn member_user(&self, c: Seq<char>, id: Seq<char>, u: Seq<char>) -> bool {
        socket_member(self.subs(), c, id, u)
    }

    /// User `u` is a member of `c` through some socket other than `id`.
    pub open spec fn user_elsewhere(&self, c: Seq<char>, u: Seq<char>, id: Seq<char>) -> bool {
        member_elsewhere(self.subs(), c, u, id)
    }

    /// Some socket is subscribed to `c`.
    pub open spec fn occupied(&self, c: Seq<char>) -> bool {
        exists|id: Seq<char>| #[trigger] self.subscribed(c, id)
    }

    /// `id` is a live socket of this namespace.
    pub open spec fn has_socket(&self, id: Seq<char>) -> bool {
        seq_has(self.live(), id)
    }

    /// `id` is indexed under user `u`.
    pub open spec fn user_has_socket(&self, u: Seq<char>, id: Seq<char>) -> bool {
        has_user_pair(self.user_entries(), u, id)
    }

    pub fn new(app_id: String) -> (r: Namespace)
        ensures
            r.wf(),
            r.spec_app_id() == app_id@,
            forall|c: Seq<char>, id: Seq<char>| !r.subscribed(c, id),
            forall|id: Seq<char>| !r.has_socket(id),
            forall|u: Seq<char>, id: Seq<char>| !r.user_has_socket(u, id),
            forall|c: Seq<char>, u: Seq<char>| !r.presence_user_ids(c).contains(u),
    {
        Namespace { app_id, sockets: Vec::new(), subscriptions: Vec::new(), users: Vec::new() }
    }

    fn find_subscription(&self, channel: &String, socket_id: &String) -> (r: Option<usize>)
        ensures
            r.is_none() == !self.subscribed(channel@, socket_id@),
            r.is_some() ==> r.unwrap() < self.subs().len() && is_pair(self.subs()[r.unwrap() as int], channel@, socket_id@),
    {
        let mut i: usize = 0;
        while i < self.subscriptions.len()
            invariant
                i <= self.subscriptions@.len(),
                forall|j: int| 0 <= j < i ==> !is_pair(#[trigger] self.subscriptions@[j], channel@, socket_id@),
            decreases self.subscriptions@.len() - i,
        {
            let s = &self.subscriptions[i];
            if s.channel == *channel && s.socket_id == *socket_id {
                assert(is_pair(self.subscriptions@[i as int], channel@, socket_id@));
                return Some(i);
            }
            i = i + 1;
        }
        None
    }

    /// Subscribes `socket_id` to `channel`; idempotent. `true` iff newly added.
    pub fn add_to_channel(&mut self, channel: &String, socket_id: &String) -> (r: bool)
        requires
            old(self).wf(),
        ensures
            final(self).wf(),
            r == !old(self).subscribed(channel@, socket_id@),
            forall|c: Seq<char>, id: Seq<char>| #[trigger] final(self).subscribed(c, id)
                == (old(self).subscribed(c, id) || (c == channel@ && id == socket_id@)),
            forall|c: Seq<char>| #[trigger] final(self).presence_user_ids(c) == old(self).presence_user_ids(c),
            final(self).live() == old(self).live(),
            final(self).user_entries() == old(self).user_entries(),
            final(self).spec_app_id() == old(self).spec_app_id(),
    {
        self.add_subscription(channel, socket_id, None).0
    }

    /// Subscribes `socket_id` to presence channel `channel` as `member`.
    /// Returns whether the socket was newly added, and the user id to announce
    /// in `member_added`: present exactly when this is the user's first socket
    /// in the channel.
    pub fn join_presence(&mut self, channel: &String, socket_id: &String, member: PresenceMember) -> (r: (bool, Option<String>))
        requires
            old(self).wf(),
        ensures
            final(self).wf(),
            r.0 == !old(self).subscribed(channel@, socket_id@),
            forall|c: Seq<char>, id: Seq<char>| #[trigger] final(self).subscribed(c, id)
                == (old(self).subscribed(c, id) || (c == channel@ && id == socket_id@)),
            r.0 ==> final(self).presence_user_ids(channel@) == old(self).presence_user_ids(channel@).insert(member.user_id@),
            !r.0 ==> final(self).presence_user_ids(channel@) == old(self).presence_user_ids(channel@),
            r.1.is_some() == (r.0 && !old(self).presence_user_ids(channel@).contains(member.user_id@)),
            r.1.is_some() ==> r.1.unwrap()@ == member.user_id@,
            forall|c: Seq<char>| c != channel@ ==> #[trigger] final(self).presence_user_ids(c) == old(self).presence_user_ids(c),
            final(self).live() == old(self).live(),
            final(self).user_entries() == old(self).user_entries(),
            final(self).spec_app_id() == old(self).spec_app_id(),
    {
        self.add_subscription(channel, socket_id, Some(member))
    }

    fn user_in_channel(&self, channel: &String, user_id: &String) -> (r: bool)
        ensures
            r == has_user(self.subs(), channel@, user_id@),
    {
        let mut i: usize = 0;
        while i < self.subscriptions.len()
            invariant
                i <= self.subscriptions@.len(),
                forall|j: int| 0 <= j < i ==> !member_of(#[trigger] self.subscriptions@[j], channel@, user_id@),
            decreases self.subscriptions@.len() - i,
        {
            let s = &self.subscriptions[i];
            if s.channel == *channel {
                match &s.member {
                    Some(m) => {
                        if m.user_id == *user_id {
                            assert(member_of(self.subscriptions@[i as int], channel@, user_id@));
                            return true;
                        }
                    },
                    None => {},
                }
            }
            i = i + 1;
        }
        false
    }

    fn add_subscription(&mut self, channel: &String, socket_id: &String, member: Option<PresenceMember>) -> (r: (bool, Option<String>))
        requires
            old(self).wf(),
        ensures
            final(self).wf(),
            r.0 == !old(self).subscribed(channel@, socket_id@),
            forall|c: Seq<char>, id: Seq<char>| #[trigger] final(self).subscribed(c, id)
                == (old(self).subscribed(c, id) || (c == channel@ && id == socket_id@)),
            forall|c: Seq<char>, u: Seq<char>| #[trigger] has_user(final(self).subs(), c, u)
                == (has_user(old(self).subs(), c, u) || (r.0 && c == channel@ && member is Some && u == member->Some_0.user_id@)),
            r.1.is_some() == (r.0 && member is Some && !has_user(old(self).subs(), channel@, member->Some_0.user_id@)),
            r.1.is_some() ==> r.1.unwrap()@ == member->Some_0.user_id@,
            final(self).live() == old(self).live(),
            final(self).user_entries() == old(self).user_entries(),
            final(self).spec_app_id() == old(self).spec_app_id(),
    {
        if self.find_subscription(channel, socket_id).is_some() {
            return (false, None);
        }
        let announce = match &member {
            Some(m) => {
                if self.user_in_channel(channel, &m.user_id) {
                    None
                } else {
                    Some(m.user_id.clone())
                }
            },
            None => None,
        };
        let sub = Subscription { channel: channel.clone(), socket_id: socket_id.clone(), member };
        proof { lemma_push_sub(self.subscriptions@, sub); }
        self.subscriptions.push(sub);
        (true, announce)
    }

    /// Unsubscribes `socket_id` from `channel`; idempotent. Returns whether a
    /// subscription was removed, and the departing member when this was the
    /// last socket of that user in the channel (the `member_removed` to emit).
    pub fn remove_from_channel(&mut self, channel: &String, socket_id: &String) -> (r: (bool, Option<PresenceMember>, bool))
        requires
            old(self).wf(),
        ensures
            final(self).wf(),
            r.0 == old(self).subscribed(channel@, socket_id@),
            final(self).subs().len() == old(self).subs().len() - (if r.0 { 1int } else { 0int }),
            forall|c: Seq<char>, id: Seq<char>| #[trigger] final(self).subscribed(c, id)
                == (old(self).subscribed(c, id) && !(c == channel@ && id == socket_id@)),
            r.1.is_some() == exists|u: Seq<char>| #[trigger] old(self).member_user(channel@, socket_id@, u),
            r.1.is_some() ==> old(self).member_user(channel@, socket_id@, r.1->Some_0.user_id@),
            r.1.is_some() ==> forall|u: Seq<char>| #[trigger] old(self).member_user(channel@, socket_id@, u) ==> u == r.1->Some_0.user_id@,
            r.2 == (r.1.is_some() && !old(self).user_elsewhere(channel@, r.1->Some_0.user_id@, socket_id@)),
            forall|c: Seq<char>, x: Seq<char>, u: Seq<char>| #[trigger] final(self).member_user(c, x, u)
                == (old(self).member_user(c, x, u) && !(c == channel@ && x == socket_id@)),
            r.2 ==> old(self).presence_user_ids(channel@).contains(r.1->Some_0.user_id@),
            r.2 ==> final(self).presence_user_ids(channel@) == old(self).presence_user_ids(channel@).remove(r.1->Some_0.user_id@),
            !r.2 ==> final(self).presence_user_ids(channel@) == old(self).presence_user_ids(channel@),
            forall|c: Seq<char>| c != channel@ ==> #[trigger] final(self).presence_user_ids(c) == old(self).presence_user_ids(c),
            final(self).live() == old(self).live(),
            final(self).user_entries() == old(self).user_entries(),
            final(self).spec_app_id() == old(self).spec_app_id(),
    {
        let k = match self.find_subscription(channel, socket_id) {
            Some(k) => k,
            None => {
                proof {
                    assert forall|u: Seq<char>| !#[trigger] old(self).member_user(channel@, socket_id@, u) by {
                        if old(self).member_user(channel@, socket_id@, u) {
                            let j = choose|j: int| 0 <= j < self.subs().len() && #[trigger] is_pair(self.subs()[j], channel@, socket_id@)
                                && member_of(self.subs()[j], channel@, u);
                        }
                    }
                    assert(self.presence_user_ids(channel@) =~= old(self).presence_user_ids(channel@));
                }
                return (false, None, false);
            },
        };
        let ghost before = self.subscriptions@;
        proof {
            lemma_remove_sub(before, k as int);
            lemma_remove_member(before, k as int);
        }
        let sub = self.subscriptions.remove(k);
        assert(sub == before[k as int]);
        let Subscription { channel: _c, socket_id: _s, member } = sub;
        match member {
            Some(m) => {
                let still = self.user_in_channel(channel, &m.user_id);
                proof {
                    assert forall|c: Seq<char>, u: Seq<char>|
                        !(c == channel@ && u == m.user_id@) implies
                        #[trigger] has_user(self.subs(), c, u) == has_user(before, c, u) by {
                        if has_user(before, c, u) {
                            let i = choose|i: int| 0 <= i < before.len() && #[trigger] member_of(before[i], c, u);
                            assert(i != k);
                        }
                    }
                    assert(has_user(before, channel@, m.user_id@)) by {
                        assert(member_of(before[k as int], channel@, m.user_id@));
                    }
                }
                proof {
                    assert(member_of(before[k as int], channel@, m.user_id@));
                    assert forall|u: Seq<char>| #[trigger] old(self).member_user(channel@, socket_id@, u) implies u == m.user_id@ by {
                        assert(member_of(before[k as int], channel@, u));
                    }
                    assert(old(self).member_user(channel@, socket_id@, m.user_id@));
                }
                if still {
                    proof {
                        assert(self.presence_user_ids(channel@) =~= old(self).presence_user_ids(channel@));
                        assert forall|c: Seq<char>| c != channel@ implies #[trigger] self.presence_user_ids(c) == old(self).presence_user_ids(c) by {
                            assert(self.presence_user_ids(c) =~= old(self).presence_user_ids(c));
                        }
                    }
                    (true, Some(m), false)
                } else {
                    proof {
                        assert(self.presence_user_ids(channel@) =~= old(self).presence_user_ids(channel@).remove(m.user_id@));
                        assert forall|c: Seq<char>| c != channel@ implies #[trigger] self.presence_user_ids(c) == old(self).presence_user_ids(c) by {
                            assert(self.presence_user_ids(c) =~= old(self).presence_user_ids(c));
                        }
                    }
                    (true, Some(m), true)
                }
            },
            None => {
                proof {
                    assert forall|u: Seq<char>| !#[trigger] old(self).member_user(channel@, socket_id@, u) by {
                        assert(!member_of(before[k as int], channel@, u));
                    }
                    assert forall|c: Seq<char>, u: Seq<char>|
                        #[trigger] has_user(self.subs(), c, u) == has_user(before, c, u) by {
                        if has_user(before, c, u) {
                            let i = choose|i: int| 0 <= i < before.len() && #[trigger] member_of(before[i], c, u);
                            assert(i != k);
                        }
                    }
                    assert(self.presence_user_ids(channel@) =~= old(self).presence_user_ids(channel@));
                    assert forall|c: Seq<char>| c != channel@ implies #[trigger] self.presence_user_ids(c) == old(self).presence_user_ids(c) by {
                        assert(self.presence_user_ids(c) =~= old(self).presence_user_ids(c));
                    }
                }
                (true, None, false)
            },
        }
    }

    /// Whether `socket_id` is subscribed to `channel`.
    pub fn is_in_channel(&self, channel: &String, socket_id: &String) -> (r: bool)
        ensures
            r == self.subscribed(channel@, socket_id@),
    {
        self.find_subscription(channel, socket_id).is_some()
    }

    /// Snapshot of the sockets subscribed to `channel`, leaving out `except`;
    /// each socket once.
    pub fn get_channel_socket_refs_except(&self, channel: &String, except: Option<&String>) -> (r: Vec<String>)
        requires
            self.wf(),
        ensures
            seq_unique(r@),
            forall|id: Seq<char>| #[trigger] seq_has(r@, id) == (self.subscribed(channel@, id) && opt_view(except) != Some(id)),
    {
        let mut out: Vec<String> = Vec::new();
        let mut i: usize = 0;
        while i < self.subscriptions.len()
            invariant
                self.wf(),
                i <= self.subscriptions@.len(),
                seq_unique(out@),
                forall|k: int| 0 <= k < out@.len() ==> pair_before(self.subscriptions@, i as int, channel@, (#[trigger] out@[k])@),
                forall|k: int| 0 <= k < out@.len() ==> opt_view(except) != Some((#[trigger] out@[k])@),
                forall|j: int| 0 <= j < i && (#[trigger] self.subscriptions@[j]).channel@ == channel@
                    && opt_view(except) != Some(self.subscriptions@[j].socket_id@) ==> seq_has(out@, self.subscriptions@[j].socket_id@),
            decreases self.subscriptions@.len() - i,
        {
            let s = &self.subscriptions[i];
            let skip = match except {
                Some(e) => s.socket_id == *e,
                None => false,
            };
            if s.channel == *channel && !skip {
                let ghost prev = out@;
                proof {
                    assert forall|k: int| 0 <= k < prev.len() implies (#[trigger] prev[k])@ != s.socket_id@ by {
                        let j = choose|j: int| 0 <= j < i && #[trigger] is_pair(self.subscriptions@[j], channel@, prev[k]@);
                        assert(j != i);
                    }
                }
                out.push(s.socket_id.clone());
                proof {
                    assert(is_pair(self.subscriptions@[i as int], channel@, out@[prev.len() as int]@));
                    assert forall|k: int| 0 <= k < out@.len() implies pair_before(self.subscriptions@, i + 1, channel@, (#[trigger] out@[k])@) by {
                        if k < prev.len() {
                            assert(out@[k] == prev[k]);
                        }
                    }
                    assert forall|j: int| 0 <= j < i + 1 && (#[trigger] self.subscriptions@[j]).channel@ == channel@
                        && opt_view(except) != Some(self.subscriptions@[j].socket_id@) implies seq_has(out@, self.subscriptions@[j].socket_id@) by {
                        if j < i {
                            let k = choose|k: int| 0 <= k < prev.len() && (#[trigger] prev[k])@ == self.subscriptions@[j].socket_id@;
                            assert(out@[k] == prev[k]);
                        } else {
                            assert(out@[prev.len() as int]@ == self.subscriptions@[j].socket_id@);
                        }
                    }
                }
            } else {
                proof {
                    assert forall|k: int| 0 <= k < out@.len() implies pair_before(self.subscriptions@, i + 1, channel@, (#[trigger] out@[k])@) by {
                        assert(pair_before(self.subscriptions@, i as int, channel@, out@[k]@));
                        let j = choose|j: int| 0 <= j < i && #[trigger] is_pair(self.subscriptions@[j], channel@, out@[k]@);
                        assert(is_pair(self.subscriptions@[j], channel@, out@[k]@));
                    }
                }
            }
            i = i + 1;
        }
        proof {
            assert forall|id: Seq<char>| #[trigger] seq_has(out@, id) == (self.subscribed(channel@, id) && opt_view(except) != Some(id)) by {
                if seq_has(out@, id) {
                    let k = choose|k: int| 0 <= k < out@.len() && (#[trigger] out@[k])@ == id;
                    let j = choose|j: int| 0 <= j < i && #[trigger] is_pair(self.subscriptions@[j], channel@, out@[k]@);
                }
                if self.subscribed(channel@, id) && opt_view(except) != Some(id) {
                    let j = choose|j: int| 0 <= j < self.subscriptions@.len() && #[trigger] is_pair(self.subscriptions@[j], channel@, id);
                }
            }
        }
        out
    }

    /// Snapshot of the sockets subscribed to `channel`, each once.
    pub fn get_channel_sockets(&self, channel: &String) -> (r: Vec<String>)
        requires
            self.wf(),
        ensures
            seq_unique(r@),
            forall|id: Seq<char>| #[trigger] seq_has(r@, id) == self.subscribed(channel@, id),
    {
        self.get_channel_socket_refs_except(channel, None)
    }

    /// The number of sockets subscribed to `channel`.
    pub fn get_channel_socket_count(&self, channel: &String) -> (r: usize)
        ensures
            r == count_channel(self.subs(), channel@),
    {
        let mut n: usize = 0;
        let mut i: usize = 0;
        while i < self.subscriptions.len()
            invariant
                i <= self.subscriptions@.len(),
                n <= i,
                n == count_channel(self.subscriptions@.take(i as int), channel@),
            decreases self.subscriptions@.len() - i,
        {
            proof {
                assert(self.subscriptions@.take(i + 1).drop_last() =~= self.subscriptions@.take(i as int));
            }
            if self.subscriptions[i].channel == *channel {
                n = n + 1;
            }
            i = i + 1;
        }
        assert(self.subscriptions@.take(i as int) =~= self.subscriptions@);
        n
    }

    /// The number of sockets of user `user_id` among the members of `channel`,
    /// not counting `excluding_socket`.
    pub fn count_user_connections_in_channel(&self, user_id: &String, channel: &String, excluding_socket: Option<&String>) -> (r: usize)
        ensures
            r == count_user_in_channel(self.subs(), channel@, user_id@, opt_view(excluding_socket)),
    {
        let mut n: usize = 0;
        let mut i: usize = 0;
        while i < self.subscriptions.len()
            invariant
                i <= self.subscriptions@.len(),
                n <= i,
                n == count_user_in_channel(self.subscriptions@.take(i as int), channel@, user_id@, opt_view(excluding_socket)),
            decreases self.subscriptions@.len() - i,
        {
            proof {
                assert(self.subscriptions@.take(i + 1).drop_last() =~= self.subscriptions@.take(i as int));
            }
            let s = &self.subscriptions[i];
            let excluded = match excluding_socket {
                Some(e) => s.socket_id == *e,
                None => false,
            };
            if s.channel == *channel && !excluded {
                match &s.member {
                    Some(m) => {
                        if m.user_id == *user_id {
                            n = n + 1;
                        }
                    },
                    None => {},
                }
            }
            i = i + 1;
        }
        assert(self.subscriptions@.take(i as int) =~= self.subscriptions@);
        n
    }

    /// The channels that `socket_id` is subscribed to.
    pub fn get_socket_channels(&self, socket_id: &String) -> (r: Vec<String>)
        ensures
            forall|c: Seq<char>| #[trigger] seq_has(r@, c) == self.subscribed(c, socket_id@),
    {
        let mut out: Vec<String> = Vec::new();
        let mut i: usize = 0;
        while i < self.subscriptions.len()
            invariant
                i <= self.subscriptions@.len(),
                forall|k: int| 0 <= k < out@.len() ==> pair_before(self.subscriptions@, i as int, (#[trigger] out@[k])@, socket_id@),
                forall|j: int| 0 <= j < i && (#[trigger] self.subscriptions@[j]).socket_id@ == socket_id@
                    ==> seq_has(out@, self.subscriptions@[j].channel@),
            decreases self.subscriptions@.len() - i,
        {
            let s = &self.subscriptions[i];
            if s.socket_id == *socket_id {
                let ghost prev = out@;
                out.push(s.channel.clone());
                proof {
                    assert(is_pair(self.subscriptions@[i as int], out@[prev.len() as int]@, socket_id@));
                    assert forall|k: int| 0 <= k < out@.len() implies pair_before(self.subscriptions@, i + 1, (#[trigger] out@[k])@, socket_id@) by {
                        if k < prev.len() {
                            assert(out@[k] == prev[k]);
                        }
                    }
                    assert forall|j: int| 0 <= j < i + 1 && (#[trigger] self.subscriptions@[j]).socket_id@ == socket_id@
                        implies seq_has(out@, self.subscriptions@[j].channel@) by {
                        if j < i {
                            let k = choose|k: int| 0 <= k < prev.len() && (#[trigger] prev[k])@ == self.subscriptions@[j].channel@;
                            assert(out@[k] == prev[k]);
                        } else {
                            assert(out@[prev.len() as int]@ == self.subscriptions@[j].channel@);
                        }
                    }
                }
            } else {
                proof {
                    assert forall|k: int| 0 <= k < out@.len() implies pair_before(self.subscriptions@, i + 1, (#[trigger] out@[k])@, socket_id@) by {
                        assert(pair_before(self.subscriptions@, i as int, out@[k]@, socket_id@));
                        let j = choose|j: int| 0 <= j < i && #[trigger] is_pair(self.subscriptions@[j], out@[k]@, socket_id@);
                        assert(is_pair(self.subscriptions@[j], out@[k]@, socket_id@));
                    }
                }
            }
            i = i + 1;
        }
        proof {
            assert forall|c: Seq<char>| #[trigger] seq_has(out@, c) == self.subscribed(c, socket_id@) by {
                if seq_has(out@, c) {
                    let k = choose|k: int| 0 <= k < out@.len() && (#[trigger] out@[k])@ == c;
                    let j = choose|j: int| 0 <= j < i && #[trigger] is_pair(self.subscriptions@[j], out@[k]@, socket_id@);
                }
                if self.subscribed(c, socket_id@) {
                    let j = choose|j: int| 0 <= j < self.subscriptions@.len() && #[trigger] is_pair(self.subscriptions@[j], c, socket_id@);
                }
            }
        }
        out
    }

    fn find_socket(&self, socket_id: &String) -> (r: Option<usize>)
        ensures
            r.is_none() == !self.has_socket(socket_id@),
            r.is_some() ==> r.unwrap() < self.live().len() && self.live()[r.unwrap() as int]@ == socket_id@,
    {
        let mut i: usize = 0;
        while i < self.sockets.len()
            invariant
                i <= self.sockets@.len(),
                forall|j: int| 0 <= j < i ==> (#[trigger] self.sockets@[j])@ != socket_id@,
            decreases self.sockets@.len() - i,
        {
            if self.sockets[i] == *socket_id {
                return Some(i);
            }
            i = i + 1;
        }
        None
    }

    /// Registers a live socket; fails if the id is already present.
    pub fn add_socket(&mut self, socket_id: &String) -> (r: Result<(), Error>)
        requires
            old(self).wf(),
        ensures
            final(self).wf(),
            r is Err == old(self).has_socket(socket_id@),
            r is Err ==> r->Err_0.is_connection(),
            forall|id: Seq<char>| #[trigger] final(self).has_socket(id) == (old(self).has_socket(id) || id == socket_id@),
            final(self).subs() == old(self).subs(),
            final(self).user_entries() == old(self).user_entries(),
            final(self).spec_app_id() == old(self).spec_app_id(),
    {
        if self.find_socket(socket_id).is_some() {
            return Err(Error::Connection("Socket already registered".to_string()));
        }
        let ghost before = self.sockets@;
        self.sockets.push(socket_id.clone());
        proof {
            let new = self.sockets@;
            assert forall|id: Seq<char>| #[trigger] seq_has(new, id) == (seq_has(before, id) || id == socket_id@) by {
                if seq_has(new, id) {
                    let i = choose|i: int| 0 <= i < new.len() && (#[trigger] new[i])@ == id;
                    if i < before.len() {
                        assert(before[i]@ == id);
                    }
                }
                if seq_has(before, id) {
                    let i = choose|i: int| 0 <= i < before.len() && (#[trigger] before[i])@ == id;
                    assert(new[i]@ == id);
                }
                if id == socket_id@ {
                    assert(new[before.len() as int]@ == id);
                }
            }
            assert forall|i: int, j: int| 0 <= i < new.len() && 0 <= j < new.len() && i != j
                implies (#[trigger] new[i])@ != (#[trigger] new[j])@ by {
                if i == before.len() {
                    assert(new[j] == before[j]);
                } else if j == before.len() {
                    assert(new[i] == before[i]);
                } else {
                    assert(new[i] == before[i] && new[j] == before[j]);
                }
            }
        }
        Ok(())
    }

    fn find_socket_subscription(&self, socket_id: &String) -> (r: Option<usize>)
        ensures
            r.is_none() ==> forall|c: Seq<char>| !self.subscribed(c, socket_id@),
            r.is_some() ==> r.unwrap() < self.subs().len() && self.subs()[r.unwrap() as int].socket_id@ == socket_id@,
    {
        let mut i: usize = 0;
        while i < self.subscriptions.len()
            invariant
                i <= self.subscriptions@.len(),
                forall|j: int| 0 <= j < i ==> (#[trigger] self.subscriptions@[j]).socket_id@ != socket_id@,
            decreases self.subscriptions@.len() - i,
        {
            if self.subscriptions[i].socket_id == *socket_id {
                return Some(i);
            }
            i = i + 1;
        }
        None
    }

    fn find_user_entry_of_socket(&self, socket_id: &String) -> (r: Option<usize>)
        ensures
            r.is_none() ==> forall|u: Seq<char>| !self.user_has_socket(u, socket_id@),
            r.is_some() ==> r.unwrap() < self.user_entries().len() && self.user_entries()[r.unwrap() as int].socket_id@ == socket_id@,
    {
        let mut i: usize = 0;
        while i < self.users.len()
            invariant
                i <= self.users@.len(),
                forall|j: int| 0 <= j < i ==> (#[trigger] self.users@[j]).socket_id@ != socket_id@,
            decreases self.users@.len() - i,
        {
            if self.users[i].socket_id == *socket_id {
                return Some(i);
            }
            i = i + 1;
        }
        None
    }

    fn find_user_entry(&self, user_id: &String, socket_id: &String) -> (r: Option<usize>)
        ensures
            r.is_none() == !self.user_has_socket(user_id@, socket_id@),
            r.is_some() ==> r.unwrap() < self.user_entries().len() && is_user_pair(self.user_entries()[r.unwrap() as int], user_id@, socket_id@),
    {
        let mut i: usize = 0;
        while i < self.users.len()
            invariant
                i <= self.users@.len(),
                forall|j: int| 0 <= j < i ==> !is_user_pair(#[trigger] self.users@[j], user_id@, socket_id@),
            decreases self.users@.len() - i,
        {
            if self.users[i].user_id == *user_id && self.users[i].socket_id == *socket_id {
                assert(is_user_pair(self.users@[i as int], user_id@, socket_id@));
                return Some(i);
            }
            i = i + 1;
        }
        None
    }

    /// Indexes live socket `socket_id` under `user_id`; idempotent. `true` iff
    /// newly added; a socket that is not live is not indexed.
    pub fn add_user(&mut self, user_id: &String, socket_id: &String) -> (r: bool)
        requires
            old(self).wf(),
        ensures
            final(self).wf(),
            r == (old(self).has_socket(socket_id@) && !old(self).user_has_socket(user_id@, socket_id@)),
            forall|u: Seq<char>, id: Seq<char>| #[trigger] final(self).user_has_socket(u, id)
                == (old(self).user_has_socket(u, id) || (r && u == user_id@ && id == socket_id@)),
            final(self).subs() == old(self).subs(),
            final(self).live() == old(self).live(),
            final(self).spec_app_id() == old(self).spec_app_id(),
    {
        if self.find_user_entry(user_id, socket_id).is_some() || self.find_socket(socket_id).is_none() {
            return false;
        }
        let ghost before = self.users@;
        let e = UserSocket { user_id: user_id.clone(), socket_id: socket_id.clone() };
        self.users.push(e);
        proof {
            let new = self.users@;
            assert forall|i: int| 0 <= i < new.len() implies seq_has(self.sockets@, (#[trigger] new[i]).socket_id@) by {
                if i < before.len() {
                    assert(new[i] == before[i]);
                }
            }
            assert forall|u: Seq<char>, id: Seq<char>| #[trigger] has_user_pair(new, u, id)
                == (has_user_pair(before, u, id) || (u == user_id@ && id == socket_id@)) by {
                if has_user_pair(new, u, id) {
                    let i = choose|i: int| 0 <= i < new.len() && #[trigger] is_user_pair(new[i], u, id);
                    if i < before.len() {
                        assert(is_user_pair(before[i], u, id));
                    }
                }
                if has_user_pair(before, u, id) {
                    let i = choose|i: int| 0 <= i < before.len() && #[trigger] is_user_pair(before[i], u, id);
                    assert(is_user_pair(new[i], u, id));
                }
                if u == user_id@ && id == socket_id@ {
                    assert(is_user_pair(new[before.len() as int], u, id));
                }
            }
            assert forall|i: int, j: int|
                0 <= i < new.len() && 0 <= j < new.len() && i != j
                    implies !is_user_pair(#[trigger] new[i], new[j].user_id@, #[trigger] new[j].socket_id@) by {
                if i == before.len() {
                    if is_user_pair(new[i], new[j].user_id@, new[j].socket_id@) {
                        assert(is_user_pair(before[j], user_id@, socket_id@));
                    }
                } else if j == before.len() {
                    if is_user_pair(new[i], new[j].user_id@, new[j].socket_id@) {
                        assert(is_user_pair(before[i], user_id@, socket_id@));
                    }
                } else {
                    assert(new[i] == before[i] && new[j] == before[j]);
                }
            }
        }
        true
    }

    /// Removes `socket_id` from the sockets of `user_id`; idempotent. A user
    /// with no socket left has no entry. `true` iff an entry was removed.
    pub fn remove_user(&mut self, user_id: &String, socket_id: &String) -> (r: bool)
        requires
            old(self).wf(),
        ensures
            final(self).wf(),
            r == old(self).user_has_socket(user_id@, socket_id@),
            forall|u: Seq<char>, id: Seq<char>| #[trigger] final(self).user_has_socket(u, id)
                == (old(self).user_has_socket(u, id) && !(u == user_id@ && id == socket_id@)),
            final(self).subs() == old(self).subs(),
            final(self).live() == old(self).live(),
            final(self).spec_app_id() == old(self).spec_app_id(),
    {
        match self.find_user_entry(user_id, socket_id) {
            Some(k) => {
                proof { lemma_remove_user_pair(self.users@, k as int); }
                self.users.remove(k);
                true
            },
            None => false,
        }
    }

    /// Snapshot of the sockets indexed under `user_id`, each once.
    pub fn get_user_sockets(&self, user_id: &String) -> (r: Vec<String>)
        requires
            self.wf(),
        ensures
            seq_unique(r@),
            forall|id: Seq<char>| #[trigger] seq_has(r@, id) == self.user_has_socket(user_id@, id),
    {
        let mut out: Vec<String> = Vec::new();
        let mut i: usize = 0;
        while i < self.users.len()
            invariant
                self.wf(),
                i <= self.users@.len(),
                seq_unique(out@),
                forall|k: int| 0 <= k < out@.len() ==> user_pair_before(self.users@, i as int, user_id@, (#[trigger] out@[k])@),
                forall|j: int| 0 <= j < i && (#[trigger] self.users@[j]).user_id@ == user_id@
                    ==> seq_has(out@, self.users@[j].socket_id@),
            decreases self.users@.len() - i,
        {
            let e = &self.users[i];
            if e.user_id == *user_id {
                let ghost prev = out@;
                proof {
                    assert forall|k: int| 0 <= k < prev.len() implies (#[trigger] prev[k])@ != e.socket_id@ by {
                        assert(user_pair_before(self.users@, i as int, user_id@, prev[k]@));
                        let j = choose|j: int| 0 <= j < i && #[trigger] is_user_pair(self.users@[j], user_id@, prev[k]@);
                        assert(j != i);
                    }
                }
                out.push(e.socket_id.clone());
                proof {
                    assert(is_user_pair(self.users@[i as int], user_id@, out@[prev.len() as int]@));
                    assert forall|k: int| 0 <= k < out@.len() implies user_pair_before(self.users@, i + 1, user_id@, (#[trigger] out@[k])@) by {
                        if k < prev.len() {
                            assert(out@[k] == prev[k]);
                            assert(user_pair_before(self.users@, i as int, user_id@, prev[k]@));
                            let j = choose|j: int| 0 <= j < i && #[trigger] is_user_pair(self.users@[j], user_id@, prev[k]@);
                            assert(is_user_pair(self.users@[j], user_id@, out@[k]@));
                        } else {
                            assert(is_user_pair(self.users@[i as int], user_id@, out@[k]@));
                        }
                    }
                    assert forall|j: int| 0 <= j < i + 1 && (#[trigger] self.users@[j]).user_id@ == user_id@
                        implies seq_has(out@, self.users@[j].socket_id@) by {
                        if j < i {
                            let k = choose|k: int| 0 <= k < prev.len() && (#[trigger] prev[k])@ == self.users@[j].socket_id@;
                            assert(out@[k] == prev[k]);
                        } else {
                            assert(out@[prev.len() as int]@ == self.users@[j].socket_id@);
                        }
                    }
                }
            } else {
                proof {
                    assert forall|k: int| 0 <= k < out@.len() implies user_pair_before(self.users@, i + 1, user_id@, (#[trigger] out@[k])@) by {
                        assert(user_pair_before(self.users@, i as int, user_id@, out@[k]@));
                        let j = choose|j: int| 0 <= j < i && #[trigger] is_user_pair(self.users@[j], user_id@, out@[k]@);
                        assert(is_user_pair(self.users@[j], user_id@, out@[k]@));
                    }
                }
            }
            i = i + 1;
        }
        proof {
            assert forall|id: Seq<char>| #[trigger] seq_has(out@, id) == self.user_has_socket(user_id@, id) by {
                if seq_has(out@, id) {
                    let k = choose|k: int| 0 <= k < out@.len() && (#[trigger] out@[k])@ == id;
                    assert(user_pair_before(self.users@, i as int, user_id@, out@[k]@));
                    let j = choose|j: int| 0 <= j < i && #[trigger] is_user_pair(self.users@[j], user_id@, out@[k]@);
                    assert(is_user_pair(self.users@[j], user_id@, id));
                }
                if self.user_has_socket(user_id@, id) {
                    let j = choose|j: int| 0 <= j < self.users@.len() && #[trigger] is_user_pair(self.users@[j], user_id@, id);
                }
            }
        }
        out
    }

    /// Drops a socket and everything indexed under it: its subscriptions and
    /// its user entries. Returns the (channel, member) pairs for which this
    /// was the user's last socket in a presence channel: the `member_removed`
    /// events to emit.
    pub fn remove_connection(&mut self, socket_id: &String) -> (r: Vec<(String, PresenceMember)>)
        requires
            old(self).wf(),
        ensures
            final(self).wf(),
            forall|id: Seq<char>| #[trigger] final(self).has_socket(id) == (old(self).has_socket(id) && id != socket_id@),
            forall|c: Seq<char>, id: Seq<char>| #[trigger] final(self).subscribed(c, id)
                == (old(self).subscribed(c, id) && id != socket_id@),
            forall|u: Seq<char>, id: Seq<char>| #[trigger] final(self).user_has_socket(u, id)
                == (old(self).user_has_socket(u, id) && id != socket_id@),
            forall|k: int| 0 <= k < r@.len() ==> old(self).subscribed((#[trigger] r@[k]).0@, socket_id@),
            departures_announced(*old(self), socket_id@, r@),
            final(self).spec_app_id() == old(self).spec_app_id(),
    {
        let mut events: Vec<(String, PresenceMember)> = Vec::new();
        loop
            invariant
                self.wf(),
                self.live() == old(self).live(),
                self.user_entries() == old(self).user_entries(),
                self.spec_app_id() == old(self).spec_app_id(),
                forall|c: Seq<char>, id: Seq<char>| id != socket_id@ ==> (#[trigger] self.subscribed(c, id) == old(self).subscribed(c, id)),
                forall|c: Seq<char>| #[trigger] self.subscribed(c, socket_id@) ==> old(self).subscribed(c, socket_id@),
                forall|k: int| 0 <= k < events@.len() ==> old(self).subscribed((#[trigger] events@[k]).0@, socket_id@),
                forall|c: Seq<char>, x: Seq<char>, u: Seq<char>| x != socket_id@ ==> (#[trigger] self.member_user(c, x, u) == old(self).member_user(c, x, u)),
                forall|c: Seq<char>, u: Seq<char>| #[trigger] self.member_user(c, socket_id@, u) ==> old(self).member_user(c, socket_id@, u),
                forall|k: int| 0 <= k < events@.len() ==> old(self).member_user((#[trigger] events@[k]).0@, socket_id@, events@[k].1.user_id@)
                    && !old(self).user_elsewhere(events@[k].0@, events@[k].1.user_id@, socket_id@),
                forall|c: Seq<char>, u: Seq<char>| #[trigger] old(self).member_user(c, socket_id@, u) && !old(self).user_elsewhere(c, u, socket_id@)
                    && !self.member_user(c, socket_id@, u)
                    ==> exists|k: int| 0 <= k < events@.len() && (#[trigger] events@[k]).0@ == c && events@[k].1.user_id@ == u,
            ensures
                forall|c: Seq<char>| !#[trigger] self.subscribed(c, socket_id@),
            decreases self.subs().len(),
        {
            match self.find_socket_subscription(socket_id) {
                Some(k) => {
                    let channel = self.subscriptions[k].channel.clone();
                    assert(is_pair(self.subs()[k as int], channel@, socket_id@));
                    let ghost cur = *self;
                    let ghost prev_events = events@;
                    proof {
                        assert forall|u: Seq<char>| #[trigger] cur.user_elsewhere(channel@, u, socket_id@) == old(self).user_elsewhere(channel@, u, socket_id@) by {
                            if cur.user_elsewhere(channel@, u, socket_id@) {
                                let x = choose|x: Seq<char>| x != socket_id@ && #[trigger] socket_member(cur.subs(), channel@, x, u);
                                assert(cur.member_user(channel@, x, u));
                            }
                            if old(self).user_elsewhere(channel@, u, socket_id@) {
                                let x = choose|x: Seq<char>| x != socket_id@ && #[trigger] socket_member(old(self).subs(), channel@, x, u);
                                assert(old(self).member_user(channel@, x, u));
                                assert(cur.member_user(channel@, x, u));
                            }
                        }
                    }
                    let (_, gone, announce) = self.remove_from_channel(&channel, socket_id);
                    if announce {
                        match gone {
                            Some(m) => {
                                events.push((channel, m));
                            },
                            None => {},
                        }
                    }
                    proof {
                        assert forall|k2: int| 0 <= k2 < events@.len() implies old(self).member_user((#[trigger] events@[k2]).0@, socket_id@, events@[k2].1.user_id@)
                            && !old(self).user_elsewhere(events@[k2].0@, events@[k2].1.user_id@, socket_id@) by {
                            if k2 < prev_events.len() {
                                assert(events@[k2] == prev_events[k2]);
                            }
                        }
                        assert forall|k2: int| 0 <= k2 < events@.len() implies old(self).subscribed((#[trigger] events@[k2]).0@, socket_id@) by {
                            if k2 < prev_events.len() {
                                assert(events@[k2] == prev_events[k2]);
                            }
                        }
                        assert forall|c: Seq<char>, u: Seq<char>| #[trigger] old(self).member_user(c, socket_id@, u) && !old(self).user_elsewhere(c, u, socket_id@)
                            && !self.member_user(c, socket_id@, u)
                            implies exists|k2: int| 0 <= k2 < events@.len() && (#[trigger] events@[k2]).0@ == c && events@[k2].1.user_id@ == u by {
                            if cur.member_user(c, socket_id@, u) {
                                assert(c == channel@);
                                assert(!cur.user_elsewhere(c, u, socket_id@));
                                assert(gone is Some);
                                let u2 = gone->Some_0.user_id@;
                                assert(u == u2);
                                assert(announce);
                                assert(events@[prev_events.len() as int].0@ == c);
                            } else {
                                let k3 = choose|k3: int| 0 <= k3 < prev_events.len() && (#[trigger] prev_events[k3]).0@ == c && prev_events[k3].1.user_id@ == u;
                                assert(events@[k3] == prev_events[k3]);
                            }
                        }
                    }
                },
                None => {
                    break;
                },
            }
        }
        proof {
            assert forall|c: Seq<char>, u: Seq<char>| #[trigger] old(self).member_user(c, socket_id@, u) && !old(self).user_elsewhere(c, u, socket_id@)
                implies exists|k: int| 0 <= k < events@.len() && (#[trigger] events@[k]).0@ == c && events@[k].1.user_id@ == u by {
                if self.member_user(c, socket_id@, u) {
                    let i = choose|i: int| 0 <= i < self.subs().len() && #[trigger] is_pair(self.subs()[i], c, socket_id@)
                        && member_of(self.subs()[i], c, u);
                    assert(self.subscribed(c, socket_id@));
                }
            }
        }
        let ghost subs_mid = self.subs();
        let ghost users0 = self.users@;
        proof {
            assert forall|c: Seq<char>, id: Seq<char>| #[trigger] has_pair(subs_mid, c, id)
                == (old(self).subscribed(c, id) && id != socket_id@) by {
                assert(self.subscribed(c, id) == has_pair(subs_mid, c, id));
            }
        }
        loop
            invariant
                self.wf(),
                self.live() == old(self).live(),
                self.subs() == subs_mid,
                self.spec_app_id() == old(self).spec_app_id(),
                forall|u: Seq<char>, id: Seq<char>| id != socket_id@ ==> (#[trigger] has_user_pair(self.users@, u, id) == has_user_pair(users0, u, id)),
                forall|u: Seq<char>| #[trigger] has_user_pair(self.users@, u, socket_id@) ==> has_user_pair(users0, u, socket_id@),
            ensures
                forall|u: Seq<char>| !#[trigger] self.user_has_socket(u, socket_id@),
            decreases self.user_entries().len(),
        {
            match self.find_user_entry_of_socket(socket_id) {
                Some(k) => {
                    let ghost before = self.users@;
                    proof { lemma_remove_user_pair(before, k as int); }
                    self.users.remove(k);
                    proof {
                        assert(self.users@ == before.remove(k as int));
                    }
                },
                None => {
                    break;
                },
            }
        }
        let ghost users_end = self.users@;
        proof {
            assert forall|u: Seq<char>| !#[trigger] has_user_pair(users_end, u, socket_id@) by {
                assert(!self.user_has_socket(u, socket_id@));
            }
        }
        proof {
            assert forall|c: Seq<char>, id: Seq<char>| #[trigger] self.subscribed(c, id)
                == (old(self).subscribed(c, id) && id != socket_id@) by {
                assert(has_pair(subs_mid, c, id) == (old(self).subscribed(c, id) && id != socket_id@));
            }
        }
        match self.find_socket(socket_id) {
            Some(k) => {
                let ghost socks = self.sockets@;
                proof { lemma_remove_string(socks, k as int); }
                self.sockets.remove(k);
                proof {
                    assert(self.sockets@ == socks.remove(k as int));
                    assert forall|i: int| 0 <= i < self.users@.len() implies seq_has(self.sockets@, (#[trigger] self.users@[i]).socket_id@) by {
                        let e = self.users@[i];
                        assert(is_user_pair(e, e.user_id@, e.socket_id@));
                        if e.socket_id@ == socket_id@ {
                            assert(has_user_pair(users_end, e.user_id@, socket_id@));
                        }
                        assert(seq_has(socks, e.socket_id@));
                    }
                }
            },
            None => {},
        }
        proof {
            assert(users0 == old(self).users@);
            assert forall|u: Seq<char>, id: Seq<char>| #[trigger] self.user_has_socket(u, id)
                == (old(self).user_has_socket(u, id) && id != socket_id@) by {
                if id != socket_id@ {
                    assert(has_user_pair(self.users@, u, id) == has_user_pair(users0, u, id));
                } else {
                    assert(!has_user_pair(users_end, u, socket_id@));
                }
            }
        }
        events
    }

    /// Number of live sockets.
    pub fn get_sockets_count(&self) -> (r: usize)
        ensures
            r == self.live().len(),
    {
        self.sockets.len()
    }

    /// The members of presence channel `channel`, one per user (the first
    /// subscription of each user gives the user info).
    pub fn get_channel_members(&self, channel: &String) -> (r: Vec<PresenceMember>)
        ensures
            forall|i: int, j: int| 0 <= i < r@.len() && 0 <= j < r@.len() && i != j ==> (#[trigger] r@[i]).user_id@ != (#[trigger] r@[j]).user_id@,
            forall|u: Seq<char>| #[trigger] self.presence_user_ids(channel@).contains(u)
                == exists|k: int| 0 <= k < r@.len() && (#[trigger] r@[k]).user_id@ == u,
            forall|k: int| 0 <= k < r@.len() ==> member_info_in(self.subs(), channel@, (#[trigger] r@[k]).user_id@, r@[k].user_info@),
    {
        let mut out: Vec<PresenceMember> = Vec::new();
        let mut i: usize = 0;
        while i < self.subscriptions.len()
            invariant
                i <= self.subscriptions@.len(),
                forall|a: int, b: int| 0 <= a < out@.len() && 0 <= b < out@.len() && a != b ==> (#[trigger] out@[a]).user_id@ != (#[trigger] out@[b]).user_id@,
                forall|k: int| 0 <= k < out@.len() ==> has_user(self.subscriptions@, channel@, (#[trigger] out@[k]).user_id@),
                forall|k: int| 0 <= k < out@.len() ==> member_info_in(self.subscriptions@, channel@, (#[trigger] out@[k]).user_id@, out@[k].user_info@),
                forall|j: int, u: Seq<char>| 0 <= j < i && #[trigger] member_of(self.subscriptions@[j], channel@, u)
                    ==> exists|k: int| 0 <= k < out@.len() && (#[trigger] out@[k]).user_id@ == u,
            decreases self.subscriptions@.len() - i,
        {
            let s = &self.subscriptions[i];
            if s.channel == *channel {
                match &s.member {
                    Some(m) => {
                        let mut seen = false;
                        let mut k: usize = 0;
                        while k < out.len()
                            invariant
                                k <= out@.len(),
                                seen == exists|a: int| 0 <= a < k && (#[trigger] out@[a]).user_id@ == m.user_id@,
                            decreases out@.len() - k,
                        {
                            if out[k].user_id == m.user_id {
                                seen = true;
                            }
                            k = k + 1;
                        }
                        assert(member_of(self.subscriptions@[i as int], channel@, m.user_id@));
                        if !seen {
                            let ghost prev = out@;
                            out.push(m.duplicate());
                            proof {
                                assert forall|a: int, b: int| 0 <= a < out@.len() && 0 <= b < out@.len() && a != b
                                    implies (#[trigger] out@[a]).user_id@ != (#[trigger] out@[b]).user_id@ by {
                                    if a < prev.len() && b < prev.len() {
                                        assert(out@[a] == prev[a] && out@[b] == prev[b]);
                                    } else if a < prev.len() {
                                        assert(out@[a] == prev[a]);
                                    } else {
                                        assert(out@[b] == prev[b]);
                                    }
                                }
                                assert forall|k2: int| 0 <= k2 < out@.len() implies member_info_in(self.subscriptions@, channel@, (#[trigger] out@[k2]).user_id@, out@[k2].user_info@) by {
                                    if k2 < prev.len() {
                                        assert(out@[k2] == prev[k2]);
                                    } else {
                                        assert(member_of(self.subscriptions@[i as int], channel@, out@[k2].user_id@));
                                    }
                                }
                                assert forall|k2: int| 0 <= k2 < out@.len() implies has_user(self.subscriptions@, channel@, (#[trigger] out@[k2]).user_id@) by {
                                    if k2 < prev.len() {
                                        assert(out@[k2] == prev[k2]);
                                    }
                                }
                                assert forall|j: int, u: Seq<char>| 0 <= j < i + 1 && #[trigger] member_of(self.subscriptions@[j], channel@, u)
                                    implies exists|k2: int| 0 <= k2 < out@.len() && (#[trigger] out@[k2]).user_id@ == u by {
                                    if j < i {
                                        let k2 = choose|k2: int| 0 <= k2 < prev.len() && (#[trigger] prev[k2]).user_id@ == u;
                                        assert(out@[k2] == prev[k2]);
                                    } else {
                                        assert(out@[prev.len() as int].user_id@ == u);
                                    }
                                }
                            }
                        }
                    },
                    None => {},
                }
            }
            i = i + 1;
        }
        proof {
            assert forall|u: Seq<char>| #[trigger] self.presence_user_ids(channel@).contains(u)
                == exists|k: int| 0 <= k < out@.len() && (#[trigger] out@[k]).user_id@ == u by {
                if has_user(self.subscriptions@, channel@, u) {
                    let j = choose|j: int| 0 <= j < self.subscriptions@.len() && #[trigger] member_of(self.subscriptions@[j], channel@, u);
                }
                if exists|k: int| 0 <= k < out@.len() && (#[trigger] out@[k]).user_id@ == u {
                    let k = choose|k: int| 0 <= k < out@.len() && (#[trigger] out@[k]).user_id@ == u;
                    assert(has_user(self.subscriptions@, channel@, out@[k].user_id@));
                }
            }
        }
        out
    }

    /// Every channel with at least one socket, once, with its socket count.
    #[verifier::rlimit(40)]
    pub fn get_channels_with_socket_count(&self) -> (r: Vec<(String, usize)>)
        ensures
            forall|a: int, b: int| 0 <= a < r@.len() && 0 <= b < r@.len() && a != b ==> (#[trigger] r@[a]).0@ != (#[trigger] r@[b]).0@,
            forall|k: int| 0 <= k < r@.len() ==> (#[trigger] r@[k]).1 == count_channel(self.subs(), r@[k].0@),
            forall|c: Seq<char>| #[trigger] listed(r@, c) == self.occupied(c),
    {
        let mut out: Vec<(String, usize)> = Vec::new();
        let mut i: usize = 0;
        while i < self.subscriptions.len()
            invariant
                i <= self.subscriptions@.len(),
                forall|a: int, b: int| 0 <= a < out@.len() && 0 <= b < out@.len() && a != b ==> (#[trigger] out@[a]).0@ != (#[trigger] out@[b]).0@,
                forall|k: int| 0 <= k < out@.len() ==> (#[trigger] out@[k]).1 == count_channel(self.subs(), out@[k].0@),
                forall|k: int| 0 <= k < out@.len() ==> exists|j: int| 0 <= j < i && (#[trigger] self.subscriptions@[j]).channel@ == (#[trigger] out@[k]).0@,
                forall|j: int| 0 <= j < i ==> exists|k: int| 0 <= k < out@.len() && (#[trigger] out@[k]).0@ == (#[trigger] self.subscriptions@[j]).channel@,
            decreases self.subscriptions@.len() - i,
        {
            let c = &self.subscriptions[i].channel;
            let seen = is_listed(&out, c);
            let ghost prev = out@;
            if !seen {
                let n = self.get_channel_socket_count(c);
                out.push((c.clone(), n));
                proof {
                    assert forall|a: int, b: int| 0 <= a < out@.len() && 0 <= b < out@.len() && a != b
                        implies (#[trigger] out@[a]).0@ != (#[trigger] out@[b]).0@ by {
                        if a < prev.len() && b < prev.len() {
                            assert(out@[a] == prev[a] && out@[b] == prev[b]);
                        } else if a < prev.len() {
                            assert(out@[a] == prev[a]);
                        } else {
                            assert(out@[b] == prev[b]);
                        }
                    }
                    assert forall|k2: int| 0 <= k2 < out@.len() implies (#[trigger] out@[k2]).1 == count_channel(self.subs(), out@[k2].0@) by {
                        if k2 < prev.len() {
                            assert(out@[k2] == prev[k2]);
                        }
                    }
                }
            }
            proof {
                assert forall|k2: int| 0 <= k2 < out@.len() implies exists|j: int| 0 <= j < i + 1 && (#[trigger] self.subscriptions@[j]).channel@ == (#[trigger] out@[k2]).0@ by {
                    if k2 < prev.len() {
                        assert(out@[k2] == prev[k2]);
                        let j = choose|j: int| 0 <= j < i && (#[trigger] self.subscriptions@[j]).channel@ == (#[trigger] prev[k2]).0@;
                        assert(self.subscriptions@[j].channel@ == out@[k2].0@);
                    } else {
                        assert(self.subscriptions@[i as int].channel@ == out@[k2].0@);
                    }
                }
                assert forall|j: int| 0 <= j < i + 1 implies exists|k2: int| 0 <= k2 < out@.len() && (#[trigger] out@[k2]).0@ == (#[trigger] self.subscriptions@[j]).channel@ by {
                    if j < i {
                        let k2 = choose|k2: int| 0 <= k2 < prev.len() && (#[trigger] prev[k2]).0@ == (#[trigger] self.subscriptions@[j]).channel@;
                        assert(out@[k2] == prev[k2]);
                    } else if seen {
                        let k2 = choose|a: int| 0 <= a < prev.len() && (#[trigger] prev[a]).0@ == c@;
                        assert(out@[k2] == prev[k2]);
                        assert(out@[k2] == prev[k2]);
                    } else {
                        assert(out@[prev.len() as int].0@ == c@);
                    }
                }
            }
            i = i + 1;
        }
        proof {
            assert forall|c: Seq<char>| #[trigger] listed(out@, c) == self.occupied(c) by {
                if exists|k: int| 0 <= k < out@.len() && (#[trigger] out@[k]).0@ == c {
                    let k = choose|k: int| 0 <= k < out@.len() && (#[trigger] out@[k]).0@ == c;
                    let j = choose|j: int| 0 <= j < i && (#[trigger] self.subscriptions@[j]).channel@ == (#[trigger] out@[k]).0@;
                    let id = self.subscriptions@[j].socket_id@;
                    assert(is_pair(self.subscriptions@[j], c, id));
                    assert(self.subscribed(c, id));
                }
                if exists|id: Seq<char>| #[trigger] self.subscribed(c, id) {
                    let id = choose|id: Seq<char>| #[trigger] self.subscribed(c, id);
                    let j = choose|j: int| 0 <= j < self.subscriptions@.len() && #[trigger] is_pair(self.subscriptions@[j], c, id);
                    let k = choose|k2: int| 0 <= k2 < out@.len() && (#[trigger] out@[k2]).0@ == (#[trigger] self.subscriptions@[j]).channel@;
                }
            }
        }
        out
    }
}

/// The two readings of the subscription index agree: a socket is among a
/// channel's sockets exactly when the channel is among the socket's channels.
pub proof fn lemma_index_agreement(ns: &Namespace, c: Seq<char>, id: Seq<char>)
    ensures
        ns.channel_sockets(c).contains(id) == ns.socket_channels(id).contains(c),
{
}

/// Every presence member stands on a subscription: a channel with a member
/// has a subscribed socket whose member is that user.
pub proof fn lemma_members_are_subscribed(ns: &Namespace, c: Seq<char>, u: Seq<char>)
    requires
        ns.presence_user_ids(c).contains(u),
    ensures
        exists|id: Seq<char>| #[trigger] ns.subscribed(c, id),
{
    let i = choose|i: int| 0 <= i < ns.subs().len() && #[trigger] member_of(ns.subs()[i], c, u);
    assert(is_pair(ns.subs()[i], c, ns.subs()[i].socket_id@));
    assert(ns.subscribed(c, ns.subs()[i].socket_id@));
}

/// `events` are the `member_removed` announcements owed when socket `id`
/// leaves `ns`: one for each channel where it held the user's last membership,
/// and no others.
pub open spec fn departures_announced(ns: Namespace, id: Seq<char>, events: Seq<(String, PresenceMember)>) -> bool {
    &&& forall|k: int| 0 <= k < events.len() ==> ns.member_user((#[trigger] events[k]).0@, id, events[k].1.user_id@)
            && !ns.user_elsewhere(events[k].0@, events[k].1.user_id@, id)
    &&& forall|c: Seq<char>, u: Seq<char>| #[trigger] ns.member_user(c, id, u) && !ns.user_elsewhere(c, u, id)
            ==> exists|k: int| 0 <= k < events.len() && (#[trigger] events[k]).0@ == c && events[k].1.user_id@ == u
}

/// A socket holds at most one membership of a channel.
pub proof fn lemma_member_unique(ns: Namespace, c: Seq<char>, id: Seq<char>, u1: Seq<char>, u2: Seq<char>)
    requires
        ns.wf(),
        ns.member_user(c, id, u1),
        ns.member_user(c, id, u2),
    ensures
        u1 == u2,
{
    let subs = ns.subs();
    let i = choose|i: int| 0 <= i < subs.len() && #[trigger] is_pair(subs[i], c, id) && member_of(subs[i], c, u1);
    let j = choose|j: int| 0 <= j < subs.len() && #[trigger] is_pair(subs[j], c, id) && member_of(subs[j], c, u2);
    if i != j {
        assert(is_pair(subs[i], subs[j].channel@, subs[j].socket_id@));
    }
}

/// The count of a channel's subscriptions is the number of its sockets.
pub proof fn lemma_count_is_channel_size(ns: &Namespace, c: Seq<char>)
    requires
        ns.wf(),
    ensures
        ns.channel_sockets(c).finite(),
        ns.channel_sockets(c).len() == count_channel(ns.subs(), c),
{
    lemma_count_channel_set(ns.subs(), c);
    assert(ns.channel_sockets(c) =~= Set::new(|id: Seq<char>| has_pair(ns.subs(), c, id)));
}

/// A channel has no sockets left exactly when nobody is subscribed to it.
pub proof fn lemma_empty_iff_unoccupied(ns: &Namespace, c: Seq<char>)
    requires
        ns.wf(),
    ensures
        (ns.channel_sockets(c).len() == 0) == !ns.occupied(c),
{
    lemma_count_is_channel_size(ns, c);
    let set = ns.channel_sockets(c);
    if ns.occupied(c) {
        let id = choose|id: Seq<char>| #[trigger] ns.subscribed(c, id);
        assert(set.contains(id));
        assert(set.remove(id).len() == set.len() - 1);
    } else {
        assert(set =~= Set::<Seq<char>>::empty());
    }
}

} // verus!
