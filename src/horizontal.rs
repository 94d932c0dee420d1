//! Cluster layer: the three wire messages, the table of pending requests, and
//! how a node answers requests and aggregates the answers of its peers.
//!
//! Waiting, timers and broker I/O belong to the caller: it records each
//! response as it arrives and asks whether to stop waiting.
use vstd::prelude::*;
use crate::error::Error;
use crate::text::join3;
use crate::namespace::{count_channel, count_user_in_channel, listed, member_info_in, opt_view, seq_has, seq_unique, Namespace};

verus! {

/// The kinds of cluster query.
#[derive(Debug, Clone, Copy, PartialEq, Eq, Structural)]
pub enum RequestType {
    ChannelMembers,
    ChannelSockets,
    ChannelSocketsCount,
    SocketExistsInChannel,
    TerminateUserConnections,
    ChannelsWithSocketsCount,
    SocketsCount,
    CountUserConnectionsInChannel,
}

/// A cluster query.
#[derive(Debug)]
pub struct RequestBody {
    pub request_id: String,
    pub node_id: String,
    pub app_id: String,
    pub request_type: RequestType,
    pub channel: Option<String>,
    pub socket_id: Option<String>,
    pub user_id: Option<String>,
}

/// A presence member as it travels between nodes.
#[derive(Debug)]
pub struct MemberInfo {
    pub user_id: String,
    pub user_info: String,
}

/// A channel with its socket count.
#[derive(Debug)]
pub struct ChannelCount {
    pub channel: String,
    pub count: usize,
}

/// A peer's answer to a cluster query; `request_id` echoes the request's.
#[derive(Debug)]
pub struct ResponseBody {
    pub request_id: String,
    pub node_id: String,
    pub app_id: String,
    pub members: Vec<MemberInfo>,
    pub socket_ids: Vec<String>,
    pub sockets_count: usize,
    pub channels_with_sockets_count: Vec<ChannelCount>,
    pub exists: bool,
    pub channels: Vec<String>,
    pub members_count: usize,
}

/// An event published on one node for the subscribers on the others.
#[derive(Debug)]
pub struct BroadcastMessage {
    pub node_id: String,
    pub app_id: String,
    pub channel: String,
    /// The serialized client message.
    pub message: String,
    pub except_socket_id: Option<String>,
    /// Publication time in milliseconds, for latency metrics.
    pub timestamp_ms: Option<u64>,
}

/// Number of answers to wait for: every other node.
pub open spec fn spec_expected_responses(node_count: int) -> int {
    if node_count >= 1 { node_count - 1 } else { 0 }
}

pub fn expected_responses(node_count: usize) -> (r: usize)
    ensures
        r == spec_expected_responses(node_count as int),
{
    if node_count >= 1 { node_count - 1 } else { 0 }
}

/// Stop waiting once every other node answered, or when the time is up; a
/// timeout is no failure: what arrived is aggregated.
pub fn wait_is_over(received: usize, expected: usize, timed_out: bool) -> (r: bool)
    ensures
        r == (received >= expected || timed_out),
{
    received >= expected || timed_out
}

/// A message from `from` is handled here only if another node sent it.
pub fn is_from_peer(own_node_id: &String, from: &String) -> (r: bool)
    ensures
        r == (own_node_id@ != from@),
{
    *own_node_id != *from
}

/// Sum of the `sockets_count` of the responses.
pub open spec fn count_sum(rs: Seq<ResponseBody>) -> int
    decreases rs.len(),
{
    if rs.len() == 0 { 0 } else { count_sum(rs.drop_last()) + rs.last().sockets_count }
}

/// Some response says `exists`.
pub open spec fn any_exists(rs: Seq<ResponseBody>) -> bool {
    exists|i: int| 0 <= i < rs.len() && (#[trigger] rs[i]).exists
}

/// Socket id `id` appears in some response.
pub open spec fn in_some_response(rs: Seq<ResponseBody>, id: Seq<char>) -> bool {
    exists|i: int| 0 <= i < rs.len() && seq_has((#[trigger] rs[i]).socket_ids@, id)
}

/// User `u` appears among the members of some response.
pub open spec fn member_in_some_response(rs: Seq<ResponseBody>, u: Seq<char>) -> bool {
    exists|i: int, k: int| 0 <= i < rs.len() && 0 <= k < rs[i].members@.len() && (#[trigger] rs[i].members@[k]).user_id@ == u
}

/// `a + b` clamped to `usize`.
pub open spec fn sat_add(a: int, b: int) -> int {
    if a + b > usize::MAX { usize::MAX as int } else { a + b }
}

proof fn lemma_count_sum_append(a: Seq<ResponseBody>, b: Seq<ResponseBody>)
    ensures
        count_sum(a + b) == count_sum(a) + count_sum(b),
    decreases b.len(),
{
    if b.len() == 0 {
        assert(a + b =~= a);
    } else {
        assert((a + b).drop_last() =~= a + b.drop_last());
        lemma_count_sum_append(a, b.drop_last());
    }
}

proof fn lemma_count_sum_nonneg(a: Seq<ResponseBody>)
    ensures
        count_sum(a) >= 0,
    decreases a.len(),
{
    if a.len() > 0 {
        lemma_count_sum_nonneg(a.drop_last());
    }
}

proof fn lemma_count_sum_remove(s: Seq<ResponseBody>, i: int)
    requires
        0 <= i < s.len(),
    ensures
        count_sum(s) == count_sum(s.remove(i)) + s[i].sockets_count,
{
    let p = s.subrange(0, i);
    let q = s.subrange(i + 1, s.len() as int);
    assert(s =~= p + seq![s[i]] + q);
    assert(s.remove(i) =~= p + q);
    lemma_count_sum_append(p + seq![s[i]], q);
    lemma_count_sum_append(p, seq![s[i]]);
    lemma_count_sum_append(p, q);
    let one = seq![s[i]];
    assert(one.drop_last() =~= Seq::<ResponseBody>::empty());
    assert(count_sum(one) == count_sum(one.drop_last()) + one.last().sockets_count);
}

proof fn lemma_resp_chan_total_append(a: Seq<ResponseBody>, b: Seq<ResponseBody>, c: Seq<char>)
    ensures
        resp_chan_total(a + b, c) == resp_chan_total(a, c) + resp_chan_total(b, c),
    decreases b.len(),
{
    if b.len() == 0 {
        assert(a + b =~= a);
    } else {
        assert((a + b).drop_last() =~= a + b.drop_last());
        lemma_resp_chan_total_append(a, b.drop_last(), c);
    }
}

proof fn lemma_resp_chan_total_remove(s: Seq<ResponseBody>, i: int, c: Seq<char>)
    requires
        0 <= i < s.len(),
    ensures
        resp_chan_total(s, c) == resp_chan_total(s.remove(i), c) + chan_total(s[i].channels_with_sockets_count@, c),
{
    let p = s.subrange(0, i);
    let q = s.subrange(i + 1, s.len() as int);
    assert(s =~= p + seq![s[i]] + q);
    assert(s.remove(i) =~= p + q);
    lemma_resp_chan_total_append(p + seq![s[i]], q, c);
    lemma_resp_chan_total_append(p, seq![s[i]], c);
    lemma_resp_chan_total_append(p, q, c);
    let one = seq![s[i]];
    assert(one.drop_last() =~= Seq::<ResponseBody>::empty());
    assert(resp_chan_total(one, c) == resp_chan_total(one.drop_last(), c) + chan_total(one.last().channels_with_sockets_count@, c));
}

proof fn lemma_sums_by_multiset(a: Seq<ResponseBody>, b: Seq<ResponseBody>)
    requires
        a.to_multiset() =~= b.to_multiset(),
    ensures
        count_sum(a) == count_sum(b),
        forall|c: Seq<char>| #[trigger] resp_chan_total(a, c) == resp_chan_total(b, c),
    decreases a.len(),
{
    broadcast use vstd::seq_lib::group_to_multiset_ensures;
    a.to_multiset_ensures();
    b.to_multiset_ensures();
    if a.len() == 0 {
        assert(b.len() == 0);
        assert(b =~= Seq::<ResponseBody>::empty());
        assert(a =~= Seq::<ResponseBody>::empty());
    } else {
        let x = a.last();
        let w = a.drop_last();
        assert(a =~= w.push(x));
        assert(a.to_multiset().count(x) > 0);
        assert(b.contains(x));
        let j = choose|j: int| 0 <= j < b.len() && b[j] == x;
        w.to_multiset_ensures();
        assert(a.to_multiset() =~= w.to_multiset().insert(x));
        assert(b.remove(j).to_multiset() =~= b.to_multiset().remove(x));
        assert(w.to_multiset() =~= b.remove(j).to_multiset());
        lemma_sums_by_multiset(w, b.remove(j));
        lemma_count_sum_remove(b, j);
        assert(a.drop_last() == w);
        assert forall|c: Seq<char>| #[trigger] resp_chan_total(a, c) == resp_chan_total(b, c) by {
            lemma_resp_chan_total_remove(b, j, c);
            assert(resp_chan_total(w, c) == resp_chan_total(b.remove(j), c));
            assert(resp_chan_total(a, c) == resp_chan_total(w, c) + chan_total(x.channels_with_sockets_count@, c));
        }
        assert(count_sum(a) == count_sum(w) + x.sockets_count);
    }
}

/// Aggregation depends on the answers as a collection, not on their order:
/// answers equal as multisets give the same summed counts (overall and per
/// channel), the same `exists`, and the same socket, member and channel sets.
pub proof fn lemma_aggregation_order_insensitive(a: Seq<ResponseBody>, b: Seq<ResponseBody>)
    requires
        a.to_multiset() =~= b.to_multiset(),
    ensures
        count_sum(a) == count_sum(b),
        forall|c: Seq<char>| #[trigger] resp_chan_total(a, c) == resp_chan_total(b, c),
        any_exists(a) == any_exists(b),
        forall|id: Seq<char>| #[trigger] in_some_response(a, id) == in_some_response(b, id),
        forall|u: Seq<char>| #[trigger] member_in_some_response(a, u) == member_in_some_response(b, u),
        forall|c: Seq<char>| #[trigger] count_in_some_response(a, c) == count_in_some_response(b, c),
{
    broadcast use vstd::seq_lib::group_to_multiset_ensures;
    lemma_sums_by_multiset(a, b);
    assert forall|x: ResponseBody| a.contains(x) == b.contains(x) by {
        assert(a.to_multiset().count(x) == b.to_multiset().count(x));
    }
    assert(any_exists(a) == any_exists(b)) by {
        if any_exists(a) {
            let i = choose|i: int| 0 <= i < a.len() && (#[trigger] a[i]).exists;
            assert(a.contains(a[i]));
            let j = choose|j: int| 0 <= j < b.len() && b[j] == a[i];
            assert(b[j].exists);
        }
        if any_exists(b) {
            let i = choose|i: int| 0 <= i < b.len() && (#[trigger] b[i]).exists;
            assert(b.contains(b[i]));
            let j = choose|j: int| 0 <= j < a.len() && a[j] == b[i];
            assert(a[j].exists);
        }
    }
    assert forall|id: Seq<char>| #[trigger] in_some_response(a, id) == in_some_response(b, id) by {
        if in_some_response(a, id) {
            let i = choose|i: int| 0 <= i < a.len() && seq_has((#[trigger] a[i]).socket_ids@, id);
            assert(a.contains(a[i]));
            let j = choose|j: int| 0 <= j < b.len() && b[j] == a[i];
            assert(seq_has(b[j].socket_ids@, id));
        }
        if in_some_response(b, id) {
            let i = choose|i: int| 0 <= i < b.len() && seq_has((#[trigger] b[i]).socket_ids@, id);
            assert(b.contains(b[i]));
            let j = choose|j: int| 0 <= j < a.len() && a[j] == b[i];
            assert(seq_has(a[j].socket_ids@, id));
        }
    }
    assert forall|u: Seq<char>| #[trigger] member_in_some_response(a, u) == member_in_some_response(b, u) by {
        if member_in_some_response(a, u) {
            let (i, k) = choose|i: int, k: int| 0 <= i < a.len() && 0 <= k < a[i].members@.len() && (#[trigger] a[i].members@[k]).user_id@ == u;
            assert(a.contains(a[i]));
            let j = choose|j: int| 0 <= j < b.len() && b[j] == a[i];
            assert(b[j].members@[k].user_id@ == u);
        }
        if member_in_some_response(b, u) {
            let (i, k) = choose|i: int, k: int| 0 <= i < b.len() && 0 <= k < b[i].members@.len() && (#[trigger] b[i].members@[k]).user_id@ == u;
            assert(b.contains(b[i]));
            let j = choose|j: int| 0 <= j < a.len() && a[j] == b[i];
            assert(a[j].members@[k].user_id@ == u);
        }
    }
    assert forall|c: Seq<char>| #[trigger] count_in_some_response(a, c) == count_in_some_response(b, c) by {
        if count_in_some_response(a, c) {
            let i = choose|i: int| 0 <= i < a.len() && count_listed((#[trigger] a[i]).channels_with_sockets_count@, c);
            assert(a.contains(a[i]));
            let j = choose|j: int| 0 <= j < b.len() && b[j] == a[i];
            assert(count_listed(b[j].channels_with_sockets_count@, c));
        }
        if count_in_some_response(b, c) {
            let i = choose|i: int| 0 <= i < b.len() && count_listed((#[trigger] b[i]).channels_with_sockets_count@, c);
            assert(b.contains(b[i]));
            let j = choose|j: int| 0 <= j < a.len() && a[j] == b[i];
            assert(count_listed(a[j].channels_with_sockets_count@, c));
        }
    }
}

/// `local` plus the counts of the responses, saturating at `usize::MAX`.
pub fn sum_counts(local: usize, responses: &Vec<ResponseBody>) -> (r: usize)
    ensures
        r == sat_add(local as int, count_sum(responses@)),
{
    let mut total: usize = local;
    let mut i: usize = 0;
    while i < responses.len()
        invariant
            i <= responses@.len(),
            total == sat_add(local as int, count_sum(responses@.take(i as int))),
        decreases responses@.len() - i,
    {
        proof {
            assert(responses@.take(i + 1).drop_last() =~= responses@.take(i as int));
            lemma_count_sum_nonneg(responses@.take(i as int));
        }
        total = total.saturating_add(responses[i].sockets_count);
        i = i + 1;
    }
    assert(responses@.take(i as int) =~= responses@);
    total
}

/// `local`, or some response says the socket is in the channel.
pub fn any_response_exists(local: bool, responses: &Vec<ResponseBody>) -> (r: bool)
    ensures
        r == (local || any_exists(responses@)),
{
    if local {
        return true;
    }
    let mut i: usize = 0;
    while i < responses.len()
        invariant
            i <= responses@.len(),
            forall|j: int| 0 <= j < i ==> !(#[trigger] responses@[j]).exists,
        decreases responses@.len() - i,
    {
        if responses[i].exists {
            return true;
        }
        i = i + 1;
    }
    false
}

/// Adds `x` to `out` unless an equal string is there.
fn push_unique(out: &mut Vec<String>, x: &String)
    requires
        seq_unique(old(out)@),
    ensures
        seq_unique(final(out)@),
        forall|id: Seq<char>| #[trigger] seq_has(final(out)@, id) == (seq_has(old(out)@, id) || id == x@),
{
    let mut k: usize = 0;
    while k < out.len()
        invariant
            k <= out@.len(),
            out@ == old(out)@,
            seq_unique(out@),
            forall|a: int| 0 <= a < k ==> (#[trigger] out@[a])@ != x@,
        decreases out@.len() - k,
    {
        if out[k] == *x {
            proof {
                assert forall|id: Seq<char>| #[trigger] seq_has(out@, id) == (seq_has(out@, id) || id == x@) by {
                    if id == x@ {
                        assert(out@[k as int]@ == id);
                    }
                }
            }
            return;
        }
        k = k + 1;
    }
    let ghost prev = out@;
    out.push(x.clone());
    proof {
        assert forall|id: Seq<char>| #[trigger] seq_has(out@, id) == (seq_has(prev, id) || id == x@) by {
            if seq_has(out@, id) {
                let a = choose|a: int| 0 <= a < out@.len() && (#[trigger] out@[a])@ == id;
                if a < prev.len() {
                    assert(prev[a]@ == id);
                }
            }
            if seq_has(prev, id) {
                let a = choose|a: int| 0 <= a < prev.len() && (#[trigger] prev[a])@ == id;
                assert(out@[a]@ == id);
            }
            if id == x@ {
                assert(out@[prev.len() as int]@ == id);
            }
        }
        assert forall|a: int, b: int| 0 <= a < out@.len() && 0 <= b < out@.len() && a != b
            implies (#[trigger] out@[a])@ != (#[trigger] out@[b])@ by {
            if a < prev.len() && b < prev.len() {
                assert(out@[a] == prev[a] && out@[b] == prev[b]);
            } else if a < prev.len() {
                assert(out@[a] == prev[a]);
            } else {
                assert(out@[b] == prev[b]);
            }
        }
    }
}

/// The socket ids of `local` and of every response, each once.
pub fn union_socket_ids(local: &Vec<String>, responses: &Vec<ResponseBody>) -> (r: Vec<String>)
    ensures
        seq_unique(r@),
        forall|id: Seq<char>| #[trigger] seq_has(r@, id) == (seq_has(local@, id) || in_some_response(responses@, id)),
{
    let mut out: Vec<String> = Vec::new();
    let mut i: usize = 0;
    while i < local.len()
        invariant
            i <= local@.len(),
            seq_unique(out@),
            forall|id: Seq<char>| #[trigger] seq_has(out@, id) == exists|a: int| 0 <= a < i && (#[trigger] local@[a])@ == id,
        decreases local@.len() - i,
    {
        push_unique(&mut out, &local[i]);
        proof {
            assert forall|id: Seq<char>| #[trigger] seq_has(out@, id) == exists|a: int| 0 <= a < i + 1 && (#[trigger] local@[a])@ == id by {
                if id == local@[i as int]@ {
                    assert(local@[i as int]@ == id);
                }
            }
        }
        i = i + 1;
    }
    let mut j: usize = 0;
    while j < responses.len()
        invariant
            j <= responses@.len(),
            seq_unique(out@),
            forall|id: Seq<char>| #[trigger] seq_has(out@, id) == (seq_has(local@, id) || in_some_response(responses@.take(j as int), id)),
        decreases responses@.len() - j,
    {
        let ids = &responses[j].socket_ids;
        let mut k: usize = 0;
        while k < ids.len()
            invariant
                k <= ids@.len(),
                ids == responses@[j as int].socket_ids,
                j < responses@.len(),
                seq_unique(out@),
                forall|id: Seq<char>| #[trigger] seq_has(out@, id) == (seq_has(local@, id) || in_some_response(responses@.take(j as int), id)
                    || exists|a: int| 0 <= a < k && (#[trigger] ids@[a])@ == id),
            decreases ids@.len() - k,
        {
            push_unique(&mut out, &ids[k]);
            proof {
                assert forall|id: Seq<char>| #[trigger] seq_has(out@, id) == (seq_has(local@, id) || in_some_response(responses@.take(j as int), id)
                    || exists|a: int| 0 <= a < k + 1 && (#[trigger] ids@[a])@ == id) by {
                    if id == ids@[k as int]@ {
                        assert(ids@[k as int]@ == id);
                    }
                }
            }
            k = k + 1;
        }
        proof {
            let t = responses@.take(j as int);
            let t1 = responses@.take(j + 1);
            assert forall|id: Seq<char>| #[trigger] in_some_response(t1, id) == (in_some_response(t, id) || seq_has(ids@, id)) by {
                if in_some_response(t1, id) {
                    let a = choose|a: int| 0 <= a < t1.len() && seq_has((#[trigger] t1[a]).socket_ids@, id);
                    if a < j {
                        assert(t[a] == t1[a]);
                    }
                }
                if in_some_response(t, id) {
                    let a = choose|a: int| 0 <= a < t.len() && seq_has((#[trigger] t[a]).socket_ids@, id);
                    assert(t1[a] == t[a]);
                }
                if seq_has(ids@, id) {
                    assert(t1[j as int] == responses@[j as int]);
                }
            }
            assert forall|id: Seq<char>| #[trigger] seq_has(out@, id) == (seq_has(local@, id) || in_some_response(t1, id)) by {
                if seq_has(ids@, id) {
                    let a = choose|a: int| 0 <= a < ids@.len() && (#[trigger] ids@[a])@ == id;
                }
            }
        }
        j = j + 1;
    }
    assert(responses@.take(j as int) =~= responses@);
    out
}

pub open spec fn has_member(v: Seq<MemberInfo>, u: Seq<char>) -> bool {
    exists|k: int| 0 <= k < v.len() && (#[trigger] v[k]).user_id@ == u
}

pub open spec fn members_unique(v: Seq<MemberInfo>) -> bool {
    forall|a: int, b: int| 0 <= a < v.len() && 0 <= b < v.len() && a != b ==> (#[trigger] v[a]).user_id@ != (#[trigger] v[b]).user_id@
}

/// Some entry of `local` has the user and the user info of `m`.
pub open spec fn local_source(local: Seq<MemberInfo>, m: MemberInfo) -> bool {
    exists|a: int| 0 <= a < local.len() && (#[trigger] local[a]).user_id@ == m.user_id@ && local[a].user_info@ == m.user_info@
}

/// Some response has a member with the user and the user info of `m`.
pub open spec fn remote_source(rs: Seq<ResponseBody>, m: MemberInfo) -> bool {
    exists|i: int, a: int| 0 <= i < rs.len() && 0 <= a < rs[i].members@.len()
        && (#[trigger] rs[i].members@[a]).user_id@ == m.user_id@ && rs[i].members@[a].user_info@ == m.user_info@
}

/// Adds `m` to `out` unless its user is there already.
fn push_member_if_new(out: &mut Vec<MemberInfo>, m: &MemberInfo)
    requires
        members_unique(old(out)@),
    ensures
        members_unique(final(out)@),
        final(out)@.len() >= old(out)@.len(),
        final(out)@.take(old(out)@.len() as int) == old(out)@,
        forall|u: Seq<char>| #[trigger] has_member(final(out)@, u) == (has_member(old(out)@, u) || u == m.user_id@),
        forall|k: int| old(out)@.len() <= k < final(out)@.len() ==> (#[trigger] final(out)@[k]).user_id@ == m.user_id@
            && final(out)@[k].user_info@ == m.user_info@,
{
    let mut k: usize = 0;
    while k < out.len()
        invariant
            k <= out@.len(),
            out@ == old(out)@,
            members_unique(out@),
            forall|a: int| 0 <= a < k ==> (#[trigger] out@[a]).user_id@ != m.user_id@,
        decreases out@.len() - k,
    {
        if out[k].user_id == m.user_id {
            assert(out@.take(out@.len() as int) =~= out@);
            return;
        }
        k = k + 1;
    }
    let ghost prev = out@;
    out.push(MemberInfo { user_id: m.user_id.clone(), user_info: m.user_info.clone() });
    proof {
        assert(out@.take(prev.len() as int) =~= prev);
        assert forall|u: Seq<char>| #[trigger] has_member(out@, u) == (has_member(prev, u) || u == m.user_id@) by {
            if has_member(out@, u) {
                let a = choose|a: int| 0 <= a < out@.len() && (#[trigger] out@[a]).user_id@ == u;
                if a < prev.len() {
                    assert(prev[a].user_id@ == u);
                }
            }
            if has_member(prev, u) {
                let a = choose|a: int| 0 <= a < prev.len() && (#[trigger] prev[a]).user_id@ == u;
                assert(out@[a].user_id@ == u);
            }
            if u == m.user_id@ {
                assert(out@[prev.len() as int].user_id@ == u);
            }
        }
        assert forall|a: int, b: int| 0 <= a < out@.len() && 0 <= b < out@.len() && a != b
            implies (#[trigger] out@[a]).user_id@ != (#[trigger] out@[b]).user_id@ by {
            if a < prev.len() && b < prev.len() {
                assert(out@[a] == prev[a] && out@[b] == prev[b]);
            } else if a < prev.len() {
                assert(out@[a] == prev[a]);
            } else {
                assert(out@[b] == prev[b]);
            }
        }
    }
}

/// The members of `local` and of every response, one per user; a user known
/// locally keeps the local user info.
pub fn merge_members(local: &Vec<MemberInfo>, responses: &Vec<ResponseBody>) -> (r: Vec<MemberInfo>)
    ensures
        members_unique(r@),
        forall|u: Seq<char>| #[trigger] has_member(r@, u) == (has_member(local@, u) || member_in_some_response(responses@, u)),
        forall|k: int| 0 <= k < r@.len() && has_member(local@, (#[trigger] r@[k]).user_id@) ==> local_source(local@, r@[k]),
        forall|k: int| 0 <= k < r@.len() && !has_member(local@, (#[trigger] r@[k]).user_id@) ==> remote_source(responses@, r@[k]),
{
    let mut out: Vec<MemberInfo> = Vec::new();
    let mut i: usize = 0;
    while i < local.len()
        invariant
            i <= local@.len(),
            members_unique(out@),
            forall|u: Seq<char>| #[trigger] has_member(out@, u) == has_member(local@.take(i as int), u),
            forall|k: int| 0 <= k < out@.len() ==> local_source(local@, #[trigger] out@[k]),
        decreases local@.len() - i,
    {
        let ghost prev = out@;
        push_member_if_new(&mut out, &local[i]);
        proof {
            let t = local@.take(i as int);
            let t1 = local@.take(i + 1);
            assert forall|u: Seq<char>| #[trigger] has_member(t1, u) == (has_member(t, u) || u == local@[i as int].user_id@) by {
                if has_member(t1, u) {
                    let a = choose|a: int| 0 <= a < t1.len() && (#[trigger] t1[a]).user_id@ == u;
                    if a < i {
                        assert(t[a] == t1[a]);
                    }
                }
                if has_member(t, u) {
                    let a = choose|a: int| 0 <= a < t.len() && (#[trigger] t[a]).user_id@ == u;
                    assert(t1[a] == t[a]);
                }
                if u == local@[i as int].user_id@ {
                    assert(t1[i as int] == local@[i as int]);
                }
            }
            assert forall|k: int| 0 <= k < out@.len() implies local_source(local@, #[trigger] out@[k]) by {
                if k < prev.len() {
                    assert(out@[k] == out@.take(prev.len() as int)[k]);
                    assert(out@[k] == prev[k]);
                    assert(local_source(local@, prev[k]));
                } else {
                    assert(local@[i as int].user_id@ == out@[k].user_id@);
                    assert(local@[i as int].user_info@ == out@[k].user_info@);
                }
            }
        }
        i = i + 1;
    }
    assert(local@.take(i as int) =~= local@);
    let ghost local_part = out@;
    let mut j: usize = 0;
    while j < responses.len()
        invariant
            j <= responses@.len(),
            members_unique(out@),
            out@.len() >= local_part.len(),
            out@.take(local_part.len() as int) == local_part,
            forall|u: Seq<char>| #[trigger] has_member(local_part, u) == has_member(local@, u),
            forall|k: int| 0 <= k < local_part.len() ==> local_source(local@, #[trigger] local_part[k]),
            forall|k: int| local_part.len() <= k < out@.len() ==> !has_member(local@, (#[trigger] out@[k]).user_id@),
            forall|k: int| local_part.len() <= k < out@.len() ==> remote_source(responses@, #[trigger] out@[k]),
            forall|u: Seq<char>| #[trigger] has_member(out@, u) == (has_member(local@, u) || member_in_some_response(responses@.take(j as int), u)),
        decreases responses@.len() - j,
    {
        let ms = &responses[j].members;
        let mut k: usize = 0;
        while k < ms.len()
            invariant
                k <= ms@.len(),
                j < responses@.len(),
                ms == responses@[j as int].members,
                members_unique(out@),
                out@.len() >= local_part.len(),
                out@.take(local_part.len() as int) == local_part,
                forall|k2: int| local_part.len() <= k2 < out@.len() ==> !has_member(local@, (#[trigger] out@[k2]).user_id@),
                forall|k2: int| local_part.len() <= k2 < out@.len() ==> remote_source(responses@, #[trigger] out@[k2]),
                forall|u: Seq<char>| #[trigger] has_member(out@, u) == (has_member(local@, u) || member_in_some_response(responses@.take(j as int), u)
                    || exists|a: int| 0 <= a < k && (#[trigger] ms@[a]).user_id@ == u),
            decreases ms@.len() - k,
        {
            let ghost prev = out@;
            push_member_if_new(&mut out, &ms[k]);
            proof {
                assert(out@.take(local_part.len() as int) =~= prev.take(local_part.len() as int)) by {
                    assert forall|x: int| 0 <= x < local_part.len() implies out@[x] == prev[x] by {
                        assert(out@.take(prev.len() as int)[x] == prev[x]);
                    }
                }
                assert forall|k2: int| local_part.len() <= k2 < out@.len() implies remote_source(responses@, #[trigger] out@[k2]) by {
                    if k2 < prev.len() {
                        assert(out@.take(prev.len() as int)[k2] == prev[k2]);
                    } else {
                        assert(responses@[j as int].members@[k as int] == ms@[k as int]);
                        assert(out@[k2].user_id@ == ms@[k as int].user_id@ && out@[k2].user_info@ == ms@[k as int].user_info@);
                    }
                }
                assert forall|k2: int| local_part.len() <= k2 < out@.len() implies !has_member(local@, (#[trigger] out@[k2]).user_id@) by {
                    if k2 < prev.len() {
                        assert(out@.take(prev.len() as int)[k2] == prev[k2]);
                    } else {
                        assert(out@[k2].user_id@ == ms@[k as int].user_id@);
                        if has_member(local@, ms@[k as int].user_id@) {
                            assert(has_member(prev, ms@[k as int].user_id@));
                        }
                    }
                }
                assert forall|u: Seq<char>| #[trigger] has_member(out@, u) == (has_member(local@, u) || member_in_some_response(responses@.take(j as int), u)
                    || exists|a: int| 0 <= a < k + 1 && (#[trigger] ms@[a]).user_id@ == u) by {
                    if u == ms@[k as int].user_id@ {
                        assert(ms@[k as int].user_id@ == u);
                    }
                }
            }
            k = k + 1;
        }
        proof {
            let t = responses@.take(j as int);
            let t1 = responses@.take(j + 1);
            assert forall|u: Seq<char>| #[trigger] member_in_some_response(t1, u) == (member_in_some_response(t, u) || has_member(ms@, u)) by {
                if member_in_some_response(t1, u) {
                    let (a, b) = choose|a: int, b: int| 0 <= a < t1.len() && 0 <= b < t1[a].members@.len() && (#[trigger] t1[a].members@[b]).user_id@ == u;
                    if a < j {
                        assert(t[a] == t1[a]);
                        assert(t[a].members@[b].user_id@ == u);
                    } else {
                        assert(ms@[b].user_id@ == u);
                    }
                }
                if member_in_some_response(t, u) {
                    let (a, b) = choose|a: int, b: int| 0 <= a < t.len() && 0 <= b < t[a].members@.len() && (#[trigger] t[a].members@[b]).user_id@ == u;
                    assert(t1[a] == t[a]);
                    assert(t1[a].members@[b].user_id@ == u);
                }
                if has_member(ms@, u) {
                    let b = choose|b: int| 0 <= b < ms@.len() && (#[trigger] ms@[b]).user_id@ == u;
                    assert(t1[j as int] == responses@[j as int]);
                    assert(t1[j as int].members@[b].user_id@ == u);
                }
            }
            assert forall|u: Seq<char>| #[trigger] has_member(out@, u) == (has_member(local@, u) || member_in_some_response(t1, u)) by {
                if has_member(ms@, u) {
                    let b = choose|b: int| 0 <= b < ms@.len() && (#[trigger] ms@[b]).user_id@ == u;
                }
            }
        }
        j = j + 1;
    }
    assert(responses@.take(j as int) =~= responses@);
    proof {
        assert forall|k: int| 0 <= k < out@.len() && has_member(local@, (#[trigger] out@[k]).user_id@) implies local_source(local@, out@[k]) by {
            assert(k < local_part.len());
            assert(out@[k] == out@.take(local_part.len() as int)[k]);
            assert(out@[k] == local_part[k]);
        }
        assert forall|k: int| 0 <= k < out@.len() && !has_member(local@, (#[trigger] out@[k]).user_id@) implies remote_source(responses@, out@[k]) by {
            if k < local_part.len() {
                assert(out@[k] == out@.take(local_part.len() as int)[k]);
                assert(out@[k] == local_part[k]);
                assert(local_source(local@, local_part[k]));
                let a = choose|a: int| 0 <= a < local@.len() && (#[trigger] local@[a]).user_id@ == local_part[k].user_id@ && local@[a].user_info@ == local_part[k].user_info@;
                assert(has_member(local@, out@[k].user_id@));
            }
        }
    }
    out
}

pub open spec fn text_or_empty(o: Option<String>) -> Seq<char> {
    match o {
        Some(s) => s@,
        None => Seq::empty(),
    }
}

fn text_or_empty_exec(o: &Option<String>) -> (r: String)
    ensures
        r@ == text_or_empty(*o),
{
    match o {
        Some(s) => s.clone(),
        None => String::new(),
    }
}

/// A response to `request` from node `node_id` with nothing in it yet.
fn empty_response(request_id: &String, node_id: &String, app_id: &String) -> (r: ResponseBody)
    ensures
        r.request_id@ == request_id@,
        r.node_id@ == node_id@,
        r.app_id@ == app_id@,
        r.members@.len() == 0,
        r.socket_ids@.len() == 0,
        r.sockets_count == 0,
        r.channels_with_sockets_count@.len() == 0,
        !r.exists,
        r.channels@.len() == 0,
        r.members_count == 0,
{
    ResponseBody {
        request_id: request_id.clone(),
        node_id: node_id.clone(),
        app_id: app_id.clone(),
        members: Vec::new(),
        socket_ids: Vec::new(),
        sockets_count: 0,
        channels_with_sockets_count: Vec::new(),
        exists: false,
        channels: Vec::new(),
        members_count: 0,
    }
}

/// This node's answer to a peer's request, from its own namespace of the
/// request's app. A missing channel, socket or user reads as empty.
pub fn process_request(namespace: &Namespace, own_node_id: &String, request: &RequestBody) -> (r: ResponseBody)
    requires
        namespace.wf(),
    ensures
        answers_request(*namespace, own_node_id@, *request, r),
{
    let mut resp = empty_response(&request.request_id, own_node_id, &request.app_id);
    let channel = text_or_empty_exec(&request.channel);
    match request.request_type {
        RequestType::ChannelSocketsCount => {
            resp.sockets_count = namespace.get_channel_socket_count(&channel);
        },
        RequestType::SocketsCount => {
            resp.sockets_count = namespace.get_sockets_count();
        },
        RequestType::CountUserConnectionsInChannel => {
            let user = text_or_empty_exec(&request.user_id);
            resp.sockets_count = namespace.count_user_connections_in_channel(&user, &channel, None);
        },
        RequestType::ChannelSockets => {
            resp.socket_ids = namespace.get_channel_sockets(&channel);
        },
        RequestType::SocketExistsInChannel => {
            let id = text_or_empty_exec(&request.socket_id);
            resp.exists = namespace.is_in_channel(&channel, &id);
        },
        RequestType::ChannelMembers => {
            let ms = namespace.get_channel_members(&channel);
            let mut out: Vec<MemberInfo> = Vec::new();
            let mut i: usize = 0;
            while i < ms.len()
                invariant
                    i <= ms@.len(),
                    out@.len() == i,
                    forall|k: int| 0 <= k < i ==> (#[trigger] out@[k]).user_id@ == ms@[k].user_id@ && out@[k].user_info@ == ms@[k].user_info@,
                decreases ms@.len() - i,
            {
                out.push(MemberInfo { user_id: ms[i].user_id.clone(), user_info: ms[i].user_info.clone() });
                i = i + 1;
            }
            proof {
                assert forall|a: int, b: int| 0 <= a < out@.len() && 0 <= b < out@.len() && a != b
                    implies (#[trigger] out@[a]).user_id@ != (#[trigger] out@[b]).user_id@ by {
                    assert(ms@[a].user_id@ != ms@[b].user_id@);
                }
                assert forall|k: int| 0 <= k < out@.len() implies member_info_in(namespace.subs(), channel@, (#[trigger] out@[k]).user_id@, out@[k].user_info@) by {
                    assert(member_info_in(namespace.subs(), channel@, ms@[k].user_id@, ms@[k].user_info@));
                }
                assert forall|x: Seq<char>| #[trigger] has_member(out@, x) == namespace.presence_user_ids(channel@).contains(x) by {
                    if has_member(out@, x) {
                        let k = choose|k: int| 0 <= k < out@.len() && (#[trigger] out@[k]).user_id@ == x;
                        assert(ms@[k].user_id@ == x);
                    }
                    if namespace.presence_user_ids(channel@).contains(x) {
                        let k = choose|k: int| 0 <= k < ms@.len() && (#[trigger] ms@[k]).user_id@ == x;
                        assert(out@[k].user_id@ == x);
                    }
                }
            }
            resp.members_count = out.len();
            resp.members = out;
        },
        RequestType::TerminateUserConnections => {
            let user = text_or_empty_exec(&request.user_id);
            resp.socket_ids = namespace.get_user_sockets(&user);
        },
        RequestType::ChannelsWithSocketsCount => {
            let cs = namespace.get_channels_with_socket_count();
            let mut out: Vec<ChannelCount> = Vec::new();
            let mut i: usize = 0;
            while i < cs.len()
                invariant
                    i <= cs@.len(),
                    out@.len() == i,
                    forall|k: int| 0 <= k < i ==> (#[trigger] out@[k]).channel@ == cs@[k].0@ && out@[k].count == cs@[k].1,
                decreases cs@.len() - i,
            {
                out.push(ChannelCount { channel: cs[i].0.clone(), count: cs[i].1 });
                i = i + 1;
            }
            proof {
                assert forall|a: int, b: int| 0 <= a < out@.len() && 0 <= b < out@.len() && a != b
                    implies (#[trigger] out@[a]).channel@ != (#[trigger] out@[b]).channel@ by {
                    assert(cs@[a].0@ != cs@[b].0@);
                }
                assert forall|x: Seq<char>| #[trigger] count_listed(out@, x) == namespace.occupied(x) by {
                    assert(listed(cs@, x) == namespace.occupied(x));
                    if exists|k: int| 0 <= k < out@.len() && (#[trigger] out@[k]).channel@ == x {
                        let k = choose|k: int| 0 <= k < out@.len() && (#[trigger] out@[k]).channel@ == x;
                        assert(cs@[k].0@ == x);
                    }
                    if listed(cs@, x) {
                        let k = choose|k: int| 0 <= k < cs@.len() && (#[trigger] cs@[k]).0@ == x;
                        assert(out@[k].channel@ == x);
                    }
                }
            }
            resp.channels_with_sockets_count = out;
        },
    }
    resp
}

/// A request waiting for the answers of the other nodes.
#[derive(Debug)]
pub struct PendingRequest {
    pub request_id: String,
    pub app_id: String,
    pub start_time_ms: u64,
    pub responses: Vec<ResponseBody>,
}

/// The requests of this node that wait for answers; one slot per request id.
pub struct PendingRequests {
    entries: Vec<PendingRequest>,
}

pub open spec fn slot_is(p: PendingRequest, id: Seq<char>) -> bool {
    p.request_id@ == id
}

impl PendingRequests {
    pub closed spec fn slots(&self) -> Seq<PendingRequest> {
        self.entries@
    }

    pub open spec fn wf(&self) -> bool {
        forall|i: int, j: int| 0 <= i < self.slots().len() && 0 <= j < self.slots().len() && i != j
            ==> (#[trigger] self.slots()[i]).request_id@ != (#[trigger] self.slots()[j]).request_id@
    }

    /// A slot for `id` is open.
    pub open spec fn is_pending(&self, id: Seq<char>) -> bool {
        exists|i: int| 0 <= i < self.slots().len() && #[trigger] slot_is(self.slots()[i], id)
    }

    /// The answers collected so far for `id`.
    pub open spec fn collected(&self, id: Seq<char>) -> Seq<ResponseBody> {
        self.slots()[choose|i: int| 0 <= i < self.slots().len() && #[trigger] slot_is(self.slots()[i], id)].responses@
    }

    pub fn new() -> (r: PendingRequests)
        ensures
            r.wf(),
            forall|id: Seq<char>| !r.is_pending(id),
    {
        PendingRequests { entries: Vec::new() }
    }

    fn find(&self, request_id: &String) -> (r: Option<usize>)
        ensures
            r.is_none() == !self.is_pending(request_id@),
            r is Some ==> r->Some_0 < self.slots().len() && slot_is(self.slots()[r->Some_0 as int], request_id@),
    {
        let mut i: usize = 0;
        while i < self.entries.len()
            invariant
                i <= self.entries@.len(),
                forall|j: int| 0 <= j < i ==> !slot_is(#[trigger] self.entries@[j], request_id@),
            decreases self.entries@.len() - i,
        {
            if self.entries[i].request_id == *request_id {
                assert(self.slots() == self.entries@);
                assert(slot_is(self.slots()[i as int], request_id@));
                return Some(i);
            }
            i = i + 1;
        }
        None
    }

    /// Opens a slot for a new request; `false` (and no change) if one is open.
    pub fn insert(&mut self, request_id: &String, app_id: &String, start_time_ms: u64) -> (r: bool)
        requires
            old(self).wf(),
        ensures
            final(self).wf(),
            r == !old(self).is_pending(request_id@),
            !r ==> final(self).slots() == old(self).slots(),
            r ==> final(self).is_pending(request_id@) && final(self).collected(request_id@).len() == 0,
            r ==> forall|id: Seq<char>| id != request_id@ ==> (#[trigger] final(self).is_pending(id) == old(self).is_pending(id)
                && (old(self).is_pending(id) ==> final(self).collected(id) == old(self).collected(id))),
    {
        if self.find(request_id).is_some() {
            return false;
        }
        let ghost before = self.entries@;
        self.entries.push(PendingRequest {
            request_id: request_id.clone(),
            app_id: app_id.clone(),
            start_time_ms,
            responses: Vec::new(),
        });
        proof {
            let new = self.entries@;
            assert(old(self).slots() == before);
            assert(self.slots() == new);
            assert(slot_is(new[before.len() as int], request_id@));
            assert forall|i: int, j: int| 0 <= i < new.len() && 0 <= j < new.len() && i != j
                implies (#[trigger] new[i]).request_id@ != (#[trigger] new[j]).request_id@ by {
                if i < before.len() && j < before.len() {
                    assert(new[i] == before[i] && new[j] == before[j]);
                } else if i < before.len() {
                    assert(new[i] == before[i]);
                    assert(!slot_is(before[i], request_id@));
                } else {
                    assert(new[j] == before[j]);
                    assert(!slot_is(before[j], request_id@));
                }
            }
            let k = choose|i: int| 0 <= i < new.len() && #[trigger] slot_is(new[i], request_id@);
            assert(k == before.len());
            assert forall|id: Seq<char>| id != request_id@ implies (#[trigger] self.is_pending(id) == old(self).is_pending(id)
                && (old(self).is_pending(id) ==> self.collected(id) == old(self).collected(id))) by {
                if self.is_pending(id) {
                    let i = choose|i: int| 0 <= i < new.len() && #[trigger] slot_is(new[i], id);
                    assert(i < before.len());
                    assert(slot_is(before[i], id));
                }
                if old(self).is_pending(id) {
                    let i = choose|i: int| 0 <= i < before.len() && #[trigger] slot_is(before[i], id);
                    assert(slot_is(new[i], id));
                    let a = choose|i: int| 0 <= i < new.len() && #[trigger] slot_is(new[i], id);
                    assert(a < before.len());
                }
            }
        }
        true
    }

    /// Files a peer's answer under its request; `false` if no slot is open
    /// for its `request_id` (a late answer), in which case it is dropped.
    pub fn add_response(&mut self, response: ResponseBody) -> (r: bool)
        requires
            old(self).wf(),
        ensures
            final(self).wf(),
            r == old(self).is_pending(response.request_id@),
            forall|id: Seq<char>| #[trigger] final(self).is_pending(id) == old(self).is_pending(id),
            r ==> final(self).collected(response.request_id@) == old(self).collected(response.request_id@).push(response),
            forall|id: Seq<char>| id != response.request_id@ && old(self).is_pending(id)
                ==> #[trigger] final(self).collected(id) == old(self).collected(id),
    {
        let k = match self.find(&response.request_id) {
            Some(k) => k,
            None => {
                return false;
            },
        };
        let ghost before = self.entries@;
        let ghost rid = response.request_id@;
        let mut slot = self.entries.remove(k);
        slot.responses.push(response);
        self.entries.insert(k, slot);
        proof {
            let new = self.entries@;
            assert(old(self).slots() == before);
            assert(self.slots() == new);
            assert(new.len() == before.len());
            assert forall|i: int| 0 <= i < new.len() && i != k implies #[trigger] new[i] == before[i] by {}
            assert(new[k as int].request_id@ == before[k as int].request_id@);
            assert forall|i: int, j: int| 0 <= i < new.len() && 0 <= j < new.len() && i != j
                implies (#[trigger] new[i]).request_id@ != (#[trigger] new[j]).request_id@ by {
                assert(new[i].request_id@ == before[i].request_id@);
                assert(new[j].request_id@ == before[j].request_id@);
            }
            assert forall|i: int| 0 <= i < new.len() implies #[trigger] slot_is(new[i], rid) == slot_is(before[i], rid) by {
                assert(new[i].request_id@ == before[i].request_id@);
            }
            assert forall|id: Seq<char>| #[trigger] self.is_pending(id) == old(self).is_pending(id) by {
                if self.is_pending(id) {
                    let i = choose|i: int| 0 <= i < new.len() && #[trigger] slot_is(new[i], id);
                    assert(new[i].request_id@ == before[i].request_id@);
                    assert(slot_is(before[i], id));
                }
                if old(self).is_pending(id) {
                    let i = choose|i: int| 0 <= i < before.len() && #[trigger] slot_is(before[i], id);
                    assert(new[i].request_id@ == before[i].request_id@);
                    assert(slot_is(new[i], id));
                }
            }
            let a = choose|i: int| 0 <= i < new.len() && #[trigger] slot_is(new[i], rid);
            let b = choose|i: int| 0 <= i < before.len() && #[trigger] slot_is(before[i], rid);
            assert(slot_is(new[k as int], rid));
            assert(a == k);
            assert(slot_is(before[k as int], rid));
            assert(b == k);
            assert forall|id: Seq<char>| id != rid && old(self).is_pending(id)
                implies #[trigger] self.collected(id) == old(self).collected(id) by {
                assert(self.is_pending(id));
                let a2 = choose|i: int| 0 <= i < new.len() && #[trigger] slot_is(new[i], id);
                let b2 = choose|i: int| 0 <= i < before.len() && #[trigger] slot_is(before[i], id);
                assert(new[a2].request_id@ == before[a2].request_id@);
                assert(slot_is(before[a2], id));
                assert(a2 == b2);
                assert(a2 != k);
            }
        }
        true
    }

    /// How many answers `request_id` has collected, if its slot is open.
    pub fn response_count(&self, request_id: &String) -> (r: Option<usize>)
        requires
            self.wf(),
        ensures
            r is Some == self.is_pending(request_id@),
            r is Some ==> r->Some_0 == self.collected(request_id@).len(),
    {
        match self.find(request_id) {
            Some(k) => {
                proof {
                    assert(self.slots() == self.entries@);
                    let a = choose|i: int| 0 <= i < self.slots().len() && #[trigger] slot_is(self.slots()[i], request_id@);
                    assert(a == k);
                }
                Some(self.entries[k].responses.len())
            },
            None => None,
        }
    }

    /// Closes the slot of `request_id` and hands back what it collected.
    pub fn remove(&mut self, request_id: &String) -> (r: Option<Vec<ResponseBody>>)
        requires
            old(self).wf(),
        ensures
            final(self).wf(),
            r is Some == old(self).is_pending(request_id@),
            r is Some ==> r->Some_0@ == old(self).collected(request_id@),
            !final(self).is_pending(request_id@),
            forall|id: Seq<char>| id != request_id@ ==> (#[trigger] final(self).is_pending(id) == old(self).is_pending(id)
                && (old(self).is_pending(id) ==> final(self).collected(id) == old(self).collected(id))),
    {
        let k = match self.find(request_id) {
            Some(k) => k,
            None => {
                return None;
            },
        };
        let ghost before = self.entries@;
        let slot = self.entries.remove(k);
        proof {
            let new = self.entries@;
            assert(old(self).slots() == before);
            assert(self.slots() == new);
            assert forall|i: int| 0 <= i < new.len() implies #[trigger] new[i] == (if i < k { before[i] } else { before[i + 1] }) by {}
            let a = choose|i: int| 0 <= i < before.len() && #[trigger] slot_is(before[i], request_id@);
            assert(slot_is(before[k as int], request_id@));
            assert(a == k);
            assert forall|i: int, j: int| 0 <= i < new.len() && 0 <= j < new.len() && i != j
                implies (#[trigger] new[i]).request_id@ != (#[trigger] new[j]).request_id@ by {
                let oi = if i < k { i } else { i + 1 };
                let oj = if j < k { j } else { j + 1 };
                assert(new[i] == before[oi] && new[j] == before[oj]);
            }
            if self.is_pending(request_id@) {
                let i = choose|i: int| 0 <= i < new.len() && #[trigger] slot_is(new[i], request_id@);
                let oi = if i < k { i } else { i + 1 };
                assert(slot_is(before[oi], request_id@));
            }
            assert forall|id: Seq<char>| id != request_id@ implies (#[trigger] self.is_pending(id) == old(self).is_pending(id)
                && (old(self).is_pending(id) ==> self.collected(id) == old(self).collected(id))) by {
                if self.is_pending(id) {
                    let i = choose|i: int| 0 <= i < new.len() && #[trigger] slot_is(new[i], id);
                    let oi = if i < k { i } else { i + 1 };
                    assert(slot_is(before[oi], id));
                }
                if old(self).is_pending(id) {
                    let i = choose|i: int| 0 <= i < before.len() && #[trigger] slot_is(before[i], id);
                    assert(i != k);
                    let ni = if i < k { i } else { i - 1 };
                    assert(slot_is(new[ni], id));
                    let a2 = choose|i: int| 0 <= i < new.len() && #[trigger] slot_is(new[i], id);
                    let oa = if a2 < k { a2 } else { a2 + 1 };
                    assert(slot_is(before[oa], id));
                    assert(oa == i);
                }
            }
        }
        Some(slot.responses)
    }

    /// Closes every slot opened `max_age_ms` or more before `now_ms` (a
    /// request whose waiter is gone); the others stay as they are. Returns how
    /// many were closed.
    pub fn remove_expired(&mut self, now_ms: u64, max_age_ms: u64) -> (r: usize)
        requires
            old(self).wf(),
        ensures
            final(self).wf(),
            forall|k: int| 0 <= k < final(self).slots().len() ==> !is_expired(#[trigger] final(self).slots()[k], now_ms, max_age_ms),
            forall|k: int| 0 <= k < final(self).slots().len() ==> old(self).slots().contains(#[trigger] final(self).slots()[k]),
            forall|m: int| 0 <= m < old(self).slots().len() && !is_expired(#[trigger] old(self).slots()[m], now_ms, max_age_ms)
                ==> final(self).slots().contains(old(self).slots()[m]),
            r == old(self).slots().len() - final(self).slots().len(),
    {
        let ghost orig = self.entries@;
        assert(orig.len() <= usize::MAX) by {
            assert(orig.len() == self.entries.len());
        }
        let mut i: usize = 0;
        let mut removed: usize = 0;
        while i < self.entries.len()
            invariant
                i <= self.entries@.len(),
                orig.len() <= usize::MAX,
                removed + self.entries@.len() == orig.len(),
                forall|a: int, b: int| 0 <= a < self.entries@.len() && 0 <= b < self.entries@.len() && a != b
                    ==> (#[trigger] self.entries@[a]).request_id@ != (#[trigger] self.entries@[b]).request_id@,
                forall|k: int| 0 <= k < i ==> !is_expired(#[trigger] self.entries@[k], now_ms, max_age_ms),
                self.entries@.subrange(i as int, self.entries@.len() as int) == orig.subrange(i + removed, orig.len() as int),
                forall|k: int| 0 <= k < self.entries@.len() ==> orig.contains(#[trigger] self.entries@[k]),
                forall|m: int| 0 <= m < i + removed && !is_expired(#[trigger] orig[m], now_ms, max_age_ms)
                    ==> self.entries@.subrange(0, i as int).contains(orig[m]),
            decreases self.entries@.len() - i,
        {
            let ghost before = self.entries@;
            let start = self.entries[i].start_time_ms;
            if now_ms >= start && now_ms - start >= max_age_ms {
                assert(before[i as int] == orig[i + removed]) by {
                    assert(before.subrange(i as int, before.len() as int)[0] == before[i as int]);
                }
                self.entries.remove(i);
                proof {
                    let after = self.entries@;
                    assert forall|k: int| 0 <= k < after.len() implies #[trigger] after[k] == (if k < i { before[k] } else { before[k + 1] }) by {}
                    assert forall|a: int, b: int| 0 <= a < after.len() && 0 <= b < after.len() && a != b
                        implies (#[trigger] after[a]).request_id@ != (#[trigger] after[b]).request_id@ by {
                        let oa = if a < i { a } else { a + 1 };
                        let ob = if b < i { b } else { b + 1 };
                        assert(after[a] == before[oa] && after[b] == before[ob]);
                    }
                    assert(after.subrange(i as int, after.len() as int) =~= orig.subrange(i + removed + 1, orig.len() as int)) by {
                        assert forall|k: int| 0 <= k < after.len() - i implies #[trigger] after.subrange(i as int, after.len() as int)[k]
                            == orig.subrange(i + removed + 1, orig.len() as int)[k] by {
                            assert(after[i + k] == before[i + k + 1]);
                            assert(before.subrange(i as int, before.len() as int)[k + 1] == before[i + k + 1]);
                        }
                    }
                    assert(after.subrange(0, i as int) =~= before.subrange(0, i as int));
                    assert forall|k: int| 0 <= k < after.len() implies orig.contains(#[trigger] after[k]) by {
                        let ok = if k < i { k } else { k + 1 };
                        assert(after[k] == before[ok]);
                    }
                    assert forall|m: int| 0 <= m < i + removed + 1 && !is_expired(#[trigger] orig[m], now_ms, max_age_ms)
                        implies after.subrange(0, i as int).contains(orig[m]) by {
                        if m == i + removed {
                            assert(is_expired(orig[m], now_ms, max_age_ms));
                        }
                    }
                }
                removed = removed + 1;
            } else {
                proof {
                    let cur = self.entries@;
                    assert(cur[i as int] == orig[i + removed]) by {
                        assert(cur.subrange(i as int, cur.len() as int)[0] == cur[i as int]);
                    }
                    assert(cur.subrange(i + 1, cur.len() as int) =~= orig.subrange(i + removed + 1, orig.len() as int)) by {
                        assert forall|k: int| 0 <= k < cur.len() - i - 1 implies #[trigger] cur.subrange(i + 1, cur.len() as int)[k]
                            == orig.subrange(i + removed + 1, orig.len() as int)[k] by {
                            assert(cur.subrange(i as int, cur.len() as int)[k + 1] == cur[i + 1 + k]);
                        }
                    }
                    assert forall|m: int| 0 <= m < i + 1 + removed && !is_expired(#[trigger] orig[m], now_ms, max_age_ms)
                        implies cur.subrange(0, i + 1).contains(orig[m]) by {
                        if m < i + removed {
                            let w = choose|w: int| 0 <= w < i && cur.subrange(0, i as int)[w] == orig[m];
                            assert(cur.subrange(0, i + 1)[w] == orig[m]);
                        } else {
                            assert(cur.subrange(0, i + 1)[i as int] == orig[m]);
                        }
                    }
                }
                i = i + 1;
            }
        }
        proof {
            assert(self.slots() == self.entries@);
            assert(old(self).slots() == orig);
            assert(self.entries@.subrange(0, i as int) =~= self.entries@);
        }
        removed
    }
}

/// The slot was opened `max_age_ms` or more before `now_ms`.
pub open spec fn is_expired(p: PendingRequest, now_ms: u64, max_age_ms: u64) -> bool {
    now_ms >= p.start_time_ms && now_ms - p.start_time_ms >= max_age_ms
}

/// Appends to `out` an entry for each channel of `src` that has none yet
/// (its count is filled in later).
fn add_channel_entries(out: &mut Vec<ChannelCount>, src: &Vec<ChannelCount>)
    requires
        forall|a: int, b: int| 0 <= a < old(out)@.len() && 0 <= b < old(out)@.len() && a != b ==> (#[trigger] old(out)@[a]).channel@ != (#[trigger] old(out)@[b]).channel@,
    ensures
        forall|a: int, b: int| 0 <= a < final(out)@.len() && 0 <= b < final(out)@.len() && a != b ==> (#[trigger] final(out)@[a]).channel@ != (#[trigger] final(out)@[b]).channel@,
        forall|c: Seq<char>| #[trigger] count_listed(final(out)@, c) == (count_listed(old(out)@, c) || count_listed(src@, c)),
{
    let mut i: usize = 0;
    while i < src.len()
        invariant
            i <= src@.len(),
            forall|a: int, b: int| 0 <= a < out@.len() && 0 <= b < out@.len() && a != b ==> (#[trigger] out@[a]).channel@ != (#[trigger] out@[b]).channel@,
            forall|c: Seq<char>| #[trigger] count_listed(out@, c) == (count_listed(old(out)@, c) || count_listed(src@.take(i as int), c)),
        decreases src@.len() - i,
    {
        let e = &src[i];
        let found = find_count(out, &e.channel).is_some();
        let ghost before = out@;
        if !found {
            out.push(ChannelCount { channel: e.channel.clone(), count: 0 });
        }
        proof {
            let t = src@.take(i as int);
            let t1 = src@.take(i + 1);
            assert forall|a: int, b: int| 0 <= a < out@.len() && 0 <= b < out@.len() && a != b
                implies (#[trigger] out@[a]).channel@ != (#[trigger] out@[b]).channel@ by {
                if a < before.len() && b < before.len() {
                    assert(out@[a] == before[a] && out@[b] == before[b]);
                } else if a < before.len() {
                    assert(out@[a] == before[a]);
                } else {
                    assert(out@[b] == before[b]);
                }
            }
            assert forall|c: Seq<char>| #[trigger] count_listed(t1, c) == (count_listed(t, c) || c == e.channel@) by {
                if count_listed(t1, c) {
                    let a = choose|a: int| 0 <= a < t1.len() && (#[trigger] t1[a]).channel@ == c;
                    if a < i {
                        assert(t[a] == t1[a]);
                    }
                }
                if count_listed(t, c) {
                    let a = choose|a: int| 0 <= a < t.len() && (#[trigger] t[a]).channel@ == c;
                    assert(t1[a] == t[a]);
                }
                if c == e.channel@ {
                    assert(t1[i as int] == src@[i as int]);
                }
            }
            assert forall|c: Seq<char>| #[trigger] count_listed(out@, c) == (count_listed(before, c) || c == e.channel@) by {
                if !found {
                    if count_listed(out@, c) {
                        let a = choose|a: int| 0 <= a < out@.len() && (#[trigger] out@[a]).channel@ == c;
                        if a < before.len() {
                            assert(out@[a] == before[a]);
                        }
                    }
                    if count_listed(before, c) {
                        let a = choose|a: int| 0 <= a < before.len() && (#[trigger] before[a]).channel@ == c;
                        assert(out@[a] == before[a]);
                    }
                    if c == e.channel@ {
                        assert(out@[before.len() as int].channel@ == c);
                    }
                }
            }
        }
        i = i + 1;
    }
    assert(src@.take(i as int) =~= src@);
}

fn find_count(v: &Vec<ChannelCount>, c: &String) -> (r: Option<usize>)
    ensures
        r is None ==> !count_listed(v@, c@),
        r is Some ==> r->Some_0 < v@.len() && v@[r->Some_0 as int].channel@ == c@,
{
    let mut k: usize = 0;
    while k < v.len()
        invariant
            k <= v@.len(),
            forall|a: int| 0 <= a < k ==> (#[trigger] v@[a]).channel@ != c@,
        decreases v@.len() - k,
    {
        if v[k].channel == *c {
            return Some(k);
        }
        k = k + 1;
    }
    None
}

/// Channel `c` has an entry in a list of channel counts.
pub open spec fn count_listed(v: Seq<ChannelCount>, c: Seq<char>) -> bool {
    exists|a: int| 0 <= a < v.len() && (#[trigger] v[a]).channel@ == c
}

/// Channel `c` has an entry in some response's channel counts.
pub open spec fn count_in_some_response(rs: Seq<ResponseBody>, c: Seq<char>) -> bool {
    exists|i: int| 0 <= i < rs.len() && count_listed((#[trigger] rs[i]).channels_with_sockets_count@, c)
}

/// `x` clamped to `usize`.
pub open spec fn sat(x: int) -> int {
    if x > usize::MAX { usize::MAX as int } else { x }
}

/// Sum of the counts of the entries for channel `c`.
pub open spec fn chan_total(v: Seq<ChannelCount>, c: Seq<char>) -> int
    decreases v.len(),
{
    if v.len() == 0 {
        0
    } else {
        chan_total(v.drop_last(), c) + if v.last().channel@ == c { v.last().count as int } else { 0 }
    }
}

/// Sum over the responses of their counts for channel `c`.
pub open spec fn resp_chan_total(rs: Seq<ResponseBody>, c: Seq<char>) -> int
    decreases rs.len(),
{
    if rs.len() == 0 {
        0
    } else {
        resp_chan_total(rs.drop_last(), c) + chan_total(rs.last().channels_with_sockets_count@, c)
    }
}

proof fn lemma_chan_total_nonneg(v: Seq<ChannelCount>, c: Seq<char>)
    ensures
        chan_total(v, c) >= 0,
    decreases v.len(),
{
    if v.len() > 0 {
        lemma_chan_total_nonneg(v.drop_last(), c);
    }
}

proof fn lemma_resp_chan_total_nonneg(rs: Seq<ResponseBody>, c: Seq<char>)
    ensures
        resp_chan_total(rs, c) >= 0,
    decreases rs.len(),
{
    if rs.len() > 0 {
        lemma_resp_chan_total_nonneg(rs.drop_last(), c);
        lemma_chan_total_nonneg(rs.last().channels_with_sockets_count@, c);
    }
}

/// The clamped sum of the counts that `v` holds for channel `c`.
fn chan_total_exec(v: &Vec<ChannelCount>, c: &String) -> (r: usize)
    ensures
        r == sat(chan_total(v@, c@)),
{
    let mut total: usize = 0;
    let mut i: usize = 0;
    while i < v.len()
        invariant
            i <= v@.len(),
            total == sat(chan_total(v@.take(i as int), c@)),
        decreases v@.len() - i,
    {
        proof {
            assert(v@.take(i + 1).drop_last() =~= v@.take(i as int));
            lemma_chan_total_nonneg(v@.take(i as int), c@);
        }
        if v[i].channel == *c {
            total = total.saturating_add(v[i].count);
        }
        i = i + 1;
    }
    assert(v@.take(i as int) =~= v@);
    total
}

/// The clamped sum of the counts for channel `c` in `local` and every response.
fn total_for(c: &String, local: &Vec<ChannelCount>, responses: &Vec<ResponseBody>) -> (r: usize)
    ensures
        r == sat(chan_total(local@, c@) + resp_chan_total(responses@, c@)),
{
    let mut total: usize = chan_total_exec(local, c);
    proof { lemma_chan_total_nonneg(local@, c@); }
    let mut j: usize = 0;
    while j < responses.len()
        invariant
            j <= responses@.len(),
            chan_total(local@, c@) >= 0,
            total == sat(chan_total(local@, c@) + resp_chan_total(responses@.take(j as int), c@)),
        decreases responses@.len() - j,
    {
        proof {
            assert(responses@.take(j + 1).drop_last() =~= responses@.take(j as int));
            lemma_resp_chan_total_nonneg(responses@.take(j as int), c@);
            lemma_chan_total_nonneg(responses@[j as int].channels_with_sockets_count@, c@);
        }
        let part = chan_total_exec(&responses[j].channels_with_sockets_count, c);
        total = total.saturating_add(part);
        j = j + 1;
    }
    assert(responses@.take(j as int) =~= responses@);
    total
}

/// The per-channel counts of `local` and every response, one entry per
/// channel, counts of the same channel added (saturating).
pub fn merge_channel_counts(local: &Vec<ChannelCount>, responses: &Vec<ResponseBody>) -> (r: Vec<ChannelCount>)
    ensures
        forall|a: int, b: int| 0 <= a < r@.len() && 0 <= b < r@.len() && a != b ==> (#[trigger] r@[a]).channel@ != (#[trigger] r@[b]).channel@,
        forall|c: Seq<char>| #[trigger] count_listed(r@, c) == (count_listed(local@, c) || count_in_some_response(responses@, c)),
        forall|k: int| 0 <= k < r@.len() ==> (#[trigger] r@[k]).count == sat(chan_total(local@, r@[k].channel@) + resp_chan_total(responses@, r@[k].channel@)),
{
    let mut out: Vec<ChannelCount> = Vec::new();
    add_channel_entries(&mut out, local);
    let mut j: usize = 0;
    while j < responses.len()
        invariant
            j <= responses@.len(),
            forall|a: int, b: int| 0 <= a < out@.len() && 0 <= b < out@.len() && a != b ==> (#[trigger] out@[a]).channel@ != (#[trigger] out@[b]).channel@,
            forall|c: Seq<char>| #[trigger] count_listed(out@, c) == (count_listed(local@, c) || count_in_some_response(responses@.take(j as int), c)),
        decreases responses@.len() - j,
    {
        add_channel_entries(&mut out, &responses[j].channels_with_sockets_count);
        proof {
            let t = responses@.take(j as int);
            let t1 = responses@.take(j + 1);
            assert forall|c: Seq<char>| #[trigger] count_in_some_response(t1, c)
                == (count_in_some_response(t, c) || count_listed(responses@[j as int].channels_with_sockets_count@, c)) by {
                if count_in_some_response(t1, c) {
                    let a = choose|a: int| 0 <= a < t1.len() && count_listed((#[trigger] t1[a]).channels_with_sockets_count@, c);
                    if a < j {
                        assert(t[a] == t1[a]);
                    }
                }
                if count_in_some_response(t, c) {
                    let a = choose|a: int| 0 <= a < t.len() && count_listed((#[trigger] t[a]).channels_with_sockets_count@, c);
                    assert(t1[a] == t[a]);
                }
                if count_listed(responses@[j as int].channels_with_sockets_count@, c) {
                    assert(t1[j as int] == responses@[j as int]);
                }
            }
        }
        j = j + 1;
    }
    assert(responses@.take(j as int) =~= responses@);
    let mut summed: Vec<ChannelCount> = Vec::new();
    let mut k: usize = 0;
    while k < out.len()
        invariant
            k <= out@.len(),
            summed@.len() == k,
            forall|a: int| 0 <= a < k ==> (#[trigger] summed@[a]).channel@ == out@[a].channel@
                && summed@[a].count == sat(chan_total(local@, out@[a].channel@) + resp_chan_total(responses@, out@[a].channel@)),
        decreases out@.len() - k,
    {
        let n = total_for(&out[k].channel, local, responses);
        summed.push(ChannelCount { channel: out[k].channel.clone(), count: n });
        k = k + 1;
    }
    proof {
        assert forall|a: int, b: int| 0 <= a < summed@.len() && 0 <= b < summed@.len() && a != b
            implies (#[trigger] summed@[a]).channel@ != (#[trigger] summed@[b]).channel@ by {
            assert(out@[a].channel@ != out@[b].channel@);
        }
        assert forall|c: Seq<char>| #[trigger] count_listed(summed@, c) == count_listed(out@, c) by {
            if count_listed(summed@, c) {
                let a = choose|a: int| 0 <= a < summed@.len() && (#[trigger] summed@[a]).channel@ == c;
                assert(out@[a].channel@ == c);
            }
            if count_listed(out@, c) {
                let a = choose|a: int| 0 <= a < out@.len() && (#[trigger] out@[a]).channel@ == c;
                assert(summed@[a].channel@ == c);
            }
        }
    }
    summed
}

/// Combines the peers' answers to one request, by request type: counts are
/// added, socket ids and members united, `exists` or-ed, per-channel counts
/// added per channel; a termination request carries nothing back.
pub fn aggregate_responses(request_id: &String, node_id: &String, app_id: &String, request_type: RequestType, responses: &Vec<ResponseBody>) -> (r: ResponseBody)
    ensures
        r.request_id@ == request_id@,
        r.node_id@ == node_id@,
        r.app_id@ == app_id@,
        match request_type {
            RequestType::ChannelSocketsCount | RequestType::SocketsCount | RequestType::CountUserConnectionsInChannel =>
                r.sockets_count == sat_add(0, count_sum(responses@)),
            RequestType::ChannelSockets => seq_unique(r.socket_ids@)
                && forall|id: Seq<char>| #[trigger] seq_has(r.socket_ids@, id) == in_some_response(responses@, id),
            RequestType::SocketExistsInChannel => r.exists == any_exists(responses@),
            RequestType::ChannelMembers => members_unique(r.members@) && r.members_count == r.members@.len()
                && forall|u: Seq<char>| #[trigger] has_member(r.members@, u) == member_in_some_response(responses@, u),
            RequestType::ChannelsWithSocketsCount =>
                (forall|c: Seq<char>| #[trigger] count_listed(r.channels_with_sockets_count@, c) == count_in_some_response(responses@, c))
                && forall|k: int| 0 <= k < r.channels_with_sockets_count@.len() ==> (#[trigger] r.channels_with_sockets_count@[k]).count
                    == sat(resp_chan_total(responses@, r.channels_with_sockets_count@[k].channel@)),
            RequestType::TerminateUserConnections => r.socket_ids@.len() == 0 && r.sockets_count == 0,
        },
{
    let mut resp = empty_response(request_id, node_id, app_id);
    match request_type {
        RequestType::ChannelSocketsCount | RequestType::SocketsCount | RequestType::CountUserConnectionsInChannel => {
            resp.sockets_count = sum_counts(0, responses);
        },
        RequestType::ChannelSockets => {
            let none: Vec<String> = Vec::new();
            resp.socket_ids = union_socket_ids(&none, responses);
        },
        RequestType::SocketExistsInChannel => {
            resp.exists = any_response_exists(false, responses);
        },
        RequestType::ChannelMembers => {
            let none: Vec<MemberInfo> = Vec::new();
            let ms = merge_members(&none, responses);
            resp.members_count = ms.len();
            resp.members = ms;
        },
        RequestType::ChannelsWithSocketsCount => {
            let none: Vec<ChannelCount> = Vec::new();
            let merged = merge_channel_counts(&none, responses);
            proof {
                assert forall|c: Seq<char>| chan_total(none@, c) == 0 by {}
            }
            resp.channels_with_sockets_count = merged;
        },
        RequestType::TerminateUserConnections => {},
    }
    resp
}

/// `r` is node `own`'s answer to `request` from namespace `ns`: it echoes
/// the request, and holds what the request type asks for.
pub open spec fn answers_request(ns: Namespace, own: Seq<char>, request: RequestBody, r: ResponseBody) -> bool {
    let c = text_or_empty(request.channel);
    let u = text_or_empty(request.user_id);
    let id = text_or_empty(request.socket_id);
    &&& r.request_id@ == request.request_id@
    &&& r.node_id@ == own
    &&& r.app_id@ == request.app_id@
    &&& match request.request_type {
        RequestType::ChannelSocketsCount => r.sockets_count == count_channel(ns.subs(), c),
        RequestType::SocketsCount => r.sockets_count == ns.live().len(),
        RequestType::CountUserConnectionsInChannel => r.sockets_count == count_user_in_channel(ns.subs(), c, u, None),
        RequestType::ChannelSockets => seq_unique(r.socket_ids@)
            && forall|x: Seq<char>| #[trigger] seq_has(r.socket_ids@, x) == ns.subscribed(c, x),
        RequestType::SocketExistsInChannel => r.exists == ns.subscribed(c, id),
        RequestType::ChannelMembers => members_unique(r.members@)
            && r.members_count == r.members@.len()
            && (forall|x: Seq<char>| #[trigger] has_member(r.members@, x) == ns.presence_user_ids(c).contains(x))
            && forall|k: int| 0 <= k < r.members@.len() ==> member_info_in(ns.subs(), c, (#[trigger] r.members@[k]).user_id@, r.members@[k].user_info@),
        RequestType::TerminateUserConnections => seq_unique(r.socket_ids@)
            && forall|x: Seq<char>| #[trigger] seq_has(r.socket_ids@, x) == ns.user_has_socket(u, x),
        RequestType::ChannelsWithSocketsCount => counts_unique(r.channels_with_sockets_count@)
            && (forall|k: int| 0 <= k < r.channels_with_sockets_count@.len()
                ==> (#[trigger] r.channels_with_sockets_count@[k]).count == count_channel(ns.subs(), r.channels_with_sockets_count@[k].channel@))
            && forall|x: Seq<char>| #[trigger] count_listed(r.channels_with_sockets_count@, x) == ns.occupied(x),
    }
}

pub open spec fn counts_unique(v: Seq<ChannelCount>) -> bool {
    forall|a: int, b: int| 0 <= a < v.len() && 0 <= b < v.len() && a != b ==> (#[trigger] v[a]).channel@ != (#[trigger] v[b]).channel@
}

/// A list with one entry per channel sums, for a channel, that entry's count.
proof fn lemma_chan_total_unique(v: Seq<ChannelCount>, c: Seq<char>)
    requires
        counts_unique(v),
    ensures
        !count_listed(v, c) ==> chan_total(v, c) == 0,
        forall|k: int| 0 <= k < v.len() && (#[trigger] v[k]).channel@ == c ==> chan_total(v, c) == v[k].count,
    decreases v.len(),
{
    if v.len() > 0 {
        let w = v.drop_last();
        assert(counts_unique(w)) by {
            assert forall|a: int, b: int| 0 <= a < w.len() && 0 <= b < w.len() && a != b
                implies (#[trigger] w[a]).channel@ != (#[trigger] w[b]).channel@ by {
                assert(w[a] == v[a] && w[b] == v[b]);
            }
        }
        lemma_chan_total_unique(w, c);
        if !count_listed(v, c) {
            assert(v.last().channel@ != c) by {
                if v.last().channel@ == c {
                    assert(v[v.len() - 1].channel@ == c);
                }
            }
            assert(!count_listed(w, c)) by {
                if count_listed(w, c) {
                    let a = choose|a: int| 0 <= a < w.len() && (#[trigger] w[a]).channel@ == c;
                    assert(v[a].channel@ == c);
                }
            }
        }
        assert forall|k: int| 0 <= k < v.len() && (#[trigger] v[k]).channel@ == c implies chan_total(v, c) == v[k].count by {
            if k == v.len() - 1 {
                assert(!count_listed(w, c)) by {
                    if count_listed(w, c) {
                        let a = choose|a: int| 0 <= a < w.len() && (#[trigger] w[a]).channel@ == c;
                        assert(v[a].channel@ == v[k].channel@);
                    }
                }
            } else {
                assert(w[k] == v[k]);
                assert(v.last().channel@ != c) by {
                    assert(v[v.len() - 1].channel@ != v[k].channel@);
                }
            }
        }
    }
}

/// Combines this node's own answer `local` with the peers' answers: counts
/// are added to the local count, socket ids united with the local ones,
/// `exists` holds if it holds locally or anywhere, members are united with the
/// local member of a user winning, per-channel counts are added per channel; a
/// termination carries the local sockets to close.
pub fn combine_with_local(local: &ResponseBody, request_type: RequestType, responses: &Vec<ResponseBody>) -> (r: ResponseBody)
    ensures
        r.request_id@ == local.request_id@,
        r.node_id@ == local.node_id@,
        r.app_id@ == local.app_id@,
        match request_type {
            RequestType::ChannelSocketsCount | RequestType::SocketsCount | RequestType::CountUserConnectionsInChannel =>
                r.sockets_count == sat_add(local.sockets_count as int, count_sum(responses@)),
            RequestType::ChannelSockets => seq_unique(r.socket_ids@)
                && forall|id: Seq<char>| #[trigger] seq_has(r.socket_ids@, id) == (seq_has(local.socket_ids@, id) || in_some_response(responses@, id)),
            RequestType::SocketExistsInChannel => r.exists == (local.exists || any_exists(responses@)),
            RequestType::ChannelMembers => members_unique(r.members@) && r.members_count == r.members@.len()
                && (forall|u: Seq<char>| #[trigger] has_member(r.members@, u) == (has_member(local.members@, u) || member_in_some_response(responses@, u)))
                && (forall|k: int| 0 <= k < r.members@.len() && has_member(local.members@, (#[trigger] r.members@[k]).user_id@)
                    ==> local_source(local.members@, r.members@[k]))
                && forall|k: int| 0 <= k < r.members@.len() && !has_member(local.members@, (#[trigger] r.members@[k]).user_id@)
                    ==> remote_source(responses@, r.members@[k]),
            RequestType::ChannelsWithSocketsCount =>
                (forall|c: Seq<char>| #[trigger] count_listed(r.channels_with_sockets_count@, c)
                    == (count_listed(local.channels_with_sockets_count@, c) || count_in_some_response(responses@, c)))
                && forall|k: int| 0 <= k < r.channels_with_sockets_count@.len() ==> (#[trigger] r.channels_with_sockets_count@[k]).count
                    == sat(chan_total(local.channels_with_sockets_count@, r.channels_with_sockets_count@[k].channel@)
                        + resp_chan_total(responses@, r.channels_with_sockets_count@[k].channel@)),
            RequestType::TerminateUserConnections => seq_unique(r.socket_ids@)
                && forall|id: Seq<char>| #[trigger] seq_has(r.socket_ids@, id) == seq_has(local.socket_ids@, id),
        },
{
    let mut resp = empty_response(&local.request_id, &local.node_id, &local.app_id);
    match request_type {
        RequestType::ChannelSocketsCount | RequestType::SocketsCount | RequestType::CountUserConnectionsInChannel => {
            resp.sockets_count = sum_counts(local.sockets_count, responses);
        },
        RequestType::ChannelSockets => {
            resp.socket_ids = union_socket_ids(&local.socket_ids, responses);
        },
        RequestType::SocketExistsInChannel => {
            resp.exists = any_response_exists(local.exists, responses);
        },
        RequestType::ChannelMembers => {
            let ms = merge_members(&local.members, responses);
            resp.members_count = ms.len();
            resp.members = ms;
        },
        RequestType::ChannelsWithSocketsCount => {
            resp.channels_with_sockets_count = merge_channel_counts(&local.channels_with_sockets_count, responses);
        },
        RequestType::TerminateUserConnections => {
            let none: Vec<ResponseBody> = Vec::new();
            resp.socket_ids = union_socket_ids(&local.socket_ids, &none);
        },
    }
    resp
}

/// How many sockets of the namespace a counting request counts.
pub open spec fn local_count(ns: Namespace, request: RequestBody) -> int {
    let c = text_or_empty(request.channel);
    let u = text_or_empty(request.user_id);
    match request.request_type {
        RequestType::ChannelSocketsCount => count_channel(ns.subs(), c) as int,
        RequestType::SocketsCount => ns.live().len() as int,
        RequestType::CountUserConnectionsInChannel => count_user_in_channel(ns.subs(), c, u, None) as int,
        _ => 0,
    }
}

/// The socket count that this node reports for channel `c`.
pub open spec fn local_channel_count(ns: Namespace, c: Seq<char>) -> int {
    if ns.occupied(c) { count_channel(ns.subs(), c) as int } else { 0 }
}

/// What the slot of `id` collected, or nothing if it is not open.
pub open spec fn collected_or_none(p: PendingRequests, id: Seq<char>) -> Seq<ResponseBody> {
    if p.is_pending(id) { p.collected(id) } else { Seq::empty() }
}

/// Relies on `uuid::Uuid::new_v4` and its `Display`: a fresh random id; nothing
/// is promised of its value.
#[verifier::external_body]
fn new_request_id() -> (r: String) {
    uuid::Uuid::new_v4().to_string()
}

/// The cluster side of a node: its id, its request timeout and the requests it waits on.
pub struct HorizontalAdapterBase {
    node_id: String,
    requests_timeout_ms: u64,
    pending: PendingRequests,
}

impl HorizontalAdapterBase {
    pub closed spec fn spec_node_id(&self) -> Seq<char> {
        self.node_id@
    }

    pub closed spec fn spec_timeout(&self) -> u64 {
        self.requests_timeout_ms
    }

    pub closed spec fn requests(&self) -> PendingRequests {
        self.pending
    }

    pub open spec fn wf(&self) -> bool {
        self.requests().wf()
    }

    pub fn new(node_id: String, request_timeout_ms: u64) -> (r: HorizontalAdapterBase)
        ensures
            r.wf(),
            r.spec_node_id() == node_id@,
            r.spec_timeout() == request_timeout_ms,
            forall|id: Seq<char>| !r.requests().is_pending(id),
    {
        HorizontalAdapterBase { node_id, requests_timeout_ms: request_timeout_ms, pending: PendingRequests::new() }
    }

    pub fn node_id(&self) -> (r: &String)
        ensures
            r@ == self.spec_node_id(),
    {
        &self.node_id
    }

    pub fn request_timeout_ms(&self) -> (r: u64)
        ensures
            r == self.spec_timeout(),
    {
        self.requests_timeout_ms
    }

    /// Opens a cluster query under `request_id`: a slot to collect answers in,
    /// the request to publish, and the number of answers to wait for (every
    /// other node). Fails, changing nothing, exactly when that id is in use.
    pub fn open_request(&mut self, request_id: String, app_id: &String, request_type: RequestType, channel: Option<&String>,
        socket_id: Option<&String>, user_id: Option<&String>, node_count: usize, now_ms: u64) -> (r: Result<(RequestBody, usize), Error>)
        requires
            old(self).wf(),
        ensures
            final(self).wf(),
            final(self).spec_node_id() == old(self).spec_node_id(),
            final(self).spec_timeout() == old(self).spec_timeout(),
            r is Ok == !old(self).requests().is_pending(request_id@),
            r is Ok ==> r->Ok_0.0.request_id@ == request_id@ && opened(*old(self), *final(self), r->Ok_0.0, r->Ok_0.1,
                app_id@, request_type, opt_view(channel), opt_view(socket_id), opt_view(user_id), node_count),
            r is Err ==> final(self).requests().slots() == old(self).requests().slots() && r->Err_0.is_transport(),
    {
        if !self.pending.insert(&request_id, app_id, now_ms) {
            return Err(Error::Transport("Request id already pending".to_string()));
        }
        let req = RequestBody {
            request_id,
            node_id: self.node_id.clone(),
            app_id: app_id.clone(),
            request_type,
            channel: clone_opt(channel),
            socket_id: clone_opt(socket_id),
            user_id: clone_opt(user_id),
        };
        Ok((req, expected_responses(node_count)))
    }

    /// Starts a cluster query under a fresh random id (see `open_request`).
    /// It can fail only when a request is already pending, and then only if
    /// the drawn id collides with it.
    pub fn send_request(&mut self, app_id: &String, request_type: RequestType, channel: Option<&String>, socket_id: Option<&String>,
        user_id: Option<&String>, node_count: usize, now_ms: u64) -> (r: Result<(RequestBody, usize), Error>)
        requires
            old(self).wf(),
        ensures
            final(self).wf(),
            final(self).spec_node_id() == old(self).spec_node_id(),
            final(self).spec_timeout() == old(self).spec_timeout(),
            r is Ok ==> opened(*old(self), *final(self), r->Ok_0.0, r->Ok_0.1,
                app_id@, request_type, opt_view(channel), opt_view(socket_id), opt_view(user_id), node_count),
            r is Err ==> exists|id: Seq<char>| #[trigger] old(self).requests().is_pending(id),
            r is Err ==> final(self).requests().slots() == old(self).requests().slots() && r->Err_0.is_transport(),
    {
        let request_id = new_request_id();
        self.open_request(request_id, app_id, request_type, channel, socket_id, user_id, node_count, now_ms)
    }

    /// The answer to a query that needs no cluster round: a socket found in the
    /// channel on this node exists, whatever the peers hold. `None` when the
    /// peers must be asked.
    pub fn short_circuit(&self, namespace: &Namespace, app_id: &String, request_type: RequestType, channel: Option<&String>,
        socket_id: Option<&String>) -> (r: Option<ResponseBody>)
        requires
            namespace.wf(),
        ensures
            r is Some == (request_type == RequestType::SocketExistsInChannel
                && namespace.subscribed(opt_text_view(channel), opt_text_view(socket_id))),
            r is Some ==> r->Some_0.exists && r->Some_0.node_id@ == self.spec_node_id() && r->Some_0.app_id@ == app_id@,
    {
        match request_type {
            RequestType::SocketExistsInChannel => {
                let c = text_or_empty_exec(&clone_opt(channel));
                let id = text_or_empty_exec(&clone_opt(socket_id));
                if namespace.is_in_channel(&c, &id) {
                    let mut resp = empty_response(&String::new(), &self.node_id, app_id);
                    resp.exists = true;
                    Some(resp)
                } else {
                    None
                }
            },
            _ => None,
        }
    }

    /// Whether the query `request_id` may stop waiting.
    pub fn request_done(&self, request_id: &String, expected: usize, timed_out: bool) -> (r: bool)
        requires
            self.wf(),
        ensures
            r == (!self.requests().is_pending(request_id@) || timed_out
                || self.requests().collected(request_id@).len() >= expected),
    {
        match self.pending.response_count(request_id) {
            None => true,
            Some(n) => wait_is_over(n, expected, timed_out),
        }
    }

    /// Ends the query `request`: closes its slot and combines this node's own
    /// answer, read from `namespace`, with what the peers sent in time.
    pub fn finish_request(&mut self, namespace: &Namespace, request: &RequestBody) -> (r: ResponseBody)
        requires
            old(self).wf(),
            namespace.wf(),
        ensures
            final(self).wf(),
            !final(self).requests().is_pending(request.request_id@),
            forall|id: Seq<char>| id != request.request_id@ ==> #[trigger] final(self).requests().is_pending(id) == old(self).requests().is_pending(id),
            final(self).spec_node_id() == old(self).spec_node_id(),
            r.request_id@ == request.request_id@,
            ({
                let rs = collected_or_none(old(self).requests(), request.request_id@);
                let c = text_or_empty(request.channel);
                let id = text_or_empty(request.socket_id);
                let u = text_or_empty(request.user_id);
                match request.request_type {
                    RequestType::ChannelSocketsCount | RequestType::SocketsCount | RequestType::CountUserConnectionsInChannel =>
                        r.sockets_count == sat_add(local_count(*namespace, *request), count_sum(rs)),
                    RequestType::ChannelSockets => seq_unique(r.socket_ids@)
                        && forall|x: Seq<char>| #[trigger] seq_has(r.socket_ids@, x) == (namespace.subscribed(c, x) || in_some_response(rs, x)),
                    RequestType::SocketExistsInChannel => r.exists == (namespace.subscribed(c, id) || any_exists(rs)),
                    RequestType::ChannelMembers => members_unique(r.members@)
                        && (forall|x: Seq<char>| #[trigger] has_member(r.members@, x) == (namespace.presence_user_ids(c).contains(x) || member_in_some_response(rs, x)))
                        && (forall|k: int| 0 <= k < r.members@.len() && namespace.presence_user_ids(c).contains((#[trigger] r.members@[k]).user_id@)
                            ==> member_info_in(namespace.subs(), c, r.members@[k].user_id@, r.members@[k].user_info@))
                        && forall|k: int| 0 <= k < r.members@.len() && !namespace.presence_user_ids(c).contains((#[trigger] r.members@[k]).user_id@)
                            ==> remote_source(rs, r.members@[k]),
                    RequestType::ChannelsWithSocketsCount =>
                        (forall|x: Seq<char>| #[trigger] count_listed(r.channels_with_sockets_count@, x) == (namespace.occupied(x) || count_in_some_response(rs, x)))
                        && forall|k: int| 0 <= k < r.channels_with_sockets_count@.len() ==> (#[trigger] r.channels_with_sockets_count@[k]).count
                            == sat(local_channel_count(*namespace, r.channels_with_sockets_count@[k].channel@)
                                + resp_chan_total(rs, r.channels_with_sockets_count@[k].channel@)),
                    RequestType::TerminateUserConnections => seq_unique(r.socket_ids@)
                        && forall|x: Seq<char>| #[trigger] seq_has(r.socket_ids@, x) == namespace.user_has_socket(u, x),
                }
            }),
    {
        let ghost rs = collected_or_none(self.pending, request.request_id@);
        let collected = match self.pending.remove(&request.request_id) {
            Some(v) => v,
            None => Vec::new(),
        };
        assert(collected@ == rs);
        let local = process_request(namespace, &self.node_id, request);
        let r = combine_with_local(&local, request.request_type, &collected);
        proof {
            let c = text_or_empty(request.channel);
            if request.request_type == RequestType::ChannelsWithSocketsCount {
                let lv = local.channels_with_sockets_count@;
                assert forall|x: Seq<char>| chan_total(lv, x) == local_channel_count(*namespace, x) by {
                    lemma_chan_total_unique(lv, x);
                    if namespace.occupied(x) {
                        assert(count_listed(lv, x));
                        let k = choose|k: int| 0 <= k < lv.len() && (#[trigger] lv[k]).channel@ == x;
                        assert(chan_total(lv, x) == lv[k].count);
                    }
                }
                let rv = r.channels_with_sockets_count@;
                assert forall|k: int| 0 <= k < rv.len() implies (#[trigger] rv[k]).count
                    == sat(local_channel_count(*namespace, rv[k].channel@) + resp_chan_total(rs, rv[k].channel@)) by {
                    assert(chan_total(lv, rv[k].channel@) == local_channel_count(*namespace, rv[k].channel@));
                }
            }
            if request.request_type == RequestType::ChannelMembers {
                let lm = local.members@;
                let rm = r.members@;
                assert forall|k: int| 0 <= k < rm.len() && namespace.presence_user_ids(c).contains((#[trigger] rm[k]).user_id@)
                    implies member_info_in(namespace.subs(), c, rm[k].user_id@, rm[k].user_info@) by {
                    assert(has_member(lm, rm[k].user_id@));
                    assert(local_source(lm, rm[k]));
                    let a = choose|a: int| 0 <= a < lm.len() && (#[trigger] lm[a]).user_id@ == rm[k].user_id@ && lm[a].user_info@ == rm[k].user_info@;
                    assert(member_info_in(namespace.subs(), c, lm[a].user_id@, lm[a].user_info@));
                }
                assert forall|k: int| 0 <= k < rm.len() && !namespace.presence_user_ids(c).contains((#[trigger] rm[k]).user_id@)
                    implies remote_source(rs, rm[k]) by {
                    assert(!has_member(lm, rm[k].user_id@));
                }
            }
        }
        r
    }

    /// Closes the requests whose slots were opened `max_age_ms` or more
    /// before `now_ms`; see `PendingRequests::remove_expired`.
    pub fn remove_expired_requests(&mut self, now_ms: u64, max_age_ms: u64) -> (r: usize)
        requires
            old(self).wf(),
        ensures
            final(self).wf(),
            final(self).spec_node_id() == old(self).spec_node_id(),
            forall|k: int| 0 <= k < final(self).requests().slots().len()
                ==> !is_expired(#[trigger] final(self).requests().slots()[k], now_ms, max_age_ms),
            forall|k: int| 0 <= k < final(self).requests().slots().len()
                ==> old(self).requests().slots().contains(#[trigger] final(self).requests().slots()[k]),
            forall|m: int| 0 <= m < old(self).requests().slots().len() && !is_expired(#[trigger] old(self).requests().slots()[m], now_ms, max_age_ms)
                ==> final(self).requests().slots().contains(old(self).requests().slots()[m]),
    {
        self.pending.remove_expired(now_ms, max_age_ms)
    }

    /// A broadcast seen on the bus is replayed locally only if a peer sent it.
    pub fn should_replay_broadcast(&self, message: &BroadcastMessage) -> (r: bool)
        ensures
            r == (message.node_id@ != self.spec_node_id()),
    {
        is_from_peer(&self.node_id, &message.node_id)
    }

    /// Answers a peer's request from the local namespace; own requests get no answer.
    pub fn on_request(&self, namespace: &Namespace, request: &RequestBody) -> (r: Option<ResponseBody>)
        requires
            namespace.wf(),
        ensures
            r is Some == (request.node_id@ != self.spec_node_id()),
            r is Some ==> answers_request(*namespace, self.spec_node_id(), *request, r->Some_0),
    {
        if is_from_peer(&self.node_id, &request.node_id) {
            Some(process_request(namespace, &self.node_id, request))
        } else {
            None
        }
    }

    /// Files a peer's answer; own answers and answers to closed requests are dropped.
    pub fn on_response(&mut self, response: ResponseBody) -> (r: bool)
        requires
            old(self).wf(),
        ensures
            final(self).wf(),
            final(self).spec_node_id() == old(self).spec_node_id(),
            r == (response.node_id@ != old(self).spec_node_id() && old(self).requests().is_pending(response.request_id@)),
            r ==> final(self).requests().collected(response.request_id@) == old(self).requests().collected(response.request_id@).push(response),
            forall|id: Seq<char>| #[trigger] final(self).requests().is_pending(id) == old(self).requests().is_pending(id),
    {
        if !is_from_peer(&self.node_id, &response.node_id) {
            return false;
        }
        self.pending.add_response(response)
    }

    /// The broadcast that mirrors a local publish to the other nodes, stamped
    /// with this node's id.
    pub fn make_broadcast(&self, app_id: &String, channel: &String, message: &String, except: Option<&String>, timestamp_ms: u64) -> (r: BroadcastMessage)
        ensures
            r.node_id@ == self.spec_node_id(),
            r.app_id@ == app_id@,
            r.channel@ == channel@,
            r.message@ == message@,
            opt_view_owned(r.except_socket_id) == opt_view(except),
            r.timestamp_ms == Some(timestamp_ms),
    {
        BroadcastMessage {
            node_id: self.node_id.clone(),
            app_id: app_id.clone(),
            channel: channel.clone(),
            message: message.clone(),
            except_socket_id: clone_opt(except),
            timestamp_ms: Some(timestamp_ms),
        }
    }
}

/// `req` was opened as asked, with its slot newly open and empty and the
/// other slots as before, and `expected` answers to wait for.
pub open spec fn opened(before: HorizontalAdapterBase, after: HorizontalAdapterBase, req: RequestBody, expected: usize,
    app_id: Seq<char>, request_type: RequestType, channel: Option<Seq<char>>, socket_id: Option<Seq<char>>,
    user_id: Option<Seq<char>>, node_count: usize) -> bool {
    &&& !before.requests().is_pending(req.request_id@)
    &&& after.requests().is_pending(req.request_id@)
    &&& after.requests().collected(req.request_id@).len() == 0
    &&& forall|id: Seq<char>| id != req.request_id@ ==> (#[trigger] after.requests().is_pending(id) == before.requests().is_pending(id)
        && (before.requests().is_pending(id) ==> after.requests().collected(id) == before.requests().collected(id)))
    &&& req.node_id@ == before.spec_node_id()
    &&& req.app_id@ == app_id
    &&& req.request_type == request_type
    &&& opt_view_owned(req.channel) == channel
    &&& opt_view_owned(req.socket_id) == socket_id
    &&& opt_view_owned(req.user_id) == user_id
    &&& expected == spec_expected_responses(node_count as int)
}

pub open spec fn opt_text_view(o: Option<&String>) -> Seq<char> {
    match o {
        Some(s) => s@,
        None => Seq::empty(),
    }
}

pub open spec fn opt_view_owned(o: Option<String>) -> Option<Seq<char>> {
    match o {
        Some(s) => Some(s@),
        None => None,
    }
}

fn clone_opt(o: Option<&String>) -> (r: Option<String>)
    ensures
        opt_view_owned(r) == opt_view(o),
{
    match o {
        Some(s) => Some(s.clone()),
        None => None,
    }
}

/// The node count that a subscriber count of the request topic reports: at
/// least 1 (this node), clamped to `usize`; unknown counts as 1.
pub fn node_count_from_subscribers(subscribers: Option<i64>) -> (r: usize)
    ensures
        r >= 1,
        match subscribers {
            Some(n) => r == (if n < 1 { 1 } else if n > usize::MAX { usize::MAX as int } else { n as int }),
            None => r == 1,
        },
{
    match subscribers {
        Some(n) => {
            if n < 1 {
                1
            } else if n as u64 > usize::MAX as u64 {
                usize::MAX
            } else {
                n as usize
            }
        },
        None => 1,
    }
}

/// The three topics of the cluster bus.
#[derive(Debug, Clone, Copy, PartialEq, Eq, Structural)]
pub enum Topic {
    Broadcast,
    Requests,
    Responses,
}

pub open spec fn topic_suffix(t: Topic) -> Seq<char> {
    match t {
        Topic::Broadcast => "#broadcast"@,
        Topic::Requests => "#requests"@,
        Topic::Responses => "#responses"@,
    }
}

/// The bus channel `<prefix>:#broadcast`, `<prefix>:#requests` or `<prefix>:#responses`.
pub fn topic_name(prefix: &str, topic: Topic) -> (r: String)
    ensures
        r@ == prefix@ + seq![':'] + topic_suffix(topic),
{
    proof {
        reveal_strlit(":");
        reveal_strlit("#broadcast");
        reveal_strlit("#requests");
        reveal_strlit("#responses");
        assert(":"@ =~= seq![':']);
    }
    match topic {
        Topic::Broadcast => join3(prefix, ":", "#broadcast"),
        Topic::Requests => join3(prefix, ":", "#requests"),
        Topic::Responses => join3(prefix, ":", "#responses"),
    }
}

} // verus!
