//! Properties of the work-exchange protocol that span several operations.

use vstd::prelude::*;
use crate::message::{ExecutionRequestView, ExecutionResultView, MessageView};
use crate::peer_stats::{fresh_stats, PeerStatsView};
use crate::seqs::{
    has_key, key_pos, keys_unique, lemma_key_pos, lemma_remove_key, lemma_set_insert,
    lemma_set_remove, lookup, set_insert, set_insert_all, set_remove, set_remove_all, upsert,
};
use crate::workswap::{
    any_ready, closer, closest, fan_out, first_ready, is_next_closest, is_ready, peer_distances,
    request_ids, resolve_all, result_ids, routable, WorkUnitView, WorkswapActionView, WorkswapView,
};

verus! {

/// Once a peer's gathered message has been taken out, there is nothing more to
/// send to it until something new is queued.
pub proof fn law_ready_to_send_drains(s: PeerStatsView)
    ensures
        s.spec_ready_to_send().0.spec_ready_to_send().1.is_none(),
{
}

/// Acceptances alone never make a message worth sending: queuing one changes
/// nothing about whether the peer has something to be sent.
pub proof fn law_accept_alone_is_not_sent(s: PeerStatsView, id: Seq<char>)
    ensures
        is_ready(s.spec_accept(id)) == is_ready(s),
        !is_ready(s) ==> s.spec_accept(id).spec_ready_to_send().1.is_none(),
{
}

/// A request that a peer answers with a result no longer counts as running
/// there; if it was not running there before, the running list is back to
/// what it was.
pub proof fn law_result_ends_request(s: PeerStatsView, req: ExecutionRequestView, res: ExecutionResultView)
    requires
        s.wf(),
        res.id == req.id,
    ensures
        !s.spec_add_request(req).spec_add_result(res).running_there.contains(req.id),
        !s.running_there.contains(req.id) ==> s.spec_add_request(req).spec_add_result(res).running_there
            == s.running_there,
{
    lemma_set_insert(s.running_there, req.id);
    lemma_set_remove(set_insert(s.running_there, req.id), req.id);
    if !s.running_there.contains(req.id) {
        let r = s.running_there;
        let p = r.push(req.id);
        assert(p[r.len() as int] == req.id);
        crate::seqs::lemma_index_of_unique(p, r.len() as int);
        assert(p.remove(r.len() as int) =~= r);
    }
}

/// A newly connected peer is known, with nothing running and nothing to send;
/// a disconnected peer is forgotten; other peers are left as they were.
pub proof fn law_connect_disconnect<R>(w: WorkswapView<R>, p: Seq<u8>)
    requires
        w.wf(),
    ensures
        w.spec_connected(p).has_peer(p),
        w.spec_connected(p).stats(p) == fresh_stats(),
        !w.spec_disconnected(p).has_peer(p),
        !w.spec_connected(p).spec_disconnected(p).has_peer(p),
        forall|q: Seq<u8>| q != p ==> lookup(w.spec_connected(p).peers, q) == lookup(w.peers, q),
        forall|q: Seq<u8>| q != p ==> lookup(w.spec_disconnected(p).peers, q) == lookup(w.peers, q),
{
    crate::seqs::lemma_upsert(w.peers, p, fresh_stats());
    lemma_remove_key(w.peers, p);
    lemma_remove_key(upsert(w.peers, p, fresh_stats()), p);
}

pub proof fn lemma_set_insert_all_contains<A>(s: Seq<A>, xs: Seq<A>, x: A)
    requires
        s.contains(x) || xs.contains(x),
    ensures
        set_insert_all(s, xs).contains(x),
    decreases xs.len(),
{
    if xs.len() > 0 {
        let prev = set_insert_all(s, xs.drop_last());
        if s.contains(x) || xs.drop_last().contains(x) {
            lemma_set_insert_all_contains(s, xs.drop_last(), x);
            if !prev.contains(xs.last()) {
                let k = choose|k: int| 0 <= k < prev.len() && prev[k] == x;
                assert(prev.push(xs.last())[k] == x);
            }
        } else {
            let k = choose|k: int| 0 <= k < xs.len() && xs[k] == x;
            if k < xs.len() - 1 {
                assert(xs.drop_last()[k] == x);
            }
            assert(xs.last() == x);
            if !prev.contains(x) {
                assert(prev.push(x)[prev.len() as int] == x);
            }
        }
    }
}

pub proof fn lemma_set_remove_all<A>(s: Seq<A>, xs: Seq<A>)
    requires
        s.no_duplicates(),
    ensures
        set_remove_all(s, xs).no_duplicates(),
        forall|x: A| xs.contains(x) ==> !#[trigger] set_remove_all(s, xs).contains(x),
        forall|x: A| #[trigger] set_remove_all(s, xs).contains(x) ==> s.contains(x),
    decreases xs.len(),
{
    if xs.len() > 0 {
        let prev = set_remove_all(s, xs.drop_last());
        lemma_set_remove_all(s, xs.drop_last());
        lemma_set_remove(prev, xs.last());
        assert forall|x: A| xs.contains(x) implies !#[trigger] set_remove_all(s, xs).contains(x) by {
            let k = choose|k: int| 0 <= k < xs.len() && xs[k] == x;
            if x != xs.last() {
                assert(xs.drop_last()[k] == x);
                assert(!prev.contains(x));
                assert(prev.to_set().remove(xs.last()).contains(x) == prev.to_set().contains(x));
            }
        }
        assert forall|x: A| #[trigger] set_remove_all(s, xs).contains(x) implies s.contains(x) by {
            assert(set_remove(prev, xs.last()).to_set().contains(x));
            assert(prev.to_set().contains(x));
        }
    }
}

/// What one peer sends, the other records: when the message gathered by `a`
/// for `b` arrives at `b`, every request in it counts at `b` as running for `a`,
/// and no execution that it rejects or answers counts any more as running at `a`.
pub proof fn law_delivery<R>(b: WorkswapView<R>, a: Seq<u8>, sa: PeerStatsView)
    requires
        b.wf(),
        b.has_peer(a),
        is_ready(sa),
    ensures
        ({
            let m = sa.spec_ready_to_send().1.unwrap();
            let after = b.spec_inject_event(a, m);
            &&& m.requests == sa.message.requests
            &&& m.rejects == sa.message.rejects
            &&& m.results == sa.message.results
            &&& after.has_peer(a)
            &&& forall|i: int| 0 <= i < m.requests.len() ==> after.stats(a).running_here.contains(
                #[trigger] m.requests[i].id,
            )
            &&& forall|i: int| 0 <= i < m.rejects.len() ==> !after.stats(a).running_there.contains(
                #[trigger] m.rejects[i],
            )
            &&& forall|i: int| 0 <= i < m.results.len() ==> !after.stats(a).running_there.contains(
                #[trigger] m.results[i].id,
            )
            &&& after.events.len() == b.events.len() + m.rejects.len() + m.requests.len()
                + m.results.len()
        }),
{
    let m = sa.spec_ready_to_send().1.unwrap();
    let k = key_pos(b.peers, a);
    assert(0 <= k < b.peers.len() && b.peers[k].0 == a);
    let after = b.spec_inject_event(a, m);
    lemma_key_pos(after.peers, k);
    assert(keys_unique(after.peers)) by {
        assert forall|x: int, y: int| 0 <= x < after.peers.len() && 0 <= y < after.peers.len() && x != y implies after.peers[x].0 != after.peers[y].0 by {
            assert(b.peers[x].0 != b.peers[y].0);
        }
    }
    lemma_key_pos(after.peers, k);
    let st = b.stats(a);
    lemma_key_pos(b.peers, k);
    assert(st.wf());
    assert forall|i: int| 0 <= i < m.requests.len() implies after.stats(a).running_here.contains(#[trigger] m.requests[i].id) by {
        assert(request_ids(m.requests)[i] == m.requests[i].id);
        lemma_set_insert_all_contains(st.running_here, request_ids(m.requests), m.requests[i].id);
    }
    lemma_set_remove_all(st.running_there, m.rejects);
    lemma_set_remove_all(set_remove_all(st.running_there, m.rejects), result_ids(m.results));
    assert forall|i: int| 0 <= i < m.rejects.len() implies !after.stats(a).running_there.contains(#[trigger] m.rejects[i]) by {
        assert(m.rejects.contains(m.rejects[i]));
    }
    assert forall|i: int| 0 <= i < m.results.len() implies !after.stats(a).running_there.contains(#[trigger] m.results[i].id) by {
        assert(result_ids(m.results)[i] == m.results[i].id);
        assert(result_ids(m.results).contains(m.results[i].id));
    }
}

/// A stuck work (every peer it was sent to has rejected it) has had at least as
/// many rejections as peers contacted.
pub proof fn law_stuck_when_all_rejected<R>(u: WorkUnitView<R>)
    requires
        u.wf(),
        u.spec_is_stuck(),
    ensures
        u.rejected.len() >= u.contacted.len(),
{
    u.contacted.unique_seq_to_set();
    u.rejected.unique_seq_to_set();
    vstd::seq_lib::seq_to_set_is_finite(u.rejected);
    assert(u.contacted.to_set().subset_of(u.rejected.to_set())) by {
        assert forall|x: Seq<u8>| u.contacted.to_set().contains(x) implies u.rejected.to_set().contains(x) by {
            let k = choose|k: int| 0 <= k < u.contacted.len() && u.contacted[k] == x;
            assert(u.rejected.contains(u.contacted[k]));
        }
    }
    vstd::set_lib::lemma_len_subset(u.contacted.to_set(), u.rejected.to_set());
}

/// A peer that rejects a work this node handed out is recorded as having rejected it.
pub proof fn law_rejection_recorded<R>(w: WorkswapView<R>, p: Seq<u8>, m: MessageView, id: Seq<char>)
    requires
        w.wf(),
        w.has_peer(p),
        m.rejects.contains(id),
        has_key(w.works, id),
    ensures
        has_key(w.spec_inject_event(p, m).works, id),
        lookup(w.spec_inject_event(p, m).works, id).unwrap().rejected.contains(p),
{
    let after = w.spec_inject_event(p, m);
    let k = key_pos(w.works, id);
    assert(0 <= k < w.works.len() && w.works[k].0 == id);
    assert(after.works[k].0 == id);
    assert(keys_unique(after.works)) by {
        assert forall|x: int, y: int| 0 <= x < after.works.len() && 0 <= y < after.works.len() && x != y implies after.works[x].0 != after.works[y].0 by {
            assert(w.works[x].0 != w.works[y].0);
        }
    }
    lemma_key_pos(after.works, k);
    assert(w.works[k].1.wf());
    lemma_set_insert(w.works[k].1.rejected, p);
    assert(set_insert(w.works[k].1.rejected, p).to_set().contains(p));
}


proof fn lemma_closer_order(d: Seq<nat>, a: int, b: int, c: int)
    ensures
        a != b ==> (closer(d, a, b) || closer(d, b, a)),
        !(closer(d, a, b) && closer(d, b, a)),
        closer(d, a, b) && closer(d, b, c) ==> closer(d, a, c),
        closer(d, a, b) ==> d[a] <= d[b],
{
}

proof fn lemma_best_below(d: Seq<nat>, prev: Seq<int>, m: int) -> (j: int)
    requires
        0 <= m <= d.len(),
        exists|x: int| 0 <= x < m && !prev.contains(x),
    ensures
        0 <= j < m,
        !prev.contains(j),
        forall|x: int| 0 <= x < m && !prev.contains(x) && x != j ==> #[trigger] closer(d, j, x),
    decreases m,
{
    let m1 = m - 1;
    if exists|x: int| 0 <= x < m1 && !prev.contains(x) {
        let j1 = lemma_best_below(d, prev, m1);
        if !prev.contains(m1) && closer(d, m1, j1) {
            assert forall|x: int| 0 <= x < m && !prev.contains(x) && x != m1 implies #[trigger] closer(d, m1, x) by {
                if x != j1 {
                    assert(closer(d, j1, x));
                    lemma_closer_order(d, m1, j1, x);
                }
            }
            m1
        } else {
            assert forall|x: int| 0 <= x < m && !prev.contains(x) && x != j1 implies #[trigger] closer(d, j1, x) by {
                if x == m1 {
                    lemma_closer_order(d, m1, j1, x);
                }
            }
            j1
        }
    } else {
        let x0 = choose|x: int| 0 <= x < m && !prev.contains(x);
        assert(x0 == m1);
        m1
    }
}

proof fn lemma_closest(d: Seq<nat>, k: nat)
    requires
        k <= d.len(),
    ensures
        closest(d, k).len() == k,
        closest(d, k).no_duplicates(),
        forall|i: int| 0 <= i < k ==> 0 <= #[trigger] closest(d, k)[i] < d.len(),
        forall|a: int, b: int|
            0 <= b < d.len() && closest(d, k).contains(a) && !closest(d, k).contains(b) ==> #[trigger] closer(
                d,
                a,
                b,
            ),
    decreases k,
{
    if k > 0 {
        let prev = closest(d, (k - 1) as nat);
        lemma_closest(d, (k - 1) as nat);
        assert(exists|x: int| 0 <= x < d.len() && !prev.contains(x)) by {
            crate::workswap::lemma_missing_position(prev, d.len() as int);
        }
        let j = lemma_best_below(d, prev, d.len() as int);
        assert(is_next_closest(d, prev, j));
        let c = choose|x: int| is_next_closest(d, prev, x);
        assert(is_next_closest(d, prev, c));
        let cur = closest(d, k);
        assert(cur == prev.push(c));
        assert forall|a: int, b: int| 0 <= b < d.len() && cur.contains(a) && !cur.contains(b) implies #[trigger] closer(d, a, b) by {
            let ia = choose|ia: int| 0 <= ia < cur.len() && cur[ia] == a;
            assert(!prev.contains(b)) by {
                if prev.contains(b) {
                    let ib = choose|ib: int| 0 <= ib < prev.len() && prev[ib] == b;
                    assert(cur[ib] == b);
                }
            }
            assert(b != c) by {
                assert(cur[prev.len() as int] == c);
            }
            if ia < prev.len() {
                assert(prev[ia] == a);
                assert(prev.contains(a));
            } else {
                assert(a == c);
            }
        }
        assert(cur.no_duplicates()) by {
            assert forall|x: int, y: int| 0 <= x < cur.len() && 0 <= y < cur.len() && x != y implies cur[x] != cur[y] by {
                if x == prev.len() {
                    assert(prev[y] == cur[y]);
                    assert(prev.contains(cur[y]));
                } else if y == prev.len() {
                    assert(prev[x] == cur[x]);
                    assert(prev.contains(cur[x]));
                } else {
                    assert(prev[x] == cur[x] && prev[y] == cur[y]);
                }
            }
        }
    }
}

/// `after` is `before` with request `req` queued and counted as running there.
pub open spec fn got_request(before: PeerStatsView, after: PeerStatsView, req: ExecutionRequestView) -> bool {
    &&& after.running_there.contains(req.id)
    &&& after.message.requests == before.message.requests.push(req)
}

/// Handing out work reaches the closest peers: as many as [`fan_out`] allows,
/// each of them gets the request and counts the work as running there, the
/// work is recorded with them as the contacted peers, and no peer left out is
/// closer to the work's identifier than one contacted. The other peers are
/// left as they were.
pub proof fn law_dispatch_reaches_closest<R>(w: WorkswapView<R>, id: Seq<char>, req: ExecutionRequestView, ret: R)
    requires
        w.wf(),
        w.peers.len() > 0,
        req.id == id,
    ensures
        ({
            let post = w.spec_dispatch(id, req, ret);
            let n = w.peers.len();
            let d = peer_distances(w.peers, vstd::utf8::encode_utf8(id));
            let sel = closest(d, fan_out(n));
            let unit = lookup(post.works, id).unwrap();
            &&& has_key(post.works, id)
            &&& unit.ret_chan == ret
            &&& unit.contacted.len() == fan_out(n)
            &&& unit.contacted.len() == (if n < 3 { n } else { 3 })
            &&& 1 <= unit.contacted.len() <= 3
            &&& forall|i: int| 0 <= i < unit.contacted.len() ==> #[trigger] unit.contacted[i] == w.peers[sel[i]].0
            &&& forall|i: int|
                0 <= i < unit.contacted.len() ==> #[trigger] got_request(w.peers[sel[i]].1, post.peers[sel[i]].1, req)
            &&& forall|a: int, b: int|
                #![trigger sel.contains(a), d[b]]
                0 <= b < n && sel.contains(a) && !sel.contains(b) ==> d[a] <= d[b]
            &&& forall|b: int| 0 <= b < n && !sel.contains(b) ==> #[trigger] post.peers[b] == w.peers[b]
            &&& post.events == w.events
        }),
{
    let post = w.spec_dispatch(id, req, ret);
    let n = w.peers.len();
    let d = peer_distances(w.peers, vstd::utf8::encode_utf8(id));
    let sel = closest(d, fan_out(n));
    lemma_closest(d, fan_out(n));
    let unit = WorkUnitView {
        ret_chan: ret,
        contacted: sel.map_values(|j: int| w.peers[j].0),
        rejected: Seq::empty(),
        resolved: Seq::empty(),
    };
    crate::seqs::lemma_upsert(w.works, id, unit);
    assert forall|i: int| 0 <= i < sel.len() implies #[trigger] got_request(w.peers[sel[i]].1, post.peers[sel[i]].1, req) by {
        assert(sel.contains(sel[i]));
        assert(0 <= sel[i] < n);
        assert(w.peers[sel[i]].1.wf());
        assert(post.peers[sel[i]] == (w.peers[sel[i]].0, w.peers[sel[i]].1.spec_add_request(req)));
        lemma_set_insert(w.peers[sel[i]].1.running_there, id);
    }
    assert forall|a: int, b: int|
        #![trigger sel.contains(a), d[b]]
        0 <= b < n && sel.contains(a) && !sel.contains(b) implies d[a] <= d[b] by {
        assert(closer(d, a, b));
    }
    assert(post.works == upsert(w.works, id, unit));
    assert(lookup(post.works, id) == Some(unit));
    assert(unit.contacted.len() == fan_out(n));
    assert forall|b: int| 0 <= b < n && !sel.contains(b) implies #[trigger] post.peers[b] == w.peers[b] by {}
    assert(post.events == w.events);
    assert(sel.len() == fan_out(n));
    assert(1 <= fan_out(n) <= 3);
    assert forall|i: int| 0 <= i < unit.contacted.len() implies #[trigger] unit.contacted[i] == w.peers[sel[i]].0 by {}
}

/// The result of a local execution goes back to the peer that asked for it:
/// when nothing else is pending, the next step sends that peer its gathered
/// message, which ends with the result.
pub proof fn law_finished_execution_is_sent<R>(w: WorkswapView<R>, p: Seq<u8>, res: ExecutionResultView)
    requires
        w.wf(),
        w.has_peer(p),
        w.events.len() == 0,
        forall|j: int| 0 <= j < w.peers.len() ==> !is_ready(#[trigger] w.peers[j].1),
    ensures
        ({
            let out = w.spec_poll(seq![(p, res)]).1;
            &&& out matches Some(WorkswapActionView::Notify { peer, message })
            &&& peer == p
            &&& message.results == w.stats(p).message.results.push(res)
            &&& message.requests == w.stats(p).message.requests
            &&& message.running == w.stats(p).running_here
        }),
{
    let fin = seq![(p, res)];
    assert(fin.drop_last() =~= Seq::<(Seq<u8>, ExecutionResultView)>::empty());
    let s1 = resolve_all(w, fin);
    assert(resolve_all(w, fin.drop_last()) == w);
    assert(s1 == w.spec_resolve_execution(p, res));
    let k = key_pos(w.peers, p);
    assert(0 <= k < w.peers.len() && w.peers[k].0 == p);
    lemma_key_pos(w.peers, k);
    assert(s1.peers[k].1 == w.peers[k].1.spec_add_result(res));
    assert(is_ready(s1.peers[k].1));
    assert(any_ready(s1.peers));
    let f = first_ready(s1.peers);
    assert forall|j: int| 0 <= j < s1.peers.len() && j != k implies !is_ready(#[trigger] s1.peers[j].1) by {
        assert(s1.peers[j] == w.peers[j]);
    }
    assert(f == k);
}

/// An execution stays counted as running at a peer until that peer's message
/// names it: after a message from `p`, an execution counts as running at `p`
/// exactly when it did before and the message neither rejects it nor carries
/// its result.
pub proof fn law_message_ends_only_named_executions<R>(w: WorkswapView<R>, p: Seq<u8>, msg: MessageView, x: Seq<char>)
    requires
        w.wf(),
        w.has_peer(p),
    ensures
        w.spec_inject_event(p, msg).has_peer(p),
        w.spec_inject_event(p, msg).stats(p).running_there.contains(x) <==> (
            w.stats(p).running_there.contains(x)
            && !msg.rejects.contains(x)
            && !(exists|k: int| 0 <= k < msg.results.len() && #[trigger] msg.results[k].id == x)
        ),
{
    let k = key_pos(w.peers, p);
    assert(0 <= k < w.peers.len() && w.peers[k].0 == p);
    lemma_key_pos(w.peers, k);
    let post = w.spec_inject_event(p, msg);
    assert(keys_unique(post.peers)) by {
        assert forall|a: int, b: int| 0 <= a < post.peers.len() && 0 <= b < post.peers.len() && a != b
            implies post.peers[a].0 != post.peers[b].0 by {
            assert(post.peers[a].0 == w.peers[a].0);
            assert(post.peers[b].0 == w.peers[b].0);
        }
    }
    lemma_key_pos(post.peers, k);
    let st = w.stats(p);
    assert(st.wf());
    let r1 = set_remove_all(st.running_there, msg.rejects);
    let ids = result_ids(msg.results);
    lemma_set_remove_all(st.running_there, msg.rejects);
    lemma_set_remove_all(r1, ids);
    if st.running_there.contains(x) && !msg.rejects.contains(x) {
        lemma_set_remove_all_keeps(st.running_there, msg.rejects, x);
        if !ids.contains(x) {
            lemma_set_remove_all_keeps(r1, ids, x);
        }
    }
    assert(post.stats(p).running_there == set_remove_all(r1, ids));
    if exists|j: int| 0 <= j < msg.results.len() && #[trigger] msg.results[j].id == x {
        let j = choose|j: int| 0 <= j < msg.results.len() && #[trigger] msg.results[j].id == x;
        assert(ids[j] == x);
        assert(ids.contains(x));
    }
    if ids.contains(x) {
        let j = choose|j: int| 0 <= j < ids.len() && ids[j] == x;
        assert(msg.results[j].id == x);
    }
}

/// What is kept and not named is kept: an element of `s` that none of `xs`
/// removes is still there after removing all of `xs`.
pub proof fn lemma_set_remove_all_keeps<A>(s: Seq<A>, xs: Seq<A>, x: A)
    requires
        s.no_duplicates(),
        s.contains(x),
        !xs.contains(x),
    ensures
        set_remove_all(s, xs).contains(x),
    decreases xs.len(),
{
    if xs.len() > 0 {
        let prev = set_remove_all(s, xs.drop_last());
        assert(!xs.drop_last().contains(x)) by {
            if xs.drop_last().contains(x) {
                let k = choose|k: int| 0 <= k < xs.drop_last().len() && xs.drop_last()[k] == x;
                assert(xs[k] == x);
            }
        }
        lemma_set_remove_all_keeps(s, xs.drop_last(), x);
        lemma_set_remove_all(s, xs.drop_last());
        lemma_set_remove(prev, xs.last());
        assert(xs[xs.len() - 1] != x);
        assert(prev.to_set().contains(x));
        assert(set_remove(prev, xs.last()).to_set().contains(x));
    }
}

/// Some peer is ready, so there is a first one.
pub proof fn lemma_first_ready(peers: Seq<(Seq<u8>, PeerStatsView)>, j: int)
    requires
        0 <= j < peers.len(),
        is_ready(peers[j].1),
    ensures
        any_ready(peers),
        0 <= first_ready(peers) < peers.len(),
        is_ready(peers[first_ready(peers)].1),
        forall|k: int| 0 <= k < first_ready(peers) ==> !is_ready(#[trigger] peers[k].1),
    decreases j,
{
    if exists|k: int| 0 <= k < j && is_ready(#[trigger] peers[k].1) {
        let k = choose|k: int| 0 <= k < j && is_ready(#[trigger] peers[k].1);
        lemma_first_ready(peers, k);
    } else {
        assert(0 <= j < peers.len() && is_ready(peers[j].1) && forall|k: int| 0 <= k < j ==> !is_ready(#[trigger] peers[k].1));
    }
}

/// A finished local execution handed to a step reaches its peer, whatever else
/// is pending. After the step, either the peer's gathered message ends with the
/// result, or the step sends that peer its message, which ends with the result.
/// With an event pending, the step reports the oldest event and the result waits
/// in the peer's message.
pub proof fn law_poll_delivers_finished<R>(w: WorkswapView<R>, p: Seq<u8>, res: ExecutionResultView)
    requires
        w.wf(),
        w.has_peer(p),
    ensures
        ({
            let post = w.spec_poll(seq![(p, res)]).0;
            let out = w.spec_poll(seq![(p, res)]).1;
            let want = w.stats(p).message.results.push(res);
            &&& post.has_peer(p)
            &&& post.stats(p).message.results == want || (out matches Some(WorkswapActionView::Notify { peer, message })
                && (peer == p && message.results == want))
            &&& w.events.len() > 0 ==> {
                &&& post.stats(p).message.results == want
                &&& out == Some(WorkswapActionView::Generate(w.events[0]))
                &&& post.events == w.events.drop_first()
            }
        }),
{
    let fin = seq![(p, res)];
    assert(fin.drop_last() =~= Seq::<(Seq<u8>, ExecutionResultView)>::empty());
    let s1 = resolve_all(w, fin);
    assert(resolve_all(w, fin.drop_last()) == w);
    assert(s1 == w.spec_resolve_execution(p, res));
    let k = key_pos(w.peers, p);
    assert(0 <= k < w.peers.len() && w.peers[k].0 == p);
    lemma_key_pos(w.peers, k);
    assert(w.peers[k].1.wf());
    crate::seqs::lemma_set_remove(w.stats(p).running_there, res.id);
    crate::workswap::lemma_with_stats_wf(w, p, w.stats(p).spec_add_result(res));
    assert(s1.stats(p).message.results == w.stats(p).message.results.push(res));
    assert(s1.peers[k].0 == p);
    lemma_key_pos(s1.peers, k);
    let post = w.spec_poll(fin).0;
    let out = w.spec_poll(fin).1;
    if s1.events.len() > 0 {
        assert(post.peers == s1.peers);
    } else if any_ready(s1.peers) {
        let j0 = choose|j: int| 0 <= j < s1.peers.len() && is_ready(#[trigger] s1.peers[j].1);
        lemma_first_ready(s1.peers, j0);
        let f = first_ready(s1.peers);
        assert(post.peers == s1.peers.update(f, (s1.peers[f].0, s1.peers[f].1.spec_ready_to_send().0)));
        assert(keys_unique(post.peers)) by {
            assert forall|a: int, b: int| 0 <= a < post.peers.len() && 0 <= b < post.peers.len() && a != b
                implies post.peers[a].0 != post.peers[b].0 by {
                assert(post.peers[a].0 == s1.peers[a].0);
                assert(post.peers[b].0 == s1.peers[b].0);
            }
        }
        lemma_key_pos(post.peers, k);
        if f != k {
            assert(post.peers[k] == s1.peers[k]);
        }
    } else {
        assert(post == s1);
    }
}

/// Taking a peer's gathered message out leaves what runs here and there as it
/// was: only the message is emptied. The message taken out carries what was
/// gathered, with the executions that run here for the peer.
pub proof fn law_sending_keeps_running(s: PeerStatsView)
    ensures
        s.spec_ready_to_send().0.running_here == s.running_here,
        s.spec_ready_to_send().0.running_there == s.running_there,
        s.spec_ready_to_send().1 matches Some(m) ==> {
            &&& m.running == s.running_here
            &&& m.accepts == s.message.accepts
            &&& m.rejects == s.message.rejects
            &&& m.requests == s.message.requests
            &&& m.results == s.message.results
            &&& s.spec_ready_to_send().0.message.requests.len() == 0
            &&& s.spec_ready_to_send().0.message.results.len() == 0
            &&& s.spec_ready_to_send().0.message.rejects.len() == 0
            &&& s.spec_ready_to_send().0.message.accepts.len() == 0
        },
        s.spec_ready_to_send().1.is_none() ==> s.spec_ready_to_send().0 == s,
{
}

/// The results among `fin` that are for peer `q`, in order.
pub open spec fn results_for(fin: Seq<(Seq<u8>, ExecutionResultView)>, q: Seq<u8>) -> Seq<ExecutionResultView>
    decreases fin.len(),
{
    if fin.len() == 0 {
        Seq::empty()
    } else if fin.last().0 == q {
        results_for(fin.drop_last(), q).push(fin.last().1)
    } else {
        results_for(fin.drop_last(), q)
    }
}

/// Queuing finished executions appends to each peer's message exactly the
/// results for that peer, in the order they were handed in.
pub proof fn lemma_resolve_all_results<R>(w: WorkswapView<R>, fin: Seq<(Seq<u8>, ExecutionResultView)>, q: Seq<u8>)
    requires
        w.wf(),
        w.has_peer(q),
        forall|i: int| 0 <= i < fin.len() ==> w.has_peer(#[trigger] fin[i].0),
    ensures
        resolve_all(w, fin).wf(),
        resolve_all(w, fin).has_peer(q),
        resolve_all(w, fin).stats(q).message.results == w.stats(q).message.results + results_for(fin, q),
        resolve_all(w, fin).stats(q).running_here == w.stats(q).running_here,
        resolve_all(w, fin).events == w.events,
    decreases fin.len(),
{
    if fin.len() == 0 {
        assert(w.stats(q).message.results + Seq::<ExecutionResultView>::empty() =~= w.stats(q).message.results);
    } else {
        let d = fin.drop_last();
        assert forall|i: int| 0 <= i < d.len() implies w.has_peer(#[trigger] d[i].0) by {
            assert(d[i] == fin[i]);
        }
        lemma_resolve_all_results(w, d, q);
        let prev = resolve_all(w, d);
        let p = fin.last().0;
        assert(w.has_peer(fin[fin.len() - 1].0));
        crate::workswap::lemma_resolve_all(w, d);
        assert(prev.has_peer(p));
        let k = key_pos(prev.peers, p);
        assert(0 <= k < prev.peers.len() && prev.peers[k].0 == p);
        lemma_key_pos(prev.peers, k);
        assert(prev.peers[k].1.wf());
        crate::seqs::lemma_set_remove(prev.stats(p).running_there, fin.last().1.id);
        crate::workswap::lemma_with_stats_wf(prev, p, prev.stats(p).spec_add_result(fin.last().1));
        if p == q {
            assert(w.stats(q).message.results + results_for(fin, q)
                =~= (w.stats(q).message.results + results_for(d, q)).push(fin.last().1));
        } else {
            assert(lookup(resolve_all(w, fin).peers, q) == lookup(prev.peers, q));
        }
    }
}

/// With an event pending, a step reports the oldest event and queues every
/// finished local execution for its peer: each peer's gathered message ends with
/// exactly the results handed in for it, in order, and nothing else changes in
/// what runs here for it.
pub proof fn law_poll_queues_all_finished<R>(w: WorkswapView<R>, fin: Seq<(Seq<u8>, ExecutionResultView)>, q: Seq<u8>)
    requires
        w.wf(),
        w.has_peer(q),
        forall|i: int| 0 <= i < fin.len() ==> w.has_peer(#[trigger] fin[i].0),
        w.events.len() > 0,
    ensures
        w.spec_poll(fin).1 == Some(WorkswapActionView::Generate(w.events[0])),
        w.spec_poll(fin).0.events == w.events.drop_first(),
        w.spec_poll(fin).0.has_peer(q),
        w.spec_poll(fin).0.stats(q).message.results == w.stats(q).message.results + results_for(fin, q),
        w.spec_poll(fin).0.stats(q).running_here == w.stats(q).running_here,
{
    lemma_resolve_all_results(w, fin, q);
}

/// Adding all of `xs` adds nothing else.
pub proof fn lemma_set_insert_all_only<A>(s: Seq<A>, xs: Seq<A>, x: A)
    requires
        set_insert_all(s, xs).contains(x),
    ensures
        s.contains(x) || xs.contains(x),
    decreases xs.len(),
{
    if xs.len() > 0 {
        let prev = set_insert_all(s, xs.drop_last());
        if x == xs.last() {
            assert(xs[xs.len() - 1] == x);
        } else {
            if !prev.contains(xs.last()) {
                let k = choose|k: int| 0 <= k < prev.push(xs.last()).len() && prev.push(xs.last())[k] == x;
                assert(k < prev.len());
                assert(prev[k] == x);
            }
            assert(prev.contains(x));
            lemma_set_insert_all_only(s, xs.drop_last(), x);
            if xs.drop_last().contains(x) {
                let k = choose|k: int| 0 <= k < xs.drop_last().len() && xs.drop_last()[k] == x;
                assert(xs[k] == x);
            }
        }
    }
}

/// A peer's requests start executions here, and nothing else does: after a
/// message from `p`, an execution counts as running here for `p` exactly when it
/// did before or the message requests it.
pub proof fn law_message_starts_only_requested_executions<R>(w: WorkswapView<R>, p: Seq<u8>, msg: MessageView, x: Seq<char>)
    requires
        w.wf(),
        w.has_peer(p),
    ensures
        w.spec_inject_event(p, msg).stats(p).running_here.contains(x) <==> (
            w.stats(p).running_here.contains(x)
            || (exists|k: int| 0 <= k < msg.requests.len() && #[trigger] msg.requests[k].id == x)
        ),
{
    let k = key_pos(w.peers, p);
    assert(0 <= k < w.peers.len() && w.peers[k].0 == p);
    lemma_key_pos(w.peers, k);
    let post = w.spec_inject_event(p, msg);
    assert(keys_unique(post.peers)) by {
        assert forall|a: int, b: int| 0 <= a < post.peers.len() && 0 <= b < post.peers.len() && a != b
            implies post.peers[a].0 != post.peers[b].0 by {
            assert(post.peers[a].0 == w.peers[a].0);
            assert(post.peers[b].0 == w.peers[b].0);
        }
    }
    lemma_key_pos(post.peers, k);
    let st = w.stats(p);
    let ids = request_ids(msg.requests);
    assert(post.stats(p).running_here == set_insert_all(st.running_here, ids));
    if exists|j: int| 0 <= j < msg.requests.len() && #[trigger] msg.requests[j].id == x {
        let j = choose|j: int| 0 <= j < msg.requests.len() && #[trigger] msg.requests[j].id == x;
        assert(ids[j] == x);
    }
    if st.running_here.contains(x) || ids.contains(x) {
        lemma_set_insert_all_contains(st.running_here, ids, x);
    }
    if set_insert_all(st.running_here, ids).contains(x) {
        lemma_set_insert_all_only(st.running_here, ids, x);
        if ids.contains(x) {
            let j = choose|j: int| 0 <= j < ids.len() && ids[j] == x;
            assert(msg.requests[j].id == x);
        }
    }
}

} // verus!
