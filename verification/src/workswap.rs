//! The work-exchange protocol between peers: which peers get a computation,
//! what each incoming message changes, and what is emitted next.
//!
//! The state machine does no I/O. The network layer feeds it connections,
//! incoming messages and the results of local executions, and performs the
//! actions that [`Workswap::poll`] returns.

use vstd::prelude::*;
use std::collections::VecDeque;
use crate::message::{
    clone_strings, work_result_view, ContentId, ExecutionId, ExecutionRequest,
    ExecutionRequestView, ExecutionResult, ExecutionResultView, Message, MessageView, WorkResult,
};
use crate::peer_stats::{fresh_stats, PeerStats, PeerStatsView};
use crate::seqs::{
    has_key, key_pos, keys_unique, lemma_key_pos, lemma_remove_key, lemma_set_insert, lookup,
    remove_key, set_insert, upsert,
};

verus! {

/// Identity of a peer: the bytes of its peer identifier.
pub type PeerId = Vec<u8>;

/// What the protocol reports to the node.
#[derive(Debug, Clone, PartialEq, Eq)]
pub enum WorkswapEvent {
    /// The peer asks us to run `method` on `args`, as execution `id`.
    WantCalc(PeerId, ExecutionId, ContentId, Vec<ContentId>),
    /// The peer accepted an execution.
    Accepted(PeerId, ExecutionId),
    /// The peer rejected an execution.
    Rejected(PeerId, ExecutionId),
    /// The peer finished an execution; its result is stored under the identifier.
    Completed(PeerId, ExecutionId, ContentId),
    /// The peer failed to run an execution.
    Failed(PeerId, ExecutionId, String),
}

/// Mathematical value of a [`WorkswapEvent`].
pub enum WorkswapEventView {
    WantCalc(Seq<u8>, Seq<char>, Seq<char>, Seq<Seq<char>>),
    Accepted(Seq<u8>, Seq<char>),
    Rejected(Seq<u8>, Seq<char>),
    Completed(Seq<u8>, Seq<char>, Seq<char>),
    Failed(Seq<u8>, Seq<char>, Seq<char>),
}

impl View for WorkswapEvent {
    type V = WorkswapEventView;

    open spec fn view(&self) -> WorkswapEventView {
        match self {
            WorkswapEvent::WantCalc(p, id, m, a) => WorkswapEventView::WantCalc(p@, id@, m@, a.deep_view()),
            WorkswapEvent::Accepted(p, id) => WorkswapEventView::Accepted(p@, id@),
            WorkswapEvent::Rejected(p, id) => WorkswapEventView::Rejected(p@, id@),
            WorkswapEvent::Completed(p, id, c) => WorkswapEventView::Completed(p@, id@, c@),
            WorkswapEvent::Failed(p, id, e) => WorkswapEventView::Failed(p@, id@, e@),
        }
    }
}

/// What [`Workswap::poll`] asks the network layer to do.
#[derive(Debug, PartialEq, Eq)]
pub enum WorkswapAction {
    /// Report an event to the node.
    Generate(WorkswapEvent),
    /// Send a message to a peer.
    Notify { peer: PeerId, message: Message },
}

/// Mathematical value of a [`WorkswapAction`].
pub enum WorkswapActionView {
    Generate(WorkswapEventView),
    Notify { peer: Seq<u8>, message: MessageView },
}

impl View for WorkswapAction {
    type V = WorkswapActionView;

    open spec fn view(&self) -> WorkswapActionView {
        match self {
            WorkswapAction::Generate(e) => WorkswapActionView::Generate(e@),
            WorkswapAction::Notify { peer, message } => WorkswapActionView::Notify {
                peer: peer@,
                message: message@,
            },
        }
    }
}

/// Work that this node has handed out to the network.
///
/// `ret_chan` is whatever the caller keeps to answer the local requester (its
/// reply channel, the time the work started); the protocol only carries it.
pub struct WorkUnit<R> {
    pub ret_chan: R,
    /// Peers to which the work was sent.
    pub contacted_peers: Vec<PeerId>,
    /// Peers that rejected the work.
    pub rejected_peers: Vec<PeerId>,
    /// Peers that produced a value for it.
    pub resolved_peers: Vec<(PeerId, WorkResult)>,
}

/// Mathematical value of a [`WorkUnit`].
#[verifier::ext_equal]
pub struct WorkUnitView<R> {
    pub ret_chan: R,
    pub contacted: Seq<Seq<u8>>,
    pub rejected: Seq<Seq<u8>>,
    pub resolved: Seq<(Seq<u8>, Result<Seq<char>, Seq<char>>)>,
}

/// Values of a list of byte strings.
pub open spec fn bytes_list_view(v: Seq<Vec<u8>>) -> Seq<Seq<u8>> {
    v.map_values(|b: Vec<u8>| b@)
}

/// Values of resolved entries.
pub open spec fn resolved_view(v: Seq<(PeerId, WorkResult)>) -> Seq<(Seq<u8>, Result<Seq<char>, Seq<char>>)> {
    v.map_values(|e: (PeerId, WorkResult)| (e.0@, work_result_view(e.1)))
}

impl<R> View for WorkUnit<R> {
    type V = WorkUnitView<R>;

    open spec fn view(&self) -> WorkUnitView<R> {
        WorkUnitView {
            ret_chan: self.ret_chan,
            contacted: bytes_list_view(self.contacted_peers@),
            rejected: bytes_list_view(self.rejected_peers@),
            resolved: resolved_view(self.resolved_peers@),
        }
    }
}

impl<R> WorkUnitView<R> {
    /// Peer lists are sets, and no peer resolved the work twice.
    pub open spec fn wf(self) -> bool {
        &&& self.contacted.no_duplicates()
        &&& self.rejected.no_duplicates()
        &&& keys_unique(self.resolved)
    }

    /// Every contacted peer has rejected the work.
    pub open spec fn spec_is_stuck(self) -> bool {
        forall|i: int| 0 <= i < self.contacted.len() ==> self.rejected.contains(#[trigger] self.contacted[i])
    }
}

impl<R> WorkUnit<R> {
    /// Whether enough is known to give a result: some peer produced a value.
    pub fn is_resolved(&self) -> (b: bool)
        ensures
            b == (self@.resolved.len() > 0),
    {
        self.resolved_peers.len() > 0
    }

    /// The most probable result of the work, if it is resolved: the value of the
    /// first peer that produced one.
    pub fn result(&mut self) -> (r: Option<&mut WorkResult>)
        ensures
            old(self)@.resolved.len() == 0 ==> r.is_none() && final(self)@ == old(self)@,
            old(self)@.resolved.len() > 0 ==> r.is_some() && work_result_view(*r.unwrap())
                == old(self)@.resolved[0].1 && final(self)@ == (WorkUnitView {
                    resolved: old(self)@.resolved.update(0, (old(self)@.resolved[0].0, work_result_view(*final(r.unwrap())))),
                    ..old(self)@
                }),
    {
        if self.is_resolved() {
            return Some(&mut self.resolved_peers[0].1);
        }
        None
    }

    /// The work is stuck: every peer it was sent to has rejected it (so a work
    /// sent to no peer is stuck too).
    pub fn is_stuck(&self) -> (b: bool)
        ensures
            b == self@.spec_is_stuck(),
    {
        let mut i: usize = 0;
        while i < self.contacted_peers.len()
            invariant
                i <= self@.contacted.len(),
                self@.contacted.len() == self.contacted_peers@.len(),
                forall|k: int| 0 <= k < i ==> self@.rejected.contains(#[trigger] self@.contacted[k]),
            decreases self.contacted_peers@.len() - i,
        {
            let c = &self.contacted_peers[i];
            let mut found = false;
            let mut j: usize = 0;
            while j < self.rejected_peers.len()
                invariant
                    j <= self@.rejected.len(),
                    self@.rejected.len() == self.rejected_peers@.len(),
                    c@ == self@.contacted[i as int],
                    found ==> self@.rejected.contains(c@),
                    !found ==> forall|k: int| 0 <= k < j ==> self@.rejected[k] != c@,
                decreases self.rejected_peers@.len() - j,
            {
                if bytes_eq(&self.rejected_peers[j], c) {
                    proof {
                        assert(self@.rejected[j as int] == c@);
                    }
                    found = true;
                }
                j = j + 1;
            }
            if !found {
                proof {
                    assert(!self@.rejected.contains(self@.contacted[i as int]));
                }
                return false;
            }
            i = i + 1;
        }
        true
    }
}


/// The protocol state of a node.
pub struct Workswap<R> {
    /// Events waiting to be reported, oldest first.
    events: VecDeque<WorkswapEvent>,
    /// Connected peers, in connection order, each with its statistics.
    peers: Vec<(PeerId, PeerStats)>,
    /// Work handed out to the network, by execution identifier.
    works: Vec<(ExecutionId, WorkUnit<R>)>,
}

/// Mathematical value of a [`Workswap`].
#[verifier::ext_equal]
pub struct WorkswapView<R> {
    pub events: Seq<WorkswapEventView>,
    pub peers: Seq<(Seq<u8>, PeerStatsView)>,
    pub works: Seq<(Seq<char>, WorkUnitView<R>)>,
}

/// Values of the peer table.
pub open spec fn peers_view(v: Seq<(PeerId, PeerStats)>) -> Seq<(Seq<u8>, PeerStatsView)> {
    v.map_values(|e: (PeerId, PeerStats)| (e.0@, e.1@))
}

/// Values of the work table.
pub open spec fn works_view<R>(v: Seq<(ExecutionId, WorkUnit<R>)>) -> Seq<(Seq<char>, WorkUnitView<R>)> {
    v.map_values(|e: (ExecutionId, WorkUnit<R>)| (e.0@, e.1@))
}

/// Values of the event queue.
pub open spec fn events_view(v: Seq<WorkswapEvent>) -> Seq<WorkswapEventView> {
    v.map_values(|e: WorkswapEvent| e@)
}

impl<R> View for Workswap<R> {
    type V = WorkswapView<R>;

    closed spec fn view(&self) -> WorkswapView<R> {
        WorkswapView {
            events: events_view(self.events@),
            peers: peers_view(self.peers@),
            works: works_view(self.works@),
        }
    }
}

impl<R> WorkswapView<R> {
    /// Each peer and each work appears once, and every entry is well formed.
    pub open spec fn wf(self) -> bool {
        &&& keys_unique(self.peers)
        &&& forall|i: int| 0 <= i < self.peers.len() ==> (#[trigger] self.peers[i]).1.wf()
        &&& keys_unique(self.works)
        &&& forall|i: int| 0 <= i < self.works.len() ==> (#[trigger] self.works[i]).1.wf()
    }

    pub open spec fn has_peer(self, peer: Seq<u8>) -> bool {
        has_key(self.peers, peer)
    }

    /// Statistics of a connected peer.
    pub open spec fn stats(self, peer: Seq<u8>) -> PeerStatsView {
        lookup(self.peers, peer).unwrap()
    }

    /// `peer`'s statistics replaced by `st`.
    pub open spec fn with_stats(self, peer: Seq<u8>, st: PeerStatsView) -> WorkswapView<R> {
        WorkswapView { peers: self.peers.update(key_pos(self.peers, peer), (peer, st)), ..self }
    }

    /// A newly connected peer gets fresh statistics (replacing any it had).
    pub open spec fn spec_connected(self, peer: Seq<u8>) -> WorkswapView<R> {
        WorkswapView { peers: upsert(self.peers, peer, fresh_stats()), ..self }
    }

    /// A disconnected peer is forgotten.
    pub open spec fn spec_disconnected(self, peer: Seq<u8>) -> WorkswapView<R> {
        WorkswapView { peers: remove_key(self.peers, peer), ..self }
    }

    pub open spec fn spec_accept(self, peer: Seq<u8>, id: Seq<char>) -> WorkswapView<R> {
        self.with_stats(peer, self.stats(peer).spec_accept(id))
    }

    pub open spec fn spec_reject(self, peer: Seq<u8>, id: Seq<char>) -> WorkswapView<R> {
        self.with_stats(peer, self.stats(peer).spec_reject(id))
    }

    /// A local execution for `peer` finished: its result is queued for the peer.
    pub open spec fn spec_resolve_execution(self, peer: Seq<u8>, res: ExecutionResultView) -> WorkswapView<R> {
        self.with_stats(peer, self.stats(peer).spec_add_result(res))
    }
}

/// An empty protocol state.
pub open spec fn empty_workswap<R>() -> WorkswapView<R> {
    WorkswapView { events: Seq::empty(), peers: Seq::empty(), works: Seq::empty() }
}

pub(crate) proof fn lemma_with_stats_wf<R>(s: WorkswapView<R>, peer: Seq<u8>, st: PeerStatsView)
    requires
        s.wf(),
        s.has_peer(peer),
        st.wf(),
    ensures
        s.with_stats(peer, st).wf(),
        s.with_stats(peer, st).has_peer(peer),
        s.with_stats(peer, st).stats(peer) == st,
        forall|p: Seq<u8>| p != peer ==> lookup(s.with_stats(peer, st).peers, p) == lookup(s.peers, p),
        forall|p: Seq<u8>| #[trigger] s.with_stats(peer, st).has_peer(p) == s.has_peer(p),
{
    let i = key_pos(s.peers, peer);
    let t = s.with_stats(peer, st);
    assert(0 <= i < s.peers.len() && s.peers[i].0 == peer);
    assert(keys_unique(t.peers));
    lemma_key_pos(t.peers, i);
    assert forall|p: Seq<u8>| p != peer implies lookup(t.peers, p) == lookup(s.peers, p) by {
        if has_key(s.peers, p) {
            let q = key_pos(s.peers, p);
            lemma_key_pos(s.peers, q);
            lemma_key_pos(t.peers, q);
        }
        if has_key(t.peers, p) {
            let q = key_pos(t.peers, p);
            assert(s.peers[q].0 == p);
        }
    }
    assert forall|p: Seq<u8>| #[trigger] t.has_peer(p) == s.has_peer(p) by {
        if has_key(s.peers, p) {
            let q = key_pos(s.peers, p);
            assert(t.peers[q].0 == p);
        }
        if has_key(t.peers, p) {
            let q = key_pos(t.peers, p);
            assert(s.peers[q].0 == p);
        }
    }
}

impl<R> Workswap<R> {
    /// A protocol state with no peer, no work and no pending event.
    pub fn new() -> (w: Workswap<R>)
        ensures
            w@ == empty_workswap::<R>(),
            w@.wf(),
    {
        let w = Workswap { events: VecDeque::new(), peers: Vec::new(), works: Vec::new() };
        assert(w@ =~= empty_workswap::<R>());
        w
    }

    /// Position of `peer` in the peer table.
    fn peer_position(&self, peer: &PeerId) -> (r: Option<usize>)
        requires
            self@.wf(),
        ensures
            match r {
                Some(i) => i < self@.peers.len() && self@.peers[i as int].0 == peer@ && key_pos(
                    self@.peers,
                    peer@,
                ) == i,
                None => !self@.has_peer(peer@),
            },
    {
        let mut i: usize = 0;
        while i < self.peers.len()
            invariant
                self@.wf(),
                i <= self@.peers.len(),
                self@.peers.len() == self.peers@.len(),
                forall|j: int| 0 <= j < i ==> self@.peers[j].0 != peer@,
            decreases self.peers@.len() - i,
        {
            if bytes_eq(&self.peers[i].0, peer) {
                proof {
                    assert(self@.peers[i as int].0 == peer@);
                    lemma_key_pos(self@.peers, i as int);
                }
                return Some(i);
            }
            i = i + 1;
        }
        None
    }

    /// Whether `peer` is connected.
    pub fn has_peer(&self, peer: &PeerId) -> (b: bool)
        requires
            self@.wf(),
        ensures
            b == self@.has_peer(peer@),
    {
        self.peer_position(peer).is_some()
    }

    /// Statistics of a connected peer.
    pub fn peer_stats(&self, peer: &PeerId) -> (r: Option<&PeerStats>)
        requires
            self@.wf(),
        ensures
            match r {
                Some(st) => self@.has_peer(peer@) && st@ == self@.stats(peer@),
                None => !self@.has_peer(peer@),
            },
    {
        match self.peer_position(peer) {
            Some(i) => {
                proof {
                    lemma_key_pos(self@.peers, i as int);
                }
                Some(&self.peers[i].1)
            },
            None => None,
        }
    }

    /// The work handed out under `id`, if any.
    pub fn work(&self, id: &ExecutionId) -> (r: Option<&WorkUnit<R>>)
        requires
            self@.wf(),
        ensures
            match r {
                Some(u) => lookup(self@.works, id@) == Some(u@),
                None => lookup(self@.works, id@).is_none(),
            },
    {
        match self.work_position(id) {
            Some(i) => {
                proof {
                    lemma_key_pos(self@.works, i as int);
                }
                Some(&self.works[i].1)
            },
            None => None,
        }
    }

    /// Number of events waiting to be reported.
    pub fn pending_events(&self) -> (n: usize)
        ensures
            n == self@.events.len(),
    {
        self.events.len()
    }

    /// Asks for a connection to `peer`. Connections are left to peer discovery,
    /// so this changes nothing.
    pub fn connect(&mut self, _peer_id: PeerId)
        ensures
            final(self)@ == old(self)@,
    {
    }

    /// A connection to `peer` was established: it gets fresh statistics.
    pub fn inject_connected(&mut self, peer: &PeerId)
        requires
            old(self)@.wf(),
        ensures
            final(self)@ == old(self)@.spec_connected(peer@),
            final(self)@.wf(),
    {
        proof {
            lemma_set_insert(Seq::<Seq<char>>::empty(), Seq::<char>::empty());
        }
        let ghost old_peers = self@.peers;
        match self.peer_position(peer) {
            Some(i) => {
                self.peers[i].1 = PeerStats::new();
                proof {
                    assert(self@.peers =~= old_peers.update(i as int, (peer@, fresh_stats())));
                }
            },
            None => {
                self.peers.push((clone_bytes(peer), PeerStats::new()));
                proof {
                    assert(self@.peers =~= old_peers.push((peer@, fresh_stats())));
                }
            },
        }
        proof {
            assert(self@ =~= old(self)@.spec_connected(peer@));
            crate::seqs::lemma_upsert(old_peers, peer@, fresh_stats());
            assert forall|i: int| 0 <= i < self@.peers.len() implies (#[trigger] self@.peers[i]).1.wf() by {
                if old_peers.len() > i && self@.peers[i] == old_peers[i] {
                } else {
                    assert(self@.peers[i].1 == fresh_stats());
                }
            }
        }
    }

    /// The connection to `peer` was closed: the peer is forgotten.
    pub fn inject_disconnected(&mut self, peer: &PeerId)
        requires
            old(self)@.wf(),
        ensures
            final(self)@ == old(self)@.spec_disconnected(peer@),
            final(self)@.wf(),
    {
        let ghost old_peers = self@.peers;
        match self.peer_position(peer) {
            Some(i) => {
                self.peers.remove(i);
                proof {
                    assert(self@.peers =~= old_peers.remove(i as int));
                }
            },
            None => {},
        }
        proof {
            assert(self@ =~= old(self)@.spec_disconnected(peer@));
            lemma_remove_key(old_peers, peer@);
            assert forall|i: int| 0 <= i < self@.peers.len() implies (#[trigger] self@.peers[i]).1.wf() by {
                if has_key(old_peers, peer@) {
                    let p = key_pos(old_peers, peer@);
                    let i2 = if i < p { i } else { i + 1 };
                    assert(self@.peers[i] == old_peers[i2]);
                }
            }
        }
    }
}


impl<R> Workswap<R> {
    /// Queues the acceptance of execution `id` for a connected peer.
    pub fn accept(&mut self, peer_id: &PeerId, id: ExecutionId)
        requires
            old(self)@.wf(),
            old(self)@.has_peer(peer_id@),
        ensures
            final(self)@ == old(self)@.spec_accept(peer_id@, id@),
            final(self)@.wf(),
    {
        let i = self.peer_position(peer_id).unwrap();
        proof {
            lemma_key_pos(self@.peers, i as int);
        }
        let ghost old_peers = self@.peers;
        let ghost id_view = id@;
        self.peers[i].1.accept(id);
        proof {
            assert(self@.peers =~= old_peers.update(i as int, (peer_id@, old_peers[i as int].1.spec_accept(id_view))));
            assert(self@ =~= old(self)@.spec_accept(peer_id@, id_view));
            lemma_with_stats_wf(old(self)@, peer_id@, old_peers[i as int].1.spec_accept(id_view));
        }
    }

    /// Queues the rejection of execution `id` for a connected peer.
    pub fn reject(&mut self, peer_id: &PeerId, id: ExecutionId)
        requires
            old(self)@.wf(),
            old(self)@.has_peer(peer_id@),
        ensures
            final(self)@ == old(self)@.spec_reject(peer_id@, id@),
            final(self)@.wf(),
    {
        let i = self.peer_position(peer_id).unwrap();
        proof {
            lemma_key_pos(self@.peers, i as int);
        }
        let ghost old_peers = self@.peers;
        let ghost id_view = id@;
        self.peers[i].1.reject(id);
        proof {
            assert(self@.peers =~= old_peers.update(i as int, (peer_id@, old_peers[i as int].1.spec_reject(id_view))));
            assert(self@ =~= old(self)@.spec_reject(peer_id@, id_view));
            lemma_with_stats_wf(old(self)@, peer_id@, old_peers[i as int].1.spec_reject(id_view));
        }
    }

    /// Queues the result of a local execution for the connected peer that asked for it.
    fn resolve_execution(&mut self, peer_id: &PeerId, exec: ExecutionResult)
        requires
            old(self)@.wf(),
            old(self)@.has_peer(peer_id@),
        ensures
            final(self)@ == old(self)@.spec_resolve_execution(peer_id@, exec@),
            final(self)@.wf(),
    {
        let i = self.peer_position(peer_id).unwrap();
        proof {
            lemma_key_pos(self@.peers, i as int);
        }
        let ghost old_peers = self@.peers;
        let ghost exec_view = exec@;
        self.peers[i].1.add_result(exec);
        proof {
            assert(self@.peers =~= old_peers.update(i as int, (peer_id@, old_peers[i as int].1.spec_add_result(exec_view))));
            assert(self@ =~= old(self)@.spec_resolve_execution(peer_id@, exec_view));
            lemma_with_stats_wf(old(self)@, peer_id@, old_peers[i as int].1.spec_add_result(exec_view));
        }
    }
}


/// The event reporting a finished execution.
pub open spec fn result_event(peer: Seq<u8>, r: ExecutionResultView) -> WorkswapEventView {
    match r.result {
        Ok(v) => WorkswapEventView::Completed(peer, r.id, v),
        Err(e) => WorkswapEventView::Failed(peer, r.id, e),
    }
}

/// Events for the rejections of a message from `peer`.
pub open spec fn rejected_events(peer: Seq<u8>, ids: Seq<Seq<char>>) -> Seq<WorkswapEventView> {
    ids.map_values(|id: Seq<char>| WorkswapEventView::Rejected(peer, id))
}

/// Events for the requests of a message from `peer`.
pub open spec fn request_events(peer: Seq<u8>, reqs: Seq<ExecutionRequestView>) -> Seq<WorkswapEventView> {
    reqs.map_values(|r: ExecutionRequestView| WorkswapEventView::WantCalc(peer, r.id, r.method, r.args))
}

/// Events for the results of a message from `peer`.
pub open spec fn result_events(peer: Seq<u8>, res: Seq<ExecutionResultView>) -> Seq<WorkswapEventView> {
    res.map_values(|r: ExecutionResultView| result_event(peer, r))
}

/// Identifiers of requests.
pub open spec fn request_ids(reqs: Seq<ExecutionRequestView>) -> Seq<Seq<char>> {
    reqs.map_values(|r: ExecutionRequestView| r.id)
}

/// Identifiers of results.
pub open spec fn result_ids(res: Seq<ExecutionResultView>) -> Seq<Seq<char>> {
    res.map_values(|r: ExecutionResultView| r.id)
}

/// Every work whose identifier is among `ids` records `peer` as having rejected it.
pub open spec fn mark_rejected<R>(works: Seq<(Seq<char>, WorkUnitView<R>)>, ids: Seq<Seq<char>>, peer: Seq<u8>) -> Seq<(Seq<char>, WorkUnitView<R>)> {
    works.map_values(
        |e: (Seq<char>, WorkUnitView<R>)|
            if ids.contains(e.0) {
                (e.0, WorkUnitView { rejected: set_insert(e.1.rejected, peer), ..e.1 })
            } else {
                e
            },
    )
}

impl<R> WorkswapView<R> {
    /// A message from `peer` arrived. Its rejections and results end those
    /// executions there; its requests start executions here; each of them, in
    /// that order, becomes an event; works that `peer` rejected record it.
    pub open spec fn spec_inject_event(self, peer: Seq<u8>, msg: MessageView) -> WorkswapView<R> {
        let st = self.stats(peer);
        let st2 = PeerStatsView {
            running_there: crate::seqs::set_remove_all(
                crate::seqs::set_remove_all(st.running_there, msg.rejects),
                result_ids(msg.results),
            ),
            running_here: crate::seqs::set_insert_all(st.running_here, request_ids(msg.requests)),
            message: st.message,
        };
        WorkswapView {
            events: self.events + rejected_events(peer, msg.rejects) + request_events(peer, msg.requests)
                + result_events(peer, msg.results),
            peers: self.peers.update(key_pos(self.peers, peer), (peer, st2)),
            works: mark_rejected(self.works, msg.rejects, peer),
        }
    }
}

/// A copy of a byte string.
pub fn clone_bytes(v: &Vec<u8>) -> (r: Vec<u8>)
    ensures
        r@ == v@,
{
    let r = v.clone();
    assert(r@ =~= v@);
    r
}

/// Whether two byte strings are equal.
pub fn bytes_eq(a: &Vec<u8>, b: &Vec<u8>) -> (r: bool)
    ensures
        r == (a@ == b@),
{
    if a.len() != b.len() {
        return false;
    }
    let mut i: usize = 0;
    while i < a.len()
        invariant
            i <= a@.len(),
            a@.len() == b@.len(),
            forall|j: int| 0 <= j < i ==> a@[j] == b@[j],
        decreases a@.len() - i,
    {
        if a[i] != b[i] {
            return false;
        }
        i = i + 1;
    }
    assert(a@ =~= b@);
    true
}

/// Adds `x` to the set `v` (kept without duplicates).
pub fn insert_bytes(v: &mut Vec<Vec<u8>>, x: Vec<u8>)
    requires
        bytes_list_view(old(v)@).no_duplicates(),
    ensures
        bytes_list_view(final(v)@) == set_insert(bytes_list_view(old(v)@), x@),
        bytes_list_view(final(v)@).no_duplicates(),
{
    proof {
        lemma_set_insert(bytes_list_view(v@), x@);
    }
    let mut i: usize = 0;
    while i < v.len()
        invariant
            i <= v@.len(),
            v@ == old(v)@,
            bytes_list_view(old(v)@).no_duplicates(),
            forall|j: int| 0 <= j < i ==> bytes_list_view(v@)[j] != x@,
        decreases v@.len() - i,
    {
        if bytes_eq(&v[i], &x) {
            assert(bytes_list_view(v@)[i as int] == x@);
            return;
        }
        i = i + 1;
    }
    let ghost xv = x@;
    v.push(x);
    proof {
        assert(bytes_list_view(v@) =~= bytes_list_view(old(v)@).push(xv));
    }
}

proof fn lemma_set_insert_idem<A>(s: Seq<A>, x: A)
    ensures
        set_insert(set_insert(s, x), x) == set_insert(s, x),
{
    if !s.contains(x) {
        assert(s.push(x)[s.len() as int] == x);
    }
}

proof fn lemma_set_insert_all_step<A>(s: Seq<A>, xs: Seq<A>, k: int)
    requires
        0 <= k < xs.len(),
    ensures
        crate::seqs::set_insert_all(s, xs.take(k + 1)) == set_insert(crate::seqs::set_insert_all(s, xs.take(k)), xs[k]),
{
    assert(xs.take(k + 1).drop_last() =~= xs.take(k));
}

proof fn lemma_set_remove_all_step<A>(s: Seq<A>, xs: Seq<A>, k: int)
    requires
        0 <= k < xs.len(),
    ensures
        crate::seqs::set_remove_all(s, xs.take(k + 1)) == crate::seqs::set_remove(crate::seqs::set_remove_all(s, xs.take(k)), xs[k]),
{
    assert(xs.take(k + 1).drop_last() =~= xs.take(k));
}

impl<R> Workswap<R> {
    /// Position of work `id` in the work table.
    fn work_position(&self, id: &ExecutionId) -> (r: Option<usize>)
        requires
            self@.wf(),
        ensures
            match r {
                Some(i) => i < self@.works.len() && self@.works[i as int].0 == id@,
                None => !has_key(self@.works, id@),
            },
    {
        let mut i: usize = 0;
        while i < self.works.len()
            invariant
                i <= self@.works.len(),
                self@.works.len() == self.works@.len(),
                forall|j: int| 0 <= j < i ==> self@.works[j].0 != id@,
            decreases self.works@.len() - i,
        {
            if self.works[i].0 == *id {
                return Some(i);
            }
            i = i + 1;
        }
        None
    }

    /// Records that `peer` rejected work `id`, if this node handed out such work.
    fn mark_work_rejected(&mut self, id: &ExecutionId, peer: &PeerId)
        requires
            old(self)@.wf(),
        ensures
            final(self)@ == (WorkswapView {
                works: old(self)@.works.map_values(
                    |e: (Seq<char>, WorkUnitView<R>)|
                        if e.0 == id@ {
                            (e.0, WorkUnitView { rejected: set_insert(e.1.rejected, peer@), ..e.1 })
                        } else {
                            e
                        },
                ),
                ..old(self)@
            }),
            final(self)@.wf(),
    {
        let ghost old_works = self@.works;
        match self.work_position(id) {
            Some(w) => {
                insert_bytes(&mut self.works[w].1.rejected_peers, clone_bytes(peer));
                proof {
                    assert forall|j: int| 0 <= j < old_works.len() && j != w implies old_works[j].0 != id@ by {
                        assert(old_works[w as int].0 == id@);
                    }
                    assert(self@.works =~= old_works.map_values(
                        |e: (Seq<char>, WorkUnitView<R>)|
                            if e.0 == id@ {
                                (e.0, WorkUnitView { rejected: set_insert(e.1.rejected, peer@), ..e.1 })
                            } else {
                                e
                            },
                    ));
                }
            },
            None => {
                proof {
                    assert(self@.works =~= old_works.map_values(
                        |e: (Seq<char>, WorkUnitView<R>)|
                            if e.0 == id@ {
                                (e.0, WorkUnitView { rejected: set_insert(e.1.rejected, peer@), ..e.1 })
                            } else {
                                e
                            },
                    ));
                }
            },
        }
        proof {
            assert(keys_unique(self@.works));
            assert forall|j: int| 0 <= j < self@.works.len() implies (#[trigger] self@.works[j]).1.wf() by {
                assert(old_works[j].1.wf());
                crate::seqs::lemma_set_insert(old_works[j].1.rejected, peer@);
            }
        }
    }

    /// Handles a message that `peer` sent: see
    /// [`WorkswapView::spec_inject_event`]. The peer must be connected.
    pub fn inject_event(&mut self, peer_id: &PeerId, message: Message)
        requires
            old(self)@.wf(),
            old(self)@.has_peer(peer_id@),
        ensures
            final(self)@ == old(self)@.spec_inject_event(peer_id@, message@),
            final(self)@.wf(),
    {
        let i = self.peer_position(peer_id).unwrap();
        let ghost pv = peer_id@;
        let ghost msg = message@;
        let ghost s0 = self@;
        let ghost st = s0.peers[i as int].1;
        proof {
            lemma_key_pos(s0.peers, i as int);
        }
        let mut k: usize = 0;
        while k < message.rejects.len()
            invariant
                s0 == old(self)@,
                s0.wf(),
                i < s0.peers.len(),
                s0.peers[i as int].0 == pv,
                key_pos(s0.peers, pv) == i,
                st == s0.peers[i as int].1,
                pv == peer_id@,
                msg == message@,
                k <= msg.rejects.len(),
                self@.wf(),
                self@.events == s0.events + rejected_events(pv, msg.rejects.take(k as int)),
                self@.peers == s0.peers.update(i as int, (pv, PeerStatsView {
                    running_there: crate::seqs::set_remove_all(st.running_there, msg.rejects.take(k as int)),
                    ..st
                })),
                self@.works == mark_rejected(s0.works, msg.rejects.take(k as int), pv),
            decreases msg.rejects.len() - k,
        {
            let id = &message.rejects[k];
            let ghost before = self@;
            proof {
                assert(self@.peers[i as int] == (self.peers@[i as int].0@, self.peers@[i as int].1@));
                assert(self@.peers[i as int].1.wf());
            }
            self.peers[i].1.forget_running(id);
            proof {
                assert(self@.peers =~= before.peers.update(i as int, (pv, before.peers[i as int].1.spec_forget_running(id@))));
            }
            proof {
                lemma_set_remove_all_step(st.running_there, msg.rejects, k as int);
                assert(self@.peers =~= s0.peers.update(i as int, (pv, PeerStatsView {
                    running_there: crate::seqs::set_remove_all(st.running_there, msg.rejects.take(k + 1)),
                    ..st
                })));
                assert(self@.wf()) by {
                    assert forall|j: int| 0 <= j < self@.peers.len() implies (#[trigger] self@.peers[j]).1.wf() by {
                        if j != i {
                            assert(self@.peers[j] == before.peers[j]);
                        }
                    }
                }
            }
            self.mark_work_rejected(id, peer_id);
            let ghost ev_before = self@.events;
            self.events.push_back(WorkswapEvent::Rejected(clone_bytes(peer_id), id.clone()));
            proof {
                assert(self@.events =~= ev_before.push(WorkswapEventView::Rejected(pv, msg.rejects[k as int])));
                assert(rejected_events(pv, msg.rejects.take(k + 1)) =~= rejected_events(pv, msg.rejects.take(k as int)).push(WorkswapEventView::Rejected(pv, msg.rejects[k as int])));
                assert(msg.rejects.take(k + 1) =~= msg.rejects.take(k as int).push(msg.rejects[k as int]));
                assert(self@.events =~= s0.events + rejected_events(pv, msg.rejects.take(k + 1)));
                assert forall|j: int| 0 <= j < s0.works.len() implies self@.works[j] == mark_rejected(s0.works, msg.rejects.take(k + 1), pv)[j] by {
                    let e = s0.works[j];
                    if e.0 == msg.rejects[k as int] && msg.rejects.take(k as int).contains(e.0) {
                        lemma_set_insert_idem(e.1.rejected, pv);
                    }
                    if msg.rejects.take(k + 1).contains(e.0) && e.0 != msg.rejects[k as int] {
                        let q = choose|q: int| 0 <= q < k + 1 && #[trigger] msg.rejects.take(k + 1)[q] == e.0;
                        assert(msg.rejects.take(k as int)[q] == e.0);
                    }
                }
                assert(self@.works =~= mark_rejected(s0.works, msg.rejects.take(k + 1), pv));
            }
            k = k + 1;
        }
        let ghost st1 = PeerStatsView {
            running_there: crate::seqs::set_remove_all(st.running_there, msg.rejects),
            ..st
        };
        proof {
            assert(msg.rejects.take(msg.rejects.len() as int) =~= msg.rejects);
        }
        let mut k: usize = 0;
        while k < message.requests.len()
            invariant
                s0 == old(self)@,
                s0.wf(),
                i < s0.peers.len(),
                s0.peers[i as int].0 == pv,
                pv == peer_id@,
                msg == message@,
                k <= msg.requests.len(),
                self@.wf(),
                self@.events == s0.events + rejected_events(pv, msg.rejects) + request_events(pv, msg.requests.take(k as int)),
                self@.peers == s0.peers.update(i as int, (pv, PeerStatsView {
                    running_here: crate::seqs::set_insert_all(st1.running_here, request_ids(msg.requests).take(k as int)),
                    ..st1
                })),
                self@.works == mark_rejected(s0.works, msg.rejects, pv),
            decreases msg.requests.len() - k,
        {
            let req = &message.requests[k];
            let ghost before = self@;
            proof {
                assert(self@.peers[i as int] == (self.peers@[i as int].0@, self.peers@[i as int].1@));
                assert(self@.peers[i as int].1.wf());
            }
            self.peers[i].1.record_running(req.id.clone());
            proof {
                assert(self@.peers =~= before.peers.update(i as int, (pv, before.peers[i as int].1.spec_record_running(req.id@))));
            }
            proof {
                lemma_set_insert_all_step(st1.running_here, request_ids(msg.requests), k as int);
                assert(self@.peers =~= s0.peers.update(i as int, (pv, PeerStatsView {
                    running_here: crate::seqs::set_insert_all(st1.running_here, request_ids(msg.requests).take(k + 1)),
                    ..st1
                })));
                assert(self@.wf()) by {
                    assert forall|j: int| 0 <= j < self@.peers.len() implies (#[trigger] self@.peers[j]).1.wf() by {
                        if j != i {
                            assert(self@.peers[j] == before.peers[j]);
                        }
                    }
                }
            }
            let ev = WorkswapEvent::WantCalc(clone_bytes(peer_id), req.id.clone(), req.method.clone(), clone_strings(&req.args));
            let ghost ev_before = self@.events;
            self.events.push_back(ev);
            proof {
                let r = msg.requests[k as int];
                assert(self@.events =~= ev_before.push(WorkswapEventView::WantCalc(pv, r.id, r.method, r.args)));
                assert(request_events(pv, msg.requests.take(k + 1)) =~= request_events(pv, msg.requests.take(k as int)).push(WorkswapEventView::WantCalc(pv, r.id, r.method, r.args)));
                assert(msg.requests.take(k + 1) =~= msg.requests.take(k as int).push(msg.requests[k as int]));
                assert(self@.events =~= s0.events + rejected_events(pv, msg.rejects) + request_events(pv, msg.requests.take(k + 1)));
            }
            k = k + 1;
        }
        let ghost st2 = PeerStatsView {
            running_here: crate::seqs::set_insert_all(st1.running_here, request_ids(msg.requests)),
            ..st1
        };
        proof {
            assert(msg.requests.take(msg.requests.len() as int) =~= msg.requests);
            assert(request_ids(msg.requests).take(msg.requests.len() as int) =~= request_ids(msg.requests));
        }
        let mut k: usize = 0;
        while k < message.results.len()
            invariant
                s0 == old(self)@,
                s0.wf(),
                i < s0.peers.len(),
                s0.peers[i as int].0 == pv,
                pv == peer_id@,
                msg == message@,
                k <= msg.results.len(),
                self@.wf(),
                self@.events == s0.events + rejected_events(pv, msg.rejects) + request_events(pv, msg.requests)
                    + result_events(pv, msg.results.take(k as int)),
                self@.peers == s0.peers.update(i as int, (pv, PeerStatsView {
                    running_there: crate::seqs::set_remove_all(st2.running_there, result_ids(msg.results).take(k as int)),
                    ..st2
                })),
                self@.works == mark_rejected(s0.works, msg.rejects, pv),
            decreases msg.results.len() - k,
        {
            let res = &message.results[k];
            let ghost before = self@;
            proof {
                assert(self@.peers[i as int] == (self.peers@[i as int].0@, self.peers@[i as int].1@));
                assert(self@.peers[i as int].1.wf());
            }
            self.peers[i].1.forget_running(&res.id);
            proof {
                assert(self@.peers =~= before.peers.update(i as int, (pv, before.peers[i as int].1.spec_forget_running(res.id@))));
            }
            proof {
                lemma_set_remove_all_step(st2.running_there, result_ids(msg.results), k as int);
                assert(self@.peers =~= s0.peers.update(i as int, (pv, PeerStatsView {
                    running_there: crate::seqs::set_remove_all(st2.running_there, result_ids(msg.results).take(k + 1)),
                    ..st2
                })));
                assert(self@.wf()) by {
                    assert forall|j: int| 0 <= j < self@.peers.len() implies (#[trigger] self@.peers[j]).1.wf() by {
                        if j != i {
                            assert(self@.peers[j] == before.peers[j]);
                        }
                    }
                }
            }
            let ev = match &res.result {
                Ok(v) => WorkswapEvent::Completed(clone_bytes(peer_id), res.id.clone(), v.clone()),
                Err(e) => WorkswapEvent::Failed(clone_bytes(peer_id), res.id.clone(), e.clone()),
            };
            let ghost ev_before = self@.events;
            self.events.push_back(ev);
            proof {
                let r = msg.results[k as int];
                assert(self@.events =~= ev_before.push(result_event(pv, r)));
                assert(result_events(pv, msg.results.take(k + 1)) =~= result_events(pv, msg.results.take(k as int)).push(result_event(pv, r)));
                assert(msg.results.take(k + 1) =~= msg.results.take(k as int).push(msg.results[k as int]));
                assert(self@.events =~= s0.events + rejected_events(pv, msg.rejects) + request_events(pv, msg.requests)
                    + result_events(pv, msg.results.take(k + 1)));
            }
            k = k + 1;
        }
        proof {
            assert(msg.results.take(msg.results.len() as int) =~= msg.results);
            assert(result_ids(msg.results).take(msg.results.len() as int) =~= result_ids(msg.results));
            assert(self@ =~= old(self)@.spec_inject_event(pv, msg));
        }
    }
}


/// Values of finished local executions, each with the peer that asked for it.
pub open spec fn finished_view(v: Seq<(PeerId, ExecutionResult)>) -> Seq<(Seq<u8>, ExecutionResultView)> {
    v.map_values(|e: (PeerId, ExecutionResult)| (e.0@, e.1@))
}

/// The results of finished local executions, in order, queued for the peers
/// that asked for them.
pub open spec fn resolve_all<R>(s: WorkswapView<R>, fin: Seq<(Seq<u8>, ExecutionResultView)>) -> WorkswapView<R>
    decreases fin.len(),
{
    if fin.len() == 0 {
        s
    } else {
        resolve_all(s, fin.drop_last()).spec_resolve_execution(fin.last().0, fin.last().1)
    }
}

/// The peer has something to be sent (see [`MessageView::spec_is_empty`]).
pub open spec fn is_ready(st: PeerStatsView) -> bool {
    !st.message.spec_is_empty()
}

/// Some peer has something to be sent.
pub open spec fn any_ready(peers: Seq<(Seq<u8>, PeerStatsView)>) -> bool {
    exists|j: int| 0 <= j < peers.len() && is_ready(#[trigger] peers[j].1)
}

/// The first peer, in table order, that has something to be sent.
pub open spec fn first_ready(peers: Seq<(Seq<u8>, PeerStatsView)>) -> int {
    choose|j: int|
        0 <= j < peers.len() && is_ready(#[trigger] peers[j].1) && forall|k: int| 0 <= k < j ==> !is_ready(
            #[trigger] peers[k].1,
        )
}

impl<R> WorkswapView<R> {
    /// One step of the protocol: queue the finished local executions; then report
    /// the oldest pending event if there is one; else send the gathered message
    /// of the first peer that has one; else there is nothing to do.
    pub open spec fn spec_poll(self, fin: Seq<(Seq<u8>, ExecutionResultView)>) -> (WorkswapView<R>, Option<WorkswapActionView>) {
        let s1 = resolve_all(self, fin);
        if s1.events.len() > 0 {
            (
                WorkswapView { events: s1.events.drop_first(), ..s1 },
                Some(WorkswapActionView::Generate(s1.events[0])),
            )
        } else if any_ready(s1.peers) {
            let j = first_ready(s1.peers);
            let sent = s1.peers[j].1.spec_ready_to_send();
            (
                WorkswapView { peers: s1.peers.update(j, (s1.peers[j].0, sent.0)), ..s1 },
                Some(WorkswapActionView::Notify { peer: s1.peers[j].0, message: sent.1.unwrap() }),
            )
        } else {
            (s1, None)
        }
    }
}

pub(crate) proof fn lemma_resolve_all<R>(s: WorkswapView<R>, fin: Seq<(Seq<u8>, ExecutionResultView)>)
    requires
        s.wf(),
        forall|i: int| 0 <= i < fin.len() ==> s.has_peer(#[trigger] fin[i].0),
    ensures
        resolve_all(s, fin).wf(),
        forall|p: Seq<u8>| #[trigger] resolve_all(s, fin).has_peer(p) == s.has_peer(p),
        resolve_all(s, fin).peers.len() == s.peers.len(),
        forall|j: int| 0 <= j < s.peers.len() ==> (#[trigger] resolve_all(s, fin).peers[j]).0 == s.peers[j].0,
    decreases fin.len(),
{
    if fin.len() > 0 {
        let prev = resolve_all(s, fin.drop_last());
        assert forall|i: int| 0 <= i < fin.drop_last().len() implies s.has_peer(#[trigger] fin.drop_last()[i].0) by {
            assert(fin.drop_last()[i] == fin[i]);
        }
        lemma_resolve_all(s, fin.drop_last());
        let p = fin.last().0;
        assert(s.has_peer(fin[fin.len() - 1].0));
        assert(prev.has_peer(p));
        let k = key_pos(prev.peers, p);
        assert(0 <= k < prev.peers.len() && prev.peers[k].0 == p);
        lemma_key_pos(prev.peers, k);
        assert(prev.peers[k].1.wf());
        crate::seqs::lemma_set_remove(prev.peers[k].1.running_there, fin.last().1.id);
        lemma_with_stats_wf(prev, p, prev.stats(p).spec_add_result(fin.last().1));
    }
}

impl<R> Workswap<R> {
    /// One step of the protocol (see [`WorkswapView::spec_poll`]): `finished` holds
    /// the local executions that finished since the last step, each with the peer
    /// that asked for it, which must still be connected.
    pub fn poll(&mut self, finished: Vec<(PeerId, ExecutionResult)>) -> (r: Option<WorkswapAction>)
        requires
            old(self)@.wf(),
            forall|i: int| 0 <= i < finished@.len() ==> old(self)@.has_peer(#[trigger] finished@[i].0@),
        ensures
            final(self)@ == old(self)@.spec_poll(finished_view(finished@)).0,
            match r {
                Some(a) => old(self)@.spec_poll(finished_view(finished@)).1 == Some(a@),
                None => old(self)@.spec_poll(finished_view(finished@)).1.is_none(),
            },
            final(self)@.wf(),
    {
        let ghost fin = finished_view(finished@);
        let ghost s0 = self@;
        proof {
            assert forall|i: int| 0 <= i < fin.len() implies s0.has_peer(#[trigger] fin[i].0) by {
                assert(fin[i].0 == finished@[i].0@);
            }
        }
        let mut i: usize = 0;
        while i < finished.len()
            invariant
                s0 == old(self)@,
                s0.wf(),
                fin == finished_view(finished@),
                forall|j: int| 0 <= j < fin.len() ==> s0.has_peer(#[trigger] fin[j].0),
                i <= finished@.len(),
                self@ == resolve_all(s0, fin.take(i as int)),
            decreases finished@.len() - i,
        {
            proof {
                assert forall|j: int| 0 <= j < fin.take(i as int).len() implies s0.has_peer(#[trigger] fin.take(i as int)[j].0) by {
                    assert(fin.take(i as int)[j] == fin[j]);
                }
                lemma_resolve_all(s0, fin.take(i as int));
                assert(fin[i as int].0 == finished@[i as int].0@);
                assert(s0.has_peer(fin[i as int].0));
            }
            let res = finished[i].1.duplicate();
            self.resolve_execution(&finished[i].0, res);
            proof {
                assert(fin.take(i + 1).drop_last() =~= fin.take(i as int));
            }
            i = i + 1;
        }
        proof {
            assert(fin.take(finished@.len() as int) =~= fin);
            lemma_resolve_all(s0, fin);
        }
        let ghost s1 = self@;
        let ghost ev_before = self.events@;
        match self.events.pop_front() {
            Some(ev) => {
                proof {
                    assert(self@.events =~= s1.events.drop_first());
                    assert(self@ =~= WorkswapView { events: s1.events.drop_first(), ..s1 });
                }
                return Some(WorkswapAction::Generate(ev));
            },
            None => {},
        }
        let mut j: usize = 0;
        while j < self.peers.len()
            invariant
                self@ == s1,
                s0 == old(self)@,
                fin == finished_view(finished@),
                s1 == resolve_all(s0, fin),
                s1.events.len() == 0,
                s1.wf(),
                j <= s1.peers.len(),
                forall|k: int| 0 <= k < j ==> !is_ready(#[trigger] s1.peers[k].1),
            decreases s1.peers.len() - j,
        {
            proof {
                assert(self@.peers[j as int] == (self.peers@[j as int].0@, self.peers@[j as int].1@));
                assert(self@.peers[j as int].1.wf());
            }
            let sent = self.peers[j].1.ready_to_send();
            match sent {
                Some(msg) => {
                    proof {
                        assert(is_ready(s1.peers[j as int].1));
                        assert(any_ready(s1.peers));
                        let f = first_ready(s1.peers);
                        assert(f == j);
                        assert(self@.peers =~= s1.peers.update(j as int, (s1.peers[j as int].0, s1.peers[j as int].1.spec_ready_to_send().0)));
                        assert(self@ =~= s1.spec_poll_after(j as int));
                        assert(self@.wf()) by {
                            assert forall|k: int| 0 <= k < self@.peers.len() implies (#[trigger] self@.peers[k]).1.wf() by {
                                if k != j {
                                    assert(self@.peers[k] == s1.peers[k]);
                                }
                            }
                        }
                    }
                    let peer = clone_bytes(&self.peers[j].0);
                    return Some(WorkswapAction::Notify { peer, message: msg });
                },
                None => {},
            }
            j = j + 1;
        }
        proof {
            assert(!any_ready(s1.peers));
        }
        None
    }
}

impl<R> WorkswapView<R> {
    /// The state after the gathered message of the peer at position `j` was taken out.
    pub open spec fn spec_poll_after(self, j: int) -> WorkswapView<R> {
        WorkswapView {
            peers: self.peers.update(j, (self.peers[j].0, self.peers[j].1.spec_ready_to_send().0)),
            ..self
        }
    }
}


/// Position `a` comes before position `b`: smaller distance, or equal distance
/// and earlier position (the order of a stable sort by distance).
pub open spec fn closer(d: Seq<nat>, a: int, b: int) -> bool {
    d[a] < d[b] || (d[a] == d[b] && a < b)
}

/// `j` is the position, not yet in `prev`, that comes before all others not in `prev`.
pub open spec fn is_next_closest(d: Seq<nat>, prev: Seq<int>, j: int) -> bool {
    &&& 0 <= j < d.len()
    &&& !prev.contains(j)
    &&& forall|k: int| 0 <= k < d.len() && !prev.contains(k) && k != j ==> #[trigger] closer(d, j, k)
}

/// The first `k` positions of a stable sort of `0..d.len()` by the distances `d`.
pub open spec fn closest(d: Seq<nat>, k: nat) -> Seq<int>
    decreases k,
{
    if k == 0 {
        Seq::empty()
    } else {
        let prev = closest(d, (k - 1) as nat);
        prev.push(choose|j: int| is_next_closest(d, prev, j))
    }
}

/// Distances between the identifiers of the peers and `id`.
pub open spec fn peer_distances(peers: Seq<(Seq<u8>, PeerStatsView)>, id: Seq<u8>) -> Seq<nat> {
    Seq::new(peers.len(), |j: int| crate::encoding::hamming_distance(peers[j].0, id))
}

/// At most this many peers get each computation.
pub const MAX_PEERS_PER_WORK: usize = 3;

/// How many peers get a computation when `n` are connected.
pub open spec fn fan_out(n: nat) -> nat {
    if n < MAX_PEERS_PER_WORK {
        n
    } else {
        MAX_PEERS_PER_WORK as nat
    }
}

/// The peers can be ordered by distance to `id`: with two or more of them,
/// every peer identifier is as long as `id` (the distance compares bytes
/// one to one).
pub open spec fn routable(peers: Seq<(Seq<u8>, PeerStatsView)>, id: Seq<u8>) -> bool {
    peers.len() <= 1 || forall|j: int| 0 <= j < peers.len() ==> (#[trigger] peers[j]).0.len() == id.len()
}

/// Values of a list of positions.
pub open spec fn positions_view(v: Seq<usize>) -> Seq<int> {
    v.map_values(|x: usize| x as int)
}

proof fn lemma_next_closest_unique(d: Seq<nat>, prev: Seq<int>, a: int, b: int)
    requires
        is_next_closest(d, prev, a),
        is_next_closest(d, prev, b),
    ensures
        a == b,
{
    if a != b {
        assert(closer(d, a, b));
        assert(closer(d, b, a));
    }
}

/// Some position below `n` is not in `sel`, when `sel` is shorter than `n`.
pub proof fn lemma_missing_position(sel: Seq<int>, n: int)
    requires
        sel.no_duplicates(),
        sel.len() < n,
        forall|i: int| 0 <= i < sel.len() ==> 0 <= #[trigger] sel[i] < n,
    ensures
        exists|j: int| 0 <= j < n && !sel.contains(j),
{
    if forall|j: int| 0 <= j < n ==> sel.contains(j) {
        vstd::set_lib::lemma_int_range(0, n);
        sel.unique_seq_to_set();
        assert(vstd::set_lib::set_int_range(0, n).subset_of(sel.to_set())) by {
            assert forall|j: int| vstd::set_lib::set_int_range(0, n).contains(j) implies sel.to_set().contains(j) by {
                assert(sel.contains(j));
            }
        }
        vstd::seq_lib::seq_to_set_is_finite(sel);
        vstd::set_lib::lemma_len_subset(vstd::set_lib::set_int_range(0, n), sel.to_set());
    }
}

/// Positions of the `k` smallest distances, in order of distance and then of position.
fn select_closest(dists: &Vec<u64>, k: usize) -> (sel: Vec<usize>)
    requires
        k <= dists@.len(),
    ensures
        positions_view(sel@) == closest(dists@.map_values(|x: u64| x as nat), k as nat),
        positions_view(sel@).no_duplicates(),
        sel@.len() == k,
        forall|i: int| 0 <= i < sel@.len() ==> sel@[i] < dists@.len(),
{
    let ghost d = dists@.map_values(|x: u64| x as nat);
    let n = dists.len();
    let mut sel: Vec<usize> = Vec::new();
    let mut t: usize = 0;
    while t < k
        invariant
            d == dists@.map_values(|x: u64| x as nat),
            n == dists@.len(),
            k <= n,
            t <= k,
            sel@.len() == t,
            positions_view(sel@) == closest(d, t as nat),
            positions_view(sel@).no_duplicates(),
            forall|i: int| 0 <= i < sel@.len() ==> sel@[i] < n,
        decreases k - t,
    {
        let ghost prev = positions_view(sel@);
        let mut best: usize = n;
        let mut j: usize = 0;
        while j < n
            invariant
                d == dists@.map_values(|x: u64| x as nat),
                n == dists@.len(),
                prev == positions_view(sel@),
                j <= n,
                best == n || (best < j && !prev.contains(best as int)),
                best == n ==> forall|x: int| 0 <= x < j ==> prev.contains(x),
                best < n ==> forall|x: int| 0 <= x < j && !prev.contains(x) && x != best ==> closer(d, best as int, x),
            decreases n - j,
        {
            let mut taken = false;
            let mut q: usize = 0;
            while q < sel.len()
                invariant
                    prev == positions_view(sel@),
                    q <= sel@.len(),
                    taken == exists|y: int| 0 <= y < q && prev[y] == j as int,
                decreases sel@.len() - q,
            {
                proof {
                    assert(prev[q as int] == sel@[q as int] as int);
                }
                if sel[q] == j {
                    taken = true;
                }
                q = q + 1;
            }
            proof {
                assert(taken == prev.contains(j as int));
            }
            if !taken {
                if best == n || dists[j] < dists[best] {
                    best = j;
                }
            }
            j = j + 1;
        }
        proof {
            if best == n {
                lemma_missing_position(prev, n as int);
            }
            assert(is_next_closest(d, prev, best as int)) by {
                assert forall|x: int| 0 <= x < d.len() && !prev.contains(x) && x != best implies #[trigger] closer(d, best as int, x) by {
                }
            }
            let c = choose|x: int| is_next_closest(d, prev, x);
            lemma_next_closest_unique(d, prev, c, best as int);
        }
        sel.push(best);
        proof {
            assert(positions_view(sel@) =~= prev.push(best as int));
        }
        t = t + 1;
    }
    sel
}


/// What became of a computation that the node wants done.
#[derive(Debug, Clone, PartialEq, Eq)]
pub enum WantExec<R> {
    /// The work was handed out under this identifier.
    Dispatched(ExecutionId),
    /// No peer is connected; the caller's handle comes back, to report the failure.
    NoPeers(R),
    /// The peers cannot be ordered by distance to the work's identifier (some peer
    /// identifier has another length); the caller's handle comes back.
    Unroutable(R),
}

/// What [`Workswap::want_exec`] does: see there.
pub open spec fn want_exec_post<R>(
    pre: WorkswapView<R>,
    post: WorkswapView<R>,
    method: Seq<char>,
    args: Seq<Seq<char>>,
    ret: R,
    r: WantExec<R>,
) -> bool {
    let id = crate::encoding::work_id_spec(method, args);
    if pre.peers.len() == 0 {
        r == WantExec::<R>::NoPeers(ret) && post == pre
    } else if !routable(pre.peers, vstd::utf8::encode_utf8(id)) {
        r == WantExec::<R>::Unroutable(ret) && post == pre
    } else {
        &&& r matches WantExec::Dispatched(x) && x@ == id
        &&& post == pre.spec_dispatch(id, ExecutionRequestView { id, method, args }, ret)
    }
}

/// The error text that a caller receives when no peer is connected.
pub fn no_peers_error() -> (r: String)
    ensures
        r@ == "No peers"@,
{
    "No peers".to_string()
}

impl<R> WorkswapView<R> {
    /// Work `id` is handed out: the closest peers to `id` (at most
    /// [`MAX_PEERS_PER_WORK`], by the bitwise distance between their identifier
    /// and the bytes of `id`, ties broken by table order) each get the request,
    /// and the work is recorded with the peers contacted.
    pub open spec fn spec_dispatch(self, id: Seq<char>, req: ExecutionRequestView, ret: R) -> WorkswapView<R> {
        let n = self.peers.len();
        let sel = closest(peer_distances(self.peers, vstd::utf8::encode_utf8(id)), fan_out(n));
        WorkswapView {
            peers: Seq::new(
                n,
                |j: int|
                    if sel.contains(j) {
                        (self.peers[j].0, self.peers[j].1.spec_add_request(req))
                    } else {
                        self.peers[j]
                    },
            ),
            works: upsert(
                self.works,
                id,
                WorkUnitView {
                    ret_chan: ret,
                    contacted: sel.map_values(|j: int| self.peers[j].0),
                    rejected: Seq::empty(),
                    resolved: Seq::empty(),
                },
            ),
            ..self
        }
    }
}

proof fn lemma_closest_one(d: Seq<nat>)
    requires
        d.len() == 1,
    ensures
        closest(d, 1) == seq![0int],
{
    let prev = closest(d, 0);
    assert(prev =~= Seq::<int>::empty());
    assert(is_next_closest(d, prev, 0));
    let c = choose|j: int| is_next_closest(d, prev, j);
    lemma_next_closest_unique(d, prev, c, 0);
    assert(closest(d, 1) =~= seq![0int]);
}

impl<R> Workswap<R> {
    /// Hands out work `id` (see [`WorkswapView::spec_dispatch`]).
    fn dispatch(&mut self, id: ExecutionId, method: ContentId, args: Vec<ContentId>, ret: R)
        requires
            old(self)@.wf(),
            old(self)@.peers.len() > 0,
            routable(old(self)@.peers, vstd::utf8::encode_utf8(id@)),
        ensures
            final(self)@ == old(self)@.spec_dispatch(
                id@,
                ExecutionRequestView { id: id@, method: method@, args: args.deep_view() },
                ret,
            ),
            final(self)@.wf(),
    {
        let ghost s0 = self@;
        let ghost idb = vstd::utf8::encode_utf8(id@);
        let ghost d = peer_distances(s0.peers, idb);
        let n = self.peers.len();
        let k: usize = if n < MAX_PEERS_PER_WORK { n } else { MAX_PEERS_PER_WORK };
        let sel: Vec<usize> = if n == 1 {
            proof {
                lemma_closest_one(d);
            }
            let mut v: Vec<usize> = Vec::new();
            v.push(0);
            proof {
                assert(positions_view(v@) =~= seq![0int]);
            }
            v
        } else {
            let id_bytes = id.as_str().as_bytes();
            let mut dists: Vec<u64> = Vec::new();
            let mut j: usize = 0;
            while j < n
                invariant
                    self@ == s0,
                    n == s0.peers.len(),
                    n >= 2,
                    routable(s0.peers, idb),
                    id_bytes@ == idb,
                    j <= n,
                    dists@.len() == j,
                    forall|x: int| 0 <= x < j ==> dists@[x] as nat == d[x],
                    d == peer_distances(s0.peers, idb),
                decreases n - j,
            {
                proof {
                    assert(self@.peers[j as int] == (self.peers@[j as int].0@, self.peers@[j as int].1@));
                    assert(self@.peers[j as int].0.len() == idb.len());
                }
                let dist = crate::encoding::hamming(self.peers[j].0.as_slice(), id_bytes);
                dists.push(dist);
                j = j + 1;
            }
            proof {
                assert(dists@.map_values(|x: u64| x as nat) =~= d);
            }
            select_closest(&dists, k)
        };
        let ghost selv = positions_view(sel@);
        proof {
            assert(selv == closest(d, fan_out(n as nat)));
        }
        let ghost req_view = ExecutionRequestView { id: id@, method: method@, args: args.deep_view() };
        let req = ExecutionRequest { id: id.clone(), method, args };
        let mut contacted: Vec<PeerId> = Vec::new();
        let mut t: usize = 0;
        while t < sel.len()
            invariant
                s0.wf(),
                n == s0.peers.len(),
                selv == positions_view(sel@),
                selv.no_duplicates(),
                forall|i: int| 0 <= i < sel@.len() ==> sel@[i] < n,
                req@ == req_view,
                self.peers@.len() == n,
                t <= sel@.len(),
                self@.events == s0.events,
                self@.works == s0.works,
                self@.peers == Seq::new(
                    n as nat,
                    |j: int|
                        if selv.take(t as int).contains(j) {
                            (s0.peers[j].0, s0.peers[j].1.spec_add_request(req_view))
                        } else {
                            s0.peers[j]
                        },
                ),
                bytes_list_view(contacted@) == selv.take(t as int).map_values(|j: int| s0.peers[j].0),
            decreases sel@.len() - t,
        {
            let j = sel[t];
            proof {
                assert(selv[t as int] == j as int);
                assert(!selv.take(t as int).contains(j as int)) by {
                    if selv.take(t as int).contains(j as int) {
                        let y = choose|y: int| 0 <= y < t && #[trigger] selv.take(t as int)[y] == j as int;
                        assert(selv[y] == selv[t as int]);
                    }
                }
                assert(self@.peers[j as int] == s0.peers[j as int]);
                assert(self@.peers[j as int] == (self.peers@[j as int].0@, self.peers@[j as int].1@));
                assert(s0.peers[j as int].1.wf());
            }
            let ghost before = self@;
            self.peers[j].1.add_request(req.duplicate());
            proof {
                assert(self@.peers =~= before.peers.update(j as int, (s0.peers[j as int].0, s0.peers[j as int].1.spec_add_request(req_view))));
            }
            let ghost contacted_before = bytes_list_view(contacted@);
            let peer_copy = clone_bytes(&self.peers[j].0);
            proof {
                assert(self@.peers[j as int] == (self.peers@[j as int].0@, self.peers@[j as int].1@));
                assert(peer_copy@ == s0.peers[j as int].0);
            }
            contacted.push(peer_copy);
            proof {
                assert(bytes_list_view(contacted@) =~= contacted_before.push(s0.peers[j as int].0));
                assert(selv.take(t + 1) =~= selv.take(t as int).push(j as int));
                assert forall|x: int| #[trigger] selv.take(t + 1).contains(x) == (selv.take(t as int).contains(x) || x == j) by {
                    if selv.take(t + 1).contains(x) {
                        let y = choose|y: int| 0 <= y < t + 1 && #[trigger] selv.take(t + 1)[y] == x;
                        if y < t {
                            assert(selv.take(t as int)[y] == x);
                        }
                    }
                    if selv.take(t as int).contains(x) {
                        let y = choose|y: int| 0 <= y < t && #[trigger] selv.take(t as int)[y] == x;
                        assert(selv.take(t + 1)[y] == x);
                    }
                    if x == j {
                        assert(selv.take(t + 1)[t as int] == x);
                    }
                }
                assert(self@.peers =~= Seq::new(
                    n as nat,
                    |x: int|
                        if selv.take(t + 1).contains(x) {
                            (s0.peers[x].0, s0.peers[x].1.spec_add_request(req_view))
                        } else {
                            s0.peers[x]
                        },
                ));
                assert(self@.events == s0.events);
                assert(self@.works == s0.works);
                assert(bytes_list_view(contacted@) =~= selv.take(t + 1).map_values(|x: int| s0.peers[x].0));
            }
            t = t + 1;
        }
        proof {
            assert(selv.take(sel@.len() as int) =~= selv);
        }
        let ghost contacted_view = selv.map_values(|x: int| s0.peers[x].0);
        let unit = WorkUnit { ret_chan: ret, contacted_peers: contacted, rejected_peers: Vec::new(), resolved_peers: Vec::new() };
        let ghost unit_view = unit@;
        proof {
            assert(unit_view.contacted == contacted_view);
            assert(unit_view.rejected =~= Seq::<Seq<u8>>::empty());
            assert(unit_view.resolved =~= Seq::<(Seq<u8>, Result<Seq<char>, Seq<char>>)>::empty());
            assert(contacted_view.no_duplicates()) by {
                assert forall|a: int, b: int| 0 <= a < contacted_view.len() && 0 <= b < contacted_view.len() && a != b implies contacted_view[a] != contacted_view[b] by {
                    assert(selv[a] != selv[b]);
                }
            }
        }
        let ghost mid = self@;
        let ghost old_works = self@.works;
        match self.work_position(&id) {
            Some(w) => {
                proof {
                    lemma_key_pos(old_works, w as int);
                }
                self.works.set(w, (id, unit));
                proof {
                    assert(self@.works =~= old_works.update(w as int, (id@, unit_view)));
                }
            },
            None => {
                self.works.push((id, unit));
                proof {
                    assert(self@.works =~= old_works.push((id@, unit_view)));
                }
            },
        }
        proof {
            crate::seqs::lemma_upsert(old_works, id@, unit_view);
            assert(self@.works == upsert(old_works, id@, unit_view));
            assert(self@ =~= old(self)@.spec_dispatch(id@, req_view, ret));
            assert(keys_unique(self@.peers)) by {
                assert forall|a: int, b: int| 0 <= a < self@.peers.len() && 0 <= b < self@.peers.len() && a != b implies self@.peers[a].0 != self@.peers[b].0 by {
                    assert(s0.peers[a].0 != s0.peers[b].0);
                }
            }
            assert forall|x: int| 0 <= x < self@.peers.len() implies (#[trigger] self@.peers[x]).1.wf() by {
                assert(s0.peers[x].1.wf());
                crate::seqs::lemma_set_insert(s0.peers[x].1.running_there, req_view.id);
            }
            assert forall|x: int| 0 <= x < self@.works.len() implies (#[trigger] self@.works[x]).1.wf() by {
                if self@.works[x].0 != id@ {
                    lemma_key_pos(self@.works, x);
                    if has_key(old_works, self@.works[x].0) {
                        let q = key_pos(old_works, self@.works[x].0);
                        lemma_key_pos(old_works, q);
                        assert(old_works[q].1.wf());
                    }
                } else {
                    lemma_key_pos(self@.works, x);
                }
            }
        }
    }

    /// The node wants `method` run on `args`, and `ret` answers the requester.
    ///
    /// The work's identifier is [`crate::encoding::work_id`] of them. With no
    /// peer connected, `ret` comes back ([`WantExec::NoPeers`]). Where the
    /// peers cannot be ordered by distance to the identifier (see [`routable`]),
    /// `ret` comes back too ([`WantExec::Unroutable`]). Otherwise the work is
    /// handed out as [`WorkswapView::spec_dispatch`] says.
    pub fn want_exec(&mut self, method: ContentId, args: Vec<ContentId>, ret: R) -> (r: WantExec<R>)
        requires
            old(self)@.wf(),
        ensures
            want_exec_post(old(self)@, final(self)@, method@, args.deep_view(), ret, r),
            final(self)@.wf(),
    {
        let id = crate::encoding::work_id(&method, &args);
        let n = self.peers.len();
        if n == 0 {
            return WantExec::NoPeers(ret);
        }
        if n >= 2 {
            let id_bytes = id.as_str().as_bytes();
            let mut j: usize = 0;
            while j < n
                invariant
                    self@ == old(self)@,
                    old(self)@.wf(),
                    n >= 2,
                    id@ == crate::encoding::work_id_spec(method@, args.deep_view()),
                    n == self@.peers.len(),
                    self@.peers.len() == self.peers@.len(),
                    id_bytes@ == vstd::utf8::encode_utf8(id@),
                    j <= n,
                    forall|x: int| 0 <= x < j ==> (#[trigger] self@.peers[x]).0.len() == id_bytes@.len(),
                decreases n - j,
            {
                proof {
                    assert(self@.peers[j as int] == (self.peers@[j as int].0@, self.peers@[j as int].1@));
                }
                if self.peers[j].0.len() != id_bytes.len() {
                    proof {
                        assert(!routable(self@.peers, id_bytes@));
                    }
                    return WantExec::Unroutable(ret);
                }
                j = j + 1;
            }
        }
        self.dispatch(id.clone(), method, args, ret);
        WantExec::Dispatched(id)
    }
}


/// A request to compute `method` on `args`; `ret` answers the requester.
pub struct ExecCommand<R> {
    pub method: ContentId,
    pub args: Vec<ContentId>,
    pub ret: R,
}

/// Commands that the node's front end sends to the protocol.
pub enum IPCSCommand<R> {
    Exec(ExecCommand<R>),
}

impl<R> Workswap<R> {
    /// Carries out a command of the front end: an execution request becomes
    /// [`Workswap::want_exec`].
    pub fn handle_control_mesage(&mut self, msg: IPCSCommand<R>) -> (r: WantExec<R>)
        requires
            old(self)@.wf(),
        ensures
            match msg {
                IPCSCommand::Exec(cmd) => want_exec_post(old(self)@, final(self)@, cmd.method@, cmd.args.deep_view(), cmd.ret, r),
            },
            final(self)@.wf(),
    {
        match msg {
            IPCSCommand::Exec(cmd) => self.want_exec(cmd.method, cmd.args, cmd.ret),
        }
    }
}

} // verus!
