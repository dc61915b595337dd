//! The decisions of a node around the protocol: which computations it waits
//! for, which stored objects it holds, and what it does with the outcome of a
//! peer lookup or an event of the protocol.
//!
//! The peer discovery, block exchange and function runtime are driven from
//! outside: this state says what to ask of them and takes what they answer.

use vstd::prelude::*;
use crate::message::{clone_strings, ContentId, ExecutionId, ExecutionResult, ExecutionResultView, WorkResult};
use crate::seqs::{has_key, key_pos, keys_unique, lemma_key_pos, lemma_remove_key, lemma_upsert, lookup, remove_key, upsert};
use crate::workswap::{clone_bytes, PeerId, WorkswapEvent};
use crate::encoding::raw_block_cid;

verus! {

/// Identifier of a lookup in the peer directory.
pub type QueryId = u64;

/// Where a local computation stands.
#[derive(Debug, Clone, PartialEq, Eq)]
pub enum WorkState {
    /// Nothing to run on this node: the work is carried out elsewhere.
    Empty,
    /// Waiting for the stored function and its arguments.
    Waiting(ContentId, Vec<ContentId>),
    Performing,
}

/// Mathematical value of a [`WorkState`].
pub enum WorkStateView {
    Empty,
    Waiting(Seq<char>, Seq<Seq<char>>),
    Performing,
}

impl View for WorkState {
    type V = WorkStateView;

    open spec fn view(&self) -> WorkStateView {
        match self {
            WorkState::Empty => WorkStateView::Empty,
            WorkState::Waiting(m, a) => WorkStateView::Waiting(m@, a.deep_view()),
            WorkState::Performing => WorkStateView::Performing,
        }
    }
}

/// A computation that this node was asked for; `res_chan` answers the requester.
pub struct WorkInfo<R> {
    pub res_chan: R,
    pub state: WorkState,
}

/// Mathematical value of a [`WorkInfo`].
pub struct WorkInfoView<R> {
    pub res_chan: R,
    pub state: WorkStateView,
}

impl<R> View for WorkInfo<R> {
    type V = WorkInfoView<R>;

    open spec fn view(&self) -> WorkInfoView<R> {
        WorkInfoView { res_chan: self.res_chan, state: self.state@ }
    }
}

/// A computation that a peer asked this node to run.
pub struct PeerWork {
    /// The peer that asked for it, to which the result goes.
    pub peer: PeerId,
    pub state: WorkState,
}

/// Mathematical value of a [`PeerWork`].
pub struct PeerWorkView {
    pub peer: Seq<u8>,
    pub state: WorkStateView,
}

impl View for PeerWork {
    type V = PeerWorkView;

    open spec fn view(&self) -> PeerWorkView {
        PeerWorkView { peer: self.peer@, state: self.state@ }
    }
}

/// Why a lookup in the peer directory was started.
#[derive(Debug, Clone, PartialEq, Eq)]
pub enum QueryType {
    /// To find the peers for execution `id` of `method` on `args`.
    Workswap(ExecutionId, ContentId, Vec<ContentId>),
}

/// Mathematical value of a [`QueryType`].
pub enum QueryTypeView {
    Workswap(Seq<char>, Seq<char>, Seq<Seq<char>>),
}

impl View for QueryType {
    type V = QueryTypeView;

    open spec fn view(&self) -> QueryTypeView {
        match self {
            QueryType::Workswap(id, m, a) => QueryTypeView::Workswap(id@, m@, a.deep_view()),
        }
    }
}

/// What a finished lookup in the peer directory yielded.
#[derive(Debug, Clone, PartialEq, Eq)]
pub enum KadOutcome {
    /// The closest peers were found.
    ClosestPeers,
    /// The search for the closest peers timed out.
    ClosestPeersTimeout,
    /// Another kind of result.
    Other,
}

/// The node's bookkeeping.
pub struct NodeState<R> {
    local_works: Vec<(ExecutionId, WorkInfo<R>)>,
    peer_works: Vec<(ExecutionId, PeerWork)>,
    queries: Vec<(QueryId, QueryType)>,
    blocks: Vec<(ContentId, Vec<u8>)>,
}

/// Mathematical value of a [`NodeState`].
#[verifier::ext_equal]
pub struct NodeStateView<R> {
    /// This node's own requests, waiting for the outcome from the network.
    pub local_works: Seq<(Seq<char>, WorkInfoView<R>)>,
    /// Computations that peers asked this node to run.
    pub peer_works: Seq<(Seq<char>, PeerWorkView)>,
    pub queries: Seq<(u64, QueryTypeView)>,
    pub blocks: Seq<(Seq<char>, Seq<u8>)>,
}

impl<R> View for NodeState<R> {
    type V = NodeStateView<R>;

    closed spec fn view(&self) -> NodeStateView<R> {
        NodeStateView {
            local_works: self.local_works@.map_values(|e: (ExecutionId, WorkInfo<R>)| (e.0@, e.1@)),
            peer_works: self.peer_works@.map_values(|e: (ExecutionId, PeerWork)| (e.0@, e.1@)),
            queries: self.queries@.map_values(|e: (QueryId, QueryType)| (e.0, e.1@)),
            blocks: self.blocks@.map_values(|e: (ContentId, Vec<u8>)| (e.0@, e.1@)),
        }
    }
}

impl<R> NodeStateView<R> {
    /// No computation, lookup or block is listed twice.
    pub open spec fn wf(self) -> bool {
        &&& keys_unique(self.local_works)
        &&& keys_unique(self.peer_works)
        &&& keys_unique(self.queries)
        &&& keys_unique(self.blocks)
    }

    /// This node asked for a computation: a lookup `query` finds the peers for
    /// it, and the requester waits, with nothing to run here, under the work's
    /// identifier in the work exchange ([`crate::encoding::work_id`]), the one
    /// under which the exchange reports the outcome.
    pub open spec fn spec_want_exec(self, id: Seq<char>, method: Seq<char>, args: Seq<Seq<char>>, ret: R, query: u64) -> NodeStateView<R> {
        NodeStateView {
            queries: upsert(self.queries, query, QueryTypeView::Workswap(id, method, args)),
            local_works: upsert(
                self.local_works,
                crate::encoding::work_id_spec(method, args),
                WorkInfoView { res_chan: ret, state: WorkStateView::Empty },
            ),
            ..self
        }
    }

    /// A peer asked this node to run computation `id` of `method` on `args`: it
    /// waits for its function and arguments.
    pub open spec fn spec_peer_request(self, peer: Seq<u8>, id: Seq<char>, method: Seq<char>, args: Seq<Seq<char>>) -> NodeStateView<R> {
        NodeStateView {
            peer_works: upsert(self.peer_works, id, PeerWorkView { peer, state: WorkStateView::Waiting(method, args) }),
            ..self
        }
    }

    /// The computation `id` asked by a peer is no longer to be run.
    pub open spec fn spec_forget_peer_work(self, id: Seq<char>) -> NodeStateView<R> {
        NodeStateView { peer_works: remove_key(self.peer_works, id), ..self }
    }

    /// A lookup finished: it is forgotten.
    pub open spec fn spec_kademlia_resolved(self, query: u64) -> NodeStateView<R> {
        NodeStateView { queries: remove_key(self.queries, query), ..self }
    }

    /// A block arrived: it is kept (replacing one with the same identifier).
    pub open spec fn spec_received_block(self, cid: Seq<char>, data: Seq<u8>) -> NodeStateView<R> {
        NodeStateView { blocks: upsert(self.blocks, cid, data), ..self }
    }

    /// The computation `id` is no longer waited for.
    pub open spec fn spec_forget_work(self, id: Seq<char>) -> NodeStateView<R> {
        NodeStateView { local_works: remove_key(self.local_works, id), ..self }
    }
}

/// A computation whose function and arguments are all here.
#[derive(Debug, Clone, PartialEq, Eq)]
pub struct UnblockedWork {
    pub id: ExecutionId,
    pub method: Vec<u8>,
    pub args: Vec<Vec<u8>>,
}

/// The node holds every block that the waiting computation `w` needs.
pub open spec fn is_unblocked(w: PeerWorkView, blocks: Seq<(Seq<char>, Seq<u8>)>) -> bool {
    match w.state {
        WorkStateView::Waiting(m, a) => has_key(blocks, m) && forall|i: int| 0 <= i < a.len() ==> has_key(blocks, #[trigger] a[i]),
        _ => false,
    }
}

/// The identifier, function bytes and argument bytes of the unblocked
/// computation `w`.
pub open spec fn unblocked_item(id: Seq<char>, w: PeerWorkView, blocks: Seq<(Seq<char>, Seq<u8>)>) -> (Seq<char>, Seq<u8>, Seq<Seq<u8>>) {
    match w.state {
        WorkStateView::Waiting(m, a) => (
            id,
            lookup(blocks, m).unwrap(),
            a.map_values(|c: Seq<char>| lookup(blocks, c).unwrap()),
        ),
        _ => (id, Seq::empty(), Seq::empty()),
    }
}

/// The unblocked computations, in table order.
pub open spec fn unblocked(works: Seq<(Seq<char>, PeerWorkView)>, blocks: Seq<(Seq<char>, Seq<u8>)>) -> Seq<(Seq<char>, Seq<u8>, Seq<Seq<u8>>)>
    decreases works.len(),
{
    if works.len() == 0 {
        Seq::empty()
    } else {
        let rest = unblocked(works.drop_last(), blocks);
        if is_unblocked(works.last().1, blocks) {
            rest.push(unblocked_item(works.last().0, works.last().1, blocks))
        } else {
            rest
        }
    }
}

/// Values of unblocked computations.
pub open spec fn unblocked_view(v: Seq<UnblockedWork>) -> Seq<(Seq<char>, Seq<u8>, Seq<Seq<u8>>)> {
    v.map_values(|u: UnblockedWork| (u.id@, u.method@, u.args@.map_values(|a: Vec<u8>| a@)))
}

/// What the node reports to its owner.
#[derive(Debug, Clone, PartialEq, Eq)]
pub enum NetworkEvent {
    /// A local computation finished; its result is this block.
    FinishedLocalExec(ExecutionId, crate::block::Block),
}

/// What follows a computation run here for a peer.
#[derive(Debug, PartialEq, Eq)]
pub struct LocalExecDone {
    /// The peer that asked for it, if it was still to be run, with its result.
    pub result: Option<(PeerId, ExecutionResult)>,
    /// What the node reports to its owner.
    pub event: NetworkEvent,
}

/// What the node must do after an event of the protocol.
#[derive(Debug, PartialEq, Eq)]
pub enum NodeAction<R> {
    Nothing,
    /// Accept execution `id` of `peer`, and ask the block exchange for `want`.
    Accept { peer: PeerId, id: ExecutionId, want: Vec<ContentId> },
    /// Answer a requester with the outcome of its computation.
    Reply(R, WorkResult),
}

impl<R> NodeState<R> {
    /// Nothing waited for, looked up or held.
    pub fn new() -> (s: NodeState<R>)
        ensures
            s@.local_works.len() == 0,
            s@.peer_works.len() == 0,
            s@.queries.len() == 0,
            s@.blocks.len() == 0,
            s@.wf(),
    {
        NodeState { local_works: Vec::new(), peer_works: Vec::new(), queries: Vec::new(), blocks: Vec::new() }
    }

    fn peer_work_position(&self, id: &ExecutionId) -> (r: Option<usize>)
        ensures
            match r {
                Some(i) => i < self@.peer_works.len() && self@.peer_works[i as int].0 == id@,
                None => !has_key(self@.peer_works, id@),
            },
    {
        let mut i: usize = 0;
        while i < self.peer_works.len()
            invariant
                i <= self@.peer_works.len(),
                self@.peer_works.len() == self.peer_works@.len(),
                forall|j: int| 0 <= j < i ==> self@.peer_works[j].0 != id@,
            decreases self.peer_works@.len() - i,
        {
            if self.peer_works[i].0 == *id {
                return Some(i);
            }
            i = i + 1;
        }
        None
    }

    fn work_position(&self, id: &ExecutionId) -> (r: Option<usize>)
        ensures
            match r {
                Some(i) => i < self@.local_works.len() && self@.local_works[i as int].0 == id@,
                None => !has_key(self@.local_works, id@),
            },
    {
        let mut i: usize = 0;
        while i < self.local_works.len()
            invariant
                i <= self@.local_works.len(),
                self@.local_works.len() == self.local_works@.len(),
                forall|j: int| 0 <= j < i ==> self@.local_works[j].0 != id@,
            decreases self.local_works@.len() - i,
        {
            if self.local_works[i].0 == *id {
                return Some(i);
            }
            i = i + 1;
        }
        None
    }

    fn query_position(&self, q: QueryId) -> (r: Option<usize>)
        ensures
            match r {
                Some(i) => i < self@.queries.len() && self@.queries[i as int].0 == q,
                None => !has_key(self@.queries, q),
            },
    {
        let mut i: usize = 0;
        while i < self.queries.len()
            invariant
                i <= self@.queries.len(),
                self@.queries.len() == self.queries@.len(),
                forall|j: int| 0 <= j < i ==> self@.queries[j].0 != q,
            decreases self.queries@.len() - i,
        {
            if self.queries[i].0 == q {
                return Some(i);
            }
            i = i + 1;
        }
        None
    }

    fn block_position(&self, cid: &ContentId) -> (r: Option<usize>)
        ensures
            match r {
                Some(i) => i < self@.blocks.len() && self@.blocks[i as int].0 == cid@,
                None => !has_key(self@.blocks, cid@),
            },
    {
        let mut i: usize = 0;
        while i < self.blocks.len()
            invariant
                i <= self@.blocks.len(),
                self@.blocks.len() == self.blocks@.len(),
                forall|j: int| 0 <= j < i ==> self@.blocks[j].0 != cid@,
            decreases self.blocks@.len() - i,
        {
            if self.blocks[i].0 == *cid {
                return Some(i);
            }
            i = i + 1;
        }
        None
    }

    /// This node's own request: execution `id` of `method` on `args`; `ret`
    /// answers the requester, and `query` is the lookup started to find the peers
    /// for it. Nothing is run here: the requester waits for the outcome from the
    /// network, under the work's identifier in the work exchange.
    pub fn want_exec(&mut self, id: ExecutionId, method: ContentId, args: Vec<ContentId>, ret: R, query: QueryId)
        requires
            old(self)@.wf(),
        ensures
            final(self)@ == old(self)@.spec_want_exec(id@, method@, args.deep_view(), ret, query),
            final(self)@.wf(),
    {
        let ghost s0 = self@;
        let key = crate::encoding::work_id(&method, &args);
        let qt = QueryType::Workswap(id, method, args);
        let ghost qv = qt@;
        match self.query_position(query) {
            Some(i) => {
                proof { lemma_key_pos(s0.queries, i as int); }
                self.queries.set(i, (query, qt));
                proof { assert(self@.queries =~= s0.queries.update(i as int, (query, qv))); }
            },
            None => {
                self.queries.push((query, qt));
                proof { assert(self@.queries =~= s0.queries.push((query, qv))); }
            },
        }
        proof {
            lemma_upsert(s0.queries, query, qv);
        }
        let ghost s1 = self@;
        let info = WorkInfo { res_chan: ret, state: WorkState::Empty };
        let ghost iv = info@;
        let ghost idv = key@;
        match self.work_position(&key) {
            Some(i) => {
                proof { lemma_key_pos(s1.local_works, i as int); }
                self.local_works.set(i, (key, info));
                proof { assert(self@.local_works =~= s1.local_works.update(i as int, (idv, iv))); }
            },
            None => {
                self.local_works.push((key, info));
                proof { assert(self@.local_works =~= s1.local_works.push((idv, iv))); }
            },
        }
        proof {
            lemma_upsert(s1.local_works, idv, iv);
            assert(self@ =~= s0.spec_want_exec(qv->Workswap_0, qv->Workswap_1, qv->Workswap_2, ret, query));
        }
    }
}


impl<R> NodeState<R> {
    /// A lookup finished with `outcome`. The lookup is forgotten; when it was
    /// started for a computation and found the closest peers, the computation
    /// comes back, to be handed out to the network.
    pub fn kademlia_resolved(&mut self, query: QueryId, outcome: KadOutcome) -> (r: Option<QueryType>)
        requires
            old(self)@.wf(),
        ensures
            final(self)@ == old(self)@.spec_kademlia_resolved(query),
            final(self)@.wf(),
            match outcome {
                KadOutcome::ClosestPeers => match r {
                    Some(q) => lookup(old(self)@.queries, query) == Some(q@),
                    None => lookup(old(self)@.queries, query).is_none(),
                },
                _ => r.is_none(),
            },
    {
        let ghost s0 = self@;
        proof {
            lemma_remove_key(s0.queries, query);
        }
        match self.query_position(query) {
            Some(i) => {
                proof { lemma_key_pos(s0.queries, i as int); }
                let (_, qt) = self.queries.remove(i);
                proof {
                    assert(self@.queries =~= s0.queries.remove(i as int));
                    assert(self@ =~= s0.spec_kademlia_resolved(query));
                }
                match outcome {
                    KadOutcome::ClosestPeers => Some(qt),
                    _ => None,
                }
            },
            None => {
                proof { assert(self@ =~= s0.spec_kademlia_resolved(query)); }
                None
            },
        }
    }

    /// A block arrived from the block exchange: it is kept.
    pub fn received_block(&mut self, cid: ContentId, data: Vec<u8>)
        requires
            old(self)@.wf(),
        ensures
            final(self)@ == old(self)@.spec_received_block(cid@, data@),
            final(self)@.wf(),
    {
        let ghost s0 = self@;
        let ghost cv = cid@;
        let ghost dv = data@;
        match self.block_position(&cid) {
            Some(i) => {
                proof { lemma_key_pos(s0.blocks, i as int); }
                self.blocks.set(i, (cid, data));
                proof { assert(self@.blocks =~= s0.blocks.update(i as int, (cv, dv))); }
            },
            None => {
                self.blocks.push((cid, data));
                proof { assert(self@.blocks =~= s0.blocks.push((cv, dv))); }
            },
        }
        proof {
            lemma_upsert(s0.blocks, cv, dv);
            assert(self@ =~= s0.spec_received_block(cv, dv));
        }
    }

    /// The bytes of block `cid`, if the node holds it (to answer a peer that wants it).
    pub fn block(&self, cid: &ContentId) -> (r: Option<&Vec<u8>>)
        requires
            self@.wf(),
        ensures
            match r {
                Some(d) => lookup(self@.blocks, cid@) == Some(d@),
                None => lookup(self@.blocks, cid@).is_none(),
            },
    {
        match self.block_position(cid) {
            Some(i) => {
                proof { lemma_key_pos(self@.blocks, i as int); }
                Some(&self.blocks[i].1)
            },
            None => None,
        }
    }

    /// The requester's handle of computation `id`, which is no longer waited for.
    pub fn take_work(&mut self, id: &ExecutionId) -> (r: Option<R>)
        requires
            old(self)@.wf(),
        ensures
            final(self)@ == old(self)@.spec_forget_work(id@),
            final(self)@.wf(),
            match r {
                Some(h) => lookup(old(self)@.local_works, id@) matches Some(w) && w.res_chan == h,
                None => lookup(old(self)@.local_works, id@).is_none(),
            },
    {
        let ghost s0 = self@;
        proof {
            lemma_remove_key(s0.local_works, id@);
        }
        match self.work_position(id) {
            Some(i) => {
                proof { lemma_key_pos(s0.local_works, i as int); }
                let (_, info) = self.local_works.remove(i);
                proof {
                    assert(self@.local_works =~= s0.local_works.remove(i as int));
                    assert(self@ =~= s0.spec_forget_work(id@));
                }
                Some(info.res_chan)
            },
            None => {
                proof { assert(self@ =~= s0.spec_forget_work(id@)); }
                None
            },
        }
    }
}



impl<R> NodeState<R> {
    fn record_peer_request(&mut self, peer: PeerId, id: ExecutionId, method: ContentId, args: Vec<ContentId>)
        requires
            old(self)@.wf(),
        ensures
            final(self)@ == old(self)@.spec_peer_request(peer@, id@, method@, args.deep_view()),
            final(self)@.wf(),
    {
        let ghost s0 = self@;
        let work = PeerWork { peer, state: WorkState::Waiting(method, args) };
        let ghost wv = work@;
        let ghost idv = id@;
        match self.peer_work_position(&id) {
            Some(i) => {
                proof { lemma_key_pos(s0.peer_works, i as int); }
                self.peer_works.set(i, (id, work));
                proof { assert(self@.peer_works =~= s0.peer_works.update(i as int, (idv, wv))); }
            },
            None => {
                self.peer_works.push((id, work));
                proof { assert(self@.peer_works =~= s0.peer_works.push((idv, wv))); }
            },
        }
        proof {
            lemma_upsert(s0.peer_works, idv, wv);
            assert(self@ =~= s0.spec_peer_request(wv.peer, idv, wv.state->Waiting_0, wv.state->Waiting_1));
        }
    }

    /// The computation `id` that a peer asked for is no longer to be run; the
    /// peer it was for, if it was to be run.
    fn take_peer_work(&mut self, id: &ExecutionId) -> (r: Option<PeerId>)
        requires
            old(self)@.wf(),
        ensures
            final(self)@ == old(self)@.spec_forget_peer_work(id@),
            final(self)@.wf(),
            match r {
                Some(p) => lookup(old(self)@.peer_works, id@) matches Some(w) && w.peer == p@,
                None => lookup(old(self)@.peer_works, id@).is_none(),
            },
    {
        let ghost s0 = self@;
        proof {
            lemma_remove_key(s0.peer_works, id@);
        }
        match self.peer_work_position(id) {
            Some(i) => {
                proof { lemma_key_pos(s0.peer_works, i as int); }
                let (_, work) = self.peer_works.remove(i);
                proof {
                    assert(self@.peer_works =~= s0.peer_works.remove(i as int));
                    assert(self@ =~= s0.spec_forget_peer_work(id@));
                }
                Some(work.peer)
            },
            None => {
                proof { assert(self@ =~= s0.spec_forget_peer_work(id@)); }
                None
            },
        }
    }

    /// A computation `id` that a peer asked for produced `output`, stored as a
    /// raw block ([`crate::block::create_block`]). It is no longer to be run; if
    /// it was to be run, its result (the block's identifier) goes to the peer
    /// that asked for it. The owner is told of the finished computation and its
    /// block. The stored blocks and this node's own requests are unchanged.
    pub fn finish_local_exec(&mut self, id: ExecutionId, output: Vec<u8>) -> (r: LocalExecDone)
        requires
            old(self)@.wf(),
        ensures
            final(self)@ == old(self)@.spec_forget_peer_work(id@),
            final(self)@.wf(),
            match r.result {
                Some((p, res)) => {
                    &&& lookup(old(self)@.peer_works, id@) matches Some(w) && w.peer == p@
                    &&& res@ == (ExecutionResultView { id: id@, result: Ok(raw_block_cid(output@)) })
                },
                None => lookup(old(self)@.peer_works, id@).is_none(),
            },
            r.event matches NetworkEvent::FinishedLocalExec(eid, b) && (eid@ == id@
                && b.cid@ == raw_block_cid(output@) && b.data@ == output@),
    {
        let block = crate::block::create_block(output);
        let result = match self.take_peer_work(&id) {
            Some(p) => Some((p, ExecutionResult { id: id.clone(), result: Ok(block.cid.clone()) })),
            None => None,
        };
        LocalExecDone { result, event: NetworkEvent::FinishedLocalExec(id, block) }
    }

    /// The network has no peer for this node's request of `method` on `args`:
    /// the requester, if it still waits, is answered with the "No peers" error,
    /// and no longer waits.
    pub fn answer_no_peers(&mut self, method: &ContentId, args: &Vec<ContentId>) -> (r: Option<(R, WorkResult)>)
        requires
            old(self)@.wf(),
        ensures
            final(self)@ == old(self)@.spec_forget_work(crate::encoding::work_id_spec(method@, args.deep_view())),
            final(self)@.wf(),
            match r {
                Some((h, res)) => {
                    &&& lookup(old(self)@.local_works, crate::encoding::work_id_spec(method@, args.deep_view())) matches Some(w) && w.res_chan == h
                    &&& res matches Err(e) && e@ == "No peers"@
                },
                None => lookup(old(self)@.local_works, crate::encoding::work_id_spec(method@, args.deep_view())).is_none(),
            },
    {
        let key = crate::encoding::work_id(method, args);
        match self.take_work(&key) {
            Some(h) => Some((h, Err(crate::workswap::no_peers_error()))),
            None => None,
        }
    }
}

/// The blocks that a peer's computation of `method` on `args` needs: the
/// function first, then the arguments in order.
pub open spec fn wanted_blocks(method: Seq<char>, args: Seq<Seq<char>>) -> Seq<Seq<char>> {
    seq![method] + args
}

impl<R> NodeState<R> {
    /// Reacts to an event of the protocol.
    ///
    /// A peer's request is accepted, recorded as a computation to run here for
    /// that peer, and its function and arguments are asked of the block exchange. A peer's result or failure answers the local
    /// requester of that computation, if it is still waited for (a failure is
    /// explained, see [`crate::api::network_outcome`]). Acceptances and
    /// rejections need nothing.
    pub fn handle_workswap_event(&mut self, event: WorkswapEvent) -> (r: NodeAction<R>)
        requires
            old(self)@.wf(),
        ensures
            final(self)@.wf(),
            match event {
                WorkswapEvent::WantCalc(peer, id, method, args) => final(self)@ == old(self)@.spec_peer_request(peer@, id@, method@, args.deep_view()) && (r matches NodeAction::Accept { peer: p, id: i, want: w } && p@ == peer@ && i@ == id@ && w.deep_view() == wanted_blocks(method@, args.deep_view())),
                WorkswapEvent::Completed(_, id, cid) => final(self)@ == old(self)@.spec_forget_work(id@) && match lookup(old(self)@.local_works, id@) {
                    Some(w) => r matches NodeAction::Reply(h, res) && h == w.res_chan && (res matches Ok(c) && c@ == cid@),
                    None => r is Nothing,
                },
                WorkswapEvent::Failed(_, id, e) => final(self)@ == old(self)@.spec_forget_work(id@) && match lookup(old(self)@.local_works, id@) {
                    Some(w) => r matches NodeAction::Reply(h, res) && h == w.res_chan && (res matches Err(t) && t@ == crate::api::network_failure_text(e@)),
                    None => r is Nothing,
                },
                _ => final(self)@ == old(self)@ && r is Nothing,
            },
    {
        match event {
            WorkswapEvent::WantCalc(peer, id, method, args) => {
                self.record_peer_request(clone_bytes(&peer), id.clone(), method.clone(), clone_strings(&args));
                let mut want: Vec<ContentId> = Vec::new();
                want.push(method);
                let ghost first = want.deep_view();
                let mut i: usize = 0;
                while i < args.len()
                    invariant
                        i <= args@.len(),
                        first.len() == 1,
                        want.deep_view() == first + args.deep_view().take(i as int),
                    decreases args@.len() - i,
                {
                    let ghost before = want.deep_view();
                    want.push(args[i].clone());
                    proof {
                        assert(want.deep_view() =~= before.push(args@[i as int]@));
                        assert(args.deep_view().take(i + 1) =~= args.deep_view().take(i as int).push(args@[i as int]@));
                        assert(want.deep_view() =~= first + args.deep_view().take(i + 1));
                    }
                    i = i + 1;
                }
                proof {
                    assert(args.deep_view().take(args@.len() as int) =~= args.deep_view());
                    assert(first =~= seq![first[0]]);
                }
                NodeAction::Accept { peer, id, want }
            },
            WorkswapEvent::Completed(_, id, cid) => {
                match self.take_work(&id) {
                    Some(h) => NodeAction::Reply(h, Ok(cid)),
                    None => NodeAction::Nothing,
                }
            },
            WorkswapEvent::Failed(_, id, e) => {
                match self.take_work(&id) {
                    Some(h) => NodeAction::Reply(h, crate::api::network_outcome(Err(e))),
                    None => NodeAction::Nothing,
                }
            },
            _ => NodeAction::Nothing,
        }
    }

    /// The computations asked by peers whose function and arguments have all
    /// arrived, in table order, with those bytes: they can run now. This node's
    /// own requests are never among them.
    pub fn unblocked_works(&self) -> (r: Vec<UnblockedWork>)
        requires
            self@.wf(),
        ensures
            unblocked_view(r@) == unblocked(self@.peer_works, self@.blocks),
    {
        let ghost works = self@.peer_works;
        let ghost blocks = self@.blocks;
        let mut out: Vec<UnblockedWork> = Vec::new();
        let mut i: usize = 0;
        while i < self.peer_works.len()
            invariant
                self@.wf(),
                works == self@.peer_works,
                blocks == self@.blocks,
                works.len() == self.peer_works@.len(),
                i <= works.len(),
                unblocked_view(out@) == unblocked(works.take(i as int), blocks),
            decreases works.len() - i,
        {
            proof {
                assert(works.take(i + 1).drop_last() =~= works.take(i as int));
                assert(works.take(i + 1).last() == works[i as int]);
                assert(works[i as int] == (self.peer_works@[i as int].0@, self.peer_works@[i as int].1@));
            }
            match &self.peer_works[i].1.state {
                WorkState::Waiting(method, args) => {
                    match self.block(method) {
                        Some(mdata) => {
                            let mut arg_data: Vec<Vec<u8>> = Vec::new();
                            let mut ok = true;
                            let mut k: usize = 0;
                            while k < args.len()
                                invariant
                                    self@.wf(),
                                    blocks == self@.blocks,
                                    k <= args@.len(),
                                    ok ==> arg_data@.len() == k,
                                    ok ==> forall|x: int| 0 <= x < k ==> has_key(blocks, #[trigger] args.deep_view()[x]),
                                    ok ==> arg_data@.map_values(|a: Vec<u8>| a@) == args.deep_view().take(k as int).map_values(|c: Seq<char>| lookup(blocks, c).unwrap()),
                                    !ok ==> exists|x: int| 0 <= x < args@.len() && !has_key(blocks, #[trigger] args.deep_view()[x]),
                                decreases args@.len() - k,
                            {
                                if ok {
                                    match self.block(&args[k]) {
                                        Some(d) => {
                                            let ghost before = arg_data@.map_values(|a: Vec<u8>| a@);
                                            arg_data.push(clone_bytes(d));
                                            proof {
                                                assert(args.deep_view()[k as int] == args@[k as int]@);
                                                assert(args.deep_view().take(k + 1) =~= args.deep_view().take(k as int).push(args.deep_view()[k as int]));
                                                assert(arg_data@.map_values(|a: Vec<u8>| a@) =~= before.push(d@));
                                                assert(arg_data@.map_values(|a: Vec<u8>| a@) =~= args.deep_view().take(k + 1).map_values(|c: Seq<char>| lookup(blocks, c).unwrap()));
                                            }
                                        },
                                        None => {
                                            proof {
                                                assert(args.deep_view()[k as int] == args@[k as int]@);
                                            }
                                            ok = false;
                                        },
                                    }
                                }
                                k = k + 1;
                            }
                            if ok {
                                let ghost before = unblocked_view(out@);
                                out.push(UnblockedWork { id: self.peer_works[i].0.clone(), method: clone_bytes(mdata), args: arg_data });
                                proof {
                                    assert(args.deep_view().take(args@.len() as int) =~= args.deep_view());
                                    assert(is_unblocked(works[i as int].1, blocks));
                                    assert(unblocked_view(out@) =~= before.push(unblocked_item(works[i as int].0, works[i as int].1, blocks)));
                                }
                            } else {
                                proof {
                                    assert(works[i as int].1.state == WorkStateView::Waiting(method@, args.deep_view()));
                                    let x = choose|x: int| 0 <= x < args@.len() && !has_key(blocks, #[trigger] args.deep_view()[x]);
                                    assert(!has_key(blocks, args.deep_view()[x]));
                                    if is_unblocked(works[i as int].1, blocks) {
                                        assert(forall|y: int| 0 <= y < args.deep_view().len() ==> has_key(blocks, #[trigger] args.deep_view()[y]));
                                        assert(has_key(blocks, args.deep_view()[x]));
                                    }
                                    assert(!is_unblocked(works[i as int].1, blocks));
                                }
                            }
                        },
                        None => {},
                    }
                },
                _ => {},
            }
            i = i + 1;
        }
        proof {
            assert(works.take(works.len() as int) =~= works);
        }
        out
    }
}


/// A lookup started for a computation gives that computation back when it
/// finishes: after `want_exec(id, method, args, _, query)`, the lookup `query`
/// is on record with exactly that computation, and the requester waits under
/// the work's identifier in the work exchange, with nothing to run here.
pub proof fn law_lookup_returns_computation<R>(s: NodeStateView<R>, id: Seq<char>, method: Seq<char>, args: Seq<Seq<char>>, ret: R, query: u64)
    requires
        s.wf(),
    ensures
        lookup(s.spec_want_exec(id, method, args, ret, query).queries, query) == Some(QueryTypeView::Workswap(id, method, args)),
        lookup(s.spec_want_exec(id, method, args, ret, query).local_works, crate::encoding::work_id_spec(method, args))
            == Some(WorkInfoView { res_chan: ret, state: WorkStateView::Empty }),
        !has_key(s.spec_want_exec(id, method, args, ret, query).spec_kademlia_resolved(query).queries, query),
{
    lemma_upsert(s.queries, query, QueryTypeView::Workswap(id, method, args));
    lemma_upsert(s.local_works, crate::encoding::work_id_spec(method, args), WorkInfoView { res_chan: ret, state: WorkStateView::Empty });
    lemma_remove_key(upsert(s.queries, query, QueryTypeView::Workswap(id, method, args)), query);
}

/// The node that receives a request does not run it: this node's own request
/// adds nothing to the computations that can run here, whatever blocks it holds.
pub proof fn law_own_request_not_run_here<R>(s: NodeStateView<R>, id: Seq<char>, method: Seq<char>, args: Seq<Seq<char>>, ret: R, query: u64, blocks: Seq<(Seq<char>, Seq<u8>)>)
    ensures
        unblocked(s.spec_want_exec(id, method, args, ret, query).peer_works, blocks) == unblocked(s.peer_works, blocks),
{
}

/// Every computation that can run here is one that a peer asked for.
pub proof fn lemma_unblocked_ids(works: Seq<(Seq<char>, PeerWorkView)>, blocks: Seq<(Seq<char>, Seq<u8>)>)
    ensures
        forall|k: int| 0 <= k < unblocked(works, blocks).len() ==> has_key(works, #[trigger] unblocked(works, blocks)[k].0),
    decreases works.len(),
{
    if works.len() > 0 {
        lemma_unblocked_ids(works.drop_last(), blocks);
        let rest = unblocked(works.drop_last(), blocks);
        assert forall|k: int| 0 <= k < unblocked(works, blocks).len() implies has_key(works, #[trigger] unblocked(works, blocks)[k].0) by {
            if k < rest.len() {
                assert(unblocked(works, blocks)[k] == rest[k]);
                let j = choose|j: int| 0 <= j < works.drop_last().len() && works.drop_last()[j].0 == rest[k].0;
                assert(works[j].0 == rest[k].0);
            } else {
                assert(unblocked(works, blocks)[k].0 == works.last().0);
                assert(works[works.len() - 1].0 == works.last().0);
            }
        }
    }
}

/// A computation run here is not run again: once it finished, it is no longer
/// among the computations that can run, whatever blocks arrive.
pub proof fn law_finished_not_rerun<R>(s: NodeStateView<R>, id: Seq<char>, blocks: Seq<(Seq<char>, Seq<u8>)>)
    requires
        s.wf(),
    ensures
        forall|k: int| 0 <= k < unblocked(s.spec_forget_peer_work(id).peer_works, blocks).len()
            ==> (#[trigger] unblocked(s.spec_forget_peer_work(id).peer_works, blocks)[k]).0 != id,
{
    let w = remove_key(s.peer_works, id);
    lemma_remove_key(s.peer_works, id);
    lemma_unblocked_ids(w, blocks);
    assert forall|k: int| 0 <= k < unblocked(w, blocks).len() implies (#[trigger] unblocked(w, blocks)[k]).0 != id by {
        assert(has_key(w, unblocked(w, blocks)[k].0));
    }
}

/// A requester is answered at most once: once a computation has been answered
/// (or forgotten), it is no longer waited for, so a later outcome for it
/// answers no one.
pub proof fn law_answered_once<R>(s: NodeStateView<R>, id: Seq<char>)
    requires
        s.wf(),
    ensures
        lookup(s.spec_forget_work(id).local_works, id).is_none(),
        s.spec_forget_work(id).spec_forget_work(id) == s.spec_forget_work(id),
{
    lemma_remove_key(s.local_works, id);
    assert(!has_key(remove_key(s.local_works, id), id));
    assert(remove_key(remove_key(s.local_works, id), id) == remove_key(s.local_works, id));
}

/// A block that arrived is what the node holds under its identifier, until
/// another arrives under the same identifier; other blocks are unchanged.
pub proof fn law_block_read_after_write<R>(s: NodeStateView<R>, cid: Seq<char>, data: Seq<u8>)
    requires
        s.wf(),
    ensures
        lookup(s.spec_received_block(cid, data).blocks, cid) == Some(data),
        forall|c: Seq<char>| c != cid ==> lookup(s.spec_received_block(cid, data).blocks, c) == lookup(s.blocks, c),
{
    lemma_upsert(s.blocks, cid, data);
}

/// The computation `w` may be released with the bytes `item`: it waits for a
/// function and arguments, and the node holds the function under its identifier
/// and each argument under its identifier, with exactly these bytes.
pub open spec fn released_with(w: PeerWorkView, blocks: Seq<(Seq<char>, Seq<u8>)>, method: Seq<u8>, args: Seq<Seq<u8>>) -> bool {
    &&& w.state is Waiting
    &&& lookup(blocks, w.state->Waiting_0) == Some(method)
    &&& args.len() == w.state->Waiting_1.len()
    &&& forall|i: int| 0 <= i < args.len() ==> lookup(blocks, #[trigger] w.state->Waiting_1[i]) == Some(args[i])
}

/// A computation runs only when everything it needs has arrived, and with those
/// bytes: each computation that can run is one a peer asked for, waiting for a
/// function and arguments that the node all holds, and it comes with the bytes
/// held under their identifiers. Conversely, every such computation can run.
pub proof fn law_unblocked_needs_all_blocks(works: Seq<(Seq<char>, PeerWorkView)>, blocks: Seq<(Seq<char>, Seq<u8>)>)
    ensures
        forall|k: int| 0 <= k < unblocked(works, blocks).len() ==> exists|j: int|
            0 <= j < works.len() && works[j].0 == (#[trigger] unblocked(works, blocks)[k]).0
            && released_with(works[j].1, blocks, unblocked(works, blocks)[k].1, unblocked(works, blocks)[k].2),
        forall|j: int| 0 <= j < works.len() && (#[trigger] works[j].1).state is Waiting
            && has_key(blocks, works[j].1.state->Waiting_0)
            && (forall|i: int| 0 <= i < works[j].1.state->Waiting_1.len() ==> has_key(blocks, #[trigger] works[j].1.state->Waiting_1[i]))
            ==> exists|k: int| 0 <= k < unblocked(works, blocks).len() && #[trigger] unblocked(works, blocks)[k].0 == works[j].0,
    decreases works.len(),
{
    let u = unblocked(works, blocks);
    if works.len() > 0 {
        let prev = works.drop_last();
        let ru = unblocked(prev, blocks);
        law_unblocked_needs_all_blocks(prev, blocks);
        let last = works.last();
        let n = works.len() - 1;
        assert(works[n] == last);
        if is_unblocked(last.1, blocks) {
            let item = unblocked_item(last.0, last.1, blocks);
            assert(u == ru.push(item));
            let m = last.1.state->Waiting_0;
            let a = last.1.state->Waiting_1;
            assert(released_with(last.1, blocks, item.1, item.2)) by {
                assert forall|i: int| 0 <= i < item.2.len() implies lookup(blocks, #[trigger] a[i]) == Some(item.2[i]) by {
                    assert(has_key(blocks, a[i]));
                }
            }
        } else {
            assert(u == ru);
        }
        assert forall|k: int| 0 <= k < u.len() implies exists|j: int|
            0 <= j < works.len() && works[j].0 == (#[trigger] u[k]).0 && released_with(works[j].1, blocks, u[k].1, u[k].2) by {
            if k < ru.len() {
                assert(u[k] == ru[k]);
                let j = choose|j: int| 0 <= j < prev.len() && prev[j].0 == ru[k].0 && released_with(prev[j].1, blocks, ru[k].1, ru[k].2);
                assert(works[j] == prev[j]);
            } else {
                assert(works[n].0 == u[k].0);
            }
        }
        assert forall|j: int| 0 <= j < works.len() && (#[trigger] works[j].1).state is Waiting
            && has_key(blocks, works[j].1.state->Waiting_0)
            && (forall|i: int| 0 <= i < works[j].1.state->Waiting_1.len() ==> has_key(blocks, #[trigger] works[j].1.state->Waiting_1[i]))
            implies exists|k: int| 0 <= k < u.len() && #[trigger] u[k].0 == works[j].0 by {
            if j < n {
                assert(prev[j] == works[j]);
                let k = choose|k: int| 0 <= k < ru.len() && #[trigger] ru[k].0 == prev[j].0;
                assert(u[k] == ru[k]);
            } else {
                assert(is_unblocked(last.1, blocks));
                assert(u[ru.len() as int].0 == works[j].0);
            }
        }
    }
}

} // verus!
