//! What a node knows of one connected peer: which executions run where, and
//! the message being gathered for that peer.

use vstd::prelude::*;
use crate::message::{clone_strings, empty_message, ExecutionId, ExecutionRequest, ExecutionRequestView, ExecutionResult, ExecutionResultView, Message, MessageView};
use crate::seqs::{lemma_index_of_unique, lemma_set_insert, lemma_set_remove, set_insert, set_remove};

verus! {

/// Position of `x` in `v`, if present.
pub fn string_position(v: &Vec<String>, x: &String) -> (r: Option<usize>)
    ensures
        match r {
            Some(i) => i < v@.len() && v.deep_view()[i as int] == x@,
            None => !v.deep_view().contains(x@),
        },
{
    let mut i: usize = 0;
    while i < v.len()
        invariant
            i <= v@.len(),
            forall|j: int| 0 <= j < i ==> v.deep_view()[j] != x@,
        decreases v@.len() - i,
    {
        if v[i] == *x {
            return Some(i);
        }
        i = i + 1;
    }
    None
}

/// Adds `x` to the set `v` (kept without duplicates).
pub fn insert_string(v: &mut Vec<String>, x: String)
    requires
        old(v).deep_view().no_duplicates(),
    ensures
        final(v).deep_view() == set_insert(old(v).deep_view(), x@),
        final(v).deep_view().no_duplicates(),
{
    proof {
        lemma_set_insert(v.deep_view(), x@);
    }
    match string_position(v, &x) {
        Some(_) => {},
        None => {
            let ghost x_view = x@;
            v.push(x);
            proof {
                assert(v.deep_view() =~= old(v).deep_view().push(x_view));
            }
        },
    }
}

/// Takes `x` out of the set `v` (kept without duplicates).
pub fn remove_string(v: &mut Vec<String>, x: &String)
    requires
        old(v).deep_view().no_duplicates(),
    ensures
        final(v).deep_view() == set_remove(old(v).deep_view(), x@),
        final(v).deep_view().no_duplicates(),
{
    proof {
        lemma_set_remove(v.deep_view(), x@);
    }
    match string_position(v, x) {
        Some(i) => {
            proof {
                lemma_index_of_unique(v.deep_view(), i as int);
            }
            v.remove(i);
            proof {
                assert(v.deep_view() =~= old(v).deep_view().remove(i as int));
            }
        },
        None => {},
    }
}

/// Statistics kept for one peer: the executions we asked it to run
/// (`running_there`), the executions it asked us to run (`running_here`), and
/// the message being gathered for it.
pub struct PeerStats {
    running_there: Vec<ExecutionId>,
    running_here: Vec<ExecutionId>,
    message: Message,
}

/// Mathematical value of [`PeerStats`].
#[verifier::ext_equal]
pub struct PeerStatsView {
    pub running_there: Seq<Seq<char>>,
    pub running_here: Seq<Seq<char>>,
    pub message: MessageView,
}

impl View for PeerStats {
    type V = PeerStatsView;

    closed spec fn view(&self) -> PeerStatsView {
        PeerStatsView {
            running_there: self.running_there.deep_view(),
            running_here: self.running_here.deep_view(),
            message: self.message@,
        }
    }
}

/// Statistics of a newly connected peer: nothing running, nothing to send.
pub open spec fn fresh_stats() -> PeerStatsView {
    PeerStatsView { running_there: Seq::empty(), running_here: Seq::empty(), message: empty_message() }
}

impl PeerStatsView {
    /// Both running lists are sets: no execution is listed twice.
    pub open spec fn wf(self) -> bool {
        &&& self.running_there.no_duplicates()
        &&& self.running_here.no_duplicates()
    }

    pub open spec fn with_message(self, message: MessageView) -> PeerStatsView {
        PeerStatsView { message, ..self }
    }

    /// The acceptance of `id` is queued for the peer.
    pub open spec fn spec_accept(self, id: Seq<char>) -> PeerStatsView {
        self.with_message(MessageView { accepts: self.message.accepts.push(id), ..self.message })
    }

    /// The rejection of `id` is queued for the peer.
    pub open spec fn spec_reject(self, id: Seq<char>) -> PeerStatsView {
        self.with_message(MessageView { rejects: self.message.rejects.push(id), ..self.message })
    }

    /// The request is queued for the peer, and counted as running there.
    pub open spec fn spec_add_request(self, req: ExecutionRequestView) -> PeerStatsView {
        PeerStatsView {
            running_there: set_insert(self.running_there, req.id),
            message: MessageView { requests: self.message.requests.push(req), ..self.message },
            ..self
        }
    }

    /// The result is queued for the peer, and the execution no longer counted as
    /// running there.
    pub open spec fn spec_add_result(self, res: ExecutionResultView) -> PeerStatsView {
        PeerStatsView {
            running_there: set_remove(self.running_there, res.id),
            message: MessageView { results: self.message.results.push(res), ..self.message },
            ..self
        }
    }

    /// The execution `id` is counted as running here, for the peer.
    pub open spec fn spec_record_running(self, id: Seq<char>) -> PeerStatsView {
        PeerStatsView { running_here: set_insert(self.running_here, id), ..self }
    }

    /// The execution `id` is no longer counted as running there.
    pub open spec fn spec_forget_running(self, id: Seq<char>) -> PeerStatsView {
        PeerStatsView { running_there: set_remove(self.running_there, id), ..self }
    }

    /// Taking the gathered message out: nothing when it is empty; otherwise the
    /// message, with the list of what runs here for the peer, and an empty
    /// message left behind.
    pub open spec fn spec_ready_to_send(self) -> (PeerStatsView, Option<MessageView>) {
        if self.message.spec_is_empty() {
            (self, None)
        } else {
            (
                self.with_message(empty_message()),
                Some(MessageView { running: self.running_here, ..self.message }),
            )
        }
    }
}

impl PeerStats {
    /// Statistics of a newly connected peer.
    pub fn new() -> (s: PeerStats)
        ensures
            s@ == fresh_stats(),
            s@.wf(),
    {
        let s = PeerStats { running_there: Vec::new(), running_here: Vec::new(), message: Message::new() };
        assert(s@ =~= fresh_stats());
        s
    }

    /// The executions we asked the peer to run.
    pub fn running_there(&self) -> (r: &Vec<ExecutionId>)
        ensures
            r.deep_view() == self@.running_there,
    {
        &self.running_there
    }

    /// The executions the peer asked us to run.
    pub fn running_here(&self) -> (r: &Vec<ExecutionId>)
        ensures
            r.deep_view() == self@.running_here,
    {
        &self.running_here
    }

    /// The message gathered so far for the peer.
    pub fn message(&self) -> (r: &Message)
        ensures
            r@ == self@.message,
    {
        &self.message
    }

    /// Queues the acceptance of execution `id` for the peer.
    pub fn accept(&mut self, id: ExecutionId)
        requires
            old(self)@.wf(),
        ensures
            final(self)@ == old(self)@.spec_accept(id@),
            final(self)@.wf(),
    {
        self.message.accepts.push(id);
        assert(self@ =~= old(self)@.spec_accept(id@));
    }

    /// Queues the rejection of execution `id` for the peer.
    pub fn reject(&mut self, id: ExecutionId)
        requires
            old(self)@.wf(),
        ensures
            final(self)@ == old(self)@.spec_reject(id@),
            final(self)@.wf(),
    {
        self.message.rejects.push(id);
        assert(self@ =~= old(self)@.spec_reject(id@));
    }

    /// Queues a request for the peer and counts it as running there.
    pub fn add_request(&mut self, req: ExecutionRequest)
        requires
            old(self)@.wf(),
        ensures
            final(self)@ == old(self)@.spec_add_request(req@),
            final(self)@.wf(),
    {
        insert_string(&mut self.running_there, req.id.clone());
        let ghost req_view = req@;
        self.message.requests.push(req);
        assert(self@.message.requests =~= old(self)@.message.requests.push(req_view));
        assert(self@ =~= old(self)@.spec_add_request(req_view));
    }

    /// Queues a result for the peer; the execution no longer counts as running there.
    pub fn add_result(&mut self, execution: ExecutionResult)
        requires
            old(self)@.wf(),
        ensures
            final(self)@ == old(self)@.spec_add_result(execution@),
            final(self)@.wf(),
    {
        remove_string(&mut self.running_there, &execution.id);
        let ghost res_view = execution@;
        self.message.results.push(execution);
        assert(self@.message.results =~= old(self)@.message.results.push(res_view));
        assert(self@ =~= old(self)@.spec_add_result(res_view));
    }

    /// Counts execution `id` as running here, for the peer.
    pub(crate) fn record_running(&mut self, id: ExecutionId)
        requires
            old(self)@.wf(),
        ensures
            final(self)@ == old(self)@.spec_record_running(id@),
            final(self)@.wf(),
    {
        insert_string(&mut self.running_here, id);
        assert(self@ =~= old(self)@.spec_record_running(id@));
    }

    /// Execution `id` no longer counts as running there.
    pub(crate) fn forget_running(&mut self, id: &ExecutionId)
        requires
            old(self)@.wf(),
        ensures
            final(self)@ == old(self)@.spec_forget_running(id@),
            final(self)@.wf(),
    {
        remove_string(&mut self.running_there, id);
        assert(self@ =~= old(self)@.spec_forget_running(id@));
    }

    /// Takes out the message gathered for the peer, if it has something to act on
    /// (see [`Message::is_empty`]); it then carries the list of executions running
    /// here for the peer, and an empty message is left in its place.
    pub fn ready_to_send(&mut self) -> (r: Option<Message>)
        requires
            old(self)@.wf(),
        ensures
            final(self)@ == old(self)@.spec_ready_to_send().0,
            match r {
                Some(m) => old(self)@.spec_ready_to_send().1 == Some(m@),
                None => old(self)@.spec_ready_to_send().1.is_none(),
            },
            final(self)@.wf(),
    {
        if self.message.is_empty() {
            return None;
        }
        self.message.running = clone_strings(&self.running_here);
        let mut out = Message::new();
        std::mem::swap(&mut out, &mut self.message);
        assert(self@ =~= old(self)@.spec_ready_to_send().0);
        assert(out@ =~= MessageView { running: old(self)@.running_here, ..old(self)@.message });
        Some(out)
    }
}

impl Default for PeerStats {
    fn default() -> (s: PeerStats)
        ensures
            s@ == fresh_stats(),
    {
        PeerStats::new()
    }
}

} // verus!
