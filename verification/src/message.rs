//! The messages that peers of the work-exchange protocol send each other.

use vstd::prelude::*;

verus! {

/// Identifier of one requested execution.
pub type ExecutionId = String;

/// Textual content identifier of a stored object.
pub type ContentId = String;

/// The outcome of an execution: the identifier of the produced object, or an error text.
pub type WorkResult = Result<ContentId, String>;

/// Request that a peer executes `method` on `args`.
#[derive(Debug, Clone, PartialEq, Eq)]
pub struct ExecutionRequest {
    pub id: ExecutionId,
    pub method: ContentId,
    pub args: Vec<ContentId>,
}

/// Mathematical value of an [`ExecutionRequest`].
#[verifier::ext_equal]
pub struct ExecutionRequestView {
    pub id: Seq<char>,
    pub method: Seq<char>,
    pub args: Seq<Seq<char>>,
}

impl View for ExecutionRequest {
    type V = ExecutionRequestView;

    open spec fn view(&self) -> ExecutionRequestView {
        ExecutionRequestView { id: self.id@, method: self.method@, args: self.args.deep_view() }
    }
}

/// Copies a list of strings.
pub fn clone_strings(v: &Vec<String>) -> (r: Vec<String>)
    ensures
        r.deep_view() == v.deep_view(),
{
    let mut r: Vec<String> = Vec::new();
    let mut i: usize = 0;
    while i < v.len()
        invariant
            i <= v.len(),
            r.deep_view() == v.deep_view().take(i as int),
        decreases v.len() - i,
    {
        r.push(v[i].clone());
        proof {
            assert(v.deep_view().take(i + 1) =~= v.deep_view().take(i as int).push(v[i as int]@));
        }
        i = i + 1;
    }
    proof {
        assert(v.deep_view().take(v.len() as int) =~= v.deep_view());
    }
    r
}

impl ExecutionRequest {
    /// A copy of this request.
    pub fn duplicate(&self) -> (r: ExecutionRequest)
        ensures
            r@ == self@,
    {
        ExecutionRequest { id: self.id.clone(), method: self.method.clone(), args: clone_strings(&self.args) }
    }
}


/// Outcome of one execution, reported back to the peer that requested it.
#[derive(Debug, PartialEq, Eq)]
pub struct ExecutionResult {
    pub id: ExecutionId,
    pub result: WorkResult,
}

/// Mathematical value of an [`ExecutionResult`].
#[verifier::ext_equal]
pub struct ExecutionResultView {
    pub id: Seq<char>,
    pub result: Result<Seq<char>, Seq<char>>,
}

/// Mathematical value of a [`WorkResult`].
pub open spec fn work_result_view(r: WorkResult) -> Result<Seq<char>, Seq<char>> {
    match r {
        Ok(c) => Ok(c@),
        Err(e) => Err(e@),
    }
}

impl View for ExecutionResult {
    type V = ExecutionResultView;

    open spec fn view(&self) -> ExecutionResultView {
        ExecutionResultView { id: self.id@, result: work_result_view(self.result) }
    }
}

/// A copy of a work result.
pub fn clone_work_result(r: &WorkResult) -> (c: WorkResult)
    ensures
        work_result_view(c) == work_result_view(*r),
{
    match r {
        Ok(v) => Ok(v.clone()),
        Err(e) => Err(e.clone()),
    }
}

impl ExecutionResult {
    /// A copy of this result.
    pub fn duplicate(&self) -> (r: ExecutionResult)
        ensures
            r@ == self@,
    {
        ExecutionResult { id: self.id.clone(), result: clone_work_result(&self.result) }
    }
}

/// One message of the work-exchange protocol, sent from one peer to another.
///
/// `running` is the persistent part: the executions that the sender is running
/// for the receiver. The other lists are transient: executions that the sender
/// accepted or rejected, new requests, and finished results.
#[derive(Debug, PartialEq, Eq)]
pub struct Message {
    pub running: Vec<ExecutionId>,
    pub accepts: Vec<ExecutionId>,
    pub rejects: Vec<ExecutionId>,
    pub requests: Vec<ExecutionRequest>,
    pub results: Vec<ExecutionResult>,
}

/// Mathematical value of a [`Message`].
#[verifier::ext_equal]
pub struct MessageView {
    pub running: Seq<Seq<char>>,
    pub accepts: Seq<Seq<char>>,
    pub rejects: Seq<Seq<char>>,
    pub requests: Seq<ExecutionRequestView>,
    pub results: Seq<ExecutionResultView>,
}

/// Values of a list of requests.
pub open spec fn requests_view(v: Seq<ExecutionRequest>) -> Seq<ExecutionRequestView> {
    v.map_values(|r: ExecutionRequest| r@)
}

/// Values of a list of results.
pub open spec fn results_view(v: Seq<ExecutionResult>) -> Seq<ExecutionResultView> {
    v.map_values(|r: ExecutionResult| r@)
}

impl View for Message {
    type V = MessageView;

    open spec fn view(&self) -> MessageView {
        MessageView {
            running: self.running.deep_view(),
            accepts: self.accepts.deep_view(),
            rejects: self.rejects.deep_view(),
            requests: requests_view(self.requests@),
            results: results_view(self.results@),
        }
    }
}

/// The message with every list empty.
pub open spec fn empty_message() -> MessageView {
    MessageView {
        running: Seq::empty(),
        accepts: Seq::empty(),
        rejects: Seq::empty(),
        requests: Seq::empty(),
        results: Seq::empty(),
    }
}

impl MessageView {
    /// Nothing to send: no request, no result and no rejection. Acceptances and
    /// the running list alone do not make a message worth sending.
    pub open spec fn spec_is_empty(self) -> bool {
        &&& self.requests.len() == 0
        &&& self.results.len() == 0
        &&& self.rejects.len() == 0
    }
}

impl Message {
    /// The message with every list empty.
    pub fn new() -> (m: Message)
        ensures
            m@ == empty_message(),
    {
        let m = Message {
            running: Vec::new(),
            accepts: Vec::new(),
            rejects: Vec::new(),
            requests: Vec::new(),
            results: Vec::new(),
        };
        assert(m@ =~= empty_message());
        m
    }

    /// Whether the message carries nothing to act on: no request, no result and
    /// no rejection.
    pub fn is_empty(&self) -> (b: bool)
        ensures
            b == self@.spec_is_empty(),
    {
        self.requests.len() == 0 && self.results.len() == 0 && self.rejects.len() == 0
    }
}

impl Default for Message {
    fn default() -> (m: Message)
        ensures
            m@ == empty_message(),
    {
        Message::new()
    }
}


/// Largest message, in bytes, that a node reads from a peer.
pub const MAX_MESSAGE_SIZE: usize = 1048576;

/// Name of the work-exchange protocol, as announced to peers.
pub open spec fn protocol_name() -> Seq<char> {
    "/ipcs/workswap/0.0.0"@
}

/// Settings of the work-exchange protocol (it has none besides its name).
#[derive(Debug, Clone, Copy, Default)]
pub struct WorkswapConfig;

impl WorkswapConfig {
    /// The protocol name that this side announces.
    pub fn protocol_info(&self) -> (r: &'static str)
        ensures
            r@ == protocol_name(),
    {
        "/ipcs/workswap/0.0.0"
    }
}

impl Message {
    /// The protocol name under which a message is sent.
    pub fn protocol_info(&self) -> (r: &'static str)
        ensures
            r@ == protocol_name(),
    {
        "/ipcs/workswap/0.0.0"
    }
}

} // verus!
