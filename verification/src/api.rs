//! The HTTP interface of a node: the bodies it exchanges and what it answers.

use vstd::prelude::*;
use vstd::string::StringExecFns;
use crate::message::WorkResult;
use crate::encoding::{cid_canonical, cid_canonical_text};

verus! {

/// Request for executing a method.
#[derive(Debug, Clone, PartialEq, Eq)]
pub struct ExecReq {
    /// The method: the identifier of the stored function.
    pub method: String,
    /// The arguments: identifiers of stored objects.
    pub args: Vec<String>,
}

/// Response to a successful execution.
#[derive(Debug, Clone, PartialEq, Eq)]
pub struct ExecResp {
    /// Identifier of the stored object that holds the result.
    pub hash: String,
}

/// An error answer of the API: an HTTP status code and a text.
#[derive(Debug, Clone, PartialEq, Eq)]
pub struct Error {
    pub status: u16,
    pub message: String,
}

/// HTTP status of an answer to a request that could not be carried out.
pub const BAD_REQUEST: u16 = 400;

/// The identifiers of an execution request in the form the protocol carries:
/// each of `method` and `args` read as a content identifier and written in its
/// text form ([`cid_canonical_text`]). `None` exactly where one of them is no
/// content identifier.
pub fn exec_request_ids(method: &String, args: &Vec<String>) -> (r: Option<(String, Vec<String>)>)
    ensures
        r.is_some() == (cid_canonical_text(method@).is_some() && forall|i: int|
            0 <= i < args@.len() ==> (#[trigger] cid_canonical_text(args.deep_view()[i])).is_some()),
        r matches Some(p) ==> {
            &&& p.0@ == cid_canonical_text(method@)->Some_0
            &&& p.1@.len() == args@.len()
            &&& forall|i: int| 0 <= i < args@.len() ==> (#[trigger] p.1@[i])@ == cid_canonical_text(args.deep_view()[i])->Some_0
        },
{
    let m = match cid_canonical(method.as_str()) {
        Some(c) => c,
        None => return None,
    };
    let mut v: Vec<String> = Vec::new();
    let mut i: usize = 0;
    while i < args.len()
        invariant
            i <= args@.len(),
            v@.len() == i,
            forall|k: int| 0 <= k < i ==> (#[trigger] cid_canonical_text(args.deep_view()[k])).is_some(),
            forall|k: int| 0 <= k < i ==> (#[trigger] v@[k])@ == cid_canonical_text(args.deep_view()[k])->Some_0,
        decreases args@.len() - i,
    {
        proof {
            assert(args.deep_view()[i as int] == args@[i as int]@);
        }
        match cid_canonical(args[i].as_str()) {
            Some(c) => v.push(c),
            None => return None,
        }
        i = i + 1;
    }
    Some((m, v))
}

/// Why `url::Url::parse` refuses a text: one variant for each of its errors.
#[derive(Debug, Clone, Copy, PartialEq, Eq)]
pub enum UrlParseError {
    EmptyHost,
    IdnaError,
    InvalidPort,
    InvalidIpv4Address,
    InvalidIpv6Address,
    InvalidDomainCharacter,
    RelativeUrlWithoutBase,
    RelativeUrlWithCannotBeABaseBase,
    SetHostOnCannotBeABaseUrl,
    Overflow,
    /// An error that the `url` crate may add in a later version.
    Other,
}

/// What `url::Url::parse` makes of `text`: the URL's serialization, or its error.
pub uninterp spec fn url_text(text: Seq<char>) -> Result<Seq<char>, UrlParseError>;

/// The serialization of the URL that `url::Url::parse` reads from `text`, once
/// `url::Url::set_path` has set its path to `path`.
pub uninterp spec fn url_with_path_text(text: Seq<char>, path: Seq<char>) -> Seq<char>;

/// Reads `text` with `url::Url::parse`. Trusted: the result is the URL's
/// serialization or the parse error, variant for variant (named).
#[verifier::external_body]
fn parse_url(text: &str) -> (r: Result<String, UrlParseError>)
    ensures
        match r {
            Ok(u) => url_text(text@) == Ok::<Seq<char>, UrlParseError>(u@),
            Err(e) => url_text(text@) == Err::<Seq<char>, UrlParseError>(e),
        },
{
    match url::Url::parse(text) {
        Ok(u) => Ok(String::from(u)),
        Err(url::ParseError::EmptyHost) => Err(UrlParseError::EmptyHost),
        Err(url::ParseError::IdnaError) => Err(UrlParseError::IdnaError),
        Err(url::ParseError::InvalidPort) => Err(UrlParseError::InvalidPort),
        Err(url::ParseError::InvalidIpv4Address) => Err(UrlParseError::InvalidIpv4Address),
        Err(url::ParseError::InvalidIpv6Address) => Err(UrlParseError::InvalidIpv6Address),
        Err(url::ParseError::InvalidDomainCharacter) => Err(UrlParseError::InvalidDomainCharacter),
        Err(url::ParseError::RelativeUrlWithoutBase) => Err(UrlParseError::RelativeUrlWithoutBase),
        Err(url::ParseError::RelativeUrlWithCannotBeABaseBase) => Err(UrlParseError::RelativeUrlWithCannotBeABaseBase),
        Err(url::ParseError::SetHostOnCannotBeABaseUrl) => Err(UrlParseError::SetHostOnCannotBeABaseUrl),
        Err(url::ParseError::Overflow) => Err(UrlParseError::Overflow),
        Err(_) => Err(UrlParseError::Other),
    }
}

/// Reads `text` with `url::Url::parse`, sets the URL's path to `path` with
/// `url::Url::set_path`, and gives the serialization. `set_path` stops the
/// program once the serialization reaches 4 GiB; percent-encoding writes at most
/// 12 bytes for a character, and `requires` keeps the encoded total below that.
/// Trusted: `Some` exactly where the text parses, with that serialization (named).
#[verifier::external_body]
fn url_set_path(text: &str, path: &str) -> (r: Option<String>)
    requires
        12 * (text@.len() + path@.len()) + 1024 < 0x1_0000_0000,
    ensures
        r.is_some() == url_text(text@).is_ok(),
        r matches Some(u) ==> u@ == url_with_path_text(text@, path@),
{
    match url::Url::parse(text) {
        Ok(mut u) => {
            u.set_path(path);
            Some(String::from(u))
        },
        Err(_) => None,
    }
}

/// Longest node address, in characters, that the client works with.
pub const MAX_URL_LEN: usize = 0x0800_0000;

/// The address of a node's HTTP interface, read from `text`: its serialization,
/// or why it does not parse.
pub fn api_url(text: &str) -> (r: Result<String, UrlParseError>)
    ensures
        match r {
            Ok(u) => url_text(text@) == Ok::<Seq<char>, UrlParseError>(u@),
            Err(e) => url_text(text@) == Err::<Seq<char>, UrlParseError>(e),
        },
{
    parse_url(text)
}

/// The URL of the execution endpoint of the node at `base`: `base` with its path
/// set to [`exec_path`]. `None` exactly where `base` does not parse.
pub fn exec_url(base: &str) -> (r: Option<String>)
    requires
        base@.len() <= MAX_URL_LEN,
    ensures
        r.is_some() == url_text(base@).is_ok(),
        r matches Some(u) ==> u@ == url_with_path_text(base@, "/api/v0/exec"@),
{
    let path = exec_path();
    proof {
        reveal_strlit("/api/v0/exec");
    }
    url_set_path(base, path.as_str())
}

/// Path of the execution endpoint.
pub fn exec_path() -> (r: String)
    ensures
        r@ == "/api/v0/exec"@,
{
    "/api/v0/exec".to_string()
}

/// The request body that asks a node to run `method` on `args`.
pub fn exec_request(method: &str, args: &[&str]) -> (r: ExecReq)
    ensures
        r.method@ == method@,
        r.args.deep_view() == args@.map_values(|a: &str| a@),
{
    let mut v: Vec<String> = Vec::new();
    let mut i: usize = 0;
    while i < args.len()
        invariant
            i <= args@.len(),
            v.deep_view() == args@.map_values(|a: &str| a@).take(i as int),
        decreases args@.len() - i,
    {
        v.push(args[i].to_string());
        proof {
            assert(args@.map_values(|a: &str| a@).take(i + 1) =~= args@.map_values(|a: &str| a@).take(i as int).push(args@[i as int]@));
        }
        i = i + 1;
    }
    proof {
        assert(args@.map_values(|a: &str| a@).take(args@.len() as int) =~= args@.map_values(|a: &str| a@));
    }
    ExecReq { method: method.to_string(), args: v }
}

/// The answer to an execution request once the node has its outcome: the result's
/// identifier, or a 400 error that carries the error text.
pub fn exec_reply(res: WorkResult) -> (r: Result<ExecResp, Error>)
    ensures
        match res {
            Ok(c) => r matches Ok(resp) && resp.hash@ == c@,
            Err(e) => r matches Err(err) && err.status == BAD_REQUEST && err.message@ == e@,
        },
{
    match res {
        Ok(c) => Ok(ExecResp { hash: c }),
        Err(e) => Err(Error { status: BAD_REQUEST, message: e }),
    }
}

/// Prefix of the error text of a computation that the network failed.
pub fn network_failure_prefix() -> (r: String)
    ensures
        r@ == "Network failed to process function: "@,
{
    "Network failed to process function: ".to_string()
}

/// The text a requester receives when the network failed a computation with `e`.
pub open spec fn network_failure_text(e: Seq<char>) -> Seq<char> {
    "Network failed to process function: "@ + e
}

/// The outcome reported to a requester for the outcome `res` of the network:
/// results pass unchanged; errors are explained.
pub fn network_outcome(res: WorkResult) -> (r: WorkResult)
    ensures
        match res {
            Ok(c) => r matches Ok(c2) && c2@ == c@,
            Err(e) => r matches Err(e2) && e2@ == network_failure_text(e@),
        },
{
    match res {
        Ok(c) => Ok(c),
        Err(e) => Err(network_failure_prefix().concat(e.as_str())),
    }
}

/// Configuration of a node.
#[derive(Debug, Clone)]
pub struct NodeConfig {
    /// Disable the provided HTTP API.
    pub no_api: bool,
    /// Bootstrap addresses.
    pub bootstrap_nodes: Vec<String>,
}

impl Default for NodeConfig {
    /// The API enabled, no bootstrap address.
    fn default() -> (c: NodeConfig)
        ensures
            !c.no_api,
            c.bootstrap_nodes@.len() == 0,
    {
        NodeConfig { no_api: false, bootstrap_nodes: Vec::new() }
    }
}

} // verus!
