use ipcs::api::{api_url, exec_request_ids, exec_url, UrlParseError};
use ipcs::encoding::node_exec_id;
use ipcs::message::ExecutionResult;
use ipcs::node::{NetworkEvent, NodeState};
use ipcs::workswap::WorkswapEvent;

const FOO_CID: &str = "bafkreibme22gw2h7y2h7tg2fhqotaqjucnbc24deqo72b6mkl2egezxhvy";
const V0_CID: &str = "QmT8MRDQxey9PVBWVRZCBDgXSg3mSQJ3a9y88pC8rAuNdz";

#[test]
fn request_identifiers_are_written_in_canonical_form() {
    let r = exec_request_ids(
        &format!("/ipfs/{}", FOO_CID),
        &vec!["zb2rhZcdMzBSGEjx2xbFsY9pTpMgegGQLEWsNpPnUzbPwCx1T".to_string(), V0_CID.to_string()],
    );
    assert_eq!(r, Some((FOO_CID.to_string(), vec![FOO_CID.to_string(), V0_CID.to_string()])));
}

#[test]
fn request_with_an_invalid_identifier_is_refused() {
    assert_eq!(exec_request_ids(&"nope".to_string(), &vec![]), None);
    assert_eq!(exec_request_ids(&V0_CID.to_string(), &vec![FOO_CID.to_string(), "x".to_string()]), None);
    assert_eq!(exec_request_ids(&V0_CID.to_string(), &vec![]), Some((V0_CID.to_string(), vec![])));
}

#[test]
fn node_exec_id_hashes_binary_identifiers() {
    assert_eq!(
        node_exec_id(&FOO_CID.to_string(), &vec![V0_CID.to_string()]),
        Some("ALFPcj2hbVNAuXZrUht9LEDnxWowiEVb97sRTigxY9HZ".to_string())
    );
    assert_eq!(
        node_exec_id(&V0_CID.to_string(), &vec![]),
        Some("5ZXpUDaAb3kaHrL2vLdYXnF93UEScA1exh9rsGobubjH".to_string())
    );
    assert_eq!(node_exec_id(&V0_CID.to_string(), &vec!["bad".to_string()]), None);
    assert_eq!(node_exec_id(&"bad".to_string(), &vec![]), None);
}

#[test]
fn node_address_and_endpoint() {
    let base = api_url("http://127.0.0.1:3030").unwrap();
    assert_eq!(base, "http://127.0.0.1:3030/");
    assert_eq!(exec_url(&base), Some("http://127.0.0.1:3030/api/v0/exec".to_string()));
    assert_eq!(exec_url("http://example.com/a/b?q=1"), Some("http://example.com/api/v0/exec?q=1".to_string()));
    assert_eq!(api_url("not a url"), Err(UrlParseError::RelativeUrlWithoutBase));
    assert_eq!(api_url("http://a:99999"), Err(UrlParseError::InvalidPort));
    assert_eq!(api_url("http://"), Err(UrlParseError::EmptyHost));
    assert_eq!(exec_url("not a url"), None);
}

#[test]
fn finished_execution_goes_to_the_peer_and_leaves_blocks_alone() {
    let mut n: NodeState<u8> = NodeState::new();
    let p = vec![9u8];
    n.handle_workswap_event(WorkswapEvent::WantCalc(p.clone(), "w".to_string(), "m".to_string(), vec![]));
    n.received_block("m".to_string(), vec![1]);
    assert_eq!(n.unblocked_works().len(), 1);
    let done = n.finish_local_exec("w".to_string(), b"foo".to_vec());
    assert_eq!(
        done.result,
        Some((p, ExecutionResult { id: "w".to_string(), result: Ok(FOO_CID.to_string()) }))
    );
    match done.event {
        NetworkEvent::FinishedLocalExec(id, b) => {
            assert_eq!(id, "w");
            assert_eq!(b.cid, FOO_CID);
            assert_eq!(b.data, b"foo".to_vec());
        }
    }
    assert_eq!(n.block(&FOO_CID.to_string()), None);
    assert!(n.unblocked_works().is_empty());
    let again = n.finish_local_exec("w".to_string(), b"foo".to_vec());
    assert_eq!(again.result, None);
}
