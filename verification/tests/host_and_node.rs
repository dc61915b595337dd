use ipcs::api::{exec_path, exec_reply, exec_request, network_outcome, ExecResp, NodeConfig, BAD_REQUEST};
use ipcs::block::{create_block, Block};
use ipcs::encoding::{base58, exec_id, work_id};
use ipcs::executor::{entrypoint_name, IoData};
use ipcs::node::{KadOutcome, NodeAction, NodeState, QueryType, UnblockedWork};
use ipcs::workswap::WorkswapEvent;

#[test]
fn create_block_names_raw_sha256_cid() {
    let b = create_block(b"foo".to_vec());
    assert_eq!(b.cid(), "bafkreibme22gw2h7y2h7tg2fhqotaqjucnbc24deqo72b6mkl2egezxhvy");
    assert_eq!(b.data(), b"foo");
    let c = Block::new(vec![1], "x".to_string());
    assert_eq!(c.cid, "x");
    assert_eq!(c.data, vec![1]);
}

#[test]
fn base58_and_exec_id_values() {
    assert_eq!(base58(b"hello world"), "StV1DL6CwTryKyV");
    assert_eq!(base58(&[0, 0, 1]), "112");
    let id = exec_id(&[1, 2], &[vec![3], vec![4, 5]]);
    assert_eq!(id.len(), 32);
    let hex: String = id.iter().map(|b| format!("{:02x}", b)).collect();
    assert_eq!(hex, "74f81fe167d99b4cb41d6d0ccda82278caee9f3e2f25d5e5a3936ff3dcec60d0");
}

#[test]
fn host_io_arguments_and_result() {
    let mut io = IoData::new(vec![b"hello".to_vec(), b"ab".to_vec()]);
    assert_eq!(io.arg_count(), 2);
    assert_eq!(io.arg_len(0), 5);
    assert_eq!(io.arg_len(1), 2);
    let mut mem = vec![0u8; 10];
    assert_eq!(io.arg_read(&mut mem, 0, 3, 1, 3), 3);
    assert_eq!(mem, vec![0, 0, 0, b'e', b'l', b'l', 0, 0, 0, 0]);
    io.ret(&mem, 3, 3);
    io.ret(&mem, 0, 1);
    assert_eq!(io.ret, b"ell\0".to_vec());
    assert_eq!(entrypoint_name(), "_ipcs_start");
}

#[test]
fn host_io_capitalize_round_trip() {
    // A function that reads its first argument, upper-cases it in place and returns it.
    let mut io = IoData::new(vec![b"abc".to_vec()]);
    let mut mem = vec![0u8; 8];
    let len = io.arg_len(0);
    assert_eq!(io.arg_read(&mut mem, 0, 0, 0, len), len);
    for b in mem[..len as usize].iter_mut() {
        b.make_ascii_uppercase();
    }
    io.ret(&mem, 0, len);
    assert_eq!(io.ret, b"ABC".to_vec());
}

#[test]
fn api_bodies_and_replies() {
    let r = exec_request("QmM", &["QmA", "QmB"]);
    assert_eq!(r.method, "QmM");
    assert_eq!(r.args, vec!["QmA".to_string(), "QmB".to_string()]);
    assert_eq!(exec_reply(Ok("c".to_string())), Ok(ExecResp { hash: "c".to_string() }));
    let e = exec_reply(Err("no".to_string())).unwrap_err();
    assert_eq!(e.status, BAD_REQUEST);
    assert_eq!(e.status, 400);
    assert_eq!(e.message, "no");
    assert_eq!(exec_path(), "/api/v0/exec");
    assert_eq!(network_outcome(Ok("c".to_string())), Ok("c".to_string()));
    assert_eq!(
        network_outcome(Err("boom".to_string())),
        Err("Network failed to process function: boom".to_string())
    );
    let c = NodeConfig::default();
    assert!(!c.no_api);
    assert!(c.bootstrap_nodes.is_empty());
}

#[test]
fn lookup_gives_computation_back() {
    let mut n: NodeState<u32> = NodeState::new();
    n.want_exec("id1".to_string(), "m".to_string(), vec!["a".to_string()], 9, 42);
    assert_eq!(n.kademlia_resolved(7, KadOutcome::ClosestPeers), None);
    assert_eq!(
        n.kademlia_resolved(42, KadOutcome::ClosestPeers),
        Some(QueryType::Workswap("id1".to_string(), "m".to_string(), vec!["a".to_string()]))
    );
    assert_eq!(n.kademlia_resolved(42, KadOutcome::ClosestPeers), None);
    n.want_exec("id2".to_string(), "m".to_string(), vec![], 1, 43);
    assert_eq!(n.kademlia_resolved(43, KadOutcome::ClosestPeersTimeout), None);
    assert_eq!(n.kademlia_resolved(43, KadOutcome::ClosestPeers), None);
}

#[test]
fn blocks_unblock_work_asked_by_a_peer() {
    let mut n: NodeState<u32> = NodeState::new();
    let p = vec![4u8];
    n.handle_workswap_event(WorkswapEvent::WantCalc(p, "w".to_string(), "m".to_string(), vec!["a".to_string(), "b".to_string()]));
    assert!(n.unblocked_works().is_empty());
    n.received_block("m".to_string(), vec![0xAA]);
    n.received_block("a".to_string(), vec![1]);
    assert!(n.unblocked_works().is_empty());
    assert_eq!(n.block(&"a".to_string()), Some(&vec![1]));
    assert_eq!(n.block(&"z".to_string()), None);
    n.received_block("b".to_string(), vec![2, 2]);
    n.received_block("a".to_string(), vec![3]);
    assert_eq!(
        n.unblocked_works(),
        vec![UnblockedWork { id: "w".to_string(), method: vec![0xAA], args: vec![vec![3], vec![2, 2]] }]
    );
}

#[test]
fn own_request_is_never_run_here() {
    let mut n: NodeState<u32> = NodeState::new();
    n.want_exec("w".to_string(), "m".to_string(), vec!["a".to_string()], 1, 1);
    n.received_block("m".to_string(), vec![0xAA]);
    n.received_block("a".to_string(), vec![1]);
    assert!(n.unblocked_works().is_empty());
}

#[test]
fn workswap_events_become_node_actions() {
    let mut n: NodeState<u32> = NodeState::new();
    let p = vec![1u8];
    assert_eq!(
        n.handle_workswap_event(WorkswapEvent::WantCalc(p.clone(), "i".to_string(), "m".to_string(), vec!["a".to_string()])),
        NodeAction::Accept { peer: p.clone(), id: "i".to_string(), want: vec!["m".to_string(), "a".to_string()] }
    );
    n.want_exec("w".to_string(), "m".to_string(), vec![], 5, 1);
    n.want_exec("v".to_string(), "n".to_string(), vec![], 6, 2);
    let wm = work_id(&"m".to_string(), &vec![]);
    let wn = work_id(&"n".to_string(), &vec![]);
    assert_eq!(
        n.handle_workswap_event(WorkswapEvent::Completed(p.clone(), "w".to_string(), "c".to_string())),
        NodeAction::Nothing
    );
    assert_eq!(
        n.handle_workswap_event(WorkswapEvent::Completed(p.clone(), wm.clone(), "c".to_string())),
        NodeAction::Reply(5, Ok("c".to_string()))
    );
    assert_eq!(
        n.handle_workswap_event(WorkswapEvent::Completed(p.clone(), wm, "c".to_string())),
        NodeAction::Nothing
    );
    assert_eq!(
        n.handle_workswap_event(WorkswapEvent::Failed(p.clone(), wn.clone(), "e".to_string())),
        NodeAction::Reply(6, Err("Network failed to process function: e".to_string()))
    );
    assert_eq!(n.handle_workswap_event(WorkswapEvent::Accepted(p.clone(), wn.clone())), NodeAction::Nothing);
    assert_eq!(n.handle_workswap_event(WorkswapEvent::Rejected(p, wn.clone())), NodeAction::Nothing);
    assert_eq!(n.take_work(&wn), None);
}

#[test]
fn no_peers_answers_the_requester_once() {
    let mut n: NodeState<u32> = NodeState::new();
    n.want_exec("w".to_string(), "m".to_string(), vec!["a".to_string()], 3, 1);
    assert_eq!(n.answer_no_peers(&"m".to_string(), &vec![]), None);
    assert_eq!(
        n.answer_no_peers(&"m".to_string(), &vec!["a".to_string()]),
        Some((3, Err("No peers".to_string())))
    );
    assert_eq!(n.answer_no_peers(&"m".to_string(), &vec!["a".to_string()]), None);
}

#[test]
fn successive_returns_concatenate() {
    let mut io = IoData::new(vec![]);
    let mem = vec![10u8, 11, 12, 13, 14];
    io.ret(&mem, 3, 2);
    io.ret(&mem, 0, 1);
    io.ret(&mem, 1, 0);
    io.ret(&mem, 1, 3);
    assert_eq!(io.ret, vec![13, 14, 10, 11, 12, 13]);
}

#[test]
fn reading_a_whole_argument_gives_it_back() {
    let io = IoData::new(vec![vec![7, 8, 9]]);
    let mut mem = vec![0u8; 6];
    let n = io.arg_len(0);
    assert_eq!(io.arg_read(&mut mem, 0, 2, 0, n), 3);
    assert_eq!(&mem[2..5], &[7, 8, 9]);
    assert_eq!(mem, vec![0, 0, 7, 8, 9, 0]);
}

#[test]
fn work_id_depends_only_on_concatenated_bytes() {
    assert_eq!(
        work_id(&"ab".to_string(), &vec![]),
        work_id(&"a".to_string(), &vec!["b".to_string()])
    );
    assert_ne!(work_id(&"ab".to_string(), &vec![]), work_id(&"ba".to_string(), &vec![]));
}
