use ipcs::encoding::work_id;
use ipcs::message::{ExecutionRequest, ExecutionResult, Message, WorkswapConfig};
use ipcs::peer_stats::PeerStats;
use ipcs::workswap::{
    no_peers_error, ExecCommand, IPCSCommand, WantExec, WorkUnit, Workswap, WorkswapAction,
    WorkswapEvent,
};

fn req(id: &str, method: &str, args: &[&str]) -> ExecutionRequest {
    ExecutionRequest {
        id: id.to_string(),
        method: method.to_string(),
        args: args.iter().map(|a| a.to_string()).collect(),
    }
}

fn res(id: &str, result: Result<&str, &str>) -> ExecutionResult {
    ExecutionResult {
        id: id.to_string(),
        result: result.map(|s| s.to_string()).map_err(|s| s.to_string()),
    }
}

#[test]
fn new_message_is_empty() {
    let m = Message::new();
    assert!(m.is_empty());
    assert!(m.running.is_empty() && m.accepts.is_empty());
    let d = Message::default();
    assert!(d.is_empty());
}

#[test]
fn message_with_only_accepts_or_running_is_empty() {
    let mut m = Message::new();
    m.accepts.push("a".to_string());
    m.running.push("r".to_string());
    assert!(m.is_empty());
    m.rejects.push("x".to_string());
    assert!(!m.is_empty());
    let mut m2 = Message::new();
    m2.requests.push(req("i", "m", &[]));
    assert!(!m2.is_empty());
    let mut m3 = Message::new();
    m3.results.push(res("i", Ok("c")));
    assert!(!m3.is_empty());
}

#[test]
fn protocol_name_is_announced() {
    assert_eq!(WorkswapConfig.protocol_info(), "/ipcs/workswap/0.0.0");
    assert_eq!(Message::new().protocol_info(), "/ipcs/workswap/0.0.0");
    assert_eq!(ipcs::message::MAX_MESSAGE_SIZE, 1024 * 1024);
}

#[test]
fn peer_stats_request_then_result() {
    let mut s = PeerStats::new();
    s.add_request(req("w1", "m", &["a"]));
    assert_eq!(s.running_there(), &vec!["w1".to_string()]);
    s.add_request(req("w1", "m", &["a"]));
    assert_eq!(s.running_there().len(), 1);
    assert_eq!(s.message().requests.len(), 2);
    s.add_result(res("w1", Ok("c")));
    assert!(s.running_there().is_empty());
    assert_eq!(s.message().results, vec![res("w1", Ok("c"))]);
}

#[test]
fn ready_to_send_drains_and_carries_running() {
    let mut s = PeerStats::new();
    assert!(s.ready_to_send().is_none());
    s.accept("a1".to_string());
    assert!(s.ready_to_send().is_none());
    s.reject("r1".to_string());
    let m = s.ready_to_send().expect("something to send");
    assert_eq!(m.accepts, vec!["a1".to_string()]);
    assert_eq!(m.rejects, vec!["r1".to_string()]);
    assert!(m.running.is_empty());
    assert!(s.ready_to_send().is_none());
    assert!(s.message().accepts.is_empty());
}

#[test]
fn work_unit_predicates() {
    let mut u: WorkUnit<u8> = WorkUnit {
        ret_chan: 0,
        contacted_peers: vec![vec![1], vec![2]],
        rejected_peers: vec![vec![1]],
        resolved_peers: vec![],
    };
    assert!(!u.is_resolved());
    assert!(u.result().is_none());
    assert!(!u.is_stuck());
    u.rejected_peers.push(vec![2]);
    assert!(u.is_stuck());
    u.resolved_peers.push((vec![1], Ok("c".to_string())));
    u.resolved_peers.push((vec![2], Err("e".to_string())));
    assert!(u.is_resolved());
    assert_eq!(u.result().cloned(), Some(Ok("c".to_string())));
}

#[test]
fn connect_and_disconnect() {
    let mut w: Workswap<u32> = Workswap::new();
    let p = vec![1u8, 2, 3];
    assert!(!w.has_peer(&p));
    w.connect(p.clone());
    assert!(!w.has_peer(&p));
    w.inject_connected(&p);
    assert!(w.has_peer(&p));
    w.accept(&p, "x".to_string());
    w.inject_connected(&p);
    assert!(w.peer_stats(&p).unwrap().message().accepts.is_empty());
    w.inject_disconnected(&p);
    assert!(!w.has_peer(&p));
    w.inject_disconnected(&p);
    assert!(!w.has_peer(&p));
}

#[test]
fn want_exec_without_peers_returns_handle() {
    let mut w: Workswap<u32> = Workswap::new();
    let r = w.want_exec("m".to_string(), vec![], 7);
    assert_eq!(r, WantExec::NoPeers(7));
    assert_eq!(no_peers_error(), "No peers");
}

#[test]
fn work_id_is_base58_of_sha256() {
    assert_eq!(work_id(&"a".to_string(), &vec![]), "EdqM52SpXCn5c1uozuvuH5o9Tcr41kYeCWz4Ymu6ngbt");
    assert_eq!(
        work_id(&"QmMethod".to_string(), &vec!["QmArg1".to_string(), "QmArg2".to_string()]),
        "413La1LUGFDDh2KFrY5p7rNZtCK5fM4KYZD31JstZd2b"
    );
}

fn flip(id: &[u8], mask: u8) -> Vec<u8> {
    let mut v = id.to_vec();
    let last = v.len() - 1;
    v[last] ^= mask;
    v
}

#[test]
fn want_exec_single_peer_gets_work() {
    let mut w: Workswap<u32> = Workswap::new();
    let p = vec![9u8];
    w.inject_connected(&p);
    let r = w.want_exec("m".to_string(), vec!["a".to_string()], 1);
    let id = work_id(&"m".to_string(), &vec!["a".to_string()]);
    assert_eq!(r, WantExec::Dispatched(id.clone()));
    let st = w.peer_stats(&p).unwrap();
    assert_eq!(st.running_there(), &vec![id.clone()]);
    assert_eq!(st.message().requests, vec![req(&id, "m", &["a"])]);
}

#[test]
fn want_exec_picks_three_closest_peers() {
    let id = work_id(&"m".to_string(), &vec![]);
    assert_eq!(id, "7eaSCSQv2PN6eFnRhv8ozsYN89yoPY7GKZUVa7DSDfqs");
    let b = id.as_bytes();
    let p0 = flip(b, 0);
    let p1 = flip(b, 1);
    let p2 = flip(b, 3);
    let p3 = flip(b, 7);
    let p4 = flip(b, 15);
    let mut w: Workswap<u32> = Workswap::new();
    for p in [&p3, &p4, &p1, &p0, &p2] {
        w.inject_connected(p);
    }
    let r = w.want_exec("m".to_string(), vec![], 5);
    assert_eq!(r, WantExec::Dispatched(id.clone()));
    for p in [&p0, &p1, &p2] {
        assert_eq!(w.peer_stats(p).unwrap().message().requests.len(), 1);
        assert_eq!(w.peer_stats(p).unwrap().running_there(), &vec![id.clone()]);
    }
    for p in [&p3, &p4] {
        assert!(w.peer_stats(p).unwrap().message().requests.is_empty());
    }
    // Messages go out in table order: p1, p0, p2.
    let mut sent = vec![];
    while let Some(a) = w.poll(vec![]) {
        match a {
            WorkswapAction::Notify { peer, message } => {
                assert_eq!(message.requests, vec![req(&id, "m", &[])]);
                sent.push(peer);
            }
            other => panic!("unexpected {:?}", other),
        }
    }
    assert_eq!(sent, vec![p1, p0, p2]);
}

#[test]
fn want_exec_ties_broken_by_table_order() {
    let id = work_id(&"m".to_string(), &vec![]);
    let b = id.as_bytes();
    let far = flip(b, 0xFF);
    let a = flip(b, 1);
    let c = flip(b, 2);
    let d = flip(b, 4);
    let mut w: Workswap<u32> = Workswap::new();
    for p in [&far, &a, &c, &d] {
        w.inject_connected(p);
    }
    assert_eq!(w.want_exec("m".to_string(), vec![], 0), WantExec::Dispatched(id));
    assert!(w.peer_stats(&far).unwrap().message().requests.is_empty());
    for p in [&a, &c, &d] {
        assert_eq!(w.peer_stats(p).unwrap().message().requests.len(), 1);
    }
}

#[test]
fn want_exec_unroutable_when_lengths_differ() {
    let mut w: Workswap<u32> = Workswap::new();
    w.inject_connected(&vec![1u8, 2]);
    w.inject_connected(&vec![3u8, 4]);
    let r = w.want_exec("m".to_string(), vec![], 3);
    assert_eq!(r, WantExec::Unroutable(3));
    assert!(w.peer_stats(&vec![1u8, 2]).unwrap().message().is_empty());
}

#[test]
fn control_message_runs_want_exec() {
    let mut w: Workswap<u32> = Workswap::new();
    let r = w.handle_control_mesage(IPCSCommand::Exec(ExecCommand { method: "m".to_string(), args: vec![], ret: 4 }));
    assert_eq!(r, WantExec::NoPeers(4));
}

#[test]
fn inject_event_reports_in_order() {
    let mut w: Workswap<u32> = Workswap::new();
    let p = vec![5u8];
    w.inject_connected(&p);
    assert_eq!(w.want_exec("m".to_string(), vec![], 0), WantExec::Dispatched(work_id(&"m".to_string(), &vec![])));
    let mut m = Message::new();
    m.rejects.push("x".to_string());
    m.requests.push(req("r1", "meth", &["a1"]));
    m.results.push(res("r2", Ok("cid")));
    m.results.push(res("r3", Err("boom")));
    w.inject_event(&p, m);
    assert_eq!(w.pending_events(), 4);
    assert_eq!(w.peer_stats(&p).unwrap().running_here(), &vec!["r1".to_string()]);
    let events: Vec<WorkswapAction> = std::iter::from_fn(|| w.poll(vec![])).take(4).collect();
    assert_eq!(
        events,
        vec![
            WorkswapAction::Generate(WorkswapEvent::Rejected(p.clone(), "x".to_string())),
            WorkswapAction::Generate(WorkswapEvent::WantCalc(p.clone(), "r1".to_string(), "meth".to_string(), vec!["a1".to_string()])),
            WorkswapAction::Generate(WorkswapEvent::Completed(p.clone(), "r2".to_string(), "cid".to_string())),
            WorkswapAction::Generate(WorkswapEvent::Failed(p.clone(), "r3".to_string(), "boom".to_string())),
        ]
    );
}

#[test]
fn rejection_by_the_only_peer_leaves_work_stuck_and_running_cleared() {
    let mut w: Workswap<u32> = Workswap::new();
    let p = vec![5u8];
    w.inject_connected(&p);
    let id = work_id(&"m".to_string(), &vec![]);
    w.want_exec("m".to_string(), vec![], 0);
    let mut m = Message::new();
    m.rejects.push(id.clone());
    assert!(!w.work(&id).unwrap().is_stuck());
    w.inject_event(&p, m);
    assert!(w.peer_stats(&p).unwrap().running_there().is_empty());
    let unit = w.work(&id).unwrap();
    assert_eq!(unit.rejected_peers, vec![p.clone()]);
    assert_eq!(unit.contacted_peers, vec![p.clone()]);
    assert!(unit.is_stuck());
    assert!(!unit.is_resolved());
    assert!(w.work(&"other".to_string()).is_none());
    assert_eq!(
        w.poll(vec![]),
        Some(WorkswapAction::Generate(WorkswapEvent::Rejected(p.clone(), id)))
    );
}

#[test]
fn poll_queues_finished_local_executions() {
    let mut w: Workswap<u32> = Workswap::new();
    let p = vec![8u8];
    w.inject_connected(&p);
    let out = w.poll(vec![(p.clone(), res("job", Ok("c1")))]);
    match out {
        Some(WorkswapAction::Notify { peer, message }) => {
            assert_eq!(peer, p);
            assert_eq!(message.results, vec![res("job", Ok("c1"))]);
        }
        other => panic!("unexpected {:?}", other),
    }
    assert_eq!(w.poll(vec![]), None);
}

#[test]
fn delivery_between_two_nodes() {
    // Node A asks node B to run a computation; B records it.
    let a_id = vec![1u8];
    let b_id = vec![2u8];
    let mut a: Workswap<u32> = Workswap::new();
    let mut b: Workswap<u32> = Workswap::new();
    a.inject_connected(&b_id);
    b.inject_connected(&a_id);
    let id = match a.want_exec("m".to_string(), vec!["x".to_string()], 0) {
        WantExec::Dispatched(id) => id,
        other => panic!("unexpected {:?}", other),
    };
    let msg = match a.poll(vec![]) {
        Some(WorkswapAction::Notify { peer, message }) => {
            assert_eq!(peer, b_id);
            message
        }
        other => panic!("unexpected {:?}", other),
    };
    b.inject_event(&a_id, msg);
    assert_eq!(b.peer_stats(&a_id).unwrap().running_here(), &vec![id.clone()]);
    assert_eq!(
        b.poll(vec![]),
        Some(WorkswapAction::Generate(WorkswapEvent::WantCalc(a_id.clone(), id.clone(), "m".to_string(), vec!["x".to_string()])))
    );
    // B accepts and later reports the result; A sees it completed.
    b.accept(&a_id, id.clone());
    let reply = match b.poll(vec![(a_id.clone(), res(&id, Ok("out")))]) {
        Some(WorkswapAction::Notify { message, .. }) => message,
        other => panic!("unexpected {:?}", other),
    };
    assert_eq!(reply.running, vec![id.clone()]);
    assert_eq!(reply.accepts, vec![id.clone()]);
    a.inject_event(&b_id, reply);
    assert!(a.peer_stats(&b_id).unwrap().running_there().is_empty());
    assert_eq!(
        a.poll(vec![]),
        Some(WorkswapAction::Generate(WorkswapEvent::Completed(b_id.clone(), id, "out".to_string())))
    );
}

#[test]
fn rejection_by_an_uncontacted_peer_leaves_work_not_stuck() {
    let mut u: WorkUnit<u8> = WorkUnit {
        ret_chan: 0,
        contacted_peers: vec![vec![1]],
        rejected_peers: vec![vec![2]],
        resolved_peers: vec![],
    };
    assert!(!u.is_stuck());
    u.rejected_peers.push(vec![1]);
    assert!(u.is_stuck());
    let none: WorkUnit<u8> = WorkUnit {
        ret_chan: 0,
        contacted_peers: vec![],
        rejected_peers: vec![],
        resolved_peers: vec![],
    };
    assert!(none.is_stuck());
}
