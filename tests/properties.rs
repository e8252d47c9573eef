use causal_kv::doc_op_entry;
use causal_kv::types::{DocValue, LocalVersion, RemoteDocOp, RemoteOperation, RemoteVersion, ROOT_AGENT, ROOT_ORDER};
use causal_kv::op_db::OpDb;
use causal_kv::version::AgentMap;

fn rv(agent: &str, seq: u64) -> RemoteVersion {
    RemoteVersion { agent: agent.to_string(), seq }
}

fn write_op(
    agent: &str,
    seq: u64,
    succeeds: Option<u64>,
    parents: Vec<RemoteVersion>,
    key: &str,
    doc_parents: Vec<RemoteVersion>,
) -> RemoteOperation {
    RemoteOperation {
        version: rv(agent, seq),
        succeeds,
        parents,
        doc_ops: vec![RemoteDocOp {
            id: key.to_string(),
            patch: DocValue::Blob(format!("{}{}", agent, seq).into_bytes()),
            parents: doc_parents,
        }],
    }
}

/// A: 0 (root) ; B: 1 (after 0) ; C: 2 (after 0) ; A: 3 (after 1), on two documents.
fn sample() -> OpDb {
    let mut db = OpDb::new();
    db.add_operation(&write_op("A", 0, None, vec![rv("ROOT", 0)], "k", vec![rv("ROOT", 0)]));
    db.add_operation(&write_op("B", 0, None, vec![rv("A", 0)], "k", vec![rv("A", 0)]));
    db.add_operation(&write_op("C", 0, None, vec![rv("A", 0)], "j", vec![rv("ROOT", 0)]));
    db.add_operation(&write_op("A", 1, Some(0), vec![rv("B", 0)], "k", vec![rv("B", 0)]));
    db
}

#[test]
fn parents_precede_their_operation() {
    let db = sample();
    for o in 0..db.len() as u64 {
        let op = db.operation_by_order(o);
        assert_eq!(op.order, o);
        for &p in op.parents.iter() {
            assert!(p < o || p == ROOT_ORDER);
        }
        for d in op.doc_ops.iter() {
            for &p in d.parents.iter() {
                assert!(p < o || p == ROOT_ORDER);
            }
        }
    }
    assert_eq!(db.operation_by_order(3).succeeds, Some(0));
}

#[test]
fn versions_lead_to_their_operation() {
    let db = sample();
    for (agent, seq, order) in [(0u32, 0u64, 0u64), (1, 0, 1), (2, 0, 2), (0, 1, 3)] {
        let v = LocalVersion { agent, seq };
        assert_eq!(db.version_to_order(&v), Some(order));
        assert_eq!(db.operation_by_version(&v).unwrap().version, v);
    }
    assert!(db.operation_by_version(&LocalVersion { agent: 1, seq: 7 }).is_none());
    assert_eq!(db.version_to_order(&LocalVersion { agent: ROOT_AGENT, seq: 9 }), Some(ROOT_ORDER));
}

#[test]
fn frontier_contains_every_order() {
    let db = sample();
    let frontier = db.frontier().clone();
    assert_eq!(frontier, vec![2u64, 3]);
    for o in 0..db.len() as u64 {
        assert!(db.branch_contains_version(o, &frontier));
    }
    assert!(db.branch_contains_version(ROOT_ORDER, &frontier));
    assert!(!db.branch_contains_version(4, &frontier));
}

#[test]
fn unparented_orders_are_in_frontier() {
    let db = sample();
    let frontier = db.frontier().clone();
    // 2 and 3 are named by no operation as a parent.
    assert!(frontier.contains(&2));
    assert!(frontier.contains(&3));
    assert!(!frontier.contains(&0));
    assert!(!frontier.contains(&1));
}

#[test]
fn ancestry_follows_the_graph() {
    let db = sample();
    assert!(db.branch_contains_version(1, &[3]));
    assert!(db.branch_contains_version(0, &[2]));
    assert!(!db.branch_contains_version(1, &[2]));
    assert!(!db.branch_contains_version(2, &[3]));
    assert!(!db.branch_contains_version(3, &[2]));
    assert!(db.branch_contains_version(2, &[2, 3]));
}

#[test]
fn document_ancestry_follows_doc_parents() {
    let db = sample();
    let k = "k".to_string();
    let j = "j".to_string();
    assert!(db.branch_contains_doc_version(0, &[3], &k));
    assert!(db.branch_contains_doc_version(1, &[3], &k));
    assert!(!db.branch_contains_doc_version(0, &[2], &j));
    assert!(db.branch_contains_doc_version(ROOT_ORDER, &[2], &j));
}

#[test]
fn empty_branch_contains_nothing() {
    let db = sample();
    for t in [0u64, 1, 2, 3, 99, ROOT_ORDER] {
        assert!(!db.branch_contains_version(t, &[]));
        assert!(!db.branch_contains_doc_version(t, &[], &"k".to_string()));
    }
}

#[test]
fn root_is_in_every_nonempty_branch() {
    let db = sample();
    assert!(db.branch_contains_version(ROOT_ORDER, &[0]));
    assert!(db.branch_contains_version(ROOT_ORDER, &[ROOT_ORDER]));
    assert!(db.branch_contains_version(ROOT_ORDER, &[2, 3]));
    assert!(!db.branch_contains_version(0, &[ROOT_ORDER]));
}

#[test]
fn adding_twice_gives_the_same_order() {
    let mut db = sample();
    let op = write_op("D", 5, None, vec![rv("A", 1), rv("C", 0)], "k", vec![rv("A", 1)]);
    let first = db.add_operation(&op);
    let len = db.len();
    let second = db.add_operation(&op);
    assert_eq!(first, 4);
    assert_eq!(second, 4);
    assert_eq!(len, 5);
    assert_eq!(db.len(), 5);
    assert_eq!(*db.frontier(), vec![4u64]);
}

#[test]
fn max_seq_per_agent() {
    let mut db = sample();
    assert_eq!(db.max_seq(0), Some(1));
    assert_eq!(db.max_seq(1), Some(0));
    assert_eq!(db.max_seq(2), Some(0));
    db.add_operation(&write_op("B", 10, Some(0), vec![rv("A", 1)], "k", vec![rv("A", 1)]));
    assert_eq!(db.max_seq(1), Some(10));
}

#[test]
fn max_seq_of_unknown_agent_is_absent() {
    let db = sample();
    assert_eq!(db.max_seq(3), None);
    assert_eq!(db.max_seq(77), None);
    assert_eq!(db.max_seq(ROOT_AGENT), None);
    assert_eq!(OpDb::new().max_seq(0), None);
}

#[test]
fn agent_map_round_trip() {
    let mut m = AgentMap::new();
    let a = m.to_local(&"alice".to_string());
    let b = m.to_local(&"bob".to_string());
    assert_eq!((a, b), (0, 1));
    assert_eq!(m.to_local(&"alice".to_string()), 0);
    assert_eq!(m.to_remote(a), "alice");
    assert_eq!(m.to_remote(b), "bob");
    assert_eq!(m.to_local(&m.to_remote(b).to_string()), b);
    assert_eq!(m.to_local(&"ROOT".to_string()), ROOT_AGENT);
    assert_eq!(m.to_remote(ROOT_AGENT), "ROOT");
    assert_eq!(m.try_to_local(&"carol".to_string()), None);
    assert_eq!(m.try_to_local(&"bob".to_string()), Some(1));
    assert_eq!(m.try_to_local(&"ROOT".to_string()), Some(ROOT_AGENT));
}

#[test]
fn remote_and_local_versions_convert() {
    let mut m = AgentMap::new();
    let v = rv("alice", 4);
    assert_eq!(v.try_to_local(&m), None);
    let l = v.to_local_mut(&mut m);
    assert_eq!(l, LocalVersion { agent: 0, seq: 4 });
    assert_eq!(v.try_to_local(&m), Some(l));
    assert_eq!(l.to_remote(&m), v);
}

#[test]
fn remote_versions_resolve_to_orders() {
    let mut db = sample();
    assert_eq!(db.remote_version_to_order(&rv("C", 0)), Some(2));
    assert_eq!(db.remote_version_to_order(&rv("C", 1)), None);
    assert_eq!(db.remote_version_to_order(&rv("ROOT", 0)), Some(ROOT_ORDER));
    assert_eq!(db.remote_version_to_order_mut(&rv("A", 1)), Some(3));
    assert_eq!(db.remote_version_to_order_mut(&rv("Z", 0)), None);
    assert_eq!(db.agent_map().try_to_local(&"Z".to_string()), Some(3));
}

#[test]
fn version_encoding() {
    assert_eq!(rv("A", 1).to_bytes(), vec![0x41, 0, 0, 0, 0, 0, 0, 0, 1]);
    assert_eq!(rv("A", 1).encode(), "QQAAAAAAAAAB");
    assert_eq!(rv("seph", 258).encode(), "c2VwaAAAAAAAAAEC");
}

#[test]
fn value_bytes() {
    assert_eq!(DocValue::Empty.to_bytes(), b"None".to_vec());
    assert_eq!(DocValue::Blob(vec![1, 2, 3]).to_bytes(), vec![1, 2, 3]);
}

#[test]
fn first_doc_op_entry_is_found() {
    let db = sample();
    let op = db.operation_by_order(2);
    assert_eq!(doc_op_entry(&op.doc_ops, &"j".to_string()).unwrap().id, "j");
    assert!(doc_op_entry(&op.doc_ops, &"k".to_string()).is_none());
}
