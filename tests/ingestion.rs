use causal_kv::op_db::OpDb;
use causal_kv::types::{DocValue, RemoteDocOp, RemoteOperation, RemoteVersion};
use causal_kv::MemDb;

fn rv(agent: &str, seq: u64) -> RemoteVersion {
    RemoteVersion { agent: agent.to_string(), seq }
}

fn edit(key: &str, value: &str, parents: Vec<RemoteVersion>) -> RemoteDocOp {
    RemoteDocOp { id: key.to_string(), patch: DocValue::Blob(value.as_bytes().to_vec()), parents }
}

fn op(agent: &str, seq: u64, succeeds: Option<u64>, parents: Vec<RemoteVersion>, doc_ops: Vec<RemoteDocOp>) -> RemoteOperation {
    RemoteOperation { version: rv(agent, seq), succeeds, parents, doc_ops }
}

fn genesis() -> RemoteOperation {
    op("A", 0, None, vec![rv("ROOT", 0)], vec![edit("k", "v1", vec![rv("ROOT", 0)])])
}

#[test]
fn checked_ingestion_accepts_valid_operations() {
    let mut db = MemDb::new();
    assert_eq!(db.try_apply_and_advance(&genesis()), Some(0));
    assert_eq!(db.try_apply_and_advance(&genesis()), Some(0));
    let next = op("A", 1, Some(0), vec![rv("A", 0)], vec![edit("k", "v2", vec![rv("A", 0)])]);
    assert_eq!(db.try_apply_and_advance(&next), Some(1));
    assert_eq!(db.op_db().len(), 2);
}

#[test]
fn checked_ingestion_refuses_empty_parents() {
    let mut db = MemDb::new();
    let bad = op("A", 0, None, vec![], vec![]);
    assert_eq!(db.try_apply_and_advance(&bad), None);
    assert_eq!(db.op_db().len(), 0);
}

#[test]
fn checked_ingestion_refuses_the_root_agent() {
    let mut db = MemDb::new();
    let bad = op("ROOT", 3, None, vec![rv("ROOT", 0)], vec![]);
    assert_eq!(db.try_apply_and_advance(&bad), None);
}

#[test]
fn checked_ingestion_refuses_missing_parents() {
    let mut db = MemDb::new();
    db.try_apply_and_advance(&genesis());
    let missing = op("B", 0, None, vec![rv("A", 7)], vec![]);
    assert_eq!(db.try_apply_and_advance(&missing), None);
    let unknown_agent = op("B", 0, None, vec![rv("Q", 0)], vec![]);
    assert_eq!(db.try_apply_and_advance(&unknown_agent), None);
    let missing_doc_parent = op("B", 0, None, vec![rv("A", 0)], vec![edit("k", "x", vec![rv("A", 9)])]);
    assert_eq!(db.try_apply_and_advance(&missing_doc_parent), None);
    let missing_predecessor = op("A", 5, Some(4), vec![rv("A", 0)], vec![]);
    assert_eq!(db.try_apply_and_advance(&missing_predecessor), None);
    let new_agent_predecessor = op("B", 1, Some(0), vec![rv("A", 0)], vec![]);
    assert_eq!(db.try_apply_and_advance(&new_agent_predecessor), None);
    assert_eq!(db.op_db().len(), 1);
}

#[test]
fn checked_ingestion_refuses_doc_parent_of_another_document() {
    let mut db = MemDb::new();
    db.try_apply_and_advance(&genesis());
    // Operation 0 never edited "other".
    let bad = op("B", 0, None, vec![rv("A", 0)], vec![edit("other", "x", vec![rv("A", 0)])]);
    assert_eq!(db.try_apply_and_advance(&bad), None);
    let good = op("B", 0, None, vec![rv("A", 0)], vec![edit("other", "x", vec![rv("ROOT", 0)])]);
    assert_eq!(db.try_apply_and_advance(&good), Some(1));
}

#[test]
fn store_reports_presence_and_admission() {
    let mut store = OpDb::new();
    assert!(store.is_present(&rv("ROOT", 0)));
    assert!(!store.is_present(&rv("A", 0)));
    assert!(store.admits(&genesis()));
    assert!(!store.contains_operation(&genesis()));
    store.add_operation(&genesis());
    assert!(store.contains_operation(&genesis()));
    assert!(store.is_present(&rv("A", 0)));
    assert!(!store.admits(&op("B", 0, None, vec![rv("A", 3)], vec![])));
}

#[test]
fn concurrent_values_are_an_antichain_sorted_by_order() {
    let mut db = MemDb::new();
    db.apply_and_advance(&genesis());
    db.apply_and_advance(&op("C", 0, None, vec![rv("A", 0)], vec![edit("k", "v-c", vec![rv("A", 0)])]));
    db.apply_and_advance(&op("B", 0, None, vec![rv("A", 0)], vec![edit("k", "v-b", vec![rv("A", 0)])]));
    let vals = db.view().get_cloned(&"k".to_string());
    let orders: Vec<u64> = vals.iter().map(|v| v.order).collect();
    assert_eq!(orders, vec![1, 2]);
    let k = "k".to_string();
    assert!(!db.op_db().branch_contains_doc_version(1, &[2], &k));
    assert!(!db.op_db().branch_contains_doc_version(2, &[1], &k));
    assert_eq!(vals[0].value, DocValue::Blob(b"v-c".to_vec()));
}

#[test]
fn partial_merge_keeps_the_other_value() {
    let mut db = MemDb::new();
    db.apply_and_advance(&genesis());
    db.apply_and_advance(&op("B", 0, None, vec![rv("A", 0)], vec![edit("k", "v-b", vec![rv("A", 0)])]));
    db.apply_and_advance(&op("C", 0, None, vec![rv("A", 0)], vec![edit("k", "v-c", vec![rv("A", 0)])]));
    // Supersedes B's value only: C's stays beside it.
    db.apply_and_advance(&op("B", 1, Some(0), vec![rv("B", 0)], vec![edit("k", "v-b2", vec![rv("B", 0)])]));
    let orders: Vec<u64> = db.view().get_cloned(&"k".to_string()).iter().map(|v| v.order).collect();
    assert_eq!(orders, vec![2, 3]);
    assert_eq!(*db.view().branch(), vec![2u64, 3]);
    assert_eq!(db.op_db().max_seq(1), Some(1));
}

#[test]
fn local_write_builds_on_the_current_state() {
    let mut db = MemDb::new();
    let first = db.local_write_op(&"seph".to_string(), &"k".to_string(), b"v1".to_vec());
    assert_eq!(first.version, rv("seph", 0));
    assert_eq!(first.succeeds, None);
    assert_eq!(first.parents, vec![rv("ROOT", 0)]);
    assert_eq!(first.doc_ops, vec![edit("k", "v1", vec![rv("ROOT", 0)])]);
    assert_eq!(db.try_apply_and_advance(&first), Some(0));

    db.apply_and_advance(&op("B", 0, None, vec![rv("seph", 0)], vec![edit("k", "v-b", vec![rv("seph", 0)])]));
    db.apply_and_advance(&op("C", 0, None, vec![rv("seph", 0)], vec![edit("j", "v-c", vec![rv("ROOT", 0)])]));
    let second = db.local_write_op(&"seph".to_string(), &"k".to_string(), b"v2".to_vec());
    assert_eq!(second.version, rv("seph", 1));
    assert_eq!(second.succeeds, Some(0));
    assert_eq!(second.parents, vec![rv("B", 0), rv("C", 0)]);
    assert_eq!(second.doc_ops, vec![edit("k", "v2", vec![rv("B", 0)])]);
    assert_eq!(db.try_apply_and_advance(&second), Some(3));
    assert_eq!(*db.view().branch(), vec![3u64]);
    assert_eq!(db.view().get_cloned(&"k".to_string()).len(), 1);
}

#[test]
fn checked_ingestion_refuses_a_document_edited_twice() {
    let mut db = MemDb::new();
    db.try_apply_and_advance(&genesis());
    let twice = op(
        "B",
        0,
        None,
        vec![rv("A", 0)],
        vec![edit("k", "x", vec![rv("A", 0)]), edit("k", "y", vec![rv("A", 0)])],
    );
    assert_eq!(db.try_apply_and_advance(&twice), None);
    assert_eq!(db.op_db().len(), 1);
    assert!(db.op_db().admits(&twice));
}
