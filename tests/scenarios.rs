use causal_kv::types::{
    DbValueSingle, DocValue, LocalVersion, RemoteDocOp, RemoteOperation, RemoteVersion, ROOT_ORDER,
};
use causal_kv::op_db::OpDb;
use causal_kv::view_db::ViewDb;
use causal_kv::MemDb;

fn rv(agent: &str, seq: u64) -> RemoteVersion {
    RemoteVersion { agent: agent.to_string(), seq }
}

fn root() -> RemoteVersion {
    rv("ROOT", 0)
}

fn blob(s: &str) -> DocValue {
    DocValue::Blob(s.as_bytes().to_vec())
}

fn write_op(
    agent: &str,
    seq: u64,
    succeeds: Option<u64>,
    parents: Vec<RemoteVersion>,
    key: &str,
    value: &str,
    doc_parents: Vec<RemoteVersion>,
) -> RemoteOperation {
    RemoteOperation {
        version: rv(agent, seq),
        succeeds,
        parents,
        doc_ops: vec![RemoteDocOp { id: key.to_string(), patch: blob(value), parents: doc_parents }],
    }
}

fn s1_op() -> RemoteOperation {
    write_op("A", 0, None, vec![root()], "k", "v1", vec![root()])
}

fn s2_op() -> RemoteOperation {
    write_op("A", 1, Some(0), vec![rv("A", 0)], "k", "v2", vec![rv("A", 0)])
}

fn entry(order: u64, value: &str) -> DbValueSingle {
    DbValueSingle { order, value: blob(value) }
}

fn s3_db() -> MemDb {
    let mut db = MemDb::new();
    db.apply_and_advance(&s1_op());
    let b = write_op("B", 0, None, vec![rv("A", 0)], "k", "v-b", vec![rv("A", 0)]);
    let c = write_op("C", 0, None, vec![rv("A", 0)], "k", "v-c", vec![rv("A", 0)]);
    assert_eq!(db.apply_and_advance(&b), 1);
    assert_eq!(db.apply_and_advance(&c), 2);
    db
}

#[test]
fn single_write_single_read() {
    let mut db = MemDb::new();
    let order = db.apply_and_advance(&s1_op());
    assert_eq!(order, 0);
    assert_eq!(db.view().get_cloned(&"k".to_string()), vec![entry(0, "v1")]);
    assert_eq!(*db.view().branch(), vec![0u64]);
    assert_eq!(*db.op_db().frontier(), vec![0u64]);
}

#[test]
fn sequential_overwrite() {
    let mut db = MemDb::new();
    db.apply_and_advance(&s1_op());
    assert_eq!(db.apply_and_advance(&s2_op()), 1);
    assert_eq!(db.view().get_cloned(&"k".to_string()), vec![entry(1, "v2")]);
    assert_eq!(*db.view().branch(), vec![1u64]);
    assert_eq!(*db.op_db().frontier(), vec![1u64]);
}

#[test]
fn concurrent_conflict() {
    let db = s3_db();
    assert_eq!(db.view().get_cloned(&"k".to_string()), vec![entry(1, "v-b"), entry(2, "v-c")]);
    assert_eq!(*db.view().branch(), vec![1u64, 2]);
}

#[test]
fn merge_resolves_conflict() {
    let mut db = s3_db();
    let merge = write_op(
        "A",
        1,
        Some(0),
        vec![rv("B", 0), rv("C", 0)],
        "k",
        "merged",
        vec![rv("B", 0), rv("C", 0)],
    );
    assert_eq!(db.apply_and_advance(&merge), 3);
    assert_eq!(db.view().get_cloned(&"k".to_string()), vec![entry(3, "merged")]);
    assert_eq!(*db.view().branch(), vec![3u64]);
    assert_eq!(*db.op_db().frontier(), vec![3u64]);
}

#[test]
fn round_trip_apply_unapply() {
    let mut ops = OpDb::new();
    let mut view = ViewDb::new();
    let o0 = ops.add_operation(&s1_op());
    view.apply_forwards(&ops, o0);
    let o1 = ops.add_operation(&s2_op());
    view.apply_forwards(&ops, o1);
    assert_eq!(o1, 1);
    view.apply_backwards(&ops, 1);
    assert_eq!(view.get_cloned(&"k".to_string()), vec![entry(0, "v1")]);
    assert_eq!(*view.branch(), vec![0u64]);
    view.apply_forwards(&ops, 1);
    assert_eq!(view.get_cloned(&"k".to_string()), vec![entry(1, "v2")]);
    assert_eq!(*view.branch(), vec![1u64]);
}

#[test]
fn idempotent_ingestion() {
    let mut db = MemDb::new();
    assert_eq!(db.apply_and_advance(&s1_op()), 0);
    assert_eq!(db.apply_and_advance(&s1_op()), 0);
    assert_eq!(db.op_db().len(), 1);
    assert_eq!(db.view().get_cloned(&"k".to_string()), vec![entry(0, "v1")]);
    assert_eq!(*db.view().branch(), vec![0u64]);
}

#[test]
fn unapply_to_root_removes_document() {
    let mut ops = OpDb::new();
    let mut view = ViewDb::new();
    let o0 = ops.add_operation(&s1_op());
    view.apply_forwards(&ops, o0);
    view.apply_backwards(&ops, o0);
    assert_eq!(
        view.get_cloned(&"k".to_string()),
        vec![DbValueSingle { order: ROOT_ORDER, value: DocValue::Empty }]
    );
    assert_eq!(*view.branch(), vec![ROOT_ORDER]);
}

#[test]
fn unapply_merge_restores_conflict() {
    let mut ops = OpDb::new();
    let mut view = ViewDb::new();
    for op in [
        s1_op(),
        write_op("B", 0, None, vec![rv("A", 0)], "k", "v-b", vec![rv("A", 0)]),
        write_op("C", 0, None, vec![rv("A", 0)], "k", "v-c", vec![rv("A", 0)]),
        write_op("A", 1, Some(0), vec![rv("B", 0), rv("C", 0)], "k", "m", vec![rv("B", 0), rv("C", 0)]),
    ] {
        let o = ops.add_operation(&op);
        view.apply_forwards(&ops, o);
    }
    assert_eq!(*view.branch(), vec![3u64]);
    view.apply_backwards(&ops, 3);
    assert_eq!(*view.branch(), vec![1u64, 2]);
    assert_eq!(view.get_cloned(&"k".to_string()), vec![entry(1, "v-b"), entry(2, "v-c")]);
}

#[test]
fn untouched_document_reads_root_value() {
    let db = s3_db();
    assert_eq!(
        db.view().get_cloned(&"other".to_string()),
        vec![DbValueSingle { order: ROOT_ORDER, value: DocValue::Empty }]
    );
}

#[test]
fn branch_versions_and_remote_versions() {
    let db = s3_db();
    let ops = db.op_db();
    let versions = db.view().branch_as_versions(ops);
    assert_eq!(versions, vec![LocalVersion { agent: 1, seq: 0 }, LocalVersion { agent: 2, seq: 0 }]);
    assert_eq!(ops.order_to_remote_version(2), rv("C", 0));
    assert_eq!(ops.order_to_remote_version(ROOT_ORDER), root());
    assert_eq!(ops.order_to_version(ROOT_ORDER), LocalVersion { agent: u32::MAX, seq: 0 });
}

#[test]
fn unapply_restores_entries_sorted_by_order() {
    let mut ops = OpDb::new();
    let mut view = ViewDb::new();
    for op in [
        s1_op(),
        write_op("B", 0, None, vec![rv("A", 0)], "k", "a", vec![rv("A", 0)]),
        write_op("C", 0, None, vec![rv("A", 0)], "k", "b", vec![rv("A", 0)]),
        // The merge names its document parents in descending order.
        write_op("D", 0, None, vec![rv("C", 0), rv("B", 0)], "k", "m", vec![rv("C", 0), rv("B", 0)]),
    ] {
        let o = ops.add_operation(&op);
        view.apply_forwards(&ops, o);
    }
    assert_eq!(view.get_cloned(&"k".to_string()), vec![entry(3, "m")]);
    view.apply_backwards(&ops, 3);
    assert_eq!(view.get_cloned(&"k".to_string()), vec![entry(1, "a"), entry(2, "b")]);
    view.apply_forwards(&ops, 3);
    assert_eq!(view.get_cloned(&"k".to_string()), vec![entry(3, "m")]);
}
