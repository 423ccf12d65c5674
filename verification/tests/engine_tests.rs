use regbatch::registry::RegBatch;
use regbatch::registry::RegError;
use regbatch::registry::RegKeyMode;
use regbatch::registry::RegOp;
use regbatch::registry::RegValue;
use regbatch::registry::register;
use regbatch::registry::registry_batch;
use regbatch::registry::unregister;
use regbatch::store::StoreNode;
use regbatch::winstr::WinStr;

const CLSID_PATH: &str = "SOFTWARE\\Classes\\CLSID\\{96D16936-E510-4EA4-8EE8-BC9C0BD7057B}";
const HANDLER_PATH: &str =
    "SOFTWARE\\Classes\\Directory\\ShellEx\\DragDropHandlers\\Drop for Symlink";
const APPROVED_PATH: &str =
    "SOFTWARE\\Microsoft\\Windows\\CurrentVersion\\Shell Extensions\\Approved";
const CLASS_STR: &str = "{96D16936-E510-4EA4-8EE8-BC9C0BD7057B}";

fn w(s: &str) -> WinStr {
    WinStr::from_str(s)
}

/// A store holding only the pre-existing approved-extensions list, which the
/// registration batch opens rather than creates.
fn store_with_approved() -> StoreNode {
    StoreNode::new().set_child(&w(APPROVED_PATH), StoreNode::new())
}

fn assert_fully_registered(store: &StoreNode, path: &WinStr) {
    let a = store.child(&w(CLSID_PATH)).unwrap();
    assert!(a.value_is_text(&None, &w("Drop for Symlink Factory")));
    let srv = a.child(&w("InProcServer32")).unwrap();
    assert!(srv.value_is_text(&None, path));
    assert!(srv.value_is_text(&Some(w("ThreadingModel")), &w("Apartment")));
    let h = store.child(&w(HANDLER_PATH)).unwrap();
    assert!(h.value_is_text(&None, &w(CLASS_STR)));
    let ap = store.child(&w(APPROVED_PATH)).unwrap();
    assert!(ap.value_is_text(&Some(w(CLASS_STR)), &w("Drop for Symlink")));
}

#[test]
fn apply_registration_batch_fills_the_store() {
    let path = w("C:\\files\\handler.dll");
    let (store, err) = registry_batch(&path).apply(store_with_approved());
    assert!(err.is_none());
    assert_fully_registered(&store, &path);
}

#[test]
fn reapplying_the_same_batch_overwrites_without_duplicating() {
    let path = w("C:\\files\\handler.dll");
    let (store, err) = registry_batch(&path).apply(store_with_approved());
    assert!(err.is_none());
    let (store, err2) = registry_batch(&path).apply(store);
    assert!(err2.is_none());
    assert_fully_registered(&store, &path);
}

#[test]
fn register_reports_zero_on_success() {
    let path = w("C:\\files\\handler.dll");
    let (store, code) = register(&registry_batch(&path), store_with_approved());
    assert_eq!(code, 0);
    assert_fully_registered(&store, &path);
}

#[test]
fn register_failure_reports_code_and_rolls_back() {
    // a write-protected node stands where the batch would create its
    // drag-and-drop handler entry, so apply fails there after the class
    // entry was already written
    let path = w("C:\\files\\handler.dll");
    let store = store_with_approved().set_child(&w(HANDLER_PATH), StoreNode::new().with_readonly());
    let (store, code) = register(&registry_batch(&path), store);
    assert_eq!(code, 5);
    // the class entry and everything under it is gone again
    assert!(!store.has_child(&w(CLSID_PATH)));
    // the protected marker itself is left in place
    assert!(store.has_child(&w(HANDLER_PATH)));
    // the approved list was never reached and holds nothing
    let ap = store.child(&w(APPROVED_PATH)).unwrap();
    assert!(!ap.has_value(&Some(w(CLASS_STR))));
    assert!(ap.is_empty());
}

#[test]
fn unregister_on_empty_store_reports_success_and_leaves_nothing() {
    let path = w("C:\\files\\handler.dll");
    let (store, code) = unregister(&registry_batch(&path), StoreNode::new());
    assert_eq!(code, 0);
    assert!(store.is_empty());
}

#[test]
fn rollback_after_success_restores_the_initial_store() {
    let path = w("C:\\files\\handler.dll");
    let (store, err) = registry_batch(&path).apply(store_with_approved());
    assert!(err.is_none());
    // a freshly built, structurally identical batch rolls everything back
    let (store, code) = unregister(&registry_batch(&path), store);
    assert_eq!(code, 0);
    assert!(!store.has_child(&w(CLSID_PATH)));
    assert!(!store.has_child(&w(HANDLER_PATH)));
    // the opened (pre-existing) node is never deleted, only emptied
    let ap = store.child(&w(APPROVED_PATH)).unwrap();
    assert!(ap.is_empty());
}

#[test]
fn rollback_deletes_named_value_but_keeps_opened_node() {
    let approved = w("approved");
    let setup = RegBatch {
        operations: vec![RegOp::Key {
            mode: RegKeyMode::Create,
            name: approved.dup(),
            operations: vec![],
        }],
    };
    let (store, err) = setup.apply(StoreNode::new());
    assert!(err.is_none());
    let writes = || RegBatch {
        operations: vec![RegOp::Key {
            mode: RegKeyMode::Open,
            name: approved.dup(),
            operations: vec![RegOp::Value(Some(w("entry")), RegValue::of_str("name"))],
        }],
    };
    let (store, err) = writes().apply(store);
    assert!(err.is_none());
    {
        let ap = store.child(&approved).unwrap();
        assert!(ap.value_is_text(&Some(w("entry")), &w("name")));
    }
    let store = writes().unapply(store);
    // the value is gone, the node itself stays
    let ap = store.child(&approved).unwrap();
    assert!(ap.is_empty());
}

/// A batch whose apply fails two levels down, at an `Open` of a node that
/// does not exist; the sibling after the failing branch is never reached.
fn deep_failing_batch() -> RegBatch {
    RegBatch {
        operations: vec![
            RegOp::Key {
                mode: RegKeyMode::Create,
                name: w("a"),
                operations: vec![
                    RegOp::Value(Some(w("x")), RegValue::of_str("1")),
                    RegOp::Key {
                        mode: RegKeyMode::Create,
                        name: w("b"),
                        operations: vec![
                            RegOp::Value(None, RegValue::of_str("v")),
                            RegOp::Key { mode: RegKeyMode::Open, name: w("missing"), operations: vec![] },
                        ],
                    },
                ],
            },
            RegOp::Value(Some(w("y")), RegValue::of_str("never")),
        ],
    }
}

#[test]
fn failure_at_depth_keeps_shallower_writes_until_rollback() {
    let (store, err) = deep_failing_batch().apply(StoreNode::new());
    assert_eq!(err, Some(RegError::NotFound));
    // everything up to the failure point is in the store
    {
        let a = store.child(&w("a")).unwrap();
        assert!(a.value_is_text(&Some(w("x")), &w("1")));
        let b = a.child(&w("b")).unwrap();
        assert!(b.value_is_text(&None, &w("v")));
    }
    // the sibling after the failing branch was never applied
    assert!(!store.has_value(&Some(w("y"))));
    // one rollback of the same abstract tree empties the store again
    let store = deep_failing_batch().unapply(store);
    assert!(store.is_empty());
}

#[test]
fn rollback_twice_ends_like_rollback_once() {
    // a pre-existing node holds an unrelated value, so rollback cannot
    // delete the node itself; running it again changes nothing further
    let keep = RegBatch {
        operations: vec![RegOp::Key {
            mode: RegKeyMode::Create,
            name: w("a"),
            operations: vec![RegOp::Value(Some(w("keep")), RegValue::of_str("mine"))],
        }],
    };
    let (store, err) = keep.apply(StoreNode::new());
    assert!(err.is_none());
    let writes = || RegBatch {
        operations: vec![RegOp::Key {
            mode: RegKeyMode::Create,
            name: w("a"),
            operations: vec![RegOp::Value(Some(w("x")), RegValue::of_str("1"))],
        }],
    };
    let (store, err) = writes().apply(store);
    assert!(err.is_none());
    let once = writes().unapply(store);
    {
        let a = once.child(&w("a")).unwrap();
        assert!(a.value_is_text(&Some(w("keep")), &w("mine")));
        assert!(!a.has_value(&Some(w("x"))));
    }
    let twice = writes().unapply(once);
    let a = twice.child(&w("a")).unwrap();
    assert!(a.value_is_text(&Some(w("keep")), &w("mine")));
    assert!(!a.has_value(&Some(w("x"))));
}

#[test]
fn siblings_apply_in_declared_order() {
    let batch = RegBatch {
        operations: vec![
            RegOp::Value(Some(w("n")), RegValue::of_str("first")),
            RegOp::Value(Some(w("n")), RegValue::of_str("second")),
        ],
    };
    let (store, err) = batch.apply(StoreNode::new());
    assert!(err.is_none());
    // the later sibling wrote last
    assert!(store.value_is_text(&Some(w("n")), &w("second")));
}

#[test]
fn siblings_roll_back_in_reverse_declared_order() {
    let setup = RegBatch {
        operations: vec![RegOp::Key {
            mode: RegKeyMode::Create,
            name: w("k"),
            operations: vec![RegOp::Value(Some(w("x")), RegValue::of_str("v"))],
        }],
    };
    let (store, err) = setup.apply(StoreNode::new());
    assert!(err.is_none());
    // rolled back in reverse order, the `Create` sibling runs first and
    // finds the node still holding `x`, so it cannot delete it; the `Open`
    // sibling then removes `x` but never deletes the node.  (Forward order
    // would have emptied and deleted the node.)
    let batch = RegBatch {
        operations: vec![
            RegOp::Key {
                mode: RegKeyMode::Open,
                name: w("k"),
                operations: vec![RegOp::Value(Some(w("x")), RegValue::of_str("v"))],
            },
            RegOp::Key { mode: RegKeyMode::Create, name: w("k"), operations: vec![] },
        ],
    };
    let store = batch.unapply(store);
    let k = store.child(&w("k")).unwrap();
    assert!(k.is_empty());
}

#[test]
fn default_and_named_values_are_independent() {
    let store = StoreNode::new()
        .set_value(&None, &RegValue::of_str("default one"))
        .set_value(&Some(w("n")), &RegValue::of_str("named one"));
    assert!(store.value_is_text(&None, &w("default one")));
    assert!(store.value_is_text(&Some(w("n")), &w("named one")));
    // overwriting the default leaves the named value alone
    let store = store.set_value(&None, &RegValue::of_str("default two"));
    assert!(store.value_is_text(&Some(w("n")), &w("named one")));
    // deleting the named value leaves the default alone
    let store = store.delete_value(&Some(w("n")));
    assert!(store.value_is_text(&None, &w("default two")));
    assert!(!store.has_value(&Some(w("n"))));
    // and deleting the default leaves other named values alone
    let store = store.set_value(&Some(w("m")), &RegValue::of_str("kept"));
    let store = store.delete_value(&None);
    assert!(!store.has_value(&None));
    assert!(store.value_is_text(&Some(w("m")), &w("kept")));
}

#[test]
fn open_of_missing_node_fails_with_not_found() {
    let batch = RegBatch {
        operations: vec![RegOp::Key { mode: RegKeyMode::Open, name: w("nope"), operations: vec![] }],
    };
    let (store, err) = batch.apply(StoreNode::new());
    assert_eq!(err, Some(RegError::NotFound));
    assert!(store.is_empty());
    let (_, code) = register(&batch, StoreNode::new());
    assert_eq!(code, 2);
}

#[test]
fn write_on_protected_node_fails_with_permission_denied() {
    let batch = RegBatch {
        operations: vec![RegOp::Value(None, RegValue::of_str("anything"))],
    };
    let (_, err) = batch.apply(StoreNode::new().with_readonly());
    assert_eq!(err, Some(RegError::PermissionDenied));
}

#[test]
fn error_codes_are_the_store_conventions() {
    assert_eq!(RegError::NotFound.code(), 2);
    assert_eq!(RegError::PermissionDenied.code(), 5);
    assert_eq!(RegError::NotEmpty.code(), 145);
}
