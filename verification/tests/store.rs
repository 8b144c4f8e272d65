use gitmeta::error::Error;
use gitmeta::object_id::ObjectId;
use gitmeta::refname::RefName;
use gitmeta::refs::{Expected, RefEdit, Reference, Target};
use gitmeta::store::RefStore;
use gitmeta::time::Time;

fn id(n: u8) -> ObjectId {
    ObjectId::from_bytes(vec![n; 20]).unwrap()
}

fn name(text: &str) -> RefName {
    RefName::new(text).unwrap()
}

fn now() -> Time {
    Time::new(1660874655, 7200)
}

fn set(text: &str, expected: Expected, target: Target) -> RefEdit {
    RefEdit {
        name: name(text),
        expected,
        new_target: Some(target),
        log_message: format!("update: {}", text),
        write_reflog: true,
        delete_reflog: false,
    }
}

fn delete(text: &str, expected: Expected, delete_reflog: bool) -> RefEdit {
    RefEdit {
        name: name(text),
        expected,
        new_target: None,
        log_message: String::new(),
        write_reflog: true,
        delete_reflog,
    }
}

#[test]
fn new_store_is_empty() {
    let store = RefStore::new(5);
    assert_eq!(store.max_depth(), 5);
    assert!(store.find("HEAD").is_none());
    assert!(store.references().is_empty());
    assert!(store.log("refs/heads/main").is_empty());
    assert!(store.head_ref().is_none());
}

#[test]
fn transaction_writes_each_edit() {
    let mut store = RefStore::new(5);
    let edits = vec![
        set("refs/heads/main", Expected::MustNotExist, Target::Direct(id(1))),
        set("refs/tags/v1", Expected::Any, Target::Direct(id(2))),
        set("HEAD", Expected::Any, Target::Symbolic(name("refs/heads/main"))),
    ];
    let written = store.apply_transaction(edits, now()).unwrap();
    assert_eq!(written.len(), 3);
    assert_eq!(
        written[0],
        Reference { name: name("refs/heads/main"), target: Target::Direct(id(1)) }
    );
    assert_eq!(written[1], Reference { name: name("refs/tags/v1"), target: Target::Direct(id(2)) });
    assert_eq!(
        written[2],
        Reference { name: name("HEAD"), target: Target::Symbolic(name("refs/heads/main")) }
    );
    assert_eq!(store.find("refs/heads/main").unwrap().target, Target::Direct(id(1)));
    assert_eq!(store.find("refs/tags/v1").unwrap().target, Target::Direct(id(2)));
    assert_eq!(store.find("HEAD").unwrap().target, Target::Symbolic(name("refs/heads/main")));
    assert_eq!(store.references().len(), 3);
}

#[test]
fn failed_edit_leaves_no_edit_of_the_batch() {
    for failing in 0..3usize {
        let mut store = RefStore::new(5);
        store
            .apply_transaction(
                vec![set("refs/heads/taken", Expected::Any, Target::Direct(id(9)))],
                now(),
            )
            .unwrap();
        let mut edits = Vec::new();
        for k in 0..3usize {
            if k == failing {
                edits.push(set("refs/heads/taken", Expected::MustNotExist, Target::Direct(id(7))));
            } else {
                let text = format!("refs/heads/new{}", k);
                edits.push(set(&text, Expected::MustNotExist, Target::Direct(id(k as u8 + 1))));
            }
        }
        let outcome = store.apply_transaction(edits, now());
        assert_eq!(outcome.unwrap_err(), Error::PreconditionFailed);
        assert_eq!(store.references().len(), 1);
        assert_eq!(store.find("refs/heads/taken").unwrap().target, Target::Direct(id(9)));
        for k in 0..3usize {
            let text = format!("refs/heads/new{}", k);
            assert!(store.find(&text).is_none());
            assert!(store.log(&text).is_empty());
        }
        assert_eq!(store.log("refs/heads/taken").len(), 1);
    }
}

#[test]
fn failed_last_edit_of_two_changes_nothing() {
    let mut store = RefStore::new(5);
    let edits = vec![
        set("refs/heads/a", Expected::Any, Target::Direct(id(1))),
        set("refs/heads/b", Expected::MustExistAndMatch(id(2)), Target::Direct(id(3))),
    ];
    assert_eq!(store.apply_transaction(edits, now()).unwrap_err(), Error::PreconditionFailed);
    assert!(store.find("refs/heads/a").is_none());
    assert!(store.find("refs/heads/b").is_none());
    assert!(store.log("refs/heads/a").is_empty());
}

#[test]
fn two_edits_of_one_name_are_invalid() {
    let mut store = RefStore::new(5);
    let edits = vec![
        set("refs/heads/a", Expected::Any, Target::Direct(id(1))),
        set("refs/heads/b", Expected::Any, Target::Direct(id(2))),
        set("refs/heads/a", Expected::Any, Target::Direct(id(3))),
    ];
    assert_eq!(store.apply_transaction(edits, now()).unwrap_err(), Error::InvalidInput);
    assert!(store.references().is_empty());
}

#[test]
fn invalid_input_comes_before_failed_precondition() {
    let mut store = RefStore::new(5);
    let edits = vec![
        set("refs/heads/a", Expected::MustExistAndMatch(id(1)), Target::Direct(id(1))),
        set("refs/heads/a", Expected::Any, Target::Direct(id(3))),
    ];
    assert_eq!(store.apply_transaction(edits, now()).unwrap_err(), Error::InvalidInput);
}

#[test]
fn empty_transaction_succeeds() {
    let mut store = RefStore::new(5);
    let written = store.apply_transaction(Vec::new(), now()).unwrap();
    assert!(written.is_empty());
    assert!(store.references().is_empty());
}

#[test]
fn create_twice_fails_then_overwrite_logs_once() {
    let mut store = RefStore::new(5);
    let create = || vec![set("refs/heads/test", Expected::MustNotExist, Target::Direct(id(4)))];
    store.apply_transaction(create(), now()).unwrap();
    assert_eq!(store.log("refs/heads/test").len(), 1);
    assert_eq!(store.apply_transaction(create(), now()).unwrap_err(), Error::PreconditionFailed);
    assert_eq!(store.log("refs/heads/test").len(), 1);
    let overwrite = vec![set("refs/heads/test", Expected::Any, Target::Direct(id(4)))];
    let later = Time::new(1660874700, 0);
    store.apply_transaction(overwrite, later).unwrap();
    let log = store.log("refs/heads/test");
    assert_eq!(log.len(), 2);
    assert_eq!(log[0].old, None);
    assert_eq!(log[0].new, id(4));
    assert_eq!(log[0].timestamp, now());
    assert_eq!(log[1].old, Some(id(4)));
    assert_eq!(log[1].new, id(4));
    assert_eq!(log[1].message, "update: refs/heads/test");
    assert_eq!(log[1].timestamp, later);
}

#[test]
fn must_exist_and_match_compares_the_direct_target() {
    let mut store = RefStore::new(5);
    store
        .apply_transaction(vec![set("refs/heads/a", Expected::Any, Target::Direct(id(1)))], now())
        .unwrap();
    let wrong = vec![set("refs/heads/a", Expected::MustExistAndMatch(id(2)), Target::Direct(id(3)))];
    assert_eq!(store.apply_transaction(wrong, now()).unwrap_err(), Error::PreconditionFailed);
    let absent = vec![set("refs/heads/b", Expected::MustExistAndMatch(id(1)), Target::Direct(id(3)))];
    assert_eq!(store.apply_transaction(absent, now()).unwrap_err(), Error::PreconditionFailed);
    let right = vec![set("refs/heads/a", Expected::MustExistAndMatch(id(1)), Target::Direct(id(3)))];
    store.apply_transaction(right, now()).unwrap();
    assert_eq!(store.find("refs/heads/a").unwrap().target, Target::Direct(id(3)));
}

#[test]
fn must_exist_and_match_fails_on_a_symbolic_reference() {
    let mut store = RefStore::new(5);
    store
        .apply_transaction(
            vec![set("HEAD", Expected::Any, Target::Symbolic(name("refs/heads/a")))],
            now(),
        )
        .unwrap();
    let edit = vec![set("HEAD", Expected::MustExistAndMatch(id(1)), Target::Direct(id(1)))];
    assert_eq!(store.apply_transaction(edit, now()).unwrap_err(), Error::PreconditionFailed);
}

#[test]
fn must_exist_and_match_symbolic_compares_the_name() {
    let mut store = RefStore::new(5);
    store
        .apply_transaction(
            vec![set("HEAD", Expected::Any, Target::Symbolic(name("refs/heads/a")))],
            now(),
        )
        .unwrap();
    let wrong = vec![set(
        "HEAD",
        Expected::MustExistAndMatchSymbolic(name("refs/heads/b")),
        Target::Symbolic(name("refs/heads/c")),
    )];
    assert_eq!(store.apply_transaction(wrong, now()).unwrap_err(), Error::PreconditionFailed);
    let right = vec![set(
        "HEAD",
        Expected::MustExistAndMatchSymbolic(name("refs/heads/a")),
        Target::Symbolic(name("refs/heads/c")),
    )];
    store.apply_transaction(right, now()).unwrap();
    assert_eq!(store.find("HEAD").unwrap().target, Target::Symbolic(name("refs/heads/c")));
}

#[test]
fn expectations_are_held_against_the_state_before() {
    let mut store = RefStore::new(5);
    let edits = vec![
        set("refs/heads/a", Expected::MustNotExist, Target::Direct(id(1))),
        set("refs/heads/b", Expected::MustNotExist, Target::Direct(id(2))),
    ];
    store.apply_transaction(edits, now()).unwrap();
    let swap = vec![
        set("refs/heads/a", Expected::MustExistAndMatch(id(1)), Target::Direct(id(2))),
        set("refs/heads/b", Expected::MustExistAndMatch(id(2)), Target::Direct(id(1))),
    ];
    store.apply_transaction(swap, now()).unwrap();
    assert_eq!(store.find("refs/heads/a").unwrap().target, Target::Direct(id(2)));
    assert_eq!(store.find("refs/heads/b").unwrap().target, Target::Direct(id(1)));
}

#[test]
fn deletion_keeps_the_log() {
    let mut store = RefStore::new(5);
    store
        .apply_transaction(vec![set("refs/heads/a", Expected::Any, Target::Direct(id(1)))], now())
        .unwrap();
    let written = store
        .apply_transaction(
            vec![delete("refs/heads/a", Expected::MustExistAndMatch(id(1)), false)],
            now(),
        )
        .unwrap();
    assert!(written.is_empty());
    assert!(store.find("refs/heads/a").is_none());
    assert_eq!(store.log("refs/heads/a").len(), 1);
    store
        .apply_transaction(vec![set("refs/heads/a", Expected::MustNotExist, Target::Direct(id(2)))], now())
        .unwrap();
    let log = store.log("refs/heads/a");
    assert_eq!(log.len(), 2);
    assert_eq!(log[1].old, None);
    assert_eq!(log[1].new, id(2));
}

#[test]
fn deletion_drops_the_log_on_request() {
    let mut store = RefStore::new(5);
    store
        .apply_transaction(vec![set("refs/heads/a", Expected::Any, Target::Direct(id(1)))], now())
        .unwrap();
    store.apply_transaction(vec![delete("refs/heads/a", Expected::Any, true)], now()).unwrap();
    assert!(store.find("refs/heads/a").is_none());
    assert!(store.log("refs/heads/a").is_empty());
}

#[test]
fn deletion_of_a_missing_reference_fails_its_expectation() {
    let mut store = RefStore::new(5);
    let edit = vec![delete("refs/heads/a", Expected::MustExistAndMatch(id(1)), false)];
    assert_eq!(store.apply_transaction(edit, now()).unwrap_err(), Error::PreconditionFailed);
    store.apply_transaction(vec![delete("refs/heads/a", Expected::Any, false)], now()).unwrap();
    assert!(store.references().is_empty());
}

#[test]
fn symbolic_update_writes_no_log() {
    let mut store = RefStore::new(5);
    store
        .apply_transaction(
            vec![set("HEAD", Expected::Any, Target::Symbolic(name("refs/heads/a")))],
            now(),
        )
        .unwrap();
    assert!(store.log("HEAD").is_empty());
}

#[test]
fn log_is_written_only_on_request() {
    let mut store = RefStore::new(5);
    let mut edit = set("refs/heads/a", Expected::Any, Target::Direct(id(1)));
    edit.write_reflog = false;
    store.apply_transaction(vec![edit], now()).unwrap();
    assert!(store.log("refs/heads/a").is_empty());
    assert_eq!(store.find("refs/heads/a").unwrap().target, Target::Direct(id(1)));
}

#[test]
fn log_entry_names_the_previous_object() {
    let mut store = RefStore::new(5);
    store
        .apply_transaction(vec![set("refs/heads/a", Expected::Any, Target::Direct(id(1)))], now())
        .unwrap();
    store
        .apply_transaction(vec![set("refs/heads/a", Expected::Any, Target::Direct(id(2)))], now())
        .unwrap();
    store
        .apply_transaction(
            vec![set("refs/heads/a", Expected::Any, Target::Symbolic(name("refs/heads/b")))],
            now(),
        )
        .unwrap();
    store
        .apply_transaction(vec![set("refs/heads/a", Expected::Any, Target::Direct(id(3)))], now())
        .unwrap();
    let log = store.log("refs/heads/a");
    assert_eq!(log.len(), 3);
    assert_eq!((log[0].old.clone(), log[0].new.clone()), (None, id(1)));
    assert_eq!((log[1].old.clone(), log[1].new.clone()), (Some(id(1)), id(2)));
    assert_eq!((log[2].old.clone(), log[2].new.clone()), (None, id(3)));
}

#[test]
fn resolve_follows_symbolic_references() {
    let mut store = RefStore::new(2);
    let edits = vec![
        set("refs/heads/main", Expected::Any, Target::Direct(id(1))),
        set("refs/heads/alias", Expected::Any, Target::Symbolic(name("refs/heads/main"))),
        set("HEAD", Expected::Any, Target::Symbolic(name("refs/heads/alias"))),
    ];
    store.apply_transaction(edits, now()).unwrap();
    assert_eq!(store.resolve("refs/heads/main").unwrap(), id(1));
    assert_eq!(store.resolve("refs/heads/alias").unwrap(), id(1));
    assert_eq!(store.resolve("HEAD").unwrap(), id(1));
}

#[test]
fn resolve_stops_at_the_depth_bound() {
    let mut store = RefStore::new(1);
    let edits = vec![
        set("refs/heads/main", Expected::Any, Target::Direct(id(1))),
        set("refs/heads/alias", Expected::Any, Target::Symbolic(name("refs/heads/main"))),
        set("HEAD", Expected::Any, Target::Symbolic(name("refs/heads/alias"))),
    ];
    store.apply_transaction(edits, now()).unwrap();
    assert_eq!(store.resolve("refs/heads/alias").unwrap(), id(1));
    assert_eq!(store.resolve("HEAD").unwrap_err(), Error::GraphInconsistency);
    let mut none = RefStore::new(0);
    none.apply_transaction(vec![
            set("refs/heads/main", Expected::Any, Target::Direct(id(1))),
            set("HEAD", Expected::Any, Target::Symbolic(name("refs/heads/main"))),
        ],
        now(),
    )
    .unwrap();
    assert_eq!(none.resolve("refs/heads/main").unwrap(), id(1));
    assert_eq!(none.resolve("HEAD").unwrap_err(), Error::GraphInconsistency);
}

#[test]
fn symbolic_cycle_is_inconsistent() {
    let mut store = RefStore::new(5);
    let edits = vec![
        set("refs/heads/a", Expected::Any, Target::Symbolic(name("refs/heads/b"))),
        set("refs/heads/b", Expected::Any, Target::Symbolic(name("refs/heads/a"))),
    ];
    store.apply_transaction(edits, now()).unwrap();
    assert_eq!(store.resolve("refs/heads/a").unwrap_err(), Error::GraphInconsistency);
    assert_eq!(store.resolve("refs/heads/b").unwrap_err(), Error::GraphInconsistency);
}

#[test]
fn symbolic_self_reference_is_inconsistent() {
    let mut store = RefStore::new(64);
    store
        .apply_transaction(
            vec![set("refs/heads/a", Expected::Any, Target::Symbolic(name("refs/heads/a")))],
            now(),
        )
        .unwrap();
    assert_eq!(store.resolve("refs/heads/a").unwrap_err(), Error::GraphInconsistency);
}

#[test]
fn resolve_of_a_missing_name_is_not_found() {
    let mut store = RefStore::new(5);
    assert_eq!(store.resolve("refs/heads/a").unwrap_err(), Error::NotFound);
    store
        .apply_transaction(
            vec![set("HEAD", Expected::Any, Target::Symbolic(name("refs/heads/unborn")))],
            now(),
        )
        .unwrap();
    assert_eq!(store.resolve("HEAD").unwrap_err(), Error::NotFound);
}

#[test]
fn head_ref_is_the_reference_head_names() {
    let mut store = RefStore::new(5);
    store
        .apply_transaction(
            vec![set("HEAD", Expected::Any, Target::Symbolic(name("refs/heads/main")))],
            now(),
        )
        .unwrap();
    assert!(store.head_ref().is_none());
    store
        .apply_transaction(vec![set("refs/heads/main", Expected::Any, Target::Direct(id(1)))], now())
        .unwrap();
    let head = store.head_ref().unwrap();
    assert_eq!(head.name, name("refs/heads/main"));
    assert_eq!(head.target, Target::Direct(id(1)));
    store.apply_transaction(vec![set("HEAD", Expected::Any, Target::Direct(id(1)))], now()).unwrap();
    assert!(store.head_ref().is_none());
}

#[test]
fn references_lists_each_reference_once() {
    let mut store = RefStore::new(5);
    let edits = vec![
        set("refs/heads/b", Expected::Any, Target::Direct(id(2))),
        set("refs/heads/a", Expected::Any, Target::Direct(id(1))),
        set("refs/tags/v", Expected::Any, Target::Direct(id(3))),
    ];
    store.apply_transaction(edits, now()).unwrap();
    store.apply_transaction(vec![delete("refs/heads/a", Expected::Any, false)], now()).unwrap();
    store
        .apply_transaction(vec![set("refs/heads/b", Expected::Any, Target::Direct(id(4)))], now())
        .unwrap();
    let all = store.references();
    assert_eq!(all.len(), 2);
    assert_eq!(all[0], Reference { name: name("refs/heads/b"), target: Target::Direct(id(4)) });
    assert_eq!(all[1], Reference { name: name("refs/tags/v"), target: Target::Direct(id(3)) });
    let again = store.references();
    assert_eq!(all, again);
}
