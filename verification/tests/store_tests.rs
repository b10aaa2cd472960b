use imagstore::entry::{Entry, SpecEntry};
use vstd::prelude::Seq;
use imagstore::error::{store_error_type_as_str, StoreError, StoreErrorKind};
use imagstore::hook::{Hook, HookPosition, NoopHook};
use imagstore::store::Store;
use imagstore::storeid::StoreId;
use imagstore::value::Value;

/// A test hook: accepts or rejects, and tags entry content so that execution
/// order is observable.
enum TestHook {
    Accept,
    AppendContent(&'static str),
    FailEntry(&'static str),
    RejectId,
}

impl Hook for TestHook {
    // the specification members are ghost code; outside the verifier they are
    // never called
    fn spec_hook_name(&self) -> Seq<char> {
        panic!()
    }

    fn with_config(&self, _config: imagstore::value::SpecValue) -> TestHook {
        panic!()
    }

    fn id_ok(&self, _id: Seq<char>) -> bool {
        panic!()
    }

    fn id_err_kind(&self, _id: Seq<char>) -> StoreErrorKind {
        panic!()
    }

    fn entry_map(&self, _e: SpecEntry) -> SpecEntry {
        panic!()
    }

    fn entry_ok(&self, _e: SpecEntry) -> bool {
        panic!()
    }

    fn entry_err_kind(&self, _e: SpecEntry) -> StoreErrorKind {
        panic!()
    }

    fn hook_name(&self) -> String {
        String::from("testhook")
    }

    fn set_config(&mut self, _config: &Value) {}

    fn access_id(&self, _id: &StoreId) -> Result<(), StoreError> {
        match self {
            TestHook::RejectId => Err(StoreError::new(StoreErrorKind::HookExecutionError, None)),
            _ => Ok(()),
        }
    }

    fn access_mut(&self, e: &mut Entry) -> Result<(), StoreError> {
        match self {
            TestHook::AppendContent(tag) => {
                e.get_content_mut().push_str(tag);
                Ok(())
            },
            TestHook::FailEntry(tag) => {
                e.get_content_mut().push_str(tag);
                Err(StoreError::new(StoreErrorKind::HookExecutionError, None))
            },
            _ => Ok(()),
        }
    }
}

fn aspect_config(keys: Vec<(&str, &str)>) -> Option<Value> {
    let entries = keys
        .into_iter()
        .map(|(point, name)| {
            (String::from(point), Value::Array(vec![Value::Str(String::from(name))]))
        })
        .collect();
    Some(Value::Table(entries))
}

#[test]
fn borrow_exclusivity() {
    let mut store: Store<NoopHook> = Store::new(String::from("/store"), None).unwrap();

    let fle = store.create(String::from("a/b~1.0.0")).unwrap();
    let second = store.retrieve(String::from("a/b~1.0.0"));
    assert!(second.is_err());
    assert_eq!(second.err().unwrap().err_type(), StoreErrorKind::EntryAlreadyBorrowed);

    store.release(fle);
    let third = store.retrieve(String::from("a/b~1.0.0"));
    assert!(third.is_ok());
    store.release(third.unwrap());
}

#[test]
fn create_twice_fails() {
    let mut store: Store<NoopHook> = Store::new(String::from("/store"), None).unwrap();

    let fle = store.create(String::from("a/b~1.0.0")).unwrap();
    let again = store.create(String::from("a/b~1.0.0"));
    assert!(again.is_err());
    assert_eq!(again.err().unwrap().err_type(), StoreErrorKind::EntryAlreadyExists);
    store.release(fle);
}

#[test]
fn delete_safety_while_borrowed() {
    let mut store: Store<NoopHook> = Store::new(String::from("/store"), None).unwrap();

    // create and flush, so a file exists
    let fle = store.create(String::from("a/b~1.0.0")).unwrap();
    store.release(fle);
    assert_eq!(store.files().len(), 1);
    let file_before = store.files()[0].clone();

    // borrow again, then try to delete
    let fle = store.retrieve(String::from("a/b~1.0.0")).unwrap();
    let r = store.delete(String::from("a/b~1.0.0"));
    assert!(r.is_err());
    assert_eq!(r.err().unwrap().err_type(), StoreErrorKind::IdLocked);

    // the file is untouched
    assert_eq!(store.files().len(), 1);
    assert_eq!(store.files()[0], file_before);

    // after release, deletion succeeds and removes the file
    store.release(fle);
    assert!(store.delete(String::from("a/b~1.0.0")).is_ok());
    assert_eq!(store.files().len(), 0);
}

#[test]
fn delete_of_missing_file_is_an_error() {
    let mut store: Store<NoopHook> = Store::new(String::from("/store"), None).unwrap();
    let r = store.delete(String::from("a/b~1.0.0"));
    assert!(r.is_err());
    assert_eq!(r.err().unwrap().err_type(), StoreErrorKind::FileError);
}

#[test]
fn hook_ordering_under_one_aspect() {
    let cfg = aspect_config(vec![("post-create-aspects", "order")]);
    let mut store: Store<TestHook> = Store::new(String::from("/store"), cfg).unwrap();

    store.register_hook(HookPosition::PostCreate, &String::from("order"), TestHook::AppendContent("1")).unwrap();
    store.register_hook(HookPosition::PostCreate, &String::from("order"), TestHook::AppendContent("2")).unwrap();
    store.register_hook(HookPosition::PostCreate, &String::from("order"), TestHook::AppendContent("3")).unwrap();

    let fle = store.create(String::from("a/b~1.0.0")).unwrap();
    assert_eq!(fle.get_entry().get_content(), "123");
    store.release(fle);
}

#[test]
fn hook_failure_short_circuits_and_wraps_the_cause() {
    let cfg = aspect_config(vec![
        ("post-create-aspects", "order"),
        ("pre-update-aspects", "order"),
    ]);
    let mut store: Store<TestHook> = Store::new(String::from("/store"), cfg).unwrap();

    store.register_hook(HookPosition::PostCreate, &String::from("order"), TestHook::AppendContent("1")).unwrap();
    store.register_hook(HookPosition::PostCreate, &String::from("order"), TestHook::FailEntry("2")).unwrap();
    store.register_hook(HookPosition::PostCreate, &String::from("order"), TestHook::AppendContent("3")).unwrap();

    // the failing second hook keeps the third from running
    let fle = store.create(String::from("a/b~1.0.0")).unwrap();
    assert_eq!(fle.get_entry().get_content(), "12");

    // a failing pre-update hook aborts the update and wraps its error
    store.register_hook(HookPosition::PreUpdate, &String::from("order"), TestHook::FailEntry("x")).unwrap();
    let r = store.update(fle);
    assert!(r.is_err());
    let e = r.err().unwrap();
    assert_eq!(e.err_type(), StoreErrorKind::PreHookExecuteError);
    assert_eq!(e.cause().unwrap().err_type(), StoreErrorKind::HookExecutionError);
    // nothing was written
    assert_eq!(store.files().len(), 0);
}

#[test]
fn pre_create_hook_rejection_aborts_creation() {
    let cfg = aspect_config(vec![("pre-create-aspects", "gate")]);
    let mut store: Store<TestHook> = Store::new(String::from("/store"), cfg).unwrap();
    store.register_hook(HookPosition::PreCreate, &String::from("gate"), TestHook::RejectId).unwrap();

    let r = store.create(String::from("a/b~1.0.0"));
    assert!(r.is_err());
    let e = r.err().unwrap();
    assert_eq!(e.err_type(), StoreErrorKind::PreHookExecuteError);
    assert_eq!(e.cause().unwrap().err_type(), StoreErrorKind::HookExecutionError);

    // the rejected identifier left no slot behind
    let mut store2: Store<TestHook> = Store::new(String::from("/store"), None).unwrap();
    assert!(store2.create(String::from("a/b~1.0.0")).is_ok());
}

#[test]
fn register_under_unknown_aspect_name_fails() {
    let cfg = aspect_config(vec![("pre-create-aspects", "known")]);
    let mut store: Store<TestHook> = Store::new(String::from("/store"), cfg).unwrap();

    let r = store.register_hook(HookPosition::PreCreate, &String::from("missing"), TestHook::Accept);
    assert!(r.is_err());
    let e = r.err().unwrap();
    assert_eq!(e.err_type(), StoreErrorKind::HookRegisterError);
    assert_eq!(e.cause().unwrap().err_type(), StoreErrorKind::AspectNameNotFoundError);

    // the existing aspect was not touched: registration under it still works,
    // and creation still succeeds
    assert!(store.register_hook(HookPosition::PreCreate, &String::from("known"), TestHook::Accept).is_ok());
    assert!(store.create(String::from("a/b~1.0.0")).is_ok());
}

#[test]
fn create_write_read_scenario() {
    let mut store: Store<NoopHook> = Store::new(String::from("/store"), None).unwrap();

    let mut fle = store.create(String::from("diary/2024-01-01")).unwrap();
    fle.get_entry_mut().get_content_mut().push_str("hello");
    // release: the implicit best-effort flush writes the entry back
    store.release(fle);

    let copy = store.retrieve_copy(String::from("diary/2024-01-01")).unwrap();
    assert_eq!(copy.get_content(), "hello");
    assert_eq!(
        copy.get_header().read("imag.version").unwrap().unwrap(),
        Value::Str(String::from(imagstore::header::store_version()))
    );
}

#[test]
fn retrieve_copy_of_borrowed_id_is_locked() {
    let mut store: Store<NoopHook> = Store::new(String::from("/store"), None).unwrap();
    let fle = store.create(String::from("a/b~1.0.0")).unwrap();

    let r = store.retrieve_copy(String::from("a/b~1.0.0"));
    assert!(r.is_err());
    assert_eq!(r.err().unwrap().err_type(), StoreErrorKind::IdLocked);
    store.release(fle);
}

#[test]
fn release_swallows_write_failures() {
    let mut store: Store<NoopHook> = Store::new(String::from("/store"), None).unwrap();

    let mut fle = store.create(String::from("a/b~1.0.0")).unwrap();
    // break the schema: the flush must not write anything
    fle.get_entry_mut().get_header_mut().delete("imag").unwrap();
    store.release(fle);
    assert_eq!(store.files().len(), 0);

    // an explicit update is the only way to observe the failure
    let mut store2: Store<NoopHook> = Store::new(String::from("/store"), None).unwrap();
    let mut fle = store2.create(String::from("a/b~1.0.0")).unwrap();
    fle.get_entry_mut().get_header_mut().delete("imag").unwrap();
    let r = store2.update(fle);
    assert!(r.is_err());
    assert_eq!(r.err().unwrap().err_type(), StoreErrorKind::MalformedEntry);
}

#[test]
fn update_writes_and_releases_the_borrow() {
    let mut store: Store<NoopHook> = Store::new(String::from("/store"), None).unwrap();

    let mut fle = store.create(String::from("a/b~1.0.0")).unwrap();
    fle.get_entry_mut().get_content_mut().push_str("payload");
    assert!(store.update(fle).is_ok());
    assert_eq!(store.files().len(), 1);

    // the borrow is gone: retrieving again works and sees the content
    let fle = store.retrieve(String::from("a/b~1.0.0")).unwrap();
    assert_eq!(fle.get_entry().get_content(), "payload");
    store.release(fle);
}

#[test]
fn listing_a_module_lists_only_its_files() {
    let mut store: Store<NoopHook> = Store::new(String::from("/store"), None).unwrap();

    for id in ["diary/a~1.0.0", "diary/b~1.0.0", "notes/c~1.0.0"] {
        let fle = store.create(String::from(id)).unwrap();
        store.release(fle);
    }

    let ids = store.retrieve_for_module("diary").unwrap();
    assert_eq!(ids.len(), 2);
    assert_eq!(ids[0].as_str(), "/store/diary/a~1.0.0");
    assert_eq!(ids[1].as_str(), "/store/diary/b~1.0.0");

    let none = store.retrieve_for_module("links").unwrap();
    assert!(none.is_empty());
}

#[test]
fn move_by_id_renames_the_file() {
    let mut store: Store<NoopHook> = Store::new(String::from("/store"), None).unwrap();

    let mut fle = store.create(String::from("a/b~1.0.0")).unwrap();
    fle.get_entry_mut().get_content_mut().push_str("moved");
    store.release(fle);

    assert!(store.move_by_id(String::from("a/b~1.0.0"), String::from("a/c~1.0.0")).is_ok());
    let copy = store.retrieve_copy(String::from("a/c~1.0.0")).unwrap();
    assert_eq!(copy.get_content(), "moved");

    // the old identifier now reads as a fresh entry
    let old = store.retrieve_copy(String::from("a/b~1.0.0")).unwrap();
    assert_eq!(old.get_content(), "");

    // moving a missing identifier is a rename error
    let r = store.move_by_id(String::from("x/y~1.0.0"), String::from("x/z~1.0.0"));
    assert!(r.is_err());
    assert_eq!(r.err().unwrap().err_type(), StoreErrorKind::EntryRenameError);
}

#[test]
fn malformed_configuration_is_rejected() {
    let r: Result<Store<NoopHook>, StoreError> =
        Store::new(String::from("/store"), Some(Value::Int(1)));
    assert!(r.is_err());
    assert_eq!(r.err().unwrap().err_type(), StoreErrorKind::ConfigurationError);

    let bad = Some(Value::Table(vec![(
        String::from("pre-create-aspects"),
        Value::Str(String::from("not-an-array")),
    )]));
    let r: Result<Store<NoopHook>, StoreError> = Store::new(String::from("/store"), bad);
    assert!(r.is_err());
}

#[test]
fn error_kinds_have_descriptions() {

    assert_eq!(store_error_type_as_str(&StoreErrorKind::IdLocked), "ID locked");
    assert_eq!(
        store_error_type_as_str(&StoreErrorKind::EntryAlreadyBorrowed),
        "Entry is already borrowed"
    );
    let e = StoreError::new(StoreErrorKind::IdLocked, None);
    assert_eq!(e.err_type(), StoreErrorKind::IdLocked);
    assert_eq!(e.as_str(), "ID locked");
}
