use canister_upgrade_backend::auth::AuthError;
use canister_upgrade_backend::auth::AuthorizedSet;
use canister_upgrade_backend::backend::Backend;
use canister_upgrade_backend::lifecycle::LifecycleState;
use canister_upgrade_backend::lifecycle::PersistenceError;
use canister_upgrade_backend::principal::Principal;
use canister_upgrade_backend::store::StoreError;

fn caller_a() -> Principal {
    Principal::from_bytes(vec![10, 1]).unwrap()
}

fn caller_b() -> Principal {
    Principal::from_bytes(vec![20, 2, 2]).unwrap()
}

fn started_by_a() -> Backend {
    let mut backend = Backend::new();
    backend.init(caller_a());
    backend
}

fn restart(backend: &mut Backend) -> Backend {
    let snapshot = backend.pre_upgrade();
    backend.suspend(Ok(())).unwrap();
    let record: Vec<Vec<u8>> = snapshot.to_vec().iter().map(|p| p.as_bytes().to_vec()).collect();
    let read_back: Vec<Principal> =
        record.into_iter().map(|bytes| Principal::from_bytes(bytes).unwrap()).collect();
    let mut next = Backend::resuming();
    next.post_upgrade(Ok(AuthorizedSet::from_vec(read_back))).unwrap();
    next
}

#[test]
fn a_new_backend_is_uninitialized_and_empty() {
    let backend = Backend::new();
    assert_eq!(backend.lifecycle_state(), LifecycleState::Uninitialized);
    assert_eq!(backend.is_user(&caller_a()), Err(AuthError::NotAuthorized));
    assert_eq!(backend.retrieve("x"), Err(StoreError::NotFound));
}

#[test]
fn nobody_may_store_before_the_first_start() {
    let mut backend = Backend::new();
    assert_eq!(
        backend.store(&caller_a(), "x".to_string(), vec![1]),
        Err(AuthError::NotAuthorized)
    );
    assert_eq!(backend.retrieve("x"), Err(StoreError::NotFound));
}

#[test]
fn init_authorizes_the_caller_and_runs() {
    let backend = started_by_a();
    assert_eq!(backend.lifecycle_state(), LifecycleState::Running);
    assert_eq!(backend.is_user(&caller_a()), Ok(()));
    assert_eq!(backend.is_user(&caller_b()), Err(AuthError::NotAuthorized));
}

#[test]
fn the_initializing_caller_stores_and_anyone_retrieves() {
    let mut backend = started_by_a();
    assert_eq!(backend.store(&caller_a(), "x".to_string(), vec![1, 2, 3]), Ok(()));
    assert_eq!(backend.retrieve("x"), Ok(vec![1u8, 2, 3]));
}

#[test]
fn a_stranger_may_not_store() {
    let mut backend = started_by_a();
    assert_eq!(
        backend.store(&caller_b(), "x".to_string(), vec![1, 2, 3]),
        Err(AuthError::NotAuthorized)
    );
    assert_eq!(backend.retrieve("x"), Err(StoreError::NotFound));
    backend.store(&caller_a(), "x".to_string(), vec![7]).unwrap();
    assert_eq!(
        backend.store(&caller_b(), "x".to_string(), vec![8]),
        Err(AuthError::NotAuthorized)
    );
    assert_eq!(backend.retrieve("x"), Ok(vec![7u8]));
}

#[test]
fn an_added_user_may_store() {
    let mut backend = started_by_a();
    assert_eq!(backend.add_user(&caller_a(), caller_b()), Ok(()));
    assert_eq!(backend.store(&caller_b(), "y".to_string(), vec![9]), Ok(()));
    assert_eq!(backend.retrieve("y"), Ok(vec![9u8]));
}

#[test]
fn a_stranger_may_not_add_users() {
    let mut backend = started_by_a();
    assert_eq!(backend.add_user(&caller_b(), caller_b()), Err(AuthError::NotAuthorized));
    assert_eq!(backend.is_user(&caller_b()), Err(AuthError::NotAuthorized));
    assert_eq!(backend.is_user(&caller_a()), Ok(()));
}

#[test]
fn adding_a_user_twice_is_no_error() {
    let mut backend = started_by_a();
    backend.add_user(&caller_a(), caller_b()).unwrap();
    let before: Vec<Principal> = backend.pre_upgrade().to_vec();
    assert_eq!(backend.add_user(&caller_a(), caller_b()), Ok(()));
    assert_eq!(backend.add_user(&caller_b(), caller_a()), Ok(()));
    assert_eq!(backend.pre_upgrade().to_vec(), before);
}

#[test]
fn authorization_survives_a_restart() {
    let mut backend = started_by_a();
    let next = restart(&mut backend);
    assert_eq!(backend.lifecycle_state(), LifecycleState::Suspended);
    assert_eq!(next.lifecycle_state(), LifecycleState::Running);
    assert_eq!(next.is_user(&caller_a()), Ok(()));
    assert_eq!(next.is_user(&caller_b()), Err(AuthError::NotAuthorized));
}

#[test]
fn granted_users_survive_a_restart() {
    let mut backend = started_by_a();
    backend.add_user(&caller_a(), caller_b()).unwrap();
    let mut next = restart(&mut backend);
    assert_eq!(next.is_user(&caller_a()), Ok(()));
    assert_eq!(next.is_user(&caller_b()), Ok(()));
    assert_eq!(next.store(&caller_b(), "z".to_string(), vec![5]), Ok(()));
    assert_eq!(next.retrieve("z"), Ok(vec![5u8]));
}

#[test]
fn stored_blobs_do_not_survive_a_restart() {
    let mut backend = started_by_a();
    backend.store(&caller_a(), "x".to_string(), vec![1, 2, 3]).unwrap();
    let next = restart(&mut backend);
    assert_eq!(next.retrieve("x"), Err(StoreError::NotFound));
}

#[test]
fn the_snapshot_lists_the_members_in_order() {
    let mut backend = started_by_a();
    backend.add_user(&caller_a(), caller_b()).unwrap();
    backend.add_user(&caller_b(), Principal::from_bytes(vec![3]).unwrap()).unwrap();
    let record: Vec<Vec<u8>> =
        backend.pre_upgrade().to_vec().iter().map(|p| p.as_bytes().to_vec()).collect();
    assert_eq!(record, vec![vec![3u8], vec![10, 1], vec![20, 2, 2]]);
}

#[test]
fn a_failed_write_keeps_the_process_running() {
    let mut backend = started_by_a();
    let _snapshot = backend.pre_upgrade();
    assert_eq!(
        backend.suspend(Err(PersistenceError::WriteFailed)),
        Err(PersistenceError::WriteFailed)
    );
    assert_eq!(backend.lifecycle_state(), LifecycleState::Running);
    assert_eq!(backend.store(&caller_a(), "x".to_string(), vec![1]), Ok(()));
}

#[test]
fn a_failed_read_keeps_the_process_suspended() {
    let mut next = Backend::resuming();
    assert_eq!(
        next.post_upgrade(Err(PersistenceError::ReadFailed)),
        Err(PersistenceError::ReadFailed)
    );
    assert_eq!(next.lifecycle_state(), LifecycleState::Suspended);
    assert_eq!(next.is_user(&caller_a()), Err(AuthError::NotAuthorized));
}

#[test]
fn an_empty_snapshot_is_refused() {
    let mut next = Backend::resuming();
    assert_eq!(
        next.post_upgrade(Ok(AuthorizedSet::new())),
        Err(PersistenceError::EmptySnapshot)
    );
    assert_eq!(next.lifecycle_state(), LifecycleState::Suspended);
}
