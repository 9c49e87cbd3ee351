use canister_upgrade_backend::auth::AuthError;
use canister_upgrade_backend::auth::AuthRegistry;
use canister_upgrade_backend::auth::AuthorizedSet;
use canister_upgrade_backend::principal::Principal;
use std::collections::BTreeSet;

fn who(bytes: &[u8]) -> Principal {
    Principal::from_bytes(bytes.to_vec()).unwrap()
}

fn bytes_of(set: &AuthorizedSet) -> Vec<Vec<u8>> {
    set.to_vec().iter().map(|p| p.as_bytes().to_vec()).collect()
}

#[test]
fn a_new_set_is_empty() {
    let set = AuthorizedSet::new();
    assert!(set.is_empty());
    assert_eq!(set.len(), 0);
    assert!(!set.contains(&who(&[1])));
    assert_eq!(bytes_of(&set), Vec::<Vec<u8>>::new());
}

#[test]
fn insert_adds_a_member_once() {
    let mut set = AuthorizedSet::new();
    assert!(set.insert(who(&[1, 2])));
    assert!(set.contains(&who(&[1, 2])));
    assert_eq!(set.len(), 1);
    assert!(!set.is_empty());
    assert!(!set.insert(who(&[1, 2])));
    assert_eq!(set.len(), 1);
    assert_eq!(bytes_of(&set), vec![vec![1u8, 2]]);
}

#[test]
fn members_come_out_in_order_whatever_the_order_of_insertion() {
    let mut set = AuthorizedSet::new();
    set.insert(who(&[1, 0]));
    set.insert(who(&[2]));
    set.insert(who(&[0, 0, 0]));
    set.insert(who(&[]));
    set.insert(who(&[1]));
    set.insert(who(&[0, 9]));
    let expected: Vec<Vec<u8>> =
        vec![vec![], vec![1], vec![2], vec![0, 9], vec![1, 0], vec![0, 0, 0]];
    assert_eq!(bytes_of(&set), expected);
    assert_eq!(set.len(), 6);
}

#[test]
fn contains_finds_every_member_and_no_other() {
    let mut set = AuthorizedSet::new();
    let members: Vec<Vec<u8>> = (0u8..40).map(|i| vec![i.wrapping_mul(37), i]).collect();
    for m in members.iter() {
        assert!(set.insert(who(m)));
    }
    assert_eq!(set.len(), 40);
    for m in members.iter() {
        assert!(set.contains(&who(m)));
    }
    assert!(!set.contains(&who(&[1, 40])));
    assert!(!set.contains(&who(&[0])));
    assert!(!set.contains(&who(&[0, 0, 0])));
}

#[test]
fn the_order_is_that_of_a_candid_btree_set() {
    let inputs: Vec<Vec<u8>> = vec![
        vec![9, 9, 9],
        vec![4],
        vec![],
        vec![200, 1],
        vec![3; 29],
        vec![1, 255],
        vec![0],
        vec![2; 29],
        vec![4],
    ];
    let mut ours = AuthorizedSet::new();
    let mut theirs: BTreeSet<candid::Principal> = BTreeSet::new();
    for bytes in inputs.iter() {
        ours.insert(who(bytes));
        theirs.insert(candid::Principal::from_slice(bytes));
    }
    let expected: Vec<Vec<u8>> = theirs.iter().map(|p| p.as_slice().to_vec()).collect();
    assert_eq!(bytes_of(&ours), expected);
    assert_eq!(ours.len(), theirs.len());
}

#[test]
fn from_vec_sorts_and_drops_repetitions() {
    let listed = vec![who(&[5]), who(&[1, 1]), who(&[5]), who(&[3]), who(&[1, 1])];
    let set = AuthorizedSet::from_vec(listed);
    assert_eq!(bytes_of(&set), vec![vec![3u8], vec![5], vec![1, 1]]);
}

#[test]
fn from_vec_of_nothing_is_empty() {
    let set = AuthorizedSet::from_vec(Vec::new());
    assert!(set.is_empty());
}

#[test]
fn to_vec_then_from_vec_gives_the_same_set() {
    let mut set = AuthorizedSet::new();
    set.insert(who(&[7, 7]));
    set.insert(who(&[1]));
    set.insert(who(&[8, 0, 0]));
    let again = AuthorizedSet::from_vec(set.to_vec());
    assert_eq!(bytes_of(&again), bytes_of(&set));
}

#[test]
fn a_cloned_set_has_the_same_members() {
    let mut set = AuthorizedSet::new();
    set.insert(who(&[2]));
    set.insert(who(&[1]));
    let copy = set.clone();
    set.insert(who(&[3]));
    assert_eq!(bytes_of(&copy), vec![vec![1u8], vec![2]]);
    assert_eq!(set.len(), 3);
}

#[test]
fn a_new_registry_authorizes_nobody() {
    let registry = AuthRegistry::new();
    assert_eq!(registry.authorize(&who(&[1])), Err(AuthError::NotAuthorized));
    assert_eq!(registry.authorize(&who(&[])), Err(AuthError::NotAuthorized));
    assert!(registry.snapshot().is_empty());
}

#[test]
fn initialize_authorizes_the_caller() {
    let mut registry = AuthRegistry::new();
    registry.initialize(who(&[1]));
    assert_eq!(registry.authorize(&who(&[1])), Ok(()));
    assert_eq!(registry.authorize(&who(&[2])), Err(AuthError::NotAuthorized));
}

#[test]
fn grant_by_a_member_authorizes_the_target() {
    let mut registry = AuthRegistry::new();
    registry.initialize(who(&[1]));
    assert_eq!(registry.grant(&who(&[1]), who(&[2])), Ok(()));
    assert_eq!(registry.authorize(&who(&[2])), Ok(()));
    assert_eq!(registry.authorize(&who(&[1])), Ok(()));
    assert_eq!(registry.grant(&who(&[2]), who(&[3])), Ok(()));
    assert_eq!(registry.authorize(&who(&[3])), Ok(()));
}

#[test]
fn grant_to_a_member_changes_nothing() {
    let mut registry = AuthRegistry::new();
    registry.initialize(who(&[1]));
    registry.grant(&who(&[1]), who(&[2])).unwrap();
    let before = bytes_of(&registry.snapshot());
    assert_eq!(registry.grant(&who(&[1]), who(&[2])), Ok(()));
    assert_eq!(registry.grant(&who(&[2]), who(&[1])), Ok(()));
    assert_eq!(registry.grant(&who(&[1]), who(&[1])), Ok(()));
    assert_eq!(bytes_of(&registry.snapshot()), before);
}

#[test]
fn grant_by_a_stranger_is_refused_and_changes_nothing() {
    let mut registry = AuthRegistry::new();
    registry.initialize(who(&[1]));
    let before = bytes_of(&registry.snapshot());
    assert_eq!(registry.grant(&who(&[9]), who(&[2])), Err(AuthError::NotAuthorized));
    assert_eq!(registry.grant(&who(&[9]), who(&[9])), Err(AuthError::NotAuthorized));
    assert_eq!(bytes_of(&registry.snapshot()), before);
    assert_eq!(registry.authorize(&who(&[2])), Err(AuthError::NotAuthorized));
    assert_eq!(registry.authorize(&who(&[9])), Err(AuthError::NotAuthorized));
}

#[test]
fn a_principal_never_inserted_is_refused() {
    let mut registry = AuthRegistry::new();
    registry.initialize(who(&[1]));
    registry.grant(&who(&[1]), who(&[2])).unwrap();
    registry.grant(&who(&[7]), who(&[8])).unwrap_err();
    assert_eq!(registry.authorize(&who(&[8])), Err(AuthError::NotAuthorized));
    assert_eq!(registry.authorize(&who(&[7])), Err(AuthError::NotAuthorized));
    assert_eq!(registry.authorize(&who(&[1, 2])), Err(AuthError::NotAuthorized));
}

#[test]
fn snapshot_is_a_copy() {
    let mut registry = AuthRegistry::new();
    registry.initialize(who(&[1]));
    let snapshot = registry.snapshot();
    registry.grant(&who(&[1]), who(&[2])).unwrap();
    assert_eq!(bytes_of(&snapshot), vec![vec![1u8]]);
    assert_eq!(bytes_of(&registry.snapshot()), vec![vec![1u8], vec![2]]);
}

#[test]
fn restore_replaces_the_membership() {
    let mut registry = AuthRegistry::new();
    registry.initialize(who(&[1]));
    let mut other = AuthorizedSet::new();
    other.insert(who(&[5]));
    other.insert(who(&[6]));
    registry.restore(other);
    assert_eq!(registry.authorize(&who(&[1])), Err(AuthError::NotAuthorized));
    assert_eq!(registry.authorize(&who(&[5])), Ok(()));
    assert_eq!(registry.authorize(&who(&[6])), Ok(()));
}

#[test]
fn snapshot_then_restore_keeps_every_answer() {
    let mut registry = AuthRegistry::new();
    registry.initialize(who(&[1]));
    registry.grant(&who(&[1]), who(&[2, 2])).unwrap();
    registry.grant(&who(&[2, 2]), who(&[])).unwrap();
    let snapshot = registry.snapshot();
    let mut restarted = AuthRegistry::new();
    restarted.restore(snapshot);
    for p in [who(&[1]), who(&[2, 2]), who(&[])] {
        assert_eq!(restarted.authorize(&p), Ok(()));
    }
    assert_eq!(restarted.authorize(&who(&[3])), Err(AuthError::NotAuthorized));
    assert_eq!(bytes_of(&restarted.snapshot()), bytes_of(&registry.snapshot()));
}
