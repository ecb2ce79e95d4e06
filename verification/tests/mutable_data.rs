use routing::crypto::PublicSignKey;
use routing::data::{
    Action, EntryAction, MutableData, PermissionSet, User, Value, MAX_MUTABLE_DATA_SIZE_IN_BYTES,
};
use routing::error::RoutingError;

fn gen_key() -> PublicSignKey {
    let (pk, _) = sodiumoxide::crypto::sign::gen_keypair();
    PublicSignKey(pk.0)
}

fn random_name() -> xor_name::XorName {
    xor_name::XorName::random()
}

fn assert_err(result: Result<(), RoutingError>, err: RoutingError) {
    match result {
        Err(e) => assert_eq!(e, err),
        Ok(()) => panic!("Expected Err({:?}), found Ok", err),
    }
}

fn assert_new_err(result: Result<MutableData, RoutingError>, err: RoutingError) {
    match result {
        Err(e) => assert_eq!(e, err),
        Ok(_) => panic!("Expected Err({:?}), found Ok", err),
    }
}

#[test]
fn mutable_data_permissions() {
    let owner = gen_key();
    let pk1 = gen_key();
    let pk2 = gen_key();

    let mut ps1 = PermissionSet::new();
    let _ = ps1.allow(Action::Update);

    let mut ps2 = PermissionSet::new();
    let _ = ps2.deny(Action::Update).allow(Action::Insert);

    let permissions = vec![(User::Anyone, ps1), (User::Key(pk1), ps2)];

    let k1 = "123".as_bytes().to_owned();
    let k2 = "234".as_bytes().to_owned();

    let mut v1 = vec![(
        k1.clone(),
        EntryAction::Ins(Value { content: "abc".as_bytes().to_owned(), entry_version: 0 }),
    )];

    let v2 = vec![(
        k2.clone(),
        EntryAction::Ins(Value { content: "def".as_bytes().to_owned(), entry_version: 0 }),
    )];

    let mut md = MutableData::new(random_name(), 0, permissions, vec![], vec![owner]).unwrap();

    // Check insert permissions
    assert!(md.mutate_entries(v1.clone(), pk1).is_ok());
    assert_err(md.mutate_entries(v2.clone(), pk2), RoutingError::AccessDenied);

    assert!(md.get(&k1).is_some());
    assert!(md.get(&k2).is_none()); // check that rollback is working

    // Check update permissions
    v1[0] = (
        k1.clone(),
        EntryAction::Update(Value { content: "def".as_bytes().to_owned(), entry_version: 1 }),
    );
    assert_err(md.mutate_entries(v1.clone(), pk1), RoutingError::AccessDenied);
    // check that rollback is working
    assert_eq!(md.get(&k1).unwrap().content, "abc".as_bytes());

    assert!(md.mutate_entries(v1.clone(), pk2).is_ok());

    // Check delete permissions (which should be implicitly forbidden)
    let del = vec![(k1.clone(), EntryAction::Del(2))];
    assert_err(md.mutate_entries(del.clone(), pk1), RoutingError::AccessDenied);
    assert!(md.get(&k1).is_some());

    // Actions requested by owner should always be allowed
    assert!(md.mutate_entries(del, owner).is_ok());
    assert!(md.get(&k1).is_none());
}

#[test]
fn permissions() {
    let mut anyone = PermissionSet::new();
    let _ = anyone.allow(Action::Insert).deny(Action::Delete);
    assert!(anyone.is_allowed(Action::Insert).unwrap());
    assert!(anyone.is_allowed(Action::Update).is_none());
    assert!(!anyone.is_allowed(Action::Delete).unwrap());
    assert!(anyone.is_allowed(Action::ManagePermission).is_none());

    let mut user1 = anyone;
    let _ = user1.clear(Action::Delete).deny(Action::ManagePermission);
    assert!(user1.is_allowed(Action::Insert).unwrap());
    assert!(user1.is_allowed(Action::Update).is_none());
    assert!(user1.is_allowed(Action::Delete).is_none());
    assert!(!user1.is_allowed(Action::ManagePermission).unwrap());

    let _ = user1.allow(Action::Update);
    assert!(user1.is_allowed(Action::Insert).unwrap());
    assert!(user1.is_allowed(Action::Update).unwrap());
    assert!(user1.is_allowed(Action::Delete).is_none());
    assert!(!user1.is_allowed(Action::ManagePermission).unwrap());
}

#[test]
fn max_entries_limit() {
    let val = Value { content: "123".as_bytes().to_owned(), entry_version: 0 };

    // It must not be possible to create MutableData with more than 101 entries
    let mut data = Vec::new();
    for i in 0..105 {
        data.push((vec![i], val.clone()));
    }
    assert_new_err(
        MutableData::new(random_name(), 0, vec![], data, vec![]),
        RoutingError::TooManyEntries,
    );

    let mut data = Vec::new();
    for i in 0..100 {
        data.push((vec![i], val.clone()));
    }

    let owner = gen_key();

    let mut md = MutableData::new(random_name(), 0, vec![], data, vec![owner]).unwrap();

    assert_eq!(md.keys().len(), 100);
    assert_eq!(md.values().len(), 100);
    assert_eq!(md.entries().len(), 100);

    // Try to get over the limit
    let v1 = vec![(vec![101u8], EntryAction::Ins(val.clone()))];
    assert!(md.mutate_entries(v1, owner).is_ok());

    let v2 = vec![(vec![102u8], EntryAction::Ins(val.clone()))];
    assert_err(md.mutate_entries(v2.clone(), owner), RoutingError::TooManyEntries);

    let del = vec![(vec![101u8], EntryAction::Del(1))];
    assert!(md.mutate_entries(del, owner).is_ok());

    assert!(md.mutate_entries(v2, owner).is_ok());
}

#[test]
fn size_limit() {
    let big_val = Value {
        content: std::iter::repeat(0)
            .take((MAX_MUTABLE_DATA_SIZE_IN_BYTES - 1024) as usize)
            .collect(),
        entry_version: 0,
    };

    let small_val = Value { content: std::iter::repeat(0).take(2048).collect(), entry_version: 0 };

    // It must not be possible to create MutableData with size of more than 1 MiB
    let data = vec![(vec![0], big_val.clone()), (vec![1], small_val.clone())];

    assert_new_err(
        MutableData::new(random_name(), 0, vec![], data, vec![]),
        RoutingError::ExceededSizeLimit,
    );

    let data = vec![(vec![0], big_val.clone())];

    let owner = gen_key();

    let mut md = MutableData::new(random_name(), 0, vec![], data, vec![owner]).unwrap();

    // Try to get over the mutation limit of 2 MiB
    let v1 = vec![(vec![1], EntryAction::Ins(big_val.clone()))];
    assert!(md.mutate_entries(v1, owner).is_ok());

    let v2 = vec![(vec![2], EntryAction::Ins(small_val.clone()))];
    assert_err(md.mutate_entries(v2.clone(), owner), RoutingError::ExceededSizeLimit);

    let del = vec![(vec![0], EntryAction::Del(1))];
    assert!(md.mutate_entries(del, owner).is_ok());

    assert!(md.mutate_entries(v2, owner).is_ok());
}

#[test]
fn transfer_ownership() {
    let owner = gen_key();
    let pk1 = gen_key();

    let mut md = MutableData::new(random_name(), 0, vec![], vec![], vec![owner]).unwrap();

    // Try to do ownership transfer from a non-owner requester
    assert_err(md.change_owner(pk1, pk1), RoutingError::AccessDenied);

    // Transfer ownership from an owner
    assert!(md.change_owner(pk1, owner).is_ok());
    assert_err(md.change_owner(owner, owner), RoutingError::AccessDenied);
}

#[test]
fn versions_succession() {
    let owner = gen_key();

    let mut md = MutableData::new(random_name(), 0, vec![], vec![], vec![owner]).unwrap();

    let v1 = vec![(vec![1], EntryAction::Ins(Value { content: vec![100], entry_version: 0 }))];
    assert!(md.mutate_entries(v1, owner).is_ok());

    // Check update with invalid versions
    let mut v2 =
        vec![(vec![1], EntryAction::Update(Value { content: vec![105], entry_version: 0 }))];
    assert_err(md.mutate_entries(v2.clone(), owner), RoutingError::InvalidSuccessor);

    v2[0] = (vec![1], EntryAction::Update(Value { content: vec![105], entry_version: 2 }));
    assert_err(md.mutate_entries(v2.clone(), owner), RoutingError::InvalidSuccessor);

    // Check update with a valid version
    v2[0] = (vec![1], EntryAction::Update(Value { content: vec![105], entry_version: 1 }));
    assert!(md.mutate_entries(v2, owner).is_ok());

    // Check delete version
    let mut del = vec![(vec![1], EntryAction::Del(1))];
    assert_err(md.mutate_entries(del.clone(), owner), RoutingError::InvalidSuccessor);

    del[0] = (vec![1], EntryAction::Del(2));
    assert!(md.mutate_entries(del, owner).is_ok());
}

#[test]
fn changing_permissions() {
    let owner = gen_key();
    let pk1 = gen_key();

    let mut md = MutableData::new(random_name(), 0, vec![], vec![], vec![owner]).unwrap();

    // Trying to do inserts without having a permission must fail
    let v1 = vec![(vec![0], EntryAction::Ins(Value { content: vec![1], entry_version: 0 }))];
    assert_err(md.mutate_entries(v1.clone(), pk1), RoutingError::AccessDenied);

    // Now allow inserts for pk1
    let mut ps1 = PermissionSet::new();
    let _ = ps1.allow(Action::Insert).allow(Action::ManagePermission);
    assert!(md.set_user_permissions(User::Key(pk1), ps1, owner).is_ok());

    assert!(md.mutate_entries(v1, pk1).is_ok());

    // pk1 now can change permissions
    let mut ps2 = PermissionSet::new();
    let _ = ps2.allow(Action::Insert).deny(Action::ManagePermission);
    assert!(md.set_user_permissions(User::Key(pk1), ps2, pk1).is_ok());

    // Revoke permissions for pk1
    assert_err(md.del_user_permissions(&User::Key(pk1), pk1), RoutingError::AccessDenied);

    assert!(md.del_user_permissions(&User::Key(pk1), owner).is_ok());

    let v2 = vec![(vec![1], EntryAction::Ins(Value { content: vec![1], entry_version: 0 }))];
    assert_err(md.mutate_entries(v2, pk1), RoutingError::AccessDenied);

    // Revoking permissions for a non-existing user should return an error
    assert_err(md.del_user_permissions(&User::Key(pk1), owner), RoutingError::EntryNotFound);

    // Get must always be allowed
    assert!(md.get(&vec![0]).is_some());
    assert!(md.get(&vec![1]).is_none());
}

#[test]
fn new_refuses_two_owners() {
    let owners = vec![gen_key(), gen_key()];
    assert_new_err(
        MutableData::new(random_name(), 0, vec![], vec![], owners),
        RoutingError::InvalidOwners,
    );
}

#[test]
fn insert_of_existing_key_is_refused_and_rolled_back() {
    let owner = gen_key();
    let mut md = MutableData::new(random_name(), 7, vec![], vec![], vec![owner]).unwrap();
    let v1 = vec![(vec![1], EntryAction::Ins(Value { content: vec![1], entry_version: 0 }))];
    assert!(md.mutate_entries(v1.clone(), owner).is_ok());
    // A batch whose second insert clashes leaves the first insert undone too.
    let v2 = vec![
        (vec![0], EntryAction::Ins(Value { content: vec![9], entry_version: 0 })),
        (vec![1], EntryAction::Ins(Value { content: vec![2], entry_version: 0 })),
    ];
    assert_err(md.mutate_entries(v2, owner), RoutingError::EntryAlreadyExist);
    assert!(md.get(&vec![0]).is_none());
    assert_eq!(md.get(&vec![1]).unwrap().content, vec![1]);
    // Updating or deleting a missing key is refused.
    let v3 = vec![(vec![5], EntryAction::Update(Value { content: vec![1], entry_version: 1 }))];
    assert_err(md.mutate_entries(v3, owner), RoutingError::EntryNotFound);
    let v4 = vec![(vec![5], EntryAction::Del(1))];
    assert_err(md.mutate_entries(v4, owner), RoutingError::EntryNotFound);
    assert_eq!(md.tag(), 7);
    assert_eq!(md.version(), 0);
}

#[test]
fn entries_come_in_key_order_and_size_is_validated() {
    let owner = gen_key();
    let mut md = MutableData::new(random_name(), 0, vec![], vec![], vec![owner]).unwrap();
    let acts = vec![
        (vec![1], EntryAction::Ins(Value { content: vec![10], entry_version: 0 })),
        (vec![2], EntryAction::Ins(Value { content: vec![20], entry_version: 0 })),
        (vec![3], EntryAction::Ins(Value { content: vec![30], entry_version: 0 })),
    ];
    assert!(md.mutate_entries(acts, owner).is_ok());
    let keys = md.keys();
    assert_eq!(keys, vec![vec![1], vec![2], vec![3]]);
    let values = md.values();
    assert_eq!(values[2].content, vec![30]);
    assert!(md.validate_size());
    let entries = md.entries();
    assert_eq!(entries.len(), 3);
}

#[test]
fn setting_permissions_over_the_size_limit_is_refused() {
    let owner = gen_key();
    let big = Value {
        content: std::iter::repeat(0)
            .take((2 * MAX_MUTABLE_DATA_SIZE_IN_BYTES - 250) as usize)
            .collect(),
        entry_version: 0,
    };
    let mut md = MutableData::new(random_name(), 0, vec![], vec![], vec![owner]).unwrap();
    assert!(md.mutate_entries(vec![(vec![0], EntryAction::Ins(big))], owner).is_ok());
    assert!(!md.validate_size());
    // Two more sets of permissions push the size over twice the limit.
    let mut ps = PermissionSet::new();
    let _ = ps.allow(Action::Insert).allow(Action::Update).allow(Action::Delete);
    assert!(md.set_user_permissions(User::Key(gen_key()), ps, owner).is_ok());
    assert_err(
        md.set_user_permissions(User::Key(gen_key()), ps, owner),
        RoutingError::ExceededSizeLimit,
    );
}

#[test]
fn permission_and_owner_changes_raise_the_version() {
    let owner = gen_key();
    let pk1 = gen_key();
    let mut md = MutableData::new(random_name(), 0, vec![], vec![], vec![owner]).unwrap();
    assert_eq!(md.version(), 0);

    let mut ps = PermissionSet::new();
    let _ = ps.allow(Action::Insert);
    assert!(md.set_user_permissions(User::Key(pk1), ps, owner).is_ok());
    assert_eq!(md.version(), 1);
    assert_err(md.set_user_permissions(User::Key(pk1), ps, pk1), RoutingError::AccessDenied);
    assert_eq!(md.version(), 1);

    assert!(md.del_user_permissions(&User::Key(pk1), owner).is_ok());
    assert_eq!(md.version(), 2);
    assert_err(md.del_user_permissions(&User::Key(pk1), owner), RoutingError::EntryNotFound);
    assert_eq!(md.version(), 2);

    assert!(md.change_owner(pk1, owner).is_ok());
    assert_eq!(md.version(), 3);

    // Entry mutations leave the version alone.
    let ins = vec![(vec![1], EntryAction::Ins(Value { content: vec![1], entry_version: 0 }))];
    assert!(md.mutate_entries(ins, pk1).is_ok());
    assert_eq!(md.version(), 3);
}

#[test]
fn entry_at_the_last_version_has_no_successor() {
    let owner = gen_key();
    let other = gen_key();
    let data = vec![(vec![1], Value { content: vec![1], entry_version: u64::MAX })];
    let mut md = MutableData::new(random_name(), 0, vec![], data, vec![owner]).unwrap();

    // Access is decided first.
    let upd = vec![(vec![1], EntryAction::Update(Value { content: vec![2], entry_version: 0 }))];
    assert_err(md.mutate_entries(upd.clone(), other), RoutingError::AccessDenied);

    assert_err(md.mutate_entries(upd, owner), RoutingError::InvalidSuccessor);
    assert_err(
        md.mutate_entries(vec![(vec![1], EntryAction::Del(0))], owner),
        RoutingError::InvalidSuccessor,
    );
    assert_eq!(md.get(&vec![1]).unwrap().entry_version, u64::MAX);
}
