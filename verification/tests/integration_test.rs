//! Integration tests: the complete flow through the store, the index and
//! the segment manager.

use guardian_store::{Error, Location, Profile, Store, User};

/// Creates a test user with sample data.
fn create_test_user(id: u64) -> User {
    let location = Location {
        street: format!("{} Test Street", id),
        city: "Test City".to_string(),
        country: "Test Country".to_string(),
        postal: "12345".to_string(),
    };

    User {
        id,
        name: format!("User {}", id),
        email: format!("user{}@test.com", id),
        location,
        profile: None,
        created: std::time::SystemTime::now()
            .duration_since(std::time::UNIX_EPOCH)
            .unwrap()
            .as_secs(),
        updated: std::time::SystemTime::now()
            .duration_since(std::time::UNIX_EPOCH)
            .unwrap()
            .as_secs(),
    }
}

#[test]
fn test_basic_crud() -> Result<(), Error> {
    let mut store = Store::new()?;

    let user = create_test_user(1);
    store.save(&user)?;

    let retrieved = store.find(1)?.expect("User should exist");
    assert_eq!(retrieved.id, user.id);

    store.delete(1)?;
    let retrieved = store.find(1)?;
    assert!(retrieved.is_none());

    Ok(())
}

#[test]
fn test_batch_operations() -> Result<(), Error> {
    let mut store = Store::new()?;

    // Create multiple users
    let users: Vec<User> = (1..=10).map(create_test_user).collect();

    // Save all users in batch
    store.batch_save(&users)?;

    // Verify all users exist
    for user in &users {
        let retrieved = store.find(user.id)?.expect("User should exist");
        assert_eq!(retrieved.id, user.id);
        assert_eq!(retrieved.name, user.name);
    }

    Ok(())
}

#[test]
fn test_zero_copy_access() -> Result<(), Error> {
    let mut store = Store::new()?;

    // Create and save a user
    let user = create_test_user(1);
    store.save(&user)?;

    // Retrieve the record
    let archived = store.find(1)?.expect("User should exist");

    // Access fields
    assert_eq!(archived.id, user.id);
    assert_eq!(archived.name.as_str(), user.name);
    assert_eq!(archived.email.as_str(), user.email);

    Ok(())
}

#[test]
fn test_scan_operations() -> Result<(), Error> {
    let mut store = Store::new()?;

    // Create multiple users
    let users: Vec<User> = (1..=5).map(create_test_user).collect();

    // Save all users
    for user in &users {
        store.save(user)?;
    }

    // Scan all users
    let mut scanned_users: Vec<User> =
        store.scan().into_iter().collect::<Result<Vec<_>, Error>>()?;
    scanned_users.sort_by_key(|u| u.id);

    // Verify all users are found
    assert_eq!(scanned_users.len(), users.len());
    for (original, scanned) in users.iter().zip(scanned_users.iter()) {
        assert_eq!(original.id, scanned.id);
        assert_eq!(original.name, scanned.name);
    }

    Ok(())
}

#[test]
fn test_storage_statistics() -> Result<(), Error> {
    let mut store = Store::new()?;

    // Initially should have no records
    let stats = store.stats()?;
    assert_eq!(stats.records, 0);

    // Add some users
    let users: Vec<User> = (1..=3).map(create_test_user).collect();
    for user in &users {
        store.save(user)?;
    }

    // Check updated statistics
    let stats = store.stats()?;
    assert_eq!(stats.records, 3);

    // Delete one user
    store.delete(1)?;

    // Check statistics after deletion
    let stats = store.stats()?;
    assert_eq!(stats.records, 2);

    Ok(())
}

#[test]
fn test_schema_evolution() -> Result<(), Error> {
    let mut store = Store::new()?;

    // Create a user without profile (old schema)
    let mut user = create_test_user(1);
    user.profile = None;
    store.save(&user)?;

    // Verify user can be read
    let retrieved = store.find(1)?.expect("User should exist");
    assert_eq!(retrieved.id, user.id);
    assert!(retrieved.profile.is_none());

    // Update user with profile (new schema)
    let mut updated_user = user.clone();
    updated_user.profile = Some(Profile {
        age: 30,
        job: "Senior Engineer".to_string(),
        interests: vec!["Architecture".to_string()],
    });
    store.update(&updated_user)?;

    // Verify updated user
    let retrieved = store.find(1)?.expect("User should exist");
    assert_eq!(retrieved.id, user.id);
    assert!(retrieved.profile.is_some());
    assert_eq!(retrieved.profile.as_ref().unwrap().age, 30);

    Ok(())
}

#[test]
fn test_round_trip_all_fields() -> Result<(), Error> {
    let mut store = Store::new()?;
    let mut user = create_test_user(7);
    user.profile = Some(Profile {
        age: 41,
        job: "Librarian".to_string(),
        interests: vec!["maps".to_string(), "archives".to_string(), "".to_string()],
    });
    store.save(&user)?;

    let back = store.find(7)?.expect("User should exist");
    assert_eq!(back.id, user.id);
    assert_eq!(back.name, user.name);
    assert_eq!(back.email, user.email);
    assert_eq!(back.location.street, user.location.street);
    assert_eq!(back.location.city, user.location.city);
    assert_eq!(back.location.country, user.location.country);
    assert_eq!(back.location.postal, user.location.postal);
    assert_eq!(back.created, user.created);
    assert_eq!(back.updated, user.updated);
    let p = back.profile.expect("profile kept");
    assert_eq!(p.age, 41);
    assert_eq!(p.job, "Librarian");
    assert_eq!(p.interests, vec!["maps", "archives", ""]);
    Ok(())
}

#[test]
fn test_tombstone_survives_restart() -> Result<(), Error> {
    let mut store = Store::new()?;
    let user = create_test_user(1);
    store.save(&user)?;
    store.save(&create_test_user(2))?;
    store.delete(1)?;

    // Mirror the durable state, drop the store, and rebuild over the image.
    let files = store.segment_files().clone();
    let log = store.log_bytes();
    drop(store);

    let reopened = Store::open(files, &log, guardian_store::MAX_SEGMENT_SIZE)?;
    assert!(reopened.find(1)?.is_none());
    let two = reopened.find(2)?.expect("undeleted key survives the restart");
    assert_eq!(two.id, 2);
    Ok(())
}

#[test]
fn test_update_overwrites() -> Result<(), Error> {
    let mut store = Store::new()?;
    let user = create_test_user(4);
    store.save(&user)?;
    let mut newer = create_test_user(4);
    newer.name = "Renamed".to_string();
    store.update(&newer)?;
    let back = store.find(4)?.expect("User should exist");
    assert_eq!(back.name, "Renamed");
    assert_eq!(store.stats()?.records, 1);
    Ok(())
}

#[test]
fn test_batch_last_write_wins() -> Result<(), Error> {
    let mut store = Store::new()?;
    let mut first = create_test_user(9);
    first.name = "first".to_string();
    let mut second = create_test_user(9);
    second.name = "second".to_string();
    store.batch_save(&[first, second])?;
    let back = store.find(9)?.expect("User should exist");
    assert_eq!(back.name, "second");
    assert_eq!(store.stats()?.records, 1);
    Ok(())
}

#[test]
fn test_migrate_unsupported() {
    let store = Store::new().unwrap();
    match store.migrate(2) {
        Err(Error::Unsupported(_)) => {}
        other => panic!("expected an unsupported error, got {:?}", other),
    }
}

#[test]
fn test_segment_rotation_tiny_max() -> Result<(), Error> {
    // A 1-byte threshold: the active file always holds at least its header,
    // so every save first rotates to a fresh segment.
    let mut store = Store::with_max_segment_size(1)?;
    let before = store.stats()?.segments;
    assert_eq!(before, 1);
    for id in 1..=3u64 {
        store.save(&create_test_user(id))?;
    }
    let stats = store.stats()?;
    assert_eq!(stats.segments, 4);
    assert_eq!(stats.records, 3);
    // Every record stays readable, whichever segment it landed in.
    for id in 1..=3u64 {
        let u = store.find(id)?.expect("User should exist");
        assert_eq!(u.id, id);
    }
    Ok(())
}
