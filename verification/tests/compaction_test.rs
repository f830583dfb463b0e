//! Tests of the compaction service against the store.

use guardian_store::{
    Compaction, Config, Entry, Error, Location, Position, Status, Store, User, MAX_SEGMENT_SIZE,
};

fn sample_user(id: u64) -> User {
    User {
        id,
        name: format!("User {}", id),
        email: format!("user{}@test.com", id),
        location: Location {
            street: "1 Main".to_string(),
            city: "Town".to_string(),
            country: "TC".to_string(),
            postal: "00000".to_string(),
        },
        profile: None,
        created: 11,
        updated: 12,
    }
}

#[test]
fn test_concrete_scenario() -> Result<(), Error> {
    let mut store = Store::new()?;
    for id in 1..=5u64 {
        store.save(&sample_user(id))?;
    }

    // scan yields exactly 5 records whose keys are {1,2,3,4,5}
    let mut keys: Vec<u64> = store
        .scan()
        .into_iter()
        .map(|r| r.expect("every record is readable").id)
        .collect();
    keys.sort();
    assert_eq!(keys, vec![1, 2, 3, 4, 5]);

    store.delete(1)?;
    assert_eq!(store.stats()?.records, 4);

    let mut service = Compaction::new(Config::default());
    store.trigger_compaction(&mut service)?;

    assert_eq!(store.stats()?.records, 4);
    assert!(store.find(1)?.is_none());
    for id in 2..=5u64 {
        assert!(store.find(id)?.is_some());
    }
    assert!(matches!(service.state().status, Status::Idle));
    Ok(())
}

#[test]
fn test_minor_pass_counts() -> Result<(), Error> {
    let mut store = Store::new()?;
    for id in 1..=3u64 {
        store.save(&sample_user(id))?;
    }
    let mut service = Compaction::new(Config::default());
    store.trigger_compaction(&mut service)?;
    let state = service.state();
    // All three records are readable: examined, none removed.
    assert_eq!(state.processed, 3);
    assert_eq!(state.removed, 0);
    assert!(matches!(state.status, Status::Idle));
    assert_eq!(store.stats()?.records, 3);
    Ok(())
}

#[test]
fn test_compaction_drops_unreadable_entry() -> Result<(), Error> {
    let mut store = Store::new()?;
    store.save(&sample_user(1))?;

    // Corrupt the durable index image: bind a key to a location no segment
    // holds, then reopen over it.
    let files = store.segment_files().clone();
    let mut log = store.log_bytes();
    let bogus = Entry::new(&42u64.to_le_bytes(), Position { segment: 99, offset: 0, length: 8 });
    let packed = bogus.pack();
    log.extend_from_slice(&(packed.len() as u32).to_le_bytes());
    log.extend_from_slice(&packed);
    let mut reopened = Store::open(files, &log, MAX_SEGMENT_SIZE)?;

    assert_eq!(reopened.stats()?.records, 2);
    assert!(matches!(reopened.find(42), Err(Error::Missing(_))));

    // One dead entry out of two reaches the default 30% threshold, so the
    // run escalates to a major pass; the live record must survive it.
    let mut service = Compaction::new(Config::default());
    reopened.trigger_compaction(&mut service)?;

    assert_eq!(reopened.stats()?.records, 1);
    assert!(reopened.find(42)?.is_none());
    let survivor = reopened.find(1)?.expect("live record survives compaction");
    assert_eq!(survivor.name, "User 1");

    let state = service.state();
    // Minor pass: 2 examined, 1 removed; major pass: 1 examined, 0 removed.
    assert_eq!(state.processed, 3);
    assert_eq!(state.removed, 1);
    Ok(())
}

#[test]
fn test_config_default_values() {
    let config = Config::default();
    assert_eq!(config.max_segment_size, 256 * 1024 * 1024);
    assert_eq!(config.threshold, 30);
    assert_eq!(config.interval_secs, 3600);
    assert!(config.throttle);
}

#[test]
fn test_new_service_is_idle() {
    let service = Compaction::new(Config::default());
    let state = service.state();
    assert!(matches!(state.status, Status::Idle));
    assert_eq!(state.last_compaction, 0);
    assert_eq!(state.processed, 0);
    assert_eq!(state.removed, 0);
}

#[test]
fn test_open_rejects_unsorted_segments() {
    let store = Store::new().unwrap();
    let mut files = store.segment_files().clone();
    let duplicate = files[0].clone();
    files.push(duplicate);
    let log = store.log_bytes();
    match Store::open(files, &log, MAX_SEGMENT_SIZE) {
        Err(Error::Format(_)) => {}
        other => panic!("expected a format error, got {:?}", other.map(|_| ())),
    }
}
