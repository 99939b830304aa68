use region::{
    lock, protect, protect_with_handle, query, query_range, unlock, Error, MockPage,
    MockPageTable, PageAttrs, Protection,
};

const PZ: usize = 4096;

fn mapped(protection: Protection) -> MockPage {
    MockPage {
        attrs: Some(PageAttrs { protection, committed: true, guarded: false, shared: false }),
        locked: false,
    }
}

#[test]
fn protect_changes_the_whole_span() {
    let mut pt = MockPageTable::new(
        PZ,
        vec![mapped(Protection::read()), mapped(Protection::read()), mapped(Protection::read())],
    );
    protect(&mut pt, PZ + 1, 1, Protection::read_write()).unwrap();
    assert_eq!(query(&pt, 0).unwrap().protection(), Protection::read());
    assert_eq!(query(&pt, PZ).unwrap().protection(), Protection::read_write());
    assert_eq!(query(&pt, 2 * PZ).unwrap().protection(), Protection::read());
}

#[test]
fn protect_zero_size_fails() {
    let mut pt = MockPageTable::new(PZ, vec![mapped(Protection::read())]);
    assert_eq!(
        protect(&mut pt, 0, 0, Protection::read_write()),
        Err(Error::InvalidParameter("size"))
    );
    assert_eq!(query(&pt, 0).unwrap().protection(), Protection::read());
}

#[test]
fn protect_with_handle_round_trip() {
    // The change straddles two regions whose original protections differ;
    // releasing the guard restores each one independently.
    let mut pt = MockPageTable::new(
        PZ,
        vec![mapped(Protection::read()), mapped(Protection::read_write())],
    );
    let mut guard =
        protect_with_handle(&mut pt, 0, 2 * PZ, Protection::read_write_execute()).unwrap();
    assert!(guard.is_active());
    assert_eq!(query(&pt, 0).unwrap().protection(), Protection::read_write_execute());
    assert_eq!(query(&pt, PZ).unwrap().protection(), Protection::read_write_execute());

    guard.release(&mut pt).unwrap();
    assert!(!guard.is_active());
    assert_eq!(query(&pt, 0).unwrap().protection(), Protection::read());
    assert_eq!(query(&pt, PZ).unwrap().protection(), Protection::read_write());
}

#[test]
fn protect_guard_snapshot_is_coalesced() {
    let mut pt = MockPageTable::new(
        PZ,
        vec![mapped(Protection::read()), mapped(Protection::read()), mapped(Protection::none())],
    );
    let before = query_range(&pt, 0, 3 * PZ).unwrap();
    assert_eq!(before.len(), 2);
    let mut guard = protect_with_handle(&mut pt, 0, 3 * PZ, Protection::read_write()).unwrap();
    let during = query_range(&pt, 0, 3 * PZ).unwrap();
    assert_eq!(during.len(), 1);
    assert_eq!(during[0].protection(), Protection::read_write());
    guard.release(&mut pt).unwrap();
    let after = query_range(&pt, 0, 3 * PZ).unwrap();
    assert_eq!(after, before);
}

#[test]
fn protect_guard_release_is_idempotent() {
    let mut pt = MockPageTable::new(PZ, vec![mapped(Protection::read())]);
    let mut guard = protect_with_handle(&mut pt, 0, PZ, Protection::read_write()).unwrap();
    assert_eq!(guard.release(&mut pt), Ok(()));
    assert_eq!(query(&pt, 0).unwrap().protection(), Protection::read());

    // A protection applied after the release must survive a second
    // release: the restore ran only once.
    protect(&mut pt, 0, PZ, Protection::read_write_execute()).unwrap();
    assert_eq!(guard.release(&mut pt), Ok(()));
    assert_eq!(query(&pt, 0).unwrap().protection(), Protection::read_write_execute());
}

#[test]
fn protect_with_handle_zero_size_fails() {
    let mut pt = MockPageTable::new(PZ, vec![mapped(Protection::read())]);
    assert!(matches!(
        protect_with_handle(&mut pt, 0, 0, Protection::read_write()),
        Err(Error::InvalidParameter("size"))
    ));
}

#[test]
fn lock_pins_and_release_unpins() {
    let mut pt = MockPageTable::new(
        PZ,
        vec![mapped(Protection::read()), mapped(Protection::read()), mapped(Protection::read())],
    );
    let mut guard = lock(&mut pt, PZ + 1, 1).unwrap();
    assert!(guard.is_active());
    assert!(!pt.pinned(0));
    assert!(pt.pinned(PZ));
    assert!(!pt.pinned(2 * PZ));

    assert_eq!(guard.release(&mut pt), Ok(()));
    assert!(!guard.is_active());
    assert!(!pt.pinned(PZ));
}

#[test]
fn lock_guard_release_is_idempotent() {
    let mut pt = MockPageTable::new(PZ, vec![mapped(Protection::read())]);
    let mut guard = lock(&mut pt, 0, PZ).unwrap();
    assert_eq!(guard.release(&mut pt), Ok(()));
    assert!(!pt.pinned(0));

    // Pin the page again: a second release of the spent guard must not
    // unpin it, since the unlock ran only once.
    let mut second = lock(&mut pt, 0, PZ).unwrap();
    assert_eq!(guard.release(&mut pt), Ok(()));
    assert!(pt.pinned(0));
    second.release(&mut pt).unwrap();
    assert!(!pt.pinned(0));
}

#[test]
fn lock_zero_size_fails() {
    let mut pt = MockPageTable::new(PZ, vec![mapped(Protection::read())]);
    assert!(matches!(lock(&mut pt, 0, 0), Err(Error::InvalidParameter("size"))));
}

#[test]
fn lock_beyond_the_table_fails_with_platform_error() {
    let mut pt = MockPageTable::new(PZ, vec![mapped(Protection::read())]);
    assert!(matches!(lock(&mut pt, 0, 2 * PZ), Err(Error::SystemCall(_))));
    assert!(!pt.pinned(0));
}

#[test]
fn unlock_releases_a_span_without_a_guard() {
    let mut pt = MockPageTable::new(PZ, vec![mapped(Protection::read()), mapped(Protection::read())]);
    let _guard = lock(&mut pt, 0, 2 * PZ).unwrap();
    assert!(pt.pinned(0));
    assert!(pt.pinned(PZ));
    unlock(&mut pt, 0, PZ).unwrap();
    assert!(!pt.pinned(0));
    assert!(pt.pinned(PZ));
    assert_eq!(unlock(&mut pt, 0, 0), Err(Error::InvalidParameter("size")));
}
