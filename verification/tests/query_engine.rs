use region::{
    query, query_range, Error, MockPage, MockPageTable, PageAttrs, Protection, Region,
};

const PZ: usize = 4096;

fn attrs(protection: Protection) -> PageAttrs {
    PageAttrs { protection, committed: true, guarded: false, shared: false }
}

fn mapped(protection: Protection) -> MockPage {
    MockPage { attrs: Some(attrs(protection)), locked: false }
}

fn unmapped() -> MockPage {
    MockPage { attrs: None, locked: false }
}

#[test]
fn query_returns_one_page_region() {
    let pt = MockPageTable::new(
        PZ,
        vec![mapped(Protection::read()), mapped(Protection::read_write())],
    );
    let r = query(&pt, PZ + 1).unwrap();
    assert_eq!(r.as_ptr(), PZ);
    assert_eq!(r.len(), PZ);
    assert_eq!(r.protection(), Protection::read_write());
    assert!(r.is_readable());
    assert!(r.is_writable());
    assert!(!r.is_executable());
    assert!(r.is_committed());
    assert!(!r.is_guarded());
    assert!(!r.is_shared());
}

#[test]
fn query_unmapped_address_fails() {
    let pt = MockPageTable::new(PZ, vec![mapped(Protection::read()), unmapped()]);
    assert_eq!(query(&pt, PZ), Err(Error::UnmappedRegion));
    assert_eq!(query(&pt, 5 * PZ), Err(Error::UnmappedRegion));
}

#[test]
fn query_range_coalesces_three_pages_then_one() {
    // Pages 0..3 share their properties and page 3 differs: the span over
    // all four pages yields exactly two regions, the first spanning three
    // pages.
    let pt = MockPageTable::new(
        PZ,
        vec![
            mapped(Protection::read_write()),
            mapped(Protection::read_write()),
            mapped(Protection::read_write()),
            mapped(Protection::read()),
        ],
    );
    let regions = query_range(&pt, 0, 4 * PZ).unwrap();
    assert_eq!(regions.len(), 2);
    assert_eq!(regions[0].as_ptr(), 0);
    assert_eq!(regions[0].len(), 3 * PZ);
    assert_eq!(regions[0].protection(), Protection::read_write());
    assert_eq!(regions[1].as_ptr(), 3 * PZ);
    assert_eq!(regions[1].len(), PZ);
    assert_eq!(regions[1].protection(), Protection::read());
}

#[test]
fn query_range_does_not_merge_differing_flags() {
    // Equal protection but a different guard flag keeps pages apart.
    let mut slots = vec![mapped(Protection::read()), mapped(Protection::read())];
    slots[1].attrs =
        Some(PageAttrs { protection: Protection::read(), committed: true, guarded: true, shared: false });
    let pt = MockPageTable::new(PZ, slots);
    let regions = query_range(&pt, 0, 2 * PZ).unwrap();
    assert_eq!(regions.len(), 2);
    assert!(!regions[0].is_guarded());
    assert!(regions[1].is_guarded());
}

#[test]
fn query_range_rounds_its_span() {
    let pt = MockPageTable::new(
        PZ,
        vec![mapped(Protection::read()), mapped(Protection::read_write())],
    );
    // One byte at address PZ + 1 touches only page 1.
    let regions = query_range(&pt, PZ + 1, 1).unwrap();
    assert_eq!(regions.len(), 1);
    assert_eq!(regions[0].as_ptr(), PZ);
    assert_eq!(regions[0].len(), PZ);
    assert_eq!(regions[0].protection(), Protection::read_write());
    // One byte starting on the last byte of page 0 straddles both pages.
    let both = query_range(&pt, PZ - 1, 2).unwrap();
    assert_eq!(both.len(), 2);
    assert_eq!(both[0].len(), PZ);
    assert_eq!(both[1].len(), PZ);
}

#[test]
fn query_range_zero_size_fails() {
    let pt = MockPageTable::new(PZ, vec![mapped(Protection::read())]);
    assert_eq!(query_range(&pt, 0, 0), Err(Error::InvalidParameter("size")));
}

#[test]
fn query_range_aborts_on_unmapped_page() {
    let pt = MockPageTable::new(
        PZ,
        vec![mapped(Protection::read()), unmapped(), mapped(Protection::read())],
    );
    assert_eq!(query_range(&pt, 0, 3 * PZ), Err(Error::UnmappedRegion));
}

#[test]
fn default_region_is_an_empty_placeholder() {
    let r = Region::default();
    assert!(r.is_empty());
    assert_eq!(r.len(), 0);
    assert_eq!(r.as_ptr(), 0);
    assert_eq!(r.as_range(), 0..0);
    assert_eq!(r.protection(), Protection::none());
    assert!(r.is_committed());
    assert!(!r.is_guarded());
    assert!(!r.is_shared());
    assert!(!r.is_readable());
}

#[test]
fn region_as_range_spans_the_region() {
    let pt = MockPageTable::new(PZ, vec![mapped(Protection::read()), mapped(Protection::read())]);
    let regions = query_range(&pt, 0, 2 * PZ).unwrap();
    assert_eq!(regions.len(), 1);
    let range = regions[0].as_range();
    assert_eq!(range.start, 0);
    assert_eq!(range.end, 2 * PZ);
}
