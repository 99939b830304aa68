use region::page;
use region::{round_to_page_boundaries, Error};

#[test]
fn round_to_page_boundaries_works() {
    let pz: usize = 4096;
    let values = [
        ((1, pz), (0, pz * 2)),
        ((0, pz - 1), (0, pz)),
        ((0, pz + 1), (0, pz * 2)),
        ((pz - 1, 1), (0, pz)),
        ((pz + 1, pz), (pz, pz * 2)),
        ((pz, pz), (pz, pz)),
    ];

    for ((before_address, before_size), (after_address, after_size)) in values {
        let (address, size) = round_to_page_boundaries(before_address, before_size, pz).unwrap();
        assert_eq!((address, size), (after_address, after_size));
    }
}

#[test]
fn rounding_concrete_scenario() {
    // Page size 4096: address 4097 with size 1 rounds to the one-page span
    // [4096, 8192); an already aligned pair is returned unchanged.
    let (address, size) = round_to_page_boundaries(4097, 1, 4096).unwrap();
    assert_eq!(address, 4096);
    assert_eq!(address + size, 8192);
    assert_eq!(round_to_page_boundaries(4096, 4096, 4096).unwrap(), (4096, 4096));
}

#[test]
fn rounding_zero_size_fails() {
    for pz in [1usize, 512, 4096, 65536] {
        for address in [0usize, 1, 4096, usize::MAX] {
            assert_eq!(
                round_to_page_boundaries(address, 0, pz),
                Err(Error::InvalidParameter("size"))
            );
        }
    }
}

#[test]
fn rounding_covers_and_is_minimal() {
    let pz: usize = 4096;
    for (address, size) in [(0usize, 1usize), (1, 1), (4095, 2), (4096, 1), (12288, 8192)] {
        let (a, s) = round_to_page_boundaries(address, size, pz).unwrap();
        assert_eq!(a % pz, 0);
        assert_eq!(s % pz, 0);
        assert!(a <= address);
        assert!(address + size <= a + s);
        assert!(a + s < address + size + pz);
    }
}

#[test]
fn floor_rounds_down() {
    assert_eq!(page::floor(0, 4096), 0);
    assert_eq!(page::floor(1, 4096), 0);
    assert_eq!(page::floor(4095, 4096), 0);
    assert_eq!(page::floor(4096, 4096), 4096);
    assert_eq!(page::floor(4097, 4096), 4096);
    assert_eq!(page::floor(usize::MAX, 4096), usize::MAX - 4095);
}

#[test]
fn ceil_rounds_up_and_saturates() {
    assert_eq!(page::ceil(0, 4096), 0);
    assert_eq!(page::ceil(1, 4096), 4096);
    assert_eq!(page::ceil(4096, 4096), 4096);
    assert_eq!(page::ceil(4097, 4096), 8192);
    // No page boundary lies above this address, so rounding up saturates
    // at the top of the address space instead of wrapping.
    assert_eq!(page::ceil(usize::MAX, 4096), usize::MAX);
    assert_eq!(page::ceil(usize::MAX - 4095, 4096), usize::MAX - 4095);
}

#[test]
fn floor_of_ceil_is_ceil() {
    for x in [0usize, 1, 4095, 4096, 4097, 123456789] {
        let c = page::ceil(x, 4096);
        assert_eq!(page::floor(c, 4096), c);
        assert!(page::floor(x, 4096) <= x);
        assert!(x <= c);
    }
}
