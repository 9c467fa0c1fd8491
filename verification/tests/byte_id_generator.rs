use biors::util::byte_id_generator::{get_id, get_id_unchecked, ByteIdGenerator};

/// Reads bytes as a number, most significant byte first
fn read_big_endian(bytes: &[u8]) -> u64 {
    let mut value: u64 = 0;
    for byte in bytes {
        value = value * 256 + *byte as u64;
    }
    value
}

/// Ensures that the from_max function calculates the correct minimum number of bytes to use
#[test]
fn from_max_byte_count() {
    let a = ByteIdGenerator::from_max(100);
    let b = ByteIdGenerator::from_max((std::u8::MAX as u64) + 1);
    let c = ByteIdGenerator::from_max(0x10000);
    let d = ByteIdGenerator::from_max(std::u64::MAX - 500);
    let e = ByteIdGenerator::from_max(std::u64::MAX);

    assert_eq!(a.num_bytes(), 1);
    assert_eq!(b.num_bytes(), 2);
    assert_eq!(c.num_bytes(), 3);
    assert_eq!(d.num_bytes(), 8);
    assert_eq!(e.num_bytes(), 8);
}

/// Ensures that the correct bytes are returned
#[test]
fn byte_result() {
    let a = ByteIdGenerator::from_byte_count(3);
    assert_eq!(a.get_id(33).unwrap(), vec![0x00, 0x00, 0x21], "For 33");
    assert_eq!(a.get_id(256).unwrap(), vec![0x00, 0x01, 0x00], "For 256");
    assert_eq!(a.get_id(0xC1045).unwrap(), vec![0x0C, 0x10, 0x45], "For 0xC1045");

    let a = ByteIdGenerator::from_byte_count(2);
    assert_eq!(a.get_id(33).unwrap(), vec![0x00, 0x21], "For 33");
    assert_eq!(a.get_id(256).unwrap(), vec![0x01, 0x00], "For 256");
}

/// Ensures that get_id() will fail when expected
#[test]
fn bad_idx() {
    let a = ByteIdGenerator::from_byte_count(2);

    match a.get_id(0x10000) {
        Ok(_) => panic!("get_id(0x10000) worked for two byte generator"),
        Err(_) => (),
    }

    let a = ByteIdGenerator::from_max(345);

    match a.get_id(346) {
        Ok(_) => panic!("get_id(346) worked for byte generator with max 345"),
        Err(_) => (),
    }
}

/// Test iteration from a single byte construction
#[test]
fn iteration_byte() {
    let a = ByteIdGenerator::from_byte_count(1);

    let mut expected: u8 = 0;
    let mut ids = a.iter();
    while let Some(i) = ids.next() {
        assert_eq!(i, vec![expected]);
        if expected < std::u8::MAX {
            expected += 1;
        }
    }
}

/// Tests iteration from a multiple byte construction
#[test]
fn iteration_bytes() {
    let a = ByteIdGenerator::from_byte_count(2);

    let mut expected_low: u8 = 0;
    let mut expected_high: u8 = 0;
    let mut ids = a.iter();
    while let Some(i) = ids.next() {
        assert_eq!(i, vec![expected_high, expected_low]);

        if expected_low < std::u8::MAX {
            expected_low += 1;
            continue;
        } else {
            expected_low = 0;
            if expected_high < std::u8::MAX {
                expected_high += 1;
            }
        }
    }
}

/// Test iteration from a max construction
#[test]
fn iteration_max() {
    let a = ByteIdGenerator::from_max(32);

    let mut expected: u8 = 0;
    let mut ids = a.iter();
    while let Some(i) = ids.next() {
        assert_eq!(i, vec![expected]);
        expected += 1;
    }
}

/// The width is the least that holds the maximum, at each power of 256
#[test]
fn from_max_is_minimal() {
    assert_eq!(ByteIdGenerator::from_max(0).num_bytes(), 0);
    assert_eq!(ByteIdGenerator::from_max(1).num_bytes(), 1);
    assert_eq!(ByteIdGenerator::from_max(0xFF).num_bytes(), 1);
    assert_eq!(ByteIdGenerator::from_max(0x100).num_bytes(), 2);
    assert_eq!(ByteIdGenerator::from_max(0xFFFF).num_bytes(), 2);
    assert_eq!(ByteIdGenerator::from_max(0xFF_FFFF).num_bytes(), 3);
    assert_eq!(ByteIdGenerator::from_max(0x100_0000).num_bytes(), 4);
    assert_eq!(ByteIdGenerator::from_max(0xFFFF_FFFF).num_bytes(), 4);
    assert_eq!(ByteIdGenerator::from_max(0x1_0000_0000).num_bytes(), 5);
    assert_eq!(ByteIdGenerator::from_max(0xFFFF_FFFF_FFFF).num_bytes(), 6);
    assert_eq!(ByteIdGenerator::from_max(0xFF_FFFF_FFFF_FFFF).num_bytes(), 7);
    assert_eq!(ByteIdGenerator::from_max(0x100_0000_0000_0000).num_bytes(), 8);
    assert_eq!(ByteIdGenerator::from_max(0x100_0000_0000_0001).num_bytes(), 8);
}

/// The maximum lies between what one byte fewer holds and what the width holds
#[test]
fn from_max_bounds() {
    for max_idx in [1u64, 77, 255, 256, 65535, 65536, 1 << 40, u64::MAX / 3, u64::MAX] {
        let g = ByteIdGenerator::from_max(max_idx);
        let n = g.num_bytes();
        assert_eq!(g.max(), max_idx);
        assert!(n >= 1 && n <= 8);
        if n < 8 {
            assert!(max_idx <= (1u64 << (8 * n)) - 1);
        }
        assert!(max_idx > (1u64 << (8 * (n - 1))) - 1);
    }
}

/// A generator made from a byte count holds every index of that many bytes
#[test]
fn from_byte_count_max() {
    assert_eq!(ByteIdGenerator::from_byte_count(0).max(), 0);
    assert_eq!(ByteIdGenerator::from_byte_count(0).num_bytes(), 0);
    assert_eq!(ByteIdGenerator::from_byte_count(1).max(), 0xFF);
    assert_eq!(ByteIdGenerator::from_byte_count(2).max(), 0xFFFF);
    assert_eq!(ByteIdGenerator::from_byte_count(3).max(), 0xFF_FFFF);
    assert_eq!(ByteIdGenerator::from_byte_count(7).max(), 0xFF_FFFF_FFFF_FFFF);
    assert_eq!(ByteIdGenerator::from_byte_count(8).max(), u64::MAX);
    assert_eq!(ByteIdGenerator::from_byte_count(8).num_bytes(), 8);
}

/// Reading an identifier back gives the index
#[test]
fn get_id_round_trip() {
    let g = ByteIdGenerator::from_max(0xABCDEF);
    for idx in [0u64, 1, 255, 256, 0x1234, 0xABCDEE, 0xABCDEF] {
        let id = g.get_id(idx).unwrap();
        assert_eq!(id.len(), 3);
        assert_eq!(read_big_endian(&id), idx);
    }
    let g = ByteIdGenerator::from_byte_count(8);
    for idx in [0u64, 0x0102_0304_0506_0708, u64::MAX] {
        let id = g.get_id(idx).unwrap();
        assert_eq!(id.len(), 8);
        assert_eq!(read_big_endian(&id), idx);
    }
    assert_eq!(
        g.get_id(0x0102_0304_0506_0708).unwrap(),
        vec![1, 2, 3, 4, 5, 6, 7, 8]
    );
}

/// The generator checks against its maximum, not against its width
#[test]
fn get_id_at_the_maximum() {
    let g = ByteIdGenerator::from_max(345);
    assert_eq!(g.get_id(345).unwrap(), vec![0x01, 0x59]);
    assert!(g.get_id(346).is_err());
    assert!(g.get_id(u64::MAX).is_err());
    let g = ByteIdGenerator::from_max(0);
    assert_eq!(g.get_id(0).unwrap(), Vec::<u8>::new());
    assert!(g.get_id(1).is_err());
}

/// The free function checks against what the byte count holds
#[test]
fn free_get_id() {
    assert_eq!(get_id(33, 3).unwrap(), vec![0x00, 0x00, 0x21]);
    assert_eq!(get_id(0xFFFF, 2).unwrap(), vec![0xFF, 0xFF]);
    assert!(get_id(0x10000, 2).is_err());
    assert_eq!(get_id(0, 0).unwrap(), Vec::<u8>::new());
    assert!(get_id(1, 0).is_err());
    assert_eq!(get_id(u64::MAX, 8).unwrap(), vec![0xFF; 8]);
    assert_eq!(get_id(0x0102, 9).unwrap(), vec![0, 0, 0, 0, 0, 0, 0, 1, 2]);
}

/// Without the check an index that does not fit loses its high bytes
#[test]
fn unchecked_id_truncates() {
    assert_eq!(get_id_unchecked(0x12345, 2), vec![0x23, 0x45]);
    assert_eq!(get_id_unchecked(0x12345, 3), vec![0x01, 0x23, 0x45]);
    assert_eq!(get_id_unchecked(0x12345, 0), Vec::<u8>::new());
    assert_eq!(get_id_unchecked(0x100, 1), vec![0x00]);
    let g = ByteIdGenerator::from_max(345);
    assert_eq!(g.get_id_unchecked(0x12345), vec![0x23, 0x45]);
    assert_eq!(g.get_id_unchecked(7), vec![0x00, 0x07]);
}

/// A walk hands out one identifier for each index and can be started again
#[test]
fn iteration_counts() {
    let g = ByteIdGenerator::from_max(32);
    for _ in 0..2 {
        let mut ids = g.iter();
        let mut count = 0;
        while let Some(_) = ids.next() {
            count += 1;
        }
        assert_eq!(count, 33);
        assert_eq!(ids.next(), None);
        assert_eq!(ids.next(), None);
    }
    let g = ByteIdGenerator::from_byte_count(2);
    let mut ids = g.iter();
    let mut count = 0;
    let mut last = Vec::new();
    while let Some(id) = ids.next() {
        count += 1;
        last = id;
    }
    assert_eq!(count, 65536);
    assert_eq!(last, vec![0xFF, 0xFF]);
    let g = ByteIdGenerator::from_max(0);
    let mut ids = g.iter();
    assert_eq!(ids.next(), Some(Vec::new()));
    assert_eq!(ids.next(), None);
}

/// The low byte wraps before the next byte goes up
#[test]
fn iteration_roll_over() {
    let g = ByteIdGenerator::from_max(0x0201);
    let mut ids = g.iter();
    let mut seen = Vec::new();
    while let Some(id) = ids.next() {
        seen.push(id);
    }
    assert_eq!(seen.len(), 0x0202);
    assert_eq!(seen[0xFF], vec![0x00, 0xFF]);
    assert_eq!(seen[0x100], vec![0x01, 0x00]);
    assert_eq!(seen[0x1FF], vec![0x01, 0xFF]);
    assert_eq!(seen[0x200], vec![0x02, 0x00]);
    assert_eq!(seen[0x201], vec![0x02, 0x01]);
}

/// The hint counts what comes after the next identifier
#[test]
fn iteration_size_hint() {
    let g = ByteIdGenerator::from_max(32);
    let mut ids = g.iter();
    assert_eq!(ids.size_hint(), (32, Some(32)));
    ids.next();
    assert_eq!(ids.size_hint(), (31, Some(31)));
    while let Some(_) = ids.next() {}
    assert_eq!(ids.size_hint(), (0, Some(0)));
    let g = ByteIdGenerator::from_byte_count(2);
    assert_eq!(g.iter().size_hint(), (65535, Some(65535)));
}
