use core::marker::PhantomData;

use swiss_table::archive::{ArchivedUsize, Layout, Portable, RawRelPtr};
use swiss_table::error::{
    InvalidLength, InvalidLoadFactor, IteratorLengthMismatch, LayoutError, SerializeError,
    UnwrappedControlByte, VerifyError,
};
use swiss_table::iter::RawIter;
use swiss_table::ser::{Allocator, BoundedBuffer, Buffer, BufferFull, LimitReached, Writer};
use swiss_table::serialize::HashTableResolver;
use swiss_table::table::ArchivedHashTable;
use swiss_table::values::{ArchivedBytes, Bytes};

const LOAD: (usize, usize) = (7, 8);

fn table_at(pos: usize, offset: i32, len: u32, cap: u32) -> ArchivedHashTable<u64> {
    ArchivedHashTable {
        ptr: RawRelPtr { pos, offset },
        len: ArchivedUsize { native: len },
        cap: ArchivedUsize { native: cap },
        _phantom: PhantomData,
    }
}

/// Writes `items` as a table, and returns the archive and the table.
fn write_u64(items: &[u64], hashes: &[u64]) -> (Vec<u8>, ArchivedHashTable<u64>) {
    let mut buffer = Buffer::new();
    let resolver = ArchivedHashTable::<u64>::serialize_from_iter(
        items,
        items.len(),
        hashes,
        LOAD,
        &mut buffer,
    )
    .unwrap();
    let out = buffer.pos();
    let table = ArchivedHashTable::<u64>::resolve_from_len(items.len(), LOAD, resolver, out);
    (buffer.into_bytes(), table)
}

/// Checks a table in a context that grants any memory.
fn verify<E>(
    table: &ArchivedHashTable<u64>,
    archive: &[u8],
    check: impl Fn(&[u8]) -> Result<(), E>,
) -> Result<(), VerifyError<E>> {
    table
        .verify(
            archive,
            (),
            |context: (), _: usize, _: Layout| (context, Ok(())),
            |context: (), bytes: &[u8]| (context, check(bytes)),
            |context: (), _: usize, _: Layout| (context, Ok(())),
        )
        .1
}

fn scatter(n: u64) -> u64 {
    let mut x = n.wrapping_mul(0x9e37_79b9_7f4a_7c15);
    x ^= x >> 29;
    x = x.wrapping_mul(0xbf58_476d_1ce4_e5b9);
    x ^ (x >> 32)
}

#[test]
fn written_bytes_are_exact() {
    let mut buffer = Buffer::new();
    buffer.write(&[9, 9, 9]).unwrap();
    let hashes = [0, (5 << 57) + 1];
    let resolver = ArchivedHashTable::<u64>::serialize_from_iter(
        &[0x1111u64, 0x2222],
        2,
        &hashes,
        LOAD,
        &mut buffer,
    )
    .unwrap();
    assert_eq!(resolver, HashTableResolver { pos: 32 });
    let bytes = buffer.into_bytes();
    let mut expected = vec![9, 9, 9, 0, 0, 0, 0, 0];
    expected.extend_from_slice(&0x2222u64.to_le_bytes());
    expected.extend_from_slice(&[0; 8]);
    expected.extend_from_slice(&0x1111u64.to_le_bytes());
    expected.extend_from_slice(&[0, 0xff, 5, 0, 0xff, 5]);
    expected.extend_from_slice(&[0xff; 12]);
    assert_eq!(bytes, expected);
}

#[test]
fn entries_are_read_back() {
    for count in [1usize, 2, 5, 13, 14, 15, 18, 40, 100, 500] {
        let items: Vec<u64> = (0..count as u64).collect();
        let hashes: Vec<u64> = items.iter().map(|n| scatter(*n)).collect();
        let (archive, table) = write_u64(&items, &hashes);
        assert_eq!(table.len(), count);
        assert!(!table.is_empty());
        assert_eq!(
            table.capacity(),
            ArchivedHashTable::<u64>::capacity_from_len(count, LOAD).unwrap()
        );
        for k in 0..count {
            let wanted = items[k];
            let found = table.get_with(&archive, hashes[k], |entry: &u64| *entry == wanted);
            assert_eq!(found, Some(wanted));
        }
    }
}

#[test]
fn missing_entries_are_not_found() {
    let items: Vec<u64> = (0..100).collect();
    let hashes: Vec<u64> = items.iter().map(|n| scatter(*n)).collect();
    let (archive, table) = write_u64(&items, &hashes);
    for n in 100..200u64 {
        let found = table.get_with(&archive, scatter(n), |entry: &u64| *entry == n);
        assert_eq!(found, None);
    }
    assert_eq!(
        table.get_with(&archive, hashes[3], |_: &u64| false),
        None
    );
}

#[test]
fn equal_hashes_are_told_apart() {
    let items = [10u64, 20, 30, 40];
    let hashes = [77u64; 4];
    let (archive, table) = write_u64(&items, &hashes);
    for n in items {
        assert_eq!(
            table.get_with(&archive, 77, |entry: &u64| *entry == n),
            Some(n)
        );
    }
    // The first that is met is the first that was put in.
    assert_eq!(table.get_with(&archive, 77, |_: &u64| true), Some(10));
}

#[test]
fn other_tags_are_not_compared() {
    let items = [10u64];
    let hashes = [1u64 << 57];
    let (archive, table) = write_u64(&items, &hashes);
    assert_eq!(table.get_with(&archive, 2 << 57, |_: &u64| true), None);
    assert_eq!(table.get_with(&archive, 1 << 57, |_: &u64| true), Some(10));
}

#[test]
fn the_empty_table() {
    let (archive, table) = write_u64(&[], &[]);
    assert!(archive.is_empty());
    assert!(table.is_empty());
    assert_eq!(table.len(), 0);
    assert_eq!(table.capacity(), 0);
    assert_eq!(table.ptr.offset, 1);
    assert_eq!(table.get_with(&archive, 0, |_: &u64| true), None);
    let mut iter = table.raw_iter(&archive);
    assert_eq!(iter.len(), 0);
    assert_eq!(iter.next(&archive), None);
    assert_eq!(
        verify(&table, &archive, |_: &[u8]| -> Result<(), ()> { Err(()) }),
        Ok(())
    );
}

#[test]
fn entries_are_written_through_a_seal() {
    let items: Vec<u64> = (0..30).collect();
    let hashes: Vec<u64> = items.iter().map(|n| scatter(*n)).collect();
    let (mut archive, table) = write_u64(&items, &hashes);
    let before = archive.clone();
    let bytes = table
        .get_seal_with(&mut archive, hashes[7], |entry: &u64| *entry == 7)
        .unwrap();
    assert_eq!(bytes, &7u64.to_le_bytes());
    bytes.copy_from_slice(&1007u64.to_le_bytes());
    let changed = archive.iter().zip(before.iter()).filter(|(a, b)| a != b).count();
    assert_eq!(changed, 2);
    assert_eq!(
        table.get_with(&archive, hashes[7], |entry: &u64| *entry == 1007),
        Some(1007)
    );
    for k in 0..30usize {
        if k != 7 {
            let wanted = items[k];
            assert_eq!(
                table.get_with(&archive, hashes[k], |entry: &u64| *entry == wanted),
                Some(wanted)
            );
        }
    }
    let unchanged = archive.clone();
    assert!(table
        .get_seal_with(&mut archive, hashes[7], |entry: &u64| *entry == 7)
        .is_none());
    assert_eq!(archive, unchanged);
}

#[test]
fn iteration_yields_every_entry_once() {
    for count in [1usize, 3, 7, 8, 9, 20, 64, 200] {
        let items: Vec<u64> = (0..count as u64).collect();
        let hashes: Vec<u64> = items.iter().map(|n| scatter(*n)).collect();
        let (mut archive, table) = write_u64(&items, &hashes);
        let mut iter = table.raw_iter(&archive);
        let mut sealed = table.raw_iter_seal(&mut archive);
        let mut seen: Vec<u64> = Vec::new();
        let mut positions: Vec<usize> = Vec::new();
        for left in (1..=count).rev() {
            assert_eq!(iter.len(), left);
            let position = iter.next(&archive).unwrap();
            assert_eq!(sealed.next(&archive), Some(position));
            positions.push(position);
            seen.push(u64::read(&archive[position..position + 8]));
        }
        assert_eq!(iter.len(), 0);
        assert_eq!(iter.next(&archive), None);
        assert_eq!(iter.next(&archive), None);
        // Buckets come in ascending order, which is down in the archive.
        assert!(positions.windows(2).all(|pair| pair[0] > pair[1]));
        seen.sort();
        assert_eq!(seen, items);
    }
}

#[test]
fn an_iterator_of_nothing() {
    let mut iter = RawIter::<u64>::empty();
    assert_eq!(iter.len(), 0);
    assert_eq!(iter.next(&[]), None);
}

#[test]
fn invalid_load_factors_are_refused() {
    for (numerator, denominator) in [(0usize, 8usize), (7, 0), (9, 8), (0, 0)] {
        let mut buffer = Buffer::new();
        let error = ArchivedHashTable::<u64>::serialize_from_iter(
            &[1u64],
            1,
            &[1],
            (numerator, denominator),
            &mut buffer,
        )
        .unwrap_err();
        let load_factor = InvalidLoadFactor { numerator, denominator };
        assert_eq!(error, SerializeError::InvalidLoadFactor(load_factor));
        assert_eq!(buffer.pos(), 0);
    }
    assert_eq!(
        InvalidLoadFactor { numerator: 9, denominator: 80 }.message(),
        "invalid load factor 9 / 80, load factor must be a fraction in the range (0, 1]"
    );
    let mut buffer = Buffer::new();
    assert_eq!(
        ArchivedHashTable::<u64>::serialize_from_iter(
            &[0u64; 0],
            usize::MAX,
            &[],
            (0, 1),
            &mut buffer
        ),
        Err(SerializeError::InvalidLoadFactor(InvalidLoadFactor { numerator: 0, denominator: 1 }))
    );
    assert!(ArchivedHashTable::<u64>::serialize_from_iter(
        &[1u64],
        1,
        &[1],
        (8, 8),
        &mut buffer
    )
    .is_ok());
}

#[test]
fn too_many_items_are_refused() {
    let mut buffer = Buffer::new();
    let error = ArchivedHashTable::<u64>::serialize_from_iter(
        &[1u64, 2, 3],
        0,
        &[1, 2, 3],
        LOAD,
        &mut buffer,
    )
    .unwrap_err();
    let mismatch = IteratorLengthMismatch { expected: 0, actual: 3 };
    assert_eq!(error, SerializeError::IteratorLengthMismatch(mismatch));
    let error = ArchivedHashTable::<u64>::serialize_from_iter(
        &[1u64, 2, 3],
        2,
        &[1, 2, 3],
        LOAD,
        &mut buffer,
    )
    .unwrap_err();
    let mismatch = IteratorLengthMismatch { expected: 2, actual: 5 };
    assert_eq!(error, SerializeError::IteratorLengthMismatch(mismatch));
    assert_eq!(
        mismatch.message(),
        "iterator claimed that it contained 2 elements, but yielded 5 items during iteration"
    );
}

#[test]
fn fewer_items_or_hashes_leave_buckets_free() {
    let mut buffer = Buffer::new();
    let resolver = ArchivedHashTable::<u64>::serialize_from_iter(
        &[11u64, 22, 33],
        5,
        &[1, 2],
        LOAD,
        &mut buffer,
    )
    .unwrap();
    let table = ArchivedHashTable::<u64>::resolve_from_len(5, LOAD, resolver, buffer.pos());
    let archive = buffer.into_bytes();
    assert_eq!(table.capacity(), 6);
    assert_eq!(table.get_with(&archive, 1, |n: &u64| *n == 11), Some(11));
    assert_eq!(table.get_with(&archive, 2, |n: &u64| *n == 22), Some(22));
    assert_eq!(table.get_with(&archive, 3, |n: &u64| *n == 33), None);
}

#[test]
fn layouts_that_overflow_are_refused() {
    let none: [u64; 0] = [];
    let mut buffer = Buffer::new();
    for (len, load_factor, error) in [
        (usize::MAX / 4, (1, 8), LayoutError::CapacityOverflow),
        (usize::MAX - 10, (1, 1), LayoutError::ControlCountOverflow),
        (usize::MAX / 2, (1, 1), LayoutError::TooLarge),
    ] {
        assert_eq!(
            ArchivedHashTable::<u64>::serialize_from_iter(
                &none,
                len,
                &[],
                load_factor,
                &mut buffer
            )
            .unwrap_err(),
            SerializeError::Layout(error)
        );
    }
    assert_eq!(LayoutError::CapacityOverflow.message(), "overflow while adjusting capacity");
    assert_eq!(
        LayoutError::ControlCountOverflow.message(),
        "overflow while calculating buckets from adjusted capacity"
    );
    assert_eq!(
        LayoutError::TooLarge.message(),
        "the memory of the hash table is too large"
    );
    assert_eq!(
        ArchivedHashTable::<u64>::memory_layout(10, 25)
            .map(|(layout, offset)| (layout.size, layout.align, offset)),
        Ok((105, 8, 80))
    );
    let most = (isize::MAX as usize - 7 - 25) / 8;
    assert!(ArchivedHashTable::<u64>::memory_layout(most, 25).is_ok());
    assert_eq!(
        ArchivedHashTable::<u64>::memory_layout(most + 1, 25),
        Err(LayoutError::TooLarge)
    );
    assert_eq!(
        ArchivedHashTable::<u64>::control_count(20),
        Ok(35)
    );
    assert_eq!(
        ArchivedHashTable::<u64>::control_count(usize::MAX - 14),
        Err(LayoutError::ControlCountOverflow)
    );
}

#[test]
fn capacities() {
    for (len, load_factor, capacity) in [
        (0usize, (7usize, 8usize), 0usize),
        (1, (7, 8), 2),
        (7, (7, 8), 8),
        (14, (7, 8), 16),
        (18, (7, 8), 20),
        (100, (7, 8), 114),
        (100, (1, 2), 200),
        (100, (1, 1), 101),
    ] {
        assert_eq!(
            ArchivedHashTable::<u64>::capacity_from_len(len, load_factor),
            Ok(capacity)
        );
    }
}

#[test]
fn a_hash_without_an_empty_bucket() {
    // With 20 buckets, the windows of this hash leave out four of them.
    let items: Vec<u64> = (0..18).collect();
    let hashes = [5u64; 18];
    let mut buffer = Buffer::new();
    assert_eq!(
        ArchivedHashTable::<u64>::serialize_from_iter(&items, 18, &hashes, LOAD, &mut buffer)
            .unwrap_err(),
        SerializeError::NoEmptyBucket { item: 16 }
    );
    // The same windows may be full in a table that was written.
    let mut hashes = vec![5u64; 16];
    hashes.push(1);
    hashes.push(2);
    let (archive, table) = write_u64(&items, &hashes);
    assert_eq!(table.capacity(), 20);
    for k in 0..18usize {
        let wanted = items[k];
        assert_eq!(
            table.get_with(&archive, hashes[k], |n: &u64| *n == wanted),
            Some(wanted)
        );
    }
    assert_eq!(table.get_with(&archive, 5, |n: &u64| *n == 99), None);
}

#[test]
fn skipped_positions_do_not_bend_the_order() {
    // With 33 buckets, probing from 17 runs 17, 33, 1, 49, and comes to every bucket
    // but the first.
    let items: Vec<u64> = (0..29).collect();
    let hashes = [17u64; 29];
    let (archive, table) = write_u64(&items, &hashes);
    assert_eq!(table.capacity(), 33);
    for n in &items {
        assert_eq!(table.get_with(&archive, 17, |e: &u64| *e == *n), Some(*n));
    }
    assert_eq!(table.get_with(&archive, 17, |e: &u64| *e == 99), None);
    // The first window takes 16 entries, and the second the rest.
    let mut buckets = Vec::new();
    let mut iter = table.raw_iter(&archive);
    let controls = (table.ptr.pos as i64 + table.ptr.offset as i64) as usize;
    while let Some(position) = iter.next(&archive) {
        buckets.push((controls - position) / 8 - 1);
    }
    let expected: Vec<usize> = (1..14).chain(17..33).collect();
    assert_eq!(buckets, expected);
    assert_eq!(verify(&table, &archive, |_: &[u8]| -> Result<(), ()> { Ok(()) }), Ok(()));
    // From every start there is room for all entries.
    for start in 0..33u64 {
        let (archive, table) = write_u64(&items, &[start; 29]);
        for n in &items {
            assert_eq!(table.get_with(&archive, start, |e: &u64| *e == *n), Some(*n));
        }
    }
}

#[test]
fn fifteen_buckets_to_spare_are_enough() {
    for len in 15..60usize {
        let items: Vec<u64> = (0..len as u64).collect();
        let capacity = len + 15;
        for hash in [0u64, 7, 15, 16, 33, 1000, u64::MAX] {
            let hashes = vec![hash; len];
            let mut buffer = Buffer::new();
            assert!(ArchivedHashTable::<u64>::serialize_from_iter(
                &items,
                len,
                &hashes,
                (len, capacity),
                &mut buffer
            )
            .is_ok());
        }
        assert_eq!(
            ArchivedHashTable::<u64>::capacity_from_len(len, (len, capacity)),
            Ok(capacity)
        );
    }
}

#[test]
fn tables_of_whole_windows_take_any_hashes() {
    // 42 entries take 48 buckets.
    let items: Vec<u64> = (0..42).collect();
    for start in 0..48u64 {
        let (archive, table) = write_u64(&items, &[start; 42]);
        assert_eq!(table.capacity(), 48);
        for n in &items {
            assert_eq!(table.get_with(&archive, start, |e: &u64| *e == *n), Some(*n));
        }
        assert_eq!(table.get_with(&archive, start, |e: &u64| *e == 99), None);
    }
}

#[test]
fn full_tables_of_a_power_of_two() {
    // 28 entries take 32 buckets, and any hashes find room there.
    let items: Vec<u64> = (0..28).collect();
    let hashes = [9u64; 28];
    let (archive, table) = write_u64(&items, &hashes);
    assert_eq!(table.capacity(), 32);
    for n in items {
        assert_eq!(table.get_with(&archive, 9, |e: &u64| *e == n), Some(n));
    }
    assert_eq!(table.get_with(&archive, 9, |e: &u64| *e == 99), None);
}

fn text(bytes: &[u8]) -> Bytes {
    Bytes { bytes: bytes.to_vec() }
}

#[test]
fn items_are_resolved_where_they_stand() {
    let texts = [text(b"one"), text(b"three"), text(b"")];
    let hashes = [scatter(1), scatter(3), scatter(0)];
    let mut writer = BoundedBuffer::new(1000);
    let resolver = ArchivedHashTable::<ArchivedBytes>::serialize_from_iter(
        &texts,
        3,
        &hashes,
        LOAD,
        &mut writer,
    )
    .unwrap();
    assert_eq!(resolver.pos, 8 + 4 * 8);
    let table = ArchivedHashTable::<ArchivedBytes>::resolve_from_len(3, LOAD, resolver, 1000);
    let archive = writer.into_bytes();
    assert_eq!(&archive[..8], b"onethree");
    let mut iter = table.raw_iter(&archive);
    let mut seen: Vec<Vec<u8>> = Vec::new();
    while let Some(position) = iter.next(&archive) {
        let text = ArchivedBytes::read(&archive[position..position + 8]);
        let start = position - text.back as usize;
        seen.push(archive[start..start + text.len as usize].to_vec());
    }
    seen.sort();
    assert_eq!(seen, vec![b"".to_vec(), b"one".to_vec(), b"three".to_vec()]);
    let found = table.get_with(&archive, hashes[1], |text: &ArchivedBytes| text.len == 5);
    assert_eq!(found.map(|text| text.len), Some(5));
}

#[test]
fn errors_of_the_serializer_are_passed_on() {
    let long = [7u8; 38];
    let write = |texts: &[Bytes], limit: usize| {
        let mut writer = BoundedBuffer::new(limit);
        let hashes: Vec<u64> = (0..texts.len() as u64).collect();
        let result = ArchivedHashTable::<ArchivedBytes>::serialize_from_iter(
            texts,
            texts.len(),
            &hashes,
            LOAD,
            &mut writer,
        );
        (result.is_ok(), result.err(), writer.into_bytes())
    };
    let refused = |pos: usize, limit: usize, written: &[u8]| {
        let error = SerializeError::Serializer(LimitReached { pos, limit });
        (false, Some(error), written.to_vec())
    };
    // The memory of 2 * 8 bytes for the resolvers is lent before any item is written.
    let texts = [text(b"one"), text(b"three")];
    assert_eq!(write(&texts, 15), refused(0, 15, b""));
    // The items are written, then the memory of 3 * 8 + 18 bytes is lent.
    assert_eq!(write(&texts, 16), refused(8, 16, b"onethree"));
    assert_eq!(write(&texts, 41), refused(8, 41, b"onethree"));
    // The memory is written at the end.
    assert_eq!(write(&texts, 49), refused(8, 49, b"onethree"));
    assert!(write(&texts, 50).0);
    assert_eq!(write(&texts, 50).2.len(), 50);
    // An item without room is the last that is written, though another would have room.
    let texts = [text(b"one"), text(&long), text(b"a")];
    assert_eq!(write(&texts, 40), refused(3, 40, b"one"));
    // Padding comes before the memory of 2 * 8 + 17 bytes.
    let texts = [text(&long)];
    assert_eq!(write(&texts, 39), refused(38, 39, &long));
    assert_eq!(write(&texts, 40), refused(40, 40, &[&long[..], &[0, 0]].concat()));
    assert!(write(&texts, 73).0);
}

#[test]
fn a_written_table_is_valid() {
    for count in [1usize, 14, 15, 20, 100] {
        let items: Vec<u64> = (0..count as u64).collect();
        let hashes: Vec<u64> = items.iter().map(|n| scatter(*n)).collect();
        let (archive, table) = write_u64(&items, &hashes);
        let result = verify(&table, &archive, |bytes: &[u8]| {
            if u64::read(bytes) < count as u64 {
                Ok(())
            } else {
                Err(u64::read(bytes))
            }
        });
        assert_eq!(result, Ok(()));
    }
}

#[test]
fn invalid_tables_are_refused() {
    let items = [100u64, 200, 300];
    let hashes = [0u64, 1, 2];
    let (archive, table) = write_u64(&items, &hashes);
    assert_eq!(table.capacity(), 4);
    let accept = |_: &[u8]| -> Result<(), ()> { Ok(()) };
    let pos = table.ptr.pos;
    let offset = table.ptr.offset;

    // Lengths.
    for (len, cap) in [(4u32, 4u32), (5, 4), (1, 0)] {
        let error = InvalidLength { len: len as usize, cap: cap as usize };
        assert_eq!(
            verify(&table_at(pos, offset, len, cap), &archive, accept),
            Err(VerifyError::InvalidLength(error))
        );
    }
    assert_eq!(
        InvalidLength { len: 5, cap: 4 }.message(),
        "hash table length must be strictly less than its capacity (length: 5, capacity: 4)"
    );

    // Bounds.
    assert_eq!(
        verify(&table_at(pos, offset, 3, 40), &archive, accept),
        Err(VerifyError::OutOfBounds)
    );
    assert_eq!(
        verify(&table_at(pos, offset + 8, 3, 4), &archive, accept),
        Err(VerifyError::OutOfBounds)
    );
    assert_eq!(
        verify(&table_at(0, -5, 0, 4), &archive, accept),
        Err(VerifyError::OutOfBounds)
    );

    // A context may grant memory at any position.
    let mut shifted = vec![0u8];
    shifted.extend_from_slice(&archive);
    assert_eq!(verify(&table_at(pos + 1, offset, 3, 4), &shifted, accept), Ok(()));

    // Entries: the first bucket whose entry is not accepted.
    assert_eq!(
        verify(&table, &archive, |bytes: &[u8]| {
            let n = u64::read(bytes);
            if n == 100 {
                Ok(())
            } else {
                Err(n)
            }
        }),
        Err(VerifyError::Entry { index: 1, error: 200 })
    );

    // Repeated control bytes.
    let controls = (pos as i64 + offset as i64) as usize;
    for index in [4usize, 6, 7] {
        let mut broken = archive.clone();
        broken[controls + index] ^= 1;
        assert_eq!(
            verify(&table, &broken, accept),
            Err(VerifyError::UnwrappedControlByte(UnwrappedControlByte { index }))
        );
    }
    // There is no bucket that a later byte could repeat.
    let mut other = archive.clone();
    other[controls + 8] ^= 1;
    assert_eq!(verify(&table, &other, accept), Ok(()));
    assert_eq!(
        UnwrappedControlByte { index: 4096 }.message(),
        "unwrapped control byte at index 4096"
    );
}

/// What a context was asked.
#[derive(Debug, PartialEq, Clone)]
enum Asked {
    Enter(usize, usize, usize),
    Check(u64),
    Leave(usize, usize, usize),
}

/// Checks a table in a context that notes what it is asked, and fails at the given
/// question.
fn verify_noting(
    table: &ArchivedHashTable<u64>,
    archive: &[u8],
    fail_at: usize,
) -> (Vec<Asked>, Result<(), VerifyError<usize>>) {
    let note = |mut asked: Vec<Asked>, question: Asked| {
        let count = asked.len();
        asked.push(question);
        let answer = if count == fail_at { Err(count) } else { Ok(()) };
        (asked, answer)
    };
    table.verify(
        archive,
        Vec::new(),
        |asked: Vec<Asked>, at: usize, block: Layout| {
            note(asked, Asked::Enter(at, block.size, block.align))
        },
        |asked: Vec<Asked>, bytes: &[u8]| note(asked, Asked::Check(u64::read(bytes))),
        |asked: Vec<Asked>, at: usize, block: Layout| {
            note(asked, Asked::Leave(at, block.size, block.align))
        },
    )
}

#[test]
fn a_context_is_asked_once_about_everything() {
    let (archive, table) = write_u64(&[100, 200, 300], &[0, 1, 3]);
    let all = vec![
        Asked::Enter(0, 4 * 8 + 19, 8),
        Asked::Check(100),
        Asked::Check(200),
        Asked::Check(300),
        Asked::Leave(0, 4 * 8 + 19, 8),
    ];
    assert_eq!(verify_noting(&table, &archive, 9), (all.clone(), Ok(())));
    // Nothing is asked after a refusal.
    for fail_at in 0..5usize {
        let (asked, result) = verify_noting(&table, &archive, fail_at);
        assert_eq!(asked, all[..fail_at + 1].to_vec());
        let error = match fail_at {
            0 | 4 => VerifyError::Memory(fail_at),
            1 | 2 => VerifyError::Entry { index: fail_at - 1, error: fail_at },
            _ => VerifyError::Entry { index: 3, error: fail_at },
        };
        assert_eq!(result, Err(error));
    }
    // A control byte that is not repeated is found after the entries.
    let controls = (table.ptr.pos as i64 + table.ptr.offset as i64) as usize;
    let mut broken = archive.clone();
    broken[controls + 4] ^= 1;
    let (asked, result) = verify_noting(&table, &broken, 9);
    assert_eq!(asked, all[..4].to_vec());
    assert_eq!(
        result,
        Err(VerifyError::UnwrappedControlByte(UnwrappedControlByte { index: 4 }))
    );
    // The position of the memory wraps around.
    let (asked, result) = verify_noting(&table_at(0, -5, 0, 4), &archive, 9);
    assert_eq!(asked, vec![Asked::Enter(37usize.wrapping_neg(), 51, 8)]);
    assert_eq!(result, Err(VerifyError::OutOfBounds));
    // Sizes that make no sense are not asked about.
    let (asked, result) = verify_noting(&table_at(0, 0, 4, 4), &archive, 0);
    assert_eq!(asked, Vec::new());
    assert_eq!(result, Err(VerifyError::InvalidLength(InvalidLength { len: 4, cap: 4 })));
    assert_eq!(verify_noting(&table_at(0, 0, 0, 0), &archive, 0), (Vec::new(), Ok(())));
}

#[test]
fn archived_sizes_keep_32_bits() {
    let table = ArchivedHashTable::<u64>::resolve_from_len(
        (1 << 32) + 3,
        (1, 1),
        HashTableResolver { pos: 500 },
        600,
    );
    assert_eq!(table.len(), 3);
    assert_eq!(table.capacity(), 4);
    assert_eq!(table.ptr, RawRelPtr { pos: 600, offset: -100 });
    assert_eq!(table.ptr.as_position(), 500);
}

#[test]
fn scratch_memory_is_initialized() {
    // Whatever the block held before, it ends up the same.
    let items = [1u64, 2, 3];
    let hashes = [1u64 << 57, 5, 5 + (9 << 57)];
    let size = 4 * 8 + 19;
    let filled = |byte: u8| {
        ArchivedHashTable::<u64>::fill_memory(
            vec![byte; size],
            &items,
            &[(), (), ()],
            &hashes,
            4,
            0,
        )
    };
    assert_eq!(filled(0), filled(0xaa));
    let memory = filled(0x55).unwrap();
    assert_eq!(&memory[..8], &[0u8; 8]);
    assert_eq!(&memory[24..32], &1u64.to_le_bytes());
    assert_eq!(&memory[32..40], &[1, 0, 9, 0xff, 1, 0, 9, 0xff]);
    assert_eq!(&memory[40..], &[0xff; 11]);
}

#[test]
fn scratch_memory_is_lent() {
    let layout = Layout { size: 20, align: 8 };
    let mut buffer = Buffer::new();
    let block = buffer.push_alloc(layout).unwrap();
    assert_eq!(block.len(), 20);
    assert_eq!(buffer.pop_alloc(block, layout), Ok(()));
    assert_eq!(buffer.pos(), 0);
    let mut bounded = BoundedBuffer::new(20);
    let block = bounded.push_alloc(layout).unwrap();
    assert_eq!(block.len(), 20);
    assert_eq!(bounded.pop_alloc(block, layout), Ok(()));
    assert_eq!(
        bounded.push_alloc(Layout { size: 21, align: 1 }),
        Err(LimitReached { pos: 0, limit: 20 })
    );
}

#[test]
fn buffers() {
    let mut buffer = Buffer::new();
    assert_eq!(buffer.pos(), 0);
    assert_eq!(buffer.write(&[1, 2, 3]), Ok::<(), BufferFull>(()));
    assert_eq!(buffer.pos(), 3);
    assert_eq!(swiss_table::ser::align_to(&mut buffer, 4), Ok(4));
    assert_eq!(swiss_table::ser::align_to(&mut buffer, 4), Ok(4));
    assert_eq!(swiss_table::ser::align_to(&mut buffer, 1), Ok(4));
    assert_eq!(buffer.into_bytes(), vec![1, 2, 3, 0]);
}

#[test]
fn small_integers_are_read_back() {
    let mut buffer = Buffer::new();
    let items = [7u32, 8, 9];
    let hashes = [scatter(7), scatter(8), scatter(9)];
    let resolver =
        ArchivedHashTable::<u32>::serialize_from_iter(&items, 3, &hashes, (1, 2), &mut buffer)
            .unwrap();
    let table = ArchivedHashTable::<u32>::resolve_from_len(3, (1, 2), resolver, buffer.pos());
    let archive = buffer.into_bytes();
    assert_eq!(archive.len(), 6 * 4 + 21);
    for k in 0..3usize {
        let wanted = items[k];
        assert_eq!(
            table.get_with(&archive, hashes[k], |n: &u32| *n == wanted),
            Some(wanted)
        );
    }
}

#[test]
fn a_valid_table_without_an_empty_byte_can_be_read() {
    // Every control byte of 20 buckets is full, and repeats as it should.
    let archive = vec![0u8; 20 * 8 + 35];
    let table = table_at(20 * 8, 0, 1, 20);
    assert_eq!(verify(&table, &archive, |_: &[u8]| -> Result<(), ()> { Ok(()) }), Ok(()));
    for hash in 0..40u64 {
        assert_eq!(table.get_with(&archive, hash, |_: &u64| false), None);
        assert_eq!(table.get_with(&archive, hash, |_: &u64| true), Some(0));
        assert_eq!(table.get_with(&archive, hash | (3 << 57), |_: &u64| true), None);
    }
}

#[test]
fn small_tables_take_any_hashes() {
    for count in 1..=14usize {
        let items: Vec<u64> = (0..count as u64).collect();
        for hash in [0u64, 3, 12, u64::MAX] {
            let hashes = vec![hash; count];
            let (archive, table) = write_u64(&items, &hashes);
            assert!(table.capacity() <= 16);
            for n in &items {
                assert_eq!(table.get_with(&archive, hash, |e: &u64| e == n), Some(*n));
            }
            assert_eq!(table.get_with(&archive, hash, |e: &u64| *e == 99), None);
        }
    }
}

#[test]
fn entries_are_written_while_iterating() {
    let items: Vec<u64> = (0..50).collect();
    let hashes: Vec<u64> = items.iter().map(|n| scatter(*n)).collect();
    let (mut archive, table) = write_u64(&items, &hashes);
    let mut iter = table.raw_iter_seal(&mut archive);
    while let Some(position) = iter.next(&archive) {
        assert_eq!(position % 8, 0);
        let doubled = 2 * u64::read(&archive[position..position + 8]);
        archive[position..position + 8].copy_from_slice(&doubled.to_le_bytes());
    }
    for k in 0..50usize {
        let wanted = 2 * items[k];
        for _ in 0..2 {
            assert_eq!(
                table.get_with(&archive, hashes[k], |e: &u64| *e == wanted),
                Some(wanted)
            );
        }
        let bytes = table.get_seal_with(&mut archive, hashes[k], |e: &u64| *e == wanted);
        assert_eq!(bytes.map(|bytes| u64::read(bytes)), Some(wanted));
    }
}

#[test]
fn a_table_after_other_bytes_is_valid_too() {
    let items: Vec<u64> = (0..25).collect();
    let hashes: Vec<u64> = items.iter().map(|n| scatter(*n)).collect();
    for before in 0..9usize {
        let mut buffer = Buffer::new();
        buffer.write(&vec![1u8; before]).unwrap();
        let resolver = ArchivedHashTable::<u64>::serialize_from_iter(
            &items,
            25,
            &hashes,
            LOAD,
            &mut buffer,
        )
        .unwrap();
        // The archive goes on after the memory of the table.
        buffer.write(&[1, 2, 3]).unwrap();
        let table = ArchivedHashTable::<u64>::resolve_from_len(25, LOAD, resolver, buffer.pos());
        let archive = buffer.into_bytes();
        let accept = |_: &[u8]| -> Result<(), ()> { Ok(()) };
        assert_eq!(verify(&table, &archive, accept), Ok(()));
        for k in 0..25usize {
            let wanted = items[k];
            assert_eq!(
                table.get_with(&archive, hashes[k], |e: &u64| *e == wanted),
                Some(wanted)
            );
        }
    }
}
