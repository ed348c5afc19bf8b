use swiss_table::group::{Bitmask, Group, EMPTY};
use swiss_table::hash_table::{hash_of, HashTable};
use swiss_table::iter::ControlIter;
use swiss_table::probe::{checked_next_power_of_two, h1, h2, ProbeSeq};
use swiss_table::ser::{Buffer, Writer};
use swiss_table::serialize::HashTableResolver;
use swiss_table::table::ArchivedHashTable;

fn lanes(mut mask: Bitmask) -> Vec<usize> {
    let mut lanes = Vec::new();
    while let Some(lane) = mask.lowest_set_bit() {
        lanes.push(lane);
        mask = mask.remove_lowest_bit();
    }
    lanes
}

#[test]
fn groups_are_matched() {
    let bytes = [1, EMPTY, 0x7f, 0x80, 5, 5, EMPTY, 0, EMPTY, 5];
    let group = Group::read(&bytes, 1);
    assert_eq!(lanes(group.match_byte(5)), vec![3, 4]);
    assert_eq!(lanes(group.match_byte(9)), Vec::<usize>::new());
    assert_eq!(lanes(group.match_empty()), vec![0, 5, 7]);
    assert_eq!(lanes(group.match_full()), vec![1, 3, 4, 6]);
    assert!(group.match_byte(5).any_bit_set());
    assert!(!group.match_byte(9).any_bit_set());
    assert!(!Bitmask::empty().any_bit_set());
}

#[test]
fn control_iterators() {
    let mut none = ControlIter::none();
    assert_eq!(none.next_full(), None);
    let bytes = [EMPTY, 3, EMPTY, 4, EMPTY, EMPTY, EMPTY, 5, 6, EMPTY, 7, 0x80, 0, 1, 2, 3];
    let mut controls = ControlIter::none();
    controls.move_next(&bytes);
    assert_eq!(controls.next_full(), Some(1));
    assert_eq!(controls.next_full(), Some(3));
    assert_eq!(controls.next_full(), Some(7));
    assert_eq!(controls.next_full(), None);
    controls.move_next(&bytes);
    assert_eq!(controls.next_full(), Some(0));
    assert_eq!(controls.next_full(), Some(2));
    assert_eq!(controls.next_full(), Some(4));
}

#[test]
fn hash_parts() {
    assert_eq!(h1(0x0123_4567_89ab_cdef), 0x0123_4567_89ab_cdef);
    assert_eq!(h2(0), 0);
    assert_eq!(h2(u64::MAX), 0x7f);
    assert_eq!(h2(0x0200_0000_0000_0000), 1);
    assert_eq!(h2(0x01ff_ffff_ffff_ffff), 0);
}

#[test]
fn powers_of_two() {
    assert_eq!(checked_next_power_of_two(0), Some(1));
    assert_eq!(checked_next_power_of_two(1), Some(1));
    assert_eq!(checked_next_power_of_two(17), Some(32));
    assert_eq!(checked_next_power_of_two(64), Some(64));
    assert_eq!(checked_next_power_of_two(usize::MAX / 2 + 2), None);
    for n in 0..1000usize {
        assert_eq!(checked_next_power_of_two(n), n.checked_next_power_of_two());
    }
    assert_eq!(ArchivedHashTable::<u64>::bucket_mask(20), 31);
    assert_eq!(ArchivedHashTable::<u64>::bucket_mask(1), 0);
}

#[test]
fn probing_is_triangular() {
    let mask = ArchivedHashTable::<u64>::bucket_mask(256);
    let mut probe = ArchivedHashTable::<u64>::probe_seq(300, 256);
    assert_eq!((probe.pos, probe.stride), (44, 0));
    let mut triangle = 0;
    for step in 0..40usize {
        triangle += step;
        assert_eq!(probe.pos, (44 + 16 * triangle) % 256);
        probe.next_group();
        probe.next_group();
        probe.move_next(mask);
    }
    // A full turn comes to every window once.
    let mut probe = ArchivedHashTable::<u64>::probe_seq(17, 33);
    let mut positions = Vec::new();
    for _ in 0..4 {
        positions.push(probe.pos);
        probe.skip_window();
        probe.move_next(63);
    }
    assert_eq!(positions, vec![17, 33, 1, 49]);
    assert_eq!(probe.stride, 64);
    let mut probe = ProbeSeq { pos: 5, stride: 0 };
    probe.move_next(31);
    assert_eq!((probe.pos, probe.stride), (5, 16));
    probe.move_next(31);
    assert_eq!((probe.pos, probe.stride), (21, 32));
}

#[test]
fn hash_tables_are_archived() {
    let mut items = HashTable::new();
    let mut buffer = Buffer::new();
    let table = items.checked_resolve(HashTableResolver { pos: 0 }, 8).unwrap();
    assert!(table.is_empty());
    assert_eq!(table.ptr.offset, 1);
    let values: Vec<u64> = (1..=18).map(|n| n * 0x0123_4567_89ab_cdef).collect();
    for value in &values {
        assert!(items.insert(*value));
    }
    let hashes: Vec<u64> = values.iter().map(hash_of).collect();
    let resolver = ArchivedHashTable::<u64>::serialize_from_iter(
        &values,
        values.len(),
        &hashes,
        (7, 8),
        &mut buffer,
    )
    .unwrap();
    let table = items.resolve(resolver, buffer.pos());
    let archive = buffer.into_bytes();
    assert_eq!(table.len(), 18);
    assert_eq!(table.capacity(), 20);
    for value in values {
        assert_eq!(
            table.get_with(&archive, hash_of(&value), |n: &u64| *n == value),
            Some(value)
        );
    }
    let far = HashTableResolver { pos: 1 << 40 };
    assert!(items.checked_resolve(far, 0).is_none());
    // Equal elements are kept apart.
    assert!(items.insert(5));
    assert!(items.insert(5));
    assert_eq!(items.resolve(resolver, 0).len(), 20);
}
