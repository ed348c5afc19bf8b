//! What writing a table comes to, told by the bytes of the archive, by numbers, and by
//! what the items and the serializer do.

use vstd::prelude::*;

use crate::archive::Portable;
use crate::controls::Placement;
use crate::error::LayoutError;
use crate::error::SerializeError;
use crate::group::EMPTY;
use crate::probe::Probe;
use crate::ser::Allocator;
use crate::ser::Archive;
use crate::ser::Buffer;
use crate::ser::Loan;
use crate::ser::Serialize;
use crate::ser::Writer;
use crate::serialize::HashTableResolver;

verus! {

/// Whether a lane is one of a window of buckets.
pub open spec fn is_lane(hash: u64, capacity: int, e: nat, n: nat, lane: int) -> bool {
    crate::observed::window_at(hash, capacity, e, n) < capacity && 0 <= lane < 16
}

/// Whether the buckets of all lanes before a lane of window number `n` are taken.
pub open spec fn all_taken_before(
    hash: u64,
    capacity: int,
    e: nat,
    taken: Seq<int>,
    n: nat,
    lane: int,
) -> bool {
    forall|m: nat, l: int| #[trigger]
        is_lane(hash, capacity, e, m, l) && (m < n || (m == n && l < lane)) ==> taken.contains(
            crate::observed::lane_bucket(hash, capacity, e, m, l),
        )
}

/// Whether `slot` is the first bucket that is not taken, in the order of the windows of
/// `hash` and of the lanes in them.
pub open spec fn is_first_free(
    hash: u64,
    capacity: int,
    e: nat,
    taken: Seq<int>,
    slot: int,
) -> bool {
    &&& !taken.contains(slot)
    &&& exists|n: nat, lane: int|
        {
            &&& #[trigger] is_lane(hash, capacity, e, n, lane)
            &&& slot == crate::observed::lane_bucket(hash, capacity, e, n, lane)
            &&& all_taken_before(hash, capacity, e, taken, n, lane)
        }
}

/// Whether the buckets of all lanes of all windows of `hash` are taken.
pub open spec fn none_free(hash: u64, capacity: int, e: nat, taken: Seq<int>) -> bool {
    forall|n: nat, lane: int| #[trigger]
        is_lane(hash, capacity, e, n, lane) ==> taken.contains(
            crate::observed::lane_bucket(hash, capacity, e, n, lane),
        )
}

/// Whether `slots` are the buckets of entries with these hashes: each is put in the first
/// bucket that those before it left free.
pub open spec fn in_order(hashes: Seq<u64>, capacity: int, e: nat, slots: Seq<int>) -> bool {
    &&& slots.len() == hashes.len()
    &&& forall|k: int|
        0 <= k < slots.len() ==> is_first_free(
            hashes[k],
            capacity,
            e,
            slots.take(k),
            #[trigger] slots[k],
        )
}

proof fn lemma_slots_of_prefix(capacity: int, hashes: Seq<u64>, k: int)
    requires
        0 < capacity,
        hashes.len() <= capacity,
        0 <= k <= hashes.len(),
        Placement::of(capacity, hashes) is Some,
    ensures
        Placement::of(capacity, hashes.take(k)) is Some,
        Placement::of(capacity, hashes.take(k))->Some_0.slots == Placement::of(
            capacity,
            hashes,
        )->Some_0.slots.take(k),
    decreases hashes.len(),
{
    Placement::law_placement_is_sound(capacity, hashes);
    let slots = Placement::of(capacity, hashes)->Some_0.slots;
    if k == hashes.len() {
        assert(hashes.take(k) =~= hashes);
        assert(slots.take(k) =~= slots);
    } else {
        let fewer = hashes.drop_last();
        let before = Placement::of(capacity, fewer)->Some_0.slots;
        lemma_slots_of_prefix(capacity, fewer, k);
        Placement::law_placement_is_sound(capacity, fewer);
        assert(fewer.take(k) =~= hashes.take(k));
        assert(slots.drop_last() =~= before);
        assert(before.take(k) =~= slots.take(k));
    }
}

/// A byte of a window is that of a free bucket unless the bucket is taken.
proof fn lemma_lane_taken(
    placement: Placement,
    hashes: Seq<u64>,
    capacity: int,
    e: nat,
    hash: u64,
    n: nat,
    lane: int,
)
    requires
        crate::observed::is_space(capacity, e),
        placement.sound(capacity, hashes),
        is_lane(hash, capacity, e, n, lane),
        placement.controls.lane(crate::observed::window_at(hash, capacity, e, n), lane) != EMPTY,
    ensures
        placement.slots.contains(crate::observed::lane_bucket(hash, capacity, e, n, lane)),
{
    crate::observed::lemma_window_at(hash, capacity, e, n);
    let at = crate::observed::window_at(hash, capacity, e, n) + lane;
    vstd::arithmetic::div_mod::lemma_mod_bound(at, capacity);
    if at < capacity {
        vstd::arithmetic::div_mod::lemma_small_mod(at as nat, capacity as nat);
    } else {
        assert(placement.controls.bytes[at] == placement.controls.bytes[at % capacity]);
    }
}

/// Entries are placed in order: each in the first bucket, in the order of the windows of
/// its hash and of the lanes in them, that those before it left free.
pub proof fn law_placed_in_order(capacity: int, hashes: Seq<u64>, e: nat)
    requires
        crate::observed::is_space(capacity, e),
        hashes.len() <= capacity,
        Placement::of(capacity, hashes) is Some,
    ensures
        in_order(hashes, capacity, e, Placement::of(capacity, hashes)->Some_0.slots),
    decreases hashes.len(),
{
    let slots = Placement::of(capacity, hashes)->Some_0.slots;
    Placement::law_placement_is_sound(capacity, hashes);
    if hashes.len() > 0 {
        let fewer = hashes.drop_last();
        let last = hashes.len() - 1;
        let hash = hashes.last();
        law_placed_in_order(capacity, fewer, e);
        Placement::law_placement_is_sound(capacity, fewer);
        Placement::lemma_place_one(capacity, hashes);
        let before = Placement::of(capacity, fewer)->Some_0;
        let probe = Probe::of(hash, capacity);
        assert(slots.take(last) =~= before.slots);
        let (step, lane) = choose|step: nat, lane: int|
            {
                &&& #[trigger] before.controls.first_empty(probe, step, lane)
                &&& before.controls.index(probe, step, lane) == slots[last]
                &&& probe.pos(step) + lane == slots[last] || probe.pos(step) + lane == capacity
                    + slots[last]
                &&& 0 <= probe.pos(step)
            };
        crate::observed::lemma_window_at(hash, capacity, e, step);
        assert(is_lane(hash, capacity, e, step, lane));
        assert(all_taken_before(hash, capacity, e, before.slots, step, lane)) by {
            assert forall|m: nat, l: int| #[trigger]
                is_lane(hash, capacity, e, m, l) && (m < step || (m == step && l
                    < lane)) implies before.slots.contains(
                crate::observed::lane_bucket(hash, capacity, e, m, l),
            ) by {
                crate::observed::lemma_window_at(hash, capacity, e, m);
                assert(before.controls.lane(probe.pos(m), l) != EMPTY);
                lemma_lane_taken(before, fewer, capacity, e, hash, m, l);
            }
        }
        assert(!before.slots.contains(slots[last])) by {
            if before.slots.contains(slots[last]) {
                let k = choose|k: int|
                    0 <= k < before.slots.len() && before.slots[k] == slots[last];
                assert(slots[k] == slots[last]);
            }
        }
        assert(is_first_free(hash, capacity, e, slots.take(last), slots[last]));
        assert forall|k: int| 0 <= k < slots.len() implies is_first_free(
            hashes[k],
            capacity,
            e,
            slots.take(k),
            #[trigger] slots[k],
        ) by {
            if k < last {
                assert(before.slots[k] == slots[k]);
                assert(before.slots.take(k) =~= slots.take(k));
                assert(fewer[k] == hashes[k]);
            }
        }
    }
}

/// Where entries can be put in order, they are placed.
pub proof fn law_order_is_placed(capacity: int, hashes: Seq<u64>, e: nat, slots: Seq<int>)
    requires
        crate::observed::is_space(capacity, e),
        hashes.len() <= capacity,
        in_order(hashes, capacity, e, slots),
    ensures
        Placement::of(capacity, hashes) is Some,
        Placement::of(capacity, hashes)->Some_0.slots == slots,
    decreases hashes.len(),
{
    if hashes.len() > 0 {
        let fewer = hashes.drop_last();
        let last = hashes.len() - 1;
        let hash = hashes.last();
        assert(in_order(fewer, capacity, e, slots.drop_last())) by {
            assert forall|k: int| 0 <= k < slots.len() - 1 implies is_first_free(
                fewer[k],
                capacity,
                e,
                slots.drop_last().take(k),
                #[trigger] slots.drop_last()[k],
            ) by {
                assert(slots.drop_last().take(k) =~= slots.take(k));
                assert(is_first_free(hashes[k], capacity, e, slots.take(k), slots[k]));
            }
        }
        law_order_is_placed(capacity, fewer, e, slots.drop_last());
        let before = Placement::of(capacity, fewer)->Some_0;
        assert(slots.take(last) =~= before.slots);
        assert(is_first_free(hashes[last], capacity, e, slots.take(last), slots[last]));
        if Placement::of(capacity, hashes) is None {
            lemma_none_free(capacity, fewer, e, hash);
            let (n, lane) = choose|n: nat, lane: int|
                {
                    &&& #[trigger] is_lane(hash, capacity, e, n, lane)
                    &&& slots[last] == crate::observed::lane_bucket(hash, capacity, e, n, lane)
                    &&& all_taken_before(hash, capacity, e, slots.take(last), n, lane)
                };
            assert(false);
        }
        law_placed_in_order(capacity, hashes, e);
        let placed = Placement::of(capacity, hashes)->Some_0.slots;
        assert(placed.drop_last() =~= before.slots);
        assert(placed.take(last) =~= before.slots);
        assert(is_first_free(hashes[last], capacity, e, placed.take(last), placed[last]));
        lemma_first_free_unique(hash, capacity, e, before.slots, placed[last], slots[last]);
        assert(placed =~= slots);
    }
}

proof fn lemma_first_free_unique(
    hash: u64,
    capacity: int,
    e: nat,
    taken: Seq<int>,
    slot: int,
    other: int,
)
    requires
        is_first_free(hash, capacity, e, taken, slot),
        is_first_free(hash, capacity, e, taken, other),
    ensures
        slot == other,
{
    let (n, lane) = choose|n: nat, lane: int|
        {
            &&& #[trigger] is_lane(hash, capacity, e, n, lane)
            &&& slot == crate::observed::lane_bucket(hash, capacity, e, n, lane)
            &&& all_taken_before(hash, capacity, e, taken, n, lane)
        };
    let (m, l) = choose|m: nat, l: int|
        {
            &&& #[trigger] is_lane(hash, capacity, e, m, l)
            &&& other == crate::observed::lane_bucket(hash, capacity, e, m, l)
            &&& all_taken_before(hash, capacity, e, taken, m, l)
        };
    if m < n || (m == n && l < lane) {
        assert(taken.contains(other));
    } else if n < m || (m == n && lane < l) {
        assert(taken.contains(slot));
    }
}

/// Where no bucket is found for an entry, all buckets of its windows are taken.
proof fn lemma_none_free(capacity: int, hashes: Seq<u64>, e: nat, hash: u64)
    requires
        crate::observed::is_space(capacity, e),
        hashes.len() <= capacity,
        Placement::of(capacity, hashes) is Some,
        Placement::of(capacity, hashes)->Some_0.controls.first_free(Probe::of(hash, capacity)) is None,
    ensures
        none_free(hash, capacity, e, Placement::of(capacity, hashes)->Some_0.slots),
{
    let placement = Placement::of(capacity, hashes)->Some_0;
    let probe = Probe::of(hash, capacity);
    Placement::law_placement_is_sound(capacity, hashes);
    assert forall|n: nat, lane: int| #[trigger]
        is_lane(hash, capacity, e, n, lane) implies placement.slots.contains(
        crate::observed::lane_bucket(hash, capacity, e, n, lane),
    ) by {
        crate::observed::lemma_window_at(hash, capacity, e, n);
        let index = crate::observed::lane_bucket(hash, capacity, e, n, lane);
        let at = crate::observed::window_at(hash, capacity, e, n) + lane;
        vstd::arithmetic::div_mod::lemma_mod_bound(at, capacity);
        if !placement.slots.contains(index) {
            assert(placement.controls.bytes[index] == EMPTY);
            if capacity <= 16 {
                crate::coverage::law_covers(capacity);
                assert((Probe { start: probe.start, capacity }).comes_to(index));
                assert(probe == Probe { start: probe.start, capacity });
            } else {
                if at < capacity {
                    vstd::arithmetic::div_mod::lemma_small_mod(at as nat, capacity as nat);
                } else {
                    vstd::arithmetic::div_mod::lemma_fundamental_div_mod_converse(
                        at,
                        capacity,
                        1,
                        at - capacity,
                    );
                }
                assert(probe.has_lane(n, lane));
                assert(probe.comes_to(index));
            }
            placement.controls.law_free_bucket_is_found(probe, index);
        }
    }
}

/// Whether `capacity` is the least number of buckets that a load factor allows for `len`
/// entries: there is a bucket to spare, and apart from that no more than the load factor
/// asks for.
pub open spec fn is_capacity(len: int, load_factor: (int, int), capacity: int) -> bool {
    &&& capacity >= len + 1
    &&& len * load_factor.1 < (capacity + 1) * load_factor.0
    &&& capacity == len + 1 || capacity * load_factor.0 <= len * load_factor.1
}

/// Whether a load factor is a fraction in the range (0, 1].
pub open spec fn is_fraction(load_factor: (int, int)) -> bool {
    0 < load_factor.0 <= load_factor.1
}

/// Whether writing what the items refer to, one after another, may give `resolvers` and
/// leave `states[k]` written after the first `k` items.
pub open spec fn writes_items<S: Writer, U: Serialize<S>>(
    items: Seq<U>,
    before: Seq<u8>,
    resolvers: Seq<U::Resolver>,
    states: Seq<Seq<u8>>,
) -> bool {
    &&& resolvers.len() == items.len()
    &&& states.len() == items.len() + 1
    &&& states[0] == before
    &&& forall|k: int|
        0 <= k < items.len() ==> (#[trigger] items[k]).may_serialize(
            states[k],
            resolvers[k],
            states[k + 1],
        )
}

proof fn lemma_writes_items<S: Writer, U: Serialize<S>>(
    items: Seq<U>,
    before: Seq<u8>,
    resolvers: Seq<U::Resolver>,
    after: Seq<u8>,
) -> (states: Seq<Seq<u8>>)
    requires
        crate::serialize::serialized::<S, U>(items, before, resolvers, after),
    ensures
        writes_items::<S, U>(items, before, resolvers, states),
        states.last() == after,
{
    choose|states: Seq<Seq<u8>>| #[trigger]
        crate::serialize::serialized_through::<S, U>(items, resolvers, states) && states[0]
            == before && states.last() == after
}

/// The bytes of bucket `index` of a table whose control bytes start at `pos`.
pub open spec fn bucket_before(archive: Seq<u8>, pos: int, size: int, index: int) -> Seq<u8> {
    archive.subrange(pos - (index + 1) * size, pos - index * size)
}

/// Whether `archive` is what writing a table leaves: what was written when the items were
/// written, zero bytes up to a multiple of the alignment, the buckets, and the control
/// bytes at `pos`.
///
/// Every item that has a hash stands in its bucket, and its control byte is the seven most
/// significant bits of its hash. All other buckets are zero, and their control bytes are
/// those of free buckets. The control bytes behind them repeat the first ones, as long as
/// there are any to repeat.
pub open spec fn is_written<U: Archive>(
    items: Seq<U>,
    hashes: Seq<u64>,
    between: Seq<u8>,
    resolvers: Seq<U::Resolver>,
    slots: Seq<int>,
    capacity: int,
    e: nat,
    pos: int,
    archive: Seq<u8>,
) -> bool {
    let size = U::Archived::spec_size() as int;
    let align = U::Archived::spec_align() as int;
    let start = pos - capacity * size;
    &&& start % align == 0
    &&& between.len() <= start < between.len() + align
    &&& archive.len() == pos + capacity + 15
    &&& archive.subrange(0, between.len() as int) == between
    &&& forall|i: int| between.len() <= i < start ==> #[trigger] archive[i] == 0
    &&& slots.len() == (if items.len() <= hashes.len() {
        items.len()
    } else {
        hashes.len()
    })
    &&& in_order(hashes.take(slots.len() as int), capacity, e, slots)
    &&& forall|k: int| 0 <= k < slots.len() ==> 0 <= #[trigger] slots[k] < capacity
    &&& forall|k: int|
        0 <= k < slots.len() ==> bucket_before(archive, pos, size, #[trigger] slots[k])
            == items[k].resolved(resolvers[k], pos - (slots[k] + 1) * size)
    &&& forall|i: int|
        0 <= i < capacity && !slots.contains(i) ==> #[trigger] bucket_before(
            archive,
            pos,
            size,
            i,
        ) == Seq::new(size as nat, |b: int| 0u8)
    &&& forall|k: int|
        0 <= k < slots.len() ==> archive[pos + #[trigger] slots[k]] == hashes[k] as int
            / 0x200_0000_0000_0000
    &&& forall|i: int|
        0 <= i < capacity && !slots.contains(i) ==> #[trigger] archive[pos + i] == 0xff
    &&& forall|i: int|
        capacity <= i < capacity + 15 ==> #[trigger] archive[pos + i] == (if i < 2 * capacity {
            archive[pos + i - capacity]
        } else {
            0xff
        })
}

/// Whether the memory of a table of `capacity` buckets can be laid out: no number on the
/// way overflows, and rounded up to the alignment of a bucket, the size of the buckets and
/// control bytes is at most `isize::MAX`.
pub open spec fn can_be_laid_out<U: Archive>(
    len: int,
    load_factor: (int, int),
    capacity: int,
) -> bool {
    &&& len * load_factor.1 <= usize::MAX
    &&& capacity + 15 <= usize::MAX
    &&& capacity * U::Archived::spec_size() + capacity + 15 <= isize::MAX - (
    U::Archived::spec_align() - 1)
}

/// Laying out the memory of a table fails just if a number on the way overflows or the
/// memory is too large, and the error says which.
pub proof fn law_layout_error<U: Archive>(len: int, load_factor: (int, int), capacity: int)
    requires
        len > 0,
        is_fraction(load_factor),
        is_capacity(len, load_factor, capacity),
    ensures
        ({
            let error = crate::serialize::layout_error::<U::Archived>(len, load_factor);
            let size = capacity * U::Archived::spec_size() + capacity + 15;
            &&& error is None <==> can_be_laid_out::<U>(len, load_factor, capacity)
            &&& error == Some(LayoutError::CapacityOverflow) <==> len * load_factor.1
                > usize::MAX
            &&& error == Some(LayoutError::ControlCountOverflow) <==> len * load_factor.1
                <= usize::MAX && capacity + 15 > usize::MAX
            &&& error == Some(LayoutError::TooLarge) <==> len * load_factor.1 <= usize::MAX
                && capacity + 15 <= usize::MAX && size > isize::MAX - (U::Archived::spec_align()
                - 1)
        }),
{
    crate::sizes::law_least_capacity_is_unique(len, load_factor, capacity);
}

/// The memory of a table behind what was written makes the archive of the table.
proof fn lemma_is_written<U: Archive>(
    items: Seq<U>,
    hashes: Seq<u64>,
    between: Seq<u8>,
    resolvers: Seq<U::Resolver>,
    capacity: int,
    e: nat,
)
    requires
        crate::observed::is_space(capacity, e),
        items.len() <= capacity,
        resolvers.len() == items.len(),
        Placement::of(
            capacity,
            crate::serialize::used_hashes(items.len() as int, hashes),
        ) is Some,
    ensures
        ({
            let placement = Placement::of(
                capacity,
                crate::serialize::used_hashes(items.len() as int, hashes),
            )->Some_0;
            let start = crate::serialize::memory_pos::<U::Archived>(between);
            is_written::<U>(
                items,
                hashes,
                between,
                resolvers,
                placement.slots,
                capacity,
                e,
                start + capacity * U::Archived::spec_size(),
                crate::serialize::padded::<U::Archived>(between) + crate::serialize::table_image(
                    items,
                    resolvers,
                    placement,
                    capacity,
                    start,
                ),
            )
        }),
{
    let size = U::Archived::spec_size() as int;
    let align = U::Archived::spec_align() as int;
    let end = capacity * size;
    let used = crate::serialize::used_hashes(items.len() as int, hashes);
    let placement = Placement::of(capacity, used)->Some_0;
    let slots = placement.slots;
    let after = crate::serialize::padded::<U::Archived>(between) + crate::serialize::table_image(
        items,
        resolvers,
        placement,
        capacity,
        crate::serialize::memory_pos::<U::Archived>(between),
    );
    crate::archive::lemma_layout_is_valid::<U::Archived>();
    crate::ser::law_padding_aligns(between.len() as int, align);
    let start = crate::serialize::memory_pos::<U::Archived>(between);
    let padded = crate::serialize::padded::<U::Archived>(between);
    let buckets = crate::serialize::buckets_image(items, resolvers, slots, end, start);
    let pos = start + end;
    Placement::law_placement_is_sound(capacity, used);
    law_placed_in_order(capacity, used, e);
    crate::roundtrip::law_buckets_image::<U>(items, resolvers, slots, capacity, start);
    assert(0 <= end) by (nonlinear_arith)
        requires
            end == capacity * size,
            capacity >= 0,
            size >= 0,
    ;
    assert(after == padded + (buckets + placement.controls.bytes));
    assert(after.len() == pos + capacity + 15);
    assert(after.subrange(0, between.len() as int) =~= between);
    assert(hashes.take(slots.len() as int) =~= used);
    assert forall|i: int| 0 <= i < capacity implies bucket_before(after, pos, size, i)
        == crate::roundtrip::bucket_of(buckets, end, size, i) by {
        assert(0 <= (i + 1) * size <= end && (i + 1) * size == i * size + size && 0 <= i * size)
            by (nonlinear_arith)
            requires
                0 <= i < capacity,
                end == capacity * size,
                size >= 0,
        ;
        assert(bucket_before(after, pos, size, i) =~= crate::roundtrip::bucket_of(
            buckets,
            end,
            size,
            i,
        ));
    }
    assert forall|k: int| 0 <= k < slots.len() implies bucket_before(
        after,
        pos,
        size,
        #[trigger] slots[k],
    ) == items[k].resolved(resolvers[k], pos - (slots[k] + 1) * size) by {
        assert(0 <= slots[k] < capacity);
        assert(bucket_before(after, pos, size, slots[k]) == crate::roundtrip::bucket_of(
            buckets,
            end,
            size,
            slots[k],
        ));
    }
    assert forall|i: int| 0 <= i < capacity && !slots.contains(i) implies #[trigger] bucket_before(
        after,
        pos,
        size,
        i,
    ) == Seq::new(size as nat, |b: int| 0u8) by {
        assert(crate::roundtrip::bucket_of(buckets, end, size, i) == crate::ser::zeros(size));
        assert(crate::ser::zeros(size) =~= Seq::new(size as nat, |b: int| 0u8));
    }
    assert forall|i: int| 0 <= i < capacity + 15 implies #[trigger] after[pos + i]
        == placement.controls.bytes[i] by {}
    assert forall|k: int| 0 <= k < slots.len() implies after[pos + #[trigger] slots[k]]
        == hashes[k] as int / 0x200_0000_0000_0000 by {
        crate::probe::law_tag(used[k]);
        assert(0 <= slots[k] < capacity);
        assert(after[pos + slots[k]] == placement.controls.bytes[slots[k]]);
    }
    assert forall|i: int| 0 <= i < capacity && !slots.contains(i) implies #[trigger] after[pos + i]
        == 0xff by {
        assert(after[pos + i] == placement.controls.bytes[i]);
    }
    assert forall|i: int| capacity <= i < capacity + 15 implies #[trigger] after[pos + i] == (if i
        < 2 * capacity {
        after[pos + i - capacity]
    } else {
        0xff
    }) by {
        assert(after[pos + i] == placement.controls.bytes[i]);
        if i < 2 * capacity {
            vstd::arithmetic::div_mod::lemma_fundamental_div_mod_converse(
                i,
                capacity,
                1,
                i - capacity,
            );
            assert(placement.controls.bytes[i] == placement.controls.bytes[i % capacity]);
            assert(after[pos + (i - capacity)] == placement.controls.bytes[i - capacity]);
        }
    }
}

/// What a table that was written comes to.
pub proof fn law_written<S: Writer + Allocator, U: Serialize<S>>(
    items: Seq<U>,
    len: int,
    hashes: Seq<u64>,
    load_factor: (int, int),
    before: Seq<u8>,
    resolver: HashTableResolver,
    after: Seq<u8>,
    capacity: int,
    e: nat,
) -> (parts: (Seq<U::Resolver>, Seq<Seq<u8>>, Seq<int>))
    requires
        len > 0,
        0 <= load_factor.0 && 0 <= load_factor.1,
        is_capacity(len, load_factor, capacity),
        crate::observed::is_space(capacity, e),
        crate::serialize::serialize_outcome::<S, U>(
            items,
            len,
            hashes,
            load_factor,
            before,
            Ok(resolver),
            after,
        ),
    ensures
        is_fraction(load_factor),
        items.len() <= len,
        can_be_laid_out::<U>(len, load_factor, capacity),
        writes_items::<S, U>(items, before, parts.0, parts.1),
        is_written::<U>(
            items,
            hashes,
            parts.1.last(),
            parts.0,
            parts.2,
            capacity,
            e,
            resolver.pos as int,
            after,
        ),
{
    crate::sizes::law_least_capacity_is_unique(len, load_factor, capacity);
    law_layout_error::<U>(len, load_factor, capacity);
    let size = U::Archived::spec_size() as int;
    let align = U::Archived::spec_align() as int;
    let end = capacity * size;
    let used = crate::serialize::used_hashes(items.len() as int, hashes);
    let placement = Placement::of(capacity, used)->Some_0;
    let slots = placement.slots;
    let (resolvers, between) = choose|resolvers: Seq<U::Resolver>, between: Seq<u8>|
        {
            let pos = crate::serialize::memory_pos::<U::Archived>(between);
            &&& #[trigger] crate::serialize::serialized::<S, U>(items, before, resolvers, between)
            &&& after == crate::serialize::padded::<U::Archived>(between)
                + crate::serialize::table_image(items, resolvers, placement, capacity, pos)
            &&& resolver.pos == pos + end
        };
    let states = lemma_writes_items::<S, U>(items, before, resolvers, between);
    lemma_is_written::<U>(items, hashes, between, resolvers, capacity, e);
    (resolvers, states, slots)
}

/// There is a least number of buckets.
pub proof fn lemma_capacity_exists(len: int, load_factor: (int, int)) -> (capacity: int)
    requires
        len > 0,
        is_fraction(load_factor),
    ensures
        is_capacity(len, load_factor, capacity),
{
    crate::sizes::law_capacity_is_least(len, load_factor);
    crate::sizes::spec_capacity_from_len(len, load_factor)
}

/// The load factor is refused just if it is not a fraction in the range (0, 1], whatever
/// the items are. The error tells it, and nothing is written.
pub proof fn law_load_factor_is_checked<S: Writer + Allocator, U: Serialize<S>>(
    items: Seq<U>,
    len: int,
    hashes: Seq<u64>,
    load_factor: (int, int),
    before: Seq<u8>,
    result: Result<HashTableResolver, SerializeError<S::Error>>,
    after: Seq<u8>,
)
    requires
        0 <= load_factor.0 && 0 <= load_factor.1,
        crate::serialize::serialize_outcome::<S, U>(
            items,
            len,
            hashes,
            load_factor,
            before,
            result,
            after,
        ),
    ensures
        result matches Err(SerializeError::InvalidLoadFactor(_)) <==> !is_fraction(load_factor),
        result matches Err(SerializeError::InvalidLoadFactor(error)) ==> {
            &&& error.numerator == load_factor.0
            &&& error.denominator == load_factor.1
            &&& after == before
        },
{
}

/// More items than were announced are refused, unless the serializer fails before; nothing
/// else is. The error counts the announced items and all items together, and what the
/// announced items refer to is written.
pub proof fn law_items_are_counted<S: Writer + Allocator, U: Serialize<S>>(
    items: Seq<U>,
    len: int,
    hashes: Seq<u64>,
    load_factor: (int, int),
    before: Seq<u8>,
    result: Result<HashTableResolver, SerializeError<S::Error>>,
    after: Seq<u8>,
) -> (parts: (Seq<U::Resolver>, Seq<Seq<u8>>))
    requires
        len >= 0,
        is_fraction(load_factor),
        crate::serialize::serialize_outcome::<S, U>(
            items,
            len,
            hashes,
            load_factor,
            before,
            result,
            after,
        ),
    ensures
        result matches Err(SerializeError::IteratorLengthMismatch(error)) ==> {
            &&& items.len() > len
            &&& error.expected == len
            &&& error.actual == len + items.len()
            &&& writes_items::<S, U>(items.take(len), before, parts.0, parts.1)
            &&& parts.1.last() == after
        },
        items.len() > len ==> result matches Err(SerializeError::IteratorLengthMismatch(_)) || (
        len > 0 && result matches Err(SerializeError::Serializer(_))),
{
    if result matches Err(SerializeError::IteratorLengthMismatch(_)) {
        let resolvers = choose|resolvers: Seq<U::Resolver>| #[trigger]
            crate::serialize::serialized::<S, U>(items.take(len), before, resolvers, after);
        let states = lemma_writes_items::<S, U>(items.take(len), before, resolvers, after);
        (resolvers, states)
    } else {
        (Seq::empty(), Seq::empty())
    }
}

/// Where no items are announced and there are none, nothing is written.
pub proof fn law_no_items<S: Writer + Allocator, U: Serialize<S>>(
    hashes: Seq<u64>,
    load_factor: (int, int),
    before: Seq<u8>,
    result: Result<HashTableResolver, SerializeError<S::Error>>,
    after: Seq<u8>,
)
    requires
        is_fraction(load_factor),
        crate::serialize::serialize_outcome::<S, U>(
            Seq::empty(),
            0,
            hashes,
            load_factor,
            before,
            result,
            after,
        ),
    ensures
        result matches Ok(resolver) && resolver.pos == 0,
        after == before,
{
}

/// Laying out the memory is refused just if it cannot be laid out. The error tells why, and
/// what the items refer to is written.
pub proof fn law_layout_is_refused<S: Writer + Allocator, U: Serialize<S>>(
    items: Seq<U>,
    len: int,
    hashes: Seq<u64>,
    load_factor: (int, int),
    before: Seq<u8>,
    error: LayoutError,
    after: Seq<u8>,
    capacity: int,
) -> (parts: (Seq<U::Resolver>, Seq<Seq<u8>>))
    requires
        len >= 0,
        0 <= load_factor.0 && 0 <= load_factor.1,
        is_capacity(len, load_factor, capacity),
        crate::serialize::serialize_outcome::<S, U>(
            items,
            len,
            hashes,
            load_factor,
            before,
            Err(SerializeError::Layout(error)),
            after,
        ),
    ensures
        len > 0,
        is_fraction(load_factor),
        items.len() <= len,
        !can_be_laid_out::<U>(len, load_factor, capacity),
        match error {
            LayoutError::CapacityOverflow => len * load_factor.1 > usize::MAX,
            LayoutError::ControlCountOverflow => len * load_factor.1 <= usize::MAX && capacity + 15
                > usize::MAX,
            LayoutError::TooLarge => len * load_factor.1 <= usize::MAX && capacity + 15
                <= usize::MAX,
        },
        writes_items::<S, U>(items, before, parts.0, parts.1),
        parts.1.last() == after,
{
    law_layout_error::<U>(len, load_factor, capacity);
    let resolvers = choose|resolvers: Seq<U::Resolver>| #[trigger]
        crate::serialize::serialized::<S, U>(items, before, resolvers, after);
    let states = lemma_writes_items::<S, U>(items, before, resolvers, after);
    (resolvers, states)
}

/// An item is refused for want of a bucket just if all buckets of its windows are taken by
/// the items before it. What the items refer to is written, and the zero bytes behind it.
pub proof fn law_no_bucket<S: Writer + Allocator, U: Serialize<S>>(
    items: Seq<U>,
    len: int,
    hashes: Seq<u64>,
    load_factor: (int, int),
    before: Seq<u8>,
    item: usize,
    after: Seq<u8>,
    capacity: int,
    e: nat,
) -> (parts: (Seq<U::Resolver>, Seq<Seq<u8>>, Seq<int>))
    requires
        len >= 0,
        0 <= load_factor.0 && 0 <= load_factor.1,
        is_capacity(len, load_factor, capacity),
        crate::observed::is_space(capacity, e),
        crate::serialize::serialize_outcome::<S, U>(
            items,
            len,
            hashes,
            load_factor,
            before,
            Err(SerializeError::NoEmptyBucket { item }),
            after,
        ),
    ensures
        len > 0,
        is_fraction(load_factor),
        item < items.len() <= len,
        item < hashes.len(),
        can_be_laid_out::<U>(len, load_factor, capacity),
        writes_items::<S, U>(items, before, parts.0, parts.1),
        in_order(hashes.take(item as int), capacity, e, parts.2),
        none_free(hashes[item as int], capacity, e, parts.2),
        ({
            let between = parts.1.last();
            let align = U::Archived::spec_align() as int;
            &&& after.len() % align as nat == 0
            &&& between.len() <= after.len() < between.len() + align
            &&& after.subrange(0, between.len() as int) == between
            &&& forall|i: int| between.len() <= i < after.len() ==> #[trigger] after[i] == 0
        }),
{
    law_layout_error::<U>(len, load_factor, capacity);
    crate::sizes::law_least_capacity_is_unique(len, load_factor, capacity);
    let used = crate::serialize::used_hashes(items.len() as int, hashes);
    let (resolvers, between) = choose|resolvers: Seq<U::Resolver>, between: Seq<u8>|
        {
            &&& #[trigger] crate::serialize::serialized::<S, U>(items, before, resolvers, between)
            &&& after == crate::serialize::padded::<U::Archived>(between)
        };
    let states = lemma_writes_items::<S, U>(items, before, resolvers, between);
    crate::archive::lemma_layout_is_valid::<U::Archived>();
    crate::ser::law_padding_aligns(between.len() as int, U::Archived::spec_align() as int);
    assert(after.subrange(0, between.len() as int) =~= between);
    let placed = used.take(item as int);
    assert(placed =~= hashes.take(item as int));
    assert(used.take(item + 1).drop_last() =~= placed);
    assert(used.take(item + 1).last() == hashes[item as int]);
    law_placed_in_order(capacity, placed, e);
    lemma_none_free(capacity, placed, e, hashes[item as int]);
    (resolvers, states, Placement::of(capacity, placed)->Some_0.slots)
}

/// Whether lending the memory of a table of `capacity` buckets may fail with `error`.
pub open spec fn lending_fails<S: Allocator, U: Archive>(
    capacity: int,
    between: Seq<u8>,
    error: S::Error,
    after: Seq<u8>,
) -> bool {
    exists|block: crate::archive::Layout|
        {
            &&& #[trigger] S::may_deny(between, block, error)
            &&& block.size == capacity * U::Archived::spec_size() + capacity + 15
            &&& block.align == U::Archived::spec_align()
            &&& after == between
        }
}

/// Whether writing zero bytes up to a multiple of the alignment may fail with `error`.
pub open spec fn padding_fails<S: Writer, U: Archive>(
    between: Seq<u8>,
    error: S::Error,
    after: Seq<u8>,
) -> bool {
    exists|pad: Seq<u8>|
        {
            &&& #[trigger] S::may_refuse(between, pad, error, after)
            &&& pad.len() < U::Archived::spec_align()
            &&& (between.len() + pad.len()) % U::Archived::spec_align() == 0
            &&& forall|i: int| 0 <= i < pad.len() ==> #[trigger] pad[i] == 0
        }
}

/// Whether writing the memory of a table may fail with `error`.
pub open spec fn writing_fails<S: Writer, U: Archive>(
    items: Seq<U>,
    hashes: Seq<u64>,
    between: Seq<u8>,
    resolvers: Seq<U::Resolver>,
    slots: Seq<int>,
    capacity: int,
    e: nat,
    error: S::Error,
    after: Seq<u8>,
) -> bool {
    exists|written: Seq<u8>, memory: Seq<u8>|
        {
            &&& #[trigger] S::may_refuse(written, memory, error, after)
            &&& memory.len() == capacity * U::Archived::spec_size() + capacity + 15
            &&& is_written::<U>(
                items,
                hashes,
                between,
                resolvers,
                slots,
                capacity,
                e,
                written.len() + capacity * U::Archived::spec_size(),
                written + memory,
            )
        }
}

/// Whether taking back the memory of a table, or that of its resolvers, may fail with
/// `error`. The table is written then.
pub open spec fn returning_fails<S: Allocator, U: Archive>(
    items: Seq<U>,
    len: int,
    hashes: Seq<u64>,
    between: Seq<u8>,
    resolvers: Seq<U::Resolver>,
    slots: Seq<int>,
    capacity: int,
    e: nat,
    error: S::Error,
    after: Seq<u8>,
) -> bool {
    &&& is_written::<U>(
        items,
        hashes,
        between,
        resolvers,
        slots,
        capacity,
        e,
        after.len() - capacity - 15,
        after,
    )
    &&& exists|block: crate::archive::Layout|
        {
            &&& #[trigger] S::may_decline(after, block, error)
            &&& {
                ||| block.size == capacity * U::Archived::spec_size() + capacity + 15
                ||| block.size == len * vstd::layout::size_of::<U::Resolver>()
            }
        }
}

/// An error of the serializer is passed on from the first step that fails, and what that
/// step leaves written is left. The steps are: lending the memory of the resolvers, writing
/// the announced items, lending the memory of the table, writing zero bytes up to a
/// multiple of the alignment, writing the memory, and taking back the memory of the table
/// and that of the resolvers.
pub proof fn law_serializer_fails<S: Writer + Allocator, U: Serialize<S>>(
    items: Seq<U>,
    len: int,
    hashes: Seq<u64>,
    load_factor: (int, int),
    before: Seq<u8>,
    error: S::Error,
    after: Seq<u8>,
    capacity: int,
    e: nat,
) -> (parts: (int, Seq<U::Resolver>, Seq<Seq<u8>>, Seq<int>))
    requires
        len >= 0,
        0 <= load_factor.0 && 0 <= load_factor.1,
        is_capacity(len, load_factor, capacity),
        crate::observed::is_space(capacity, e),
        0 <= len * vstd::layout::size_of::<U::Resolver>() <= usize::MAX,
        vstd::layout::align_of::<U::Resolver>() <= usize::MAX,
        crate::serialize::serialize_outcome::<S, U>(
            items,
            len,
            hashes,
            load_factor,
            before,
            Err(SerializeError::Serializer(error)),
            after,
        ),
    ensures
        len > 0,
        is_fraction(load_factor),
        ({
            let (item, resolvers, states, slots) = parts;
            let between = states.last();
            ||| exists|block: crate::archive::Layout|
                {
                    &&& block.size == len * vstd::layout::size_of::<U::Resolver>()
                    &&& block.size > 0
                    &&& block.align == vstd::layout::align_of::<U::Resolver>()
                    &&& #[trigger] S::may_deny(before, block, error)
                    &&& after == before
                }
            ||| {
                &&& 0 <= item < items.len() && item < len
                &&& writes_items::<S, U>(items.take(item), before, resolvers, states)
                &&& items[item].may_fail(between, error, after)
            }
            ||| {
                &&& items.len() <= len
                &&& can_be_laid_out::<U>(len, load_factor, capacity)
                &&& writes_items::<S, U>(items, before, resolvers, states)
                &&& {
                    ||| lending_fails::<S, U>(capacity, between, error, after)
                    ||| padding_fails::<S, U>(between, error, after)
                    ||| writing_fails::<S, U>(
                        items,
                        hashes,
                        between,
                        resolvers,
                        slots,
                        capacity,
                        e,
                        error,
                        after,
                    )
                    ||| returning_fails::<S, U>(
                        items,
                        len,
                        hashes,
                        between,
                        resolvers,
                        slots,
                        capacity,
                        e,
                        error,
                        after,
                    )
                }
            }
        }),
{
    law_layout_error::<U>(len, load_factor, capacity);
    crate::sizes::law_least_capacity_is_unique(len, load_factor, capacity);
    crate::archive::lemma_layout_is_valid::<U::Archived>();
    let align = U::Archived::spec_align() as int;
    let none = (
        0int,
        Seq::<U::Resolver>::empty(),
        Seq::<Seq<u8>>::empty(),
        Seq::<int>::empty(),
    );
    if crate::serialize::resolvers_refused::<S, U>(len, before, error, after) {
        let block = crate::serialize::resolvers_layout::<U::Resolver>(len);
        assert(S::may_deny(before, block, error));
        none
    } else if crate::serialize::item_refused::<S, U>(items, len, before, error, after) {
        let (item, resolvers, between) = choose|
            item: int,
            resolvers: Seq<U::Resolver>,
            between: Seq<u8>,
        |
            {
                &&& 0 <= item < items.len() && item < len
                &&& #[trigger] crate::serialize::serialized::<S, U>(
                    items.take(item),
                    before,
                    resolvers,
                    between,
                )
                &&& items[item].may_fail(between, error, after)
            };
        let states = lemma_writes_items::<S, U>(items.take(item), before, resolvers, between);
        (item, resolvers, states, Seq::empty())
    } else {
        let used = crate::serialize::used_hashes(items.len() as int, hashes);
        let placement = Placement::of(capacity, used);
        let layout = crate::table::ArchivedHashTable::<U::Archived>::spec_memory_layout(capacity);
        let resolvers_block = crate::serialize::resolvers_layout::<U::Resolver>(len);
        let (resolvers, between) = choose|resolvers: Seq<U::Resolver>, between: Seq<u8>|
            {
                let pos = crate::serialize::memory_pos::<U::Archived>(between);
                let padded = crate::serialize::padded::<U::Archived>(between);
                let image = crate::serialize::table_image(
                    items,
                    resolvers,
                    placement->Some_0,
                    capacity,
                    pos,
                );
                &&& #[trigger] crate::serialize::serialized::<S, U>(
                    items,
                    before,
                    resolvers,
                    between,
                )
                &&& {
                    ||| S::may_deny(between, layout, error) && after == between
                    ||| S::may_refuse(
                        between,
                        crate::ser::zeros(pos - between.len()),
                        error,
                        after,
                    )
                    ||| placement is Some && S::may_refuse(padded, image, error, after)
                    ||| {
                        &&& placement is Some
                        &&& after == padded + image
                        &&& {
                            ||| S::may_decline(after, layout, error)
                            ||| resolvers_block.size > 0 && S::may_decline(
                                after,
                                resolvers_block,
                                error,
                            )
                        }
                    }
                }
            };
        let states = lemma_writes_items::<S, U>(items, before, resolvers, between);
        assert(0 <= capacity * U::Archived::spec_size()) by (nonlinear_arith)
            requires
                capacity >= 0,
        ;
        crate::table::ArchivedHashTable::<U::Archived>::law_memory_layout(capacity);
        crate::ser::law_padding_aligns(between.len() as int, align);
        let pos = crate::serialize::memory_pos::<U::Archived>(between);
        let pad = crate::ser::zeros(pos - between.len());
        let padded = crate::serialize::padded::<U::Archived>(between);
        assert(pad.len() == pos - between.len());
        assert(padded.subrange(0, between.len() as int) =~= between);
        if placement is Some {
            let image = crate::serialize::table_image(
                items,
                resolvers,
                placement->Some_0,
                capacity,
                pos,
            );
            lemma_is_written::<U>(items, hashes, between, resolvers, capacity, e);
            let slots = placement->Some_0.slots;
            let end = capacity * U::Archived::spec_size();
            assert(padded.len() == pos);
            assert(is_written::<U>(
                items,
                hashes,
                between,
                resolvers,
                slots,
                capacity,
                e,
                padded.len() + end,
                padded + image,
            ));
            assert(image.len() == end + capacity + 15);
            assert((padded + image).len() - capacity - 15 == padded.len() + end);
        }
        if S::may_refuse(between, pad, error, after) {
            assert((between.len() + pad.len()) % U::Archived::spec_align() == 0);
            assert(padding_fails::<S, U>(between, error, after));
        } else if S::may_deny(between, layout, error) && after == between {
            assert(lending_fails::<S, U>(capacity, between, error, after));
        } else {
            let slots = placement->Some_0.slots;
            let image = crate::serialize::table_image(
                items,
                resolvers,
                placement->Some_0,
                capacity,
                pos,
            );
            if S::may_refuse(padded, image, error, after) {
                assert(writing_fails::<S, U>(
                    items,
                    hashes,
                    between,
                    resolvers,
                    slots,
                    capacity,
                    e,
                    error,
                    after,
                ));
            } else {
                assert(resolvers_block.size == len * vstd::layout::size_of::<U::Resolver>());
                assert(returning_fails::<S, U>(
                    items,
                    len,
                    hashes,
                    between,
                    resolvers,
                    slots,
                    capacity,
                    e,
                    error,
                    after,
                ));
            }
        }
        (0, resolvers, states, placement->Some_0.slots)
    }
}

/// A table whose memory can be laid out, and whose items refer to nothing and all find a
/// bucket, is written to a buffer that has room for it.
pub proof fn law_buffer_takes_table<U: Serialize<Buffer>>(
    items: Seq<U>,
    len: int,
    hashes: Seq<u64>,
    load_factor: (int, int),
    before: Seq<u8>,
    result: Result<HashTableResolver, SerializeError<crate::ser::BufferFull>>,
    after: Seq<u8>,
    capacity: int,
    e: nat,
    slots: Seq<int>,
)
    requires
        len > 0,
        is_fraction(load_factor),
        items.len() <= len,
        is_capacity(len, load_factor, capacity),
        crate::observed::is_space(capacity, e),
        can_be_laid_out::<U>(len, load_factor, capacity),
        0 <= len * vstd::layout::size_of::<U::Resolver>() <= usize::MAX,
        vstd::layout::align_of::<U::Resolver>() <= usize::MAX,
        in_order(
            hashes.take(if items.len() <= hashes.len() {
                items.len() as int
            } else {
                hashes.len() as int
            }),
            capacity,
            e,
            slots,
        ),
        forall|item: U, from: Seq<u8>, resolver: U::Resolver, to: Seq<u8>| #[trigger]
            item.may_serialize(from, resolver, to) ==> to == from,
        forall|item: U, from: Seq<u8>, error: crate::ser::BufferFull, to: Seq<u8>|
            !#[trigger] item.may_fail(from, error, to),
        before.len() + U::Archived::spec_align() + capacity * U::Archived::spec_size() + capacity
            + 15 <= isize::MAX,
        crate::serialize::serialize_outcome::<Buffer, U>(
            items,
            len,
            hashes,
            load_factor,
            before,
            result,
            after,
        ),
    ensures
        result is Ok,
{
    let used = crate::serialize::used_hashes(items.len() as int, hashes);
    match result {
        Ok(_) => {},
        Err(SerializeError::InvalidLoadFactor(_)) => {},
        Err(SerializeError::IteratorLengthMismatch(_)) => {},
        Err(SerializeError::Layout(error)) => {
            let _ = law_layout_is_refused::<Buffer, U>(
                items,
                len,
                hashes,
                load_factor,
                before,
                error,
                after,
                capacity,
            );
        },
        Err(SerializeError::NoEmptyBucket { item }) => {
            crate::sizes::law_least_capacity_is_unique(len, load_factor, capacity);
            law_order_is_placed(capacity, used, e, slots);
            lemma_slots_of_prefix(capacity, used, item + 1);
        },
        Err(SerializeError::Serializer(error)) => {
            let (item, resolvers, states, _) = law_serializer_fails::<Buffer, U>(
                items,
                len,
                hashes,
                load_factor,
                before,
                error,
                after,
                capacity,
                e,
            );
            if writes_items::<Buffer, U>(items, before, resolvers, states) {
                lemma_states_stay::<Buffer, U>(items, before, resolvers, states, items.len() as int);
            }
        },
    }
}

proof fn lemma_states_stay<S: Writer, U: Serialize<S>>(
    items: Seq<U>,
    before: Seq<u8>,
    resolvers: Seq<U::Resolver>,
    states: Seq<Seq<u8>>,
    k: int,
)
    requires
        writes_items::<S, U>(items, before, resolvers, states),
        forall|item: U, from: Seq<u8>, resolver: U::Resolver, to: Seq<u8>| #[trigger]
            item.may_serialize(from, resolver, to) ==> to == from,
        0 <= k <= items.len(),
    ensures
        states[k] == before,
    decreases k,
{
    if k > 0 {
        lemma_states_stay::<S, U>(items, before, resolvers, states, k - 1);
        assert(items[k - 1].may_serialize(states[k - 1], resolvers[k - 1], states[k - 1 + 1]));
    }
}

/// Entries with any hashes find buckets in a table that is no larger than a window or
/// consists of whole windows, and in one that has 15 buckets to spare.
pub proof fn law_any_hashes_find_buckets(capacity: int, hashes: Seq<u64>, e: nat) -> (slots: Seq<
    int,
>)
    requires
        crate::observed::is_space(capacity, e),
        hashes.len() + 15 <= capacity || ((capacity <= 16 || capacity % 16 == 0) && hashes.len()
            <= capacity),
    ensures
        in_order(hashes, capacity, e, slots),
{
    crate::coverage::law_covers(capacity);
    Placement::law_placement_exists(capacity, hashes);
    law_placed_in_order(capacity, hashes, e);
    Placement::of(capacity, hashes)->Some_0.slots
}

/// The scratch memory that a table takes: a block for `len` resolvers, unless they take
/// none, and one for the memory of the table after the items were written. Both are given
/// back, the last one first.
pub proof fn law_scratch_memory<R>(
    before: Seq<Loan>,
    after: Seq<Loan>,
    len: int,
    resolvers: crate::archive::Layout,
    memory: crate::archive::Layout,
) -> (between: Seq<Loan>)
    requires
        crate::serialize::borrowed(before, after, resolvers, memory),
    ensures
        resolvers.size == 0 ==> {
            &&& before.len() <= between.len()
            &&& between.subrange(0, before.len() as int) == before
            &&& crate::ser::lent(between) == crate::ser::lent(before)
            &&& after == between.push(Loan::Lent(memory)).push(Loan::Returned(memory))
        },
        resolvers.size > 0 ==> {
            &&& before.len() + 1 <= between.len()
            &&& between.subrange(0, (before.len() + 1) as int) == before.push(Loan::Lent(resolvers))
            &&& crate::ser::lent(between) == crate::ser::lent(before).push(resolvers)
            &&& after == between.push(Loan::Lent(memory)).push(Loan::Returned(memory)).push(
                Loan::Returned(resolvers),
            )
        },
        0 <= len * vstd::layout::size_of::<R>() <= usize::MAX
            ==> crate::serialize::resolvers_layout::<R>(len).size == len * vstd::layout::size_of::<
            R,
        >(),
        vstd::layout::align_of::<R>() <= usize::MAX ==> crate::serialize::resolvers_layout::<R>(
            len,
        ).align == vstd::layout::align_of::<R>(),
{
    crate::ser::law_lent(before, resolvers);
    choose|between: Seq<Loan>|
        {
            let done = between.push(Loan::Lent(memory)).push(Loan::Returned(memory));
            &&& #[trigger] crate::serialize::resolvers_lent(before, resolvers).is_prefix_of(between)
            &&& crate::ser::lent(between) == crate::ser::lent(
                crate::serialize::resolvers_lent(before, resolvers),
            )
            &&& after == crate::serialize::resolvers_returned(done, resolvers)
        }
}

} // verus!
