//! What can be observed of a table, told by the bytes of the archive, by numbers, and by
//! the answers of the functions that are asked.
//!
//! Nothing here speaks of how a table is modelled elsewhere, but for what the functions
//! on tables promise. The windows of a hash are given by their positions, the buckets and
//! control bytes by where they stand in the archive, and the tag of a hash by division.

use vstd::prelude::*;

use crate::archive::Layout;
use crate::archive::Portable;
use crate::controls::ControlBytes;
use crate::error::LayoutError;
use crate::error::VerifyError;
use crate::probe::Probe;
use crate::table::ArchivedHashTable;

verus! {

/// Whether two to the power of `e` is the least power of two that is not below `capacity`.
pub open spec fn is_space(capacity: int, e: nat) -> bool {
    &&& 0 < capacity <= vstd::arithmetic::power2::pow2(e)
    &&& vstd::arithmetic::power2::pow2(e) < 2 * capacity
}

/// There is such a power of two.
pub proof fn lemma_space_exists(capacity: int) -> (e: nat)
    requires
        capacity > 0,
    ensures
        is_space(capacity, e),
{
    crate::probe::law_next_power_of_two(capacity as nat)
}

/// The position of window number `n` of a hash. The windows lie the triangular numbers of
/// 16 bytes from the first one, modulo the power of two.
pub open spec fn window_at(hash: u64, capacity: int, e: nat, n: nat) -> int {
    ((hash as usize) as int % capacity + 8 * (n * (n + 1)))
        % vstd::arithmetic::power2::pow2(e) as int
}

/// The byte in a lane of window number `n`.
pub open spec fn lane_byte(
    controls: Seq<u8>,
    hash: u64,
    capacity: int,
    e: nat,
    n: nat,
    lane: int,
) -> u8 {
    controls[window_at(hash, capacity, e, n) + lane]
}

/// Whether no window before window number `n` holds the byte of a free bucket. Windows
/// past the last bucket do not count.
pub open spec fn comes_as_far(
    controls: Seq<u8>,
    hash: u64,
    capacity: int,
    e: nat,
    n: nat,
) -> bool {
    forall|m: nat, lane: int|
        m < n && 0 <= lane < 16 && window_at(hash, capacity, e, m) < capacity
            ==> #[trigger] lane_byte(controls, hash, capacity, e, m, lane) != 0xff
}

/// Whether a lookup of `hash` comes to look at the bucket of a lane: it comes as far as
/// the window, and the byte in the lane is the seven most significant bits of the hash.
pub open spec fn looks_at(
    controls: Seq<u8>,
    hash: u64,
    capacity: int,
    e: nat,
    n: nat,
    lane: int,
) -> bool {
    &&& window_at(hash, capacity, e, n) < capacity
    &&& 0 <= lane < 16
    &&& comes_as_far(controls, hash, capacity, e, n)
    &&& lane_byte(controls, hash, capacity, e, n, lane) == hash as int / 0x200_0000_0000_0000
}

/// The bucket of a lane of window number `n`.
pub open spec fn lane_bucket(hash: u64, capacity: int, e: nat, n: nat, lane: int) -> int {
    (window_at(hash, capacity, e, n) + lane) % capacity
}

/// It is the power of two modulo which positions are taken.
pub proof fn lemma_space_is_next(capacity: int, e: nat)
    requires
        is_space(capacity, e),
    ensures
        crate::probe::next_power_of_two(capacity as nat) == vstd::arithmetic::power2::pow2(e),
{
    let f = crate::probe::law_next_power_of_two(capacity as nat);
    if f < e {
        vstd::arithmetic::power2::lemma_pow2_unfold(e);
        if f < e - 1 {
            vstd::arithmetic::power2::lemma_pow2_strictly_increases(f, (e - 1) as nat);
        }
    } else if e < f {
        vstd::arithmetic::power2::lemma_pow2_strictly_increases(e, f);
    }
}

/// Windows stand where probing examines them.
pub proof fn lemma_window_at(hash: u64, capacity: int, e: nat, n: nat)
    requires
        is_space(capacity, e),
    ensures
        Probe::of(hash, capacity).wf(),
        Probe::of(hash, capacity).pos(n) == window_at(hash, capacity, e, n),
        Probe::of(hash, capacity).visits(n) == (window_at(hash, capacity, e, n) < capacity),
        0 <= window_at(hash, capacity, e, n),
{
    let probe = Probe::of(hash, capacity);
    vstd::arithmetic::div_mod::lemma_mod_bound((hash as usize) as int, capacity);
    lemma_space_is_next(capacity, e);
    crate::triangle::lemma_triangle_step(n);
    assert(16 * crate::triangle::triangle(n) == 8 * (n * (n + 1)));
    probe.lemma_pos_in_space(n);
}

/// A lookup comes to look at a lane just if the control bytes make it a candidate.
pub proof fn lemma_looks_at(
    controls: Seq<u8>,
    hash: u64,
    capacity: int,
    e: nat,
    n: nat,
    lane: int,
)
    requires
        is_space(capacity, e),
    ensures
        (ControlBytes { bytes: controls, capacity }).candidate(
            Probe::of(hash, capacity),
            crate::probe::spec_h2(hash),
            n,
            lane,
        ) == looks_at(controls, hash, capacity, e, n, lane),
        (ControlBytes { bytes: controls, capacity }).index(Probe::of(hash, capacity), n, lane)
            == lane_bucket(hash, capacity, e, n, lane),
{
    let all = ControlBytes { bytes: controls, capacity };
    let probe = Probe::of(hash, capacity);
    lemma_window_at(hash, capacity, e, n);
    crate::probe::law_tag(hash);
    let tag = crate::probe::spec_h2(hash);
    assert(tag == hash as int / 0x200_0000_0000_0000);
    if comes_as_far(controls, hash, capacity, e, n) {
        assert forall|m: nat| m < n && #[trigger] probe.visits(m) implies !all.window_has_empty(
            probe.pos(m),
        ) by {
            lemma_window_at(hash, capacity, e, m);
            assert forall|l: int| 0 <= l < 16 implies #[trigger] all.lane(probe.pos(m), l)
                != 0xff by {
                assert(lane_byte(controls, hash, capacity, e, m, l) != 0xff);
            }
        }
        assert(all.reaches(probe, n));
    }
    if all.reaches(probe, n) {
        assert forall|m: nat, l: int|
            m < n && 0 <= l < 16 && window_at(hash, capacity, e, m)
                < capacity implies #[trigger] lane_byte(controls, hash, capacity, e, m, l)
            != 0xff by {
            lemma_window_at(hash, capacity, e, m);
            assert(probe.visits(m));
            assert(all.lane(probe.pos(m), l) == lane_byte(controls, hash, capacity, e, m, l));
        }
    }
    assert(all.lane(probe.pos(n), lane) == lane_byte(controls, hash, capacity, e, n, lane));
}

/// The control bytes of a table.
pub open spec fn control_bytes<T>(table: ArchivedHashTable<T>, archive: Seq<u8>) -> Seq<u8> {
    let at = table.ptr.pos + table.ptr.offset;
    archive.subrange(at, at + table.cap.native + 15)
}

/// The bytes of a bucket: the buckets stand in front of the control bytes, the first one
/// last.
pub open spec fn bucket_bytes<T: Portable>(
    table: ArchivedHashTable<T>,
    archive: Seq<u8>,
    index: int,
) -> Seq<u8> {
    let end = table.ptr.pos + table.ptr.offset - index * T::spec_size();
    archive.subrange(end - T::spec_size(), end)
}

/// The bytes of a bucket are those that a table reads for it.
pub proof fn law_bucket<T: Portable>(table: ArchivedHashTable<T>, archive: Seq<u8>, index: int)
    ensures
        table.bucket(archive, index) == bucket_bytes(table, archive, index),
        table.bucket_at(0) + T::spec_size() == table.ptr.pos + table.ptr.offset,
        table.bucket_at(index + 1) + T::spec_size() == table.bucket_at(index),
        table.view_in(archive).controls.bytes == control_bytes(table, archive),
        table.view_in(archive).controls.capacity == table.cap.native,
        table.view_in(archive).entries.len() == table.cap.native,
        0 <= index < table.cap.native ==> table.view_in(archive).entries[index] == T::decode(
            bucket_bytes(table, archive, index),
        ),
        table.spec_len() == table.len.native,
        table.spec_capacity() == table.cap.native,
{
    let s = T::spec_size() as int;
    assert((index + 1) * s == index * s + s) by (nonlinear_arith);
    assert((index + 1 + 1) * s == (index + 1) * s + s) by (nonlinear_arith);
    assert((0 + 1) * s == s) by (nonlinear_arith);
}

/// A table is in an archive just if it has a bucket, its buckets start in the archive, its
/// control bytes end in it, and all of them together, rounded up to the alignment of a
/// bucket, take at most `isize::MAX` bytes.
pub proof fn law_in_archive<T: Portable>(table: ArchivedHashTable<T>, archive: Seq<u8>)
    ensures
        table.in_archive(archive) <==> {
            let at = table.ptr.pos + table.ptr.offset;
            let capacity = table.cap.native as int;
            &&& capacity > 0
            &&& capacity * T::spec_size() + capacity + 15 <= isize::MAX - (T::spec_align() - 1)
            &&& capacity * T::spec_size() <= at
            &&& at + capacity + 15 <= archive.len()
        },
{
}

/// Every comparison that can be asked about any entry can be used for a lookup.
pub proof fn law_can_ask<T: Portable, C: Fn(&T) -> bool>(
    table: ArchivedHashTable<T>,
    archive: Seq<u8>,
    hash: u64,
    accepts: C,
)
    requires
        forall|entry: &T| #[trigger] call_requires(accepts, (entry,)),
    ensures
        table.view_in(archive).can_ask(hash, accepts),
{
}

/// Whether `accepts` answers `false` to every entry that a lookup of `hash` comes to look
/// at before a lane of window number `n`.
pub open spec fn all_rejected<T: Portable, C: Fn(&T) -> bool>(
    table: ArchivedHashTable<T>,
    archive: Seq<u8>,
    e: nat,
    hash: u64,
    accepts: C,
    n: nat,
    lane: int,
) -> bool {
    let capacity = table.cap.native as int;
    forall|m: nat, l: int|
        #[trigger] looks_at(control_bytes(table, archive), hash, capacity, e, m, l) && (m < n || (m
            == n && l < lane)) ==> call_ensures(
            accepts,
            (&T::decode(
                bucket_bytes(table, archive, lane_bucket(hash, capacity, e, m, l)),
            ),),
            false,
        )
}

/// A lane is looked at, and leads to a bucket, as the view of the table has it.
proof fn lemma_same_lane<T: Portable>(
    table: ArchivedHashTable<T>,
    archive: Seq<u8>,
    hash: u64,
    e: nat,
    n: nat,
    lane: int,
)
    requires
        is_space(table.cap.native as int, e),
    ensures
        ({
            let view = table.view_in(archive);
            let capacity = table.cap.native as int;
            let probe = Probe::of(hash, capacity);
            let index = lane_bucket(hash, capacity, e, n, lane);
            &&& view.controls.candidate(probe, crate::probe::spec_h2(hash), n, lane) == looks_at(
                control_bytes(table, archive),
                hash,
                capacity,
                e,
                n,
                lane,
            )
            &&& view.controls.index(probe, n, lane) == index
            &&& view.entries[index] == T::decode(bucket_bytes(table, archive, index))
        }),
{
    let capacity = table.cap.native as int;
    let index = lane_bucket(hash, capacity, e, n, lane);
    lemma_looks_at(control_bytes(table, archive), hash, capacity, e, n, lane);
    vstd::arithmetic::div_mod::lemma_mod_bound(
        window_at(hash, capacity, e, n) + lane,
        capacity,
    );
    law_bucket(table, archive, index);
    let view = table.view_in(archive);
    assert(view.controls == ControlBytes { bytes: control_bytes(table, archive), capacity });
}

/// Whether `index` is the first bucket, in the order of the windows of `hash` and of the
/// lanes in them, that holds the seven most significant bits of the hash and whose entry
/// `accepts` accepts.
pub open spec fn finds_first<T: Portable, C: Fn(&T) -> bool>(
    table: ArchivedHashTable<T>,
    archive: Seq<u8>,
    e: nat,
    hash: u64,
    accepts: C,
    index: int,
) -> bool {
    exists|n: nat, lane: int|
        {
            &&& #[trigger] looks_at(
                control_bytes(table, archive),
                hash,
                table.cap.native as int,
                e,
                n,
                lane,
            )
            &&& index == lane_bucket(hash, table.cap.native as int, e, n, lane)
            &&& call_ensures(accepts, (&T::decode(bucket_bytes(table, archive, index)),), true)
            &&& all_rejected(table, archive, e, hash, accepts, n, lane)
        }
}

/// A lookup leads to the first bucket, in the order of the windows and of the lanes in
/// them, that holds the seven most significant bits of the hash and whose entry is
/// accepted; and to no bucket just if all that it comes to look at are turned down.
pub proof fn law_lookup<T: Portable, C: Fn(&T) -> bool>(
    table: ArchivedHashTable<T>,
    archive: Seq<u8>,
    e: nat,
    hash: u64,
    accepts: C,
    index: int,
)
    requires
        is_space(table.cap.native as int, e),
    ensures
        table.view_in(archive).finds(hash, accepts, index) <==> finds_first(
            table,
            archive,
            e,
            hash,
            accepts,
            index,
        ),
        table.view_in(archive).misses(hash, accepts) <==> forall|n: nat, lane: int|
            #[trigger] looks_at(
                control_bytes(table, archive),
                hash,
                table.cap.native as int,
                e,
                n,
                lane,
            ) ==> call_ensures(
                accepts,
                (&T::decode(
                    bucket_bytes(
                        table,
                        archive,
                        lane_bucket(hash, table.cap.native as int, e, n, lane),
                    ),
                ),),
                false,
            ),
{
    let view = table.view_in(archive);
    let controls = control_bytes(table, archive);
    let capacity = table.cap.native as int;
    let probe = Probe::of(hash, capacity);
    let tag = crate::probe::spec_h2(hash);
    assert forall|n: nat, lane: int|
        view.rejected_before(probe, tag, accepts, n, lane) == all_rejected(
            table,
            archive,
            e,
            hash,
            accepts,
            n,
            lane,
        ) by {
        if all_rejected(table, archive, e, hash, accepts, n, lane) {
            assert forall|s: nat, l: int| #[trigger]
                view.controls.candidate(probe, tag, s, l) && (s < n || (s == n && l
                    < lane)) implies call_ensures(
                accepts,
                (&view.entries[view.controls.index(probe, s, l)],),
                false,
            ) by {
                lemma_same_lane(table, archive, hash, e, s, l);
            }
        }
        if view.rejected_before(probe, tag, accepts, n, lane) {
            assert forall|s: nat, l: int| #[trigger]
                looks_at(controls, hash, capacity, e, s, l) && (s < n || (s == n && l
                    < lane)) implies call_ensures(
                accepts,
                (&T::decode(bucket_bytes(table, archive, lane_bucket(hash, capacity, e, s, l))),),
                false,
            ) by {
                lemma_same_lane(table, archive, hash, e, s, l);
            }
        }
    }
    if view.finds(hash, accepts, index) {
        let (s, l) = choose|s: nat, l: int|
            {
                &&& #[trigger] view.controls.candidate(probe, tag, s, l)
                &&& index == view.controls.index(probe, s, l)
                &&& call_ensures(accepts, (&view.entries[index],), true)
                &&& view.rejected_before(probe, tag, accepts, s, l)
            };
        lemma_same_lane(table, archive, hash, e, s, l);
        assert(looks_at(controls, hash, capacity, e, s, l));
        assert(view.rejected_before(probe, tag, accepts, s, l));
        assert(all_rejected(table, archive, e, hash, accepts, s, l));
    }
    if exists|n: nat, lane: int|
        {
            &&& #[trigger] looks_at(controls, hash, capacity, e, n, lane)
            &&& index == lane_bucket(hash, capacity, e, n, lane)
            &&& call_ensures(accepts, (&T::decode(bucket_bytes(table, archive, index)),), true)
            &&& all_rejected(table, archive, e, hash, accepts, n, lane)
        } {
        let (n, lane) = choose|n: nat, lane: int|
            {
                &&& #[trigger] looks_at(controls, hash, capacity, e, n, lane)
                &&& index == lane_bucket(hash, capacity, e, n, lane)
                &&& call_ensures(accepts, (&T::decode(bucket_bytes(table, archive, index)),), true)
                &&& all_rejected(table, archive, e, hash, accepts, n, lane)
            };
        lemma_same_lane(table, archive, hash, e, n, lane);
        assert(view.controls.candidate(probe, tag, n, lane));
        assert(view.rejected_before(probe, tag, accepts, n, lane));
    }
    if view.misses(hash, accepts) {
        assert forall|n: nat, lane: int| #[trigger]
            looks_at(controls, hash, capacity, e, n, lane) implies call_ensures(
            accepts,
            (&T::decode(bucket_bytes(table, archive, lane_bucket(hash, capacity, e, n, lane))),),
            false,
        ) by {
            lemma_same_lane(table, archive, hash, e, n, lane);
        }
    }
    if forall|n: nat, lane: int| #[trigger]
        looks_at(controls, hash, capacity, e, n, lane) ==> call_ensures(
            accepts,
            (&T::decode(bucket_bytes(table, archive, lane_bucket(hash, capacity, e, n, lane))),),
            false,
        ) {
        assert forall|s: nat, l: int| #[trigger]
            view.controls.candidate(probe, tag, s, l) implies call_ensures(
            accepts,
            (&view.entries[view.controls.index(probe, s, l)],),
            false,
        ) by {
            lemma_same_lane(table, archive, hash, e, s, l);
        }
    }
}

/// What a lookup gives is the value of the bucket that it leads to.
pub proof fn law_lookup_gives<T: Portable, C: Fn(&T) -> bool>(
    table: ArchivedHashTable<T>,
    archive: Seq<u8>,
    e: nat,
    hash: u64,
    accepts: C,
    entry: Option<T>,
)
    requires
        is_space(table.cap.native as int, e),
        table.view_in(archive).gives(hash, accepts, entry),
    ensures
        match entry {
            Some(entry) => exists|n: nat, lane: int|
                {
                    &&& #[trigger] looks_at(
                        control_bytes(table, archive),
                        hash,
                        table.cap.native as int,
                        e,
                        n,
                        lane,
                    )
                    &&& entry == T::decode(
                        bucket_bytes(
                            table,
                            archive,
                            lane_bucket(hash, table.cap.native as int, e, n, lane),
                        ),
                    )
                    &&& call_ensures(accepts, (&entry,), true)
                    &&& all_rejected(table, archive, e, hash, accepts, n, lane)
                },
            None => forall|n: nat, lane: int| #[trigger]
                looks_at(
                    control_bytes(table, archive),
                    hash,
                    table.cap.native as int,
                    e,
                    n,
                    lane,
                ) ==> call_ensures(
                    accepts,
                    (&T::decode(
                        bucket_bytes(
                            table,
                            archive,
                            lane_bucket(hash, table.cap.native as int, e, n, lane),
                        ),
                    ),),
                    false,
                ),
        },
{
    let view = table.view_in(archive);
    match entry {
        Some(value) => {
            let index = choose|index: int|
                0 <= index < view.controls.capacity && #[trigger] view.finds(hash, accepts, index)
                    && value == view.entries[index];
            law_lookup(table, archive, e, hash, accepts, index);
            law_bucket(table, archive, index);
        },
        None => {
            law_lookup(table, archive, e, hash, accepts, 0);
        },
    }
}

/// Whether `indices` are the buckets that hold an entry, in ascending order and each once:
/// those whose control byte has its top bit clear.
pub open spec fn lists_full(controls: Seq<u8>, capacity: int, indices: Seq<int>) -> bool {
    &&& forall|k: int|
        0 <= k < indices.len() ==> 0 <= #[trigger] indices[k] < capacity && controls[indices[k]]
            < 0x80
    &&& forall|j: int, k: int|
        0 <= j < k < indices.len() ==> #[trigger] indices[j] < #[trigger] indices[k]
    &&& forall|i: int|
        0 <= i < capacity && #[trigger] controls[i] < 0x80 ==> indices.contains(i)
}

/// The buckets that hold an entry are listed by what a check of the table goes through.
pub proof fn law_full_buckets<T: Portable>(table: ArchivedHashTable<T>, archive: Seq<u8>)
    ensures
        lists_full(
            control_bytes(table, archive),
            table.cap.native as int,
            table.full_buckets(archive),
        ),
{
    table.view_in(archive).controls.law_full_from(0);
}

/// There is only one such list.
pub proof fn law_full_is_unique(
    controls: Seq<u8>,
    capacity: int,
    indices: Seq<int>,
    others: Seq<int>,
)
    requires
        lists_full(controls, capacity, indices),
        lists_full(controls, capacity, others),
    ensures
        indices == others,
{
    lemma_full_same_len(controls, capacity, indices, others);
    lemma_full_same_len(controls, capacity, others, indices);
    assert forall|k: int| 0 <= k < indices.len() implies indices[k] == others[k] by {
        lemma_full_same_at(controls, capacity, indices, others, k);
    }
    assert(indices =~= others);
}

proof fn lemma_full_same_len(
    controls: Seq<u8>,
    capacity: int,
    indices: Seq<int>,
    others: Seq<int>,
)
    requires
        lists_full(controls, capacity, indices),
        lists_full(controls, capacity, others),
    ensures
        indices.len() <= others.len(),
{
    assert(indices.no_duplicates());
    indices.unique_seq_to_set();
    assert(others.no_duplicates());
    others.unique_seq_to_set();
    assert(indices.to_set().subset_of(others.to_set())) by {
        assert forall|i: int| indices.to_set().contains(i) implies others.to_set().contains(i) by {
            let k = choose|k: int| 0 <= k < indices.len() && indices[k] == i;
            assert(controls[indices[k]] < 0x80);
            assert(controls[i] < 0x80);
        }
    }
    vstd::seq_lib::seq_to_set_is_finite(others);
    vstd::set_lib::lemma_len_subset(indices.to_set(), others.to_set());
}

proof fn lemma_full_same_at(
    controls: Seq<u8>,
    capacity: int,
    indices: Seq<int>,
    others: Seq<int>,
    k: int,
)
    requires
        lists_full(controls, capacity, indices),
        lists_full(controls, capacity, others),
        indices.len() == others.len(),
        0 <= k < indices.len(),
    ensures
        indices[k] == others[k],
    decreases k,
{
    if k > 0 {
        lemma_full_same_at(controls, capacity, indices, others, k - 1);
    }
    assert(controls[indices[k]] < 0x80 && controls[others[k]] < 0x80);
    let j = choose|j: int| 0 <= j < others.len() && others[j] == indices[k];
    let i = choose|i: int| 0 <= i < indices.len() && indices[i] == others[k];
    if j < k {
        if k > 0 && j < k - 1 {
            assert(others[j] < others[k - 1]);
        }
        assert(indices[k - 1] < indices[k]);
        assert(false);
    }
    if i < k {
        if i < k - 1 {
            assert(indices[i] < indices[k - 1]);
        }
        assert(others[k - 1] < others[k]);
        assert(false);
    }
    if j > k {
        assert(others[k] < others[j]);
    }
    if i > k {
        assert(indices[k] < indices[i]);
    }
}

/// A table has its entries just if it claims none, or is in the archive with at least as
/// many full buckets as it claims entries. Iterating then comes to the first of them, as
/// many as the table claims.
pub proof fn law_iteration<T: Portable>(
    table: ArchivedHashTable<T>,
    archive: Seq<u8>,
    indices: Seq<int>,
)
    requires
        lists_full(control_bytes(table, archive), table.cap.native as int, indices),
    ensures
        table.has_entries(archive) <==> table.len.native == 0 || (table.in_archive(archive)
            && indices.len() >= table.len.native),
        table.has_entries(archive) && table.len.native != 0 ==> table.entry_indices(archive)
            == indices.take(table.len.native as int),
        table.len.native == 0 ==> table.entry_indices(archive) == Seq::<int>::empty(),
{
    law_full_buckets(table, archive);
    law_full_is_unique(
        control_bytes(table, archive),
        table.cap.native as int,
        indices,
        table.full_buckets(archive),
    );
}

/// Whether the sizes of a table make sense: it claims fewer entries than buckets, and its
/// buckets and control bytes, rounded up to the alignment of a bucket, take at most
/// `isize::MAX` bytes.
pub open spec fn sizes_make_sense<T: Portable>(table: ArchivedHashTable<T>) -> bool {
    let capacity = table.cap.native as int;
    &&& table.len.native < capacity
    &&& capacity + 15 <= usize::MAX
    &&& capacity * T::spec_size() + capacity + 15 <= isize::MAX - (T::spec_align() - 1)
}

/// Where the buckets of a table start.
pub open spec fn buckets_start<T: Portable>(table: ArchivedHashTable<T>) -> int {
    table.ptr.pos + table.ptr.offset - table.cap.native * T::spec_size()
}

/// Whether the buckets and control bytes of a table are inside `archive`.
pub open spec fn lies_inside<T: Portable>(table: ArchivedHashTable<T>, archive: Seq<u8>) -> bool {
    &&& 0 <= buckets_start(table)
    &&& table.ptr.pos + table.ptr.offset + table.cap.native + 15 <= archive.len()
}

/// Whether a block is that of the buckets and control bytes of a table. Its position
/// counts modulo the number of positions.
pub open spec fn is_block<T: Portable>(
    table: ArchivedHashTable<T>,
    at: usize,
    layout: Layout,
) -> bool {
    let capacity = table.cap.native as int;
    &&& (buckets_start(table) - at) % (usize::MAX + 1) == 0
    &&& layout.size == capacity * T::spec_size() + capacity + 15
    &&& layout.align == T::spec_align()
}

/// Whether every byte behind the last control byte of a bucket that has a bucket to repeat
/// repeats the byte `capacity` places in front of it.
pub open spec fn wraps_around<T>(table: ArchivedHashTable<T>, archive: Seq<u8>) -> bool {
    let at = table.ptr.pos + table.ptr.offset;
    let capacity = table.cap.native as int;
    forall|i: int|
        capacity <= i < capacity + 15 && i < 2 * capacity ==> #[trigger] archive[at + i]
            == archive[at + i - capacity]
}

/// Whether `ask` may answer a question about the block of a table, asked in context
/// `before`, with `Ok` or with `error`, and leave the context as `after`.
pub open spec fn answers_block<
    T: Portable,
    C,
    E,
    G: Fn(C, usize, Layout) -> (C, Result<(), E>),
>(table: ArchivedHashTable<T>, ask: G, before: C, error: Option<E>, after: C) -> bool {
    exists|at: usize, layout: Layout, answer: Result<(), E>|
        {
            &&& is_block(table, at, layout)
            &&& #[trigger] call_ensures(ask, (before, at, layout), (after, answer))
            &&& match error {
                Some(error) => answer == Err::<(), E>(error),
                None => answer is Ok,
            }
        }
}

/// Whether `check` may answer a question about the bytes of a bucket, asked in context
/// `before`, with `Ok` or with `error`, and leave the context as `after`.
pub open spec fn answers_entry<T: Portable, C, E, F: Fn(C, &[u8]) -> (C, Result<(), E>)>(
    table: ArchivedHashTable<T>,
    archive: Seq<u8>,
    check: F,
    before: C,
    index: int,
    error: Option<E>,
    after: C,
) -> bool {
    exists|slice: &[u8], answer: Result<(), E>|
        {
            &&& slice@ == bucket_bytes(table, archive, index)
            &&& #[trigger] call_ensures(check, (before, slice), (after, answer))
            &&& match error {
                Some(error) => answer == Err::<(), E>(error),
                None => answer is Ok,
            }
        }
}

/// Whether the context may be taken from `before` through `contexts` by entering the block
/// of the table and accepting the entries of the first of `indices`, each once.
pub open spec fn goes_through<
    T: Portable,
    C,
    E,
    G: Fn(C, usize, Layout) -> (C, Result<(), E>),
    F: Fn(C, &[u8]) -> (C, Result<(), E>),
>(
    table: ArchivedHashTable<T>,
    archive: Seq<u8>,
    enter: G,
    check: F,
    before: C,
    indices: Seq<int>,
    contexts: Seq<C>,
) -> bool {
    &&& lists_full(control_bytes(table, archive), table.cap.native as int, indices)
    &&& 1 <= contexts.len() <= indices.len() + 1
    &&& answers_block(table, enter, before, None::<E>, contexts[0])
    &&& forall|k: int|
        0 <= k < contexts.len() - 1 ==> answers_entry(
            table,
            archive,
            check,
            contexts[k],
            #[trigger] indices[k],
            None::<E>,
            contexts[k + 1],
        )
}

/// The block that a check of a table claims is its memory: it starts where the buckets
/// start, and has room for all of them and for all control bytes. Where the memory of the
/// table is in the archive, so is the block.
pub proof fn law_claimed_block<T: Portable>(table: ArchivedHashTable<T>, archive: Seq<u8>)
    requires
        sizes_make_sense(table),
    ensures
        is_block(table, table.wrapped_memory_at(), table.spec_layout()),
        0 <= buckets_start(table) <= usize::MAX ==> table.wrapped_memory_at() == buckets_start(
            table,
        ),
        lies_inside(table, archive) && archive.len() <= usize::MAX ==> {
            &&& table.wrapped_memory_at() + table.spec_layout().size <= archive.len()
            &&& table.wrapped_memory_at() + table.cap.native * T::spec_size() == table.ptr.pos
                + table.ptr.offset
        },
{
    let whole: int = usize::MAX + 1;
    let memory = buckets_start(table);
    let at = table.wrapped_memory_at();
    crate::archive::lemma_layout_is_valid::<T>();
    assert(0 <= table.cap.native * T::spec_size()) by (nonlinear_arith);
    vstd::arithmetic::div_mod::lemma_mod_bound(memory, whole);
    assert(at == memory % whole);
    vstd::arithmetic::div_mod::lemma_fundamental_div_mod(memory, whole);
    assert(memory - at == (memory / whole) * whole) by (nonlinear_arith)
        requires
            memory == whole * (memory / whole) + at,
    ;
    vstd::arithmetic::div_mod::lemma_mod_multiples_basic(memory / whole, whole);
    if 0 <= memory <= usize::MAX {
        vstd::arithmetic::div_mod::lemma_small_mod(memory as nat, whole as nat);
    }
    <ArchivedHashTable<T>>::law_memory_layout(table.cap.native as int);
}

proof fn lemma_block<T: Portable, C, E, G: Fn(C, usize, Layout) -> (C, Result<(), E>)>(
    table: ArchivedHashTable<T>,
    ask: G,
    before: C,
    error: E,
    after: C,
)
    requires
        table.has_layout(),
    ensures
        crate::verify::granted(ask, before, table.wrapped_memory_at(), table.spec_layout(), after)
            ==> answers_block(table, ask, before, None::<E>, after),
        crate::verify::denied(
            ask,
            before,
            table.wrapped_memory_at(),
            table.spec_layout(),
            error,
            after,
        ) ==> answers_block(table, ask, before, Some(error), after),
{
    law_claimed_block(table, Seq::empty());
}

proof fn lemma_goes_through<
    T: Portable,
    C,
    E,
    G: Fn(C, usize, Layout) -> (C, Result<(), E>),
    F: Fn(C, &[u8]) -> (C, Result<(), E>),
>(
    table: ArchivedHashTable<T>,
    archive: Seq<u8>,
    enter: G,
    check: F,
    before: C,
    count: int,
    after: C,
) -> (contexts: Seq<C>)
    requires
        table.has_layout(),
        table.checked(archive, enter, check, before, count, after),
    ensures
        goes_through(
            table,
            archive,
            enter,
            check,
            before,
            table.full_buckets(archive),
            contexts,
        ),
        contexts.len() == count + 1,
        contexts.last() == after,
{
    let full = table.full_buckets(archive);
    let contexts = choose|contexts: Seq<C>|
        {
            &&& #[trigger] table.checked_through(archive, check, contexts)
            &&& contexts.len() == count + 1
            &&& crate::verify::granted(
                enter,
                before,
                table.wrapped_memory_at(),
                table.spec_layout(),
                contexts[0],
            )
            &&& contexts.last() == after
        };
    law_full_buckets(table, archive);
    let error: E = arbitrary();
    lemma_block(table, enter, before, error, contexts[0]);
    assert forall|k: int| 0 <= k < contexts.len() - 1 implies answers_entry(
        table,
        archive,
        check,
        contexts[k],
        #[trigger] full[k],
        None::<E>,
        contexts[k + 1],
    ) by {
        law_bucket(table, archive, full[k]);
        assert(crate::verify::accepted(
            check,
            contexts[k],
            table.bucket(archive, full[k]),
            contexts[k + 1],
        ));
    }
    contexts
}

/// What a check of a table comes to, for every result.
///
/// A table without entries and without buckets is valid. The sizes of any other must make
/// sense. Then the context is asked for the block of the table, then about the bytes of
/// the entry in every full bucket, each once and in ascending order, and told in the end
/// that the block is left; the first question that it answers with an error is the last.
/// Control bytes that do not repeat the ones they should are found before the block is
/// left.
pub proof fn law_verify<
    T: Portable,
    C,
    E,
    G: Fn(C, usize, Layout) -> (C, Result<(), E>),
    F: Fn(C, &[u8]) -> (C, Result<(), E>),
    H: Fn(C, usize, Layout) -> (C, Result<(), E>),
>(
    table: ArchivedHashTable<T>,
    archive: Seq<u8>,
    enter: G,
    check: F,
    leave: H,
    before: C,
    result: Result<(), VerifyError<E>>,
    after: C,
) -> (through: (Seq<int>, Seq<C>))
    requires
        table.verify_gives(archive, enter, check, leave, before, result, after),
    ensures
        ({
            let (indices, contexts) = through;
            let len = table.len.native as int;
            let capacity = table.cap.native as int;
            let at = table.ptr.pos + table.ptr.offset;
            let all_accepted = {
                &&& sizes_make_sense(table)
                &&& lies_inside(table, archive)
                &&& goes_through(table, archive, enter, check, before, indices, contexts)
                &&& contexts.len() == indices.len() + 1
            };
            match result {
                Ok(()) => {
                    ||| len == 0 && capacity == 0 && after == before
                    ||| {
                        &&& all_accepted
                        &&& wraps_around(table, archive)
                        &&& answers_block(table, leave, contexts.last(), None::<E>, after)
                    }
                },
                Err(VerifyError::InvalidLength(error)) => {
                    &&& len >= capacity
                    &&& len > 0
                    &&& error.len == len
                    &&& error.cap == capacity
                    &&& after == before
                },
                Err(VerifyError::Layout(error)) => {
                    &&& len < capacity
                    &&& after == before
                    &&& match error {
                        LayoutError::CapacityOverflow => false,
                        LayoutError::ControlCountOverflow => capacity + 15 > usize::MAX,
                        LayoutError::TooLarge => capacity + 15 <= usize::MAX && capacity
                            * T::spec_size() + capacity + 15 > isize::MAX - (T::spec_align() - 1),
                    }
                },
                Err(VerifyError::Memory(error)) => {
                    ||| {
                        &&& sizes_make_sense(table)
                        &&& answers_block(table, enter, before, Some(error), after)
                    }
                    ||| {
                        &&& all_accepted
                        &&& wraps_around(table, archive)
                        &&& answers_block(table, leave, contexts.last(), Some(error), after)
                    }
                },
                Err(VerifyError::OutOfBounds) => {
                    &&& sizes_make_sense(table)
                    &&& !lies_inside(table, archive)
                    &&& answers_block(table, enter, before, None::<E>, after)
                },
                Err(VerifyError::Entry { index, error }) => {
                    &&& sizes_make_sense(table)
                    &&& lies_inside(table, archive)
                    &&& goes_through(table, archive, enter, check, before, indices, contexts)
                    &&& contexts.len() <= indices.len()
                    &&& index == indices[contexts.len() - 1]
                    &&& answers_entry(
                        table,
                        archive,
                        check,
                        contexts.last(),
                        index as int,
                        Some(error),
                        after,
                    )
                },
                Err(VerifyError::UnwrappedControlByte(error)) => {
                    let i = error.index as int;
                    &&& all_accepted
                    &&& contexts.last() == after
                    &&& capacity <= i < capacity + 15
                    &&& i < 2 * capacity
                    &&& archive[at + i] != archive[at + i - capacity]
                    &&& forall|j: int|
                        capacity <= j < i ==> #[trigger] archive[at + j] == archive[at + j
                            - capacity]
                },
            }
        }),
{
    let full = table.full_buckets(archive);
    let count = full.len() as int;
    let capacity = table.cap.native as int;
    let at = table.ptr.pos + table.ptr.offset;
    let error: E = arbitrary();
    let none = (full, Seq::<C>::empty());
    match result {
        Ok(()) => {
            if table.spec_len() == 0 && table.spec_capacity() == 0 && after == before {
                none
            } else {
                let reached = choose|reached: C| #[trigger]
                    table.checked(archive, enter, check, before, count, reached)
                        && crate::verify::granted(
                        leave,
                        reached,
                        table.wrapped_memory_at(),
                        table.spec_layout(),
                        after,
                    );
                let contexts = lemma_goes_through(
                    table,
                    archive,
                    enter,
                    check,
                    before,
                    count,
                    reached,
                );
                lemma_block(table, leave, reached, error, after);
                lemma_wraps_around(table, archive);
                (full, contexts)
            }
        },
        Err(VerifyError::Memory(error)) => {
            lemma_block_if(table, enter, before, error, after);
            if table.has_layout() && crate::verify::denied(
                enter,
                before,
                table.wrapped_memory_at(),
                table.spec_layout(),
                error,
                after,
            ) {
                none
            } else {
                let reached = choose|reached: C| #[trigger]
                    table.checked(archive, enter, check, before, count, reached)
                        && crate::verify::denied(
                        leave,
                        reached,
                        table.wrapped_memory_at(),
                        table.spec_layout(),
                        error,
                        after,
                    );
                let contexts = lemma_goes_through(
                    table,
                    archive,
                    enter,
                    check,
                    before,
                    count,
                    reached,
                );
                lemma_block(table, leave, reached, error, after);
                lemma_wraps_around(table, archive);
                (full, contexts)
            }
        },
        Err(VerifyError::OutOfBounds) => {
            lemma_block(table, enter, before, error, after);
            none
        },
        Err(VerifyError::Entry { index, error }) => {
            let (k, reached) = choose|k: int, reached: C|
                {
                    &&& #[trigger] table.checked(archive, enter, check, before, k, reached)
                    &&& 0 <= k < count
                    &&& index == full[k]
                    &&& crate::verify::refused(
                        check,
                        reached,
                        table.bucket(archive, index as int),
                        error,
                        after,
                    )
                };
            let contexts = lemma_goes_through(table, archive, enter, check, before, k, reached);
            law_bucket(table, archive, index as int);
            (full, contexts)
        },
        Err(VerifyError::UnwrappedControlByte(error)) => {
            let contexts = lemma_goes_through(
                table,
                archive,
                enter,
                check,
                before,
                count,
                after,
            );
            lemma_repeats(table, archive, error.index as int);
            assert forall|j: int| capacity <= j < error.index implies #[trigger] archive[at + j]
                == archive[at + j - capacity] by {
                lemma_repeats(table, archive, j);
                assert(table.repeats(archive, j));
            }
            (full, contexts)
        },
        _ => none,
    }
}

proof fn lemma_block_if<T: Portable, C, E, G: Fn(C, usize, Layout) -> (C, Result<(), E>)>(
    table: ArchivedHashTable<T>,
    ask: G,
    before: C,
    error: E,
    after: C,
)
    ensures
        table.has_layout() && crate::verify::denied(
            ask,
            before,
            table.wrapped_memory_at(),
            table.spec_layout(),
            error,
            after,
        ) ==> answers_block(table, ask, before, Some(error), after),
{
    if table.has_layout() {
        lemma_block(table, ask, before, error, after);
    }
}

proof fn lemma_repeats<T: Portable>(table: ArchivedHashTable<T>, archive: Seq<u8>, i: int)
    requires
        table.is_placed(archive),
        table.cap.native <= i < table.cap.native + 15,
        i < 2 * table.cap.native,
    ensures
        table.repeats(archive, i) == (archive[table.ptr.pos + table.ptr.offset + i]
            == archive[table.ptr.pos + table.ptr.offset + i - table.cap.native]),
        i % table.cap.native as int == i - table.cap.native,
{
    let capacity = table.cap.native as int;
    let at = table.ptr.pos + table.ptr.offset;
    vstd::arithmetic::div_mod::lemma_fundamental_div_mod_converse(i, capacity, 1, i - capacity);
    assert(0 <= capacity * T::spec_size()) by (nonlinear_arith)
        requires
            capacity >= 0,
    ;
    assert(archive.subrange(at, at + capacity + 15)[i] == archive[at + i]);
    assert(archive.subrange(at, at + capacity + 15)[i - capacity] == archive[at + i - capacity]);
}

/// Control bytes that are wrapped wrap around.
pub proof fn lemma_wraps_around<T: Portable>(table: ArchivedHashTable<T>, archive: Seq<u8>)
    requires
        table.is_placed(archive),
        table.view_in(archive).controls.wrapped(),
    ensures
        wraps_around(table, archive),
{
    let capacity = table.cap.native as int;
    let at = table.ptr.pos + table.ptr.offset;
    let bytes = table.view_in(archive).controls.bytes;
    assert(0 <= capacity * T::spec_size()) by (nonlinear_arith)
        requires
            capacity >= 0,
    ;
    assert forall|i: int|
        capacity <= i < capacity + 15 && i < 2 * capacity implies #[trigger] archive[at + i]
        == archive[at + i - capacity] by {
        lemma_repeats(table, archive, i);
        assert(bytes[i] == bytes[i % capacity]);
    }
}

/// A table with buckets that passes the check has control bytes that wrap around, and its
/// block was left last.
pub proof fn law_valid_table_wraps_around<
    T: Portable,
    C,
    E,
    G: Fn(C, usize, Layout) -> (C, Result<(), E>),
    F: Fn(C, &[u8]) -> (C, Result<(), E>),
    H: Fn(C, usize, Layout) -> (C, Result<(), E>),
>(
    table: ArchivedHashTable<T>,
    archive: Seq<u8>,
    enter: G,
    check: F,
    leave: H,
    before: C,
    after: C,
)
    requires
        table.cap.native > 0,
        table.verify_gives(archive, enter, check, leave, before, Ok(()), after),
    ensures
        table.view_in(archive).controls.wrapped(),
        wraps_around(table, archive),
        sizes_make_sense(table),
        lies_inside(table, archive),
        exists|reached: C| #[trigger] answers_block(table, leave, reached, None::<E>, after),
{
    let (indices, contexts) = law_verify(
        table,
        archive,
        enter,
        check,
        leave,
        before,
        Ok(()),
        after,
    );
    assert(answers_block(table, leave, contexts.last(), None::<E>, after));
}

} // verus!
