//! What calls give: when the functions on tables can be called, and what their results
//! are, told by their arguments alone.

use vstd::prelude::*;

use crate::archive::ArchivedUsize;
use crate::archive::Layout;
use crate::archive::Portable;
use crate::archive::RawRelPtr;
use crate::error::InvalidLength;
use crate::error::InvalidLoadFactor;
use crate::error::IteratorLengthMismatch;
use crate::error::LayoutError;
use crate::error::SerializeError;
use crate::error::UnwrappedControlByte;
use crate::error::VerifyError;
use crate::hash_table::HashTable;
use crate::iter::RawIter;
use crate::probe::ProbeSeq;
use crate::ser::Allocator;
use crate::ser::Archive;
use crate::ser::Buffer;
use crate::ser::BufferFull;
use crate::ser::Serialize;
use crate::ser::Serializer;
use crate::ser::Writer;
use crate::serialize::HashTableResolver;
use crate::table::ArchivedHashTable;

verus! {

/// `h1` keeps as much of a hash as a position has room for, and `h2` the seven most
/// significant bits.
pub proof fn law_call_hash_parts(hash: u64, start: usize, tag: u8)
    ensures
        call_requires(crate::probe::h1, (hash,)),
        call_requires(crate::probe::h2, (hash,)),
        call_ensures(crate::probe::h1, (hash,), start) ==> start == hash as usize,
        call_ensures(crate::probe::h2, (hash,), tag) ==> tag * 0x200_0000_0000_0000 <= hash < (tag
            + 1) * 0x200_0000_0000_0000,
{
}

/// The next power of two is one, is not below `n`, and is less than twice `n`; there is
/// none just if it would not fit.
pub proof fn law_call_next_power_of_two(n: usize, p: Option<usize>) -> (e: nat)
    requires
        call_ensures(crate::probe::checked_next_power_of_two, (n,), p),
    ensures
        call_requires(crate::probe::checked_next_power_of_two, (n,)),
        vstd::arithmetic::power2::pow2(e) >= n,
        n > 0 ==> vstd::arithmetic::power2::pow2(e) < 2 * n,
        n == 0 ==> vstd::arithmetic::power2::pow2(e) == 1,
        match p {
            Some(p) => p == vstd::arithmetic::power2::pow2(e),
            None => vstd::arithmetic::power2::pow2(e) > usize::MAX,
        },
{
    crate::probe::law_next_power_of_two(n as nat)
}

/// Moving on within a window goes on by the width of a group, skipping a window by that of
/// a window, and moving on to the next window by the stride, which grows by the width of a
/// window.
pub proof fn law_call_probe_seq(
    group: &mut ProbeSeq,
    window: &mut ProbeSeq,
    stride: &mut ProbeSeq,
    bucket_mask: usize,
)
    ensures
        old(group).pos + 8 <= usize::MAX ==> call_requires(ProbeSeq::next_group, (group,)),
        old(window).pos + 16 <= usize::MAX ==> call_requires(ProbeSeq::skip_window, (window,)),
        call_requires(ProbeSeq::move_next, (stride, bucket_mask)),
        call_ensures(ProbeSeq::next_group, (group,), ()) ==> final(group).pos == old(group).pos + 8
            && final(group).stride == old(group).stride,
        call_ensures(ProbeSeq::skip_window, (window,), ()) ==> final(window).pos == old(window).pos
            + 16 && final(window).stride == old(window).stride,
        call_ensures(ProbeSeq::move_next, (stride, bucket_mask), ()) ==> final(stride).pos == (old(
            stride).pos.wrapping_add(old(stride).stride) & bucket_mask) && final(stride).stride
            == old(stride).stride.wrapping_add(16),
{
}

/// Probing starts at the remainder of the hash by the capacity, and positions are masked by
/// one less than the least power of two that is not below the capacity.
pub proof fn law_call_probe_start<T: Portable>(
    hash: u64,
    capacity: usize,
    e: nat,
    start: ProbeSeq,
    mask: usize,
)
    requires
        crate::observed::is_space(capacity as int, e),
        vstd::arithmetic::power2::pow2(e) <= usize::MAX,
    ensures
        call_requires(ArchivedHashTable::<T>::probe_seq, (hash, capacity)),
        call_requires(ArchivedHashTable::<T>::bucket_mask, (capacity,)),
        call_ensures(ArchivedHashTable::<T>::probe_seq, (hash, capacity), start) ==> start.pos
            == hash as usize % capacity && start.stride == 0,
        call_ensures(ArchivedHashTable::<T>::bucket_mask, (capacity,), mask) ==> mask + 1
            == vstd::arithmetic::power2::pow2(e),
{
    crate::observed::lemma_window_at(hash, capacity as int, e, 0);
    crate::observed::lemma_space_is_next(capacity as int, e);
}

/// The capacity is the least that the load factor allows, and fails to be computed just if
/// the length times the denominator overflows.
pub proof fn law_call_capacity_from_len<T: Portable>(
    len: usize,
    load_factor: (usize, usize),
    capacity: Result<usize, LayoutError>,
)
    ensures
        len == 0 || load_factor.0 > 0 && len < usize::MAX ==> call_requires(
            ArchivedHashTable::<T>::capacity_from_len,
            (len, load_factor),
        ),
        call_ensures(ArchivedHashTable::<T>::capacity_from_len, (len, load_factor), capacity) ==> {
            &&& capacity is Err <==> len * load_factor.1 > usize::MAX
            &&& capacity matches Err(error) ==> error == LayoutError::CapacityOverflow
            &&& capacity matches Ok(capacity) ==> if len == 0 {
                capacity == 0
            } else {
                crate::written::is_capacity(
                    len as int,
                    (load_factor.0 as int, load_factor.1 as int),
                    capacity as int,
                )
            }
        },
{
}

/// There are 15 more control bytes than buckets, and the block of memory has room for the
/// buckets and the control bytes behind them. It fails to be laid out just if, rounded up
/// to the alignment of a bucket, its size exceeds `isize::MAX`.
pub proof fn law_call_memory_layout<T: Portable>(
    capacity: usize,
    control_count: usize,
    count: Result<usize, LayoutError>,
    layout: Result<(Layout, usize), LayoutError>,
)
    ensures
        call_requires(ArchivedHashTable::<T>::control_count, (capacity,)),
        call_requires(ArchivedHashTable::<T>::memory_layout, (capacity, control_count)),
        call_ensures(ArchivedHashTable::<T>::control_count, (capacity,), count) ==> match count {
            Ok(count) => count == capacity + 15,
            Err(error) => error == LayoutError::ControlCountOverflow && capacity + 15 > usize::MAX,
        },
        call_ensures(
            ArchivedHashTable::<T>::memory_layout,
            (capacity, control_count),
            layout,
        ) ==> {
            let size = capacity * T::spec_size() + control_count;
            match layout {
                Ok((layout, control_offset)) => {
                    &&& size <= isize::MAX - (T::spec_align() - 1)
                    &&& layout.size == size
                    &&& layout.align == T::spec_align()
                    &&& control_offset == capacity * T::spec_size()
                },
                Err(error) => error == LayoutError::TooLarge && size > isize::MAX - (
                T::spec_align() - 1),
            }
        },
{
}

/// The sizes of a table are those that stand in it.
pub proof fn law_call_sizes<T: Portable>(
    table: &ArchivedHashTable<T>,
    empty: bool,
    len: usize,
    capacity: usize,
)
    ensures
        call_requires(ArchivedHashTable::<T>::is_empty, (table,)),
        call_requires(ArchivedHashTable::<T>::len, (table,)),
        call_requires(ArchivedHashTable::<T>::capacity, (table,)),
        call_ensures(ArchivedHashTable::<T>::is_empty, (table,), empty) ==> empty == (
        table.len.native == 0),
        call_ensures(ArchivedHashTable::<T>::len, (table,), len) ==> len == table.len.native,
        call_ensures(ArchivedHashTable::<T>::capacity, (table,), capacity) ==> capacity
            == table.cap.native,
{
}

/// Whether the buckets and control bytes of a table are in an archive.
pub open spec fn is_readable<T: Portable>(table: ArchivedHashTable<T>, archive: Seq<u8>) -> bool {
    let capacity = table.cap.native as int;
    &&& capacity > 0
    &&& capacity * T::spec_size() + capacity + 15 <= isize::MAX - (T::spec_align() - 1)
    &&& crate::observed::lies_inside(table, archive)
}

/// A lookup can be made in every table that claims no entries or is in the archive. It
/// gives the value of the first bucket, in the order of the windows of the hash and of the
/// lanes in them, that holds the seven most significant bits of the hash and whose value is
/// accepted; and nothing just if the table claims no entries or all values that the lookup
/// comes to look at are turned down.
pub proof fn law_call_get_with<T: Portable, C: Fn(&T) -> bool>(
    table: &ArchivedHashTable<T>,
    archive: &[u8],
    hash: u64,
    accepts: C,
    entry: Option<T>,
    e: nat,
)
    requires
        table.len.native != 0 ==> crate::observed::is_space(table.cap.native as int, e),
    ensures
        (forall|value: &T| #[trigger] call_requires(accepts, (value,))) && (table.len.native == 0
            || is_readable(*table, archive@)) ==> call_requires(
            ArchivedHashTable::<T>::get_with::<C>,
            (table, archive, hash, accepts),
        ),
        call_ensures(
            ArchivedHashTable::<T>::get_with::<C>,
            (table, archive, hash, accepts),
            entry,
        ) ==> match entry {
            Some(value) => table.len.native != 0 && exists|n: nat, lane: int|
                {
                    &&& #[trigger] crate::observed::looks_at(
                        crate::observed::control_bytes(*table, archive@),
                        hash,
                        table.cap.native as int,
                        e,
                        n,
                        lane,
                    )
                    &&& value == T::decode(
                        crate::observed::bucket_bytes(
                            *table,
                            archive@,
                            crate::observed::lane_bucket(
                                hash,
                                table.cap.native as int,
                                e,
                                n,
                                lane,
                            ),
                        ),
                    )
                    &&& call_ensures(accepts, (&value,), true)
                    &&& crate::observed::all_rejected(
                        *table,
                        archive@,
                        e,
                        hash,
                        accepts,
                        n,
                        lane,
                    )
                },
            None => table.len.native == 0 || forall|n: nat, lane: int| #[trigger]
                crate::observed::looks_at(
                    crate::observed::control_bytes(*table, archive@),
                    hash,
                    table.cap.native as int,
                    e,
                    n,
                    lane,
                ) ==> call_ensures(
                    accepts,
                    (&T::decode(
                        crate::observed::bucket_bytes(
                            *table,
                            archive@,
                            crate::observed::lane_bucket(
                                hash,
                                table.cap.native as int,
                                e,
                                n,
                                lane,
                            ),
                        ),
                    ),),
                    false,
                ),
        },
{
    crate::observed::law_in_archive(*table, archive@);
    crate::observed::law_bucket(*table, archive@, 0);
    if forall|value: &T| #[trigger] call_requires(accepts, (value,)) {
        crate::observed::law_can_ask(*table, archive@, hash, accepts);
    }
    if table.len.native != 0 && call_ensures(
        ArchivedHashTable::<T>::get_with::<C>,
        (table, archive, hash, accepts),
        entry,
    ) {
        crate::observed::law_lookup_gives(*table, archive@, e, hash, accepts, entry);
    }
}

/// A lookup for writing leads to the same bucket as one for reading, and hands out its
/// bytes: what is written to them is written to the archive there, and nowhere else.
pub proof fn law_call_get_seal_with<T: Portable, C: Fn(&T) -> bool>(
    table: &ArchivedHashTable<T>,
    archive: &mut [u8],
    hash: u64,
    accepts: C,
    entry: Option<&mut [u8]>,
    e: nat,
)
    requires
        table.len.native != 0 ==> crate::observed::is_space(table.cap.native as int, e),
    ensures
        (forall|value: &T| #[trigger] call_requires(accepts, (value,))) && (table.len.native == 0
            || is_readable(*table, old(archive)@)) ==> call_requires(
            ArchivedHashTable::<T>::get_seal_with::<C>,
            (table, archive, hash, accepts),
        ),
        call_ensures(
            ArchivedHashTable::<T>::get_seal_with::<C>,
            (table, archive, hash, accepts),
            entry,
        ) ==> match entry {
            Some(bytes) => table.len.native != 0 && exists|n: nat, lane: int|
                {
                    let index = crate::observed::lane_bucket(
                        hash,
                        table.cap.native as int,
                        e,
                        n,
                        lane,
                    );
                    let end = table.ptr.pos + table.ptr.offset - index * T::spec_size();
                    &&& #[trigger] crate::observed::looks_at(
                        crate::observed::control_bytes(*table, old(archive)@),
                        hash,
                        table.cap.native as int,
                        e,
                        n,
                        lane,
                    )
                    &&& bytes@ == old(archive)@.subrange(end - T::spec_size(), end)
                    &&& call_ensures(accepts, (&T::decode(bytes@),), true)
                    &&& crate::observed::all_rejected(
                        *table,
                        old(archive)@,
                        e,
                        hash,
                        accepts,
                        n,
                        lane,
                    )
                    &&& final(archive)@ == old(archive)@.subrange(0, end - T::spec_size()) + final(
                        bytes)@ + old(archive)@.subrange(end, old(archive)@.len() as int)
                },
            None => final(archive)@ == old(archive)@ && (table.len.native == 0 || forall|
                n: nat,
                lane: int,
            | #[trigger]
                crate::observed::looks_at(
                    crate::observed::control_bytes(*table, old(archive)@),
                    hash,
                    table.cap.native as int,
                    e,
                    n,
                    lane,
                ) ==> call_ensures(
                    accepts,
                    (&T::decode(
                        crate::observed::bucket_bytes(
                            *table,
                            old(archive)@,
                            crate::observed::lane_bucket(
                                hash,
                                table.cap.native as int,
                                e,
                                n,
                                lane,
                            ),
                        ),
                    ),),
                    false,
                )),
        },
{
    let before = old(archive)@;
    crate::observed::law_in_archive(*table, before);
    crate::observed::law_bucket(*table, before, 0);
    if forall|value: &T| #[trigger] call_requires(accepts, (value,)) {
        crate::observed::law_can_ask(*table, before, hash, accepts);
    }
    if table.len.native != 0 && call_ensures(
        ArchivedHashTable::<T>::get_seal_with::<C>,
        (table, archive, hash, accepts),
        entry,
    ) {
        crate::observed::law_lookup(*table, before, e, hash, accepts, 0);
        assert forall|index: int| #[trigger] table.view_in(before).finds(
            hash,
            accepts,
            index,
        ) implies crate::observed::finds_first(*table, before, e, hash, accepts, index)
            && table.bucket_at(index) + T::spec_size() == table.ptr.pos + table.ptr.offset - index
            * T::spec_size() && table.bucket(before, index) == crate::observed::bucket_bytes(
            *table,
            before,
            index,
        ) by {
            crate::observed::law_lookup(*table, before, e, hash, accepts, index);
            crate::observed::law_bucket(*table, before, index);
            let s = T::spec_size() as int;
            assert((index + 1) * s == index * s + s) by (nonlinear_arith);
        }
    }
}

/// A table can be iterated over if it claims no entries, or is in the archive with at least
/// as many full buckets as it claims. The iterator comes to the first full buckets, as many
/// as the table claims.
pub proof fn law_call_raw_iter<T: Portable>(
    table: &ArchivedHashTable<T>,
    archive: &[u8],
    indices: Seq<int>,
    iter: RawIter<T>,
)
    requires
        crate::observed::lists_full(
            crate::observed::control_bytes(*table, archive@),
            table.cap.native as int,
            indices,
        ),
        table.len.native == 0 || (is_readable(*table, archive@) && indices.len()
            >= table.len.native),
    ensures
        call_requires(ArchivedHashTable::<T>::raw_iter, (table, archive)),
        call_ensures(ArchivedHashTable::<T>::raw_iter, (table, archive), iter) ==> {
            &&& iter.wf(archive@)
            &&& table.len.native == 0 ==> iter.remaining(archive@) == Seq::<int>::empty()
            &&& table.len.native != 0 ==> iter.remaining(archive@) == indices.take(
                table.len.native as int,
            ) && iter.table() == *table
        },
{
    crate::observed::law_in_archive(*table, archive@);
    crate::observed::law_iteration(*table, archive@, indices);
}

/// Iterating for writing comes to the same buckets, and changes nothing by itself.
pub proof fn law_call_raw_iter_seal<T: Portable>(
    table: &ArchivedHashTable<T>,
    archive: &mut [u8],
    indices: Seq<int>,
    iter: RawIter<T>,
)
    requires
        crate::observed::lists_full(
            crate::observed::control_bytes(*table, old(archive)@),
            table.cap.native as int,
            indices,
        ),
        table.len.native == 0 || (is_readable(*table, old(archive)@) && indices.len()
            >= table.len.native),
    ensures
        call_requires(ArchivedHashTable::<T>::raw_iter_seal, (table, archive)),
        call_ensures(ArchivedHashTable::<T>::raw_iter_seal, (table, archive), iter) ==> {
            &&& final(archive)@ == old(archive)@
            &&& iter.wf(old(archive)@)
            &&& table.len.native == 0 ==> iter.remaining(old(archive)@) == Seq::<int>::empty()
            &&& table.len.native != 0 ==> iter.remaining(old(archive)@) == indices.take(
                table.len.native as int,
            ) && iter.table() == *table
        },
{
    crate::observed::law_in_archive(*table, old(archive)@);
    crate::observed::law_iteration(*table, old(archive)@, indices);
}

/// An iterator gives the position of the next of the buckets that it comes to, and stays
/// where it is after the last one.
pub proof fn law_call_next<T: Portable>(
    iter: &mut RawIter<T>,
    archive: &[u8],
    entry: Option<usize>,
)
    requires
        old(iter).wf(archive@),
    ensures
        call_requires(RawIter::<T>::next, (iter, archive)),
        call_ensures(RawIter::<T>::next, (iter, archive), entry) ==> match entry {
            Some(position) => {
                let left = old(iter).remaining(archive@);
                let table = old(iter).table();
                &&& left.len() > 0
                &&& position == table.ptr.pos + table.ptr.offset - (left[0] + 1) * T::spec_size()
                &&& final(iter).remaining(archive@) == left.drop_first()
                &&& final(iter).wf(archive@)
                &&& final(iter).table() == table
            },
            None => old(iter).remaining(archive@).len() == 0 && *final(iter) == *old(iter),
        },
{
}

/// The length of an iterator is the number of buckets to come. One that yields nothing comes
/// to none.
pub proof fn law_call_iter_len<T: Portable>(
    iter: &RawIter<T>,
    archive: Seq<u8>,
    len: usize,
    empty: RawIter<T>,
)
    requires
        iter.wf(archive),
    ensures
        call_requires(RawIter::<T>::len, (iter,)),
        call_ensures(RawIter::<T>::len, (iter,), len) ==> len == iter.remaining(archive).len(),
        call_ensures(RawIter::<T>::empty, (), empty) ==> empty.wf(archive) && empty.remaining(
            archive,
        ).len() == 0,
{
    iter.law_left(archive);
}

/// A table is resolved to a length and the least capacity that the load factor allows, and
/// to a pointer that leads from its own position to that of the control bytes. Of the
/// length and the capacity 32 bits are kept.
pub proof fn law_call_resolve_from_len<T: Portable>(
    len: usize,
    load_factor: (usize, usize),
    resolver: HashTableResolver,
    out: usize,
    table: ArchivedHashTable<T>,
    capacity: usize,
)
    requires
        if len == 0 {
            capacity == 0
        } else {
            crate::written::is_capacity(
                len as int,
                (load_factor.0 as int, load_factor.1 as int),
                capacity as int,
            )
        },
        len == 0 || load_factor.0 > 0,
    ensures
        (len == 0 || i32::MIN <= resolver.pos - out <= i32::MAX) && len * load_factor.1
            <= usize::MAX && len < usize::MAX ==> call_requires(
            ArchivedHashTable::<T>::resolve_from_len,
            (len, load_factor, resolver, out),
        ),
        call_ensures(
            ArchivedHashTable::<T>::resolve_from_len,
            (len, load_factor, resolver, out),
            table,
        ) ==> {
            &&& table.ptr.pos == out
            &&& if len == 0 {
                table.ptr.offset == 1
            } else {
                out + table.ptr.offset == resolver.pos
            }
            &&& table.len.native == len as u32
            &&& table.cap.native == capacity as u32
        },
{
    if len != 0 {
        crate::sizes::law_least_capacity_is_unique(
            len as int,
            (load_factor.0 as int, load_factor.1 as int),
            capacity as int,
        );
    }
}

/// A table can be serialized with any load factor, as long as the counts of items fit.
pub proof fn law_can_serialize<S: Writer + Allocator, T: Portable, U: Serialize<S> + Archive<
    Archived = T,
>>(
    items: &[U],
    len: usize,
    hashes: &[u64],
    load_factor: (usize, usize),
    serializer: &mut S,
)
    requires
        0 < load_factor.0 <= load_factor.1 ==> {
            &&& items@.len() > len ==> len + items@.len() <= usize::MAX
            &&& len < usize::MAX
            &&& len * vstd::layout::size_of::<U::Resolver>() <= isize::MAX + 1
                - vstd::layout::align_of::<U::Resolver>()
        },
    ensures
        call_requires(
            ArchivedHashTable::<T>::serialize_from_iter::<S, U>,
            (items, len, hashes, load_factor, serializer),
        ),
{
}

/// What serializing leaves is what the outcome of serializing says, whatever the result.
/// Scratch memory changes hands only if the load factor is a fraction in the range (0, 1]
/// and items are announced; all of it is given back if serializing succeeds.
pub proof fn law_call_serialize<S: Writer + Allocator, T: Portable, U: Serialize<S> + Archive<
    Archived = T,
>>(
    items: &[U],
    len: usize,
    hashes: &[u64],
    load_factor: (usize, usize),
    serializer: &mut S,
    result: Result<HashTableResolver, SerializeError<S::Error>>,
    capacity: int,
)
    requires
        len > 0 && load_factor.0 > 0 ==> crate::written::is_capacity(
            len as int,
            (load_factor.0 as int, load_factor.1 as int),
            capacity,
        ),
        call_ensures(
            ArchivedHashTable::<T>::serialize_from_iter::<S, U>,
            (items, len, hashes, load_factor, serializer),
            result,
        ),
    ensures
        crate::serialize::serialize_outcome::<S, U>(
            items@,
            len as int,
            hashes@,
            (load_factor.0 as int, load_factor.1 as int),
            old(serializer).written(),
            result,
            final(serializer).written(),
        ),
        old(serializer).loans().is_prefix_of(final(serializer).loans()),
        len == 0 || !(0 < load_factor.0 <= load_factor.1) ==> final(serializer).loans() == old(
            serializer).loans(),
        result is Ok ==> crate::ser::lent(final(serializer).loans()) == crate::ser::lent(old(
            serializer).loans()),
        result is Ok && len > 0 ==> crate::serialize::borrowed(
            old(serializer).loans(),
            final(serializer).loans(),
            crate::serialize::resolvers_layout::<U::Resolver>(len as int),
            ArchivedHashTable::<T>::spec_memory_layout(capacity),
        ),
{
    crate::written::law_load_factor_is_checked::<S, U>(
        items@,
        len as int,
        hashes@,
        (load_factor.0 as int, load_factor.1 as int),
        old(serializer).written(),
        result,
        final(serializer).written(),
    );
    if len > 0 && load_factor.0 > 0 {
        crate::sizes::law_least_capacity_is_unique(
            len as int,
            (load_factor.0 as int, load_factor.1 as int),
            capacity,
        );
    }
}

/// A table that was serialized is written: its items, its buckets and its control bytes
/// stand where they should.
pub proof fn law_call_serialize_writes<S: Writer + Allocator, T: Portable, U: Serialize<S>
    + Archive<Archived = T>>(
    items: &[U],
    len: usize,
    hashes: &[u64],
    load_factor: (usize, usize),
    serializer: &mut S,
    resolver: HashTableResolver,
    capacity: int,
    e: nat,
)
    requires
        len > 0,
        crate::written::is_capacity(
            len as int,
            (load_factor.0 as int, load_factor.1 as int),
            capacity,
        ),
        crate::observed::is_space(capacity, e),
        call_ensures(
            ArchivedHashTable::<T>::serialize_from_iter::<S, U>,
            (items, len, hashes, load_factor, serializer),
            Ok(resolver),
        ),
    ensures
        0 < load_factor.0 <= load_factor.1,
        items@.len() <= len,
        exists|resolvers: Seq<U::Resolver>, states: Seq<Seq<u8>>, slots: Seq<int>|
            #[trigger] crate::written::writes_items::<S, U>(
                items@,
                old(serializer).written(),
                resolvers,
                states,
            ) && #[trigger] crate::written::is_written::<U>(
                items@,
                hashes@,
                states.last(),
                resolvers,
                slots,
                capacity,
                e,
                resolver.pos as int,
                final(serializer).written(),
            ),
{
    let _ = crate::written::law_written::<S, U>(
        items@,
        len as int,
        hashes@,
        (load_factor.0 as int, load_factor.1 as int),
        old(serializer).written(),
        resolver,
        final(serializer).written(),
        capacity,
        e,
    );
}

/// Items that refer to nothing are serialized to a buffer with room for their table, as
/// long as the memory of the table can be laid out and every item finds a bucket.
pub proof fn law_call_serialize_succeeds<T: Portable, U: Serialize<Buffer> + Archive<
    Archived = T,
>>(
    items: &[U],
    len: usize,
    hashes: &[u64],
    load_factor: (usize, usize),
    buffer: &mut Buffer,
    result: Result<HashTableResolver, SerializeError<BufferFull>>,
    capacity: int,
    e: nat,
    slots: Seq<int>,
)
    requires
        len > 0,
        0 < load_factor.0 <= load_factor.1,
        items@.len() <= len,
        crate::written::is_capacity(
            len as int,
            (load_factor.0 as int, load_factor.1 as int),
            capacity,
        ),
        crate::observed::is_space(capacity, e),
        len * load_factor.1 <= usize::MAX,
        capacity + 15 <= usize::MAX,
        capacity * T::spec_size() + capacity + 15 <= isize::MAX - (T::spec_align() - 1),
        0 <= len * vstd::layout::size_of::<U::Resolver>() <= usize::MAX,
        vstd::layout::align_of::<U::Resolver>() <= usize::MAX,
        crate::written::in_order(
            hashes@.take(if items@.len() <= hashes@.len() {
                items@.len() as int
            } else {
                hashes@.len() as int
            }),
            capacity,
            e,
            slots,
        ),
        forall|item: U, from: Seq<u8>, resolver: U::Resolver, to: Seq<u8>| #[trigger]
            item.may_serialize(from, resolver, to) ==> to == from,
        forall|item: U, from: Seq<u8>, error: BufferFull, to: Seq<u8>|
            !#[trigger] item.may_fail(from, error, to),
        old(buffer).written().len() + T::spec_align() + capacity * T::spec_size() + capacity + 15
            <= isize::MAX,
        call_ensures(
            ArchivedHashTable::<T>::serialize_from_iter::<Buffer, U>,
            (items, len, hashes, load_factor, buffer),
            result,
        ),
    ensures
        result is Ok,
{
    crate::written::law_buffer_takes_table::<U>(
        items@,
        len as int,
        hashes@,
        (load_factor.0 as int, load_factor.1 as int),
        old(buffer).written(),
        result,
        final(buffer).written(),
        capacity,
        e,
        slots,
    );
}

/// A table can be checked whenever the functions that are asked can be called, and what
/// the check gives is told by what they answer.
pub proof fn law_call_verify<
    T: Portable,
    C,
    E,
    G: Fn(C, usize, Layout) -> (C, Result<(), E>),
    F: Fn(C, &[u8]) -> (C, Result<(), E>),
    H: Fn(C, usize, Layout) -> (C, Result<(), E>),
>(
    table: &ArchivedHashTable<T>,
    archive: &[u8],
    context: C,
    enter: G,
    check: F,
    leave: H,
    outcome: (C, Result<(), VerifyError<E>>),
)
    ensures
        (forall|c: C, at: usize, layout: Layout| #[trigger] call_requires(enter, (c, at, layout)))
            && (forall|c: C, bytes: &[u8]| #[trigger] call_requires(check, (c, bytes))) && (forall|
            c: C,
            at: usize,
            layout: Layout,
        | #[trigger] call_requires(leave, (c, at, layout))) ==> call_requires(
            ArchivedHashTable::<T>::verify::<C, E, G, F, H>,
            (table, archive, context, enter, check, leave),
        ),
        call_ensures(
            ArchivedHashTable::<T>::verify::<C, E, G, F, H>,
            (table, archive, context, enter, check, leave),
            outcome,
        ) ==> table.verify_gives(
            archive@,
            enter,
            check,
            leave,
            context,
            outcome.1,
            outcome.0,
        ),
{
}

/// A table with buckets that passes the check has sizes that make sense and memory in the
/// archive, its control bytes wrap around, and its block was left last.
pub proof fn law_call_verify_accepts<
    T: Portable,
    C,
    E,
    G: Fn(C, usize, Layout) -> (C, Result<(), E>),
    F: Fn(C, &[u8]) -> (C, Result<(), E>),
    H: Fn(C, usize, Layout) -> (C, Result<(), E>),
>(
    table: &ArchivedHashTable<T>,
    archive: &[u8],
    context: C,
    enter: G,
    check: F,
    leave: H,
    after: C,
) -> (through: (Seq<int>, Seq<C>))
    requires
        table.cap.native > 0,
        call_ensures(
            ArchivedHashTable::<T>::verify::<C, E, G, F, H>,
            (table, archive, context, enter, check, leave),
            (after, Ok(())),
        ),
    ensures
        crate::observed::sizes_make_sense(*table),
        crate::observed::lies_inside(*table, archive@),
        crate::observed::wraps_around(*table, archive@),
        crate::observed::goes_through(
            *table,
            archive@,
            enter,
            check,
            context,
            through.0,
            through.1,
        ),
        through.1.len() == through.0.len() + 1,
        crate::observed::answers_block(*table, leave, through.1.last(), None::<E>, after),
{
    crate::observed::law_verify(
        *table,
        archive@,
        enter,
        check,
        leave,
        context,
        Ok(()),
        after,
    )
}

/// Sizes keep 32 bits in an archive, and pointers the distance to their target.
pub proof fn law_call_archived(
    native: usize,
    size: ArchivedUsize,
    back: u32,
    target: usize,
    pos: usize,
    ptr: RawRelPtr,
    position: usize,
)
    ensures
        call_requires(ArchivedUsize::resolve, (native,)),
        call_ensures(ArchivedUsize::resolve, (native,), size) ==> size.native == native as u32,
        call_ensures(ArchivedUsize::to_native, (&size,), back) ==> back == size.native,
        i32::MIN <= target - pos <= i32::MAX ==> call_requires(RawRelPtr::emplace, (target, pos)),
        call_ensures(RawRelPtr::emplace, (target, pos), ptr) ==> ptr.pos == pos && pos + ptr.offset
            == target,
        call_ensures(RawRelPtr::emplace_invalid, (pos,), ptr) ==> ptr.pos == pos && ptr.offset == 1,
        0 <= ptr.pos + ptr.offset <= usize::MAX ==> call_requires(RawRelPtr::as_position, (&ptr,)),
        call_ensures(RawRelPtr::as_position, (&ptr,), position) ==> position == ptr.pos
            + ptr.offset,
{
}

/// A hash table holds what was inserted, as long as it is far from the size of a block of
/// memory. The hash of an element is the element.
pub proof fn law_call_hash_table(
    made: HashTable,
    table: &mut HashTable,
    value: u64,
    inserted: bool,
    hash: u64,
)
    ensures
        call_requires(HashTable::new, ()),
        call_requires(HashTable::insert, (table, value)),
        call_ensures(HashTable::new, (), made) ==> crate::hash_table::hash_table_items(made)
            == vstd::multiset::Multiset::<u64>::empty(),
        call_ensures(HashTable::insert, (table, value), inserted) ==> {
            let before = crate::hash_table::hash_table_items(*old(table));
            let after = crate::hash_table::hash_table_items(*final(table));
            &&& inserted <==> before.len() < isize::MAX / 64
            &&& inserted ==> after == before.insert(value)
            &&& !inserted ==> after == before
        },
        call_ensures(crate::hash_table::hash_of, (&value,), hash) ==> hash == value,
{
}

/// A hash table is resolved by its number of elements, with the least capacity that fills
/// at most seven of eight buckets; and just if that number and the distance to its memory
/// can be archived.
pub proof fn law_call_hash_table_resolve(
    items: &HashTable,
    resolver: HashTableResolver,
    out: usize,
    resolved: ArchivedHashTable<u64>,
    checked: Option<ArchivedHashTable<u64>>,
    capacity: usize,
)
    requires
        ({
            let len = crate::hash_table::hash_table_items(*items).len() as int;
            if len == 0 {
                capacity == 0
            } else {
                crate::written::is_capacity(len, (7, 8), capacity as int)
            }
        }),
    ensures
        ({
            let len = crate::hash_table::hash_table_items(*items).len() as int;
            let can_resolve = len * 8 <= usize::MAX && (len == 0 || i32::MIN <= resolver.pos - out
                <= i32::MAX);
            &&& can_resolve ==> call_requires(HashTable::resolve, (items, resolver, out))
            &&& call_requires(HashTable::checked_resolve, (items, resolver, out))
            &&& call_ensures(HashTable::resolve, (items, resolver, out), resolved)
                ==> is_resolved_to(resolved, len, capacity, resolver, out)
            &&& call_ensures(HashTable::checked_resolve, (items, resolver, out), checked) ==> {
                &&& checked is Some <==> can_resolve
                &&& checked matches Some(resolved) ==> is_resolved_to(
                    resolved,
                    len,
                    capacity,
                    resolver,
                    out,
                )
            }
        }),
{
    let len = crate::hash_table::hash_table_items(*items).len() as int;
    if len != 0 {
        crate::sizes::law_least_capacity_is_unique(len, (7, 8), capacity as int);
    }
}

/// Whether a table at position `out` has these sizes, and leads to the control bytes that
/// the resolver tells.
pub open spec fn is_resolved_to<T>(
    table: ArchivedHashTable<T>,
    len: int,
    capacity: usize,
    resolver: HashTableResolver,
    out: usize,
) -> bool {
    &&& table.ptr.pos == out
    &&& if len == 0 {
        table.ptr.offset == 1
    } else {
        out + table.ptr.offset == resolver.pos
    }
    &&& table.len.native == len as u32
    &&& table.cap.native == capacity as u32
}

/// The texts of errors.
pub proof fn law_call_messages(
    load_factor: &InvalidLoadFactor,
    mismatch: &IteratorLengthMismatch,
    length: &InvalidLength,
    unwrapped: &UnwrappedControlByte,
    layout: &LayoutError,
    text: String,
    fixed: &'static str,
)
    ensures
        call_ensures(LayoutError::message, (layout,), fixed) ==> match layout {
            LayoutError::CapacityOverflow => fixed@ == "overflow while adjusting capacity"@,
            LayoutError::ControlCountOverflow => fixed@
                == "overflow while calculating buckets from adjusted capacity"@,
            LayoutError::TooLarge => fixed@ == "the memory of the hash table is too large"@,
        },
        call_ensures(InvalidLoadFactor::message, (load_factor,), text) ==> text@
            == "invalid load factor "@ + crate::error::decimal(load_factor.numerator as nat)
            + " / "@ + crate::error::decimal(load_factor.denominator as nat)
            + ", load factor must be a fraction in the range (0, 1]"@,
        call_ensures(IteratorLengthMismatch::message, (mismatch,), text) ==> text@
            == "iterator claimed that it contained "@ + crate::error::decimal(
            mismatch.expected as nat,
        ) + " elements, but yielded "@ + crate::error::decimal(mismatch.actual as nat)
            + " items during iteration"@,
        call_ensures(InvalidLength::message, (length,), text) ==> text@
            == "hash table length must be strictly less than its capacity (length: "@
            + crate::error::decimal(length.len as nat) + ", capacity: "@ + crate::error::decimal(
            length.cap as nat,
        ) + ")"@,
        call_ensures(UnwrappedControlByte::message, (unwrapped,), text) ==> text@
            == "unwrapped control byte at index "@ + crate::error::decimal(unwrapped.index as nat),
{
}

/// A buffer has nothing written to it at first. Bytes are appended to it as long as it
/// stays within a block of memory, and it is what was written in the end.
pub proof fn law_call_buffer(
    made: Buffer,
    buffer: &mut Buffer,
    bytes: &[u8],
    result: Result<(), BufferFull>,
    full: Buffer,
    archive: Vec<u8>,
)
    ensures
        call_ensures(Buffer::new, (), made) ==> made.written().len() == 0 && made.loans().len()
            == 0,
        call_ensures(<Buffer as Writer>::write, (buffer, bytes), result) ==> {
            &&& result is Ok <==> old(buffer).written().len() + bytes@.len() <= isize::MAX
            &&& result is Ok ==> final(buffer).written() == old(buffer).written() + bytes@
            &&& result is Err ==> final(buffer).written() == old(buffer).written()
            &&& final(buffer).loans() == old(buffer).loans()
        },
        call_ensures(Buffer::into_bytes, (full,), archive) ==> archive@ == full.written(),
{
}

/// Aligning writes zero bytes up to the next multiple of the alignment, and no more.
pub proof fn law_call_align_to<S: Writer>(
    serializer: &mut S,
    align: usize,
    pos: usize,
)
    requires
        align > 0,
        call_ensures(crate::ser::align_to::<S>, (serializer, align), Ok(pos)),
    ensures
        pos as int % align as int == 0,
        old(serializer).written().len() <= pos < old(serializer).written().len() + align,
        final(serializer).written().len() == pos,
        forall|i: int|
            0 <= i < pos ==> #[trigger] final(serializer).written()[i] == (if i < old(
                serializer).written().len() {
                old(serializer).written()[i]
            } else {
                0
            }),
{
}

/// A table that was serialized and resolved gives back its items: a lookup with the hash of
/// an item, and with a comparison that accepts the value of that item and no other, gives
/// that value; and one with a comparison that accepts no value gives nothing.
pub proof fn law_call_read_back<
    S: Writer + Allocator,
    T: Portable,
    U: Serialize<S> + Archive<Archived = T>,
    C: Fn(&T) -> bool,
>(
    items: &[U],
    hashes: &[u64],
    load_factor: (usize, usize),
    serializer: &mut S,
    resolver: HashTableResolver,
    out: usize,
    table: &ArchivedHashTable<T>,
    archive: &[u8],
    value: spec_fn(U) -> T,
    k: int,
    accepts: C,
    entry: Option<T>,
    capacity: int,
)
    requires
        0 < items@.len() <= u32::MAX,
        hashes@.len() == items@.len(),
        capacity <= u32::MAX,
        crate::written::is_capacity(
            items@.len() as int,
            (load_factor.0 as int, load_factor.1 as int),
            capacity,
        ),
        call_ensures(
            ArchivedHashTable::<T>::serialize_from_iter::<S, U>,
            (items, items@.len() as usize, hashes, load_factor, serializer),
            Ok(resolver),
        ),
        call_ensures(
            ArchivedHashTable::<T>::resolve_from_len,
            (items@.len() as usize, load_factor, resolver, out),
            *table,
        ),
        final(serializer).written().len() <= archive@.len(),
        archive@.subrange(0, final(serializer).written().len() as int) == final(
            serializer).written(),
        forall|item: U, resolver: U::Resolver, pos: int|
            T::decode(#[trigger] item.resolved(resolver, pos)) == value(item),
        0 <= k < items@.len(),
        call_ensures(
            ArchivedHashTable::<T>::get_with::<C>,
            (table, archive, hashes@[k], accepts),
            entry,
        ),
    ensures
        !call_ensures(accepts, (&value(items@[k]),), false) && (forall|j: int|
            0 <= j < items@.len() && value(#[trigger] items@[j]) != value(items@[k])
                ==> !call_ensures(accepts, (&value(items@[j]),), true)) ==> entry == Some(
            value(items@[k]),
        ),
        (forall|j: int|
            0 <= j < items@.len() ==> !call_ensures(
                accepts,
                (&value(#[trigger] items@[j]),),
                true,
            )) ==> entry is None,
{
    let len = items@.len() as int;
    let factor = (load_factor.0 as int, load_factor.1 as int);
    assert(items@.len() as usize == len);
    crate::written::law_load_factor_is_checked::<S, U>(
        items@,
        len,
        hashes@,
        factor,
        old(serializer).written(),
        Ok(resolver),
        final(serializer).written(),
    );
    crate::sizes::law_least_capacity_is_unique(len, factor, capacity);
    assert(crate::roundtrip::is_resolved(
        *table,
        len,
        factor,
        resolver,
        final(serializer).written(),
        archive@,
    ));
    if !call_ensures(accepts, (&value(items@[k]),), false) && (forall|j: int|
        0 <= j < items@.len() && value(#[trigger] items@[j]) != value(items@[k]) ==> !call_ensures(
            accepts,
            (&value(items@[j]),),
            true,
        )) {
        crate::roundtrip::law_read_after_write::<S, U, C>(
            items@,
            len,
            hashes@,
            factor,
            old(serializer).written(),
            resolver,
            final(serializer).written(),
            *table,
            archive@,
            value,
            k,
            accepts,
            entry,
        );
    }
    if forall|j: int|
        0 <= j < items@.len() ==> !call_ensures(accepts, (&value(#[trigger] items@[j]),), true) {
        crate::roundtrip::law_nothing_else_is_read::<S, U, C>(
            items@,
            len,
            hashes@,
            factor,
            old(serializer).written(),
            resolver,
            final(serializer).written(),
            *table,
            archive@,
            value,
            hashes@[k],
            accepts,
            entry,
        );
    }
}

/// A table that was serialized and resolved is in the archive, block and all, and passes
/// the check unless one of the functions that are asked refuses something.
pub proof fn law_call_written_passes<
    S: Writer + Allocator,
    T: Portable,
    U: Serialize<S> + Archive<Archived = T>,
    C,
    E,
    G: Fn(C, usize, Layout) -> (C, Result<(), E>),
    F: Fn(C, &[u8]) -> (C, Result<(), E>),
    H: Fn(C, usize, Layout) -> (C, Result<(), E>),
>(
    items: &[U],
    len: usize,
    hashes: &[u64],
    load_factor: (usize, usize),
    serializer: &mut S,
    resolver: HashTableResolver,
    out: usize,
    table: &ArchivedHashTable<T>,
    archive: &[u8],
    enter: G,
    check: F,
    leave: H,
    context: C,
    outcome: (C, Result<(), VerifyError<E>>),
    capacity: int,
)
    requires
        0 < len <= u32::MAX,
        capacity <= u32::MAX,
        crate::written::is_capacity(
            len as int,
            (load_factor.0 as int, load_factor.1 as int),
            capacity,
        ),
        call_ensures(
            ArchivedHashTable::<T>::serialize_from_iter::<S, U>,
            (items, len, hashes, load_factor, serializer),
            Ok(resolver),
        ),
        call_ensures(
            ArchivedHashTable::<T>::resolve_from_len,
            (len, load_factor, resolver, out),
            *table,
        ),
        final(serializer).written().len() <= archive@.len() <= usize::MAX,
        archive@.subrange(0, final(serializer).written().len() as int) == final(
            serializer).written(),
        call_ensures(
            ArchivedHashTable::<T>::verify::<C, E, G, F, H>,
            (table, archive, context, enter, check, leave),
            outcome,
        ),
    ensures
        crate::observed::sizes_make_sense(*table),
        crate::observed::lies_inside(*table, archive@),
        table.wrapped_memory_at() == crate::observed::buckets_start(*table),
        table.wrapped_memory_at() + table.spec_layout().size <= archive@.len(),
        crate::observed::wraps_around(*table, archive@),
        (forall|c: C, bytes: &[u8], d: C, answer: Result<(), E>| #[trigger]
            call_ensures(check, (c, bytes), (d, answer)) ==> answer is Ok) && (forall|
            c: C,
            at: usize,
            layout: Layout,
            d: C,
            answer: Result<(), E>,
        | #[trigger] call_ensures(enter, (c, at, layout), (d, answer)) ==> answer is Ok) && (forall|
            c: C,
            at: usize,
            layout: Layout,
            d: C,
            answer: Result<(), E>,
        | #[trigger] call_ensures(leave, (c, at, layout), (d, answer)) ==> answer is Ok)
            ==> outcome.1 is Ok,
{
    let before = old(serializer).written();
    let after = final(serializer).written();
    let factor = (load_factor.0 as int, load_factor.1 as int);
    crate::written::law_load_factor_is_checked::<S, U>(
        items@,
        len as int,
        hashes@,
        factor,
        before,
        Ok(resolver),
        after,
    );
    crate::sizes::law_least_capacity_is_unique(len as int, factor, capacity);
    assert(crate::roundtrip::is_resolved(
        *table,
        len as int,
        factor,
        resolver,
        after,
        archive@,
    ));
    let _ = crate::roundtrip::law_written_table::<S, U>(
        items@,
        len as int,
        hashes@,
        factor,
        before,
        resolver,
        after,
        *table,
        archive@,
    );
    let used = crate::serialize::used_hashes(items@.len() as int, hashes@);
    crate::controls::Placement::law_placement_is_sound(capacity, used);
    crate::observed::lemma_wraps_around(*table, archive@);
    crate::observed::law_claimed_block(*table, archive@);
    if (forall|c: C, bytes: &[u8], d: C, answer: Result<(), E>| #[trigger]
        call_ensures(check, (c, bytes), (d, answer)) ==> answer is Ok) && (forall|
        c: C,
        at: usize,
        layout: Layout,
        d: C,
        answer: Result<(), E>,
    | #[trigger] call_ensures(enter, (c, at, layout), (d, answer)) ==> answer is Ok) && (forall|
        c: C,
        at: usize,
        layout: Layout,
        d: C,
        answer: Result<(), E>,
    | #[trigger] call_ensures(leave, (c, at, layout), (d, answer)) ==> answer is Ok) {
        crate::roundtrip::law_written_table_passes::<S, U, C, E, G, F, H>(
            items@,
            len as int,
            hashes@,
            factor,
            before,
            resolver,
            after,
            *table,
            archive@,
            enter,
            check,
            leave,
            context,
            outcome.1,
            outcome.0,
        );
    }
}

} // verus!
