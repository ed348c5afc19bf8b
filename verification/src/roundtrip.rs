//! What reading a table gives back of what was written.

use vstd::prelude::*;

use crate::archive::Layout;
use crate::archive::Portable;
use crate::controls::Placement;
use crate::error::SerializeError;
use crate::error::VerifyError;
use crate::group::EMPTY;
use crate::ser::Allocator;
use crate::ser::Archive;
use crate::ser::Serialize;
use crate::ser::Writer;
use crate::serialize::HashTableResolver;
use crate::table::ArchivedHashTable;

verus! {

/// The bytes of bucket `index`, in memory whose buckets of `size` bytes end at
/// `end`.
pub open spec fn bucket_of(memory: Seq<u8>, end: int, size: int, index: int) -> Seq<u8> {
    memory.subrange(end - (index + 1) * size, end - (index + 1) * size + size)
}

proof fn lemma_bucket_range(capacity: int, size: int, index: int)
    requires
        0 <= index < capacity,
        0 <= size,
    ensures
        0 <= capacity * size - (index + 1) * size,
        capacity * size - (index + 1) * size + size <= capacity * size,
{
    assert(0 <= capacity * size - (index + 1) * size && size <= (index + 1) * size)
        by (nonlinear_arith)
        requires
            0 <= index < capacity,
            0 <= size,
    ;
}

proof fn lemma_buckets_apart(size: int, lower: int, upper: int)
    requires
        0 <= lower < upper,
        0 <= size,
    ensures
        (lower + 1) * size <= (upper + 1) * size - size,
{
    assert((lower + 1) * size <= (upper + 1) * size - size) by (nonlinear_arith)
        requires
            0 <= lower < upper,
            0 <= size,
    ;
}

/// Writing one bucket changes that bucket alone.
proof fn lemma_splice_bucket(memory: Seq<u8>, capacity: int, size: int, index: int, patch: Seq<u8>)
    requires
        0 <= index < capacity,
        0 <= size,
        memory.len() == capacity * size,
        patch.len() == size,
    ensures
        ({
            let at = capacity * size - (index + 1) * size;
            let after = crate::serialize::splice(memory, at, patch);
            &&& after.len() == memory.len()
            &&& bucket_of(after, capacity * size, size, index) == patch
            &&& forall|i: int|
                0 <= i < capacity && i != index ==> #[trigger] bucket_of(
                    after,
                    capacity * size,
                    size,
                    i,
                ) == bucket_of(memory, capacity * size, size, i)
        }),
{
    let end = capacity * size;
    let at = end - (index + 1) * size;
    lemma_bucket_range(capacity, size, index);
    let after = crate::serialize::splice(memory, at, patch);
    assert(bucket_of(after, end, size, index) =~= patch);
    assert forall|i: int| 0 <= i < capacity && i != index implies #[trigger] bucket_of(
        after,
        end,
        size,
        i,
    ) == bucket_of(memory, end, size, i) by {
        lemma_bucket_range(capacity, size, i);
        if i < index {
            lemma_buckets_apart(size, i, index);
        } else {
            lemma_buckets_apart(size, index, i);
        }
        assert(bucket_of(after, end, size, i) =~= bucket_of(memory, end, size, i));
    }
}

/// In the buckets of a table that is written, every item stands in its bucket, and
/// the other buckets are zero.
pub proof fn law_buckets_image<U: Archive>(
    items: Seq<U>,
    resolvers: Seq<U::Resolver>,
    slots: Seq<int>,
    capacity: int,
    pos: int,
)
    requires
        0 <= capacity,
        slots.len() <= items.len(),
        slots.len() <= resolvers.len(),
        slots.no_duplicates(),
        forall|k: int| 0 <= k < slots.len() ==> 0 <= #[trigger] slots[k] < capacity,
    ensures
        ({
            let size = U::Archived::spec_size() as int;
            let end = capacity * size;
            let image = crate::serialize::buckets_image(items, resolvers, slots, end, pos);
            &&& image.len() == end
            &&& forall|k: int|
                0 <= k < slots.len() ==> bucket_of(image, end, size, #[trigger] slots[k])
                    == items[k].resolved(resolvers[k], pos + end - (slots[k] + 1) * size)
            &&& forall|i: int|
                0 <= i < capacity && !slots.contains(i) ==> #[trigger] bucket_of(
                    image,
                    end,
                    size,
                    i,
                ) == crate::ser::zeros(size)
        }),
    decreases slots.len(),
{
    let size = U::Archived::spec_size() as int;
    let end = capacity * size;
    let image = crate::serialize::buckets_image(items, resolvers, slots, end, pos);
    if slots.len() == 0 {
        assert(0 <= end) by (nonlinear_arith)
            requires
                end == capacity * size,
                0 <= capacity,
                0 <= size,
        ;
        assert forall|i: int| 0 <= i < capacity implies #[trigger] bucket_of(image, end, size, i)
            == crate::ser::zeros(size) by {
            lemma_bucket_range(capacity, size, i);
            assert(bucket_of(image, end, size, i) =~= crate::ser::zeros(size));
        }
    } else {
        let fewer = slots.drop_last();
        let last = slots.len() - 1;
        law_buckets_image::<U>(items, resolvers, fewer, capacity, pos);
        let before = crate::serialize::buckets_image(items, resolvers, fewer, end, pos);
        let at = end - (slots[last] + 1) * size;
        let patch = items[last].resolved(resolvers[last], pos + at);
        items[last].resolved_size(resolvers[last], pos + at);
        lemma_splice_bucket(before, capacity, size, slots[last], patch);
        assert forall|k: int| 0 <= k < slots.len() implies bucket_of(
            image,
            end,
            size,
            #[trigger] slots[k],
        ) == items[k].resolved(resolvers[k], pos + end - (slots[k] + 1) * size) by {
            if k < last {
                assert(fewer[k] == slots[k]);
            }
        }
        assert forall|i: int| 0 <= i < capacity && !slots.contains(i) implies #[trigger] bucket_of(
            image,
            end,
            size,
            i,
        ) == crate::ser::zeros(size) by {
            assert(slots[last] != i);
            if fewer.contains(i) {
                let k = choose|k: int| 0 <= k < fewer.len() && fewer[k] == i;
                assert(slots[k] == i);
            }
        }
    }
}

/// The archived value of item `k`, in a table in which it was put in bucket `slot`.
pub open spec fn archived_value<U: Archive>(
    table: ArchivedHashTable<U::Archived>,
    items: Seq<U>,
    resolvers: Seq<U::Resolver>,
    slots: Seq<int>,
    k: int,
) -> U::Archived {
    U::Archived::decode(items[k].resolved(resolvers[k], table.bucket_at(slots[k])))
}

/// Whether `table` is what resolving a table of `len` entries gives, and `archive`
/// starts with what was written when it was serialized.
pub open spec fn is_resolved<T: Portable>(
    table: ArchivedHashTable<T>,
    len: int,
    load_factor: (int, int),
    resolver: HashTableResolver,
    written: Seq<u8>,
    archive: Seq<u8>,
) -> bool {
    &&& table.controls_at() == resolver.pos
    &&& table.spec_len() == len
    &&& table.spec_capacity() == crate::sizes::spec_capacity_from_len(len, load_factor)
    &&& written.len() <= archive.len()
    &&& archive.subrange(0, written.len() as int) == written
}

/// A table that was written and resolved is in the archive, aligned, and holds just
/// the items that were put in it: each with its hash, and in its archived form.
pub proof fn law_written_table<S: Writer + Allocator, U: Serialize<S>>(
    items: Seq<U>,
    len: int,
    hashes: Seq<u64>,
    load_factor: (int, int),
    before: Seq<u8>,
    resolver: HashTableResolver,
    after: Seq<u8>,
    table: ArchivedHashTable<U::Archived>,
    archive: Seq<u8>,
) -> (resolvers: Seq<U::Resolver>)
    requires
        len > 0,
        crate::serialize::serialize_outcome::<S, U>(
            items,
            len,
            hashes,
            load_factor,
            before,
            Ok(resolver),
            after,
        ),
        is_resolved(table, len, load_factor, resolver, after, archive),
    ensures
        ({
            let used = crate::serialize::used_hashes(items.len() as int, hashes);
            let slots = Placement::of(table.spec_capacity(), used)->Some_0.slots;
            let values = Seq::new(
                used.len(),
                |k: int| archived_value::<U>(table, items, resolvers, slots, k),
            );
            &&& exists|between: Seq<u8>| #[trigger]
                crate::serialize::serialized::<S, U>(items, before, resolvers, between)
            &&& table.in_archive(archive)
            &&& table.is_placed(archive)
            &&& table.memory_at() % U::Archived::spec_align() as int == 0
            &&& crate::laws::holds(table.view_in(archive), used, values)
            &&& forall|k: int|
                0 <= k < used.len() ==> table.bucket(archive, #[trigger] slots[k])
                    == items[k].resolved(resolvers[k], table.bucket_at(slots[k]))
        }),
{
    let size = U::Archived::spec_size() as int;
    let align = U::Archived::spec_align() as int;
    let capacity = table.spec_capacity();
    let end = capacity * size;
    let used = crate::serialize::used_hashes(items.len() as int, hashes);
    let placement = Placement::of(capacity, used)->Some_0;
    let slots = placement.slots;
    let (resolvers, between) = choose|resolvers: Seq<U::Resolver>, between: Seq<u8>|
        {
            let pos = crate::serialize::memory_pos::<U::Archived>(between);
            &&& #[trigger] crate::serialize::serialized::<S, U>(items, before, resolvers, between)
            &&& after == crate::serialize::padded::<U::Archived>(between)
                + crate::serialize::table_image(items, resolvers, placement, capacity, pos)
            &&& resolver.pos == pos + end
        };
    crate::archive::lemma_layout_is_valid::<U::Archived>();
    crate::ser::law_padding_aligns(between.len() as int, align);
    let pos = crate::serialize::memory_pos::<U::Archived>(between);
    let padded = crate::serialize::padded::<U::Archived>(between);
    let buckets = crate::serialize::buckets_image(items, resolvers, slots, end, pos);
    assert(used.len() <= items.len() <= len < capacity);
    Placement::law_placement_is_sound(capacity, used);
    law_buckets_image::<U>(items, resolvers, slots, capacity, pos);
    assert(after.len() == pos + end + capacity + 15);
    assert forall|i: int| 0 <= i < after.len() implies archive[i] == after[i] by {
        assert(archive.subrange(0, after.len() as int)[i] == archive[i]);
    }
    let view = table.view_in(archive);
    assert(view.controls.bytes =~= placement.controls.bytes);
    assert forall|i: int| 0 <= i < capacity implies #[trigger] table.bucket(archive, i)
        == bucket_of(buckets, end, size, i) by {
        lemma_bucket_range(capacity, size, i);
        assert(table.bucket(archive, i) =~= bucket_of(buckets, end, size, i));
    }
    let values = Seq::new(
        used.len(),
        |k: int| archived_value::<U>(table, items, resolvers, slots, k),
    );
    assert forall|k: int| 0 <= k < used.len() implies table.bucket(archive, #[trigger] slots[k])
        == items[k].resolved(resolvers[k], table.bucket_at(slots[k])) by {
        assert(table.bucket(archive, slots[k]) == bucket_of(buckets, end, size, slots[k]));
    }
    assert forall|k: int| 0 <= k < values.len() implies #[trigger] values[k]
        == view.entries[slots[k]] by {
        assert(0 <= slots[k] < capacity);
    }
    resolvers
}

/// Looking up an item that was put in a table, with its hash and with a comparison
/// that accepts its archived value and that of no other item, gives that archived
/// value.
pub proof fn law_read_after_write<S: Writer + Allocator, U: Serialize<S>, C: Fn(&U::Archived) -> bool>(
    items: Seq<U>,
    len: int,
    hashes: Seq<u64>,
    load_factor: (int, int),
    before: Seq<u8>,
    resolver: HashTableResolver,
    after: Seq<u8>,
    table: ArchivedHashTable<U::Archived>,
    archive: Seq<u8>,
    value: spec_fn(U) -> U::Archived,
    k: int,
    accepts: C,
    entry: Option<U::Archived>,
)
    requires
        len > 0,
        crate::serialize::serialize_outcome::<S, U>(
            items,
            len,
            hashes,
            load_factor,
            before,
            Ok(resolver),
            after,
        ),
        is_resolved(table, len, load_factor, resolver, after, archive),
        forall|item: U, resolver: U::Resolver, pos: int|
            U::Archived::decode(#[trigger] item.resolved(resolver, pos)) == value(item),
        0 <= k < items.len(),
        k < hashes.len(),
        !call_ensures(accepts, (&value(items[k]),), false),
        forall|j: int|
            0 <= j < items.len() && value(#[trigger] items[j]) != value(items[k]) ==> !call_ensures(
                accepts,
                (&value(items[j]),),
                true,
            ),
        table.view_in(archive).gives(hashes[k], accepts, entry),
    ensures
        entry == Some(value(items[k])),
{
    let resolvers = law_written_table::<S, U>(
        items,
        len,
        hashes,
        load_factor,
        before,
        resolver,
        after,
        table,
        archive,
    );
    let used = crate::serialize::used_hashes(items.len() as int, hashes);
    let slots = Placement::of(table.spec_capacity(), used)->Some_0.slots;
    let values = Seq::new(
        used.len(),
        |k: int| archived_value::<U>(table, items, resolvers, slots, k),
    );
    assert forall|j: int| 0 <= j < values.len() implies #[trigger] values[j] == value(items[j]) by {
        let resolved = items[j].resolved(resolvers[j], table.bucket_at(slots[j]));
        assert(U::Archived::decode(resolved) == value(items[j]));
    }
    assert(used[k] == hashes[k]);
    crate::laws::law_lookup_gives_the_entry(
        table.view_in(archive),
        used,
        values,
        k,
        accepts,
        entry,
    );
}

/// Looking up what was not put in a table gives nothing: a comparison that accepts
/// the archived value of no item leads to no entry, whatever the hash.
pub proof fn law_nothing_else_is_read<S: Writer + Allocator, U: Serialize<S>, C: Fn(&U::Archived) -> bool>(
    items: Seq<U>,
    len: int,
    hashes: Seq<u64>,
    load_factor: (int, int),
    before: Seq<u8>,
    resolver: HashTableResolver,
    after: Seq<u8>,
    table: ArchivedHashTable<U::Archived>,
    archive: Seq<u8>,
    value: spec_fn(U) -> U::Archived,
    hash: u64,
    accepts: C,
    entry: Option<U::Archived>,
)
    requires
        len > 0,
        crate::serialize::serialize_outcome::<S, U>(
            items,
            len,
            hashes,
            load_factor,
            before,
            Ok(resolver),
            after,
        ),
        is_resolved(table, len, load_factor, resolver, after, archive),
        forall|item: U, resolver: U::Resolver, pos: int|
            U::Archived::decode(#[trigger] item.resolved(resolver, pos)) == value(item),
        forall|j: int|
            0 <= j < items.len() ==> !call_ensures(accepts, (&value(#[trigger] items[j]),), true),
        table.view_in(archive).gives(hash, accepts, entry),
    ensures
        entry is None,
{
    let resolvers = law_written_table::<S, U>(
        items,
        len,
        hashes,
        load_factor,
        before,
        resolver,
        after,
        table,
        archive,
    );
    let used = crate::serialize::used_hashes(items.len() as int, hashes);
    let slots = Placement::of(table.spec_capacity(), used)->Some_0.slots;
    let values = Seq::new(
        used.len(),
        |k: int| archived_value::<U>(table, items, resolvers, slots, k),
    );
    if entry is Some {
        crate::laws::law_lookup_gives_only_entries(
            table.view_in(archive),
            used,
            values,
            hash,
            accepts,
            entry->Some_0,
        );
        let j = choose|j: int| 0 <= j < values.len() && values[j] == entry->Some_0;
        let resolved = items[j].resolved(resolvers[j], table.bucket_at(slots[j]));
        assert(U::Archived::decode(resolved) == value(items[j]));
        assert(false);
    }
}

/// Iterating over a table in which all announced items were put comes to the bucket
/// of every item, and comes to it once.
pub proof fn law_iteration_is_complete<S: Writer + Allocator, U: Serialize<S>>(
    items: Seq<U>,
    len: int,
    hashes: Seq<u64>,
    load_factor: (int, int),
    before: Seq<u8>,
    resolver: HashTableResolver,
    after: Seq<u8>,
    table: ArchivedHashTable<U::Archived>,
    archive: Seq<u8>,
)
    requires
        len > 0,
        items.len() == len,
        hashes.len() >= len,
        crate::serialize::serialize_outcome::<S, U>(
            items,
            len,
            hashes,
            load_factor,
            before,
            Ok(resolver),
            after,
        ),
        is_resolved(table, len, load_factor, resolver, after, archive),
    ensures
        ({
            let slots = Placement::of(table.spec_capacity(), hashes.take(len))->Some_0.slots;
            let indices = table.entry_indices(archive);
            &&& table.has_entries(archive)
            &&& indices.len() == len
            &&& indices.no_duplicates()
            &&& slots.len() == len
            &&& forall|i: int| indices.contains(i) <==> slots.contains(i)
        }),
{
    let _ = law_written_table::<S, U>(
        items,
        len,
        hashes,
        load_factor,
        before,
        resolver,
        after,
        table,
        archive,
    );
    let used = crate::serialize::used_hashes(items.len() as int, hashes);
    assert(used == hashes.take(len));
    let capacity = table.spec_capacity();
    let placement = Placement::of(capacity, used)->Some_0;
    let slots = placement.slots;
    Placement::law_placement_is_sound(capacity, used);
    let controls = table.view_in(archive).controls;
    controls.law_full_from(0);
    let full = controls.full_from(0);
    assert(full.no_duplicates()) by {
        assert forall|i: int, j: int|
            0 <= i < full.len() && 0 <= j < full.len() && i != j implies full[i] != full[j] by {
            if i < j {
                assert(full[i] < full[j]);
            } else {
                assert(full[j] < full[i]);
            }
        }
    }
    assert forall|i: int| full.contains(i) <==> slots.contains(i) by {
        if full.contains(i) {
            let k = choose|k: int| 0 <= k < full.len() && full[k] == i;
            assert(crate::group::is_full(controls.bytes[full[k]]));
        }
        if slots.contains(i) {
            let k = choose|k: int| 0 <= k < slots.len() && slots[k] == i;
            crate::laws::lemma_h2_full(used[k]);
            assert(crate::group::is_full(controls.bytes[slots[k]]));
            assert(crate::group::is_full(controls.bytes[i]));
        }
    }
    full.unique_seq_to_set();
    slots.unique_seq_to_set();
    assert(full.to_set() =~= slots.to_set());
    assert(full.take(len) =~= full);
}

/// A table that was written passes the check that is made before it is used, as
/// long as its memory is granted and the bytes of its items are accepted.
pub proof fn law_written_table_passes<
    S: Writer + Allocator,
    U: Serialize<S>,
    C,
    E,
    G: Fn(C, usize, Layout) -> (C, Result<(), E>),
    F: Fn(C, &[u8]) -> (C, Result<(), E>),
    H: Fn(C, usize, Layout) -> (C, Result<(), E>),
>(
    items: Seq<U>,
    len: int,
    hashes: Seq<u64>,
    load_factor: (int, int),
    before: Seq<u8>,
    resolver: HashTableResolver,
    after: Seq<u8>,
    table: ArchivedHashTable<U::Archived>,
    archive: Seq<u8>,
    enter: G,
    check: F,
    leave: H,
    context: C,
    result: Result<(), VerifyError<E>>,
    context_after: C,
)
    requires
        len > 0,
        crate::serialize::serialize_outcome::<S, U>(
            items,
            len,
            hashes,
            load_factor,
            before,
            Ok(resolver),
            after,
        ),
        is_resolved(table, len, load_factor, resolver, after, archive),
        forall|k: int, resolver: U::Resolver, pos: int, error: E, from: C, to: C|
            0 <= k < items.len() ==> !#[trigger] crate::verify::refused(
                check,
                from,
                items[k].resolved(resolver, pos),
                error,
                to,
            ),
        forall|error: E, from: C, to: C|
            !#[trigger] crate::verify::denied(
                enter,
                from,
                table.wrapped_memory_at(),
                table.spec_layout(),
                error,
                to,
            ),
        forall|error: E, from: C, to: C|
            !#[trigger] crate::verify::denied(
                leave,
                from,
                table.wrapped_memory_at(),
                table.spec_layout(),
                error,
                to,
            ),
        table.verify_gives(archive, enter, check, leave, context, result, context_after),
    ensures
        result is Ok,
{
    let resolvers = law_written_table::<S, U>(
        items,
        len,
        hashes,
        load_factor,
        before,
        resolver,
        after,
        table,
        archive,
    );
    let used = crate::serialize::used_hashes(items.len() as int, hashes);
    let capacity = table.spec_capacity();
    let placement = Placement::of(capacity, used)->Some_0;
    let slots = placement.slots;
    Placement::law_placement_is_sound(capacity, used);
    let controls = table.view_in(archive).controls;
    match result {
        Err(VerifyError::Entry { index, error }) => {
            let i = index as int;
            let (j, reached) = choose|j: int, reached: C|
                {
                    &&& #[trigger] table.checked(archive, enter, check, context, j, reached)
                    &&& 0 <= j < table.full_buckets(archive).len()
                    &&& index == table.full_buckets(archive)[j]
                    &&& crate::verify::refused(
                        check,
                        reached,
                        table.bucket(archive, index as int),
                        error,
                        context_after,
                    )
                };
            controls.law_full_from(0);
            assert(controls.bytes[i] != EMPTY);
            assert(slots.contains(i));
            let k = choose|k: int| 0 <= k < slots.len() && slots[k] == i;
            assert(table.bucket(archive, slots[k]) == items[k].resolved(
                resolvers[k],
                table.bucket_at(slots[k]),
            ));
            assert(!crate::verify::refused(
                check,
                reached,
                items[k].resolved(resolvers[k], table.bucket_at(slots[k])),
                error,
                context_after,
            ));
        },
        Err(VerifyError::UnwrappedControlByte(error)) => {
            let i = error.index as int;
            assert(controls.bytes[i] == controls.bytes[i % capacity]);
            assert(table.repeats(archive, i));
        },
        _ => {},
    }
}

/// A table that passed the check can be read: whatever is looked up, the lookup
/// stays inside the archive.
pub proof fn law_verified_table_is_readable<
    T: Portable,
    C,
    E,
    G: Fn(C, usize, Layout) -> (C, Result<(), E>),
    F: Fn(C, &[u8]) -> (C, Result<(), E>),
    H: Fn(C, usize, Layout) -> (C, Result<(), E>),
>(
    table: ArchivedHashTable<T>,
    archive: Seq<u8>,
    enter: G,
    check: F,
    leave: H,
    context: C,
    context_after: C,
)
    requires
        table.verify_gives(archive, enter, check, leave, context, Ok(()), context_after),
    ensures
        table.spec_len() != 0 ==> table.in_archive(archive),
{
}

/// The entry of every full bucket of a table that passed the check was accepted, once:
/// all of the full buckets were checked, and no bucket is listed twice among them.
pub proof fn law_verified_entries_are_accepted<
    T: Portable,
    C,
    E,
    G: Fn(C, usize, Layout) -> (C, Result<(), E>),
    F: Fn(C, &[u8]) -> (C, Result<(), E>),
    H: Fn(C, usize, Layout) -> (C, Result<(), E>),
>(
    table: ArchivedHashTable<T>,
    archive: Seq<u8>,
    enter: G,
    check: F,
    leave: H,
    context: C,
    context_after: C,
    index: int,
) -> (k: int)
    requires
        table.verify_gives(archive, enter, check, leave, context, Ok(()), context_after),
        0 <= index < table.spec_capacity(),
        crate::group::is_full(table.view_in(archive).controls.bytes[index]),
    ensures
        0 <= k < table.full_buckets(archive).len(),
        table.full_buckets(archive)[k] == index,
        forall|other: int|
            0 <= other < table.full_buckets(archive).len() && #[trigger] table.full_buckets(
                archive,
            )[other] == index ==> other == k,
        exists|from: C, to: C| #[trigger]
            crate::verify::accepted(check, from, table.bucket(archive, index), to),
{
    let full = table.full_buckets(archive);
    table.view_in(archive).controls.law_full_from(0);
    let k = choose|k: int| 0 <= k < full.len() && full[k] == index;
    let reached = choose|reached: C| #[trigger]
        table.checked(archive, enter, check, context, full.len() as int, reached);
    let contexts = choose|contexts: Seq<C>|
        #[trigger] table.checked_through(archive, check, contexts) && contexts.len() == full.len()
            + 1;
    assert(crate::verify::accepted(
        check,
        contexts[k],
        table.bucket(archive, full[k]),
        contexts[k + 1],
    ));
    k
}

/// Serializing succeeds where the load factor is a fraction in the range (0, 1], no
/// more items come than were announced, the table can be laid out, every item finds
/// a bucket, and neither an item nor the serializer fails.
pub proof fn law_serialize_succeeds<S: Writer + Allocator, U: Serialize<S>>(
    items: Seq<U>,
    len: int,
    hashes: Seq<u64>,
    load_factor: (int, int),
    before: Seq<u8>,
    result: Result<HashTableResolver, SerializeError<S::Error>>,
    after: Seq<u8>,
)
    requires
        0 < load_factor.0 <= load_factor.1,
        items.len() <= len,
        crate::serialize::layout_error::<U::Archived>(len, load_factor) is None,
        Placement::of(
            crate::sizes::spec_capacity_from_len(len, load_factor),
            crate::serialize::used_hashes(items.len() as int, hashes),
        ) is Some,
        forall|error: S::Error, left: Seq<u8>|
            !#[trigger] crate::serialize::resolvers_refused::<S, U>(len, before, error, left),
        forall|error: S::Error, left: Seq<u8>|
            !#[trigger] crate::serialize::item_refused::<S, U>(items, len, before, error, left),
        forall|error: S::Error, left: Seq<u8>|
            !#[trigger] crate::serialize::memory_refused::<S, U>(
                items,
                len,
                hashes,
                load_factor,
                before,
                error,
                left,
            ),
        crate::serialize::serialize_outcome::<S, U>(
            items,
            len,
            hashes,
            load_factor,
            before,
            result,
            after,
        ),
    ensures
        result is Ok,
{
    let capacity = crate::sizes::spec_capacity_from_len(len, load_factor);
    let used = crate::serialize::used_hashes(items.len() as int, hashes);
    match result {
        Err(SerializeError::NoEmptyBucket { item }) => {
            lemma_placement_of_prefix(capacity, used, item + 1);
        },
        _ => {},
    }
}

/// Where all entries can be placed, so can the first ones.
proof fn lemma_placement_of_prefix(capacity: int, hashes: Seq<u64>, count: int)
    requires
        0 <= count <= hashes.len(),
        Placement::of(capacity, hashes) is Some,
    ensures
        Placement::of(capacity, hashes.take(count)) is Some,
    decreases hashes.len(),
{
    if count == hashes.len() {
        assert(hashes.take(count) =~= hashes);
    } else {
        lemma_placement_of_prefix(capacity, hashes.drop_last(), count);
        assert(hashes.drop_last().take(count) =~= hashes.take(count));
    }
}

/// A table that was resolved with the length and load factor with which it was
/// serialized leads to its memory, as long as its sizes fit in an archive.
pub proof fn law_resolved_table<T: Portable>(
    table: ArchivedHashTable<T>,
    len: int,
    load_factor: (int, int),
    resolver: HashTableResolver,
    written: Seq<u8>,
    archive: Seq<u8>,
)
    requires
        0 <= len <= u32::MAX,
        0 <= crate::sizes::spec_capacity_from_len(len, load_factor) <= u32::MAX,
        table.ptr.target() == resolver.pos,
        table.len.native == len as u32,
        table.cap.native == crate::sizes::spec_capacity_from_len(len, load_factor) as u32,
        written.len() <= archive.len(),
        archive.subrange(0, written.len() as int) == written,
    ensures
        is_resolved(table, len, load_factor, resolver, written, archive),
{
}

/// Writing to the bytes of one entry changes the value of that entry alone.
pub proof fn law_write_changes_one_entry<T: Portable>(
    table: ArchivedHashTable<T>,
    archive: Seq<u8>,
    index: int,
    bytes: Seq<u8>,
)
    requires
        table.in_archive(archive),
        0 <= index < table.spec_capacity(),
        bytes.len() == T::spec_size(),
    ensures
        ({
            let after = crate::serialize::splice(archive, table.bucket_at(index), bytes);
            &&& after.len() == archive.len()
            &&& table.in_archive(after)
            &&& table.view_in(after).controls == table.view_in(archive).controls
            &&& table.view_in(after).entries == table.view_in(archive).entries.update(
                index,
                T::decode(bytes),
            )
        }),
{
    let size = T::spec_size() as int;
    let at = table.bucket_at(index);
    let after = crate::serialize::splice(archive, at, bytes);
    table.lemma_bucket(index);
    assert(table.view_in(after).controls.bytes =~= table.view_in(archive).controls.bytes);
    assert(table.bucket(after, index) =~= bytes);
    assert forall|i: int| 0 <= i < table.spec_capacity() && i != index implies #[trigger] table.bucket(
        after,
        i,
    ) == table.bucket(archive, i) by {
        table.lemma_bucket(i);
        if i < index {
            lemma_buckets_apart(size, i, index);
        } else {
            lemma_buckets_apart(size, index, i);
        }
        assert(table.bucket(after, i) =~= table.bucket(archive, i));
    }
    assert(table.view_in(after).entries =~= table.view_in(archive).entries.update(
        index,
        T::decode(bytes),
    ));
}

/// Where the memory of a table is aligned, so is every bucket.
pub proof fn law_buckets_are_aligned<T: Portable>(table: ArchivedHashTable<T>, index: int)
    requires
        table.memory_at() % T::spec_align() as int == 0,
        0 <= index < table.spec_capacity(),
    ensures
        table.bucket_at(index) % T::spec_align() as int == 0,
{
    crate::archive::lemma_layout_is_valid::<T>();
    let (align, size, c) = (T::spec_align() as int, T::spec_size() as int, table.spec_capacity());
    let (m, q) = (table.memory_at() / align, size / align);
    vstd::arithmetic::div_mod::lemma_fundamental_div_mod(table.memory_at(), align);
    vstd::arithmetic::div_mod::lemma_fundamental_div_mod(size, align);
    let multiple = m + (c - (index + 1)) * q;
    assert(table.bucket_at(index) == multiple * align) by (nonlinear_arith)
        requires
            table.bucket_at(index) == table.memory_at() + c * size - (index + 1) * size,
            table.memory_at() == align * m,
            size == align * q,
            multiple == m + (c - (index + 1)) * q,
    ;
    vstd::arithmetic::div_mod::lemma_mod_multiples_basic(multiple, align);
}

} // verus!
