//! Writing a table to an archive.

use core::marker::PhantomData;

use vstd::prelude::*;

use crate::archive::ArchivedUsize;
use crate::archive::Layout;
use crate::archive::Portable;
use crate::archive::RawRelPtr;
use crate::controls::ControlBytes;
use crate::controls::Placement;
use crate::error::InvalidLoadFactor;
use crate::error::IteratorLengthMismatch;
use crate::error::LayoutError;
use crate::error::SerializeError;
use crate::group::Group;
use crate::group::EMPTY;
use crate::group::GROUP_WIDTH;
use crate::group::MAX_GROUP_WIDTH;
use crate::probe::h2;
use crate::probe::Probe;
use crate::probe::ProbeSeq;
use crate::ser::Allocator;
use crate::ser::Archive;
use crate::ser::Loan;
use crate::ser::Serialize;
use crate::ser::Writer;
use crate::table::ArchivedHashTable;

verus! {

/// `bytes` with `patch` written over it at `at`.
pub open spec fn splice(bytes: Seq<u8>, at: int, patch: Seq<u8>) -> Seq<u8> {
    bytes.subrange(0, at) + patch + bytes.subrange(at + patch.len(), bytes.len() as int)
}

/// The buckets of a table that is written at `pos`, when the first items were put
/// in `slots`.
///
/// The buckets take `control_offset` bytes. Those that hold no item are zero.
pub open spec fn buckets_image<U: Archive>(
    items: Seq<U>,
    resolvers: Seq<U::Resolver>,
    slots: Seq<int>,
    control_offset: int,
    pos: int,
) -> Seq<u8>
    decreases slots.len(),
{
    if slots.len() == 0 {
        crate::ser::zeros(control_offset)
    } else {
        let last = slots.len() - 1;
        let at = control_offset - (slots[last] + 1) * U::Archived::spec_size();
        splice(
            buckets_image(items, resolvers, slots.drop_last(), control_offset, pos),
            at,
            items[last].resolved(resolvers[last], pos + at),
        )
    }
}

/// The memory of a table of `capacity` buckets that is written at `pos`: the
/// buckets, and the control bytes after them.
pub open spec fn table_image<U: Archive>(
    items: Seq<U>,
    resolvers: Seq<U::Resolver>,
    placement: Placement,
    capacity: int,
    pos: int,
) -> Seq<u8> {
    buckets_image(
        items,
        resolvers,
        placement.slots,
        capacity * U::Archived::spec_size(),
        pos,
    ) + placement.controls.bytes
}

/// The memory of a table consists of its buckets and its control bytes.
proof fn lemma_table_image_parts<U: Archive>(
    items: Seq<U>,
    resolvers: Seq<U::Resolver>,
    placement: Placement,
    capacity: int,
    pos: int,
)
    requires
        placement.controls.wf(),
        placement.controls.capacity == capacity,
        table_image(items, resolvers, placement, capacity, pos).len() == capacity
            * U::Archived::spec_size() + capacity + 15,
    ensures
        ({
            let control_offset = capacity * U::Archived::spec_size();
            let image = table_image(items, resolvers, placement, capacity, pos);
            &&& image.subrange(0, control_offset) == buckets_image(
                items,
                resolvers,
                placement.slots,
                control_offset,
                pos,
            )
            &&& image.subrange(control_offset, control_offset + capacity + 15)
                == placement.controls.bytes
        }),
{
    let control_offset = capacity * U::Archived::spec_size();
    let image = table_image(items, resolvers, placement, capacity, pos);
    let buckets = buckets_image(items, resolvers, placement.slots, control_offset, pos);
    assert(image == buckets + placement.controls.bytes);
    assert(buckets.len() == control_offset);
    assert(image.subrange(0, control_offset) =~= buckets);
    assert(image.subrange(control_offset, control_offset + capacity + 15)
        =~= placement.controls.bytes);
}

/// The resolver for [`ArchivedHashTable`].
#[derive(Clone, Copy, Debug, PartialEq, Eq)]
pub struct HashTableResolver {
    /// The position of the control bytes.
    pub pos: usize,
}

/// Whether writing what `items` refer to, one after another, may give `resolvers`
/// and leave `states[k]` written after the first `k` items.
pub open spec fn serialized_through<S: Writer, U: Serialize<S>>(
    items: Seq<U>,
    resolvers: Seq<U::Resolver>,
    states: Seq<Seq<u8>>,
) -> bool {
    &&& resolvers.len() == items.len()
    &&& states.len() == items.len() + 1
    &&& forall|k: int|
        0 <= k < items.len() ==> (#[trigger] items[k]).may_serialize(
            states[k],
            resolvers[k],
            states[k + 1],
        )
}

/// Whether writing what `items` refer to, one after another and after `before`,
/// may give `resolvers` and leave `after` written.
pub open spec fn serialized<S: Writer, U: Serialize<S>>(
    items: Seq<U>,
    before: Seq<u8>,
    resolvers: Seq<U::Resolver>,
    after: Seq<u8>,
) -> bool {
    exists|states: Seq<Seq<u8>>| #[trigger]
        serialized_through::<S, U>(items, resolvers, states) && states[0] == before
            && states.last() == after
}

/// Why the memory of a table for `len` entries cannot be laid out, if it cannot.
pub open spec fn layout_error<T: Portable>(len: int, load_factor: (int, int)) -> Option<
    LayoutError,
> {
    let capacity = crate::sizes::spec_capacity_from_len(len, load_factor);
    if len * load_factor.1 > usize::MAX {
        Some(LayoutError::CapacityOverflow)
    } else if capacity + 15 > usize::MAX {
        Some(LayoutError::ControlCountOverflow)
    } else if !crate::archive::fits_in_memory(
        capacity * T::spec_size() + capacity + 15,
        T::spec_align() as int,
    ) {
        Some(LayoutError::TooLarge)
    } else {
        None
    }
}

/// The position at which the memory of a table is written after `written`.
pub open spec fn memory_pos<T: Portable>(written: Seq<u8>) -> int {
    written.len() + crate::ser::padding(written.len() as int, T::spec_align() as int)
}

/// `written`, followed by zero bytes up to where the memory of a table is
/// written.
pub open spec fn padded<T: Portable>(written: Seq<u8>) -> Seq<u8> {
    written + crate::ser::zeros(
        crate::ser::padding(written.len() as int, T::spec_align() as int),
    )
}

/// The hashes of the items that are put in a table.
pub open spec fn used_hashes(items: int, hashes: Seq<u64>) -> Seq<u64> {
    hashes.take(item_count(items, items, hashes.len() as int))
}

/// Whether writing what one of `items`, announced to be `len` items, refers to may
/// fail with `error` and leave `after` written, when `before` was written before.
///
/// Between them stands what the items in front of it refer to, and nothing else.
pub open spec fn item_refused<S: Writer, U: Serialize<S>>(
    items: Seq<U>,
    len: int,
    before: Seq<u8>,
    error: S::Error,
    after: Seq<u8>,
) -> bool {
    exists|item: int, resolvers: Seq<U::Resolver>, between: Seq<u8>|
        {
            &&& 0 <= item < items.len() && item < len
            &&& #[trigger] serialized::<S, U>(items.take(item), before, resolvers, between)
            &&& items[item].may_fail(between, error, after)
        }
}

/// The block of memory for `len` resolvers.
pub open spec fn resolvers_layout<R>(len: int) -> Layout {
    Layout {
        size: (len * vstd::layout::size_of::<R>()) as usize,
        align: vstd::layout::align_of::<R>() as usize,
    }
}

/// `loans`, and a block for resolvers lent after them. There is no block for resolvers
/// that take no memory.
pub open spec fn resolvers_lent(loans: Seq<Loan>, resolvers: Layout) -> Seq<Loan> {
    if resolvers.size > 0 {
        loans.push(Loan::Lent(resolvers))
    } else {
        loans
    }
}

/// `loans`, and the block for resolvers given back after them.
pub open spec fn resolvers_returned(loans: Seq<Loan>, resolvers: Layout) -> Seq<Loan> {
    if resolvers.size > 0 {
        loans.push(Loan::Returned(resolvers))
    } else {
        loans
    }
}

/// Whether the only scratch memory that changed hands between `before` and `after`,
/// apart from what writing the items took, is a block for the resolvers and, after the
/// items were written, one for the memory of the table. Both were given back.
pub open spec fn borrowed(
    before: Seq<Loan>,
    after: Seq<Loan>,
    resolvers: Layout,
    memory: Layout,
) -> bool {
    exists|between: Seq<Loan>|
        {
            let done = between.push(Loan::Lent(memory)).push(Loan::Returned(memory));
            &&& #[trigger] resolvers_lent(before, resolvers).is_prefix_of(between)
            &&& crate::ser::lent(between) == crate::ser::lent(resolvers_lent(before, resolvers))
            &&& after == resolvers_returned(done, resolvers)
        }
}

/// Whether lending the memory of `len` resolvers may fail with `error`, when `before` was
/// written before. Nothing is written then.
pub open spec fn resolvers_refused<S: Writer + Allocator, U: Serialize<S>>(
    len: int,
    before: Seq<u8>,
    error: S::Error,
    after: Seq<u8>,
) -> bool {
    let resolvers_block = resolvers_layout::<U::Resolver>(len);
    &&& resolvers_block.size > 0
    &&& S::may_deny(before, resolvers_block, error)
    &&& after == before
}

/// Whether making the memory of a table, after its items were written, may fail with
/// `error` and leave `after` written, when `before` was written before the items.
///
/// The memory is lent by the serializer. Zero bytes are written in front of it, then the
/// memory itself, and then it is given back, and that of the resolvers after it. Each of
/// these may fail.
pub open spec fn memory_refused<S: Writer + Allocator, U: Serialize<S>>(
    items: Seq<U>,
    len: int,
    hashes: Seq<u64>,
    load_factor: (int, int),
    before: Seq<u8>,
    error: S::Error,
    after: Seq<u8>,
) -> bool {
    let capacity = crate::sizes::spec_capacity_from_len(len, load_factor);
    let layout = ArchivedHashTable::<U::Archived>::spec_memory_layout(capacity);
    let resolvers_block = resolvers_layout::<U::Resolver>(len);
    let placement = Placement::of(capacity, used_hashes(items.len() as int, hashes));
    exists|resolvers: Seq<U::Resolver>, between: Seq<u8>|
        {
            let pos = memory_pos::<U::Archived>(between);
            let padded = padded::<U::Archived>(between);
            let image = table_image(items, resolvers, placement->Some_0, capacity, pos);
            &&& #[trigger] serialized::<S, U>(items, before, resolvers, between)
            &&& {
                ||| S::may_deny(between, layout, error) && after == between
                ||| S::may_refuse(between, crate::ser::zeros(pos - between.len()), error, after)
                ||| placement is Some && S::may_refuse(padded, image, error, after)
                ||| {
                    &&& placement is Some
                    &&& after == padded + image
                    &&& {
                        ||| S::may_decline(after, layout, error)
                        ||| resolvers_block.size > 0 && S::may_decline(
                            after,
                            resolvers_block,
                            error,
                        )
                    }
                }
            }
        }
}

/// Whether serializing `items`, announced to be `len` items, as a table may give
/// `result`, when `before` was written before and `after` is written afterwards.
pub open spec fn serialize_outcome<S: Writer + Allocator, U: Serialize<S>>(
    items: Seq<U>,
    len: int,
    hashes: Seq<u64>,
    load_factor: (int, int),
    before: Seq<u8>,
    result: Result<HashTableResolver, SerializeError<S::Error>>,
    after: Seq<u8>,
) -> bool {
    let invalid_load_factor = load_factor.0 == 0 || load_factor.1 == 0 || load_factor.0
        > load_factor.1;
    let capacity = crate::sizes::spec_capacity_from_len(len, load_factor);
    let control_offset = capacity * U::Archived::spec_size();
    let given = hashes;
    let hashes = used_hashes(items.len() as int, hashes);
    match result {
        Ok(resolver) => {
            &&& !invalid_load_factor
            &&& items.len() <= len
            &&& if len == 0 {
                resolver.pos == 0 && after == before
            } else {
                &&& layout_error::<U::Archived>(len, load_factor) is None
                &&& Placement::of(capacity, hashes) is Some
                &&& exists|resolvers: Seq<U::Resolver>, between: Seq<u8>|
                    {
                        let pos = memory_pos::<U::Archived>(between);
                        &&& #[trigger] serialized::<S, U>(items, before, resolvers, between)
                        &&& after == padded::<U::Archived>(between) + table_image(
                            items,
                            resolvers,
                            Placement::of(capacity, hashes)->Some_0,
                            capacity,
                            pos,
                        )
                        &&& resolver.pos == pos + control_offset
                    }
            }
        },
        Err(SerializeError::InvalidLoadFactor(error)) => {
            &&& invalid_load_factor
            &&& error.numerator == load_factor.0
            &&& error.denominator == load_factor.1
            &&& after == before
        },
        Err(SerializeError::IteratorLengthMismatch(error)) => {
            &&& !invalid_load_factor
            &&& items.len() > len
            &&& error.expected == len
            &&& error.actual == len + items.len()
            &&& exists|resolvers: Seq<U::Resolver>| #[trigger]
                serialized::<S, U>(items.take(len), before, resolvers, after)
        },
        Err(SerializeError::Layout(error)) => {
            &&& !invalid_load_factor
            &&& 0 < len
            &&& items.len() <= len
            &&& layout_error::<U::Archived>(len, load_factor) == Some(error)
            &&& exists|resolvers: Seq<U::Resolver>| #[trigger]
                serialized::<S, U>(items, before, resolvers, after)
        },
        Err(SerializeError::NoEmptyBucket { item }) => {
            &&& !invalid_load_factor
            &&& 0 < len
            &&& items.len() <= len
            &&& layout_error::<U::Archived>(len, load_factor) is None
            &&& item < hashes.len()
            &&& Placement::of(capacity, hashes.take(item as int)) is Some
            &&& Placement::of(capacity, hashes.take(item + 1)) is None
            &&& exists|resolvers: Seq<U::Resolver>, between: Seq<u8>|
                {
                    &&& #[trigger] serialized::<S, U>(items, before, resolvers, between)
                    &&& after == padded::<U::Archived>(between)
                }
        },
        Err(SerializeError::Serializer(error)) => {
            &&& !invalid_load_factor
            &&& 0 < len
            &&& {
                ||| resolvers_refused::<S, U>(len, before, error, after)
                ||| item_refused::<S, U>(items, len, before, error, after)
                ||| {
                    &&& items.len() <= len
                    &&& layout_error::<U::Archived>(len, load_factor) is None
                    &&& memory_refused::<S, U>(
                        items,
                        len,
                        given,
                        load_factor,
                        before,
                        error,
                        after,
                    )
                }
            }
        },
    }
}

impl<T: Portable> ArchivedHashTable<T> {
    /// The bucket for a new entry with `hash`, in a table whose control bytes
    /// stand at `controls_at` in `memory`.
    fn find_free(memory: &[u8], controls_at: usize, capacity: usize, hash: u64) -> (free: Option<
        usize,
    >)
        requires
            0 < capacity <= isize::MAX - 15,
            controls_at + capacity + 15 <= memory@.len(),
        ensures
            ({
                let controls = ControlBytes {
                    bytes: memory@.subrange(
                        controls_at as int,
                        controls_at + capacity + 15,
                    ),
                    capacity: capacity as int,
                };
                match free {
                    Some(index) => index < capacity && controls.first_free(
                        Probe::of(hash, capacity as int),
                    ) == Some(index as int),
                    None => controls.first_free(Probe::of(hash, capacity as int)) is None,
                }
            }),
    {
        let ghost controls = ControlBytes {
            bytes: memory@.subrange(controls_at as int, controls_at + capacity + 15),
            capacity: capacity as int,
        };
        let ghost probe = Probe::of(hash, capacity as int);
        proof {
            probe.lemma_space();
            probe.lemma_pos_start();
        }
        let mut probe_seq = Self::probe_seq(hash, capacity);
        let bucket_mask = Self::bucket_mask(capacity);
        let mut steps_left: usize = Self::probe_bound(bucket_mask) - 1;
        let ghost mut step: nat = 0;
        loop
            invariant
                0 < capacity <= isize::MAX - 15,
                controls_at + capacity + 15 <= memory@.len(),
                controls.bytes == memory@.subrange(
                    controls_at as int,
                    controls_at + capacity + 15,
                ),
                controls.capacity == capacity,
                probe == Probe::of(hash, capacity as int),
                probe.wf(),
                bucket_mask == probe.space() - 1,
                probe.space() <= usize::MAX,
                step + 1 + steps_left == probe.bound(),
                probe_seq.at(probe, step),
                probe.visits(step),
                controls.reaches(probe, step),
            decreases steps_left,
        {
            let ghost window = probe.pos(step);
            let mut group_index: usize = 0;
            while group_index < MAX_GROUP_WIDTH / GROUP_WIDTH
                invariant
                    group_index <= 2,
                    0 < capacity <= isize::MAX - 15,
                    controls_at + capacity + 15 <= memory@.len(),
                    controls.bytes == memory@.subrange(
                        controls_at as int,
                        controls_at + capacity + 15,
                    ),
                    controls.capacity == capacity,
                    probe == Probe::of(hash, capacity as int),
                    window == probe.pos(step),
                    0 <= window < capacity,
                    probe_seq.pos == window + 8 * group_index,
                    probe_seq.stride as int % probe.space() == (16int * step) % probe.space(),
                    probe.visits(step),
                    controls.reaches(probe, step),
                    forall|lane: int|
                        0 <= lane < 8 * group_index ==> #[trigger] controls.lane(window, lane)
                            != EMPTY,
                decreases 2 - group_index,
            {
                let ghost first = 8 * group_index as int;
                assert(memory.len() == memory@.len());
                let group = Group::read(memory, controls_at + probe_seq.pos);
                assert forall|lane: int| 0 <= lane < 8 implies group@[lane] == controls.lane(
                    window,
                    first + lane,
                ) by {}
                let empties = group.match_empty();
                match empties.lowest_set_bit() {
                    Some(bit) => {
                        let index = (probe_seq.pos + bit) % capacity;
                        proof {
                            assert forall|lane: int|
                                0 <= lane < first + bit implies #[trigger] controls.lane(
                                window,
                                lane,
                            ) != EMPTY by {
                                if lane >= first {
                                    assert(!empties.has(lane - first));
                                    assert(controls.lane(window, first + (lane - first))
                                        == group@[lane - first]);
                                }
                            }
                            assert(controls.lane(window, first + bit) == EMPTY);
                            assert(controls.first_empty(probe, step, first + bit));
                            let (s, l) = choose|s: nat, l: int| #[trigger]
                                controls.first_empty(probe, s, l);
                            controls.lemma_first_empty_unique(probe, step, first + bit, s, l);
                        }
                        return Some(index);
                    },
                    None => {},
                }
                assert forall|lane: int|
                    0 <= lane < first + 8 implies #[trigger] controls.lane(window, lane) != EMPTY by {
                    if lane >= first {
                        assert(!empties.has(lane - first));
                        assert(controls.lane(window, first + (lane - first)) == group@[lane
                            - first]);
                    }
                }
                probe_seq.next_group();
                group_index = group_index + 1;
            }
            steps_left = match probe_seq.next_window(
                capacity,
                bucket_mask,
                steps_left,
                Ghost(probe),
            ) {
                Some(left) => left,
                None => {
                    // From here on, probing would only examine the same windows again.
                    proof {
                        controls.lemma_never_empty(probe);
                        assert forall|s: nat, l: int| !#[trigger]
                            controls.first_empty(probe, s, l) by {
                            if controls.first_empty(probe, s, l) {
                                assert(probe.visits(s));
                                assert(controls.window_has_empty(probe.pos(s)));
                            }
                        }
                    }
                    return None;
                },
            };
            proof {
                step = (probe.bound() - 1 - steps_left) as nat;
            }
        }
    }

    /// Puts one item in the first free bucket that probing for `hash` meets, in the
    /// memory of a table that is to be written at `pos`. Returns the bucket, if there is
    /// one.
    fn place_item<U: Archive<Archived = T>>(
        memory: &mut Vec<u8>,
        item: &U,
        resolver: &U::Resolver,
        hash: u64,
        capacity: usize,
        pos: usize,
    ) -> (placed: Option<usize>)
        requires
            capacity > 0,
            capacity * T::spec_size() + capacity + 15 == old(memory)@.len() <= isize::MAX,
            pos <= isize::MAX,
        ensures
            ({
                let control_offset = capacity * T::spec_size();
                let buckets = old(memory)@.subrange(0, control_offset);
                let controls = ControlBytes {
                    bytes: old(memory)@.subrange(control_offset, control_offset + capacity + 15),
                    capacity: capacity as int,
                };
                let free = controls.first_free(Probe::of(hash, capacity as int));
                match placed {
                    Some(index) => {
                        let at = control_offset - (index + 1) * T::spec_size();
                        &&& index < capacity
                        &&& free == Some(index as int)
                        &&& final(memory)@ == splice(
                            buckets,
                            at,
                            item.resolved(*resolver, pos + at),
                        ) + controls.with(index as int, crate::probe::spec_h2(hash)).bytes
                        &&& final(memory)@.len() == old(memory)@.len()
                    },
                    None => free is None && final(memory)@ == old(memory)@,
                }
            }),
    {
        let size = T::size();
        assert(0 <= capacity * T::spec_size()) by (nonlinear_arith);
        let control_offset: usize = capacity * size;
        let h2_hash = h2(hash);
        let ghost controls = ControlBytes {
            bytes: memory@.subrange(control_offset as int, control_offset + capacity + 15),
            capacity: capacity as int,
        };
        let index = match Self::find_free(memory.as_slice(), control_offset, capacity, hash) {
            Some(index) => index,
            None => return None,
        };
        proof {
            let (c, i, s) = (capacity as int, index as int, size as int);
            assert(0 <= (i + 1) * s <= c * s && (i + 1) * s >= s) by (nonlinear_arith)
                requires
                    0 <= i < c,
                    0 <= s,
            ;
        }
        // Update the control byte, and near the start also the one that repeats it.
        memory.set(control_offset + index, h2_hash);
        if index < MAX_GROUP_WIDTH - 1 {
            memory.set(control_offset + capacity + index, h2_hash);
        }
        let ghost marked = memory@;
        let entry_offset = control_offset - (index + 1) * size;
        let bytes = item.resolve(resolver, pos + entry_offset);
        proof {
            item.resolved_size(*resolver, (pos + entry_offset) as int);
        }
        Self::write_at(memory, entry_offset, bytes.as_slice());
        proof {
            let buckets = old(memory)@.subrange(0, control_offset as int);
            let after = controls.with(index as int, h2_hash).bytes;
            assert(marked =~= buckets + after);
            assert(memory@ =~= splice(buckets, entry_offset as int, bytes@) + after);
        }
        Some(index)
    }

    /// Makes `block` the memory of a table that holds nothing: zero bytes up to
    /// `control_offset`, and `EMPTY` from there on.
    fn blank_memory(block: Vec<u8>, control_offset: usize) -> (memory: Vec<u8>)
        requires
            control_offset <= block@.len(),
        ensures
            memory@ == crate::ser::zeros(control_offset as int) + Seq::new(
                (block@.len() - control_offset) as nat,
                |i: int| EMPTY,
            ),
    {
        let mut memory = block;
        let mut at: usize = 0;
        while at < memory.len()
            invariant
                at <= memory@.len(),
                memory@.len() == block@.len(),
                forall|i: int|
                    0 <= i < at ==> #[trigger] memory@[i] == (if i < control_offset {
                        0u8
                    } else {
                        EMPTY
                    }),
            decreases memory@.len() - at,
        {
            memory.set(
                at,
                if at < control_offset {
                    0
                } else {
                    EMPTY
                },
            );
            at = at + 1;
        }
        assert(memory@ =~= crate::ser::zeros(control_offset as int) + Seq::new(
            (block@.len() - control_offset) as nat,
            |i: int| EMPTY,
        ));
        memory
    }

    /// Fills `block` with the memory of a table of `capacity` buckets that is to be
    /// written at `pos`, or returns the first item for which there is no bucket.
    ///
    /// An item is put in the table where it has both a resolver and a hash.
    pub fn fill_memory<U: Archive<Archived = T>>(
        block: Vec<u8>,
        items: &[U],
        resolvers: &[U::Resolver],
        hashes: &[u64],
        capacity: usize,
        pos: usize,
    ) -> (memory: Result<Vec<u8>, usize>)
        requires
            capacity > 0,
            crate::archive::fits_in_memory(
                capacity * T::spec_size() + capacity + 15,
                T::spec_align() as int,
            ),
            pos <= isize::MAX,
            block@.len() == capacity * T::spec_size() + capacity + 15,
        ensures
            ({
                let count = item_count(
                    items@.len() as int,
                    resolvers@.len() as int,
                    hashes@.len() as int,
                );
                match memory {
                    Ok(memory) => {
                        let placement = Placement::of(capacity as int, hashes@.take(count));
                        &&& placement is Some
                        &&& memory@.len() == block@.len()
                        &&& memory@ == table_image(
                            items@,
                            resolvers@,
                            placement->Some_0,
                            capacity as int,
                            pos as int,
                        )
                    },
                    Err(item) => {
                        &&& item < count
                        &&& Placement::of(capacity as int, hashes@.take(item as int)) is Some
                        &&& Placement::of(capacity as int, hashes@.take(item + 1)) is None
                    },
                }
            }),
    {
        proof {
            crate::archive::lemma_layout_is_valid::<T>();
            assert(0 <= capacity * T::spec_size()) by (nonlinear_arith);
        }
        let control_offset: usize = capacity * T::size();
        let mut memory = Self::blank_memory(block, control_offset);
        let mut count = items.len();
        if resolvers.len() < count {
            count = resolvers.len();
        }
        if hashes.len() < count {
            count = hashes.len();
        }
        let ghost mut placement = Placement {
            controls: ControlBytes::blank(capacity as int),
            slots: Seq::empty(),
        };
        let mut item: usize = 0;
        proof {
            assert(hashes@.take(0) =~= Seq::empty());
            assert(memory@ =~= table_image(
                items@,
                resolvers@,
                placement,
                capacity as int,
                pos as int,
            ));
        }
        while item < count
            invariant
                item <= count,
                count <= items@.len(),
                count <= resolvers@.len(),
                count <= hashes@.len(),
                count == item_count(
                    items@.len() as int,
                    resolvers@.len() as int,
                    hashes@.len() as int,
                ),
                0 < capacity,
                0 <= capacity * T::spec_size(),
                pos <= isize::MAX,
                Placement::of(capacity as int, hashes@.take(item as int)) == Some(placement),
                placement.controls.wf(),
                placement.controls.capacity == capacity,
                memory@.len() == capacity * T::spec_size() + capacity + 15 <= isize::MAX,
                memory@.len() == block@.len(),
                placement.slots.len() == item,
                memory@ == table_image(
                    items@,
                    resolvers@,
                    placement,
                    capacity as int,
                    pos as int,
                ),
            decreases count - item,
        {
            let hash = hashes[item];
            let ghost before = placement;
            proof {
                lemma_table_image_parts(
                    items@,
                    resolvers@,
                    before,
                    capacity as int,
                    pos as int,
                );
                assert(hashes@.take(item + 1).drop_last() =~= hashes@.take(item as int));
                assert(hashes@.take(item + 1).last() == hash);
            }
            let placed = Self::place_item(
                &mut memory,
                &items[item],
                &resolvers[item],
                hash,
                capacity,
                pos,
            );
            let index = match placed {
                Some(index) => index,
                None => return Err(item),
            };
            proof {
                placement = Placement {
                    controls: before.controls.with(index as int, crate::probe::spec_h2(hash)),
                    slots: before.slots.push(index as int),
                };
                assert(placement.slots.drop_last() =~= before.slots);
            }
            item = item + 1;
        }
        Ok(memory)
    }

    /// Writes what the items refer to, one after another, and returns their resolvers.
    /// The items are announced to be `len` items.
    fn write_items<S: Writer, U: Serialize<S> + Archive<Archived = T>>(
        items: &[U],
        len: usize,
        serializer: &mut S,
    ) -> (result: Result<Vec<U::Resolver>, SerializeError<S::Error>>)
        requires
            items@.len() > len ==> len + items@.len() <= usize::MAX,
        ensures
            old(serializer).loans().is_prefix_of(final(serializer).loans()),
            crate::ser::lent(old(serializer).loans()).is_prefix_of(
                crate::ser::lent(final(serializer).loans()),
            ),
            ({
                let before = old(serializer).written();
                let after = final(serializer).written();
                match result {
                    Ok(resolvers) => {
                        &&& items@.len() <= len
                        &&& serialized::<S, U>(items@, before, resolvers@, after)
                        &&& crate::ser::lent(final(serializer).loans()) == crate::ser::lent(
                            old(serializer).loans(),
                        )
                    },
                    Err(SerializeError::IteratorLengthMismatch(error)) => {
                        &&& items@.len() > len
                        &&& error.expected == len
                        &&& error.actual == len + items@.len()
                        &&& exists|resolvers: Seq<U::Resolver>| #[trigger]
                            serialized::<S, U>(items@.take(len as int), before, resolvers, after)
                    },
                    Err(SerializeError::Serializer(error)) => item_refused::<S, U>(
                        items@,
                        len as int,
                        before,
                        error,
                        after,
                    ),
                    _ => false,
                }
            }),
    {
        let ghost before = serializer.written();
        let ghost start = serializer.loans();
        let mut resolvers: Vec<U::Resolver> = Vec::new();
        let mut i: usize = 0;
        assert(serialized_through::<S, U>(items@.take(0), resolvers@, seq![before]));
        while i < items.len()
            invariant
                i <= items@.len(),
                i <= len,
                i == resolvers@.len(),
                items@.len() > len ==> len + items@.len() <= usize::MAX,
                before == old(serializer).written(),
                start == old(serializer).loans(),
                start.is_prefix_of(serializer.loans()),
                crate::ser::lent(serializer.loans()) == crate::ser::lent(start),
                serialized::<S, U>(
                    items@.take(i as int),
                    before,
                    resolvers@,
                    serializer.written(),
                ),
            decreases items@.len() - i,
        {
            if resolvers.len() == len {
                return Err(
                    SerializeError::IteratorLengthMismatch(
                        IteratorLengthMismatch { expected: len, actual: len + items.len() },
                    ),
                );
            }
            let ghost states = choose|states: Seq<Seq<u8>>| #[trigger]
                serialized_through::<S, U>(items@.take(i as int), resolvers@, states) && states[0]
                    == before && states.last() == serializer.written();
            let ghost reached = serializer.loans();
            let outcome = items[i].serialize(serializer);
            proof {
                crate::ser::lemma_prefix(start, reached, serializer.loans());
            }
            match outcome {
                Ok(resolver) => {
                    resolvers.push(resolver);
                    proof {
                        let longer = states.push(serializer.written());
                        assert forall|k: int| 0 <= k < i + 1 implies (#[trigger] items@.take(
                            i + 1,
                        )[k]).may_serialize(longer[k], resolvers@[k], longer[k + 1]) by {
                            if k < i {
                                assert(items@.take(i as int)[k] == items@.take(i + 1)[k]);
                            }
                        }
                        assert(serialized_through::<S, U>(
                            items@.take(i + 1),
                            resolvers@,
                            longer,
                        ));
                    }
                },
                Err(error) => {
                    return Err(SerializeError::Serializer(error));
                },
            }
            i = i + 1;
        }
        assert(items@.take(items@.len() as int) =~= items@);
        Ok(resolvers)
    }

    /// Serializes items as a hash table.
    ///
    /// The items are announced to be `len` items. An item without a hash is not
    /// put in the table.
    ///
    /// The serializer is asked for the memory of `len` resolvers before any item is
    /// written; the block accounts for the vector that holds them. Their number must be
    /// one that a block of memory can hold. Where serializing fails after that, the
    /// serializer is not handed back what it lent.
    pub fn serialize_from_iter<S: Writer + Allocator, U: Serialize<S> + Archive<Archived = T>>(
        items: &[U],
        len: usize,
        hashes: &[u64],
        load_factor: (usize, usize),
        serializer: &mut S,
    ) -> (result: Result<HashTableResolver, SerializeError<S::Error>>)
        requires
            0 < load_factor.0 <= load_factor.1 ==> {
                &&& items@.len() > len ==> len + items@.len() <= usize::MAX
                &&& len == usize::MAX ==> load_factor.1 > 1
                &&& crate::archive::fits_in_memory(
                    len * vstd::layout::size_of::<U::Resolver>(),
                    vstd::layout::align_of::<U::Resolver>() as int,
                )
            },
        ensures
            old(serializer).loans().is_prefix_of(final(serializer).loans()),
            crate::ser::lent(old(serializer).loans()).is_prefix_of(
                crate::ser::lent(final(serializer).loans()),
            ),
            len == 0 ==> final(serializer).loans() == old(serializer).loans(),
            result matches Err(SerializeError::InvalidLoadFactor(_)) ==> final(serializer).loans()
                == old(serializer).loans(),
            len > 0 && result is Ok ==> {
                &&& borrowed(
                    old(serializer).loans(),
                    final(serializer).loans(),
                    resolvers_layout::<U::Resolver>(len as int),
                    Self::spec_memory_layout(
                        crate::sizes::spec_capacity_from_len(
                            len as int,
                            (load_factor.0 as int, load_factor.1 as int),
                        ),
                    ),
                )
                &&& crate::ser::lent(final(serializer).loans()) == crate::ser::lent(
                    old(serializer).loans(),
                )
            },
            serialize_outcome::<S, U>(
                items@,
                len as int,
                hashes@,
                (load_factor.0 as int, load_factor.1 as int),
                old(serializer).written(),
                result,
                final(serializer).written(),
            ),
    {
        if load_factor.0 == 0 || load_factor.1 == 0 || load_factor.0 > load_factor.1 {
            return Err(
                SerializeError::InvalidLoadFactor(
                    InvalidLoadFactor { numerator: load_factor.0, denominator: load_factor.1 },
                ),
            );
        }
        let ghost before = serializer.written();
        if len == 0 {
            let count = items.len();
            if count != 0 {
                proof {
                    assert(serialized_through::<S, U>(
                        items@.take(0),
                        Seq::empty(),
                        seq![before],
                    ));
                    assert(serialized::<S, U>(items@.take(0), before, Seq::empty(), before));
                }
                return Err(
                    SerializeError::IteratorLengthMismatch(
                        IteratorLengthMismatch { expected: 0, actual: count },
                    ),
                );
            }
            return Ok(HashTableResolver { pos: 0 });
        }
        proof {
            assert(0 <= len * vstd::layout::size_of::<U::Resolver>()) by (nonlinear_arith);
        }
        let resolvers_block = Layout {
            size: len * core::mem::size_of::<U::Resolver>(),
            align: core::mem::align_of::<U::Resolver>(),
        };
        let ghost before_loans = serializer.loans();
        let scratch = if resolvers_block.size == 0 {
            Vec::new()
        } else {
            match serializer.push_alloc(resolvers_block) {
                Ok(scratch) => scratch,
                Err(error) => return Err(SerializeError::Serializer(error)),
            }
        };
        let ghost start = serializer.loans();
        let ghost before_lent = crate::ser::lent(before_loans);
        proof {
            crate::ser::lemma_lent_step(before_loans, resolvers_block);
            crate::ser::lemma_prefix_push(before_loans, Loan::Lent(resolvers_block));
            crate::ser::lemma_prefix_push(before_lent, resolvers_block);
        }
        // Serialize all items.
        let written = Self::write_items(items, len, serializer);
        let ghost between = serializer.written();
        let ghost between_loans = serializer.loans();
        proof {
            crate::ser::lemma_prefix(before_loans, start, between_loans);
            crate::ser::lemma_prefix(
                before_lent,
                crate::ser::lent(start),
                crate::ser::lent(between_loans),
            );
        }
        let resolvers = match written {
            Ok(resolvers) => resolvers,
            Err(error) => return Err(error),
        };
        let capacity = match Self::capacity_from_len(len, load_factor) {
            Ok(capacity) => capacity,
            Err(error) => return Err(SerializeError::Layout(error)),
        };
        let control_count = match Self::control_count(capacity) {
            Ok(control_count) => control_count,
            Err(error) => return Err(SerializeError::Layout(error)),
        };
        let (layout, control_offset) = match Self::memory_layout(capacity, control_count) {
            Ok(layout) => layout,
            Err(error) => return Err(SerializeError::Layout(error)),
        };
        proof {
            crate::archive::lemma_layout_is_valid::<T>();
            crate::ser::law_padding_aligns(between.len() as int, T::spec_align() as int);
        }
        assert(layout == Self::spec_memory_layout(capacity as int));
        let block = match serializer.push_alloc(layout) {
            Ok(block) => block,
            Err(error) => return Err(SerializeError::Serializer(error)),
        };
        let ghost lent_loans = serializer.loans();
        proof {
            crate::ser::lemma_lent_step(between_loans, layout);
            crate::ser::lemma_prefix_push(between_loans, Loan::Lent(layout));
            crate::ser::lemma_prefix(before_loans, between_loans, lent_loans);
            crate::ser::lemma_prefix_push(crate::ser::lent(start), layout);
            crate::ser::lemma_prefix(
                before_lent,
                crate::ser::lent(start),
                crate::ser::lent(lent_loans),
            );
        }
        let pos = match crate::ser::align_to(serializer, layout.align) {
            Ok(pos) => pos,
            Err(error) => return Err(SerializeError::Serializer(error)),
        };
        let memory = match Self::fill_memory(
            block,
            items,
            resolvers.as_slice(),
            hashes,
            capacity,
            pos,
        ) {
            Ok(memory) => memory,
            Err(item) => {
                proof {
                    let used = used_hashes(items@.len() as int, hashes@);
                    assert(used.take(item as int) =~= hashes@.take(item as int));
                    assert(used.take(item + 1) =~= hashes@.take(item + 1));
                }
                return Err(SerializeError::NoEmptyBucket { item });
            },
        };
        // Write out-of-line data.
        match serializer.write(memory.as_slice()) {
            Ok(()) => {},
            Err(error) => return Err(SerializeError::Serializer(error)),
        }
        match serializer.pop_alloc(memory, layout) {
            Ok(()) => {},
            Err(error) => return Err(SerializeError::Serializer(error)),
        }
        proof {
            let done = serializer.loans();
            assert(resolvers_lent(before_loans, resolvers_block).is_prefix_of(between_loans));
            crate::ser::lemma_lent_step(lent_loans, layout);
            assert(crate::ser::lent(start).push(layout).drop_last() =~= crate::ser::lent(start));
            crate::ser::lemma_prefix_push(lent_loans, Loan::Returned(layout));
            crate::ser::lemma_prefix(before_loans, lent_loans, done);
            crate::ser::lemma_lent_step(done, resolvers_block);
            assert(before_lent.push(resolvers_block).drop_last() =~= before_lent);
            crate::ser::lemma_prefix_push(done, Loan::Returned(resolvers_block));
            crate::ser::lemma_prefix(
                before_loans,
                done,
                done.push(Loan::Returned(resolvers_block)),
            );
        }
        if resolvers_block.size != 0 {
            match serializer.pop_alloc(scratch, resolvers_block) {
                Ok(()) => {},
                Err(error) => return Err(SerializeError::Serializer(error)),
            }
        }
        Ok(HashTableResolver { pos: pos + control_offset })
    }

    /// Resolves an archived hash table at position `out` from a given length and
    /// parameters.
    pub fn resolve_from_len(
        len: usize,
        load_factor: (usize, usize),
        resolver: HashTableResolver,
        out: usize,
    ) -> (table: ArchivedHashTable<T>)
        requires
            len != 0 ==> i32::MIN <= resolver.pos - out <= i32::MAX,
            len != 0 ==> load_factor.0 != 0,
            len * load_factor.1 <= usize::MAX,
            len == usize::MAX ==> load_factor.1 > 1,
        ensures
            table.ptr.pos == out,
            if len == 0 {
                table.ptr.offset == 1
            } else {
                table.ptr.target() == resolver.pos
            },
            len != 0 ==> out + table.ptr.offset == resolver.pos,
            table.len.native == len as u32,
            table.cap.native == crate::sizes::spec_capacity_from_len(
                len as int,
                (load_factor.0 as int, load_factor.1 as int),
            ) as u32,
            len == 0 ==> table.cap.native == 0,
            len != 0 ==> exists|capacity: usize|
                {
                    &&& table.cap.native == #[trigger] (capacity as u32)
                    &&& capacity >= len + 1
                    &&& len * load_factor.1 < (capacity + 1) * load_factor.0
                    &&& capacity == len + 1 || capacity * load_factor.0 <= len * load_factor.1
                },
    {
        let ptr = if len == 0 {
            RawRelPtr::emplace_invalid(out)
        } else {
            RawRelPtr::emplace(resolver.pos, out)
        };
        let capacity = Self::capacity_from_len(len, load_factor).unwrap();
        ArchivedHashTable {
            ptr,
            len: ArchivedUsize::resolve(len),
            cap: ArchivedUsize::resolve(capacity),
            _phantom: PhantomData,
        }
    }

    /// Writes `patch` over `memory` at `at`.
    fn write_at(memory: &mut Vec<u8>, at: usize, patch: &[u8])
        requires
            at + patch@.len() <= old(memory)@.len(),
        ensures
            final(memory)@ == splice(old(memory)@, at as int, patch@),
    {
        let mut i: usize = 0;
        while i < patch.len()
            invariant
                i <= patch@.len(),
                at + patch@.len() <= memory@.len(),
                memory@.len() == old(memory)@.len(),
                forall|j: int|
                    0 <= j < memory@.len() ==> #[trigger] memory@[j] == (if at <= j < at + i {
                        patch@[j - at]
                    } else {
                        old(memory)@[j]
                    }),
            decreases patch@.len() - i,
        {
            assert(memory.len() == memory@.len());
            memory.set(at + i, patch[i]);
            i = i + 1;
        }
        assert(memory@ =~= splice(old(memory)@, at as int, patch@));
    }
}

/// An item counts just if it has both a resolver and a hash.
pub proof fn law_item_count(items: int, resolvers: int, hashes: int, item: int)
    ensures
        item < item_count(items, resolvers, hashes) <==> item < items && item < resolvers && item
            < hashes,
{
}

/// Writing over bytes changes just the ones that are written over.
pub proof fn law_splice(bytes: Seq<u8>, at: int, patch: Seq<u8>, i: int)
    requires
        0 <= at,
        at + patch.len() <= bytes.len(),
        0 <= i < bytes.len(),
    ensures
        splice(bytes, at, patch).len() == bytes.len(),
        splice(bytes, at, patch)[i] == (if at <= i < at + patch.len() {
            patch[i - at]
        } else {
            bytes[i]
        }),
{
}

/// The number of items that have both a resolver and a hash.
pub open spec fn item_count(items: int, resolvers: int, hashes: int) -> int {
    let known = if resolvers < items {
        resolvers
    } else {
        items
    };
    if hashes < known {
        hashes
    } else {
        known
    }
}

} // verus!
