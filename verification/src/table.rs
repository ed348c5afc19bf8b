//! The archived hash table, and looking up its entries.

use core::marker::PhantomData;

use vstd::prelude::*;

use crate::archive::ArchivedUsize;
use crate::archive::Portable;
use crate::archive::RawRelPtr;
use crate::controls::ControlBytes;
use crate::controls::TableView;
use crate::group::Group;
use crate::group::EMPTY;
use crate::group::GROUP_WIDTH;
use crate::group::MAX_GROUP_WIDTH;
use crate::probe::h1;
use crate::probe::h2;
use crate::probe::Probe;
use crate::probe::ProbeSeq;

verus! {

/// A low-level archived SwissTable hash table with explicit hashing.
///
/// This is the part of the table that stands inline in an archive. The pointer
/// leads to the control bytes. The buckets stand in front of the control bytes,
/// in descending order: bucket 0 ends where the control bytes start.
pub struct ArchivedHashTable<T> {
    pub ptr: RawRelPtr,
    pub len: ArchivedUsize,
    pub cap: ArchivedUsize,
    pub _phantom: PhantomData<T>,
}

impl<T: Portable> ArchivedHashTable<T> {
    pub open spec fn spec_len(self) -> int {
        self.len.native as int
    }

    pub open spec fn spec_capacity(self) -> int {
        self.cap.native as int
    }

    /// The position of the first control byte.
    pub open spec fn controls_at(self) -> int {
        self.ptr.target()
    }

    /// Whether `archive` holds all buckets and control bytes, and they make a
    /// block of memory.
    pub open spec fn in_archive(self, archive: Seq<u8>) -> bool {
        let buckets = self.spec_capacity() * T::spec_size();
        let controls = self.spec_capacity() + 15;
        &&& self.spec_capacity() > 0
        &&& crate::archive::fits_in_memory(buckets + controls, T::spec_align() as int)
        &&& buckets <= self.controls_at()
        &&& self.controls_at() + controls <= archive.len()
    }

    /// The position of a bucket.
    pub open spec fn bucket_at(self, index: int) -> int {
        self.controls_at() - (index + 1) * T::spec_size()
    }

    /// The bytes of a bucket.
    pub open spec fn bucket(self, archive: Seq<u8>, index: int) -> Seq<u8> {
        archive.subrange(self.bucket_at(index), self.bucket_at(index) + T::spec_size())
    }

    /// The table that `archive` holds.
    pub open spec fn view_in(self, archive: Seq<u8>) -> TableView<T> {
        TableView {
            controls: ControlBytes {
                bytes: archive.subrange(
                    self.controls_at(),
                    self.controls_at() + self.spec_capacity() + 15,
                ),
                capacity: self.spec_capacity(),
            },
            entries: Seq::new(
                self.spec_capacity() as nat,
                |index: int| T::decode(self.bucket(archive, index)),
            ),
        }
    }

    /// Returns whether the hash table is empty.
    pub fn is_empty(&self) -> (empty: bool)
        ensures
            empty == (self.spec_len() == 0),
            empty == (self.len.native == 0),
    {
        self.len.to_native() == 0
    }

    /// Returns the number of elements in the hash table.
    pub fn len(&self) -> (len: usize)
        ensures
            len == self.spec_len(),
            len == self.len.native,
    {
        self.len.to_native() as usize
    }

    /// Returns the total capacity of the hash table.
    pub fn capacity(&self) -> (capacity: usize)
        ensures
            capacity == self.spec_capacity(),
            capacity == self.cap.native,
    {
        self.cap.to_native() as usize
    }

    /// Where probing for `hash` starts.
    pub fn probe_seq(hash: u64, capacity: usize) -> (probe_seq: ProbeSeq)
        requires
            capacity > 0,
        ensures
            probe_seq.pos == Probe::of(hash, capacity as int).start,
            probe_seq.pos == hash as usize % capacity,
            probe_seq.stride == 0,
    {
        ProbeSeq { pos: h1(hash) % capacity, stride: 0 }
    }

    /// One less than the least power of two that is not below `capacity`.
    pub fn bucket_mask(capacity: usize) -> (mask: usize)
        requires
            crate::probe::next_power_of_two(capacity as nat) <= usize::MAX,
        ensures
            mask == crate::probe::next_power_of_two(capacity as nat) - 1,
    {
        proof {
            crate::probe::law_next_power_of_two(capacity as nat);
        }
        crate::probe::checked_next_power_of_two(capacity).unwrap() - 1
    }

    /// The position of a control byte.
    pub(crate) fn control_raw(&self, archive: &[u8], index: usize) -> (position: usize)
        requires
            self.in_archive(archive@),
            index <= self.spec_capacity() + 15,
        ensures
            position == self.controls_at() + index,
    {
        assert(archive.len() == archive@.len());
        proof {
            self.lemma_layout();
        }
        self.ptr.as_position() + index
    }

    /// The position of a bucket.
    pub(crate) fn bucket_raw(&self, archive: &[u8], index: usize) -> (position: usize)
        requires
            self.in_archive(archive@),
            index < self.spec_capacity(),
        ensures
            position == self.bucket_at(index as int),
            position + T::spec_size() <= archive@.len() <= usize::MAX,
    {
        assert(archive.len() == archive@.len());
        proof {
            self.lemma_layout();
            self.lemma_bucket(index as int);
        }
        self.ptr.as_position() - (index + 1) * T::size()
    }

    /// The sizes of a table in an archive are small enough to compute with.
    pub proof fn lemma_layout(self)
        requires
            exists|archive: Seq<u8>|
                #[trigger] self.in_archive(archive) && archive.len() <= usize::MAX,
        ensures
            T::spec_align() >= 1,
            self.spec_capacity() * T::spec_size() + self.spec_capacity() + 15 <= isize::MAX,
            0 <= self.spec_capacity() * T::spec_size(),
            0 <= self.controls_at() <= usize::MAX,
    {
        crate::archive::lemma_layout_is_valid::<T>();
        let (c, s) = (self.spec_capacity(), T::spec_size() as int);
        assert(0 <= c * s) by (nonlinear_arith)
            requires
                0 <= c,
                0 <= s,
        ;
    }

    /// A bucket stands in front of the control bytes and inside the archive.
    pub proof fn lemma_bucket(self, index: int)
        requires
            0 <= index < self.spec_capacity(),
            self.spec_capacity() * T::spec_size() <= self.controls_at(),
        ensures
            0 <= self.bucket_at(index),
            self.bucket_at(index) + T::spec_size() <= self.controls_at(),
            0 <= (index + 1) * T::spec_size() <= self.spec_capacity() * T::spec_size(),
    {
        let (c, s) = (self.spec_capacity(), T::spec_size() as int);
        assert(0 <= (index + 1) * s <= c * s && (index + 1) * s >= s) by (nonlinear_arith)
            requires
                0 <= index < c,
                0 <= s,
        ;
    }

    /// The bucket that a lookup of `hash` with `accepts` leads to.
    ///
    /// A hash whose windows hold neither an `EMPTY` byte nor an entry that `accepts`
    /// accepts leads to no bucket.
    fn get_entry_raw<C>(&self, archive: &[u8], hash: u64, accepts: C) -> (found: Option<usize>) where
        C: Fn(&T) -> bool,

        requires
            self.spec_len() != 0 ==> {
                &&& self.in_archive(archive@)
                &&& self.view_in(archive@).can_ask(hash, accepts)
            },
        ensures
            match found {
                Some(index) => self.spec_len() != 0 && index < self.spec_capacity()
                    && self.view_in(archive@).finds(hash, accepts, index as int),
                None => self.spec_len() == 0 || self.view_in(archive@).misses(hash, accepts),
            },
    {
        if self.is_empty() {
            return None;
        }
        let capacity = self.capacity();
        let ghost table = self.view_in(archive@);
        let ghost controls = table.controls;
        let ghost probe = Probe::of(hash, capacity as int);
        proof {
            assert(archive.len() == archive@.len());
            self.lemma_layout();
            probe.lemma_space();
            probe.lemma_pos_start();
        }
        let h2_hash = h2(hash);
        let mut probe_seq = Self::probe_seq(hash, capacity);
        let bucket_mask = Self::bucket_mask(capacity);
        let mut steps_left: usize = Self::probe_bound(bucket_mask) - 1;
        let ghost mut step: nat = 0;
        loop
            invariant
                self.in_archive(archive@),
                self.spec_len() != 0,
                capacity == self.spec_capacity(),
                0 < capacity <= isize::MAX - 15,
                table == self.view_in(archive@),
                controls == table.controls,
                probe == Probe::of(hash, capacity as int),
                probe.wf(),
                h2_hash == crate::probe::spec_h2(hash),
                bucket_mask == probe.space() - 1,
                probe.space() <= usize::MAX,
                table.can_ask(hash, accepts),
                step + 1 + steps_left == probe.bound(),
                probe_seq.at(probe, step),
                probe.visits(step),
                controls.reaches(probe, step),
                table.rejected_before(probe, h2_hash, accepts, step, 0),
            decreases steps_left,
        {
            let ghost window = probe.pos(step);
            let mut any_empty = false;
            let mut group_index: usize = 0;
            while group_index < MAX_GROUP_WIDTH / GROUP_WIDTH
                invariant
                    group_index <= 2,
                    self.in_archive(archive@),
                    self.spec_len() != 0,
                    capacity == self.spec_capacity(),
                    0 < capacity <= isize::MAX - 15,
                    table == self.view_in(archive@),
                    controls == table.controls,
                    probe == Probe::of(hash, capacity as int),
                    h2_hash == crate::probe::spec_h2(hash),
                    table.can_ask(hash, accepts),
                    window == probe.pos(step),
                    0 <= window < capacity,
                    probe_seq.pos == window + 8 * group_index,
                    probe_seq.stride as int % probe.space() == (16int * step) % probe.space(),
                    probe.visits(step),
                    controls.reaches(probe, step),
                    table.rejected_before(probe, h2_hash, accepts, step, 8 * group_index),
                    any_empty <==> exists|lane: int|
                        0 <= lane < 8 * group_index && #[trigger] controls.lane(window, lane)
                            == EMPTY,
                decreases 2 - group_index,
            {
                let ghost first = 8 * group_index as int;
                assert(archive.len() == archive@.len());
                let group = Group::read(archive, self.control_raw(archive, probe_seq.pos));
                assert forall|lane: int| 0 <= lane < 8 implies group@[lane] == controls.lane(
                    window,
                    first + lane,
                ) by {}
                let mut mask = group.match_byte(h2_hash);
                let ghost mut next_lane: int = 0;
                loop
                    invariant
                        group_index < 2,
                        first == 8 * group_index,
                        self.in_archive(archive@),
                        self.spec_len() != 0,
                        capacity == self.spec_capacity(),
                        0 < capacity <= isize::MAX - 15,
                        table == self.view_in(archive@),
                        controls == table.controls,
                        probe == Probe::of(hash, capacity as int),
                        h2_hash == crate::probe::spec_h2(hash),
                        table.can_ask(hash, accepts),
                        window == probe.pos(step),
                        0 <= window < capacity,
                        probe_seq.pos == window + first,
                        probe.visits(step),
                        controls.reaches(probe, step),
                        0 <= next_lane <= 8,
                        table.rejected_before(probe, h2_hash, accepts, step, first + next_lane),
                        forall|lane: int|
                            mask.has(lane) <==> next_lane <= lane < 8 && controls.lane(
                                window,
                                first + lane,
                            ) == h2_hash,
                    ensures
                        forall|lane: int| !mask.has(lane),
                    decreases 8 - next_lane,
                {
                    let bit = match mask.lowest_set_bit() {
                        Some(bit) => bit,
                        None => break ,
                    };
                    let index = (probe_seq.pos + bit) % capacity;
                    let bucket_ptr = self.bucket_raw(archive, index);
                    let bucket = vstd::slice::slice_subrange(
                        archive,
                        bucket_ptr,
                        bucket_ptr + T::size(),
                    );
                    let entry = T::read(bucket);
                    assert(controls.candidate(probe, h2_hash, step, first + bit));
                    assert(index == controls.index(probe, step, first + bit));
                    assert(table.rejected_before(probe, h2_hash, accepts, step, first + bit)) by {
                        assert forall|s: nat, l: int| #[trigger]
                            controls.candidate(probe, h2_hash, s, l) && (s < step || (s == step
                                && l < first + bit)) implies call_ensures(
                            accepts,
                            (&table.entries[controls.index(probe, s, l)],),
                            false,
                        ) by {
                            if s == step && l >= first + next_lane {
                                assert(!mask.has(l - first));
                                assert(controls.lane(window, first + (l - first)) == h2_hash);
                            }
                        }
                    }
                    if accepts(&entry) {
                        return Some(index);
                    }
                    mask = mask.remove_lowest_bit();
                    proof {
                        next_lane = bit + 1;
                    }
                }
                assert(table.rejected_before(probe, h2_hash, accepts, step, first + 8)) by {
                    assert forall|s: nat, l: int| #[trigger]
                        controls.candidate(probe, h2_hash, s, l) && (s < step || (s == step && l
                            < first + 8)) implies call_ensures(
                        accepts,
                        (&table.entries[controls.index(probe, s, l)],),
                        false,
                    ) by {
                        if s == step && l >= first + next_lane {
                            assert(!mask.has(l - first));
                            assert(controls.lane(window, first + (l - first)) == h2_hash);
                        }
                    }
                }
                let empties = group.match_empty();
                let group_has_empty = empties.any_bit_set();
                proof {
                    if group_has_empty {
                        let lane = choose|lane: int| empties.has(lane);
                        assert(controls.lane(window, first + lane) == EMPTY);
                    }
                    if exists|lane: int|
                        first <= lane < first + 8 && #[trigger] controls.lane(window, lane)
                            == EMPTY {
                        let lane = choose|lane: int|
                            first <= lane < first + 8 && #[trigger] controls.lane(window, lane)
                                == EMPTY;
                        assert(controls.lane(window, first + (lane - first)) == EMPTY);
                        assert(empties.has(lane - first));
                    }
                }
                any_empty = any_empty || group_has_empty;
                probe_seq.next_group();
                group_index = group_index + 1;
            }
            if any_empty {
                return None;
            }
            steps_left = match probe_seq.next_window(
                capacity,
                bucket_mask,
                steps_left,
                Ghost(probe),
            ) {
                Some(left) => left,
                None => {
                    // From here on, probing would only examine the same windows again.
                    proof {
                        table.lemma_never_accepted(probe, h2_hash, accepts);
                        assert forall|s: nat, l: int| #[trigger]
                            controls.candidate(probe, h2_hash, s, l) implies call_ensures(
                            accepts,
                            (&table.entries[controls.index(probe, s, l)],),
                            false,
                        ) by {
                            assert(table.rejected_before(probe, h2_hash, accepts, s + 1, 0));
                        }
                    }
                    return None;
                },
            };
            proof {
                step = (probe.bound() - 1 - steps_left) as nat;
            }
        }
    }

    /// Returns the entry that a lookup of `hash` with `accepts` leads to.
    pub fn get_with<C>(&self, archive: &[u8], hash: u64, accepts: C) -> (entry: Option<T>) where
        C: Fn(&T) -> bool,

        requires
            self.spec_len() != 0 ==> {
                &&& self.in_archive(archive@)
                &&& self.view_in(archive@).can_ask(hash, accepts)
            },
        ensures
            if self.spec_len() == 0 {
                entry is None
            } else {
                self.view_in(archive@).gives(hash, accepts, entry)
            },
    {
        match self.get_entry_raw(archive, hash, accepts) {
            Some(index) => {
                let at = self.bucket_raw(archive, index);
                Some(T::read(vstd::slice::slice_subrange(archive, at, at + T::size())))
            },
            None => None,
        }
    }

    /// Returns the bytes of the entry that a lookup of `hash` with `accepts`
    /// leads to, for writing.
    pub fn get_seal_with<'a, C>(&self, archive: &'a mut [u8], hash: u64, accepts: C) -> (entry:
        Option<&'a mut [u8]>) where C: Fn(&T) -> bool
        requires
            self.spec_len() != 0 ==> {
                &&& self.in_archive(old(archive)@)
                &&& self.view_in(old(archive)@).can_ask(hash, accepts)
            },
        ensures
            match entry {
                Some(bytes) => self.spec_len() != 0 && exists|index: int|
                    {
                        &&& 0 <= index < self.spec_capacity()
                        &&& #[trigger] self.view_in(old(archive)@).finds(hash, accepts, index)
                        &&& bytes@ == self.bucket(old(archive)@, index)
                        &&& final(archive)@ == old(archive)@.subrange(0, self.bucket_at(index))
                            + final(bytes)@ + old(archive)@.subrange(
                            self.bucket_at(index) + T::spec_size(),
                            old(archive)@.len() as int,
                        )
                    },
                None => final(archive)@ == old(archive)@ && (self.spec_len() == 0
                    || self.view_in(old(archive)@).misses(hash, accepts)),
            },
    {
        match self.get_entry_raw(archive, hash, accepts) {
            Some(index) => {
                let at = self.bucket_raw(archive, index);
                proof {
                    self.lemma_bucket(index as int);
                }
                let (head, _) = archive.split_at_mut(at + T::size());
                let (_, bytes) = head.split_at_mut(at);
                assert(bytes@ =~= self.bucket(old(archive)@, index as int));
                Some(bytes)
            },
            None => None,
        }
    }

    /// The number of steps after which a probe only repeats itself.
    pub(crate) fn probe_bound(bucket_mask: usize) -> (bound: usize)
        ensures
            forall|probe: Probe|
                bucket_mask == #[trigger] probe.space() - 1 ==> bound == probe.bound(),
            bound >= 1,
    {
        if bucket_mask < MAX_GROUP_WIDTH {
            1
        } else {
            (bucket_mask - (MAX_GROUP_WIDTH - 1)) / MAX_GROUP_WIDTH + 1
        }
    }
}

} // verus!
