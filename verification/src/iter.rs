//! Iterating over the entries of a table.

use vstd::prelude::*;

use crate::archive::Portable;
use crate::controls::ControlBytes;
use crate::group::Bitmask;
use crate::group::Group;
use crate::group::GROUP_WIDTH;
use crate::table::ArchivedHashTable;

verus! {

/// An iterator over the full lanes of one group after another.
pub struct ControlIter {
    /// The full lanes of the current group that are still to come.
    pub current_mask: Bitmask,
    /// The position of the next group.
    pub next_group: usize,
}

impl ControlIter {
    /// An iterator with nothing to come in its current group.
    pub fn none() -> (controls: ControlIter)
        ensures
            forall|lane: int| !controls.current_mask.has(lane),
            controls.next_group == 0,
    {
        ControlIter { current_mask: Bitmask::empty(), next_group: 0 }
    }

    /// The next full lane of the current group.
    pub fn next_full(&mut self) -> (full: Option<usize>)
        ensures
            final(self).next_group == old(self).next_group,
            match full {
                Some(bit) => {
                    &&& old(self).current_mask.has(bit as int)
                    &&& forall|lane: int| lane < bit ==> !old(self).current_mask.has(lane)
                    &&& forall|lane: int|
                        final(self).current_mask.has(lane) <==> old(self).current_mask.has(lane)
                            && lane != bit
                },
                None => {
                    &&& forall|lane: int| !old(self).current_mask.has(lane)
                    &&& final(self).current_mask == old(self).current_mask
                },
            },
    {
        match self.current_mask.lowest_set_bit() {
            Some(bit) => {
                self.current_mask = self.current_mask.remove_lowest_bit();
                Some(bit)
            },
            None => None,
        }
    }

    /// Moves on to the next group.
    pub fn move_next(&mut self, archive: &[u8])
        requires
            old(self).next_group + GROUP_WIDTH <= archive@.len(),
        ensures
            final(self).next_group == old(self).next_group + GROUP_WIDTH,
            forall|lane: int|
                final(self).current_mask.has(lane) <==> 0 <= lane < GROUP_WIDTH
                    && crate::group::is_full(archive@[old(self).next_group + lane]),
    {
        assert(archive.len() == archive@.len());
        let group = Group::read(archive, self.next_group);
        self.current_mask = group.match_full();
        self.next_group = self.next_group + GROUP_WIDTH;
        assert forall|lane: int|
            self.current_mask.has(lane) <==> 0 <= lane < GROUP_WIDTH && crate::group::is_full(
                archive@[old(self).next_group + lane],
            ) by {
            if 0 <= lane < GROUP_WIDTH {
                assert(group@[lane] == archive@[old(self).next_group + lane]);
            }
        }
    }
}

/// An iterator over the positions of the entries of an [`ArchivedHashTable`].
///
/// It does not borrow the archive: every call is handed the archive, whose
/// control bytes must still be what they were.
pub struct RawIter<T> {
    controls: ControlIter,
    entries: usize,
    items_left: usize,
    table: Ghost<ArchivedHashTable<T>>,
    base: Ghost<int>,
    next_index: Ghost<int>,
}

impl<T: Portable> RawIter<T> {
    /// The table whose entries are iterated over.
    pub closed spec fn table(self) -> ArchivedHashTable<T> {
        self.table@
    }

    spec fn control_bytes(self, archive: Seq<u8>) -> ControlBytes {
        self.table@.view_in(archive).controls
    }

    /// The buckets whose entries are still to come.
    pub closed spec fn remaining(self, archive: Seq<u8>) -> Seq<int> {
        if self.items_left == 0 {
            Seq::empty()
        } else {
            self.control_bytes(archive).full_from(self.next_index@).take(self.items_left as int)
        }
    }

    /// The number of entries that are still to come.
    pub closed spec fn left(self) -> int {
        self.items_left as int
    }

    /// As many entries are still to come as there are buckets to come to.
    pub proof fn law_left(self, archive: Seq<u8>)
        requires
            self.wf(archive),
        ensures
            self.left() == self.remaining(archive).len(),
    {
    }

    /// Whether the iterator can be used with `archive`.
    pub closed spec fn wf(self, archive: Seq<u8>) -> bool {
        self.items_left > 0 ==> {
            let controls = self.control_bytes(archive);
            &&& self.table@.in_archive(archive)
            &&& 0 <= self.base@ <= self.next_index@ <= self.base@ + 8
            &&& self.base@ < controls.capacity
            &&& self.controls.next_group == self.table@.controls_at() + self.base@ + 8
            &&& self.entries == self.table@.controls_at() - self.base@ * T::spec_size()
            &&& forall|lane: int|
                #![trigger self.controls.current_mask.has(lane)]
                #![trigger controls.lane(self.base@, lane)]
                self.controls.current_mask.has(lane) <==> 0 <= lane < 8 && self.base@ + lane
                    >= self.next_index@ && crate::group::is_full(controls.lane(self.base@, lane))
            &&& controls.full_from(self.next_index@).len() >= self.items_left
        }
    }

    /// Iterating depends on the control bytes alone: writing to entries while
    /// iterating does no harm.
    pub proof fn law_entries_may_change(self, archive: Seq<u8>, changed: Seq<u8>)
        requires
            self.wf(archive),
            changed.len() == archive.len(),
            self.table().view_in(changed).controls == self.table().view_in(archive).controls,
        ensures
            self.wf(changed),
            self.remaining(changed) == self.remaining(archive),
    {
    }

    /// Returns a raw iterator which yields no elements.
    pub fn empty() -> (iter: RawIter<T>)
        ensures
            forall|archive: Seq<u8>| #[trigger] iter.wf(archive),
            forall|archive: Seq<u8>| #[trigger] iter.remaining(archive) == Seq::<int>::empty(),
    {
        RawIter {
            controls: ControlIter::none(),
            entries: 0,
            items_left: 0,
            table: Ghost(arbitrary()),
            base: Ghost(0),
            next_index: Ghost(0),
        }
    }

    /// The position of the next entry.
    pub fn next(&mut self, archive: &[u8]) -> (entry: Option<usize>)
        requires
            old(self).wf(archive@),
        ensures
            final(self).wf(archive@),
            final(self).table() == old(self).table(),
            match entry {
                Some(position) => {
                    &&& old(self).remaining(archive@).len() > 0
                    &&& position == old(self).table().bucket_at(old(self).remaining(archive@)[0])
                    &&& position == old(self).table().ptr.pos + old(self).table().ptr.offset - (
                    old(self).remaining(archive@)[0] + 1) * T::spec_size()
                    &&& final(self).remaining(archive@) == old(self).remaining(
                        archive@,
                    ).drop_first()
                },
                None => {
                    &&& old(self).remaining(archive@).len() == 0
                    &&& *final(self) == *old(self)
                },
            },
    {
        if self.items_left == 0 {
            None
        } else {
            let ghost table = self.table@;
            let ghost controls = self.control_bytes(archive@);
            let ghost from = self.next_index@;
            proof {
                assert(archive.len() == archive@.len());
                table.lemma_layout();
            }
            let bit: usize;
            loop
                invariant_except_break
                    self.wf(archive@),
                    controls.full_from(self.next_index@) == controls.full_from(from),
                invariant
                    self.items_left > 0,
                    self.items_left == old(self).items_left,
                    self.table@ == table,
                    controls == table.view_in(archive@).controls,
                    archive@.len() <= usize::MAX,
                ensures
                    self.next_index@ == self.base@ + bit + 1,
                    self.items_left > 0,
                    self.items_left == old(self).items_left,
                    self.table@ == table,
                    table.in_archive(archive@),
                    0 <= self.base@ < controls.capacity,
                    self.base@ + bit < controls.capacity,
                    self.controls.next_group == table.controls_at() + self.base@ + 8,
                    self.entries == table.controls_at() - self.base@ * T::spec_size(),
                    bit < 8,
                    forall|lane: int|
                        #![trigger self.controls.current_mask.has(lane)]
                        #![trigger controls.lane(self.base@, lane)]
                        self.controls.current_mask.has(lane) <==> 0 <= lane < 8 && self.base@ + lane
                            >= self.next_index@ && crate::group::is_full(controls.lane(self.base@, lane)),
                    controls.full_from(from) == seq![self.base@ + bit] + controls.full_from(
                        self.next_index@,
                    ),
                decreases controls.capacity - self.base@,
            {
                let ghost before = *self;
                match self.controls.next_full() {
                    Some(found) => {
                        bit = found;
                        proof {
                            self.next_index@ = self.base@ + bit + 1;
                            let here = self.base@ + bit;
                            assert(before.controls.current_mask.has(bit as int));
                            assert(crate::group::is_full(controls.lane(self.base@, bit as int)));
                            assert forall|i: int|
                                before.next_index@ <= i < here && i
                                    < controls.capacity implies !crate::group::is_full(
                                #[trigger] controls.bytes[i],
                            ) by {
                                let lane = i - self.base@;
                                assert(!before.controls.current_mask.has(lane));
                                assert(controls.lane(self.base@, lane) == controls.bytes[i]);
                            }
                            controls.lemma_full_from_skips(before.next_index@, here);
                        }
                        break ;
                    },
                    None => {},
                }
                proof {
                    assert forall|i: int|
                        before.next_index@ <= i < self.base@ + 8 && i
                            < controls.capacity implies !crate::group::is_full(
                        #[trigger] controls.bytes[i],
                    ) by {
                        let lane = i - self.base@;
                        assert(!before.controls.current_mask.has(lane));
                        assert(controls.lane(self.base@, lane) == controls.bytes[i]);
                    }
                    controls.lemma_full_from_skips(before.next_index@, self.base@ + 8);
                    table.lemma_bucket(self.base@ + 7);
                    let s = T::spec_size() as int;
                    let b = self.base@;
                    assert((b + 8) * s == b * s + 8 * s) by (nonlinear_arith);
                    assert(0 <= 8 * s <= (b + 8) * s) by (nonlinear_arith)
                        requires
                            0 <= b,
                            0 <= s,
                    ;
                }
                self.controls.move_next(archive);
                self.entries = self.entries - GROUP_WIDTH * T::size();
                proof {
                    self.base@ = self.base@ + 8;
                    self.next_index@ = self.base@;
                    assert forall|lane: int|
                        #![trigger self.controls.current_mask.has(lane)]
                        #![trigger controls.lane(self.base@, lane)]
                        self.controls.current_mask.has(lane) <==> 0 <= lane < 8 && self.base@ + lane
                            >= self.next_index@ && crate::group::is_full(controls.lane(self.base@, lane)) by {
                        if 0 <= lane < 8 {
                            assert(controls.lane(self.base@, lane)
                                == archive@[before.controls.next_group + lane]);
                        }
                    }
                }
            }
            self.items_left = self.items_left - 1;
            proof {
                let s = T::spec_size() as int;
                let b = self.base@;
                table.lemma_bucket(b + bit);
                assert((b + bit + 1) * s == b * s + (bit + 1) * s) by (nonlinear_arith);
                assert(0 <= (bit + 1) * s <= (b + bit + 1) * s) by (nonlinear_arith)
                    requires
                        0 <= b,
                        0 <= bit,
                        0 <= s,
                ;
                let rest = controls.full_from(self.next_index@);
                let n = old(self).items_left as int;
                assert((seq![b + bit] + rest).take(n).drop_first() =~= rest.take(n - 1));
            }
            Some(self.entries - (bit + 1) * T::size())
        }
    }

    /// The number of entries that are still to come.
    pub fn len(&self) -> (len: usize)
        ensures
            forall|archive: Seq<u8>|
                self.wf(archive) ==> len == #[trigger] self.remaining(archive).len(),
            len == self.left(),
    {
        self.items_left
    }
}

impl<T: Portable> ArchivedHashTable<T> {
    /// Whether all entries that the table claims to have are there: `archive`
    /// holds its memory, and enough buckets are full.
    pub open spec fn has_entries(self, archive: Seq<u8>) -> bool {
        self.spec_len() != 0 ==> {
            &&& self.in_archive(archive)
            &&& self.view_in(archive).controls.full_from(0).len() >= self.spec_len()
        }
    }

    /// The buckets of the entries of the table, in the order of iteration.
    pub open spec fn entry_indices(self, archive: Seq<u8>) -> Seq<int> {
        if self.spec_len() == 0 {
            Seq::empty()
        } else {
            self.view_in(archive).controls.full_from(0).take(self.spec_len())
        }
    }

    /// An iterator over the control bytes, at its first group.
    pub(crate) fn control_iter(&self, archive: &[u8]) -> (controls: ControlIter)
        requires
            self.in_archive(archive@),
        ensures
            controls.next_group == self.controls_at() + GROUP_WIDTH,
            forall|lane: int|
                controls.current_mask.has(lane) <==> 0 <= lane < GROUP_WIDTH
                    && crate::group::is_full(archive@[self.controls_at() + lane]),
    {
        assert(archive.len() == archive@.len());
        let group = Group::read(archive, self.control_raw(archive, 0));
        let current_mask = group.match_full();
        assert forall|lane: int|
            current_mask.has(lane) <==> 0 <= lane < GROUP_WIDTH && crate::group::is_full(
                archive@[self.controls_at() + lane],
            ) by {
            if 0 <= lane < GROUP_WIDTH {
                assert(group@[lane] == archive@[self.controls_at() + lane]);
            }
        }
        ControlIter { current_mask, next_group: self.control_raw(archive, GROUP_WIDTH) }
    }

    /// Returns an iterator over the entry positions in the hash table.
    pub fn raw_iter(&self, archive: &[u8]) -> (iter: RawIter<T>)
        requires
            self.has_entries(archive@),
        ensures
            iter.wf(archive@),
            iter.remaining(archive@) == self.entry_indices(archive@),
            self.spec_len() != 0 ==> iter.table() == *self,
    {
        if self.is_empty() {
            RawIter::empty()
        } else {
            proof {
                assert(archive.len() == archive@.len());
                self.lemma_layout();
            }
            let iter = RawIter {
                controls: self.control_iter(archive),
                entries: self.ptr.as_position(),
                items_left: self.len(),
                table: Ghost(*self),
                base: Ghost(0),
                next_index: Ghost(0),
            };
            proof {
                let controls = self.view_in(archive@).controls;
                assert forall|lane: int|
                    #![trigger iter.controls.current_mask.has(lane)]
                    #![trigger controls.lane(0, lane)]
                    iter.controls.current_mask.has(lane) <==> 0 <= lane < 8
                        && crate::group::is_full(controls.lane(0, lane)) by {
                    if 0 <= lane < 8 {
                        assert(controls.lane(0, lane) == archive@[self.controls_at() + lane]);
                    }
                }
                assert(0 * T::spec_size() == 0) by (nonlinear_arith);
            }
            iter
        }
    }

    /// Returns an iterator over the entry positions in the hash table, for
    /// writing to the entries.
    pub fn raw_iter_seal(&self, archive: &mut [u8]) -> (iter: RawIter<T>)
        requires
            self.has_entries(old(archive)@),
        ensures
            final(archive)@ == old(archive)@,
            iter.wf(old(archive)@),
            iter.remaining(old(archive)@) == self.entry_indices(old(archive)@),
            self.spec_len() != 0 ==> iter.table() == *self,
    {
        self.raw_iter(archive)
    }
}

} // verus!
