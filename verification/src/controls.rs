//! The control bytes of a table, and what probing finds in them.

use vstd::prelude::*;

use crate::group::EMPTY;
use crate::probe::Probe;

verus! {

/// The control bytes of a table of `capacity` buckets.
///
/// The first `capacity` bytes describe the buckets. The bytes after them repeat
/// the first few, so that a window may run past the last bucket.
pub struct ControlBytes {
    pub bytes: Seq<u8>,
    pub capacity: int,
}

impl ControlBytes {
    /// There is a control byte for every lane of every window that starts at a
    /// bucket.
    pub open spec fn wf(self) -> bool {
        &&& self.capacity > 0
        &&& self.bytes.len() == self.capacity + 15
    }

    /// The byte in a lane of the window at `pos`.
    pub open spec fn lane(self, pos: int, lane: int) -> u8 {
        self.bytes[pos + lane]
    }

    /// Whether the window at `pos` holds an `EMPTY` byte.
    pub open spec fn window_has_empty(self, pos: int) -> bool {
        exists|lane: int| 0 <= lane < 16 && #[trigger] self.lane(pos, lane) == EMPTY
    }

    /// Whether probing comes as far as `step`: no window before it holds an
    /// `EMPTY` byte.
    pub open spec fn reaches(self, probe: Probe, step: nat) -> bool {
        forall|earlier: nat|
            earlier < step && #[trigger] probe.visits(earlier) ==> !self.window_has_empty(
                probe.pos(earlier),
            )
    }

    /// The bucket of a lane of the window at `step`.
    pub open spec fn index(self, probe: Probe, step: nat, lane: int) -> int {
        (probe.pos(step) + lane) % self.capacity
    }

    /// Whether probing for `tag` comes to look at the bucket of a lane of the
    /// window at `step`.
    pub open spec fn candidate(self, probe: Probe, tag: u8, step: nat, lane: int) -> bool {
        &&& probe.visits(step)
        &&& self.reaches(probe, step)
        &&& 0 <= lane < 16
        &&& self.lane(probe.pos(step), lane) == tag
    }

    /// Whether the first `EMPTY` byte that probing meets is in this lane of the
    /// window at `step`.
    pub open spec fn first_empty(self, probe: Probe, step: nat, lane: int) -> bool {
        &&& probe.visits(step)
        &&& self.reaches(probe, step)
        &&& 0 <= lane < 16
        &&& self.lane(probe.pos(step), lane) == EMPTY
        &&& forall|before: int|
            0 <= before < lane ==> #[trigger] self.lane(probe.pos(step), before) != EMPTY
    }

    /// Whether no window that probing examines holds an `EMPTY` byte.
    pub open spec fn no_empty(self, probe: Probe) -> bool {
        forall|step: nat| #[trigger]
            probe.visits(step) ==> !self.window_has_empty(probe.pos(step))
    }

    /// There is only one first `EMPTY` byte.
    pub proof fn lemma_first_empty_unique(
        self,
        probe: Probe,
        step: nat,
        lane: int,
        other_step: nat,
        other_lane: int,
    )
        requires
            self.first_empty(probe, step, lane),
            self.first_empty(probe, other_step, other_lane),
        ensures
            step == other_step,
            lane == other_lane,
    {
        assert(self.window_has_empty(probe.pos(step)));
        assert(self.window_has_empty(probe.pos(other_step)));
    }

    /// The bucket of the first `EMPTY` byte that probing meets.
    pub open spec fn first_free(self, probe: Probe) -> Option<int> {
        if exists|step: nat, lane: int| #[trigger] self.first_empty(probe, step, lane) {
            let (step, lane) = choose|step: nat, lane: int| #[trigger]
                self.first_empty(probe, step, lane);
            Some(self.index(probe, step, lane))
        } else {
            None
        }
    }

    /// The control bytes of a table that holds nothing.
    pub open spec fn blank(capacity: int) -> ControlBytes {
        ControlBytes { bytes: Seq::new((capacity + 15) as nat, |i: int| EMPTY), capacity }
    }

    /// The control bytes after bucket `index` was given `tag`.
    pub open spec fn with(self, index: int, tag: u8) -> ControlBytes {
        let marked = self.bytes.update(index, tag);
        ControlBytes {
            bytes: if index < 15 {
                marked.update(self.capacity + index, tag)
            } else {
                marked
            },
            capacity: self.capacity,
        }
    }

    /// Probing that meets no `EMPTY` byte in the first steps never meets one.
    pub proof fn lemma_never_empty(self, probe: Probe)
        requires
            probe.wf(),
            self.reaches(probe, probe.bound()),
        ensures
            self.no_empty(probe),
            forall|step: nat| self.reaches(probe, step),
    {
        assert forall|step: nat| #[trigger] probe.visits(step) implies !self.window_has_empty(
            probe.pos(step),
        ) by {
            let earlier = probe.law_positions_repeat(step);
            assert(probe.visits(earlier));
        }
    }

    /// The buckets from `from` on that hold an entry, in ascending order.
    pub open spec fn full_from(self, from: int) -> Seq<int>
        decreases self.capacity - from,
    {
        if from >= self.capacity {
            Seq::empty()
        } else if crate::group::is_full(self.bytes[from]) {
            seq![from] + self.full_from(from + 1)
        } else {
            self.full_from(from + 1)
        }
    }

    /// Buckets that hold nothing do not show up among the full ones.
    pub proof fn lemma_full_from_skips(self, from: int, to: int)
        requires
            from <= to,
            forall|i: int|
                from <= i < to && i < self.capacity ==> !crate::group::is_full(
                    #[trigger] self.bytes[i],
                ),
        ensures
            self.full_from(from) == self.full_from(to),
        decreases to - from,
    {
        if from < to {
            self.lemma_full_from_skips(from + 1, to);
        }
    }

    /// The full buckets from `from` on are listed once each, in ascending order,
    /// and none is left out.
    pub proof fn law_full_from(self, from: int)
        ensures
            forall|k: int|
                0 <= k < self.full_from(from).len() ==> from <= #[trigger] self.full_from(from)[k]
                    < self.capacity && crate::group::is_full(
                    self.bytes[self.full_from(from)[k]],
                ),
            forall|j: int, k: int|
                0 <= j < k < self.full_from(from).len() ==> #[trigger] self.full_from(from)[j]
                    < #[trigger] self.full_from(from)[k],
            forall|i: int|
                from <= i < self.capacity && crate::group::is_full(#[trigger] self.bytes[i])
                    ==> self.full_from(from).contains(i),
        decreases self.capacity - from,
    {
        if from < self.capacity {
            self.law_full_from(from + 1);
            let rest = self.full_from(from + 1);
            if crate::group::is_full(self.bytes[from]) {
                let all = self.full_from(from);
                assert(all =~= seq![from] + rest);
                assert forall|i: int|
                    from <= i < self.capacity && crate::group::is_full(
                        #[trigger] self.bytes[i],
                    ) implies all.contains(i) by {
                    if i == from {
                        assert(all[0] == from);
                    } else {
                        let k = choose|k: int| 0 <= k < rest.len() && rest[k] == i;
                        assert(all[k + 1] == i);
                    }
                }
                assert forall|k: int| 0 <= k < all.len() implies from <= #[trigger] all[k]
                    < self.capacity && crate::group::is_full(self.bytes[all[k]]) by {
                    if k > 0 {
                        assert(all[k] == rest[k - 1]);
                    }
                }
                assert forall|j: int, k: int| 0 <= j < k < all.len() implies #[trigger] all[j]
                    < #[trigger] all[k] by {
                    assert(all[k] == rest[k - 1]);
                    if j > 0 {
                        assert(all[j] == rest[j - 1]);
                    }
                }
            }
        }
    }

    /// The bytes after the first `capacity` repeat the first few.
    pub open spec fn wrapped(self) -> bool {
        forall|i: int|
            self.capacity <= i < self.bytes.len() && i < 2 * self.capacity
                ==> #[trigger] self.bytes[i] == self.bytes[i % self.capacity]
    }
}

/// Where entries were put, one after another.
pub struct Placement {
    /// The control bytes in the end.
    pub controls: ControlBytes,
    /// The bucket of every entry.
    pub slots: Seq<int>,
}

impl Placement {
    /// The placement of entries with these hashes in a table of `capacity`
    /// buckets.
    ///
    /// Every entry is put in the first free bucket that probing for its hash
    /// meets. There is no placement where probing for a hash meets none.
    pub open spec fn of(capacity: int, hashes: Seq<u64>) -> Option<Placement>
        decreases hashes.len(),
    {
        if hashes.len() == 0 {
            Some(Placement { controls: ControlBytes::blank(capacity), slots: Seq::empty() })
        } else {
            match Placement::of(capacity, hashes.drop_last()) {
                Some(before) => {
                    match before.controls.first_free(Probe::of(hashes.last(), capacity)) {
                        Some(index) => Some(
                            Placement {
                                controls: before.controls.with(
                                    index,
                                    crate::probe::spec_h2(hashes.last()),
                                ),
                                slots: before.slots.push(index),
                            },
                        ),
                        None => None,
                    }
                },
                None => None,
            }
        }
    }
}

/// A table as it is read: its control bytes, and the value of every bucket.
///
/// The value of a bucket means something only where its control byte is full.
pub struct TableView<T> {
    pub controls: ControlBytes,
    pub entries: Seq<T>,
}

impl<T> TableView<T> {
    /// Whether `accepts` turns down every entry that probing comes to look at before
    /// it comes to `lane` of the window at `step`.
    pub open spec fn rejected_before<C: Fn(&T) -> bool>(
        self,
        probe: Probe,
        tag: u8,
        accepts: C,
        step: nat,
        lane: int,
    ) -> bool {
        forall|s: nat, l: int| #[trigger]
            self.controls.candidate(probe, tag, s, l) && (s < step || (s == step && l < lane))
                ==> call_ensures(accepts, (&self.entries[self.controls.index(probe, s, l)],), false)
    }

    /// A lookup that met no `EMPTY` byte, and no entry that `accepts` accepts, in the
    /// first steps will never meet any.
    pub proof fn lemma_never_accepted<C: Fn(&T) -> bool>(self, probe: Probe, tag: u8, accepts: C)
        requires
            probe.wf(),
            self.controls.reaches(probe, probe.bound()),
            self.rejected_before(probe, tag, accepts, probe.bound(), 0),
        ensures
            forall|step: nat, lane: int| self.rejected_before(probe, tag, accepts, step, lane),
    {
        self.controls.lemma_never_empty(probe);
        assert forall|s: nat, l: int| #[trigger]
            self.controls.candidate(probe, tag, s, l) implies call_ensures(
            accepts,
            (&self.entries[self.controls.index(probe, s, l)],),
            false,
        ) by {
            let earlier = probe.law_positions_repeat(s);
            assert(self.controls.candidate(probe, tag, earlier, l));
            assert(self.controls.index(probe, earlier, l) == self.controls.index(probe, s, l));
        }
    }

    /// Whether `accepts` can be asked about every entry that a lookup of `hash` hands
    /// to it: those that the lookup comes to look at after `accepts` turned down all
    /// before them.
    pub open spec fn can_ask<C: Fn(&T) -> bool>(self, hash: u64, accepts: C) -> bool {
        let probe = Probe::of(hash, self.controls.capacity);
        let tag = crate::probe::spec_h2(hash);
        forall|step: nat, lane: int| #[trigger]
            self.controls.candidate(probe, tag, step, lane) && self.rejected_before(
                probe,
                tag,
                accepts,
                step,
                lane,
            ) ==> call_requires(
                accepts,
                (&self.entries[self.controls.index(probe, step, lane)],),
            )
    }

    /// Whether bucket `index` is the first that a lookup of `hash` comes to look
    /// at and whose entry `accepts` accepts.
    pub open spec fn finds<C: Fn(&T) -> bool>(self, hash: u64, accepts: C, index: int) -> bool {
        let probe = Probe::of(hash, self.controls.capacity);
        let tag = crate::probe::spec_h2(hash);
        exists|step: nat, lane: int|
            {
                &&& #[trigger] self.controls.candidate(probe, tag, step, lane)
                &&& index == self.controls.index(probe, step, lane)
                &&& call_ensures(accepts, (&self.entries[index],), true)
                &&& self.rejected_before(probe, tag, accepts, step, lane)
            }
    }

    /// Whether `accepts` turns down every entry that a lookup of `hash` comes to look
    /// at.
    pub open spec fn misses<C: Fn(&T) -> bool>(self, hash: u64, accepts: C) -> bool {
        let probe = Probe::of(hash, self.controls.capacity);
        let tag = crate::probe::spec_h2(hash);
        forall|s: nat, l: int| #[trigger]
            self.controls.candidate(probe, tag, s, l) ==> call_ensures(
                accepts,
                (&self.entries[self.controls.index(probe, s, l)],),
                false,
            )
    }

    /// Whether looking up `hash` with `accepts` may give `entry`.
    pub open spec fn gives<C: Fn(&T) -> bool>(
        self,
        hash: u64,
        accepts: C,
        entry: Option<T>,
    ) -> bool {
        match entry {
            Some(entry) => exists|index: int|
                0 <= index < self.controls.capacity && #[trigger] self.finds(hash, accepts, index)
                    && entry == self.entries[index],
            None => self.misses(hash, accepts),
        }
    }
}

} // verus!
