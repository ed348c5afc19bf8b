//! Which buckets probing comes to.
//!
//! Probing skips positions past the last bucket, so the windows of a hash may leave
//! out a few of the first buckets. It is shown here how many at most, and for which
//! capacities there are none.

use vstd::prelude::*;

use crate::controls::ControlBytes;
use crate::controls::Placement;
use crate::group::EMPTY;
use crate::probe::Probe;

verus! {

impl Probe {
    /// Whether probing comes to bucket `index`.
    pub open spec fn comes_to(self, index: int) -> bool {
        exists|step: nat, lane: int|
            {
                &&& #[trigger] self.has_lane(step, lane)
                &&& self.pos(step) + lane == index || self.pos(step) + lane == self.capacity + index
            }
    }

    /// Whether probing examines `lane` of a window at `step`.
    pub open spec fn has_lane(self, step: nat, lane: int) -> bool {
        self.visits(step) && 0 <= lane < 16
    }

    /// Probing leaves out at most the first few buckets, fewer than a window.
    pub proof fn law_comes_to(self, index: int)
        requires
            self.wf(),
            self.start % 16 <= index < self.capacity,
        ensures
            self.comes_to(index),
    {
        self.lemma_space();
        let lane = (index - self.start % 16) % 16;
        let step = self.law_every_window(index - lane);
        assert(self.has_lane(step, lane));
    }
}

/// Whether probing comes to every bucket of a table of `capacity` buckets, wherever
/// it starts.
pub open spec fn covers(capacity: int) -> bool {
    forall|start: int, index: int|
        0 <= start < capacity && 0 <= index < capacity ==> #[trigger] (Probe {
            start,
            capacity,
        }).comes_to(index)
}

/// Probing comes to every bucket of a table, wherever it starts, just if the table is
/// no larger than a window or consists of whole windows.
pub proof fn law_covers(capacity: int)
    requires
        0 < capacity,
    ensures
        covers(capacity) <==> capacity <= 16 || capacity % 16 == 0,
{
    if capacity <= 16 || capacity % 16 == 0 {
        assert forall|start: int, index: int|
            0 <= start < capacity && 0 <= index < capacity implies #[trigger] (Probe {
            start,
            capacity,
        }).comes_to(index) by {
            let probe = Probe { start, capacity };
            probe.lemma_space();
            let r = start % 16;
            if capacity <= 16 {
                probe.lemma_pos_start();
                let lane = if index >= start {
                    index - start
                } else {
                    capacity + index - start
                };
                assert(probe.has_lane(0, lane));
            } else if index >= r {
                probe.law_comes_to(index);
            } else {
                let step = probe.law_every_window(capacity - 16 + r);
                assert(probe.has_lane(step, 16 - r + index));
            }
        }
    } else {
        let probe = Probe { start: capacity % 16, capacity };
        assert(!probe.comes_to(0)) by {
            assert forall|step: nat, lane: int| #[trigger] probe.has_lane(step, lane) implies !(
            probe.pos(step) + lane == 0 || probe.pos(step) + lane == capacity) by {
                probe.lemma_residue(step);
                probe.lemma_pos_in_space(step);
            }
        }
    }
}

impl ControlBytes {
    /// Where some window of a hash holds an `EMPTY` byte, there is a first one.
    pub proof fn lemma_first_empty_exists(self, probe: Probe, step: nat)
        requires
            probe.visits(step),
            self.window_has_empty(probe.pos(step)),
        ensures
            self.first_free(probe) is Some,
        decreases step,
    {
        if self.reaches(probe, step) {
            let pos = probe.pos(step);
            let lane = choose|lane: int| 0 <= lane < 16 && #[trigger] self.lane(pos, lane) == EMPTY;
            let least = self.lemma_least_lane(pos, lane);
            assert(self.first_empty(probe, step, least));
        } else {
            let earlier = choose|earlier: nat|
                earlier < step && #[trigger] probe.visits(earlier) && self.window_has_empty(
                    probe.pos(earlier),
                );
            self.lemma_first_empty_exists(probe, earlier);
        }
    }

    proof fn lemma_least_lane(self, pos: int, lane: int) -> (least: int)
        requires
            0 <= lane < 16,
            self.lane(pos, lane) == EMPTY,
        ensures
            0 <= least < 16,
            self.lane(pos, least) == EMPTY,
            forall|before: int| 0 <= before < least ==> #[trigger] self.lane(pos, before) != EMPTY,
        decreases lane,
    {
        if forall|before: int| 0 <= before < lane ==> #[trigger] self.lane(pos, before) != EMPTY {
            lane
        } else {
            let before = choose|before: int|
                0 <= before < lane && #[trigger] self.lane(pos, before) == EMPTY;
            self.lemma_least_lane(pos, before)
        }
    }

    /// Where probing comes to a free bucket, it finds one. So a lookup in such a table
    /// comes to an end at an `EMPTY` byte.
    pub proof fn law_free_bucket_is_found(self, probe: Probe, index: int)
        requires
            self.wf(),
            self.wrapped(),
            probe.wf(),
            probe.capacity == self.capacity,
            0 <= index < self.capacity,
            probe.comes_to(index),
            self.bytes[index] == EMPTY,
        ensures
            self.first_free(probe) is Some,
            !self.no_empty(probe),
    {
        let c = self.capacity;
        let (step, lane) = choose|step: nat, lane: int|
            {
                &&& #[trigger] probe.has_lane(step, lane)
                &&& probe.pos(step) + lane == index || probe.pos(step) + lane == c + index
            };
        probe.lemma_pos_in_space(step);
        let pos = probe.pos(step);
        if pos + lane == c + index {
            vstd::arithmetic::div_mod::lemma_mod_add_multiples_vanish(index, c);
            vstd::arithmetic::div_mod::lemma_small_mod(index as nat, c as nat);
            assert(self.bytes[pos + lane] == self.bytes[(pos + lane) % c]);
        }
        assert(self.lane(pos, lane) == EMPTY);
        assert(self.window_has_empty(pos));
        self.lemma_first_empty_exists(probe, step);
    }
}

impl Placement {
    /// All entries can be placed where probing comes to every bucket and there are
    /// buckets for them, and in any table that has 15 buckets to spare.
    pub proof fn law_placement_exists(capacity: int, hashes: Seq<u64>)
        requires
            0 < capacity,
            hashes.len() + 15 <= capacity || (covers(capacity) && hashes.len() <= capacity),
        ensures
            Placement::of(capacity, hashes) is Some,
        decreases hashes.len(),
    {
        if hashes.len() > 0 {
            let fewer = hashes.drop_last();
            Placement::law_placement_exists(capacity, fewer);
            Placement::law_placement_is_sound(capacity, fewer);
            let before = Placement::of(capacity, fewer)->Some_0;
            let probe = Probe::of(hashes.last(), capacity);
            vstd::arithmetic::div_mod::lemma_mod_bound(
                (hashes.last() as usize) as int,
                capacity,
            );
            let from = if hashes.len() + 15 <= capacity {
                probe.start % 16
            } else {
                0
            };
            before.lemma_has_free(capacity, fewer, from);
            let index = choose|i: int|
                from <= i < capacity && #[trigger] before.controls.bytes[i] == EMPTY
                    && !before.slots.contains(i);
            if hashes.len() + 15 <= capacity {
                probe.law_comes_to(index);
            } else {
                assert((Probe { start: probe.start, capacity }).comes_to(index));
                assert(probe == Probe { start: probe.start, capacity });
            }
            before.controls.law_free_bucket_is_found(probe, index);
        }
    }
}

} // verus!
