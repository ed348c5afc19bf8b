//! What holds of tables as a whole.

use vstd::prelude::*;

use crate::controls::ControlBytes;
use crate::controls::Placement;
use crate::controls::TableView;
use crate::group::EMPTY;
use crate::probe::Probe;

verus! {

impl ControlBytes {
    /// Every byte after the first `capacity` repeats one of the first, as long as
    /// there is one that it could repeat; the others are `EMPTY`.
    pub open spec fn consistent(self) -> bool {
        &&& self.wf()
        &&& self.wrapped()
        &&& forall|i: int|
            2 * self.capacity <= i < self.bytes.len() ==> #[trigger] self.bytes[i] == EMPTY
    }

    /// Whether `later` has the same bytes but where these are `EMPTY`.
    pub open spec fn filled_to(self, later: ControlBytes) -> bool {
        &&& later.capacity == self.capacity
        &&& later.bytes.len() == self.bytes.len()
        &&& forall|i: int|
            0 <= i < self.bytes.len() && self.bytes[i] != EMPTY ==> #[trigger] later.bytes[i]
                == self.bytes[i]
    }

    /// While a bucket is free, the first free bucket is the bucket of an `EMPTY`
    /// byte, and it is free itself.
    pub proof fn lemma_first_empty(self, probe: Probe, step: nat, lane: int)
        requires
            self.consistent(),
            probe.wf(),
            probe.capacity == self.capacity,
            exists|i: int| 0 <= i < self.capacity && #[trigger] self.bytes[i] == EMPTY,
            self.first_empty(probe, step, lane),
        ensures
            0 <= self.index(probe, step, lane) < self.capacity,
            self.bytes[self.index(probe, step, lane)] == EMPTY,
            probe.pos(step) + lane == self.index(probe, step, lane) || probe.pos(step) + lane
                == self.capacity + self.index(probe, step, lane),
    {
        probe.lemma_pos_in_space(step);
        let pos = probe.pos(step);
        let c = self.capacity;
        if pos + lane >= 2 * c {
            let i = choose|i: int| 0 <= i < c && #[trigger] self.bytes[i] == EMPTY;
            let l = if i >= pos {
                i - pos
            } else {
                i + c - pos
            };
            assert(0 <= l < c <= lane);
            assert(self.lane(pos, l) != EMPTY);
            if i < pos {
                assert((i + c) % c == i) by {
                    vstd::arithmetic::div_mod::lemma_mod_add_multiples_vanish(i, c);
                    vstd::arithmetic::div_mod::lemma_small_mod(i as nat, c as nat);
                }
                assert(self.bytes[i + c] == self.bytes[i]);
            }
            assert(false);
        }
        if pos + lane < c {
            vstd::arithmetic::div_mod::lemma_small_mod((pos + lane) as nat, c as nat);
        } else {
            let i = pos + lane - c;
            vstd::arithmetic::div_mod::lemma_mod_add_multiples_vanish(i, c);
            vstd::arithmetic::div_mod::lemma_small_mod(i as nat, c as nat);
            assert(self.bytes[pos + lane] == self.bytes[(pos + lane) % c]);
        }
        assert(self.lane(pos, lane) == EMPTY);
    }

    /// What probing comes to look at, it still comes to look at after more buckets
    /// are filled.
    pub proof fn lemma_candidate_stays(
        self,
        later: ControlBytes,
        probe: Probe,
        tag: u8,
        step: nat,
        lane: int,
    )
        requires
            self.wf(),
            self.filled_to(later),
            probe.wf(),
            probe.capacity == self.capacity,
            tag != EMPTY,
            self.candidate(probe, tag, step, lane),
        ensures
            later.candidate(probe, tag, step, lane),
            later.index(probe, step, lane) == self.index(probe, step, lane),
    {
        self.lemma_reaches_stays(later, probe, step);
        probe.lemma_pos_in_space(step);
        assert(later.bytes[probe.pos(step) + lane] == self.bytes[probe.pos(step) + lane]);
    }

    proof fn lemma_reaches_stays(self, later: ControlBytes, probe: Probe, step: nat)
        requires
            self.wf(),
            self.filled_to(later),
            probe.wf(),
            probe.capacity == self.capacity,
            self.reaches(probe, step),
        ensures
            later.reaches(probe, step),
    {
        assert forall|earlier: nat|
            earlier < step && #[trigger] probe.visits(earlier) implies !later.window_has_empty(
            probe.pos(earlier),
        ) by {
            let pos = probe.pos(earlier);
            probe.lemma_pos_in_space(earlier);
            assert forall|lane: int| 0 <= lane < 16 implies #[trigger] later.lane(pos, lane)
                != EMPTY by {
                assert(self.lane(pos, lane) != EMPTY);
                assert(later.bytes[pos + lane] == self.bytes[pos + lane]);
            }
        }
    }

    /// Filling a free bucket keeps the control bytes consistent, and changes no
    /// other byte of a bucket.
    pub proof fn lemma_with(self, index: int, tag: u8)
        requires
            self.consistent(),
            0 <= index < self.capacity,
            self.bytes[index] == EMPTY,
        ensures
            self.with(index, tag).consistent(),
            self.with(index, tag).capacity == self.capacity,
            self.filled_to(self.with(index, tag)),
            self.with(index, tag).bytes[index] == tag,
            index < 15 ==> self.with(index, tag).bytes[self.capacity + index] == tag,
            forall|i: int|
                0 <= i < self.capacity && i != index ==> #[trigger] self.with(
                    index,
                    tag,
                ).bytes[i] == self.bytes[i],
    {
        let later = self.with(index, tag);
        let c = self.capacity;
        if index < 15 {
            vstd::arithmetic::div_mod::lemma_mod_add_multiples_vanish(index, c);
            vstd::arithmetic::div_mod::lemma_small_mod(index as nat, c as nat);
            assert(self.bytes[c + index] == self.bytes[(c + index) % c]);
        }
        assert forall|i: int|
            c <= i < later.bytes.len() && i < 2 * c implies #[trigger] later.bytes[i]
            == later.bytes[i % c] by {
            let j = i - c;
            vstd::arithmetic::div_mod::lemma_mod_add_multiples_vanish(j, c);
            vstd::arithmetic::div_mod::lemma_small_mod(j as nat, c as nat);
            assert(i % c == j);
            assert(self.bytes[i] == self.bytes[i % c]);
        }
    }
}

impl Placement {
    /// What a placement comes to: the control bytes are consistent, every entry has
    /// a bucket of its own, which holds the tag of its hash, and all other buckets
    /// are free.
    pub open spec fn sound(self, capacity: int, hashes: Seq<u64>) -> bool {
        &&& self.controls.consistent()
        &&& self.controls.capacity == capacity
        &&& self.slots.len() == hashes.len()
        &&& self.slots.no_duplicates()
        &&& forall|k: int|
            0 <= k < self.slots.len() ==> 0 <= #[trigger] self.slots[k] < capacity
                && self.controls.bytes[self.slots[k]] == crate::probe::spec_h2(hashes[k])
        &&& forall|i: int|
            0 <= i < capacity && !self.slots.contains(i) ==> #[trigger] self.controls.bytes[i]
                == EMPTY
    }

    /// A table that holds fewer entries than it has buckets from `from` on has a free
    /// bucket there.
    pub proof fn lemma_has_free(self, capacity: int, hashes: Seq<u64>, from: int)
        requires
            self.sound(capacity, hashes),
            0 <= from,
            hashes.len() < capacity - from,
        ensures
            exists|i: int|
                from <= i < capacity && #[trigger] self.controls.bytes[i] == EMPTY
                    && !self.slots.contains(i),
    {
        self.slots.unique_seq_to_set();
        vstd::set_lib::lemma_int_range(from, capacity);
        if forall|i: int| from <= i < capacity ==> self.slots.contains(i) {
            assert(vstd::set_lib::set_int_range(from, capacity).subset_of(self.slots.to_set()));
            vstd::seq_lib::seq_to_set_is_finite(self.slots);
            vstd::set_lib::lemma_len_subset(
                vstd::set_lib::set_int_range(from, capacity),
                self.slots.to_set(),
            );
            assert(false);
        }
        let i = choose|i: int| from <= i < capacity && !self.slots.contains(i);
        assert(self.controls.bytes[i] == EMPTY);
    }

    /// Placing one more entry.
    pub proof fn lemma_place_one(capacity: int, hashes: Seq<u64>)
        requires
            0 < hashes.len() <= capacity,
            Placement::of(capacity, hashes) is Some,
            Placement::of(capacity, hashes.drop_last()) is Some,
            Placement::of(capacity, hashes.drop_last())->Some_0.sound(capacity, hashes.drop_last()),
        ensures
            ({
                let before = Placement::of(capacity, hashes.drop_last())->Some_0;
                let after = Placement::of(capacity, hashes)->Some_0;
                let probe = Probe::of(hashes.last(), capacity);
                let index = after.slots.last();
                &&& after.sound(capacity, hashes)
                &&& before.controls.filled_to(after.controls)
                &&& after.slots.drop_last() == before.slots
                &&& exists|step: nat, lane: int|
                    {
                        &&& #[trigger] before.controls.first_empty(probe, step, lane)
                        &&& before.controls.index(probe, step, lane) == index
                        &&& probe.pos(step) + lane == index || probe.pos(step) + lane == capacity
                            + index
                        &&& 0 <= probe.pos(step)
                    }
            }),
    {
        let before = Placement::of(capacity, hashes.drop_last())->Some_0;
        let after = Placement::of(capacity, hashes)->Some_0;
        let probe = Probe::of(hashes.last(), capacity);
        let tag = crate::probe::spec_h2(hashes.last());
        assert(probe.wf()) by {
            vstd::arithmetic::div_mod::lemma_mod_bound(
                (hashes.last() as usize) as int,
                capacity,
            );
        }
        before.lemma_has_free(capacity, hashes.drop_last(), 0);
        let (step, lane) = choose|step: nat, lane: int| #[trigger]
            before.controls.first_empty(probe, step, lane);
        let index = before.controls.index(probe, step, lane);
        before.controls.lemma_first_empty(probe, step, lane);
        probe.lemma_pos_in_space(step);
        before.controls.lemma_with(index, tag);
        assert(after.slots == before.slots.push(index));
        assert(after.slots.drop_last() =~= before.slots);
        lemma_h2_full(hashes.last());
        assert(!before.slots.contains(index)) by {
            if before.slots.contains(index) {
                let k = choose|k: int| 0 <= k < before.slots.len() && before.slots[k] == index;
                lemma_h2_full(hashes.drop_last()[k]);
                assert(before.controls.bytes[before.slots[k]] != EMPTY);
            }
        }
        assert forall|k: int| 0 <= k < after.slots.len() implies 0 <= #[trigger] after.slots[k]
            < capacity && after.controls.bytes[after.slots[k]] == crate::probe::spec_h2(
            hashes[k],
        ) by {
            if k < before.slots.len() {
                assert(after.slots[k] == before.slots[k]);
                assert(before.slots.contains(before.slots[k]));
                assert(hashes.drop_last()[k] == hashes[k]);
            }
        }
        assert forall|i: int|
            0 <= i < capacity && !after.slots.contains(i) implies #[trigger] after.controls.bytes[i]
            == EMPTY by {
            assert(after.slots[after.slots.len() - 1] == index);
            if before.slots.contains(i) {
                let k = choose|k: int| 0 <= k < before.slots.len() && before.slots[k] == i;
                assert(after.slots[k] == i);
            }
        }
    }

    /// Entries are placed in buckets of their own, and nothing else is in the table.
    pub proof fn law_placement_is_sound(capacity: int, hashes: Seq<u64>)
        requires
            0 < capacity,
            hashes.len() <= capacity,
            Placement::of(capacity, hashes) is Some,
        ensures
            Placement::of(capacity, hashes)->Some_0.sound(capacity, hashes),
        decreases hashes.len(),
    {
        if hashes.len() > 0 {
            Placement::law_placement_is_sound(capacity, hashes.drop_last());
            Placement::lemma_place_one(capacity, hashes);
        }
    }
}

impl Placement {
    /// A lookup with the hash of a placed entry comes to look at the bucket of that
    /// entry.
    pub proof fn law_placed_is_reached(capacity: int, hashes: Seq<u64>, k: int) -> (at: (nat, int))
        requires
            0 < capacity,
            hashes.len() <= capacity,
            0 <= k < hashes.len(),
            Placement::of(capacity, hashes) is Some,
        ensures
            ({
                let placement = Placement::of(capacity, hashes)->Some_0;
                let probe = Probe::of(hashes[k], capacity);
                let tag = crate::probe::spec_h2(hashes[k]);
                &&& placement.controls.candidate(probe, tag, at.0, at.1)
                &&& placement.controls.index(probe, at.0, at.1) == placement.slots[k]
            }),
        decreases hashes.len(),
    {
        let before = Placement::of(capacity, hashes.drop_last())->Some_0;
        let after = Placement::of(capacity, hashes)->Some_0;
        let probe = Probe::of(hashes[k], capacity);
        let tag = crate::probe::spec_h2(hashes[k]);
        vstd::arithmetic::div_mod::lemma_mod_bound((hashes[k] as usize) as int, capacity);
        lemma_h2_full(hashes[k]);
        Placement::law_placement_is_sound(capacity, hashes.drop_last());
        Placement::lemma_place_one(capacity, hashes);
        if k < hashes.len() - 1 {
            assert(hashes.drop_last()[k] == hashes[k]);
            let (step, lane) = Placement::law_placed_is_reached(capacity, hashes.drop_last(), k);
            before.controls.lemma_candidate_stays(after.controls, probe, tag, step, lane);
            assert(after.slots.drop_last()[k] == after.slots[k]);
            (step, lane)
        } else {
            let index = after.slots.last();
            let (step, lane) = choose|step: nat, lane: int|
                {
                    &&& #[trigger] before.controls.first_empty(probe, step, lane)
                    &&& before.controls.index(probe, step, lane) == index
                    &&& probe.pos(step) + lane == index || probe.pos(step) + lane == capacity
                        + index
                    &&& 0 <= probe.pos(step)
                };
            before.controls.lemma_reaches_stays(after.controls, probe, step);
            let at = probe.pos(step) + lane;
            assert(after.controls.bytes[index] == tag);
            if at == capacity + index {
                vstd::arithmetic::div_mod::lemma_mod_add_multiples_vanish(index, capacity);
                vstd::arithmetic::div_mod::lemma_small_mod(index as nat, capacity as nat);
                assert(after.controls.bytes[at] == after.controls.bytes[at % capacity]);
            }
            assert(after.controls.lane(probe.pos(step), lane) == tag);
            (step, lane)
        }
    }
}

/// Whether a table holds just the entries with these hashes: `values[k]` is the
/// entry with hash `hashes[k]`.
pub open spec fn holds<T>(table: TableView<T>, hashes: Seq<u64>, values: Seq<T>) -> bool {
    let placement = Placement::of(table.controls.capacity, hashes);
    &&& 0 < table.controls.capacity
    &&& hashes.len() < table.controls.capacity
    &&& values.len() == hashes.len()
    &&& placement is Some
    &&& table.controls == placement->Some_0.controls
    &&& forall|k: int|
        0 <= k < values.len() ==> #[trigger] values[k]
            == table.entries[placement->Some_0.slots[k]]
}

/// What a lookup comes to look at is an entry that was placed, with the same tag.
proof fn lemma_candidate_was_placed<T>(
    table: TableView<T>,
    hashes: Seq<u64>,
    values: Seq<T>,
    probe: Probe,
    tag: u8,
    step: nat,
    lane: int,
) -> (k: int)
    requires
        holds(table, hashes, values),
        probe.wf(),
        probe.capacity == table.controls.capacity,
        crate::group::is_full(tag),
        table.controls.candidate(probe, tag, step, lane),
    ensures
        0 <= k < hashes.len(),
        crate::probe::spec_h2(hashes[k]) == tag,
        values[k] == table.entries[table.controls.index(probe, step, lane)],
        Placement::of(table.controls.capacity, hashes)->Some_0.slots[k] == table.controls.index(
            probe,
            step,
            lane,
        ),
{
    let c = table.controls.capacity;
    let placement = Placement::of(c, hashes)->Some_0;
    Placement::law_placement_is_sound(c, hashes);
    probe.lemma_pos_in_space(step);
    let at = probe.pos(step) + lane;
    let index = table.controls.index(probe, step, lane);
    assert(table.controls.bytes[at] == tag);
    vstd::arithmetic::div_mod::lemma_mod_bound(at, c);
    if at < c {
        vstd::arithmetic::div_mod::lemma_small_mod(at as nat, c as nat);
    } else {
        assert(at < 2 * c);
        assert(table.controls.bytes[at] == table.controls.bytes[at % c]);
    }
    assert(table.controls.bytes[index] == tag);
    assert(placement.slots.contains(index));
    let k = choose|k: int| 0 <= k < placement.slots.len() && placement.slots[k] == index;
    k
}

/// A lookup with the hash of an entry, and a comparison that accepts that entry,
/// finds an entry that the comparison accepts, and that has the same tag.
pub proof fn law_lookup_finds<T, C: Fn(&T) -> bool>(
    table: TableView<T>,
    hashes: Seq<u64>,
    values: Seq<T>,
    k: int,
    accepts: C,
    entry: Option<T>,
)
    requires
        holds(table, hashes, values),
        0 <= k < values.len(),
        !call_ensures(accepts, (&values[k],), false),
        table.gives(hashes[k], accepts, entry),
    ensures
        entry is Some,
        call_ensures(accepts, (&entry->Some_0,), true),
        exists|j: int|
            0 <= j < values.len() && entry == Some(#[trigger] values[j]) && crate::probe::spec_h2(
                hashes[j],
            ) == crate::probe::spec_h2(hashes[k]),
{
    let c = table.controls.capacity;
    let hash = hashes[k];
    let probe = Probe::of(hash, c);
    let tag = crate::probe::spec_h2(hash);
    vstd::arithmetic::div_mod::lemma_mod_bound((hash as usize) as int, c);
    lemma_h2_full(hash);
    let (step, lane) = Placement::law_placed_is_reached(c, hashes, k);
    assert(table.controls.candidate(probe, tag, step, lane));
    assert(values[k] == table.entries[table.controls.index(probe, step, lane)]);
    let index = choose|index: int|
        0 <= index < table.controls.capacity && #[trigger] table.finds(hash, accepts, index)
            && entry == Some(table.entries[index]);
    let (s, l) = choose|s: nat, l: int|
        {
            &&& #[trigger] table.controls.candidate(probe, tag, s, l)
            &&& index == table.controls.index(probe, s, l)
            &&& call_ensures(accepts, (&table.entries[index],), true)
            &&& table.rejected_before(probe, tag, accepts, s, l)
        };
    let j = lemma_candidate_was_placed(table, hashes, values, probe, tag, s, l);
    assert(entry == Some(values[j]));
}

/// A lookup with the hash of an entry, and a comparison that accepts that entry
/// and no other one in the table, gives that entry.
pub proof fn law_lookup_gives_the_entry<T, C: Fn(&T) -> bool>(
    table: TableView<T>,
    hashes: Seq<u64>,
    values: Seq<T>,
    k: int,
    accepts: C,
    entry: Option<T>,
)
    requires
        holds(table, hashes, values),
        0 <= k < values.len(),
        !call_ensures(accepts, (&values[k],), false),
        forall|j: int|
            0 <= j < values.len() && #[trigger] values[j] != values[k] ==> !call_ensures(
                accepts,
                (&values[j],),
                true,
            ),
        table.gives(hashes[k], accepts, entry),
    ensures
        entry == Some(values[k]),
{
    law_lookup_finds(table, hashes, values, k, accepts, entry);
}

/// A lookup gives nothing but an entry of the table that the comparison accepts.
pub proof fn law_lookup_gives_only_entries<T, C: Fn(&T) -> bool>(
    table: TableView<T>,
    hashes: Seq<u64>,
    values: Seq<T>,
    hash: u64,
    accepts: C,
    entry: T,
)
    requires
        holds(table, hashes, values),
        table.gives(hash, accepts, Some(entry)),
    ensures
        values.contains(entry),
        call_ensures(accepts, (&entry,), true),
{
    let c = table.controls.capacity;
    let probe = Probe::of(hash, c);
    let tag = crate::probe::spec_h2(hash);
    vstd::arithmetic::div_mod::lemma_mod_bound((hash as usize) as int, c);
    lemma_h2_full(hash);
    let index = choose|index: int|
        0 <= index < table.controls.capacity && #[trigger] table.finds(hash, accepts, index)
            && entry == table.entries[index];
    let (s, l) = choose|s: nat, l: int|
        {
            &&& #[trigger] table.controls.candidate(probe, tag, s, l)
            &&& index == table.controls.index(probe, s, l)
            &&& call_ensures(accepts, (&table.entries[index],), true)
            &&& table.rejected_before(probe, tag, accepts, s, l)
        };
    let j = lemma_candidate_was_placed(table, hashes, values, probe, tag, s, l);
    assert(values[j] == entry);
}

/// With a comparison that does not contradict itself, the same lookup always leads
/// to the same bucket, or never to any.
pub proof fn law_lookup_is_deterministic<T, C: Fn(&T) -> bool>(
    table: TableView<T>,
    hash: u64,
    accepts: C,
    index: int,
)
    requires
        forall|entry: &T|
            !(#[trigger] call_ensures(accepts, (entry,), true) && call_ensures(
                accepts,
                (entry,),
                false,
            )),
        table.finds(hash, accepts, index),
    ensures
        forall|other: int| #[trigger] table.finds(hash, accepts, other) ==> other == index,
        !table.misses(hash, accepts),
{
    let probe = Probe::of(hash, table.controls.capacity);
    let tag = crate::probe::spec_h2(hash);
    let (step, lane) = choose|step: nat, lane: int|
        {
            &&& #[trigger] table.controls.candidate(probe, tag, step, lane)
            &&& index == table.controls.index(probe, step, lane)
            &&& call_ensures(accepts, (&table.entries[index],), true)
            &&& table.rejected_before(probe, tag, accepts, step, lane)
        };
    assert forall|other: int| #[trigger] table.finds(hash, accepts, other) implies other == index by {
        let (s, l) = choose|s: nat, l: int|
            {
                &&& #[trigger] table.controls.candidate(probe, tag, s, l)
                &&& other == table.controls.index(probe, s, l)
                &&& call_ensures(accepts, (&table.entries[other],), true)
                &&& table.rejected_before(probe, tag, accepts, s, l)
            };
        if s < step || (s == step && l < lane) {
            assert(call_ensures(accepts, (&table.entries[other],), false));
        } else if step < s || (s == step && lane < l) {
            assert(call_ensures(accepts, (&table.entries[index],), false));
        }
    }
}

/// The tag of a hash marks a bucket as full.
pub proof fn lemma_h2_full(hash: u64)
    ensures
        crate::group::is_full(crate::probe::spec_h2(hash)),
        crate::probe::spec_h2(hash) != EMPTY,
{
    assert(hash / 0x200_0000_0000_0000 < 0x80) by (bit_vector);
}

} // verus!
