//! Reading a window in groups of one width or another.
//!
//! A window of 16 control bytes is read in groups, as wide as the machine can match at
//! once. What a lookup finds, and where an entry is placed, does not depend on that
//! width: every window is read as a whole before probing moves on.

use vstd::prelude::*;

use crate::controls::ControlBytes;
use crate::controls::TableView;
use crate::group::EMPTY;
use crate::probe::Probe;

verus! {

/// Whether a window can be read in groups of `width`.
pub open spec fn divides_window(width: int) -> bool {
    &&& 0 < width <= 16
    &&& 16int % width == 0
}

/// A lane of a window, as a lane of a group.
proof fn lemma_split_lane(width: int, lane: int)
    requires
        divides_window(width),
        0 <= lane < 16,
    ensures
        lane == (lane / width) * width + lane % width,
        0 <= lane / width < 16int / width,
        0 <= lane % width < width,
{
    vstd::arithmetic::div_mod::lemma_fundamental_div_mod(16, width);
    vstd::arithmetic::div_mod::lemma_fundamental_div_mod(lane, width);
    vstd::arithmetic::div_mod::lemma_mod_bound(lane, width);
    let (n, group, bit) = (16int / width, lane / width, lane % width);
    assert(0 <= group < n && width * group == group * width) by (nonlinear_arith)
        requires
            16 == width * n,
            lane == width * group + bit,
            0 <= bit < width,
            0 <= lane < 16,
    ;
}

/// A lane of a group, as a lane of the window.
proof fn lemma_join_lane(width: int, group: int, bit: int)
    requires
        divides_window(width),
        0 <= group < 16int / width,
        0 <= bit < width,
    ensures
        0 <= group * width + bit < 16,
        (group * width + bit) / width == group,
        (group * width + bit) % width == bit,
{
    vstd::arithmetic::div_mod::lemma_fundamental_div_mod(16, width);
    let n = 16int / width;
    assert(0 <= group * width + bit < 16) by (nonlinear_arith)
        requires
            16 == width * n,
            0 <= group < n,
            0 <= bit < width,
    ;
    vstd::arithmetic::div_mod::lemma_fundamental_div_mod_converse(
        group * width + bit,
        width,
        group,
        bit,
    );
}

/// Lanes come in the same order in the window and in its groups.
proof fn lemma_lane_order(width: int, group: int, bit: int, other_group: int, other_bit: int)
    requires
        0 <= bit < width,
        0 <= other_bit < width,
    ensures
        group * width + bit < other_group * width + other_bit <==> group < other_group || (group
            == other_group && bit < other_bit),
{
    if group < other_group {
        assert(group * width + bit < other_group * width + other_bit) by (nonlinear_arith)
            requires
                group < other_group,
                0 <= bit < width,
                0 <= other_bit,
        ;
    } else if other_group < group {
        assert(other_group * width + other_bit < group * width + bit) by (nonlinear_arith)
            requires
                other_group < group,
                0 <= other_bit < width,
                0 <= bit,
        ;
    }
}

impl ControlBytes {
    /// The byte in a lane of a group of the window at `pos`.
    pub open spec fn group_lane(self, pos: int, width: int, group: int, bit: int) -> u8 {
        self.bytes[pos + group * width + bit]
    }

    /// Whether a group of the window at `pos` holds an `EMPTY` byte.
    pub open spec fn group_has_empty(self, pos: int, width: int, group: int) -> bool {
        exists|bit: int|
            0 <= bit < width && #[trigger] self.group_lane(pos, width, group, bit) == EMPTY
    }

    /// Whether any group of the window at `pos` holds an `EMPTY` byte.
    pub open spec fn any_group_has_empty(self, pos: int, width: int) -> bool {
        exists|group: int|
            0 <= group < 16int / width && #[trigger] self.group_has_empty(pos, width, group)
    }

    /// Whether probing in groups comes as far as `step`.
    pub open spec fn reaches_in_groups(self, probe: Probe, width: int, step: nat) -> bool {
        forall|earlier: nat|
            earlier < step && #[trigger] probe.visits(earlier) ==> !self.any_group_has_empty(
                probe.pos(earlier),
                width,
            )
    }

    /// The bucket of a lane of a group of the window at `step`.
    pub open spec fn index_in_group(
        self,
        probe: Probe,
        width: int,
        step: nat,
        group: int,
        bit: int,
    ) -> int {
        (probe.pos(step) + group * width + bit) % self.capacity
    }

    /// Whether probing for `tag` in groups comes to look at the bucket of a lane.
    pub open spec fn candidate_in_group(
        self,
        probe: Probe,
        tag: u8,
        width: int,
        step: nat,
        group: int,
        bit: int,
    ) -> bool {
        &&& probe.visits(step)
        &&& self.reaches_in_groups(probe, width, step)
        &&& 0 <= group < 16int / width
        &&& 0 <= bit < width
        &&& self.group_lane(probe.pos(step), width, group, bit) == tag
    }

    /// Whether the first `EMPTY` byte that probing in groups meets is in this lane.
    pub open spec fn first_empty_in_group(
        self,
        probe: Probe,
        width: int,
        step: nat,
        group: int,
        bit: int,
    ) -> bool {
        let pos = probe.pos(step);
        &&& probe.visits(step)
        &&& self.reaches_in_groups(probe, width, step)
        &&& 0 <= group < 16int / width
        &&& 0 <= bit < width
        &&& self.group_lane(pos, width, group, bit) == EMPTY
        &&& forall|g: int| 0 <= g < group ==> !#[trigger] self.group_has_empty(pos, width, g)
        &&& forall|b: int|
            0 <= b < bit ==> #[trigger] self.group_lane(pos, width, group, b) != EMPTY
    }

    /// The bucket of the first `EMPTY` byte that probing in groups meets.
    pub open spec fn first_free_in_groups(self, probe: Probe, width: int) -> Option<int> {
        if exists|step: nat, group: int, bit: int| #[trigger]
            self.first_empty_in_group(probe, width, step, group, bit) {
            let (step, group, bit) = choose|step: nat, group: int, bit: int| #[trigger]
                self.first_empty_in_group(probe, width, step, group, bit);
            Some(self.index_in_group(probe, width, step, group, bit))
        } else {
            None
        }
    }

    /// The groups of a window cover just its lanes: they hold an `EMPTY` byte if the
    /// window does, whatever their width.
    pub proof fn law_groups_cover_window(self, pos: int, width: int)
        requires
            divides_window(width),
        ensures
            self.any_group_has_empty(pos, width) == self.window_has_empty(pos),
    {
        if self.any_group_has_empty(pos, width) {
            let group = choose|group: int|
                0 <= group < 16int / width && #[trigger] self.group_has_empty(pos, width, group);
            let bit = choose|bit: int|
                0 <= bit < width && #[trigger] self.group_lane(pos, width, group, bit) == EMPTY;
            lemma_join_lane(width, group, bit);
            assert(self.lane(pos, group * width + bit) == EMPTY);
        }
        if self.window_has_empty(pos) {
            let lane = choose|lane: int| 0 <= lane < 16 && #[trigger] self.lane(pos, lane) == EMPTY;
            lemma_split_lane(width, lane);
            assert(self.group_lane(pos, width, lane / width, lane % width) == EMPTY);
            assert(self.group_has_empty(pos, width, lane / width));
        }
    }

    /// Probing in groups comes as far as probing in whole windows.
    proof fn lemma_reaches_in_groups(self, probe: Probe, width: int, step: nat)
        requires
            divides_window(width),
        ensures
            self.reaches_in_groups(probe, width, step) == self.reaches(probe, step),
    {
        assert forall|earlier: nat| #[trigger] probe.visits(earlier) implies
            self.any_group_has_empty(probe.pos(earlier), width) == self.window_has_empty(
            probe.pos(earlier),
        ) by {
            self.law_groups_cover_window(probe.pos(earlier), width);
        }
    }

    /// A lookup in groups looks at the same buckets as one in whole windows.
    proof fn lemma_candidate_in_group(
        self,
        probe: Probe,
        tag: u8,
        width: int,
        step: nat,
        group: int,
        bit: int,
    )
        requires
            divides_window(width),
            0 <= group < 16int / width,
            0 <= bit < width,
        ensures
            self.candidate_in_group(probe, tag, width, step, group, bit) == self.candidate(
                probe,
                tag,
                step,
                group * width + bit,
            ),
            self.index_in_group(probe, width, step, group, bit) == self.index(
                probe,
                step,
                group * width + bit,
            ),
    {
        self.lemma_reaches_in_groups(probe, width, step);
        lemma_join_lane(width, group, bit);
        assert(probe.pos(step) + group * width + bit == probe.pos(step) + (group * width + bit));
    }

    /// The first `EMPTY` byte is the same in groups and in the whole window.
    proof fn lemma_first_empty_in_group(
        self,
        probe: Probe,
        width: int,
        step: nat,
        group: int,
        bit: int,
    )
        requires
            divides_window(width),
            0 <= group < 16int / width,
            0 <= bit < width,
        ensures
            self.first_empty_in_group(probe, width, step, group, bit) == self.first_empty(
                probe,
                step,
                group * width + bit,
            ),
    {
        let pos = probe.pos(step);
        let lane = group * width + bit;
        self.lemma_reaches_in_groups(probe, width, step);
        lemma_join_lane(width, group, bit);
        if self.first_empty_in_group(probe, width, step, group, bit) {
            assert forall|before: int| 0 <= before < lane implies #[trigger] self.lane(pos, before)
                != EMPTY by {
                lemma_split_lane(width, before);
                let (g, b) = (before / width, before % width);
                lemma_lane_order(width, g, b, group, bit);
                assert(self.group_lane(pos, width, g, b) == self.lane(pos, before));
                if g < group {
                    assert(!self.group_has_empty(pos, width, g));
                }
            }
        }
        if self.first_empty(probe, step, lane) {
            assert forall|g: int| 0 <= g < group implies !#[trigger] self.group_has_empty(
                pos,
                width,
                g,
            ) by {
                assert forall|b: int| 0 <= b < width implies #[trigger] self.group_lane(
                    pos,
                    width,
                    g,
                    b,
                ) != EMPTY by {
                    lemma_join_lane(width, g, b);
                    lemma_lane_order(width, g, b, group, bit);
                    assert(self.lane(pos, g * width + b) != EMPTY);
                }
            }
            assert forall|b: int| 0 <= b < bit implies #[trigger] self.group_lane(
                pos,
                width,
                group,
                b,
            ) != EMPTY by {
                lemma_join_lane(width, group, b);
                lemma_lane_order(width, group, b, group, bit);
                assert(self.lane(pos, group * width + b) != EMPTY);
            }
        }
    }

    /// The bucket for a new entry does not depend on the width of the groups in which
    /// windows are read.
    pub proof fn law_placing_in_groups(self, probe: Probe, width: int)
        requires
            divides_window(width),
        ensures
            self.first_free_in_groups(probe, width) == self.first_free(probe),
    {
        if exists|step: nat, group: int, bit: int| #[trigger]
            self.first_empty_in_group(probe, width, step, group, bit) {
            let (step, group, bit) = choose|step: nat, group: int, bit: int| #[trigger]
                self.first_empty_in_group(probe, width, step, group, bit);
            self.lemma_first_empty_in_group(probe, width, step, group, bit);
            let lane = group * width + bit;
            assert(self.first_empty(probe, step, lane));
            let (s, l) = choose|s: nat, l: int| #[trigger] self.first_empty(probe, s, l);
            self.lemma_first_empty_unique(probe, step, lane, s, l);
            assert(probe.pos(step) + group * width + bit == probe.pos(step) + lane);
        } else {
            assert forall|step: nat, lane: int| !#[trigger] self.first_empty(probe, step, lane) by {
                if self.first_empty(probe, step, lane) {
                    lemma_split_lane(width, lane);
                    self.lemma_first_empty_in_group(
                        probe,
                        width,
                        step,
                        lane / width,
                        lane % width,
                    );
                    assert(self.first_empty_in_group(
                        probe,
                        width,
                        step,
                        lane / width,
                        lane % width,
                    ));
                }
            }
        }
    }
}

impl<T> TableView<T> {
    /// Whether `accepts` turns down every entry that probing in groups comes to look at
    /// before it comes to `bit` of `group` of the window at `step`.
    pub open spec fn rejected_before_in_groups<C: Fn(&T) -> bool>(
        self,
        probe: Probe,
        tag: u8,
        accepts: C,
        width: int,
        step: nat,
        group: int,
        bit: int,
    ) -> bool {
        forall|s: nat, g: int, b: int| #[trigger]
            self.controls.candidate_in_group(probe, tag, width, s, g, b) && (s < step || (s == step
                && (g < group || (g == group && b < bit)))) ==> call_ensures(
                accepts,
                (&self.entries[self.controls.index_in_group(probe, width, s, g, b)],),
                false,
            )
    }

    /// Whether bucket `index` is the first that a lookup in groups of `width` comes to
    /// look at and whose entry `accepts` accepts.
    pub open spec fn finds_in_groups<C: Fn(&T) -> bool>(
        self,
        width: int,
        hash: u64,
        accepts: C,
        index: int,
    ) -> bool {
        let probe = Probe::of(hash, self.controls.capacity);
        let tag = crate::probe::spec_h2(hash);
        exists|step: nat, group: int, bit: int|
            {
                &&& #[trigger] self.controls.candidate_in_group(
                    probe,
                    tag,
                    width,
                    step,
                    group,
                    bit,
                )
                &&& index == self.controls.index_in_group(probe, width, step, group, bit)
                &&& call_ensures(accepts, (&self.entries[index],), true)
                &&& self.rejected_before_in_groups(probe, tag, accepts, width, step, group, bit)
            }
    }

    /// Whether `accepts` turns down every entry that a lookup in groups of `width` comes
    /// to look at.
    pub open spec fn misses_in_groups<C: Fn(&T) -> bool>(
        self,
        width: int,
        hash: u64,
        accepts: C,
    ) -> bool {
        let probe = Probe::of(hash, self.controls.capacity);
        let tag = crate::probe::spec_h2(hash);
        forall|s: nat, g: int, b: int| #[trigger]
            self.controls.candidate_in_group(probe, tag, width, s, g, b) ==> call_ensures(
                accepts,
                (&self.entries[self.controls.index_in_group(probe, width, s, g, b)],),
                false,
            )
    }

    proof fn lemma_rejected_before_in_groups<C: Fn(&T) -> bool>(
        self,
        probe: Probe,
        tag: u8,
        accepts: C,
        width: int,
        step: nat,
        group: int,
        bit: int,
    )
        requires
            divides_window(width),
            0 <= bit < width,
        ensures
            self.rejected_before_in_groups(probe, tag, accepts, width, step, group, bit)
                == self.rejected_before(probe, tag, accepts, step, group * width + bit),
    {
        let lane = group * width + bit;
        if self.rejected_before_in_groups(probe, tag, accepts, width, step, group, bit) {
            assert forall|s: nat, l: int| #[trigger]
                self.controls.candidate(probe, tag, s, l) && (s < step || (s == step && l
                    < lane)) implies call_ensures(
                accepts,
                (&self.entries[self.controls.index(probe, s, l)],),
                false,
            ) by {
                lemma_split_lane(width, l);
                let (g, b) = (l / width, l % width);
                self.controls.lemma_candidate_in_group(probe, tag, width, s, g, b);
                lemma_lane_order(width, g, b, group, bit);
                assert(self.controls.candidate_in_group(probe, tag, width, s, g, b));
            }
        }
        if self.rejected_before(probe, tag, accepts, step, lane) {
            assert forall|s: nat, g: int, b: int| #[trigger]
                self.controls.candidate_in_group(probe, tag, width, s, g, b) && (s < step || (s
                    == step && (g < group || (g == group && b < bit)))) implies call_ensures(
                accepts,
                (&self.entries[self.controls.index_in_group(probe, width, s, g, b)],),
                false,
            ) by {
                self.controls.lemma_candidate_in_group(probe, tag, width, s, g, b);
                lemma_lane_order(width, g, b, group, bit);
                assert(self.controls.candidate(probe, tag, s, g * width + b));
            }
        }
    }

    /// What a lookup leads to does not depend on the width of the groups in which windows
    /// are read.
    pub proof fn law_lookup_in_groups<C: Fn(&T) -> bool>(
        self,
        width: int,
        hash: u64,
        accepts: C,
        index: int,
    )
        requires
            divides_window(width),
        ensures
            self.finds_in_groups(width, hash, accepts, index) == self.finds(hash, accepts, index),
            self.misses_in_groups(width, hash, accepts) == self.misses(hash, accepts),
    {
        let probe = Probe::of(hash, self.controls.capacity);
        let tag = crate::probe::spec_h2(hash);
        if self.finds_in_groups(width, hash, accepts, index) {
            let (step, group, bit) = choose|step: nat, group: int, bit: int|
                {
                    &&& #[trigger] self.controls.candidate_in_group(
                        probe,
                        tag,
                        width,
                        step,
                        group,
                        bit,
                    )
                    &&& index == self.controls.index_in_group(probe, width, step, group, bit)
                    &&& call_ensures(accepts, (&self.entries[index],), true)
                    &&& self.rejected_before_in_groups(
                        probe,
                        tag,
                        accepts,
                        width,
                        step,
                        group,
                        bit,
                    )
                };
            self.controls.lemma_candidate_in_group(probe, tag, width, step, group, bit);
            self.lemma_rejected_before_in_groups(probe, tag, accepts, width, step, group, bit);
            assert(self.controls.candidate(probe, tag, step, group * width + bit));
        }
        if self.finds(hash, accepts, index) {
            let (step, lane) = choose|step: nat, lane: int|
                {
                    &&& #[trigger] self.controls.candidate(probe, tag, step, lane)
                    &&& index == self.controls.index(probe, step, lane)
                    &&& call_ensures(accepts, (&self.entries[index],), true)
                    &&& self.rejected_before(probe, tag, accepts, step, lane)
                };
            lemma_split_lane(width, lane);
            let (group, bit) = (lane / width, lane % width);
            self.controls.lemma_candidate_in_group(probe, tag, width, step, group, bit);
            self.lemma_rejected_before_in_groups(probe, tag, accepts, width, step, group, bit);
            assert(self.controls.candidate_in_group(probe, tag, width, step, group, bit));
        }
        if self.misses_in_groups(width, hash, accepts) {
            assert forall|s: nat, l: int| #[trigger]
                self.controls.candidate(probe, tag, s, l) implies call_ensures(
                accepts,
                (&self.entries[self.controls.index(probe, s, l)],),
                false,
            ) by {
                lemma_split_lane(width, l);
                let (g, b) = (l / width, l % width);
                self.controls.lemma_candidate_in_group(probe, tag, width, s, g, b);
                assert(self.controls.candidate_in_group(probe, tag, width, s, g, b));
            }
        }
        if self.misses(hash, accepts) {
            assert forall|s: nat, g: int, b: int| #[trigger]
                self.controls.candidate_in_group(probe, tag, width, s, g, b) implies call_ensures(
                accepts,
                (&self.entries[self.controls.index_in_group(probe, width, s, g, b)],),
                false,
            ) by {
                self.controls.lemma_candidate_in_group(probe, tag, width, s, g, b);
                assert(self.controls.candidate(probe, tag, s, g * width + b));
            }
        }
    }

    /// Two machines that read windows in groups of different widths look up the same.
    pub proof fn law_widths_agree<C: Fn(&T) -> bool>(
        self,
        width: int,
        other_width: int,
        hash: u64,
        accepts: C,
        index: int,
    )
        requires
            divides_window(width),
            divides_window(other_width),
        ensures
            self.finds_in_groups(width, hash, accepts, index) == self.finds_in_groups(
                other_width,
                hash,
                accepts,
                index,
            ),
            self.misses_in_groups(width, hash, accepts) == self.misses_in_groups(
                other_width,
                hash,
                accepts,
            ),
    {
        self.law_lookup_in_groups(width, hash, accepts, index);
        self.law_lookup_in_groups(other_width, hash, accepts, index);
    }
}

} // verus!
