//! Hash parts, and the order in which a hash visits the buckets of a table.
//!
//! A table of `capacity` buckets is probed in windows of `MAX_GROUP_WIDTH`
//! neighbouring control bytes. The windows of a hash start at the position that
//! its first part gives. From there probing follows the triangular numbers, in
//! units of `MAX_GROUP_WIDTH` and modulo the least power of two that is not below
//! the capacity. Positions at or past the capacity are simply skipped.

use vstd::prelude::*;

use crate::group::GROUP_WIDTH;
use crate::group::MAX_GROUP_WIDTH;

verus! {

/// The part of a hash that chooses where probing starts.
pub fn h1(hash: u64) -> (part: usize)
    ensures
        part == hash as usize,
{
    #[verifier::truncate]
    (hash as usize)
}

/// The tag of a hash: its seven most significant bits.
pub open spec fn spec_h2(hash: u64) -> u8 {
    (hash / 0x200_0000_0000_0000) as u8
}

/// The part of a hash that is stored in the control byte of its bucket.
///
/// It never has its top bit set, so it marks the bucket as full.
pub fn h2(hash: u64) -> (part: u8)
    ensures
        part == spec_h2(hash),
        part < 0x80,
        part * 0x200_0000_0000_0000 <= hash < (part + 1) * 0x200_0000_0000_0000,
{
    assert(hash >> 57 == hash / 0x200_0000_0000_0000 && hash >> 57 < 0x80) by (bit_vector);
    (hash >> 57) as u8
}

/// The tag of a hash is its seven most significant bits: the hash lies between the tag
/// and its successor, each followed by 57 zero bits. It marks a bucket as full.
pub proof fn law_tag(hash: u64)
    ensures
        spec_h2(hash) * 0x200_0000_0000_0000 <= hash < (spec_h2(hash) + 1)
            * 0x200_0000_0000_0000,
        spec_h2(hash) < 0x80,
{
    assert(hash / 0x200_0000_0000_0000 < 0x80) by (bit_vector);
}

/// Two hashes have the same tag just if they agree on their seven most significant
/// bits, whatever the others are.
pub proof fn law_same_tag(hash: u64, other: u64)
    ensures
        spec_h2(hash) == spec_h2(other) <==> hash >> 57 == other >> 57,
{
    law_tag(hash);
    law_tag(other);
    assert(hash >> 57 == hash / 0x200_0000_0000_0000 && other >> 57 == other
        / 0x200_0000_0000_0000) by (bit_vector);
}

/// The least of `p`, `2 * p`, `4 * p`, ... that is not below `n`.
pub open spec fn next_doubling(p: nat, n: nat) -> nat
    decreases 2 * n - p,
{
    if p >= n || p == 0 {
        p
    } else {
        next_doubling(2 * p, n)
    }
}

/// The least power of two that is not below `n`.
pub open spec fn next_power_of_two(n: nat) -> nat {
    next_doubling(1, n)
}

proof fn lemma_next_doubling(k: nat, n: nat) -> (e: nat)
    requires
        k > 0 ==> vstd::arithmetic::power2::pow2((k - 1) as nat) < n,
    ensures
        e >= k,
        next_doubling(vstd::arithmetic::power2::pow2(k), n) == vstd::arithmetic::power2::pow2(e),
        vstd::arithmetic::power2::pow2(e) >= n,
        e > 0 ==> vstd::arithmetic::power2::pow2((e - 1) as nat) < n,
    decreases 2 * n - vstd::arithmetic::power2::pow2(k),
{
    let p = vstd::arithmetic::power2::pow2(k);
    vstd::arithmetic::power2::lemma_pow2_pos(k);
    if p >= n {
        k
    } else {
        vstd::arithmetic::power2::lemma_pow2_unfold(k + 1);
        lemma_next_doubling(k + 1, n)
    }
}

/// The value of `next_power_of_two` is a power of two, is not below `n`, and is
/// the least such.
pub proof fn law_next_power_of_two(n: nat) -> (e: nat)
    ensures
        next_power_of_two(n) == vstd::arithmetic::power2::pow2(e),
        next_power_of_two(n) >= n,
        forall|k: nat| #[trigger]
            vstd::arithmetic::power2::pow2(k) >= n ==> vstd::arithmetic::power2::pow2(k)
                >= next_power_of_two(n),
        n >= 1 ==> next_power_of_two(n) < 2 * n,
{
    assert(vstd::arithmetic::power2::pow2(0) == 1) by {
        vstd::arithmetic::power2::lemma2_to64();
    }
    let e = lemma_next_doubling(0, n);
    assert forall|k: nat| #[trigger] vstd::arithmetic::power2::pow2(k) >= n implies vstd::arithmetic::power2::pow2(k)
        >= next_power_of_two(n) by {
        if k < e {
            if k < e - 1 {
                vstd::arithmetic::power2::lemma_pow2_strictly_increases(k, (e - 1) as nat);
            }
        } else if k > e {
            vstd::arithmetic::power2::lemma_pow2_strictly_increases(e, k);
        }
    }
    if e > 0 {
        vstd::arithmetic::power2::lemma_pow2_unfold(e);
    }
    e
}

/// The least power of two that is not below `n`, where there is one.
pub fn checked_next_power_of_two(n: usize) -> (p: Option<usize>)
    ensures
        match p {
            Some(p) => p == next_power_of_two(n as nat),
            None => next_power_of_two(n as nat) > usize::MAX,
        },
{
    let mut p: usize = 1;
    while p < n
        invariant
            p >= 1,
            next_doubling(p as nat, n as nat) == next_power_of_two(n as nat),
        decreases 2 * n - p,
    {
        if p > usize::MAX / 2 {
            proof {
                law_next_power_of_two(n as nat);
                lemma_doubling_reaches(2 * p as nat, n as nat);
            }
            return None;
        }
        p = 2 * p;
    }
    Some(p)
}

proof fn lemma_doubling_reaches(p: nat, n: nat)
    requires
        p >= 1,
    ensures
        next_doubling(p, n) >= p,
    decreases 2 * n - p,
{
    if p < n {
        lemma_doubling_reaches(2 * p, n);
    }
}

/// Masking with one less than a power of two takes the remainder.
pub proof fn lemma_mask_is_remainder(x: usize, n: nat)
    requires
        next_power_of_two(n) <= usize::MAX,
    ensures
        x & ((next_power_of_two(n) - 1) as usize) == x as int % next_power_of_two(n) as int,
{
    let e = law_next_power_of_two(n);
    if e >= usize::BITS {
        vstd::arithmetic::power2::lemma2_to64();
        vstd::arithmetic::power2::lemma2_to64_rest();
        vstd::layout::unsigned_int_max_values();
        if e > usize::BITS {
            vstd::arithmetic::power2::lemma_pow2_strictly_increases(usize::BITS as nat, e);
        }
        assert(false);
    }
    vstd::bits::lemma_usize_low_bits_mask_is_mod(x, e);
    assert(vstd::bits::low_bits_mask(e) == next_power_of_two(n) - 1);
}

/// The order in which the windows of a hash are examined, in a table of
/// `capacity` buckets where its probing starts at `start`.
///
/// The order is given as a sequence of steps. Every step has a position; a step
/// whose position is below the capacity examines the window that starts there,
/// and any other step is skipped.
pub struct Probe {
    pub start: int,
    pub capacity: int,
}

impl Probe {
    /// The order for `hash` in a table of `capacity` buckets.
    pub open spec fn of(hash: u64, capacity: int) -> Probe {
        Probe { start: (hash as usize) as int % capacity, capacity }
    }

    pub open spec fn wf(self) -> bool {
        0 <= self.start < self.capacity
    }

    /// Positions are taken modulo this power of two.
    pub open spec fn space(self) -> int {
        next_power_of_two(self.capacity as nat) as int
    }

    /// The position at `step`: probing follows the triangular numbers, in units of
    /// `MAX_GROUP_WIDTH`.
    pub open spec fn pos(self, step: nat) -> int {
        (self.start + MAX_GROUP_WIDTH * crate::triangle::triangle(step)) % self.space()
    }

    /// Whether the window at the position of `step` is examined.
    pub open spec fn visits(self, step: nat) -> bool {
        self.pos(step) < self.capacity
    }

    /// The number of steps after which every position has come up.
    pub open spec fn bound(self) -> nat {
        if self.space() <= 16 {
            1
        } else {
            (self.space() / 16) as nat
        }
    }

    pub proof fn lemma_space(self)
        requires
            self.wf(),
        ensures
            self.capacity <= self.space() < 2 * self.capacity,
            self.space() % 16 == 0 || (16int % self.space() == 0 && self.space() <= 16),
    {
        self.lemma_windows();
    }

    /// The power of two is a number of windows, or divides a window.
    proof fn lemma_windows(self) -> (n: nat)
        requires
            self.wf(),
        ensures
            self.capacity <= self.space() < 2 * self.capacity,
            if self.space() <= 16 {
                16int % self.space() == 0
            } else {
                self.space() == 16 * vstd::arithmetic::power2::pow2(n)
            },
            self.space() > 16 ==> self.space() % 16 == 0,
    {
        let e = law_next_power_of_two(self.capacity as nat);
        vstd::arithmetic::power2::lemma2_to64();
        if e > 4 {
            let n = (e - 4) as nat;
            vstd::arithmetic::power2::lemma_pow2_adds(4, n);
            let q = vstd::arithmetic::power2::pow2(n) as int;
            vstd::arithmetic::power2::lemma_pow2_strictly_increases(4, e);
            assert(self.space() == 16 * q);
            n
        } else {
            assert(e == 0 || e == 1 || e == 2 || e == 3 || e == 4);
            assert(16int % 1 == 0 && 16int % 2 == 0 && 16int % 4 == 0 && 16int % 8 == 0 && 16int
                % 16 == 0);
            0
        }
    }

    pub proof fn lemma_pos_in_space(self, step: nat)
        requires
            self.wf(),
        ensures
            0 <= self.pos(step) < self.space(),
    {
        self.lemma_space();
        vstd::arithmetic::div_mod::lemma_mod_bound(
            self.start + MAX_GROUP_WIDTH * crate::triangle::triangle(step),
            self.space(),
        );
    }

    /// Probing starts at the start.
    pub proof fn lemma_pos_start(self)
        requires
            self.wf(),
        ensures
            self.pos(0) == self.start,
            self.visits(0),
    {
        self.lemma_space();
        assert(0nat * (0nat + 1) == 0) by (nonlinear_arith);
        vstd::arithmetic::div_mod::lemma_small_mod(self.start as nat, self.space() as nat);
    }

    /// Every step moves past a window, and on by a stride that has grown by a
    /// window since the step before.
    pub proof fn lemma_pos_step(self, step: nat)
        requires
            self.wf(),
        ensures
            self.pos(step + 1) == (self.pos(step) + MAX_GROUP_WIDTH + MAX_GROUP_WIDTH * step)
                % self.space(),
    {
        self.lemma_space();
        crate::triangle::lemma_triangle_step(step);
        vstd::arithmetic::div_mod::lemma_add_mod_noop_right(
            16int + 16int * step,
            self.start + 16 * crate::triangle::triangle(step),
            self.space(),
        );
    }

    /// All positions lie a multiple of the window width from the start.
    pub proof fn lemma_residue(self, step: nat)
        requires
            self.wf(),
        ensures
            self.pos(step) % 16 == self.start % 16,
    {
        self.lemma_windows();
        let t = crate::triangle::triangle(step);
        let m = self.space();
        if m > 16 {
            vstd::arithmetic::div_mod::lemma_mod_mod(self.start + 16 * t, 16, m / 16);
        } else {
            let q = 16int / m;
            vstd::arithmetic::div_mod::lemma_fundamental_div_mod(16, m);
            assert(16 * t == m * (q * t)) by (nonlinear_arith)
                requires
                    16 == m * q,
            ;
            vstd::arithmetic::div_mod::lemma_mod_multiples_vanish(q * t, self.start, m);
            vstd::arithmetic::div_mod::lemma_small_mod(self.start as nat, m as nat);
        }
    }

    /// Every position that lies a multiple of the window width from the start comes
    /// up exactly once in the first `bound()` steps.
    pub proof fn law_every_window(self, at: int) -> (step: nat)
        requires
            self.wf(),
            0 <= at < self.space(),
            at % 16 == self.start % 16,
        ensures
            step < self.bound(),
            self.pos(step) == at,
            at < self.capacity ==> self.visits(step),
            forall|other: nat|
                other < self.bound() && #[trigger] self.pos(other) == at ==> other == step,
    {
        let n = self.lemma_windows();
        let space = self.space();
        if space <= 16 {
            self.lemma_pos_start();
            0
        } else {
            let m = vstd::arithmetic::power2::pow2(n) as int;
            vstd::arithmetic::power2::lemma_pow2_pos(n);
            assert(self.bound() == m);
            let r = self.start % 16;
            let first = self.start / 16;
            let window = at / 16;
            let remainder = (window - first) % m;
            vstd::arithmetic::div_mod::lemma_mod_bound(window - first, m);
            let step = crate::triangle::lemma_triangle_surjective(n, remainder);
            self.lemma_window_at(n, step);
            assert((first + crate::triangle::triangle(step)) % m == window) by {
                vstd::arithmetic::div_mod::lemma_add_mod_noop_right(
                    first,
                    crate::triangle::triangle(step),
                    m,
                );
                vstd::arithmetic::div_mod::lemma_add_mod_noop_right(first, window - first, m);
                vstd::arithmetic::div_mod::lemma_small_mod(window as nat, m as nat);
            }
            assert forall|other: nat|
                other < self.bound() && #[trigger] self.pos(other) == at implies other == step by {
                self.lemma_window_at(n, other);
                vstd::arithmetic::div_mod::lemma_mod_equivalence(
                    first + crate::triangle::triangle(step),
                    first + crate::triangle::triangle(other),
                    m,
                );
                vstd::arithmetic::div_mod::lemma_mod_equivalence(
                    crate::triangle::triangle(step),
                    crate::triangle::triangle(other),
                    m,
                );
                if other < step {
                    crate::triangle::lemma_triangle_injective(n, step, other);
                } else if step < other {
                    crate::triangle::lemma_triangle_injective(n, other, step);
                }
            }
            step
        }
    }

    /// The position of a step, as a window and the distance of the start from a
    /// multiple of the window width.
    proof fn lemma_window_at(self, n: nat, step: nat)
        requires
            self.wf(),
            self.space() == 16 * vstd::arithmetic::power2::pow2(n),
        ensures
            self.pos(step) == 16 * ((self.start / 16 + crate::triangle::triangle(step))
                % vstd::arithmetic::power2::pow2(n) as int) + self.start % 16,
    {
        let m = vstd::arithmetic::power2::pow2(n) as int;
        vstd::arithmetic::power2::lemma_pow2_pos(n);
        let t = crate::triangle::triangle(step);
        let r = self.start % 16;
        let x = self.start / 16 + t;
        let (q, window) = (x / m, x % m);
        vstd::arithmetic::div_mod::lemma_fundamental_div_mod(x, m);
        vstd::arithmetic::div_mod::lemma_mod_bound(x, m);
        let space = self.space();
        assert(16 * x + r == q * space + (16 * window + r)) by (nonlinear_arith)
            requires
                x == m * q + window,
                space == 16 * m,
        ;
        vstd::arithmetic::div_mod::lemma_fundamental_div_mod_converse(
            self.start + 16 * t,
            space,
            q,
            16 * window + r,
        );
    }

    /// Every position is that of a step below the bound.
    pub proof fn law_positions_repeat(self, step: nat) -> (earlier: nat)
        requires
            self.wf(),
        ensures
            earlier < self.bound(),
            earlier <= step,
            self.pos(earlier) == self.pos(step),
    {
        if step < self.bound() {
            step
        } else {
            self.lemma_pos_in_space(step);
            self.lemma_residue(step);
            self.law_every_window(self.pos(step))
        }
    }
}

/// Where a hash is being looked for: the position of a window, or of a group in
/// it, and the stride to the next window.
pub struct ProbeSeq {
    pub pos: usize,
    pub stride: usize,
}

impl ProbeSeq {
    /// Moves on to the next group of the same window.
    pub fn next_group(&mut self)
        requires
            old(self).pos + GROUP_WIDTH <= usize::MAX,
        ensures
            final(self).pos == old(self).pos + GROUP_WIDTH,
            final(self).stride == old(self).stride,
    {
        self.pos = self.pos + GROUP_WIDTH;
    }

    /// Moves on by the stride, and widens the stride.
    pub fn move_next(&mut self, bucket_mask: usize)
        ensures
            final(self).pos == old(self).pos.wrapping_add(old(self).stride) & bucket_mask,
            final(self).stride == old(self).stride.wrapping_add(MAX_GROUP_WIDTH),
    {
        self.pos = self.pos.wrapping_add(self.stride);
        self.pos = self.pos & bucket_mask;
        self.stride = self.stride.wrapping_add(MAX_GROUP_WIDTH);
    }

    /// Moves past a window that is not examined.
    pub fn skip_window(&mut self)
        requires
            old(self).pos + MAX_GROUP_WIDTH <= usize::MAX,
        ensures
            final(self).pos == old(self).pos + MAX_GROUP_WIDTH,
            final(self).stride == old(self).stride,
    {
        self.pos = self.pos + MAX_GROUP_WIDTH;
    }

    /// Whether this is where `probe` stands after examining the window at
    /// `step`, or after skipping it.
    pub open spec fn past(self, probe: Probe, step: nat) -> bool {
        &&& self.pos == probe.pos(step) + MAX_GROUP_WIDTH
        &&& self.stride as int % probe.space() == (16int * step) % probe.space()
    }

    /// Whether this is where `probe` stands when it comes to `step`.
    pub open spec fn at(self, probe: Probe, step: nat) -> bool {
        &&& self.pos == probe.pos(step)
        &&& self.stride as int % probe.space() == (16int * step) % probe.space()
    }

    /// Moving on from one step leads to the next.
    pub proof fn lemma_move_next(before: ProbeSeq, after: ProbeSeq, probe: Probe, step: nat)
        requires
            probe.wf(),
            probe.space() <= usize::MAX,
            before.past(probe, step),
            after.pos == before.pos.wrapping_add(before.stride) & ((probe.space() - 1) as usize),
            after.stride == before.stride.wrapping_add(MAX_GROUP_WIDTH),
        ensures
            after.at(probe, step + 1),
    {
        probe.lemma_space();
        probe.lemma_pos_step(step);
        let m = probe.space();
        let whole: int = usize::MAX + 1;
        lemma_space_divides(probe.capacity as nat);
        let sum = before.pos.wrapping_add(before.stride);
        let exact = before.pos + before.stride;
        lemma_mask_is_remainder(sum, probe.capacity as nat);
        lemma_wrap(exact, sum as int, whole, m);
        vstd::arithmetic::div_mod::lemma_add_mod_noop_right(
            before.pos as int,
            before.stride as int,
            m,
        );
        vstd::arithmetic::div_mod::lemma_add_mod_noop_right(before.pos as int, 16int * step, m);
        lemma_wrap(before.stride + 16, after.stride as int, whole, m);
        vstd::arithmetic::div_mod::lemma_add_mod_noop_right(16, before.stride as int, m);
        vstd::arithmetic::div_mod::lemma_add_mod_noop_right(16, 16int * step, m);
    }
}

impl ProbeSeq {
    /// Moves on to the next window that is examined, past those that are skipped.
    ///
    /// The `steps_left` steps from here on are taken into account. Returns how many of
    /// them are left, or nothing where all of them are skipped.
    pub(crate) fn next_window(
        &mut self,
        capacity: usize,
        bucket_mask: usize,
        steps_left: usize,
        Ghost(probe): Ghost<Probe>,
    ) -> (left: Option<usize>)
        requires
            probe.wf(),
            probe.capacity == capacity,
            capacity <= isize::MAX - 15,
            probe.space() <= usize::MAX,
            bucket_mask == probe.space() - 1,
            steps_left < probe.bound(),
            old(self).past(probe, (probe.bound() - 1 - steps_left) as nat),
        ensures
            match left {
                Some(left) => {
                    let step = (probe.bound() - 1 - left) as nat;
                    &&& left < steps_left
                    &&& final(self).at(probe, step)
                    &&& probe.visits(step)
                    &&& forall|skipped: nat|
                        probe.bound() - 1 - steps_left < skipped < step ==> !#[trigger] probe.visits(
                            skipped,
                        )
                },
                None => forall|skipped: nat|
                    probe.bound() - 1 - steps_left < skipped < probe.bound()
                        ==> !#[trigger] probe.visits(skipped),
            },
    {
        let mut left: usize = steps_left;
        let ghost mut step: nat = (probe.bound() - 1 - steps_left) as nat;
        while left > 0
            invariant
                probe.wf(),
                probe.capacity == capacity,
                capacity <= isize::MAX - 15,
                probe.space() <= usize::MAX,
                bucket_mask == probe.space() - 1,
                left <= steps_left < probe.bound(),
                step == probe.bound() - 1 - left,
                self.past(probe, step),
                forall|skipped: nat|
                    probe.bound() - 1 - steps_left < skipped <= step ==> !#[trigger] probe.visits(
                        skipped,
                    ),
            decreases left,
        {
            left = left - 1;
            let ghost before = *self;
            self.move_next(bucket_mask);
            proof {
                ProbeSeq::lemma_move_next(before, *self, probe, step);
                step = step + 1;
                probe.lemma_space();
                probe.lemma_pos_in_space(step);
            }
            if self.pos < capacity {
                return Some(left);
            }
            self.skip_window();
        }
        None
    }

    /// Where probing stands a window later: it has moved past the groups of the
    /// window, and on by the stride.
    pub open spec fn round(self, bucket_mask: usize) -> ProbeSeq {
        let past = (self.pos + MAX_GROUP_WIDTH / GROUP_WIDTH * GROUP_WIDTH) as usize;
        ProbeSeq {
            pos: past.wrapping_add(self.stride) & bucket_mask,
            stride: self.stride.wrapping_add(MAX_GROUP_WIDTH),
        }
    }

    /// Where probing stands `n` windows later.
    pub open spec fn rounds(self, bucket_mask: usize, n: nat) -> ProbeSeq
        decreases n,
    {
        if n == 0 {
            self
        } else {
            self.rounds(bucket_mask, (n - 1) as nat).round(bucket_mask)
        }
    }

    /// Probing is triangular: `n` windows on, it stands the `n`th triangular number of
    /// windows from where it started, and the stride is `n` windows.
    pub proof fn law_rounds(self, capacity: int, n: nat)
        requires
            0 <= self.pos < capacity,
            self.stride == 0,
            next_power_of_two(capacity as nat) <= usize::MAX,
        ensures
            ({
                let bucket_mask = (next_power_of_two(capacity as nat) - 1) as usize;
                let there = self.rounds(bucket_mask, n);
                let exact = self.pos + MAX_GROUP_WIDTH * crate::triangle::triangle(n);
                &&& there.pos == exact % (bucket_mask + 1)
                &&& exact <= usize::MAX ==> there.pos == exact as usize & bucket_mask
                &&& MAX_GROUP_WIDTH * n <= usize::MAX ==> there.stride == MAX_GROUP_WIDTH * n
                &&& there.at((Probe { start: self.pos as int, capacity }), n)
            }),
        decreases n,
    {
        let bucket_mask = (next_power_of_two(capacity as nat) - 1) as usize;
        let probe = Probe { start: self.pos as int, capacity };
        let exact = self.pos + MAX_GROUP_WIDTH * crate::triangle::triangle(n);
        probe.lemma_space();
        if n == 0 {
            probe.lemma_pos_start();
        } else {
            let before = (n - 1) as nat;
            self.law_rounds(capacity, before);
            let here = self.rounds(bucket_mask, before);
            probe.lemma_pos_in_space(before);
            lemma_space_leaves_room(capacity as nat);
            let past = ProbeSeq {
                pos: (here.pos + MAX_GROUP_WIDTH) as usize,
                stride: here.stride,
            };
            ProbeSeq::lemma_move_next(past, here.round(bucket_mask), probe, before);
        }
        crate::triangle::lemma_triangle_step(n);
        if exact <= usize::MAX {
            lemma_mask_is_remainder(exact as usize, capacity as nat);
        }
    }

    /// A full turn of probing comes to every position that lies a multiple of the
    /// window width from the start, and to none of them twice.
    pub proof fn law_full_turn(self, capacity: int, at: int) -> (n: nat)
        requires
            0 <= self.pos < capacity,
            self.stride == 0,
            16 <= next_power_of_two(capacity as nat) <= usize::MAX,
            0 <= at < next_power_of_two(capacity as nat),
            at % MAX_GROUP_WIDTH as int == self.pos as int % MAX_GROUP_WIDTH as int,
        ensures
            ({
                let space = next_power_of_two(capacity as nat);
                let bucket_mask = (space - 1) as usize;
                &&& n < space / MAX_GROUP_WIDTH as nat
                &&& self.rounds(bucket_mask, n).pos == at
                &&& forall|other: nat|
                    other < space / MAX_GROUP_WIDTH as nat && #[trigger] self.rounds(
                        bucket_mask,
                        other,
                    ).pos == at ==> other == n
            }),
    {
        let space = next_power_of_two(capacity as nat);
        let bucket_mask = (space - 1) as usize;
        let probe = Probe { start: self.pos as int, capacity };
        assert(probe.bound() == space / 16);
        let n = probe.law_every_window(at);
        self.law_rounds(capacity, n);
        assert forall|other: nat|
            other < space / MAX_GROUP_WIDTH as nat && #[trigger] self.rounds(bucket_mask, other).pos
                == at implies other == n by {
            self.law_rounds(capacity, other);
            assert(probe.pos(other) == at);
        }
        n
    }
}

/// A power of two that fits leaves room for a window above it.
proof fn lemma_space_leaves_room(n: nat)
    requires
        next_power_of_two(n) <= usize::MAX,
    ensures
        next_power_of_two(n) + 16 <= usize::MAX,
{
    lemma_space_divides(n);
    law_next_power_of_two(n);
    let whole: int = usize::MAX + 1;
    let space = next_power_of_two(n) as int;
    if space >= 1 {
        let q = whole / space;
        vstd::arithmetic::div_mod::lemma_fundamental_div_mod(whole, space);
        assert(2 * space <= whole) by (nonlinear_arith)
            requires
                whole == space * q,
                0 < space < whole,
        ;
    }
}

proof fn lemma_wrap(exact: int, wrapped: int, whole: int, m: int)
    requires
        m > 0,
        whole % m == 0,
        wrapped == exact || wrapped == exact - whole,
    ensures
        wrapped % m == exact % m,
{
    vstd::arithmetic::div_mod::lemma_sub_mod_noop_right(exact, whole, m);
}

proof fn lemma_space_divides(n: nat)
    requires
        next_power_of_two(n) <= usize::MAX,
    ensures
        (usize::MAX + 1) % next_power_of_two(n) as int == 0,
{
    let e = law_next_power_of_two(n);
    vstd::arithmetic::power2::lemma2_to64();
    vstd::arithmetic::power2::lemma2_to64_rest();
    vstd::layout::unsigned_int_max_values();
    let bits = usize::BITS as nat;
    assert(vstd::arithmetic::power2::pow2(bits) == usize::MAX + 1);
    if e > bits {
        vstd::arithmetic::power2::lemma_pow2_strictly_increases(bits, e);
    }
    vstd::arithmetic::power2::lemma_pow2_adds(e, (bits - e) as nat);
    vstd::arithmetic::power2::lemma_pow2_pos(e);
    let q = vstd::arithmetic::power2::pow2((bits - e) as nat) as int;
    let p = vstd::arithmetic::power2::pow2(e) as int;
    assert(p * q == q * p) by (nonlinear_arith);
    vstd::arithmetic::div_mod::lemma_mod_multiples_basic(q, p);
}

} // verus!
