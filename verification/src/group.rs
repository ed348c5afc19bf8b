//! Groups of control bytes, and masks over the lanes of a group.
//!
//! A group is a run of `GROUP_WIDTH` neighbouring control bytes that is
//! examined as a unit. Matching a group gives a `Bitmask` with one bit for
//! every lane.

use vstd::prelude::*;

verus! {

/// The number of control bytes that one probe examines before it strides.
pub const MAX_GROUP_WIDTH: usize = 16;

/// The number of control bytes in a group.
pub const GROUP_WIDTH: usize = 8;

/// The control byte of a bucket that holds nothing.
pub const EMPTY: u8 = 0xff;

/// Whether a control byte says that its bucket holds an entry.
pub open spec fn is_full(control: u8) -> bool {
    control < 0x80
}

/// A set of lanes of a group.
#[derive(Clone, Copy)]
pub struct Bitmask {
    bits: u8,
}

impl Bitmask {
    /// Whether `lane` is in the mask.
    pub closed spec fn has(self, lane: int) -> bool {
        0 <= lane < GROUP_WIDTH && (self.bits >> (lane as u8)) & 1 == 1
    }

    /// The mask with no lanes.
    pub fn empty() -> (mask: Bitmask)
        ensures
            forall|lane: int| !mask.has(lane),
    {
        assert(forall|lane: u8| (0u8 >> lane) & 1 != 1) by (bit_vector);
        Bitmask { bits: 0 }
    }

    /// The mask with `lane` added.
    fn with(self, lane: usize) -> (mask: Bitmask)
        requires
            lane < GROUP_WIDTH,
        ensures
            forall|other: int| mask.has(other) <==> self.has(other) || other == lane,
    {
        let bits: u8 = self.bits;
        let shift: u8 = lane as u8;
        let mask = Bitmask { bits: bits | (1u8 << shift) };
        assert forall|other: int| mask.has(other) <==> self.has(other) || other == lane by {
            if 0 <= other < GROUP_WIDTH {
                let o: u8 = other as u8;
                assert(((bits | (1u8 << shift)) >> o) & 1 == 1 <==> ((bits >> o) & 1 == 1 || o
                    == shift)) by (bit_vector)
                    requires
                        o < 8,
                        shift < 8,
                ;
            }
        }
        mask
    }

    /// Whether any lane is in the mask.
    pub fn any_bit_set(self) -> (any: bool)
        ensures
            any <==> exists|lane: int| self.has(lane),
    {
        proof {
            vstd::std_specs::bits::axiom_u8_trailing_zeros(self.bits);
            if self.bits != 0 {
                let lane = vstd::std_specs::bits::u8_trailing_zeros(self.bits) as int;
                assert(self.has(lane));
            } else {
                assert(forall|lane: u8| (0u8 >> lane) & 1 != 1) by (bit_vector);
            }
        }
        self.bits != 0
    }

    /// The least lane in the mask.
    pub fn lowest_set_bit(self) -> (lowest: Option<usize>)
        ensures
            match lowest {
                Some(lane) => self.has(lane as int) && forall|other: int|
                    other < lane ==> !self.has(other),
                None => forall|other: int| !self.has(other),
            },
    {
        proof {
            vstd::std_specs::bits::axiom_u8_trailing_zeros(self.bits);
        }
        if self.bits == 0 {
            assert(forall|lane: u8| (0u8 >> lane) & 1 != 1) by (bit_vector);
            None
        } else {
            let lane: u32 = self.bits.trailing_zeros();
            assert forall|other: int| other < lane implies !self.has(other) by {
                if 0 <= other {
                    let o: u8 = other as u8;
                    assert((self.bits >> o) & 1u8 == 0u8);
                }
            }
            Some(lane as usize)
        }
    }

    /// The mask without its least lane.
    pub fn remove_lowest_bit(self) -> (rest: Bitmask)
        requires
            exists|lane: int| self.has(lane),
        ensures
            forall|lane: int|
                rest.has(lane) <==> self.has(lane) && exists|lower: int|
                    lower < lane && self.has(lower),
    {
        let ghost first: int = choose|lane: int| self.has(lane);
        let bits: u8 = self.bits;
        proof {
            if bits == 0 {
                assert(forall|lane: u8| (0u8 >> lane) & 1 != 1) by (bit_vector);
                assert(!self.has(first));
            }
            vstd::std_specs::bits::axiom_u8_trailing_zeros(bits);
        }
        let rest = Bitmask { bits: bits & (bits - 1) };
        proof {
            let lowest: u8 = vstd::std_specs::bits::u8_trailing_zeros(bits) as u8;
            assert(self.has(lowest as int));
            let below: u8 = (bits - 1) as u8;
            assert forall|lane: int| rest.has(lane) <==> self.has(lane) && lane != lowest by {
                if 0 <= lane < GROUP_WIDTH {
                    let l: u8 = lane as u8;
                    let shift: u8 = (8 - lowest) as u8;
                    assert(((bits & below) >> l) & 1 == 1 <==> ((bits >> l) & 1 == 1 && l != lowest)) by (bit_vector)
                        requires
                            bits > 0,
                            below == bits - 1,
                            lowest < 8,
                            l < 8,
                            shift == 8 - lowest,
                            bits << shift == 0,
                            (bits >> lowest) & 1 == 1,
                    ;
                }
            }
            assert forall|lane: int| self.has(lane) implies lane >= lowest by {
                if lane < lowest {
                    let l: u8 = lane as u8;
                    assert((bits >> l) & 1u8 == 0u8);
                }
            }
        }
        rest
    }
}

/// A run of `GROUP_WIDTH` neighbouring control bytes.
pub struct Group<'a> {
    lanes: &'a [u8],
}

impl<'a> Group<'a> {
    /// The control bytes of the group.
    pub closed spec fn view(&self) -> Seq<u8> {
        self.lanes@
    }

    /// Reads the group that starts at `at`.
    pub fn read(bytes: &'a [u8], at: usize) -> (group: Group<'a>)
        requires
            at + GROUP_WIDTH <= bytes@.len(),
        ensures
            group@.len() == GROUP_WIDTH,
            group@ == bytes@.subrange(at as int, at + GROUP_WIDTH),
    {
        assert(bytes.len() == bytes@.len());
        Group { lanes: vstd::slice::slice_subrange(bytes, at, at + GROUP_WIDTH) }
    }

    /// The lanes whose byte is `byte`.
    pub fn match_byte(&self, byte: u8) -> (mask: Bitmask)
        requires
            self@.len() == GROUP_WIDTH,
        ensures
            forall|lane: int|
                mask.has(lane) <==> 0 <= lane < GROUP_WIDTH && self@[lane] == byte,
    {
        let mut mask = Bitmask::empty();
        let mut lane: usize = 0;
        while lane < GROUP_WIDTH
            invariant
                lane <= GROUP_WIDTH,
                self@.len() == GROUP_WIDTH,
                forall|l: int| mask.has(l) <==> 0 <= l < lane && self@[l] == byte,
            decreases GROUP_WIDTH - lane,
        {
            if self.lanes[lane] == byte {
                mask = mask.with(lane);
            }
            lane = lane + 1;
        }
        mask
    }

    /// The lanes whose bucket holds nothing.
    pub fn match_empty(&self) -> (mask: Bitmask)
        requires
            self@.len() == GROUP_WIDTH,
        ensures
            forall|lane: int|
                mask.has(lane) <==> 0 <= lane < GROUP_WIDTH && self@[lane] == EMPTY,
            forall|lane: int| mask.has(lane) <==> 0 <= lane < 8 && self@[lane] == 0xff,
    {
        self.match_byte(EMPTY)
    }

    /// The lanes whose bucket holds an entry.
    pub fn match_full(&self) -> (mask: Bitmask)
        requires
            self@.len() == GROUP_WIDTH,
        ensures
            forall|lane: int|
                mask.has(lane) <==> 0 <= lane < GROUP_WIDTH && is_full(self@[lane]),
            forall|lane: int| mask.has(lane) <==> 0 <= lane < 8 && self@[lane] < 0x80,
    {
        let mut mask = Bitmask::empty();
        let mut lane: usize = 0;
        while lane < GROUP_WIDTH
            invariant
                lane <= GROUP_WIDTH,
                self@.len() == GROUP_WIDTH,
                forall|l: int| mask.has(l) <==> 0 <= l < lane && is_full(self@[l]),
            decreases GROUP_WIDTH - lane,
        {
            if self.lanes[lane] < 0x80 {
                mask = mask.with(lane);
            }
            lane = lane + 1;
        }
        mask
    }
}

} // verus!
