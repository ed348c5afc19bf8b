//! How many buckets and control bytes a table has, and how they lie in memory.

use vstd::prelude::*;

use crate::archive::Layout;
use crate::archive::Portable;
use crate::error::LayoutError;
use crate::group::MAX_GROUP_WIDTH;
use crate::table::ArchivedHashTable;

verus! {

/// The number of buckets of a table of `len` entries that is filled to at most
/// `load_factor`, and never entirely.
pub open spec fn spec_capacity_from_len(len: int, load_factor: (int, int)) -> int {
    if len == 0 {
        0
    } else {
        let filled = len * load_factor.1 / load_factor.0;
        if filled > len + 1 {
            filled
        } else {
            len + 1
        }
    }
}

/// A table with entries always has a bucket to spare.
pub proof fn law_capacity_exceeds_len(len: int, load_factor: (int, int))
    ensures
        len > 0 ==> spec_capacity_from_len(len, load_factor) > len,
        len == 0 ==> spec_capacity_from_len(len, load_factor) == 0,
{
}

/// Where the load factor is a fraction in the range (0, 1], the table is not
/// filled beyond it, but for the rounding down of its capacity to a whole number.
pub proof fn law_load_factor_is_kept(len: int, load_factor: (int, int))
    requires
        len > 0,
        0 < load_factor.0 <= load_factor.1,
    ensures
        len * load_factor.1 < (spec_capacity_from_len(len, load_factor) + 1) * load_factor.0,
{
    let (n, d) = load_factor;
    let filled = len * d / n;
    vstd::arithmetic::div_mod::lemma_fundamental_div_mod(len * d, n);
    vstd::arithmetic::div_mod::lemma_mod_bound(len * d, n);
    let c = spec_capacity_from_len(len, load_factor);
    assert(len * d < (c + 1) * n) by (nonlinear_arith)
        requires
            len * d == n * filled + (len * d) % n,
            (len * d) % n < n,
            c >= filled,
            n > 0,
    ;
}

/// The capacity is the least that the load factor allows: there is a bucket to spare, one
/// bucket more would let the table be emptier than the load factor, and there is no bucket
/// beyond what the load factor asks for but the one to spare.
pub proof fn law_capacity_is_least(len: int, load_factor: (int, int))
    requires
        len > 0,
        0 < load_factor.0,
        0 <= load_factor.1,
    ensures
        ({
            let capacity = spec_capacity_from_len(len, load_factor);
            &&& capacity >= len + 1
            &&& len * load_factor.1 < (capacity + 1) * load_factor.0
            &&& capacity == len + 1 || capacity * load_factor.0 <= len * load_factor.1
        }),
{
    let (n, d) = load_factor;
    let filled = len * d / n;
    vstd::arithmetic::div_mod::lemma_fundamental_div_mod(len * d, n);
    vstd::arithmetic::div_mod::lemma_mod_bound(len * d, n);
    let c = spec_capacity_from_len(len, load_factor);
    assert(len * d < (c + 1) * n && filled * n <= len * d) by (nonlinear_arith)
        requires
            len * d == n * filled + (len * d) % n,
            0 <= (len * d) % n < n,
            c >= filled,
            n > 0,
    ;
}

/// Only one number of buckets is the least that a load factor allows.
pub proof fn law_least_capacity_is_unique(len: int, load_factor: (int, int), capacity: int)
    requires
        len > 0,
        0 < load_factor.0,
        0 <= load_factor.1,
        capacity >= len + 1,
        len * load_factor.1 < (capacity + 1) * load_factor.0,
        capacity == len + 1 || capacity * load_factor.0 <= len * load_factor.1,
    ensures
        capacity == spec_capacity_from_len(len, load_factor),
{
    law_capacity_is_least(len, load_factor);
    let c = spec_capacity_from_len(len, load_factor);
    let (n, d) = load_factor;
    if capacity < c {
        assert((capacity + 1) * n <= c * n) by (nonlinear_arith)
            requires
                capacity + 1 <= c,
                n > 0,
        ;
    } else if c < capacity {
        assert((c + 1) * n <= capacity * n) by (nonlinear_arith)
            requires
                c + 1 <= capacity,
                n > 0,
        ;
    }
}

impl<T: Portable> ArchivedHashTable<T> {
    /// The number of buckets for `len` entries.
    pub fn capacity_from_len(len: usize, load_factor: (usize, usize)) -> (capacity: Result<
        usize,
        LayoutError,
    >)
        requires
            len != 0 ==> load_factor.0 != 0,
            len == usize::MAX ==> load_factor.1 > 1,
        ensures
            match capacity {
                Ok(capacity) => capacity == spec_capacity_from_len(
                    len as int,
                    (load_factor.0 as int, load_factor.1 as int),
                ),
                Err(error) => error == LayoutError::CapacityOverflow,
            },
            capacity is Err <==> len * load_factor.1 > usize::MAX,
            capacity matches Ok(capacity) ==> if len == 0 {
                capacity == 0
            } else {
                &&& capacity >= len + 1
                &&& len * load_factor.1 < (capacity + 1) * load_factor.0
                &&& capacity == len + 1 || capacity * load_factor.0 <= len * load_factor.1
            },
    {
        proof {
            if len != 0 {
                law_capacity_is_least(
                    len as int,
                    (load_factor.0 as int, load_factor.1 as int),
                );
            }
        }
        if len == 0 {
            Ok(0)
        } else {
            let scaled = match len.checked_mul(load_factor.1) {
                Some(scaled) => scaled,
                None => return Err(LayoutError::CapacityOverflow),
            };
            assert(len < usize::MAX) by (nonlinear_arith)
                requires
                    len * load_factor.1 <= usize::MAX,
                    len == usize::MAX ==> load_factor.1 > 1,
                    len <= usize::MAX,
            ;
            let filled = scaled / load_factor.0;
            if filled > len + 1 {
                Ok(filled)
            } else {
                Ok(len + 1)
            }
        }
    }

    /// The number of control bytes for `capacity` buckets.
    pub fn control_count(capacity: usize) -> (count: Result<usize, LayoutError>)
        ensures
            match count {
                Ok(count) => count == capacity + 15,
                Err(error) => error == LayoutError::ControlCountOverflow,
            },
            count is Err <==> capacity + 15 > usize::MAX,
    {
        match capacity.checked_add(MAX_GROUP_WIDTH - 1) {
            Some(count) => Ok(count),
            None => Err(LayoutError::ControlCountOverflow),
        }
    }

    /// The block of memory for the buckets and control bytes of `capacity` buckets.
    pub open spec fn spec_memory_layout(capacity: int) -> Layout {
        Layout {
            size: (capacity * T::spec_size() + capacity + 15) as usize,
            align: T::spec_align() as usize,
        }
    }

    /// The block of memory has room for every bucket and for 15 control bytes more than
    /// there are buckets, and is aligned like a bucket.
    pub proof fn law_memory_layout(capacity: int)
        requires
            0 <= capacity * T::spec_size() + capacity + 15 <= usize::MAX,
        ensures
            Self::spec_memory_layout(capacity).size == capacity * T::spec_size() + capacity + 15,
            Self::spec_memory_layout(capacity).align == T::spec_align(),
    {
        crate::archive::lemma_layout_is_valid::<T>();
    }

    /// The block of memory for the buckets and control bytes, and where in it the
    /// control bytes start.
    pub fn memory_layout(capacity: usize, control_count: usize) -> (layout: Result<
        (Layout, usize),
        LayoutError,
    >)
        ensures
            match layout {
                Ok((layout, control_offset)) => {
                    &&& control_offset == capacity * T::spec_size()
                    &&& layout.size == control_offset + control_count
                    &&& layout.align == T::spec_align()
                },
                Err(error) => error == LayoutError::TooLarge,
            },
            layout is Ok <==> crate::archive::fits_in_memory(
                capacity * T::spec_size() + control_count,
                T::spec_align() as int,
            ),
            layout is Ok <==> capacity * T::spec_size() + control_count <= isize::MAX - (
            T::spec_align() - 1),
    {
        proof {
            crate::archive::lemma_layout_is_valid::<T>();
            assert(0 <= capacity * T::spec_size()) by (nonlinear_arith);
        }
        let align = T::align();
        let largest: usize = isize::MAX as usize - (align - 1);
        let control_offset = match capacity.checked_mul(T::size()) {
            Some(control_offset) => control_offset,
            None => return Err(LayoutError::TooLarge),
        };
        if control_offset > largest || control_count > largest - control_offset {
            return Err(LayoutError::TooLarge);
        }
        Ok((Layout { size: control_offset + control_count, align }, control_offset))
    }
}

} // verus!
