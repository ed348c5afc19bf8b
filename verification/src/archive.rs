//! Values in a flat byte archive.

use vstd::prelude::*;

verus! {

/// Whether `size` bytes aligned to `align` make a block of memory: rounded up to
/// the alignment, the size is at most `isize::MAX`.
pub open spec fn fits_in_memory(size: int, align: int) -> bool {
    size <= isize::MAX + 1 - align
}

/// A block fits in memory just if some multiple of its alignment is at least its size and
/// at most `isize::MAX`.
pub proof fn law_fits_in_memory(size: int, e: nat)
    requires
        size >= 0,
        vstd::arithmetic::power2::pow2(e) <= isize::MAX,
    ensures
        fits_in_memory(size, vstd::arithmetic::power2::pow2(e) as int) <==> exists|k: int|
            size <= #[trigger] (k * vstd::arithmetic::power2::pow2(e)) <= isize::MAX,
        fits_in_memory(size, vstd::arithmetic::power2::pow2(e) as int) <==> size <= isize::MAX - (
        vstd::arithmetic::power2::pow2(e) - 1),
{
    let align = vstd::arithmetic::power2::pow2(e) as int;
    vstd::arithmetic::power2::lemma_pow2_pos(e);
    vstd::arithmetic::power2::lemma2_to64();
    vstd::arithmetic::power2::lemma2_to64_rest();
    vstd::layout::unsigned_int_max_values();
    let bits = (usize::BITS - 1) as nat;
    let whole: int = isize::MAX + 1;
    assert(vstd::arithmetic::power2::pow2(bits) == whole);
    if e > bits {
        vstd::arithmetic::power2::lemma_pow2_strictly_increases(bits, e);
    }
    vstd::arithmetic::power2::lemma_pow2_adds(e, (bits - e) as nat);
    let q = vstd::arithmetic::power2::pow2((bits - e) as nat) as int;
    assert(whole == q * align) by (nonlinear_arith)
        requires
            whole == align * q,
    ;
    if fits_in_memory(size, align) {
        assert((q - 1) * align == whole - align) by (nonlinear_arith)
            requires
                whole == q * align,
        ;
        assert(size <= (q - 1) * align <= isize::MAX);
    }
    if exists|k: int| size <= #[trigger] (k * vstd::arithmetic::power2::pow2(e)) <= isize::MAX {
        let k = choose|k: int|
            size <= #[trigger] (k * vstd::arithmetic::power2::pow2(e)) <= isize::MAX;
        assert(k * align <= whole - align) by (nonlinear_arith)
            requires
                k * align < q * align,
                whole == q * align,
                align > 0,
        ;
    }
}

/// The size and alignment of a block of memory.
#[derive(Clone, Copy, Debug, PartialEq, Eq)]
pub struct Layout {
    pub size: usize,
    pub align: usize,
}

/// A type whose values stand in an archive as a fixed number of bytes.
pub trait Portable: Sized {
    /// The number of bytes of a value.
    spec fn spec_size() -> nat;

    /// The alignment of a value.
    spec fn spec_align() -> nat;

    /// The value that `bytes` stand for.
    spec fn decode(bytes: Seq<u8>) -> Self;

    /// The alignment is a power of two, and the size a multiple of it that fits in
    /// memory.
    proof fn layout_is_valid()
        ensures
            exists|e: nat| #[trigger] vstd::arithmetic::power2::pow2(e) == Self::spec_align(),
            Self::spec_size() % Self::spec_align() == 0,
            Self::spec_align() <= isize::MAX,
            fits_in_memory(Self::spec_size() as int, Self::spec_align() as int),
    ;

    fn size() -> (size: usize)
        ensures
            size == Self::spec_size(),
    ;

    fn align() -> (align: usize)
        ensures
            align == Self::spec_align(),
    ;

    fn read(bytes: &[u8]) -> (value: Self)
        requires
            bytes@.len() == Self::spec_size(),
        ensures
            value == Self::decode(bytes@),
    ;
}

/// The layout of a value is valid, and its alignment is not zero.
pub proof fn lemma_layout_is_valid<T: Portable>()
    ensures
        T::spec_align() >= 1,
        T::spec_size() % T::spec_align() == 0,
        T::spec_align() <= isize::MAX,
        fits_in_memory(T::spec_size() as int, T::spec_align() as int),
{
    T::layout_is_valid();
    let e = choose|e: nat| #[trigger] vstd::arithmetic::power2::pow2(e) == T::spec_align();
    vstd::arithmetic::power2::lemma_pow2_pos(e);
}

impl Portable for u32 {
    open spec fn spec_size() -> nat {
        4
    }

    open spec fn spec_align() -> nat {
        4
    }

    open spec fn decode(bytes: Seq<u8>) -> u32 {
        vstd::bytes::spec_u32_from_le_bytes(bytes)
    }

    proof fn layout_is_valid() {
        vstd::arithmetic::power2::lemma2_to64();
        assert(vstd::arithmetic::power2::pow2(2) == 4);
    }

    fn size() -> (size: usize) {
        4
    }

    fn align() -> (align: usize) {
        4
    }

    fn read(bytes: &[u8]) -> (value: u32) {
        vstd::bytes::u32_from_le_bytes(bytes)
    }
}

impl Portable for u64 {
    open spec fn spec_size() -> nat {
        8
    }

    open spec fn spec_align() -> nat {
        8
    }

    open spec fn decode(bytes: Seq<u8>) -> u64 {
        vstd::bytes::spec_u64_from_le_bytes(bytes)
    }

    proof fn layout_is_valid() {
        vstd::arithmetic::power2::lemma2_to64();
        assert(vstd::arithmetic::power2::pow2(3) == 8);
    }

    fn size() -> (size: usize) {
        8
    }

    fn align() -> (align: usize) {
        8
    }

    fn read(bytes: &[u8]) -> (value: u64) {
        vstd::bytes::u64_from_le_bytes(bytes)
    }
}

/// A size as it stands in an archive: 32 bits wide.
#[derive(Clone, Copy, Debug, PartialEq, Eq)]
pub struct ArchivedUsize {
    pub native: u32,
}

impl ArchivedUsize {
    /// The archived form of a native size, of which 32 bits are kept.
    pub fn resolve(native: usize) -> (archived: ArchivedUsize)
        ensures
            archived.native == native as u32,
    {
        ArchivedUsize {
            native: #[verifier::truncate]
            (native as u32),
        }
    }

    pub fn to_native(&self) -> (native: u32)
        ensures
            native == self.native,
    {
        self.native
    }
}

/// A pointer in an archive: the distance to its target from its own position.
#[derive(Clone, Copy, Debug, PartialEq, Eq)]
pub struct RawRelPtr {
    /// The position of the pointer itself.
    pub pos: usize,
    /// The distance to the target.
    pub offset: i32,
}

impl RawRelPtr {
    /// The position that the pointer leads to.
    pub open spec fn target(self) -> int {
        self.pos + self.offset
    }

    /// The pointer at `pos` that leads to `target`.
    pub fn emplace(target: usize, pos: usize) -> (ptr: RawRelPtr)
        requires
            i32::MIN <= target - pos <= i32::MAX,
        ensures
            ptr.pos == pos,
            ptr.target() == target,
            pos + ptr.offset == target,
    {
        RawRelPtr { pos, offset: (target as i128 - pos as i128) as i32 }
    }

    /// The pointer at `pos` that leads nowhere.
    pub fn emplace_invalid(pos: usize) -> (ptr: RawRelPtr)
        ensures
            ptr.pos == pos,
            ptr.offset == 1,
    {
        RawRelPtr { pos, offset: 1 }
    }

    /// The position that the pointer leads to, where it is one.
    pub fn as_position(&self) -> (position: usize)
        requires
            0 <= self.target() <= usize::MAX,
        ensures
            position == self.target(),
            position == self.pos + self.offset,
    {
        (self.pos as i128 + self.offset as i128) as usize
    }
}

} // verus!
