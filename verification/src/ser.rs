//! Writing values to a byte archive.

use vstd::prelude::*;

use crate::archive::Layout;
use crate::archive::Portable;

verus! {

/// One block of scratch memory changing hands.
pub enum Loan {
    /// The block was lent.
    Lent(Layout),
    /// The block that was lent last was given back.
    Returned(Layout),
}

/// The blocks of memory that are still lent after `loans`, in the order of lending.
pub open spec fn lent(loans: Seq<Loan>) -> Seq<Layout>
    decreases loans.len(),
{
    if loans.len() == 0 {
        Seq::empty()
    } else {
        match loans.last() {
            Loan::Lent(layout) => lent(loans.drop_last()).push(layout),
            Loan::Returned(layout) => lent(loans.drop_last()).drop_last(),
        }
    }
}

/// Lending and giving back one more block.
pub proof fn lemma_lent_step(loans: Seq<Loan>, layout: Layout)
    ensures
        lent(loans.push(Loan::Lent(layout))) == lent(loans).push(layout),
        lent(loans.push(Loan::Returned(layout))) == lent(loans).drop_last(),
{
    assert(loans.push(Loan::Lent(layout)).drop_last() =~= loans);
    assert(loans.push(Loan::Returned(layout)).drop_last() =~= loans);
}

/// A prefix of a prefix is a prefix.
pub proof fn lemma_prefix<A>(first: Seq<A>, second: Seq<A>, third: Seq<A>)
    requires
        first.is_prefix_of(second),
        second.is_prefix_of(third),
    ensures
        first.is_prefix_of(third),
{
    assert forall|i: int| 0 <= i < first.len() implies third[i] == first[i] by {
        assert(second.subrange(0, first.len() as int)[i] == second[i]);
        assert(third.subrange(0, second.len() as int)[i] == third[i]);
    }
    assert(third.subrange(0, first.len() as int) =~= first);
}

/// A sequence is a prefix of itself with more behind it.
pub proof fn lemma_prefix_push<A>(first: Seq<A>, more: A)
    ensures
        first.is_prefix_of(first),
        first.is_prefix_of(first.push(more)),
{
    assert(first.push(more).subrange(0, first.len() as int) =~= first);
}

/// What an archive is written with.
pub trait Serializer {
    type Error;

    /// The bytes that were written so far.
    spec fn written(&self) -> Seq<u8>;

    /// The blocks of scratch memory that were lent and given back so far.
    spec fn loans(&self) -> Seq<Loan>;
}

/// A sink for the bytes of an archive.
pub trait Writer: Serializer {
    /// Whether writing `bytes` after `written` may fail with `error` and leave `after`
    /// written.
    spec fn may_refuse(
        written: Seq<u8>,
        bytes: Seq<u8>,
        error: Self::Error,
        after: Seq<u8>,
    ) -> bool;

    /// The number of bytes that were written so far. No archive is larger than a block of
    /// memory.
    fn pos(&self) -> (pos: usize)
        ensures
            pos == self.written().len(),
            pos <= isize::MAX,
    ;

    /// Writes all of `bytes`.
    fn write(&mut self, bytes: &[u8]) -> (result: Result<(), Self::Error>)
        ensures
            final(self).loans() == old(self).loans(),
            match result {
                Ok(()) => final(self).written() == old(self).written() + bytes@,
                Err(error) => Self::may_refuse(
                    old(self).written(),
                    bytes@,
                    error,
                    final(self).written(),
                ),
            },
    ;
}

/// A source of scratch memory.
pub trait Allocator: Serializer {
    /// Whether lending a block of memory after `written` may fail with `error`.
    spec fn may_deny(written: Seq<u8>, layout: Layout, error: Self::Error) -> bool;

    /// Whether taking back a block of memory after `written` may fail with `error`.
    spec fn may_decline(written: Seq<u8>, layout: Layout, error: Self::Error) -> bool;

    /// Lends a block of memory. What it holds is not known.
    fn push_alloc(&mut self, layout: Layout) -> (result: Result<Vec<u8>, Self::Error>)
        requires
            layout.size > 0,
        ensures
            final(self).written() == old(self).written(),
            match result {
                Ok(block) => {
                    &&& block@.len() == layout.size
                    &&& final(self).loans() == old(self).loans().push(Loan::Lent(layout))
                },
                Err(error) => {
                    &&& Self::may_deny(old(self).written(), layout, error)
                    &&& final(self).loans() == old(self).loans()
                },
            },
    ;

    /// Takes back the block of memory that was lent last.
    fn pop_alloc(&mut self, block: Vec<u8>, layout: Layout) -> (result: Result<(), Self::Error>)
        requires
            block@.len() == layout.size,
            lent(old(self).loans()).len() > 0,
            lent(old(self).loans()).last() == layout,
        ensures
            final(self).written() == old(self).written(),
            match result {
                Ok(()) => final(self).loans() == old(self).loans().push(Loan::Returned(layout)),
                Err(error) => {
                    &&& Self::may_decline(old(self).written(), layout, error)
                    &&& final(self).loans() == old(self).loans()
                },
            },
    ;
}

/// A type that has an archived form.
pub trait Archive {
    /// The archived form.
    type Archived: Portable;

    /// What must be known to make the archived form.
    type Resolver;

    /// The bytes of the archived form at position `pos`.
    spec fn resolved(&self, resolver: Self::Resolver, pos: int) -> Seq<u8>;

    /// The archived form has the size of its type.
    proof fn resolved_size(&self, resolver: Self::Resolver, pos: int)
        ensures
            self.resolved(resolver, pos).len() == Self::Archived::spec_size(),
    ;

    /// Makes the archived form for position `pos`.
    fn resolve(&self, resolver: &Self::Resolver, pos: usize) -> (bytes: Vec<u8>)
        ensures
            bytes@ == self.resolved(*resolver, pos as int),
    ;
}

/// A type whose values can be written to an archive.
pub trait Serialize<S: Writer>: Archive {
    /// Whether writing what a value refers to, after `before`, may give
    /// `resolver` and leave `after` written.
    spec fn may_serialize(
        &self,
        before: Seq<u8>,
        resolver: Self::Resolver,
        after: Seq<u8>,
    ) -> bool;

    /// Whether writing what a value refers to, after `before`, may fail with
    /// `error` and leave `after` written.
    spec fn may_fail(&self, before: Seq<u8>, error: S::Error, after: Seq<u8>) -> bool;

    /// Writes what the value refers to. The scratch memory that this takes is given
    /// back, unless it fails.
    fn serialize(&self, serializer: &mut S) -> (result: Result<Self::Resolver, S::Error>)
        ensures
            old(serializer).loans().is_prefix_of(final(serializer).loans()),
            match result {
                Ok(resolver) => {
                    &&& self.may_serialize(
                        old(serializer).written(),
                        resolver,
                        final(serializer).written(),
                    )
                    &&& lent(final(serializer).loans()) == lent(old(serializer).loans())
                },
                Err(error) => {
                    &&& self.may_fail(
                        old(serializer).written(),
                        error,
                        final(serializer).written(),
                    )
                    &&& lent(old(serializer).loans()).is_prefix_of(
                        lent(final(serializer).loans()),
                    )
                },
            },
    ;
}

/// The number of bytes between `pos` and the next multiple of `align`.
pub open spec fn padding(pos: int, align: int) -> int {
    (align - pos % align) % align
}

/// `n` zero bytes.
pub open spec fn zeros(n: int) -> Seq<u8> {
    Seq::new(n as nat, |i: int| 0u8)
}

/// Padding leads to a multiple of the alignment.
pub proof fn law_padding_aligns(pos: int, align: int)
    requires
        align > 0,
        pos >= 0,
    ensures
        0 <= padding(pos, align) < align,
        (pos + padding(pos, align)) % align == 0,
{
    vstd::arithmetic::div_mod::lemma_mod_bound(align - pos % align, align);
    vstd::arithmetic::div_mod::lemma_add_mod_noop_right(pos, align - pos % align, align);
    vstd::arithmetic::div_mod::lemma_sub_mod_noop_right(pos + align, pos, align);
    vstd::arithmetic::div_mod::lemma_mod_self_0(align);
}

/// Zero bytes are as many as asked for, and each of them is zero.
pub proof fn law_zeros(n: int)
    requires
        n >= 0,
    ensures
        zeros(n).len() == n,
        forall|i: int| 0 <= i < n ==> #[trigger] zeros(n)[i] == 0,
{
}

/// Nothing is lent at first. A block is lent from when it changes hands until it is given
/// back, and the block that was lent last is given back first.
pub proof fn law_lent(loans: Seq<Loan>, layout: Layout)
    ensures
        lent(Seq::empty()) == Seq::<Layout>::empty(),
        lent(loans.push(Loan::Lent(layout))) == lent(loans).push(layout),
        lent(loans.push(Loan::Lent(layout)).push(Loan::Returned(layout))) == lent(loans),
{
    lemma_lent_step(loans, layout);
    lemma_lent_step(loans.push(Loan::Lent(layout)), layout);
    assert(lent(loans).push(layout).drop_last() =~= lent(loans));
}

/// A buffer refuses bytes just if it would grow beyond a block of memory, and keeps what
/// it has then. It lends any block of memory, and takes any back.
pub proof fn law_buffer(
    written: Seq<u8>,
    bytes: Seq<u8>,
    layout: Layout,
    error: BufferFull,
    after: Seq<u8>,
)
    ensures
        Buffer::may_refuse(written, bytes, error, after) <==> written.len() + bytes.len()
            > isize::MAX && after == written,
        !Buffer::may_deny(written, layout, error),
        !Buffer::may_decline(written, layout, error),
{
}

/// A bounded buffer refuses bytes just if they exceed its limit, and a block of memory
/// just if it is larger than its limit. It keeps what it has then.
pub proof fn law_bounded_buffer(
    written: Seq<u8>,
    bytes: Seq<u8>,
    layout: Layout,
    error: LimitReached,
    after: Seq<u8>,
)
    ensures
        BoundedBuffer::may_refuse(written, bytes, error, after) <==> error.pos == written.len()
            && written.len() + bytes.len() > error.limit && after == written,
        BoundedBuffer::may_deny(written, layout, error) <==> error.pos == written.len()
            && layout.size > error.limit,
        !BoundedBuffer::may_decline(written, layout, error),
{
}

/// An integer refers to nothing: writing it writes nothing by itself, and cannot fail. It
/// stands in an archive as its little-endian bytes, as many as the type has and aligned
/// to their number.
pub proof fn law_integers<S: Writer>(
    n: u64,
    m: u32,
    bytes: Seq<u8>,
    pos: int,
    before: Seq<u8>,
    after: Seq<u8>,
    error: S::Error,
)
    ensures
        <u64 as Serialize<S>>::may_serialize(&n, before, (), after) <==> after == before,
        <u32 as Serialize<S>>::may_serialize(&m, before, (), after) <==> after == before,
        !<u64 as Serialize<S>>::may_fail(&n, before, error, after),
        !<u32 as Serialize<S>>::may_fail(&m, before, error, after),
        n.resolved((), pos) == vstd::bytes::spec_u64_to_le_bytes(n),
        m.resolved((), pos) == vstd::bytes::spec_u32_to_le_bytes(m),
        u64::decode(bytes) == vstd::bytes::spec_u64_from_le_bytes(bytes),
        u32::decode(bytes) == vstd::bytes::spec_u32_from_le_bytes(bytes),
        u64::spec_size() == 8 && u64::spec_align() == 8,
        u32::spec_size() == 4 && u32::spec_align() == 4,
{
}

/// Writes zero bytes up to the next multiple of `align`.
pub fn align_to<S: Writer>(serializer: &mut S, align: usize) -> (result: Result<usize, S::Error>)
    requires
        align > 0,
    ensures
        final(serializer).loans() == old(serializer).loans(),
        ({
            let before = old(serializer).written();
            let pad = zeros(padding(before.len() as int, align as int));
            match result {
                Ok(pos) => {
                    &&& final(serializer).written() == before + pad
                    &&& pos == before.len() + pad.len()
                    &&& pos <= isize::MAX
                    &&& pos as int % align as int == 0
                    &&& before.len() <= pos < before.len() + align
                },
                Err(error) => S::may_refuse(before, pad, error, final(serializer).written()),
            }
        }),
{
    let pos = serializer.pos();
    let count = (align - pos % align) % align;
    let ghost before = serializer.written();
    proof {
        law_padding_aligns(pos as int, align as int);
    }
    if count > 0 {
        let pad: Vec<u8> = vec![0u8; count];
        assert(pad@ =~= zeros(padding(pos as int, align as int)));
        match serializer.write(pad.as_slice()) {
            Ok(()) => {},
            Err(error) => return Err(error),
        }
    } else {
        assert(before + zeros(0) =~= before);
    }
    Ok(serializer.pos())
}

/// A writer that keeps the archive in memory.
pub struct Buffer {
    bytes: Vec<u8>,
    loans: Ghost<Seq<Loan>>,
}

/// A buffer cannot grow any further.
#[derive(Clone, Copy, Debug, PartialEq, Eq)]
pub struct BufferFull;

impl Buffer {
    /// A buffer with nothing written to it.
    pub fn new() -> (buffer: Buffer)
        ensures
            buffer.written() == Seq::<u8>::empty(),
            buffer.loans() == Seq::<Loan>::empty(),
    {
        Buffer { bytes: Vec::new(), loans: Ghost(Seq::empty()) }
    }

    /// A buffer is no larger than a block of memory.
    #[verifier::type_invariant]
    spec fn wf(self) -> bool {
        self.bytes@.len() <= isize::MAX
    }

    /// The archive.
    pub fn into_bytes(self) -> (bytes: Vec<u8>)
        ensures
            bytes@ == self.written(),
    {
        self.bytes
    }
}

impl Serializer for Buffer {
    type Error = BufferFull;

    closed spec fn written(&self) -> Seq<u8> {
        self.bytes@
    }

    closed spec fn loans(&self) -> Seq<Loan> {
        self.loans@
    }
}

impl Writer for Buffer {
    open spec fn may_refuse(
        written: Seq<u8>,
        bytes: Seq<u8>,
        error: BufferFull,
        after: Seq<u8>,
    ) -> bool {
        &&& written.len() + bytes.len() > isize::MAX
        &&& after == written
    }

    fn pos(&self) -> (pos: usize) {
        proof {
            use_type_invariant(self);
        }
        self.bytes.len()
    }

    fn write(&mut self, bytes: &[u8]) -> (result: Result<(), BufferFull>)
        ensures
            result is Ok <==> old(self).written().len() + bytes@.len() <= isize::MAX,
    {
        proof {
            use_type_invariant(&*self);
        }
        if bytes.len() > isize::MAX as usize - self.bytes.len() {
            return Err(BufferFull);
        }
        let mut grown: Vec<u8> = Vec::new();
        core::mem::swap(&mut grown, &mut self.bytes);
        let ghost before = grown@;
        grown.extend_from_slice(bytes);
        assert(grown@ =~= before + bytes@);
        self.bytes = grown;
        Ok(())
    }
}

impl Allocator for Buffer {
    open spec fn may_deny(written: Seq<u8>, layout: Layout, error: BufferFull) -> bool {
        false
    }

    open spec fn may_decline(written: Seq<u8>, layout: Layout, error: BufferFull) -> bool {
        false
    }

    fn push_alloc(&mut self, layout: Layout) -> (result: Result<Vec<u8>, BufferFull>)
        ensures
            result is Ok,
    {
        proof {
            use_type_invariant(&*self);
            self.loans@ = self.loans@.push(Loan::Lent(layout));
        }
        Ok(vec![0u8; layout.size])
    }

    fn pop_alloc(&mut self, block: Vec<u8>, layout: Layout) -> (result: Result<(), BufferFull>)
        ensures
            result is Ok,
    {
        proof {
            use_type_invariant(&*self);
            self.loans@ = self.loans@.push(Loan::Returned(layout));
        }
        Ok(())
    }
}

/// A writer that keeps an archive of bounded size in memory.
pub struct BoundedBuffer {
    bytes: Vec<u8>,
    limit: usize,
    loans: Ghost<Seq<Loan>>,
}

/// A bounded buffer has no room for some bytes, or for a block of memory.
#[derive(Clone, Copy, Debug, PartialEq, Eq)]
pub struct LimitReached {
    /// The number of bytes that were written before.
    pub pos: usize,
    /// The number of bytes for which the buffer has room.
    pub limit: usize,
}

impl BoundedBuffer {
    /// A buffer for `limit` bytes, with nothing written to it. No buffer is larger
    /// than a block of memory.
    pub fn new(limit: usize) -> (buffer: BoundedBuffer)
        ensures
            buffer.written() == Seq::<u8>::empty(),
            buffer.loans() == Seq::<Loan>::empty(),
            buffer.limit() == if limit <= isize::MAX {
                limit as int
            } else {
                isize::MAX as int
            },
    {
        BoundedBuffer {
            bytes: Vec::new(),
            limit: if limit <= isize::MAX as usize {
                limit
            } else {
                isize::MAX as usize
            },
            loans: Ghost(Seq::empty()),
        }
    }

    /// The number of bytes for which the buffer has room.
    pub closed spec fn limit(self) -> int {
        self.limit as int
    }

    /// A buffer keeps to its limit.
    #[verifier::type_invariant]
    spec fn wf(self) -> bool {
        self.bytes@.len() <= self.limit <= isize::MAX
    }

    /// The archive.
    pub fn into_bytes(self) -> (bytes: Vec<u8>)
        ensures
            bytes@ == self.written(),
    {
        self.bytes
    }
}

impl Serializer for BoundedBuffer {
    type Error = LimitReached;

    closed spec fn written(&self) -> Seq<u8> {
        self.bytes@
    }

    closed spec fn loans(&self) -> Seq<Loan> {
        self.loans@
    }
}

impl Writer for BoundedBuffer {
    open spec fn may_refuse(
        written: Seq<u8>,
        bytes: Seq<u8>,
        error: LimitReached,
        after: Seq<u8>,
    ) -> bool {
        &&& error.pos == written.len()
        &&& written.len() + bytes.len() > error.limit
        &&& after == written
    }

    fn pos(&self) -> (pos: usize) {
        proof {
            use_type_invariant(self);
        }
        self.bytes.len()
    }

    fn write(&mut self, bytes: &[u8]) -> (result: Result<(), LimitReached>)
        ensures
            final(self).limit() == old(self).limit(),
            result is Ok <==> old(self).written().len() + bytes@.len() <= old(self).limit(),
            result matches Err(error) ==> error.limit == old(self).limit(),
    {
        proof {
            use_type_invariant(&*self);
        }
        if bytes.len() > self.limit - self.bytes.len() {
            return Err(LimitReached { pos: self.bytes.len(), limit: self.limit });
        }
        let mut grown: Vec<u8> = Vec::new();
        core::mem::swap(&mut grown, &mut self.bytes);
        let ghost before = grown@;
        grown.extend_from_slice(bytes);
        assert(grown@ =~= before + bytes@);
        self.bytes = grown;
        Ok(())
    }
}

/// A bounded buffer lends no block of memory that is larger than itself.
impl Allocator for BoundedBuffer {
    open spec fn may_deny(written: Seq<u8>, layout: Layout, error: LimitReached) -> bool {
        &&& error.pos == written.len()
        &&& layout.size > error.limit
    }

    open spec fn may_decline(written: Seq<u8>, layout: Layout, error: LimitReached) -> bool {
        false
    }

    fn push_alloc(&mut self, layout: Layout) -> (result: Result<Vec<u8>, LimitReached>)
        ensures
            final(self).limit() == old(self).limit(),
            result is Ok <==> layout.size <= old(self).limit(),
            result matches Err(error) ==> error.limit == old(self).limit(),
    {
        if layout.size > self.limit {
            return Err(LimitReached { pos: self.bytes.len(), limit: self.limit });
        }
        proof {
            use_type_invariant(&*self);
            self.loans@ = self.loans@.push(Loan::Lent(layout));
        }
        Ok(vec![0u8; layout.size])
    }

    fn pop_alloc(&mut self, block: Vec<u8>, layout: Layout) -> (result: Result<(), LimitReached>)
        ensures
            final(self).limit() == old(self).limit(),
            result is Ok,
    {
        proof {
            use_type_invariant(&*self);
            self.loans@ = self.loans@.push(Loan::Returned(layout));
        }
        Ok(())
    }
}

impl Archive for u64 {
    type Archived = u64;

    type Resolver = ();

    open spec fn resolved(&self, resolver: (), pos: int) -> Seq<u8> {
        vstd::bytes::spec_u64_to_le_bytes(*self)
    }

    proof fn resolved_size(&self, resolver: (), pos: int) {
        vstd::bytes::lemma_auto_spec_u64_to_from_le_bytes();
    }

    fn resolve(&self, resolver: &(), pos: usize) -> (bytes: Vec<u8>) {
        vstd::bytes::u64_to_le_bytes(*self)
    }
}

impl<S: Writer> Serialize<S> for u64 {
    open spec fn may_serialize(&self, before: Seq<u8>, resolver: (), after: Seq<u8>) -> bool {
        after == before
    }

    open spec fn may_fail(&self, before: Seq<u8>, error: S::Error, after: Seq<u8>) -> bool {
        false
    }

    fn serialize(&self, serializer: &mut S) -> (result: Result<(), S::Error>)
        ensures
            result is Ok,
            final(serializer).written() == old(serializer).written(),
            final(serializer).loans() == old(serializer).loans(),
    {
        Ok(())
    }
}

impl Archive for u32 {
    type Archived = u32;

    type Resolver = ();

    open spec fn resolved(&self, resolver: (), pos: int) -> Seq<u8> {
        vstd::bytes::spec_u32_to_le_bytes(*self)
    }

    proof fn resolved_size(&self, resolver: (), pos: int) {
        vstd::bytes::lemma_auto_spec_u32_to_from_le_bytes();
    }

    fn resolve(&self, resolver: &(), pos: usize) -> (bytes: Vec<u8>) {
        vstd::bytes::u32_to_le_bytes(*self)
    }
}

impl<S: Writer> Serialize<S> for u32 {
    open spec fn may_serialize(&self, before: Seq<u8>, resolver: (), after: Seq<u8>) -> bool {
        after == before
    }

    open spec fn may_fail(&self, before: Seq<u8>, error: S::Error, after: Seq<u8>) -> bool {
        false
    }

    fn serialize(&self, serializer: &mut S) -> (result: Result<(), S::Error>)
        ensures
            result is Ok,
            final(serializer).written() == old(serializer).written(),
            final(serializer).loans() == old(serializer).loans(),
    {
        Ok(())
    }
}

/// An integer is read back from its archived form, wherever that stands.
pub proof fn law_integers_read_back()
    ensures
        forall|n: u64, resolver: (), pos: int|
            u64::decode(#[trigger] n.resolved(resolver, pos)) == n,
        forall|n: u32, resolver: (), pos: int|
            u32::decode(#[trigger] n.resolved(resolver, pos)) == n,
{
    vstd::bytes::lemma_auto_spec_u64_to_from_le_bytes();
    vstd::bytes::lemma_auto_spec_u32_to_from_le_bytes();
    assert forall|n: u32, resolver: (), pos: int|
        u32::decode(#[trigger] n.resolved(resolver, pos)) == n by {
        assert(vstd::bytes::spec_u32_to_le_bytes(n).len() == 4);
    }
}

} // verus!
