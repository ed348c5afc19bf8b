//! Byte strings in an archive.

use vstd::prelude::*;

use crate::archive::Portable;
use crate::ser::Archive;
use crate::ser::Serialize;
use crate::ser::Writer;

verus! {

/// A byte string.
///
/// In an archive its bytes stand apart from its archived form, which leads to them.
pub struct Bytes {
    pub bytes: Vec<u8>,
}

/// The archived form of a byte string: how far its bytes lie in front of it, and how
/// many they are. Of both numbers 32 bits are kept.
#[derive(Clone, Copy, Debug, PartialEq, Eq)]
pub struct ArchivedBytes {
    pub back: u32,
    pub len: u32,
}

impl Portable for ArchivedBytes {
    open spec fn spec_size() -> nat {
        8
    }

    open spec fn spec_align() -> nat {
        4
    }

    open spec fn decode(bytes: Seq<u8>) -> ArchivedBytes {
        ArchivedBytes {
            back: vstd::bytes::spec_u32_from_le_bytes(bytes.subrange(0, 4)),
            len: vstd::bytes::spec_u32_from_le_bytes(bytes.subrange(4, 8)),
        }
    }

    proof fn layout_is_valid() {
        vstd::arithmetic::power2::lemma2_to64();
        assert(vstd::arithmetic::power2::pow2(2) == 4);
    }

    fn size() -> (size: usize) {
        8
    }

    fn align() -> (align: usize) {
        4
    }

    fn read(bytes: &[u8]) -> (value: ArchivedBytes) {
        ArchivedBytes {
            back: vstd::bytes::u32_from_le_bytes(vstd::slice::slice_subrange(bytes, 0, 4)),
            len: vstd::bytes::u32_from_le_bytes(vstd::slice::slice_subrange(bytes, 4, 8)),
        }
    }
}

impl Archive for Bytes {
    type Archived = ArchivedBytes;

    /// The position of the bytes.
    type Resolver = usize;

    open spec fn resolved(&self, resolver: usize, pos: int) -> Seq<u8> {
        vstd::bytes::spec_u32_to_le_bytes((pos as usize).wrapping_sub(resolver) as u32)
            + vstd::bytes::spec_u32_to_le_bytes(self.bytes@.len() as u32)
    }

    proof fn resolved_size(&self, resolver: usize, pos: int) {
        vstd::bytes::lemma_auto_spec_u32_to_from_le_bytes();
    }

    fn resolve(&self, resolver: &usize, pos: usize) -> (bytes: Vec<u8>) {
        let back: u32 = #[verifier::truncate]
        (pos.wrapping_sub(*resolver) as u32);
        let len: u32 = #[verifier::truncate]
        (self.bytes.len() as u32);
        let mut bytes = vstd::bytes::u32_to_le_bytes(back);
        let mut end = vstd::bytes::u32_to_le_bytes(len);
        bytes.append(&mut end);
        bytes
    }
}

impl<S: Writer> Serialize<S> for Bytes {
    open spec fn may_serialize(&self, before: Seq<u8>, resolver: usize, after: Seq<u8>) -> bool {
        resolver == before.len() && after == before + self.bytes@
    }

    open spec fn may_fail(&self, before: Seq<u8>, error: S::Error, after: Seq<u8>) -> bool {
        S::may_refuse(before, self.bytes@, error, after)
    }

    fn serialize(&self, serializer: &mut S) -> (result: Result<usize, S::Error>) {
        let pos = serializer.pos();
        match serializer.write(self.bytes.as_slice()) {
            Ok(()) => Ok(pos),
            Err(error) => Err(error),
        }
    }
}

/// A byte string refers to its bytes: writing it appends them, and its resolver is where
/// they start. It fails just if the writer refuses them.
pub proof fn law_bytes_are_written<S: Writer>(
    bytes: Bytes,
    before: Seq<u8>,
    resolver: usize,
    after: Seq<u8>,
    error: S::Error,
)
    ensures
        <Bytes as Serialize<S>>::may_serialize(&bytes, before, resolver, after) <==> resolver
            == before.len() && after == before + bytes.bytes@,
        <Bytes as Serialize<S>>::may_fail(&bytes, before, error, after) <==> S::may_refuse(
            before,
            bytes.bytes@,
            error,
            after,
        ),
{
}

/// The archived form of a byte string leads back to its bytes, as long as the
/// distance to them and their number fit in it.
pub proof fn law_bytes_lead_back(bytes: Bytes, resolver: usize, pos: int)
    requires
        resolver <= pos <= usize::MAX,
        pos - resolver <= u32::MAX,
        bytes.bytes@.len() <= u32::MAX,
    ensures
        ({
            let archived = ArchivedBytes::decode(bytes.resolved(resolver, pos));
            &&& pos - archived.back == resolver
            &&& archived.len == bytes.bytes@.len()
        }),
{
    let resolved = bytes.resolved(resolver, pos);
    let back = (pos as usize).wrapping_sub(resolver) as u32;
    let len = bytes.bytes@.len() as u32;
    vstd::bytes::lemma_auto_spec_u32_to_from_le_bytes();
    assert(vstd::bytes::spec_u32_to_le_bytes(back).len() == 4);
    assert(vstd::bytes::spec_u32_to_le_bytes(len).len() == 4);
    assert(resolved.subrange(0, 4) =~= vstd::bytes::spec_u32_to_le_bytes(back));
    assert(resolved.subrange(4, 8) =~= vstd::bytes::spec_u32_to_le_bytes(len));
}

} // verus!
