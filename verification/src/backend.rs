//! Block storage capability: opaque block identifiers and raw block
//! allocation, reads and writes.
//!
//! The logical state of a backend is a pair of spec views: the set of ids
//! handed out so far and the map from written ids to their raw contents.
//! The [`memory`](crate::memory) module holds the reference implementation.

use crate::bytes::{Error, Reader, Writer};
use vstd::prelude::*;

verus! {

/// An opaque identifier for one storage block of a backend.
///
/// Every implementation reserves a distinguished null value that never
/// denotes an allocated block; linked structures use it as a terminator.
/// An id has a fixed-width wire encoding, so block headers that carry ids
/// stay bit-exact.
pub trait BlockId: Copy + Sized {
    /// The reserved sentinel meaning "no block".
    spec fn null_spec() -> Self;

    /// The width of the wire encoding, in bytes.
    spec fn wire_width() -> nat;

    /// The fixed-width wire encoding of this id.
    spec fn wire_enc(self) -> Seq<u8>;

    /// The id a byte string of the wire width decodes to.
    spec fn wire_dec(s: Seq<u8>) -> Self;

    /// The wire encoding has the wire width and decodes back to the id.
    proof fn lemma_wire_round_trip(self)
        ensures
            self.wire_enc().len() == Self::wire_width(),
            Self::wire_dec(self.wire_enc()) == self,
    ;

    /// The reserved sentinel, as a value.
    fn null() -> (r: Self)
        ensures
            r == Self::null_spec(),
    ;

    /// Whether this id is the sentinel.
    fn is_null(&self) -> (r: bool)
        ensures
            r == (*self == Self::null_spec()),
    ;

    /// Whether two ids denote the same block.
    fn eq_id(&self, other: &Self) -> (r: bool)
        ensures
            r == (*self == *other),
    ;

    /// Appends the wire encoding of this id to a writer.
    fn put(&self, w: &mut Writer)
        ensures
            final(w).bytes() == old(w).bytes() + self.wire_enc(),
    ;

    /// Decodes one id from a reader; on failure nothing is consumed.
    fn get<'a>(r: &mut Reader<'a>) -> (res: Result<Self, Error>)
        requires
            old(r).wf(),
        ensures
            final(r).wf(),
            match res {
                Ok(id) => {
                    &&& old(r).remaining().len() >= Self::wire_width()
                    &&& final(r).remaining() == old(r).remaining().skip(
                        Self::wire_width() as int,
                    )
                    &&& id == Self::wire_dec(
                        old(r).remaining().take(Self::wire_width() as int),
                    )
                },
                Err(e) => {
                    &&& *final(r) == *old(r)
                    &&& old(r).remaining().len() < Self::wire_width()
                    &&& e matches Error::Eof(None)
                },
            },
    ;
}

/// Abstraction over physical block storage: allocate, write and read whole
/// blocks by id.
///
/// Blocks are created by allocation, mutated by `write` and read by `read`;
/// this layer never deletes a block.  The contracts pin each operation to
/// the two spec views [`Backend::allocated`] and [`Backend::blocks`].
pub trait Backend: Sized {
    /// The block id type of this backend.
    type Id: BlockId;

    /// The backend-specific error type.
    type Err: core::fmt::Debug;

    /// The backend-specific creation options.
    type Options;

    /// The implementation's internal consistency condition.
    spec fn inv(&self) -> bool;

    /// The ids handed out so far, written or not.
    spec fn allocated(&self) -> Set<Self::Id>;

    /// The raw contents of every block written so far.
    spec fn blocks(&self) -> Map<Self::Id, Seq<u8>>;

    /// Every written block was allocated, and the sentinel never is.
    proof fn lemma_inv(&self)
        requires
            self.inv(),
        ensures
            self.blocks().dom().subset_of(self.allocated()),
            !self.allocated().contains(Self::Id::null_spec()),
    ;

    /// Builds a backend instance holding no blocks.
    fn create(options: Self::Options) -> (r: Result<Self, Self::Err>)
        ensures
            match r {
                Ok(b) => {
                    &&& b.inv()
                    &&& b.allocated() == Set::<Self::Id>::empty()
                    &&& b.blocks() == Map::<Self::Id, Seq<u8>>::empty()
                },
                Err(_) => true,
            },
    ;

    /// Allocates a fresh block id: not the sentinel and not currently in
    /// use.  Fails only on backend-specific resource exhaustion.
    fn aquire(&mut self) -> (r: Result<Self::Id, Self::Err>)
        requires
            old(self).inv(),
        ensures
            final(self).inv(),
            match r {
                Ok(id) => {
                    &&& !old(self).allocated().contains(id)
                    &&& id != Self::Id::null_spec()
                    &&& final(self).allocated() == old(self).allocated().insert(id)
                    &&& final(self).blocks() == old(self).blocks()
                },
                Err(_) => *final(self) == *old(self),
            },
    ;

    /// Overwrites the stored content of `id` with exactly `bytes`.  Fails
    /// if and only if `id` was never allocated by this backend.
    fn write(&mut self, id: &Self::Id, bytes: &[u8]) -> (r: Result<(), Self::Err>)
        requires
            old(self).inv(),
        ensures
            final(self).inv(),
            match r {
                Ok(_) => {
                    &&& old(self).allocated().contains(*id)
                    &&& final(self).allocated() == old(self).allocated()
                    &&& final(self).blocks() == old(self).blocks().insert(*id, bytes@)
                },
                Err(_) => {
                    &&& !old(self).allocated().contains(*id)
                    &&& *final(self) == *old(self)
                },
            },
    ;

    /// Returns the previously written content of `id`, verbatim.  Fails if
    /// and only if `id` was never written.
    fn read(&mut self, id: &Self::Id) -> (r: Result<Vec<u8>, Self::Err>)
        requires
            old(self).inv(),
        ensures
            final(self).inv(),
            final(self).allocated() == old(self).allocated(),
            final(self).blocks() == old(self).blocks(),
            match r {
                Ok(v) => {
                    &&& old(self).blocks().contains_key(*id)
                    &&& v@ == old(self).blocks()[*id]
                },
                Err(_) => !old(self).blocks().contains_key(*id),
            },
    ;
}

} // verus!
