//! Reference in-memory backend: all block contents live in an addressable
//! table keyed by id.  It exists to validate the container and stream
//! layers deterministically and is not a production backend.

use crate::backend::{Backend, BlockId};
use crate::bytes::{
    be_enc, be_nat, lemma_be_nat_bound, lemma_codec_round_trip, lemma_pow256_vals, Error, Reader,
    Writer,
};
use vstd::prelude::*;
use vstd::slice::slice_to_vec;

verus! {

/// Identifier of one block of the in-memory backend.
///
/// The value zero is the reserved null sentinel; allocated ids count up
/// monotonically from one.  The wire encoding is four bytes, big-endian.
#[derive(Clone, Copy, Debug, PartialEq, Eq, Structural)]
pub struct MemId(u32);

impl BlockId for MemId {
    closed spec fn null_spec() -> Self {
        MemId(0)
    }

    closed spec fn wire_width() -> nat {
        4
    }

    closed spec fn wire_enc(self) -> Seq<u8> {
        be_enc(self.0 as nat, 4)
    }

    closed spec fn wire_dec(s: Seq<u8>) -> Self {
        MemId(be_nat(s) as u32)
    }

    proof fn lemma_wire_round_trip(self) {
        lemma_pow256_vals();
        lemma_codec_round_trip(self.0 as nat, 4);
    }

    fn null() -> (r: Self) {
        MemId(0)
    }

    fn is_null(&self) -> (r: bool) {
        self.0 == 0
    }

    fn eq_id(&self, other: &Self) -> (r: bool) {
        self.0 == other.0
    }

    fn put(&self, w: &mut Writer) {
        w.write_u32(self.0);
    }

    fn get<'a>(r: &mut Reader<'a>) -> (res: Result<Self, Error>) {
        proof {
            lemma_pow256_vals();
            lemma_be_nat_bound(old(r).remaining().take(4));
        }
        match r.read_u32() {
            Ok(v) => Ok(MemId(v)),
            Err(e) => Err(e),
        }
    }
}

/// Error type of the in-memory backend.
#[derive(Clone, Copy, Debug, PartialEq, Eq, Structural)]
pub enum MemErr {
    /// Every representable id is already handed out.
    Full,
    /// The id does not denote an allocated block of this backend.
    InvalidId,
    /// The block was allocated but never written.
    NoContent,
}

/// Creation options of the in-memory backend; it needs none.
pub struct MemOptions {}

impl MemOptions {
    /// The (empty) option set.
    pub fn new() -> MemOptions {
        MemOptions {  }
    }
}

/// Reference backend holding every block content in memory.
///
/// Entry `i` of the table belongs to id `i + 1`; an entry is `None` until
/// the block is first written.
#[derive(Debug)]
pub struct MemoryBackend {
    table: Vec<Option<Vec<u8>>>,
}

impl Backend for MemoryBackend {
    type Id = MemId;

    type Err = MemErr;

    type Options = MemOptions;

    closed spec fn inv(&self) -> bool {
        self.table@.len() <= 0xFFFF_FFFF
    }

    closed spec fn allocated(&self) -> Set<MemId> {
        Set::new(|id: MemId| 1 <= id.0 <= self.table@.len())
    }

    closed spec fn blocks(&self) -> Map<MemId, Seq<u8>> {
        Map::new(
            |id: MemId| 1 <= id.0 <= self.table@.len() && self.table@[id.0 - 1] is Some,
            |id: MemId| self.table@[id.0 - 1]->Some_0@,
        )
    }

    proof fn lemma_inv(&self) {
        assert forall|id: MemId| self.blocks().dom().contains(id) implies self.allocated()
            .contains(id) by {}
    }

    fn create(options: MemOptions) -> (r: Result<Self, MemErr>) {
        let b = MemoryBackend { table: Vec::new() };
        proof {
            assert(b.allocated() =~= Set::<MemId>::empty());
            assert(b.blocks() =~= Map::<MemId, Seq<u8>>::empty());
        }
        Ok(b)
    }

    fn aquire(&mut self) -> (r: Result<MemId, MemErr>) {
        if self.table.len() >= 0xFFFF_FFFF {
            return Err(MemErr::Full);
        }
        self.table.push(None);
        let id = MemId(self.table.len() as u32);
        proof {
            assert(self.allocated() =~= old(self).allocated().insert(id));
            assert(self.blocks() =~= old(self).blocks());
        }
        Ok(id)
    }

    fn write(&mut self, id: &MemId, bytes: &[u8]) -> (r: Result<(), MemErr>) {
        if id.0 == 0 || id.0 as usize > self.table.len() {
            return Err(MemErr::InvalidId);
        }
        let idx = (id.0 - 1) as usize;
        self.table[idx] = Some(slice_to_vec(bytes));
        proof {
            assert(self.allocated() =~= old(self).allocated());
            assert(self.blocks() =~= old(self).blocks().insert(*id, bytes@));
        }
        Ok(())
    }

    fn read(&mut self, id: &MemId) -> (r: Result<Vec<u8>, MemErr>) {
        if id.0 == 0 || id.0 as usize > self.table.len() {
            return Err(MemErr::InvalidId);
        }
        let idx = (id.0 - 1) as usize;
        match &self.table[idx] {
            Some(v) => Ok(slice_to_vec(v.as_slice())),
            None => Err(MemErr::NoContent),
        }
    }
}

} // verus!
