//! Builders for small containers holding prefabricated chains: one, two or
//! three blocks with known payloads.  They validate the container and
//! stream layers deterministically over the in-memory backend.

use crate::backend::{Backend, BlockId};
use crate::container::{Cipher, Container, ContainerResult, CreateOptionsBuilder};
use crate::memory::{MemId, MemOptions, MemoryBackend};
use crate::stream::{chain_payloads, is_chain, lemma_node_round_trip, node_enc, Block, Node};
use vstd::prelude::*;
use vstd::slice::slice_to_vec;

verus! {

/// A container over a fresh in-memory backend with the pass-through
/// cipher.
pub fn setup_container() -> (r: ContainerResult<Container<MemoryBackend>, MemoryBackend>)
    ensures
        match r {
            Ok(c) => {
                &&& c.inv()
                &&& c.allocated() == Set::<MemId>::empty()
                &&& c.blocks() == Map::<MemId, Seq<u8>>::empty()
            },
            Err(_) => true,
        },
{
    let options = match CreateOptionsBuilder::<MemoryBackend>::new(
        MemOptions::new(),
        Cipher::Off,
    ).build() {
        Ok(o) => o,
        Err(e) => {
            return Err(e);
        },
    };
    Container::create(options)
}

/// Writes one chain node at `id`: header plus payload, laid out exactly as
/// [`node_enc`] states.
pub fn make_block<B: Backend>(
    container: &mut Container<B>,
    id: &B::Id,
    head: bool,
    prev: &B::Id,
    next: &B::Id,
    payload: &[u8],
) -> (r: ContainerResult<(), B>)
    requires
        old(container).inv(),
        payload@.len() < 0x1_0000_0000,
    ensures
        final(container).inv(),
        final(container).cipher() == old(container).cipher(),
        final(container).allocated() == old(container).allocated(),
        match r {
            Ok(_) => {
                &&& old(container).allocated().contains(*id)
                &&& final(container).blocks() == old(container).blocks().insert(
                    *id,
                    node_enc((Node { head, prev: *prev, next: *next, payload: payload@ })),
                )
            },
            Err(_) => {
                &&& !old(container).allocated().contains(*id)
                &&& final(container).blocks() == old(container).blocks()
            },
        },
{
    let blk = Block { head, prev: *prev, next: *next, payload: slice_to_vec(payload) };
    let enc = blk.encode();
    container.write(id, enc.as_slice())
}

/// A container holding a one-block chain with the given payload; returns
/// the container and the block's id.
pub fn setup_one_with(payload: &[u8]) -> (r: ContainerResult<
    (Container<MemoryBackend>, MemId),
    MemoryBackend,
>)
    requires
        payload@.len() < 0x1_0000_0000,
    ensures
        match r {
            Ok((c, id)) => {
                &&& c.inv()
                &&& is_chain(c.blocks(), seq![id])
                &&& chain_payloads(c.blocks(), seq![id]) == seq![payload@]
            },
            Err(_) => true,
        },
{
    let mut container = match setup_container() {
        Ok(c) => c,
        Err(e) => {
            return Err(e);
        },
    };
    let id = match container.aquire() {
        Ok(i) => i,
        Err(e) => {
            return Err(e);
        },
    };
    let null = MemId::null();
    match make_block(&mut container, &id, true, &id, &null, payload) {
        Ok(_) => {},
        Err(e) => {
            return Err(e);
        },
    }
    proof {
        lemma_node_round_trip::<MemId>(
            (Node { head: true, prev: id, next: MemId::null_spec(), payload: payload@ }),
        );
        let m = container.blocks();
        let ids = seq![id];
        assert(!ids.contains(MemId::null_spec()));
        assert(ids.last() == id);
        assert(is_chain(m, ids));
        assert(chain_payloads(m, ids) =~= seq![payload@]);
    }
    Ok((container, id))
}

/// A container holding a one-block chain with payload `[1, 2, 3]`.
pub fn setup_one() -> (r: ContainerResult<(Container<MemoryBackend>, MemId), MemoryBackend>)
    ensures
        match r {
            Ok((c, id)) => {
                &&& c.inv()
                &&& is_chain(c.blocks(), seq![id])
                &&& chain_payloads(c.blocks(), seq![id]) == seq![seq![1u8, 2u8, 3u8]]
            },
            Err(_) => true,
        },
{
    let payload: [u8; 3] = [1, 2, 3];
    proof {
        assert(payload@ =~= seq![1u8, 2u8, 3u8]);
    }
    setup_one_with(payload.as_slice())
}

/// A container holding a two-block chain with the given payloads; returns
/// the container and the two ids, head first.
pub fn setup_two_with(payload1: &[u8], payload2: &[u8]) -> (r: ContainerResult<
    (Container<MemoryBackend>, (MemId, MemId)),
    MemoryBackend,
>)
    requires
        payload1@.len() < 0x1_0000_0000,
        payload2@.len() < 0x1_0000_0000,
    ensures
        match r {
            Ok((c, (id1, id2))) => {
                &&& c.inv()
                &&& is_chain(c.blocks(), seq![id1, id2])
                &&& chain_payloads(c.blocks(), seq![id1, id2]) == seq![payload1@, payload2@]
            },
            Err(_) => true,
        },
{
    let mut container = match setup_container() {
        Ok(c) => c,
        Err(e) => {
            return Err(e);
        },
    };
    let id1 = match container.aquire() {
        Ok(i) => i,
        Err(e) => {
            return Err(e);
        },
    };
    let id2 = match container.aquire() {
        Ok(i) => i,
        Err(e) => {
            return Err(e);
        },
    };
    let null = MemId::null();
    match make_block(&mut container, &id1, true, &id1, &id2, payload1) {
        Ok(_) => {},
        Err(e) => {
            return Err(e);
        },
    }
    match make_block(&mut container, &id2, false, &id1, &null, payload2) {
        Ok(_) => {},
        Err(e) => {
            return Err(e);
        },
    }
    proof {
        lemma_node_round_trip::<MemId>(
            (Node { head: true, prev: id1, next: id2, payload: payload1@ }),
        );
        lemma_node_round_trip::<MemId>(
            (Node { head: false, prev: id1, next: MemId::null_spec(), payload: payload2@ }),
        );
        let m = container.blocks();
        let ids = seq![id1, id2];
        assert(ids.no_duplicates());
        assert(!ids.contains(MemId::null_spec()));
        assert(ids.last() == id2);
        assert(is_chain(m, ids));
        assert(chain_payloads(m, ids) =~= seq![payload1@, payload2@]);
    }
    Ok((container, (id1, id2)))
}

/// A container holding a two-block chain with payloads `[1, 2, 3]` and
/// `[4, 5, 6]`.
pub fn setup_two() -> (r: ContainerResult<
    (Container<MemoryBackend>, (MemId, MemId)),
    MemoryBackend,
>)
    ensures
        match r {
            Ok((c, (id1, id2))) => {
                &&& c.inv()
                &&& is_chain(c.blocks(), seq![id1, id2])
                &&& chain_payloads(c.blocks(), seq![id1, id2]) == seq![
                    seq![1u8, 2u8, 3u8],
                    seq![4u8, 5u8, 6u8],
                ]
            },
            Err(_) => true,
        },
{
    let payload1: [u8; 3] = [1, 2, 3];
    let payload2: [u8; 3] = [4, 5, 6];
    proof {
        assert(payload1@ =~= seq![1u8, 2u8, 3u8]);
        assert(payload2@ =~= seq![4u8, 5u8, 6u8]);
    }
    setup_two_with(payload1.as_slice(), payload2.as_slice())
}

/// A container holding a three-block chain with the given payloads;
/// returns the container and the three ids, head first.
pub fn setup_three_with(payload1: &[u8], payload2: &[u8], payload3: &[u8]) -> (r: ContainerResult<
    (Container<MemoryBackend>, (MemId, MemId, MemId)),
    MemoryBackend,
>)
    requires
        payload1@.len() < 0x1_0000_0000,
        payload2@.len() < 0x1_0000_0000,
        payload3@.len() < 0x1_0000_0000,
    ensures
        match r {
            Ok((c, (id1, id2, id3))) => {
                &&& c.inv()
                &&& is_chain(c.blocks(), seq![id1, id2, id3])
                &&& chain_payloads(c.blocks(), seq![id1, id2, id3]) == seq![
                    payload1@,
                    payload2@,
                    payload3@,
                ]
            },
            Err(_) => true,
        },
{
    let mut container = match setup_container() {
        Ok(c) => c,
        Err(e) => {
            return Err(e);
        },
    };
    let id1 = match container.aquire() {
        Ok(i) => i,
        Err(e) => {
            return Err(e);
        },
    };
    let id2 = match container.aquire() {
        Ok(i) => i,
        Err(e) => {
            return Err(e);
        },
    };
    let id3 = match container.aquire() {
        Ok(i) => i,
        Err(e) => {
            return Err(e);
        },
    };
    let null = MemId::null();
    match make_block(&mut container, &id1, true, &id1, &id2, payload1) {
        Ok(_) => {},
        Err(e) => {
            return Err(e);
        },
    }
    match make_block(&mut container, &id2, false, &id1, &id3, payload2) {
        Ok(_) => {},
        Err(e) => {
            return Err(e);
        },
    }
    match make_block(&mut container, &id3, false, &id2, &null, payload3) {
        Ok(_) => {},
        Err(e) => {
            return Err(e);
        },
    }
    proof {
        lemma_node_round_trip::<MemId>(
            (Node { head: true, prev: id1, next: id2, payload: payload1@ }),
        );
        lemma_node_round_trip::<MemId>(
            (Node { head: false, prev: id1, next: id3, payload: payload2@ }),
        );
        lemma_node_round_trip::<MemId>(
            (Node { head: false, prev: id2, next: MemId::null_spec(), payload: payload3@ }),
        );
        let m = container.blocks();
        let ids = seq![id1, id2, id3];
        assert(ids.no_duplicates());
        assert(!ids.contains(MemId::null_spec()));
        assert(ids.last() == id3);
        assert(is_chain(m, ids));
        assert(chain_payloads(m, ids) =~= seq![payload1@, payload2@, payload3@]);
    }
    Ok((container, (id1, id2, id3)))
}

/// A container holding a three-block chain with payloads `[1, 2, 3]`,
/// `[4, 5, 6]` and `[7, 8, 9]`.
pub fn setup_three() -> (r: ContainerResult<
    (Container<MemoryBackend>, (MemId, MemId, MemId)),
    MemoryBackend,
>)
    ensures
        match r {
            Ok((c, (id1, id2, id3))) => {
                &&& c.inv()
                &&& is_chain(c.blocks(), seq![id1, id2, id3])
                &&& chain_payloads(c.blocks(), seq![id1, id2, id3]) == seq![
                    seq![1u8, 2u8, 3u8],
                    seq![4u8, 5u8, 6u8],
                    seq![7u8, 8u8, 9u8],
                ]
            },
            Err(_) => true,
        },
{
    let payload1: [u8; 3] = [1, 2, 3];
    let payload2: [u8; 3] = [4, 5, 6];
    let payload3: [u8; 3] = [7, 8, 9];
    proof {
        assert(payload1@ =~= seq![1u8, 2u8, 3u8]);
        assert(payload2@ =~= seq![4u8, 5u8, 6u8]);
        assert(payload3@ =~= seq![7u8, 8u8, 9u8]);
    }
    setup_three_with(payload1.as_slice(), payload2.as_slice(), payload3.as_slice())
}

} // verus!
