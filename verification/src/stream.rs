//! Stream: a doubly linked chain of blocks materialized through a
//! container.
//!
//! Each chain node is one block whose content is a header followed by a
//! caller payload: a seven-byte magic tag (one value for the head node, a
//! second for every other node), the predecessor id, the successor id and
//! the payload length, all fixed-width big-endian.  The head's predecessor
//! link points at itself; the tail's successor is the null id.  A
//! [`Stream`] keeps a single mutable cursor and supports forward and
//! backward traversal, insertion after the cursor and insertion at the
//! head.

use crate::backend::{Backend, BlockId};
use crate::bytes::{
    be_enc, be_nat, lemma_be_nat_bound, lemma_codec_round_trip, lemma_pow256_vals, Error, Reader,
    Writer,
};
use crate::container::{Container, ContainerError, ContainerResult};
use vstd::prelude::*;
use vstd::slice::slice_to_vec;

verus! {

/// The seven-byte tag opening a head block: the literal "stream0".
pub open spec fn head_magic() -> Seq<u8> {
    seq![0x73u8, 0x74u8, 0x72u8, 0x65u8, 0x61u8, 0x6du8, 0x30u8]
}

/// The seven-byte tag opening every non-head block: the literal "streamn".
pub open spec fn body_magic() -> Seq<u8> {
    seq![0x73u8, 0x74u8, 0x72u8, 0x65u8, 0x61u8, 0x6du8, 0x6eu8]
}

/// The tag a node carries, by its head flag.
pub open spec fn magic_of(head: bool) -> Seq<u8> {
    if head {
        head_magic()
    } else {
        body_magic()
    }
}

/// Spec-level form of one chain node: the header fields and the payload.
pub ghost struct Node<Id> {
    /// Whether the node carries the head tag.
    pub head: bool,
    /// Id of the predecessor; a head node points at itself.
    pub prev: Id,
    /// Id of the successor; a tail node holds the null id.
    pub next: Id,
    /// The caller payload.
    pub payload: Seq<u8>,
}

/// The header length of a node on the wire: magic, two ids, payload length.
pub open spec fn header_len<Id: BlockId>() -> nat {
    7 + 2 * Id::wire_width() + 4
}

/// The wire encoding of one chain node.
#[verifier::opaque]
pub open spec fn node_enc<Id: BlockId>(n: Node<Id>) -> Seq<u8> {
    magic_of(n.head) + n.prev.wire_enc() + n.next.wire_enc() + be_enc(n.payload.len(), 4)
        + n.payload
}

/// The node a raw block content decodes to, if any: the content must open
/// with one of the two tags and the length field must equal the number of
/// payload bytes that follow the header.
#[verifier::opaque]
pub open spec fn node_dec<Id: BlockId>(s: Seq<u8>) -> Option<Node<Id>> {
    let w = Id::wire_width() as int;
    if s.len() < 7 + 2 * w + 4 {
        None
    } else if s.take(7) != head_magic() && s.take(7) != body_magic() {
        None
    } else if s.len() != 7 + 2 * w + 4 + be_nat(s.subrange(7 + 2 * w, 7 + 2 * w + 4)) {
        None
    } else {
        Some(
            (Node {
                head: s.take(7) == head_magic(),
                prev: Id::wire_dec(s.subrange(7, 7 + w)),
                next: Id::wire_dec(s.subrange(7 + w, 7 + 2 * w)),
                payload: s.skip(7 + 2 * w + 4),
            }),
        )
    }
}

/// A decoded node always fits its payload length in the four-byte field.
pub proof fn lemma_node_payload_bound<Id: BlockId>(s: Seq<u8>)
    ensures
        node_dec::<Id>(s) matches Some(n) ==> n.payload.len() < 0x1_0000_0000,
{
    reveal(node_dec);
    let w = Id::wire_width() as int;
    lemma_pow256_vals();
    lemma_be_nat_bound(s.subrange(7 + 2 * w, 7 + 2 * w + 4));
}

/// Law: decoding an encoded node gives back exactly that node.
pub proof fn lemma_node_round_trip<Id: BlockId>(n: Node<Id>)
    requires
        n.payload.len() < 0x1_0000_0000,
    ensures
        node_enc(n).len() == header_len::<Id>() + n.payload.len(),
        node_dec::<Id>(node_enc(n)) == Some(n),
{
    reveal(node_enc);
    reveal(node_dec);
    lemma_pow256_vals();
    n.prev.lemma_wire_round_trip();
    n.next.lemma_wire_round_trip();
    lemma_codec_round_trip(n.payload.len(), 4);
    let s = node_enc(n);
    let w = Id::wire_width() as int;
    assert(s.take(7) =~= magic_of(n.head));
    assert(s.subrange(7, 7 + w) =~= n.prev.wire_enc());
    assert(s.subrange(7 + w, 7 + 2 * w) =~= n.next.wire_enc());
    assert(s.subrange(7 + 2 * w, 7 + 2 * w + 4) =~= be_enc(n.payload.len(), 4));
    assert(s.skip(7 + 2 * w + 4) =~= n.payload);
    assert(head_magic()[6] != body_magic()[6]);
    if n.head {
        assert(s.take(7) != body_magic());
    } else {
        assert(s.take(7) != head_magic());
    }
}

/// One decoded chain node, as a value: the header fields plus the payload.
pub struct Block<Id> {
    /// Whether the node carries the head tag.
    pub head: bool,
    /// Id of the predecessor; a head node points at itself.
    pub prev: Id,
    /// Id of the successor; a tail node holds the null id.
    pub next: Id,
    /// The caller payload.
    pub payload: Vec<u8>,
}

impl<Id> View for Block<Id> {
    type V = Node<Id>;

    open spec fn view(&self) -> Node<Id> {
        Node { head: self.head, prev: self.prev, next: self.next, payload: self.payload@ }
    }
}

/// Whether `m` is the seven-byte tag "stream" followed by `last`.
fn tag_matches(m: &[u8], last: u8) -> (r: bool)
    requires
        m@.len() == 7,
    ensures
        r == (m@ == seq![0x73u8, 0x74u8, 0x72u8, 0x65u8, 0x61u8, 0x6du8, last]),
{
    let r = m[0] == 0x73 && m[1] == 0x74 && m[2] == 0x72 && m[3] == 0x65 && m[4] == 0x61 && m[5]
        == 0x6d && m[6] == last;
    proof {
        let t = seq![0x73u8, 0x74u8, 0x72u8, 0x65u8, 0x61u8, 0x6du8, last];
        if r {
            assert(m@ =~= t);
        } else {
            if m@ == t {
                assert(m@[0] == 0x73 && m@[1] == 0x74 && m@[2] == 0x72 && m@[3] == 0x65 && m@[4]
                    == 0x61 && m@[5] == 0x6d && m@[6] == last);
            }
        }
    }
    r
}

impl<Id: BlockId> Block<Id> {
    /// Encodes this node into its wire form.
    pub fn encode(&self) -> (r: Vec<u8>)
        requires
            self.payload@.len() < 0x1_0000_0000,
        ensures
            r@ == node_enc(self@),
    {
        proof {
            reveal(node_enc);
        }
        let mut w = Writer::new();
        if self.head {
            w.write_bytes(&[0x73, 0x74, 0x72, 0x65, 0x61, 0x6d, 0x30]);
            proof {
                assert(w.bytes() =~= head_magic());
            }
        } else {
            w.write_bytes(&[0x73, 0x74, 0x72, 0x65, 0x61, 0x6d, 0x6e]);
            proof {
                assert(w.bytes() =~= body_magic());
            }
        }
        self.prev.put(&mut w);
        self.next.put(&mut w);
        w.write_u32(self.payload.len() as u32);
        w.write_bytes(self.payload.as_slice());
        proof {
            assert(w.bytes() =~= node_enc(self@));
        }
        w.into_vec()
    }

    /// Decodes a node from raw block content.  Fails exactly where
    /// [`node_dec`] gives nothing: too few bytes for the header or the
    /// payload length yield the end-of-input error, an unknown tag or a
    /// length field that disagrees with the content size yield the
    /// invalid-value error.
    pub fn decode(bytes: &[u8]) -> (r: Result<Self, Error>)
        ensures
            match r {
                Ok(b) => node_dec::<Id>(bytes@) == Some(b@),
                Err(_) => node_dec::<Id>(bytes@) is None,
            },
    {
        proof {
            reveal(node_dec);
        }
        let ghost s = bytes@;
        let ghost w = Id::wire_width() as int;
        let mut rd = Reader::new(bytes);
        let magic = match rd.read_bytes(7) {
            Ok(m) => m,
            Err(e) => {
                return Err(e);
            },
        };
        let head = tag_matches(magic, 0x30);
        let body = tag_matches(magic, 0x6e);
        proof {
            assert(magic@ =~= s.take(7));
            assert(head ==> s.take(7) =~= head_magic());
            assert(body ==> s.take(7) =~= body_magic());
            assert(s.take(7) == head_magic() ==> head);
            assert(s.take(7) == body_magic() ==> body);
        }
        if !head && !body {
            return Err(Error::Invalid);
        }
        let prev = match Id::get(&mut rd) {
            Ok(p) => p,
            Err(e) => {
                return Err(e);
            },
        };
        proof {
            assert(s.skip(7).take(w) =~= s.subrange(7, 7 + w));
            assert(s.skip(7).skip(w) =~= s.skip(7 + w));
        }
        let next = match Id::get(&mut rd) {
            Ok(p) => p,
            Err(e) => {
                return Err(e);
            },
        };
        proof {
            assert(s.skip(7 + w).take(w) =~= s.subrange(7 + w, 7 + 2 * w));
            assert(s.skip(7 + w).skip(w) =~= s.skip(7 + 2 * w));
        }
        let len = match rd.read_u32() {
            Ok(l) => l,
            Err(e) => {
                return Err(e);
            },
        };
        proof {
            assert(s.skip(7 + 2 * w).take(4) =~= s.subrange(7 + 2 * w, 7 + 2 * w + 4));
            assert(s.skip(7 + 2 * w).skip(4) =~= s.skip(7 + 2 * w + 4));
        }
        let len_us = len as usize;
        if rd.remaining_len() != len_us {
            return Err(Error::Invalid);
        }
        let payload_view = match rd.read_bytes(len_us) {
            Ok(p) => p,
            Err(e) => {
                return Err(e);
            },
        };
        proof {
            assert(payload_view@ =~= s.skip(7 + 2 * w + 4));
        }
        Ok(Block { head, prev, next, payload: slice_to_vec(payload_view) })
    }
}

/// The node stored at `id` in the block map `m`, if that block exists and
/// decodes.
pub open spec fn node_at<Id: BlockId>(m: Map<Id, Seq<u8>>, id: Id) -> Option<Node<Id>> {
    if m.contains_key(id) {
        node_dec::<Id>(m[id])
    } else {
        None
    }
}

/// Whether `ids` lists, in order, the blocks of one well-formed chain in
/// `m`: every listed block decodes; the first carries the head tag and its
/// predecessor link points at itself; every later node carries the body tag
/// and points back at its predecessor; every node but the last points
/// forward at its successor; the last points forward at the null id; and no
/// block appears twice.
pub open spec fn is_chain<Id: BlockId>(m: Map<Id, Seq<u8>>, ids: Seq<Id>) -> bool {
    &&& ids.len() > 0
    &&& ids.no_duplicates()
    &&& !ids.contains(Id::null_spec())
    &&& forall|i: int| 0 <= i < ids.len() ==> node_at(m, #[trigger] ids[i]) is Some
    &&& node_at(m, ids[0])->Some_0.head
    &&& node_at(m, ids[0])->Some_0.prev == ids[0]
    &&& forall|i: int| 0 < i < ids.len() ==> !node_at(m, #[trigger] ids[i])->Some_0.head
    &&& forall|i: int|
        0 < i < ids.len() ==> node_at(m, #[trigger] ids[i])->Some_0.prev == ids[i - 1]
    &&& forall|i: int|
        0 <= i < ids.len() - 1 ==> node_at(m, #[trigger] ids[i])->Some_0.next == ids[i + 1]
    &&& node_at(m, ids.last())->Some_0.next == Id::null_spec()
}

/// The payloads of the chain `ids`, in order.
pub open spec fn chain_payloads<Id: BlockId>(m: Map<Id, Seq<u8>>, ids: Seq<Id>) -> Seq<Seq<u8>> {
    Seq::new(ids.len(), |i: int| node_at(m, ids[i])->Some_0.payload)
}

/// Law: the forward run of a chain is determined by the block map and the
/// starting block.  Two well-formed chains agree from any shared block on.
pub proof fn lemma_chain_suffix_unique<Id: BlockId>(
    m: Map<Id, Seq<u8>>,
    ids1: Seq<Id>,
    k1: int,
    ids2: Seq<Id>,
    k2: int,
)
    requires
        is_chain(m, ids1),
        is_chain(m, ids2),
        0 <= k1 < ids1.len(),
        0 <= k2 < ids2.len(),
        ids1[k1] == ids2[k2],
    ensures
        ids1.len() - k1 == ids2.len() - k2,
        forall|t: int| 0 <= t < ids1.len() - k1 ==> ids1[k1 + t] == #[trigger] ids2[k2 + t],
    decreases ids1.len() - k1,
{
    assert(node_at(m, ids1[k1]) is Some);
    let nxt = node_at(m, ids1[k1])->Some_0.next;
    if k1 == ids1.len() - 1 {
        assert(nxt == Id::null_spec());
        if k2 < ids2.len() - 1 {
            assert(node_at(m, ids2[k2])->Some_0.next == ids2[k2 + 1]);
            assert(ids2.contains(ids2[k2 + 1]));
            assert(false);
        }
    } else {
        assert(node_at(m, ids1[k1])->Some_0.next == ids1[k1 + 1]);
        assert(ids1.contains(ids1[k1 + 1]));
        assert(nxt != Id::null_spec());
        if k2 == ids2.len() - 1 {
            assert(node_at(m, ids2[k2])->Some_0.next == Id::null_spec());
            assert(false);
        }
        assert(node_at(m, ids2[k2])->Some_0.next == ids2[k2 + 1]);
        lemma_chain_suffix_unique(m, ids1, k1 + 1, ids2, k2 + 1);
        assert forall|t: int| 0 <= t < ids1.len() - k1 implies ids1[k1 + t]
            == #[trigger] ids2[k2 + t] by {
            if t > 0 {
                assert(ids1[(k1 + 1) + (t - 1)] == ids2[(k2 + 1) + (t - 1)]);
            }
        }
    }
}

/// Two chains sharing a block carry the same payloads from that block on.
proof fn lemma_walk_payloads<Id: BlockId>(
    m: Map<Id, Seq<u8>>,
    ids1: Seq<Id>,
    k1: int,
    ids2: Seq<Id>,
    k2: int,
)
    requires
        is_chain(m, ids1),
        is_chain(m, ids2),
        0 <= k1 < ids1.len(),
        0 <= k2 < ids2.len(),
        ids1[k1] == ids2[k2],
    ensures
        chain_payloads(m, ids2).skip(k2) == chain_payloads(m, ids1).skip(k1),
{
    lemma_chain_suffix_unique(m, ids1, k1, ids2, k2);
    assert forall|t: int| 0 <= t < ids1.len() - k1 implies chain_payloads(m, ids2).skip(k2)[t]
        == chain_payloads(m, ids1).skip(k1)[t] by {
        assert(ids1[k1 + t] == ids2[k2 + t]);
    }
    assert(chain_payloads(m, ids2).skip(k2) =~= chain_payloads(m, ids1).skip(k1));
}

/// Law: a single fresh block that carries the head tag, its own id as
/// predecessor and the null id as successor forms a well-formed chain of
/// one node.
pub proof fn lemma_single_chain<Id: BlockId>(m: Map<Id, Seq<u8>>, id: Id, payload: Seq<u8>)
    requires
        id != Id::null_spec(),
        payload.len() < 0x1_0000_0000,
    ensures
        is_chain(
            m.insert(
                id,
                node_enc((Node { head: true, prev: id, next: Id::null_spec(), payload })),
            ),
            seq![id],
        ),
        chain_payloads(
            m.insert(
                id,
                node_enc((Node { head: true, prev: id, next: Id::null_spec(), payload })),
            ),
            seq![id],
        ) == seq![payload],
{
    let node = Node { head: true, prev: id, next: Id::null_spec(), payload };
    lemma_node_round_trip::<Id>(node);
    let m1 = m.insert(id, node_enc(node));
    let ids = seq![id];
    assert(node_at(m1, id) == Some(node));
    assert(!ids.contains(Id::null_spec()));
    assert(ids.last() == id);
    assert(chain_payloads(m1, ids) =~= seq![payload]);
}

/// Law: splicing a fresh block in after position `i` of a well-formed
/// chain yields a well-formed chain with the new node between `i` and its
/// old successor, and the payload sequence gains the new payload at
/// position `i + 1`.  The new block map is exactly what
/// [`Stream::insert`] writes when the cursor sits on the `i`-th block.
pub proof fn lemma_insert_chain<Id: BlockId>(
    m: Map<Id, Seq<u8>>,
    ids: Seq<Id>,
    i: int,
    n: Id,
    payload: Seq<u8>,
)
    requires
        is_chain(m, ids),
        0 <= i < ids.len(),
        !ids.contains(n),
        n != Id::null_spec(),
        payload.len() < 0x1_0000_0000,
    ensures
        ({
            let cur = node_at(m, ids[i])->Some_0;
            let fresh = node_enc((Node { head: false, prev: ids[i], next: cur.next, payload }));
            let relinked = node_enc(
                (Node { head: cur.head, prev: cur.prev, next: n, payload: cur.payload }),
            );
            let ids1 = ids.insert(i + 1, n);
            if i == ids.len() - 1 {
                let m1 = m.insert(n, fresh).insert(ids[i], relinked);
                &&& is_chain(m1, ids1)
                &&& chain_payloads(m1, ids1) == chain_payloads(m, ids).insert(i + 1, payload)
            } else {
                let succ = node_at(m, ids[i + 1])->Some_0;
                let m1 = m.insert(n, fresh).insert(ids[i], relinked).insert(
                    ids[i + 1],
                    node_enc(
                        (Node { head: succ.head, prev: n, next: succ.next, payload: succ.payload
                        }),
                    ),
                );
                &&& is_chain(m1, ids1)
                &&& chain_payloads(m1, ids1) == chain_payloads(m, ids).insert(i + 1, payload)
            }
        }),
{
    let cur = node_at(m, ids[i])->Some_0;
    let fresh_node = Node { head: false, prev: ids[i], next: cur.next, payload };
    let relinked_node = Node { head: cur.head, prev: cur.prev, next: n, payload: cur.payload };
    lemma_node_payload_bound::<Id>(m[ids[i]]);
    lemma_node_round_trip::<Id>(fresh_node);
    lemma_node_round_trip::<Id>(relinked_node);
    let ids1 = ids.insert(i + 1, n);
    assert(ids1.len() == ids.len() + 1);
    assert(forall|j: int| 0 <= j <= i ==> ids1[j] == ids[j]);
    assert(ids1[i + 1] == n);
    assert(forall|j: int| i + 1 < j < ids1.len() ==> ids1[j] == ids[j - 1]);
    assert forall|j: int| 0 <= j < ids.len() implies ids[j] != n by {
        if ids[j] == n {
            assert(ids.contains(n));
        }
    }
    assert(ids1.no_duplicates()) by {
        assert forall|a: int, b: int|
            0 <= a < ids1.len() && 0 <= b < ids1.len() && a != b implies ids1[a] != ids1[b] by {}
    }
    assert(!ids1.contains(Id::null_spec())) by {
        if ids1.contains(Id::null_spec()) {
            let j = choose|j: int| 0 <= j < ids1.len() && ids1[j] == Id::null_spec();
            if j != i + 1 {
                assert(ids.contains(Id::null_spec()));
            }
        }
    }
    if i == ids.len() - 1 {
        assert(cur.next == Id::null_spec());
        let m1 = m.insert(n, node_enc(fresh_node)).insert(ids[i], node_enc(relinked_node));
        assert(node_at(m1, n) == Some(fresh_node));
        assert(node_at(m1, ids[i]) == Some(relinked_node));
        assert forall|j: int| 0 <= j < ids.len() && j != i implies node_at(m1, ids[j]) == node_at(
            m,
            ids[j],
        ) by {}
        assert(is_chain(m1, ids1)) by {
            assert(ids1.last() == n);
            assert(node_at(m1, ids1[0]) is Some);
            assert forall|j: int| 0 <= j < ids1.len() implies node_at(
                m1,
                #[trigger] ids1[j],
            ) is Some by {}
        }
        assert(chain_payloads(m1, ids1) =~= chain_payloads(m, ids).insert(i + 1, payload));
    } else {
        let succ = node_at(m, ids[i + 1])->Some_0;
        let succ_node = Node { head: succ.head, prev: n, next: succ.next, payload: succ.payload };
        lemma_node_payload_bound::<Id>(m[ids[i + 1]]);
        lemma_node_round_trip::<Id>(succ_node);
        assert(cur.next == ids[i + 1]);
        let m1 = m.insert(n, node_enc(fresh_node)).insert(ids[i], node_enc(relinked_node)).insert(
            ids[i + 1],
            node_enc(succ_node),
        );
        assert(node_at(m1, n) == Some(fresh_node));
        assert(node_at(m1, ids[i]) == Some(relinked_node));
        assert(node_at(m1, ids[i + 1]) == Some(succ_node));
        assert forall|j: int|
            0 <= j < ids.len() && j != i && j != i + 1 implies node_at(m1, ids[j]) == node_at(
            m,
            ids[j],
        ) by {}
        assert(is_chain(m1, ids1)) by {
            assert(ids1.last() == ids.last());
            assert(ids1[ids1.len() - 1] == ids[ids.len() - 1]);
            assert(node_at(m1, ids1[0]) is Some);
            assert forall|j: int| 0 <= j < ids1.len() implies node_at(
                m1,
                #[trigger] ids1[j],
            ) is Some by {}
            assert forall|j: int| 0 <= j < ids1.len() - 1 implies node_at(
                m1,
                #[trigger] ids1[j],
            )->Some_0.next == ids1[j + 1] by {}
            assert forall|j: int| 0 < j < ids1.len() implies node_at(
                m1,
                #[trigger] ids1[j],
            )->Some_0.prev == ids1[j - 1] by {}
        }
        assert(chain_payloads(m1, ids1) =~= chain_payloads(m, ids).insert(i + 1, payload));
    }
}

/// Law: inserting at the front of a well-formed chain of N blocks yields
/// a well-formed chain of N + 1 blocks whose new head's predecessor link
/// refers to itself and whose second node's predecessor link refers to the
/// new head.  The new block map is exactly what [`Stream::insert_front`]
/// writes.
pub proof fn lemma_insert_front_chain<Id: BlockId>(
    m: Map<Id, Seq<u8>>,
    ids: Seq<Id>,
    n: Id,
    payload: Seq<u8>,
)
    requires
        is_chain(m, ids),
        !ids.contains(n),
        n != Id::null_spec(),
        payload.len() < 0x1_0000_0000,
    ensures
        ({
            let h = node_at(m, ids[0])->Some_0;
            let m1 = m.insert(
                n,
                node_enc((Node { head: true, prev: n, next: ids[0], payload })),
            ).insert(
                ids[0],
                node_enc((Node { head: false, prev: n, next: h.next, payload: h.payload })),
            );
            let ids1 = seq![n] + ids;
            &&& is_chain(m1, ids1)
            &&& ids1.len() == ids.len() + 1
            &&& node_at(m1, ids1[0])->Some_0.prev == ids1[0]
            &&& node_at(m1, ids1[1])->Some_0.prev == n
            &&& chain_payloads(m1, ids1) == seq![payload] + chain_payloads(m, ids)
        }),
{
    let h = node_at(m, ids[0])->Some_0;
    let new_node = Node { head: true, prev: n, next: ids[0], payload };
    let retag_node = Node { head: false, prev: n, next: h.next, payload: h.payload };
    lemma_node_payload_bound::<Id>(m[ids[0]]);
    lemma_node_round_trip::<Id>(new_node);
    lemma_node_round_trip::<Id>(retag_node);
    let m1 = m.insert(n, node_enc(new_node)).insert(ids[0], node_enc(retag_node));
    let ids1 = seq![n] + ids;
    assert(ids1.len() == ids.len() + 1);
    assert(ids1[0] == n);
    assert(forall|j: int| 0 < j < ids1.len() ==> ids1[j] == ids[j - 1]);
    assert forall|j: int| 0 <= j < ids.len() implies ids[j] != n by {
        if ids[j] == n {
            assert(ids.contains(n));
        }
    }
    assert(ids1.no_duplicates()) by {
        assert forall|a: int, b: int|
            0 <= a < ids1.len() && 0 <= b < ids1.len() && a != b implies ids1[a] != ids1[b] by {}
    }
    assert(!ids1.contains(Id::null_spec())) by {
        if ids1.contains(Id::null_spec()) {
            let j = choose|j: int| 0 <= j < ids1.len() && ids1[j] == Id::null_spec();
            if j != 0 {
                assert(ids.contains(Id::null_spec()));
            }
        }
    }
    assert(node_at(m1, n) == Some(new_node));
    assert(node_at(m1, ids[0]) == Some(retag_node));
    assert forall|j: int| 0 < j < ids.len() implies node_at(m1, ids[j]) == node_at(
        m,
        ids[j],
    ) by {}
    assert(is_chain(m1, ids1)) by {
        assert(ids1.last() == ids.last());
        if ids.len() == 1 {
            assert(ids1.last() == ids[0]);
            assert(h.next == Id::null_spec());
        }
        assert forall|j: int| 0 <= j < ids1.len() implies node_at(
            m1,
            #[trigger] ids1[j],
        ) is Some by {}
        assert forall|j: int| 0 <= j < ids1.len() - 1 implies node_at(
            m1,
            #[trigger] ids1[j],
        )->Some_0.next == ids1[j + 1] by {
            if j >= 1 && ids.len() > 1 && j == 1 {
                assert(h.next == ids[1]);
            }
        }
        assert forall|j: int| 0 < j < ids1.len() implies node_at(
            m1,
            #[trigger] ids1[j],
        )->Some_0.prev == ids1[j - 1] by {}
    }
    assert(chain_payloads(m1, ids1) =~= seq![payload] + chain_payloads(m, ids));
}

/// Law: in a well-formed chain, stepping forward visits the listed blocks
/// in order and meets the boundary exactly at the tail, whose successor is
/// the null id; stepping backward visits them in reverse and meets the
/// boundary exactly at the head, whose predecessor link closes on itself.
pub proof fn lemma_chain_traversal<Id: BlockId>(m: Map<Id, Seq<u8>>, ids: Seq<Id>)
    requires
        is_chain(m, ids),
    ensures
        forall|i: int|
            0 <= i < ids.len() - 1 ==> node_at(m, #[trigger] ids[i])->Some_0.next == ids[i + 1],
        node_at(m, ids.last())->Some_0.next == Id::null_spec(),
        forall|i: int|
            0 < i < ids.len() ==> node_at(m, #[trigger] ids[i])->Some_0.prev == ids[i - 1],
        node_at(m, ids[0])->Some_0.prev == ids[0],
        forall|i: int|
            0 <= i < ids.len() - 1 ==> node_at(m, #[trigger] ids[i])->Some_0.next
                != Id::null_spec(),
        forall|i: int|
            0 < i < ids.len() ==> node_at(m, #[trigger] ids[i])->Some_0.prev != ids[i],
{
    assert forall|i: int|
        0 <= i < ids.len() - 1 implies node_at(m, #[trigger] ids[i])->Some_0.next
        != Id::null_spec() by {
        assert(ids.contains(ids[i + 1]));
    }
}


/// A logical view over one chain of blocks, holding the chain's anchor and
/// a single mutable cursor.  A stream borrows its container for the
/// duration of each operation; the cursor is never persisted.
pub struct Stream<B: Backend> {
    head: B::Id,
    current: B::Id,
}

impl<B: Backend> Stream<B> {
    /// The id the stream was anchored at.
    pub closed spec fn head_id(self) -> B::Id {
        self.head
    }

    /// The id under the cursor.
    pub closed spec fn cursor(self) -> B::Id {
        self.current
    }

    /// A stream over the chain anchored at `head`, cursor on the head.
    pub fn new(head: B::Id) -> (s: Self)
        ensures
            s.head_id() == head,
            s.cursor() == head,
    {
        Stream { head, current: head }
    }

    /// The id under the cursor, as a value.
    pub fn current(&self) -> (r: B::Id)
        ensures
            r == self.cursor(),
    {
        self.current
    }

    /// Follows the forward link of the cursor block.  Returns the boundary
    /// indicator `None`, with the cursor unchanged, when that block's
    /// successor is the null id; otherwise moves the cursor to the
    /// successor and returns its id.  A read or decode fault surfaces as a
    /// true error, distinct from the boundary indicator, and leaves the
    /// cursor unchanged.
    pub fn next_block(&mut self, container: &mut Container<B>) -> (r: Option<
        ContainerResult<B::Id, B>,
    >)
        requires
            old(container).inv(),
        ensures
            final(container).inv(),
            final(container).cipher() == old(container).cipher(),
            final(container).allocated() == old(container).allocated(),
            final(container).blocks() == old(container).blocks(),
            final(self).head_id() == old(self).head_id(),
            match r {
                None => {
                    &&& *final(self) == *old(self)
                    &&& node_at(old(container).blocks(), old(self).cursor()) matches Some(n)
                        && n.next == B::Id::null_spec()
                },
                Some(Ok(id)) => {
                    &&& node_at(old(container).blocks(), old(self).cursor()) matches Some(n)
                        && n.next == id
                    &&& id != B::Id::null_spec()
                    &&& final(self).cursor() == id
                },
                Some(Err(e)) => {
                    &&& *final(self) == *old(self)
                    &&& match e {
                        ContainerError::Backend(_) => !old(container).blocks().contains_key(
                            old(self).cursor(),
                        ),
                        ContainerError::Bytes(_) => old(container).blocks().contains_key(
                            old(self).cursor(),
                        ) && node_dec::<B::Id>(old(container).blocks()[old(self).cursor()])
                            is None,
                    }
                },
            },
    {
        let bytes = match container.read(&self.current) {
            Ok(b) => b,
            Err(e) => {
                return Some(Err(e));
            },
        };
        let block = match Block::<B::Id>::decode(bytes.as_slice()) {
            Ok(b) => b,
            Err(e) => {
                return Some(Err(ContainerError::Bytes(e)));
            },
        };
        if block.next.is_null() {
            None
        } else {
            self.current = block.next;
            Some(Ok(self.current))
        }
    }

    /// Follows the backward link of the cursor block.  Returns the boundary
    /// indicator `None`, with the cursor unchanged, when that block's
    /// predecessor link points at the block itself (the head marks "no
    /// predecessor" that way); otherwise moves the cursor to the
    /// predecessor and returns its id.  A read or decode fault surfaces as
    /// a true error, distinct from the boundary indicator, and leaves the
    /// cursor unchanged.
    pub fn prev_block(&mut self, container: &mut Container<B>) -> (r: Option<
        ContainerResult<B::Id, B>,
    >)
        requires
            old(container).inv(),
        ensures
            final(container).inv(),
            final(container).cipher() == old(container).cipher(),
            final(container).allocated() == old(container).allocated(),
            final(container).blocks() == old(container).blocks(),
            final(self).head_id() == old(self).head_id(),
            match r {
                None => {
                    &&& *final(self) == *old(self)
                    &&& node_at(old(container).blocks(), old(self).cursor()) matches Some(n)
                        && n.prev == old(self).cursor()
                },
                Some(Ok(id)) => {
                    &&& node_at(old(container).blocks(), old(self).cursor()) matches Some(n)
                        && n.prev == id
                    &&& id != old(self).cursor()
                    &&& final(self).cursor() == id
                },
                Some(Err(e)) => {
                    &&& *final(self) == *old(self)
                    &&& match e {
                        ContainerError::Backend(_) => !old(container).blocks().contains_key(
                            old(self).cursor(),
                        ),
                        ContainerError::Bytes(_) => old(container).blocks().contains_key(
                            old(self).cursor(),
                        ) && node_dec::<B::Id>(old(container).blocks()[old(self).cursor()])
                            is None,
                    }
                },
            },
    {
        let bytes = match container.read(&self.current) {
            Ok(b) => b,
            Err(e) => {
                return Some(Err(e));
            },
        };
        let block = match Block::<B::Id>::decode(bytes.as_slice()) {
            Ok(b) => b,
            Err(e) => {
                return Some(Err(ContainerError::Bytes(e)));
            },
        };
        if block.prev.eq_id(&self.current) {
            None
        } else {
            self.current = block.prev;
            Some(Ok(self.current))
        }
    }

    /// Decodes and returns the payload bytes of the cursor block.
    pub fn current_payload(&self, container: &mut Container<B>) -> (r: ContainerResult<
        Vec<u8>,
        B,
    >)
        requires
            old(container).inv(),
        ensures
            final(container).inv(),
            final(container).cipher() == old(container).cipher(),
            final(container).allocated() == old(container).allocated(),
            final(container).blocks() == old(container).blocks(),
            match r {
                Ok(p) => node_at(old(container).blocks(), self.cursor()) matches Some(n)
                    && p@ == n.payload,
                Err(e) => match e {
                    ContainerError::Backend(_) => !old(container).blocks().contains_key(
                        self.cursor(),
                    ),
                    ContainerError::Bytes(_) => old(container).blocks().contains_key(
                        self.cursor(),
                    ) && node_dec::<B::Id>(old(container).blocks()[self.cursor()]) is None,
                },
            },
    {
        let bytes = match container.read(&self.current) {
            Ok(b) => b,
            Err(e) => {
                return Err(e);
            },
        };
        let block = match Block::<B::Id>::decode(bytes.as_slice()) {
            Ok(b) => b,
            Err(e) => {
                return Err(ContainerError::Bytes(e));
            },
        };
        Ok(block.payload)
    }

    /// Splices a new block carrying `payload` in after the cursor block:
    /// the new node's predecessor is the cursor block, its successor is the
    /// cursor block's old successor, and both neighbours are rewritten to
    /// point at the new node.  The cursor advances to the new node, whose
    /// id is returned.  All reads and the id allocation happen before the
    /// first of the block writes, so a failure leaves the container's
    /// blocks and the cursor unchanged; an invalid-value error comes
    /// exactly from a neighbour block that does not decode.
    pub fn insert(&mut self, container: &mut Container<B>, payload: &[u8]) -> (r: ContainerResult<
        B::Id,
        B,
    >)
        requires
            old(container).inv(),
            payload@.len() < 0x1_0000_0000,
        ensures
            final(container).inv(),
            final(container).cipher() == old(container).cipher(),
            final(self).head_id() == old(self).head_id(),
            match r {
                Ok(n) => {
                    &&& node_at(old(container).blocks(), old(self).cursor()) is Some
                    &&& !old(container).allocated().contains(n)
                    &&& n != B::Id::null_spec()
                    &&& final(self).cursor() == n
                    &&& final(container).allocated() == old(container).allocated().insert(n)
                    &&& ({
                        let m0 = old(container).blocks();
                        let cur = node_at(m0, old(self).cursor())->Some_0;
                        let fresh = node_enc(
                            (Node {
                                head: false,
                                prev: old(self).cursor(),
                                next: cur.next,
                                payload: payload@,
                            }),
                        );
                        let relinked = node_enc(
                            (Node { head: cur.head, prev: cur.prev, next: n, payload: cur.payload
                            }),
                        );
                        if cur.next == B::Id::null_spec() {
                            final(container).blocks() == m0.insert(n, fresh).insert(
                                old(self).cursor(),
                                relinked,
                            )
                        } else {
                            &&& node_at(m0, cur.next) is Some
                            &&& final(container).blocks() == m0.insert(n, fresh).insert(
                                old(self).cursor(),
                                relinked,
                            ).insert(
                                cur.next,
                                node_enc(
                                    (Node {
                                        head: node_at(m0, cur.next)->Some_0.head,
                                        prev: n,
                                        next: node_at(m0, cur.next)->Some_0.next,
                                        payload: node_at(m0, cur.next)->Some_0.payload,
                                    }),
                                ),
                            )
                        }
                    })
                    &&& forall|ids: Seq<B::Id>, i: int|
                        #![trigger is_chain(old(container).blocks(), ids), ids[i]]
                        is_chain(old(container).blocks(), ids) && 0 <= i < ids.len() && ids[i]
                            == old(self).cursor() ==> is_chain(
                            final(container).blocks(),
                            ids.insert(i + 1, n),
                        ) && chain_payloads(final(container).blocks(), ids.insert(i + 1, n))
                            == chain_payloads(old(container).blocks(), ids).insert(
                            i + 1,
                            payload@,
                        )
                },
                Err(e) => {
                    &&& *final(self) == *old(self)
                    &&& final(container).blocks() == old(container).blocks()
                    &&& final(container).allocated() == old(container).allocated()
                    &&& (e matches ContainerError::Bytes(_) ==> {
                        let m0 = old(container).blocks();
                        ||| (m0.contains_key(old(self).cursor()) && node_dec::<B::Id>(
                            m0[old(self).cursor()],
                        ) is None)
                        ||| (node_at(m0, old(self).cursor()) matches Some(cur) && m0.contains_key(
                            cur.next,
                        ) && node_dec::<B::Id>(m0[cur.next]) is None)
                    })
                },
            },
    {
        proof {
            container.lemma_inv();
        }
        let ghost m0 = container.blocks();
        let cur_id = self.current;
        let cur_bytes = match container.read(&cur_id) {
            Ok(b) => b,
            Err(e) => {
                return Err(e);
            },
        };
        let mut cur_blk = match Block::<B::Id>::decode(cur_bytes.as_slice()) {
            Ok(b) => b,
            Err(e) => {
                return Err(ContainerError::Bytes(e));
            },
        };
        proof {
            lemma_node_payload_bound::<B::Id>(m0[cur_id]);
        }
        let succ_id = cur_blk.next;
        let succ_blk = if succ_id.is_null() {
            None
        } else {
            let succ_bytes = match container.read(&succ_id) {
                Ok(b) => b,
                Err(e) => {
                    return Err(e);
                },
            };
            proof {
                lemma_node_payload_bound::<B::Id>(m0[succ_id]);
            }
            match Block::<B::Id>::decode(succ_bytes.as_slice()) {
                Ok(b) => Some(b),
                Err(e) => {
                    return Err(ContainerError::Bytes(e));
                },
            }
        };
        let new_id = match container.aquire() {
            Ok(i) => i,
            Err(e) => {
                return Err(e);
            },
        };
        let new_blk = Block {
            head: false,
            prev: cur_id,
            next: succ_id,
            payload: slice_to_vec(payload),
        };
        let enc_new = new_blk.encode();
        match container.write(&new_id, enc_new.as_slice()) {
            Ok(_) => {},
            Err(e) => {
                proof {
                    assert(false);
                }
                return Err(e);
            },
        }
        cur_blk.next = new_id;
        let enc_cur = cur_blk.encode();
        match container.write(&cur_id, enc_cur.as_slice()) {
            Ok(_) => {},
            Err(e) => {
                proof {
                    assert(false);
                }
                return Err(e);
            },
        }
        match succ_blk {
            Some(mut sb) => {
                sb.prev = new_id;
                let enc_succ = sb.encode();
                match container.write(&succ_id, enc_succ.as_slice()) {
                    Ok(_) => {},
                    Err(e) => {
                        proof {
                            assert(false);
                        }
                        return Err(e);
                    },
                }
            },
            None => {},
        }
        proof {
            assert forall|ids: Seq<B::Id>, i: int|
                #![trigger is_chain(m0, ids), ids[i]]
                is_chain(m0, ids) && 0 <= i < ids.len() && ids[i]
                    == old(self).cursor() implies is_chain(
                container.blocks(),
                ids.insert(i + 1, new_id),
            ) && chain_payloads(container.blocks(), ids.insert(i + 1, new_id)) == chain_payloads(
                m0,
                ids,
            ).insert(i + 1, payload@) by {
                old(container).lemma_inv();
                if ids.contains(new_id) {
                    let j = choose|j: int| 0 <= j < ids.len() && ids[j] == new_id;
                    assert(node_at(m0, ids[j]) is Some);
                    assert(false);
                }
                if i < ids.len() - 1 {
                    assert(ids.contains(ids[i + 1]));
                }
                lemma_insert_chain(m0, ids, i, new_id, payload@);
            }
        }
        self.current = new_id;
        Ok(new_id)
    }

    /// Makes a new block carrying `payload` the chain's new head: its
    /// predecessor link points at itself, its successor is the old head,
    /// and the old head block is rewritten with the non-head tag and the
    /// new node as its predecessor.  The stream's anchor and the cursor
    /// move to the new head, whose id is returned.  The read and the id
    /// allocation happen before the two block writes, so a failure leaves
    /// the container's blocks and the stream unchanged; an invalid-value
    /// error comes exactly from an anchor block that does not decode.
    pub fn insert_front(&mut self, container: &mut Container<B>, payload: &[u8]) -> (r:
        ContainerResult<B::Id, B>)
        requires
            old(container).inv(),
            payload@.len() < 0x1_0000_0000,
        ensures
            final(container).inv(),
            final(container).cipher() == old(container).cipher(),
            match r {
                Ok(n) => {
                    &&& node_at(old(container).blocks(), old(self).head_id()) is Some
                    &&& !old(container).allocated().contains(n)
                    &&& n != B::Id::null_spec()
                    &&& final(self).head_id() == n
                    &&& final(self).cursor() == n
                    &&& final(container).allocated() == old(container).allocated().insert(n)
                    &&& ({
                        let m0 = old(container).blocks();
                        let h = node_at(m0, old(self).head_id())->Some_0;
                        final(container).blocks() == m0.insert(
                            n,
                            node_enc(
                                (Node {
                                    head: true,
                                    prev: n,
                                    next: old(self).head_id(),
                                    payload: payload@,
                                }),
                            ),
                        ).insert(
                            old(self).head_id(),
                            node_enc(
                                (Node { head: false, prev: n, next: h.next, payload: h.payload }),
                            ),
                        )
                    })
                    &&& forall|ids: Seq<B::Id>|
                        #![trigger is_chain(old(container).blocks(), ids)]
                        is_chain(old(container).blocks(), ids) && ids[0]
                            == old(self).head_id() ==> is_chain(
                            final(container).blocks(),
                            seq![n] + ids,
                        ) && chain_payloads(final(container).blocks(), seq![n] + ids) == seq![
                            payload@,
                        ] + chain_payloads(old(container).blocks(), ids)
                },
                Err(e) => {
                    &&& *final(self) == *old(self)
                    &&& final(container).blocks() == old(container).blocks()
                    &&& final(container).allocated() == old(container).allocated()
                    &&& (e matches ContainerError::Bytes(_) ==> old(container).blocks()
                        .contains_key(old(self).head_id()) && node_dec::<B::Id>(
                        old(container).blocks()[old(self).head_id()],
                    ) is None)
                },
            },
    {
        proof {
            container.lemma_inv();
        }
        let ghost m0 = container.blocks();
        let head_id = self.head;
        let head_bytes = match container.read(&head_id) {
            Ok(b) => b,
            Err(e) => {
                return Err(e);
            },
        };
        let mut head_blk = match Block::<B::Id>::decode(head_bytes.as_slice()) {
            Ok(b) => b,
            Err(e) => {
                return Err(ContainerError::Bytes(e));
            },
        };
        proof {
            lemma_node_payload_bound::<B::Id>(m0[head_id]);
        }
        let new_id = match container.aquire() {
            Ok(i) => i,
            Err(e) => {
                return Err(e);
            },
        };
        let new_blk = Block {
            head: true,
            prev: new_id,
            next: head_id,
            payload: slice_to_vec(payload),
        };
        let enc_new = new_blk.encode();
        match container.write(&new_id, enc_new.as_slice()) {
            Ok(_) => {},
            Err(e) => {
                proof {
                    assert(false);
                }
                return Err(e);
            },
        }
        head_blk.head = false;
        head_blk.prev = new_id;
        let enc_head = head_blk.encode();
        match container.write(&head_id, enc_head.as_slice()) {
            Ok(_) => {},
            Err(e) => {
                proof {
                    assert(false);
                }
                return Err(e);
            },
        }
        proof {
            assert forall|ids: Seq<B::Id>|
                #![trigger is_chain(m0, ids)]
                is_chain(m0, ids) && ids[0] == old(self).head_id() implies is_chain(
                container.blocks(),
                seq![new_id] + ids,
            ) && chain_payloads(container.blocks(), seq![new_id] + ids) == seq![payload@]
                + chain_payloads(m0, ids) by {
                old(container).lemma_inv();
                if ids.contains(new_id) {
                    let j = choose|j: int| 0 <= j < ids.len() && ids[j] == new_id;
                    assert(node_at(m0, ids[j]) is Some);
                    assert(false);
                }
                lemma_insert_front_chain(m0, ids, new_id, payload@);
            }
        }
        self.head = new_id;
        self.current = new_id;
        Ok(new_id)
    }

    /// Collects the payloads of the chain from the cursor block forward:
    /// the cursor block's payload first, then one payload per forward step,
    /// until the block whose successor is the null id.  The cursor is left
    /// where it was, so the walk can be restarted.  The cursor must sit on
    /// a well-formed chain; the walk then visits exactly that chain's
    /// remainder.
    #[verifier::rlimit(60)]
    pub fn walk(&self, container: &mut Container<B>) -> (r: Vec<Vec<u8>>)
        requires
            old(container).inv(),
            exists|ids: Seq<B::Id>, k: int|
                #![trigger is_chain(old(container).blocks(), ids), ids[k]]
                is_chain(old(container).blocks(), ids) && 0 <= k < ids.len() && ids[k]
                    == self.cursor(),
        ensures
            final(container).inv(),
            final(container).cipher() == old(container).cipher(),
            final(container).allocated() == old(container).allocated(),
            final(container).blocks() == old(container).blocks(),
            forall|ids: Seq<B::Id>, k: int|
                #![trigger is_chain(old(container).blocks(), ids), ids[k]]
                is_chain(old(container).blocks(), ids) && 0 <= k < ids.len() && ids[k]
                    == self.cursor() ==> r.deep_view() == chain_payloads(
                    old(container).blocks(),
                    ids,
                ).skip(k),
    {
        let ghost m = container.blocks();
        let ghost (ids, k): (Seq<B::Id>, int) = choose|ids: Seq<B::Id>, k: int|
            #![trigger is_chain(m, ids), ids[k]]
            is_chain(m, ids) && 0 <= k < ids.len() && ids[k] == self.cursor();
        let mut out: Vec<Vec<u8>> = Vec::new();
        let mut cur = self.current;
        let ghost mut j: int = k;
        proof {
            assert(out.deep_view() =~= chain_payloads(m, ids).subrange(k, k));
        }
        loop
            invariant
                container.inv(),
                container.cipher() == old(container).cipher(),
                container.allocated() == old(container).allocated(),
                container.blocks() == m,
                m == old(container).blocks(),
                is_chain(m, ids),
                0 <= k <= j < ids.len(),
                ids[j] == cur,
                self.cursor() == ids[k],
                out.deep_view() == chain_payloads(m, ids).subrange(k, j),
            decreases ids.len() - j,
        {
            proof {
                assert(node_at(m, ids[j]) is Some);
            }
            let bytes = match container.read(&cur) {
                Ok(b) => b,
                Err(_) => {
                    proof {
                        assert(false);
                    }
                    return out;
                },
            };
            let block = match Block::<B::Id>::decode(bytes.as_slice()) {
                Ok(b) => b,
                Err(_) => {
                    proof {
                        assert(false);
                    }
                    return out;
                },
            };
            let next = block.next;
            let ghost pre_dv = out.deep_view();
            let ghost pl = block.payload@;
            out.push(block.payload);
            proof {
                assert(node_at(m, ids[j])->Some_0.payload == pl);
                assert forall|t: int| 0 <= t < out@.len() implies out.deep_view()[t]
                    == chain_payloads(m, ids).subrange(k, j + 1)[t] by {
                    if t < pre_dv.len() {
                        assert(out.deep_view()[t] == pre_dv[t]);
                    } else {
                        assert(out@[t].deep_view() =~= pl);
                    }
                }
                assert(out.deep_view() =~= chain_payloads(m, ids).subrange(k, j + 1));
            }
            if next.is_null() {
                proof {
                    if j < ids.len() - 1 {
                        assert(ids.contains(ids[j + 1]));
                    }
                    assert(out.deep_view() =~= chain_payloads(m, ids).skip(k));
                    assert forall|ids2: Seq<B::Id>, k2: int|
                        #![trigger is_chain(m, ids2), ids2[k2]]
                        is_chain(m, ids2) && 0 <= k2 < ids2.len() && ids2[k2]
                            == self.cursor() implies out.deep_view() == chain_payloads(
                        m,
                        ids2,
                    ).skip(k2) by {
                        lemma_walk_payloads(m, ids, k, ids2, k2);
                    }
                }
                return out;
            }
            cur = next;
            proof {
                j = j + 1;
            }
        }
    }
}

} // verus!
