//! Fixed-size little-endian block encoding of nodes.
//!
//! A node with fanout `S` occupies the first `12 * S` bytes of a block: `S`
//! keys of eight bytes, then `S` identifiers of four bytes. The rest of the
//! block is zero. The live size is not stored: it is the number of leading
//! non-zero keys.
use crate::node::{Node, NodeIdent, NodeView, SearchKey};
use vstd::bytes::*;
use vstd::slice::slice_subrange;
use vstd::prelude::*;

verus! {

/// Size of a file block in bytes.
pub const BLOCK_SIZE: usize = 128;

/// Bytes taken by one search key.
pub const KEY_BYTES: usize = 8;

/// Bytes taken by one node identifier.
pub const IDENT_BYTES: usize = 4;

/// The eight little-endian bytes of a key.
pub open spec fn key_bytes(k: SearchKey) -> Seq<u8> {
    spec_u64_to_le_bytes(k as u64)
}

/// The four little-endian bytes of an identifier.
pub open spec fn ident_bytes(x: NodeIdent) -> Seq<u8> {
    spec_u32_to_le_bytes(x as u32)
}

/// The key read from the eight bytes at `8 * i`.
pub open spec fn key_at(b: Seq<u8>, i: int) -> SearchKey {
    spec_u64_from_le_bytes(b.subrange(8 * i, 8 * i + 8)) as i64
}

/// The identifier read from the four bytes at `8 * fanout + 4 * i`.
pub open spec fn ident_at(b: Seq<u8>, fanout: nat, i: int) -> NodeIdent {
    spec_u32_from_le_bytes(b.subrange(8 * fanout + 4 * i, 8 * fanout + 4 * i + 4)) as i32
}

/// The number of leading non-zero entries of `keys` from `i` on, plus `i`.
pub open spec fn leading_nonzero(keys: Seq<SearchKey>, i: int) -> int
    decreases keys.len() - i,
{
    if i < 0 || i >= keys.len() || keys[i] == 0 {
        i
    } else {
        leading_nonzero(keys, i + 1)
    }
}

/// The node that a block decodes to.
pub open spec fn decode_view(b: Seq<u8>, fanout: nat) -> NodeView {
    let keys = Seq::new(fanout, |i: int| key_at(b, i));
    NodeView {
        keys,
        vals: Seq::new(fanout, |i: int| ident_at(b, fanout, i)),
        size: leading_nonzero(keys, 0) as nat,
    }
}

/// `b` is the block that encodes `n`.
pub open spec fn encodes(n: NodeView, b: Seq<u8>) -> bool {
    let s = n.keys.len();
    &&& b.len() == BLOCK_SIZE
    &&& forall|i: int| 0 <= i < s ==> #[trigger] b.subrange(8 * i, 8 * i + 8) == key_bytes(n.keys[i])
    &&& forall|i: int|
        0 <= i < s ==> #[trigger] b.subrange(8 * s + 4 * i, 8 * s + 4 * i + 4) == ident_bytes(
            n.vals[i],
        )
    &&& forall|j: int| 12 * s <= j < BLOCK_SIZE ==> b[j] == 0
}

/// A node whose arrays have equal length and fit in a block.
pub open spec fn fits_block(n: NodeView) -> bool {
    n.vals.len() == n.keys.len() && 12 * n.keys.len() <= BLOCK_SIZE
}

/// The size of a node is the number of its leading non-zero keys.
pub open spec fn size_is_leading(n: NodeView) -> bool {
    &&& n.size <= n.keys.len()
    &&& forall|i: int| 0 <= i < n.size ==> n.keys[i] != 0
    &&& n.size < n.keys.len() ==> n.keys[n.size as int] == 0
}

proof fn lemma_leading_nonzero(keys: Seq<SearchKey>, i: int, n: int)
    requires
        0 <= i <= n <= keys.len(),
        forall|j: int| i <= j < n ==> keys[j] != 0,
        n < keys.len() ==> keys[n] == 0,
    ensures
        leading_nonzero(keys, i) == n,
    decreases n - i,
{
    if i < n {
        lemma_leading_nonzero(keys, i + 1, n);
    }
}

proof fn lemma_leading_nonzero_props(keys: Seq<SearchKey>, i: int)
    requires
        0 <= i <= keys.len(),
    ensures
        i <= leading_nonzero(keys, i) <= keys.len(),
        forall|j: int| i <= j < leading_nonzero(keys, i) ==> keys[j] != 0,
        leading_nonzero(keys, i) < keys.len() ==> keys[leading_nonzero(keys, i)] == 0,
    decreases keys.len() - i,
{
    if i < keys.len() && keys[i] != 0 {
        lemma_leading_nonzero_props(keys, i + 1);
    }
}

/// A decoded block has the fanout's number of entries and a size that counts
/// its leading non-zero keys.
pub proof fn lemma_decode_size(b: Seq<u8>, fanout: nat)
    ensures
        size_is_leading(decode_view(b, fanout)),
        decode_view(b, fanout).keys.len() == fanout,
        decode_view(b, fanout).vals.len() == fanout,
{
    let keys = Seq::new(fanout, |i: int| key_at(b, i));
    lemma_leading_nonzero_props(keys, 0);
}

/// Decoding the encoding of a node whose size counts its leading non-zero
/// keys gives the node back.
pub proof fn lemma_round_trip(n: NodeView, b: Seq<u8>)
    requires
        fits_block(n),
        size_is_leading(n),
        encodes(n, b),
    ensures
        decode_view(b, n.keys.len()) == n,
{
    let s = n.keys.len();
    let d = decode_view(b, s);
    lemma_auto_spec_u64_to_from_le_bytes();
    lemma_auto_spec_u32_to_from_le_bytes();
    assert forall|i: int| 0 <= i < s implies d.keys[i] == n.keys[i] by {
        assert(b.subrange(8 * i, 8 * i + 8) == key_bytes(n.keys[i]));
        let k = n.keys[i];
        assert((k as u64) as i64 == k) by (bit_vector);
    }
    assert forall|i: int| 0 <= i < s implies d.vals[i] == n.vals[i] by {
        assert(b.subrange(8 * s + 4 * i, 8 * s + 4 * i + 4) == ident_bytes(n.vals[i]));
        let x = n.vals[i];
        assert((x as u32) as i32 == x) by (bit_vector);
    }
    assert(d.keys =~= n.keys);
    assert(d.vals =~= n.vals);
    lemma_leading_nonzero(n.keys, 0, n.size as int);
}

/// A block is the encoding of what it decodes to when the bytes after its
/// entries are zero.
pub proof fn lemma_decode_encodes(b: Seq<u8>, fanout: nat)
    requires
        b.len() == BLOCK_SIZE,
        12 * fanout <= BLOCK_SIZE,
        forall|j: int| 12 * fanout <= j < b.len() ==> b[j] == 0,
    ensures
        encodes(decode_view(b, fanout), b),
{
    let d = decode_view(b, fanout);
    lemma_auto_spec_u64_to_from_le_bytes();
    lemma_auto_spec_u32_to_from_le_bytes();
    assert forall|i: int| 0 <= i < fanout implies #[trigger] b.subrange(8 * i, 8 * i + 8) == key_bytes(
        d.keys[i],
    ) by {
        let sub = b.subrange(8 * i, 8 * i + 8);
        let x = spec_u64_from_le_bytes(sub);
        assert((x as i64) as u64 == x) by (bit_vector);
        assert(spec_u64_to_le_bytes(spec_u64_from_le_bytes(sub)) == sub);
    }
    assert forall|i: int| 0 <= i < fanout implies #[trigger] b.subrange(
        8 * fanout + 4 * i,
        8 * fanout + 4 * i + 4,
    ) == ident_bytes(d.vals[i]) by {
        let sub = b.subrange(8 * fanout + 4 * i, 8 * fanout + 4 * i + 4);
        let x = spec_u32_from_le_bytes(sub);
        assert((x as i32) as u32 == x) by (bit_vector);
        assert(spec_u32_to_le_bytes(spec_u32_from_le_bytes(sub)) == sub);
    }
}

/// A node has one encoding.
pub proof fn lemma_encoding_unique(n: NodeView, b1: Seq<u8>, b2: Seq<u8>)
    requires
        fits_block(n),
        encodes(n, b1),
        encodes(n, b2),
    ensures
        b1 == b2,
{
    let s = n.keys.len();
    assert forall|j: int| 0 <= j < BLOCK_SIZE implies b1[j] == b2[j] by {
        if j < 8 * s {
            let i = j / 8;
            assert(0 <= i < s);
            assert(b1.subrange(8 * i, 8 * i + 8) == b2.subrange(8 * i, 8 * i + 8));
            assert(b1[j] == b1.subrange(8 * i, 8 * i + 8)[j - 8 * i]);
            assert(b2[j] == b2.subrange(8 * i, 8 * i + 8)[j - 8 * i]);
        } else if j < 12 * s {
            let i = (j - 8 * s) / 4;
            assert(0 <= i < s);
            assert(b1.subrange(8 * s + 4 * i, 8 * s + 4 * i + 4) == b2.subrange(
                8 * s + 4 * i,
                8 * s + 4 * i + 4,
            ));
            assert(b1[j] == b1.subrange(8 * s + 4 * i, 8 * s + 4 * i + 4)[j - 8 * s - 4 * i]);
            assert(b2[j] == b2.subrange(8 * s + 4 * i, 8 * s + 4 * i + 4)[j - 8 * s - 4 * i]);
        }
    }
    assert(b1 =~= b2);
}

/// Encoding to and decoding from a fixed-size block.
pub trait ByteSerialize: Sized {
    /// Whether the value can be written to a block.
    spec fn serializable(&self) -> bool;

    /// Whether `block` is the encoding of the value.
    spec fn encoded_as(&self, block: Seq<u8>) -> bool;

    /// Whether the value is what `block` decodes to with the given fanout.
    spec fn decoded_from(&self, block: Seq<u8>, fanout: nat) -> bool;

    fn to_bytes(&self) -> (r: Vec<u8>)
        requires
            self.serializable(),
        ensures
            self.encoded_as(r@),
    ;

    fn from_bytes(block: &Vec<u8>, fanout: usize) -> (r: Self)
        requires
            block@.len() == BLOCK_SIZE,
            12 * fanout <= BLOCK_SIZE,
        ensures
            r.decoded_from(block@, fanout as nat),
    ;
}

impl ByteSerialize for Node {
    open spec fn serializable(&self) -> bool {
        fits_block(self@)
    }

    open spec fn encoded_as(&self, block: Seq<u8>) -> bool {
        encodes(self@, block)
    }

    open spec fn decoded_from(&self, block: Seq<u8>, fanout: nat) -> bool {
        self@ == decode_view(block, fanout)
    }

    fn to_bytes(&self) -> (r: Vec<u8>) {
        let s = self.separators.len();
        let mut bytes: Vec<u8> = vec![0u8; BLOCK_SIZE];
        let mut i: usize = 0;
        while i < s
            invariant
                s == self.separators@.len(),
                fits_block(self@),
                i <= s,
                bytes@.len() == BLOCK_SIZE,
                forall|j: int|
                    0 <= j < i ==> #[trigger] bytes@.subrange(8 * j, 8 * j + 8) == key_bytes(
                        self.separators@[j],
                    ),
                forall|j: int| 8 * i <= j < BLOCK_SIZE ==> bytes@[j] == 0,
            decreases s - i,
        {
            let entry = u64_to_le_bytes(self.separators[i] as u64);
            let ghost before = bytes@;
            let mut k: usize = 0;
            while k < KEY_BYTES
                invariant
                    k <= 8,
                    i < s,
                    12 * s <= BLOCK_SIZE,
                    entry@.len() == 8,
                    bytes@.len() == BLOCK_SIZE,
                    forall|j: int| 0 <= j < BLOCK_SIZE && !(8 * i <= j < 8 * i + k) ==> bytes@[j]
                        == before[j],
                    forall|j: int| 0 <= j < k ==> bytes@[8 * i + j] == entry@[j],
                    forall|j: int| 8 * i <= j < BLOCK_SIZE ==> before[j] == 0,
                decreases 8 - k,
            {
                bytes.set(8 * i + k, entry[k]);
                k = k + 1;
            }
            assert(bytes@.subrange(8 * i as int, 8 * i + 8) =~= key_bytes(self.separators@[i as int]));
            assert forall|j: int| 8 * i + 8 <= j < BLOCK_SIZE implies bytes@[j] == 0 by {
                assert(bytes@[j] == before[j]);
            }
            assert forall|j: int| 0 <= j < i implies #[trigger] bytes@.subrange(8 * j, 8 * j + 8)
                == key_bytes(self.separators@[j]) by {
                assert(bytes@.subrange(8 * j, 8 * j + 8) =~= before.subrange(8 * j, 8 * j + 8));
            }
            i = i + 1;
        }
        let mut i: usize = 0;
        while i < s
            invariant
                s == self.separators@.len(),
                fits_block(self@),
                i <= s,
                bytes@.len() == BLOCK_SIZE,
                forall|j: int|
                    0 <= j < s ==> #[trigger] bytes@.subrange(8 * j, 8 * j + 8) == key_bytes(
                        self.separators@[j],
                    ),
                forall|j: int|
                    0 <= j < i ==> #[trigger] bytes@.subrange(8 * s + 4 * j, 8 * s + 4 * j + 4)
                        == ident_bytes(self.children@[j]),
                forall|j: int| 8 * s + 4 * i <= j < BLOCK_SIZE ==> bytes@[j] == 0,
            decreases s - i,
        {
            let entry = u32_to_le_bytes(self.children[i] as u32);
            let ghost before = bytes@;
            let base = 8 * s + 4 * i;
            let mut k: usize = 0;
            while k < IDENT_BYTES
                invariant
                    k <= 4,
                    i < s,
                    base == 8 * s + 4 * i,
                    12 * s <= BLOCK_SIZE,
                    entry@.len() == 4,
                    bytes@.len() == BLOCK_SIZE,
                    forall|j: int| 0 <= j < BLOCK_SIZE && !(base <= j < base + k) ==> bytes@[j]
                        == before[j],
                    forall|j: int| 0 <= j < k ==> bytes@[base + j] == entry@[j],
                    forall|j: int| base <= j < BLOCK_SIZE ==> before[j] == 0,
                decreases 4 - k,
            {
                bytes.set(base + k, entry[k]);
                k = k + 1;
            }
            assert(bytes@.subrange(base as int, base + 4) =~= ident_bytes(self.children@[i as int]));
            assert forall|j: int| base + 4 <= j < BLOCK_SIZE implies bytes@[j] == 0 by {
                assert(bytes@[j] == before[j]);
            }
            assert forall|j: int| 0 <= j < i implies #[trigger] bytes@.subrange(
                8 * s + 4 * j,
                8 * s + 4 * j + 4,
            ) == ident_bytes(self.children@[j]) by {
                assert(bytes@.subrange(8 * s + 4 * j, 8 * s + 4 * j + 4) =~= before.subrange(
                    8 * s + 4 * j,
                    8 * s + 4 * j + 4,
                ));
            }
            assert forall|j: int| 0 <= j < s implies #[trigger] bytes@.subrange(8 * j, 8 * j + 8)
                == key_bytes(self.separators@[j]) by {
                assert(bytes@.subrange(8 * j, 8 * j + 8) =~= before.subrange(8 * j, 8 * j + 8));
            }
            i = i + 1;
        }
        bytes
    }

    fn from_bytes(block: &Vec<u8>, fanout: usize) -> (r: Node) {
        let ghost b = block@;
        let mut separators: Vec<SearchKey> = Vec::new();
        let mut children: Vec<NodeIdent> = Vec::new();
        let mut i: usize = 0;
        while i < fanout
            invariant
                b == block@,
                b.len() == BLOCK_SIZE,
                12 * fanout <= BLOCK_SIZE,
                i <= fanout,
                separators@.len() == i,
                children@.len() == i,
                forall|j: int| 0 <= j < i ==> separators@[j] == key_at(b, j),
                forall|j: int| 0 <= j < i ==> children@[j] == ident_at(b, fanout as nat, j),
            decreases fanout - i,
        {
            let k = u64_from_le_bytes(slice_subrange(block.as_slice(), 8 * i, 8 * i + 8));
            separators.push(k as i64);
            let base = 8 * fanout + 4 * i;
            let c = u32_from_le_bytes(slice_subrange(block.as_slice(), base, base + 4));
            children.push(c as i32);
            i = i + 1;
        }
        let mut size: usize = 0;
        while size < fanout && separators[size] != 0
            invariant
                size <= fanout,
                separators@.len() == fanout,
                forall|j: int| 0 <= j < size ==> separators@[j] != 0,
            decreases fanout - size,
        {
            size = size + 1;
        }
        let ghost d = decode_view(b, fanout as nat);
        assert(separators@ =~= d.keys);
        assert(children@ =~= d.vals);
        proof {
            lemma_leading_nonzero(d.keys, 0, size as int);
        }
        Node { separators, children, size }
    }
}

} // verus!
