use vstd::prelude::*;

verus! {

use vstd::arithmetic::div_mod::lemma_div_denominator;
use vstd::arithmetic::div_mod::lemma_fundamental_div_mod;

/// On-disk format version of every node, stored big-endian in the first two
/// header bytes.
pub const FORMAT_VERSION_HEADER: u16 = 0;

/// Size of the node header; a node's payload begins at this offset.
pub const NODE_HEADER_SIZE: usize = 8;

/// Size of one serialized block id inside an inner node's payload.
pub const BLOCK_ID_SIZE: usize = 16;

/// Cap on the depth of inner nodes.
pub const MAX_DEPTH: u8 = 10;

/// The two bytes at `off`, read as a big-endian integer.
pub open spec fn spec_u16_be(b: Seq<u8>, off: int) -> nat {
    (b[off] * 256 + b[off + 1]) as nat
}

/// The four bytes at `off`, read as a little-endian integer.
pub open spec fn spec_u32_le(b: Seq<u8>, off: int) -> nat {
    (b[off] + 256 * b[off + 1] + 65536 * b[off + 2] + 16777216 * b[off + 3]) as nat
}

/// Format version field of a node's bytes.
pub open spec fn spec_format_version(b: Seq<u8>) -> nat {
    spec_u16_be(b, 0)
}

/// Depth field of a node's bytes: 0 for a leaf, positive for an inner node.
pub open spec fn spec_depth(b: Seq<u8>) -> u8 {
    b[3]
}

/// Fourth header field of a node's bytes: the stored byte count for a leaf,
/// the child count for an inner node.
pub open spec fn spec_size_field(b: Seq<u8>) -> nat {
    spec_u32_le(b, 4)
}

/// Single parameter of the node format: the size every block must have.
/// Derived constants are the leaf capacity and the inner-node fanout.
#[derive(Clone, Copy, PartialEq, Eq, Structural, Debug)]
pub struct NodeLayout {
    pub block_size_bytes: u32,
}

impl NodeLayout {
    /// The block must hold the header, and enough payload for at least two
    /// child ids, so that inner nodes can branch.
    pub open spec fn valid(&self) -> bool {
        self.block_size_bytes >= NODE_HEADER_SIZE + 2 * BLOCK_ID_SIZE
    }

    pub open spec fn spec_max_bytes_per_leaf(&self) -> nat {
        (self.block_size_bytes - NODE_HEADER_SIZE) as nat
    }

    pub open spec fn spec_max_children_per_inner_node(&self) -> nat {
        ((self.block_size_bytes - NODE_HEADER_SIZE) as nat) / (BLOCK_ID_SIZE as nat)
    }

    /// How many payload bytes one leaf can hold.
    pub fn max_bytes_per_leaf(&self) -> (r: u32)
        requires
            self.valid(),
        ensures
            r == self.spec_max_bytes_per_leaf(),
    {
        self.block_size_bytes - (NODE_HEADER_SIZE as u32)
    }

    /// How many children one inner node can hold.
    pub fn max_children_per_inner_node(&self) -> (r: u32)
        requires
            self.valid(),
        ensures
            r == self.spec_max_children_per_inner_node(),
    {
        (self.block_size_bytes - (NODE_HEADER_SIZE as u32)) / (BLOCK_ID_SIZE as u32)
    }
}

/// Reads the big-endian pair of bytes at `off`.
pub fn read_u16_be(b: &Vec<u8>, off: usize) -> (r: u16)
    requires
        off + 2 <= b@.len(),
    ensures
        r == spec_u16_be(b@, off as int),
{
    let n = b.len();
    (b[off] as u16) * 256 + (b[off + 1] as u16)
}

/// Reads the little-endian quadruple of bytes at `off`.
pub fn read_u32_le(b: &Vec<u8>, off: usize) -> (r: u32)
    requires
        off + 4 <= b@.len(),
    ensures
        r == spec_u32_le(b@, off as int),
{
    let n = b.len();
    (b[off] as u32) + 256 * (b[off + 1] as u32) + 65536 * (b[off + 2] as u32) + 16777216 * (b[off
        + 3] as u32)
}

/// Overwrites the two bytes at `off` with `val`, big-endian.
pub fn write_u16_be(b: &mut Vec<u8>, off: usize, val: u16)
    requires
        off + 2 <= old(b)@.len(),
    ensures
        final(b)@.len() == old(b)@.len(),
        spec_u16_be(final(b)@, off as int) == val,
        forall|i: int|
            0 <= i < old(b)@.len() && !(off <= i < off + 2) ==> final(b)@[i] == old(b)@[i],
{
    let n = b.len();
    let hi = (val / 256) as u8;
    let lo = (val % 256) as u8;
    proof {
        lemma_fundamental_div_mod(val as int, 256);
    }
    b[off] = hi;
    b[off + 1] = lo;
}

/// Overwrites the four bytes at `off` with `val`, little-endian.
pub fn write_u32_le(b: &mut Vec<u8>, off: usize, val: u32)
    requires
        off + 4 <= old(b)@.len(),
    ensures
        final(b)@.len() == old(b)@.len(),
        spec_u32_le(final(b)@, off as int) == val,
        forall|i: int|
            0 <= i < old(b)@.len() && !(off <= i < off + 4) ==> final(b)@[i] == old(b)@[i],
{
    let n = b.len();
    let b0 = (val % 256) as u8;
    let b1 = ((val / 256) % 256) as u8;
    let b2 = ((val / 65536) % 256) as u8;
    let b3 = (val / 16777216) as u8;
    proof {
        let v = val as int;
        let q1 = v / 256;
        let q2 = q1 / 256;
        let q3 = q2 / 256;
        lemma_fundamental_div_mod(v, 256);
        lemma_fundamental_div_mod(q1, 256);
        lemma_fundamental_div_mod(q2, 256);
        lemma_div_denominator(v, 256, 256);
        lemma_div_denominator(v, 65536, 256);
        assert(q2 == v / 65536);
        assert(q3 == v / 16777216);
        assert(q3 < 256);
        assert(v == b0 + 256 * b1 + 65536 * b2 + 16777216 * b3);
    }
    b[off] = b0;
    b[off + 1] = b1;
    b[off + 2] = b2;
    b[off + 3] = b3;
}

/// Writes a node header: current format version, a zero for the unused byte,
/// the depth, and the fourth field (leaf size or child count). The payload
/// region is left untouched.
pub fn write_node_header(b: &mut Vec<u8>, depth: u8, size_field: u32)
    requires
        old(b)@.len() >= NODE_HEADER_SIZE,
    ensures
        final(b)@.len() == old(b)@.len(),
        spec_format_version(final(b)@) == FORMAT_VERSION_HEADER,
        final(b)@[2] == 0u8,
        spec_depth(final(b)@) == depth,
        spec_size_field(final(b)@) == size_field,
        forall|i: int|
            NODE_HEADER_SIZE <= i < old(b)@.len() ==> final(b)@[i] == old(b)@[i],
{
    write_u16_be(b, 0, FORMAT_VERSION_HEADER);
    b[2] = 0u8;
    b[3] = depth;
    write_u32_le(b, 4, size_field);
}

/// The eight bytes at `off`, read as a little-endian integer.
pub open spec fn spec_u64_le(b: Seq<u8>, off: int) -> nat {
    (b[off] + 256 * b[off + 1] + 65536 * b[off + 2] + 16777216 * b[off + 3] + 4294967296 * b[off + 4] + 1099511627776 * b[off + 5] + 281474976710656 * b[off + 6] + 72057594037927936 * b[off + 7]) as nat
}

/// Reads the little-endian eight bytes at `off`.
pub fn read_u64_le(b: &Vec<u8>, off: usize) -> (r: u64)
    requires
        off + 8 <= b@.len(),
    ensures
        r == spec_u64_le(b@, off as int),
{
    let n = b.len();
    (b[off] as u64) + 256 * (b[off + 1] as u64) + 65536 * (b[off + 2] as u64) + 16777216 * (b[off + 3] as u64) + 4294967296 * (b[off + 4] as u64) + 1099511627776 * (b[off + 5] as u64) + 281474976710656 * (b[off + 6] as u64) + 72057594037927936 * (b[off + 7] as u64)
}

/// Appends `val` to `out` as eight little-endian bytes.
pub fn push_u64_le(out: &mut Vec<u8>, val: u64)
    ensures
        final(out)@.len() == old(out)@.len() + 8,
        final(out)@.subrange(0, old(out)@.len() as int) == old(out)@,
        spec_u64_le(final(out)@, old(out)@.len() as int) == val,
{
    let b0 = (val % 256) as u8;
    let q1 = val / 256;
    let b1 = (q1 % 256) as u8;
    let q2 = q1 / 256;
    let b2 = (q2 % 256) as u8;
    let q3 = q2 / 256;
    let b3 = (q3 % 256) as u8;
    let q4 = q3 / 256;
    let b4 = (q4 % 256) as u8;
    let q5 = q4 / 256;
    let b5 = (q5 % 256) as u8;
    let q6 = q5 / 256;
    let b6 = (q6 % 256) as u8;
    let q7 = q6 / 256;
    proof {
        let v = val as int;
        lemma_fundamental_div_mod(v, 256);
        lemma_div_denominator(v, 256, 256);
        lemma_fundamental_div_mod(v / 256, 256);
        lemma_div_denominator(v, 65536, 256);
        lemma_fundamental_div_mod(v / 65536, 256);
        lemma_div_denominator(v, 16777216, 256);
        lemma_fundamental_div_mod(v / 16777216, 256);
        lemma_div_denominator(v, 4294967296, 256);
        lemma_fundamental_div_mod(v / 4294967296, 256);
        lemma_div_denominator(v, 1099511627776, 256);
        lemma_fundamental_div_mod(v / 1099511627776, 256);
        lemma_div_denominator(v, 281474976710656, 256);
        lemma_fundamental_div_mod(v / 281474976710656, 256);
        assert(v / 72057594037927936 < 256);
    }
    out.push(b0);
    out.push(b1);
    out.push(b2);
    out.push(b3);
    out.push(b4);
    out.push(b5);
    out.push(b6);
    out.push(q7 as u8);
    proof {
        assert(final(out)@.subrange(0, old(out)@.len() as int) =~= old(out)@);
    }
}

} // verus!
