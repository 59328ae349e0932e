use vstd::prelude::*;

verus! {

use vstd::arithmetic::div_mod::lemma_div_denominator;
use vstd::string::StringSliceAdditionalSpecFns;
use vstd::arithmetic::div_mod::lemma_fundamental_div_mod;

/// The sixteen bytes starting at index 0, read as a little-endian integer.
/// This is the numeric value of a serialized block id.
pub open spec fn spec_id_value(b: Seq<u8>) -> nat
    recommends
        b.len() >= 16,
{
    (b[0] + 256 * b[1] + 65536 * b[2] + 16777216 * b[3] + 4294967296 * b[4] + 1099511627776 * b[5] + 281474976710656 * b[6] + 72057594037927936 * b[7] + 18446744073709551616 * b[8] + 4722366482869645213696 * b[9] + 1208925819614629174706176 * b[10] + 309485009821345068724781056 * b[11] + 79228162514264337593543950336 * b[12] + 20282409603651670423947251286016 * b[13] + 5192296858534827628530496329220096 * b[14] + 1329227995784915872903807060280344576 * b[15]) as nat
}

/// Whether `c` is the code of an ASCII hexadecimal digit.
pub open spec fn spec_is_hex_digit(c: u8) -> bool {
    (48 <= c <= 57) || (97 <= c <= 102) || (65 <= c <= 70)
}

/// The value of the ASCII hexadecimal digit `c`.
pub open spec fn spec_hex_digit_value(c: u8) -> u8
    recommends
        spec_is_hex_digit(c),
{
    if 48 <= c <= 57 {
        (c - 48) as u8
    } else if 97 <= c <= 102 {
        (c - 87) as u8
    } else {
        (c - 55) as u8
    }
}

/// Whether `s` is a 32-digit hexadecimal block id.
pub open spec fn spec_is_hex_block_id(s: Seq<u8>) -> bool {
    s.len() == 32 && forall|i: int| 0 <= i < 32 ==> spec_is_hex_digit(#[trigger] s[i])
}

/// The sixteen bytes that a 32-digit hexadecimal string denotes, two digits
/// per byte, first digit high.
pub open spec fn spec_hex_bytes(s: Seq<u8>) -> Seq<u8>
    recommends
        spec_is_hex_block_id(s),
{
    Seq::new(16, |j: int| (spec_hex_digit_value(s[2 * j]) * 16 + spec_hex_digit_value(
        s[2 * j + 1],
    )) as u8)
}

/// Identifies one block of the underlying store. On disk it occupies sixteen
/// bytes; in memory it is their little-endian numeric value.
#[derive(Clone, Copy, PartialEq, Eq, Structural, Debug)]
pub struct BlockId {
    pub value: u128,
}

impl BlockId {
    pub fn new(value: u128) -> (r: BlockId)
        ensures
            r.value == value,
    {
        BlockId { value }
    }

    /// Reads an id from its sixteen serialized bytes.
    pub fn from_bytes(b: &Vec<u8>) -> (r: BlockId)
        requires
            b@.len() == 16,
        ensures
            r.value == spec_id_value(b@),
    {
        let value: u128 = (b_at(b, 0) as u128) + 256 * (b_at(b, 1) as u128) + 65536 * (b_at(b, 2) as u128) + 16777216 * (b_at(b, 3) as u128) + 4294967296 * (b_at(b, 4) as u128) + 1099511627776 * (b_at(b, 5) as u128) + 281474976710656 * (b_at(b, 6) as u128) + 72057594037927936 * (b_at(b, 7) as u128) + 18446744073709551616 * (b_at(b, 8) as u128) + 4722366482869645213696 * (b_at(b, 9) as u128) + 1208925819614629174706176 * (b_at(b, 10) as u128) + 309485009821345068724781056 * (b_at(b, 11) as u128) + 79228162514264337593543950336 * (b_at(b, 12) as u128) + 20282409603651670423947251286016 * (b_at(b, 13) as u128) + 5192296858534827628530496329220096 * (b_at(b, 14) as u128) + 1329227995784915872903807060280344576 * (b_at(b, 15) as u128);
        BlockId { value }
    }

    /// Serializes the id to its sixteen bytes.
    pub fn to_bytes(&self) -> (r: Vec<u8>)
        ensures
            r@.len() == 16,
            spec_id_value(r@) == self.value,
    {
        let b0 = (self.value % 256) as u8;
        let q1 = self.value / 256;
        let b1 = (q1 % 256) as u8;
        let q2 = q1 / 256;
        let b2 = (q2 % 256) as u8;
        let q3 = q2 / 256;
        let b3 = (q3 % 256) as u8;
        let q4 = q3 / 256;
        let b4 = (q4 % 256) as u8;
        let q5 = q4 / 256;
        let b5 = (q5 % 256) as u8;
        let q6 = q5 / 256;
        let b6 = (q6 % 256) as u8;
        let q7 = q6 / 256;
        let b7 = (q7 % 256) as u8;
        let q8 = q7 / 256;
        let b8 = (q8 % 256) as u8;
        let q9 = q8 / 256;
        let b9 = (q9 % 256) as u8;
        let q10 = q9 / 256;
        let b10 = (q10 % 256) as u8;
        let q11 = q10 / 256;
        let b11 = (q11 % 256) as u8;
        let q12 = q11 / 256;
        let b12 = (q12 % 256) as u8;
        let q13 = q12 / 256;
        let b13 = (q13 % 256) as u8;
        let q14 = q13 / 256;
        let b14 = (q14 % 256) as u8;
        let q15 = q14 / 256;
        let b15 = q15 as u8;
        proof {
            let v = self.value as int;
            lemma_fundamental_div_mod(v, 256);
            lemma_div_denominator(v, 256, 256);
            lemma_fundamental_div_mod(v / 256, 256);
            lemma_div_denominator(v, 65536, 256);
            lemma_fundamental_div_mod(v / 65536, 256);
            lemma_div_denominator(v, 16777216, 256);
            lemma_fundamental_div_mod(v / 16777216, 256);
            lemma_div_denominator(v, 4294967296, 256);
            lemma_fundamental_div_mod(v / 4294967296, 256);
            lemma_div_denominator(v, 1099511627776, 256);
            lemma_fundamental_div_mod(v / 1099511627776, 256);
            lemma_div_denominator(v, 281474976710656, 256);
            lemma_fundamental_div_mod(v / 281474976710656, 256);
            lemma_div_denominator(v, 72057594037927936, 256);
            lemma_fundamental_div_mod(v / 72057594037927936, 256);
            lemma_div_denominator(v, 18446744073709551616, 256);
            lemma_fundamental_div_mod(v / 18446744073709551616, 256);
            lemma_div_denominator(v, 4722366482869645213696, 256);
            lemma_fundamental_div_mod(v / 4722366482869645213696, 256);
            lemma_div_denominator(v, 1208925819614629174706176, 256);
            lemma_fundamental_div_mod(v / 1208925819614629174706176, 256);
            lemma_div_denominator(v, 309485009821345068724781056, 256);
            lemma_fundamental_div_mod(v / 309485009821345068724781056, 256);
            lemma_div_denominator(v, 79228162514264337593543950336, 256);
            lemma_fundamental_div_mod(v / 79228162514264337593543950336, 256);
            lemma_div_denominator(v, 20282409603651670423947251286016, 256);
            lemma_fundamental_div_mod(v / 20282409603651670423947251286016, 256);
            lemma_div_denominator(v, 5192296858534827628530496329220096, 256);
            lemma_fundamental_div_mod(v / 5192296858534827628530496329220096, 256);
            assert(v / 1329227995784915872903807060280344576 < 256);
        }
        let mut r: Vec<u8> = Vec::new();
    r.push(b0);
    r.push(b1);
    r.push(b2);
    r.push(b3);
    r.push(b4);
    r.push(b5);
    r.push(b6);
    r.push(b7);
    r.push(b8);
    r.push(b9);
    r.push(b10);
    r.push(b11);
    r.push(b12);
    r.push(b13);
    r.push(b14);
    r.push(b15);
        r
    }

    /// Parses a 32-digit hexadecimal string.
    pub fn from_hex(s: &str) -> (r: Option<BlockId>)
        ensures
            r is Some <==> spec_is_hex_block_id(s.spec_bytes()),
            r matches Some(id) ==> id.value == spec_id_value(spec_hex_bytes(s.spec_bytes())),
    {
        let digits = vstd::slice::slice_to_vec(s.as_bytes());
        if digits.len() != 32 {
            return None;
        }
        let mut bytes: Vec<u8> = Vec::new();
        for j in 0..16usize
            invariant
                digits@ == s.spec_bytes(),
                digits@.len() == 32,
                bytes@.len() == j,
                forall|k: int|
                    0 <= k < 2 * j ==> spec_is_hex_digit(#[trigger] digits@[k]),
                forall|k: int|
                    0 <= k < j ==> bytes@[k] == spec_hex_bytes(digits@)[k],
        {
            let hi = hex_digit_value(digits[2 * j]);
            let lo = hex_digit_value(digits[2 * j + 1]);
            match (hi, lo) {
                (Some(h), Some(l)) => {
                    bytes.push(h * 16 + l);
                },
                _ => {
                    return None;
                },
            }
        }
        let id = BlockId::from_bytes(&bytes);
        proof {
            assert(bytes@ =~= spec_hex_bytes(digits@));
        }
        Some(id)
    }
}

/// The byte at index `i`.
fn b_at(b: &Vec<u8>, i: usize) -> (r: u8)
    requires
        i < b@.len(),
    ensures
        r == b@[i as int],
{
    b[i]
}

/// The value of the ASCII hexadecimal digit `c`, or `None` if `c` is no such
/// digit.
fn hex_digit_value(c: u8) -> (r: Option<u8>)
    ensures
        r is Some <==> spec_is_hex_digit(c),
        r matches Some(v) ==> v == spec_hex_digit_value(c),
{
    if 48 <= c && c <= 57 {
        Some(c - 48)
    } else if 97 <= c && c <= 102 {
        Some(c - 87)
    } else if 65 <= c && c <= 70 {
        Some(c - 55)
    } else {
        None
    }
}

} // verus!
