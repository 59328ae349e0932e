use vstd::prelude::*;

use crate::layout::push_u64_le;
use crate::layout::read_u64_le;
use crate::layout::spec_u64_le;

verus! {

/// The fixed header that every serialized outer config starts with: the
/// ASCII codes of "cryfs.config;1;scrypt".
pub open spec fn spec_header_bytes() -> Seq<u8> {
    seq![
        99u8,
        114u8,
        121u8,
        102u8,
        115u8,
        46u8,
        99u8,
        111u8,
        110u8,
        102u8,
        105u8,
        103u8,
        59u8,
        49u8,
        59u8,
        115u8,
        99u8,
        114u8,
        121u8,
        112u8,
        116u8,
    ]
}

/// Why a byte sequence is no serialized outer config.
#[derive(Clone, Copy, Debug, PartialEq, Eq, Structural)]
pub enum OuterConfigParseError {
    /// Too short for header, terminator and length field.
    Truncated,
    /// The leading NUL-terminated string is not the expected header.
    InvalidHeader,
    /// The length field claims more parameter bytes than the input holds.
    KdfParametersTooLong,
}

/// A serialized input is well formed when it starts with the fixed header and
/// its NUL terminator, carries an eight-byte length field, and holds at least
/// that many parameter bytes after it.
pub open spec fn spec_outer_config_ok(s: Seq<u8>) -> bool {
    &&& s.len() >= 30
    &&& s.subrange(0, 21) == spec_header_bytes()
    &&& s[21] == 0
    &&& spec_u64_le(s, 22) <= s.len() - 30
}

/// The serialized form: header, NUL, parameter length, parameters, body.
pub open spec fn spec_serialize_outer_config(kdf: Seq<u8>, body: Seq<u8>) -> Seq<u8> {
    spec_header_bytes() + seq![0u8] + spec_u64_le_bytes(kdf.len() as u64) + kdf + body
}

/// The eight little-endian bytes of `v`.
pub open spec fn spec_u64_le_bytes(v: u64) -> Seq<u8> {
    seq![
        (v % 256) as u8,
        ((v / 256) % 256) as u8,
        ((v / 65536) % 256) as u8,
        ((v / 16777216) % 256) as u8,
        ((v / 4294967296) % 256) as u8,
        ((v / 1099511627776) % 256) as u8,
        ((v / 281474976710656) % 256) as u8,
        ((v / 72057594037927936) % 256) as u8,
    ]
}

/// Wraps an encrypted inner config and the serialized parameters of the key
/// derivation that encrypted it, and carries both to and from the on-disk
/// form: a fixed NUL-terminated header, the parameter bytes behind a length
/// field, then the ciphertext to the end of the input. The cipher itself is
/// an outside collaborator; this type only frames its bytes.
pub struct OuterConfig {
    kdf_parameters_serialized: Vec<u8>,
    encrypted_inner_config: Vec<u8>,
}

impl OuterConfig {
    /// The serialized key-derivation parameters.
    pub closed spec fn spec_kdf_parameters(&self) -> Seq<u8> {
        self.kdf_parameters_serialized@
    }

    /// The encrypted inner config.
    pub closed spec fn spec_encrypted_inner_config(&self) -> Seq<u8> {
        self.encrypted_inner_config@
    }

    /// Wraps an already-encrypted inner config and the parameters that were
    /// used to derive its key.
    pub fn new(kdf_parameters_serialized: Vec<u8>, encrypted_inner_config: Vec<u8>) -> (r:
        OuterConfig)
        ensures
            r.spec_kdf_parameters() == kdf_parameters_serialized@,
            r.spec_encrypted_inner_config() == encrypted_inner_config@,
    {
        OuterConfig { kdf_parameters_serialized, encrypted_inner_config }
    }

    /// The serialized key-derivation parameters.
    pub fn kdf_parameters(&self) -> (r: &[u8])
        ensures
            r@ == self.spec_kdf_parameters(),
    {
        self.kdf_parameters_serialized.as_slice()
    }

    /// The encrypted inner config.
    pub fn encrypted_inner_config(&self) -> (r: &[u8])
        ensures
            r@ == self.spec_encrypted_inner_config(),
    {
        self.encrypted_inner_config.as_slice()
    }

    /// Parses a serialized outer config: checks the header, then takes the
    /// parameter bytes behind the length field and the ciphertext after them.
    pub fn deserialize(source: &Vec<u8>) -> (r: Result<OuterConfig, OuterConfigParseError>)
        ensures
            r is Ok <==> spec_outer_config_ok(source@),
            r matches Ok(c) ==> {
                let n = spec_u64_le(source@, 22);
                &&& c.spec_kdf_parameters() == source@.subrange(30, 30 + n as int)
                &&& c.spec_encrypted_inner_config() == source@.subrange(
                    30 + n as int,
                    source@.len() as int,
                )
            },
            r == Err::<OuterConfig, OuterConfigParseError>(OuterConfigParseError::Truncated)
                <==> source@.len() < 30,
            r == Err::<OuterConfig, OuterConfigParseError>(OuterConfigParseError::InvalidHeader)
                <==> (source@.len() >= 30 && !(source@.subrange(0, 21) == spec_header_bytes()
                && source@[21] == 0)),
            r == Err::<OuterConfig, OuterConfigParseError>(
                OuterConfigParseError::KdfParametersTooLong,
            ) <==> (source@.len() >= 30 && source@.subrange(0, 21) == spec_header_bytes()
                && source@[21] == 0 && spec_u64_le(source@, 22) > source@.len() - 30),
    {
        let n = source.len();
        if n < 30 {
            return Err(OuterConfigParseError::Truncated);
        }
        let header = header_bytes();
        let mut i: usize = 0;
        while i < 21
            invariant
                0 <= i <= 21,
                n == source@.len(),
                n >= 30,
                header@ == spec_header_bytes(),
                forall|k: int| 0 <= k < i ==> source@[k] == spec_header_bytes()[k],
            decreases 21 - i,
        {
            if source[i] != header[i] {
                proof {
                    assert(source@.subrange(0, 21)[i as int] != spec_header_bytes()[i as int]);
                }
                return Err(OuterConfigParseError::InvalidHeader);
            }
            i = i + 1;
        }
        if source[21] != 0 {
            proof {
                assert(source@.subrange(0, 21) =~= spec_header_bytes());
            }
            return Err(OuterConfigParseError::InvalidHeader);
        }
        proof {
            assert(source@.subrange(0, 21) =~= spec_header_bytes());
        }
        let kdf_len = read_u64_le(source, 22);
        if kdf_len > (n - 30) as u64 {
            return Err(OuterConfigParseError::KdfParametersTooLong);
        }
        let kdf_end = 30 + (kdf_len as usize);
        let kdf = vstd::slice::slice_to_vec(
            vstd::slice::slice_subrange(source.as_slice(), 30, kdf_end),
        );
        let body = vstd::slice::slice_to_vec(
            vstd::slice::slice_subrange(source.as_slice(), kdf_end, n),
        );
        Ok(OuterConfig { kdf_parameters_serialized: kdf, encrypted_inner_config: body })
    }

    /// Serializes the config: header, NUL, parameter length, parameters,
    /// ciphertext.
    pub fn serialize(self) -> (r: Vec<u8>)
        ensures
            r@ == spec_serialize_outer_config(
                self.spec_kdf_parameters(),
                self.spec_encrypted_inner_config(),
            ),
    {
        let mut out = header_bytes();
        out.push(0u8);
        let ghost pre = out@;
        push_u64_le(&mut out, self.kdf_parameters_serialized.len() as u64);
        let ghost mid = out@;
        let ghost v = self.kdf_parameters_serialized@.len() as u64;
        proof {
            lemma_u64_le_bytes(mid, 22, v);
            assert forall|k: int| 0 <= k < 8 implies mid[22 + k] == spec_u64_le_bytes(v)[k] by {
                assert(mid.subrange(22, 30)[k] == mid[22 + k]);
            }
        }
        let mut kdf = self.kdf_parameters_serialized;
        let mut body = self.encrypted_inner_config;
        let ghost kdf0 = kdf@;
        let ghost body0 = body@;
        out.append(&mut kdf);
        out.append(&mut body);
        proof {
            let target = spec_serialize_outer_config(kdf0, body0);
            assert(out@.len() == target.len());
            assert forall|k: int| 0 <= k < out@.len() implies out@[k] == target[k] by {
                assert(out@[k] == (mid + kdf0 + body0)[k]);
                if k < 21 {
                    assert(target[k] == spec_header_bytes()[k]);
                    assert(mid.subrange(0, 22)[k] == mid[k]);
                    assert(pre[k] == spec_header_bytes()[k]);
                } else if k == 21 {
                    assert(target[k] == 0u8);
                    assert(mid.subrange(0, 22)[k] == mid[k]);
                    assert(pre[k] == 0u8);
                } else if k < 30 {
                    assert(target[k] == spec_u64_le_bytes(v)[k - 22]);
                    assert(mid[k] == spec_u64_le_bytes(v)[k - 22]);
                } else if k < 30 + kdf0.len() {
                    assert(target[k] == kdf0[k - 30]);
                } else {
                    assert(target[k] == body0[k - 30 - kdf0.len()]);
                }
            }
            assert(out@ =~= target);
        }
        out
    }
}

/// Eight bytes whose little-endian reading is `v` are exactly the little-
/// endian bytes of `v`.
proof fn lemma_u64_le_bytes(s: Seq<u8>, off: int, v: u64)
    requires
        0 <= off,
        off + 8 <= s.len(),
        spec_u64_le(s, off) == v,
    ensures
        s.subrange(off, off + 8) =~= spec_u64_le_bytes(v),
{
    let b = s.subrange(off, off + 8);
    assert(spec_u64_le(s, off) == s[off] + 256 * s[off + 1] + 65536 * s[off + 2] + 16777216 * s[off
        + 3] + 4294967296 * s[off + 4] + 1099511627776 * s[off + 5] + 281474976710656 * s[off + 6]
        + 72057594037927936 * s[off + 7]);
    assert(b[0] == s[off] && b[1] == s[off + 1] && b[2] == s[off + 2] && b[3] == s[off + 3] && b[4]
        == s[off + 4] && b[5] == s[off + 5] && b[6] == s[off + 6] && b[7] == s[off + 7]);
    let x0 = b[0];
    let x1 = b[1];
    let x2 = b[2];
    let x3 = b[3];
    let x4 = b[4];
    let x5 = b[5];
    let x6 = b[6];
    let x7 = b[7];
    assert(x0 == v % 256 && x1 == (v / 256) % 256 && x2 == (v / 65536) % 256 && x3 == (v
        / 16777216) % 256 && x4 == (v / 4294967296) % 256 && x5 == (v / 1099511627776) % 256 && x6
        == (v / 281474976710656) % 256 && x7 == v / 72057594037927936) by (bit_vector)
        requires
            v == x0 + 256 * x1 + 65536 * x2 + 16777216 * x3 + 4294967296 * x4 + 1099511627776 * x5
                + 281474976710656 * x6 + 72057594037927936 * x7,
    ;
    assert(v / 72057594037927936 < 256);
}

/// The header's bytes, as a vector.
fn header_bytes() -> (r: Vec<u8>)
    ensures
        r@ == spec_header_bytes(),
        r@.len() == 21,
{
    let mut r: Vec<u8> = Vec::new();
    r.push(99u8);
    r.push(114u8);
    r.push(121u8);
    r.push(102u8);
    r.push(115u8);
    r.push(46u8);
    r.push(99u8);
    r.push(111u8);
    r.push(110u8);
    r.push(102u8);
    r.push(105u8);
    r.push(103u8);
    r.push(59u8);
    r.push(49u8);
    r.push(59u8);
    r.push(115u8);
    r.push(99u8);
    r.push(114u8);
    r.push(121u8);
    r.push(112u8);
    r.push(116u8);
    proof {
        assert(r@ =~= spec_header_bytes());
    }
    r
}

/// Parsing inverts serialization: a serialized config is well formed and
/// parses back to the same parameter bytes and the same ciphertext.
#[verifier::rlimit(50)]
pub proof fn lemma_outer_config_round_trip(kdf: Seq<u8>, body: Seq<u8>)
    requires
        kdf.len() <= u64::MAX,
    ensures
        ({
            let s = spec_serialize_outer_config(kdf, body);
            &&& spec_outer_config_ok(s)
            &&& spec_u64_le(s, 22) == kdf.len()
            &&& s.subrange(30, 30 + kdf.len() as int) == kdf
            &&& s.subrange(30 + kdf.len() as int, s.len() as int) == body
        }),
{
    let s = spec_serialize_outer_config(kdf, body);
    let v = kdf.len() as u64;
    assert(s.len() == 30 + kdf.len() + body.len());
    assert(s.subrange(0, 21) =~= spec_header_bytes());
    assert(s[21] == 0);
    assert(s.subrange(22, 30) =~= spec_u64_le_bytes(v));
    assert(s[22] == spec_u64_le_bytes(v)[0] && s[23] == spec_u64_le_bytes(v)[1] && s[24]
        == spec_u64_le_bytes(v)[2] && s[25] == spec_u64_le_bytes(v)[3] && s[26]
        == spec_u64_le_bytes(v)[4] && s[27] == spec_u64_le_bytes(v)[5] && s[28]
        == spec_u64_le_bytes(v)[6] && s[29] == spec_u64_le_bytes(v)[7]);
    assert(spec_u64_le(s, 22) == v % 256 + 256 * ((v / 256) % 256) + 65536 * ((v / 65536) % 256)
        + 16777216 * ((v / 16777216) % 256) + 4294967296 * ((v / 4294967296) % 256)
        + 1099511627776 * ((v / 1099511627776) % 256) + 281474976710656 * ((v / 281474976710656)
        % 256) + 72057594037927936 * (v / 72057594037927936));
    assert(v % 256 + 256 * ((v / 256) % 256) + 65536 * ((v / 65536) % 256) + 16777216 * ((v
        / 16777216) % 256) + 4294967296 * ((v / 4294967296) % 256) + 1099511627776 * ((v
        / 1099511627776) % 256) + 281474976710656 * ((v / 281474976710656) % 256)
        + 72057594037927936 * (v / 72057594037927936) == v) by (bit_vector);
    assert(s.subrange(30, 30 + kdf.len() as int) =~= kdf);
    assert(s.subrange(30 + kdf.len() as int, s.len() as int) =~= body);
}

} // verus!
