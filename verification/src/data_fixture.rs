use vstd::prelude::*;

use rand::RngCore;
use rand::SeedableRng;

verus! {

use vstd::arithmetic::div_mod::lemma_fundamental_div_mod;
use vstd::arithmetic::div_mod::lemma_fundamental_div_mod_converse;
use vstd::arithmetic::div_mod::lemma_mod_division_less_than_divisor;

/// The fixture generates its stream in chunks of this many bytes, each from
/// its own generator, so any section can be produced without the data ahead
/// of it.
pub const FIXTURE_BLOCK_SIZE: u64 = 2048;

/// The first word a generator seeded with `seed` produces. It depends on the
/// seed alone.
pub uninterp spec fn rng_word(seed: u64) -> u64;

/// The block of bytes a generator seeded with `seed` produces. It depends on
/// the seed alone.
pub uninterp spec fn rng_block(seed: u64) -> Seq<u8>;

/// Relies on rand's `SmallRng::seed_from_u64` and `RngCore::next_u64`: the
/// word drawn from a freshly seeded generator is a function of the seed.
#[verifier::external_body]
fn seeded_rng_first_word(seed: u64) -> (r: u64)
    ensures
        r == rng_word(seed),
{
    rand::rngs::SmallRng::seed_from_u64(seed).next_u64()
}

/// Relies on rand's `SmallRng::seed_from_u64` and `RngCore::fill_bytes`: the
/// bytes drawn from a freshly seeded generator are a function of the seed.
#[verifier::external_body]
fn seeded_rng_block(seed: u64) -> (r: Vec<u8>)
    ensures
        r@ == rng_block(seed),
        r@.len() == FIXTURE_BLOCK_SIZE,
{
    let mut rng = rand::rngs::SmallRng::seed_from_u64(seed);
    let mut block = vec![0u8; FIXTURE_BLOCK_SIZE as usize];
    rng.fill_bytes(&mut block);
    block
}

/// Byte `pos` of the fixture stream for the (indirected) seed `seed`: byte
/// `pos % FIXTURE_BLOCK_SIZE` of the block whose generator is seeded with
/// `seed + pos / FIXTURE_BLOCK_SIZE`, wrapping.
pub open spec fn spec_fixture_byte(seed: u64, pos: int) -> u8 {
    rng_block(spec_block_seed(seed, pos / (FIXTURE_BLOCK_SIZE as int)))[pos % (
    FIXTURE_BLOCK_SIZE as int)]
}

/// The seed of the generator for block `index`: the stream seed plus the
/// index, wrapping.
pub open spec fn spec_block_seed(seed: u64, index: int) -> u64 {
    ((seed + index) % 0x1_0000_0000_0000_0000) as u64
}

/// Generates random but reproducible data: the same seed always yields the
/// same stream, and any section of the stream can be produced directly.
pub struct DataFixture {
    seed: u64,
}

impl DataFixture {
    /// The stream seed after indirection.
    pub closed spec fn spec_seed(&self) -> u64 {
        self.seed
    }

    /// Builds the fixture for `seed`. The seed is passed through the
    /// generator once, so that consecutive seeds yield unrelated streams even
    /// though block seeds are consecutive.
    pub fn new(seed: u64) -> (r: DataFixture)
        ensures
            r.spec_seed() == rng_word(seed),
    {
        DataFixture { seed: seeded_rng_first_word(seed) }
    }

    /// Fills `dest` with the section of the stream starting at `offset`.
    pub fn generate(&self, offset: u64, dest: &mut Vec<u8>)
        requires
            offset + old(dest)@.len() <= u64::MAX,
        ensures
            final(dest)@.len() == old(dest)@.len(),
            forall|k: int|
                0 <= k < old(dest)@.len() ==> final(dest)@[k] == spec_fixture_byte(
                    self.spec_seed(),
                    offset + k,
                ),
    {
        let len = dest.len();
        let mut done: u64 = 0;
        while (done as usize) < len
            invariant
                0 <= done <= len,
                len == dest@.len(),
                dest@.len() == old(dest)@.len(),
                offset + len <= u64::MAX,
                forall|k: int|
                    0 <= k < done ==> dest@[k] == spec_fixture_byte(self.spec_seed(), offset + k),
            decreases len - done,
        {
            let pos = offset + done;
            let block_index = pos / FIXTURE_BLOCK_SIZE;
            let in_block = pos % FIXTURE_BLOCK_SIZE;
            proof {
                lemma_mod_division_less_than_divisor(pos as int, FIXTURE_BLOCK_SIZE as int);
            }
            let block_seed = self.seed.wrapping_add(block_index);
            let block = seeded_rng_block(block_seed);
            let take_block = FIXTURE_BLOCK_SIZE - in_block;
            let remaining = (len - done as usize) as u64;
            let take = if take_block < remaining {
                take_block
            } else {
                remaining
            };
            let mut j: u64 = 0;
            while j < take
                invariant
                    0 <= j <= take,
                    take >= 1,
                    in_block + take <= FIXTURE_BLOCK_SIZE,
                    block@.len() == FIXTURE_BLOCK_SIZE,
                    block@ == rng_block(block_seed),
                    block_seed == spec_block_seed(self.spec_seed(), block_index as int),
                    done + take <= len,
                    len == dest@.len(),
                    dest@.len() == old(dest)@.len(),
                    forall|k: int|
                        0 <= k < done ==> dest@[k] == spec_fixture_byte(
                            self.spec_seed(),
                            offset + k,
                        ),
                    forall|k: int|
                        done <= k < done + j ==> dest@[k] == block@[in_block + (k - done)],
                decreases take - j,
            {
                let v = block[(in_block + j) as usize];
                let idx = (done + j) as usize;
                set_fixture_byte(dest, idx, v);
                j = j + 1;
            }
            proof {
                assert forall|k: int| done <= k < done + take implies dest@[k] == spec_fixture_byte(
                    self.spec_seed(),
                    offset + k,
                ) by {
                    let p = offset + k;
                    let bs = FIXTURE_BLOCK_SIZE as int;
                    lemma_fundamental_div_mod(pos as int, bs);
                    assert(bs * (block_index as int) == (block_index as int) * bs)
                        by (nonlinear_arith);
                    lemma_fundamental_div_mod_converse(
                        p,
                        bs,
                        block_index as int,
                        in_block + (k - done),
                    );
                }
            }
            done = done + take;
        }
    }

    /// The first `size` bytes of the stream.
    pub fn get(&self, size: usize) -> (r: Vec<u8>)
        requires
            size <= u64::MAX,
        ensures
            r@.len() == size,
            forall|k: int|
                0 <= k < size ==> r@[k] == spec_fixture_byte(self.spec_seed(), k),
    {
        let mut data: Vec<u8> = Vec::new();
        data.resize(size, 0u8);
        self.generate(0, &mut data);
        data
    }
}

/// Replaces element `i` of the vector.
fn set_fixture_byte(v: &mut Vec<u8>, i: usize, value: u8)
    requires
        i < old(v)@.len(),
    ensures
        final(v)@ == old(v)@.update(i as int, value),
{
    v[i] = value;
}

} // verus!
