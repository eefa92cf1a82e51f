//! The digest a FLAC stream carries of the audio it was made from.
//!
//! Every frame is already guarded by a CRC, but a CRC only proves that a frame
//! arrived as it was written. The digest proves something stronger and more
//! useful here: that the samples coming out of the decoder are the samples that
//! went into the encoder. That is exactly the guarantee this crate makes about
//! the whole pipeline, so it is worth writing and worth checking.
//!
//! MD5 is used because the format specifies it, not because anything here needs
//! a cryptographic hash. It is guarding against damaged files, not attackers.

use vstd::arithmetic::power2::lemma2_to64;
use vstd::prelude::*;

use super::decode::planes;
use crate::audio::bytes::{
    le_bytes, lemma_le_bytes_len, lemma_le_bytes_mod, push_le, push_le_unsigned,
};

verus! {

/// The left-rotation amount of a round.
pub open spec fn shift_at(round: nat) -> u32 {
    let step = round % 4;
    if round < 16 {
        if step == 0 { 7 } else if step == 1 { 12 } else if step == 2 { 17 } else { 22 }
    } else if round < 32 {
        if step == 0 { 5 } else if step == 1 { 9 } else if step == 2 { 14 } else { 20 }
    } else if round < 48 {
        if step == 0 { 4 } else if step == 1 { 11 } else if step == 2 { 16 } else { 23 }
    } else {
        if step == 0 { 6 } else if step == 1 { 10 } else if step == 2 { 15 } else { 21 }
    }
}

/// The integer parts of `2^32 * |sin(round + 1)|`.
pub const CONSTANTS: [u32; 64] = [
    0xd76a_a478, 0xe8c7_b756, 0x2420_70db, 0xc1bd_ceee,
    0xf57c_0faf, 0x4787_c62a, 0xa830_4613, 0xfd46_9501,
    0x6980_98d8, 0x8b44_f7af, 0xffff_5bb1, 0x895c_d7be,
    0x6b90_1122, 0xfd98_7193, 0xa679_438e, 0x49b4_0821,
    0xf61e_2562, 0xc040_b340, 0x265e_5a51, 0xe9b6_c7aa,
    0xd62f_105d, 0x0244_1453, 0xd8a1_e681, 0xe7d3_fbc8,
    0x21e1_cde6, 0xc337_07d6, 0xf4d5_0d87, 0x455a_14ed,
    0xa9e3_e905, 0xfcef_a3f8, 0x676f_02d9, 0x8d2a_4c8a,
    0xfffa_3942, 0x8771_f681, 0x6d9d_6122, 0xfde5_380c,
    0xa4be_ea44, 0x4bde_cfa9, 0xf6bb_4b60, 0xbebf_bc70,
    0x289b_7ec6, 0xeaa1_27fa, 0xd4ef_3085, 0x0488_1d05,
    0xd9d4_d039, 0xe6db_99e5, 0x1fa2_7cf8, 0xc4ac_5665,
    0xf429_2244, 0x432a_ff97, 0xab94_23a7, 0xfc93_a039,
    0x655b_59c3, 0x8f0c_cc92, 0xffef_f47d, 0x8584_5dd1,
    0x6fa8_7e4f, 0xfe2c_e6e0, 0xa301_4314, 0x4e08_11a1,
    0xf753_7e82, 0xbd3a_f235, 0x2ad7_d2bb, 0xeb86_d391,
];

/// The four words the algorithm works on.
#[derive(Clone, Copy)]
pub struct State {
    pub a: u32,
    pub b: u32,
    pub c: u32,
    pub d: u32,
}

/// The state the algorithm starts from.
pub open spec fn initial() -> State {
    State { a: 0x6745_2301, b: 0xefcd_ab89, c: 0x98ba_dcfe, d: 0x1032_5476 }
}

/// The sum of two words, without what does not fit.
pub open spec fn plus(first: u32, second: u32) -> u32 {
    ((first + second) % 0x1_0000_0000) as u32
}

/// A word rotated to the left.
pub open spec fn rotated(word: u32, shift: u32) -> u32 {
    (word << shift) | (word >> ((32 - shift) as u32))
}

/// The little-endian words of a block.
pub open spec fn word_at(block: Seq<u8>, index: int) -> u32 {
    (block[4 * index] + 0x100 * block[4 * index + 1] + 0x1_0000 * block[4 * index + 2] + 0x100_0000
        * block[4 * index + 3]) as u32
}

/// What one round mixes in, and the word it takes.
pub open spec fn mixture(state: State, round: nat) -> (u32, nat) {
    let (b, c, d) = (state.b, state.c, state.d);
    if round < 16 {
        ((b & c) | (!b & d), round)
    } else if round < 32 {
        ((d & b) | (!d & c), (5 * round + 1) % 16)
    } else if round < 48 {
        (b ^ c ^ d, (3 * round + 5) % 16)
    } else {
        (c ^ (b | !d), (7 * round) % 16)
    }
}

/// The state after one more round over a block.
#[verifier::opaque]
pub open spec fn stirred(state: State, block: Seq<u8>, round: nat) -> State {
    let (mixed, index) = mixture(state, round);
    let sum = plus(
        plus(plus(state.a, mixed), CONSTANTS@[round as int]),
        word_at(block, index as int),
    );
    State {
        a: state.d,
        d: state.c,
        c: state.b,
        b: plus(state.b, rotated(sum, shift_at(round))),
    }
}

/// The state after the first `rounds` rounds over a block.
pub open spec fn stirred_times(state: State, block: Seq<u8>, rounds: nat) -> State
    decreases rounds,
{
    if rounds == 0 {
        state
    } else {
        stirred(stirred_times(state, block, (rounds - 1) as nat), block, (rounds - 1) as nat)
    }
}

/// The state after a whole block.
#[verifier::opaque]
pub open spec fn compressed(state: State, block: Seq<u8>) -> State {
    let stirred = stirred_times(state, block, 64);
    State {
        a: plus(state.a, stirred.a),
        b: plus(state.b, stirred.b),
        c: plus(state.c, stirred.c),
        d: plus(state.d, stirred.d),
    }
}

/// The state after the first `count` blocks of a message.
pub open spec fn absorbed(message: Seq<u8>, count: nat) -> State
    decreases count,
{
    if count == 0 {
        initial()
    } else {
        compressed(
            absorbed(message, (count - 1) as nat),
            message.subrange(64 * (count - 1), 64 * count as int),
        )
    }
}

/// A message with the mark, the zeros and the length that fill its last block.
pub open spec fn filled_out(message: Seq<u8>) -> Seq<u8> {
    message + seq![0x80u8] + Seq::new(
        ((119 - message.len() % 64) % 64) as nat,
        |i: int| 0u8,
    ) + le_bytes(8 * message.len() as int, 8)
}

/// The bytes of a state, word by word, least significant first.
pub open spec fn state_bytes(state: State) -> Seq<u8> {
    le_bytes(state.a as int, 4) + le_bytes(state.b as int, 4) + le_bytes(state.c as int, 4)
        + le_bytes(state.d as int, 4)
}

/// The digest of a message.
#[verifier::opaque]
pub open spec fn digest_of(message: Seq<u8>) -> Seq<u8> {
    let whole = filled_out(message);
    state_bytes(absorbed(whole, whole.len() / 64))
}

/// What comes behind a block changes nothing about it.
proof fn lemma_absorbed_prefix(message: Seq<u8>, more: Seq<u8>, count: nat)
    requires
        64 * count <= message.len(),
    ensures
        absorbed(message + more, count) == absorbed(message, count),
    decreases count,
{
    if count > 0 {
        lemma_absorbed_prefix(message, more, (count - 1) as nat);
        assert((message + more).subrange(64 * (count - 1), 64 * count as int) =~= message.subrange(
            64 * (count - 1),
            64 * count as int,
        ));
    }
}

/// The incremental state of a digest.
pub struct Md5 {
    state: State,
    buffer: Vec<u8>,
    length: u64,
    message: Ghost<Seq<u8>>,
}

impl View for Md5 {
    type V = Seq<u8>;

    /// Everything absorbed so far.
    closed spec fn view(&self) -> Seq<u8> {
        self.message@
    }
}

impl Md5 {
    /// The whole blocks are in the state, and the rest waits in the buffer.
    pub closed spec fn wf(&self) -> bool {
        let message = self.message@;
        let blocks = message.len() / 64;
        &&& self.state == absorbed(message, blocks)
        &&& self.buffer@ == message.skip(64 * blocks as int)
        &&& self.length == message.len() % 0x1_0000_0000_0000_0000
    }

    /// The state the algorithm starts from.
    pub fn new() -> (hasher: Self)
        ensures
            hasher.wf(),
            hasher@ == Seq::<u8>::empty(),
    {
        let hasher = Md5 {
            state: State { a: 0x6745_2301, b: 0xefcd_ab89, c: 0x98ba_dcfe, d: 0x1032_5476 },
            buffer: Vec::new(),
            length: 0,
            message: Ghost(Seq::empty()),
        };
        assert(hasher.buffer@ =~= hasher.message@.skip(0));
        hasher
    }

    /// Absorbs one byte, hashing the block it completes.
    fn absorb(&mut self, byte: u8)
        requires
            old(self).wf(),
        ensures
            final(self).wf(),
            final(self)@ == old(self)@.push(byte),
    {
        let ghost before = self.message@;
        let ghost after = before.push(byte);
        self.length = self.length.wrapping_add(1);
        self.buffer.push(byte);
        self.message = Ghost(after);
        proof {
            assert(after =~= before + seq![byte]);
            lemma_absorbed_prefix(before, seq![byte], before.len() / 64);
        }
        if self.buffer.len() == 64 {
            assert(self.buffer@ =~= after.subrange(
                64 * (after.len() / 64 - 1),
                64 * (after.len() / 64) as int,
            ));
            self.state = compress(self.state, &self.buffer);
            self.buffer.clear();
        }
        assert(self.buffer@ =~= after.skip(64 * (after.len() / 64) as int));
    }

    /// Absorbs more input, hashing whole blocks as they complete.
    pub fn update(&mut self, bytes: &[u8])
        requires
            old(self).wf(),
        ensures
            final(self).wf(),
            final(self)@ == old(self)@ + bytes@,
    {
        let mut index: usize = 0;
        assert(self@ =~= old(self)@ + bytes@.take(0));
        while index < bytes.len()
            invariant
                self.wf(),
                index <= bytes@.len(),
                self@ == old(self)@ + bytes@.take(index as int),
            decreases bytes@.len() - index,
        {
            self.absorb(bytes[index]);
            assert(self@ =~= old(self)@ + bytes@.take(index + 1));
            index = index + 1;
        }
        assert(bytes@.take(index as int) =~= bytes@);
    }

    /// Pads the last block and returns the digest.
    pub fn finish(self) -> (digest: [u8; 16])
        requires
            self.wf(),
        ensures
            digest@ == digest_of(self@),
    {
        let ghost message = self@;
        let ghost marked = message + seq![0x80u8];
        let ghost none: nat = 0;
        let bit_length: u64 = self.length.wrapping_mul(8);
        let mut hasher = self;
        hasher.absorb(0x80);
        assert(hasher@ =~= marked + Seq::new(none, |i: int| 0u8));
        let mut zeros: usize = 0;
        while hasher.buffer.len() != 56
            invariant
                hasher.wf(),
                hasher@ == marked + Seq::new(zeros as nat, |i: int| 0u8),
                marked.len() == message.len() + 1,
                zeros <= (119 - message.len() % 64) % 64,
            decreases 64 - zeros,
        {
            hasher.absorb(0);
            zeros = zeros + 1;
            assert(hasher@ =~= marked + Seq::new(zeros as nat, |i: int| 0u8));
        }
        // The length was captured before the padding was counted into it.
        let mut tail: Vec<u8> = Vec::new();
        push_le_unsigned(&mut tail, bit_length, 8);
        proof {
            assert(tail@ =~= le_bytes(bit_length as int, 8));
            lemma_filled_out(message, zeros as nat, bit_length);
        }
        hasher.update(tail.as_slice());
        reveal(digest_of);
        state_digest(hasher.state)
    }
}

/// The padding a digest is finished with.
proof fn lemma_filled_out(message: Seq<u8>, zeros: nat, bit_length: u64)
    requires
        zeros <= 63,
        (message.len() + 1 + zeros) % 64 == 56,
        bit_length == (8 * message.len()) % 0x1_0000_0000_0000_0000,
    ensures
        message + seq![0x80u8] + Seq::new(zeros, |i: int| 0u8) + le_bytes(bit_length as int, 8)
            == filled_out(message),
        filled_out(message).len() % 64 == 0,
{
    assert(zeros == (119 - message.len() % 64) % 64);
    lemma_le_bytes_len(8 * message.len() as int, 8);
    lemma2_to64();
    lemma_le_bytes_mod(8 * message.len() as int, 8);
}

/// A digest is sixteen bytes.
pub proof fn lemma_digest_len(message: Seq<u8>)
    ensures
        digest_of(message).len() == 16,
{
    reveal(digest_of);
    let whole = filled_out(message);
    let state = absorbed(whole, whole.len() / 64);
    lemma_le_bytes_len(state.a as int, 4);
    lemma_le_bytes_len(state.b as int, 4);
    lemma_le_bytes_len(state.c as int, 4);
    lemma_le_bytes_len(state.d as int, 4);
}

/// Lays a state out as a digest.
fn state_digest(state: State) -> (fixed: [u8; 16])
    ensures
        fixed@ == state_bytes(state),
{
    let mut digest: Vec<u8> = Vec::new();
    push_le_unsigned(&mut digest, state.a as u64, 4);
    push_le_unsigned(&mut digest, state.b as u64, 4);
    push_le_unsigned(&mut digest, state.c as u64, 4);
    push_le_unsigned(&mut digest, state.d as u64, 4);
    proof {
        lemma_le_bytes_len(state.a as int, 4);
        lemma_le_bytes_len(state.b as int, 4);
        lemma_le_bytes_len(state.c as int, 4);
        lemma_le_bytes_len(state.d as int, 4);
        assert(digest@ =~= state_bytes(state));
    }
    sixteen(&digest)
}

/// Sixteen bytes as an array.
fn sixteen(bytes: &Vec<u8>) -> (fixed: [u8; 16])
    requires
        bytes@.len() == 16,
    ensures
        fixed@ == bytes@,
{
    let mut fixed: [u8; 16] = [0u8; 16];
    let mut index: usize = 0;
    while index < 16
        invariant
            index <= 16,
            bytes@.len() == 16,
            forall|i: int| 0 <= i < index ==> fixed@[i] == bytes@[i],
        decreases 16 - index,
    {
        fixed[index] = bytes[index];
        index = index + 1;
    }
    assert(fixed@ =~= bytes@);
    fixed
}

/// The bytes of the first `count` channels of one frame, `width` bytes each.
pub open spec fn frame_layout(codes: Seq<Seq<i64>>, frame: int, width: nat, count: nat) -> Seq<u8>
    decreases count,
{
    if count == 0 {
        Seq::empty()
    } else {
        frame_layout(codes, frame, width, (count - 1) as nat) + le_bytes(
            codes[count - 1][frame] as int,
            width,
        )
    }
}

/// The first `frames` frames as an uncompressed file would store them: frame by
/// frame, channel by channel, little-endian two's complement, in whole bytes.
pub open spec fn layout(codes: Seq<Seq<i64>>, width: nat, frames: nat) -> Seq<u8>
    decreases frames,
{
    if frames == 0 {
        Seq::empty()
    } else {
        layout(codes, width, (frames - 1) as nat) + frame_layout(
            codes,
            frames - 1,
            width,
            codes.len(),
        )
    }
}

/// How many frames planar codes hold.
pub open spec fn frame_count(codes: Seq<Seq<i64>>) -> nat {
    if codes.len() == 0 {
        0
    } else {
        codes[0].len()
    }
}

/// The digest of the interleaved samples.
pub open spec fn samples_digest(codes: Seq<Seq<i64>>, bits: nat) -> Seq<u8> {
    digest_of(layout(codes, (bits + 7) / 8, frame_count(codes)))
}

/// The digest of the interleaved samples, as the format defines it.
///
/// Samples are laid out the way an uncompressed file would store them: frame by
/// frame, channel by channel, little-endian two's complement, in whole bytes.
#[verifier::loop_isolation(false)]
pub fn of_samples(codes: &Vec<Vec<i64>>, bits: u32) -> (digest: [u8; 16])
    requires
        bits <= 64,
        forall|i: int| 0 <= i < codes@.len() ==> (#[trigger] codes@[i])@.len() >= codes@[0]@.len(),
    ensures
        digest@ == samples_digest(planes(codes@), bits as nat),
{
    let width: usize = ((bits + 7) / 8) as usize;
    let ghost plain = planes(codes@);
    let frames: usize = if codes.len() == 0 {
        0
    } else {
        codes[0].len()
    };
    let mut hasher = Md5::new();
    let mut frame: usize = 0;
    while frame < frames
        invariant
            frame <= frames,
            hasher.wf(),
            hasher@ == layout(plain, width as nat, frame as nat),
        decreases frames - frame,
    {
        let mut bytes: Vec<u8> = Vec::new();
        let mut channel: usize = 0;
        while channel < codes.len()
            invariant
                channel <= codes@.len(),
                bytes@ == frame_layout(plain, frame as int, width as nat, channel as nat),
            decreases codes@.len() - channel,
        {
            assert(plain[channel as int] == codes@[channel as int]@);
            push_le(&mut bytes, codes[channel][frame], width);
            channel = channel + 1;
        }
        hasher.update(bytes.as_slice());
        frame = frame + 1;
    }
    hasher.finish()
}

/// The left-rotation amount of a round.
fn shift(round: usize) -> (amount: u32)
    ensures
        amount == shift_at(round as nat),
        0 < amount < 32,
{
    let step: usize = round % 4;
    if round < 16 {
        if step == 0 { 7 } else if step == 1 { 12 } else if step == 2 { 17 } else { 22 }
    } else if round < 32 {
        if step == 0 { 5 } else if step == 1 { 9 } else if step == 2 { 14 } else { 20 }
    } else if round < 48 {
        if step == 0 { 4 } else if step == 1 { 11 } else if step == 2 { 16 } else { 23 }
    } else {
        if step == 0 { 6 } else if step == 1 { 10 } else if step == 2 { 15 } else { 21 }
    }
}

/// A little-endian word of a block.
fn word(block: &Vec<u8>, index: usize) -> (word: u32)
    requires
        block@.len() == 64,
        index < 16,
    ensures
        word == word_at(block@, index as int),
{
    block[4 * index] as u32 + 0x100 * block[4 * index + 1] as u32 + 0x1_0000 * block[4 * index
        + 2] as u32 + 0x100_0000 * block[4 * index + 3] as u32
}

/// Adds two words, dropping what does not fit.
fn sum(first: u32, second: u32) -> (total: u32)
    ensures
        total == plus(first, second),
{
    first.wrapping_add(second)
}

/// Rotates a word to the left.
fn rotate(word: u32, shift: u32) -> (turned: u32)
    requires
        0 < shift < 32,
    ensures
        turned == rotated(word, shift),
{
    (word << shift) | (word >> (32 - shift))
}

/// Runs one round over a block.
fn stir(state: State, block: &Vec<u8>, round: usize) -> (next: State)
    requires
        block@.len() == 64,
        round < 64,
    ensures
        next == stirred(state, block@, round as nat),
{
    reveal(stirred);
    let (b, c, d): (u32, u32, u32) = (state.b, state.c, state.d);
    let (mixed, index): (u32, usize) = if round < 16 {
        ((b & c) | (!b & d), round)
    } else if round < 32 {
        ((d & b) | (!d & c), (5 * round + 1) % 16)
    } else if round < 48 {
        (b ^ c ^ d, (3 * round + 5) % 16)
    } else {
        (c ^ (b | !d), (7 * round) % 16)
    };
    let total: u32 = sum(sum(sum(state.a, mixed), CONSTANTS[round]), word(block, index));
    State { a: d, d: c, c: b, b: sum(b, rotate(total, shift(round))) }
}

/// Mixes one 64-byte block into the state.
fn compress(state: State, block: &Vec<u8>) -> (next: State)
    requires
        block@.len() == 64,
    ensures
        next == compressed(state, block@),
{
    let mut mixed = state;
    let mut round: usize = 0;
    while round < 64
        invariant
            round <= 64,
            block@.len() == 64,
            mixed == stirred_times(state, block@, round as nat),
        decreases 64 - round,
    {
        mixed = stir(mixed, block, round);
        round = round + 1;
    }
    reveal(compressed);
    State {
        a: sum(state.a, mixed.a),
        b: sum(state.b, mixed.b),
        c: sum(state.c, mixed.c),
        d: sum(state.d, mixed.d),
    }
}

} // verus!
