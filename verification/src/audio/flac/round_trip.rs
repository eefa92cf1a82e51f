//! A whole stream reads back as the audio it was written from.

use vstd::arithmetic::power2::{lemma2_to64, lemma2_to64_rest, pow2};
use vstd::prelude::*;

use super::bits::{
    aligned, bits_bytes, bits_of, bytes_bits, crc16_of, crc8_of, law_unsigned_round_trip,
    law_utf8_round_trip, lemma_bits_len, lemma_bytes_bits_at, lemma_bytes_bits_concat,
    lemma_bytes_bits_len, lemma_stands_split, lemma_value_of_small, stands, utf8_bits,
};
use super::decode::{
    channels_of, field, header_damaged, left_of, lemma_frame_advances, lifted, read_block,
    read_block_size, read_codes, read_frame, read_header, read_sample_rate, read_sizes,
    read_subframe, right_of, subframe_bits, FrameHeader, HeaderCodes,
};
use super::encode::{
    block_at, block_count, block_start, body_bits, channels_written, code_bits, depth_code,
    encode_fault, frame_bits, frame_written, frames_written, header_bits, in_bits, info_bits,
    info_of, lemma_clamped_bits, lemma_header_len, lemma_opening_len, lemma_pair_range, mid_of,
    opening_bits, rate_code, side_of, size_bits, size_code, stream_info_bits, stream_written,
    strung, subframe_of, subframe_written, Pairing, Predictor, BLOCK,
};
use super::lossless::law_subframe_round_trip;
use super::md5::{frame_count, layout, lemma_digest_len};
use super::{
    decoded, expects_more, frame_fault, joined, raised, read_frames, read_metadata,
    read_metadata_block, read_stream_info, Info,
};
use crate::audio::{clamped_channels, lemma_clamped_in_range, Sound};
use crate::error::Fault;

verus! {

/// A number that stands in a stream is the field there.
proof fn lemma_field_reads(stream: Seq<bool>, at: nat, offset: nat, value: nat, count: nat)
    requires
        value < pow2(count),
        stands(stream, at + offset, bits_of(value, count)),
    ensures
        field(stream, at, offset, count) == value,
        at + offset + count <= stream.len(),
{
    lemma_bits_len(value, count);
    lemma_value_of_small(value, count);
}

/// The codes of a frame header read back.
proof fn lemma_codes_read(
    stream: Seq<bool>,
    at: nat,
    block_size: nat,
    bits: nat,
    assignment: nat,
    rate: nat,
)
    requires
        assignment < 11,
        stands(stream, at, code_bits(block_size, bits, assignment, rate)),
    ensures
        read_codes(stream, at) == Ok::<HeaderCodes, Fault>(
            HeaderCodes {
                block: size_code(block_size),
                rate: rate_code(rate),
                channels: channels_of(assignment)->Some_0,
                depth: depth_code(bits),
            },
        ),
{
    let a = bits_of(0x3FFE, 14);
    let z = bits_of(0, 1);
    let c = bits_of(size_code(block_size), 4);
    let d = bits_of(rate_code(rate), 4);
    let e = bits_of(assignment, 4);
    let f = bits_of(depth_code(bits), 3);
    lemma2_to64();
    lemma_bits_len(0x3FFE, 14);
    lemma_bits_len(0, 1);
    lemma_bits_len(size_code(block_size), 4);
    lemma_bits_len(rate_code(rate), 4);
    lemma_bits_len(assignment, 4);
    lemma_bits_len(depth_code(bits), 3);
    lemma_stands_split(stream, at, a + z + z + c + d + e + f, z);
    lemma_stands_split(stream, at, a + z + z + c + d + e, f);
    lemma_stands_split(stream, at, a + z + z + c + d, e);
    lemma_stands_split(stream, at, a + z + z + c, d);
    lemma_stands_split(stream, at, a + z + z, c);
    lemma_stands_split(stream, at, a + z, z);
    lemma_stands_split(stream, at, a, z);
    lemma_field_reads(stream, at, 0, 0x3FFE, 14);
    lemma_field_reads(stream, at, 14, 0, 1);
    lemma_field_reads(stream, at, 16, size_code(block_size), 4);
    lemma_field_reads(stream, at, 20, rate_code(rate), 4);
    lemma_field_reads(stream, at, 24, assignment, 4);
    lemma_field_reads(stream, at, 28, depth_code(bits), 3);
    lemma_field_reads(stream, at, 31, 0, 1);
}

/// The number, the size and the rate of a frame header read back.
proof fn lemma_sizes_read(
    stream: Seq<bool>,
    at: nat,
    block_size: nat,
    number: u64,
    rate: nat,
    codes: HeaderCodes,
)
    requires
        1 <= block_size <= 0x1_0000,
        number < 0x10_0000_0000,
        codes.block == size_code(block_size),
        codes.rate == rate_code(rate),
        stands(stream, at, utf8_bits(number) + size_bits(block_size)),
    ensures
        read_sizes(stream, at, codes, rate) == Ok::<((nat, nat), nat), Fault>(
            ((block_size, rate), at + (utf8_bits(number) + size_bits(block_size)).len()),
        ),
{
    let tail = size_bits(block_size);
    lemma2_to64();
    lemma_stands_split(stream, at, utf8_bits(number), tail);
    law_utf8_round_trip(stream, at, number);
    let middle = at + utf8_bits(number).len();
    lemma_bits_len((block_size - 1) as nat, 8);
    lemma_bits_len((block_size - 1) as nat, 16);
    if codes.block == 6 {
        law_unsigned_round_trip(stream, middle, (block_size - 1) as nat, 8);
    } else if codes.block == 7 {
        law_unsigned_round_trip(stream, middle, (block_size - 1) as nat, 16);
    }
    assert(read_block_size(stream, middle, codes.block) == Ok::<(nat, nat), Fault>(
        (block_size, middle + tail.len()),
    ));
    assert(read_sample_rate(stream, middle + tail.len(), codes.rate, rate) == Ok::<
        (nat, nat),
        Fault,
    >((rate, middle + tail.len())));
}

/// What stands at a byte boundary of some bytes is spelled by those bytes.
proof fn lemma_bytes_stand(bytes: Seq<u8>, at: nat, bits: Seq<bool>)
    requires
        at % 8 == 0,
        bits.len() % 8 == 0,
        stands(bytes_bits(bytes), at, bits),
    ensures
        bytes.subrange((at / 8) as int, ((at + bits.len()) / 8) as int) == bits_bytes(bits),
{
    let stream = bytes_bits(bytes);
    let start = (at / 8) as int;
    let part = bytes.subrange(start, ((at + bits.len()) / 8) as int);
    lemma_bytes_bits_len(bytes);
    lemma2_to64();
    assert forall|i: int| 0 <= i < part.len() implies part[i] == bits_bytes(bits)[i] by {
        lemma_bytes_bits_at(bytes, start + i);
        assert(bits.subrange(8 * i, 8 * i + 8) =~= stream.subrange(
            8 * (start + i),
            8 * (start + i) + 8,
        ));
        lemma_value_of_small(bytes[start + i] as nat, 8);
    }
    assert(part =~= bits_bytes(bits));
}

/// A frame header reads back, whatever size of block it announces; and a header
/// followed by any other byte than its checksum is refused, with both named.
pub proof fn law_header_round_trip(
    bytes: Seq<u8>,
    at: nat,
    info: Info,
    block_size: nat,
    assignment: nat,
    number: u64,
    seal: u8,
)
    requires
        at % 8 == 0,
        1 <= block_size <= 0x1_0000,
        assignment < 11,
        number < 0x10_0000_0000,
        1 <= info.bits <= 32,
        stands(
            bytes_bits(bytes),
            at,
            header_bits(
                block_size,
                info.bits as nat,
                assignment,
                number,
                info.sample_rate as nat,
            ) + bits_of(seal as nat, 8),
        ),
    ensures
        ({
            let head = header_bits(
                block_size,
                info.bits as nat,
                assignment,
                number,
                info.sample_rate as nat,
            );
            let sum = crc8_of(bits_bytes(head));
            if seal == sum {
                read_header(bytes, at, info, at / 8) == Ok::<(FrameHeader, nat), Fault>(
                    (
                        FrameHeader {
                            block_size: block_size as u32,
                            sample_rate: info.sample_rate,
                            bits: info.bits,
                            channels: channels_of(assignment)->Some_0,
                        },
                        at + head.len() + 8,
                    ),
                )
            } else {
                read_header(bytes, at, info, at / 8) == Err::<(FrameHeader, nat), Fault>(
                    header_damaged(sum, seal as nat),
                )
            }
        }),
{
    let stream = bytes_bits(bytes);
    let bits = info.bits as nat;
    let rate = info.sample_rate as nat;
    let head = header_bits(block_size, bits, assignment, number, rate);
    let codes_part = code_bits(block_size, bits, assignment, rate);
    let sizes_part = utf8_bits(number) + size_bits(block_size);
    reveal(read_header);
    lemma2_to64();
    lemma_bits_len(seal as nat, 8);
    lemma_header_len(block_size, bits, assignment, number, rate);
    lemma_stands_split(stream, at, head, bits_of(seal as nat, 8));
    assert(head =~= codes_part + sizes_part);
    lemma_stands_split(stream, at, codes_part, sizes_part);
    lemma_codes_read(stream, at, block_size, bits, assignment, rate);
    let codes = read_codes(stream, at)->Ok_0;
    lemma_sizes_read(stream, at + 32, block_size, number, rate, codes);
    law_unsigned_round_trip(stream, at + head.len(), seal as nat, 8);
    lemma_bytes_stand(bytes, at, head);
}

/// Every part of a string of parts stands behind the parts before it.
proof fn lemma_strung_stands(stream: Seq<bool>, at: nat, parts: Seq<Seq<bool>>, index: nat)
    requires
        stands(stream, at, strung(parts)),
        index < parts.len(),
    ensures
        stands(stream, at + strung(parts.take(index as int)).len(), parts[index as int]),
        strung(parts.take((index + 1) as int)).len() == strung(parts.take(index as int)).len()
            + parts[index as int].len(),
    decreases parts.len(),
{
    let rest = parts.drop_last();
    lemma_stands_split(stream, at, strung(rest), parts.last());
    let longer = parts.take((index + 1) as int);
    assert(longer.drop_last() =~= parts.take(index as int));
    if index < parts.len() - 1 {
        lemma_strung_stands(stream, at, rest, index);
        assert(rest.take(index as int) =~= parts.take(index as int));
    } else {
        assert(parts.take(index as int) =~= rest);
    }
}

/// What is stored of a block under an assignment.
pub open spec fn stored_block(block: Seq<Seq<i64>>, code: nat) -> Seq<Seq<i64>> {
    if code == 8 {
        seq![block[0], side_of(block[0], block[1])]
    } else if code == 9 {
        seq![side_of(block[0], block[1]), block[1]]
    } else if code == 10 {
        seq![mid_of(block[0], block[1]), side_of(block[0], block[1])]
    } else {
        block
    }
}

/// Blocks an encoder is handed: one to eight channels of one length, whose
/// samples fit.
pub open spec fn sound_block(block: Seq<Seq<i64>>, length: nat, bits: nat) -> bool {
    &&& 1 <= block.len() <= 8
    &&& 1 <= length <= BLOCK
    &&& 1 <= bits <= 32
    &&& forall|i: int|
        0 <= i < block.len() ==> (#[trigger] block[i]).len() == length && in_bits(block[i], bits)
}

/// Each stored channel reads back from its subframe.
spec fn subframes_hold<F: Fn(&Vec<i64>) -> Vec<Predictor>>(
    fit: F,
    header: FrameHeader,
    stored: Seq<Seq<i64>>,
    subframes: Seq<Seq<bool>>,
) -> bool {
    &&& stored.len() == subframes.len()
    &&& stored.len() == header.channels.spec_count()
    &&& forall|i: int|
        0 <= i < stored.len() ==> {
            &&& (#[trigger] stored[i]).len() == header.block_size
            &&& in_bits(stored[i], subframe_bits(header, i as nat))
            &&& 1 <= subframe_bits(header, i as nat) <= 33
            &&& subframe_written(fit, stored[i], subframe_bits(header, i as nat), subframes[i])
        }
}

/// A subframe that was written reads back.
proof fn lemma_written_reads<F: Fn(&Vec<i64>) -> Vec<Predictor>>(
    fit: F,
    stream: Seq<bool>,
    at: nat,
    samples: Seq<i64>,
    bits: nat,
    out: Seq<bool>,
)
    requires
        0 < samples.len() <= BLOCK,
        1 <= bits <= 33,
        in_bits(samples, bits),
        subframe_written(fit, samples, bits, out),
        stands(stream, at, out),
    ensures
        read_subframe(stream, at, samples.len(), bits) == Ok::<(Seq<i64>, nat), Fault>(
            (samples, at + out.len()),
        ),
{
    reveal(subframe_written);
    if super::encode::held(samples) {
        law_subframe_round_trip(stream, at, samples, bits, Seq::empty());
    } else {
        let (low, fitted) = choose|low: Vec<i64>, fitted: Vec<Predictor>|
            low@ == super::encode::shifted(samples, super::encode::wasted_of(samples, bits))
                && #[trigger] call_ensures(fit, (&low,), fitted) && out == subframe_of(
                samples,
                bits,
                super::encode::rules(fitted@),
            );
        law_subframe_round_trip(stream, at, samples, bits, super::encode::rules(fitted@));
    }
}

/// The subframes of a frame read back, one after the other.
proof fn lemma_block_reads<F: Fn(&Vec<i64>) -> Vec<Predictor>>(
    fit: F,
    stream: Seq<bool>,
    at: nat,
    header: FrameHeader,
    stored: Seq<Seq<i64>>,
    subframes: Seq<Seq<bool>>,
    done: nat,
)
    requires
        1 <= header.block_size <= BLOCK,
        subframes_hold(fit, header, stored, subframes),
        stands(stream, at, strung(subframes)),
        done <= stored.len(),
    ensures
        read_block(
            stream,
            at + strung(subframes.take(done as int)).len(),
            header,
            stored.take(done as int),
        ) == Ok::<(Seq<Seq<i64>>, nat), Fault>((stored, at + strung(subframes).len())),
    decreases stored.len() - done,
{
    if done == stored.len() {
        assert(stored.take(done as int) =~= stored);
        assert(subframes.take(done as int) =~= subframes);
    } else {
        let here = at + strung(subframes.take(done as int)).len();
        let samples = stored[done as int];
        lemma_strung_stands(stream, at, subframes, done);
        lemma_written_reads(
            fit,
            stream,
            here,
            samples,
            subframe_bits(header, done),
            subframes[done as int],
        );
        assert(stored.take(done as int).push(samples) =~= stored.take((done + 1) as int));
        lemma_block_reads(fit, stream, at, header, stored, subframes, done + 1);
    }
}

/// A pair of samples comes back out of its average and its difference.
pub proof fn law_mid_and_side_are_reversible(left: i64, right: i64)
    requires
        -0x4000_0000_0000_0000 <= left < 0x4000_0000_0000_0000,
        -0x4000_0000_0000_0000 <= right < 0x4000_0000_0000_0000,
    ensures
        left_of(((left + right) / 2) as i64, (left - right) as i64) == left,
        right_of(((left + right) / 2) as i64, (left - right) as i64) == right,
{
    let mid = (left + right) / 2;
    let side = left - right;
    assert(2 * mid + side % 2 == left + right);
}

/// Each way of laying channels out in a frame is undone by resolving it:
/// channels of their own stay as they are, and left and side, side and right,
/// or mid and side give back both channels, as long as their difference fits a
/// word.
pub proof fn law_arrangements_resolve(block: Seq<Seq<i64>>, code: nat)
    requires
        code < 11,
        code >= 8 ==> block.len() == 2 && block[0].len() == block[1].len(),
        code >= 8 ==> forall|i: int, j: int|
            0 <= i < 2 && 0 <= j < block[0].len() ==> -0x4000_0000_0000_0000
                <= #[trigger] block[i][j] < 0x4000_0000_0000_0000,
    ensures
        channels_of(code)->Some_0.resolved(stored_block(block, code)) == block,
{
    let channels = channels_of(code)->Some_0;
    if code >= 8 {
        let left = block[0];
        let right = block[1];
        let plain = channels.resolved(stored_block(block, code));
        assert forall|j: int| 0 <= j < left.len() implies plain[0][j] == left[j] && plain[1][j]
            == right[j] by {
            assert(-0x4000_0000_0000_0000 <= block[0][j] < 0x4000_0000_0000_0000);
            assert(-0x4000_0000_0000_0000 <= block[1][j] < 0x4000_0000_0000_0000);
            law_mid_and_side_are_reversible(left[j], right[j]);
        }
        assert(plain[0] =~= left);
        assert(plain[1] =~= right);
        assert(plain =~= block);
    }
}

/// Resolving what was stored restores the channels.
proof fn lemma_resolves(block: Seq<Seq<i64>>, length: nat, bits: nat, code: nat)
    requires
        sound_block(block, length, bits),
        if block.len() == 2 {
            code == 1 || code == 8 || code == 9 || code == 10
        } else {
            code == block.len() - 1
        },
    ensures
        channels_of(code)->Some_0.resolved(stored_block(block, code)) == block,
{
    if code >= 8 {
        assert(block[0].len() == length && in_bits(block[0], bits));
        assert(block[1].len() == length && in_bits(block[1], bits));
        lemma_pair_range(block[0], block[1], bits);
    }
    law_arrangements_resolve(block, code);
}

/// What was written of a block holds what is stored of it.
proof fn lemma_subframes_hold<F: Fn(&Vec<i64>) -> Vec<Predictor>>(
    fit: F,
    block: Seq<Seq<i64>>,
    length: nat,
    bits: nat,
    code: nat,
    subframes: Seq<Seq<bool>>,
    header: FrameHeader,
)
    requires
        sound_block(block, length, bits),
        channels_written(fit, block, bits, code, subframes),
        header.block_size == length,
        header.bits == bits,
        channels_of(code) == Some(header.channels),
    ensures
        subframes_hold(fit, header, stored_block(block, code), subframes),
{
    let stored = stored_block(block, code);
    if block.len() == 2 {
        let pairing = choose|pairing: Pairing|
            #[trigger] pairing.written(fit, block[0], block[1], bits) && code == pairing.code()
                && subframes == pairing.subframes();
        let left = block[0];
        let right = block[1];
        assert(left.len() == length && in_bits(left, bits));
        assert(right.len() == length && in_bits(right, bits));
        lemma_pair_range(left, right, bits);
        assert(stored.len() == 2);
        assert(subframes.len() == 2);
    } else {
        assert forall|i: int| 0 <= i < stored.len() implies {
            &&& (#[trigger] stored[i]).len() == header.block_size
            &&& in_bits(stored[i], subframe_bits(header, i as nat))
            &&& 1 <= subframe_bits(header, i as nat) <= 33
            &&& subframe_written(fit, stored[i], subframe_bits(header, i as nat), subframes[i])
        } by {
            assert(block[i].len() == length);
            assert(subframe_written(fit, block[i], bits, subframes[i]));
        }
    }
}

/// The code of an assignment that was written.
proof fn lemma_code<F: Fn(&Vec<i64>) -> Vec<Predictor>>(
    fit: F,
    block: Seq<Seq<i64>>,
    bits: nat,
    code: nat,
    subframes: Seq<Seq<bool>>,
)
    requires
        1 <= block.len() <= 8,
        channels_written(fit, block, bits, code, subframes),
    ensures
        code < 11,
        if block.len() == 2 {
            code == 1 || code == 8 || code == 9 || code == 10
        } else {
            code == block.len() - 1
        },
{
}

/// The parts of a frame stand where they belong.
proof fn lemma_frame_stands(
    stream: Seq<bool>,
    at: nat,
    head: Seq<bool>,
    subframes: Seq<Seq<bool>>,
)
    requires
        at % 8 == 0,
        stands(stream, at, frame_bits(head, subframes)),
    ensures
        ({
            let body = body_bits(head, subframes);
            let crc = crc16_of(bits_bytes(body)) as nat;
            &&& stands(stream, at, head + bits_of(crc8_of(bits_bytes(head)) as nat, 8))
            &&& stands(stream, at + head.len() + 8, strung(subframes))
            &&& stands(stream, at, body)
            &&& stands(stream, at + body.len(), bits_of(crc, 16))
            &&& body.len() % 8 == 0
            &&& aligned(at + head.len() + 8 + strung(subframes).len()) == at + body.len()
            &&& frame_bits(head, subframes).len() == body.len() + 16
        }),
{
    let opened = head + bits_of(crc8_of(bits_bytes(head)) as nat, 8);
    let strings = strung(subframes);
    let body = body_bits(head, subframes);
    let crc = crc16_of(bits_bytes(body)) as nat;
    lemma_bits_len(crc8_of(bits_bytes(head)) as nat, 8);
    lemma_bits_len(crc, 16);
    lemma_stands_split(stream, at, body, bits_of(crc, 16));
    let zeros = Seq::new(
        (aligned((opened + strings).len()) - (opened + strings).len()) as nat,
        |i: int| false,
    );
    assert(body == opened + strings + zeros);
    lemma_stands_split(stream, at, opened + strings, zeros);
    lemma_stands_split(stream, at, opened, strings);
}

/// A frame whose header and subframes read back reads back.
proof fn lemma_frame_reads<F: Fn(&Vec<i64>) -> Vec<Predictor>>(
    fit: F,
    bytes: Seq<u8>,
    at: nat,
    info: Info,
    head: Seq<bool>,
    header: FrameHeader,
    stored: Seq<Seq<i64>>,
    subframes: Seq<Seq<bool>>,
)
    requires
        at % 8 == 0,
        stands(bytes_bits(bytes), at, frame_bits(head, subframes)),
        read_header(bytes, at, info, at / 8) == Ok::<(FrameHeader, nat), Fault>(
            (header, at + head.len() + 8),
        ),
        1 <= header.block_size <= BLOCK,
        subframes_hold(fit, header, stored, subframes),
    ensures
        read_frame(bytes, at, info) == Ok::<((FrameHeader, Seq<Seq<i64>>), nat), Fault>(
            (
                (header, header.channels.resolved(stored)),
                at + frame_bits(head, subframes).len(),
            ),
        ),
{
    let stream = bytes_bits(bytes);
    let body = body_bits(head, subframes);
    let crc = crc16_of(bits_bytes(body));
    reveal(read_frame);
    lemma2_to64();
    lemma_frame_stands(stream, at, head, subframes);
    lemma_block_reads(fit, stream, at + head.len() + 8, header, stored, subframes, 0);
    assert(stored.take(0) =~= Seq::empty());
    assert(strung(subframes.take(0)).len() == 0);
    lemma_bytes_stand(bytes, at, body);
    law_unsigned_round_trip(stream, at + body.len(), crc as nat, 16);
}

/// A frame reads back as the block it was written from.
#[verifier::rlimit(100)]
#[verifier::spinoff_prover]
pub proof fn law_frame_round_trip<F: Fn(&Vec<i64>) -> Vec<Predictor>>(
    fit: F,
    bytes: Seq<u8>,
    at: nat,
    info: Info,
    block: Seq<Seq<i64>>,
    number: u64,
    out: Seq<bool>,
)
    requires
        at % 8 == 0,
        sound_block(block, block[0].len(), info.bits as nat),
        number < 0x10_0000_0000,
        frame_written(fit, block, info.bits as nat, number, info.sample_rate as nat, out),
        stands(bytes_bits(bytes), at, out),
    ensures
        read_frame(bytes, at, info) matches Ok(((header, read), next)) && read == block && next == at
            + out.len() && header.sample_rate == info.sample_rate && header.bits == info.bits
            && out.len() % 8 == 0,
{
    let stream = bytes_bits(bytes);
    let length = block[0].len();
    let bits = info.bits as nat;
    let (code, subframes) = choose|code: nat, subframes: Seq<Seq<bool>>|
        #[trigger] channels_written(fit, block, bits, code, subframes) && out == frame_bits(
            header_bits(block[0].len(), bits, code, number, info.sample_rate as nat),
            subframes,
        );
    lemma_code(fit, block, bits, code, subframes);
    let head = header_bits(length, bits, code, number, info.sample_rate as nat);
    lemma_frame_stands(stream, at, head, subframes);
    law_header_round_trip(bytes, at, info, length, code, number, crc8_of(bits_bytes(head)));
    let header = read_header(bytes, at, info, at / 8)->Ok_0.0;
    lemma_subframes_hold(fit, block, length, bits, code, subframes, header);
    lemma_frame_reads(
        fit,
        bytes,
        at,
        info,
        head,
        header,
        stored_block(block, code),
        subframes,
    );
    lemma_resolves(block, length, bits, code);
}

/// Audio that a FLAC stream can hold: no fault, a rate, and a length that its
/// field has room for.
pub open spec fn storable(sound: Sound) -> bool {
    &&& sound.even()
    &&& encode_fault(sound) is None
    &&& sound.sample_rate > 0
    &&& sound.frames() < 0x10_0000_0000
}

/// The body of STREAMINFO reads back.
proof fn lemma_info_reads(stream: Seq<bool>, at: nat, info: Info)
    requires
        info.min_block < 0x1_0000,
        info.max_block < 0x1_0000,
        info.sample_rate < 0x10_0000,
        1 <= info.channels <= 8,
        1 <= info.bits <= 32,
        info.total_samples < 0x10_0000_0000,
        info.md5.len() == 16,
        stands(stream, at, info_bits(info)),
    ensures
        read_stream_info(stream, at) == Ok::<(Info, nat), Fault>((info, at + 272)),
{
    let a = bits_of(info.min_block as nat, 16);
    let b = bits_of(info.max_block as nat, 16);
    let z = bits_of(0, 24);
    let c = bits_of(info.sample_rate as nat, 20);
    let d = bits_of((info.channels - 1) as nat, 3);
    let e = bits_of((info.bits - 1) as nat, 5);
    let f = bits_of(info.total_samples as nat, 36);
    let g = bytes_bits(info.md5);
    reveal(read_stream_info);
    lemma2_to64();
    lemma2_to64_rest();
    lemma_bits_len(info.min_block as nat, 16);
    lemma_bits_len(info.max_block as nat, 16);
    lemma_bits_len(0, 24);
    lemma_bits_len(info.sample_rate as nat, 20);
    lemma_bits_len((info.channels - 1) as nat, 3);
    lemma_bits_len((info.bits - 1) as nat, 5);
    lemma_bits_len(info.total_samples as nat, 36);
    lemma_bytes_bits_len(info.md5);
    lemma_stands_split(stream, at, a + b + z + z + c + d + e + f, g);
    lemma_stands_split(stream, at, a + b + z + z + c + d + e, f);
    lemma_stands_split(stream, at, a + b + z + z + c + d, e);
    lemma_stands_split(stream, at, a + b + z + z + c, d);
    lemma_stands_split(stream, at, a + b + z + z, c);
    lemma_stands_split(stream, at, a + b + z, z);
    lemma_stands_split(stream, at, a + b, z);
    lemma_stands_split(stream, at, a, b);
    lemma_field_reads(stream, at, 0, info.min_block as nat, 16);
    lemma_field_reads(stream, at, 16, info.max_block as nat, 16);
    lemma_field_reads(stream, at, 80, info.sample_rate as nat, 20);
    lemma_field_reads(stream, at, 100, (info.channels - 1) as nat, 3);
    lemma_field_reads(stream, at, 103, (info.bits - 1) as nat, 5);
    lemma_field_reads(stream, at, 108, info.total_samples as nat, 36);
    let digest = Seq::new(16, |i: int| field(stream, at, (144 + 8 * i) as nat, 8) as u8);
    assert forall|i: int| 0 <= i < 16 implies digest[i] == info.md5[i] by {
        lemma_bytes_bits_at(info.md5, i);
        let part = stream.subrange((at + 144) as int, (at + 272) as int);
        assert(part == g);
        assert(stream.subrange(at + 144 + 8 * i, at + 144 + 8 * i + 8) =~= part.subrange(
            8 * i,
            8 * i + 8,
        ));
        lemma_value_of_small(info.md5[i] as nat, 8);
        assert((at + (144 + 8 * i) as nat) as int == at + 144 + 8 * i);
    }
    assert(digest =~= info.md5);
}

/// What a stream says about itself when it states a digest.
spec fn stating(sound: Sound, digest: Seq<u8>) -> Info {
    Info { md5: digest, ..info_of(sound) }
}

/// What a stream says about itself reads back, whatever digest it states.
proof fn lemma_opening_reads(bytes: Seq<u8>, sound: Sound, digest: Seq<u8>)
    requires
        storable(sound),
        digest.len() == 16,
        stands(
            bytes_bits(bytes),
            0,
            bits_of(0x664C_6143, 32) + stream_info_bits(stating(sound, digest)),
        ),
    ensures
        field(bytes_bits(bytes), 0, 0, 32) == 0x664C_6143,
        read_metadata(bytes_bits(bytes), 32, None) == Ok::<(Info, nat), Fault>(
            (stating(sound, digest), 336),
        ),
{
    let stream = bytes_bits(bytes);
    let info = stating(sound, digest);
    lemma2_to64();
    lemma_bits_len(0x664C_6143, 32);
    lemma_bits_len(1, 1);
    lemma_bits_len(0, 7);
    lemma_bits_len(34, 24);
    lemma_stands_split(stream, 0, bits_of(0x664C_6143, 32), stream_info_bits(info));
    lemma_field_reads(stream, 0, 0, 0x664C_6143, 32);
    let first = bits_of(1, 1) + bits_of(0, 7) + bits_of(34, 24);
    lemma_stands_split(stream, 32, first, info_bits(info));
    lemma_stands_split(stream, 32, bits_of(1, 1) + bits_of(0, 7), bits_of(34, 24));
    lemma_stands_split(stream, 32, bits_of(1, 1), bits_of(0, 7));
    lemma_field_reads(stream, 32, 0, 1, 1);
    lemma_field_reads(stream, 32, 1, 0, 7);
    lemma_field_reads(stream, 32, 8, 34, 24);
    lemma_info_reads(stream, 64, info);
    assert(read_metadata_block(stream, 32, None) == Ok::<((bool, Option<Info>), nat), Fault>(
        ((true, Some(info)), 336),
    ));
}

/// The first frames of every channel, up to a block.
pub open spec fn channels_until(codes: Seq<Seq<i64>>, frames: nat, index: nat) -> Seq<Seq<i64>> {
    Seq::new(codes.len(), |i: int| codes[i].take(block_start(frames, index) as int))
}

/// A block of clamped codes is fit to be encoded.
proof fn lemma_block_sound(sound: Sound, index: nat)
    requires
        storable(sound),
        index < block_count(sound.frames()),
    ensures
        ({
            let codes = clamped_channels(sound.channels, sound.format);
            let block = block_at(codes, sound.frames(), index);
            sound_block(block, block[0].len(), sound.format.spec_bits())
        }),
{
    let codes = clamped_channels(sound.channels, sound.format);
    let frames = sound.frames();
    let block = block_at(codes, frames, index);
    let start = block_start(frames, index) as int;
    let end = block_start(frames, index + 1) as int;
    let bits = sound.format.spec_bits();
    lemma_clamped_bits(sound.channels, sound.format);
    assert forall|i: int| 0 <= i < block.len() implies (#[trigger] block[i]).len() == end - start
        && in_bits(block[i], bits) by {
        assert(sound.channels[i].len() == frames);
        assert(in_bits(codes[i], bits));
        assert forall|j: int| 0 <= j < block[i].len() implies -pow2((bits - 1) as nat)
            <= #[trigger] block[i][j] < pow2((bits - 1) as nat) by {
            assert(block[i][j] == codes[i][start + j]);
        }
    }
    assert(block[0].len() == end - start);
}

/// The channels up to a block, continued by the block.
proof fn lemma_until_next(codes: Seq<Seq<i64>>, frames: nat, index: nat)
    requires
        codes.len() > 0,
        forall|i: int| 0 <= i < codes.len() ==> (#[trigger] codes[i]).len() == frames,
    ensures
        joined(channels_until(codes, frames, index), block_at(codes, frames, index))
            == channels_until(codes, frames, index + 1),
        frame_count(channels_until(codes, frames, index)) == block_start(frames, index),
        block_start(frames, index) == frames ==> channels_until(codes, frames, index) == codes,
{
    let before = channels_until(codes, frames, index);
    let block = block_at(codes, frames, index);
    let after = channels_until(codes, frames, index + 1);
    assert(codes[0].len() == frames);
    assert forall|i: int| 0 <= i < codes.len() implies joined(before, block)[i] == after[i] by {
        assert(codes[i].len() == frames);
        assert(joined(before, block)[i] =~= after[i]);
    }
    assert(joined(before, block) =~= after);
    if block_start(frames, index) == frames {
        assert forall|i: int| 0 <= i < codes.len() implies before[i] == codes[i] by {
            assert(codes[i].len() == frames);
            assert(before[i] =~= codes[i]);
        }
        assert(before =~= codes);
    }
}

/// Reading one frame and going on behind it.
proof fn lemma_frame_step(
    bytes: Seq<u8>,
    at: nat,
    info: Info,
    before: Seq<Seq<i64>>,
    header: FrameHeader,
    block: Seq<Seq<i64>>,
    next: nat,
)
    requires
        at <= 8 * bytes.len(),
        expects_more(bytes, at, info, frame_count(before)),
        read_frame(bytes, at, info) == Ok::<((FrameHeader, Seq<Seq<i64>>), nat), Fault>(
            ((header, block), next),
        ),
        frame_fault(header, block.len(), info) is None,
    ensures
        read_frames(bytes, at, info, before) == read_frames(bytes, next, info, joined(before, block)),
{
    lemma_frame_advances(bytes, at, info);
}

/// Every frame reads back, from `index` on, whatever digest the stream states.
#[verifier::rlimit(100)]
#[verifier::spinoff_prover]
proof fn lemma_frames_read<F: Fn(&Vec<i64>) -> Vec<Predictor>>(
    fit: F,
    bytes: Seq<u8>,
    sound: Sound,
    digest: Seq<u8>,
    frames: Seq<Seq<bool>>,
    index: nat,
)
    requires
        storable(sound),
        frames.len() == block_count(sound.frames()),
        frames_written(fit, sound, frames),
        bytes_bits(bytes).len() == 336 + strung(frames).len(),
        stands(bytes_bits(bytes), 336, strung(frames)),
        index <= frames.len(),
        (336 + strung(frames.take(index as int)).len()) % 8 == 0,
    ensures
        ({
            let codes = clamped_channels(sound.channels, sound.format);
            read_frames(
                bytes,
                336 + strung(frames.take(index as int)).len(),
                stating(sound, digest),
                channels_until(codes, sound.frames(), index),
            ) == Ok::<Seq<Seq<i64>>, Fault>(codes)
        }),
    decreases frames.len() - index,
{
    let codes = clamped_channels(sound.channels, sound.format);
    let info = stating(sound, digest);
    let total = sound.frames();
    let stream = bytes_bits(bytes);
    let at = 336 + strung(frames.take(index as int)).len();
    let before = channels_until(codes, total, index);
    lemma_bytes_bits_len(bytes);
    assert forall|i: int| 0 <= i < codes.len() implies (#[trigger] codes[i]).len() == total by {
        assert(sound.channels[i].len() == total);
    }
    lemma_until_next(codes, total, index);
    if index == frames.len() {
        assert(frames.take(index as int) =~= frames);
        assert(!expects_more(bytes, at, info, frame_count(before)));
    } else {
        let block = block_at(codes, total, index);
        let out = frames[index as int];
        lemma_block_sound(sound, index);
        lemma_strung_stands(stream, 336, frames, index);
        assert(frame_written(
            fit,
            block,
            info.bits as nat,
            index as u64,
            info.sample_rate as nat,
            out,
        ));
        law_frame_round_trip(fit, bytes, at, info, block, index as u64, out);
        assert(expects_more(bytes, at, info, frame_count(before)));
        let header = read_frame(bytes, at, info)->Ok_0.0.0;
        lemma_frame_step(bytes, at, info, before, header, block, at + out.len());
        lemma_frames_read(fit, bytes, sound, digest, frames, index + 1);
    }
}

/// Codes that are not shifted stay as they are.
proof fn lemma_raised_zero(channels: Seq<Seq<i64>>)
    ensures
        raised(channels, 0) == channels,
{
    lemma2_to64();
    assert forall|i: int| 0 <= i < channels.len() implies raised(channels, 0)[i] == channels[i] by {
        assert forall|j: int| 0 <= j < channels[i].len() implies lifted(channels[i], 0)[j]
            == channels[i][j] by {
            assert(channels[i][j] * 1 == channels[i][j]);
        }
        assert(lifted(channels[i], 0) =~= channels[i]);
    }
    assert(raised(channels, 0) =~= channels);
}

/// A stream decodes to its audio if the digest it states is that of the audio, or
/// is left unset, and is refused otherwise.
proof fn lemma_stated_digest<F: Fn(&Vec<i64>) -> Vec<Predictor>>(
    fit: F,
    sound: Sound,
    bytes: Seq<u8>,
    digest: Seq<u8>,
    frames: Seq<Seq<bool>>,
)
    requires
        storable(sound),
        digest.len() == 16,
        frames.len() == block_count(sound.frames()),
        frames_written(fit, sound, frames),
        bytes_bits(bytes).len() == 336 + strung(frames).len(),
        stands(
            bytes_bits(bytes),
            0,
            bits_of(0x664C_6143, 32) + stream_info_bits(stating(sound, digest)),
        ),
        stands(bytes_bits(bytes), 336, strung(frames)),
    ensures
        digest == info_of(sound).md5 || digest == Seq::new(16, |i: int| 0u8) ==> decoded(bytes)
            == Ok::<Sound, Fault>(
            Sound {
                sample_rate: sound.sample_rate,
                format: sound.format,
                channels: clamped_channels(sound.channels, sound.format),
            },
        ),
        digest != info_of(sound).md5 && digest != Seq::new(16, |i: int| 0u8) ==> decoded(bytes)
            == Err::<Sound, Fault>(
            Fault::Format(
                "FLAC stream fails its MD5 check: the decoded audio is not what was encoded"@,
            ),
        ),
{
    let codes = clamped_channels(sound.channels, sound.format);
    let info = stating(sound, digest);
    lemma_opening_reads(bytes, sound, digest);
    assert(strung(frames.take(0)).len() == 0);
    lemma_frames_read(fit, bytes, sound, digest, frames, 0);
    let none = Seq::new(info.channels as nat, |i: int| Seq::<i64>::empty());
    assert forall|i: int| 0 <= i < none.len() implies channels_until(codes, sound.frames(), 0)[i]
        == none[i] by {
        assert(channels_until(codes, sound.frames(), 0)[i] =~= none[i]);
    }
    assert(channels_until(codes, sound.frames(), 0) =~= none);
    assert(frame_count(codes) == sound.frames()) by {
        assert(sound.channels[0].len() == sound.frames());
    }
    lemma_raised_zero(codes);
}

/// FLAC is lossless: whatever predictors the encoder was offered, its stream
/// decodes to the audio it was made from, with every code brought into the range
/// of its format.
pub proof fn law_stream_round_trip<F: Fn(&Vec<i64>) -> Vec<Predictor>>(
    fit: F,
    sound: Sound,
    bytes: Seq<u8>,
)
    requires
        storable(sound),
        stream_written(fit, sound, bytes),
    ensures
        decoded(bytes) == Ok::<Sound, Fault>(
            Sound {
                sample_rate: sound.sample_rate,
                format: sound.format,
                channels: clamped_channels(sound.channels, sound.format),
            },
        ),
{
    let digest = info_of(sound).md5;
    let stream = bytes_bits(bytes);
    let frames = choose|frames: Seq<Seq<bool>>|
        frames.len() == block_count(sound.frames()) && #[trigger] frames_written(fit, sound, frames)
            && bytes_bits(bytes) == opening_bits(sound) + strung(frames);
    lemma_info_digest(sound);
    lemma_opening_len(sound);
    assert(stating(sound, digest) == info_of(sound));
    assert(stream.subrange(0, 336) =~= opening_bits(sound));
    assert(stream.subrange(336, stream.len() as int) =~= strung(frames));
    lemma_stated_digest(fit, sound, bytes, digest, frames);
}

/// The digest a stream states is sixteen bytes.
proof fn lemma_info_digest(sound: Sound)
    ensures
        info_of(sound).md5.len() == 16,
{
    let codes = clamped_channels(sound.channels, sound.format);
    lemma_digest_len(layout(codes, (sound.format.spec_bits() + 7) / 8, frame_count(codes)));
}

/// The first bits of bytes are those of the first bytes.
proof fn lemma_first_bits(bytes: Seq<u8>, count: nat)
    requires
        count <= bytes.len(),
    ensures
        bytes_bits(bytes) == bytes_bits(bytes.take(count as int)) + bytes_bits(
            bytes.skip(count as int),
        ),
        bytes_bits(bytes.take(count as int)).len() == 8 * count,
{
    assert(bytes =~= bytes.take(count as int) + bytes.skip(count as int));
    lemma_bytes_bits_concat(bytes.take(count as int), bytes.skip(count as int));
    lemma_bytes_bits_len(bytes.take(count as int));
}

/// The digest guards the audio: a stream whose sixteen digest bytes were replaced
/// is refused, unless they are what they were or all zero, which says that there
/// is no digest.
pub proof fn law_digest_guards_the_audio<F: Fn(&Vec<i64>) -> Vec<Predictor>>(
    fit: F,
    sound: Sound,
    bytes: Seq<u8>,
    digest: Seq<u8>,
)
    requires
        storable(sound),
        stream_written(fit, sound, bytes),
        digest.len() == 16,
    ensures
        bytes.len() >= 42,
        decoded(bytes.take(26) + digest + bytes.skip(42)) == if digest == bytes.subrange(26, 42)
            || digest == Seq::new(16, |i: int| 0u8) {
            Ok::<Sound, Fault>(
                Sound {
                    sample_rate: sound.sample_rate,
                    format: sound.format,
                    channels: clamped_channels(sound.channels, sound.format),
                },
            )
        } else {
            Err::<Sound, Fault>(
                Fault::Format(
                    "FLAC stream fails its MD5 check: the decoded audio is not what was encoded"@,
                ),
            )
        },
{
    let own = info_of(sound).md5;
    let stream = bytes_bits(bytes);
    let frames = choose|frames: Seq<Seq<bool>>|
        frames.len() == block_count(sound.frames()) && #[trigger] frames_written(fit, sound, frames)
            && bytes_bits(bytes) == opening_bits(sound) + strung(frames);
    let rest = bytes.skip(26);
    let damaged = bytes.take(26) + digest + bytes.skip(42);
    lemma_info_digest(sound);
    lemma_opening_len(sound);
    lemma_bytes_bits_len(bytes);
    lemma_first_bits(bytes, 26);
    lemma_first_bits(rest, 16);
    assert(rest.skip(16) =~= bytes.skip(42));
    assert(rest.take(16) =~= bytes.subrange(26, 42));
    lemma_bytes_bits_concat(bytes.take(26) + digest, bytes.skip(42));
    lemma_bytes_bits_concat(bytes.take(26), digest);
    lemma_bytes_bits_len(digest);
    lemma_bytes_bits_len(own);
    lemma_stated_bits(sound, digest);
    lemma_stated_bits(sound, own);
    assert(stating(sound, own) == info_of(sound));
    let head = stated_before(sound);
    assert(stream == head + bytes_bits(own) + strung(frames));
    assert(bytes_bits(bytes.take(26)) =~= stream.subrange(0, 208));
    assert(head =~= stream.subrange(0, 208));
    assert(bytes_bits(bytes.subrange(26, 42)) =~= stream.subrange(208, 336));
    assert(bytes_bits(own) =~= stream.subrange(208, 336));
    lemma_bits_spell(bytes.subrange(26, 42), own);
    assert(bytes_bits(bytes.skip(42)) =~= stream.subrange(336, stream.len() as int));
    assert(strung(frames) =~= stream.subrange(336, stream.len() as int));
    let spoilt = bytes_bits(damaged);
    assert(spoilt == head + bytes_bits(digest) + strung(frames));
    assert(spoilt.subrange(0, 336) =~= head + bytes_bits(digest));
    assert(spoilt.subrange(336, spoilt.len() as int) =~= strung(frames));
    lemma_stated_digest(fit, sound, damaged, digest, frames);
}

/// Everything in the opening of a stream before its digest.
spec fn stated_before(sound: Sound) -> Seq<bool> {
    let info = info_of(sound);
    bits_of(0x664C_6143, 32) + (bits_of(1, 1) + bits_of(0, 7) + bits_of(34, 24) + (bits_of(
        info.min_block as nat,
        16,
    ) + bits_of(info.max_block as nat, 16) + bits_of(0, 24) + bits_of(0, 24) + bits_of(
        info.sample_rate as nat,
        20,
    ) + bits_of((info.channels - 1) as nat, 3) + bits_of((info.bits - 1) as nat, 5) + bits_of(
        info.total_samples as nat,
        36,
    )))
}

/// The digest closes the opening of a stream.
proof fn lemma_stated_bits(sound: Sound, digest: Seq<u8>)
    ensures
        bits_of(0x664C_6143, 32) + stream_info_bits(stating(sound, digest)) == stated_before(sound)
            + bytes_bits(digest),
        stated_before(sound).len() == 208,
{
    let info = info_of(sound);
    lemma_bits_len(0x664C_6143, 32);
    lemma_bits_len(1, 1);
    lemma_bits_len(0, 7);
    lemma_bits_len(34, 24);
    lemma_bits_len(info.min_block as nat, 16);
    lemma_bits_len(info.max_block as nat, 16);
    lemma_bits_len(0, 24);
    lemma_bits_len(info.sample_rate as nat, 20);
    lemma_bits_len((info.channels - 1) as nat, 3);
    lemma_bits_len((info.bits - 1) as nat, 5);
    lemma_bits_len(info.total_samples as nat, 36);
    assert(bits_of(0x664C_6143, 32) + stream_info_bits(stating(sound, digest)) =~= stated_before(
        sound,
    ) + bytes_bits(digest));
}

/// Bytes with the same bits are the same.
proof fn lemma_bits_spell(first: Seq<u8>, second: Seq<u8>)
    requires
        bytes_bits(first) == bytes_bits(second),
    ensures
        first == second,
{
    lemma_bytes_bits_len(first);
    lemma_bytes_bits_len(second);
    lemma2_to64();
    assert forall|i: int| 0 <= i < first.len() implies first[i] == second[i] by {
        lemma_bytes_bits_at(first, i);
        lemma_bytes_bits_at(second, i);
        lemma_value_of_small(first[i] as nat, 8);
        lemma_value_of_small(second[i] as nat, 8);
    }
    assert(first =~= second);
}

/// Audio whose codes are all in the range of its format survives FLAC unchanged.
pub proof fn law_flac_is_lossless<F: Fn(&Vec<i64>) -> Vec<Predictor>>(
    fit: F,
    sound: Sound,
    bytes: Seq<u8>,
)
    requires
        storable(sound),
        sound.in_range(),
        stream_written(fit, sound, bytes),
    ensures
        decoded(bytes) == Ok::<Sound, Fault>(sound),
{
    law_stream_round_trip(fit, sound, bytes);
    lemma_clamped_in_range(sound);
}

} // verus!
