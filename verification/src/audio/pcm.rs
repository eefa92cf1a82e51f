//! Sample codes woven into bytes: frame by frame, channel by channel.

use vstd::arithmetic::div_mod::lemma_fundamental_div_mod_converse;
use vstd::arithmetic::power2::{lemma2_to64, lemma2_to64_rest};
use vstd::prelude::*;

use super::bytes::{
    be_bytes, le_bytes, le_signed, le_value, lemma_le_bytes_len, lemma_le_round_trip,
    lemma_le_signed_round_trip, lemma_le_value_bound, push_be, push_le, read_be, read_le,
};
use super::flac::decode::planes;
use super::SampleFormat;

verus! {

/// The bytes of one code. Big-endian containers store every integer signed;
/// little-endian ones shift eight-bit codes up by half their range.
pub open spec fn code_bytes(big: bool, format: SampleFormat, code: i64) -> Seq<u8> {
    let width = format.spec_bits() / 8;
    if big {
        be_bytes(code as int, width)
    } else if format == SampleFormat::PcmU8 {
        le_bytes(code + 128, 1)
    } else {
        le_bytes(code as int, width)
    }
}

/// The code behind its bytes.
pub open spec fn code_of(big: bool, format: SampleFormat, bytes: Seq<u8>) -> i64 {
    if big {
        le_signed(bytes.reverse()) as i64
    } else if format == SampleFormat::PcmU8 {
        (le_value(bytes) - 128) as i64
    } else if format == SampleFormat::F32 {
        le_value(bytes) as i64
    } else {
        le_signed(bytes) as i64
    }
}

/// The first `count` codes, frame by frame and channel by channel, as bytes.
pub open spec fn woven(big: bool, format: SampleFormat, channels: Seq<Seq<i64>>, count: nat) -> Seq<u8>
    decreases count,
{
    if count == 0 {
        Seq::empty()
    } else {
        let index = count - 1;
        let width = channels.len() as int;
        woven(big, format, channels, (count - 1) as nat) + code_bytes(
            big,
            format,
            channels[index % width][index / width],
        )
    }
}

/// Where the bytes of a code start.
pub open spec fn code_offset(format: SampleFormat, channels: nat, frame: int, channel: int) -> int {
    (frame * channels + channel) * (format.spec_bits() / 8)
}

/// The channels that are woven into bytes.
pub open spec fn unwoven(
    big: bool,
    format: SampleFormat,
    channels: nat,
    frames: nat,
    data: Seq<u8>,
) -> Seq<Seq<i64>> {
    Seq::new(
        channels,
        |c: int|
            Seq::new(
                frames,
                |f: int|
                    {
                        let start = code_offset(format, channels, f, c);
                        code_of(big, format, data.subrange(start, start + format.spec_bits() / 8))
                    },
            ),
    )
}

pub proof fn lemma_code_bytes_len(big: bool, format: SampleFormat, code: i64)
    ensures
        code_bytes(big, format, code).len() == format.spec_bits() / 8,
{
    lemma_le_bytes_len(code as int, format.spec_bits() / 8);
    lemma_le_bytes_len(code + 128, 1);
}

/// A code in the range of its format comes back out of its bytes.
pub proof fn law_code_round_trip(big: bool, format: SampleFormat, code: i64)
    requires
        format.low() <= code <= format.high(),
        big ==> !format.spec_is_float(),
    ensures
        code_of(big, format, code_bytes(big, format, code)) == code,
{
    let width = format.spec_bits() / 8;
    lemma2_to64();
    lemma2_to64_rest();
    assert(8 * 1 == 8nat && 8 * 2 == 16nat && 8 * 3 == 24nat && 8 * 4 == 32nat && 8 * 8 == 64nat);
    if big {
        lemma_le_signed_round_trip(code as int, width);
        assert(le_bytes(code as int, width).reverse().reverse() =~= le_bytes(code as int, width));
    } else if format == SampleFormat::PcmU8 {
        lemma_le_round_trip(code + 128, 1);
    } else if format == SampleFormat::F32 {
        lemma_le_round_trip(code as int, 4);
    } else {
        lemma_le_signed_round_trip(code as int, width);
    }
}

/// A code that is read is in the range of its format.
pub proof fn lemma_code_in_range(big: bool, format: SampleFormat, bytes: Seq<u8>)
    requires
        bytes.len() == format.spec_bits() / 8,
        big ==> !format.spec_is_float(),
    ensures
        format.low() <= code_of(big, format, bytes) <= format.high(),
{
    lemma2_to64();
    lemma2_to64_rest();
    lemma_le_value_bound(bytes);
    lemma_le_value_bound(bytes.reverse());
    assert(8 * 1 == 8nat && 8 * 2 == 16nat && 8 * 3 == 24nat && 8 * 4 == 32nat && 8 * 8 == 64nat);
}

/// Codes that are read are in the range of their format.
pub proof fn lemma_unwoven_in_range(
    big: bool,
    format: SampleFormat,
    channels: nat,
    frames: nat,
    data: Seq<u8>,
)
    requires
        frames * (channels * (format.spec_bits() / 8)) <= data.len(),
        big ==> !format.spec_is_float(),
    ensures
        forall|c: int, f: int|
            0 <= c < channels && 0 <= f < frames ==> format.low() <= #[trigger] unwoven(
                big,
                format,
                channels,
                frames,
                data,
            )[c][f] <= format.high(),
{
    let width = format.spec_bits() / 8;
    assert forall|c: int, f: int| 0 <= c < channels && 0 <= f < frames implies format.low()
        <= #[trigger] unwoven(big, format, channels, frames, data)[c][f] <= format.high() by {
        let start = code_offset(format, channels, f, c);
        assert(0 <= start && start + width <= frames * (channels * width)) by (nonlinear_arith)
            requires
                start == (f * channels + c) * width,
                0 <= c < channels,
                0 <= f < frames,
                width >= 0,
        ;
        lemma_code_in_range(big, format, data.subrange(start, start + width));
    }
}

pub proof fn lemma_woven_len(big: bool, format: SampleFormat, channels: Seq<Seq<i64>>, count: nat)
    ensures
        woven(big, format, channels, count).len() == count * (format.spec_bits() / 8),
    decreases count,
{
    let width = format.spec_bits() / 8;
    if count > 0 {
        let index = count - 1;
        lemma_woven_len(big, format, channels, (count - 1) as nat);
        lemma_code_bytes_len(
            big,
            format,
            channels[index % channels.len() as int][index / channels.len() as int],
        );
        assert(count * width == (count - 1) * width + width) by (nonlinear_arith);
    } else {
        assert(count * width == 0) by (nonlinear_arith)
            requires
                count == 0,
        ;
    }
}

/// The bytes of a code stand at its place in the weave.
pub proof fn lemma_woven_at(
    big: bool,
    format: SampleFormat,
    channels: Seq<Seq<i64>>,
    count: nat,
    index: nat,
)
    requires
        index < count,
    ensures
        ({
            let width = format.spec_bits() / 8;
            let n = channels.len() as int;
            &&& 0 <= index * width <= index * width + width <= count * width
            &&& woven(big, format, channels, count).subrange(
                (index * width) as int,
                (index * width + width) as int,
            ) == code_bytes(big, format, channels[index as int % n][index as int / n])
        }),
    decreases count,
{
    let width = format.spec_bits() / 8;
    let before = (count - 1) as nat;
    let n = channels.len() as int;
    let whole = woven(big, format, channels, count);
    let shorter = woven(big, format, channels, before);
    lemma_woven_len(big, format, channels, count);
    lemma_woven_len(big, format, channels, before);
    lemma_code_bytes_len(big, format, channels[before as int % n][before as int / n]);
    assert(count * width == before * width + width) by (nonlinear_arith)
        requires
            count == before + 1,
    ;
    assert(index * width >= 0) by (nonlinear_arith);
    if index < before {
        lemma_woven_at(big, format, channels, before, index);
        assert(whole.subrange((index * width) as int, (index * width + width) as int)
            =~= shorter.subrange((index * width) as int, (index * width + width) as int));
    } else {
        assert(whole.subrange((index * width) as int, (index * width + width) as int) =~= code_bytes(
            big,
            format,
            channels[index as int % n][index as int / n],
        ));
    }
}

/// A place in the weave, as a frame and a channel.
proof fn lemma_place(channels: nat, frame: int, channel: int)
    requires
        0 <= frame,
        0 <= channel < channels,
    ensures
        (frame * channels + channel) % (channels as int) == channel,
        (frame * channels + channel) / (channels as int) == frame,
        frame * channels + channel >= 0,
{
    assert(frame * channels >= 0) by (nonlinear_arith)
        requires
            frame >= 0,
    ;
    lemma_fundamental_div_mod_converse(
        frame * channels + channel,
        channels as int,
        frame,
        channel,
    );
}

/// What is woven comes apart again, for codes in the range of their format.
pub proof fn law_weave_round_trip(
    big: bool,
    format: SampleFormat,
    channels: Seq<Seq<i64>>,
    frames: nat,
)
    requires
        big ==> !format.spec_is_float(),
        forall|i: int| 0 <= i < channels.len() ==> (#[trigger] channels[i]).len() == frames,
        forall|i: int, j: int|
            0 <= i < channels.len() && 0 <= j < frames ==> format.low() <= #[trigger] channels[i][j]
                <= format.high(),
    ensures
        unwoven(
            big,
            format,
            channels.len(),
            frames,
            woven(big, format, channels, frames * channels.len()),
        ) == channels,
{
    let n = channels.len();
    let width = format.spec_bits() / 8;
    let data = woven(big, format, channels, frames * n);
    let apart = unwoven(big, format, n, frames, data);
    assert forall|c: int| 0 <= c < n implies apart[c] == channels[c] by {
        assert(channels[c].len() == frames);
        assert forall|f: int| 0 <= f < frames implies apart[c][f] == channels[c][f] by {
            lemma_place(n, f, c);
            let index = (f * n + c) as nat;
            assert(index < frames * n) by (nonlinear_arith)
                requires
                    index == f * n + c,
                    0 <= f < frames,
                    0 <= c < n,
            ;
            lemma_woven_at(big, format, channels, frames * n, index);
            law_code_round_trip(big, format, channels[c][f]);
        }
        assert(apart[c] =~= channels[c]);
    }
    assert(apart =~= channels);
}

/// Writes one code.
fn write_code(big: bool, format: SampleFormat, code: i64, out: &mut Vec<u8>)
    requires
        format == SampleFormat::PcmU8 ==> code <= i64::MAX - 128,
    ensures
        final(out)@ == old(out)@ + code_bytes(big, format, code),
{
    if big {
        push_be(out, code, format.bytes());
    } else if format == SampleFormat::PcmU8 {
        push_le(out, code + 128, 1);
    } else {
        push_le(out, code, format.bytes());
    }
}

/// Weaves channels into bytes.
#[verifier::loop_isolation(false)]
pub fn weave(big: bool, format: SampleFormat, channels: &Vec<Vec<i64>>, frames: usize, out: &mut Vec<u8>)
    requires
        forall|i: int| 0 <= i < channels@.len() ==> (#[trigger] channels@[i])@.len() == frames,
        format == SampleFormat::PcmU8 ==> forall|i: int, j: int|
            0 <= i < channels@.len() && 0 <= j < frames ==> #[trigger] channels@[i]@[j] <= i64::MAX
                - 128,
    ensures
        final(out)@ == old(out)@ + woven(
            big,
            format,
            planes(channels@),
            frames as nat * channels@.len(),
        ),
{
    let ghost plain = planes(channels@);
    let ghost n = channels@.len();
    let mut frame: usize = 0;
    proof {
        assert(0 * n == 0) by (nonlinear_arith);
        assert(out@ =~= old(out)@ + woven(big, format, plain, 0));
    }
    while frame < frames
        invariant
            frame <= frames,
            out@ == old(out)@ + woven(big, format, plain, frame as nat * n),
        decreases frames - frame,
    {
        let mut channel: usize = 0;
        while channel < channels.len()
            invariant
                frame < frames,
                channel <= channels@.len(),
                out@ == old(out)@ + woven(big, format, plain, frame as nat * n + channel as nat),
            decreases channels@.len() - channel,
        {
            proof {
                assert(channels@[channel as int]@.len() == frames);
                assert(plain[channel as int] == channels@[channel as int]@);
                lemma_place(n, frame as int, channel as int);
            }
            write_code(big, format, channels[channel][frame], out);
            assert(out@ =~= old(out)@ + woven(
                big,
                format,
                plain,
                frame as nat * n + (channel + 1) as nat,
            ));
            channel = channel + 1;
        }
        assert(frame as nat * n + n == (frame + 1) as nat * n) by (nonlinear_arith);
        frame = frame + 1;
    }
}

/// Reads one code.
fn read_code(big: bool, format: SampleFormat, data: &[u8], offset: usize) -> (code: i64)
    requires
        offset + format.spec_bits() / 8 <= data@.len(),
        big ==> !format.spec_is_float(),
    ensures
        code == code_of(
            big,
            format,
            data@.subrange(offset as int, offset + format.spec_bits() / 8),
        ),
{
    let width: usize = format.bytes();
    let ghost part = data@.subrange(offset as int, offset + width);
    let value: u64 = if big {
        read_be(data, offset, width)
    } else {
        read_le(data, offset, width)
    };
    proof {
        lemma2_to64();
        lemma2_to64_rest();
        lemma_le_value_bound(part);
        lemma_le_value_bound(part.reverse());
        assert(8 * 1 == 8nat && 8 * 2 == 16nat && 8 * 3 == 24nat && 8 * 4 == 32nat && 8 * 8 == 64nat);
    }
    if !big && format == SampleFormat::PcmU8 {
        return value as i64 - 128;
    }
    if format == SampleFormat::F32 {
        return value as i64;
    }
    if width == 1 {
        if value >= 0x80 {
            value as i64 - 0x100
        } else {
            value as i64
        }
    } else if width == 2 {
        if value >= 0x8000 {
            value as i64 - 0x1_0000
        } else {
            value as i64
        }
    } else if width == 3 {
        if value >= 0x80_0000 {
            value as i64 - 0x100_0000
        } else {
            value as i64
        }
    } else if width == 4 {
        if value >= 0x8000_0000 {
            value as i64 - 0x1_0000_0000
        } else {
            value as i64
        }
    } else {
        if value >= 0x8000_0000_0000_0000 {
            (value - 0x8000_0000_0000_0000) as i64 + i64::MIN
        } else {
            value as i64
        }
    }
}

/// Takes channels apart that are woven into bytes.
#[verifier::loop_isolation(false)]
pub fn unweave(big: bool, format: SampleFormat, count: usize, frames: usize, data: &[u8]) -> (channels:
    Vec<Vec<i64>>)
    requires
        big ==> !format.spec_is_float(),
        frames * count * (format.spec_bits() / 8) <= data@.len(),
    ensures
        planes(channels@) == unwoven(big, format, count as nat, frames as nat, data@),
{
    let width: usize = format.bytes();
    let length: usize = data.len();
    let ghost goal = unwoven(big, format, count as nat, frames as nat, data@);
    let mut channels: Vec<Vec<i64>> = Vec::new();
    while channels.len() < count
        invariant
            channels@.len() <= count,
            forall|c: int| 0 <= c < channels@.len() ==> (#[trigger] channels@[c])@ == goal[c],
        decreases count - channels@.len(),
    {
        let channel: usize = channels.len();
        let mut plane: Vec<i64> = Vec::new();
        while plane.len() < frames
            invariant
                channel < count,
                plane@.len() <= frames,
                forall|f: int| 0 <= f < plane@.len() ==> plane@[f] == goal[channel as int][f],
            decreases frames - plane@.len(),
        {
            let frame: usize = plane.len();
            proof {
                let index = frame * count + channel;
                assert(0 <= frame * count && index + 1 <= frames * count) by (nonlinear_arith)
                    requires
                        index == frame * count + channel,
                        0 <= frame < frames,
                        0 <= channel < count,
                ;
                assert((index + 1) * width <= (frames * count) * width) by (nonlinear_arith)
                    requires
                        index + 1 <= frames * count,
                ;
                assert((index + 1) * width == index * width + width) by (nonlinear_arith);
                assert(index <= index * width) by (nonlinear_arith)
                    requires
                        width >= 1,
                        index >= 0,
                ;
                assert(0 <= index * width);
            }
            let offset: usize = (frame * count + channel) * width;
            plane.push(read_code(big, format, data, offset));
        }
        assert(plane@ =~= goal[channel as int]);
        channels.push(plane);
    }
    assert(planes(channels@) =~= goal);
    channels
}

} // verus!
