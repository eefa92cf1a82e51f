//! What working with buffers comes to.
//!
//! A code of an integer format stands for a level: its own number over two to the
//! bits of the format. Buffers are cut, added up, held to their grid and moved to
//! another grid, and none of that changes a level that can be kept.

use vstd::prelude::*;

use vstd::arithmetic::power2::{lemma2_to64, lemma_pow2_adds, lemma_pow2_pos, lemma_pow2_unfold, pow2};

use crate::path::{
    law_files_are_named_behind_their_directory, law_names_are_a_stem_and_an_extension,
};

use super::{
    all_exact_in, channels_fault, clamped, clamped_channels, difference_of, exact_in, first_exact,
    has_24_bits, incompatibility, reading_of, regridded, roomy, segment_of, sum_of, Container,
    SampleFormat, Sound,
};

verus! {

/// Whether codes of two integer formats stand for the same level.
pub open spec fn same_level(code: int, from: SampleFormat, other: int, to: SampleFormat) -> bool {
    code * pow2(to.spec_bits()) == other * pow2(from.spec_bits())
}

/// Whether a number is another one doubled so often.
pub open spec fn doubled(number: int, head: int, times: nat) -> bool {
    number == head * pow2(times)
}

/// Cutting a stretch in two and putting the halves together gives the stretch.
/// Cutting from the first frame to the last gives the buffer, and whatever lies
/// behind the last frame is silence.
pub proof fn law_segments_join(
    channels: Seq<Seq<i64>>,
    channel: int,
    start: nat,
    first: nat,
    second: nat,
)
    requires
        0 <= channel < channels.len(),
    ensures
        segment_of(channels, start, first + second).len() == channels.len(),
        segment_of(channels, start, first + second)[channel] == segment_of(
            channels,
            start,
            first,
        )[channel] + segment_of(channels, start + first, second)[channel],
        segment_of(channels, 0, channels[channel].len())[channel] == channels[channel],
        segment_of(channels, channels[channel].len() + start, first)[channel] == Seq::new(
            first,
            |i: int| 0i64,
        ),
{
    assert(segment_of(channels, start, first + second)[channel] =~= segment_of(
        channels,
        start,
        first,
    )[channel] + segment_of(channels, start + first, second)[channel]);
    assert(segment_of(channels, 0, channels[channel].len())[channel] =~= channels[channel]);
    assert(segment_of(channels, channels[channel].len() + start, first)[channel] =~= Seq::new(
        first,
        |i: int| 0i64,
    ));
}

/// Buffers are added and taken away frame by frame, with nothing lost.
pub proof fn law_sums_add_frame_by_frame(
    first: Seq<Seq<i64>>,
    second: Seq<Seq<i64>>,
    channel: int,
    frame: int,
)
    requires
        first.len() == second.len(),
        0 <= channel < first.len(),
        first[channel].len() == second[channel].len(),
        0 <= frame < first[channel].len(),
        roomy(first),
        roomy(second),
    ensures
        sum_of(first, second)[channel][frame] - first[channel][frame] == second[channel][frame],
        first[channel][frame] - difference_of(first, second)[channel][frame]
            == second[channel][frame],
        sum_of(first, second)[channel][frame] == sum_of(second, first)[channel][frame],
        sum_of(first, second).len() == first.len() && sum_of(first, second)[channel].len()
            == first[channel].len(),
        difference_of(first, second).len() == first.len() && difference_of(
            first,
            second,
        )[channel].len() == first[channel].len(),
{
    assert(-0x4000_0000_0000_0000 <= first[channel][frame] <= 0x3FFF_FFFF_FFFF_FFFF);
    assert(-0x4000_0000_0000_0000 <= second[channel][frame] <= 0x3FFF_FFFF_FFFF_FFFF);
}

/// A code held to a format is one that the format has, and no code that it has
/// lies nearer. So a code that the format has stays as it is.
pub proof fn law_held_codes_are_the_nearest(code: i64, format: SampleFormat, other: int)
    requires
        format.low() <= other <= format.high(),
    ensures
        format.low() <= clamped(code, format) <= format.high(),
        code <= clamped(code, format) ==> clamped(code, format) <= other || other < code
            || code == clamped(code, format),
        clamped(code, format) <= code ==> other <= clamped(code, format) || code < other
            || code == clamped(code, format),
        code == other ==> clamped(code, format) == code,
        code < format.low() ==> clamped(code, format) - code <= other - code,
        code > format.high() ==> code - clamped(code, format) <= code - other,
{
}

/// Holding a buffer to its format holds each of its codes.
pub proof fn law_held_buffers_hold_their_codes(
    channels: Seq<Seq<i64>>,
    format: SampleFormat,
    channel: int,
    frame: int,
)
    requires
        0 <= channel < channels.len(),
        0 <= frame < channels[channel].len(),
    ensures
        clamped_channels(channels, format).len() == channels.len(),
        clamped_channels(channels, format)[channel].len() == channels[channel].len(),
        clamped_channels(channels, format)[channel][frame] == clamped(
            channels[channel][frame],
            format,
        ),
{
}

/// A code is exact in an integer format if and only if the format has a code for
/// the same level, and moving it there gives that code.
pub proof fn law_exact_codes_keep_their_level(code: i64, from: SampleFormat, to: SampleFormat)
    requires
        !from.spec_is_float(),
        !to.spec_is_float(),
    ensures
        exact_in(code, from, to) <==> exists|other: int|
            to.low() <= other <= to.high() && #[trigger] same_level(code as int, from, other, to),
        exact_in(code, from, to) ==> same_level(
            code as int,
            from,
            regridded(code, from, to) as int,
            to,
        ) && to.low() <= regridded(code, from, to) <= to.high(),
{
    let a = from.spec_bits();
    let b = to.spec_bits();
    let c = code as int;
    lemma_pow2_pos(a);
    lemma_pow2_pos(b);
    if b >= a {
        let k = (b - a) as nat;
        lemma_pow2_adds(k, a);
        let moved = c * pow2(k);
        assert(c * pow2(b) == moved * pow2(a)) by (nonlinear_arith)
            requires
                pow2(b) == pow2(k) * pow2(a),
                moved == c * pow2(k),
        ;
        assert(same_level(c, from, moved, to));
        assert forall|other: int| #[trigger] same_level(c, from, other, to) implies other
            == moved by {
            assert(other == moved) by (nonlinear_arith)
                requires
                    other * pow2(a) == moved * pow2(a),
                    pow2(a) > 0,
            ;
        }
    } else {
        let k = (a - b) as nat;
        let unit = pow2(k) as int;
        lemma_pow2_adds(k, b);
        lemma_pow2_pos(k);
        let moved = c / unit;
        assert forall|other: int| #[trigger] same_level(c, from, other, to) implies c % unit == 0
            && other == moved by {
            assert(c == other * unit) by (nonlinear_arith)
                requires
                    c * pow2(b) == other * pow2(a),
                    pow2(a) == unit * pow2(b),
                    pow2(b) > 0,
            ;
            assert(c % unit == 0 && other == c / unit) by (nonlinear_arith)
                requires
                    c == other * unit,
                    unit > 0,
            ;
        }
        if c % unit == 0 {
            assert(c == moved * unit) by (nonlinear_arith)
                requires
                    c % unit == 0,
                    unit > 0,
                    moved == c / unit,
            ;
            assert(c * pow2(b) == moved * pow2(a)) by (nonlinear_arith)
                requires
                    c == moved * unit,
                    pow2(a) == unit * pow2(b),
            ;
            assert(same_level(c, from, moved, to));
        }
    }
}

/// A code is exact in a float of 32 bits if and only if it is a number of at most
/// 24 bits, doubled however often, and in a float of 64 bits always.
pub proof fn law_floats_hold_24_bits(code: i64, from: SampleFormat)
    ensures
        exact_in(code, from, SampleFormat::F32) <==> exists|head: int, times: nat|
            -0x100_0000 <= head <= 0x100_0000 && #[trigger] doubled(code as int, head, times),
        exact_in(code, from, SampleFormat::F64),
{
    let number = code as int;
    if has_24_bits(number) {
        let (head, times) = lemma_head(number);
        assert(doubled(number, head, times));
    }
    if exists|head: int, times: nat|
        -0x100_0000 <= head <= 0x100_0000 && #[trigger] doubled(number, head, times) {
        let (head, times) = choose|head: int, times: nat|
            -0x100_0000 <= head <= 0x100_0000 && #[trigger] doubled(number, head, times);
        lemma_doubled_has_24_bits(number, head, times);
    }
}

proof fn lemma_head(number: int) -> (found: (int, nat))
    requires
        has_24_bits(number),
    ensures
        -0x100_0000 <= found.0 <= 0x100_0000,
        doubled(number, found.0, found.1),
    decreases if number < 0 { -number } else { number },
{
    lemma2_to64();
    if -0x100_0000 <= number <= 0x100_0000 {
        assert(number * 1 == number);
        (number, 0nat)
    } else {
        let (head, times) = lemma_head(number / 2);
        lemma_pow2_unfold(times + 1);
        assert(number == head * pow2(times + 1)) by (nonlinear_arith)
            requires
                number / 2 == head * pow2(times),
                number % 2 == 0,
                pow2(times + 1) == 2 * pow2(times),
        ;
        (head, times + 1)
    }
}

proof fn lemma_doubled_has_24_bits(number: int, head: int, times: nat)
    requires
        -0x100_0000 <= head <= 0x100_0000,
        doubled(number, head, times),
    ensures
        has_24_bits(number),
    decreases times,
{
    lemma2_to64();
    if times == 0 {
        assert(head * 1 == head);
    } else {
        let less = (times - 1) as nat;
        lemma_pow2_unfold(times);
        let half = head * pow2(less);
        assert(number == 2 * half) by (nonlinear_arith)
            requires
                number == head * pow2(times),
                pow2(times) == 2 * pow2(less),
                half == head * pow2(less),
        ;
        lemma_doubled_has_24_bits(half, head, less);
        assert(number / 2 == half);
    }
}

/// Whether a buffer may be kept in a format that is at least as wide as another.
pub open spec fn suits(sound: Sound, floor: SampleFormat, format: SampleFormat) -> bool {
    &&& format.spec_bits() >= floor.spec_bits()
    &&& forall|i: int, j: int|
        0 <= i < sound.channels.len() && 0 <= j < sound.channels[i].len() ==> exact_in(
            #[trigger] sound.channels[i][j],
            sound.format,
            format,
        )
}

/// The narrowest exact format is the first that suits, of 8, 16, 24 and 32 bits,
/// then floats of 32 bits, and floats of 64 bits when none does.
pub proof fn law_the_narrowest_format_is_the_first_that_suits(sound: Sound, floor: SampleFormat)
    ensures
        first_exact(sound, floor, SampleFormat::PcmU8) == (if suits(
            sound,
            floor,
            SampleFormat::PcmU8,
        ) {
            SampleFormat::PcmU8
        } else if suits(sound, floor, SampleFormat::PcmI16) {
            SampleFormat::PcmI16
        } else if suits(sound, floor, SampleFormat::PcmI24) {
            SampleFormat::PcmI24
        } else if suits(sound, floor, SampleFormat::PcmI32) {
            SampleFormat::PcmI32
        } else if suits(sound, floor, SampleFormat::F32) {
            SampleFormat::F32
        } else {
            SampleFormat::F64
        }),
        suits(sound, floor, first_exact(sound, floor, SampleFormat::PcmU8)),
{
    reveal_with_fuel(first_exact, 7);
    assert(suits(sound, floor, SampleFormat::PcmU8) == (8 >= floor.spec_bits() && all_exact_in(
        sound,
        SampleFormat::PcmU8,
    )));
    assert(suits(sound, floor, SampleFormat::PcmI16) == (16 >= floor.spec_bits() && all_exact_in(
        sound,
        SampleFormat::PcmI16,
    )));
    assert(suits(sound, floor, SampleFormat::PcmI24) == (24 >= floor.spec_bits() && all_exact_in(
        sound,
        SampleFormat::PcmI24,
    )));
    assert(suits(sound, floor, SampleFormat::PcmI32) == (32 >= floor.spec_bits() && all_exact_in(
        sound,
        SampleFormat::PcmI32,
    )));
    assert(suits(sound, floor, SampleFormat::F32) == (32 >= floor.spec_bits() && all_exact_in(
        sound,
        SampleFormat::F32,
    )));
}

/// Two buffers go together if and only if they have the same rate, as many
/// channels and as many frames, whichever way round they are asked.
pub proof fn law_compatible_buffers_have_one_shape(first: Sound, second: Sound)
    ensures
        incompatibility(first, second) is None <==> (first.sample_rate == second.sample_rate
            && first.channels.len() == second.channels.len() && first.frames() == second.frames()),
        incompatibility(first, second) is None <==> incompatibility(second, first) is None,
{
}

/// Channels make a buffer if and only if the rate is positive and there is at
/// least one channel, all of one length.
pub proof fn law_buffers_have_a_rate_and_even_channels(rate: u32, channels: Seq<Seq<i64>>)
    ensures
        channels_fault(rate, channels) is None <==> (rate > 0 && channels.len() > 0 && forall|
            i: int,
            j: int,
        |
            0 <= i < channels.len() && 0 <= j < channels.len() ==> (#[trigger] channels[i]).len()
                == (#[trigger] channels[j]).len()),
{
    if channels_fault(rate, channels) is None {
        assert forall|i: int, j: int| 0 <= i < channels.len() && 0 <= j < channels.len() implies (
        #[trigger] channels[i]).len() == (#[trigger] channels[j]).len() by {
            assert(channels[i].len() == channels[0].len());
            assert(channels[j].len() == channels[0].len());
        }
    }
}

/// A container is told by its first four bytes alone: `RIFF` or `RIFX` for the
/// one, `FORM` for the other.
pub proof fn law_containers_are_told_by_four_bytes(bytes: Seq<u8>, more: Seq<u8>)
    ensures
        Container::spec_of_bytes(bytes) == Some(Container::Wav) <==> (bytes.len() >= 4 && bytes[0]
            == 'R' as u8 && bytes[1] == 'I' as u8 && bytes[2] == 'F' as u8 && (bytes[3]
            == 'F' as u8 || bytes[3] == 'X' as u8)),
        Container::spec_of_bytes(bytes) == Some(Container::Aiff) <==> (bytes.len() >= 4 && bytes[0]
            == 'F' as u8 && bytes[1] == 'O' as u8 && bytes[2] == 'R' as u8 && bytes[3]
            == 'M' as u8),
        bytes.len() >= 4 ==> Container::spec_of_bytes(bytes + more) == Container::spec_of_bytes(
            bytes,
        ),
{
    if bytes.len() >= 4 {
        let head = bytes.take(4);
        assert((bytes + more).take(4) =~= head);
        assert(head =~= seq![bytes[0], bytes[1], bytes[2], bytes[3]]);
        if bytes[0] == 0x52 && bytes[1] == 0x49 && bytes[2] == 0x46 && bytes[3] == 0x46 {
            assert(head =~= super::wav::RIFF@);
        }
        if bytes[0] == 0x52 && bytes[1] == 0x49 && bytes[2] == 0x46 && bytes[3] == 0x58 {
            assert(head =~= super::RIFX@);
        }
        if bytes[0] == 0x46 && bytes[1] == 0x4F && bytes[2] == 0x52 && bytes[3] == 0x4D {
            assert(head =~= super::aiff::FORM@);
        }
        assert(head[0] == bytes[0] && head[1] == bytes[1] && head[2] == bytes[2] && head[3]
            == bytes[3]);
    }
}

/// A file is read as the container that its bytes announce; only where they
/// announce none does the extension of its name count.
pub proof fn law_bytes_come_before_names(
    bytes: Seq<u8>,
    directory: Seq<char>,
    stem: Seq<char>,
    extension: Seq<char>,
)
    requires
        stem.len() > 0,
        !stem.contains('/'),
        !extension.contains('/'),
        !extension.contains('.'),
        stem + seq!['.'] + extension != seq!['.', '.'],
    ensures
        reading_of(bytes, directory + seq!['/'] + (stem + seq!['.'] + extension)) == (
        if Container::spec_of_bytes(bytes) is Some {
            Container::spec_of_bytes(bytes)
        } else {
            Container::spec_parse(extension)
        }),
{
    let name = stem + seq!['.'] + extension;
    assert(!name.contains('/')) by {
        if name.contains('/') {
            let k = choose|k: int| 0 <= k < name.len() && name[k] == '/';
            if k < stem.len() {
                assert(stem[k] == '/');
            } else if k > stem.len() {
                assert(extension[k - stem.len() - 1] == '/');
            }
        }
    }
    assert(name.len() >= 2);
    law_files_are_named_behind_their_directory(directory, name);
    law_names_are_a_stem_and_an_extension(stem, extension);
}

/// What each file format can hold: WAV any buffer of at most 65535 channels, AIFF
/// only whole numbers besides, and FLAC whole numbers in one to eight channels at a
/// rate of at most twenty bits.
pub proof fn law_formats_hold_what_they_can(sound: Sound)
    ensures
        super::encoded(sound, Container::Wav) is Ok <==> sound.channels.len() <= 65_535,
        super::encoded(sound, Container::Aiff) is Ok <==> sound.channels.len() <= 65_535
            && sound.format != SampleFormat::F32 && sound.format != SampleFormat::F64,
        super::flac::encode::encode_fault(sound) is None <==> 1 <= sound.channels.len() <= 8
            && sound.sample_rate < 1_048_576 && sound.format != SampleFormat::F32 && sound.format
            != SampleFormat::F64,
{
}

} // verus!
