//! Buffers on the grid of a recording, whatever format they are held in.
//!
//! What is derived from a recording lies on its grid but can lie past its range,
//! where only floats hold it. A buffer is held in its own format where that holds
//! every sample, and otherwise in the narrowest format that does; where buffers
//! are added up, each is taken back to the grid.

use vstd::arithmetic::power2::{lemma2_to64, pow2};
use vstd::prelude::*;

use super::float::{
    float_channels, law_floats_hold_the_grid, limited, same_samples, scale_of, steps_of, to_float,
    to_grid,
};
use super::{
    all_exact_in, exact_in, first_exact, rank, regridded_channels, wider, Audio, SampleFormat,
    Sound,
};

verus! {

/// The format a buffer is stored in: its own where that holds every sample, or
/// else the narrowest that does.
pub open spec fn storage_of(sound: Sound) -> SampleFormat {
    if all_exact_in(sound, sound.format) {
        sound.format
    } else {
        first_exact(sound, sound.format, SampleFormat::PcmU8)
    }
}

/// The format a buffer is stored in.
pub fn storage_format(audio: &Audio) -> (format: SampleFormat)
    requires
        !audio@.format.spec_is_float(),
        forall|i: int, j: int|
            0 <= i < audio@.channels.len() && 0 <= j < audio@.channels[i].len()
                ==> -0x20_0000_0000_0000 <= #[trigger] audio@.channels[i][j] <= 0x20_0000_0000_0000,
    ensures
        format == storage_of(audio@),
        all_exact_in(audio@, format),
{
    if audio.is_exact_in_format() {
        return audio.format();
    }
    proof {
        lemma_first_exact(audio@, audio@.format, SampleFormat::PcmU8);
    }
    audio.narrowest_exact_format(audio.format())
}

/// The format that is found holds every sample.
proof fn lemma_first_exact(sound: Sound, floor: SampleFormat, format: SampleFormat)
    ensures
        all_exact_in(sound, first_exact(sound, floor, format)),
    decreases 5 - rank(format),
{
    if format != SampleFormat::F64 && !(format.spec_bits() >= floor.spec_bits() && all_exact_in(
        sound,
        format,
    )) {
        lemma_first_exact(sound, floor, wider(format));
    }
}

/// What holds a buffer outside its range is a float format: a wider grid is no
/// louder.
proof fn lemma_wider_grids_are_no_louder(sound: Sound)
    requires
        !sound.format.spec_is_float(),
        !sound.in_range(),
    ensures
        !all_exact_in(sound, sound.format),
        storage_of(sound).spec_is_float(),
{
    lemma2_to64();
    let format = sound.format;
    let (i, j) = choose|i: int, j: int|
        0 <= i < sound.channels.len() && 0 <= j < sound.channels[i].len() && !(format.low()
            <= #[trigger] sound.channels[i][j] <= format.high());
    let code = sound.channels[i][j];
    assert forall|other: SampleFormat|
        !other.spec_is_float() && other.spec_bits() >= format.spec_bits() implies !exact_in(
        code,
        format,
        other,
    ) by {
        let shift = (other.spec_bits() - format.spec_bits()) as nat;
        assert(shift == 0 || shift == 8 || shift == 16 || shift == 24);
        if shift == 0 {
            assert(code * pow2(shift) == code);
        } else if shift == 8 {
            assert(code * pow2(shift) == code * 0x100);
        } else if shift == 16 {
            assert(code * pow2(shift) == code * 0x1_0000);
        } else {
            assert(code * pow2(shift) == code * 0x100_0000);
        }
    }
    assert(!exact_in(sound.channels[i][j], format, format));
    assert(!all_exact_in(sound, SampleFormat::PcmU8) || format.spec_bits() > 8);
    assert(!all_exact_in(sound, SampleFormat::PcmI16) || format.spec_bits() > 16);
    assert(!all_exact_in(sound, SampleFormat::PcmI24) || format.spec_bits() > 24);
    assert(!all_exact_in(sound, SampleFormat::PcmI32));
    reveal_with_fuel(first_exact, 6);
}

/// The buffer that is written: the recording as it is where its format holds it,
/// and as floats where it does not.
pub open spec fn stored_as(sound: Sound) -> Sound {
    if sound.in_range() {
        sound
    } else {
        Sound {
            sample_rate: sound.sample_rate,
            format: storage_of(sound),
            channels: float_channels(sound.channels, sound.format, storage_of(sound)),
        }
    }
}

/// The buffer that is written so that nothing is rounded.
pub fn stored(audio: &Audio) -> (kept: Audio)
    requires
        audio.wf(),
        !audio@.format.spec_is_float(),
        limited(audio@.channels),
    ensures
        kept.wf(),
        kept@.in_range(),
        kept@ == stored_as(audio@),
        kept@.format == storage_of(audio@),
{
    proof {
        assert forall|i: int, j: int|
            0 <= i < audio@.channels.len() && 0 <= j < audio@.channels[i].len() implies
            -0x20_0000_0000_0000 <= #[trigger] audio@.channels[i][j] <= 0x20_0000_0000_0000 by {}
    }
    if audio.is_exact_in_format() {
        return audio.copy();
    }
    let format = storage_format(audio);
    proof {
        lemma_wider_grids_are_no_louder(audio@);
    }
    to_float(audio, format)
}

/// The codes of a buffer on an integer grid.
pub open spec fn gridded(sound: Sound, format: SampleFormat) -> Seq<Seq<i64>> {
    if sound.format == format {
        sound.channels
    } else if sound.format.spec_is_float() {
        Seq::new(
            sound.channels.len(),
            |i: int|
                Seq::new(
                    sound.channels[i].len(),
                    |j: int|
                        steps_of(
                            sound.channels[i][j] as int,
                            scale_of(format),
                            sound.format,
                        )->Some_0 as i64,
                ),
        )
    } else {
        regridded_channels(sound.channels, sound.format, format)
    }
}

/// Whether every sample of a buffer lies on an integer grid.
pub open spec fn lies_on(sound: Sound, format: SampleFormat) -> bool {
    if sound.format == format {
        true
    } else if sound.format.spec_is_float() {
        forall|i: int, j: int|
            0 <= i < sound.channels.len() && 0 <= j < sound.channels[i].len() ==> steps_of(
                #[trigger] sound.channels[i][j] as int,
                scale_of(format),
                sound.format,
            ) is Some
    } else {
        all_exact_in(sound, format)
    }
}

/// Whether a buffer can be taken to an integer grid: it is on it, or its codes
/// belong to its own format.
pub open spec fn takeable(audio: Audio, format: SampleFormat) -> bool {
    &&& audio.wf()
    &&& audio@.format == format || audio@.in_range()
}

/// Takes a buffer to an integer grid, if every sample lies on it.
pub fn regrid(audio: &Audio, format: SampleFormat) -> (same: Option<Audio>)
    requires
        takeable(*audio, format),
        !format.spec_is_float(),
    ensures
        match same {
            Some(grid) => {
                &&& lies_on(audio@, format)
                &&& grid.wf()
                &&& grid@ == (Sound {
                    sample_rate: audio@.sample_rate,
                    format,
                    channels: gridded(audio@, format),
                })
            },
            None => !lies_on(audio@, format),
        },
{
    if audio.format() == format {
        return Some(audio.copy());
    }
    if audio.format().is_float() {
        let same = to_grid(audio, format);
        proof {
            if same is Some {
                lemma_same_samples(audio@, format, same->Some_0@.channels);
            }
        }
        return same;
    }
    proof {
        assert forall|i: int, j: int|
            0 <= i < audio@.channels.len() && 0 <= j < audio@.channels[i].len() implies
            -0x20_0000_0000_0000 <= #[trigger] audio@.channels[i][j] <= 0x20_0000_0000_0000 by {}
    }
    if !audio.is_exact_in(format) {
        return None;
    }
    let mut grid = audio.copy();
    grid.set_format(format);
    Some(grid)
}

/// Takes a buffer to an integer grid that it lies on.
pub fn taken_to(audio: &Audio, format: SampleFormat) -> (grid: Audio)
    requires
        takeable(*audio, format),
        !format.spec_is_float(),
        lies_on(audio@, format),
    ensures
        grid.wf(),
        grid@ == (Sound {
            sample_rate: audio@.sample_rate,
            format,
            channels: gridded(audio@, format),
        }),
{
    match regrid(audio, format) {
        Some(grid) => grid,
        None => audio.copy(),
    }
}

/// The codes that every float stands for are those on the grid.
proof fn lemma_same_samples(sound: Sound, format: SampleFormat, codes: Seq<Seq<i64>>)
    requires
        sound.format.spec_is_float(),
        !format.spec_is_float(),
        same_samples(sound.channels, sound.format, codes, format),
    ensures
        lies_on(sound, format),
        gridded(sound, format) == codes,
{
    let goal = gridded(sound, format);
    assert forall|i: int, j: int|
        0 <= i < sound.channels.len() && 0 <= j < sound.channels[i].len() implies steps_of(
        #[trigger] sound.channels[i][j] as int,
        scale_of(format),
        sound.format,
    ) is Some && goal[i][j] == codes[i][j] by {
        assert(steps_of(sound.channels[i][j] as int, scale_of(format), sound.format) == Some(
            codes[i][j] as int,
        ));
    }
    assert forall|i: int| 0 <= i < goal.len() implies goal[i] == codes[i] by {
        assert(codes[i].len() == sound.channels[i].len());
        assert forall|j: int| 0 <= j < goal[i].len() implies goal[i][j] == codes[i][j] by {
            assert(steps_of(sound.channels[i][j] as int, scale_of(format), sound.format) == Some(
                codes[i][j] as int,
            ));
        }
        assert(goal[i] =~= codes[i]);
    }
    assert(goal =~= codes);
}

/// However a buffer is held so that nothing is rounded, its samples are the same.
pub proof fn law_stored_buffers_keep_their_samples(sound: Sound)
    requires
        !sound.format.spec_is_float(),
        limited(sound.channels),
    ensures
        stored_as(sound).in_range(),
        stored_as(sound).sample_rate == sound.sample_rate,
        lies_on(stored_as(sound), sound.format),
        gridded(stored_as(sound), sound.format) == sound.channels,
{
    if !sound.in_range() {
        let kept = stored_as(sound);
        lemma_wider_grids_are_no_louder(sound);
        lemma_first_exact(sound, sound.format, SampleFormat::PcmU8);
        let format = storage_of(sound);
        assert forall|i: int, j: int|
            0 <= i < kept.channels.len() && 0 <= j < kept.channels[i].len() implies format.low()
            <= #[trigger] kept.channels[i][j] <= format.high() && steps_of(
            kept.channels[i][j] as int,
            scale_of(sound.format),
            format,
        ) == Some(sound.channels[i][j] as int) by {
            assert(exact_in(sound.channels[i][j], sound.format, format));
            law_floats_hold_the_grid(sound.channels[i][j] as int, sound.format, format);
        }
        assert(same_samples(kept.channels, format, sound.channels, sound.format)) by {
            assert forall|i: int, j: int|
                0 <= i < kept.channels.len() && 0 <= j < kept.channels[i].len() implies steps_of(
                kept.channels[i][j] as int,
                scale_of(sound.format),
                format,
            ) == Some(#[trigger] sound.channels[i][j] as int) by {
                assert(format.low() <= kept.channels[i][j] <= format.high());
            }
        }
        lemma_same_samples(kept, sound.format, sound.channels);
    }
}

} // verus!
