//! Sizes and positions of the short-time Fourier transform.
//!
//! The analysis pads the signal with one transform of silence on either side,
//! so that every sample sits where the windows fully overlap, and then cuts it
//! into frames a hop apart.

use vstd::arithmetic::div_mod::{lemma_fundamental_div_mod, lemma_mod_multiples_basic};
use vstd::arithmetic::power2::{lemma2_to64, lemma_pow2_pos, lemma_pow2_unfold, pow2};
use vstd::prelude::*;

use crate::dsp::window::WindowKind;
use crate::error::{Error, Fault};
use crate::text::{decimal, decimal_text};

verus! {

/// Analysis parameters shared by every spectral stage.
#[derive(Clone, Copy, Debug, PartialEq, Eq, Structural)]
pub struct StftOptions {
    /// Transform size in samples; must be a power of two.
    pub fft_size: usize,
    /// Distance between consecutive frames in samples.
    pub hop: usize,
    /// Window shape.
    pub window: WindowKind,
}

impl Default for StftOptions {
    fn default() -> (options: Self)
        ensures
            options == (StftOptions { fft_size: 2048, hop: 512, window: WindowKind::Hann }),
    {
        StftOptions { fft_size: 2048, hop: 512, window: WindowKind::Hann }
    }
}

/// Whether a number is a power of two.
pub open spec fn is_power_of_two(number: nat) -> bool
    decreases number,
{
    if number < 2 {
        number == 1
    } else {
        number % 2 == 0 && is_power_of_two(number / 2)
    }
}

/// Whether a number is a power of two.
pub fn power_of_two(number: usize) -> (power: bool)
    ensures
        power == is_power_of_two(number as nat),
{
    let mut rest: usize = number;
    while rest >= 2 && rest % 2 == 0
        invariant
            is_power_of_two(number as nat) == is_power_of_two(rest as nat),
        decreases rest,
    {
        rest = rest / 2;
    }
    rest == 1
}

impl StftOptions {
    /// Whether the sizes go together.
    pub open spec fn sized(self) -> bool {
        is_power_of_two(self.fft_size as nat) && 1 <= self.hop <= self.fft_size
    }

    /// Why options are refused, if they are, given whether the window overlap-adds
    /// at the hop.
    pub open spec fn objection(self, overlap_adds: bool) -> Option<Seq<char>> {
        if !is_power_of_two(self.fft_size as nat) {
            Some(
                "FFT size "@ + decimal(self.fft_size as nat)
                    + " must be a positive power of two"@,
            )
        } else if !(1 <= self.hop <= self.fft_size) {
            Some(
                "hop "@ + decimal(self.hop as nat) + " must be within 1..="@ + decimal(
                    self.fft_size as nat,
                ),
            )
        } else if !overlap_adds {
            Some(
                "window "@ + self.window.spec_name() + " cannot be overlap-added at hop "@
                    + decimal(self.hop as nat),
            )
        } else {
            None
        }
    }

    /// How many samples are analysed, padding and all: enough for the last frame
    /// to end where the signal does.
    pub open spec fn padded(self, length: int) -> int {
        self.fft_size + self.hop * ((length + self.fft_size + self.hop - 1) / self.hop as int)
    }

    /// Options with the given transform size and a quarter-length hop.
    pub fn with_size(fft_size: usize) -> (options: Self)
        ensures
            options == (StftOptions {
                fft_size,
                hop: (fft_size / 4) as usize,
                window: WindowKind::Hann,
            }),
    {
        StftOptions { fft_size, hop: fft_size / 4, window: WindowKind::Hann }
    }

    /// Validates the combination, given whether the window keeps away from zero
    /// when its squares are added up at the hop.
    pub fn validate(self, overlap_adds: bool) -> (valid: Result<(), Error>)
        ensures
            match self.objection(overlap_adds) {
                None => valid is Ok,
                Some(message) => valid matches Err(error) && error@ == Fault::InvalidArgument(
                    message,
                ),
            },
    {
        if !power_of_two(self.fft_size) {
            let mut message = "FFT size ".to_string();
            message.append(decimal_text(self.fft_size as u64).as_str());
            message.append(" must be a positive power of two");
            return Err(Error::InvalidArgument(message));
        }
        if self.hop == 0 || self.hop > self.fft_size {
            let mut message = "hop ".to_string();
            message.append(decimal_text(self.hop as u64).as_str());
            message.append(" must be within 1..=");
            message.append(decimal_text(self.fft_size as u64).as_str());
            return Err(Error::InvalidArgument(message));
        }
        if !overlap_adds {
            let mut message = "window ".to_string();
            message.append(self.window.name());
            message.append(" cannot be overlap-added at hop ");
            message.append(decimal_text(self.hop as u64).as_str());
            return Err(Error::InvalidArgument(message));
        }
        Ok(())
    }

    /// Number of unique frequency bins produced per frame.
    pub fn bins(self) -> (count: usize)
        ensures
            count == self.fft_size / 2 + 1,
    {
        self.fft_size / 2 + 1
    }

    /// How many frames a signal is cut into.
    pub fn frame_count(self, length: usize) -> (count: usize)
        requires
            self.sized(),
            length + self.fft_size + self.hop <= usize::MAX,
        ensures
            count >= 1,
            self.padded(length as int) == self.fft_size + self.hop * (count - 1),
            length + 2 * self.fft_size <= self.padded(length as int),
            self.padded(length as int) < length + 2 * self.fft_size + self.hop,
    {
        let steps: usize = (length + self.fft_size + (self.hop - 1)) / self.hop;
        proof {
            let reach = length + self.fft_size + self.hop - 1;
            vstd::arithmetic::div_mod::lemma_fundamental_div_mod(reach, self.hop as int);
            assert(self.hop as int * steps == reach - reach % (self.hop as int));
            assert(steps < usize::MAX) by (nonlinear_arith)
                requires
                    self.hop >= 1,
                    self.fft_size >= 1,
                    reach == length + self.fft_size + self.hop - 1,
                    reach < usize::MAX,
                    self.hop as int * steps <= reach,
                    steps >= 0,
            ;
        }
        steps + 1
    }

    /// The sample that a frame starts at, clamped to the start of the signal.
    pub fn frame_start(self, frame: usize) -> (sample: usize)
        requires
            frame * self.hop <= usize::MAX,
        ensures
            sample == if frame * self.hop <= self.fft_size {
                0
            } else {
                frame * self.hop - self.fft_size
            },
            sample + self.fft_size >= frame * self.hop,
            sample > 0 ==> sample + self.fft_size == frame * self.hop,
    {
        let position: usize = frame * self.hop;
        if position <= self.fft_size {
            0
        } else {
            position - self.fft_size
        }
    }
}

/// The first frame of a mask that has another number of bins than the
/// spectrogram's, out of as many frames.
pub open spec fn first_uneven(mask: Seq<usize>, bins: Seq<usize>) -> Option<int>
    decreases mask.len(),
{
    if mask.len() == 0 {
        None
    } else {
        match first_uneven(mask.drop_last(), bins) {
            Some(frame) => Some(frame),
            None => if mask.last() != bins[mask.len() - 1] {
                Some(mask.len() - 1)
            } else {
                None
            },
        }
    }
}

/// Why a mask does not go with a spectrogram, if it does not.
pub open spec fn misfit(mask: Seq<usize>, bins: Seq<usize>) -> Option<Seq<char>> {
    if mask.len() != bins.len() {
        Some(
            "mask has "@ + decimal(mask.len()) + " frames but the spectrogram has "@ + decimal(
                bins.len(),
            ),
        )
    } else {
        match first_uneven(mask, bins) {
            Some(frame) => Some(
                "mask frame has "@ + decimal(mask[frame] as nat)
                    + " bins but the spectrogram has "@ + decimal(bins[frame] as nat),
            ),
            None => None,
        }
    }
}

/// What the first frames found, all of them find.
proof fn lemma_first_uneven_kept(mask: Seq<usize>, bins: Seq<usize>, count: int)
    requires
        0 <= count <= mask.len(),
        first_uneven(mask.take(count), bins) is Some,
    ensures
        first_uneven(mask, bins) == first_uneven(mask.take(count), bins),
    decreases mask.len() - count,
{
    if count < mask.len() {
        assert(mask.take(count + 1).drop_last() =~= mask.take(count));
        lemma_first_uneven_kept(mask, bins, count + 1);
    } else {
        assert(mask.take(count) =~= mask);
    }
}

/// Checks that a mask has the shape of a spectrogram, both given as the number
/// of bins in each frame.
pub fn fits(mask: &Vec<usize>, bins: &Vec<usize>) -> (fit: Result<(), Error>)
    ensures
        match misfit(mask@, bins@) {
            None => fit is Ok,
            Some(message) => fit matches Err(error) && error@ == Fault::Mismatch(message),
        },
{
    if mask.len() != bins.len() {
        let mut message = "mask has ".to_string();
        message.append(decimal_text(mask.len() as u64).as_str());
        message.append(" frames but the spectrogram has ");
        message.append(decimal_text(bins.len() as u64).as_str());
        return Err(Error::Mismatch(message));
    }
    let mut frame: usize = 0;
    assert(mask@.take(0) =~= Seq::<usize>::empty());
    while frame < mask.len()
        invariant
            frame <= mask@.len(),
            mask@.len() == bins@.len(),
            first_uneven(mask@.take(frame as int), bins@) is None,
        decreases mask@.len() - frame,
    {
        assert(mask@.take(frame + 1).drop_last() =~= mask@.take(frame as int));
        if mask[frame] != bins[frame] {
            proof {
                assert(first_uneven(mask@.take(frame + 1), bins@) == Some(frame as int));
                lemma_first_uneven_kept(mask@, bins@, frame + 1);
            }
            let mut message = "mask frame has ".to_string();
            message.append(decimal_text(mask[frame] as u64).as_str());
            message.append(" bins but the spectrogram has ");
            message.append(decimal_text(bins[frame] as u64).as_str());
            return Err(Error::Mismatch(message));
        }
        frame = frame + 1;
    }
    assert(mask@.take(frame as int) =~= mask@);
    Ok(())
}

/// The sizes a transform takes are the powers of two.
pub proof fn law_sizes_are_powers_of_two(number: nat)
    ensures
        is_power_of_two(number) <==> exists|count: nat| #[trigger] pow2(count) == number,
{
    if is_power_of_two(number) {
        let count = lemma_is_a_power(number);
        assert(pow2(count) == number);
    }
    if exists|count: nat| #[trigger] pow2(count) == number {
        lemma_powers_are(choose|count: nat| #[trigger] pow2(count) == number);
    }
}

proof fn lemma_is_a_power(number: nat) -> (count: nat)
    requires
        is_power_of_two(number),
    ensures
        pow2(count) == number,
    decreases number,
{
    lemma2_to64();
    if number < 2 {
        0nat
    } else {
        let less = lemma_is_a_power(number / 2);
        lemma_pow2_unfold(less + 1);
        less + 1
    }
}

proof fn lemma_powers_are(count: nat)
    ensures
        is_power_of_two(pow2(count)),
    decreases count,
{
    lemma2_to64();
    if count > 0 {
        lemma_powers_are((count - 1) as nat);
        lemma_pow2_unfold(count);
        lemma_pow2_pos((count - 1) as nat);
    }
}

/// A mask fits if and only if it has as many frames as the spectrogram and every
/// frame has as many bins.
pub proof fn law_masks_fit_frame_by_frame(mask: Seq<usize>, bins: Seq<usize>)
    ensures
        misfit(mask, bins) is None <==> mask == bins,
{
    if mask.len() == bins.len() {
        lemma_first_uneven(mask, bins);
        assert(first_uneven(mask, bins) is None <==> mask =~= bins);
    }
}

proof fn lemma_first_uneven(mask: Seq<usize>, bins: Seq<usize>)
    requires
        mask.len() <= bins.len(),
    ensures
        first_uneven(mask, bins) is None <==> forall|i: int|
            0 <= i < mask.len() ==> #[trigger] mask[i] == bins[i],
    decreases mask.len(),
{
    if mask.len() > 0 {
        let front = mask.drop_last();
        lemma_first_uneven(front, bins);
        if first_uneven(mask, bins) is None {
            assert forall|i: int| 0 <= i < mask.len() implies #[trigger] mask[i] == bins[i] by {
                if i < front.len() {
                    assert(front[i] == bins[i]);
                }
            }
        }
        if forall|i: int| 0 <= i < mask.len() ==> #[trigger] mask[i] == bins[i] {
            assert forall|i: int| 0 <= i < front.len() implies #[trigger] front[i] == bins[i] by {
                assert(mask[i] == bins[i]);
            }
            assert(mask[mask.len() - 1] == bins[mask.len() - 1]);
        }
    }
}

/// A signal is padded by a frame before it and behind it, and to a whole number
/// of hops, with less than a hop to spare.
pub proof fn law_padding_covers_the_signal(options: StftOptions, length: int)
    requires
        options.sized(),
        length >= 0,
    ensures
        length + 2 * options.fft_size <= options.padded(length) < length + 2 * options.fft_size
            + options.hop,
        (options.padded(length) - options.fft_size) % (options.hop as int) == 0,
{
    let hop = options.hop as int;
    let span = length + options.fft_size;
    let count = (span + hop - 1) / hop;
    lemma_fundamental_div_mod(span + hop - 1, hop);
    lemma_mod_multiples_basic(count, hop);
    assert(count * hop == hop * count) by (nonlinear_arith);
}

/// Nothing speaks against a transform if and only if its size is a power of two, its
/// hop is at least one and at most its size, and its window can be overlap-added.
pub proof fn law_transforms_are_sized_and_overlap(options: StftOptions, overlap_adds: bool)
    ensures
        options.objection(overlap_adds) is None <==> {
            &&& exists|count: nat| #[trigger] pow2(count) == options.fft_size
            &&& 1 <= options.hop <= options.fft_size
            &&& overlap_adds
        },
        options.objection(overlap_adds) is None ==> options.sized(),
{
    law_sizes_are_powers_of_two(options.fft_size as nat);
}

} // verus!
