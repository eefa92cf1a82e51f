//! FLAC reading and writing.
//!
//! Public-domain music is distributed compressed, and the archives that hold it
//! publish FLAC. A tool that can only open WAV can only open what someone
//! already converted for it.
//!
//! FLAC is the one compressed format that costs this crate nothing in
//! fidelity: it is lossless, so a decomposition of a FLAC file still
//! reconstructs to the same samples bit for bit, and the guarantee the rest of
//! the pipeline makes survives intact.

pub mod bits;
pub mod decode;
pub mod economy;
pub mod encode;
pub mod format;
pub mod lossless;
pub mod md5;
pub mod metadata;
pub mod round_trip;
pub mod seals;
pub mod trailing;
pub mod word;

use vstd::arithmetic::power2::{lemma2_to64, lemma2_to64_rest};
use vstd::prelude::*;

use self::bits::{
    bytes_bits, ended, lemma_bytes_bits_len, read_skip, Reader,
};
use self::decode::{
    field, frame, lemma_field, lemma_frame_advances, lift, lifted, planes, read_frame, FrameHeader,
};
use self::encode::{encode_fault, stream, stream_written, Predictor};
use self::md5::{frame_count, of_samples, samples_digest};
use super::{Audio, SampleFormat, Sound};
use crate::error::{format_error, Error, Fault};
use crate::text::{decimal, decimal_text};

verus! {

/// What a stream says about itself before any audio arrives.
#[derive(Clone, Debug, PartialEq, Eq)]
pub struct StreamInfo {
    /// Smallest block the stream uses, in samples per channel.
    pub min_block: u32,
    /// Largest block the stream uses, in samples per channel.
    pub max_block: u32,
    /// Sample rate in hertz.
    pub sample_rate: u32,
    /// Channel count.
    pub channels: u32,
    /// Bits per sample.
    pub bits: u32,
    /// Samples per channel in the whole stream, or zero when not known.
    pub total_samples: u64,
    /// MD5 of the samples as they were before encoding, or zeros when unset.
    pub md5: [u8; 16],
}

/// The contents of a [`StreamInfo`].
pub struct Info {
    pub min_block: u32,
    pub max_block: u32,
    pub sample_rate: u32,
    pub channels: u32,
    pub bits: u32,
    pub total_samples: u64,
    pub md5: Seq<u8>,
}

impl View for StreamInfo {
    type V = Info;

    open spec fn view(&self) -> Info {
        Info {
            min_block: self.min_block,
            max_block: self.max_block,
            sample_rate: self.sample_rate,
            channels: self.channels,
            bits: self.bits,
            total_samples: self.total_samples,
            md5: self.md5@,
        }
    }
}

/// Reading the body of a STREAMINFO block.
#[verifier::opaque]
pub open spec fn read_stream_info(stream: Seq<bool>, at: nat) -> Result<(Info, nat), Fault> {
    if at + 272 > stream.len() {
        Err(ended())
    } else {
        Ok(
            (
                Info {
                    min_block: field(stream, at, 0, 16) as u32,
                    max_block: field(stream, at, 16, 16) as u32,
                    sample_rate: field(stream, at, 80, 20) as u32,
                    channels: (field(stream, at, 100, 3) + 1) as u32,
                    bits: (field(stream, at, 103, 5) + 1) as u32,
                    total_samples: field(stream, at, 108, 36) as u64,
                    md5: Seq::new(16, |i: int| field(stream, at, (144 + 8 * i) as nat, 8) as u8),
                },
                at + 272,
            ),
        )
    }
}

/// What the metadata comes to once its last block has been read.
pub open spec fn concluded(info: Option<Info>, at: nat) -> Result<(Info, nat), Fault> {
    match info {
        None => Err(Fault::Format("FLAC stream has no STREAMINFO"@)),
        Some(info) => if info.channels == 0 || info.channels > 8 {
            Err(
                Fault::Format(
                    "FLAC stream declares "@ + decimal(info.channels as nat) + " channels"@,
                ),
            )
        } else if info.sample_rate == 0 {
            Err(Fault::Format("FLAC stream declares a sample rate of zero"@))
        } else {
            Ok((info, at))
        },
    }
}

/// Reading the metadata block at `at`, given what came before it: whether it is
/// the last, and what is known behind it.
pub open spec fn read_metadata_block(stream: Seq<bool>, at: nat, info: Option<Info>) -> Result<
    ((bool, Option<Info>), nat),
    Fault,
> {
    if at + 32 > stream.len() {
        Err(ended())
    } else {
        let last = field(stream, at, 0, 1) == 1;
        let kind = field(stream, at, 1, 7);
        let length = field(stream, at, 8, 24);
        if kind == 0 {
            if info is Some {
                Err(Fault::Format("FLAC stream declares STREAMINFO twice"@))
            } else if length != 34 {
                Err(
                    Fault::Format(
                        "FLAC STREAMINFO is "@ + decimal(length) + " bytes rather than 34"@,
                    ),
                )
            } else {
                match read_stream_info(stream, at + 32) {
                    Err(fault) => Err(fault),
                    Ok((found, next)) => Ok(((last, Some(found)), next)),
                }
            }
        } else {
            match read_skip(stream.len() / 8, at + 32, length) {
                Err(fault) => Err(fault),
                Ok(next) => Ok(((last, info), next)),
            }
        }
    }
}

/// A metadata block takes room in the stream.
pub proof fn lemma_metadata_advances(stream: Seq<bool>, at: nat, info: Option<Info>)
    ensures
        read_metadata_block(stream, at, info) matches Ok((_, next)) ==> at < next && next
            <= stream.len(),
{
    reveal(read_stream_info);
}

/// Reading every metadata block from `at` on.
pub open spec fn read_metadata(stream: Seq<bool>, at: nat, info: Option<Info>) -> Result<
    (Info, nat),
    Fault,
>
    decreases stream.len() - at,
{
    match read_metadata_block(stream, at, info) {
        Err(fault) => Err(fault),
        Ok(((last, found), next)) => {
            proof {
                lemma_metadata_advances(stream, at, info);
            }
            if last {
                concluded(found, next)
            } else {
                read_metadata(stream, next, found)
            }
        },
    }
}

/// Whether another frame is expected, and present.
pub open spec fn expects_more(bytes: Seq<u8>, at: nat, info: Info, decoded: nat) -> bool {
    let start = (at / 8) as int;
    if info.total_samples > 0 {
        decoded < info.total_samples
    } else {
        // Without a declared length the stream simply ends. Anything left that
        // is too short to hold a frame, or that does not open with a sync code,
        // is trailing metadata rather than audio.
        bytes.len() - start >= 6 && bytes[start] == 0xFF && bytes[start + 1] & 0xFC == 0xF8
    }
}

/// What a frame contradicts of the stream it stands in, if anything.
pub open spec fn frame_fault(header: FrameHeader, channels: nat, info: Info) -> Option<Fault> {
    if channels != info.channels {
        Some(
            Fault::Format(
                "FLAC frame has "@ + decimal(channels) + " channels where the stream declared "@
                    + decimal(info.channels as nat),
            ),
        )
    } else if header.sample_rate != info.sample_rate {
        Some(
            Fault::Format(
                "FLAC frame runs at "@ + decimal(header.sample_rate as nat)
                    + " Hz where the stream declared "@ + decimal(info.sample_rate as nat),
            ),
        )
    } else if header.bits != info.bits {
        Some(
            Fault::Format(
                "FLAC frame stores "@ + decimal(header.bits as nat)
                    + " bits where the stream declared "@ + decimal(info.bits as nat),
            ),
        )
    } else {
        None
    }
}

/// Channels continued by a block.
pub open spec fn joined(channels: Seq<Seq<i64>>, block: Seq<Seq<i64>>) -> Seq<Seq<i64>> {
    Seq::new(channels.len(), |i: int| channels[i] + block[i])
}

/// Reading every frame from `at` on behind `channels`.
pub open spec fn read_frames(bytes: Seq<u8>, at: nat, info: Info, channels: Seq<Seq<i64>>) -> Result<
    Seq<Seq<i64>>,
    Fault,
>
    decreases 8 * bytes.len() - at,
    when at <= 8 * bytes.len()
{
    if !expects_more(bytes, at, info, frame_count(channels)) {
        Ok(channels)
    } else {
        match read_frame(bytes, at, info) {
            Err(fault) => Err(fault),
            Ok(((header, block), next)) => {
                proof {
                    lemma_frame_advances(bytes, at, info);
                }
                match frame_fault(header, block.len(), info) {
                    Some(fault) => Err(fault),
                    None => read_frames(bytes, next, info, joined(channels, block)),
                }
            },
        }
    }
}

/// The integer format that holds a depth exactly.
pub open spec fn storage_format(bits: nat) -> Option<SampleFormat> {
    if bits <= 8 {
        Some(SampleFormat::PcmU8)
    } else if bits <= 16 {
        Some(SampleFormat::PcmI16)
    } else if bits <= 24 {
        Some(SampleFormat::PcmI24)
    } else if bits <= 32 {
        Some(SampleFormat::PcmI32)
    } else {
        None
    }
}

/// What is wrong with the samples as a whole, if anything.
pub open spec fn samples_fault(info: Info, channels: Seq<Seq<i64>>) -> Option<Fault> {
    if info.total_samples > 0 && frame_count(channels) != info.total_samples {
        Some(
            Fault::Format(
                "FLAC stream declared "@ + decimal(info.total_samples as nat)
                    + " samples but carries "@ + decimal(frame_count(channels)),
            ),
        )
    } else if info.md5 != Seq::new(16, |i: int| 0u8) && samples_digest(channels, info.bits as nat)
        != info.md5 {
        Some(
            Fault::Format(
                "FLAC stream fails its MD5 check: the decoded audio is not what was encoded"@,
            ),
        )
    } else {
        None
    }
}

/// Every channel shifted up onto a wider grid.
pub open spec fn raised(channels: Seq<Seq<i64>>, shift: nat) -> Seq<Seq<i64>> {
    Seq::new(channels.len(), |i: int| lifted(channels[i], shift))
}

/// Reading the samples behind the metadata.
pub open spec fn read_samples(bytes: Seq<u8>, at: nat, info: Info) -> Result<Sound, Fault> {
    match storage_format(info.bits as nat) {
        None => Err(
            Fault::Unsupported(
                "FLAC stream stores "@ + decimal(info.bits as nat) + " bits per sample"@,
            ),
        ),
        Some(format) => match read_frames(
            bytes,
            at,
            info,
            Seq::new(info.channels as nat, |i: int| Seq::empty()),
        ) {
            Err(fault) => Err(fault),
            Ok(channels) => match samples_fault(info, channels) {
                Some(fault) => Err(fault),
                None => Ok(
                    Sound {
                        sample_rate: info.sample_rate,
                        format,
                        channels: raised(
                            channels,
                            (format.spec_bits() - info.bits as nat) as nat,
                        ),
                    },
                ),
            },
        },
    }
}

/// The audio a FLAC stream holds.
pub open spec fn decoded(bytes: Seq<u8>) -> Result<Sound, Fault> {
    let stream = bytes_bits(bytes);
    if stream.len() < 32 {
        Err(ended())
    } else if field(stream, 0, 0, 32) != 0x664C_6143 {
        Err(Fault::Format("not a FLAC stream: missing `fLaC` marker"@))
    } else {
        match read_metadata(stream, 32, None) {
            Err(fault) => Err(fault),
            Ok((info, at)) => read_samples(bytes, at, info),
        }
    }
}

/// Reads the body of a STREAMINFO block.
#[verifier::loop_isolation(false)]
fn stream_info(reader: &mut Reader) -> (result: Result<StreamInfo, Error>)
    requires
        old(reader).wf(),
    ensures
        final(reader).wf(),
        final(reader)@.bytes == old(reader)@.bytes,
        match read_stream_info(old(reader)@.stream(), old(reader)@.at) {
            Ok((info, next)) => result matches Ok(found) && found@ == info && final(reader)@.at == next,
            Err(fault) => result matches Err(error) && error@ == fault,
        },
{
    let ghost stream = reader@.stream();
    let ghost at = reader@.at;
    proof {
        reveal(read_stream_info);
        lemma2_to64();
        lemma2_to64_rest();
        if at + 272 <= stream.len() {
            lemma_field(stream, at, 0, 16);
            lemma_field(stream, at, 16, 16);
            lemma_field(stream, at, 80, 20);
            lemma_field(stream, at, 100, 3);
            lemma_field(stream, at, 103, 5);
            lemma_field(stream, at, 108, 36);
        }
    }
    let min_block: u64 = match reader.unsigned(16) {
        Ok(value) => value,
        Err(error) => return Err(error),
    };
    let max_block: u64 = match reader.unsigned(16) {
        Ok(value) => value,
        Err(error) => return Err(error),
    };
    match reader.unsigned(24) {
        Ok(_) => {},
        Err(error) => return Err(error),
    }
    match reader.unsigned(24) {
        Ok(_) => {},
        Err(error) => return Err(error),
    }
    let sample_rate: u64 = match reader.unsigned(20) {
        Ok(value) => value,
        Err(error) => return Err(error),
    };
    let channels: u64 = match reader.unsigned(3) {
        Ok(value) => value,
        Err(error) => return Err(error),
    };
    let bits: u64 = match reader.unsigned(5) {
        Ok(value) => value,
        Err(error) => return Err(error),
    };
    let total_samples: u64 = match reader.unsigned(36) {
        Ok(value) => value,
        Err(error) => return Err(error),
    };
    let mut md5: [u8; 16] = [0u8; 16];
    let mut index: usize = 0;
    while index < 16
        invariant
            index <= 16,
            reader.wf(),
            reader@.bytes == old(reader)@.bytes,
            reader@.at == at + 144 + 8 * index,
            reader@.at <= stream.len(),
            forall|i: int|
                0 <= i < index ==> md5@[i] == field(stream, at, (144 + 8 * i) as nat, 8) as u8,
        decreases 16 - index,
    {
        let byte: u64 = match reader.unsigned(8) {
            Ok(byte) => byte,
            Err(error) => return Err(error),
        };
        proof {
            lemma_field(stream, at, (144 + 8 * index) as nat, 8);
        }
        md5[index] = byte as u8;
        index = index + 1;
    }
    assert(md5@ =~= Seq::new(16, |i: int| field(stream, at, (144 + 8 * i) as nat, 8) as u8));
    proof {
        lemma_field(stream, at, 0, 16);
        lemma_field(stream, at, 16, 16);
        lemma_field(stream, at, 80, 20);
        lemma_field(stream, at, 100, 3);
        lemma_field(stream, at, 103, 5);
    }
    Ok(
        StreamInfo {
            min_block: min_block as u32,
            max_block: max_block as u32,
            sample_rate: sample_rate as u32,
            channels: channels as u32 + 1,
            bits: bits as u32 + 1,
            total_samples,
            md5,
        },
    )
}

/// The contents of a STREAMINFO block, if one has been read.
pub open spec fn known(info: Option<StreamInfo>) -> Option<Info> {
    match info {
        Some(info) => Some(info@),
        None => None,
    }
}

/// Reads one metadata block, given what came before it.
fn metadata_block(reader: &mut Reader, info: Option<StreamInfo>) -> (result: Result<
    (bool, Option<StreamInfo>),
    Error,
>)
    requires
        old(reader).wf(),
    ensures
        final(reader).wf(),
        final(reader)@.bytes == old(reader)@.bytes,
        match read_metadata_block(old(reader)@.stream(), old(reader)@.at, known(info)) {
            Ok(((last, found), next)) => result matches Ok((end, read)) && end == last && known(read)
                == found && final(reader)@.at == next,
            Err(fault) => result matches Err(error) && error@ == fault,
        },
{
    let ghost stream = reader@.stream();
    let ghost at = reader@.at;
    proof {
        lemma_bytes_bits_len(reader@.bytes);
        lemma2_to64();
        if at + 32 <= stream.len() {
            lemma_field(stream, at, 0, 1);
            lemma_field(stream, at, 1, 7);
            lemma_field(stream, at, 8, 24);
        }
    }
    let last: u32 = match reader.bit() {
        Ok(last) => last,
        Err(error) => return Err(error),
    };
    let kind: u64 = match reader.unsigned(7) {
        Ok(kind) => kind,
        Err(error) => return Err(error),
    };
    let length: u64 = match reader.unsigned(24) {
        Ok(length) => length,
        Err(error) => return Err(error),
    };
    if kind == 0 {
        if info.is_some() {
            return Err(format_error("FLAC stream declares STREAMINFO twice"));
        }
        if length != 34 {
            let mut message = "FLAC STREAMINFO is ".to_string();
            message.append(decimal_text(length).as_str());
            message.append(" bytes rather than 34");
            return Err(Error::Format(message));
        }
        match stream_info(reader) {
            Ok(found) => Ok((last == 1, Some(found))),
            Err(error) => Err(error),
        }
    } else {
        // Seek tables, tags, cue sheets and pictures describe the stream but
        // not its samples, so nothing here needs them.
        match reader.skip_bytes(length as usize) {
            Ok(_) => Ok((last == 1, info)),
            Err(error) => Err(error),
        }
    }
}

/// Reads every metadata block, returning the STREAMINFO all streams open with.
fn metadata(reader: &mut Reader) -> (result: Result<StreamInfo, Error>)
    requires
        old(reader).wf(),
    ensures
        final(reader).wf(),
        final(reader)@.bytes == old(reader)@.bytes,
        match read_metadata(old(reader)@.stream(), old(reader)@.at, None) {
            Ok((info, next)) => result matches Ok(found) && found@ == info && final(reader)@.at == next,
            Err(fault) => result matches Err(error) && error@ == fault,
        },
{
    let ghost stream = reader@.stream();
    let ghost goal = read_metadata(stream, reader@.at, None);
    let mut info: Option<StreamInfo> = None;
    let mut more: bool = true;
    proof {
        lemma_bytes_bits_len(reader@.bytes);
    }
    while more
        invariant
            reader.wf(),
            reader@.bytes == old(reader)@.bytes,
            stream == reader@.stream(),
            stream.len() == 8 * reader@.bytes.len(),
            goal == read_metadata(old(reader)@.stream(), old(reader)@.at, None),
            goal == if more {
                read_metadata(stream, reader@.at, known(info))
            } else {
                concluded(known(info), reader@.at)
            },
        decreases stream.len() - reader@.at,
    {
        proof {
            lemma_metadata_advances(stream, reader@.at, known(info));
        }
        match metadata_block(reader, info) {
            Ok((last, found)) => {
                info = found;
                more = !last;
            },
            Err(error) => return Err(error),
        }
    }
    match info {
        None => Err(format_error("FLAC stream has no STREAMINFO")),
        Some(info) => {
            if info.channels == 0 || info.channels > 8 {
                let mut message = "FLAC stream declares ".to_string();
                message.append(decimal_text(info.channels as u64).as_str());
                message.append(" channels");
                return Err(Error::Format(message));
            }
            if info.sample_rate == 0 {
                return Err(format_error("FLAC stream declares a sample rate of zero"));
            }
            Ok(info)
        },
    }
}

/// Whether another frame is expected, and present.
fn more_frames(reader: &Reader, info: &StreamInfo, decoded: usize) -> (more: bool)
    requires
        reader.wf(),
    ensures
        more == expects_more(reader@.bytes, reader@.at, info@, decoded as nat),
{
    if info.total_samples > 0 {
        return (decoded as u64) < info.total_samples;
    }
    let rest = reader.rest();
    rest.len() >= 6 && rest[0] == 0xFF && rest[1] & 0xFC == 0xF8
}

/// Checks the decoded samples against the digest the stream carries.
///
/// A stream may leave the digest zeroed, which means only that nothing can be
/// checked.
fn verify_md5(info: &StreamInfo, codes: &Vec<Vec<i64>>) -> (result: Result<(), Error>)
    requires
        info.bits <= 64,
        forall|i: int| 0 <= i < codes@.len() ==> (#[trigger] codes@[i])@.len() >= codes@[0]@.len(),
    ensures
        if info@.md5 != Seq::new(16, |i: int| 0u8) && samples_digest(
            planes(codes@),
            info.bits as nat,
        ) != info@.md5 {
            result matches Err(error) && error@ == Fault::Format(
                "FLAC stream fails its MD5 check: the decoded audio is not what was encoded"@,
            )
        } else {
            result is Ok
        },
{
    let zeros: [u8; 16] = [0u8; 16];
    assert(zeros@ =~= Seq::new(16, |i: int| 0u8));
    if same_digest(&info.md5, &zeros) {
        return Ok(());
    }
    let digest: [u8; 16] = of_samples(codes, info.bits);
    if !same_digest(&digest, &info.md5) {
        return Err(
            format_error(
                "FLAC stream fails its MD5 check: the decoded audio is not what was encoded",
            ),
        );
    }
    Ok(())
}

/// Whether two digests are the same.
fn same_digest(first: &[u8; 16], second: &[u8; 16]) -> (equal: bool)
    ensures
        equal == (first@ == second@),
{
    let mut index: usize = 0;
    while index < 16
        invariant
            index <= 16,
            forall|i: int| 0 <= i < index ==> first@[i] == second@[i],
        decreases 16 - index,
    {
        if first[index] != second[index] {
            assert(first@[index as int] != second@[index as int]);
            return false;
        }
        index = index + 1;
    }
    assert(first@ =~= second@);
    true
}

/// The sample format that holds `bits` exactly, and the shift onto its grid.
///
/// FLAC counts from the top of the sample, so a 20-bit code is the high 20 bits
/// of a 24-bit one; shifting rather than scaling keeps that exact.
fn storage(bits: u32) -> (result: Result<(SampleFormat, u32), Error>)
    ensures
        match storage_format(bits as nat) {
            Some(format) => result matches Ok((found, shift)) && found == format && shift
                == format.spec_bits() - bits,
            None => result matches Err(error) && error@ == Fault::Unsupported(
                "FLAC stream stores "@ + decimal(bits as nat) + " bits per sample"@,
            ),
        },
{
    if bits <= 8 {
        Ok((SampleFormat::PcmU8, 8 - bits))
    } else if bits <= 16 {
        Ok((SampleFormat::PcmI16, 16 - bits))
    } else if bits <= 24 {
        Ok((SampleFormat::PcmI24, 24 - bits))
    } else if bits <= 32 {
        Ok((SampleFormat::PcmI32, 32 - bits))
    } else {
        let mut message = "FLAC stream stores ".to_string();
        message.append(decimal_text(bits as u64).as_str());
        message.append(" bits per sample");
        Err(Error::Unsupported(message))
    }
}

/// Checks a frame against the stream it stands in.
fn check_frame(header: &FrameHeader, channels: usize, info: &StreamInfo) -> (result: Result<(), Error>)
    ensures
        match frame_fault(*header, channels as nat, info@) {
            Some(fault) => result matches Err(error) && error@ == fault,
            None => result is Ok,
        },
{
    if channels as u64 != info.channels as u64 {
        let mut message = "FLAC frame has ".to_string();
        message.append(decimal_text(channels as u64).as_str());
        message.append(" channels where the stream declared ");
        message.append(decimal_text(info.channels as u64).as_str());
        return Err(Error::Format(message));
    }
    if header.sample_rate != info.sample_rate {
        let mut message = "FLAC frame runs at ".to_string();
        message.append(decimal_text(header.sample_rate as u64).as_str());
        message.append(" Hz where the stream declared ");
        message.append(decimal_text(info.sample_rate as u64).as_str());
        return Err(Error::Format(message));
    }
    if header.bits != info.bits {
        let mut message = "FLAC frame stores ".to_string();
        message.append(decimal_text(header.bits as u64).as_str());
        message.append(" bits where the stream declared ");
        message.append(decimal_text(info.bits as u64).as_str());
        return Err(Error::Format(message));
    }
    Ok(())
}

/// Channels that are all of one length.
pub open spec fn level(channels: Seq<Seq<i64>>) -> bool {
    forall|i: int|
        0 <= i < channels.len() ==> (#[trigger] channels[i]).len() == frame_count(channels)
}

/// Continues every channel by its part of a block.
#[verifier::loop_isolation(false)]
fn extend(channels: &mut Vec<Vec<i64>>, block: &Vec<Vec<i64>>)
    requires
        old(channels)@.len() == block@.len(),
    ensures
        planes(final(channels)@) == joined(planes(old(channels)@), planes(block@)),
{
    let mut index: usize = 0;
    while index < block.len()
        invariant
            index <= block@.len(),
            channels@.len() == block@.len(),
            forall|i: int|
                0 <= i < index ==> (#[trigger] channels@[i])@ == old(channels)@[i]@ + block@[i]@,
            forall|i: int|
                index <= i < block@.len() ==> #[trigger] channels@[i] == old(channels)@[i],
        decreases block@.len() - index,
    {
        channels[index].extend_from_slice(block[index].as_slice());
        assert(channels@[index as int]@ =~= old(channels)@[index as int]@ + block@[index as int]@);
        index = index + 1;
    }
    assert(planes(channels@) =~= joined(planes(old(channels)@), planes(block@)));
}

/// Joining level channels to a level block keeps them level.
proof fn lemma_joined_level(channels: Seq<Seq<i64>>, block: Seq<Seq<i64>>, length: nat)
    requires
        level(channels),
        channels.len() == block.len(),
        forall|i: int| 0 <= i < block.len() ==> (#[trigger] block[i]).len() == length,
    ensures
        level(joined(channels, block)),
        channels.len() > 0 ==> frame_count(joined(channels, block)) == frame_count(channels) + length,
{
    if channels.len() > 0 {
        assert(block[0].len() == length);
        assert forall|i: int| 0 <= i < channels.len() implies (#[trigger] joined(
            channels,
            block,
        )[i]).len() == frame_count(channels) + length by {
            assert(channels[i].len() == frame_count(channels));
            assert(block[i].len() == length);
        }
    }
}

/// Reads every frame.
#[verifier::loop_isolation(false)]
fn frames(reader: &mut Reader, info: &StreamInfo) -> (result: Result<Vec<Vec<i64>>, Error>)
    requires
        old(reader).wf(),
        1 <= info.channels <= 8,
    ensures
        final(reader).wf(),
        match read_frames(
            old(reader)@.bytes,
            old(reader)@.at,
            info@,
            Seq::new(info.channels as nat, |i: int| Seq::empty()),
        ) {
            Ok(channels) => result matches Ok(found) && planes(found@) == channels && level(channels)
                && channels.len() == info.channels,
            Err(fault) => result matches Err(error) && error@ == fault,
        },
{
    let ghost bytes = reader@.bytes;
    let ghost none = Seq::new(info.channels as nat, |i: int| Seq::<i64>::empty());
    let mut channels: Vec<Vec<i64>> = Vec::new();
    while channels.len() < info.channels as usize
        invariant
            channels@.len() <= info.channels,
            forall|i: int| 0 <= i < channels@.len() ==> (#[trigger] channels@[i])@.len() == 0,
        decreases info.channels - channels@.len(),
    {
        channels.push(Vec::new());
    }
    proof {
        assert forall|i: int| 0 <= i < none.len() implies planes(channels@)[i] == none[i] by {
            assert(planes(channels@)[i] =~= none[i]);
        }
        assert(planes(channels@) =~= none);
    }
    let ghost goal = read_frames(bytes, reader@.at, info@, none);
    while more_frames(reader, info, channels[0].len())
        invariant
            reader.wf(),
            reader@.bytes == bytes,
            channels@.len() == info.channels,
            level(planes(channels@)),
            goal == read_frames(bytes, reader@.at, info@, planes(channels@)),
        decreases 8 * bytes.len() - reader@.at,
    {
        proof {
            lemma_frame_advances(bytes, reader@.at, info@);
            assert(planes(channels@)[0] == channels@[0]@);
        }
        let (header, block) = match frame(reader, info) {
            Ok(read) => read,
            Err(error) => return Err(error),
        };
        match check_frame(&header, block.len(), info) {
            Ok(_) => {},
            Err(error) => return Err(error),
        }
        proof {
            lemma_joined_level(planes(channels@), planes(block@), header.block_size as nat);
        }
        extend(&mut channels, &block);
    }
    assert(planes(channels@)[0] == channels@[0]@);
    Ok(channels)
}

/// Decodes a FLAC stream held in memory.
#[verifier::loop_isolation(false)]
pub fn decode(bytes: &[u8]) -> (result: Result<Audio, Error>)
    requires
        8 * bytes@.len() <= usize::MAX,
    ensures
        match decoded(bytes@) {
            Ok(sound) => result matches Ok(audio) && audio.wf() && audio@ == sound,
            Err(fault) => result matches Err(error) && error@ == fault,
        },
{
    let ghost stream = bytes_bits(bytes@);
    let mut reader = Reader::new(bytes);
    proof {
        lemma_bytes_bits_len(bytes@);
    }
    let marker: u64 = match reader.unsigned(32) {
        Ok(marker) => marker,
        Err(error) => return Err(error),
    };
    if marker != 0x664C_6143 {
        return Err(format_error("not a FLAC stream: missing `fLaC` marker"));
    }
    let info = match metadata(&mut reader) {
        Ok(info) => info,
        Err(error) => return Err(error),
    };
    proof {
        lemma_metadata_sound(stream, 32, None);
    }
    let (format, shift): (SampleFormat, u32) = match storage(info.bits) {
        Ok(storage) => storage,
        Err(error) => return Err(error),
    };
    let channels = match frames(&mut reader, &info) {
        Ok(channels) => channels,
        Err(error) => return Err(error),
    };
    let ghost plain = planes(channels@);
    proof {
        assert forall|i: int| 0 <= i < channels@.len() implies (#[trigger] channels@[i])@.len()
            == frame_count(plain) by {
            assert(plain[i] == channels@[i]@);
        }
    }
    if info.total_samples > 0 {
        let carried: u64 = channels[0].len() as u64;
        if carried != info.total_samples {
            let mut message = "FLAC stream declared ".to_string();
            message.append(decimal_text(info.total_samples).as_str());
            message.append(" samples but carries ");
            message.append(decimal_text(carried).as_str());
            return Err(Error::Format(message));
        }
    }
    // The digest covers the samples as the stream stores them, so it has to be
    // checked before they are lifted onto a wider grid.
    match verify_md5(&info, &channels) {
        Ok(_) => {},
        Err(error) => return Err(error),
    }
    let lifted_channels = raise(channels, shift);
    proof {
        assert forall|i: int| 0 <= i < plain.len() implies (#[trigger] raised(plain, shift as nat)[i]).len()
            == frame_count(plain) by {
            assert(plain[i].len() == frame_count(plain));
        }
    }
    Audio::from_codes(info.sample_rate, format, lifted_channels)
}

/// Encodes `audio` as a FLAC stream in memory. `fit` is asked for predictors
/// fitted to each block of samples; what it answers decides how small the stream
/// gets, never what it holds.
pub fn encode<F: Fn(&Vec<i64>) -> Vec<Predictor>>(audio: &Audio, fit: &F) -> (result: Result<
    Vec<u8>,
    Error,
>)
    requires
        audio.wf(),
        forall|low: &Vec<i64>| call_requires(*fit, (low,)),
    ensures
        match encode_fault(audio@) {
            Some(fault) => result matches Err(error) && error@ == fault,
            None => result matches Ok(bytes) && stream_written(*fit, audio@, bytes@),
        },
{
    stream(audio, fit)
}

/// Metadata that was read declares one to eight channels and a rate, and leaves
/// room behind it.
proof fn lemma_metadata_sound(stream: Seq<bool>, at: nat, info: Option<Info>)
    ensures
        read_metadata(stream, at, info) matches Ok((found, next)) ==> 1 <= found.channels <= 8
            && found.sample_rate > 0 && next <= stream.len(),
    decreases stream.len() - at,
{
    lemma_metadata_advances(stream, at, info);
    if let Ok(((last, found), next)) = read_metadata_block(stream, at, info) {
        if !last {
            lemma_metadata_sound(stream, next, found);
        }
    }
}

/// Shifts every channel up onto a wider grid.
#[verifier::loop_isolation(false)]
fn raise(channels: Vec<Vec<i64>>, shift: u32) -> (higher: Vec<Vec<i64>>)
    requires
        shift < 64,
    ensures
        planes(higher@) == raised(planes(channels@), shift as nat),
{
    let mut higher: Vec<Vec<i64>> = Vec::new();
    while higher.len() < channels.len()
        invariant
            higher@.len() <= channels@.len(),
            forall|i: int|
                0 <= i < higher@.len() ==> (#[trigger] higher@[i])@ == lifted(
                    channels@[i]@,
                    shift as nat,
                ),
        decreases channels@.len() - higher@.len(),
    {
        let plane = channels[higher.len()].clone();
        assert(plane@ =~= channels@[higher@.len() as int]@);
        higher.push(lift(plane, shift));
    }
    assert(planes(higher@) =~= raised(planes(channels@), shift as nat));
    higher
}

} // verus!
