//! Whatever stands behind the frames of a stream.
//!
//! A stream that says how many samples it holds is read up to the last of them.
//! What a file carries behind that, such as a tag, has no say in the audio.

use vstd::arithmetic::power2::pow2;
use vstd::prelude::*;

use crate::audio::layout::high_first;
use crate::error::Fault;

use super::bits::{
    aligned, bytes_bits, lemma_bytes_bits_concat, lemma_bytes_bits_len, read_signed, read_unary,
    read_unsigned, read_utf8_number, read_utf8_tail, utf8_followers, zeros_at,
};
use super::decode::{
    escape, field, lemma_frame_advances, parameter_bits, partition_count, read_block,
    read_block_size, read_body, read_codes, read_coefficients, read_fixed, read_frame, read_head,
    read_header, read_lpc, read_partition, read_partitions, read_residual, read_rice, read_run,
    read_sample_rate, read_sizes, read_subframe, subframe_bits, unfolded, FrameHeader, HeaderCodes,
};
use super::format::{lemma_described, lemma_described_room, lemma_description};
use super::md5::frame_count;
use super::metadata::lemma_block_header;
use super::{
    decoded, joined, lemma_metadata_advances, read_frames, read_metadata, read_metadata_block,
    read_stream_info, Info,
};

verus! {

/// Whether a stream begins with another.
spec fn extends(old: Seq<bool>, new: Seq<bool>) -> bool {
    &&& new.len() >= old.len()
    &&& forall|i: int| 0 <= i < old.len() ==> new[i] == #[trigger] old[i]
}

/// Whether what one reading came to, another came to as well.
spec fn kept<T>(old: Result<(T, nat), Fault>, new: Result<(T, nat), Fault>) -> bool {
    old is Ok ==> new == old
}

proof fn lemma_part(old: Seq<bool>, new: Seq<bool>, at: nat, count: nat)
    requires
        extends(old, new),
        at + count <= old.len(),
    ensures
        new.subrange(at as int, (at + count) as int) == old.subrange(
            at as int,
            (at + count) as int,
        ),
{
    assert(new.subrange(at as int, (at + count) as int) =~= old.subrange(
        at as int,
        (at + count) as int,
    ));
}

proof fn lemma_unsigned(old: Seq<bool>, new: Seq<bool>, at: nat, count: nat)
    requires
        extends(old, new),
    ensures
        kept(read_unsigned(old, at, count), read_unsigned(new, at, count)),
        kept(read_signed(old, at, count), read_signed(new, at, count)),
{
    if at + count <= old.len() {
        lemma_part(old, new, at, count);
    }
}

proof fn lemma_zeros(old: Seq<bool>, new: Seq<bool>, at: nat)
    requires
        extends(old, new),
        at + zeros_at(old, at) < old.len(),
    ensures
        zeros_at(new, at) == zeros_at(old, at),
    decreases old.len() - at,
{
    if at < old.len() {
        assert(new[at as int] == old[at as int]);
        if !old[at as int] {
            lemma_zeros(old, new, at + 1);
        }
    }
}

proof fn lemma_unary(old: Seq<bool>, new: Seq<bool>, at: nat)
    requires
        extends(old, new),
    ensures
        kept(read_unary(old, at), read_unary(new, at)),
{
    if at + zeros_at(old, at) < old.len() {
        lemma_zeros(old, new, at);
    }
}

proof fn lemma_utf8_tail(
    old: Seq<bool>,
    new: Seq<bool>,
    at: nat,
    count: nat,
    value: nat,
)
    requires
        extends(old, new),
    ensures
        kept(
            read_utf8_tail(old, at, count, value),
            read_utf8_tail(new, at, count, value)),
    decreases count,
{
    if count > 0 {
        lemma_unsigned(old, new, at, 8);
        if let Ok((byte, next)) = read_unsigned(old, at, 8) {
            lemma_utf8_tail(
                old,
                new,
                next,
                (count - 1) as nat,
                value * 64 + byte % 64,
            );
        }
    }
}

proof fn lemma_utf8(old: Seq<bool>, new: Seq<bool>, at: nat)
    requires
        extends(old, new),
    ensures
        kept(read_utf8_number(old, at), read_utf8_number(new, at)),
{
    lemma_unsigned(old, new, at, 8);
    if let Ok((first, next)) = read_unsigned(old, at, 8) {
        if let Some(count) = utf8_followers(first) {
            if count > 0 {
                lemma_utf8_tail(
                    old,
                    new,
                    next,
                    count,
                    first % pow2((6 - count) as nat),
                );
            }
        }
    }
}

proof fn lemma_run(
    old: Seq<bool>,
    new: Seq<bool>,
    at: nat,
    count: nat,
    bits: nat,
    samples: Seq<i64>,
)
    requires
        extends(old, new),
    ensures
        kept(
            read_run(old, at, count, bits, samples),
            read_run(new, at, count, bits, samples)),
    decreases count,
{
    if count > 0 {
        lemma_unsigned(old, new, at, bits);
        if let Ok((value, next)) = read_signed(old, at, bits) {
            lemma_run(
                old,
                new,
                next,
                (count - 1) as nat,
                bits,
                samples.push(value as i64),
            );
        }
    }
}

proof fn lemma_rice(
    old: Seq<bool>,
    new: Seq<bool>,
    at: nat,
    count: nat,
    parameter: nat,
    samples: Seq<i64>,
)
    requires
        extends(old, new),
    ensures
        kept(
            read_rice(old, at, count, parameter, samples),
            read_rice(new, at, count, parameter, samples)),
    decreases count,
{
    if count > 0 {
        lemma_unary(old, new, at);
        if let Ok((quotient, middle)) = read_unary(old, at) {
            lemma_unsigned(old, new, middle, parameter);
            if let Ok((remainder, next)) = read_unsigned(old, middle, parameter) {
                lemma_rice(
                    old,
                    new,
                    next,
                    (count - 1) as nat,
                    parameter,
                    samples.push(unfolded(quotient * pow2(parameter) + remainder) as i64),
                );
            }
        }
    }
}

proof fn lemma_partition(
    old: Seq<bool>,
    new: Seq<bool>,
    at: nat,
    count: nat,
    wide: bool,
    samples: Seq<i64>,
)
    requires
        extends(old, new),
    ensures
        kept(
            read_partition(old, at, count, wide, samples),
            read_partition(new, at, count, wide, samples)),
{
    lemma_unsigned(old, new, at, parameter_bits(wide));
    if let Ok((parameter, next)) = read_unsigned(old, at, parameter_bits(wide)) {
        if parameter == escape(wide) {
            lemma_unsigned(old, new, next, 5);
            if let Ok((raw, body)) = read_unsigned(old, next, 5) {
                lemma_run(old, new, body, count, raw, samples);
            }
        } else {
            lemma_rice(old, new, next, count, parameter, samples);
        }
    }
}

proof fn lemma_partitions(
    old: Seq<bool>,
    new: Seq<bool>,
    at: nat,
    partition: nat,
    partitions: nat,
    per_partition: nat,
    order: nat,
    wide: bool,
    samples: Seq<i64>,
)
    requires
        extends(old, new),
    ensures
        kept(
            read_partitions(old, at, partition, partitions, per_partition, order, wide, samples),
            read_partitions(
                new,
                at,
                partition,
                partitions,
                per_partition,
                order,
                wide,
                samples,
            )),
    decreases partitions - partition,
{
    if partition < partitions {
        let count = partition_count(per_partition, order, partition);
        lemma_partition(old, new, at, count, wide, samples);
        if let Ok((more, next)) = read_partition(old, at, count, wide, samples) {
            lemma_partitions(
                old,
                new,
                next,
                partition + 1,
                partitions,
                per_partition,
                order,
                wide,
                more,
            );
        }
    }
}

proof fn lemma_residual(
    old: Seq<bool>,
    new: Seq<bool>,
    at: nat,
    block_size: nat,
    order: nat,
    samples: Seq<i64>,
)
    requires
        extends(old, new),
    ensures
        kept(
            read_residual(old, at, block_size, order, samples),
            read_residual(new, at, block_size, order, samples)),
{
    lemma_unsigned(old, new, at, 2);
    if let Ok((method, middle)) = read_unsigned(old, at, 2) {
        lemma_unsigned(old, new, middle, 4);
        if let Ok((partition_order, next)) = read_unsigned(old, middle, 4) {
            let partitions = pow2(partition_order);
            lemma_partitions(
                old,
                new,
                next,
                0,
                partitions,
                block_size / partitions,
                order,
                method == 1,
                samples,
            );
        }
    }
}

proof fn lemma_fixed(
    old: Seq<bool>,
    new: Seq<bool>,
    at: nat,
    block_size: nat,
    bits: nat,
    order: nat,
)
    requires
        extends(old, new),
    ensures
        kept(
            read_fixed(old, at, block_size, bits, order),
            read_fixed(new, at, block_size, bits, order)),
{
    lemma_run(old, new, at, order, bits, Seq::empty());
    if let Ok((warm, next)) = read_run(old, at, order, bits, Seq::empty()) {
        lemma_residual(old, new, next, block_size, order, warm);
    }
}

proof fn lemma_coefficients(
    old: Seq<bool>,
    new: Seq<bool>,
    at: nat,
    order: nat,
)
    requires
        extends(old, new),
    ensures
        kept(
            read_coefficients(old, at, order),
            read_coefficients(new, at, order)),
{
    lemma_unsigned(old, new, at, 4);
    if let Ok((precision, middle)) = read_unsigned(old, at, 4) {
        lemma_unsigned(old, new, middle, 5);
        if let Ok((shift, next)) = read_signed(old, middle, 5) {
            lemma_run(old, new, next, order, precision + 1, Seq::empty());
        }
    }
}

proof fn lemma_lpc(
    old: Seq<bool>,
    new: Seq<bool>,
    at: nat,
    block_size: nat,
    bits: nat,
    order: nat,
)
    requires
        extends(old, new),
    ensures
        kept(
            read_lpc(old, at, block_size, bits, order),
            read_lpc(new, at, block_size, bits, order)),
{
    lemma_run(old, new, at, order, bits, Seq::empty());
    if let Ok((warm, middle)) = read_run(old, at, order, bits, Seq::empty()) {
        lemma_coefficients(old, new, middle, order);
        if let Ok((rule, next)) = read_coefficients(old, middle, order) {
            lemma_residual(old, new, next, block_size, order, warm);
        }
    }
}

proof fn lemma_head(old: Seq<bool>, new: Seq<bool>, at: nat)
    requires
        extends(old, new),
    ensures
        kept(read_head(old, at), read_head(new, at)),
{
    lemma_unsigned(old, new, at, 1);
    lemma_unsigned(old, new, at + 1, 6);
    lemma_unsigned(old, new, at + 7, 1);
    lemma_unary(old, new, at + 8);
}

proof fn lemma_body(
    old: Seq<bool>,
    new: Seq<bool>,
    at: nat,
    kind: nat,
    block_size: nat,
    bits: nat,
)
    requires
        extends(old, new),
    ensures
        kept(
            read_body(old, at, kind, block_size, bits),
            read_body(new, at, kind, block_size, bits)),
{
    if kind == 0 {
        lemma_unsigned(old, new, at, bits);
    } else if kind == 1 {
        lemma_run(old, new, at, block_size, bits, Seq::empty());
    } else if 8 <= kind <= 12 {
        lemma_fixed(old, new, at, block_size, bits, (kind - 8) as nat);
    } else if 32 <= kind <= 63 {
        lemma_lpc(old, new, at, block_size, bits, (kind - 31) as nat);
    }
}

proof fn lemma_subframe(
    old: Seq<bool>,
    new: Seq<bool>,
    at: nat,
    block_size: nat,
    bits: nat,
)
    requires
        extends(old, new),
    ensures
        kept(
            read_subframe(old, at, block_size, bits),
            read_subframe(new, at, block_size, bits)),
{
    lemma_head(old, new, at);
    if let Ok(((kind, wasted), next)) = read_head(old, at) {
        if wasted < bits {
            lemma_body(old, new, next, kind, block_size, (bits - wasted) as nat);
        }
    }
}

proof fn lemma_block(
    old: Seq<bool>,
    new: Seq<bool>,
    at: nat,
    header: FrameHeader,
    block: Seq<Seq<i64>>,
)
    requires
        extends(old, new),
    ensures
        kept(
            read_block(old, at, header, block),
            read_block(new, at, header, block)),
    decreases header.channels.spec_count() - block.len(),
{
    if block.len() < header.channels.spec_count() {
        let bits = subframe_bits(header, block.len());
        lemma_subframe(old, new, at, header.block_size as nat, bits);
        if let Ok((samples, next)) = read_subframe(old, at, header.block_size as nat, bits) {
            lemma_block(old, new, next, header, block.push(samples));
        }
    }
}

proof fn lemma_field(
    old: Seq<bool>,
    new: Seq<bool>,
    at: nat,
    offset: nat,
    count: nat,
)
    requires
        extends(old, new),
        at + offset + count <= old.len(),
    ensures
        field(new, at, offset, count) == field(old, at, offset, count),
{
    lemma_part(old, new, at + offset, count);
}

proof fn lemma_codes(old: Seq<bool>, new: Seq<bool>, at: nat)
    requires
        extends(old, new),
    ensures
        read_codes(old, at) is Ok ==> at + 32 <= old.len() && read_codes(new, at) == read_codes(
            old,
            at,
        ),
{
    if at + 14 <= old.len() {
        lemma_field(old, new, at, 0, 14);
    }
    if at + 15 <= old.len() {
        lemma_field(old, new, at, 14, 1);
    }
    if at + 28 <= old.len() {
        lemma_field(old, new, at, 24, 4);
    }
    if at + 32 <= old.len() {
        lemma_field(old, new, at, 31, 1);
        lemma_field(old, new, at, 16, 4);
        lemma_field(old, new, at, 20, 4);
        lemma_field(old, new, at, 28, 3);
    }
}

proof fn lemma_sizes(
    old: Seq<bool>,
    new: Seq<bool>,
    at: nat,
    codes: HeaderCodes,
    declared: nat,
)
    requires
        extends(old, new),
    ensures
        kept(
            read_sizes(old, at, codes, declared),
            read_sizes(new, at, codes, declared)),
{
    lemma_utf8(old, new, at);
    if let Ok((_, middle)) = read_utf8_number(old, at) {
        lemma_unsigned(old, new, middle, 8);
        lemma_unsigned(old, new, middle, 16);
        assert(kept(
            read_block_size(old, middle, codes.block),
            read_block_size(new, middle, codes.block)));
        if let Ok((_, next)) = read_block_size(old, middle, codes.block) {
            lemma_unsigned(old, new, next, 8);
            lemma_unsigned(old, new, next, 16);
            assert(kept(
                read_sample_rate(old, next, codes.rate, declared),
                read_sample_rate(new, next, codes.rate, declared)));
        }
    }
}

proof fn lemma_extends(old: Seq<u8>, more: Seq<u8>)
    ensures
        extends(bytes_bits(old), bytes_bits(old + more)),
        bytes_bits(old).len() == 8 * old.len(),
        bytes_bits(old + more).len() == 8 * (old.len() + more.len()),
{
    lemma_bytes_bits_concat(old, more);
    lemma_bytes_bits_len(old);
    lemma_bytes_bits_len(more);
}

proof fn lemma_covered(old: Seq<u8>, more: Seq<u8>, start: nat, end: nat)
    requires
        start <= end <= old.len(),
    ensures
        (old + more).subrange(start as int, end as int) == old.subrange(start as int, end as int),
{
    assert((old + more).subrange(start as int, end as int) =~= old.subrange(
        start as int,
        end as int,
    ));
}

#[verifier::rlimit(40)]
proof fn lemma_header(old: Seq<u8>, more: Seq<u8>, at: nat, info: Info)
    ensures
        kept(read_header(old, at, info, at / 8), read_header(old + more, at, info, at / 8)),
        read_header(old, at, info, at / 8) matches Ok((_, next)) ==> at <= next,
{
    lemma_extends(old, more);
    let a = bytes_bits(old);
    let b = bytes_bits(old + more);
    lemma_codes(a, b, at);
    if let Ok(codes) = read_codes(a, at) {
        lemma_sizes(a, b, at + 32, codes, info.sample_rate as nat);
        if let Ok((_, middle)) = read_sizes(a, at + 32, codes, info.sample_rate as nat) {
            lemma_unsigned(a, b, middle, 8);
            lemma_sizes_go_on(a, at + 32, codes, info.sample_rate as nat);
            if let Ok((found, end)) = read_unsigned(a, middle, 8) {
                lemma_covered(old, more, at / 8, middle / 8);
                reveal(read_header);
            } else {
                reveal(read_header);
            }
        } else {
            reveal(read_header);
        }
    } else {
        reveal(read_header);
    }
}

proof fn lemma_sizes_go_on(stream: Seq<bool>, at: nat, codes: HeaderCodes, declared: nat)
    ensures
        read_sizes(stream, at, codes, declared) matches Ok((_, next)) ==> at <= next,
{
    if let Ok((first, next)) = read_unsigned(stream, at, 8) {
        if let Some(count) = utf8_followers(first) {
            if count > 0 {
                lemma_tail_goes_on(stream, next, count, first % pow2((6 - count) as nat));
            }
        }
    }
}

proof fn lemma_tail_goes_on(stream: Seq<bool>, at: nat, count: nat, value: nat)
    ensures
        read_utf8_tail(stream, at, count, value) matches Ok((_, next)) ==> at <= next,
    decreases count,
{
    if count > 0 {
        if let Ok((byte, next)) = read_unsigned(stream, at, 8) {
            lemma_tail_goes_on(stream, next, (count - 1) as nat, value * 64 + byte % 64);
        }
    }
}

#[verifier::rlimit(40)]
proof fn lemma_frame(old: Seq<u8>, more: Seq<u8>, at: nat, info: Info)
    requires
        at <= 8 * old.len(),
    ensures
        kept(read_frame(old, at, info), read_frame(old + more, at, info)),
{
    let a = bytes_bits(old);
    let b = bytes_bits(old + more);
    lemma_extends(old, more);
    lemma_header(old, more, at, info);
    if let Ok((header, middle)) = read_header(old, at, info, at / 8) {
        lemma_block(a, b, middle, header, Seq::empty());
        if let Ok((block, next)) = read_block(a, middle, header, Seq::empty()) {
            let end = aligned(next);
            lemma_unsigned(a, b, end, 16);
            if let Ok((found, last)) = read_unsigned(a, end, 16) {
                lemma_frame_order(old, at, info);
                lemma_covered(old, more, at / 8, end / 8);
            }
            reveal(read_frame);
        } else {
            reveal(read_frame);
        }
    } else {
        reveal(read_frame);
    }
}

/// The samples of a frame stand behind its header.
proof fn lemma_frame_order(bytes: Seq<u8>, at: nat, info: Info)
    requires
        at <= 8 * bytes.len(),
    ensures
        read_header(bytes, at, info, at / 8) matches Ok((header, middle)) ==> (read_block(
            bytes_bits(bytes),
            middle,
            header,
            Seq::empty(),
        ) matches Ok((_, next)) ==> at <= next),
{
    lemma_bytes_bits_len(bytes);
    super::decode::lemma_header_advances(bytes, at, info, at / 8);
    if let Ok((header, middle)) = read_header(bytes, at, info, at / 8) {
        super::decode::lemma_block_advances(bytes_bits(bytes), middle, header, Seq::empty());
    }
}

proof fn lemma_frames(
    old: Seq<u8>,
    more: Seq<u8>,
    at: nat,
    info: Info,
    channels: Seq<Seq<i64>>,
)
    requires
        at <= 8 * old.len(),
        info.total_samples > 0,
    ensures
        read_frames(old, at, info, channels) is Ok ==> read_frames(old + more, at, info, channels)
            == read_frames(old, at, info, channels),
    decreases 8 * old.len() - at,
{
    lemma_frame(old, more, at, info);
    lemma_frame_advances(old, at, info);
    lemma_frame_advances(old + more, at, info);
    if frame_count(channels) < info.total_samples {
        if let Ok(((header, block), next)) = read_frame(old, at, info) {
            lemma_frames(old, more, next, info, joined(channels, block));
        }
    }
}

proof fn lemma_stream_info(old: Seq<bool>, new: Seq<bool>, at: nat)
    requires
        extends(old, new),
    ensures
        kept(read_stream_info(old, at), read_stream_info(new, at)),
{
    reveal(read_stream_info);
    if at + 272 <= old.len() {
        lemma_field(old, new, at, 0, 16);
        lemma_field(old, new, at, 16, 16);
        lemma_field(old, new, at, 80, 20);
        lemma_field(old, new, at, 100, 3);
        lemma_field(old, new, at, 103, 5);
        lemma_field(old, new, at, 108, 36);
        let one = read_stream_info(old, at)->Ok_0.0.md5;
        let other = read_stream_info(new, at)->Ok_0.0.md5;
        assert forall|i: int| 0 <= i < 16 implies one[i] == other[i] by {
            lemma_field(old, new, at, (144 + 8 * i) as nat, 8);
        }
        assert(one =~= other);
    }
}

#[verifier::rlimit(40)]
proof fn lemma_metadata_block(old: Seq<bool>, new: Seq<bool>, at: nat, info: Option<Info>)
    requires
        extends(old, new),
    ensures
        kept(read_metadata_block(old, at, info), read_metadata_block(new, at, info)),
{
    if at + 32 <= old.len() {
        lemma_field(old, new, at, 0, 1);
        lemma_field(old, new, at, 1, 7);
        lemma_field(old, new, at, 8, 24);
        lemma_stream_info(old, new, at + 32);
        assert(old.len() / 8 <= new.len() / 8);
    }
}

proof fn lemma_metadata(old: Seq<bool>, new: Seq<bool>, at: nat, info: Option<Info>)
    requires
        extends(old, new),
    ensures
        kept(read_metadata(old, at, info), read_metadata(new, at, info)),
    decreases old.len() - at,
{
    lemma_metadata_block(old, new, at, info);
    lemma_metadata_advances(old, at, info);
    lemma_metadata_advances(new, at, info);
    if let Ok(((last, found), next)) = read_metadata_block(old, at, info) {
        if !last {
            lemma_metadata(old, new, next, found);
        }
    }
}

/// Bytes behind the frames of a stream that states how many frames it has do not
/// change what it decodes to.
pub proof fn law_bytes_behind_the_frames_do_not_matter(bytes: Seq<u8>, more: Seq<u8>)
    requires
        decoded(bytes) is Ok,
        bytes[4] % 128 == 0,
        0x1_0000_0000 * (bytes[21] % 16) + high_first(bytes, 22, 4) > 0,
    ensures
        decoded(bytes + more) == decoded(bytes),
{
    let a = bytes_bits(bytes);
    let b = bytes_bits(bytes + more);
    lemma_extends(bytes, more);
    lemma_field(a, b, 0, 0, 32);
    lemma_metadata(a, b, 32, None);
    let (info, at) = read_metadata(a, 32, None)->Ok_0;
    lemma_metadata_advances(a, 32, None);
    lemma_described_room(a, 32, None);
    lemma_block_header(bytes, 4);
    let ((last, known), next) = read_metadata_block(a, 32, None)->Ok_0;
    let stated = read_stream_info(a, 64)->Ok_0.0;
    assert(known == Some(stated));
    lemma_described(a, next, stated);
    assert(info == stated);
    assert(info.total_samples > 0) by {
        reveal(read_stream_info);
        lemma_description(bytes);
    }
    let none = Seq::new(info.channels as nat, |i: int| Seq::<i64>::empty());
    lemma_frames(bytes, more, at, info, none);
}

} // verus!
