//! Metadata blocks beside the one that describes the stream.
//!
//! A stream may carry pictures, tags, padding and whatever else between the
//! block that describes it and its frames. A reader passes over every such block
//! by the length its header states, and what follows means the same wherever it
//! stands.

use vstd::prelude::*;

use vstd::arithmetic::power2::{lemma2_to64, pow2};

use crate::audio::layout::{high_first, with_inserted};
use crate::error::Fault;

use super::bits::{
    aligned, bytes_bits, lemma_byte_chunk, lemma_bytes_bits_at, lemma_bytes_bits_concat,
    lemma_bytes_bits_len, lemma_value_concat, read_signed, read_skip, read_unary, read_unsigned,
    read_utf8_number, read_utf8_tail, utf8_followers, zeros_at,
};
use super::decode::{
    escape, field, lemma_frame_advances, parameter_bits, partition_count, read_block,
    read_block_size, read_body, read_codes, read_coefficients, read_fixed, read_frame, read_head,
    read_header, read_lpc, read_partition, read_partitions, read_residual, read_rice, read_run,
    read_sample_rate, read_sizes, read_subframe, subframe_bits, unfolded, FrameHeader,
    HeaderCodes,
};
use super::{
    concluded, decoded, joined, lemma_metadata_advances, read_frames,
    read_metadata, read_metadata_block, read_samples, read_stream_info, Info,
};

verus! {

/// Whether two streams are the same from a place on, `by` bits further on in the
/// second.
spec fn trails(old: Seq<bool>, new: Seq<bool>, from: nat, by: nat) -> bool {
    &&& by % 8 == 0
    &&& new.len() == old.len() + by
    &&& forall|i: int| from <= i < old.len() ==> new[i + by] == #[trigger] old[i]
}

/// Whether two readings at `at` came to the same, the second `by` bits further
/// on.
spec fn moved<T>(
    old: Result<(T, nat), Fault>,
    new: Result<(T, nat), Fault>,
    at: nat,
    by: nat,
) -> bool {
    match old {
        Err(fault) => new == Err::<(T, nat), Fault>(fault),
        Ok((value, next)) => at <= next && new == Ok::<(T, nat), Fault>((value, next + by)),
    }
}

proof fn lemma_part(old: Seq<bool>, new: Seq<bool>, from: nat, by: nat, at: nat, count: nat)
    requires
        trails(old, new, from, by),
        from <= at,
        at + count <= old.len(),
    ensures
        new.subrange((at + by) as int, (at + by + count) as int) == old.subrange(
            at as int,
            (at + count) as int,
        ),
{
    assert(new.subrange((at + by) as int, (at + by + count) as int) =~= old.subrange(
        at as int,
        (at + count) as int,
    ));
}

proof fn lemma_unsigned(old: Seq<bool>, new: Seq<bool>, from: nat, by: nat, at: nat, count: nat)
    requires
        trails(old, new, from, by),
        from <= at,
    ensures
        moved(read_unsigned(old, at, count), read_unsigned(new, at + by, count), at, by),
        moved(read_signed(old, at, count), read_signed(new, at + by, count), at, by),
{
    if at + count <= old.len() {
        lemma_part(old, new, from, by, at, count);
    }
}

proof fn lemma_zeros(old: Seq<bool>, new: Seq<bool>, from: nat, by: nat, at: nat)
    requires
        trails(old, new, from, by),
        from <= at,
    ensures
        zeros_at(new, at + by) == zeros_at(old, at),
    decreases old.len() - at,
{
    if at < old.len() {
        assert(new[at as int + by] == old[at as int]);
        if !old[at as int] {
            lemma_zeros(old, new, from, by, at + 1);
        }
    }
}

proof fn lemma_unary(old: Seq<bool>, new: Seq<bool>, from: nat, by: nat, at: nat)
    requires
        trails(old, new, from, by),
        from <= at,
    ensures
        moved(read_unary(old, at), read_unary(new, at + by), at, by),
{
    lemma_zeros(old, new, from, by, at);
    let zeros = zeros_at(old, at);
    assert((at + by + zeros) / 8 * 8 == (at + zeros) / 8 * 8 + by);
}

proof fn lemma_utf8_tail(
    old: Seq<bool>,
    new: Seq<bool>,
    from: nat,
    by: nat,
    at: nat,
    count: nat,
    value: nat,
)
    requires
        trails(old, new, from, by),
        from <= at,
    ensures
        moved(
            read_utf8_tail(old, at, count, value),
            read_utf8_tail(new, at + by, count, value),
            at,
            by,
        ),
    decreases count,
{
    if count > 0 {
        lemma_unsigned(old, new, from, by, at, 8);
        if let Ok((byte, next)) = read_unsigned(old, at, 8) {
            lemma_utf8_tail(
                old,
                new,
                from,
                by,
                next,
                (count - 1) as nat,
                value * 64 + byte % 64,
            );
        }
    }
}

proof fn lemma_utf8(old: Seq<bool>, new: Seq<bool>, from: nat, by: nat, at: nat)
    requires
        trails(old, new, from, by),
        from <= at,
    ensures
        moved(read_utf8_number(old, at), read_utf8_number(new, at + by), at, by),
{
    lemma_unsigned(old, new, from, by, at, 8);
    if let Ok((first, next)) = read_unsigned(old, at, 8) {
        if let Some(count) = utf8_followers(first) {
            if count > 0 {
                lemma_utf8_tail(
                    old,
                    new,
                    from,
                    by,
                    next,
                    count,
                    first % pow2((6 - count) as nat),
                );
            }
        }
    }
}

proof fn lemma_run(
    old: Seq<bool>,
    new: Seq<bool>,
    from: nat,
    by: nat,
    at: nat,
    count: nat,
    bits: nat,
    samples: Seq<i64>,
)
    requires
        trails(old, new, from, by),
        from <= at,
    ensures
        moved(
            read_run(old, at, count, bits, samples),
            read_run(new, at + by, count, bits, samples),
            at,
            by,
        ),
    decreases count,
{
    if count > 0 {
        lemma_unsigned(old, new, from, by, at, bits);
        if let Ok((value, next)) = read_signed(old, at, bits) {
            lemma_run(
                old,
                new,
                from,
                by,
                next,
                (count - 1) as nat,
                bits,
                samples.push(value as i64),
            );
        }
    }
}

proof fn lemma_rice(
    old: Seq<bool>,
    new: Seq<bool>,
    from: nat,
    by: nat,
    at: nat,
    count: nat,
    parameter: nat,
    samples: Seq<i64>,
)
    requires
        trails(old, new, from, by),
        from <= at,
    ensures
        moved(
            read_rice(old, at, count, parameter, samples),
            read_rice(new, at + by, count, parameter, samples),
            at,
            by,
        ),
    decreases count,
{
    if count > 0 {
        lemma_unary(old, new, from, by, at);
        if let Ok((quotient, middle)) = read_unary(old, at) {
            lemma_unsigned(old, new, from, by, middle, parameter);
            if let Ok((remainder, next)) = read_unsigned(old, middle, parameter) {
                lemma_rice(
                    old,
                    new,
                    from,
                    by,
                    next,
                    (count - 1) as nat,
                    parameter,
                    samples.push(unfolded(quotient * pow2(parameter) + remainder) as i64),
                );
            }
        }
    }
}

proof fn lemma_partition(
    old: Seq<bool>,
    new: Seq<bool>,
    from: nat,
    by: nat,
    at: nat,
    count: nat,
    wide: bool,
    samples: Seq<i64>,
)
    requires
        trails(old, new, from, by),
        from <= at,
    ensures
        moved(
            read_partition(old, at, count, wide, samples),
            read_partition(new, at + by, count, wide, samples),
            at,
            by,
        ),
{
    lemma_unsigned(old, new, from, by, at, parameter_bits(wide));
    if let Ok((parameter, next)) = read_unsigned(old, at, parameter_bits(wide)) {
        if parameter == escape(wide) {
            lemma_unsigned(old, new, from, by, next, 5);
            if let Ok((raw, body)) = read_unsigned(old, next, 5) {
                lemma_run(old, new, from, by, body, count, raw, samples);
            }
        } else {
            lemma_rice(old, new, from, by, next, count, parameter, samples);
        }
    }
}

proof fn lemma_partitions(
    old: Seq<bool>,
    new: Seq<bool>,
    from: nat,
    by: nat,
    at: nat,
    partition: nat,
    partitions: nat,
    per_partition: nat,
    order: nat,
    wide: bool,
    samples: Seq<i64>,
)
    requires
        trails(old, new, from, by),
        from <= at,
    ensures
        moved(
            read_partitions(old, at, partition, partitions, per_partition, order, wide, samples),
            read_partitions(
                new,
                at + by,
                partition,
                partitions,
                per_partition,
                order,
                wide,
                samples,
            ),
            at,
            by,
        ),
    decreases partitions - partition,
{
    if partition < partitions {
        let count = partition_count(per_partition, order, partition);
        lemma_partition(old, new, from, by, at, count, wide, samples);
        if let Ok((more, next)) = read_partition(old, at, count, wide, samples) {
            lemma_partitions(
                old,
                new,
                from,
                by,
                next,
                partition + 1,
                partitions,
                per_partition,
                order,
                wide,
                more,
            );
        }
    }
}

proof fn lemma_residual(
    old: Seq<bool>,
    new: Seq<bool>,
    from: nat,
    by: nat,
    at: nat,
    block_size: nat,
    order: nat,
    samples: Seq<i64>,
)
    requires
        trails(old, new, from, by),
        from <= at,
    ensures
        moved(
            read_residual(old, at, block_size, order, samples),
            read_residual(new, at + by, block_size, order, samples),
            at,
            by,
        ),
{
    lemma_unsigned(old, new, from, by, at, 2);
    if let Ok((method, middle)) = read_unsigned(old, at, 2) {
        lemma_unsigned(old, new, from, by, middle, 4);
        if let Ok((partition_order, next)) = read_unsigned(old, middle, 4) {
            let partitions = pow2(partition_order);
            lemma_partitions(
                old,
                new,
                from,
                by,
                next,
                0,
                partitions,
                block_size / partitions,
                order,
                method == 1,
                samples,
            );
        }
    }
}

proof fn lemma_fixed(
    old: Seq<bool>,
    new: Seq<bool>,
    from: nat,
    by: nat,
    at: nat,
    block_size: nat,
    bits: nat,
    order: nat,
)
    requires
        trails(old, new, from, by),
        from <= at,
    ensures
        moved(
            read_fixed(old, at, block_size, bits, order),
            read_fixed(new, at + by, block_size, bits, order),
            at,
            by,
        ),
{
    lemma_run(old, new, from, by, at, order, bits, Seq::empty());
    if let Ok((warm, next)) = read_run(old, at, order, bits, Seq::empty()) {
        lemma_residual(old, new, from, by, next, block_size, order, warm);
    }
}

proof fn lemma_coefficients(
    old: Seq<bool>,
    new: Seq<bool>,
    from: nat,
    by: nat,
    at: nat,
    order: nat,
)
    requires
        trails(old, new, from, by),
        from <= at,
    ensures
        moved(
            read_coefficients(old, at, order),
            read_coefficients(new, at + by, order),
            at,
            by,
        ),
{
    lemma_unsigned(old, new, from, by, at, 4);
    if let Ok((precision, middle)) = read_unsigned(old, at, 4) {
        lemma_unsigned(old, new, from, by, middle, 5);
        if let Ok((shift, next)) = read_signed(old, middle, 5) {
            lemma_run(old, new, from, by, next, order, precision + 1, Seq::empty());
        }
    }
}

proof fn lemma_lpc(
    old: Seq<bool>,
    new: Seq<bool>,
    from: nat,
    by: nat,
    at: nat,
    block_size: nat,
    bits: nat,
    order: nat,
)
    requires
        trails(old, new, from, by),
        from <= at,
    ensures
        moved(
            read_lpc(old, at, block_size, bits, order),
            read_lpc(new, at + by, block_size, bits, order),
            at,
            by,
        ),
{
    lemma_run(old, new, from, by, at, order, bits, Seq::empty());
    if let Ok((warm, middle)) = read_run(old, at, order, bits, Seq::empty()) {
        lemma_coefficients(old, new, from, by, middle, order);
        if let Ok((rule, next)) = read_coefficients(old, middle, order) {
            lemma_residual(old, new, from, by, next, block_size, order, warm);
        }
    }
}

proof fn lemma_head(old: Seq<bool>, new: Seq<bool>, from: nat, by: nat, at: nat)
    requires
        trails(old, new, from, by),
        from <= at,
    ensures
        moved(read_head(old, at), read_head(new, at + by), at, by),
{
    lemma_unsigned(old, new, from, by, at, 1);
    lemma_unsigned(old, new, from, by, at + 1, 6);
    lemma_unsigned(old, new, from, by, at + 7, 1);
    lemma_unary(old, new, from, by, at + 8);
}

proof fn lemma_body(
    old: Seq<bool>,
    new: Seq<bool>,
    from: nat,
    by: nat,
    at: nat,
    kind: nat,
    block_size: nat,
    bits: nat,
)
    requires
        trails(old, new, from, by),
        from <= at,
    ensures
        moved(
            read_body(old, at, kind, block_size, bits),
            read_body(new, at + by, kind, block_size, bits),
            at,
            by,
        ),
{
    if kind == 0 {
        lemma_unsigned(old, new, from, by, at, bits);
    } else if kind == 1 {
        lemma_run(old, new, from, by, at, block_size, bits, Seq::empty());
    } else if 8 <= kind <= 12 {
        lemma_fixed(old, new, from, by, at, block_size, bits, (kind - 8) as nat);
    } else if 32 <= kind <= 63 {
        lemma_lpc(old, new, from, by, at, block_size, bits, (kind - 31) as nat);
    }
}

proof fn lemma_subframe(
    old: Seq<bool>,
    new: Seq<bool>,
    from: nat,
    by: nat,
    at: nat,
    block_size: nat,
    bits: nat,
)
    requires
        trails(old, new, from, by),
        from <= at,
    ensures
        moved(
            read_subframe(old, at, block_size, bits),
            read_subframe(new, at + by, block_size, bits),
            at,
            by,
        ),
{
    lemma_head(old, new, from, by, at);
    if let Ok(((kind, wasted), next)) = read_head(old, at) {
        if wasted < bits {
            lemma_body(old, new, from, by, next, kind, block_size, (bits - wasted) as nat);
        }
    }
}

proof fn lemma_block(
    old: Seq<bool>,
    new: Seq<bool>,
    from: nat,
    by: nat,
    at: nat,
    header: FrameHeader,
    block: Seq<Seq<i64>>,
)
    requires
        trails(old, new, from, by),
        from <= at,
    ensures
        moved(
            read_block(old, at, header, block),
            read_block(new, at + by, header, block),
            at,
            by,
        ),
    decreases header.channels.spec_count() - block.len(),
{
    if block.len() < header.channels.spec_count() {
        let bits = subframe_bits(header, block.len());
        lemma_subframe(old, new, from, by, at, header.block_size as nat, bits);
        if let Ok((samples, next)) = read_subframe(old, at, header.block_size as nat, bits) {
            lemma_block(old, new, from, by, next, header, block.push(samples));
        }
    }
}

proof fn lemma_field(
    old: Seq<bool>,
    new: Seq<bool>,
    from: nat,
    by: nat,
    at: nat,
    offset: nat,
    count: nat,
)
    requires
        trails(old, new, from, by),
        from <= at,
        at + offset + count <= old.len(),
    ensures
        field(new, at + by, offset, count) == field(old, at, offset, count),
{
    lemma_part(old, new, from, by, at + offset, count);
}

proof fn lemma_codes(old: Seq<bool>, new: Seq<bool>, from: nat, by: nat, at: nat)
    requires
        trails(old, new, from, by),
        from <= at,
    ensures
        read_codes(new, at + by) == read_codes(old, at),
        read_codes(old, at) is Ok ==> at + 32 <= old.len(),
{
    if at + 14 <= old.len() {
        lemma_field(old, new, from, by, at, 0, 14);
    }
    if at + 15 <= old.len() {
        lemma_field(old, new, from, by, at, 14, 1);
    }
    if at + 28 <= old.len() {
        lemma_field(old, new, from, by, at, 24, 4);
    }
    if at + 32 <= old.len() {
        lemma_field(old, new, from, by, at, 31, 1);
        lemma_field(old, new, from, by, at, 16, 4);
        lemma_field(old, new, from, by, at, 20, 4);
        lemma_field(old, new, from, by, at, 28, 3);
    }
}

proof fn lemma_sizes(
    old: Seq<bool>,
    new: Seq<bool>,
    from: nat,
    by: nat,
    at: nat,
    codes: HeaderCodes,
    declared: nat,
)
    requires
        trails(old, new, from, by),
        from <= at,
    ensures
        moved(
            read_sizes(old, at, codes, declared),
            read_sizes(new, at + by, codes, declared),
            at,
            by,
        ),
{
    lemma_utf8(old, new, from, by, at);
    if let Ok((_, middle)) = read_utf8_number(old, at) {
        lemma_unsigned(old, new, from, by, middle, 8);
        lemma_unsigned(old, new, from, by, middle, 16);
        assert(moved(
            read_block_size(old, middle, codes.block),
            read_block_size(new, middle + by, codes.block),
            middle,
            by,
        ));
        if let Ok((_, next)) = read_block_size(old, middle, codes.block) {
            lemma_unsigned(old, new, from, by, next, 8);
            lemma_unsigned(old, new, from, by, next, 16);
            assert(moved(
                read_sample_rate(old, next, codes.rate, declared),
                read_sample_rate(new, next + by, codes.rate, declared),
                next,
                by,
            ));
        }
    }
}

/// Whether two files are the same from a byte on, `shift` bytes further on in the
/// second.
spec fn follows(old: Seq<u8>, new: Seq<u8>, from: nat, shift: nat) -> bool {
    &&& from <= old.len()
    &&& new.len() == old.len() + shift
    &&& forall|i: int| from <= i < old.len() ==> new[i + shift] == #[trigger] old[i]
}

proof fn lemma_trails(old: Seq<u8>, new: Seq<u8>, from: nat, shift: nat)
    requires
        follows(old, new, from, shift),
    ensures
        trails(bytes_bits(old), bytes_bits(new), 8 * from, 8 * shift),
        bytes_bits(old).len() == 8 * old.len(),
        bytes_bits(new).len() == 8 * new.len(),
{
    let head = old.take(from as int);
    let longer = new.take((from + shift) as int);
    let tail = old.skip(from as int);
    assert(old =~= head + tail);
    assert(new =~= longer + tail);
    lemma_bytes_bits_concat(head, tail);
    lemma_bytes_bits_concat(longer, tail);
    lemma_bytes_bits_len(head);
    lemma_bytes_bits_len(longer);
    lemma_bytes_bits_len(tail);
    let a = bytes_bits(old);
    let b = bytes_bits(new);
    assert forall|i: int| 8 * from <= i < a.len() implies b[i + 8 * shift] == #[trigger] a[i] by {
        assert(a[i] == bytes_bits(tail)[i - 8 * from]);
        assert(b[i + 8 * shift] == bytes_bits(tail)[i - 8 * from]);
    }
}

#[verifier::rlimit(40)]
proof fn lemma_header(old: Seq<u8>, new: Seq<u8>, from: nat, shift: nat, at: nat, info: Info)
    requires
        follows(old, new, from, shift),
        8 * from <= at,
    ensures
        moved(
            read_header(old, at, info, at / 8),
            read_header(new, at + 8 * shift, info, (at + 8 * shift) / 8),
            at,
            8 * shift,
        ),
{
    lemma_trails(old, new, from, shift);
    let a = bytes_bits(old);
    let b = bytes_bits(new);
    let by = 8 * shift;
    lemma_codes(a, b, 8 * from, by, at);
    if let Ok(codes) = read_codes(a, at) {
        lemma_sizes(a, b, 8 * from, by, at + 32, codes, info.sample_rate as nat);
        if let Ok((_, middle)) = read_sizes(a, at + 32, codes, info.sample_rate as nat) {
            lemma_unsigned(a, b, 8 * from, by, middle, 8);
            if let Ok((found, end)) = read_unsigned(a, middle, 8) {
                lemma_bytes_on(at, shift);
                lemma_bytes_on(middle, shift);
                lemma_covered(old, new, from, shift, at / 8, middle / 8);
                reveal(read_header);
            } else {
                reveal(read_header);
            }
        } else {
            reveal(read_header);
        }
    } else {
        reveal(read_header);
    }
}

proof fn lemma_bytes_on(at: nat, shift: nat)
    ensures
        (at + 8 * shift) / 8 == at / 8 + shift,
        aligned(at + 8 * shift) == aligned(at) + 8 * shift,
{
}

proof fn lemma_covered(old: Seq<u8>, new: Seq<u8>, from: nat, shift: nat, start: nat, end: nat)
    requires
        follows(old, new, from, shift),
        from <= start <= end <= old.len(),
    ensures
        new.subrange((start + shift) as int, (end + shift) as int) == old.subrange(
            start as int,
            end as int,
        ),
{
    assert(new.subrange((start + shift) as int, (end + shift) as int) =~= old.subrange(
        start as int,
        end as int,
    ));
}

#[verifier::rlimit(40)]
proof fn lemma_frame(old: Seq<u8>, new: Seq<u8>, from: nat, shift: nat, at: nat, info: Info)
    requires
        follows(old, new, from, shift),
        8 * from <= at,
    ensures
        moved(
            read_frame(old, at, info),
            read_frame(new, at + 8 * shift, info),
            at,
            8 * shift,
        ),
{
    let a = bytes_bits(old);
    let b = bytes_bits(new);
    let by = 8 * shift;
    lemma_trails(old, new, from, shift);
    lemma_header(old, new, from, shift, at, info);
    lemma_bytes_on(at, shift);
    if let Ok((header, middle)) = read_header(old, at, info, at / 8) {
        lemma_block(a, b, 8 * from, by, middle, header, Seq::empty());
        if let Ok((block, next)) = read_block(a, middle, header, Seq::empty()) {
            let end = aligned(next);
            lemma_bytes_on(next, shift);
            lemma_bytes_on(end, shift);
            assert(next <= end);
            lemma_unsigned(a, b, 8 * from, by, end, 16);
            if let Ok((found, last)) = read_unsigned(a, end, 16) {
                lemma_covered(old, new, from, shift, at / 8, end / 8);
            }
            reveal(read_frame);
        } else {
            reveal(read_frame);
        }
    } else {
        reveal(read_frame);
    }
}

proof fn lemma_frames(
    old: Seq<u8>,
    new: Seq<u8>,
    from: nat,
    shift: nat,
    at: nat,
    info: Info,
    channels: Seq<Seq<i64>>,
)
    requires
        follows(old, new, from, shift),
        8 * from <= at <= 8 * old.len(),
    ensures
        read_frames(new, at + 8 * shift, info, channels) == read_frames(old, at, info, channels),
    decreases 8 * old.len() - at,
{
    let start = (at / 8) as int;
    assert((at + 8 * shift) / 8 == start + shift);
    if old.len() - start >= 6 {
        assert(new[start + shift] == old[start]);
        assert(new[start + 1 + shift] == old[start + 1]);
    }
    lemma_frame(old, new, from, shift, at, info);
    lemma_frame_advances(old, at, info);
    lemma_frame_advances(new, at + 8 * shift, info);
    if let Ok(((header, block), next)) = read_frame(old, at, info) {
        lemma_frames(old, new, from, shift, next, info, joined(channels, block));
    }
}

proof fn lemma_samples(old: Seq<u8>, new: Seq<u8>, from: nat, shift: nat, at: nat, info: Info)
    requires
        follows(old, new, from, shift),
        8 * from <= at <= 8 * old.len(),
    ensures
        read_samples(new, at + 8 * shift, info) == read_samples(old, at, info),
{
    lemma_frames(
        old,
        new,
        from,
        shift,
        at,
        info,
        Seq::new(info.channels as nat, |i: int| Seq::empty()),
    );
}

proof fn lemma_stream_info(old: Seq<bool>, new: Seq<bool>, from: nat, by: nat, at: nat)
    requires
        trails(old, new, from, by),
        from <= at,
    ensures
        moved(read_stream_info(old, at), read_stream_info(new, at + by), at, by),
{
    reveal(read_stream_info);
    if at + 272 <= old.len() {
        lemma_field(old, new, from, by, at, 0, 16);
        lemma_field(old, new, from, by, at, 16, 16);
        lemma_field(old, new, from, by, at, 80, 20);
        lemma_field(old, new, from, by, at, 100, 3);
        lemma_field(old, new, from, by, at, 103, 5);
        lemma_field(old, new, from, by, at, 108, 36);
        let one = read_stream_info(old, at)->Ok_0.0.md5;
        let other = read_stream_info(new, at + by)->Ok_0.0.md5;
        assert forall|i: int| 0 <= i < 16 implies one[i] == other[i] by {
            lemma_field(old, new, from, by, at, (144 + 8 * i) as nat, 8);
        }
        assert(one =~= other);
    }
}

proof fn lemma_skip(length: nat, by: nat, at: nat, count: nat)
    requires
        by % 8 == 0,
    ensures
        read_skip(length / 8, at, count) matches Err(fault) ==> read_skip(
            (length + by) / 8,
            at + by,
            count,
        ) == Err::<nat, Fault>(fault),
        read_skip(length / 8, at, count) matches Ok(next) ==> at <= next && read_skip(
            (length + by) / 8,
            at + by,
            count,
        ) == Ok::<nat, Fault>(next + by),
{
    assert(aligned(at + by) == aligned(at) + by);
    assert((length + by) / 8 * 8 == length / 8 * 8 + by);
}

#[verifier::rlimit(40)]
proof fn lemma_metadata_block(
    old: Seq<bool>,
    new: Seq<bool>,
    from: nat,
    by: nat,
    at: nat,
    info: Option<Info>,
)
    requires
        trails(old, new, from, by),
        from <= at,
    ensures
        moved(
            read_metadata_block(old, at, info),
            read_metadata_block(new, at + by, info),
            at,
            by,
        ),
{
    if at + 32 <= old.len() {
        lemma_field(old, new, from, by, at, 0, 1);
        lemma_field(old, new, from, by, at, 1, 7);
        lemma_field(old, new, from, by, at, 8, 24);
        lemma_stream_info(old, new, from, by, at + 32);
        lemma_skip(old.len(), by, at + 32, field(old, at, 8, 24));
    }
}

proof fn lemma_metadata(
    old: Seq<bool>,
    new: Seq<bool>,
    from: nat,
    by: nat,
    at: nat,
    info: Option<Info>,
)
    requires
        trails(old, new, from, by),
        from <= at,
    ensures
        moved(read_metadata(old, at, info), read_metadata(new, at + by, info), at, by),
        read_metadata(old, at, info) matches Ok((_, next)) ==> next <= old.len(),
    decreases old.len() - at,
{
    lemma_metadata_block(old, new, from, by, at, info);
    lemma_metadata_advances(old, at, info);
    lemma_metadata_advances(new, at + by, info);
    if let Ok(((last, found), next)) = read_metadata_block(old, at, info) {
        if !last {
            lemma_metadata(old, new, from, by, next, found);
        }
    }
}

/// Whether metadata blocks that are not the last lead from one byte to another.
/// The header of a block is a byte with its type, and its length in three bytes.
pub open spec fn block_border(bytes: Seq<u8>, from: int, to: int) -> bool
    decreases to - from,
{
    if from >= to {
        from == to
    } else {
        let next = from + 4 + high_first(bytes, from + 1, 3);
        &&& bytes[from] < 128
        &&& next <= to
        &&& block_border(bytes, next, to)
    }
}

/// Whether bytes are one metadata block, of any type but the one that describes
/// the stream.
pub open spec fn is_block(extra: Seq<u8>) -> bool {
    &&& extra.len() >= 4
    &&& extra.len() == 4 + high_first(extra, 1, 3)
    &&& extra[0] % 128 != 0
}

/// A field within one byte.
pub proof fn lemma_byte_field(bytes: Seq<u8>, at: nat, offset: nat, take: nat)
    requires
        at < bytes.len(),
        offset + take <= 8,
    ensures
        field(bytes_bits(bytes), 8 * at, offset, take) == (bytes[at as int] as nat / pow2(
            (8 - offset - take) as nat,
        )) % pow2(take),
{
    let stream = bytes_bits(bytes);
    lemma_bytes_bits_at(bytes, at as int);
    lemma_byte_chunk(bytes[at as int] as nat, offset, take);
    let whole = stream.subrange(8 * at as int, 8 * at as int + 8);
    assert(stream.subrange((8 * at + offset) as int, (8 * at + offset + take) as int)
        =~= whole.subrange(offset as int, (offset + take) as int));
}

/// A field in two parts.
pub proof fn lemma_field_parts(stream: Seq<bool>, at: nat, offset: nat, high: nat, low: nat)
    requires
        at + offset + high + low <= stream.len(),
    ensures
        field(stream, at, offset, high + low) == field(stream, at, offset, high) * pow2(low)
            + field(stream, at, offset + high, low),
{
    let first = stream.subrange((at + offset) as int, (at + offset + high) as int);
    let second = stream.subrange(
        (at + offset + high) as int,
        (at + offset + high + low) as int,
    );
    lemma_value_concat(first, second);
    assert(stream.subrange((at + offset) as int, (at + offset + (high + low)) as int) =~= first
        + second);
}

/// A field of whole bytes further on is one that starts there.
proof fn lemma_field_on(stream: Seq<bool>, at: nat, ahead: nat, offset: nat, count: nat)
    ensures
        field(stream, at, ahead + offset, count) == field(stream, at + ahead, offset, count),
{
}

/// The header of a metadata block, byte by byte.
pub proof fn lemma_block_header(bytes: Seq<u8>, at: nat)
    requires
        at + 4 <= bytes.len(),
    ensures
        field(bytes_bits(bytes), 8 * at, 0, 1) == 1 <==> bytes[at as int] >= 128,
        field(bytes_bits(bytes), 8 * at, 1, 7) == bytes[at as int] % 128,
        field(bytes_bits(bytes), 8 * at, 8, 24) == high_first(bytes, at as int + 1, 3),
        bytes_bits(bytes).len() == 8 * bytes.len(),
{
    let stream = bytes_bits(bytes);
    lemma2_to64();
    lemma_bytes_bits_len(bytes);
    lemma_byte_field(bytes, at, 0, 1);
    let lead = bytes[at as int] as nat;
    let one = pow2(0);
    let two = pow2(1);
    let half = pow2(7);
    assert((lead / half) % two == (lead / 128) % 2) by (nonlinear_arith)
        requires
            half == 128,
            two == 2,
    ;
    assert((lead / one) % half == lead % 128) by (nonlinear_arith)
        requires
            half == 128,
            one == 1,
    ;
    lemma_byte_field(bytes, at, 1, 7);
    lemma_byte_field(bytes, at + 1, 0, 8);
    lemma_byte_field(bytes, at + 2, 0, 8);
    lemma_byte_field(bytes, at + 3, 0, 8);
    lemma_field_parts(stream, 8 * at, 8, 16, 8);
    lemma_field_parts(stream, 8 * at, 8, 8, 8);
    lemma_field_on(stream, 8 * at, 8, 0, 8);
    lemma_field_on(stream, 8 * at, 16, 0, 8);
    lemma_field_on(stream, 8 * at, 24, 0, 8);
    assert(8 * at + 8 == 8 * (at + 1));
    assert(8 * at + 16 == 8 * (at + 2));
    assert(8 * at + 24 == 8 * (at + 3));
}

/// A metadata block read by its bytes.
proof fn lemma_block_reads(bytes: Seq<u8>, at: nat, info: Option<Info>)
    requires
        at + 4 <= bytes.len(),
        at + 4 + high_first(bytes, at as int + 1, 3) <= bytes.len(),
    ensures
        bytes[at as int] % 128 != 0 ==> read_metadata_block(bytes_bits(bytes), 8 * at, info)
            == Ok::<((bool, Option<Info>), nat), Fault>(
            (
                (bytes[at as int] >= 128, info),
                (8 * (at + 4 + high_first(bytes, at as int + 1, 3))) as nat,
            ),
        ),
        read_metadata_block(bytes_bits(bytes), 8 * at, info) matches Ok(((last, _), next)) ==> last
            == (bytes[at as int] >= 128) && next == 8 * (at + 4 + high_first(bytes, at as int + 1, 3)),
{
    let stream = bytes_bits(bytes);
    lemma_block_header(bytes, at);
    reveal(read_stream_info);
    assert(aligned(8 * at + 32) == 8 * at + 32);
    assert(stream.len() / 8 == bytes.len());
}

/// The description of a stream depends on its own bits only.
proof fn lemma_stream_info_part(old: Seq<bool>, new: Seq<bool>, at: nat)
    requires
        at + 272 <= old.len(),
        at + 272 <= new.len(),
        forall|i: int| at <= i < at + 272 ==> old[i] == new[i],
    ensures
        read_stream_info(old, at) == read_stream_info(new, at),
{
    let one = old.subrange(at as int, (at + 272) as int);
    let other = new.subrange(at as int, (at + 272) as int);
    assert(one =~= other);
    assert forall|offset: nat, count: nat| offset + count <= 272 implies #[trigger] field(
        old,
        at,
        offset,
        count,
    ) == field(new, at, offset, count) by {
        assert(old.subrange((at + offset) as int, (at + offset + count) as int) =~= one.subrange(
            offset as int,
            (offset + count) as int,
        ));
        assert(new.subrange((at + offset) as int, (at + offset + count) as int) =~= one.subrange(
            offset as int,
            (offset + count) as int,
        ));
    }
    reveal(read_stream_info);
    assert(field(old, at, 0, 16) == field(new, at, 0, 16));
    assert(field(old, at, 16, 16) == field(new, at, 16, 16));
    assert(field(old, at, 80, 20) == field(new, at, 80, 20));
    assert(field(old, at, 100, 3) == field(new, at, 100, 3));
    assert(field(old, at, 103, 5) == field(new, at, 103, 5));
    assert(field(old, at, 108, 36) == field(new, at, 108, 36));
    let first = read_stream_info(old, at)->Ok_0.0.md5;
    let second = read_stream_info(new, at)->Ok_0.0.md5;
    assert forall|i: int| 0 <= i < 16 implies first[i] == second[i] by {
        let offset = (144 + 8 * i) as nat;
        assert(field(old, at, offset, 8) == field(new, at, offset, 8));
    }
    assert(first =~= second);
}

/// Bytes that two files share at one place are bits that they share.
proof fn lemma_shared(old: Seq<u8>, new: Seq<u8>, from: nat, to: nat)
    requires
        from <= to <= old.len(),
        to <= new.len(),
        forall|i: int| from <= i < to ==> old[i] == new[i],
    ensures
        bytes_bits(old).len() == 8 * old.len(),
        bytes_bits(new).len() == 8 * new.len(),
        forall|i: int| 8 * from <= i < 8 * to ==> bytes_bits(old)[i] == bytes_bits(new)[i],
{
    let shared = old.subrange(from as int, to as int);
    assert(old =~= old.take(from as int) + shared + old.skip(to as int));
    assert(new =~= new.take(from as int) + shared + new.skip(to as int));
    lemma_bytes_bits_concat(old.take(from as int) + shared, old.skip(to as int));
    lemma_bytes_bits_concat(new.take(from as int) + shared, new.skip(to as int));
    lemma_bytes_bits_concat(old.take(from as int), shared);
    lemma_bytes_bits_concat(new.take(from as int), shared);
    lemma_bytes_bits_len(old.take(from as int));
    lemma_bytes_bits_len(new.take(from as int));
    lemma_bytes_bits_len(shared);
    lemma_bytes_bits_len(old);
    lemma_bytes_bits_len(new);
    assert forall|i: int| 8 * from <= i < 8 * to implies bytes_bits(old)[i] == bytes_bits(
        new,
    )[i] by {
        assert(bytes_bits(old)[i] == bytes_bits(shared)[i - 8 * from]);
        assert(bytes_bits(new)[i] == bytes_bits(shared)[i - 8 * from]);
    }
}

/// A block says the same in two files that share its bytes, but for whether it is
/// the last.
proof fn lemma_block_shared(old: Seq<u8>, new: Seq<u8>, at: nat, info: Option<Info>)
    requires
        at + 4 <= old.len(),
        at + 4 + high_first(old, at as int + 1, 3) <= old.len(),
        at + 4 + high_first(old, at as int + 1, 3) <= new.len(),
        old[at as int] % 128 == new[at as int] % 128,
        forall|i: int|
            at + 1 <= i < at + 4 + high_first(old, at as int + 1, 3) ==> #[trigger] old[i] == new[i],
    ensures
        high_first(new, at as int + 1, 3) == high_first(old, at as int + 1, 3),
        match read_metadata_block(bytes_bits(old), 8 * at, info) {
            Err(fault) => read_metadata_block(bytes_bits(new), 8 * at, info) == Err::<
                ((bool, Option<Info>), nat),
                Fault,
            >(fault),
            Ok(((_, found), next)) => read_metadata_block(bytes_bits(new), 8 * at, info) == Ok::<
                ((bool, Option<Info>), nat),
                Fault,
            >(((new[at as int] >= 128, found), next)),
        },
{
    let length = high_first(old, at as int + 1, 3);
    assert(old[at as int + 1] == new[at as int + 1]);
    assert(old[at as int + 2] == new[at as int + 2]);
    assert(old[at as int + 3] == new[at as int + 3]);
    lemma_block_reads(old, at, info);
    lemma_block_reads(new, at, info);
    lemma_block_header(old, at);
    lemma_block_header(new, at);
    lemma_shared(old, new, at + 1, (at + 4 + length) as nat);
    if length == 34 {
        lemma_stream_info_part(bytes_bits(old), bytes_bits(new), 8 * at + 32);
    }
}

/// What is known of a stream once the blocks up to a border have been read.
spec fn learnt(bytes: Seq<u8>, from: int, to: int, info: Option<Info>) -> Result<
    Option<Info>,
    Fault,
>
    decreases to - from,
{
    let next = from + 4 + high_first(bytes, from + 1, 3);
    if from >= to || next > to {
        Ok(info)
    } else {
        match read_metadata_block(bytes_bits(bytes), (8 * from) as nat, info) {
            Err(fault) => Err(fault),
            Ok(((_, found), _)) => learnt(bytes, next, to, found),
        }
    }
}

proof fn lemma_learnt(bytes: Seq<u8>, from: int, to: int, info: Option<Info>)
    requires
        0 <= from <= to <= bytes.len(),
        block_border(bytes, from, to),
    ensures
        read_metadata(bytes_bits(bytes), (8 * from) as nat, info) == match learnt(
            bytes,
            from,
            to,
            info,
        ) {
            Err(fault) => Err(fault),
            Ok(found) => read_metadata(bytes_bits(bytes), (8 * to) as nat, found),
        },
    decreases to - from,
{
    if from < to {
        let next = from + 4 + high_first(bytes, from + 1, 3);
        lemma_block_reads(bytes, from as nat, info);
        lemma_metadata_advances(bytes_bits(bytes), (8 * from) as nat, info);
        if let Ok(((_, found), _)) = read_metadata_block(
            bytes_bits(bytes),
            (8 * from) as nat,
            info,
        ) {
            lemma_learnt(bytes, next, to, found);
        }
    }
}

proof fn lemma_learnt_shared(old: Seq<u8>, new: Seq<u8>, from: int, to: int, info: Option<Info>)
    requires
        0 <= from <= to <= old.len(),
        to <= new.len(),
        forall|i: int| 0 <= i < to ==> #[trigger] old[i] == new[i],
        block_border(old, from, to),
    ensures
        block_border(new, from, to),
        learnt(new, from, to, info) == learnt(old, from, to, info),
    decreases to - from,
{
    if from < to {
        let next = from + 4 + high_first(old, from + 1, 3);
        assert(old[from] == new[from]);
        lemma_block_shared(old, new, from as nat, info);
        if let Ok(((_, found), _)) = read_metadata_block(
            bytes_bits(old),
            (8 * from) as nat,
            info,
        ) {
            lemma_learnt_shared(old, new, next, to, found);
        } else {
            lemma_learnt_shared(old, new, next, to, info);
        }
    }
}

/// The marker at the start of a stream is shared by files that share four bytes.
proof fn lemma_marker(old: Seq<u8>, new: Seq<u8>)
    requires
        old.len() >= 4,
        new.len() >= 4,
        forall|i: int| 0 <= i < 4 ==> #[trigger] old[i] == new[i],
    ensures
        field(bytes_bits(new), 0, 0, 32) == field(bytes_bits(old), 0, 0, 32),
        bytes_bits(old).len() == 8 * old.len(),
        bytes_bits(new).len() == 8 * new.len(),
{
    lemma_shared(old, new, 0, 4);
    assert(bytes_bits(new).subrange(0, 32) =~= bytes_bits(old).subrange(0, 32));
}

/// A metadata block of any type but the one that describes the stream, put before
/// another block, does not change what the stream decodes to.
#[verifier::rlimit(40)]
pub proof fn law_streams_may_hold_other_blocks(bytes: Seq<u8>, at: int, extra: Seq<u8>)
    requires
        4 <= at <= bytes.len(),
        block_border(bytes, 4, at),
        is_block(extra),
        extra[0] < 128,
    ensures
        decoded(with_inserted(bytes, at, extra)) == decoded(bytes),
{
    let longer = with_inserted(bytes, at, extra);
    let a = bytes_bits(bytes);
    let b = bytes_bits(longer);
    let shift = extra.len();
    assert(follows(bytes, longer, at as nat, shift));
    lemma_trails(bytes, longer, at as nat, shift);
    lemma_marker(bytes, longer);
    lemma_learnt_shared(bytes, longer, 4, at, None);
    lemma_learnt(bytes, 4, at, None);
    lemma_learnt(longer, 4, at, None);
    if let Ok(info) = learnt(bytes, 4, at, None) {
        assert(longer[at] == extra[0]);
        assert(longer[at + 1] == extra[1]);
        assert(longer[at + 2] == extra[2]);
        assert(longer[at + 3] == extra[3]);
        lemma_block_reads(longer, at as nat, info);
        lemma_metadata_advances(b, (8 * at) as nat, info);
        lemma_metadata(a, b, (8 * at) as nat, 8 * shift, (8 * at) as nat, info);
        if let Ok((found, next)) = read_metadata(a, (8 * at) as nat, info) {
            lemma_samples(bytes, longer, at as nat, shift, next, found);
        }
    }
}

/// Metadata that ends on a block handed on to another ends there.
proof fn lemma_handed_on(old: Seq<u8>, new: Seq<u8>, last: nat, at: nat, info: Option<Info>)
    requires
        last + 4 <= old.len(),
        at == last + 4 + high_first(old, last as int + 1, 3),
        at <= old.len(),
        old[last as int] >= 128,
        at + 4 <= new.len(),
        at + 4 + high_first(new, at as int + 1, 3) <= new.len(),
        new[at as int] > 128,
        new[last as int] == old[last as int] - 128,
        forall|i: int| last + 1 <= i < at ==> #[trigger] old[i] == new[i],
    ensures
        moved(
            read_metadata(bytes_bits(old), 8 * last, info),
            read_metadata(bytes_bits(new), 8 * last, info),
            8 * at,
            (8 * (4 + high_first(new, at as int + 1, 3))) as nat,
        ),
        read_metadata(bytes_bits(old), 8 * last, info) matches Ok((_, next)) ==> next == 8 * at,
{
    let a = bytes_bits(old);
    let b = bytes_bits(new);
    lemma_block_shared(old, new, last, info);
    lemma_block_reads(old, last, info);
    lemma_metadata_advances(a, 8 * last, info);
    lemma_metadata_advances(b, 8 * last, info);
    if let Ok(((_, found), next)) = read_metadata_block(a, 8 * last, info) {
        let beyond = (8 * (at + 4 + high_first(new, at as int + 1, 3))) as nat;
        lemma_block_reads(new, at, found);
        lemma_metadata_advances(b, 8 * at, found);
        assert(next == 8 * at);
        assert(read_metadata(a, 8 * last, info) == concluded(found, 8 * at));
        assert(read_metadata(b, 8 * last, info) == read_metadata(b, 8 * at, found));
        assert(read_metadata_block(b, 8 * at, found) == Ok::<((bool, Option<Info>), nat), Fault>(
            ((true, found), beyond),
        ));
        assert(read_metadata(b, 8 * at, found) == concluded(found, beyond));
    }
}

/// A metadata block of any type but the one that describes the stream, put behind
/// the last block and marked as the last in its place, does not change what the
/// stream decodes to.
#[verifier::rlimit(40)]
pub proof fn law_streams_may_end_on_another_block(bytes: Seq<u8>, last: int, extra: Seq<u8>)
    requires
        4 <= last,
        last + 4 <= bytes.len(),
        last + 4 + high_first(bytes, last + 1, 3) <= bytes.len(),
        block_border(bytes, 4, last),
        bytes[last] >= 128,
        is_block(extra),
        extra[0] >= 128,
    ensures
        decoded(
            with_inserted(
                bytes.update(last, (bytes[last] - 128) as u8),
                last + 4 + high_first(bytes, last + 1, 3),
                extra,
            ),
        ) == decoded(bytes),
{
    let at = last + 4 + high_first(bytes, last + 1, 3);
    let longer = with_inserted(bytes.update(last, (bytes[last] - 128) as u8), at, extra);
    let a = bytes_bits(bytes);
    let b = bytes_bits(longer);
    let shift = extra.len();
    assert(follows(bytes, longer, at as nat, shift));
    lemma_trails(bytes, longer, at as nat, shift);
    lemma_marker(bytes, longer);
    lemma_learnt_shared(bytes, longer, 4, last, None);
    lemma_learnt(bytes, 4, last, None);
    lemma_learnt(longer, 4, last, None);
    if let Ok(info) = learnt(bytes, 4, last, None) {
        assert(longer[last] == bytes[last] - 128);
        assert(longer[at] == extra[0]);
        assert(longer[at + 1] == extra[1]);
        assert(longer[at + 2] == extra[2]);
        assert(longer[at + 3] == extra[3]);
        lemma_handed_on(bytes, longer, last as nat, at as nat, info);
        if let Ok((found, next)) = read_metadata(a, (8 * last) as nat, info) {
            lemma_samples(bytes, longer, at as nat, shift, next, found);
        }
    }
}

} // verus!
