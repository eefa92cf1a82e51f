//! The order in which a file holds its chunks.

use vstd::prelude::*;

use super::aiff;
use super::layout::{
    chunk_border, high_first, id_at, is_chunk, lemma_aiff_shifts, lemma_big_field,
    lemma_little_field, lemma_wav_shifts, low_first,
};
use super::wav;
use crate::error::Fault;

verus! {

/// A chunk at a position is read, and then what stands behind it.
proof fn lemma_wav_chunk(file: Seq<u8>, at: nat, chunk: Seq<u8>, found: wav::Found)
    requires
        at + chunk.len() <= file.len(),
        file.subrange(at as int, (at + chunk.len()) as int) == chunk,
        is_chunk(chunk, false),
    ensures
        wav::read_chunks(file, at, found) == (match wav::read_chunk(
            chunk.subrange(0, 4),
            chunk.subrange(8, 8 + low_first(chunk, 4, 4)),
            found,
        ) {
            Err(fault) => Err(fault),
            Ok(more) => wav::read_chunks(file, at + chunk.len(), more),
        }),
{
    let a = at as int;
    let size = low_first(chunk, 4, 4);
    lemma_little_field(chunk, 4, 4);
    assert(file.subrange(a, a + 4) =~= chunk.subrange(0, 4));
    assert(file.subrange(a + 4, a + 8) =~= chunk.subrange(4, 8));
    assert(file.subrange(a + 8, a + 8 + size) =~= chunk.subrange(8, 8 + size));
}

/// Two chunks that are not of one kind are read the same whichever comes first.
proof fn lemma_wav_two_chunks(
    one: Seq<u8>,
    other: Seq<u8>,
    at: nat,
    first: Seq<u8>,
    second: Seq<u8>,
    found: wav::Found,
)
    requires
        one.len() == other.len(),
        at + first.len() + second.len() <= one.len(),
        one.subrange(at as int, (at + first.len()) as int) == first,
        one.subrange(
            (at + first.len()) as int,
            (at + first.len() + second.len()) as int,
        ) == second,
        other.subrange(at as int, (at + second.len()) as int) == second,
        other.subrange(
            (at + second.len()) as int,
            (at + second.len() + first.len()) as int,
        ) == first,
        forall|i: int|
            at + first.len() + second.len() <= i < one.len() ==> #[trigger] one[i] == other[i],
        is_chunk(first, false),
        is_chunk(second, false),
        id_at(first, 0) != id_at(second, 0),
        wav::read_chunks(one, at, found) is Ok,
    ensures
        wav::read_chunks(other, at, found) == wav::read_chunks(one, at, found),
{
    let end = at + first.len() + second.len();
    let a = first.subrange(0, 4);
    let b = second.subrange(0, 4);
    let body = first.subrange(8, 8 + low_first(first, 4, 4));
    let rest = second.subrange(8, 8 + low_first(second, 4, 4));
    assert(a != b) by {
        if a == b {
            assert(a[0] == b[0] && a[1] == b[1] && a[2] == b[2] && a[3] == b[3]);
        }
    }
    lemma_wav_chunk(one, at, first, found);
    let middle = wav::read_chunk(a, body, found)->Ok_0;
    lemma_wav_chunk(one, at + first.len(), second, middle);
    let all = wav::read_chunk(b, rest, middle)->Ok_0;
    lemma_wav_chunk(other, at, second, found);
    let turned = wav::read_chunk(b, rest, found)->Ok_0;
    lemma_wav_chunk(other, at + second.len(), first, turned);
    assert(wav::read_chunk(a, body, turned) == Ok::<wav::Found, Fault>(all));
    lemma_wav_shifts(one, other, 0, end, all);
}

/// The chunks before are read as they are.
proof fn lemma_wav_before(
    one: Seq<u8>,
    other: Seq<u8>,
    before: Seq<u8>,
    from: nat,
    first: Seq<u8>,
    second: Seq<u8>,
    found: wav::Found,
)
    requires
        one.len() == other.len(),
        before.len() + first.len() + second.len() <= one.len(),
        one.take(before.len() as int) == before,
        other.take(before.len() as int) == before,
        one.subrange(before.len() as int, (before.len() + first.len()) as int) == first,
        one.subrange(
            (before.len() + first.len()) as int,
            (before.len() + first.len() + second.len()) as int,
        ) == second,
        other.subrange(before.len() as int, (before.len() + second.len()) as int) == second,
        other.subrange(
            (before.len() + second.len()) as int,
            (before.len() + second.len() + first.len()) as int,
        ) == first,
        forall|i: int|
            before.len() + first.len() + second.len() <= i < one.len() ==> #[trigger] one[i]
                == other[i],
        is_chunk(first, false),
        is_chunk(second, false),
        id_at(first, 0) != id_at(second, 0),
        chunk_border(before, from as int, before.len() as int, false),
        wav::read_chunks(one, from, found) is Ok,
    ensures
        wav::read_chunks(other, from, found) == wav::read_chunks(one, from, found),
    decreases before.len() - from,
{
    let at = before.len() as int;
    let a = from as int;
    if a == at {
        lemma_wav_two_chunks(one, other, from, first, second, found);
    } else {
        let size = low_first(before, a + 4, 4);
        let next = a + 8 + size + size % 2;
        assert(chunk_border(before, next, at, false));
        assert(next <= at);
        lemma_little_field(before, a + 4, 4);
        let head = before.subrange(a, a + 4);
        let body = before.subrange(a + 8, a + 8 + size);
        assert(one.take(at).subrange(a, a + 4) =~= one.subrange(a, a + 4));
        assert(one.take(at).subrange(a + 4, a + 8) =~= one.subrange(a + 4, a + 8));
        assert(one.take(at).subrange(a + 8, a + 8 + size) =~= one.subrange(a + 8, a + 8 + size));
        assert(other.take(at).subrange(a, a + 4) =~= other.subrange(a, a + 4));
        assert(other.take(at).subrange(a + 4, a + 8) =~= other.subrange(a + 4, a + 8));
        assert(other.take(at).subrange(a + 8, a + 8 + size) =~= other.subrange(
            a + 8,
            a + 8 + size,
        ));
        if let Ok(more) = wav::read_chunk(head, body, found) {
            lemma_wav_before(one, other, before, next as nat, first, second, more);
        }
    }
}

/// The chunks of a WAV file may stand in any order, as far as they are of different kinds:
/// exchanging two neighbours changes nothing of what is decoded.
#[verifier::rlimit(40)]
pub proof fn law_wav_chunks_stand_in_any_order(
    before: Seq<u8>,
    first: Seq<u8>,
    second: Seq<u8>,
    after: Seq<u8>,
)
    requires
        before.len() >= 12,
        chunk_border(before, 12, before.len() as int, false),
        is_chunk(first, false),
        is_chunk(second, false),
        id_at(first, 0) != id_at(second, 0),
        wav::decoded(before + first + second + after) is Ok,
    ensures
        wav::decoded(before + second + first + after) == wav::decoded(before + first + second + after),
{
    let one = before + first + second + after;
    let other = before + second + first + after;
    let n = before.len() as int;
    assert(one.take(n) =~= before);
    assert(other.take(n) =~= before);
    assert(one.subrange(n, n + first.len()) =~= first);
    assert(one.subrange(n + first.len(), n + first.len() + second.len()) =~= second);
    assert(other.subrange(n, n + second.len()) =~= second);
    assert(other.subrange(n + second.len(), n + second.len() + first.len()) =~= first);
    assert forall|i: int| n + first.len() + second.len() <= i < one.len() implies #[trigger] one[i]
        == other[i] by {}
    assert(other.subrange(0, 4) =~= one.subrange(0, 4));
    assert(other.subrange(8, 12) =~= one.subrange(8, 12));
    lemma_wav_before(one, other, before, 12, first, second, wav::Found { format: None, data: None });
}

/// A chunk at a position is read, and then what stands behind it.
proof fn lemma_aiff_chunk(file: Seq<u8>, at: nat, chunk: Seq<u8>, found: aiff::Found)
    requires
        at + chunk.len() <= file.len(),
        file.subrange(at as int, (at + chunk.len()) as int) == chunk,
        is_chunk(chunk, true),
    ensures
        aiff::read_chunks(file, at, found) == (match aiff::read_chunk(
            chunk.subrange(0, 4),
            chunk.subrange(8, 8 + high_first(chunk, 4, 4)),
            found,
        ) {
            Err(fault) => Err(fault),
            Ok(more) => aiff::read_chunks(file, at + chunk.len(), more),
        }),
{
    let a = at as int;
    let size = high_first(chunk, 4, 4);
    lemma_big_field(chunk, 4, 4);
    assert(file.subrange(a, a + 4) =~= chunk.subrange(0, 4));
    assert(file.subrange(a + 4, a + 8) =~= chunk.subrange(4, 8));
    assert(file.subrange(a + 8, a + 8 + size) =~= chunk.subrange(8, 8 + size));
}

/// Two chunks that are not of one kind are read the same whichever comes first.
proof fn lemma_aiff_two_chunks(
    one: Seq<u8>,
    other: Seq<u8>,
    at: nat,
    first: Seq<u8>,
    second: Seq<u8>,
    found: aiff::Found,
)
    requires
        one.len() == other.len(),
        at + first.len() + second.len() <= one.len(),
        one.subrange(at as int, (at + first.len()) as int) == first,
        one.subrange(
            (at + first.len()) as int,
            (at + first.len() + second.len()) as int,
        ) == second,
        other.subrange(at as int, (at + second.len()) as int) == second,
        other.subrange(
            (at + second.len()) as int,
            (at + second.len() + first.len()) as int,
        ) == first,
        forall|i: int|
            at + first.len() + second.len() <= i < one.len() ==> #[trigger] one[i] == other[i],
        is_chunk(first, true),
        is_chunk(second, true),
        id_at(first, 0) != id_at(second, 0),
        aiff::read_chunks(one, at, found) is Ok,
    ensures
        aiff::read_chunks(other, at, found) == aiff::read_chunks(one, at, found),
{
    let end = at + first.len() + second.len();
    let a = first.subrange(0, 4);
    let b = second.subrange(0, 4);
    let body = first.subrange(8, 8 + high_first(first, 4, 4));
    let rest = second.subrange(8, 8 + high_first(second, 4, 4));
    assert(a != b) by {
        if a == b {
            assert(a[0] == b[0] && a[1] == b[1] && a[2] == b[2] && a[3] == b[3]);
        }
    }
    lemma_aiff_chunk(one, at, first, found);
    let middle = aiff::read_chunk(a, body, found)->Ok_0;
    lemma_aiff_chunk(one, at + first.len(), second, middle);
    let all = aiff::read_chunk(b, rest, middle)->Ok_0;
    lemma_aiff_chunk(other, at, second, found);
    let turned = aiff::read_chunk(b, rest, found)->Ok_0;
    lemma_aiff_chunk(other, at + second.len(), first, turned);
    assert(aiff::read_chunk(a, body, turned) == Ok::<aiff::Found, Fault>(all));
    lemma_aiff_shifts(one, other, 0, end, all);
}

/// The chunks before are read as they are.
proof fn lemma_aiff_before(
    one: Seq<u8>,
    other: Seq<u8>,
    before: Seq<u8>,
    from: nat,
    first: Seq<u8>,
    second: Seq<u8>,
    found: aiff::Found,
)
    requires
        one.len() == other.len(),
        before.len() + first.len() + second.len() <= one.len(),
        one.take(before.len() as int) == before,
        other.take(before.len() as int) == before,
        one.subrange(before.len() as int, (before.len() + first.len()) as int) == first,
        one.subrange(
            (before.len() + first.len()) as int,
            (before.len() + first.len() + second.len()) as int,
        ) == second,
        other.subrange(before.len() as int, (before.len() + second.len()) as int) == second,
        other.subrange(
            (before.len() + second.len()) as int,
            (before.len() + second.len() + first.len()) as int,
        ) == first,
        forall|i: int|
            before.len() + first.len() + second.len() <= i < one.len() ==> #[trigger] one[i]
                == other[i],
        is_chunk(first, true),
        is_chunk(second, true),
        id_at(first, 0) != id_at(second, 0),
        chunk_border(before, from as int, before.len() as int, true),
        aiff::read_chunks(one, from, found) is Ok,
    ensures
        aiff::read_chunks(other, from, found) == aiff::read_chunks(one, from, found),
    decreases before.len() - from,
{
    let at = before.len() as int;
    let a = from as int;
    if a == at {
        lemma_aiff_two_chunks(one, other, from, first, second, found);
    } else {
        let size = high_first(before, a + 4, 4);
        let next = a + 8 + size + size % 2;
        assert(chunk_border(before, next, at, true));
        assert(next <= at);
        lemma_big_field(before, a + 4, 4);
        let head = before.subrange(a, a + 4);
        let body = before.subrange(a + 8, a + 8 + size);
        assert(one.take(at).subrange(a, a + 4) =~= one.subrange(a, a + 4));
        assert(one.take(at).subrange(a + 4, a + 8) =~= one.subrange(a + 4, a + 8));
        assert(one.take(at).subrange(a + 8, a + 8 + size) =~= one.subrange(a + 8, a + 8 + size));
        assert(other.take(at).subrange(a, a + 4) =~= other.subrange(a, a + 4));
        assert(other.take(at).subrange(a + 4, a + 8) =~= other.subrange(a + 4, a + 8));
        assert(other.take(at).subrange(a + 8, a + 8 + size) =~= other.subrange(
            a + 8,
            a + 8 + size,
        ));
        if let Ok(more) = aiff::read_chunk(head, body, found) {
            lemma_aiff_before(one, other, before, next as nat, first, second, more);
        }
    }
}

/// The chunks of an AIFF file may stand in any order, as far as they are of different kinds:
/// exchanging two neighbours changes nothing of what is decoded.
#[verifier::rlimit(40)]
pub proof fn law_aiff_chunks_stand_in_any_order(
    before: Seq<u8>,
    first: Seq<u8>,
    second: Seq<u8>,
    after: Seq<u8>,
)
    requires
        before.len() >= 12,
        chunk_border(before, 12, before.len() as int, true),
        is_chunk(first, true),
        is_chunk(second, true),
        id_at(first, 0) != id_at(second, 0),
        aiff::decoded(before + first + second + after) is Ok,
    ensures
        aiff::decoded(before + second + first + after) == aiff::decoded(before + first + second + after),
{
    let one = before + first + second + after;
    let other = before + second + first + after;
    let n = before.len() as int;
    assert(one.take(n) =~= before);
    assert(other.take(n) =~= before);
    assert(one.subrange(n, n + first.len()) =~= first);
    assert(one.subrange(n + first.len(), n + first.len() + second.len()) =~= second);
    assert(other.subrange(n, n + second.len()) =~= second);
    assert(other.subrange(n + second.len(), n + second.len() + first.len()) =~= first);
    assert forall|i: int| n + first.len() + second.len() <= i < one.len() implies #[trigger] one[i]
        == other[i] by {}
    assert(other.subrange(0, 4) =~= one.subrange(0, 4));
    assert(other.subrange(8, 12) =~= one.subrange(8, 12));
    lemma_aiff_before(one, other, before, 12, first, second, aiff::Found { common: None, sound: None });
}

} // verus!
