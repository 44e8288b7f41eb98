//! The one- or two-byte frame length field of Opus framing.

use vstd::prelude::*;

verus! {

/// Length fields whose first byte is below this value are one byte long.
pub const TWO_BYTE_LENGTH: u8 = 252;

/// The largest frame length that a length field can express.
pub const MAX_FRAME_LENGTH: usize = 1275;

/// The length field that starts at position `at`: the frame length it stands
/// for and the bytes it occupies, or `None` where `data` ends before the field does.
pub open spec fn frame_size_at(data: Seq<u8>, at: int) -> Option<(nat, nat)> {
    if at >= data.len() {
        None
    } else if data[at] < TWO_BYTE_LENGTH {
        Some((data[at] as nat, 1))
    } else if at + 1 >= data.len() {
        None
    } else {
        Some(((data[at] + 4 * data[at + 1]) as nat, 2))
    }
}

/// The length field that stands for `size`.
pub open spec fn frame_size_field(size: nat) -> Seq<u8>
    recommends
        size <= MAX_FRAME_LENGTH,
{
    if size < TWO_BYTE_LENGTH {
        seq![size as u8]
    } else {
        seq![(TWO_BYTE_LENGTH + size % 4) as u8, ((size - TWO_BYTE_LENGTH) / 4) as u8]
    }
}

/// Reads the length field at the start of `data` and returns the frame length
/// and the number of bytes the field occupies.
pub fn parse_frame_size(data: &[u8]) -> (r: Result<(usize, usize), &'static str>)
    ensures
        match frame_size_at(data@, 0) {
            Some((size, width)) => r matches Ok((s, w)) && s == size && w == width,
            None => r matches Err(e) && e@ == "truncated frame length"@,
        },
        data@.len() >= 1 && data@[0] < 252 ==> r == Ok::<(usize, usize), &'static str>(
            (data@[0] as usize, 1),
        ),
        data@.len() >= 2 && data@[0] >= 252 ==> r == Ok::<(usize, usize), &'static str>(
            ((data@[0] + 4 * data@[1]) as usize, 2),
        ),
        data@.len() == 0 || (data@.len() == 1 && data@[0] >= 252) ==> r is Err,
{
    if data.len() == 0 {
        return Err("truncated frame length");
    }
    let first: u8 = data[0];
    if first < TWO_BYTE_LENGTH {
        return Ok((first as usize, 1));
    }
    if data.len() < 2 {
        return Err("truncated frame length");
    }
    Ok((first as usize + 4 * data[1] as usize, 2))
}

/// Every length that a field can express is written by a field that reads back
/// as that length, whatever surrounds the field.
pub proof fn law_field_reads_back(before: Seq<u8>, size: nat, after: Seq<u8>)
    requires
        size <= MAX_FRAME_LENGTH,
    ensures
        frame_size_at(before + frame_size_field(size) + after, before.len() as int) == Some(
            (size, frame_size_field(size).len()),
        ),
{
    let field = frame_size_field(size);
    let data = before + field + after;
    let at = before.len() as int;
    assert(data[at] == field[0]);
    if size >= TWO_BYTE_LENGTH {
        assert(data[at + 1] == field[1]);
    }
}

/// A length field in bytes: a byte below 252 stands for itself, and any other
/// byte for itself and four times the byte after it. A field of which a byte is
/// missing says nothing.
pub proof fn law_field_in_bytes(before: Seq<u8>, first: u8, second: u8, after: Seq<u8>)
    ensures
        frame_size_at(before, before.len() as int) is None,
        first < 252 ==> frame_size_at(before + seq![first] + after, before.len() as int) == Some(
            (first as nat, 1nat),
        ),
        first >= 252 ==> frame_size_at(before + seq![first], before.len() as int) is None,
        first >= 252 ==> frame_size_at(
            before + seq![first, second] + after,
            before.len() as int,
        ) == Some(((first + 4 * second) as nat, 2nat)),
{
    let at = before.len() as int;
    assert((before + seq![first] + after)[at] == first);
    assert((before + seq![first])[at] == first);
    assert((before + seq![first, second] + after)[at] == first);
    assert((before + seq![first, second] + after)[at + 1] == second);
}

/// There is one way to write a length: any field that reads as `size` is the
/// field that stands for `size`.
pub proof fn law_field_is_unique(data: Seq<u8>, at: int)
    requires
        0 <= at,
        frame_size_at(data, at) is Some,
    ensures
        ({
            let (size, width) = frame_size_at(data, at).unwrap();
            data.subrange(at, at + width) == frame_size_field(size)
        }),
{
    let (size, width) = frame_size_at(data, at).unwrap();
    assert(data.subrange(at, at + width) =~= frame_size_field(size));
}

/// A length field never stands for more than `MAX_FRAME_LENGTH`.
pub proof fn law_field_is_bounded(data: Seq<u8>, at: int)
    requires
        0 <= at,
    ensures
        frame_size_at(data, at) matches Some((size, width)) ==> size <= MAX_FRAME_LENGTH && 1
            <= width <= 2 && at + width <= data.len(),
{
}

/// A length field is read from its own bytes alone: where two inputs agree on
/// the field, they agree on what it says.
pub proof fn law_field_reads_only_itself(data: Seq<u8>, other: Seq<u8>, at: int)
    requires
        0 <= at,
        frame_size_at(data, at) is Some,
        at + frame_size_at(data, at).unwrap().1 <= other.len(),
        forall|i: int|
            at <= i < at + frame_size_at(data, at).unwrap().1 ==> #[trigger] data[i] == other[i],
    ensures
        frame_size_at(other, at) == frame_size_at(data, at),
{
    assert(data[at] == other[at]);
    if data[at] >= TWO_BYTE_LENGTH {
        assert(data[at + 1] == other[at + 1]);
    }
}

} // verus!
