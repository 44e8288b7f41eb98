//! Splitting, told in bytes.
//!
//! The laws here spell out self-delimited packets byte by byte, and say what
//! splitting makes of each: of an input that begins with a whole packet, of one
//! that breaks off within a packet, and of one that declares zero frames.

use super::framing;
use super::framing_laws;
use super::split;
use crate::frame_size;
use vstd::prelude::*;

verus! {

/// Splitting off a whole packet. It consists of
/// - `head`: the TOC byte, whose two lowest bits are the packing code; for code
///   3 also the count byte, with the frame count in its six lowest bits, and,
///   where bit 6 of the count byte is set, any number of bytes 255, worth 254
///   bytes of padding each, and one other byte, worth itself;
/// - `fields`: one length field for each frame of a size of its own. A field
///   below 252 is the length; any other is followed by a byte that adds four
///   times its value. Code 0 has one frame and code 1 two of equal size. Code 2
///   has two frames of sizes of their own; so have all frames of code 3 where
///   bit 7 of the count byte is set, and otherwise they are of equal size;
/// - `frames` and `pad`.
///
/// What comes out is the same without the last length field, and what follows
/// the packet plays no part.
pub proof fn law_whole_packet_is_split(
    head: Seq<u8>,
    spelled: nat,
    shared: nat,
    padding: nat,
    fields: Seq<Seq<u8>>,
    frames: Seq<Seq<u8>>,
    pad: Seq<u8>,
    after: Seq<u8>,
)
    requires
        ({
            ||| head.len() == 1 && head[0] % 4 == 0 && spelled == 0 && shared == 1 && padding == 0
            ||| head.len() == 1 && head[0] % 4 == 1 && spelled == 0 && shared == 2 && padding == 0
            ||| head.len() == 1 && head[0] % 4 == 2 && spelled == 1 && shared == 1 && padding == 0
            ||| {
                &&& head.len() >= 2
                &&& head[0] % 4 == 3
                &&& head[1] % 64 >= 1
                &&& spelled + shared == head[1] % 64
                &&& if head[1] >= 128 {
                    shared == 1
                } else {
                    spelled == 0
                }
                &&& if head[1] % 128 >= 64 {
                    &&& head.len() >= 3
                    &&& forall|i: int| 2 <= i < head.len() - 1 ==> head[i] == 255
                    &&& head.last() != 255
                    &&& padding == 254 * (head.len() - 3) + head.last()
                } else {
                    head.len() == 2 && padding == 0
                }
            }
        }),
        fields.len() == spelled + 1,
        frames.len() == spelled + shared,
        forall|i: int|
            0 <= i < fields.len() ==> {
                ||| (#[trigger] fields[i]).len() == 1 && fields[i][0] < 252 && fields[i][0]
                    == frames[i].len()
                ||| fields[i].len() == 2 && fields[i][0] >= 252 && fields[i][0] + 4 * fields[i][1]
                    == frames[i].len()
            },
        forall|i: int|
            spelled <= i < frames.len() ==> (#[trigger] frames[i]).len() == frames[spelled
                as int].len(),
        pad.len() == padding,
    ensures
        ({
            let packet = head + fields.flatten() + frames.flatten() + pad;
            let r = framing::split(packet + after);
            &&& r.outcome == Ok::<nat, Seq<char>>(packet.len())
            &&& r.written == head + fields.drop_last().flatten() + frames.flatten() + pad
        }),
{
    let sizes = lengths(frames);
    lemma_total_is_length(frames);
    lemma_split_whole(
        head,
        spelled,
        shared,
        padding,
        fields,
        sizes,
        frames.flatten(),
        pad,
        after,
    );
}

/// A packet that breaks off within length field `i`, after `kept` bytes of it,
/// is refused. What was copied are the bytes before that field.
pub proof fn law_cut_length_is_refused(
    head: Seq<u8>,
    spelled: nat,
    shared: nat,
    padding: nat,
    fields: Seq<Seq<u8>>,
    frames: Seq<Seq<u8>>,
    i: int,
    kept: int,
)
    requires
        ({
            ||| head.len() == 1 && head[0] % 4 == 0 && spelled == 0 && shared == 1 && padding == 0
            ||| head.len() == 1 && head[0] % 4 == 1 && spelled == 0 && shared == 2 && padding == 0
            ||| head.len() == 1 && head[0] % 4 == 2 && spelled == 1 && shared == 1 && padding == 0
            ||| {
                &&& head.len() >= 2
                &&& head[0] % 4 == 3
                &&& head[1] % 64 >= 1
                &&& spelled + shared == head[1] % 64
                &&& if head[1] >= 128 {
                    shared == 1
                } else {
                    spelled == 0
                }
                &&& if head[1] % 128 >= 64 {
                    &&& head.len() >= 3
                    &&& forall|i: int| 2 <= i < head.len() - 1 ==> head[i] == 255
                    &&& head.last() != 255
                    &&& padding == 254 * (head.len() - 3) + head.last()
                } else {
                    head.len() == 2 && padding == 0
                }
            }
        }),
        fields.len() == spelled + 1,
        frames.len() == spelled + shared,
        forall|i: int|
            0 <= i < fields.len() ==> {
                ||| (#[trigger] fields[i]).len() == 1 && fields[i][0] < 252 && fields[i][0]
                    == frames[i].len()
                ||| fields[i].len() == 2 && fields[i][0] >= 252 && fields[i][0] + 4 * fields[i][1]
                    == frames[i].len()
            },
        forall|i: int|
            spelled <= i < frames.len() ==> (#[trigger] frames[i]).len() == frames[spelled
                as int].len(),
        0 <= i < fields.len(),
        0 <= kept < fields[i].len(),
    ensures
        ({
            let before = head + fields.take(i).flatten();
            let r = framing::split(before + fields[i].take(kept));
            &&& r.outcome == Err::<nat, Seq<char>>("truncated frame length"@)
            &&& r.written == before
        }),
{
    let before = head + fields.take(i).flatten();
    let data = before + fields[i].take(kept);
    let at = head.len() as int;
    lemma_head_reads(data, head, spelled, shared, padding);
    assert(data.subrange(at, before.len() as int) =~= fields.take(i).flatten());
    lemma_fields_read(data, at, fields, lengths(frames), i as nat);
    assert(frame_size::frame_size_at(data, before.len() as int) is None) by {
        if kept == 1 {
            assert(data[before.len() as int] == fields[i][0]);
        }
    }
    if i < spelled {
        split::lemma_run_stays_short(data, at, i as nat, spelled);
    }
    assert(data.take(before.len() as int) =~= before);
}

/// A packet that breaks off within frame `i`, after the bytes `part` of it, is
/// refused. What was copied are the bytes before the last length field and the
/// frames before that one.
pub proof fn law_cut_frame_is_refused(
    head: Seq<u8>,
    spelled: nat,
    shared: nat,
    padding: nat,
    fields: Seq<Seq<u8>>,
    frames: Seq<Seq<u8>>,
    i: int,
    part: Seq<u8>,
)
    requires
        ({
            ||| head.len() == 1 && head[0] % 4 == 0 && spelled == 0 && shared == 1 && padding == 0
            ||| head.len() == 1 && head[0] % 4 == 1 && spelled == 0 && shared == 2 && padding == 0
            ||| head.len() == 1 && head[0] % 4 == 2 && spelled == 1 && shared == 1 && padding == 0
            ||| {
                &&& head.len() >= 2
                &&& head[0] % 4 == 3
                &&& head[1] % 64 >= 1
                &&& spelled + shared == head[1] % 64
                &&& if head[1] >= 128 {
                    shared == 1
                } else {
                    spelled == 0
                }
                &&& if head[1] % 128 >= 64 {
                    &&& head.len() >= 3
                    &&& forall|i: int| 2 <= i < head.len() - 1 ==> head[i] == 255
                    &&& head.last() != 255
                    &&& padding == 254 * (head.len() - 3) + head.last()
                } else {
                    head.len() == 2 && padding == 0
                }
            }
        }),
        fields.len() == spelled + 1,
        frames.len() == spelled + shared,
        forall|i: int|
            0 <= i < fields.len() ==> {
                ||| (#[trigger] fields[i]).len() == 1 && fields[i][0] < 252 && fields[i][0]
                    == frames[i].len()
                ||| fields[i].len() == 2 && fields[i][0] >= 252 && fields[i][0] + 4 * fields[i][1]
                    == frames[i].len()
            },
        forall|i: int|
            spelled <= i < frames.len() ==> (#[trigger] frames[i]).len() == frames[spelled
                as int].len(),
        0 <= i < frames.len(),
        part.len() < frames[i].len(),
    ensures
        ({
            let whole = head + fields.flatten() + frames.take(i).flatten();
            let r = framing::split(whole + part);
            &&& r.outcome == Err::<nat, Seq<char>>(
                if whole.len() + frames[i].len() > usize::MAX {
                    "frame length overflow"@
                } else {
                    "truncated frame in self-delimited packet"@
                },
            )
            &&& r.written == head + fields.drop_last().flatten() + frames.take(i).flatten()
        }),
{
    let sizes = lengths(frames);
    let start = frames.take(i).flatten();
    let rest = start + part;
    let data = head + fields.flatten() + start + part;
    assert(data =~= head + fields.flatten() + rest);
    lemma_layout_reads(head, spelled, shared, padding, fields, sizes, rest);
    lemma_total_is_length(frames.take(i));
    assert(lengths(frames.take(i)) =~= sizes.take(i));
    assert(sizes.take(i + 1).drop_last() =~= sizes.take(i));
    let room = rest.len() as int;
    split::lemma_fitting_stops(sizes, i, room);
    let layout = framing::self_delimited_layout(data)->Ok_0;
    assert(data.take(layout.cut) =~= head + fields.drop_last().flatten());
    assert(data.subrange(layout.body, layout.body + start.len()) =~= start);
}

/// A packet that breaks off within its padding is refused. What was copied are
/// the bytes before the last length field and the frames.
pub proof fn law_cut_padding_is_refused(
    head: Seq<u8>,
    spelled: nat,
    shared: nat,
    padding: nat,
    fields: Seq<Seq<u8>>,
    frames: Seq<Seq<u8>>,
    part: Seq<u8>,
)
    requires
        ({
            ||| head.len() == 1 && head[0] % 4 == 0 && spelled == 0 && shared == 1 && padding == 0
            ||| head.len() == 1 && head[0] % 4 == 1 && spelled == 0 && shared == 2 && padding == 0
            ||| head.len() == 1 && head[0] % 4 == 2 && spelled == 1 && shared == 1 && padding == 0
            ||| {
                &&& head.len() >= 2
                &&& head[0] % 4 == 3
                &&& head[1] % 64 >= 1
                &&& spelled + shared == head[1] % 64
                &&& if head[1] >= 128 {
                    shared == 1
                } else {
                    spelled == 0
                }
                &&& if head[1] % 128 >= 64 {
                    &&& head.len() >= 3
                    &&& forall|i: int| 2 <= i < head.len() - 1 ==> head[i] == 255
                    &&& head.last() != 255
                    &&& padding == 254 * (head.len() - 3) + head.last()
                } else {
                    head.len() == 2 && padding == 0
                }
            }
        }),
        fields.len() == spelled + 1,
        frames.len() == spelled + shared,
        forall|i: int|
            0 <= i < fields.len() ==> {
                ||| (#[trigger] fields[i]).len() == 1 && fields[i][0] < 252 && fields[i][0]
                    == frames[i].len()
                ||| fields[i].len() == 2 && fields[i][0] >= 252 && fields[i][0] + 4 * fields[i][1]
                    == frames[i].len()
            },
        forall|i: int|
            spelled <= i < frames.len() ==> (#[trigger] frames[i]).len() == frames[spelled
                as int].len(),
        part.len() < padding,
    ensures
        ({
            let r = framing::split(head + fields.flatten() + frames.flatten() + part);
            &&& r.outcome == Err::<nat, Seq<char>>("truncated code-3 padding"@)
            &&& r.written == head + fields.drop_last().flatten() + frames.flatten()
        }),
{
    let sizes = lengths(frames);
    let rest = frames.flatten() + part;
    let data = head + fields.flatten() + frames.flatten() + part;
    assert(data =~= head + fields.flatten() + rest);
    lemma_layout_reads(head, spelled, shared, padding, fields, sizes, rest);
    lemma_total_is_length(frames);
    let layout = framing::self_delimited_layout(data)->Ok_0;
    assert(data.take(layout.cut) =~= head + fields.drop_last().flatten());
    assert(data.subrange(layout.body, layout.body + frames.flatten().len()) =~= frames.flatten());
}

/// Without a TOC byte, or, for code 3, without a count byte, there is no packet.
pub proof fn law_missing_first_bytes_are_refused(toc: u8)
    requires
        toc % 4 == 3,
    ensures
        framing::split(seq![]).outcome == Err::<nat, Seq<char>>("empty multistream packet"@),
        framing::split(seq![toc]).outcome == Err::<nat, Seq<char>>(
            "truncated code-3 frame-count byte"@,
        ),
        framing::split(seq![toc]).written == seq![toc],
{
    assert(seq![toc].take(1) =~= seq![toc]);
}

/// A code 3 packet of no frames is refused, whatever else its count byte says.
pub proof fn law_zero_frames_are_refused(toc: u8, count: u8, after: Seq<u8>)
    requires
        toc % 4 == 3,
        count % 64 == 0,
    ensures
        ({
            let r = framing::split(seq![toc, count] + after);
            &&& r.outcome == Err::<nat, Seq<char>>("code-3 packet declares zero frames"@)
            &&& r.written == seq![toc, count]
        }),
{
    assert((seq![toc, count] + after).take(2) =~= seq![toc, count]);
}

/// A chain of padding lengths in which no byte but 255 comes is refused.
pub proof fn law_endless_padding_chain_is_refused(toc: u8, count: u8, chain: Seq<u8>)
    requires
        toc % 4 == 3,
        count % 64 != 0,
        count % 128 >= 64,
        forall|i: int| 0 <= i < chain.len() ==> chain[i] == 255,
    ensures
        ({
            let r = framing::split(seq![toc, count] + chain);
            &&& r.outcome == Err::<nat, Seq<char>>("truncated padding length chain"@)
            &&& r.written == seq![toc, count] + chain
        }),
{
    let data = seq![toc, count] + chain;
    assert forall|i: int| 2 <= i < data.len() implies data[i] == 255 by {
        assert(data[i] == chain[i - 2]);
    }
    lemma_chain_without_end(data, 2);
    assert(data.take(data.len() as int) =~= data);
}

/// Of the TOC byte only the two lowest bits bear on the framing: with any other
/// TOC byte of the same two bits, the same comes out but for that byte.
pub proof fn law_toc_counts_by_its_two_lowest_bits(data: Seq<u8>, toc: u8)
    requires
        data.len() > 0,
        toc & 3 == data[0] & 3,
    ensures
        framing::split(data.update(0, toc)).outcome == framing::split(data).outcome,
        framing::split(data.update(0, toc)).written == framing::split(data).written.update(0, toc),
{
    let other = data.update(0, toc);
    let first = data[0];
    assert(first & 3 == first % 4) by (bit_vector);
    assert(toc & 3 == toc % 4) by (bit_vector);
    lemma_layout_ignores_toc(data, other);
    match framing::self_delimited_layout(data) {
        Err(fault) => {
            assert(other.take(fault.at) =~= data.take(fault.at).update(0, toc));
        },
        Ok(layout) => {
            let room = data.len() - layout.body;
            let size = framing::total(layout.sizes);
            lemma_fitting_is_within(layout.sizes, room);
            let copied = if size > room {
                framing::fitting(layout.sizes, room) as int
            } else if layout.end() > data.len() {
                size as int
            } else {
                (size + layout.padding) as int
            };
            lemma_copy_ignores_toc(data, toc, layout.cut, layout.body, layout.body + copied);
        },
    }
}

/// One frame of fewer than 252 bytes: `[toc, n]` and the frame become `[toc]`
/// and the frame.
pub proof fn law_code_0_in_bytes(toc: u8, frame: Seq<u8>, after: Seq<u8>)
    requires
        toc & 3 == 0,
        frame.len() < 252,
    ensures
        ({
            let r = framing::split(seq![toc, frame.len() as u8] + frame + after);
            &&& r.outcome == Ok::<nat, Seq<char>>(frame.len() + 2)
            &&& r.written == seq![toc] + frame
        }),
{
    assert(toc & 3 == toc % 4) by (bit_vector);
    let n = frame.len() as u8;
    let fields = seq![seq![n]];
    lemma_one_field(n);
    lemma_repeated_total(frame.len(), 1);
    lemma_split_whole(
        seq![toc],
        0,
        1,
        0,
        fields,
        framing::repeated(frame.len(), 1),
        frame,
        seq![],
        after,
    );
    assert(seq![toc] + fields.flatten() + frame + seq![] + after =~= seq![toc, n] + frame + after);
    assert(seq![toc] + fields.drop_last().flatten() + frame + seq![] =~= seq![toc] + frame);
}

/// Two frames of `n` bytes, fewer than 252: `[toc, n]` and the frames become
/// `[toc]` and the frames.
pub proof fn law_code_1_in_bytes(toc: u8, n: u8, frames: Seq<u8>, after: Seq<u8>)
    requires
        toc & 3 == 1,
        n < 252,
        frames.len() == 2 * n,
    ensures
        ({
            let r = framing::split(seq![toc, n] + frames + after);
            &&& r.outcome == Ok::<nat, Seq<char>>((2 * n + 2) as nat)
            &&& r.written == seq![toc] + frames
        }),
{
    assert(toc & 3 == toc % 4) by (bit_vector);
    let fields = seq![seq![n]];
    lemma_one_field(n);
    lemma_repeated_total(n as nat, 2);
    lemma_split_whole(
        seq![toc],
        0,
        2,
        0,
        fields,
        framing::repeated(n as nat, 2),
        frames,
        seq![],
        after,
    );
    assert(seq![toc] + fields.flatten() + frames + seq![] + after =~= seq![toc, n] + frames
        + after);
    assert(seq![toc] + fields.drop_last().flatten() + frames + seq![] =~= seq![toc] + frames);
}

/// Two frames of fewer than 252 bytes each, of sizes of their own: of the two
/// lengths the first stays.
pub proof fn law_code_2_in_bytes(toc: u8, first: Seq<u8>, second: Seq<u8>, after: Seq<u8>)
    requires
        toc & 3 == 2,
        first.len() < 252,
        second.len() < 252,
    ensures
        ({
            let a = first.len() as u8;
            let b = second.len() as u8;
            let r = framing::split(seq![toc, a, b] + first + second + after);
            &&& r.outcome == Ok::<nat, Seq<char>>(first.len() + second.len() + 3)
            &&& r.written == seq![toc, a] + first + second
        }),
{
    assert(toc & 3 == toc % 4) by (bit_vector);
    let a = first.len() as u8;
    let b = second.len() as u8;
    let fields = seq![seq![a], seq![b]];
    let frames = seq![first, second];
    reveal_with_fuel(Seq::<_>::flatten, 4);
    assert(fields.drop_first() =~= seq![seq![b]]);
    assert(seq![seq![b]].drop_first() =~= seq![]);
    assert(fields.drop_last() =~= seq![seq![a]]);
    assert(seq![seq![a]].drop_first() =~= seq![]);
    assert(frames.drop_first() =~= seq![second]);
    assert(seq![second].drop_first() =~= seq![]);
    assert(fields.flatten() =~= seq![a, b]);
    assert(fields.drop_last().flatten() =~= seq![a]);
    assert(frames.flatten() =~= first + second);
    law_whole_packet_is_split(seq![toc], 1, 1, 0, fields, frames, seq![], after);
    assert(seq![toc] + fields.flatten() + frames.flatten() + seq![] + after =~= seq![toc, a, b]
        + first + second + after);
    assert(seq![toc] + fields.drop_last().flatten() + frames.flatten() + seq![] =~= seq![toc, a]
        + first + second);
}

/// Code 3 with frames of one size: whatever the count from 1 to 63, the frames
/// follow one length, and that length is all that goes.
pub proof fn law_code_3_equal_frames_in_bytes(
    toc: u8,
    count: u8,
    n: u8,
    frames: Seq<u8>,
    after: Seq<u8>,
)
    requires
        toc & 3 == 3,
        1 <= count <= 63,
        n < 252,
        frames.len() == count * n,
    ensures
        ({
            let r = framing::split(seq![toc, count, n] + frames + after);
            &&& r.outcome == Ok::<nat, Seq<char>>((3 + count * n) as nat)
            &&& r.written == seq![toc, count] + frames
        }),
{
    assert(toc & 3 == toc % 4) by (bit_vector);
    let fields = seq![seq![n]];
    lemma_one_field(n);
    lemma_repeated_total(n as nat, count as nat);
    vstd::arithmetic::mul::lemma_mul_is_commutative(count as int, n as int);
    lemma_split_whole(
        seq![toc, count],
        0,
        count as nat,
        0,
        fields,
        framing::repeated(n as nat, count as nat),
        frames,
        seq![],
        after,
    );
    assert(seq![toc, count] + fields.flatten() + frames + seq![] + after =~= seq![toc, count, n]
        + frames + after);
    assert(seq![toc, count] + fields.drop_last().flatten() + frames + seq![] =~= seq![toc, count]
        + frames);
}

/// Code 3 with frames of sizes of their own, of fewer than 252 bytes each:
/// whatever the count from 1 to 63, there is a length per frame, and only the
/// last of them goes.
pub proof fn law_code_3_unequal_frames_in_bytes(toc: u8, frames: Seq<Seq<u8>>, after: Seq<u8>)
    requires
        toc & 3 == 3,
        1 <= frames.len() <= 63,
        forall|i: int| 0 <= i < frames.len() ==> (#[trigger] frames[i]).len() < 252,
    ensures
        ({
            let count = (128 + frames.len()) as u8;
            let lengths = Seq::new(frames.len(), |i: int| frames[i].len() as u8);
            let r = framing::split(seq![toc, count] + lengths + frames.flatten() + after);
            &&& r.outcome == Ok::<nat, Seq<char>>(2 + frames.len() + frames.flatten().len())
            &&& r.written == seq![toc, count] + lengths.drop_last() + frames.flatten()
        }),
{
    assert(toc & 3 == toc % 4) by (bit_vector);
    let count = (128 + frames.len()) as u8;
    let bytes = Seq::new(frames.len(), |i: int| frames[i].len() as u8);
    let fields = Seq::new(frames.len(), |i: int| seq![frames[i].len() as u8]);
    let head = seq![toc, count];
    lemma_singles_flatten(bytes, fields);
    lemma_singles_flatten(bytes.drop_last(), fields.drop_last());
    law_whole_packet_is_split(
        head,
        (frames.len() - 1) as nat,
        1,
        0,
        fields,
        frames,
        seq![],
        after,
    );
    assert(head + fields.flatten() + frames.flatten() + seq![] + after =~= head + bytes
        + frames.flatten() + after);
    assert(head + fields.drop_last().flatten() + frames.flatten() + seq![] =~= head
        + bytes.drop_last() + frames.flatten());
}

/// A padded packet keeps its padding: `k` bytes 255 and a byte `last` other
/// than 255 stand for `254 * k + last` bytes after the frame.
pub proof fn law_padding_in_bytes(
    toc: u8,
    k: nat,
    last: u8,
    frame: Seq<u8>,
    pad: Seq<u8>,
    after: Seq<u8>,
)
    requires
        toc & 3 == 3,
        last < 255,
        frame.len() < 252,
        pad.len() == 254 * k + last,
    ensures
        ({
            let head = seq![toc, 0x41] + Seq::new(k, |i: int| 255u8) + seq![last];
            let r = framing::split(head + seq![frame.len() as u8] + frame + pad + after);
            &&& r.outcome == Ok::<nat, Seq<char>>(4 + k + frame.len() + pad.len())
            &&& r.written == head + frame + pad
        }),
{
    assert(toc & 3 == toc % 4) by (bit_vector);
    let head = seq![toc, 0x41] + Seq::new(k, |i: int| 255u8) + seq![last];
    let n = frame.len() as u8;
    let fields = seq![seq![n]];
    lemma_one_field(n);
    lemma_repeated_total(frame.len(), 1);
    lemma_split_whole(
        head,
        0,
        1,
        pad.len(),
        fields,
        framing::repeated(frame.len(), 1),
        frame,
        pad,
        after,
    );
    assert(head + fields.flatten() + frame + pad + after =~= head + seq![n] + frame + pad + after);
    assert(head + fields.drop_last().flatten() + frame + pad =~= head + frame + pad);
}

/// Whether `head` is a packet's first bytes, with `spelled` lengths of frames
/// of sizes of their own before the length that `shared` frames share.
spec fn opens(head: Seq<u8>, spelled: nat, shared: nat, padding: nat) -> bool {
    ||| head.len() == 1 && head[0] % 4 == 0 && spelled == 0 && shared == 1 && padding == 0
    ||| head.len() == 1 && head[0] % 4 == 1 && spelled == 0 && shared == 2 && padding == 0
    ||| head.len() == 1 && head[0] % 4 == 2 && spelled == 1 && shared == 1 && padding == 0
    ||| {
        &&& head.len() >= 2
        &&& head[0] % 4 == 3
        &&& head[1] % 64 >= 1
        &&& spelled + shared == head[1] % 64
        &&& if head[1] >= 128 {
            shared == 1
        } else {
            spelled == 0
        }
        &&& if head[1] % 128 >= 64 {
            &&& head.len() >= 3
            &&& forall|i: int| 2 <= i < head.len() - 1 ==> head[i] == 255
            &&& head.last() != 255
            &&& padding == 254 * (head.len() - 3) + head.last()
        } else {
            head.len() == 2 && padding == 0
        }
    }
}

/// Whether a length field says `size`.
spec fn says(field: Seq<u8>, size: nat) -> bool {
    ||| field.len() == 1 && field[0] < 252 && field[0] == size
    ||| field.len() == 2 && field[0] >= 252 && field[0] + 4 * field[1] == size
}

spec fn lengths(frames: Seq<Seq<u8>>) -> Seq<nat> {
    Seq::new(frames.len(), |i: int| frames[i].len())
}

/// The lengths of a packet are read as they are written.
proof fn lemma_layout_reads(
    head: Seq<u8>,
    spelled: nat,
    shared: nat,
    padding: nat,
    fields: Seq<Seq<u8>>,
    sizes: Seq<nat>,
    rest: Seq<u8>,
)
    requires
        opens(head, spelled, shared, padding),
        fields.len() == spelled + 1,
        sizes.len() == spelled + shared,
        forall|i: int| 0 <= i < fields.len() ==> says(#[trigger] fields[i], sizes[i]),
        forall|i: int| spelled <= i < sizes.len() ==> sizes[i] == sizes[spelled as int],
    ensures
        framing::self_delimited_layout(head + fields.flatten() + rest) == Ok::<
            framing::Layout,
            framing::Fault,
        >(
            framing::Layout {
                cut: (head.len() + fields.drop_last().flatten().len()) as int,
                body: (head.len() + fields.flatten().len()) as int,
                sizes,
                padding,
            },
        ),
        fields.flatten() == fields.drop_last().flatten() + fields.last(),
{
    let data = head + fields.flatten() + rest;
    let at = head.len() as int;
    lemma_flatten_take(fields, spelled as int);
    assert(fields.take(spelled as int + 1) =~= fields);
    assert(fields.take(spelled as int) =~= fields.drop_last());
    let cut = at + fields.drop_last().flatten().len();
    lemma_head_reads(data, head, spelled, shared, padding);
    assert(data.subrange(at, cut) =~= fields.take(spelled as int).flatten());
    lemma_fields_read(data, at, fields, sizes, spelled);
    let last = fields.last();
    assert(says(last, sizes[spelled as int]));
    assert(data[cut] == last[0]);
    if last.len() == 2 {
        assert(data[cut + 1] == last[1]);
    }
    let run = framing::length_run(data, at, spelled);
    assert(run.sizes + framing::repeated(sizes[spelled as int], shared) =~= sizes);
}

/// A whole packet is split off.
proof fn lemma_split_whole(
    head: Seq<u8>,
    spelled: nat,
    shared: nat,
    padding: nat,
    fields: Seq<Seq<u8>>,
    sizes: Seq<nat>,
    body: Seq<u8>,
    pad: Seq<u8>,
    after: Seq<u8>,
)
    requires
        opens(head, spelled, shared, padding),
        fields.len() == spelled + 1,
        sizes.len() == spelled + shared,
        forall|i: int| 0 <= i < fields.len() ==> says(#[trigger] fields[i], sizes[i]),
        forall|i: int| spelled <= i < sizes.len() ==> sizes[i] == sizes[spelled as int],
        body.len() == framing::total(sizes),
        pad.len() == padding,
    ensures
        ({
            let packet = head + fields.flatten() + body + pad;
            let r = framing::split(packet + after);
            &&& r.outcome == Ok::<nat, Seq<char>>(packet.len())
            &&& r.written == head + fields.drop_last().flatten() + body + pad
        }),
{
    let packet = head + fields.flatten() + body + pad;
    let data = packet + after;
    let rest = body + pad + after;
    assert(data =~= head + fields.flatten() + rest);
    lemma_layout_reads(head, spelled, shared, padding, fields, sizes, rest);
    let layout = framing::self_delimited_layout(data)->Ok_0;
    assert(data.take(layout.cut) =~= head + fields.drop_last().flatten());
    assert(data.subrange(layout.body, layout.end()) =~= body + pad);
    assert(framing::split(data).written =~= head + fields.drop_last().flatten() + body + pad);
}

proof fn lemma_head_reads(data: Seq<u8>, head: Seq<u8>, spelled: nat, shared: nat, padding: nat)
    requires
        opens(head, spelled, shared, padding),
        head.len() <= data.len(),
        forall|i: int| 0 <= i < head.len() ==> #[trigger] data[i] == head[i],
    ensures
        framing::preamble(data) == Ok::<framing::Preamble, framing::Fault>(
            framing::Preamble {
                end: head.len() as int,
                explicit: spelled,
                implicit: shared,
                padding,
            },
        ),
{
    assert(data[0] == head[0]);
    if head[0] % 4 == 3 {
        assert(data[1] == head[1]);
        if head[1] % 128 >= 64 {
            assert(data[head.len() - 1] == head.last());
            lemma_chain_reads(data, 2, head.len() as int);
        }
    }
}

proof fn lemma_chain_reads(data: Seq<u8>, at: int, end: int)
    requires
        0 <= at < end <= data.len(),
        forall|i: int| at <= i < end - 1 ==> data[i] == 255,
        data[end - 1] != 255,
    ensures
        framing::padding_chain(data, at) == Some(
            ((254 * (end - 1 - at) + data[end - 1]) as nat, end),
        ),
    decreases end - at,
{
    if at + 1 < end {
        lemma_chain_reads(data, at + 1, end);
    }
}

proof fn lemma_chain_without_end(data: Seq<u8>, at: int)
    requires
        0 <= at,
        forall|i: int| at <= i < data.len() ==> data[i] == 255,
    ensures
        framing::padding_chain(data, at) is None,
    decreases data.len() - at,
{
    if at < data.len() {
        lemma_chain_without_end(data, at + 1);
    }
}

/// The first `count` length fields of a packet are read as they are written.
proof fn lemma_fields_read(
    data: Seq<u8>,
    at: int,
    fields: Seq<Seq<u8>>,
    sizes: Seq<nat>,
    count: nat,
)
    requires
        0 <= at,
        count <= fields.len(),
        count <= sizes.len(),
        at + fields.take(count as int).flatten().len() <= data.len(),
        data.subrange(at, at + fields.take(count as int).flatten().len()) == fields.take(
            count as int,
        ).flatten(),
        forall|i: int| 0 <= i < count ==> says(#[trigger] fields[i], sizes[i]),
    ensures
        framing::length_run(data, at, count) == (framing::LengthRun {
            sizes: sizes.take(count as int),
            end: at + fields.take(count as int).flatten().len(),
        }),
    decreases count,
{
    if count == 0 {
        assert(fields.take(0) =~= seq![]);
        assert(sizes.take(0) =~= seq![]);
    } else {
        let shorter = (count - 1) as nat;
        let field = fields[count - 1];
        lemma_flatten_take(fields, count - 1);
        let all = fields.take(count as int).flatten();
        let start = fields.take(count - 1).flatten();
        let mid = at + start.len();
        assert(data.subrange(at, mid) =~= start) by {
            assert forall|i: int| 0 <= i < start.len() implies data[at + i] == start[i] by {
                assert(data.subrange(at, at + all.len())[i] == all[i]);
            }
        }
        lemma_fields_read(data, at, fields, sizes, shorter);
        assert(says(field, sizes[count - 1]));
        assert(data.subrange(at, at + all.len())[start.len() as int] == field[0]);
        if field.len() == 2 {
            assert(data.subrange(at, at + all.len())[start.len() as int + 1] == field[1]);
        }
        assert(sizes.take(count as int) =~= sizes.take(count - 1).push(sizes[count - 1]));
    }
}

proof fn lemma_flatten_take(parts: Seq<Seq<u8>>, i: int)
    requires
        0 <= i < parts.len(),
    ensures
        parts.take(i + 1).flatten() == parts.take(i).flatten() + parts[i],
{
    assert(parts.take(i + 1) =~= parts.take(i).push(parts[i]));
    parts.take(i).lemma_flatten_push(parts[i]);
}

proof fn lemma_total_is_length(frames: Seq<Seq<u8>>)
    ensures
        framing::total(lengths(frames)) == frames.flatten().len(),
    decreases frames.len(),
{
    if frames.len() > 0 {
        let shorter = frames.drop_last();
        lemma_total_is_length(shorter);
        assert(lengths(frames).drop_last() =~= lengths(shorter));
        assert(frames =~= shorter.push(frames.last()));
        shorter.lemma_flatten_push(frames.last());
    }
}

proof fn lemma_repeated_total(size: nat, count: nat)
    ensures
        framing::total(framing::repeated(size, count)) == size * count,
{
    framing_laws::lemma_total_with_repeated(seq![], size, count);
    assert(seq![] + framing::repeated(size, count) =~= framing::repeated(size, count));
}

proof fn lemma_one_field(n: u8)
    ensures
        seq![seq![n]].flatten() == seq![n],
        seq![seq![n]].drop_last().flatten() == Seq::<u8>::empty(),
{
    seq![seq![n]].lemma_flatten_one_element();
    assert(seq![seq![n]].drop_last() =~= seq![]);
}

/// Fields of one byte each are the bytes in a row.
proof fn lemma_singles_flatten(bytes: Seq<u8>, fields: Seq<Seq<u8>>)
    requires
        fields.len() == bytes.len(),
        forall|i: int| 0 <= i < fields.len() ==> (#[trigger] fields[i]) == seq![bytes[i]],
    ensures
        fields.flatten() == bytes,
    decreases fields.len(),
{
    if fields.len() == 0 {
        assert(bytes =~= seq![]);
    } else {
        let shorter = fields.drop_last();
        lemma_singles_flatten(bytes.drop_last(), shorter);
        assert(fields =~= shorter.push(fields.last()));
        shorter.lemma_flatten_push(fields.last());
        assert(bytes =~= bytes.drop_last() + seq![bytes.last()]);
    }
}

proof fn lemma_layout_ignores_toc(data: Seq<u8>, other: Seq<u8>)
    requires
        data.len() == other.len() > 0,
        data[0] % 4 == other[0] % 4,
        forall|i: int| 1 <= i < data.len() ==> #[trigger] data[i] == other[i],
    ensures
        framing::self_delimited_layout(other) == framing::self_delimited_layout(data),
        match framing::self_delimited_layout(data) {
            Ok(layout) => 1 <= layout.cut <= layout.body <= data.len(),
            Err(fault) => 1 <= fault.at <= data.len(),
        },
{
    lemma_chain_ignores_toc(data, other, 2);
    framing::lemma_preamble_bounds(data);
    if data.len() > 1 {
        assert(data[1] == other[1]);
    }
    if let Ok(pre) = framing::preamble(data) {
        lemma_run_ignores_toc(data, other, pre.end, pre.explicit);
        framing::lemma_run_bounds(data, pre.end, pre.explicit);
    }
}

proof fn lemma_copy_ignores_toc(data: Seq<u8>, toc: u8, cut: int, body: int, end: int)
    requires
        1 <= cut <= body <= end <= data.len(),
    ensures
        data.update(0, toc).take(cut) + data.update(0, toc).subrange(body, end) == (data.take(cut)
            + data.subrange(body, end)).update(0, toc),
{
    assert(data.update(0, toc).take(cut) + data.update(0, toc).subrange(body, end) =~= (data.take(
        cut,
    ) + data.subrange(body, end)).update(0, toc));
}

proof fn lemma_fitting_is_within(sizes: Seq<nat>, room: int)
    requires
        0 <= room,
    ensures
        framing::fitting(sizes, room) <= room,
    decreases sizes.len(),
{
    if sizes.len() > 0 && framing::total(sizes) > room {
        lemma_fitting_is_within(sizes.drop_last(), room);
    }
}

proof fn lemma_chain_ignores_toc(data: Seq<u8>, other: Seq<u8>, at: int)
    requires
        1 <= at,
        data.len() == other.len(),
        forall|i: int| 1 <= i < data.len() ==> #[trigger] data[i] == other[i],
    ensures
        framing::padding_chain(other, at) == framing::padding_chain(data, at),
    decreases data.len() - at,
{
    if at < data.len() {
        assert(data[at] == other[at]);
        lemma_chain_ignores_toc(data, other, at + 1);
    }
}

proof fn lemma_run_ignores_toc(data: Seq<u8>, other: Seq<u8>, at: int, count: nat)
    requires
        1 <= at <= data.len(),
        data.len() == other.len(),
        forall|i: int| 1 <= i < data.len() ==> #[trigger] data[i] == other[i],
    ensures
        framing::length_run(other, at, count) == framing::length_run(data, at, count),
    decreases count,
{
    if count > 0 {
        lemma_run_ignores_toc(data, other, at, (count - 1) as nat);
        framing::lemma_run_bounds(data, at, (count - 1) as nat);
    }
}

} // verus!
