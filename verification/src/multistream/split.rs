//! Splitting self-delimited packets off a multistream packet.

use super::framing;
use crate::frame_size;
use crate::frame_size::parse_frame_size;
use vstd::prelude::*;

verus! {

/// What the preamble of a packet says, as far as splitting needs it.
struct ReadPreamble {
    end: usize,
    explicit: usize,
    implicit: usize,
    /// The padding, or `usize::MAX` where it is larger still.
    padding: usize,
}

impl ReadPreamble {
    /// This is what `pre` says.
    spec fn agrees_with(self, pre: framing::Preamble) -> bool {
        &&& self.end == pre.end
        &&& self.explicit == pre.explicit
        &&& self.implicit == pre.implicit
        &&& self.padding == if pre.padding <= usize::MAX {
            pre.padding as int
        } else {
            usize::MAX as int
        }
    }
}

/// Frame sizes as numbers.
spec fn numbers(sizes: Seq<usize>) -> Seq<nat> {
    sizes.map_values(|n: usize| n as nat)
}

/// Splits one leading self-delimited packet off `data` and returns it with
/// the number of bytes it occupied there. The packet comes back as a normal
/// one, which a standard decoder takes as it is: the length field that only
/// self-delimiting framing has is left out. `scratch` is cleared and holds the
/// normal packet, so that a caller with many packets to split need not
/// allocate for each.
pub fn split_self_delimited<'a>(data: &[u8], scratch: &'a mut Vec<u8>) -> (r: Result<
    (&'a [u8], usize),
    &'static str,
>)
    ensures
        match framing::split(data@).outcome {
            Ok(n) => r matches Ok((packet, consumed)) && packet@ == framing::split(data@).written
                && consumed == n,
            Err(message) => r matches Err(e) && e@ == message,
        },
        final(scratch)@ == if data@.len() == 0 {
            old(scratch)@
        } else {
            framing::split(data@).written
        },
{
    if data.len() == 0 {
        return Err("empty multistream packet");
    }
    let pre: ReadPreamble = copy_preamble(data, scratch)?;
    let ghost spec_pre = framing::preamble(data@)->Ok_0;
    proof {
        framing::lemma_preamble_bounds(data@);
    }

    let mut sizes: Vec<usize> = Vec::with_capacity(pre.explicit + pre.implicit);
    let cut: usize = copy_lengths(data, pre.end, pre.explicit, scratch, &mut sizes)?;
    let ghost run = framing::length_run(data@, spec_pre.end, spec_pre.explicit);
    let (size, width) = parse_frame_size_at(data, cut)?;
    let body: usize = cut + width;

    let mut i: usize = 0;
    while i < pre.implicit
        invariant
            i <= pre.implicit,
            numbers(sizes@) == run.sizes + framing::repeated(size as nat, i as nat),
        decreases pre.implicit - i,
    {
        let ghost before = sizes@;
        sizes.push(size);
        i += 1;
        assert(numbers(sizes@) =~= numbers(before).push(size as nat));
        assert(numbers(sizes@) =~= run.sizes + framing::repeated(size as nat, i as nat));
    }
    assert(framing::self_delimited_layout(data@)->Ok_0.sizes == numbers(sizes@));

    let end: usize = push_frames(data, body, &sizes, scratch)?;
    if data.len() - end < pre.padding {
        return Err("truncated code-3 padding");
    }
    scratch.extend_from_slice(&data[end..end + pre.padding]);
    assert(scratch@ =~= framing::split(data@).written);
    Ok((scratch.as_slice(), end + pre.padding))
}

/// Reads the length field at position `at`.
fn parse_frame_size_at(data: &[u8], at: usize) -> (r: Result<(usize, usize), &'static str>)
    requires
        at <= data@.len(),
    ensures
        match frame_size::frame_size_at(data@, at as int) {
            Some((size, width)) => r matches Ok((s, w)) && s == size && w == width && at + w
                <= data.len(),
            None => r matches Err(e) && e@ == "truncated frame length"@,
        },
{
    let rest: &[u8] = &data[at..data.len()];
    assert(frame_size::frame_size_at(rest@, 0) == frame_size::frame_size_at(data@, at as int));
    parse_frame_size(rest)
}

/// Replaces `scratch` by the preamble of `data` and returns what it says.
fn copy_preamble(data: &[u8], scratch: &mut Vec<u8>) -> (r: Result<ReadPreamble, &'static str>)
    requires
        data@.len() > 0,
    ensures
        match framing::preamble(data@) {
            Ok(pre) => r matches Ok(p) && p.agrees_with(pre) && final(scratch)@ == data@.take(pre.end),
            Err(fault) => r matches Err(e) && e@ == fault.message && final(scratch)@
                == data@.take(fault.at),
        },
{
    let toc: u8 = data[0];
    scratch.clear();
    scratch.push(toc);
    assert(scratch@ =~= data@.take(1));
    assert(toc & 0x03 == toc % 4) by (bit_vector);
    let code: u8 = toc & 0x03;
    if code == 0 {
        return Ok(ReadPreamble { end: 1, explicit: 0, implicit: 1, padding: 0 });
    }
    if code == 1 {
        return Ok(ReadPreamble { end: 1, explicit: 0, implicit: 2, padding: 0 });
    }
    if code == 2 {
        return Ok(ReadPreamble { end: 1, explicit: 1, implicit: 1, padding: 0 });
    }
    if data.len() < 2 {
        return Err("truncated code-3 frame-count byte");
    }
    let fc: u8 = data[1];
    scratch.push(fc);
    assert(scratch@ =~= data@.take(2));
    assert((fc & 0x80 != 0) == (fc >= 128)) by (bit_vector);
    assert((fc & 0x40 != 0) == (fc % 128 >= 64)) by (bit_vector);
    assert(fc & 0x3F == fc % 64) by (bit_vector);
    let vbr: bool = fc & 0x80 != 0;
    let has_padding: bool = fc & 0x40 != 0;
    let m: usize = (fc & 0x3F) as usize;
    if m == 0 {
        return Err("code-3 packet declares zero frames");
    }
    let explicit: usize = if vbr {
        m - 1
    } else {
        0
    };
    let implicit: usize = m - explicit;
    if !has_padding {
        return Ok(ReadPreamble { end: 2, explicit, implicit, padding: 0 });
    }
    let (padding, end) = copy_padding_chain(data, scratch)?;
    Ok(ReadPreamble { end, explicit, implicit, padding })
}

/// Appends the chain of padding lengths at position 2 to `scratch`, and
/// returns the padding it adds up to, at most `usize::MAX`, and where it ends.
fn copy_padding_chain(data: &[u8], scratch: &mut Vec<u8>) -> (r: Result<
    (usize, usize),
    &'static str,
>)
    requires
        data@.len() >= 2,
        old(scratch)@ == data@.take(2),
    ensures
        match framing::padding_chain(data@, 2) {
            Some((padding, end)) => {
                &&& r matches Ok((p, e))
                &&& p == if padding <= usize::MAX {
                    padding as int
                } else {
                    usize::MAX as int
                }
                &&& e == end
                &&& final(scratch)@ == data@.take(end)
            },
            None => r matches Err(e) && e@ == "truncated padding length chain"@ && final(scratch)@
                == data@,
        },
{
    let mut cursor: usize = 2;
    let mut padding: usize = 0;
    let ghost mut sum: nat = 0;
    while cursor < data.len() && data[cursor] == 255
        invariant
            2 <= cursor <= data@.len(),
            scratch@ == data@.take(cursor as int),
            padding == if sum <= usize::MAX {
                sum as int
            } else {
                usize::MAX as int
            },
            framing::padding_chain(data@, 2) == match framing::padding_chain(
                data@,
                cursor as int,
            ) {
                Some((p, e)) => Some((sum + p, e)),
                None => None,
            },
        decreases data@.len() - cursor,
    {
        scratch.push(data[cursor]);
        padding = padding.saturating_add(254);
        cursor += 1;
        proof {
            sum = sum + 254;
            assert(scratch@ =~= data@.take(cursor as int));
        }
    }
    if cursor == data.len() {
        assert(scratch@ =~= data@);
        return Err("truncated padding length chain");
    }
    let last: u8 = data[cursor];
    scratch.push(last);
    assert(scratch@ =~= data@.take(cursor + 1));
    Ok((padding.saturating_add(last as usize), cursor + 1))
}

/// Appends the next `count` length fields at position `at` to `scratch`, and
/// their lengths to `sizes`. Returns where the fields end.
fn copy_lengths(
    data: &[u8],
    at: usize,
    count: usize,
    scratch: &mut Vec<u8>,
    sizes: &mut Vec<usize>,
) -> (r: Result<usize, &'static str>)
    requires
        at <= data@.len(),
        old(scratch)@ == data@.take(at as int),
        old(sizes)@.len() == 0,
    ensures
        ({
            let run = framing::length_run(data@, at as int, count as nat);
            &&& at <= run.end <= data@.len()
            &&& final(scratch)@ == data@.take(run.end)
            &&& if run.sizes.len() == count {
                r matches Ok(end) && end == run.end && numbers(final(sizes)@) == run.sizes
            } else {
                r matches Err(e) && e@ == "truncated frame length"@
            }
        }),
{
    let mut cursor: usize = at;
    let mut i: usize = 0;
    assert(numbers(sizes@) =~= seq![]);
    while i < count
        invariant
            i <= count,
            at <= cursor <= data@.len(),
            scratch@ == data@.take(cursor as int),
            framing::length_run(data@, at as int, i as nat) == (framing::LengthRun {
                sizes: numbers(sizes@),
                end: cursor as int,
            }),
            numbers(sizes@).len() == i,
        decreases count - i,
    {
        let ghost before = sizes@;
        match parse_frame_size_at(data, cursor) {
            Ok((size, width)) => {
                scratch.extend_from_slice(&data[cursor..cursor + width]);
                assert(scratch@ =~= data@.take(cursor + width));
                cursor += width;
                sizes.push(size);
                assert(numbers(sizes@) =~= numbers(before).push(size as nat));
            },
            Err(e) => {
                proof {
                    lemma_run_stays_short(data@, at as int, i as nat, count as nat);
                }
                return Err(e);
            },
        }
        i += 1;
    }
    Ok(cursor)
}

/// Appends the frames of the given sizes, which begin at position `body`, to
/// `scratch`. Returns where they end.
fn push_frames(data: &[u8], body: usize, sizes: &Vec<usize>, scratch: &mut Vec<u8>) -> (r: Result<
    usize,
    &'static str,
>)
    requires
        body <= data@.len(),
    ensures
        ({
            let room = data@.len() - body;
            let all = framing::total(numbers(sizes@)) as int;
            let copied = if all <= room {
                all
            } else {
                framing::fitting(numbers(sizes@), room) as int
            };
            &&& 0 <= copied <= room
            &&& final(scratch)@ == old(scratch)@ + data@.subrange(body as int, body + copied)
            &&& if all <= room {
                r matches Ok(end) && end == body + all
            } else {
                r matches Err(e) && e@ == if body + framing::overrun(numbers(sizes@), room)
                    > usize::MAX {
                    "frame length overflow"@
                } else {
                    "truncated frame in self-delimited packet"@
                }
            }
        }),
{
    let ghost all = numbers(sizes@);
    let ghost room = data@.len() - body;
    let mut cursor: usize = body;
    let mut i: usize = 0;
    assert(scratch@ =~= old(scratch)@ + data@.subrange(body as int, body as int));
    while i < sizes.len()
        invariant
            i <= sizes@.len(),
            all == numbers(sizes@),
            room == data@.len() - body,
            body <= cursor <= data@.len(),
            cursor == body + framing::total(all.take(i as int)),
            scratch@ == old(scratch)@ + data@.subrange(body as int, cursor as int),
        decreases sizes@.len() - i,
    {
        assert(all.take(i + 1).drop_last() =~= all.take(i as int));
        match push_frame(data, cursor, sizes[i], scratch) {
            Ok(end) => {
                cursor = end;
                assert(scratch@ =~= old(scratch)@ + data@.subrange(body as int, cursor as int));
            },
            Err(e) => {
                proof {
                    assert(data@.len() == data.len());
                    lemma_fitting_stops(all, i as int, room);
                }
                return Err(e);
            },
        }
        i += 1;
    }
    assert(all.take(all.len() as int) =~= all);
    Ok(cursor)
}

/// Appends the `n` bytes at position `cursor` to `out` and returns where they end.
pub fn push_frame(data: &[u8], cursor: usize, n: usize, out: &mut Vec<u8>) -> (r: Result<
    usize,
    &'static str,
>)
    ensures
        if cursor + n > usize::MAX {
            r matches Err(e) && e@ == "frame length overflow"@ && final(out)@ == old(out)@
        } else if cursor + n > data@.len() {
            r matches Err(e) && e@ == "truncated frame in self-delimited packet"@ && final(out)@
                == old(out)@
        } else {
            r matches Ok(end) && end == cursor + n && final(out)@ == old(out)@ + data@.subrange(
                cursor as int,
                cursor + n,
            )
        },
{
    let end: usize = match cursor.checked_add(n) {
        Some(end) => end,
        None => {
            return Err("frame length overflow");
        },
    };
    if end > data.len() {
        return Err("truncated frame in self-delimited packet");
    }
    out.extend_from_slice(&data[cursor..end]);
    assert(out@ =~= old(out)@ + data@.subrange(cursor as int, end as int));
    Ok(end)
}

/// A run that a cut-off length has ended gets no longer.
pub(crate) proof fn lemma_run_stays_short(data: Seq<u8>, at: int, stop: nat, count: nat)
    requires
        framing::length_run(data, at, stop).sizes.len() == stop,
        frame_size::frame_size_at(data, framing::length_run(data, at, stop).end) is None,
        stop < count,
    ensures
        framing::length_run(data, at, count) == framing::length_run(data, at, stop),
    decreases count,
{
    if stop + 1 < count {
        lemma_run_stays_short(data, at, stop, (count - 1) as nat);
    }
}

/// Where frame `i` is the first that does not fit, the frames before it are
/// those that fit.
pub(crate) proof fn lemma_fitting_stops(sizes: Seq<nat>, i: int, room: int)
    requires
        0 <= i < sizes.len(),
        framing::total(sizes.take(i)) <= room,
        framing::total(sizes.take(i + 1)) > room,
    ensures
        framing::total(sizes) > room,
        framing::fitting(sizes, room) == framing::total(sizes.take(i)),
        framing::overrun(sizes, room) == framing::total(sizes.take(i + 1)),
    decreases sizes.len(),
{
    if i + 1 == sizes.len() {
        assert(sizes.take(i + 1) =~= sizes);
        assert(sizes.drop_last() =~= sizes.take(i));
        assert(framing::fitting(sizes.take(i), room) == framing::total(sizes.take(i)));
    } else {
        let shorter = sizes.drop_last();
        assert(shorter.take(i) =~= sizes.take(i));
        assert(shorter.take(i + 1) =~= sizes.take(i + 1));
        lemma_fitting_stops(shorter, i, room);
    }
}

} // verus!
