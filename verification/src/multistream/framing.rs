//! What Opus framing says of a packet's bytes, in its normal and in its
//! self-delimiting form.
//!
//! Both forms begin alike: the TOC byte, for code 3 a frame count byte and a
//! chain of padding lengths, then the frame lengths that normal framing spells
//! out. Normal framing leaves the size of the last frame, or the size that all
//! frames share, to be worked out from the length of the packet. Self-delimiting
//! framing states that size in one more length field, and so needs no packet
//! length from outside. Frames and padding follow in both.

use crate::frame_size;
use vstd::prelude::*;

verus! {

/// The part of a packet before its frame lengths.
pub struct Preamble {
    /// Where the frame lengths begin.
    pub end: int,
    /// Frame lengths that normal framing spells out.
    pub explicit: nat,
    /// Frames of the one size that normal framing leaves to be worked out.
    /// They are the last frames of the packet.
    pub implicit: nat,
    /// Padding bytes after the frames.
    pub padding: nat,
}

/// Why a packet cannot be read, and how many of its bytes precede the fault.
pub struct Fault {
    pub at: int,
    pub message: Seq<char>,
}

/// A run of frame lengths: those that could be read, and where the run ends.
pub struct LengthRun {
    pub sizes: Seq<nat>,
    pub end: int,
}

/// Where the frames of a packet lie.
pub struct Layout {
    /// Where the length field begins that only self-delimiting framing has. In
    /// normal framing, which has none, this is where the frames begin.
    pub cut: int,
    /// Where the frames begin.
    pub body: int,
    /// The sizes of the frames, in order.
    pub sizes: Seq<nat>,
    /// Padding bytes after the frames.
    pub padding: nat,
}

impl Layout {
    /// Where the packet ends.
    pub open spec fn end(self) -> int {
        self.body + total(self.sizes) + self.padding
    }

    /// The bytes of frame `i` in `data`.
    pub open spec fn frame(self, data: Seq<u8>, i: int) -> Seq<u8> {
        let start = self.body + total(self.sizes.take(i));
        data.subrange(start, start + self.sizes[i])
    }
}

/// What becomes of the leading self-delimited packet of some input: what is
/// written as its normal form, and the bytes it occupies or the reason why it
/// cannot be split off.
pub struct Split {
    pub written: Seq<u8>,
    pub outcome: Result<nat, Seq<char>>,
}

/// The frame packing code of a TOC byte: its low two bits.
pub open spec fn packing_code(toc: u8) -> u8 {
    toc % 4
}

/// Frames that a frame count byte announces: its low six bits.
pub open spec fn frame_count(count_byte: u8) -> nat {
    (count_byte % 64) as nat
}

/// Whether a frame count byte announces padding: bit 6.
pub open spec fn announces_padding(count_byte: u8) -> bool {
    count_byte % 128 >= 64
}

/// Whether a frame count byte announces frames of different sizes: bit 7.
pub open spec fn announces_vbr(count_byte: u8) -> bool {
    count_byte >= 128
}

/// The padding that a chain of padding lengths at position `at` adds up to,
/// and where the chain ends. The byte 255 stands for 254 bytes of padding and
/// says that the chain goes on; any other byte stands for itself and ends it.
pub open spec fn padding_chain(data: Seq<u8>, at: int) -> Option<(nat, int)>
    decreases data.len() - at,
{
    if at >= data.len() {
        None
    } else if data[at] == 255 {
        match padding_chain(data, at + 1) {
            Some((padding, end)) => Some((254 + padding, end)),
            None => None,
        }
    } else {
        Some((data[at] as nat, at + 1))
    }
}

/// Up to `count` frame lengths from position `at` on, stopping short of the
/// first that `data` cuts off.
pub open spec fn length_run(data: Seq<u8>, at: int, count: nat) -> LengthRun
    decreases count,
{
    if count == 0 {
        LengthRun { sizes: seq![], end: at }
    } else {
        let run = length_run(data, at, (count - 1) as nat);
        match frame_size::frame_size_at(data, run.end) {
            Some((size, width)) if run.sizes.len() == count - 1 => LengthRun {
                sizes: run.sizes.push(size),
                end: run.end + width,
            },
            _ => run,
        }
    }
}

/// The sum of frame sizes.
pub open spec fn total(sizes: Seq<nat>) -> nat
    decreases sizes.len(),
{
    if sizes.len() == 0 {
        0
    } else {
        total(sizes.drop_last()) + sizes.last()
    }
}

/// The bytes of as many leading frames as fit into `room`.
pub open spec fn fitting(sizes: Seq<nat>, room: int) -> nat
    decreases sizes.len(),
{
    if sizes.len() == 0 || total(sizes) <= room {
        total(sizes)
    } else {
        fitting(sizes.drop_last(), room)
    }
}

/// The bytes of the leading frames up to and with the first that does not fit
/// into `room`.
pub open spec fn overrun(sizes: Seq<nat>, room: int) -> nat
    recommends
        total(sizes) > room,
    decreases sizes.len(),
{
    if sizes.len() == 0 || total(sizes.drop_last()) <= room {
        total(sizes)
    } else {
        overrun(sizes.drop_last(), room)
    }
}

/// `count` frames of one size.
pub open spec fn repeated(size: nat, count: nat) -> Seq<nat> {
    Seq::new(count, |i: int| size)
}

/// The preamble of the packet that `data` begins with.
pub open spec fn preamble(data: Seq<u8>) -> Result<Preamble, Fault> {
    if data.len() == 0 {
        Err(Fault { at: 0, message: "empty multistream packet"@ })
    } else if packing_code(data[0]) == 0 {
        Ok(Preamble { end: 1, explicit: 0, implicit: 1, padding: 0 })
    } else if packing_code(data[0]) == 1 {
        Ok(Preamble { end: 1, explicit: 0, implicit: 2, padding: 0 })
    } else if packing_code(data[0]) == 2 {
        Ok(Preamble { end: 1, explicit: 1, implicit: 1, padding: 0 })
    } else if data.len() == 1 {
        Err(Fault { at: 1, message: "truncated code-3 frame-count byte"@ })
    } else if frame_count(data[1]) == 0 {
        Err(Fault { at: 2, message: "code-3 packet declares zero frames"@ })
    } else {
        let count = frame_count(data[1]);
        let explicit = if announces_vbr(data[1]) {
            (count - 1) as nat
        } else {
            0
        };
        let implicit = (count - explicit) as nat;
        if announces_padding(data[1]) {
            match padding_chain(data, 2) {
                Some((padding, end)) => Ok(Preamble { end, explicit, implicit, padding }),
                None => Err(
                    Fault { at: data.len() as int, message: "truncated padding length chain"@ },
                ),
            }
        } else {
            Ok(Preamble { end: 2, explicit, implicit, padding: 0 })
        }
    }
}

/// The layout of the self-delimited packet that `data` begins with, as its
/// lengths give it. Whether `data` holds all of the frames is not asked here.
pub open spec fn self_delimited_layout(data: Seq<u8>) -> Result<Layout, Fault> {
    match preamble(data) {
        Err(fault) => Err(fault),
        Ok(pre) => {
            let run = length_run(data, pre.end, pre.explicit);
            match frame_size::frame_size_at(data, run.end) {
                Some((size, width)) if run.sizes.len() == pre.explicit => Ok(
                    Layout {
                        cut: run.end,
                        body: run.end + width,
                        sizes: run.sizes + repeated(size, pre.implicit),
                        padding: pre.padding,
                    },
                ),
                _ => Err(Fault { at: run.end, message: "truncated frame length"@ }),
            }
        },
    }
}

/// The layout of the normal packet that `packet` is, from its first byte to
/// its last; `None` where it is not one.
pub open spec fn normal_layout(packet: Seq<u8>) -> Option<Layout> {
    match preamble(packet) {
        Err(_) => None,
        Ok(pre) => {
            let run = length_run(packet, pre.end, pre.explicit);
            let room = packet.len() - run.end - pre.padding - total(run.sizes);
            if run.sizes.len() == pre.explicit && room >= 0 && room % pre.implicit as int == 0 {
                Some(
                    Layout {
                        cut: run.end,
                        body: run.end,
                        sizes: run.sizes + repeated(
                            (room / pre.implicit as int) as nat,
                            pre.implicit,
                        ),
                        padding: pre.padding,
                    },
                )
            } else {
                None
            }
        },
    }
}

/// Splits off the self-delimited packet that `data` begins with. Its normal
/// form is the packet without the length field that normal framing lacks.
pub open spec fn split(data: Seq<u8>) -> Split {
    match self_delimited_layout(data) {
        Err(fault) => Split { written: data.take(fault.at), outcome: Err(fault.message) },
        Ok(layout) => {
            let head = data.take(layout.cut);
            let room = data.len() - layout.body;
            if total(layout.sizes) > room {
                Split {
                    written: head + data.subrange(
                        layout.body,
                        layout.body + fitting(layout.sizes, room),
                    ),
                    outcome: Err(
                        if layout.body + overrun(layout.sizes, room) > usize::MAX {
                            "frame length overflow"@
                        } else {
                            "truncated frame in self-delimited packet"@
                        },
                    ),
                }
            } else if layout.end() > data.len() {
                Split {
                    written: head + data.subrange(
                        layout.body,
                        layout.body + total(layout.sizes),
                    ),
                    outcome: Err("truncated code-3 padding"@),
                }
            } else {
                Split {
                    written: head + data.subrange(layout.body, layout.end()),
                    outcome: Ok(layout.end() as nat),
                }
            }
        },
    }
}

/// A chain of padding lengths is not empty and lies within the input.
pub(crate) proof fn lemma_chain_bounds(data: Seq<u8>, at: int)
    ensures
        padding_chain(data, at) matches Some((_, end)) ==> at < end <= data.len(),
    decreases data.len() - at,
{
    if at < data.len() && data[at] == 255 {
        lemma_chain_bounds(data, at + 1);
    }
}

/// A preamble lies within the input and announces from one to 63 frames.
pub(crate) proof fn lemma_preamble_bounds(data: Seq<u8>)
    ensures
        preamble(data) matches Ok(pre) ==> {
            &&& 1 <= pre.end <= data.len()
            &&& pre.implicit >= 1
            &&& pre.explicit + pre.implicit <= 63
        },
{
    lemma_chain_bounds(data, 2);
}

/// A run of lengths lies within the input and is no longer than asked for.
pub(crate) proof fn lemma_run_bounds(data: Seq<u8>, at: int, count: nat)
    requires
        0 <= at <= data.len(),
    ensures
        at <= length_run(data, at, count).end <= data.len(),
        length_run(data, at, count).sizes.len() <= count,
    decreases count,
{
    if count > 0 {
        lemma_run_bounds(data, at, (count - 1) as nat);
    }
}

} // verus!
