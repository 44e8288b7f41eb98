//! One pass over the streams of a multistream packet.
//!
//! The elementary decoders live outside. A pass tells them what to decode and
//! takes what they report, stream by stream:
//! `begin`, then `next_stream` and `accept` in turn until `next_stream` gives
//! `None`, then `finish`.

use super::demux;
use super::framing;
use super::routing;
use super::split::split_self_delimited;
use super::table::{ChannelMappingTable, SILENT_CHANNEL};
use vstd::prelude::*;

verus! {

/// What the next elementary decoder has to decode.
pub struct StreamRequest<'a> {
    pub stream: usize,
    pub channels: usize,
    pub packet: &'a [u8],
}

/// One pass over the streams of a multistream packet. It says what each
/// elementary decoder has to decode, takes what the decoder reports, and in
/// the end routes the samples to the output.
pub struct PacketPass<'a, S> {
    table: &'a ChannelMappingTable,
    rest: &'a [u8],
    stream: usize,
    frames: usize,
    frame_size: usize,
    silence: S,
    decoded: Vec<S>,
}

/// Where a pass stands.
pub struct PassState<S> {
    pub table: ChannelMappingTable,
    /// What no stream has got yet.
    pub rest: Seq<u8>,
    /// The stream whose report comes next.
    pub stream: int,
    /// Frames that every stream so far decoded.
    pub frames: int,
    /// Frames that the buffer has room for.
    pub frame_size: int,
    pub silence: S,
    /// The interleaved buffer of all streams.
    pub decoded: Seq<S>,
}

impl<S> PassState<S> {
    pub open spec fn well_formed(self) -> bool {
        &&& self.table.well_formed()
        &&& 0 <= self.stream <= self.table.stream_count
        &&& 0 <= self.frames <= self.frame_size
        &&& self.frame_size * self.table.channels <= usize::MAX
        &&& self.decoded.len() == self.frame_size * self.table.decoded_channels()
    }

    /// The state at the start of a pass over `packet`.
    pub open spec fn initial(
        table: ChannelMappingTable,
        packet: Seq<u8>,
        frame_size: int,
        silence: S,
    ) -> Self {
        PassState {
            table,
            rest: packet,
            stream: 0,
            frames: 0,
            frame_size,
            silence,
            decoded: Seq::new((frame_size * table.decoded_channels()) as nat, |p: int| silence),
        }
    }

    /// Whether the stream at hand is the last one.
    pub open spec fn at_last_stream(self) -> bool {
        self.stream + 1 == self.table.stream_count
    }

    /// The state after the packet of the stream at hand was asked for. The
    /// last stream gets all that is left, and any other a split-off packet.
    pub open spec fn requested(self) -> Self {
        PassState {
            rest: if self.at_last_stream() {
                self.rest
            } else {
                demux::rest_after(self.rest, 1)
            },
            ..self
        }
    }

    /// Why a report for the stream at hand ends the pass, if it does.
    pub open spec fn refusal(self, report: Result<usize, &'static str>) -> Option<Seq<char>> {
        match report {
            Err(message) => Some(message@),
            Ok(frames) => if self.stream > 0 && frames != self.frames {
                Some("elementary streams decoded to different frame counts"@)
            } else {
                None
            },
        }
    }

    /// The state after the stream at hand reported its frames and samples.
    pub open spec fn accepting(self, frames: int, samples: Seq<S>) -> Self {
        PassState {
            stream: self.stream + 1,
            frames,
            decoded: routing::scattered(
                self.decoded,
                self.table.decoded_channels(),
                self.table.channel_offset(self.stream),
                self.table.stream_channels(self.stream) as int,
                frames,
                samples,
            ),
            ..self
        }
    }
}

impl<'a, S> View for PacketPass<'a, S> {
    type V = PassState<S>;

    closed spec fn view(&self) -> PassState<S> {
        PassState {
            table: *self.table,
            rest: self.rest@,
            stream: self.stream as int,
            frames: self.frames as int,
            frame_size: self.frame_size as int,
            silence: self.silence,
            decoded: self.decoded@,
        }
    }
}

impl<'a, S: Copy> PacketPass<'a, S> {
    /// Begins the pass over `packet`. `frame_size` is the room for frames per
    /// channel, in the buffers of the elementary decoders and in the output of
    /// `out_len` samples.
    pub fn begin(
        table: &'a ChannelMappingTable,
        packet: &'a [u8],
        frame_size: usize,
        out_len: usize,
        silence: S,
    ) -> (r: Result<Self, &'static str>)
        requires
            table.well_formed(),
            frame_size * table.channels <= usize::MAX,
            out_len >= frame_size * table.channels ==> frame_size * table.decoded_channels()
                <= usize::MAX,
        ensures
            if out_len < frame_size * table.channels {
                r matches Err(e) && e@ == "output buffer too small for frame_size * channels"@
            } else {
                r matches Ok(pass) && pass@.well_formed() && pass@ == PassState::initial(
                    *table,
                    packet@,
                    frame_size as int,
                    silence,
                )
            },
    {
        if out_len < frame_size * table.channels as usize {
            return Err("output buffer too small for frame_size * channels");
        }
        let len: usize = frame_size * table.decoded_channel_count();
        let mut decoded: Vec<S> = Vec::with_capacity(len);
        while decoded.len() < len
            invariant
                decoded@.len() <= len,
                forall|p: int| 0 <= p < decoded@.len() ==> decoded@[p] == silence,
            decreases len - decoded@.len(),
        {
            decoded.push(silence);
        }
        let pass = PacketPass {
            table,
            rest: packet,
            stream: 0,
            frames: 0,
            frame_size,
            silence,
            decoded,
        };
        assert(pass@.decoded =~= Seq::new(
            (frame_size * table.decoded_channels()) as nat,
            |p: int| silence,
        ));
        proof {
            routing::lemma_frames_are_ordered(0, frame_size as int, table.decoded_channels());
        }
        Ok(pass)
    }

    /// What the elementary decoder of the stream at hand has to decode, or
    /// `None` when all streams have reported. The packet of any stream but the
    /// last is put into `scratch`.
    pub fn next_stream<'b>(&mut self, scratch: &'b mut Vec<u8>) -> (r: Result<
        Option<StreamRequest<'b>>,
        &'static str,
    >) where 'a: 'b
        requires
            old(self)@.well_formed(),
        ensures
            if old(self)@.stream == old(self)@.table.stream_count {
                r matches Ok(None) && final(self)@ == old(self)@ && final(scratch)@
                    == old(scratch)@
            } else {
                match demux::next_packet(old(self)@.rest, old(self)@.at_last_stream()) {
                    Ok(packet) => {
                        &&& r matches Ok(Some(request))
                        &&& request.stream == old(self)@.stream
                        &&& request.channels == old(self)@.table.stream_channels(
                            old(self)@.stream,
                        )
                        &&& request.channels == if old(self)@.stream
                            < old(self)@.table.coupled_count {
                            2int
                        } else {
                            1int
                        }
                        &&& request.packet@ == packet
                    },
                    Err(message) => r matches Err(e) && e@ == message,
                }
            },
            old(self)@.stream < old(self)@.table.stream_count ==> final(self)@ == old(
                self,
            )@.requested(),
            old(self)@.stream < old(self)@.table.stream_count ==> final(scratch)@ == if old(
                self,
            )@.at_last_stream() || old(self)@.rest.len() == 0 {
                old(scratch)@
            } else {
                framing::split(old(self)@.rest).written
            },
    {
        let streams: usize = self.table.stream_count as usize;
        let stream: usize = self.stream;
        if stream == streams {
            return Ok(None);
        }
        let channels: usize = self.channels_at_hand();
        if stream + 1 == streams {
            return Ok(Some(StreamRequest { stream, channels, packet: self.rest }));
        }
        proof {
            reveal_with_fuel(demux::rest_after, 2);
        }
        match split_self_delimited(self.rest, scratch) {
            Ok((packet, consumed)) => {
                proof {
                    super::framing_laws::law_split_stays_within_input(self.rest@);
                }
                self.rest = &self.rest[consumed..self.rest.len()];
                Ok(Some(StreamRequest { stream, channels, packet }))
            },
            Err(e) => Err(e),
        }
    }

    /// Takes what the elementary decoder of the stream at hand reported, and
    /// moves on to the next stream. The report of a stream that failed, or
    /// that decoded other than the frames before it, ends the pass.
    pub fn accept(&mut self, report: Result<usize, &'static str>, samples: &[S]) -> (r: Result<
        (),
        &'static str,
    >)
        requires
            old(self)@.well_formed(),
            old(self)@.stream < old(self)@.table.stream_count,
            report is Ok ==> samples@.len() == old(self)@.frame_size * old(
                self,
            )@.table.stream_channels(old(self)@.stream),
            old(self)@.stream == 0 ==> (report matches Ok(frames) ==> frames <= old(
                self,
            )@.frame_size),
        ensures
            match old(self)@.refusal(report) {
                Some(message) => r matches Err(e) && e@ == message && final(self)@ == old(self)@,
                None => {
                    &&& r is Ok
                    &&& final(self)@.well_formed()
                    &&& final(self)@ == old(self)@.accepting(report->Ok_0 as int, samples@)
                },
            },
    {
        let frames: usize = match report {
            Ok(frames) => frames,
            Err(e) => {
                return Err(e);
            },
        };
        if self.stream > 0 && frames != self.frames {
            return Err("elementary streams decoded to different frame counts");
        }
        let width: usize = self.table.decoded_channel_count();
        let channels: usize = self.channels_at_hand();
        let coupled: usize = self.table.coupled_count as usize;
        let offset: usize = if self.stream <= coupled {
            2 * self.stream
        } else {
            self.stream + coupled
        };
        scatter(&mut self.decoded, width, offset, channels, frames, self.frame_size, samples);
        self.frames = frames;
        self.stream = self.stream + 1;
        Ok(())
    }

    /// Whether the mapping reads only what the buffer holds, for the frames
    /// that the streams decoded.
    pub fn mapping_fits(&self) -> (r: bool)
        requires
            self@.well_formed(),
        ensures
            r == routing::reads_within(self@.table, self@.frames, self@.frame_size),
    {
        if self.frames == 0 {
            return true;
        }
        let width: usize = self.table.decoded_channel_count();
        proof {
            routing::lemma_frames_are_ordered(0, self.frames - 1, width as int);
            routing::lemma_frames_are_ordered(self.frames - 1, self.frame_size as int, width as int);
            assert(self.decoded@.len() == self.decoded.len());
        }
        let last: usize = (self.frames - 1) * width;
        let room: usize = self.decoded.len() - last;
        let mut c: usize = 0;
        while c < self.table.mapping.len()
            invariant
                self@.well_formed(),
                self@.frames > 0,
                width == self@.table.decoded_channels(),
                last == (self@.frames - 1) * width,
                last + room == self@.frame_size * width,
                forall|k: int|
                    0 <= k < c && #[trigger] self@.table.mapping@[k] != SILENT_CHANNEL
                        ==> self@.table.mapping@[k] < room,
            decreases self@.table.mapping@.len() - c,
        {
            let source: u8 = self.table.mapping[c];
            if source != SILENT_CHANNEL && source as usize >= room {
                assert(self@.table.mapping@[c as int] == source);
                return false;
            }
            c += 1;
        }
        true
    }

    /// Routes the decoded samples to `out` and returns the frames written.
    pub fn finish(&self, out: &mut [S]) -> (r: usize)
        requires
            self@.well_formed(),
            self@.frames * self@.table.channels <= old(out)@.len(),
            routing::reads_within(self@.table, self@.frames, self@.frame_size),
        ensures
            r == self@.frames,
            final(out)@ == routing::routed(
                self@.table,
                self@.frames,
                self@.decoded,
                self@.silence,
                old(out)@,
            ),
    {
        let width: usize = self.table.decoded_channel_count();
        let channels: usize = self.table.channels as usize;
        let ghost target = routing::routed(
            self@.table,
            self@.frames,
            self@.decoded,
            self@.silence,
            old(out)@,
        );
        let mut f: usize = 0;
        while f < self.frames
            invariant
                f <= self.frames,
                self@.well_formed(),
                routing::reads_within(self@.table, self@.frames, self@.frame_size),
                self@.frames * channels <= old(out)@.len(),
                width == self@.table.decoded_channels(),
                channels == self@.table.channels,
                target == routing::routed(
                    self@.table,
                    self@.frames,
                    self@.decoded,
                    self@.silence,
                    old(out)@,
                ),
                out@.len() == old(out)@.len(),
                forall|p: int| 0 <= p < f * channels ==> out@[p] == target[p],
                forall|p: int| f * channels <= p < out@.len() ==> out@[p] == old(out)@[p],
            decreases self.frames - f,
        {
            proof {
                routing::lemma_frames_are_ordered(0, f as int, channels as int);
                routing::lemma_frames_are_ordered(f + 1, self@.frames, channels as int);
                routing::lemma_frames_are_ordered(0, f as int, width as int);
                routing::lemma_frames_are_ordered(f as int, self@.frames - 1, width as int);
                assert((f + 1) * channels == f * channels + channels) by (nonlinear_arith);
            }
            let mut c: usize = 0;
            while c < channels
                invariant
                    c <= channels,
                    f < self.frames,
                    self@.well_formed(),
                    routing::reads_within(self@.table, self@.frames, self@.frame_size),
                    0 <= f * channels,
                    f * channels + channels <= self@.frames * channels <= old(out)@.len(),
                    0 <= f * width <= (self@.frames - 1) * width,
                    width == self@.table.decoded_channels(),
                    channels == self@.table.channels,
                    target == routing::routed(
                        self@.table,
                        self@.frames,
                        self@.decoded,
                        self@.silence,
                        old(out)@,
                    ),
                    out@.len() == old(out)@.len(),
                    forall|p: int| 0 <= p < f * channels + c ==> out@[p] == target[p],
                    forall|p: int| f * channels + c <= p < out@.len() ==> out@[p] == old(out)@[p],
                decreases channels - c,
            {
                let source: u8 = self.table.mapping[c];
                proof {
                    assert(self@.table.mapping@[c as int] == source);
                    routing::lemma_position(f as int, c as int, channels as int);
                    assert(out@.len() == out.len());
                    assert(self.decoded@.len() == self.decoded.len());
                }
                let at: usize = f * channels + c;
                out[at] = if source == SILENT_CHANNEL {
                    self.silence
                } else {
                    self.decoded[f * width + source as usize]
                };
                c += 1;
            }
            f += 1;
        }
        assert(out@ =~= target);
        self.frames
    }

    fn channels_at_hand(&self) -> (r: usize)
        ensures
            r == self@.table.stream_channels(self@.stream),
    {
        if self.stream < self.table.coupled_count as usize {
            2
        } else {
            1
        }
    }
}

/// Writes the first `frames` frames of a stream into the interleaved buffer.
fn scatter<S: Copy>(
    decoded: &mut Vec<S>,
    width: usize,
    offset: usize,
    channels: usize,
    frames: usize,
    frame_size: usize,
    samples: &[S],
)
    requires
        frames <= frame_size,
        old(decoded)@.len() == frame_size * width,
        samples@.len() == frame_size * channels,
        1 <= channels,
        offset + channels <= width,
    ensures
        final(decoded)@ == routing::scattered(
            old(decoded)@,
            width as int,
            offset as int,
            channels as int,
            frames as int,
            samples@,
        ),
{
    let ghost before = decoded@;
    let mut f: usize = 0;
    let ghost start = routing::scattered(
        before,
        width as int,
        offset as int,
        channels as int,
        0,
        samples@,
    );
    assert(decoded@ == start) by {
        assert forall|p: int| 0 <= p < before.len() implies before[p] == #[trigger] start[p] by {
            vstd::arithmetic::div_mod::lemma_div_pos_is_pos(p, width as int);
        }
    }
    while f < frames
        invariant
            f <= frames <= frame_size,
            before.len() == frame_size * width,
            samples@.len() == frame_size * channels,
            1 <= channels,
            offset + channels <= width,
            decoded@ == routing::scattered(
                before,
                width as int,
                offset as int,
                channels as int,
                f as int,
                samples@,
            ),
        decreases frames - f,
    {
        let ghost upper = routing::scattered(
            before,
            width as int,
            offset as int,
            channels as int,
            f + 1,
            samples@,
        );
        let mut c: usize = 0;
        while c < channels
            invariant
                c <= channels,
                f < frame_size,
                before.len() == frame_size * width,
                samples@.len() == frame_size * channels,
                1 <= channels,
                offset + channels <= width,
                upper == routing::scattered(
                    before,
                    width as int,
                    offset as int,
                    channels as int,
                    f + 1,
                    samples@,
                ),
                decoded@.len() == before.len(),
                forall|p: int|
                    0 <= p < before.len() ==> #[trigger] decoded@[p] == if p / width as int
                        == f as int && p % width as int >= offset + c {
                        before[p]
                    } else {
                        upper[p]
                    },
            decreases channels - c,
        {
            let ghost then = decoded@;
            let ghost at = f * width + offset + c;
            proof {
                routing::lemma_position(f as int, offset + c, width as int);
                routing::lemma_position(f as int, c as int, channels as int);
                routing::lemma_frames_are_ordered(f + 1, frame_size as int, width as int);
                routing::lemma_frames_are_ordered(f + 1, frame_size as int, channels as int);
                routing::lemma_frames_are_ordered(0, f as int, width as int);
                routing::lemma_frames_are_ordered(0, f as int, channels as int);
                assert(decoded@.len() == decoded.len());
                assert(samples@.len() == samples.len());
            }
            decoded[f * width + offset + c] = samples[f * channels + c];
            c += 1;
            assert forall|p: int| 0 <= p < before.len() implies #[trigger] decoded@[p] == if p
                / width as int == f as int && p % width as int >= offset + c {
                before[p]
            } else {
                upper[p]
            } by {
                vstd::arithmetic::div_mod::lemma_fundamental_div_mod(p, width as int);
                if p != at {
                    assert(decoded@[p] == then[p]);
                    if p / width as int == f as int {
                        vstd::arithmetic::mul::lemma_mul_is_commutative(width as int, f as int);
                        assert(p % width as int != offset + c - 1);
                    }
                }
            }
        }
        f += 1;
        assert(decoded@ =~= upper);
    }
}

} // verus!
