//! Decoding a multistream packet.

use super::demux;
use super::framing_laws;
use super::pass::{PacketPass, PassState};
use super::routing;
use super::routing::StreamReport;
use super::table::ChannelMappingTable;
use vstd::prelude::*;

verus! {

/// How an elementary decoder is to be set up.
#[derive(Debug, Clone, Copy, PartialEq, Eq)]
pub struct ElementaryStream {
    pub sampling_rate: i32,
    pub channels: usize,
}

/// One elementary decoder per stream, fanned out as a [`ChannelMappingTable`]
/// says. The elementary decoders only ever see one or two channels.
pub struct MultistreamDecoder {
    pub decoders: Vec<ElementaryStream>,
    pub table: ChannelMappingTable,
}

/// The frames that the first stream decoded, which the others have to match.
pub open spec fn common_frames<S>(reports: Seq<StreamReport<S>>) -> int {
    if reports.len() == 0 {
        0
    } else {
        match reports[0].frames {
            Ok(frames) => frames as int,
            Err(_) => 0,
        }
    }
}

/// Why decoding `packet` ends at stream `stream`, if it does.
pub open spec fn stream_fault<S>(
    packet: Seq<u8>,
    reports: Seq<StreamReport<S>>,
    stream: int,
) -> Option<Seq<char>> {
    match demux::stream_packet(packet, reports.len(), stream as nat) {
        Err(message) => Some(message),
        Ok(_) => match reports[stream].frames {
            Err(message) => Some(message@),
            Ok(frames) => if frames != common_frames(reports) {
                Some("elementary streams decoded to different frame counts"@)
            } else {
                None
            },
        },
    }
}

/// Why decoding `packet` ends within its first `streams` streams, if it does:
/// the fault of the first stream that has one.
pub open spec fn first_fault<S>(
    packet: Seq<u8>,
    reports: Seq<StreamReport<S>>,
    streams: nat,
) -> Option<Seq<char>>
    decreases streams,
{
    if streams == 0 {
        None
    } else {
        match first_fault(packet, reports, (streams - 1) as nat) {
            Some(message) => Some(message),
            None => stream_fault(packet, reports, streams - 1),
        }
    }
}

/// Where a pass over `packet` stands before stream `stream`, or at its end
/// where `stream` is past the last: the streams before it are split off, except
/// that the last takes nothing away, and have their samples in the buffer.
pub open spec fn state_before<S>(
    table: ChannelMappingTable,
    packet: Seq<u8>,
    frame_size: int,
    reports: Seq<StreamReport<S>>,
    silence: S,
    stream: int,
) -> PassState<S> {
    PassState {
        table,
        rest: demux::rest_after(
            packet,
            if 0 < stream == reports.len() {
                (stream - 1) as nat
            } else {
                stream as nat
            },
        ),
        stream,
        frames: if stream == 0 {
            0
        } else {
            common_frames(reports)
        },
        frame_size,
        silence,
        decoded: routing::concatenated(
            table,
            frame_size,
            common_frames(reports),
            reports,
            stream,
            silence,
        ),
    }
}

/// The first fault is the same however many streams follow.
pub(crate) proof fn lemma_first_fault_stays<S>(
    packet: Seq<u8>,
    reports: Seq<StreamReport<S>>,
    streams: nat,
    more: nat,
)
    requires
        streams <= more,
    ensures
        first_fault(packet, reports, streams) is Some ==> first_fault(packet, reports, more)
            == first_fault(packet, reports, streams),
    decreases more,
{
    if streams < more {
        lemma_first_fault_stays(packet, reports, streams, (more - 1) as nat);
    }
}

impl MultistreamDecoder {
    /// The streams are those of the table.
    pub open spec fn well_formed(&self) -> bool {
        &&& self.table.well_formed()
        &&& self.decoders@.len() == self.table.stream_count
    }

    /// Sets up the streams of `table`. Each entry of `decoders` says how the
    /// elementary decoder of that stream is to be made.
    pub fn new(sampling_rate: i32, table: ChannelMappingTable) -> (r: Result<Self, &'static str>)
        ensures
            if table.mapping@.len() != table.channels {
                r matches Err(e) && e@
                    == "channel mapping table length does not match declared channel count"@
            } else if table.coupled_count > table.stream_count {
                r matches Err(e) && e@ == "coupled_count exceeds stream_count"@
            } else {
                &&& r matches Ok(decoder)
                &&& decoder.well_formed()
                &&& decoder.table == table
                &&& forall|i: int|
                    0 <= i < decoder.decoders@.len() ==> (#[trigger] decoder.decoders@[i]) == (
                    ElementaryStream {
                        sampling_rate,
                        channels: table.stream_channels(i) as usize,
                    })
                &&& decoder.decoders@.len() == table.stream_count
                &&& forall|i: int|
                    0 <= i < table.stream_count ==> {
                        &&& (#[trigger] decoder.decoders@[i]).sampling_rate == sampling_rate
                        &&& decoder.decoders@[i].channels == if i < table.coupled_count {
                            2int
                        } else {
                            1int
                        }
                    }
            },
    {
        if table.mapping.len() != table.channels as usize {
            return Err("channel mapping table length does not match declared channel count");
        }
        if table.coupled_count > table.stream_count {
            return Err("coupled_count exceeds stream_count");
        }
        let mut decoders: Vec<ElementaryStream> = Vec::with_capacity(table.stream_count as usize);
        let mut i: u8 = 0;
        while i < table.stream_count
            invariant
                i <= table.stream_count,
                decoders@.len() == i,
                forall|k: int|
                    0 <= k < i ==> (#[trigger] decoders@[k]) == (ElementaryStream {
                        sampling_rate,
                        channels: table.stream_channels(k) as usize,
                    }),
            decreases table.stream_count - i,
        {
            let channels: usize = if i < table.coupled_count {
                2
            } else {
                1
            };
            decoders.push(ElementaryStream { sampling_rate, channels });
            i += 1;
        }
        Ok(MultistreamDecoder { decoders, table })
    }

    /// Decodes `packet` into `out`, given what the elementary decoders report
    /// for its streams. `frame_size` is the room for frames per channel, and
    /// `out` must hold at least `frame_size` frames of all output channels.
    /// Returns the frames decoded, per channel.
    pub fn decode<S: Copy>(
        &self,
        packet: &[u8],
        frame_size: usize,
        reports: &[StreamReport<S>],
        silence: S,
        out: &mut [S],
    ) -> (r: Result<usize, &'static str>)
        requires
            self.well_formed(),
            reports@.len() == self.table.stream_count,
            frame_size * self.table.channels <= usize::MAX,
            forall|i: int|
                0 <= i < reports@.len() && (#[trigger] reports@[i]).frames is Ok
                    ==> reports@[i].samples@.len() == frame_size * self.table.stream_channels(i),
            old(out)@.len() >= frame_size * self.table.channels ==> {
                &&& frame_size * self.table.decoded_channels() <= usize::MAX
                &&& common_frames(reports@) <= frame_size
                &&& first_fault(packet@, reports@, reports@.len()) is None
                    ==> routing::reads_within(
                    self.table,
                    common_frames(reports@),
                    frame_size as int,
                )
            },
        ensures
            if old(out)@.len() < frame_size * self.table.channels {
                &&& r matches Err(e)
                &&& e@ == "output buffer too small for frame_size * channels"@
                &&& final(out)@ == old(out)@
            } else {
                match first_fault(packet@, reports@, reports@.len()) {
                    Some(message) => r matches Err(e) && e@ == message && final(out)@ == old(
                        out,
                    )@,
                    None => {
                        &&& r matches Ok(frames)
                        &&& frames == common_frames(reports@)
                        &&& final(out)@ == routing::routed(
                            self.table,
                            common_frames(reports@),
                            routing::concatenated(
                                self.table,
                                frame_size as int,
                                common_frames(reports@),
                                reports@,
                                reports@.len() as int,
                                silence,
                            ),
                            silence,
                            old(out)@,
                        )
                    },
                }
            },
    {
        let mut scratch: Vec<u8> = Vec::with_capacity(1500);
        let mut pass = match PacketPass::begin(
            &self.table,
            packet,
            frame_size,
            out.len(),
            silence,
        ) {
            Ok(pass) => pass,
            Err(e) => {
                return Err(e);
            },
        };
        let ghost table = self.table;
        let ghost frames = common_frames(reports@);
        let mut i: usize = 0;
        proof {
            law_pass_begins(table, packet@, frame_size as int, reports@, silence);
        }
        while i < reports.len()
            invariant
                i <= reports@.len(),
                reports@.len() == table.stream_count,
                pass@.well_formed(),
                pass@ == state_before(
                    table,
                    packet@,
                    frame_size as int,
                    reports@,
                    silence,
                    i as int,
                ),
                frames == common_frames(reports@),
                frames <= frame_size,
                table == self.table,
                out@ == old(out)@,
                out@.len() >= frame_size * table.channels,
                first_fault(packet@, reports@, i as nat) is None,
                forall|k: int|
                    0 <= k < reports@.len() && (#[trigger] reports@[k]).frames is Ok
                        ==> reports@[k].samples@.len() == frame_size * table.stream_channels(k),
            decreases reports@.len() - i,
        {
            proof {
                law_pass_advances(
                    table,
                    packet@,
                    frame_size as int,
                    reports@,
                    silence,
                    i as int,
                );
                lemma_first_fault_stays(packet@, reports@, (i + 1) as nat, reports@.len());
            }
            match pass.next_stream(&mut scratch) {
                Ok(_) => {},
                Err(e) => {
                    return Err(e);
                },
            }
            match pass.accept(reports[i].frames, reports[i].samples.as_slice()) {
                Ok(_) => {},
                Err(e) => {
                    return Err(e);
                },
            }
            i += 1;
        }
        proof {
            routing::lemma_frames_are_ordered(frames, frame_size as int, table.channels as int);
        }
        Ok(pass.finish(out))
    }
}

/// A pass begins in the state before stream 0.
pub proof fn law_pass_begins<S>(
    table: ChannelMappingTable,
    packet: Seq<u8>,
    frame_size: int,
    reports: Seq<StreamReport<S>>,
    silence: S,
)
    ensures
        PassState::initial(table, packet, frame_size, silence) == state_before(
            table,
            packet,
            frame_size,
            reports,
            silence,
            0,
        ),
{
    routing::lemma_concatenated_none(
        table,
        frame_size,
        common_frames(reports),
        reports,
        silence,
    );
}

/// One step of a pass. Before stream `stream` it asks for the packet of that
/// stream. It ends there exactly where that stream has a fault, and with that
/// fault: either the packet cannot be split off, or the report is refused. In
/// all other cases asking for the packet and taking the report lead to the
/// state before the next stream.
pub proof fn law_pass_advances<S>(
    table: ChannelMappingTable,
    packet: Seq<u8>,
    frame_size: int,
    reports: Seq<StreamReport<S>>,
    silence: S,
    stream: int,
)
    requires
        table.well_formed(),
        reports.len() == table.stream_count,
        0 <= stream < reports.len(),
    ensures
        ({
            let state = state_before(table, packet, frame_size, reports, silence, stream);
            let report = reports[stream];
            let asked = demux::next_packet(state.rest, state.at_last_stream());
            &&& asked == demux::stream_packet(packet, reports.len(), stream as nat)
            &&& match asked {
                Err(message) => stream_fault(packet, reports, stream) == Some(message),
                Ok(_) => state.requested().refusal(report.frames) == stream_fault(
                    packet,
                    reports,
                    stream,
                ),
            }
            &&& stream_fault(packet, reports, stream) is None ==> state.requested().accepting(
                report.frames->Ok_0 as int,
                report.samples@,
            ) == state_before(table, packet, frame_size, reports, silence, stream + 1)
        }),
{
    reveal_with_fuel(demux::rest_after, 2);
    routing::lemma_concatenated_step(
        table,
        frame_size,
        common_frames(reports),
        reports,
        stream,
        silence,
    );
}

/// A pass ends with the frames that all streams decoded and with the buffer of
/// all streams, so that routing it gives the output of the whole packet.
pub proof fn law_pass_ends<S>(
    table: ChannelMappingTable,
    packet: Seq<u8>,
    frame_size: int,
    reports: Seq<StreamReport<S>>,
    silence: S,
    out: Seq<S>,
)
    requires
        reports.len() == table.stream_count,
    ensures
        ({
            let state = state_before(
                table,
                packet,
                frame_size,
                reports,
                silence,
                reports.len() as int,
            );
            let frames = common_frames(reports);
            &&& state.stream == table.stream_count
            &&& state.frames == frames
            &&& routing::routed(state.table, state.frames, state.decoded, state.silence, out)
                == routing::routed(
                table,
                frames,
                routing::concatenated(
                    table,
                    frame_size,
                    frames,
                    reports,
                    reports.len() as int,
                    silence,
                ),
                silence,
                out,
            )
        }),
{
}

/// A packet is decoded only where every stream decoded, and all of them the
/// same number of frames.
pub proof fn law_streams_agree_on_frames<S>(
    packet: Seq<u8>,
    reports: Seq<StreamReport<S>>,
    streams: nat,
    stream: int,
)
    requires
        streams <= reports.len(),
        0 <= stream < streams,
        first_fault(packet, reports, streams) is None,
    ensures
        demux::stream_packet(packet, reports.len(), stream as nat) is Ok,
        reports[stream].frames matches Ok(frames) && frames == common_frames(reports),
    decreases streams,
{
    if stream + 1 < streams {
        law_streams_agree_on_frames(packet, reports, (streams - 1) as nat, stream);
    }
}

/// A multistream packet that carries one packet per stream is decoded whenever
/// the elementary decoders report one number of frames for those packets.
pub proof fn law_joined_packets_decode<S>(
    packets: Seq<Seq<u8>>,
    reports: Seq<StreamReport<S>>,
    frames: usize,
    streams: nat,
)
    requires
        packets.len() == reports.len(),
        streams <= reports.len(),
        forall|i: int|
            0 <= i < packets.len() - 1 ==> framing_laws::can_be_delimited(#[trigger] packets[i]),
        forall|i: int|
            0 <= i < reports.len() ==> (#[trigger] reports[i]).frames == Ok::<usize, &'static str>(
                frames,
            ),
    ensures
        first_fault(demux::joined(packets), reports, streams) is None,
    decreases streams,
{
    if streams > 0 {
        law_joined_packets_decode(packets, reports, frames, (streams - 1) as nat);
        demux::law_streams_get_their_packets(packets, (streams - 1) as nat);
        assert(reports[streams - 1].frames is Ok);
        assert(reports[0].frames is Ok);
    }
}

} // verus!
