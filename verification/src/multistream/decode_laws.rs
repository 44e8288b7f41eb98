//! Decoding, told in packets and samples.
//!
//! The laws here say which bytes a stream gets, which sample an output
//! position holds, and which fault is reported, in terms of the table's
//! entries, the packet and the reports alone.

use super::decoder;
use super::demux;
use super::framing;
use super::pass::PassState;
use super::routing;
use super::routing::StreamReport;
use super::table::ChannelMappingTable;
use vstd::prelude::*;

verus! {

/// A single stream gets the packet as it is.
pub proof fn law_only_stream_gets_all(packet: Seq<u8>)
    ensures
        demux::stream_packet(packet, 1, 0) == Ok::<Seq<u8>, Seq<char>>(packet),
{
}

/// The first of several streams gets the packet that splitting gives, and
/// fails as splitting fails.
pub proof fn law_first_stream_gets_the_split_packet(packet: Seq<u8>, streams: nat)
    requires
        streams > 1,
    ensures
        match framing::split(packet).outcome {
            Ok(_) => demux::stream_packet(packet, streams, 0) == Ok::<Seq<u8>, Seq<char>>(
                framing::split(packet).written,
            ),
            Err(message) => demux::stream_packet(packet, streams, 0) == Err::<Seq<u8>, Seq<char>>(
                message,
            ),
        },
{
}

/// What splitting leaves is the packet of the other streams.
pub proof fn law_other_streams_get_the_rest(packet: Seq<u8>, streams: nat, stream: nat)
    requires
        stream + 1 < streams,
        framing::split(packet).outcome is Ok,
    ensures
        demux::stream_packet(packet, streams, stream + 1) == demux::stream_packet(
            packet.skip(framing::split(packet).outcome->Ok_0 as int),
            (streams - 1) as nat,
            stream,
        ),
{
    lemma_rest_of_rest(packet, stream);
    reveal_with_fuel(demux::rest_after, 2);
}

/// A pass begins with the whole packet, at stream 0, and with a silent buffer
/// of `frame_size` frames of all decoded channels.
pub proof fn law_begun_state<S>(
    table: ChannelMappingTable,
    packet: Seq<u8>,
    frame_size: int,
    silence: S,
)
    requires
        0 <= frame_size,
    ensures
        ({
            let state = PassState::initial(table, packet, frame_size, silence);
            &&& state.table == table
            &&& state.rest == packet
            &&& state.stream == 0
            &&& state.frames == 0
            &&& state.frame_size == frame_size
            &&& state.silence == silence
            &&& state.decoded.len() == frame_size * (table.stream_count + table.coupled_count)
            &&& forall|p: int| 0 <= p < state.decoded.len() ==> state.decoded[p] == silence
        }),
{
    routing::lemma_frames_are_ordered(0, frame_size, table.decoded_channels());
}

/// Asking for the packet of a stream takes a split-off packet away, except
/// that the last stream takes nothing away and a failed split neither. Nothing
/// else changes.
pub proof fn law_requested_state<S>(state: PassState<S>)
    ensures
        ({
            let after = state.requested();
            let last = state.stream + 1 == state.table.stream_count;
            &&& after == (PassState { rest: after.rest, ..state })
            &&& after.rest == match framing::split(state.rest).outcome {
                Ok(n) if !last => state.rest.skip(n as int),
                _ => state.rest,
            }
            &&& demux::next_packet(state.rest, state.at_last_stream())
                == match framing::split(state.rest).outcome {
                _ if last => Ok::<Seq<u8>, Seq<char>>(state.rest),
                Ok(_) => Ok(framing::split(state.rest).written),
                Err(message) => Err(message),
            }
        }),
{
    reveal_with_fuel(demux::rest_after, 2);
}

/// A report is refused exactly where the decoder failed, or where a stream
/// after the first decoded another number of frames than those before it.
pub proof fn law_refused_reports<S>(state: PassState<S>, report: Result<usize, &'static str>)
    ensures
        report matches Err(message) ==> state.refusal(report) == Some(message@),
        report matches Ok(frames) ==> state.refusal(report) == if state.stream > 0 && frames
            != state.frames {
            Some("elementary streams decoded to different frame counts"@)
        } else {
            None
        },
{
}

/// Taking a report puts every sample in its place. A coupled stream `i` has two
/// channels, at `2 * i` in each buffer frame; a later one has one, at `i` plus
/// the number of coupled streams.
pub proof fn law_accepted_samples<S>(
    state: PassState<S>,
    frames: int,
    samples: Seq<S>,
    f: int,
    k: int,
)
    requires
        state.table.coupled_count <= state.table.stream_count,
        0 <= state.stream < state.table.stream_count,
        0 <= frames <= state.frame_size,
        state.decoded.len() == state.frame_size * (state.table.stream_count
            + state.table.coupled_count),
        0 <= f < frames,
        0 <= k < if state.stream < state.table.coupled_count {
            2int
        } else {
            1int
        },
    ensures
        ({
            let width = state.table.stream_count + state.table.coupled_count;
            let after = state.accepting(frames, samples);
            if state.stream < state.table.coupled_count {
                after.decoded[f * width + 2 * state.stream + k] == samples[f * 2 + k]
            } else {
                after.decoded[f * width + state.stream + state.table.coupled_count] == samples[f]
            }
        }),
{
    let width = state.table.decoded_channels();
    let at = state.table.channel_offset(state.stream) + k;
    routing::lemma_position(f, at, width);
    routing::lemma_frames_are_ordered(f + 1, state.frame_size, width);
}

/// Taking a report changes nothing but the stream at hand, the frame count and
/// the samples of that stream in the frames it decoded.
pub proof fn law_accepting_keeps_the_rest<S>(
    state: PassState<S>,
    frames: int,
    samples: Seq<S>,
    g: int,
    q: int,
)
    requires
        state.table.coupled_count <= state.table.stream_count,
        0 <= state.stream < state.table.stream_count,
        state.decoded.len() == state.frame_size * (state.table.stream_count
            + state.table.coupled_count),
        0 <= g < state.frame_size,
        0 <= q < state.table.stream_count + state.table.coupled_count,
        ({
            ||| g >= frames
            ||| if state.stream < state.table.coupled_count {
                q < 2 * state.stream || q > 2 * state.stream + 1
            } else {
                q != state.stream + state.table.coupled_count
            }
        }),
    ensures
        ({
            let width = state.table.stream_count + state.table.coupled_count;
            let after = state.accepting(frames, samples);
            &&& after.decoded[g * width + q] == state.decoded[g * width + q]
            &&& after.decoded.len() == state.decoded.len()
            &&& after == (PassState {
                stream: state.stream + 1,
                frames,
                decoded: after.decoded,
                ..state
            })
        }),
{
    let width = state.table.decoded_channels();
    routing::lemma_position(g, q, width);
    routing::lemma_frames_are_ordered(g + 1, state.frame_size, width);
}

/// Routing reads, for frame `f` and output channel `c`, the buffer at the
/// mapping entry counted from the start of the frame; entry 255 is silent. It
/// writes the first `frames` frames and no more.
pub proof fn law_routed_positions<S>(
    table: ChannelMappingTable,
    frames: int,
    decoded: Seq<S>,
    silence: S,
    out: Seq<S>,
    f: int,
    c: int,
)
    requires
        table.mapping@.len() == table.channels,
        0 <= f,
        0 <= c < table.channels,
        0 <= frames,
        f * table.channels + c < out.len(),
    ensures
        ({
            let r = routing::routed(table, frames, decoded, silence, out);
            let entry = table.mapping@[c];
            &&& r.len() == out.len()
            &&& r[f * table.channels + c] == if f >= frames {
                out[f * table.channels + c]
            } else if entry == 255 {
                silence
            } else {
                decoded[f * (table.stream_count + table.coupled_count) + entry]
            }
        }),
{
    let channels = table.channels as int;
    routing::lemma_position(f, c, channels);
    if f < frames {
        routing::lemma_frames_are_ordered(f + 1, frames, channels);
    } else {
        routing::lemma_frames_are_ordered(frames, f, channels);
    }
}

/// Where the mapping fits, each position that routing reads lies in the buffer.
pub proof fn law_fitting_mapping_reads_inside(
    table: ChannelMappingTable,
    frames: int,
    frame_size: int,
    f: int,
    c: int,
)
    requires
        routing::reads_within(table, frames, frame_size),
        0 <= f < frames,
        0 <= c < table.mapping@.len(),
        table.mapping@[c] != 255,
    ensures
        f * (table.stream_count + table.coupled_count) + table.mapping@[c] < frame_size * (
        table.stream_count + table.coupled_count),
{
    routing::lemma_frames_are_ordered(f, frames - 1, table.decoded_channels());
}

/// The mapping fits where the positions that routing reads for the last frame
/// lie in the buffer; without frames it always does.
pub proof fn law_mapping_that_reads_inside_fits(
    table: ChannelMappingTable,
    frames: int,
    frame_size: int,
)
    requires
        frames <= 0 || forall|c: int|
            0 <= c < table.mapping@.len() && #[trigger] table.mapping@[c] != 255 ==> (frames - 1)
                * (table.stream_count + table.coupled_count) + table.mapping@[c] < frame_size * (
            table.stream_count + table.coupled_count),
    ensures
        routing::reads_within(table, frames, frame_size),
{
}

/// Which sample an output position holds. Let all streams have decoded `n`
/// frames. Output channel `c` reads, for frame `f`, the buffer at its entry;
/// let that be channel `k` of buffer frame `g`. For an entry that names a
/// decoded channel, `g` is `f` and `k` the entry. Decoded channels below twice
/// the number of coupled streams are those of the coupled streams, two by two;
/// the others are mono streams. Frames after the decoded ones are silent.
pub proof fn law_output_samples<S>(
    table: ChannelMappingTable,
    frame_size: int,
    n: usize,
    reports: Seq<StreamReport<S>>,
    silence: S,
    out: Seq<S>,
    f: int,
    c: int,
    g: int,
    k: int,
)
    requires
        table.mapping@.len() == table.channels,
        table.coupled_count <= table.stream_count,
        reports.len() == table.stream_count > 0,
        reports[0].frames == Ok::<usize, &'static str>(n),
        0 <= f < n <= frame_size,
        0 <= c < table.channels,
        n * table.channels <= out.len(),
        table.mapping@[c] != 255,
        0 <= g < frame_size,
        0 <= k < table.stream_count + table.coupled_count,
        g * (table.stream_count + table.coupled_count) + k == f * (table.stream_count
            + table.coupled_count) + table.mapping@[c],
    ensures
        ({
            let frames = decoder::common_frames(reports);
            let decoded = routing::concatenated(
                table,
                frame_size,
                frames,
                reports,
                reports.len() as int,
                silence,
            );
            let r = routing::routed(table, frames, decoded, silence, out);
            let coupled = table.coupled_count as int;
            r[f * table.channels + c] == if g >= n {
                silence
            } else if k < 2 * coupled {
                reports[k / 2].samples@[g * 2 + k % 2]
            } else {
                reports[k - coupled].samples@[g]
            }
        }),
{
    let width = table.decoded_channels();
    routing::lemma_position(f, c, table.channels as int);
    routing::lemma_frames_are_ordered(f + 1, n as int, table.channels as int);
    routing::lemma_position(g, k, width);
    routing::lemma_frames_are_ordered(g + 1, frame_size, width);
}

/// An output channel whose entry `s` names a decoded channel carries stream
/// `s / 2`, channel `s % 2`, where `s` is below twice the number of coupled
/// streams, and elsewhere stream `s` less the number of coupled streams. One
/// whose entry is 255 is silent.
pub proof fn law_output_channel_carries_its_stream<S>(
    table: ChannelMappingTable,
    frame_size: int,
    n: usize,
    reports: Seq<StreamReport<S>>,
    silence: S,
    out: Seq<S>,
    f: int,
    c: int,
)
    requires
        table.mapping@.len() == table.channels,
        table.coupled_count <= table.stream_count,
        reports.len() == table.stream_count > 0,
        reports[0].frames == Ok::<usize, &'static str>(n),
        0 <= f < n <= frame_size,
        0 <= c < table.channels,
        n * table.channels <= out.len(),
        table.mapping@[c] == 255 || table.mapping@[c] < table.stream_count + table.coupled_count,
    ensures
        ({
            let frames = decoder::common_frames(reports);
            let decoded = routing::concatenated(
                table,
                frame_size,
                frames,
                reports,
                reports.len() as int,
                silence,
            );
            let r = routing::routed(table, frames, decoded, silence, out);
            let s = table.mapping@[c] as int;
            let coupled = table.coupled_count as int;
            r[f * table.channels + c] == if s == 255 {
                silence
            } else if s < 2 * coupled {
                reports[s / 2].samples@[f * 2 + s % 2]
            } else {
                reports[s - coupled].samples@[f]
            }
        }),
{
    if table.mapping@[c] == 255 {
        routing::lemma_position(f, c, table.channels as int);
        routing::lemma_frames_are_ordered(f + 1, n as int, table.channels as int);
    } else {
        law_output_samples(
            table,
            frame_size,
            n,
            reports,
            silence,
            out,
            f,
            c,
            f,
            table.mapping@[c] as int,
        );
    }
}

/// A packet decodes, to `n` frames, where every stream has its packet and
/// decoded `n` frames of it. Without streams it decodes to no frames.
pub proof fn law_agreeing_streams_decode<S>(
    packet: Seq<u8>,
    reports: Seq<StreamReport<S>>,
    n: usize,
)
    requires
        forall|i: int|
            0 <= i < reports.len() ==> {
                &&& demux::stream_packet(packet, reports.len(), i as nat) is Ok
                &&& (#[trigger] reports[i]).frames == Ok::<usize, &'static str>(n)
            },
    ensures
        decoder::first_fault(packet, reports, reports.len()) is None,
        decoder::common_frames(reports) == if reports.len() == 0 {
            0
        } else {
            n as int
        },
{
    lemma_no_fault_before(packet, reports, n, reports.len());
    if reports.len() > 0 {
        assert(reports[0].frames is Ok);
    }
}

/// Where the streams before stream `j` have their packets and decoded `n`
/// frames each, a fault of stream `j` is what is reported: that its packet
/// cannot be split off; otherwise that its decoder failed; otherwise that it
/// decoded another number of frames.
pub proof fn law_first_fault_is_reported<S>(
    packet: Seq<u8>,
    reports: Seq<StreamReport<S>>,
    n: usize,
    j: int,
)
    requires
        0 <= j < reports.len(),
        forall|i: int|
            0 <= i < j ==> {
                &&& demux::stream_packet(packet, reports.len(), i as nat) is Ok
                &&& (#[trigger] reports[i]).frames == Ok::<usize, &'static str>(n)
            },
    ensures
        ({
            let reported = decoder::first_fault(packet, reports, reports.len());
            match demux::stream_packet(packet, reports.len(), j as nat) {
                Err(message) => reported == Some(message),
                Ok(_) => match reports[j].frames {
                    Err(message) => reported == Some(message@),
                    Ok(frames) => j > 0 && frames != n ==> reported == Some(
                        "elementary streams decoded to different frame counts"@,
                    ),
                },
            }
        }),
{
    lemma_no_fault_before(packet, reports, n, j as nat);
    if j > 0 {
        assert(reports[0].frames is Ok);
    }
    decoder::lemma_first_fault_stays(packet, reports, (j + 1) as nat, reports.len());
}

proof fn lemma_rest_of_rest(packet: Seq<u8>, streams: nat)
    ensures
        demux::rest_after(packet, streams + 1) == demux::rest_after(
            demux::rest_after(packet, 1),
            streams,
        ),
    decreases streams,
{
    if streams > 0 {
        lemma_rest_of_rest(packet, (streams - 1) as nat);
    }
}

proof fn lemma_no_fault_before<S>(
    packet: Seq<u8>,
    reports: Seq<StreamReport<S>>,
    n: usize,
    streams: nat,
)
    requires
        streams <= reports.len(),
        forall|i: int|
            0 <= i < streams ==> {
                &&& demux::stream_packet(packet, reports.len(), i as nat) is Ok
                &&& (#[trigger] reports[i]).frames == Ok::<usize, &'static str>(n)
            },
    ensures
        decoder::first_fault(packet, reports, streams) is None,
    decreases streams,
{
    if streams > 0 {
        lemma_no_fault_before(packet, reports, n, (streams - 1) as nat);
        assert(reports[streams - 1].frames is Ok);
        assert(reports[0].frames is Ok);
    }
}

} // verus!
