//! Where the samples of the streams go.
//!
//! The streams decode into one interleaved buffer, in which every frame holds
//! the channels of stream 0, then those of stream 1, and so on. The output is
//! interleaved too, and each of its channels reads one position of a buffer
//! frame, or is silent.

use super::table;
use super::table::ChannelMappingTable;
use vstd::prelude::*;

verus! {

/// What an elementary decoder reported for its packet: the frames it decoded,
/// or why it could not, and its buffer of interleaved samples.
pub struct StreamReport<S> {
    pub frames: Result<usize, &'static str>,
    pub samples: Vec<S>,
}

/// The buffer `decoded`, with frames of `width` samples, once the first
/// `frames` frames of a stream with `channels` channels are written to it from
/// channel `offset` on.
pub open spec fn scattered<S>(
    decoded: Seq<S>,
    width: int,
    offset: int,
    channels: int,
    frames: int,
    samples: Seq<S>,
) -> Seq<S> {
    Seq::new(
        decoded.len(),
        |p: int|
            if p / width < frames && offset <= p % width < offset + channels {
                samples[(p / width) * channels + (p % width - offset)]
            } else {
                decoded[p]
            },
    )
}

/// The interleaved buffer of the first `streams` streams: their samples in the
/// first `frames` frames, and silence everywhere else.
pub open spec fn concatenated<S>(
    table: ChannelMappingTable,
    frame_size: int,
    frames: int,
    reports: Seq<StreamReport<S>>,
    streams: int,
    silence: S,
) -> Seq<S> {
    let width = table.decoded_channels();
    Seq::new(
        (frame_size * width) as nat,
        |p: int|
            if p / width < frames && p % width < table.channel_offset(streams) {
                let stream = table.source_stream(p % width);
                reports[stream].samples@[(p / width) * table.stream_channels(stream)
                    + table.source_channel(p % width)]
            } else {
                silence
            },
    )
}

/// The output `out` once `frames` frames are written to it. Output channel `c`
/// reads the buffer at the position that mapping entry `c` gives, counted from
/// the start of the frame.
pub open spec fn routed<S>(
    table: ChannelMappingTable,
    frames: int,
    decoded: Seq<S>,
    silence: S,
    out: Seq<S>,
) -> Seq<S> {
    let channels = table.channels as int;
    Seq::new(
        out.len(),
        |p: int|
            if p < frames * channels {
                let source = table.mapping@[p % channels];
                if source == table::SILENT_CHANNEL {
                    silence
                } else {
                    decoded[(p / channels) * table.decoded_channels() + source]
                }
            } else {
                out[p]
            },
    )
}

/// Whether routing `frames` frames stays within a buffer of `frame_size` frames.
pub open spec fn reads_within(table: ChannelMappingTable, frames: int, frame_size: int) -> bool {
    frames > 0 ==> forall|c: int|
        0 <= c < table.mapping@.len() && #[trigger] table.mapping@[c] != table::SILENT_CHANNEL
            ==> (frames - 1) * table.decoded_channels() + table.mapping@[c] < frame_size
            * table.decoded_channels()
}

/// Position `c` of frame `f`, where frames are `width` samples long, belongs
/// to frame `f` and to no other.
pub(crate) proof fn lemma_position(f: int, c: int, width: int)
    requires
        0 <= f,
        0 <= c < width,
    ensures
        (f * width + c) / width == f,
        (f * width + c) % width == c,
        0 <= f * width + c < (f + 1) * width,
{
    vstd::arithmetic::div_mod::lemma_fundamental_div_mod_converse(f * width + c, width, f, c);
    assert(0 <= f * width + c < (f + 1) * width) by (nonlinear_arith)
        requires
            0 <= f,
            0 <= c < width,
    ;
}

/// A smaller frame number means a smaller position.
pub(crate) proof fn lemma_frames_are_ordered(f: int, g: int, width: int)
    requires
        f <= g,
        0 <= width,
    ensures
        f * width <= g * width,
{
    vstd::arithmetic::mul::lemma_mul_inequality(f, g, width);
}

/// The buffer of no stream is silent.
pub(crate) proof fn lemma_concatenated_none<S>(
    table: ChannelMappingTable,
    frame_size: int,
    frames: int,
    reports: Seq<StreamReport<S>>,
    silence: S,
)
    ensures
        concatenated(table, frame_size, frames, reports, 0, silence) == Seq::new(
            (frame_size * table.decoded_channels()) as nat,
            |p: int| silence,
        ),
{
    let width = table.decoded_channels();
    let empty = concatenated(table, frame_size, frames, reports, 0, silence);
    assert forall|p: int| 0 <= p < empty.len() implies #[trigger] empty[p] == silence by {
        if width == 0 {
            assert(frame_size * width == 0) by (nonlinear_arith)
                requires
                    width == 0,
            ;
        } else {
            vstd::arithmetic::div_mod::lemma_mod_bound(p, width);
        }
    }
    assert(empty =~= Seq::new((frame_size * width) as nat, |p: int| silence));
}

/// Writing one more stream to the buffer of the streams before it gives the
/// buffer with that stream.
pub(crate) proof fn lemma_concatenated_step<S>(
    table: ChannelMappingTable,
    frame_size: int,
    frames: int,
    reports: Seq<StreamReport<S>>,
    stream: int,
    silence: S,
)
    requires
        table.well_formed(),
        0 <= stream < table.stream_count,
    ensures
        scattered(
            concatenated(table, frame_size, frames, reports, stream, silence),
            table.decoded_channels(),
            table.channel_offset(stream),
            table.stream_channels(stream) as int,
            frames,
            reports[stream].samples@,
        ) == concatenated(table, frame_size, frames, reports, stream + 1, silence),
{
    let width = table.decoded_channels();
    let before = concatenated(table, frame_size, frames, reports, stream, silence);
    let after = concatenated(table, frame_size, frames, reports, stream + 1, silence);
    let written = scattered(
        before,
        width,
        table.channel_offset(stream),
        table.stream_channels(stream) as int,
        frames,
        reports[stream].samples@,
    );
    assert forall|p: int| 0 <= p < before.len() implies #[trigger] written[p] == after[p] by {
        let channel = p % width;
        vstd::arithmetic::div_mod::lemma_mod_bound(p, width);
        if table.channel_offset(stream) <= channel < table.channel_offset(stream + 1) {
            assert(table.source_stream(channel) == stream);
            assert(table.source_channel(channel) == channel - table.channel_offset(stream));
        }
    }
    assert(written =~= after);
}

/// An output channel whose mapping entry is the silent one is silent, whatever
/// the streams decoded.
pub proof fn law_silent_channel_is_silent<S>(
    table: ChannelMappingTable,
    frames: int,
    decoded: Seq<S>,
    silence: S,
    out: Seq<S>,
    f: int,
    c: int,
)
    requires
        table.well_formed(),
        frames * table.channels <= out.len(),
        0 <= f < frames,
        0 <= c < table.channels,
        table.mapping@[c] == table::SILENT_CHANNEL,
    ensures
        routed(table, frames, decoded, silence, out)[f * table.channels + c] == silence,
{
    lemma_position(f, c, table.channels as int);
    lemma_frames_are_ordered(f + 1, frames, table.channels as int);
}

/// An output channel whose mapping entry names a channel of the streams gets,
/// in every frame, the sample of that channel.
pub proof fn law_mapped_channel_gets_its_stream<S>(
    table: ChannelMappingTable,
    frame_size: int,
    frames: int,
    reports: Seq<StreamReport<S>>,
    silence: S,
    out: Seq<S>,
    f: int,
    c: int,
)
    requires
        table.well_formed(),
        frames <= frame_size,
        frames * table.channels <= out.len(),
        0 <= f < frames,
        0 <= c < table.channels,
        table.mapping@[c] != table::SILENT_CHANNEL,
        table.mapping@[c] < table.decoded_channels(),
    ensures
        ({
            let decoded = concatenated(
                table,
                frame_size,
                frames,
                reports,
                table.stream_count as int,
                silence,
            );
            let stream = table.source_stream(table.mapping@[c] as int);
            let channel = table.source_channel(table.mapping@[c] as int);
            routed(table, frames, decoded, silence, out)[f * table.channels + c]
                == reports[stream].samples@[f * table.stream_channels(stream) + channel]
        }),
{
    let width = table.decoded_channels();
    let source = table.mapping@[c] as int;
    lemma_position(f, c, table.channels as int);
    lemma_frames_are_ordered(f + 1, frames, table.channels as int);
    lemma_position(f, source, width);
    lemma_frames_are_ordered(f + 1, frame_size, width);
}

/// Output after the last written frame stays as it was.
pub proof fn law_later_output_is_kept<S>(
    table: ChannelMappingTable,
    frames: int,
    decoded: Seq<S>,
    silence: S,
    out: Seq<S>,
    p: int,
)
    requires
        0 <= frames,
        frames * table.channels <= p < out.len(),
    ensures
        routed(table, frames, decoded, silence, out)[p] == out[p],
{
    lemma_frames_are_ordered(0, frames, table.channels as int);
}

/// A table whose entries all name a channel of the streams, or silence, never
/// reads outside the buffer.
pub proof fn law_named_channels_are_within(
    table: ChannelMappingTable,
    frames: int,
    frame_size: int,
)
    requires
        0 <= frames <= frame_size,
        forall|c: int|
            0 <= c < table.mapping@.len() ==> #[trigger] table.mapping@[c]
                == table::SILENT_CHANNEL || table.mapping@[c] < table.decoded_channels(),
    ensures
        reads_within(table, frames, frame_size),
{
    let width = table.decoded_channels();
    if frames > 0 {
        lemma_frames_are_ordered(frames, frame_size, width);
        assert((frames - 1) * width + width == frames * width) by (nonlinear_arith);
    }
}

} // verus!
