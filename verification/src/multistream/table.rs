//! The channel mapping table of a multistream header.

use vstd::prelude::*;
use vstd::slice::slice_to_vec;

verus! {

/// A mapping entry with this value makes its output channel silent.
pub const SILENT_CHANNEL: u8 = 255;

/// Channel mapping table: the bytes that follow the fixed 19-byte prefix of an
/// OpusHead whose mapping family is not 0.
#[derive(Debug, Clone, PartialEq, Eq)]
pub struct ChannelMappingTable {
    pub channels: u8,
    pub stream_count: u8,
    /// The first `coupled_count` streams are stereo; the others are mono.
    pub coupled_count: u8,
    /// One entry per output channel, indexing the concatenated decode buffer
    /// of the streams (coupled streams first, two channels each, then the mono
    /// streams). `SILENT_CHANNEL` stands for silence.
    pub mapping: Vec<u8>,
}

impl ChannelMappingTable {
    /// The mapping covers the output channels, and no more streams are coupled
    /// than there are.
    pub open spec fn well_formed(&self) -> bool {
        &&& self.mapping@.len() == self.channels
        &&& self.coupled_count <= self.stream_count
    }

    /// Channels of stream `stream`.
    pub open spec fn stream_channels(&self, stream: int) -> nat {
        if stream < self.coupled_count {
            2
        } else {
            1
        }
    }

    /// Channels of the first `streams` streams together, which is where the
    /// channels of stream `streams` begin in the concatenated decode buffer.
    pub open spec fn channel_offset(&self, streams: int) -> int {
        if streams <= self.coupled_count {
            2 * streams
        } else {
            streams + self.coupled_count
        }
    }

    /// Channels of all streams together.
    pub open spec fn decoded_channels(&self) -> int {
        self.stream_count + self.coupled_count
    }

    /// The stream that channel `channel` of the concatenated decode buffer belongs to.
    pub open spec fn source_stream(&self, channel: int) -> int {
        if channel < 2 * self.coupled_count {
            channel / 2
        } else {
            channel - self.coupled_count
        }
    }

    /// The channel of that stream which lands there.
    pub open spec fn source_channel(&self, channel: int) -> int {
        if channel < 2 * self.coupled_count {
            channel % 2
        } else {
            0
        }
    }

    /// The bytes that describe this table in a header.
    pub open spec fn tail(&self) -> Seq<u8> {
        seq![self.stream_count, self.coupled_count] + self.mapping@
    }

    /// Whether this is the table that header bytes `tail` give for `channels`
    /// output channels.
    pub open spec fn described_by(&self, channels: u8, tail: Seq<u8>) -> bool {
        &&& self.channels == channels
        &&& self.stream_count == tail[0]
        &&& self.coupled_count == tail[1]
        &&& self.mapping@ == tail.subrange(2, 2 + channels)
    }

    /// Reads the table from `tail`, the header bytes right after the output
    /// gain (OpusHead byte 19). `None` for mapping family 0 and for a
    /// truncated tail.
    pub fn parse(mapping_family: u8, channels: u8, tail: &[u8]) -> (r: Option<Self>)
        ensures
            r is Some <==> mapping_family != 0 && tail@.len() >= 2 + channels,
            r matches Some(table) ==> table.described_by(channels, tail@),
            r matches Some(table) ==> {
                &&& table.channels == channels
                &&& table.stream_count == tail@[0]
                &&& table.coupled_count == tail@[1]
                &&& table.mapping@.len() == channels
                &&& forall|c: int| 0 <= c < channels ==> table.mapping@[c] == tail@[c + 2]
            },
    {
        if mapping_family == 0 || tail.len() < 2 + channels as usize {
            return None;
        }
        Some(
            Self {
                channels,
                stream_count: tail[0],
                coupled_count: tail[1],
                mapping: slice_to_vec(&tail[2..2 + channels as usize]),
            },
        )
    }

    /// Channels that the streams decode to, all together.
    pub fn decoded_channel_count(&self) -> (r: usize)
        requires
            self.coupled_count <= self.stream_count,
        ensures
            r == self.decoded_channels(),
            r == self.stream_count + self.coupled_count,
    {
        self.coupled_count as usize * 2 + (self.stream_count - self.coupled_count) as usize
    }
}

/// The first header byte is the stream count, the second the coupled count, and
/// then comes one mapping entry per channel.
pub proof fn law_tail_in_bytes(
    table: ChannelMappingTable,
    streams: u8,
    coupled: u8,
    mapping: Seq<u8>,
    after: Seq<u8>,
)
    requires
        mapping.len() == table.channels,
    ensures
        table.described_by(table.channels, seq![streams, coupled] + mapping + after) <==> {
            &&& table.stream_count == streams
            &&& table.coupled_count == coupled
            &&& table.mapping@ == mapping
        },
{
    let tail = seq![streams, coupled] + mapping + after;
    assert(tail.subrange(2, 2 + table.channels) =~= mapping);
}

/// The first streams, as many as the coupled count says, have two channels, and
/// the others one. Their channels stand one after the other.
pub proof fn law_coupled_streams_come_first(table: ChannelMappingTable, stream: int)
    requires
        table.coupled_count <= table.stream_count,
        0 <= stream < table.stream_count,
    ensures
        table.stream_channels(stream) == if stream < table.coupled_count {
            2nat
        } else {
            1nat
        },
        table.channel_offset(0) == 0,
        table.channel_offset(stream + 1) - table.channel_offset(stream) == if stream
            < table.coupled_count {
            2int
        } else {
            1int
        },
        table.decoded_channels() == table.stream_count + table.coupled_count,
{
}

/// Decoded channel `s` is channel `s % 2` of stream `s / 2` for `s` below twice
/// the coupled count, and the one channel of stream `s` less the coupled count
/// elsewhere.
pub proof fn law_sources_in_numbers(table: ChannelMappingTable, s: int)
    requires
        table.coupled_count <= table.stream_count,
        0 <= s < table.stream_count + table.coupled_count,
    ensures
        s < 2 * table.coupled_count ==> table.source_stream(s) == s / 2 && table.source_channel(s)
            == s % 2,
        s >= 2 * table.coupled_count ==> table.source_stream(s) == s - table.coupled_count
            && table.source_channel(s) == 0,
{
}

/// A table whose mapping covers its channels is read back from its own bytes,
/// whatever follows them.
pub proof fn law_tail_reads_back(table: ChannelMappingTable, after: Seq<u8>)
    requires
        table.mapping@.len() == table.channels,
    ensures
        (table.tail() + after).len() >= 2 + table.channels,
        table.described_by(table.channels, table.tail() + after),
{
    assert((table.tail() + after).subrange(2, 2 + table.channels) =~= table.mapping@);
}

/// Header bytes give one table only, and bytes after the mapping do not matter.
pub proof fn law_tail_determines_table(
    a: ChannelMappingTable,
    b: ChannelMappingTable,
    channels: u8,
    tail: Seq<u8>,
    after: Seq<u8>,
)
    requires
        tail.len() >= 2 + channels,
        a.described_by(channels, tail),
        b.described_by(channels, tail + after),
    ensures
        a.channels == b.channels,
        a.stream_count == b.stream_count,
        a.coupled_count == b.coupled_count,
        a.mapping@ == b.mapping@,
{
    assert((tail + after).subrange(2, 2 + channels) =~= tail.subrange(2, 2 + channels));
}

/// The mapping of a table that was read covers its channels, so that nothing
/// but a coupled count above the stream count makes it ill-formed.
pub proof fn law_read_table_lacks_only_coupling(
    table: ChannelMappingTable,
    channels: u8,
    tail: Seq<u8>,
)
    requires
        tail.len() >= 2 + channels,
        table.described_by(channels, tail),
    ensures
        table.mapping@.len() == table.channels,
        table.well_formed() <==> tail[1] <= tail[0],
{
}

/// The channels of the streams follow each other without gap or overlap, and
/// add up to the decoded channels.
pub proof fn law_offsets_add_up(table: ChannelMappingTable, stream: int)
    requires
        table.well_formed(),
        0 <= stream < table.stream_count,
    ensures
        table.channel_offset(0) == 0,
        table.channel_offset(stream + 1) == table.channel_offset(stream) + table.stream_channels(
            stream,
        ),
        table.channel_offset(table.stream_count as int) == table.decoded_channels(),
{
}

/// Every decoded channel is one channel of one stream.
pub proof fn law_every_channel_has_a_source(table: ChannelMappingTable, channel: int)
    requires
        table.well_formed(),
        0 <= channel < table.decoded_channels(),
    ensures
        0 <= table.source_stream(channel) < table.stream_count,
        0 <= table.source_channel(channel) < table.stream_channels(table.source_stream(channel)),
        table.channel_offset(table.source_stream(channel)) + table.source_channel(channel)
            == channel,
{
}

/// Every channel of every stream is the decoded channel at its offset.
pub proof fn law_every_source_has_a_channel(
    table: ChannelMappingTable,
    stream: int,
    channel: int,
)
    requires
        table.well_formed(),
        0 <= stream < table.stream_count,
        0 <= channel < table.stream_channels(stream),
    ensures
        0 <= table.channel_offset(stream) + channel < table.decoded_channels(),
        table.source_stream(table.channel_offset(stream) + channel) == stream,
        table.source_channel(table.channel_offset(stream) + channel) == channel,
{
}

} // verus!
