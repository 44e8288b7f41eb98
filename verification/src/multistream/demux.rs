//! How a multistream packet divides into the packets of its streams.
//!
//! The packets stand one after the other. All but the last are self-delimited;
//! the last is a normal packet and takes what the others leave.

use super::framing;
use super::framing_laws;
use vstd::prelude::*;

verus! {

/// What is left of `packet` once `streams` self-delimited packets are split off.
pub open spec fn rest_after(packet: Seq<u8>, streams: nat) -> Seq<u8>
    decreases streams,
{
    if streams == 0 {
        packet
    } else {
        let rest = rest_after(packet, (streams - 1) as nat);
        match framing::split(rest).outcome {
            Ok(n) => rest.skip(n as int),
            Err(_) => rest,
        }
    }
}

/// The normal packet that `rest` holds for the next stream: all of it for the
/// last stream, and a split-off packet for any other.
pub open spec fn next_packet(rest: Seq<u8>, last: bool) -> Result<Seq<u8>, Seq<char>> {
    if last {
        Ok(rest)
    } else {
        match framing::split(rest).outcome {
            Ok(_) => Ok(framing::split(rest).written),
            Err(message) => Err(message),
        }
    }
}

/// The normal packet of stream `stream` in a multistream packet of `streams` streams.
pub open spec fn stream_packet(packet: Seq<u8>, streams: nat, stream: nat) -> Result<
    Seq<u8>,
    Seq<char>,
> {
    next_packet(rest_after(packet, stream), stream + 1 == streams)
}

/// The multistream packet that carries the given packets, one per stream.
pub open spec fn joined(packets: Seq<Seq<u8>>) -> Seq<u8>
    decreases packets.len(),
{
    if packets.len() == 0 {
        seq![]
    } else if packets.len() == 1 {
        packets[0]
    } else {
        framing_laws::self_delimited(packets[0]) + joined(packets.drop_first())
    }
}

/// Every stream of a multistream packet gets back the packet that was put in
/// for it.
pub proof fn law_streams_get_their_packets(packets: Seq<Seq<u8>>, stream: nat)
    requires
        stream < packets.len(),
        forall|i: int|
            0 <= i < packets.len() - 1 ==> framing_laws::can_be_delimited(#[trigger] packets[i]),
    ensures
        stream_packet(joined(packets), packets.len(), stream) == Ok::<Seq<u8>, Seq<char>>(
            packets[stream as int],
        ),
{
    lemma_rest_of_joined(packets, stream);
    let rest = packets.skip(stream as int);
    assert(rest[0] == packets[stream as int]);
    if stream + 1 < packets.len() {
        framing_laws::law_split_undoes_delimiting(rest[0], joined(rest.drop_first()));
    }
}

proof fn lemma_rest_of_joined(packets: Seq<Seq<u8>>, streams: nat)
    requires
        streams < packets.len(),
        forall|i: int|
            0 <= i < packets.len() - 1 ==> framing_laws::can_be_delimited(#[trigger] packets[i]),
    ensures
        rest_after(joined(packets), streams) == joined(packets.skip(streams as int)),
    decreases streams,
{
    if streams == 0 {
        assert(packets.skip(0) =~= packets);
    } else {
        let before = packets.skip(streams - 1);
        lemma_rest_of_joined(packets, (streams - 1) as nat);
        assert(before[0] == packets[streams - 1]);
        assert(before.drop_first() =~= packets.skip(streams as int));
        let first = framing_laws::self_delimited(before[0]);
        let others = joined(packets.skip(streams as int));
        framing_laws::law_split_undoes_delimiting(before[0], others);
        assert((first + others).skip(first.len() as int) =~= others);
    }
}

} // verus!
