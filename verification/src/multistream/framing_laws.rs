//! What holds of splitting as a whole.

use super::framing;
use crate::frame_size;
use vstd::prelude::*;

verus! {

/// The self-delimited form of a normal packet: the packet with one more length
/// field before its frames, for the size that normal framing leaves out.
pub open spec fn self_delimited(packet: Seq<u8>) -> Seq<u8>
    recommends
        framing::normal_layout(packet) is Some,
{
    let layout = framing::normal_layout(packet).unwrap();
    packet.take(layout.cut) + frame_size::frame_size_field(layout.sizes.last()) + packet.skip(
        layout.cut,
    )
}

/// A packet that self-delimiting framing can carry: a normal packet whose last
/// frame is no longer than a length field can say.
pub open spec fn can_be_delimited(packet: Seq<u8>) -> bool {
    framing::normal_layout(packet) matches Some(layout) && layout.sizes.last()
        <= frame_size::MAX_FRAME_LENGTH
}

/// Splitting consumes at least a TOC byte and a length field, never reaches
/// beyond the input, keeps the TOC byte, and drops one or two bytes.
pub proof fn law_split_stays_within_input(data: Seq<u8>)
    ensures
        framing::split(data).outcome matches Ok(n) ==> {
            let packet = framing::split(data).written;
            &&& 2 <= n <= data.len()
            &&& 1 <= n - packet.len() <= 2
            &&& packet.len() >= 1
            &&& packet[0] == data[0]
        },
{
    if framing::split(data).outcome is Ok {
        lemma_layout_bounds(data);
    }
}

/// What is split off depends on the bytes of the packet alone, not on what
/// follows it: any input that begins with the same packet splits alike.
pub proof fn law_split_reads_only_the_packet(data: Seq<u8>, other: Seq<u8>)
    requires
        framing::split(data).outcome is Ok,
        framing::split(data).outcome->Ok_0 <= other.len(),
        other.take(framing::split(data).outcome->Ok_0 as int) == data.take(
            framing::split(data).outcome->Ok_0 as int,
        ),
    ensures
        framing::split(other) == framing::split(data),
{
    let n = framing::split(data).outcome->Ok_0 as int;
    let layout = framing::self_delimited_layout(data)->Ok_0;
    lemma_layout_bounds(data);
    assert(agree(data, other, n)) by {
        assert forall|i: int| 0 <= i < n implies data[i] == other[i] by {
            assert(data.take(n)[i] == other.take(n)[i]);
        }
    }
    lemma_preamble_agrees(data, other, n);
    let pre = framing::preamble(data)->Ok_0;
    lemma_run_agrees(data, other, pre.end, pre.explicit, n);
    frame_size::law_field_reads_only_itself(data, other, layout.cut);
    assert(framing::split(other).written =~= framing::split(data).written);
}

/// A packet that has lost bytes at its end is refused.
pub proof fn law_truncated_packet_is_refused(data: Seq<u8>, kept: int)
    requires
        framing::split(data).outcome is Ok,
        0 <= kept < framing::split(data).outcome->Ok_0,
    ensures
        framing::split(data.take(kept)).outcome is Err,
{
    law_split_stays_within_input(data);
    let shorter = data.take(kept);
    if let Ok(n) = framing::split(shorter).outcome {
        law_split_stays_within_input(shorter);
        assert(shorter.take(n as int) =~= data.take(n as int));
        law_split_reads_only_the_packet(shorter, data);
    }
}

/// What is split off is a normal packet: read by normal framing it has the
/// very frames, and the padding, that the self-delimited packet had.
pub proof fn law_split_yields_a_normal_packet(data: Seq<u8>)
    requires
        framing::split(data).outcome is Ok,
    ensures
        framing::self_delimited_layout(data) is Ok,
        framing::normal_layout(framing::split(data).written) is Some,
        ({
            let there = framing::self_delimited_layout(data)->Ok_0;
            let packet = framing::split(data).written;
            let here = framing::normal_layout(packet).unwrap();
            &&& here.sizes == there.sizes
            &&& here.padding == there.padding
            &&& here.end() == packet.len()
            &&& forall|i: int|
                0 <= i < here.sizes.len() ==> #[trigger] here.frame(packet, i) == there.frame(
                    data,
                    i,
                )
        }),
{
    let there = framing::self_delimited_layout(data)->Ok_0;
    let packet = framing::split(data).written;
    let pre = framing::preamble(data)->Ok_0;
    let run = framing::length_run(data, pre.end, pre.explicit);
    let size = frame_size::frame_size_at(data, run.end).unwrap().0;
    lemma_layout_bounds(data);
    assert(agree(data, packet, there.cut));
    lemma_preamble_agrees(data, packet, there.cut);
    lemma_run_agrees(data, packet, pre.end, pre.explicit, there.cut);
    lemma_total_with_repeated(run.sizes, size, pre.implicit);
    let room = packet.len() - run.end - pre.padding - framing::total(run.sizes);
    assert(room == size * pre.implicit);
    vstd::arithmetic::div_mod::lemma_fundamental_div_mod_converse(
        room,
        pre.implicit as int,
        size as int,
        0,
    );
    let here = framing::normal_layout(packet).unwrap();
    assert forall|i: int| 0 <= i < here.sizes.len() implies #[trigger] here.frame(packet, i)
        == there.frame(data, i) by {
        lemma_total_of_prefix(there.sizes, i);
        assert(here.frame(packet, i) =~= there.frame(data, i));
    }
}

/// Splitting undoes self-delimiting, whatever follows.
pub proof fn law_split_undoes_delimiting(packet: Seq<u8>, after: Seq<u8>)
    requires
        can_be_delimited(packet),
    ensures
        framing::split(self_delimited(packet) + after).written == packet,
        framing::split(self_delimited(packet) + after).outcome == Ok::<nat, Seq<char>>(
            self_delimited(packet).len(),
        ),
{
    let layout = framing::normal_layout(packet).unwrap();
    let pre = framing::preamble(packet)->Ok_0;
    let run = framing::length_run(packet, pre.end, pre.explicit);
    let size = layout.sizes.last();
    let field = frame_size::frame_size_field(size);
    let head = packet.take(layout.cut);
    let rest = packet.skip(layout.cut) + after;
    let data = self_delimited(packet) + after;
    framing::lemma_preamble_bounds(packet);
    framing::lemma_run_bounds(packet, pre.end, pre.explicit);
    lemma_normal_room(packet);
    assert(data =~= head + field + rest);
    assert(agree(packet, data, layout.cut));
    lemma_preamble_agrees(packet, data, layout.cut);
    lemma_run_agrees(packet, data, pre.end, pre.explicit, layout.cut);
    frame_size::law_field_reads_back(head, size, rest);
    let there = framing::self_delimited_layout(data)->Ok_0;
    assert(there.sizes == layout.sizes);
    assert(there.end() == self_delimited(packet).len());
    assert(framing::split(data).written =~= packet);
}

/// Self-delimiting undoes splitting: the bytes that a split consumed are the
/// self-delimited form of the packet it gave.
pub proof fn law_delimiting_undoes_split(data: Seq<u8>)
    requires
        framing::split(data).outcome is Ok,
    ensures
        can_be_delimited(framing::split(data).written),
        self_delimited(framing::split(data).written) == data.take(
            framing::split(data).outcome->Ok_0 as int,
        ),
{
    let there = framing::self_delimited_layout(data)->Ok_0;
    let packet = framing::split(data).written;
    let pre = framing::preamble(data)->Ok_0;
    let here = framing::normal_layout(packet).unwrap();
    law_split_yields_a_normal_packet(data);
    lemma_layout_bounds(data);
    assert(agree(data, packet, there.cut));
    lemma_preamble_agrees(data, packet, there.cut);
    lemma_run_agrees(data, packet, pre.end, pre.explicit, there.cut);
    assert(here.cut == there.cut);
    frame_size::law_field_is_bounded(data, there.cut);
    frame_size::law_field_is_unique(data, there.cut);
    assert(self_delimited(packet) =~= data.take(there.end()));
}

/// Two inputs have the same first `k` bytes.
spec fn agree(a: Seq<u8>, b: Seq<u8>, k: int) -> bool {
    &&& 0 <= k <= a.len()
    &&& k <= b.len()
    &&& forall|i: int| 0 <= i < k ==> #[trigger] a[i] == b[i]
}

proof fn lemma_layout_bounds(data: Seq<u8>)
    ensures
        framing::self_delimited_layout(data) matches Ok(layout) ==> {
            let pre = framing::preamble(data)->Ok_0;
            &&& 1 <= pre.end <= layout.cut
            &&& 1 <= layout.body - layout.cut <= 2
            &&& layout.body <= data.len()
            &&& pre.implicit >= 1
            &&& layout.sizes.len() == pre.explicit + pre.implicit
        },
{
    framing::lemma_preamble_bounds(data);
    if let Ok(pre) = framing::preamble(data) {
        framing::lemma_run_bounds(data, pre.end, pre.explicit);
    }
}

proof fn lemma_chain_agrees(a: Seq<u8>, b: Seq<u8>, at: int, k: int)
    requires
        0 <= at,
        agree(a, b, k),
        framing::padding_chain(a, at) matches Some((_, end)) && end <= k,
    ensures
        framing::padding_chain(b, at) == framing::padding_chain(a, at),
    decreases a.len() - at,
{
    framing::lemma_chain_bounds(a, at);
    assert(a[at] == b[at]);
    if a[at] == 255 {
        lemma_chain_agrees(a, b, at + 1, k);
    }
}

proof fn lemma_preamble_agrees(a: Seq<u8>, b: Seq<u8>, k: int)
    requires
        agree(a, b, k),
        framing::preamble(a) matches Ok(pre) && pre.end <= k,
    ensures
        framing::preamble(b) == framing::preamble(a),
{
    framing::lemma_preamble_bounds(a);
    assert(a[0] == b[0]);
    if framing::packing_code(a[0]) == 3 {
        framing::lemma_chain_bounds(a, 2);
        assert(a[1] == b[1]);
        if framing::announces_padding(a[1]) {
            lemma_chain_agrees(a, b, 2, k);
        }
    }
}

proof fn lemma_run_agrees(a: Seq<u8>, b: Seq<u8>, at: int, count: nat, k: int)
    requires
        0 <= at <= k,
        agree(a, b, k),
        framing::length_run(a, at, count).sizes.len() == count,
        framing::length_run(a, at, count).end <= k,
    ensures
        framing::length_run(b, at, count) == framing::length_run(a, at, count),
    decreases count,
{
    if count > 0 {
        let shorter = (count - 1) as nat;
        framing::lemma_run_bounds(a, at, shorter);
        lemma_run_agrees(a, b, at, shorter, k);
        frame_size::law_field_reads_only_itself(a, b, framing::length_run(a, at, shorter).end);
    }
}

pub(crate) proof fn lemma_total_with_repeated(sizes: Seq<nat>, size: nat, count: nat)
    ensures
        framing::total(sizes + framing::repeated(size, count)) == framing::total(sizes) + size
            * count,
    decreases count,
{
    let all = sizes + framing::repeated(size, count);
    if count == 0 {
        assert(all =~= sizes);
        assert(size * count == 0) by (nonlinear_arith)
            requires
                count == 0,
        ;
    } else {
        let shorter = (count - 1) as nat;
        assert(all.drop_last() =~= sizes + framing::repeated(size, shorter));
        lemma_total_with_repeated(sizes, size, shorter);
        assert(size * count == size * shorter + size) by (nonlinear_arith)
            requires
                count == shorter + 1,
        ;
    }
}

/// The frames up to and with frame `i` take no more room than all frames.
proof fn lemma_total_of_prefix(sizes: Seq<nat>, i: int)
    requires
        0 <= i < sizes.len(),
    ensures
        framing::total(sizes.take(i)) + sizes[i] <= framing::total(sizes),
    decreases sizes.len(),
{
    if i + 1 == sizes.len() {
        assert(sizes.take(i) =~= sizes.drop_last());
    } else {
        assert(sizes.drop_last().take(i) =~= sizes.take(i));
        lemma_total_of_prefix(sizes.drop_last(), i);
    }
}

/// The frames and the padding of a normal packet fill it to its end.
proof fn lemma_normal_room(packet: Seq<u8>)
    ensures
        framing::normal_layout(packet) matches Some(layout) ==> layout.end() == packet.len(),
{
    if let Some(layout) = framing::normal_layout(packet) {
        let pre = framing::preamble(packet)->Ok_0;
        let run = framing::length_run(packet, pre.end, pre.explicit);
        let room = packet.len() - run.end - pre.padding - framing::total(run.sizes);
        let size = (room / pre.implicit as int) as nat;
        framing::lemma_preamble_bounds(packet);
        lemma_total_with_repeated(run.sizes, size, pre.implicit);
        vstd::arithmetic::div_mod::lemma_fundamental_div_mod(room, pre.implicit as int);
        vstd::arithmetic::div_mod::lemma_div_pos_is_pos(room, pre.implicit as int);
        vstd::arithmetic::mul::lemma_mul_is_commutative(size as int, pre.implicit as int);
    }
}

} // verus!
