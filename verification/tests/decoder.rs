use opus_rs::multistream::{
    ChannelMappingTable, ElementaryStream, MultistreamDecoder, PacketPass, StreamReport,
};

const OPUS_DECODE_RATE: i32 = 48_000;

fn table(stream_count: u8, coupled_count: u8, mapping: Vec<u8>) -> ChannelMappingTable {
    ChannelMappingTable { channels: mapping.len() as u8, stream_count, coupled_count, mapping }
}

fn report(frames: usize, samples: Vec<f32>) -> StreamReport<f32> {
    StreamReport { frames: Ok(frames), samples }
}

#[test]
fn multistream_decoder_rejects_bad_coupled_count() {
    let table = ChannelMappingTable {
        channels: 2,
        stream_count: 1,
        coupled_count: 2,
        mapping: vec![0, 1],
    };
    assert!(MultistreamDecoder::new(48000, table).is_err());
}

#[test]
fn multistream_decoder_builds_expected_stream_shape() {
    let table = ChannelMappingTable {
        channels: 6,
        stream_count: 4,
        coupled_count: 2,
        mapping: vec![0, 1, 4, 5, 2, 3],
    };
    let ms = MultistreamDecoder::new(48000, table).unwrap();
    assert_eq!(ms.decoders.len(), 4);
    assert_eq!(ms.decoders[1], ElementaryStream { sampling_rate: 48000, channels: 2 });
    assert_eq!(ms.decoders[2], ElementaryStream { sampling_rate: 48000, channels: 1 });
}

#[test]
fn multistream_decoder_names_the_fault_of_a_table() {
    let short = ChannelMappingTable {
        channels: 3,
        stream_count: 1,
        coupled_count: 2,
        mapping: vec![0, 1],
    };
    assert_eq!(
        MultistreamDecoder::new(48000, short).err(),
        Some("channel mapping table length does not match declared channel count")
    );
    assert_eq!(
        MultistreamDecoder::new(48000, table(1, 2, vec![0, 1])).err(),
        Some("coupled_count exceeds stream_count")
    );
}

/// A `channel_mapping[]` entry of 255 must always zero that output channel
/// regardless of decoded content.
#[test]
fn multistream_silence_mapping_produces_silence() {
    let table = ChannelMappingTable {
        channels: 3,
        stream_count: 1,
        coupled_count: 0,
        mapping: vec![0, 0, 255],
    };
    let dec = MultistreamDecoder::new(OPUS_DECODE_RATE, table).unwrap();

    let packet = [0u8];
    let frame_size = 960;
    let mut out = vec![1.0f32; frame_size * 3];

    let decoded = [report(frame_size, vec![0.5f32; frame_size])];
    let frames_decoded = dec.decode(&packet, frame_size, &decoded, 0.0, &mut out).unwrap();
    assert_eq!(frames_decoded, frame_size);
    for f in 0..frames_decoded {
        assert_eq!(out[f * 3], 0.5);
        assert_eq!(out[f * 3 + 1], 0.5);
        assert_eq!(out[f * 3 + 2], 0.0);
    }
}

#[test]
fn decode_routes_channels_of_every_stream() {
    // Stream 0 is stereo, stream 1 mono; the outputs are mono, right, silence, left.
    let dec = MultistreamDecoder::new(OPUS_DECODE_RATE, table(2, 1, vec![2, 1, 255, 0])).unwrap();
    let packet = [0u8, 1, 0xAA, 0u8, 0xBB];
    let reports = [
        report(2, vec![1.0, 2.0, 3.0, 4.0, 9.0, 9.0]),
        report(2, vec![5.0, 6.0, 9.0]),
    ];
    let mut out = vec![7.0f32; 13];
    assert_eq!(dec.decode(&packet, 3, &reports, 0.0, &mut out), Ok(2));
    assert_eq!(
        out,
        vec![5.0, 2.0, 0.0, 1.0, 6.0, 4.0, 0.0, 3.0, 7.0, 7.0, 7.0, 7.0, 7.0]
    );
}

#[test]
fn decode_reads_on_from_an_entry_past_the_channels() {
    // Entry 1 names no channel of the single mono stream: it reads the next frame.
    let dec = MultistreamDecoder::new(OPUS_DECODE_RATE, table(1, 0, vec![0, 1])).unwrap();
    let reports = [report(2, vec![1.0, 2.0, 9.0])];
    let mut out = vec![7.0f32; 6];
    assert_eq!(dec.decode(&[0], 3, &reports, 0.0, &mut out), Ok(2));
    assert_eq!(out, vec![1.0, 2.0, 2.0, 0.0, 7.0, 7.0]);
}

#[test]
fn decode_of_no_streams_writes_nothing() {
    let dec = MultistreamDecoder::new(OPUS_DECODE_RATE, table(0, 0, vec![255])).unwrap();
    let mut out = vec![7.0f32; 2];
    assert_eq!(dec.decode(&[1, 2, 3], 2, &[], 0.0, &mut out), Ok(0));
    assert_eq!(out, vec![7.0, 7.0]);
}

#[test]
fn decode_names_the_first_fault() {
    let dec = MultistreamDecoder::new(OPUS_DECODE_RATE, table(2, 0, vec![0, 1])).unwrap();
    let good = [0u8, 1, 0xAA, 0u8, 0xBB];
    let mut out = vec![7.0f32; 4];
    let agreeing = [report(2, vec![1.0, 2.0]), report(2, vec![3.0, 4.0])];
    let differing = [report(2, vec![1.0, 2.0]), report(1, vec![3.0, 4.0])];
    let failing = [
        report(2, vec![1.0, 2.0]),
        StreamReport { frames: Err("corrupt stream"), samples: vec![0.0, 0.0] },
    ];

    assert_eq!(
        dec.decode(&good, 2, &agreeing, 0.0, &mut out[..3]),
        Err("output buffer too small for frame_size * channels")
    );
    assert_eq!(
        dec.decode(&[], 2, &agreeing, 0.0, &mut out),
        Err("empty multistream packet")
    );
    assert_eq!(
        dec.decode(&good, 2, &differing, 0.0, &mut out),
        Err("elementary streams decoded to different frame counts")
    );
    assert_eq!(dec.decode(&good, 2, &failing, 0.0, &mut out), Err("corrupt stream"));
    assert_eq!(out, vec![7.0; 4]);
    assert_eq!(dec.decode(&good, 2, &agreeing, 0.0, &mut out), Ok(2));
    assert_eq!(out, vec![1.0, 3.0, 2.0, 4.0]);
}

#[test]
fn pass_asks_for_the_packet_of_every_stream() {
    let table = table(3, 1, vec![0]);
    // Code 1, code 3 and, unframed at the end, code 0.
    let packet = [1u8, 1, 0xA0, 0xA1, 3, 0x82, 1, 2, 0xB0, 0xB1, 0xB2, 0, 0xC0, 0xC1];
    let expected: [(usize, &[u8]); 3] = [
        (2, &[1, 0xA0, 0xA1]),
        (1, &[3, 0x82, 1, 0xB0, 0xB1, 0xB2]),
        (1, &[0, 0xC0, 0xC1]),
    ];
    let mut scratch = Vec::new();
    let mut pass = PacketPass::begin(&table, &packet, 1, 1, 0.0f32).unwrap();
    for (i, (channels, bytes)) in expected.iter().enumerate() {
        let request = pass.next_stream(&mut scratch).unwrap().unwrap();
        assert_eq!(request.stream, i);
        assert_eq!(request.channels, *channels);
        assert_eq!(request.packet, *bytes);
        assert!(pass.accept(Ok(1), &vec![i as f32 + 1.0; *channels]).is_ok());
    }
    assert!(pass.next_stream(&mut scratch).unwrap().is_none());
    assert!(pass.mapping_fits());
    let mut out = [0.0f32];
    assert_eq!(pass.finish(&mut out), 1);
    assert_eq!(out, [1.0]);
}

#[test]
fn pass_reports_a_mapping_that_reads_outside() {
    let table = table(1, 0, vec![0, 1]);
    let mut scratch = Vec::new();
    for (frames, fits) in [(0usize, true), (1, true), (2, false)] {
        let mut pass = PacketPass::begin(&table, &[0], 2, 4, 0u32).unwrap();
        assert!(pass.next_stream(&mut scratch).unwrap().is_some());
        assert!(pass.accept(Ok(frames), &[1, 2]).is_ok());
        assert_eq!(pass.mapping_fits(), fits);
    }
}

#[test]
fn pass_ends_at_a_failed_stream() {
    let table = table(1, 0, vec![0]);
    let mut scratch = Vec::new();
    let mut pass = PacketPass::begin(&table, &[0], 1, 1, 0u32).unwrap();
    assert!(pass.next_stream(&mut scratch).unwrap().is_some());
    assert_eq!(pass.accept(Err("corrupt stream"), &[0]), Err("corrupt stream"));
}

fn run_pass(
    dec: &MultistreamDecoder,
    packet: &[u8],
    frame_size: usize,
    reports: &[StreamReport<f32>],
    out: &mut [f32],
) -> Result<usize, &'static str> {
    let mut scratch = Vec::new();
    let mut pass = PacketPass::begin(&dec.table, packet, frame_size, out.len(), 0.0)?;
    while let Some(request) = pass.next_stream(&mut scratch)? {
        let stream = request.stream;
        pass.accept(reports[stream].frames, &reports[stream].samples)?;
    }
    assert!(pass.mapping_fits());
    Ok(pass.finish(out))
}

#[test]
fn pass_adds_up_to_decode() {
    let dec = MultistreamDecoder::new(OPUS_DECODE_RATE, table(3, 1, vec![3, 0, 255, 1, 2])).unwrap();
    let good: &[u8] = &[1, 1, 0xA0, 0xA1, 3, 0x82, 1, 2, 0xB0, 0xB1, 0xB2, 0, 0xC0];
    let cut: &[u8] = &[1, 1, 0xA0, 0xA1, 3, 0x82, 1, 2, 0xB0];
    let first = || report(2, vec![1.0, 2.0, 3.0, 4.0]);
    let sets = [
        [first(), report(2, vec![5.0, 6.0]), report(2, vec![7.0, 8.0])],
        [first(), report(1, vec![5.0, 6.0]), report(2, vec![7.0, 8.0])],
        [
            first(),
            StreamReport { frames: Err("corrupt stream"), samples: vec![0.0; 2] },
            report(2, vec![7.0, 8.0]),
        ],
    ];
    for packet in [good, cut] {
        for reports in &sets {
            let mut whole = vec![9.0f32; 11];
            let mut stepped = vec![9.0f32; 11];
            let expected = dec.decode(packet, 2, reports, 0.0, &mut whole);
            assert_eq!(run_pass(&dec, packet, 2, reports, &mut stepped), expected);
            assert_eq!(stepped, whole);
        }
    }
    let mut out = vec![9.0f32; 11];
    assert_eq!(run_pass(&dec, good, 2, &sets[0], &mut out), Ok(2));
    assert_eq!(out, vec![7.0, 1.0, 0.0, 2.0, 5.0, 8.0, 3.0, 0.0, 4.0, 6.0, 9.0]);
}
