use opus_rs::multistream::{ChannelMappingTable, MultistreamDecoder};

#[test]
fn mapping_table_parses_5_1_shape() {
    let tail = [4u8, 2, 0, 1, 4, 5, 2, 3];
    let table = ChannelMappingTable::parse(1, 6, &tail).unwrap();
    assert_eq!(table.stream_count, 4);
    assert_eq!(table.coupled_count, 2);
    assert_eq!(table.mapping, vec![0, 1, 4, 5, 2, 3]);
    assert_eq!(table.decoded_channel_count(), 6);
}

#[test]
fn mapping_family_zero_has_no_table() {
    assert!(ChannelMappingTable::parse(0, 2, &[9, 9, 9, 9]).is_none());
}

#[test]
fn mapping_table_rejects_truncated_tail() {
    assert!(ChannelMappingTable::parse(1, 6, &[4, 2, 0, 1]).is_none());
}

#[test]
fn mapping_table_needs_every_entry() {
    assert!(ChannelMappingTable::parse(1, 2, &[1, 1, 0]).is_none());
    assert!(ChannelMappingTable::parse(1, 2, &[1, 1, 0, 1]).is_some());
    assert!(ChannelMappingTable::parse(255, 0, &[0, 0]).is_some());
    assert!(ChannelMappingTable::parse(255, 0, &[0]).is_none());
}

#[test]
fn mapping_table_ignores_bytes_after_the_mapping() {
    let table = ChannelMappingTable::parse(1, 2, &[1, 1, 0, 1]).unwrap();
    assert_eq!(ChannelMappingTable::parse(1, 2, &[1, 1, 0, 1, 77, 78]), Some(table.clone()));
    assert_eq!(table.channels, 2);
    assert_eq!(table.mapping, vec![0, 1]);
}

#[test]
fn decoded_channels_add_up_over_the_streams() {
    for coupled in 0..=4u8 {
        let table = ChannelMappingTable {
            channels: 0,
            stream_count: 4,
            coupled_count: coupled,
            mapping: vec![],
        };
        let expected = table.decoded_channel_count();
        let decoder = MultistreamDecoder::new(48000, table).unwrap();
        let sum: usize = decoder.decoders.iter().map(|d| d.channels).sum();
        assert_eq!(sum, expected);
        assert_eq!(sum, 4 + coupled as usize);
    }
}
