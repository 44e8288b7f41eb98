use opus_rs::multistream::split::push_frame;
use opus_rs::multistream::split_self_delimited;
use opus_rs::parse_frame_size;

fn toc_byte(config: u8, stereo: bool, code: u8) -> u8 {
    (config << 3) | ((stereo as u8) << 2) | (code & 0x03)
}

fn error_of(data: &[u8]) -> &'static str {
    let mut scratch = Vec::new();
    split_self_delimited(data, &mut scratch).unwrap_err()
}

#[test]
fn split_code0_single_frame() {
    let bytes = [toc_byte(0, false, 0), 3, 0xAA, 0xBB, 0xCC, 0xFF];
    let mut scratch = Vec::new();
    let (pkt, consumed) = split_self_delimited(&bytes, &mut scratch).unwrap();
    assert_eq!(consumed, 1 + 1 + 3);
    assert_eq!(pkt, &[toc_byte(0, false, 0), 0xAA, 0xBB, 0xCC][..]);
}

#[test]
fn split_code0_two_byte_length() {
    let mut bytes = vec![toc_byte(0, false, 0), 252, 0];
    bytes.extend(std::iter::repeat(0x7Fu8).take(252));
    let mut scratch = Vec::new();
    let (_, consumed) = split_self_delimited(&bytes, &mut scratch).unwrap();
    assert_eq!(consumed, 1 + 2 + 252);
}

#[test]
fn split_code1_equal_frames() {
    let bytes = [toc_byte(0, false, 1), 2, 0xAA, 0xBB, 0xCC, 0xDD, 0x11];
    let mut scratch = Vec::new();
    let (_, consumed) = split_self_delimited(&bytes, &mut scratch).unwrap();
    assert_eq!(consumed, 1 + 1 + 4);
}

#[test]
fn split_code2_two_lengths() {
    let bytes = [toc_byte(0, false, 2), 3, 2, 0xAA, 0xBB, 0xCC, 0xDD, 0xEE];
    let mut scratch = Vec::new();
    let (pkt, consumed) = split_self_delimited(&bytes, &mut scratch).unwrap();
    assert_eq!(consumed, 1 + 1 + 1 + 3 + 2);
    assert_eq!(pkt, &[toc_byte(0, false, 2), 3, 0xAA, 0xBB, 0xCC, 0xDD, 0xEE][..]);
}

#[test]
fn split_code3_cbr_three_frames() {
    let bytes = [toc_byte(0, false, 3), 3, 2, 0x10, 0x11, 0x20, 0x21, 0x30, 0x31];
    let mut scratch = Vec::new();
    let (_, consumed) = split_self_delimited(&bytes, &mut scratch).unwrap();
    assert_eq!(consumed, 1 + 1 + 1 + 6);
}

#[test]
fn split_code3_cbr_with_padding() {
    let fc = 0x40 | 2u8;
    let bytes = [
        toc_byte(0, false, 3), fc, 2, 3,
        0xAA, 0xBB, 0xCC, 0xDD, 0xEE, 0xFF,
        0x55, 0x66,
    ];
    let mut scratch = Vec::new();
    let (_, consumed) = split_self_delimited(&bytes, &mut scratch).unwrap();
    assert_eq!(consumed, 12);
}

#[test]
fn split_code3_vbr_three_frames() {
    let fc = 0x80 | 3u8;
    let bytes = [
        toc_byte(0, false, 3), fc, 2, 3, 1,
        0xAA, 0xBB, 0xCC, 0xDD, 0xEE, 0xFF,
    ];
    let mut scratch = Vec::new();
    let (pkt, consumed) = split_self_delimited(&bytes, &mut scratch).unwrap();
    assert_eq!(consumed, 1 + 1 + 1 + 1 + 1 + 2 + 3 + 1);
    assert_eq!(pkt, &[toc_byte(0, false, 3), fc, 2, 3, 0xAA, 0xBB, 0xCC, 0xDD, 0xEE, 0xFF][..]);
}

#[test]
fn split_two_streams_chained() {
    let bytes = [
        toc_byte(0, false, 0), 2, 0xA0, 0xA1,
        toc_byte(0, false, 1), 1, 0xB0, 0xB1,
    ];
    let mut scratch = Vec::new();
    let a_consumed = {
        let (a, a_consumed) = split_self_delimited(&bytes, &mut scratch).unwrap();
        assert_eq!(a, &[toc_byte(0, false, 0), 0xA0, 0xA1][..]);
        a_consumed
    };
    assert_eq!(a_consumed, 4);
    let (_, b_consumed) = split_self_delimited(&bytes[a_consumed..], &mut scratch).unwrap();
    assert_eq!(b_consumed, 4);
}

#[test]
fn split_truncated_frame_is_error() {
    let bytes = [toc_byte(0, false, 0), 4, 0xAA, 0xBB];
    let mut scratch = Vec::new();
    assert!(split_self_delimited(&bytes, &mut scratch).is_err());
}

#[test]
fn split_code3_zero_frames_is_error() {
    let bytes = [toc_byte(0, false, 3), 0, 1, 0xAA];
    let mut scratch = Vec::new();
    assert!(split_self_delimited(&bytes, &mut scratch).is_err());
}

#[test]
fn split_names_every_fault() {
    assert_eq!(error_of(&[]), "empty multistream packet");
    assert_eq!(error_of(&[0]), "truncated frame length");
    assert_eq!(error_of(&[0, 252]), "truncated frame length");
    assert_eq!(error_of(&[2, 1]), "truncated frame length");
    assert_eq!(error_of(&[3]), "truncated code-3 frame-count byte");
    assert_eq!(error_of(&[3, 0xC0]), "code-3 packet declares zero frames");
    assert_eq!(error_of(&[3, 0x41, 255, 255]), "truncated padding length chain");
    assert_eq!(error_of(&[3, 0x83, 1]), "truncated frame length");
    assert_eq!(error_of(&[1, 2, 9, 9, 9]), "truncated frame in self-delimited packet");
    assert_eq!(error_of(&[3, 0x41, 2, 1, 9, 9]), "truncated code-3 padding");
}

#[test]
fn split_sums_a_padding_chain() {
    let mut bytes = vec![3u8, 0x41, 255, 255, 3, 1, 0xAB];
    bytes.extend(std::iter::repeat(0u8).take(254 + 254 + 3));
    let mut scratch = Vec::new();
    let (pkt, consumed) = split_self_delimited(&bytes, &mut scratch).unwrap();
    assert_eq!(consumed, bytes.len());
    assert_eq!(pkt.len(), bytes.len() - 1);
    assert_eq!(&pkt[..6], &[3, 0x41, 255, 255, 3, 0xAB][..]);
}

#[test]
fn split_faults_leave_what_was_copied() {
    let mut scratch = vec![7, 7];
    assert!(split_self_delimited(&[], &mut scratch).is_err());
    assert_eq!(scratch, vec![7, 7]);
    assert!(split_self_delimited(&[3, 0x80], &mut scratch).is_err());
    assert_eq!(scratch, vec![3, 0x80]);
    assert!(split_self_delimited(&[1, 2, 8, 9, 8], &mut scratch).is_err());
    assert_eq!(scratch, vec![1, 8, 9]);
    assert!(split_self_delimited(&[3, 0x41, 2, 1, 9, 6], &mut scratch).is_err());
    assert_eq!(scratch, vec![3, 0x41, 2, 9]);
}

#[test]
fn split_does_not_look_past_the_packet() {
    let bytes = [toc_byte(0, false, 2), 3, 2, 0xAA, 0xBB, 0xCC, 0xDD, 0xEE];
    let mut scratch = Vec::new();
    let whole = split_self_delimited(&bytes, &mut scratch).unwrap().0.to_vec();
    let mut longer = bytes.to_vec();
    longer.extend([1, 2, 3, 4]);
    let (pkt, consumed) = split_self_delimited(&longer, &mut scratch).unwrap();
    assert_eq!(consumed, bytes.len());
    assert_eq!(pkt, &whole[..]);
}

#[test]
fn split_refuses_every_truncation() {
    let packets: [&[u8]; 4] = [
        &[0, 3, 1, 2, 3],
        &[1, 2, 1, 2, 3, 4],
        &[2, 3, 2, 1, 2, 3, 4, 5],
        &[3, 0xC3, 2, 2, 3, 1, 1, 2, 3, 4, 5, 6, 0, 0],
    ];
    let mut scratch = Vec::new();
    for packet in packets {
        assert_eq!(split_self_delimited(packet, &mut scratch).unwrap().1, packet.len());
        for kept in 0..packet.len() {
            assert!(split_self_delimited(&packet[..kept], &mut scratch).is_err());
        }
    }
}

#[test]
fn split_undoes_an_inserted_length() {
    // A normal code 2 packet, and the same packet with the length of its second frame put in.
    let mut normal = vec![2u8, 1, 0x55];
    normal.extend(std::iter::repeat(0x66u8).take(1275));
    let mut delimited = vec![2u8, 1, 255, 255];
    delimited.extend(&normal[2..]);
    let mut scratch = Vec::new();
    let (pkt, consumed) = split_self_delimited(&delimited, &mut scratch).unwrap();
    assert_eq!(consumed, delimited.len());
    assert_eq!(pkt, &normal[..]);
}

#[test]
fn frame_sizes_are_read() {
    assert_eq!(parse_frame_size(&[0]), Ok((0, 1)));
    assert_eq!(parse_frame_size(&[251, 9]), Ok((251, 1)));
    assert_eq!(parse_frame_size(&[252, 0]), Ok((252, 2)));
    assert_eq!(parse_frame_size(&[253, 1]), Ok((257, 2)));
    assert_eq!(parse_frame_size(&[255, 255]), Ok((1275, 2)));
    assert_eq!(parse_frame_size(&[]), Err("truncated frame length"));
    assert_eq!(parse_frame_size(&[252]), Err("truncated frame length"));
}

#[test]
fn frames_are_pushed_or_refused() {
    let data = [1u8, 2, 3, 4];
    let mut out = vec![9];
    assert_eq!(push_frame(&data, 1, 2, &mut out), Ok(3));
    assert_eq!(out, vec![9, 2, 3]);
    assert_eq!(push_frame(&data, 4, 0, &mut out), Ok(4));
    assert_eq!(
        push_frame(&data, 3, 2, &mut out),
        Err("truncated frame in self-delimited packet")
    );
    assert_eq!(
        push_frame(&data, 5, 0, &mut out),
        Err("truncated frame in self-delimited packet")
    );
    assert_eq!(push_frame(&data, usize::MAX, 1, &mut out), Err("frame length overflow"));
    assert_eq!(out, vec![9, 2, 3]);
}
