use sbus::{Data, Packet, Receiver, SBUS_PACKET_SIZE};

/// Bytes written as pairs of hex digits; white space between them is ignored.
fn hex_bytes(text: &str) -> Vec<u8> {
    let digits: Vec<char> = text.chars().filter(|c| !c.is_whitespace()).collect();
    digits
        .chunks(2)
        .map(|pair| {
            let s: String = pair.iter().collect();
            u8::from_str_radix(&s, 16).unwrap()
        })
        .collect()
}

const SBUS_SAMPLE: &str = "0F E0 03 1F 58 C0 07 16 B0 80 05 2C 60 01 0B F8 C0 07 00 00 00 00 00 03 00";

fn sample() -> Vec<u8> {
    hex_bytes(SBUS_SAMPLE)
}

fn decoded(frame: &[u8]) -> Data {
    Packet::new(frame.try_into().unwrap()).parse()
}

#[test]
fn lib_test_received_some() {
    let mut receiver = Receiver::new();
    let bytes = hex_bytes("0F E0 03 1F 58 C0 07 16 B0 80 05 2C 60 01 0B F8 C0 07 00 00 00 00 00 03 00");
    assert_eq!(bytes.len(), SBUS_PACKET_SIZE);
    assert!(receiver.receive(&bytes).is_some());
}

#[test]
fn lib_test_received_none() {
    let mut receiver = Receiver::new();
    let bytes = hex_bytes("FF FF FF FF FF FF FF FF FF FF FF FF FF FF FF FF FF FF FF FF FF FF FF FF FF");
    assert!(receiver.receive(&bytes).is_none());
    assert_eq!(receiver.size(), 0);
}

#[test]
fn lib_test_partially_receive() {
    let mut receiver = Receiver::new();

    let bytes = hex_bytes("00 00 00 00 00 00 00 00 00 00 00 00 00 00 00 00 00 00 00 00 00 00 00 0F 00");
    assert!(receiver.receive(&bytes).is_none());
    assert_eq!(receiver.size(), 2);

    let bytes = hex_bytes("FF FF FF FF FF FF FF FF FF FF FF FF FF FF FF FF FF FF FF FF FF FF 00 FF FF");
    assert!(receiver.receive(&bytes).is_some());
    assert_eq!(receiver.size(), 0);
}

#[test]
fn lib_test_header_not_sbus() {
    let mut receiver = Receiver::new();

    let bytes = hex_bytes("00 00 00 00 00 00 00 00 00 00 00 00 00 00 00 00 00 00 00 00 00 00 0F 0F 01");
    assert!(receiver.receive(&bytes).is_none());
    assert_eq!(receiver.size(), 3);

    let bytes = hex_bytes("FF FF FF FF FF FF FF FF FF FF FF FF FF FF FF FF FF FF FF FF FF 02 00 FF FF");
    assert!(receiver.receive(&bytes).is_some());
    assert_eq!(receiver.size(), 0);
    assert_eq!(receiver.packet()[1..3], [0xF, 0x1]);
    assert_eq!(receiver.packet()[1 + SBUS_PACKET_SIZE - 3..], [0xFF, 0x2, 0x0]);
}

#[test]
fn receiver_test_received_some() {
    let mut receiver = Receiver::new();
    assert_eq!(receiver.receive(&sample()).unwrap().channels[0], 992);
}

#[test]
fn receiver_test_received_none() {
    let mut receiver = Receiver::new();
    assert!(receiver.receive(&[0xFFu8; SBUS_PACKET_SIZE]).is_none());
}

#[test]
fn receiver_test_partially_receive() {
    let sample = sample();
    for i in 1..SBUS_PACKET_SIZE {
        let mut receiver = Receiver::new();
        let mut bytes = [0u8; SBUS_PACKET_SIZE];
        bytes[..i].copy_from_slice(&sample[SBUS_PACKET_SIZE - i..]);
        bytes[i..].copy_from_slice(&sample[..SBUS_PACKET_SIZE - i]);
        assert!(receiver.receive(&bytes).is_none());
        assert_eq!(receiver.receive(&bytes).unwrap().channels[0], 992);
    }
}

#[test]
fn test_footer_not_sbus() {
    let mut receiver = Receiver::new();
    let b = hex_bytes("0F 00 FF FF FF FF FF FF FF FF FF FF FF FF FF FF FF FF FF FF FF FF FF FF 01");
    assert!(receiver.receive(&b).is_none());
}

#[test]
fn receiver_test_header_not_sbus() {
    let mut receiver = Receiver::new();

    let b = hex_bytes("00 00 00 00 00 00 00 00 00 00 00 00 00 00 00 00 00 00 00 00 00 00 0F 0F E0");
    assert!(receiver.receive(&b).is_none());

    let b = hex_bytes("03 1F 58 C0 07 16 B0 80 05 2C 60 01 0B F8 C0 07 00 00 00 00 00 03 00 FF FF");
    assert_eq!(receiver.receive(&b).unwrap().channels[0], 992);
}

#[test]
fn test_fragment() {
    let mut receiver = Receiver::new();

    assert!(receiver.receive(&[0xF]).is_none());
    let b = hex_bytes("00 FF FF FF FF FF FF FF FF FF FF FF FF FF FF FF FF FF FF FF FF FF FF");
    assert!(receiver.receive(&b).is_none());
    assert!(receiver.receive(&[0]).is_some());
}

#[test]
fn noise_clears_a_partial_frame() {
    let mut receiver = Receiver::new();
    assert!(receiver.receive(&[0x0F, 0x01]).is_none());
    assert_eq!(receiver.size(), 2);
    assert!(receiver.receive(&[0xFFu8; SBUS_PACKET_SIZE]).is_none());
    assert_eq!(receiver.size(), 0);
}

#[test]
fn split_frame_decodes_as_whole() {
    let sample = sample();
    let whole = decoded(&sample);
    for k in 1..SBUS_PACKET_SIZE {
        let mut receiver = Receiver::new();
        assert!(receiver.receive(&sample[..k]).is_none());
        assert_eq!(receiver.size(), k);
        assert_eq!(receiver.receive(&sample[k..]), Some(decoded(&sample)));
        assert_eq!(receiver.size(), 0);
    }
    let mut receiver = Receiver::new();
    assert_eq!(receiver.receive(&sample), Some(whole));
    assert_eq!(receiver.size(), 0);
}

#[test]
fn bad_footer_then_valid_frame() {
    let mut receiver = Receiver::new();
    let b = hex_bytes("0F 00 FF FF FF FF FF FF FF FF FF FF FF FF FF FF FF FF FF FF FF FF FF FF 01");
    assert!(receiver.receive(&b).is_none());
    assert_eq!(receiver.size(), 0);
    assert_eq!(receiver.receive(&sample()), Some(decoded(&sample())));
}

#[test]
fn stale_marker_dropped_then_frame_found() {
    let mut receiver = Receiver::new();
    assert!(receiver.receive(&[0x0F]).is_none());
    // The frame begun by the held marker would end on 0x03, which is no end marker.
    assert_eq!(receiver.receive(&sample()), Some(decoded(&sample())));
    assert_eq!(receiver.size(), 0);
}

#[test]
fn stale_marker_completed_by_chance() {
    let sample = sample();
    let mut receiver = Receiver::new();
    assert!(receiver.receive(&[0x0F, 0x0F]).is_none());
    // The frame begun by the held markers ends on byte 22 of the chunk, which is 0x00.
    let mut frame = vec![0x0F, 0x0F];
    frame.extend_from_slice(&sample[..23]);
    assert_eq!(receiver.receive(&sample), Some(decoded(&frame)));
    assert_eq!(receiver.size(), 0);
}

#[test]
fn back_to_back_frames() {
    let first = sample();
    let mut second = sample();
    second[1] = 0x11;
    second[23] = 0x30;
    second[24] = 0x14;
    let mut receiver = Receiver::new();
    assert!(receiver.receive(&first[..10]).is_none());
    let mut chunk = first[10..].to_vec();
    chunk.extend_from_slice(&second[..10]);
    assert_eq!(chunk.len(), SBUS_PACKET_SIZE);
    assert_eq!(receiver.receive(&chunk), Some(decoded(&first)));
    assert_eq!(receiver.size(), 10);
    let data = receiver.receive(&second[10..]).unwrap();
    assert_eq!(data, decoded(&second));
    assert_eq!(data.channels[0], 0x311);
    assert!(data.frame_lost && data.failsafe);
    assert_eq!(receiver.size(), 0);
}

#[test]
fn frame_tail_and_new_start() {
    let sample = sample();
    let mut receiver = Receiver::new();
    assert!(receiver.receive(&sample[..20]).is_none());
    let mut chunk = sample[20..].to_vec();
    chunk.extend_from_slice(&[0x0F, 0x11]);
    assert_eq!(receiver.receive(&chunk), Some(decoded(&sample)));
    assert_eq!(receiver.size(), 2);
    assert_eq!(receiver.packet()[1..3], [0x0F, 0x11]);
}

#[test]
fn reset_acts_as_new() {
    let sample = sample();
    let mut receiver = Receiver::new();
    assert!(receiver.receive(&sample[..10]).is_none());
    receiver.reset();
    assert_eq!(receiver.size(), 0);
    let mut fresh = Receiver::new();
    assert_eq!(receiver.receive(&sample[10..]), fresh.receive(&sample[10..]));
    assert_eq!(receiver.size(), fresh.size());
    assert_eq!(receiver.size(), 0);
    assert_eq!(receiver.receive(&sample), Some(decoded(&sample)));
}

#[test]
fn short_chunk_extends_partial_frame() {
    let mut receiver = Receiver::new();
    assert!(receiver.receive(&[0x0F]).is_none());
    assert!(receiver.receive(&[0x01, 0x0F, 0x02]).is_none());
    assert_eq!(receiver.size(), 4);
    assert_eq!(receiver.packet()[1..5], [0x0F, 0x01, 0x0F, 0x02]);
    assert!(receiver.receive(&[]).is_none());
    assert_eq!(receiver.size(), 4);
}

#[test]
fn later_marker_kept_when_chunk_is_short() {
    let mut receiver = Receiver::new();
    let b = hex_bytes("00 00 00 00 00 00 00 00 00 00 00 00 00 00 00 00 00 00 00 00 00 00 0F 0F 01");
    assert!(receiver.receive(&b).is_none());
    // Too long for the first marker's frame to stay open, too short for the second one's.
    let mut chunk = vec![0xFFu8; 21];
    chunk.push(0x02);
    assert!(receiver.receive(&chunk).is_none());
    assert_eq!(receiver.size(), 24);
    assert_eq!(receiver.packet()[1..3], [0x0F, 0x01]);
    let mut frame = vec![0x0F, 0x01];
    frame.extend_from_slice(&chunk);
    frame.push(0x00);
    assert_eq!(receiver.receive(&[0x00]), Some(decoded(&frame)));
    assert_eq!(receiver.size(), 0);
}

#[test]
fn empty_chunk_on_new_receiver() {
    let mut receiver = Receiver::new();
    assert!(receiver.receive(&[]).is_none());
    assert_eq!(receiver.size(), 0);
}

#[test]
fn chunk_with_only_a_late_marker() {
    let mut receiver = Receiver::new();
    assert!(receiver.receive(&[0x00, 0x01, 0x0F, 0x05]).is_none());
    assert_eq!(receiver.size(), 2);
    assert_eq!(receiver.packet()[1..3], [0x0F, 0x05]);
}
