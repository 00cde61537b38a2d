use mesh_core::fragment::{split_into_frames, Reassembly, DEFAULT_MTU, HEADER_SIZE};

fn sample_payload(len: usize) -> Vec<u8> {
    let mut v = Vec::new();
    let mut i = 0usize;
    while i < len {
        v.push((i % 251) as u8);
        i += 1;
    }
    v
}

#[test]
fn round_trip_multi_fragment() {
    let payload = sample_payload(100);
    let frames = split_into_frames(&payload, DEFAULT_MTU);
    // chunk capacity 17, so ceil(100 / 17) = 6 frames
    assert_eq!(frames.len(), 6);
    let mut re = Reassembly::new();
    let mut delivered: Option<Vec<u8>> = None;
    for f in &frames {
        let out = re.push_frame(f);
        if out.is_some() {
            assert!(delivered.is_none());
            delivered = out;
        }
    }
    assert_eq!(delivered.expect("message must complete"), payload);
}

#[test]
fn round_trip_single_fragment() {
    let payload = vec![9u8, 8, 7];
    let frames = split_into_frames(&payload, DEFAULT_MTU);
    assert_eq!(frames.len(), 1);
    let mut re = Reassembly::new();
    let out = re.push_frame(&frames[0]);
    assert_eq!(out.expect("single frame completes at once"), payload);
}

#[test]
fn frame_layout_exact() {
    // payload of 5 bytes, MTU 4: chunk capacity 1, five frames
    let payload = vec![10u8, 11, 12, 13, 14];
    let frames = split_into_frames(&payload, 4);
    assert_eq!(frames.len(), 5);
    for (i, f) in frames.iter().enumerate() {
        // little-endian total length 5, then the wrapping sequence number
        assert_eq!(f.as_slice(), &[5u8, 0, i as u8, payload[i]]);
    }
}

#[test]
fn sequence_number_wraps() {
    let payload = sample_payload(300);
    let frames = split_into_frames(&payload, 1 + HEADER_SIZE);
    assert_eq!(frames.len(), 300);
    assert_eq!(frames[0][2], 0);
    assert_eq!(frames[255][2], 255);
    assert_eq!(frames[256][2], 0);
    // every frame repeats the full length: 300 = 44 + 256
    assert_eq!(frames[299][0], 44);
    assert_eq!(frames[299][1], 1);
    let mut re = Reassembly::new();
    let mut delivered: Option<Vec<u8>> = None;
    for f in &frames {
        if let Some(out) = re.push_frame(f) {
            delivered = Some(out);
        }
    }
    assert_eq!(delivered.expect("wrapped message must complete"), payload);
}

#[test]
fn sequence_gap_discards_and_resets() {
    let payload = sample_payload(60);
    let frames = split_into_frames(&payload, DEFAULT_MTU);
    assert!(frames.len() >= 3);
    let mut re = Reassembly::new();
    assert!(re.push_frame(&frames[0]).is_none());
    // skip frames[1]: sequence gap, the buffered message is dropped
    assert!(re.push_frame(&frames[2]).is_none());
    // a fresh well-formed message now reassembles independently
    let second = vec![1u8, 2, 3, 4];
    let frames2 = split_into_frames(&second, DEFAULT_MTU);
    assert_eq!(frames2.len(), 1);
    assert_eq!(re.push_frame(&frames2[0]).expect("fresh message completes"), second);
}

#[test]
fn short_frame_is_ignored() {
    let mut re = Reassembly::new();
    assert!(re.push_frame(&[7u8, 0]).is_none());
    assert!(re.push_frame(&[]).is_none());
    let payload = vec![42u8];
    let frames = split_into_frames(&payload, DEFAULT_MTU);
    assert_eq!(re.push_frame(&frames[0]).expect("state stayed idle"), payload);
}

#[test]
fn empty_payload_yields_no_frames() {
    let frames = split_into_frames(&[], DEFAULT_MTU);
    assert_eq!(frames.len(), 0);
}
