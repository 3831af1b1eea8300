use event_codec::event::{DecodeError, EncodeError, Event};
use event_codec::path::Path;

fn strip_outer(buf: &[u8]) -> Vec<u8> {
    assert!(buf.len() >= 4);
    buf[4..].to_vec()
}

#[test]
fn round_trip_ping() {
    let ev = Event {
        path: Path { segments: vec![] },
        name: "ping".to_string(),
        from: 42,
        target: "nodeB".to_string(),
        public_data: String::new(),
        data: vec![0x01, 0x02],
    };
    let buf = ev.to_raw().unwrap();
    let fields = strip_outer(&buf);
    let back = Event::from_raw(&fields).unwrap();
    assert_eq!(back.path.segments, Vec::<Vec<u8>>::new());
    assert_eq!(back.name, "ping");
    assert_eq!(back.from, 42);
    assert_eq!(back.target, "nodeB");
    assert_eq!(back.public_data, "");
    assert_eq!(back.data, vec![0x01, 0x02]);
}

#[test]
fn round_trip_segments_and_unicode() {
    let ev = Event {
        path: Path { segments: vec![b"alpha".to_vec(), b"beta".to_vec()] },
        name: "h\u{e9}llo \u{2713}".to_string(),
        from: u64::MAX,
        target: "t".to_string(),
        public_data: "p\u{fc}blic".to_string(),
        data: vec![0xFF, 0x00, 0xFE, 47],
    };
    let buf = ev.to_raw().unwrap();
    let fields = strip_outer(&buf);
    let back = Event::from_raw(&fields).unwrap();
    assert_eq!(back.path.segments, vec![b"alpha".to_vec(), b"beta".to_vec()]);
    assert_eq!(back.name, "h\u{e9}llo \u{2713}");
    assert_eq!(back.from, u64::MAX);
    assert_eq!(back.target, "t");
    assert_eq!(back.public_data, "p\u{fc}blic");
    assert_eq!(back.data, vec![0xFF, 0x00, 0xFE, 47]);
}

#[test]
fn round_trip_all_empty() {
    let ev = Event::default();
    let buf = ev.to_raw().unwrap();
    assert_eq!(buf.len(), 36);
    let fields = strip_outer(&buf);
    let back = Event::from_raw(&fields).unwrap();
    assert_eq!(back.path.segments, Vec::<Vec<u8>>::new());
    assert_eq!(back.name, "");
    assert_eq!(back.from, 0);
    assert_eq!(back.target, "");
    assert_eq!(back.public_data, "");
    assert_eq!(back.data, Vec::<u8>::new());
}

#[test]
fn from_field_is_always_eight_bytes() {
    for from in [0u64, 1, 0x1_0000_0000, u64::MAX] {
        let ev = Event { from, ..Event::default() };
        let buf = ev.to_raw().unwrap();
        // outer(4) + path frame(4) + name frame(4), then the from frame
        assert_eq!(buf.len(), 36);
        assert_eq!(&buf[12..16], &[0, 0, 0, 8]);
    }
    let zero = Event::default().to_raw().unwrap();
    let max = Event { from: u64::MAX, ..Event::default() }.to_raw().unwrap();
    assert_eq!(&zero[16..24], &[0u8; 8]);
    assert_eq!(&max[16..24], &[0xFFu8; 8]);
}

#[test]
fn exact_bytes_of_small_event() {
    let ev = Event {
        path: Path { segments: vec![b"ab".to_vec()] },
        name: "A".to_string(),
        from: 1,
        target: String::new(),
        public_data: String::new(),
        data: vec![7],
    };
    let buf = ev.to_raw().unwrap();
    let expected: Vec<u8> = vec![
        0, 0, 0, 36, // outer total-length prefix
        0, 0, 0, 2, 97, 98, // path "ab"
        0, 0, 0, 1, 65, // name "A"
        0, 0, 0, 8, 0, 0, 0, 0, 0, 0, 0, 1, // from = 1
        0, 0, 0, 0, // target ""
        0, 0, 0, 0, // public_data ""
        0, 0, 0, 1, 7, // data [7]
    ];
    assert_eq!(buf, expected);
}

#[test]
fn too_short_all_zero() {
    let buf = vec![0u8; 10];
    assert_eq!(Event::from_raw(&buf).unwrap_err(), DecodeError::TooShort);
}

#[test]
fn too_short_boundary() {
    assert_eq!(Event::from_raw(&vec![0u8; 24]).unwrap_err(), DecodeError::TooShort);
    // 25 zero bytes pass the floor: six zero-length fields span exactly the
    // first 24 bytes and the final byte is ignored as trailing
    let back = Event::from_raw(&vec![0u8; 25]).unwrap();
    assert_eq!(back.name, "");
    assert_eq!(back.from, 0);
    assert_eq!(back.data, Vec::<u8>::new());
}

#[test]
fn huge_first_length_is_truncated() {
    let mut buf = vec![0xFFu8, 0xFF, 0xFF, 0xFF];
    buf.extend_from_slice(&[0u8; 21]);
    assert_eq!(Event::from_raw(&buf).unwrap_err(), DecodeError::TruncatedInput);
}

#[test]
fn length_beyond_remaining_is_truncated() {
    // first field claims 100 bytes but only 21 remain
    let mut buf = vec![0u8, 0, 0, 100];
    buf.extend_from_slice(&[0u8; 21]);
    assert_eq!(Event::from_raw(&buf).unwrap_err(), DecodeError::TruncatedInput);
}

fn frame(payload: &[u8]) -> Vec<u8> {
    let mut out = (payload.len() as u32).to_be_bytes().to_vec();
    out.extend_from_slice(payload);
    out
}

fn fields_buffer(
    path: &[u8],
    name: &[u8],
    from: &[u8],
    target: &[u8],
    public_data: &[u8],
    data: &[u8],
) -> Vec<u8> {
    let mut buf = frame(path);
    buf.extend(frame(name));
    buf.extend(frame(from));
    buf.extend(frame(target));
    buf.extend(frame(public_data));
    buf.extend(frame(data));
    buf
}

#[test]
fn invalid_utf8_in_name() {
    let buf = fields_buffer(b"", &[0xFF], &[0u8; 8], b"", b"", b"");
    assert_eq!(Event::from_raw(&buf).unwrap_err(), DecodeError::InvalidText);
}

#[test]
fn invalid_utf8_in_target() {
    let buf = fields_buffer(b"", b"n", &[0u8; 8], &[0xC0, 0x20], b"", b"");
    assert_eq!(Event::from_raw(&buf).unwrap_err(), DecodeError::InvalidText);
}

#[test]
fn invalid_utf8_in_public_data() {
    let buf = fields_buffer(b"", b"n", &[0u8; 8], b"t", &[0x80], b"");
    assert_eq!(Event::from_raw(&buf).unwrap_err(), DecodeError::InvalidText);
}

#[test]
fn trailing_bytes_are_ignored() {
    let ev = Event {
        path: Path { segments: vec![b"x".to_vec()] },
        name: "n".to_string(),
        from: 7,
        target: "t".to_string(),
        public_data: "q".to_string(),
        data: vec![1, 2, 3],
    };
    let mut fields = strip_outer(&ev.to_raw().unwrap());
    fields.extend_from_slice(&[9, 9, 9, 9]);
    let back = Event::from_raw(&fields).unwrap();
    assert_eq!(back.path.segments, vec![b"x".to_vec()]);
    assert_eq!(back.name, "n");
    assert_eq!(back.from, 7);
    assert_eq!(back.target, "t");
    assert_eq!(back.public_data, "q");
    assert_eq!(back.data, vec![1, 2, 3]);
}

#[test]
fn separator_in_segment_fails_encoding() {
    let ev = Event {
        path: Path { segments: vec![b"a/b".to_vec()] },
        ..Event::default()
    };
    assert_eq!(ev.to_raw().unwrap_err(), EncodeError::PathEncodingFailed);
}

#[test]
fn empty_segment_fails_encoding() {
    let ev = Event { path: Path { segments: vec![vec![]] }, ..Event::default() };
    assert_eq!(ev.to_raw().unwrap_err(), EncodeError::PathEncodingFailed);
}

#[test]
fn unparsable_path_degrades_to_root() {
    // "//" splits into empty segments, so the path degrades to the root path
    let buf = fields_buffer(b"//", b"n", &[0u8; 8], b"", b"", b"");
    let back = Event::from_raw(&buf).unwrap();
    assert_eq!(back.path.segments, Vec::<Vec<u8>>::new());
    assert_eq!(back.name, "n");
}

#[test]
fn path_bytes_round_trip() {
    let p = Path { segments: vec![b"a".to_vec(), b"bc".to_vec(), b"d".to_vec()] };
    let bytes = p.to_bytes().unwrap();
    assert_eq!(bytes, b"a/bc/d".to_vec());
    let back = Path::from_bytes(&bytes).unwrap();
    assert_eq!(back.segments, vec![b"a".to_vec(), b"bc".to_vec(), b"d".to_vec()]);
    assert!(Path::from_bytes(b"").unwrap().segments.is_empty());
    assert!(Path::from_bytes(b"a//b").is_none());
    assert!(Path::from_bytes(b"/a").is_none());
    assert!(Path::from_bytes(b"a/").is_none());
}

#[test]
fn short_from_payload_reads_low_order_bytes() {
    let buf = fields_buffer(b"", b"", &[0, 0, 1, 0], b"", b"", b"");
    let back = Event::from_raw(&buf).unwrap();
    assert_eq!(back.from, 256);
}

#[test]
fn long_from_payload_reads_first_eight_bytes() {
    let buf = fields_buffer(b"", b"", &[1, 0, 0, 0, 0, 0, 0, 0, 0xFF], b"", b"", b"");
    let back = Event::from_raw(&buf).unwrap();
    assert_eq!(back.from, 0x0100_0000_0000_0000);
}
