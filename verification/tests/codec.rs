use send_it::reader::VarReader;
use send_it::wire::{encode_u32_into, encode_varint_into, ByteOrder};
use send_it::writer::VarWriter;
use send_it::Segment;

#[test]
fn test_writer() {
    // Create a new VarWriter
    let mut writer = VarWriter::new();

    // Add some sample data
    writer.add_string("Hello, ");
    writer.add_string("World!");

    // Use an in-memory buffer as the stream
    let mut stream: Vec<u8> = Vec::new();

    // encode the data and send it over the stream
    writer.send(&mut stream).expect("Failed to send data");
}

#[test]
fn test_reader() {
    // A sample stream: the output of the test_writer scenario above
    let stream: Vec<u8> = vec![
        21, 7, 0, 0, 0, 72, 101, 108, 108, 111, 44, 32, 6, 0, 0, 0, 87, 111, 114, 108, 100, 33,
    ];

    // create a new VarReader over the bytes
    let mut reader = VarReader::new(stream.as_slice());

    // read the data from the stream
    let data = reader.read_data().unwrap();
    assert_eq!(data[0].to_display_string(), "Hello, ");
    assert_eq!(data[1].to_display_string(), "World!");
}

#[test]
fn both_test() {
    // Create a new VarWriter
    let mut writer = VarWriter::new();

    // Add some sample data
    writer.add_string("Hello, ");
    writer.add_string("World!");

    // Use an in-memory buffer as the stream
    let mut stream: Vec<u8> = Vec::new();

    // encode the data and send it over the stream
    writer.send(&mut stream).expect("Failed to send data");

    // create a new VarReader over what was written
    let mut reader = VarReader::new(stream.as_slice());

    // read the data from the stream
    let data = reader.read_data().unwrap();
    assert_eq!(data[0].to_display_string(), "Hello, ");
    assert_eq!(data[1].to_display_string(), "World!");
}

#[test]
fn exact_frame_bytes() {
    let mut writer = VarWriter::new();
    writer.add_string("Hello, ");
    writer.add_string("World!");
    let mut stream: Vec<u8> = Vec::new();
    writer.send(&mut stream).expect("Failed to send data");
    // total_size = (7 + 4) + (6 + 4) = 21
    assert_eq!(
        stream,
        vec![21, 7, 0, 0, 0, 72, 101, 108, 108, 111, 44, 32, 6, 0, 0, 0, 87, 111, 114, 108, 100, 33]
    );
}

#[test]
fn send_clears_the_queue() {
    let mut writer = VarWriter::new();
    writer.add_string("Hello, ");
    let mut stream: Vec<u8> = Vec::new();
    writer.send(&mut stream).expect("Failed to send data");
    let mut second: Vec<u8> = Vec::new();
    writer.send(&mut second).expect("Failed to send data");
    // the queue was cleared, so the second frame is empty
    assert_eq!(second, vec![0]);
}

#[test]
fn send_without_clearing_retains_the_queue() {
    let mut writer = VarWriter::new();
    writer.add_string("Hello, ");
    let mut stream: Vec<u8> = Vec::new();
    writer
        .send_without_clearing(&mut stream)
        .expect("Failed to send data");
    writer
        .send_without_clearing(&mut stream)
        .expect("Failed to send data");
    // two identical frames on one stream; decode them in succession
    let mut reader = VarReader::new(stream.as_slice());
    let first = reader.read_data().unwrap();
    let second = reader.read_data().unwrap();
    assert_eq!(first.len(), 1);
    assert_eq!(second.len(), 1);
    assert_eq!(first[0].to_display_string(), "Hello, ");
    assert_eq!(second[0].to_display_string(), "Hello, ");
}

#[test]
fn empty_frame() {
    let mut writer = VarWriter::new();
    let mut stream: Vec<u8> = Vec::new();
    writer.send(&mut stream).expect("Failed to send data");
    // zero segments: the 1-byte varint 0x00 and nothing else
    assert_eq!(stream, vec![0x00]);
    let mut reader = VarReader::new(stream.as_slice());
    let data = reader.read_data().unwrap();
    assert_eq!(data.len(), 0);
}

#[test]
fn round_trip_binary_and_empty_segments() {
    let mut writer = VarWriter::new();
    writer.add_raw(&[]);
    writer.add_raw(&[0, 255, 1, 0, 128]);
    writer.add(Segment::from_bytes(vec![7u8; 3]));
    let mut stream: Vec<u8> = Vec::new();
    writer.send(&mut stream).expect("Failed to send data");
    let mut reader = VarReader::new(stream.as_slice());
    let data = reader.read_data().unwrap();
    assert_eq!(data.len(), 3);
    assert_eq!(data[0].to_raw(), Vec::<u8>::new());
    assert_eq!(data[1].to_raw(), vec![0, 255, 1, 0, 128]);
    assert_eq!(data[2].to_raw(), vec![7, 7, 7]);
}

#[test]
fn varint_boundaries() {
    // 1-byte, boundary, and multi-byte cases
    let cases: Vec<(usize, Vec<u8>)> = vec![
        (0, vec![0x00]),
        (127, vec![0x7F]),
        (128, vec![0x80, 0x01]),
        (16384, vec![0x80, 0x80, 0x01]),
    ];
    for (value, expected) in cases {
        let mut bytes: Vec<u8> = Vec::new();
        encode_varint_into(&mut bytes, value);
        assert_eq!(bytes, expected);
        let mut reader = VarReader::new(bytes.as_slice());
        assert_eq!(reader.read_varint().unwrap(), value);
    }
}

#[test]
fn endianness_of_length_fields() {
    // the same logical value encodes differently under the two orders
    let mut little: Vec<u8> = Vec::new();
    encode_u32_into(&mut little, ByteOrder::Little, 300);
    let mut big: Vec<u8> = Vec::new();
    encode_u32_into(&mut big, ByteOrder::Big, 300);
    assert_eq!(little, vec![44, 1, 0, 0]);
    assert_eq!(big, vec![0, 0, 1, 44]);
    assert_ne!(little, big);

    // each decodes to 300 only under the matching mode
    let mut r = VarReader::new(little.as_slice());
    assert_eq!(r.read_u32().unwrap(), 300);
    let mut r = VarReader::with_order(big.as_slice(), ByteOrder::Big);
    assert_eq!(r.read_u32().unwrap(), 300);
    let mut r = VarReader::with_order(little.as_slice(), ByteOrder::Big);
    assert_ne!(r.read_u32().unwrap(), 300);

    // a whole frame decodes only under the mode it was written with
    let payload = vec![9u8; 300];
    let mut writer = VarWriter::with_order(ByteOrder::Big);
    writer.add_raw(payload.as_slice());
    let mut stream: Vec<u8> = Vec::new();
    writer.send(&mut stream).expect("Failed to send data");
    let mut matching = VarReader::with_order(stream.as_slice(), ByteOrder::Big);
    let data = matching.read_data().unwrap();
    assert_eq!(data.len(), 1);
    assert_eq!(data[0].to_raw(), payload);
    let mut mismatched = VarReader::new(stream.as_slice());
    assert!(mismatched.read_data().is_err());
}

#[test]
fn truncated_streams_fail() {
    let mut writer = VarWriter::new();
    writer.add_string("Hello, ");
    writer.add_string("World!");
    let mut stream: Vec<u8> = Vec::new();
    writer.send(&mut stream).expect("Failed to send data");
    // every strict prefix of the frame must fail to decode
    for cut in 0..stream.len() {
        let mut reader = VarReader::new(&stream[..cut]);
        assert!(reader.read_data().is_err());
    }
    // the whole frame still decodes
    let mut reader = VarReader::new(stream.as_slice());
    assert!(reader.read_data().is_ok());
}

#[test]
fn overshooting_lengths_still_terminate() {
    // a non-conforming frame: total_size says 3, but the one segment's
    // length field declares 2, so 6 bytes are consumed; the decoder must
    // stop rather than read on
    let bytes: Vec<u8> = vec![3, 2, 0, 0, 0, 9, 9];
    let mut reader = VarReader::new(bytes.as_slice());
    let data = reader.read_data().unwrap();
    assert_eq!(data.len(), 1);
    assert_eq!(data[0].to_raw(), vec![9, 9]);
}

#[test]
fn varint_overflow_fails() {
    // ten continuation bytes put the value beyond what usize can hold
    let mut bytes: Vec<u8> = vec![0x80; 10];
    bytes.push(0x02);
    let mut reader = VarReader::new(bytes.as_slice());
    assert!(reader.read_varint().is_err());
}

#[test]
fn truncated_varint_fails() {
    // a continuation bit with no byte after it
    assert!(send_it::wire::has_continuation_bit(0x80));
    assert!(!send_it::wire::has_continuation_bit(0x7F));
    let bytes: Vec<u8> = vec![0x80];
    let mut reader = VarReader::new(bytes.as_slice());
    assert!(reader.read_varint().is_err());
}

#[test]
fn segment_append_and_display() {
    let mut segment = Segment::new();
    segment.append(Segment::from_text("Hello, "));
    segment.append(Segment::from_text("World!"));
    assert_eq!(segment.to_display_string(), "Hello, World!");
    assert_eq!(segment.len(), 13);
}

#[test]
fn segment_text_is_utf8() {
    // a two-byte character: the segment holds UTF-8 bytes, not chars
    let segment = Segment::from_text("é");
    assert_eq!(segment.len(), 2);
    assert_eq!(segment.to_raw(), vec![0xC3, 0xA9]);
    assert_eq!(segment.to_display_string(), "é");
}

#[test]
fn display_replaces_invalid_utf8() {
    // lossy decoding substitutes U+FFFD instead of failing
    let segment = Segment::from_bytes(vec![0xFF, 72]);
    assert_eq!(segment.to_display_string(), "\u{FFFD}H");
}

#[test]
fn to_readable_renders_in_order() {
    let segments = vec![
        Segment::from_text("Hello, "),
        Segment::from_text("World!"),
    ];
    let readable = Segment::to_readable(segments);
    assert_eq!(readable, vec!["Hello, ".to_string(), "World!".to_string()]);
}

#[test]
fn is_encodable_for_ordinary_data() {
    let mut writer = VarWriter::new();
    assert!(writer.is_encodable());
    writer.add_string("Hello, ");
    writer.add_raw(&[1, 2, 3]);
    assert!(writer.is_encodable());
}
