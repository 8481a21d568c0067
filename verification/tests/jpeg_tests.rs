//! Tests of the segment framer, the scan-boundary scanner, and the
//! IPTC/APP13 sub-codec.

use costume_codec::jpeg::{Jpeg, ParseError};
use costume_codec::JpegSegmentType;

fn be16_bytes(v: u16) -> [u8; 2] {
    [(v >> 8) as u8, v as u8]
}

fn app13_payload_bytes(
    resource_id: u16,
    account: &[u8],
    character: &[u8],
    hash: &[u8],
    spec_text: &[u8],
) -> Vec<u8> {
    let mut datasets: Vec<u8> = Vec::new();
    let entries: [(u8, &[u8]); 4] =
        [(120, account), (120, character), (120, hash), (202, spec_text)];
    for (dataset_number, data) in entries {
        datasets.push(0x1C);
        datasets.push(2);
        datasets.push(dataset_number);
        datasets.extend(be16_bytes(data.len() as u16));
        datasets.extend(data);
    }
    if datasets.len() % 2 == 1 {
        datasets.push(0);
    }
    let mut p: Vec<u8> = Vec::new();
    p.extend(b"Photoshop 3.0\0");
    p.extend(b"8BIM");
    p.extend(be16_bytes(resource_id));
    p.extend([0u8, 0u8]);
    p.extend((datasets.len() as u32).to_be_bytes());
    p.extend(datasets);
    p
}

fn costume_jpeg_with(resource_id: u16, hash: &[u8], spec_text: &[u8]) -> Vec<u8> {
    let mut b: Vec<u8> = vec![0xFF, 0xD8];
    let payload = app13_payload_bytes(resource_id, b"acct", b"Hero", hash, spec_text);
    b.push(0xFF);
    b.push(0xED);
    b.extend(be16_bytes((payload.len() + 2) as u16));
    b.extend(payload);
    // scan start: a two-byte opaque payload, then entropy-coded data with a
    // stuffed 0xFF and a restart marker inside it
    b.extend([0xFF, 0xDA, 0x00, 0x04, 0x01, 0x02]);
    b.extend([0x11, 0xFF, 0x00, 0x22, 0xFF, 0xD1, 0x33]);
    b.extend([0xFF, 0xD9]);
    b
}

fn costume_jpeg() -> Vec<u8> {
    costume_jpeg_with(0x0404, b"77990\0", b"some spec text")
}

#[test]
fn parse_serialize_identity() {
    let bytes = costume_jpeg();
    let jpeg = Jpeg::parse(&bytes).unwrap();
    let out = jpeg.serialize();
    assert_eq!(out, bytes);
}

#[test]
fn parse_serialize_idempotent() {
    let bytes = costume_jpeg();
    let first = Jpeg::parse(&bytes).unwrap().serialize();
    let second = Jpeg::parse(&first).unwrap().serialize();
    assert_eq!(first, second);
}

#[test]
fn segment_order_and_kinds() {
    let bytes = costume_jpeg();
    let jpeg = Jpeg::parse(&bytes).unwrap();
    assert_eq!(jpeg.segments.len(), 4);
    assert_eq!(jpeg.segments[0].segment_type, JpegSegmentType::SOI);
    assert_eq!(jpeg.segments[1].segment_type, JpegSegmentType::APP13);
    assert_eq!(jpeg.segments[2].segment_type, JpegSegmentType::SOS);
    assert_eq!(jpeg.segments[3].segment_type, JpegSegmentType::EOI);
}

#[test]
fn scan_boundary_fidelity() {
    let bytes = costume_jpeg();
    let jpeg = Jpeg::parse(&bytes).unwrap();
    let sos = jpeg.get_segment(JpegSegmentType::SOS).unwrap();
    assert_eq!(sos.len(), 1);
    assert_eq!(sos[0].payload.as_ref().unwrap().as_slice(), &[0x01, 0x02]);
    // both two-byte sequences 0xFF 0x00 and 0xFF 0xD1 survive verbatim,
    // and the scanner stops exactly before the end-of-image marker
    assert_eq!(
        sos[0].additional_data.as_ref().unwrap().as_slice(),
        &[0x11, 0xFF, 0x00, 0x22, 0xFF, 0xD1, 0x33]
    );
    let eoi = jpeg.get_segment(JpegSegmentType::EOI).unwrap();
    assert_eq!(eoi.len(), 1);
}

#[test]
fn get_segment_by_kind() {
    let bytes = costume_jpeg();
    let jpeg = Jpeg::parse(&bytes).unwrap();
    assert!(jpeg.get_segment(JpegSegmentType::APP0).is_none());
    let app13 = jpeg.get_segment(JpegSegmentType::APP13).unwrap();
    assert_eq!(app13.len(), 1);
}

#[test]
fn app13_datasets_decoded() {
    let bytes = costume_jpeg();
    let jpeg = Jpeg::parse(&bytes).unwrap();
    let app13 = jpeg.get_segment(JpegSegmentType::APP13).unwrap();
    let payload = app13[0].app13_payload.as_ref().unwrap();
    assert_eq!(payload.id.as_slice(), b"Photoshop 3.0\0");
    assert_eq!(payload.resource_type, 0x3842494D);
    assert_eq!(payload.resource_id, 0x0404);
    assert_eq!(payload.resource_name.as_slice(), &[0u8, 0u8]);
    let caption = payload.get_datasets(2, 120).unwrap();
    assert_eq!(caption.len(), 3);
    assert_eq!(caption[0].data.as_slice(), b"acct");
    assert_eq!(caption[1].data.as_slice(), b"Hero");
    assert_eq!(caption[2].data.as_slice(), b"77990\0");
    let preview = payload.get_datasets(2, 202).unwrap();
    assert_eq!(preview.len(), 1);
    assert_eq!(preview[0].data.as_slice(), b"some spec text");
    assert!(payload.get_datasets(2, 25).is_none());
}

#[test]
fn invalid_magic_at_start() {
    let result = Jpeg::parse(&[0x00]);
    assert!(matches!(result, Err(ParseError::InvalidSegmentMagic { magic: 0 })));
}

#[test]
fn unrecognized_marker() {
    let result = Jpeg::parse(&[0xFF, 0x01]);
    assert!(matches!(
        result,
        Err(ParseError::UnrecognizedSegmentMarker { marker: 0x01, offset: 1 })
    ));
}

#[test]
fn payload_interrupted() {
    // APP0 declaring 14 payload bytes with only 2 present
    let result = Jpeg::parse(&[0xFF, 0xE0, 0x00, 0x10, 0xAA, 0xBB]);
    assert!(matches!(
        result,
        Err(ParseError::PayloadInterrupted { marker: 0xE0, payload_size: 14, offset: 4 })
    ));
}

#[test]
fn truncated_marker() {
    let result = Jpeg::parse(&[0xFF]);
    assert!(matches!(result, Err(ParseError::UnexpectedEndOfInput { offset: 1 })));
}

#[test]
fn scan_without_following_marker() {
    // a scan segment whose data runs to the end of the buffer
    let result = Jpeg::parse(&[0xFF, 0xDA, 0x00, 0x04, 0x01, 0x02, 0x11, 0x22]);
    assert!(matches!(result, Err(ParseError::UnexpectedEndOfInput { .. })));
}

#[test]
fn declared_length_below_two() {
    let result = Jpeg::parse(&[0xFF, 0xE0, 0x00, 0x01]);
    assert!(matches!(
        result,
        Err(ParseError::MalformedSegmentPayload { marker: 0xE0, offset: 2 })
    ));
}

#[test]
fn malformed_app13_payload() {
    // an APP13 payload without a zero-terminated identifier: the payload
    // ends (offset 6) while the terminator is still owed
    let result = Jpeg::parse(&[0xFF, 0xED, 0x00, 0x04, 0x41, 0x42]);
    assert!(matches!(
        result,
        Err(ParseError::MalformedSegmentPayload { marker: 0xED, offset: 6 })
    ));
}

#[test]
fn bad_resource_name_padding_offset() {
    // an odd resource name whose padding byte is not zero: the error names
    // the offending byte's position in the file
    let mut payload: Vec<u8> = Vec::new();
    payload.extend(b"Photoshop 3.0\0");
    payload.extend(b"8BIM");
    payload.extend([0x04, 0x04]);
    payload.extend([0x41, 0x42, 0x00]); // three-byte name needs a padding byte
    payload.push(0x55); // but the next byte is not zero
    let mut bytes: Vec<u8> = vec![0xFF, 0xD8, 0xFF, 0xED];
    bytes.extend(be16_bytes((payload.len() + 2) as u16));
    let bad_byte_offset = bytes.len() + payload.len() - 1;
    bytes.extend(&payload);
    bytes.extend([0xFF, 0xD9]);
    match Jpeg::parse(&bytes) {
        Err(ParseError::MalformedSegmentPayload { marker, offset }) => {
            assert_eq!(marker, 0xED);
            assert_eq!(offset, bad_byte_offset);
        }
        other => panic!("expected MalformedSegmentPayload, got {:?}", other.is_ok()),
    }
}

#[test]
fn truncated_dataset_entry_offset() {
    // a dataset entry declaring more value bytes than the payload holds:
    // the error names the entry's tag byte
    let mut payload: Vec<u8> = Vec::new();
    payload.extend(b"Photoshop 3.0\0");
    payload.extend(b"8BIM");
    payload.extend([0x04, 0x04]);
    payload.extend([0x00, 0x00]);
    payload.extend([0u8, 0, 0, 0]); // stored block size, skipped
    let tag_rel = payload.len();
    payload.extend([0x1C, 0x02, 0x78, 0x00, 0x40]); // claims 64 value bytes
    payload.extend([0xAA, 0xBB]); // only two are present
    let mut bytes: Vec<u8> = vec![0xFF, 0xD8, 0xFF, 0xED];
    bytes.extend(be16_bytes((payload.len() + 2) as u16));
    let tag_offset = bytes.len() + tag_rel;
    bytes.extend(&payload);
    bytes.extend([0xFF, 0xD9]);
    match Jpeg::parse(&bytes) {
        Err(ParseError::MalformedSegmentPayload { marker, offset }) => {
            assert_eq!(marker, 0xED);
            assert_eq!(offset, tag_offset);
        }
        other => panic!("expected MalformedSegmentPayload, got {:?}", other.is_ok()),
    }
}

#[test]
fn restart_segments_parse_bare() {
    // restart markers carry no length and no payload
    let bytes = [0xFF, 0xD8, 0xFF, 0xD0, 0xFF, 0xD7, 0xFF, 0xD9];
    let jpeg = Jpeg::parse(&bytes).unwrap();
    assert_eq!(jpeg.segments.len(), 4);
    assert_eq!(jpeg.segments[1].segment_type, JpegSegmentType::RST0);
    assert!(jpeg.segments[1].payload.is_none());
    assert_eq!(jpeg.serialize(), bytes);
}

#[test]
fn comment_segment_payload() {
    let bytes = [0xFF, 0xD8, 0xFF, 0xFE, 0x00, 0x05, 0x68, 0x69, 0x21, 0xFF, 0xD9];
    let jpeg = Jpeg::parse(&bytes).unwrap();
    let com = jpeg.get_segment(JpegSegmentType::COM).unwrap();
    assert_eq!(com[0].payload.as_ref().unwrap().as_slice(), b"hi!");
    assert_eq!(jpeg.serialize(), bytes);
}

#[test]
fn marker_mapping_roundtrip() {
    assert_eq!(JpegSegmentType::from_marker(0xD8), Ok(JpegSegmentType::SOI));
    assert_eq!(JpegSegmentType::from_marker(0xED), Ok(JpegSegmentType::APP13));
    assert_eq!(JpegSegmentType::SOS.marker_value(), 0xDA);
    assert_eq!(JpegSegmentType::APP15.marker_value(), 0xEF);
    let err = JpegSegmentType::from_marker(0x42).unwrap_err();
    assert_eq!(err.marker, 0x42);
}

#[test]
fn app13_padding_byte_roundtrip() {
    // an odd dataset block gains one padding byte that must survive the
    // round trip
    let bytes = costume_jpeg_with(0x0404, b"77990\0", b"odd");
    let jpeg = Jpeg::parse(&bytes).unwrap();
    assert_eq!(jpeg.serialize(), bytes);
}

#[test]
fn datasets_mutable_access() {
    let bytes = costume_jpeg();
    let mut jpeg = Jpeg::parse(&bytes).unwrap();
    // the APP13 segment sits second in this file
    let payload = jpeg.segments[1].app13_payload.as_mut().unwrap();
    let caption = payload.get_datasets_mut(2, 120).unwrap();
    caption[1].data = b"Other".to_vec();
    assert!(payload.get_datasets_mut(2, 25).is_none());
    let reparsed = Jpeg::parse(&jpeg.serialize()).unwrap();
    let payload = reparsed.segments[1].app13_payload.as_ref().unwrap();
    assert_eq!(payload.get_datasets(2, 120).unwrap()[1].data.as_slice(), b"Other");
}

#[test]
fn datasets_are_key_sorted_on_write() {
    // the preview dataset arrives before the caption datasets; writing puts
    // the lower caption key first
    let mut payload_in: Vec<u8> = Vec::new();
    payload_in.extend(b"Photoshop 3.0\0");
    payload_in.extend(b"8BIM");
    payload_in.extend([0x04, 0x04]);
    payload_in.extend([0u8, 0u8]);
    let mut datasets: Vec<u8> = Vec::new();
    let entries: [(u8, &[u8]); 2] = [(202, b"the spec"), (120, b"acct")];
    for (dataset_number, data) in entries {
        datasets.push(0x1C);
        datasets.push(2);
        datasets.push(dataset_number);
        datasets.extend(be16_bytes(data.len() as u16));
        datasets.extend(data);
    }
    if datasets.len() % 2 == 1 {
        datasets.push(0);
    }
    payload_in.extend((datasets.len() as u32).to_be_bytes());
    payload_in.extend(&datasets);
    let mut bytes: Vec<u8> = vec![0xFF, 0xD8, 0xFF, 0xED];
    bytes.extend(be16_bytes((payload_in.len() + 2) as u16));
    bytes.extend(&payload_in);
    bytes.extend([0xFF, 0xD9]);

    let jpeg = Jpeg::parse(&bytes).unwrap();
    let out = jpeg.serialize();
    // locate the dataset tags in the rewritten bytes: caption (120) must
    // now precede preview (202)
    let tag_positions: Vec<usize> =
        (0..out.len() - 2).filter(|&i| out[i] == 0x1C && out[i + 1] == 2).collect();
    assert_eq!(tag_positions.len(), 2);
    assert_eq!(out[tag_positions[0] + 2], 120);
    assert_eq!(out[tag_positions[1] + 2], 202);
}

#[test]
fn repeated_kinds_are_indexed_in_order() {
    let bytes = [
        0xFF, 0xD8, 0xFF, 0xDB, 0x00, 0x03, 0xAA, 0xFF, 0xDB, 0x00, 0x03, 0xBB, 0xFF, 0xD9,
    ];
    let jpeg = Jpeg::parse(&bytes).unwrap();
    let tables = jpeg.get_segment(JpegSegmentType::DQT).unwrap();
    assert_eq!(tables.len(), 2);
    assert_eq!(tables[0].payload.as_ref().unwrap().as_slice(), &[0xAA]);
    assert_eq!(tables[1].payload.as_ref().unwrap().as_slice(), &[0xBB]);
    assert_eq!(jpeg.serialize(), bytes);
}
