use canopybus::reader::checksum32;
use canopybus::{parse_archive, parse_stream_archive, DecodeError, FrameOutcome, StreamDecoder};

fn varint(mut v: u32) -> Vec<u8> {
    let mut out = Vec::new();
    loop {
        let b = (v & 0x7f) as u8;
        v >>= 7;
        if v == 0 {
            out.push(b);
            return out;
        }
        out.push(b | 0x80);
    }
}

fn frame(session: u32, fragment: u16, expected: u16, total: u32, payload: &[u8], check: Option<u32>) -> Vec<u8> {
    let mut out = b"CBFR".to_vec();
    out.extend_from_slice(&session.to_le_bytes());
    out.extend_from_slice(&fragment.to_le_bytes());
    out.extend_from_slice(&expected.to_le_bytes());
    out.extend(varint(total));
    out.extend(varint(payload.len() as u32));
    out.extend_from_slice(payload);
    out.extend_from_slice(&check.unwrap_or_else(|| checksum32(payload)).to_le_bytes());
    out
}

#[test]
fn stream_single_fragment_completes() {
    let mut d = StreamDecoder::new();
    let text = b"facility stream-1 Greenhouse\n";
    let out = d.push(&frame(4, 0, 1, text.len() as u32, text, None)).unwrap();
    assert_eq!(out, FrameOutcome::Completed { session: 4, bytes: text.len() });
    let a = d.finish().unwrap();
    assert_eq!(a.manifest.facility_id, "stream-1");
    assert_eq!(a.manifest.site_name, "Greenhouse");
}

#[test]
fn stream_fragments_out_of_order_are_joined_by_number() {
    let mut d = StreamDecoder::new();
    let first = b"facility f2 Left\n";
    let second = b"note joined\n";
    let out = d.push(&frame(9, 1, 2, 0, second, None)).unwrap();
    assert_eq!(out, FrameOutcome::Accepted { session: 9, fragment: 1 });
    let out = d.push(&frame(9, 0, 2, 0, first, None)).unwrap();
    assert_eq!(out, FrameOutcome::Completed { session: 9, bytes: first.len() + second.len() });
    let a = d.finish().unwrap();
    assert_eq!(a.manifest.facility_id, "f2");
    assert_eq!(a.notes, vec!["joined".to_string()]);
}

#[test]
fn stream_partial_input_needs_more() {
    let mut d = StreamDecoder::new();
    let f = frame(1, 0, 1, 0, b"facility x y\n", None);
    assert_eq!(d.push(&f[..10]).unwrap(), FrameOutcome::NeedMore);
    assert_eq!(d.push(&f[10..20]).unwrap(), FrameOutcome::NeedMore);
    assert_eq!(d.push(&f[20..]).unwrap(), FrameOutcome::Completed { session: 1, bytes: 13 });
}

#[test]
fn stream_resyncs_after_garbage() {
    let mut d = StreamDecoder::new();
    let mut data = b"xxCyyyyyyyyyyyyyyyyy".to_vec();
    data.extend(frame(2, 0, 1, 0, b"note ok\n", None));
    assert_eq!(d.push(&data).unwrap(), FrameOutcome::Completed { session: 2, bytes: 8 });
    assert_eq!(d.finish().unwrap().notes, vec!["ok".to_string()]);
}

#[test]
fn stream_bad_checksum_dropped_only_when_checked() {
    let mut d = StreamDecoder::new();
    let out = d.push(&frame(3, 0, 0x8001, 0, b"note a\n", Some(7))).unwrap();
    assert_eq!(out, FrameOutcome::NeedMore);
    let out = d.push(&frame(3, 0, 1, 0, b"note b\n", Some(7))).unwrap();
    assert_eq!(out, FrameOutcome::Completed { session: 3, bytes: 7 });
}

#[test]
fn stream_finish_without_payloads_is_incomplete() {
    let d = StreamDecoder::new();
    assert_eq!(d.finish().unwrap_err(), DecodeError::IncompleteStream);
}

#[test]
fn stream_unparsable_payload_leaves_a_note() {
    let mut d = StreamDecoder::new();
    d.push(&frame(5, 0, 1, 0, b"bogus line\n", None)).unwrap();
    let a = d.finish().unwrap();
    assert_eq!(a.notes, vec!["unparsed-stream-11".to_string()]);
}

#[test]
fn stream_archive_through_parse_archive() {
    let text = b"facility streamed Site\ndevice 1 gateway 1 gw basil\n";
    let mut data = frame(8, 1, 2, 0, &text[20..], None);
    data.extend(frame(8, 0, 2, 0, &text[..20], None));
    let a = parse_archive(&data).unwrap();
    assert_eq!(a.manifest.facility_id, "streamed");
    assert_eq!(a.manifest.devices.len(), 1);
    let b = parse_stream_archive(&data).unwrap();
    assert_eq!(b.manifest.devices[0].alias, "gw");
}

#[test]
fn stream_truncated_header_reports_error() {
    let mut d = StreamDecoder::new();
    let mut data = b"CBFR".to_vec();
    data.extend_from_slice(&[0; 8]);
    data.extend_from_slice(&[0x80; 6]);
    assert_eq!(d.push(&data).unwrap_err(), DecodeError::InvalidVarint);
}
