use canopybus::envelope::{apply_segment, SegmentKind};
use canopybus::model::{JournalKind, LinkKind};
use canopybus::reader::checksum32;
use canopybus::{parse_archive, parse_binary_archive, CanopyArchive, DecodeError};

fn varint(mut v: u32) -> Vec<u8> {
    let mut out = Vec::new();
    loop {
        let b = (v & 0x7f) as u8;
        v >>= 7;
        if v == 0 {
            out.push(b);
            return out;
        }
        out.push(b | 0x80);
    }
}

fn header(version: u8, flags: u16, count: u32) -> Vec<u8> {
    let mut out = b"CNPY".to_vec();
    out.push(version);
    out.extend_from_slice(&flags.to_le_bytes());
    out.extend_from_slice(&varint(count));
    out
}

fn segment(kind: u8, flags: u16, payload: &[u8], checksum: Option<u32>) -> Vec<u8> {
    let mut out = vec![kind];
    out.extend_from_slice(&flags.to_le_bytes());
    out.extend_from_slice(&varint(payload.len() as u32));
    out.extend_from_slice(payload);
    if let Some(c) = checksum {
        out.extend_from_slice(&c.to_le_bytes());
    }
    out
}

#[test]
fn binary_empty_archive() {
    let a = parse_archive(&header(3, 0x0102, 0)).unwrap();
    assert_eq!(a.version, 3);
    assert_eq!(a.flags, 0x0102);
    assert!(a.manifest.devices.is_empty());
    assert!(a.notes.is_empty());
}

#[test]
fn binary_header_errors() {
    assert_eq!(parse_binary_archive(b"XXXX\x01\x00\x00\x00").unwrap_err(), DecodeError::BadMagic);
    assert_eq!(parse_binary_archive(&header(0, 0, 0)).unwrap_err(), DecodeError::InvalidVersion(0));
    assert_eq!(parse_binary_archive(&header(5, 0, 0)).unwrap_err(), DecodeError::InvalidVersion(5));
    assert_eq!(parse_binary_archive(&header(1, 0, 4097)).unwrap_err(), DecodeError::InvalidField("segment count"));
    assert_eq!(
        parse_binary_archive(b"CN").unwrap_err(),
        DecodeError::Truncated { at: 0, needed: 4, available: 2 }
    );
    let mut data = header(1, 0, 1);
    data.truncate(data.len() - 1);
    assert_eq!(
        parse_binary_archive(&data).unwrap_err(),
        DecodeError::Truncated { at: 7, needed: 1, available: 0 }
    );
}

#[test]
fn binary_note_and_segment_errors() {
    let mut data = header(1, 0, 2);
    data.extend(segment(7, 0, "first note".as_bytes(), None));
    data.extend(segment(7, 1, "second".as_bytes(), Some(checksum32("second".as_bytes()))));
    let a = parse_archive(&data).unwrap();
    assert_eq!(a.notes, vec!["first note".to_string(), "second".to_string()]);

    let mut bad = header(1, 0, 1);
    bad.extend(segment(9, 0, b"", None));
    assert_eq!(parse_archive(&bad).unwrap_err(), DecodeError::UnknownSegment(9));

    let mut big = header(1, 0, 1);
    big.push(7);
    big.extend_from_slice(&0u16.to_le_bytes());
    big.extend(varint(8 * 1024 * 1024 + 1));
    assert_eq!(
        parse_archive(&big).unwrap_err(),
        DecodeError::SegmentTooLarge { segment: 7, len: 8 * 1024 * 1024 + 1 }
    );

    let mut utf = header(1, 0, 1);
    utf.extend(segment(7, 0, b"\xc3\x28", None));
    assert_eq!(parse_archive(&utf).unwrap_err(), DecodeError::InvalidUtf8);
}

#[test]
fn binary_checksum_checked_only_when_asked() {
    let mut lax = header(1, 0, 1);
    lax.extend(segment(7, 1, b"note", Some(12345)));
    assert_eq!(parse_archive(&lax).unwrap().notes, vec!["note".to_string()]);

    let mut strict = header(1, 0x8000, 1);
    strict.extend(segment(7, 1, b"note", Some(12345)));
    assert_eq!(parse_archive(&strict).unwrap_err(), DecodeError::InvalidField("segment checksum"));

    let mut good = header(1, 0x8000, 1);
    good.extend(segment(7, 1, b"note", Some(checksum32(b"note"))));
    assert_eq!(parse_archive(&good).unwrap().notes.len(), 1);
}

#[test]
fn binary_journal_and_topology_segments() {
    let mut journal = varint(2);
    journal.extend(varint(100));
    journal.push(1);
    journal.extend(varint(7));
    journal.push(11);
    journal.extend(varint(3));
    journal.extend_from_slice(b"hot");
    journal.push(2);
    journal.extend_from_slice(&[9, 8]);
    journal.extend(varint(5));
    journal.push(3);
    journal.extend(varint(8));
    journal.push(2);
    let mut topo = varint(1);
    topo.extend(varint(1));
    topo.extend(varint(2));
    topo.push(4);
    topo.extend_from_slice(&(-3i16).to_le_bytes());
    let mut data = header(2, 0, 2);
    data.extend(segment(6, 0, &journal, None));
    data.extend(segment(2, 0, &topo, None));
    let a = parse_archive(&data).unwrap();
    assert_eq!(a.journals.len(), 2);
    assert_eq!(a.journals[0].timestamp, 100);
    assert_eq!(a.journals[0].kind, JournalKind::Alarm);
    assert_eq!(a.journals[0].device.0, 7);
    assert_eq!(a.journals[0].severity, 3);
    assert_eq!(a.journals[0].message, "hot");
    assert_eq!(a.journals[0].payload, vec![9, 8]);
    assert_eq!(a.journals[1].timestamp, 105);
    assert_eq!(a.journals[1].kind, JournalKind::ConfigChange);
    assert_eq!(a.journals[1].message, "event-1");
    assert_eq!(a.links.len(), 1);
    assert_eq!(a.links[0].kind, LinkKind::Observes);
    assert_eq!(a.links[0].weight, -3);
}

#[test]
fn apply_segment_keeps_archive_on_error() {
    let mut a = CanopyArchive::new(1);
    apply_segment(&mut a, SegmentKind::Note, b"kept").unwrap();
    assert_eq!(apply_segment(&mut a, SegmentKind::Note, b"\xff").unwrap_err(), DecodeError::InvalidUtf8);
    assert_eq!(a.notes, vec!["kept".to_string()]);
}
