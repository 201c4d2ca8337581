use canopybus::codec::archive_fingerprint;
use canopybus::model::{DeviceId, JournalEntry, JournalKind, LinkKind, SampleKind, SamplePage, SampleRow};
use canopybus::page::{decode_sample_page, parse_page_segment};
use canopybus::reader::checksum32;
use canopybus::rules::{compile_rule, evaluate_rules, execute_rule};
use canopybus::store::{ByteMirror, PageCache, ReplayWindow};
use canopybus::{parse_archive, CanopyArchive, DecodeError, FrameOutcome, RuleSet, StreamDecoder};

fn frame(session: u32, fragment: u16, expected: u16, total: u8, payload: &[u8]) -> Vec<u8> {
    let mut out = b"CBFR".to_vec();
    out.extend_from_slice(&session.to_le_bytes());
    out.extend_from_slice(&fragment.to_le_bytes());
    out.extend_from_slice(&expected.to_le_bytes());
    out.push(total);
    out.push(payload.len() as u8);
    out.extend_from_slice(payload);
    out.extend_from_slice(&checksum32(payload).to_le_bytes());
    out
}

#[test]
fn split_push_matches_whole_push() {
    let f = frame(1, 0, 1, 0, b"n x");
    assert_eq!(f.len(), 21);
    for cut in [10usize, 17, 19, 20] {
        let mut split = StreamDecoder::new();
        assert_eq!(split.push(&f[..cut]).unwrap(), FrameOutcome::NeedMore);
        let second = split.push(&f[cut..]).unwrap();
        let mut whole = StreamDecoder::new();
        let once = whole.push(&f).unwrap();
        assert_eq!(second, FrameOutcome::Completed { session: 1, bytes: 3 });
        assert_eq!(second, once);
        let a = split.finish().unwrap();
        let b = whole.finish().unwrap();
        assert_eq!(a.notes, b.notes);
        assert_eq!(a.notes, vec!["unparsed-stream-3".to_string()]);
    }
}

#[test]
fn evaluate_rules_sums_compiled_runs() {
    let mut a = CanopyArchive::new(1);
    a.rules.push(RuleSet { name: "a".to_string(), bytecode: vec![0x01, 5], labels: vec![] });
    a.rules.push(RuleSet { name: "b".to_string(), bytecode: vec![0x01, 7], labels: vec![] });
    let mut sum: i64 = 0;
    for r in &a.rules {
        let p = compile_rule(r).unwrap();
        sum = sum.wrapping_add(execute_rule(&p, &a).unwrap());
    }
    assert_eq!(evaluate_rules(&a).unwrap(), sum);
    assert_eq!(sum, 12);
    assert_eq!(evaluate_rules(&CanopyArchive::new(1)).unwrap(), 0);
    a.rules.insert(1, RuleSet { name: "bad".to_string(), bytecode: vec![0x77], labels: vec![] });
    let first_error = compile_rule(&a.rules[1]).err().unwrap();
    assert_eq!(first_error, DecodeError::InvalidOpcode(0x77));
    assert_eq!(evaluate_rules(&a).unwrap_err(), first_error);
}

fn page_bytes(device: u8, delta: u8) -> Vec<u8> {
    let mut data = vec![device, 0];
    data.extend_from_slice(&1000u64.to_le_bytes());
    data.extend_from_slice(&1i16.to_le_bytes());
    data.extend_from_slice(&[1, 0, 4, delta, 6]);
    data
}

#[test]
fn page_segment_is_each_chunk_decoded() {
    let c1 = page_bytes(3, 5);
    let c2 = page_bytes(4, 9);
    let mut seg = vec![2u8, c1.len() as u8];
    seg.extend_from_slice(&c1);
    seg.push(c2.len() as u8);
    seg.extend_from_slice(&c2);
    let pages = parse_page_segment(&seg).unwrap();
    assert_eq!(pages.len(), 2);
    let p1 = decode_sample_page(&c1).unwrap();
    let p2 = decode_sample_page(&c2).unwrap();
    assert_eq!(pages[0].device, p1.device);
    assert_eq!(pages[0].rows[0].timestamp_delta, p1.rows[0].timestamp_delta);
    assert_eq!(pages[1].device, p2.device);
    assert_eq!(pages[1].rows[0].timestamp_delta, 9);
    let mut bad = vec![2u8, c1.len() as u8];
    bad.extend_from_slice(&c1);
    bad.extend_from_slice(&[3, 1, 2, 3]);
    let e = decode_sample_page(&[1, 2, 3]).unwrap_err();
    assert_eq!(e, DecodeError::Truncated { at: 0, needed: 12, available: 3 });
    assert_eq!(parse_page_segment(&bad).unwrap_err(), e);
}

fn page(device: u32, rows: usize) -> SamplePage {
    SamplePage {
        device: DeviceId(device),
        kind: SampleKind::Flow,
        base_timestamp: 0,
        scale: 1,
        rows: (0..rows).map(|i| SampleRow { timestamp_delta: i as u32, values: vec![] }).collect(),
    }
}

#[test]
fn page_cache_counts_rows_of_the_hot_device() {
    let mut c = PageCache::new();
    assert_eq!(c.replay_hot_count(), 0);
    c.insert(page(1, 2));
    c.insert(page(2, 5));
    c.insert(page(1, 3));
    assert_eq!(c.replay_hot_count(), 5);
    c.insert(page(2, 1));
    assert_eq!(c.replay_hot_count(), 6);
    let pages = c.into_pages();
    let devices: Vec<u32> = pages.iter().map(|p| p.device.0).collect();
    assert_eq!(devices, vec![1, 2, 1, 2]);
}

fn entry(timestamp: u64, severity: u8, message: &str) -> JournalEntry {
    JournalEntry {
        timestamp,
        kind: JournalKind::Boot,
        device: DeviceId(1),
        severity,
        message: message.to_string(),
        payload: vec![],
    }
}

#[test]
fn replay_window_keeps_newest_and_counts_kept_anchors() {
    let mut w = ReplayWindow::new();
    w.push(entry(1, 5, "first"));
    w.push(entry(7, 0, "at-seven"));
    assert_eq!(w.anchor_message_len(), 5 + 8);
    for i in 0..127u64 {
        w.push(entry(100 + i * 32, 0, "quiet"));
    }
    assert_eq!(w.anchor_message_len(), 8);
    w.push(entry(3, 3, "héllo"));
    assert_eq!(w.anchor_message_len(), 6);
}

#[test]
fn mirror_digest_changes_only_at_seven_mod_sixteen() {
    let mut m = ByteMirror::new();
    assert_eq!(m.saved_digest(), 0);
    m.absorb(&[1, 2, 3, 4, 5, 6, 7]);
    let d1 = m.saved_digest();
    assert_ne!(d1, 0);
    m.absorb(&[9u8; 100]);
    assert_eq!(m.saved_digest(), d1);
    m.absorb(&[4u8; 12]);
    assert_ne!(m.saved_digest(), d1);
}

#[test]
fn fingerprint_ignores_everything_but_names_devices_and_link_ends() {
    let seed = b"facility f s\ndevice 1 pump 2 p1 mint\ndevice 2 pump 2 p2 mint\nlink 1 2 parent 4\n";
    let a = parse_archive(seed).unwrap();
    let mut b = parse_archive(seed).unwrap();
    b.version = 3;
    b.flags = 9;
    b.notes.push("n".to_string());
    b.links[0].kind = LinkKind::Backup;
    b.rules.push(RuleSet { name: "r".to_string(), bytecode: vec![0xff], labels: vec![] });
    assert_eq!(archive_fingerprint(&a), archive_fingerprint(&b));
    b.links[0].weight = 5;
    assert_ne!(archive_fingerprint(&a), archive_fingerprint(&b));
}
