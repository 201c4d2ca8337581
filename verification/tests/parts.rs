use canopybus::model::{DeviceId, JournalEntry, JournalKind, Link, LinkKind, SampleKind, ScheduleWindow, ZoneId};
use canopybus::journal::summarize_journal;
use canopybus::page::{decode_sample_page, page_energy, resample_page};
use canopybus::reader::{checksum32, zigzag_decode, BitReader, Reader};
use canopybus::schedule::active_window;
use canopybus::store::{AliasTable, FragmentPool, ScratchStack};
use canopybus::text_map::TextMap;
use canopybus::topology::{link_score, normalize_links};
use canopybus::DecodeError;

fn reference_checksum(data: &[u8]) -> u32 {
    let mut h = 0x811c_9dc5u32;
    for (idx, b) in data.iter().enumerate() {
        h ^= *b as u32;
        h = h.wrapping_mul(0x0100_0193).rotate_left((idx as u32 & 7) + 1);
    }
    h
}

fn link(from: u32, to: u32, kind: LinkKind, weight: i16) -> Link {
    Link { from: DeviceId(from), to: DeviceId(to), kind, weight }
}

#[test]
fn checksum_matches_formula() {
    assert_eq!(checksum32(b""), 0x811c_9dc5);
    let data = b"canopy bus checksum";
    assert_eq!(checksum32(data), reference_checksum(data));
}

#[test]
fn zigzag_values() {
    assert_eq!(zigzag_decode(0), 0);
    assert_eq!(zigzag_decode(1), -1);
    assert_eq!(zigzag_decode(2), 1);
    assert_eq!(zigzag_decode(3), -2);
    assert_eq!(zigzag_decode(u64::MAX), i64::MIN);
    assert_eq!(zigzag_decode(u64::MAX - 1), i64::MAX);
}

#[test]
fn reader_reads_little_endian_and_varints() {
    let data = [0x34, 0x12, 0xff, 0xff, 0xff, 0x7f, 0xac, 0x02, 0x03, b'a', b'b', b'c', 9];
    let mut r = Reader::new(&data);
    assert_eq!(r.read_u16().unwrap(), 0x1234);
    assert_eq!(r.read_i32().unwrap(), 0x7fffffff);
    assert_eq!(r.read_var_u32().unwrap(), 300);
    assert_eq!(r.read_string().unwrap(), "abc");
    assert_eq!(r.position(), 12);
    assert_eq!(r.remaining(), 1);
    assert_eq!(r.read_u32().unwrap_err(), DecodeError::Truncated { at: 12, needed: 4, available: 1 });
    assert_eq!(r.read_remaining(), &[9]);
    let mut v = Reader::new(&[0x80, 0x80, 0x80, 0x80, 0x80, 0x01]);
    assert_eq!(v.read_var_u32().unwrap_err(), DecodeError::InvalidVarint);
    let mut s = Reader::new(&[2, 0xff, 0xfe]);
    assert_eq!(s.read_string().unwrap_err(), DecodeError::InvalidUtf8);
}

#[test]
fn bit_reader_reads_and_rewinds() {
    let data = [0b1010_1101u8, 0x0f];
    let mut b = BitReader::new(&data);
    assert_eq!(b.bits_remaining(), 16);
    b.set_marker();
    assert_eq!(b.read_bits(3).unwrap(), 0b101);
    assert_eq!(b.read_bits(0).unwrap(), 0b101);
    b.rewind_to_marker();
    assert_eq!(b.read_bits(4).unwrap(), 0b1101);
    assert_eq!(b.read_bits(57).unwrap_err(), DecodeError::InvalidField("bit width"));
    assert_eq!(b.read_bits(13).unwrap_err(), DecodeError::Truncated { at: 4, needed: 13, available: 12 });
    assert_eq!(b.read_bits(12).unwrap(), 0x0fa);
}

#[test]
fn sample_page_decodes_packed_rows() {
    let mut data = vec![3u8, 0];
    data.extend_from_slice(&1000u64.to_le_bytes());
    data.extend_from_slice(&2i16.to_le_bytes());
    data.extend_from_slice(&[1, 0, 4, 5, 6]);
    let p = decode_sample_page(&data).unwrap();
    assert_eq!(p.device.0, 3);
    assert_eq!(p.kind, SampleKind::Temperature);
    assert_eq!(p.base_timestamp, 1000);
    assert_eq!(p.scale, 2);
    assert_eq!(p.rows.len(), 1);
    assert_eq!(p.rows[0].timestamp_delta, 5);
    assert_eq!(p.rows[0].values, vec![-4]);
    assert_eq!(page_energy(&p), 4);
    assert_eq!(resample_page(&p, 0).rows.len(), 1);
    assert_eq!(
        decode_sample_page(&[1, 2, 3]).unwrap_err(),
        DecodeError::Truncated { at: 0, needed: 12, available: 3 }
    );
}

#[test]
fn resample_keeps_every_stride_row() {
    let mut data = vec![1u8, 1];
    data.extend_from_slice(&0u64.to_le_bytes());
    data.extend_from_slice(&1i16.to_le_bytes());
    data.extend_from_slice(&[5, 0, 0]);
    data.extend_from_slice(&[0; 12]);
    let p = decode_sample_page(&data).unwrap();
    assert_eq!(p.rows.len(), 5);
    assert_eq!(resample_page(&p, 1).rows.len(), 5);
    assert_eq!(resample_page(&p, 2).rows.len(), 3);
    assert_eq!(resample_page(&p, 5).rows.len(), 1);
}

#[test]
fn normalize_sorts_and_dedups() {
    let mut links = vec![
        link(2, 1, LinkKind::Parent, 5),
        link(1, 2, LinkKind::Backup, 3),
        link(1, 2, LinkKind::Backup, 1),
        link(1, 2, LinkKind::Parent, 2),
        link(1, 1, LinkKind::Observes, 9),
    ];
    normalize_links(&mut links);
    let keys: Vec<(u32, u32, i16)> = links.iter().map(|l| (l.from.0, l.to.0, l.weight)).collect();
    assert_eq!(keys, vec![(1, 1, 9), (1, 2, 1), (1, 2, 2), (1, 2, 3), (2, 1, 5)]);
    let mut again = links.clone();
    normalize_links(&mut again);
    assert_eq!(again.len(), links.len());
    let mut dup = vec![link(1, 2, LinkKind::Backup, 1), link(1, 2, LinkKind::Backup, 1), link(1, 2, LinkKind::Backup, 4)];
    normalize_links(&mut dup);
    assert_eq!(dup.len(), 1);
    assert_eq!(dup[0].weight, 1);
}

#[test]
fn link_score_adds_outgoing_and_halves_incoming() {
    let links = vec![link(1, 2, LinkKind::Parent, 10), link(3, 1, LinkKind::Parent, 7), link(1, 1, LinkKind::Parent, -5)];
    assert_eq!(link_score(&links, DeviceId(1)), 10 - 3 - 5 + 2);
    let big = vec![link(1, 2, LinkKind::Parent, i16::MAX); 70000];
    assert_eq!(link_score(&big, DeviceId(1)), i32::MAX);
}

#[test]
fn journal_summary() {
    let e = |t: u64, k: JournalKind| JournalEntry { timestamp: t, kind: k, device: DeviceId(1), severity: 0, message: String::new(), payload: Vec::new() };
    let entries = vec![e(5, JournalKind::Alarm), e(9, JournalKind::Boot), e(7, JournalKind::Alarm), e(2, JournalKind::ConfigChange)];
    assert_eq!(summarize_journal(&entries), (2, 1, 9));
    assert_eq!(summarize_journal(&[]), (0, 0, 0));
}

#[test]
fn active_window_wraps_midnight() {
    let w = |zone: u32, s: u16, e: u16, label: &str| ScheduleWindow { zone: ZoneId(zone), start_minute: s, end_minute: e, target: 0, recurrence: 0, label: label.to_string() };
    let windows = vec![w(1, 100, 200, "day"), w(1, 1400, 30, "night"), w(2, 0, 1439, "all")];
    assert_eq!(active_window(&windows, ZoneId(1), 150).unwrap().label, "day");
    assert_eq!(active_window(&windows, ZoneId(1), 10).unwrap().label, "night");
    assert!(active_window(&windows, ZoneId(1), 300).is_none());
    assert_eq!(active_window(&windows, ZoneId(2), 700).unwrap().label, "all");
}

#[test]
fn text_map_keeps_keys_ordered() {
    let mut m: TextMap<String> = TextMap::new();
    m.insert("b".to_string(), "1".to_string());
    m.insert("a".to_string(), "2".to_string());
    m.insert("b".to_string(), "3".to_string());
    assert_eq!(m.len(), 2);
    assert_eq!(m.get("b").map(|s| s.as_str()), Some("3"));
    assert_eq!(m.entries()[0].0, "a");
    assert!(m.get("c").is_none());
}

#[test]
fn alias_table_interns_once() {
    let mut t = AliasTable::new();
    assert_eq!(t.intern("gw".to_string()), 0);
    assert_eq!(t.intern("pump".to_string()), 1);
    assert_eq!(t.intern("gw".to_string()), 0);
    assert_eq!(t.len(), 2);
    assert_eq!(t.remembered_name(), Some("gw"));
    let h = t.remember(1).unwrap();
    assert_eq!(t.resolve(h), Some("pump"));
    assert_eq!(t.remembered_name(), Some("pump"));
}

#[test]
fn scratch_stack_and_pool() {
    let mut s = ScratchStack::new();
    s.push(4);
    s.push(9);
    s.remember_top();
    s.push(12);
    assert_eq!(s.saved_delta(), 12 - 9 + 2);
    assert_eq!(s.pop(), Some(12));
    assert_eq!(s.len(), 2);
    s.compact_for_window(1);
    assert_eq!(s.pop(), Some(9));
    assert_eq!(s.pop(), None);
    let mut p = FragmentPool::new();
    let i = p.push(b"abc");
    let j = p.push(b"");
    assert_eq!(p.take(i), Some(b"abc".to_vec()));
    assert_eq!(p.take(i), Some(Vec::new()));
    assert_eq!(p.take(j), Some(Vec::new()));
    assert_eq!(p.take(7), None);
    assert_eq!(p.retired_prefix_sum(), (b'a' as u32) + 3);
}
