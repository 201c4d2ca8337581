use canopybus::codec::{archive_fingerprint, write_text_archive};
use canopybus::decode_and_summarize;
use canopybus::model::{DeviceClass, DeviceId, ZoneId};
use canopybus::query::QueryPlanner;
use canopybus::validate::{estimate_archive_pressure, validate_archive};
use canopybus::{parse, parse_archive, CanopyArchive, DecodeError};

const SEED: &[u8] = b"facility west-01 West Bench\ndevice 1 gateway 1 gw basil\ndevice 2 climate 1 c1 lettuce\ndevice 3 valve 4 v1 basil\nlink 1 2 observes 7\nsample 2 temp 1000 21,22 22,23\nsample 3 flow 1000 5\njournal 1000 boot 1 1 online\njournal 2000 alarm 2 5 hot\njournal 1500 config 1 1 changed\n";

#[test]
fn summary_counts_devices_zones_and_crops() {
    let a = parse_archive(SEED).unwrap();
    let mut planner = QueryPlanner::new();
    assert_eq!(planner.last_fingerprint(), 0);
    let s = planner.summarize(&a);
    assert_eq!(s.facility, "west-01");
    assert_eq!(s.devices, 3);
    assert_eq!(s.zones, 2);
    assert_eq!(s.pages, 2);
    assert_eq!(s.samples, 3);
    assert_eq!(s.alarms, 1);
    assert_eq!(s.config_changes, 1);
    assert_eq!(s.last_event, 2000);
    assert_eq!(s.crop_mix.get("basil"), Some(&2));
    assert_eq!(s.crop_mix.get("lettuce"), Some(&1));
    assert_eq!(s.crop_mix.get("kale"), None);
    assert_eq!(s.fingerprint, planner.last_fingerprint());
    assert_eq!(s.fingerprint, archive_fingerprint(&a));
    assert_eq!(s.pressure, estimate_archive_pressure(&a));
    assert_eq!(planner.cached_zone_size(ZoneId(1)), 2);
    assert_eq!(planner.cached_zone_size(ZoneId(4)), 1);
    assert_eq!(planner.cached_zone_size(ZoneId(9)), 0);
}

#[test]
fn pressure_formula() {
    let a = parse_archive(SEED).unwrap();
    // 3 devices * 11 + 1 link * 7 + 0 windows * 5 + 3 journals * 13, then per page 3 per row plus values
    let base = 3 * 11 + 7 + 3 * 13;
    let pages = (2 * 3 + 2 + 2) + (1 * 3 + 1);
    assert_eq!(estimate_archive_pressure(&a), (base + pages) as u64);
}

#[test]
fn decode_and_summarize_validates() {
    let s = decode_and_summarize(SEED).unwrap();
    assert_eq!(s.devices, 3);
    let dup = b"device 1 gateway 1 a b\ndevice 1 climate 1 c d\n";
    assert_eq!(decode_and_summarize(dup).unwrap_err(), DecodeError::DuplicateId(1));
    let missing = b"device 1 gateway 1 a b\nlink 1 5 parent 1\n";
    assert_eq!(decode_and_summarize(missing).unwrap_err(), DecodeError::MissingReference(5));
    assert!(validate_archive(&parse(SEED).unwrap()).is_ok());
}

#[test]
fn text_writer_lists_facility_devices_links() {
    let a = parse_archive(b"facility f s\nproperty k v\ndevice 1 pump 2 p1 mint\nlink 1 1 backup -4\nwindow 2 10 20 -5 3 noon\n").unwrap();
    let t = write_text_archive(&a);
    assert_eq!(t, "facility f s\nproperty k v\ndevice 1 pump 2 p1 mint\nlink 1 1 backup -4\nwindow 2 10 20 -5 3 noon\n");
}

#[test]
fn archive_lookup_and_merge() {
    let mut a = parse_archive(b"facility one s\ndevice 5 camera 1 cam x\ndevice 5 valve 2 v y\n").unwrap();
    assert_eq!(a.device_by_id(DeviceId(5)).unwrap().class, DeviceClass::Camera);
    assert!(a.device_by_id(DeviceId(6)).is_none());
    assert_eq!(a.devices().len(), 2);
    let b = parse_archive(b"facility two t\ndevice 6 light 1 l z\nnote extra\n").unwrap();
    a.merge(b);
    assert_eq!(a.manifest.facility_id, "one");
    assert_eq!(a.manifest.devices.len(), 3);
    assert_eq!(a.notes, vec!["extra".to_string()]);
    let mut fresh = CanopyArchive::new(2);
    let c = parse_archive(b"facility three u\n").unwrap();
    fresh.merge(c);
    assert_eq!(fresh.manifest.facility_id, "three");
    assert_eq!(fresh.version, 2);
}

#[test]
fn device_class_codes_roundtrip() {
    for code in 0u8..=255 {
        assert_eq!(DeviceClass::from_code(code).as_code(), code);
    }
    assert_eq!(DeviceClass::from_code(DeviceClass::Valve.as_code()), DeviceClass::Valve);
    assert_eq!(DeviceClass::from_code(DeviceClass::Unknown(3).as_code()), DeviceClass::Valve);
}

#[test]
fn error_messages() {
    assert_eq!(DecodeError::Truncated { at: 3, needed: 4, available: 1 }.message(), "truncated at 3: need 4, have 1");
    assert_eq!(DecodeError::BadMagic.message(), "bad canopybus magic");
    assert_eq!(DecodeError::InvalidVersion(9).message(), "unsupported version 9");
    assert_eq!(DecodeError::SegmentTooLarge { segment: 2, len: 99 }.message(), "segment 2 too large: 99");
    assert_eq!(DecodeError::InvalidField("number").message(), "invalid field number");
    assert_eq!(DecodeError::DuplicateId(12).message(), "duplicate id 12");
    assert_eq!(DecodeError::IncompleteStream.message(), "incomplete stream");
}

#[test]
fn text_written_then_read_gives_the_archive_back() {
    let src = b"facility west-02 North Bench Row\nproperty zone-b basil rows\nproperty alpha 1\ndevice 4 valve 2 v4 mint\ndevice 9 light 3 l9 kale\nlink 4 9 controls -12\nlink 9 4 parent 0\nwindow 2 30 1439 -7 200 dawn\n";
    let a = parse_archive(src).unwrap();
    let text = write_text_archive(&a);
    let b = canopybus::text::parse_text_archive(text.as_bytes()).unwrap();
    assert_eq!(b.manifest.facility_id, a.manifest.facility_id);
    assert_eq!(b.manifest.site_name, "North Bench Row");
    assert_eq!(b.manifest.properties.len(), 2);
    assert_eq!(b.manifest.properties.get("zone-b").map(|s| s.as_str()), Some("basil rows"));
    assert_eq!(b.manifest.devices.len(), 2);
    for (x, y) in a.manifest.devices.iter().zip(b.manifest.devices.iter()) {
        assert_eq!((x.id, x.class, x.zone, &x.alias, &x.crop), (y.id, y.class, y.zone, &y.alias, &y.crop));
    }
    assert_eq!(b.links.len(), 2);
    for (x, y) in a.links.iter().zip(b.links.iter()) {
        assert_eq!((x.from, x.to, x.kind, x.weight), (y.from, y.to, y.kind, y.weight));
    }
    assert_eq!(b.windows.len(), 1);
    let (x, y) = (&a.windows[0], &b.windows[0]);
    assert_eq!((x.zone, x.start_minute, x.end_minute, x.target, x.recurrence, &x.label), (y.zone, y.start_minute, y.end_minute, y.target, y.recurrence, &y.label));
}
