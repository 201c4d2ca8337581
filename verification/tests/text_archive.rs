use canopybus::model::{DeviceClass, JournalKind, LinkKind, SampleKind};
use canopybus::text::parse_text_archive;
use canopybus::{parse_archive, DecodeError};

fn fnv(s: &str) -> u32 {
    let mut h: u32 = 2166136261;
    for b in s.as_bytes() {
        h = (h ^ *b as u32).wrapping_mul(16777619);
    }
    h
}

#[test]
fn text_facility_and_properties() {
    let a = parse_archive(b"facility west-01 West Bench Row\nproperty owner Ada Lovelace\nproperty zeta z\nproperty alpha a\n").unwrap();
    assert_eq!(a.manifest.facility_id, "west-01");
    assert_eq!(a.manifest.site_name, "West Bench Row");
    assert_eq!(a.manifest.properties.len(), 3);
    assert_eq!(a.manifest.properties.get("owner").map(|s| s.as_str()), Some("Ada Lovelace"));
    let keys: Vec<&str> = a.manifest.properties.entries().iter().map(|(k, _)| k.as_str()).collect();
    assert_eq!(keys, vec!["alpha", "owner", "zeta"]);
    assert_eq!(a.version, 1);
}

#[test]
fn text_defaults_before_facility_line() {
    let a = parse_archive(b"note hello world\n").unwrap();
    assert_eq!(a.manifest.facility_id, "text-import");
    assert_eq!(a.manifest.site_name, "unnamed-site");
    assert_eq!(a.notes, vec!["hello world".to_string()]);
}

#[test]
fn text_facility_without_name_and_property_without_key() {
    let a = parse_archive(b"facility\nproperty\n").unwrap();
    assert_eq!(a.manifest.facility_id, "site");
    assert_eq!(a.manifest.site_name, "");
    assert_eq!(a.manifest.properties.get("key").map(|s| s.as_str()), Some(""));
}

#[test]
fn text_device_line_fields() {
    let a = parse_archive(b"device 7 robot 3 arm tomato temp cal=5 cal=x rh cal=-12\n").unwrap();
    let d = &a.manifest.devices[0];
    assert_eq!(d.id.0, 7);
    assert_eq!(d.zone.0, 3);
    assert_eq!(d.alias, "arm");
    assert_eq!(d.crop, "tomato");
    assert_eq!(d.firmware, 1);
    assert_eq!(d.channels, vec!["temp".to_string(), "rh".to_string()]);
    assert_eq!(d.calibration, vec![5, 0, -12]);
    assert_eq!(d.class, DeviceClass::Unknown(fnv("robot") as u8));
}

#[test]
fn text_device_classes() {
    let a = parse_archive(b"device 1 gateway 1 a b\ndevice 2 climate 1 a b\ndevice 3 moisture 1 a b\ndevice 4 valve 1 a b\ndevice 5 pump 1 a b\ndevice 6 light 1 a b\ndevice 7 camera 1 a b\n").unwrap();
    let classes: Vec<DeviceClass> = a.manifest.devices.iter().map(|d| d.class).collect();
    assert_eq!(
        classes,
        vec![
            DeviceClass::Gateway,
            DeviceClass::ClimateSensor,
            DeviceClass::MoistureProbe,
            DeviceClass::Valve,
            DeviceClass::NutrientPump,
            DeviceClass::LightingRail,
            DeviceClass::Camera
        ]
    );
}

#[test]
fn text_device_errors() {
    assert_eq!(parse_archive(b"device 1 gateway 1 gw\n").unwrap_err(), DecodeError::InvalidField("device text"));
    assert_eq!(parse_archive(b"device x gateway 1 gw crop\n").unwrap_err(), DecodeError::InvalidField("number"));
    assert_eq!(parse_archive(b"device 1 gateway -1 gw crop\n").unwrap_err(), DecodeError::InvalidField("number"));
    assert_eq!(parse_archive(b"device 4294967296 gateway 1 gw crop\n").unwrap_err(), DecodeError::InvalidField("number"));
    let a = parse_archive(b"device +4294967295 gateway 1 gw crop\n").unwrap();
    assert_eq!(a.manifest.devices[0].id.0, 4294967295);
}

#[test]
fn text_link_lines() {
    let a = parse_archive(b"link 1 2 parent 5\nlink 2 3 neighbor x\nlink 3 4 mesh -40000\nlink 4 5 observes -7\n").unwrap();
    assert_eq!(a.links.len(), 4);
    assert_eq!(a.links[0].kind, LinkKind::Parent);
    assert_eq!(a.links[0].weight, 5);
    assert_eq!(a.links[1].kind, LinkKind::Neighbor);
    assert_eq!(a.links[1].weight, 1);
    assert_eq!(a.links[2].kind, LinkKind::Unknown(fnv("mesh") as u8));
    assert_eq!(a.links[2].weight, 1);
    assert_eq!(a.links[3].weight, -7);
    assert_eq!(parse_archive(b"link 1 2 parent\n").unwrap_err(), DecodeError::InvalidField("link text"));
}

#[test]
fn text_window_lines() {
    let a = parse_archive(b"window 2 1500 70000 -3 9\nwindow 4 10 20 7 300 evening\n").unwrap();
    let w = &a.windows[0];
    assert_eq!(w.zone.0, 2);
    assert_eq!(w.start_minute, 60);
    assert_eq!(w.end_minute, 0);
    assert_eq!(w.target, -3);
    assert_eq!(w.recurrence, 9);
    assert_eq!(w.label, "window");
    let v = &a.windows[1];
    assert_eq!(v.recurrence, 0);
    assert_eq!(v.label, "evening");
    assert_eq!(parse_archive(b"window 2 1 2 3\n").unwrap_err(), DecodeError::InvalidField("window text"));
}

#[test]
fn text_sample_line_rows() {
    let a = parse_archive(b"sample 9 ph 123 1,-2,x 5,,7 -9223372036854775808\n").unwrap();
    let p = &a.pages[0];
    assert_eq!(p.device.0, 9);
    assert_eq!(p.kind, SampleKind::Ph);
    assert_eq!(p.base_timestamp, 123);
    assert_eq!(p.scale, 1);
    assert_eq!(p.rows.len(), 3);
    assert_eq!(p.rows[0].timestamp_delta, 0);
    assert_eq!(p.rows[0].values, vec![1, -2, 0]);
    assert_eq!(p.rows[1].timestamp_delta, 60);
    assert_eq!(p.rows[1].values, vec![5, 0, 7]);
    assert_eq!(p.rows[2].timestamp_delta, 120);
    assert_eq!(p.rows[2].values, vec![i64::MIN]);
    assert_eq!(parse_archive(b"sample 9 ph 123\n").unwrap_err(), DecodeError::InvalidField("sample text"));
}

#[test]
fn text_journal_and_rule_lines() {
    let a = parse_archive(b"journal 55 alarm 3 300 door left open\nrule r1 0x1f 0x0x02 zz ff 100 +a\nrule r2\n").unwrap_err();
    assert_eq!(a, DecodeError::InvalidField("rule text"));
    let a = parse_archive(b"journal 55 alarm 3 300 door left open\nrule r1 0x1f 0x0x02 zz ff 100 +a\n").unwrap();
    let j = &a.journals[0];
    assert_eq!(j.timestamp, 55);
    assert_eq!(j.kind, JournalKind::Alarm);
    assert_eq!(j.device.0, 3);
    assert_eq!(j.severity, 0);
    assert_eq!(j.message, "door left open");
    assert!(j.payload.is_empty());
    let r = &a.rules[0];
    assert_eq!(r.name, "r1");
    assert_eq!(r.bytecode, vec![0x1f, 0x02, 0xff, 0x0a]);
    assert!(r.labels.is_empty());
}

#[test]
fn text_comments_blank_lines_and_crlf() {
    let a = parse_archive(b"# header\r\n\r\n   \t\nfacility  f1\tsite\r\n   # indented comment\nnote a\xe3\x80\x80b\n").unwrap();
    assert_eq!(a.manifest.facility_id, "f1");
    assert_eq!(a.manifest.site_name, "site");
    assert_eq!(a.notes, vec!["a b".to_string()]);
}

#[test]
fn text_unknown_kind_is_refused() {
    let e = parse_text_archive(b"facility f\nbogus 1 2\n").unwrap_err();
    assert_eq!(e, DecodeError::InvalidText("bogus".to_string()));
    assert_eq!(e.message(), "invalid text line: bogus");
}

#[test]
fn text_invalid_utf8_is_refused() {
    assert_eq!(parse_text_archive(b"facility \xff\n").unwrap_err(), DecodeError::InvalidUtf8);
}

#[test]
fn text_empty_input_gives_the_default_archive() {
    let a = parse_archive(b"").unwrap();
    assert_eq!(a.manifest.facility_id, "text-import");
    assert!(a.manifest.devices.is_empty());
}
