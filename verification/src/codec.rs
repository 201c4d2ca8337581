use crate::model::{
    device_class_code, CanopyArchive, CanopyArchiveView, Device, DeviceClass, DeviceView, Link, LinkKind,
    ScheduleWindowView,
};
use crate::numtext::{dec_chars, decimal_string, signed_chars, signed_decimal_string};
use crate::reader::{checksum32, checksum_spec};
use vstd::prelude::*;

verus! {

/// The text name of a device class.
pub open spec fn class_name_spec(class: DeviceClass) -> Seq<char> {
    match class {
        DeviceClass::Gateway => "gateway"@,
        DeviceClass::ClimateSensor => "climate"@,
        DeviceClass::MoistureProbe => "moisture"@,
        DeviceClass::Valve => "valve"@,
        DeviceClass::NutrientPump => "pump"@,
        DeviceClass::LightingRail => "light"@,
        DeviceClass::Camera => "camera"@,
        DeviceClass::Unknown(_) => "unknown"@,
    }
}

/// The text name of a link kind.
pub open spec fn link_name_spec(kind: LinkKind) -> Seq<char> {
    match kind {
        LinkKind::Parent => "parent"@,
        LinkKind::Neighbor => "neighbor"@,
        LinkKind::Backup => "backup"@,
        LinkKind::Controls => "controls"@,
        LinkKind::Observes => "observes"@,
        LinkKind::Unknown(_) => "unknown"@,
    }
}

fn class_name(class: DeviceClass) -> (r: &'static str)
    ensures
        r@ == class_name_spec(class),
{
    match class {
        DeviceClass::Gateway => "gateway",
        DeviceClass::ClimateSensor => "climate",
        DeviceClass::MoistureProbe => "moisture",
        DeviceClass::Valve => "valve",
        DeviceClass::NutrientPump => "pump",
        DeviceClass::LightingRail => "light",
        DeviceClass::Camera => "camera",
        DeviceClass::Unknown(_) => "unknown",
    }
}

fn link_name(kind: LinkKind) -> (r: &'static str)
    ensures
        r@ == link_name_spec(kind),
{
    match kind {
        LinkKind::Parent => "parent",
        LinkKind::Neighbor => "neighbor",
        LinkKind::Backup => "backup",
        LinkKind::Controls => "controls",
        LinkKind::Observes => "observes",
        LinkKind::Unknown(_) => "unknown",
    }
}

pub open spec fn property_lines(props: Seq<(Seq<char>, Seq<char>)>) -> Seq<char>
    decreases props.len(),
{
    if props.len() == 0 {
        Seq::empty()
    } else {
        property_lines(props.drop_last()) + "property "@ + props.last().0 + " "@ + props.last().1 + "\n"@
    }
}

pub open spec fn device_line(d: DeviceView) -> Seq<char> {
    "device "@ + dec_chars(d.id as nat) + " "@ + class_name_spec(d.class) + " "@ + dec_chars(d.zone as nat) + " "@
        + d.alias + " "@ + d.crop + "\n"@
}

pub open spec fn device_lines(s: Seq<DeviceView>) -> Seq<char>
    decreases s.len(),
{
    if s.len() == 0 {
        Seq::empty()
    } else {
        device_lines(s.drop_last()) + device_line(s.last())
    }
}

pub open spec fn link_line(l: Link) -> Seq<char> {
    "link "@ + dec_chars(l.from.0 as nat) + " "@ + dec_chars(l.to.0 as nat) + " "@ + link_name_spec(l.kind) + " "@
        + signed_chars(l.weight as int) + "\n"@
}

pub open spec fn link_lines(s: Seq<Link>) -> Seq<char>
    decreases s.len(),
{
    if s.len() == 0 {
        Seq::empty()
    } else {
        link_lines(s.drop_last()) + link_line(s.last())
    }
}

pub open spec fn window_line(w: ScheduleWindowView) -> Seq<char> {
    "window "@ + dec_chars(w.zone as nat) + " "@ + dec_chars(w.start_minute as nat) + " "@ + dec_chars(
        w.end_minute as nat,
    ) + " "@ + signed_chars(w.target as int) + " "@ + dec_chars(w.recurrence as nat) + " "@ + w.label + "\n"@
}

pub open spec fn window_lines(s: Seq<ScheduleWindowView>) -> Seq<char>
    decreases s.len(),
{
    if s.len() == 0 {
        Seq::empty()
    } else {
        window_lines(s.drop_last()) + window_line(s.last())
    }
}

/// The text form of an archive: the facility line, then one line per property (in key
/// order), device, link and window.
pub open spec fn text_form(a: CanopyArchiveView) -> Seq<char> {
    "facility "@ + a.manifest.facility_id + " "@ + a.manifest.site_name + "\n"@ + property_lines(a.manifest.properties)
        + device_lines(a.manifest.devices) + link_lines(a.links) + window_lines(a.windows)
}

fn append_window_line(out: &mut String, w: &crate::model::ScheduleWindow)
    ensures
        final(out)@ == old(out)@ + window_line(w@),
{
    out.append("window ");
    out.append(decimal_string(w.zone.0 as u64).as_str());
    out.append(" ");
    out.append(decimal_string(w.start_minute as u64).as_str());
    out.append(" ");
    out.append(decimal_string(w.end_minute as u64).as_str());
    out.append(" ");
    out.append(signed_decimal_string(w.target as i64).as_str());
    out.append(" ");
    out.append(decimal_string(w.recurrence as u64).as_str());
    out.append(" ");
    out.append(w.label.as_str());
    out.append("\n");
    assert(out@ =~= old(out)@ + window_line(w@));
}

fn append_link_line(out: &mut String, l: Link)
    ensures
        final(out)@ == old(out)@ + link_line(l),
{
    out.append("link ");
    out.append(decimal_string(l.from.0 as u64).as_str());
    out.append(" ");
    out.append(decimal_string(l.to.0 as u64).as_str());
    out.append(" ");
    out.append(link_name(l.kind));
    out.append(" ");
    out.append(signed_decimal_string(l.weight as i64).as_str());
    out.append("\n");
    assert(out@ =~= old(out)@ + link_line(l));
}

fn append_device_line(out: &mut String, d: &Device)
    ensures
        final(out)@ == old(out)@ + device_line(d@),
{
    out.append("device ");
    out.append(decimal_string(d.id.0 as u64).as_str());
    out.append(" ");
    out.append(class_name(d.class));
    out.append(" ");
    out.append(decimal_string(d.zone.0 as u64).as_str());
    out.append(" ");
    out.append(d.alias.as_str());
    out.append(" ");
    out.append(d.crop.as_str());
    out.append("\n");
    assert(out@ =~= old(out)@ + device_line(d@));
}

pub fn write_text_archive(archive: &CanopyArchive) -> (r: String)
    ensures
        r@ == text_form(archive@),
{
    let mut out = "facility ".to_owned();
    out.append(archive.manifest.facility_id.as_str());
    out.append(" ");
    out.append(archive.manifest.site_name.as_str());
    out.append("\n");
    let ghost head = out@;
    let entries = archive.manifest.properties.entries();
    let mut i: usize = 0;
    while i < entries.len()
        invariant
            i <= entries@.len(),
            crate::text_map::entries_view(entries@) == archive@.manifest.properties,
            out@ == head + property_lines(archive@.manifest.properties.take(i as int)),
        decreases entries@.len() - i,
    {
        proof {
            assert(archive@.manifest.properties.take(i + 1).drop_last() =~= archive@.manifest.properties.take(i as int));
        }
        out.append("property ");
        out.append(entries[i].0.as_str());
        out.append(" ");
        out.append(entries[i].1.as_str());
        out.append("\n");
        i = i + 1;
    }
    assert(archive@.manifest.properties.take(i as int) =~= archive@.manifest.properties);
    let ghost h2 = out@;
    let devices = &archive.manifest.devices;
    let mut j: usize = 0;
    while j < devices.len()
        invariant
            j <= devices@.len(),
            crate::model::devices_view(devices@) == archive@.manifest.devices,
            out@ == h2 + device_lines(archive@.manifest.devices.take(j as int)),
        decreases devices@.len() - j,
    {
        proof {
            assert(archive@.manifest.devices.take(j + 1).drop_last() =~= archive@.manifest.devices.take(j as int));
        }
        append_device_line(&mut out, &devices[j]);
        j = j + 1;
    }
    assert(archive@.manifest.devices.take(j as int) =~= archive@.manifest.devices);
    let ghost h3 = out@;
    let mut k: usize = 0;
    while k < archive.links.len()
        invariant
            k <= archive@.links.len(),
            out@ == h3 + link_lines(archive@.links.take(k as int)),
        decreases archive@.links.len() - k,
    {
        proof {
            assert(archive@.links.take(k + 1).drop_last() =~= archive@.links.take(k as int));
        }
        append_link_line(&mut out, archive.links[k]);
        k = k + 1;
    }
    assert(archive@.links.take(k as int) =~= archive@.links);
    let ghost h4 = out@;
    let mut m: usize = 0;
    while m < archive.windows.len()
        invariant
            m <= archive@.windows.len(),
            out@ == h4 + window_lines(archive@.windows.take(m as int)),
        decreases archive@.windows.len() - m,
    {
        proof {
            assert(archive@.windows.take(m + 1).drop_last() =~= archive@.windows.take(m as int));
        }
        append_window_line(&mut out, &archive.windows[m]);
        m = m + 1;
    }
    assert(archive@.windows.take(m as int) =~= archive@.windows);
    out
}

/// Little-endian bytes of a 32-bit value.
pub open spec fn le32(x: u32) -> Seq<u8> {
    seq![(x % 256) as u8, ((x / 256) % 256) as u8, ((x / 65536) % 256) as u8, (x / 16777216) as u8]
}

/// Little-endian bytes of a 16-bit value.
pub open spec fn le16(x: u16) -> Seq<u8> {
    seq![(x % 256) as u8, (x / 256) as u8]
}

pub open spec fn device_fingerprint(d: DeviceView) -> Seq<u8> {
    le32(d.id) + seq![device_class_code(d.class)] + le32(d.zone) + vstd::utf8::encode_utf8(d.alias) + seq![0u8]
        + vstd::utf8::encode_utf8(d.crop)
}

pub open spec fn devices_fingerprint(s: Seq<DeviceView>) -> Seq<u8>
    decreases s.len(),
{
    if s.len() == 0 {
        Seq::empty()
    } else {
        devices_fingerprint(s.drop_last()) + device_fingerprint(s.last())
    }
}

pub open spec fn links_fingerprint(s: Seq<Link>) -> Seq<u8>
    decreases s.len(),
{
    if s.len() == 0 {
        Seq::empty()
    } else {
        links_fingerprint(s.drop_last()) + le32(s.last().from.0) + le32(s.last().to.0) + le16(s.last().weight as u16)
    }
}

/// The bytes the archive fingerprint is computed over: facility and site names, then
/// each device's identifier, class code, zone, alias, a zero byte and crop, then each
/// link's endpoints and weight.
pub open spec fn fingerprint_bytes(a: CanopyArchiveView) -> Seq<u8> {
    vstd::utf8::encode_utf8(a.manifest.facility_id) + vstd::utf8::encode_utf8(a.manifest.site_name)
        + devices_fingerprint(a.manifest.devices) + links_fingerprint(a.links)
}

fn push_le32(out: &mut Vec<u8>, x: u32)
    ensures
        final(out)@ == old(out)@ + le32(x),
{
    out.push((x % 256) as u8);
    out.push(((x / 256) % 256) as u8);
    out.push(((x / 65536) % 256) as u8);
    out.push((x / 16777216) as u8);
    assert(out@ =~= old(out)@ + le32(x));
}

fn append_bytes(out: &mut Vec<u8>, b: &[u8])
    ensures
        final(out)@ == old(out)@ + b@,
{
    out.extend_from_slice(b);
    assert(out@ =~= old(out)@ + b@);
}

fn write_device_fingerprint(device: &Device, out: &mut Vec<u8>)
    ensures
        final(out)@ == old(out)@ + device_fingerprint(device@),
{
    push_le32(out, device.id.0);
    out.push(device.class.as_code());
    push_le32(out, device.zone.0);
    append_bytes(out, device.alias.as_str().as_bytes());
    out.push(0);
    append_bytes(out, device.crop.as_str().as_bytes());
    assert(out@ =~= old(out)@ + device_fingerprint(device@));
}

/// The checksum of the archive's identifying bytes.
pub fn archive_fingerprint(archive: &CanopyArchive) -> (r: u32)
    ensures
        r == checksum_spec(fingerprint_bytes(archive@)),
{
    let mut bytes: Vec<u8> = Vec::new();
    append_bytes(&mut bytes, archive.manifest.facility_id.as_str().as_bytes());
    append_bytes(&mut bytes, archive.manifest.site_name.as_str().as_bytes());
    let ghost h = bytes@;
    let devices = &archive.manifest.devices;
    let mut i: usize = 0;
    while i < devices.len()
        invariant
            i <= devices@.len(),
            crate::model::devices_view(devices@) == archive@.manifest.devices,
            bytes@ == h + devices_fingerprint(archive@.manifest.devices.take(i as int)),
        decreases devices@.len() - i,
    {
        proof {
            assert(archive@.manifest.devices.take(i + 1).drop_last() =~= archive@.manifest.devices.take(i as int));
        }
        write_device_fingerprint(&devices[i], &mut bytes);
        i = i + 1;
    }
    assert(archive@.manifest.devices.take(i as int) =~= archive@.manifest.devices);
    let ghost h2 = bytes@;
    let mut k: usize = 0;
    while k < archive.links.len()
        invariant
            k <= archive@.links.len(),
            bytes@ == h2 + links_fingerprint(archive@.links.take(k as int)),
        decreases archive@.links.len() - k,
    {
        proof {
            assert(archive@.links.take(k + 1).drop_last() =~= archive@.links.take(k as int));
        }
        let l = archive.links[k];
        push_le32(&mut bytes, l.from.0);
        push_le32(&mut bytes, l.to.0);
        let w = l.weight as u16;
        bytes.push((w % 256) as u8);
        bytes.push((w / 256) as u8);
        k = k + 1;
    }
    assert(archive@.links.take(k as int) =~= archive@.links);
    assert(bytes@ =~= fingerprint_bytes(archive@));
    checksum32(bytes.as_slice())
}


/// Two link lists that agree, link by link, on endpoints and weight.
pub open spec fn same_link_ends(x: Seq<Link>, y: Seq<Link>) -> bool {
    &&& x.len() == y.len()
    &&& forall|i: int| 0 <= i < x.len() ==> (#[trigger] x[i]).from == y[i].from && x[i].to == y[i].to
        && x[i].weight == y[i].weight
}

proof fn lemma_links_fingerprint_ends(x: Seq<Link>, y: Seq<Link>)
    requires
        same_link_ends(x, y),
    ensures
        links_fingerprint(x) == links_fingerprint(y),
    decreases x.len(),
{
    if x.len() > 0 {
        lemma_links_fingerprint_ends(x.drop_last(), y.drop_last());
        assert(x.last() == x[x.len() - 1]);
    }
}

/// The fingerprint depends only on the facility and site names, the devices and each
/// link's endpoints and weight: pages, journals, rules, notes, properties, creation time,
/// version, flags, schedule windows and link kinds leave it unchanged.
pub proof fn law_fingerprint_fields(a: CanopyArchiveView, b: CanopyArchiveView)
    requires
        a.manifest.facility_id == b.manifest.facility_id,
        a.manifest.site_name == b.manifest.site_name,
        a.manifest.devices == b.manifest.devices,
        same_link_ends(a.links, b.links),
    ensures
        fingerprint_bytes(a) == fingerprint_bytes(b),
        checksum_spec(fingerprint_bytes(a)) == checksum_spec(fingerprint_bytes(b)),
{
    lemma_links_fingerprint_ends(a.links, b.links);
}

} // verus!
