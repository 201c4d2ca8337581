use crate::error::{DecodeError, Result};
use crate::model::{
    device_class_of, devices_view, strings_view, Device, DeviceClass, DeviceId, DeviceView,
    FacilityManifest, FacilityManifestView, ZoneId,
};
use crate::reader::{
    ok_view, read_i32_spec, read_string_spec, read_u16_spec, read_u64_spec, read_u8_spec,
    read_var_u32_spec, read_var_usize_spec, repeat_spec, Reader, Step,
};
use crate::store::{intern_all, intern_spec, new_alias_table, remembered_name_spec, AliasTable};
use crate::text_map::{map_insert, TextMap};
use vstd::prelude::*;

verus! {

/// The leading fields of a device record: identifier, class code, zone, firmware and alias.
pub open spec fn device_head(d: Seq<u8>, p: int) -> Step<(u32, u8, u32, u16, Seq<char>)> {
    match read_var_u32_spec(d, p) {
        (Err(e), q) => (Err(e), q),
        (Ok(id), p1) => match read_u8_spec(d, p1) {
            (Err(e), q) => (Err(e), q),
            (Ok(class), p2) => match read_var_u32_spec(d, p2) {
                (Err(e), q) => (Err(e), q),
                (Ok(zone), p3) => match read_u16_spec(d, p3) {
                    (Err(e), q) => (Err(e), q),
                    (Ok(firmware), p4) => match read_string_spec(d, p4) {
                        (Err(e), q) => (Err(e), q),
                        (Ok(alias), p5) => (Ok((id, class, zone, firmware, alias)), p5),
                    },
                },
            },
        },
    }
}

/// A device record: the head, a crop name, a channel count byte (at most 48) and that
/// many channel names, a calibration count byte (at most 64) and that many values. The
/// calibration values are kept as read: no crop-profile bias is applied to them, since
/// the crop profiles that would give one are not part of this crate.
pub open spec fn device_item(d: Seq<u8>, p: int) -> Step<DeviceView> {
    match device_head(d, p) {
        (Err(e), q) => (Err(e), q),
        (Ok((id, class, zone, firmware, alias)), p5) => match read_string_spec(d, p5) {
            (Err(e), q) => (Err(e), q),
            (Ok(crop), p6) => match read_u8_spec(d, p6) {
                (Err(e), q) => (Err(e), q),
                (Ok(cc), p7) => if cc > 48 {
                    (Err(DecodeError::InvalidField("channels")), p7)
                } else {
                    match repeat_spec(|d: Seq<u8>, p: int, i: nat| read_string_spec(d, p), d, p7, 0, cc as nat, seq![]) {
                        (Err(e), q) => (Err(e), q),
                        (Ok(channels), p8) => match read_u8_spec(d, p8) {
                            (Err(e), q) => (Err(e), q),
                            (Ok(kc), p9) => if kc > 64 {
                                (Err(DecodeError::InvalidField("calibration")), p9)
                            } else {
                                match repeat_spec(|d: Seq<u8>, p: int, i: nat| read_i32_spec(d, p), d, p9, 0, kc as nat, seq![]) {
                                    (Err(e), q) => (Err(e), q),
                                    (Ok(calibration), p10) => (
                                        Ok(
                                            DeviceView {
                                                id,
                                                alias,
                                                class: device_class_of(class),
                                                zone,
                                                crop,
                                                firmware,
                                                channels,
                                                calibration,
                                            },
                                        ),
                                        p10,
                                    ),
                                }
                            },
                        },
                    }
                },
            },
        },
    }
}

fn bounded(count: usize, limit: usize, name: &'static str) -> (r: Result<usize>)
    ensures
        r == if count > limit {
            Err::<usize, DecodeError>(DecodeError::InvalidField(name))
        } else {
            Ok::<usize, DecodeError>(count)
        },
{
    if count > limit {
        Err(DecodeError::InvalidField(name))
    } else {
        Ok(count)
    }
}

fn read_strings(r: &mut Reader, n: usize) -> (out: Result<Vec<String>>)
    ensures
        final(r)@.data == old(r)@.data,
        ({
            let sp = repeat_spec(|d: Seq<u8>, p: int, i: nat| read_string_spec(d, p), old(r)@.data, old(r)@.pos, 0, n as nat, seq![]);
            &&& final(r)@.pos == sp.1
            &&& match out {
                Ok(v) => sp.0 == Ok::<Seq<Seq<char>>, DecodeError>(strings_view(v@)),
                Err(e) => sp.0 == Err::<Seq<Seq<char>>, DecodeError>(e),
            }
        }),
{
    let ghost d = r@.data;
    let ghost p = r@.pos;
    let ghost item = |d: Seq<u8>, p: int, i: nat| read_string_spec(d, p);
    let mut out: Vec<String> = Vec::new();
    let mut j: usize = 0;
    assert(strings_view(out@) =~= Seq::<Seq<char>>::empty());
    while j < n
        invariant
            r@.data == d,
            d == old(r)@.data,
            p == old(r)@.pos,
            j <= n,
            item == (|d: Seq<u8>, p: int, i: nat| read_string_spec(d, p)),
            repeat_spec(item, d, r@.pos, j as nat, n as nat, strings_view(out@)) == repeat_spec(item, d, p, 0, n as nat, seq![]),
        decreases n - j,
    {
        let s = r.read_string()?;
        proof {
            assert(strings_view(out@.push(s)) =~= strings_view(out@).push(s@));
        }
        out.push(s);
        j = j + 1;
    }
    Ok(out)
}

fn read_i32s(r: &mut Reader, n: usize) -> (out: Result<Vec<i32>>)
    ensures
        final(r)@.data == old(r)@.data,
        ({
            let sp = repeat_spec(|d: Seq<u8>, p: int, i: nat| read_i32_spec(d, p), old(r)@.data, old(r)@.pos, 0, n as nat, seq![]);
            &&& final(r)@.pos == sp.1
            &&& match out {
                Ok(v) => sp.0 == Ok::<Seq<i32>, DecodeError>(v@),
                Err(e) => sp.0 == Err::<Seq<i32>, DecodeError>(e),
            }
        }),
{
    let ghost d = r@.data;
    let ghost p = r@.pos;
    let ghost item = |d: Seq<u8>, p: int, i: nat| read_i32_spec(d, p);
    let mut out: Vec<i32> = Vec::new();
    let mut j: usize = 0;
    while j < n
        invariant
            r@.data == d,
            d == old(r)@.data,
            p == old(r)@.pos,
            j <= n,
            item == (|d: Seq<u8>, p: int, i: nat| read_i32_spec(d, p)),
            repeat_spec(item, d, r@.pos, j as nat, n as nat, out@) == repeat_spec(item, d, p, 0, n as nat, seq![]),
        decreases n - j,
    {
        let v = r.read_i32()?;
        out.push(v);
        j = j + 1;
    }
    Ok(out)
}

/// Reads one device record and interns its alias. Calibration values are kept as read;
/// no crop-profile bias is applied.
pub fn parse_device(r: &mut Reader<'_>, aliases: &mut AliasTable) -> (out: Result<Device>)
    ensures
        final(r)@.data == old(r)@.data,
        (ok_view(out), final(r)@.pos) == device_item(old(r)@.data, old(r)@.pos),
        final(aliases)@ == match device_head(old(r)@.data, old(r)@.pos).0 {
            Ok(h) => intern_spec(old(aliases)@, h.4),
            Err(_) => old(aliases)@,
        },
{
    let ghost d = r@.data;
    let ghost p = r@.pos;
    let id = DeviceId(r.read_var_u32()?);
    let class = DeviceClass::from_code(r.read_u8()?);
    let zone = ZoneId(r.read_var_u32()?);
    let firmware = r.read_u16()?;
    let alias = r.read_string()?;
    aliases.intern(alias.clone());
    let crop = r.read_string()?;
    let channel_count = bounded(r.read_u8()? as usize, 48, "channels")?;
    let channels = read_strings(r, channel_count)?;
    let cal_count = bounded(r.read_u8()? as usize, 64, "calibration")?;
    let calibration = read_i32s(r, cal_count)?;
    Ok(Device { id, alias, class, zone, crop, firmware, channels, calibration })
}

/// The properties `j..n`: each a key then a value, bound in order.
pub open spec fn properties_from(
    d: Seq<u8>,
    p: int,
    j: nat,
    n: nat,
    acc: Seq<(Seq<char>, Seq<char>)>,
) -> Step<Seq<(Seq<char>, Seq<char>)>>
    decreases n - j,
{
    if j >= n {
        (Ok(acc), p)
    } else {
        match read_string_spec(d, p) {
            (Err(e), q) => (Err(e), q),
            (Ok(k), q) => match read_string_spec(d, q) {
                (Err(e), q2) => (Err(e), q2),
                (Ok(v), q2) => properties_from(d, q2, j + 1, n, map_insert(acc, k, v)),
            },
        }
    }
}

/// The properties after the alias table's remembered name, when it resolves, is non-empty
/// and there is room (fewer than 256 properties), is bound to `remembered_alias`.
pub open spec fn with_remembered(props: Seq<(Seq<char>, Seq<char>)>, devices: Seq<DeviceView>) -> Seq<
    (Seq<char>, Seq<char>),
> {
    match remembered_name_spec(intern_all(new_alias_table(), devices.map_values(|x: DeviceView| x.alias))) {
        Some(name) => if name.len() != 0 && props.len() < 256 {
            map_insert(props, "remembered_alias"@, name)
        } else {
            props
        },
        None => props,
    }
}

/// A manifest segment: a format byte (at most 3), facility and site names, a creation
/// time, up to 256 properties and up to 4096 devices.
pub open spec fn manifest_spec(d: Seq<u8>) -> core::result::Result<FacilityManifestView, DecodeError> {
    match read_u8_spec(d, 0) {
        (Err(e), _) => Err(e),
        (Ok(format), p1) => if format > 3 {
            Err(DecodeError::InvalidField("manifest format"))
        } else {
            match read_string_spec(d, p1) {
                (Err(e), _) => Err(e),
                (Ok(facility), p2) => match read_string_spec(d, p2) {
                    (Err(e), _) => Err(e),
                    (Ok(site), p3) => match read_u64_spec(d, p3) {
                        (Err(e), _) => Err(e),
                        (Ok(created), p4) => match read_var_usize_spec(d, p4) {
                            (Err(e), _) => Err(e),
                            (Ok(pc), p5) => if pc > 256 {
                                Err(DecodeError::InvalidField("manifest properties"))
                            } else {
                                match properties_from(d, p5, 0, pc as nat, seq![]) {
                                    (Err(e), _) => Err(e),
                                    (Ok(props), p6) => match read_var_usize_spec(d, p6) {
                                        (Err(e), _) => Err(e),
                                        (Ok(dc), p7) => if dc > 4096 {
                                            Err(DecodeError::InvalidField("manifest devices"))
                                        } else {
                                            match repeat_spec(|d: Seq<u8>, p: int, i: nat| device_item(d, p), d, p7, 0, dc as nat, seq![]) {
                                                (Err(e), _) => Err(e),
                                                (Ok(devices), _) => Ok(
                                                    FacilityManifestView {
                                                        facility_id: facility,
                                                        site_name: site,
                                                        created_at: created,
                                                        devices,
                                                        properties: with_remembered(props, devices),
                                                    },
                                                ),
                                            }
                                        },
                                    },
                                }
                            },
                        },
                    },
                },
            }
        },
    }
}

fn read_properties(r: &mut Reader, n: usize) -> (out: Result<TextMap<String>>)
    ensures
        final(r)@.data == old(r)@.data,
        ({
            let sp = properties_from(old(r)@.data, old(r)@.pos, 0, n as nat, seq![]);
            &&& final(r)@.pos == sp.1
            &&& match out {
                Ok(m) => sp.0 == Ok::<Seq<(Seq<char>, Seq<char>)>, DecodeError>(m@),
                Err(e) => sp.0 == Err::<Seq<(Seq<char>, Seq<char>)>, DecodeError>(e),
            }
        }),
{
    let ghost d = r@.data;
    let ghost p = r@.pos;
    let mut properties: TextMap<String> = TextMap::new();
    let mut j: usize = 0;
    while j < n
        invariant
            r@.data == d,
            d == old(r)@.data,
            p == old(r)@.pos,
            j <= n,
            properties_from(d, r@.pos, j as nat, n as nat, properties@) == properties_from(d, p, 0, n as nat, seq![]),
        decreases n - j,
    {
        let key = r.read_string()?;
        let value = r.read_string()?;
        properties.insert(key, value);
        j = j + 1;
    }
    Ok(properties)
}

/// Decodes a manifest segment. Device calibration values are kept as read; no crop-profile
/// bias is applied.
pub fn parse_manifest_segment(data: &[u8]) -> (out: Result<FacilityManifest>)
    ensures
        ok_view(out) == manifest_spec(data@),
{
    let ghost d = data@;
    let mut r = Reader::new(data);
    let format = r.read_u8()?;
    if format > 3 {
        return Err(DecodeError::InvalidField("manifest format"));
    }
    let facility_id = r.read_string()?;
    let site_name = r.read_string()?;
    let created_at = r.read_u64()?;
    let property_count = bounded(r.read_var_usize()?, 256, "manifest properties")?;
    let mut properties = read_properties(&mut r, property_count)?;
    let device_count = bounded(r.read_var_usize()?, 4096, "manifest devices")?;
    let ghost p7 = r@.pos;
    let ghost item = |d: Seq<u8>, p: int, i: nat| device_item(d, p);
    let ghost tail = repeat_spec(item, d, p7, 0, device_count as nat, seq![]);
    assert(manifest_spec(d) == match tail.0 {
        Err(e) => Err(e),
        Ok(devs) => Ok::<FacilityManifestView, DecodeError>(
            FacilityManifestView {
                facility_id: facility_id@,
                site_name: site_name@,
                created_at,
                devices: devs,
                properties: with_remembered(properties@, devs),
            },
        ),
    });
    let mut aliases = AliasTable::new();
    let mut devices: Vec<Device> = Vec::new();
    assert(devices_view(devices@) =~= Seq::<DeviceView>::empty());
    let mut i: usize = 0;
    while i < device_count
        invariant
            r@.data == d,
            i <= device_count,
            item == (|d: Seq<u8>, p: int, i: nat| device_item(d, p)),
            tail == repeat_spec(item, d, p7, 0, device_count as nat, seq![]),
            d == data@,
            manifest_spec(d) == match tail.0 {
                Err(e) => Err(e),
                Ok(devs) => Ok::<FacilityManifestView, DecodeError>(
                    FacilityManifestView {
                        facility_id: facility_id@,
                        site_name: site_name@,
                        created_at,
                        devices: devs,
                        properties: with_remembered(properties@, devs),
                    },
                ),
            },
            repeat_spec(item, d, r@.pos, i as nat, device_count as nat, devices_view(devices@)) == repeat_spec(
                item,
                d,
                p7,
                0,
                device_count as nat,
                seq![],
            ),
            aliases@ == intern_all(new_alias_table(), devices_view(devices@).map_values(|x: DeviceView| x.alias)),
        decreases device_count - i,
    {
        let ghost before = devices_view(devices@);
        let device = parse_device(&mut r, &mut aliases)?;
        proof {
            assert(devices_view(devices@.push(device)) =~= before.push(device@));
            assert(before.push(device@).map_values(|x: DeviceView| x.alias).drop_last() =~= before.map_values(
                |x: DeviceView| x.alias,
            ));
        }
        devices.push(device);
        i = i + 1;
    }
    if let Some(name) = aliases.remembered_name() {
        if !name.is_empty() && properties.len() < 256 {
            properties.insert("remembered_alias".to_owned(), name.to_owned());
        }
    }
    Ok(FacilityManifest { facility_id, site_name, created_at, devices, properties })
}

/// A manifest holding only a facility and a site name.
pub fn manifest_from_text(facility: &str, site: &str) -> (r: FacilityManifest)
    ensures
        r@ == (FacilityManifestView {
            facility_id: facility@,
            site_name: site@,
            created_at: 0,
            devices: Seq::empty(),
            properties: Seq::empty(),
        }),
{
    let r = FacilityManifest {
        facility_id: facility.to_owned(),
        site_name: site.to_owned(),
        created_at: 0,
        devices: Vec::new(),
        properties: TextMap::new(),
    };
    assert(r@.devices =~= Seq::<DeviceView>::empty());
    r
}

} // verus!
