use crate::error::{DecodeError, Result};
use crate::model::{devices_view, rows_view, CanopyArchive, CanopyArchiveView, DeviceView, Link, SamplePageView, SampleRowView};
use crate::schedule::active_window;
use crate::store::DeviceScratch;
use vstd::prelude::*;

verus! {

/// Some device carries identifier `id`.
pub open spec fn has_device(ds: Seq<DeviceView>, id: u32) -> bool {
    exists|j: int| 0 <= j < ds.len() && ds[j].id == id
}

/// Devices are checked in order: an identifier seen before is a duplicate, and an alias
/// may take at most 256 bytes.
pub open spec fn devices_check(ds: Seq<DeviceView>) -> core::result::Result<(), DecodeError>
    decreases ds.len(),
{
    if ds.len() == 0 {
        Ok(())
    } else {
        match devices_check(ds.drop_last()) {
            Err(e) => Err(e),
            Ok(_) => if has_device(ds.drop_last(), ds.last().id) {
                Err(DecodeError::DuplicateId(ds.last().id))
            } else if vstd::utf8::encode_utf8(ds.last().alias).len() > 256 {
                Err(DecodeError::InvalidField("device alias"))
            } else {
                Ok(())
            },
        }
    }
}

/// Every link must join known devices; the larger endpoint is reported.
pub open spec fn links_check(ls: Seq<Link>, ds: Seq<DeviceView>) -> core::result::Result<(), DecodeError>
    decreases ls.len(),
{
    if ls.len() == 0 {
        Ok(())
    } else {
        match links_check(ls.drop_last(), ds) {
            Err(e) => Err(e),
            Ok(_) => {
                let l = ls.last();
                if !has_device(ds, l.from.0) || !has_device(ds, l.to.0) {
                    Err(DecodeError::MissingReference(if l.from.0 > l.to.0 { l.from.0 } else { l.to.0 }))
                } else {
                    Ok(())
                }
            },
        }
    }
}

/// Every page must belong to a known device (when there are devices) and hold at most
/// 100000 rows.
pub open spec fn pages_check(ps: Seq<SamplePageView>, ds: Seq<DeviceView>) -> core::result::Result<(), DecodeError>
    decreases ps.len(),
{
    if ps.len() == 0 {
        Ok(())
    } else {
        match pages_check(ps.drop_last(), ds) {
            Err(e) => Err(e),
            Ok(_) => {
                let p = ps.last();
                if ds.len() != 0 && !has_device(ds, p.device) {
                    Err(DecodeError::MissingReference(p.device))
                } else if p.rows.len() > 100_000 {
                    Err(DecodeError::InvalidField("page rows"))
                } else {
                    Ok(())
                }
            },
        }
    }
}

/// The checks of an archive, in order: version 1 to 4, devices, links (when there are
/// devices), pages.
pub open spec fn validate_spec(a: CanopyArchiveView) -> core::result::Result<(), DecodeError> {
    if a.version == 0 || a.version > 4 {
        Err(DecodeError::InvalidVersion(a.version))
    } else {
        match devices_check(a.manifest.devices) {
            Err(e) => Err(e),
            Ok(_) => match if a.manifest.devices.len() != 0 { links_check(a.links, a.manifest.devices) } else { Ok(()) } {
                Err(e) => Err(e),
                Ok(_) => pages_check(a.pages, a.manifest.devices),
            },
        }
    }
}

proof fn lemma_devices_check_ok(ds: Seq<DeviceView>)
    requires
        devices_check(ds) is Ok,
    ensures
        forall|i: int, j: int| 0 <= i < j < ds.len() ==> #[trigger] ds[i].id != #[trigger] ds[j].id,
    decreases ds.len(),
{
    if ds.len() > 0 {
        let p = ds.drop_last();
        lemma_devices_check_ok(p);
        assert forall|i: int, j: int| 0 <= i < j < ds.len() implies #[trigger] ds[i].id != #[trigger] ds[j].id by {
            if j == ds.len() - 1 {
                if ds[i].id == ds[j].id {
                    assert(p[i].id == ds.last().id);
                    assert(has_device(p, ds.last().id));
                }
            } else {
                assert(p[i] == ds[i] && p[j] == ds[j]);
            }
        }
    }
}

proof fn lemma_links_check_ok(ls: Seq<Link>, ds: Seq<DeviceView>)
    requires
        links_check(ls, ds) is Ok,
    ensures
        forall|k: int| 0 <= k < ls.len() ==> has_device(ds, (#[trigger] ls[k]).from.0) && has_device(ds, ls[k].to.0),
    decreases ls.len(),
{
    if ls.len() > 0 {
        lemma_links_check_ok(ls.drop_last(), ds);
        assert forall|k: int| 0 <= k < ls.len() implies has_device(ds, (#[trigger] ls[k]).from.0) && has_device(ds, ls[k].to.0) by {
            if k < ls.len() - 1 {
                assert(ls.drop_last()[k] == ls[k]);
            }
        }
    }
}

proof fn lemma_pages_check_ok(ps: Seq<SamplePageView>, ds: Seq<DeviceView>)
    requires
        pages_check(ps, ds) is Ok,
    ensures
        forall|k: int| 0 <= k < ps.len() ==> (ds.len() != 0 ==> has_device(ds, (#[trigger] ps[k]).device)) && ps[k].rows.len()
            <= 100_000,
    decreases ps.len(),
{
    if ps.len() > 0 {
        lemma_pages_check_ok(ps.drop_last(), ds);
        assert forall|k: int| 0 <= k < ps.len() implies (ds.len() != 0 ==> has_device(ds, (#[trigger] ps[k]).device))
            && ps[k].rows.len() <= 100_000 by {
            if k < ps.len() - 1 {
                assert(ps.drop_last()[k] == ps[k]);
            }
        }
    }
}

/// An archive that passes validation has a supported version and distinct device
/// identifiers; when it lists devices, every link joins two of them and every page
/// belongs to one of them; and no page holds more than 100000 rows.
pub proof fn law_valid_archive(a: CanopyArchiveView)
    requires
        validate_spec(a) is Ok,
    ensures
        1 <= a.version <= 4,
        forall|i: int, j: int|
            0 <= i < j < a.manifest.devices.len() ==> #[trigger] a.manifest.devices[i].id
                != #[trigger] a.manifest.devices[j].id,
        a.manifest.devices.len() > 0 ==> forall|k: int|
            0 <= k < a.links.len() ==> has_device(a.manifest.devices, (#[trigger] a.links[k]).from.0) && has_device(
                a.manifest.devices,
                a.links[k].to.0,
            ),
        forall|k: int|
            0 <= k < a.pages.len() ==> (a.manifest.devices.len() != 0 ==> has_device(
                a.manifest.devices,
                (#[trigger] a.pages[k]).device,
            )) && a.pages[k].rows.len() <= 100_000,
{
    let ds = a.manifest.devices;
    lemma_devices_check_ok(ds);
    if ds.len() != 0 {
        lemma_links_check_ok(a.links, ds);
    }
    lemma_pages_check_ok(a.pages, ds);
}

fn contains_device(ids: &Vec<u32>, id: u32) -> (r: bool)
    ensures
        r == ids@.contains(id),
{
    let mut i: usize = 0;
    while i < ids.len()
        invariant
            i <= ids@.len(),
            forall|j: int| 0 <= j < i ==> ids@[j] != id,
        decreases ids@.len() - i,
    {
        if ids[i] == id {
            return true;
        }
        i = i + 1;
    }
    false
}

proof fn lemma_ids_has(ds: Seq<DeviceView>, ids: Seq<u32>, id: u32)
    requires
        ids == ds.map_values(|d: DeviceView| d.id),
    ensures
        ids.contains(id) == has_device(ds, id),
{
    if ids.contains(id) {
        let j = choose|j: int| 0 <= j < ids.len() && ids[j] == id;
        assert(ds[j].id == id);
    }
    if has_device(ds, id) {
        let j = choose|j: int| 0 <= j < ds.len() && ds[j].id == id;
        assert(ids[j] == id);
    }
}

pub fn validate_archive(archive: &CanopyArchive) -> (r: Result<()>)
    ensures
        r == validate_spec(archive@),
{
    if archive.version == 0 || archive.version > 4 {
        return Err(DecodeError::InvalidVersion(archive.version));
    }
    let ghost ds = archive@.manifest.devices;
    let mut ids: Vec<u32> = Vec::new();
    let mut scratch = DeviceScratch::new();
    let devices = &archive.manifest.devices;
    let mut i: usize = 0;
    while i < devices.len()
        invariant
            ds == devices_view(devices@),
            ds == archive@.manifest.devices,
            !(archive@.version == 0 || archive@.version > 4),
            i <= ds.len(),
            ids@ == ds.take(i as int).map_values(|d: DeviceView| d.id),
            devices_check(ds.take(i as int)) == Ok::<(), DecodeError>(()),
        decreases ds.len() - i,
    {
        let device = &devices[i];
        let ghost pre = ds.take(i as int);
        proof {
            assert(ds.take(i + 1).drop_last() =~= pre);
            lemma_ids_has(pre, ids@, device.id.0);
            lemma_devices_prefix_err(ds, i + 1);
        }
        if contains_device(&ids, device.id.0) {
            return Err(DecodeError::DuplicateId(device.id.0));
        }
        ids.push(device.id.0);
        scratch.push(device.id);
        if device.alias.as_str().as_bytes().len() > 256 {
            return Err(DecodeError::InvalidField("device alias"));
        }
        proof {
            assert(ids@ =~= ds.take(i + 1).map_values(|d: DeviceView| d.id));
            assert(ds.take(i + 1).last() == device@);
            assert(!has_device(pre, device@.id));
        }
        i = i + 1;
    }
    assert(ds.take(i as int) =~= ds);
    let _ = scratch.remembered_id();
    let ghost ls = archive@.links;
    let mut k: usize = 0;
    while k < archive.links.len()
        invariant
            ls == archive@.links,
            ds == archive@.manifest.devices,
            ids@ == ds.map_values(|d: DeviceView| d.id),
            devices_check(ds) == Ok::<(), DecodeError>(()),
            !(archive@.version == 0 || archive@.version > 4),
            k <= ls.len(),
            ds.len() != 0 ==> links_check(ls.take(k as int), ds) == Ok::<(), DecodeError>(()),
        decreases ls.len() - k,
    {
        let link = archive.links[k];
        proof {
            assert(ls.take(k + 1).drop_last() =~= ls.take(k as int));
            lemma_ids_has(ds, ids@, link.from.0);
            lemma_ids_has(ds, ids@, link.to.0);
            lemma_links_prefix_err(ls, ds, k + 1);
        }
        if !ids.is_empty() && (!contains_device(&ids, link.from.0) || !contains_device(&ids, link.to.0)) {
            let m = if link.from.0 > link.to.0 { link.from.0 } else { link.to.0 };
            return Err(DecodeError::MissingReference(m));
        }
        k = k + 1;
    }
    assert(ls.take(k as int) =~= ls);
    let ghost ps = archive@.pages;
    let mut p: usize = 0;
    while p < archive.pages.len()
        invariant
            ps == archive@.pages,
            ds == archive@.manifest.devices,
            ids@ == ds.map_values(|d: DeviceView| d.id),
            validate_spec(archive@) == pages_check(ps, ds),
            p <= ps.len(),
            pages_check(ps.take(p as int), ds) == Ok::<(), DecodeError>(()),
        decreases ps.len() - p,
    {
        let page = &archive.pages[p];
        proof {
            assert(ps.take(p + 1).drop_last() =~= ps.take(p as int));
            lemma_ids_has(ds, ids@, page.device.0);
            lemma_pages_prefix_err(ps, ds, p + 1);
        }
        if !ids.is_empty() && !contains_device(&ids, page.device.0) {
            return Err(DecodeError::MissingReference(page.device.0));
        }
        if page.rows.len() > 100_000 {
            return Err(DecodeError::InvalidField("page rows"));
        }
        p = p + 1;
    }
    assert(ps.take(p as int) =~= ps);
    let mut w: usize = 0;
    while w < archive.windows.len()
        invariant
            w <= archive.windows@.len(),
        decreases archive.windows@.len() - w,
    {
        let window = &archive.windows[w];
        let _ = active_window(archive.windows.as_slice(), window.zone, window.start_minute);
        w = w + 1;
    }
    Ok(())
}

proof fn lemma_devices_prefix_err(ds: Seq<DeviceView>, k: int)
    requires
        0 <= k <= ds.len(),
    ensures
        devices_check(ds.take(k)) is Err ==> devices_check(ds) == devices_check(ds.take(k)),
    decreases ds.len(),
{
    if k < ds.len() {
        assert(ds.drop_last().take(k) =~= ds.take(k));
        lemma_devices_prefix_err(ds.drop_last(), k);
    } else {
        assert(ds.take(k) =~= ds);
    }
}

proof fn lemma_links_prefix_err(ls: Seq<Link>, ds: Seq<DeviceView>, k: int)
    requires
        0 <= k <= ls.len(),
    ensures
        links_check(ls.take(k), ds) is Err ==> links_check(ls, ds) == links_check(ls.take(k), ds),
    decreases ls.len(),
{
    if k < ls.len() {
        assert(ls.drop_last().take(k) =~= ls.take(k));
        lemma_links_prefix_err(ls.drop_last(), ds, k);
    } else {
        assert(ls.take(k) =~= ls);
    }
}

proof fn lemma_pages_prefix_err(ps: Seq<SamplePageView>, ds: Seq<DeviceView>, k: int)
    requires
        0 <= k <= ps.len(),
    ensures
        pages_check(ps.take(k), ds) is Err ==> pages_check(ps, ds) == pages_check(ps.take(k), ds),
    decreases ps.len(),
{
    if k < ps.len() {
        assert(ps.drop_last().take(k) =~= ps.take(k));
        lemma_pages_prefix_err(ps.drop_last(), ds, k);
    } else {
        assert(ps.take(k) =~= ps);
    }
}

/// Rows and samples of the pages, each row weighing 3 and each sample 1, added onto `acc`
/// with saturation.
pub open spec fn pages_pressure(acc: u64, ps: Seq<SamplePageView>) -> u64
    decreases ps.len(),
{
    if ps.len() == 0 {
        acc
    } else {
        let before = pages_pressure(acc, ps.drop_last());
        let p = ps.last();
        rows_pressure(before.saturating_add((p.rows.len() as u64).wrapping_mul(3)), p.rows)
    }
}

pub open spec fn rows_pressure(acc: u64, rows: Seq<SampleRowView>) -> u64
    decreases rows.len(),
{
    if rows.len() == 0 {
        acc
    } else {
        rows_pressure(acc, rows.drop_last()).saturating_add(rows.last().values.len() as u64)
    }
}

/// A rough size of the archive: 11 per device, 7 per link, 5 per window and 13 per journal
/// entry (wrapping), then the page rows and samples (saturating).
pub open spec fn pressure_spec(a: CanopyArchiveView) -> u64 {
    let base = (a.manifest.devices.len() as u64).wrapping_mul(11).wrapping_add((a.links.len() as u64).wrapping_mul(7))
        .wrapping_add((a.windows.len() as u64).wrapping_mul(5)).wrapping_add((a.journals.len() as u64).wrapping_mul(13));
    pages_pressure(base, a.pages)
}

pub fn estimate_archive_pressure(archive: &CanopyArchive) -> (r: u64)
    ensures
        r == pressure_spec(archive@),
{
    let mut pressure = (archive.manifest.devices.len() as u64).wrapping_mul(11).wrapping_add(
        (archive.links.len() as u64).wrapping_mul(7),
    ).wrapping_add((archive.windows.len() as u64).wrapping_mul(5)).wrapping_add(
        (archive.journals.len() as u64).wrapping_mul(13),
    );
    let ghost base = pressure;
    let ghost ps = archive@.pages;
    let mut i: usize = 0;
    while i < archive.pages.len()
        invariant
            ps == archive@.pages,
            i <= ps.len(),
            pressure == pages_pressure(base, ps.take(i as int)),
        decreases ps.len() - i,
    {
        proof {
            assert(ps.take(i + 1).drop_last() =~= ps.take(i as int));
        }
        let page = &archive.pages[i];
        pressure = pressure.saturating_add((page.rows.len() as u64).wrapping_mul(3));
        let ghost rs = ps[i as int].rows;
        let ghost start = pressure;
        let mut j: usize = 0;
        while j < page.rows.len()
            invariant
                rs == rows_view(page.rows@),
                j <= rs.len(),
                pressure == rows_pressure(start, rs.take(j as int)),
            decreases rs.len() - j,
        {
            proof {
                assert(rs.take(j + 1).drop_last() =~= rs.take(j as int));
            }
            pressure = pressure.saturating_add(page.rows[j].values.len() as u64);
            j = j + 1;
        }
        assert(rs.take(j as int) =~= rs);
        i = i + 1;
    }
    assert(ps.take(i as int) =~= ps);
    pressure
}

} // verus!
