use crate::codec::{archive_fingerprint, fingerprint_bytes};
use crate::journal::{count_kind, last_timestamp, summarize_journal};
use crate::model::{devices_view, pages_view, CanopyArchive, CanopyArchiveView, DeviceClass, DeviceView, JournalKind, SamplePageView, ZoneId};
use crate::reader::checksum_spec;
use crate::text_map::{map_insert, map_lookup, TextMap};
use crate::topology::link_score;
use crate::validate::{estimate_archive_pressure, pressure_spec, validate_archive};
use std::collections::BTreeMap;
use vstd::prelude::*;

verus! {

broadcast use {vstd::std_specs::btree::group_btree_axioms, vstd::laws_cmp::group_laws_cmp};

/// Figures describing an archive.
#[derive(Debug, Clone)]
pub struct ArchiveSummary {
    pub facility: String,
    pub devices: usize,
    pub zones: usize,
    pub pages: usize,
    pub samples: usize,
    pub alarms: usize,
    pub config_changes: usize,
    pub last_event: u64,
    pub pressure: u64,
    pub fingerprint: u32,
    pub crop_mix: TextMap<usize>,
}

impl Default for ArchiveSummary {
    fn default() -> (r: Self)
        ensures
            r.facility@.len() == 0,
            r.devices == 0 && r.zones == 0 && r.pages == 0 && r.samples == 0,
            r.alarms == 0 && r.config_changes == 0 && r.last_event == 0,
            r.pressure == 0 && r.fingerprint == 0,
            r.crop_mix@.len() == 0,
    {
        ArchiveSummary {
            facility: String::new(),
            devices: 0,
            zones: 0,
            pages: 0,
            samples: 0,
            alarms: 0,
            config_changes: 0,
            last_event: 0,
            pressure: 0,
            fingerprint: 0,
            crop_mix: TextMap::new(),
        }
    }
}

/// Number of devices in zone `z`.
pub open spec fn zone_count(s: Seq<DeviceView>, z: u32) -> nat
    decreases s.len(),
{
    if s.len() == 0 {
        0
    } else {
        zone_count(s.drop_last(), z) + if s.last().zone == z { 1nat } else { 0 }
    }
}

/// Index of the first entry of zone `z`.
pub open spec fn first_zone_index(t: Seq<(u32, usize)>, z: u32) -> Option<int>
    decreases t.len(),
{
    if t.len() == 0 {
        None
    } else {
        match first_zone_index(t.drop_last(), z) {
            Some(i) => Some(i),
            None => if t.last().0 == z {
                Some(t.len() - 1)
            } else {
                None
            },
        }
    }
}

/// The tally after one more device of zone `z`: its entry counts one more, or a new entry
/// with count 1 is appended.
pub open spec fn tally_bump(t: Seq<(u32, usize)>, z: u32) -> Seq<(u32, usize)> {
    match first_zone_index(t, z) {
        Some(i) => t.update(i, (z, (t[i].1 + 1) as usize)),
        None => t.push((z, 1usize)),
    }
}

/// Each zone with its number of devices, in order of first appearance.
pub open spec fn zone_tally(s: Seq<DeviceView>) -> Seq<(u32, usize)>
    decreases s.len(),
{
    if s.len() == 0 {
        Seq::empty()
    } else {
        tally_bump(zone_tally(s.drop_last()), s.last().zone)
    }
}

/// Number of devices growing crop `c`.
pub open spec fn crop_count(s: Seq<DeviceView>, c: Seq<char>) -> nat
    decreases s.len(),
{
    if s.len() == 0 {
        0
    } else {
        crop_count(s.drop_last(), c) + if s.last().crop == c { 1nat } else { 0 }
    }
}

/// The crops of the devices with their counts, in key order.
pub open spec fn crop_tally(s: Seq<DeviceView>) -> Seq<(Seq<char>, usize)>
    decreases s.len(),
{
    if s.len() == 0 {
        Seq::empty()
    } else {
        let prev = crop_tally(s.drop_last());
        let c = s.last().crop;
        let n: usize = match map_lookup(prev, c) {
            Some(v) => (v + 1) as usize,
            None => 1,
        };
        map_insert(prev, c, n)
    }
}

/// Rows over all pages, wrapping.
pub open spec fn total_rows(ps: Seq<SamplePageView>) -> usize
    decreases ps.len(),
{
    if ps.len() == 0 {
        0
    } else {
        total_rows(ps.drop_last()).wrapping_add(ps.last().rows.len() as usize)
    }
}

/// The view of a summary, its crop mix as ordered pairs.
pub struct ArchiveSummaryView {
    pub facility: Seq<char>,
    pub devices: usize,
    pub zones: usize,
    pub pages: usize,
    pub samples: usize,
    pub alarms: usize,
    pub config_changes: usize,
    pub last_event: u64,
    pub pressure: u64,
    pub fingerprint: u32,
    pub crop_mix: Seq<(Seq<char>, usize)>,
}

impl View for ArchiveSummary {
    type V = ArchiveSummaryView;

    open spec fn view(&self) -> ArchiveSummaryView {
        ArchiveSummaryView {
            facility: self.facility@,
            devices: self.devices,
            zones: self.zones,
            pages: self.pages,
            samples: self.samples,
            alarms: self.alarms,
            config_changes: self.config_changes,
            last_event: self.last_event,
            pressure: self.pressure,
            fingerprint: self.fingerprint,
            crop_mix: self.crop_mix@,
        }
    }
}

/// The summary of an archive.
pub open spec fn summary_spec(a: CanopyArchiveView) -> ArchiveSummaryView {
    let ds = a.manifest.devices;
    ArchiveSummaryView {
        facility: a.manifest.facility_id,
        devices: ds.len() as usize,
        zones: zone_tally(ds).len() as usize,
        pages: a.pages.len() as usize,
        samples: total_rows(a.pages),
        alarms: count_kind(a.journals, JournalKind::Alarm) as usize,
        config_changes: count_kind(a.journals, JournalKind::ConfigChange) as usize,
        last_event: last_timestamp(a.journals),
        pressure: pressure_spec(a),
        fingerprint: checksum_spec(fingerprint_bytes(a)),
        crop_mix: crop_tally(ds),
    }
}

/// Summarizes archives, keeping the last fingerprint and per-zone device counts.
pub struct QueryPlanner {
    last_fingerprint: u32,
    zone_cache: BTreeMap<u32, usize>,
}

pub struct QueryPlannerView {
    pub last_fingerprint: u32,
    pub zone_cache: Map<u32, usize>,
}

impl View for QueryPlanner {
    type V = QueryPlannerView;

    closed spec fn view(&self) -> QueryPlannerView {
        QueryPlannerView {
            last_fingerprint: self.last_fingerprint,
            zone_cache: self.zone_cache@,
        }
    }
}

/// The map binding each zone of a tally to its count (a later entry wins).
pub open spec fn tally_map(t: Seq<(u32, usize)>) -> Map<u32, usize>
    decreases t.len(),
{
    if t.len() == 0 {
        Map::empty()
    } else {
        tally_map(t.drop_last()).insert(t.last().0, t.last().1)
    }
}

/// The count a cache holds for zone `z`, or 0.
pub open spec fn cache_size(m: Map<u32, usize>, z: u32) -> usize {
    if m.contains_key(z) {
        m[z]
    } else {
        0
    }
}

proof fn lemma_tally_map(t: Seq<(u32, usize)>, z: u32)
    ensures
        cache_size(tally_map(t), z) == cache_lookup(t, z),
    decreases t.len(),
{
    if t.len() > 0 {
        lemma_tally_map(t.drop_last(), z);
    }
}

/// The count recorded for zone `z`, or 0.
pub open spec fn cache_lookup(t: Seq<(u32, usize)>, z: u32) -> usize
    decreases t.len(),
{
    if t.len() == 0 {
        0
    } else if t.last().0 == z {
        t.last().1
    } else {
        cache_lookup(t.drop_last(), z)
    }
}

proof fn lemma_zone_count_bound(s: Seq<DeviceView>, z: u32)
    ensures
        zone_count(s, z) <= s.len(),
    decreases s.len(),
{
    if s.len() > 0 {
        lemma_zone_count_bound(s.drop_last(), z);
    }
}

/// A tally with distinct zones whose counts are right, covering every zone in use.
pub open spec fn tally_ok(t: Seq<(u32, usize)>, s: Seq<DeviceView>) -> bool {
    &&& forall|i: int, j: int| 0 <= i < t.len() && 0 <= j < t.len() && i != j ==> #[trigger] t[i].0 != #[trigger] t[j].0
    &&& forall|i: int| 0 <= i < t.len() ==> #[trigger] t[i].1 == zone_count(s, t[i].0)
    &&& forall|z: u32| zone_count(s, z) > 0 ==> exists|i: int| 0 <= i < t.len() && #[trigger] t[i].0 == z
}

proof fn lemma_first_zone_index(t: Seq<(u32, usize)>, z: u32)
    ensures
        match first_zone_index(t, z) {
            Some(i) => 0 <= i < t.len() && t[i].0 == z && forall|j: int| 0 <= j < i ==> t[j].0 != z,
            None => forall|j: int| 0 <= j < t.len() ==> t[j].0 != z,
        },
    decreases t.len(),
{
    if t.len() > 0 {
        let p = t.drop_last();
        lemma_first_zone_index(p, z);
        match first_zone_index(p, z) {
            Some(i) => {
                assert(t[i] == p[i]);
                assert forall|j: int| 0 <= j < i implies t[j].0 != z by {
                    assert(t[j] == p[j]);
                }
            },
            None => {
                assert forall|j: int| 0 <= j < p.len() implies t[j].0 != z by {
                    assert(t[j] == p[j]);
                }
            },
        }
    }
}

proof fn lemma_lookup_from_tally(t: Seq<(u32, usize)>, s: Seq<DeviceView>, z: u32)
    requires
        forall|i: int, j: int| 0 <= i < t.len() && 0 <= j < t.len() && i != j ==> #[trigger] t[i].0 != #[trigger] t[j].0,
        forall|i: int| 0 <= i < t.len() ==> #[trigger] t[i].1 == zone_count(s, t[i].0),
        zone_count(s, z) > 0 ==> exists|i: int| 0 <= i < t.len() && #[trigger] t[i].0 == z,
    ensures
        cache_lookup(t, z) == zone_count(s, z),
    decreases t.len(),
{
    if t.len() == 0 {
    } else if t.last().0 == z {
        assert(t[t.len() - 1].1 == zone_count(s, t[t.len() - 1].0));
    } else {
        let r = t.drop_last();
        if zone_count(s, z) > 0 {
            let i = choose|i: int| 0 <= i < t.len() && #[trigger] t[i].0 == z;
            assert(r[i].0 == z);
        }
        assert forall|i: int| 0 <= i < r.len() implies #[trigger] r[i].1 == zone_count(s, r[i].0) by {
            assert(r[i] == t[i]);
        }
        assert forall|i: int, j: int| 0 <= i < r.len() && 0 <= j < r.len() && i != j implies #[trigger] r[i].0 != #[trigger] r[j].0 by {
            assert(r[i] == t[i] && r[j] == t[j]);
        }
        lemma_lookup_from_tally(r, s, z);
    }
}

/// The zone tally has one entry per zone in use, each holding its number of devices.
pub proof fn lemma_zone_tally_ok(s: Seq<DeviceView>)
    requires
        s.len() <= usize::MAX,
    ensures
        tally_ok(zone_tally(s), s),
    decreases s.len(),
{
    if s.len() > 0 {
        let p = s.drop_last();
        let t = zone_tally(p);
        let z = s.last().zone;
        lemma_zone_tally_ok(p);
        lemma_first_zone_index(t, z);
        let t2 = zone_tally(s);
        assert forall|x: u32| zone_count(s, x) == zone_count(p, x) + if x == z { 1nat } else { 0 } by {}
        match first_zone_index(t, z) {
            Some(i) => {
                lemma_zone_count_bound(p, z);
                assert forall|x: u32| zone_count(s, x) > 0 implies exists|k: int| 0 <= k < t2.len() && #[trigger] t2[k].0 == x by {
                    if x == z {
                        assert(t2[i].0 == x);
                    } else {
                        let k = choose|k: int| 0 <= k < t.len() && #[trigger] t[k].0 == x;
                        assert(t2[k].0 == x);
                    }
                }
            },
            None => {
                assert(zone_count(p, z) == 0);
                assert forall|x: u32| zone_count(s, x) > 0 implies exists|k: int| 0 <= k < t2.len() && #[trigger] t2[k].0 == x by {
                    if x == z {
                        assert(t2[t.len() as int].0 == x);
                    } else {
                        let k = choose|k: int| 0 <= k < t.len() && #[trigger] t[k].0 == x;
                        assert(t2[k].0 == x);
                    }
                }
            },
        }
    }
}

/// The zone cache built from the devices holds, for every zone, exactly the number of
/// devices in it (0 for a zone without devices).
pub proof fn lemma_zone_tally_counts(s: Seq<DeviceView>, z: u32)
    requires
        s.len() <= usize::MAX,
    ensures
        cache_lookup(zone_tally(s), z) == zone_count(s, z),
        cache_size(tally_map(zone_tally(s)), z) == zone_count(s, z),
{
    lemma_zone_tally_ok(s);
    lemma_lookup_from_tally(zone_tally(s), s, z);
    lemma_tally_map(zone_tally(s), z);
}

/// The crop mix binds every crop in use to the number of its devices, and nothing else.
pub proof fn lemma_crop_tally_counts(s: Seq<DeviceView>, c: Seq<char>)
    requires
        s.len() <= usize::MAX,
    ensures
        map_lookup(crop_tally(s), c) == if crop_count(s, c) > 0 {
            Some(crop_count(s, c) as usize)
        } else {
            None
        },
    decreases s.len(),
{
    if s.len() > 0 {
        let p = s.drop_last();
        lemma_crop_tally_counts(p, c);
        lemma_crop_tally_counts(p, s.last().crop);
        lemma_crop_count_bound(p, s.last().crop);
        let n: usize = match map_lookup(crop_tally(p), s.last().crop) {
            Some(v) => (v + 1) as usize,
            None => 1,
        };
        crate::text_map::lemma_lookup_insert(crop_tally(p), s.last().crop, n, c);
    }
}

/// A summary's figures are those of the other queries over the same archive: the alarm
/// and configuration-change counts and last event time of the journal summary, the
/// pressure estimate, the archive fingerprint, one zone entry per zone in use and, for
/// every crop, the number of its devices.
pub proof fn law_summary_fields(a: CanopyArchiveView, c: Seq<char>)
    requires
        a.manifest.devices.len() <= usize::MAX,
    ensures
        ({
            let r = summary_spec(a);
            let ds = a.manifest.devices;
            &&& r.facility == a.manifest.facility_id
            &&& r.devices == ds.len() as usize
            &&& r.pages == a.pages.len() as usize
            &&& r.samples == total_rows(a.pages)
            &&& r.alarms == count_kind(a.journals, JournalKind::Alarm) as usize
            &&& r.config_changes == count_kind(a.journals, JournalKind::ConfigChange) as usize
            &&& r.last_event == last_timestamp(a.journals)
            &&& r.pressure == pressure_spec(a)
            &&& r.fingerprint == checksum_spec(fingerprint_bytes(a))
            &&& r.zones == zone_tally(ds).len() as usize
            &&& tally_ok(zone_tally(ds), ds)
            &&& map_lookup(r.crop_mix, c) == if crop_count(ds, c) > 0 {
                Some(crop_count(ds, c) as usize)
            } else {
                None
            }
        }),
{
    let ds = a.manifest.devices;
    lemma_zone_tally_ok(ds);
    lemma_crop_tally_counts(ds, c);
}

/// After a planner summarizes an archive, the size it reports for a zone is the number of
/// the archive's devices in that zone (0 for a zone without devices); a fresh planner
/// reports 0 for every zone.
pub proof fn law_cached_zone_size(a: CanopyArchiveView, z: u32)
    requires
        a.manifest.devices.len() <= usize::MAX,
    ensures
        cache_size(tally_map(zone_tally(a.manifest.devices)), z) == zone_count(a.manifest.devices, z),
        cache_size(Map::<u32, usize>::empty(), z) == 0,
{
    lemma_zone_tally_counts(a.manifest.devices, z);
}

proof fn lemma_crop_count_bound(s: Seq<DeviceView>, c: Seq<char>)
    ensures
        crop_count(s, c) <= s.len(),
    decreases s.len(),
{
    if s.len() > 0 {
        lemma_crop_count_bound(s.drop_last(), c);
    }
}

impl QueryPlanner {
    pub fn new() -> (r: Self)
        ensures
            r@.last_fingerprint == 0,
            r@.zone_cache == Map::<u32, usize>::empty(),
    {
        Self { last_fingerprint: 0, zone_cache: BTreeMap::new() }
    }

    /// Summarizes `archive`, remembering its per-zone device counts and fingerprint.
    pub fn summarize(&mut self, archive: &CanopyArchive) -> (r: ArchiveSummary)
        ensures
            r@ == summary_spec(archive@),
            final(self)@.zone_cache == tally_map(zone_tally(archive@.manifest.devices)),
            final(self)@.last_fingerprint == checksum_spec(fingerprint_bytes(archive@)),
    {
        let _ = validate_archive(archive);
        let devices = &archive.manifest.devices;
        let ghost ds = devices_view(devices@);
        let mut zones: Vec<(ZoneId, usize)> = Vec::new();
        let mut crop_mix: TextMap<usize> = TextMap::new();
        let mut i: usize = 0;
        proof {
            assert(ds.take(0) =~= Seq::<DeviceView>::empty());
            assert(zones@.map_values(|e: (ZoneId, usize)| (e.0.0, e.1)) =~= Seq::<(u32, usize)>::empty());
        }
        while i < devices.len()
            invariant
                i <= devices@.len(),
                ds == devices_view(devices@),
                ds == archive@.manifest.devices,
                zones@.map_values(|e: (ZoneId, usize)| (e.0.0, e.1)) == zone_tally(ds.take(i as int)),
                crop_mix@ == crop_tally(ds.take(i as int)),
            decreases devices@.len() - i,
        {
            let ghost p = ds.take(i as int);
            let ghost t = zones@.map_values(|e: (ZoneId, usize)| (e.0.0, e.1));
            let device = &devices[i];
            let z = device.zone.0;
            proof {
                assert(ds.take(i + 1).drop_last() =~= p);
                assert(ds.take(i + 1).last() == device@);
                lemma_zone_tally_ok(p);
                lemma_zone_count_bound(p, z);
                lemma_crop_tally_counts(p, device@.crop);
                lemma_crop_count_bound(p, device@.crop);
            }
            let mut j: usize = 0;
            while j < zones.len() && zones[j].0.0 != z
                invariant
                    j <= zones@.len(),
                    t == zones@.map_values(|e: (ZoneId, usize)| (e.0.0, e.1)),
                    forall|k: int| 0 <= k < j ==> #[trigger] t[k].0 != z,
                decreases zones@.len() - j,
            {
                j = j + 1;
            }
            proof {
                lemma_first_zone_index(t, z);
            }
            if j < zones.len() {
                let n = zones[j].1;
                proof {
                    assert(t[j as int] == (z, n));
                    assert(first_zone_index(t, z) == Some(j as int));
                    assert(tally_ok(t, p));
                    assert(t[j as int].1 == zone_count(p, t[j as int].0));
                    assert(n == zone_count(p, z));
                }
                zones.set(j, (ZoneId(z), n + 1));
                proof {
                    assert(zones@.map_values(|e: (ZoneId, usize)| (e.0.0, e.1)) =~= tally_bump(t, z));
                }
            } else {
                proof {
                    assert(first_zone_index(t, z) is None);
                }
                zones.push((ZoneId(z), 1));
                proof {
                    assert(zones@.map_values(|e: (ZoneId, usize)| (e.0.0, e.1)) =~= tally_bump(t, z));
                }
            }
            let n: usize = match crop_mix.get(device.crop.as_str()) {
                Some(v) => *v + 1,
                None => 1,
            };
            crop_mix.insert(device.crop.clone(), n);
            if let DeviceClass::Gateway = device.class {
                let _ = link_score(archive.links.as_slice(), device.id);
            }
            i = i + 1;
        }
        proof {
            assert(ds.take(i as int) =~= ds);
        }
        let ghost ps = archive@.pages;
        let mut samples: usize = 0;
        let mut k: usize = 0;
        proof {
            assert(ps.take(0) =~= Seq::<SamplePageView>::empty());
        }
        while k < archive.pages.len()
            invariant
                k <= archive.pages@.len(),
                ps == archive@.pages,
                ps == pages_view(archive.pages@),
                samples == total_rows(ps.take(k as int)),
            decreases archive.pages@.len() - k,
        {
            proof {
                assert(ps.take(k + 1).drop_last() =~= ps.take(k as int));
            }
            samples = samples.wrapping_add(archive.pages[k].rows.len());
            k = k + 1;
        }
        proof {
            assert(ps.take(k as int) =~= ps);
        }
        let (alarms, config_changes, last_event) = summarize_journal(archive.journals.as_slice());
        self.last_fingerprint = archive_fingerprint(archive);
        let zone_total = zones.len();
        let ghost tz = zones@.map_values(|e: (ZoneId, usize)| (e.0.0, e.1));
        let mut cache: BTreeMap<u32, usize> = BTreeMap::new();
        let mut z: usize = 0;
        assert(tz.take(0) =~= Seq::<(u32, usize)>::empty());
        while z < zones.len()
            invariant
                z <= zones@.len(),
                tz == zones@.map_values(|e: (ZoneId, usize)| (e.0.0, e.1)),
                cache@ == tally_map(tz.take(z as int)),
            decreases zones@.len() - z,
        {
            proof {
                assert(tz.take(z + 1).drop_last() =~= tz.take(z as int));
                assert(tz[z as int] == (zones@[z as int].0.0, zones@[z as int].1));
            }
            cache.insert(zones[z].0.0, zones[z].1);
            z = z + 1;
        }
        assert(tz.take(z as int) =~= tz);
        self.zone_cache = cache;
        ArchiveSummary {
            facility: archive.manifest.facility_id.clone(),
            devices: devices.len(),
            zones: zone_total,
            pages: archive.pages.len(),
            samples,
            alarms,
            config_changes,
            last_event,
            pressure: estimate_archive_pressure(archive),
            fingerprint: self.last_fingerprint,
            crop_mix,
        }
    }

    /// The number of devices the last summarized archive had in `zone`, or 0.
    pub fn cached_zone_size(&self, zone: ZoneId) -> (r: usize)
        ensures
            r == cache_size(self@.zone_cache, zone.0),
    {
        match self.zone_cache.get(&zone.0) {
            Some(n) => *n,
            None => 0,
        }
    }

    pub fn last_fingerprint(&self) -> (r: u32)
        ensures
            r == self@.last_fingerprint,
    {
        self.last_fingerprint
    }
}

} // verus!
