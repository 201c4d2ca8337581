use crate::text_map::TextMap;
use vstd::prelude::*;

verus! {

/// The characters of each string in a sequence.
pub open spec fn strings_view(s: Seq<String>) -> Seq<Seq<char>> {
    s.map_values(|x: String| x@)
}

#[derive(Debug, Clone, Copy, PartialEq, Eq, Structural, PartialOrd, Ord, Hash)]
pub struct DeviceId(pub u32);

#[derive(Debug, Clone, Copy, PartialEq, Eq, Structural, PartialOrd, Ord, Hash)]
pub struct ZoneId(pub u32);

#[derive(Debug, Clone, Copy, PartialEq, Eq, Structural)]
pub enum DeviceClass {
    Gateway,
    ClimateSensor,
    MoistureProbe,
    Valve,
    NutrientPump,
    LightingRail,
    Camera,
    Unknown(u8),
}

/// The device class a wire code stands for; codes past the known ones are kept as `Unknown`.
pub open spec fn device_class_of(code: u8) -> DeviceClass {
    if code == 0 {
        DeviceClass::Gateway
    } else if code == 1 {
        DeviceClass::ClimateSensor
    } else if code == 2 {
        DeviceClass::MoistureProbe
    } else if code == 3 {
        DeviceClass::Valve
    } else if code == 4 {
        DeviceClass::NutrientPump
    } else if code == 5 {
        DeviceClass::LightingRail
    } else if code == 6 {
        DeviceClass::Camera
    } else {
        DeviceClass::Unknown(code)
    }
}

/// The wire code of a device class.
pub open spec fn device_class_code(class: DeviceClass) -> u8 {
    match class {
        DeviceClass::Gateway => 0,
        DeviceClass::ClimateSensor => 1,
        DeviceClass::MoistureProbe => 2,
        DeviceClass::Valve => 3,
        DeviceClass::NutrientPump => 4,
        DeviceClass::LightingRail => 5,
        DeviceClass::Camera => 6,
        DeviceClass::Unknown(code) => code,
    }
}

impl DeviceClass {
    pub fn from_code(code: u8) -> (r: Self)
        ensures
            r == device_class_of(code),
    {
        match code {
            0 => Self::Gateway,
            1 => Self::ClimateSensor,
            2 => Self::MoistureProbe,
            3 => Self::Valve,
            4 => Self::NutrientPump,
            5 => Self::LightingRail,
            6 => Self::Camera,
            other => Self::Unknown(other),
        }
    }

    pub fn as_code(self) -> (r: u8)
        ensures
            r == device_class_code(self),
    {
        match self {
            Self::Gateway => 0,
            Self::ClimateSensor => 1,
            Self::MoistureProbe => 2,
            Self::Valve => 3,
            Self::NutrientPump => 4,
            Self::LightingRail => 5,
            Self::Camera => 6,
            Self::Unknown(code) => code,
        }
    }
}

/// Decoding a code and encoding the class gives the code back.
pub proof fn lemma_device_class_code_roundtrip(code: u8)
    ensures
        device_class_code(device_class_of(code)) == code,
{
}

#[derive(Debug, Clone)]
pub struct Device {
    pub id: DeviceId,
    pub alias: String,
    pub class: DeviceClass,
    pub zone: ZoneId,
    pub crop: String,
    pub firmware: u16,
    pub channels: Vec<String>,
    pub calibration: Vec<i32>,
}

pub struct DeviceView {
    pub id: u32,
    pub alias: Seq<char>,
    pub class: DeviceClass,
    pub zone: u32,
    pub crop: Seq<char>,
    pub firmware: u16,
    pub channels: Seq<Seq<char>>,
    pub calibration: Seq<i32>,
}

impl View for Device {
    type V = DeviceView;

    open spec fn view(&self) -> DeviceView {
        DeviceView {
            id: self.id.0,
            alias: self.alias@,
            class: self.class,
            zone: self.zone.0,
            crop: self.crop@,
            firmware: self.firmware,
            channels: strings_view(self.channels@),
            calibration: self.calibration@,
        }
    }
}

pub open spec fn devices_view(s: Seq<Device>) -> Seq<DeviceView> {
    s.map_values(|d: Device| d@)
}

#[derive(Debug, Clone, Copy, PartialEq, Eq, Structural)]
pub enum LinkKind {
    Parent,
    Neighbor,
    Backup,
    Controls,
    Observes,
    Unknown(u8),
}

pub open spec fn link_kind_of(code: u8) -> LinkKind {
    if code == 0 {
        LinkKind::Parent
    } else if code == 1 {
        LinkKind::Neighbor
    } else if code == 2 {
        LinkKind::Backup
    } else if code == 3 {
        LinkKind::Controls
    } else if code == 4 {
        LinkKind::Observes
    } else {
        LinkKind::Unknown(code)
    }
}

impl LinkKind {
    pub fn from_code(code: u8) -> (r: Self)
        ensures
            r == link_kind_of(code),
    {
        match code {
            0 => Self::Parent,
            1 => Self::Neighbor,
            2 => Self::Backup,
            3 => Self::Controls,
            4 => Self::Observes,
            other => Self::Unknown(other),
        }
    }
}

#[derive(Debug, Clone, Copy)]
pub struct Link {
    pub from: DeviceId,
    pub to: DeviceId,
    pub kind: LinkKind,
    pub weight: i16,
}

#[derive(Debug, Clone)]
pub struct ScheduleWindow {
    pub zone: ZoneId,
    pub start_minute: u16,
    pub end_minute: u16,
    pub target: i32,
    pub recurrence: u8,
    pub label: String,
}

pub struct ScheduleWindowView {
    pub zone: u32,
    pub start_minute: u16,
    pub end_minute: u16,
    pub target: i32,
    pub recurrence: u8,
    pub label: Seq<char>,
}

impl View for ScheduleWindow {
    type V = ScheduleWindowView;

    open spec fn view(&self) -> ScheduleWindowView {
        ScheduleWindowView {
            zone: self.zone.0,
            start_minute: self.start_minute,
            end_minute: self.end_minute,
            target: self.target,
            recurrence: self.recurrence,
            label: self.label@,
        }
    }
}

pub open spec fn windows_view(s: Seq<ScheduleWindow>) -> Seq<ScheduleWindowView> {
    s.map_values(|w: ScheduleWindow| w@)
}

#[derive(Debug, Clone, Copy, PartialEq, Eq, Structural)]
pub enum SampleKind {
    Temperature,
    Humidity,
    Co2,
    Moisture,
    Ph,
    Ec,
    Flow,
    Light,
    Unknown(u8),
}

pub open spec fn sample_kind_of(code: u8) -> SampleKind {
    if code == 0 {
        SampleKind::Temperature
    } else if code == 1 {
        SampleKind::Humidity
    } else if code == 2 {
        SampleKind::Co2
    } else if code == 3 {
        SampleKind::Moisture
    } else if code == 4 {
        SampleKind::Ph
    } else if code == 5 {
        SampleKind::Ec
    } else if code == 6 {
        SampleKind::Flow
    } else if code == 7 {
        SampleKind::Light
    } else {
        SampleKind::Unknown(code)
    }
}

impl SampleKind {
    pub fn from_code(code: u8) -> (r: Self)
        ensures
            r == sample_kind_of(code),
    {
        match code {
            0 => Self::Temperature,
            1 => Self::Humidity,
            2 => Self::Co2,
            3 => Self::Moisture,
            4 => Self::Ph,
            5 => Self::Ec,
            6 => Self::Flow,
            7 => Self::Light,
            other => Self::Unknown(other),
        }
    }
}

#[derive(Debug, Clone)]
pub struct SampleRow {
    pub timestamp_delta: u32,
    pub values: Vec<i64>,
}

pub struct SampleRowView {
    pub timestamp_delta: u32,
    pub values: Seq<i64>,
}

impl View for SampleRow {
    type V = SampleRowView;

    open spec fn view(&self) -> SampleRowView {
        SampleRowView { timestamp_delta: self.timestamp_delta, values: self.values@ }
    }
}

pub open spec fn rows_view(s: Seq<SampleRow>) -> Seq<SampleRowView> {
    s.map_values(|r: SampleRow| r@)
}

#[derive(Debug, Clone)]
pub struct SamplePage {
    pub device: DeviceId,
    pub kind: SampleKind,
    pub base_timestamp: u64,
    pub scale: i16,
    pub rows: Vec<SampleRow>,
}

pub struct SamplePageView {
    pub device: u32,
    pub kind: SampleKind,
    pub base_timestamp: u64,
    pub scale: i16,
    pub rows: Seq<SampleRowView>,
}

impl View for SamplePage {
    type V = SamplePageView;

    open spec fn view(&self) -> SamplePageView {
        SamplePageView {
            device: self.device.0,
            kind: self.kind,
            base_timestamp: self.base_timestamp,
            scale: self.scale,
            rows: rows_view(self.rows@),
        }
    }
}

pub open spec fn pages_view(s: Seq<SamplePage>) -> Seq<SamplePageView> {
    s.map_values(|p: SamplePage| p@)
}

#[derive(Debug, Clone, Copy, PartialEq, Eq, Structural)]
pub enum JournalKind {
    Boot,
    Alarm,
    OperatorAck,
    ConfigChange,
    RuleAction,
    SampleGap,
    Unknown(u8),
}

pub open spec fn journal_kind_of(code: u8) -> JournalKind {
    if code == 0 {
        JournalKind::Boot
    } else if code == 1 {
        JournalKind::Alarm
    } else if code == 2 {
        JournalKind::OperatorAck
    } else if code == 3 {
        JournalKind::ConfigChange
    } else if code == 4 {
        JournalKind::RuleAction
    } else if code == 5 {
        JournalKind::SampleGap
    } else {
        JournalKind::Unknown(code)
    }
}

impl JournalKind {
    pub fn from_code(code: u8) -> (r: Self)
        ensures
            r == journal_kind_of(code),
    {
        match code {
            0 => Self::Boot,
            1 => Self::Alarm,
            2 => Self::OperatorAck,
            3 => Self::ConfigChange,
            4 => Self::RuleAction,
            5 => Self::SampleGap,
            other => Self::Unknown(other),
        }
    }
}

#[derive(Debug, Clone)]
pub struct JournalEntry {
    pub timestamp: u64,
    pub kind: JournalKind,
    pub device: DeviceId,
    pub severity: u8,
    pub message: String,
    pub payload: Vec<u8>,
}

pub struct JournalEntryView {
    pub timestamp: u64,
    pub kind: JournalKind,
    pub device: u32,
    pub severity: u8,
    pub message: Seq<char>,
    pub payload: Seq<u8>,
}

impl View for JournalEntry {
    type V = JournalEntryView;

    open spec fn view(&self) -> JournalEntryView {
        JournalEntryView {
            timestamp: self.timestamp,
            kind: self.kind,
            device: self.device.0,
            severity: self.severity,
            message: self.message@,
            payload: self.payload@,
        }
    }
}

pub open spec fn journals_view(s: Seq<JournalEntry>) -> Seq<JournalEntryView> {
    s.map_values(|e: JournalEntry| e@)
}

#[derive(Debug, Clone)]
pub struct RuleSet {
    pub name: String,
    pub bytecode: Vec<u8>,
    pub labels: Vec<String>,
}

pub struct RuleSetView {
    pub name: Seq<char>,
    pub bytecode: Seq<u8>,
    pub labels: Seq<Seq<char>>,
}

impl View for RuleSet {
    type V = RuleSetView;

    open spec fn view(&self) -> RuleSetView {
        RuleSetView { name: self.name@, bytecode: self.bytecode@, labels: strings_view(self.labels@) }
    }
}

pub open spec fn rule_sets_view(s: Seq<RuleSet>) -> Seq<RuleSetView> {
    s.map_values(|r: RuleSet| r@)
}

#[derive(Debug, Clone)]
pub struct FacilityManifest {
    pub facility_id: String,
    pub site_name: String,
    pub created_at: u64,
    pub devices: Vec<Device>,
    pub properties: TextMap<String>,
}

pub struct FacilityManifestView {
    pub facility_id: Seq<char>,
    pub site_name: Seq<char>,
    pub created_at: u64,
    pub devices: Seq<DeviceView>,
    pub properties: Seq<(Seq<char>, Seq<char>)>,
}

impl View for FacilityManifest {
    type V = FacilityManifestView;

    open spec fn view(&self) -> FacilityManifestView {
        FacilityManifestView {
            facility_id: self.facility_id@,
            site_name: self.site_name@,
            created_at: self.created_at,
            devices: devices_view(self.devices@),
            properties: self.properties@,
        }
    }
}

impl FacilityManifest {
    pub fn empty() -> (r: Self)
        ensures
            r@.facility_id.len() == 0,
            r@.site_name.len() == 0,
            r@.created_at == 0,
            r@.devices.len() == 0,
            r@.properties.len() == 0,
    {
        Self {
            facility_id: String::new(),
            site_name: String::new(),
            created_at: 0,
            devices: Vec::new(),
            properties: TextMap::new(),
        }
    }
}

#[derive(Debug, Clone)]
pub struct CanopyArchive {
    pub version: u8,
    pub flags: u16,
    pub manifest: FacilityManifest,
    pub links: Vec<Link>,
    pub windows: Vec<ScheduleWindow>,
    pub pages: Vec<SamplePage>,
    pub journals: Vec<JournalEntry>,
    pub rules: Vec<RuleSet>,
    pub notes: Vec<String>,
}

pub struct CanopyArchiveView {
    pub version: u8,
    pub flags: u16,
    pub manifest: FacilityManifestView,
    pub links: Seq<Link>,
    pub windows: Seq<ScheduleWindowView>,
    pub pages: Seq<SamplePageView>,
    pub journals: Seq<JournalEntryView>,
    pub rules: Seq<RuleSetView>,
    pub notes: Seq<Seq<char>>,
}

impl View for CanopyArchive {
    type V = CanopyArchiveView;

    open spec fn view(&self) -> CanopyArchiveView {
        CanopyArchiveView {
            version: self.version,
            flags: self.flags,
            manifest: self.manifest@,
            links: self.links@,
            windows: windows_view(self.windows@),
            pages: pages_view(self.pages@),
            journals: journals_view(self.journals@),
            rules: rule_sets_view(self.rules@),
            notes: strings_view(self.notes@),
        }
    }
}

/// The empty archive of a given version.
pub open spec fn empty_archive_view(version: u8) -> CanopyArchiveView {
    CanopyArchiveView {
        version,
        flags: 0,
        manifest: FacilityManifestView {
            facility_id: Seq::empty(),
            site_name: Seq::empty(),
            created_at: 0,
            devices: Seq::empty(),
            properties: Seq::empty(),
        },
        links: Seq::empty(),
        windows: Seq::empty(),
        pages: Seq::empty(),
        journals: Seq::empty(),
        rules: Seq::empty(),
        notes: Seq::empty(),
    }
}

/// Index of the first device with identifier `id`.
pub open spec fn first_device_with(s: Seq<DeviceView>, id: u32) -> Option<int>
    decreases s.len(),
{
    if s.len() == 0 {
        None
    } else if s.last().id == id {
        match first_device_with(s.drop_last(), id) {
            Some(i) => Some(i),
            None => Some(s.len() - 1),
        }
    } else {
        first_device_with(s.drop_last(), id)
    }
}

/// The archive obtained by folding `other` into `a`: the manifest is taken from
/// `other` when `a` has no facility yet, otherwise the devices and properties are
/// added; every list is extended.
pub open spec fn merge_view(a: CanopyArchiveView, other: CanopyArchiveView) -> CanopyArchiveView {
    CanopyArchiveView {
        manifest: if a.manifest.facility_id.len() == 0 {
            other.manifest
        } else {
            FacilityManifestView {
                devices: a.manifest.devices + other.manifest.devices,
                properties: crate::text_map::insert_all(a.manifest.properties, other.manifest.properties),
                ..a.manifest
            }
        },
        links: a.links + other.links,
        windows: a.windows + other.windows,
        pages: a.pages + other.pages,
        journals: a.journals + other.journals,
        rules: a.rules + other.rules,
        notes: a.notes + other.notes,
        ..a
    }
}

impl CanopyArchive {
    pub fn new(version: u8) -> (r: Self)
        ensures
            r@ == empty_archive_view(version),
    {
        let r = Self {
            version,
            flags: 0,
            manifest: FacilityManifest::empty(),
            links: Vec::new(),
            windows: Vec::new(),
            pages: Vec::new(),
            journals: Vec::new(),
            rules: Vec::new(),
            notes: Vec::new(),
        };
        assert(r@.manifest.facility_id =~= Seq::empty());
        assert(r@.manifest.site_name =~= Seq::empty());
        assert(r@.manifest.devices =~= Seq::empty());
        assert(r@.manifest.properties =~= Seq::empty());
        assert(r@.windows =~= Seq::empty());
        assert(r@.pages =~= Seq::empty());
        assert(r@.journals =~= Seq::empty());
        assert(r@.rules =~= Seq::empty());
        assert(r@.notes =~= Seq::empty());
        r
    }

    pub fn devices(&self) -> (r: &[Device])
        ensures
            r@ == self.manifest.devices@,
    {
        self.manifest.devices.as_slice()
    }

    pub fn device_by_id(&self, id: DeviceId) -> (r: Option<&Device>)
        ensures
            match first_device_with(self@.manifest.devices, id.0) {
                Some(i) => r matches Some(d) && d@ == self@.manifest.devices[i],
                None => r is None,
            },
    {
        let devices = &self.manifest.devices;
        let mut i: usize = 0;
        while i < devices.len()
            invariant
                i <= devices@.len(),
                devices@ == self.manifest.devices@,
                first_device_with(devices_view(devices@).take(i as int), id.0) is None,
            decreases devices@.len() - i,
        {
            proof {
                assert(devices_view(devices@).take(i + 1).drop_last() =~= devices_view(devices@).take(i as int));
            }
            if devices[i].id.0 == id.0 {
                proof {
                    lemma_first_device_prefix(devices_view(devices@), i as int + 1, id.0);
                    assert(devices_view(devices@)[i as int] == devices@[i as int]@);
                    assert(self@.manifest.devices == devices_view(devices@));
                    assert(first_device_with(self@.manifest.devices, id.0) == Some(i as int));
                }
                return Some(&devices[i]);
            }
            i = i + 1;
        }
        proof {
            assert(devices_view(devices@).take(i as int) =~= devices_view(devices@));
        }
        None
    }

    /// Folds `other` into this archive.
    pub fn merge(&mut self, other: CanopyArchive)
        ensures
            final(self)@ == merge_view(old(self)@, other@),
    {
        let mut other = other;
        let ghost a = self@;
        let ghost o = other@;
        if self.manifest.facility_id.as_str().is_empty() {
            self.manifest = other.manifest;
        } else {
            self.manifest.devices.append(&mut other.manifest.devices);
            self.manifest.properties.insert_all(other.manifest.properties);
        }
        self.links.append(&mut other.links);
        self.windows.append(&mut other.windows);
        self.pages.append(&mut other.pages);
        self.journals.append(&mut other.journals);
        self.rules.append(&mut other.rules);
        self.notes.append(&mut other.notes);
        proof {
            if a.manifest.facility_id.len() != 0 {
                assert(self@.manifest.devices =~= merge_view(a, o).manifest.devices);
            }
            assert(self@.manifest == merge_view(a, o).manifest);
            assert(self@.windows =~= merge_view(a, o).windows);
            assert(self@.pages =~= merge_view(a, o).pages);
            assert(self@.journals =~= merge_view(a, o).journals);
            assert(self@.rules =~= merge_view(a, o).rules);
            assert(self@.notes =~= merge_view(a, o).notes);
        }
    }
}

/// When the device at `n - 1` has identifier `id` and none before it does, it is the first.
proof fn lemma_first_device_prefix(s: Seq<DeviceView>, n: int, id: u32)
    requires
        0 < n <= s.len(),
        s[n - 1].id == id,
        first_device_with(s.take(n - 1), id) is None,
    ensures
        first_device_with(s, id) == Some(n - 1),
    decreases s.len(),
{
    if s.len() > n {
        assert(s.drop_last().take(n - 1) =~= s.take(n - 1));
        lemma_first_device_prefix(s.drop_last(), n, id);
    } else {
        assert(s.drop_last() =~= s.take(n - 1));
    }
}

/// Merging an empty archive into an archive that names its facility changes nothing.
pub proof fn law_merge_empty(a: CanopyArchiveView, version: u8)
    requires
        a.manifest.facility_id.len() > 0,
    ensures
        merge_view(a, empty_archive_view(version)) == a,
{
    let m = merge_view(a, empty_archive_view(version));
    assert(m.manifest.devices =~= a.manifest.devices);
    assert(m.links =~= a.links);
    assert(m.windows =~= a.windows);
    assert(m.pages =~= a.pages);
    assert(m.journals =~= a.journals);
    assert(m.rules =~= a.rules);
    assert(m.notes =~= a.notes);
}

/// Merging an archive into a fresh one gives its content, under the fresh archive's
/// version and flags.
pub proof fn law_merge_into_fresh(version: u8, other: CanopyArchiveView)
    ensures
        merge_view(empty_archive_view(version), other) == (CanopyArchiveView { version, flags: 0, ..other }),
{
    let m = merge_view(empty_archive_view(version), other);
    assert(m.links =~= other.links);
    assert(m.windows =~= other.windows);
    assert(m.pages =~= other.pages);
    assert(m.journals =~= other.journals);
    assert(m.rules =~= other.rules);
    assert(m.notes =~= other.notes);
}

/// A device class survives its wire code, unless it is an unknown class carrying the code
/// of a known one.
pub proof fn law_device_class_code(class: DeviceClass)
    requires
        !(class matches DeviceClass::Unknown(c) && c < 7),
    ensures
        device_class_of(device_class_code(class)) == class,
{
}

} // verus!
