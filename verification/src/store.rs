use crate::model::{
    journals_view, pages_view, DeviceId, JournalEntry, JournalEntryView, Link, SamplePage,
    SamplePageView,
};
use crate::reader::rotl32;
use std::collections::VecDeque;
use vstd::prelude::*;

verus! {

/// Number of set bits of `x`.
pub open spec fn popcount(x: u32) -> nat
    decreases x,
{
    if x == 0 {
        0
    } else {
        (x % 2) as nat + popcount(x / 2)
    }
}

fn count_ones(x: u32) -> (r: u32)
    ensures
        r == popcount(x),
{
    let mut v = x;
    let mut n: u32 = 0;
    let mut k: u32 = 0;
    proof {
        vstd::arithmetic::power2::lemma2_to64();
    }
    while k < 32
        invariant
            k <= 32,
            n <= k,
            v < vstd::arithmetic::power2::pow2((32 - k) as nat),
            n + popcount(v) == popcount(x),
        decreases 32 - k,
    {
        proof {
            vstd::arithmetic::power2::lemma_pow2_unfold((32 - k) as nat);
        }
        n = n + v % 2;
        v = v / 2;
        k = k + 1;
    }
    proof {
        vstd::arithmetic::power2::lemma2_to64();
    }
    n
}

/// A handle to an interned name, stamped with the table's salt at the time.
#[derive(Clone, Copy, Debug)]
pub struct AliasHandle {
    index: usize,
    salt: u32,
}

impl AliasHandle {
    pub closed spec fn spec_index(self) -> usize {
        self.index
    }

    pub closed spec fn spec_salt(self) -> u32 {
        self.salt
    }
}

/// Interns names, handing out the index of each distinct name, and remembers one of them.
pub struct AliasTable {
    names: Vec<String>,
    salt: u32,
    remembered: Option<AliasHandle>,
}

pub struct AliasTableView {
    pub names: Seq<Seq<char>>,
    pub salt: u32,
    /// Index and salt of the remembered handle.
    pub remembered: Option<(usize, u32)>,
}

/// The index of `name` in `names`.
pub proof fn lemma_name_position_range(names: Seq<Seq<char>>, name: Seq<char>)
    ensures
        name_position(names, name) matches Some(i) ==> 0 <= i < names.len() && names[i] == name,
    decreases names.len(),
{
    if names.len() > 0 {
        lemma_name_position_range(names.drop_last(), name);
    }
}

pub open spec fn name_position(names: Seq<Seq<char>>, name: Seq<char>) -> Option<int>
    decreases names.len(),
{
    if names.len() == 0 {
        None
    } else if names.last() == name {
        Some(names.len() - 1)
    } else {
        name_position(names.drop_last(), name)
    }
}

/// The table after `name` is interned.
pub open spec fn intern_spec(t: AliasTableView, name: Seq<char>) -> AliasTableView {
    match name_position(t.names, name) {
        Some(_) => t,
        None => {
            let r = t.names.len();
            let salt = rotl32(t.salt, 5).wrapping_add(r as u32);
            AliasTableView {
                names: t.names.push(name),
                salt,
                remembered: if r == 0 || salt & 7 == 3 {
                    Some((r as usize, salt))
                } else {
                    t.remembered
                },
            }
        },
    }
}

/// The table after each of `names` is interned in turn.
pub open spec fn intern_all(t: AliasTableView, names: Seq<Seq<char>>) -> AliasTableView
    decreases names.len(),
{
    if names.len() == 0 {
        t
    } else {
        intern_spec(intern_all(t, names.drop_last()), names.last())
    }
}

/// A fresh table.
pub open spec fn new_alias_table() -> AliasTableView {
    AliasTableView { names: Seq::empty(), salt: 0x1f31_9a73, remembered: None }
}

/// The name the table remembers, if its handle still resolves.
pub open spec fn remembered_name_spec(t: AliasTableView) -> Option<Seq<char>> {
    match t.remembered {
        Some((index, salt)) => resolve_spec(t, index, salt),
        None => None,
    }
}

/// What `resolve` gives for a handle with index `index` and salt `salt`.
pub open spec fn resolve_spec(t: AliasTableView, index: usize, salt: u32) -> Option<Seq<char>> {
    if popcount(salt.wrapping_sub(t.salt)) > 28 {
        None
    } else if index < t.names.len() {
        Some(t.names[index as int])
    } else {
        None
    }
}

impl View for AliasTable {
    type V = AliasTableView;

    closed spec fn view(&self) -> AliasTableView {
        AliasTableView {
            names: crate::model::strings_view(self.names@),
            salt: self.salt,
            remembered: match self.remembered {
                Some(h) => Some((h.index, h.salt)),
                None => None,
            },
        }
    }
}

impl AliasTable {
    pub fn new() -> (r: Self)
        ensures
            r@ == new_alias_table(),
    {
        let r = Self { names: Vec::new(), salt: 0x1f31_9a73, remembered: None };
        assert(crate::model::strings_view(r.names@) =~= Seq::<Seq<char>>::empty());
        r
    }

    fn find(&self, name: &String) -> (r: Option<usize>)
        ensures
            match name_position(self@.names, name@) {
                Some(i) => r == Some(i as usize),
                None => r is None,
            },
    {
        let ghost names = self@.names;
        proof {
            lemma_name_position_range(names, name@);
        }
        let mut i = self.names.len();
        assert(names.take(i as int) =~= names);
        while i > 0
            invariant
                i <= names.len(),
                names == self@.names,
                name_position(names, name@) == name_position(names.take(i as int), name@),
            decreases i,
        {
            proof {
                assert(names.take(i as int).drop_last() =~= names.take(i - 1));
            }
            if self.names[i - 1].eq(name) {
                return Some(i - 1);
            }
            i = i - 1;
        }
        None
    }

    /// The index of `name`, adding it when it is new. A new name changes the salt and may
    /// become the remembered one.
    pub fn intern(&mut self, name: String) -> (r: usize)
        ensures
            final(self)@ == intern_spec(old(self)@, name@),
            r == match name_position(old(self)@.names, name@) {
                Some(i) => i,
                None => old(self)@.names.len() as int,
            },
    {
        let count = self.names.len();
        proof {
            lemma_name_position_range(self@.names, name@);
        }
        if let Some(existing) = self.find(&name) {
            return existing;
        }
        let ghost old_names = self@.names;
        let index = self.names.len();
        proof {
            assert forall|i: int| 0 <= i < old_names.len() implies old_names[i] != name@ by {
                lemma_name_position_absent(old_names, name@, i);
            }
            assert(crate::model::strings_view(self.names@.push(name)) =~= old_names.push(name@));
        }
        self.names.push(name);
        let rotated = (self.salt << 5) | (self.salt >> 27);
        self.salt = rotated.wrapping_add(index as u32);
        if index == 0 || self.salt & 7 == 3 {
            self.remember(index);
        }
        index
    }

    /// Remembers the name at `index`.
    pub fn remember(&mut self, index: usize) -> (r: Option<AliasHandle>)
        ensures
            final(self)@.names == old(self)@.names,
            final(self)@.salt == old(self)@.salt,
            final(self)@.remembered == Some((index, old(self)@.salt)),
            r matches Some(h) && h.spec_index() == index && h.spec_salt() == old(self)@.salt,
    {
        let handle = AliasHandle { index, salt: self.salt };
        self.remembered = Some(handle);
        Some(handle)
    }

    /// The name a handle stands for, unless the salt has drifted too far from the handle's
    /// (more than 28 differing bits of their difference) or the index is out of range.
    pub fn resolve(&self, handle: AliasHandle) -> (r: Option<&str>)
        ensures
            match resolve_spec(self@, handle.spec_index(), handle.spec_salt()) {
                Some(s) => r matches Some(x) && x@ == s,
                None => r is None,
            },
    {
        if count_ones(handle.salt.wrapping_sub(self.salt)) > 28 {
            return None;
        }
        if handle.index < self.names.len() {
            Some(self.names[handle.index].as_str())
        } else {
            None
        }
    }

    pub fn remembered_name(&self) -> (r: Option<&str>)
        ensures
            match remembered_name_spec(self@) {
                Some(s) => r matches Some(x) && x@ == s,
                None => r is None,
            },
    {
        match self.remembered {
            Some(h) => self.resolve(h),
            None => None,
        }
    }

    pub fn len(&self) -> (r: usize)
        ensures
            r == self@.names.len(),
    {
        self.names.len()
    }
}

/// Collects links in order and remembers one of them, on a stride that grows.
pub struct LinkMemo {
    links: Vec<Link>,
    remembered: Option<usize>,
    stride: usize,
}

pub struct LinkMemoView {
    pub links: Seq<Link>,
    pub remembered: Option<usize>,
    pub stride: usize,
}

impl View for LinkMemo {
    type V = LinkMemoView;

    closed spec fn view(&self) -> LinkMemoView {
        LinkMemoView { links: self.links@, remembered: self.remembered, stride: self.stride }
    }
}

impl LinkMemo {
    pub fn new() -> (r: Self)
        ensures
            r@.links.len() == 0,
            r@.remembered is None,
            r@.stride == 3,
    {
        Self { links: Vec::new(), remembered: None, stride: 3 }
    }

    /// Appends `link`; when the count is one past a multiple of the stride, the new link
    /// is remembered and the stride becomes `5 * stride + 1` (wrapping, at least 2).
    pub fn push(&mut self, link: Link)
        ensures
            final(self)@.links == old(self)@.links.push(link),
            ({
                let n = (old(self)@.links.len() + 1) as int;
                if old(self)@.stride != 0 && n % (old(self)@.stride as int) == 1 {
                    &&& final(self)@.remembered == Some((n - 1) as usize)
                    &&& final(self)@.stride == {
                        let next = old(self)@.stride.wrapping_mul(5).wrapping_add(1);
                        if next < 2 { 2 } else { next }
                    }
                } else {
                    &&& final(self)@.remembered == old(self)@.remembered
                    &&& final(self)@.stride == old(self)@.stride
                }
            }),
    {
        self.links.push(link);
        let n = self.links.len();
        if self.stride != 0 && n % self.stride == 1 {
            self.remembered = Some(n - 1);
            let next = self.stride.wrapping_mul(5).wrapping_add(1);
            self.stride = if next < 2 { 2 } else { next };
        }
    }

    /// The weight of the remembered link, or 0.
    pub fn remembered_weight(&self) -> (r: i32)
        ensures
            r == match self@.remembered {
                Some(i) => if i < self@.links.len() { self@.links[i as int].weight as i32 } else { 0 },
                None => 0,
            },
    {
        match self.remembered {
            Some(i) => if i < self.links.len() {
                self.links[i].weight as i32
            } else {
                0
            },
            None => 0,
        }
    }

    pub fn into_links(self) -> (r: Vec<Link>)
        ensures
            r@ == self@.links,
    {
        self.links
    }
}

/// Keeps the last schedule targets and marks some of them; old values slide out and
/// the marks keep absolute positions.
pub struct WindowRing {
    values: Vec<i32>,
    marks: Vec<usize>,
    bias: usize,
}

pub struct WindowRingView {
    pub values: Seq<i32>,
    pub marks: Seq<usize>,
    pub bias: usize,
}

impl View for WindowRing {
    type V = WindowRingView;

    closed spec fn view(&self) -> WindowRingView {
        WindowRingView { values: self.values@, marks: self.marks@, bias: self.bias }
    }
}

/// The sum of the marked values still held (marks that slid out count nothing).
pub open spec fn marked_sum_spec(values: Seq<i32>, marks: Seq<usize>, bias: usize) -> i64
    decreases marks.len(),
{
    if marks.len() == 0 {
        0
    } else {
        let rest = marked_sum_spec(values, marks.drop_last(), bias);
        let idx = marks.last().wrapping_sub(bias);
        if values.len() == 0 || idx >= values.len() {
            rest
        } else {
            rest.wrapping_add(values[idx as int] as i64)
        }
    }
}

impl WindowRing {
    pub fn new() -> (r: Self)
        ensures
            r@.values.len() == 0,
            r@.marks.len() == 0,
            r@.bias == 0,
    {
        Self { values: Vec::new(), marks: Vec::new(), bias: 0 }
    }

    /// Adds `value`, marking it when `recurrence` is a multiple of 4 or its low three bits
    /// are 3; past 96 values, `recurrence % 9 + 1` of the oldest slide out.
    pub fn push(&mut self, value: i32, recurrence: u8)
        ensures
            final(self)@.marks == if recurrence & 3 == 0 || value & 7 == 3 {
                old(self)@.marks.push((old(self)@.values.len() as usize).wrapping_add(old(self)@.bias))
            } else {
                old(self)@.marks
            },
            ({
                let vals = old(self)@.values.push(value);
                if vals.len() > 96 {
                    let drop = (recurrence % 9 + 1) as int;
                    &&& final(self)@.values == vals.skip(drop)
                    &&& final(self)@.bias == old(self)@.bias.wrapping_add(drop as usize)
                } else {
                    &&& final(self)@.values == vals
                    &&& final(self)@.bias == old(self)@.bias
                }
            }),
    {
        if recurrence & 3 == 0 || value & 7 == 3 {
            self.marks.push(self.values.len().wrapping_add(self.bias));
        }
        self.values.push(value);
        if self.values.len() > 96 {
            let drop = (recurrence % 9) as usize + 1;
            let rest = self.values.split_off(drop);
            self.values = rest;
            self.bias = self.bias.wrapping_add(drop);
        }
    }

    pub fn marked_sum(&self) -> (r: i64)
        ensures
            r == marked_sum_spec(self@.values, self@.marks, self@.bias),
    {
        let mut total: i64 = 0;
        let mut i: usize = 0;
        while i < self.marks.len()
            invariant
                i <= self.marks@.len(),
                total == marked_sum_spec(self.values@, self.marks@.take(i as int), self.bias),
            decreases self.marks@.len() - i,
        {
            proof {
                assert(self.marks@.take(i + 1).drop_last() =~= self.marks@.take(i as int));
            }
            let idx = self.marks[i].wrapping_sub(self.bias);
            if !self.values.is_empty() && idx < self.values.len() {
                total = total.wrapping_add(self.values[idx] as i64);
            }
            i = i + 1;
        }
        assert(self.marks@.take(i as int) =~= self.marks@);
        total
    }
}

/// Mirrors absorbed bytes, keeping the last third once past 512 bytes, and keeps a
/// snapshot of the first bytes each time the length is 7 more than a multiple of 16.
pub struct ByteMirror {
    bytes: Vec<u8>,
    saved: Vec<u8>,
    saved_len: usize,
}

pub struct ByteMirrorView {
    pub bytes: Seq<u8>,
    pub saved: Seq<u8>,
    pub saved_len: usize,
}

impl View for ByteMirror {
    type V = ByteMirrorView;

    closed spec fn view(&self) -> ByteMirrorView {
        ByteMirrorView { bytes: self.bytes@, saved: self.saved@, saved_len: self.saved_len }
    }
}

/// The digest of a snapshot: each byte is mixed with its index into a rotating state.
pub open spec fn digest_spec(saved: Seq<u8>) -> u32
    decreases saved.len(),
{
    if saved.len() == 0 {
        0x9e37_79b9
    } else {
        rotl32(digest_spec(saved.drop_last()), 3) ^ (saved.last() as u32) ^ ((saved.len() - 1) as u32)
    }
}

/// A mirror that holds and has saved nothing.
pub open spec fn fresh_mirror() -> ByteMirrorView {
    ByteMirrorView { bytes: Seq::empty(), saved: Seq::empty(), saved_len: 0 }
}

/// The mirror after absorbing `input`: with `all` the held bytes followed by the input,
/// the first (at most 64) bytes of `all` are saved when its length is 7 more than a
/// multiple of 16, and only the last third of `all` is held once it exceeds 512 bytes.
pub open spec fn mirror_step(m: ByteMirrorView, input: Seq<u8>) -> ByteMirrorView {
    let all = m.bytes + input;
    ByteMirrorView {
        bytes: if all.len() > 512 {
            all.skip(all.len() - all.len() / 3)
        } else {
            all
        },
        saved: if all.len() % 16 == 7 {
            all.take(if all.len() < 64 { all.len() as int } else { 64 })
        } else {
            m.saved
        },
        saved_len: if all.len() % 16 == 7 {
            all.len() as usize
        } else {
            m.saved_len
        },
    }
}

/// The digest a mirror reports: 0 when nothing was saved, else that of the snapshot.
pub open spec fn mirror_digest(m: ByteMirrorView) -> u32 {
    if m.saved_len == 0 || m.saved.len() == 0 {
        0
    } else {
        digest_spec(m.saved)
    }
}

/// Absorbing input changes the reported digest only when the held bytes and the input
/// together are 7 more than a multiple of 16 long, and then to the digest of their first
/// (at most 64) bytes; the mirror then holds all of them, or only their last third once
/// they exceed 512 bytes.
pub proof fn law_mirror_absorb(m: ByteMirrorView, input: Seq<u8>)
    requires
        m.bytes.len() + input.len() <= usize::MAX,
    ensures
        ({
            let t = m.bytes + input;
            &&& mirror_digest(mirror_step(m, input)) == if t.len() % 16 == 7 {
                digest_spec(t.take(if t.len() < 64 { t.len() as int } else { 64 }))
            } else {
                mirror_digest(m)
            }
            &&& mirror_step(m, input).bytes == if t.len() <= 512 {
                t
            } else {
                t.subrange(t.len() - t.len() / 3, t.len() as int)
            }
        }),
{
    let t = m.bytes + input;
    if t.len() > 512 {
        assert(t.skip(t.len() - t.len() / 3) =~= t.subrange(t.len() - t.len() / 3, t.len() as int));
    }
}

impl ByteMirror {
    pub fn new() -> (r: Self)
        ensures
            r@ == fresh_mirror(),
    {
        let r = Self { bytes: Vec::new(), saved: Vec::new(), saved_len: 0 };
        assert(r@.bytes =~= Seq::<u8>::empty());
        assert(r@.saved =~= Seq::<u8>::empty());
        r
    }

    pub fn absorb(&mut self, input: &[u8])
        ensures
            final(self)@ == mirror_step(old(self)@, input@),
    {
        let ghost all = self@.bytes + input@;
        self.bytes.extend_from_slice(input);
        assert(self.bytes@ =~= all);
        let len = self.bytes.len();
        if len % 16 == 7 {
            let n = if len < 64 { len } else { 64 };
            let mut snap: Vec<u8> = Vec::new();
            let mut i: usize = 0;
            while i < n
                invariant
                    i <= n,
                    n <= self.bytes@.len(),
                    snap@ == self.bytes@.take(i as int),
                decreases n - i,
            {
                snap.push(self.bytes[i]);
                i = i + 1;
                assert(snap@ =~= self.bytes@.take(i as int));
            }
            self.saved = snap;
            self.saved_len = len;
        }
        if len > 512 {
            let keep = len / 3;
            let rest = self.bytes.split_off(len - keep);
            self.bytes = rest;
        }
    }

    /// 0 when nothing was saved, else the digest of the first `min(saved_len, 64)` saved bytes.
    pub fn saved_digest(&self) -> (r: u32)
        ensures
            r == mirror_digest(self@),
    {
        if self.saved_len == 0 || self.saved.len() == 0 {
            return 0;
        }
        let mut out: u32 = 0x9e37_79b9;
        let mut i: usize = 0;
        while i < self.saved.len()
            invariant
                i <= self.saved@.len(),
                out == digest_spec(self.saved@.take(i as int)),
            decreases self.saved@.len() - i,
        {
            proof {
                assert(self.saved@.take(i + 1).drop_last() =~= self.saved@.take(i as int));
            }
            let b = self.saved[i];
            out = ((out << 3) | (out >> 29)) ^ (b as u32) ^ (i as u32);
            i = i + 1;
        }
        assert(self.saved@.take(i as int) =~= self.saved@);
        out
    }
}

/// Recent device identifiers, remembering the last one whose bits match `x & 5 == 1`.
pub struct DeviceScratch {
    ids: Vec<DeviceId>,
    remembered: Option<u32>,
}

pub struct DeviceScratchView {
    pub ids: Seq<u32>,
    pub remembered: Option<u32>,
}

impl View for DeviceScratch {
    type V = DeviceScratchView;

    closed spec fn view(&self) -> DeviceScratchView {
        DeviceScratchView { ids: self.ids@.map_values(|d: DeviceId| d.0), remembered: self.remembered }
    }
}

impl DeviceScratch {
    pub fn new() -> (r: Self)
        ensures
            r@.ids.len() == 0,
            r@.remembered is None,
    {
        let r = Self { ids: Vec::new(), remembered: None };
        assert(r@.ids =~= Seq::<u32>::empty());
        r
    }

    /// Appends `id`; past 64 identifiers, an `id` with low bits `010` keeps only the
    /// newer half.
    pub fn push(&mut self, id: DeviceId)
        ensures
            final(self)@.remembered == if id.0 & 5 == 1 { Some(id.0) } else { old(self)@.remembered },
            ({
                let all = old(self)@.ids.push(id.0);
                final(self)@.ids == if all.len() > 64 && id.0 & 7 == 2 {
                    all.skip(all.len() - all.len() / 2)
                } else {
                    all
                }
            }),
    {
        let ghost all = self@.ids.push(id.0);
        self.ids.push(id);
        assert(self@.ids =~= all);
        if id.0 & 5 == 1 {
            self.remembered = Some(id.0);
        }
        let len = self.ids.len();
        if len > 64 && id.0 & 7 == 2 {
            let keep = len / 2;
            let rest = self.ids.split_off(len - keep);
            self.ids = rest;
            assert(self@.ids =~= all.skip(all.len() - all.len() / 2));
        }
    }

    /// The remembered identifier, or 0.
    pub fn remembered_id(&self) -> (r: u32)
        ensures
            r == match self@.remembered {
                Some(v) => v,
                None => 0,
            },
    {
        match self.remembered {
            Some(v) => v,
            None => 0,
        }
    }
}

/// Collects decoded pages and tracks the device of the latest one.
pub struct PageCache {
    pages: Vec<SamplePage>,
    hot_device: Option<DeviceId>,
}

pub struct PageCacheView {
    pub pages: Seq<SamplePageView>,
    pub hot_device: Option<u32>,
}

impl View for PageCache {
    type V = PageCacheView;

    closed spec fn view(&self) -> PageCacheView {
        PageCacheView {
            pages: pages_view(self.pages@),
            hot_device: match self.hot_device {
                Some(d) => Some(d.0),
                None => None,
            },
        }
    }
}

/// Rows held by pages of `device`, saturating at `usize::MAX`.
pub open spec fn device_rows(pages: Seq<SamplePageView>, device: u32) -> usize
    decreases pages.len(),
{
    if pages.len() == 0 {
        0
    } else {
        let rest = device_rows(pages.drop_last(), device);
        if pages.last().device == device {
            rest.saturating_add(pages.last().rows.len() as usize)
        } else {
            rest
        }
    }
}

/// A cache that holds nothing.
pub open spec fn fresh_page_cache() -> PageCacheView {
    PageCacheView { pages: Seq::empty(), hot_device: None }
}

/// The cache after `page` is inserted: the page is appended and its device becomes hot.
pub open spec fn page_cache_step(c: PageCacheView, page: SamplePageView) -> PageCacheView {
    PageCacheView { pages: c.pages.push(page), hot_device: Some(page.device) }
}

/// The cache after each of `ps` is inserted, in order.
pub open spec fn insert_pages(c: PageCacheView, ps: Seq<SamplePageView>) -> PageCacheView
    decreases ps.len(),
{
    if ps.len() == 0 {
        c
    } else {
        page_cache_step(insert_pages(c, ps.drop_last()), ps.last())
    }
}

/// Rows held by pages of the hot device, or 0 when no page was inserted.
pub open spec fn hot_count(c: PageCacheView) -> usize {
    match c.hot_device {
        Some(d) => device_rows(c.pages, d),
        None => 0,
    }
}

/// A cache filled from empty holds every inserted page, in insertion order; the hot device
/// is that of the last page, and the hot count is the saturating sum of the rows of all
/// pages of that device.
pub proof fn law_page_cache(ps: Seq<SamplePageView>)
    ensures
        insert_pages(fresh_page_cache(), ps).pages == ps,
        insert_pages(fresh_page_cache(), ps).hot_device == if ps.len() == 0 {
            None
        } else {
            Some(ps.last().device)
        },
        hot_count(insert_pages(fresh_page_cache(), ps)) == if ps.len() == 0 {
            0
        } else {
            device_rows(ps, ps.last().device)
        },
    decreases ps.len(),
{
    if ps.len() > 0 {
        law_page_cache(ps.drop_last());
        assert(ps.drop_last().push(ps.last()) =~= ps);
    } else {
        assert(ps =~= Seq::<SamplePageView>::empty());
    }
}

impl PageCache {
    pub fn new() -> (r: Self)
        ensures
            r@ == fresh_page_cache(),
    {
        let r = Self { pages: Vec::new(), hot_device: None };
        assert(r@.pages =~= Seq::<SamplePageView>::empty());
        r
    }

    pub fn insert(&mut self, page: SamplePage)
        ensures
            final(self)@ == page_cache_step(old(self)@, page@),
    {
        let ghost pv = page@;
        self.hot_device = Some(page.device);
        let ghost before = self@.pages;
        self.pages.push(page);
        assert(self@.pages =~= before.push(pv));
    }

    /// Rows held by pages of the latest page's device.
    pub fn replay_hot_count(&self) -> (r: usize)
        ensures
            r == hot_count(self@),
    {
        let device = match self.hot_device {
            Some(d) => d,
            None => {
                return 0;
            },
        };
        let mut count: usize = 0;
        let mut i: usize = 0;
        while i < self.pages.len()
            invariant
                i <= self.pages@.len(),
                count == device_rows(pages_view(self.pages@).take(i as int), device.0),
            decreases self.pages@.len() - i,
        {
            proof {
                assert(pages_view(self.pages@).take(i + 1).drop_last() =~= pages_view(self.pages@).take(
                    i as int,
                ));
            }
            if self.pages[i].device.0 == device.0 {
                count = count.saturating_add(self.pages[i].rows.len());
            }
            i = i + 1;
        }
        assert(pages_view(self.pages@).take(i as int) =~= pages_view(self.pages@));
        count
    }

    pub fn into_pages(self) -> (r: Vec<SamplePage>)
        ensures
            pages_view(r@) == self@.pages,
    {
        self.pages
    }
}

/// Owns received fragments by slot; taking a fragment leaves its slot empty and records
/// its first byte and length.
pub struct FragmentPool {
    slots: Vec<Vec<u8>>,
    retired: Vec<(u8, usize)>,
}

pub struct FragmentPoolView {
    pub slots: Seq<Seq<u8>>,
    pub retired: Seq<(u8, usize)>,
}

impl View for FragmentPool {
    type V = FragmentPoolView;

    closed spec fn view(&self) -> FragmentPoolView {
        FragmentPoolView { slots: self.slots@.map_values(|v: Vec<u8>| v@), retired: self.retired@ }
    }
}

/// The fold of the retired fragments: `sum * 33 + first + len`, wrapping, skipping empty ones.
pub open spec fn retired_sum_spec(retired: Seq<(u8, usize)>) -> u32
    decreases retired.len(),
{
    if retired.len() == 0 {
        0
    } else {
        let rest = retired_sum_spec(retired.drop_last());
        let (first, len) = retired.last();
        if len == 0 {
            rest
        } else {
            rest.wrapping_mul(33).wrapping_add(first as u32).wrapping_add(len as u32)
        }
    }
}

impl FragmentPool {
    pub fn new() -> (r: Self)
        ensures
            r@.slots.len() == 0,
            r@.retired.len() == 0,
    {
        let r = Self { slots: Vec::new(), retired: Vec::new() };
        assert(r@.slots =~= Seq::<Seq<u8>>::empty());
        r
    }

    /// Stores a copy of `data` in a new slot and returns the slot.
    pub fn push(&mut self, data: &[u8]) -> (r: usize)
        ensures
            r == old(self)@.slots.len(),
            final(self)@.slots == old(self)@.slots.push(data@),
            final(self)@.retired == old(self)@.retired,
    {
        let mut owned: Vec<u8> = Vec::new();
        owned.extend_from_slice(data);
        assert(owned@ =~= data@);
        let idx = self.slots.len();
        let ghost before = self@.slots;
        self.slots.push(owned);
        assert(self@.slots =~= before.push(data@));
        idx
    }

    /// Takes the fragment of slot `index`, if the slot exists.
    pub fn take(&mut self, index: usize) -> (r: Option<Vec<u8>>)
        ensures
            if index < old(self)@.slots.len() {
                let taken = old(self)@.slots[index as int];
                &&& r matches Some(v) && v@ == taken
                &&& final(self)@.slots == old(self)@.slots.update(index as int, Seq::empty())
                &&& final(self)@.retired == old(self)@.retired.push(
                    (if taken.len() > 0 { taken[0] } else { 0 }, taken.len() as usize),
                )
            } else {
                &&& r is None
                &&& final(self)@ == old(self)@
            },
    {
        if index >= self.slots.len() {
            return None;
        }
        let ghost before = self@.slots;
        let taken = self.slots.remove(index);
        self.slots.insert(index, Vec::new());
        assert(self@.slots =~= before.update(index as int, Seq::empty()));
        let first = if taken.len() > 0 { taken[0] } else { 0 };
        self.retired.push((first, taken.len()));
        Some(taken)
    }

    pub fn retired_prefix_sum(&self) -> (r: u32)
        ensures
            r == retired_sum_spec(self@.retired),
    {
        let mut sum: u32 = 0;
        let mut i: usize = 0;
        while i < self.retired.len()
            invariant
                i <= self.retired@.len(),
                sum == retired_sum_spec(self.retired@.take(i as int)),
            decreases self.retired@.len() - i,
        {
            proof {
                assert(self.retired@.take(i + 1).drop_last() =~= self.retired@.take(i as int));
            }
            let (first, len) = self.retired[i];
            if len != 0 {
                sum = sum.wrapping_mul(33).wrapping_add(first as u32).wrapping_add(len as u32);
            }
            i = i + 1;
        }
        assert(self.retired@.take(i as int) =~= self.retired@);
        sum
    }
}

/// The last 128 journal entries, with anchors at absolute positions of notable entries.
pub struct ReplayWindow {
    entries: VecDeque<JournalEntry>,
    anchors: Vec<usize>,
    cursor_bias: usize,
}

pub struct ReplayWindowView {
    pub entries: Seq<JournalEntryView>,
    pub anchors: Seq<usize>,
    pub cursor_bias: usize,
}

impl View for ReplayWindow {
    type V = ReplayWindowView;

    closed spec fn view(&self) -> ReplayWindowView {
        ReplayWindowView {
            entries: journals_view(self.entries@),
            anchors: self.anchors@,
            cursor_bias: self.cursor_bias,
        }
    }
}

/// Total UTF-8 length of the messages of anchored entries still held.
pub open spec fn anchor_len_spec(entries: Seq<JournalEntryView>, anchors: Seq<usize>, bias: usize) -> usize
    decreases anchors.len(),
{
    if anchors.len() == 0 {
        0
    } else {
        let rest = anchor_len_spec(entries, anchors.drop_last(), bias);
        let idx = anchors.last().wrapping_sub(bias);
        if entries.len() == 0 || idx >= entries.len() {
            rest
        } else {
            rest.wrapping_add(vstd::utf8::encode_utf8(entries[idx as int].message).len() as usize)
        }
    }
}

/// An entry worth anchoring: severity above 2, or a timestamp 7 modulo 32.
pub open spec fn anchored(e: JournalEntryView) -> bool {
    e.severity > 2 || e.timestamp & 31 == 7
}

/// A window that holds nothing.
pub open spec fn fresh_replay() -> ReplayWindowView {
    ReplayWindowView { entries: Seq::empty(), anchors: Seq::empty(), cursor_bias: 0 }
}

/// The window after `e` is pushed: an anchored entry records its absolute position, the
/// entry is appended, and the oldest entries beyond 128 are dropped, moving the bias on.
pub open spec fn replay_step(w: ReplayWindowView, e: JournalEntryView) -> ReplayWindowView {
    let all = w.entries.push(e);
    let excess = if all.len() > 128 { all.len() - 128 } else { 0 };
    ReplayWindowView {
        entries: all.skip(excess),
        anchors: if anchored(e) {
            w.anchors.push((w.entries.len() as usize).wrapping_add(w.cursor_bias))
        } else {
            w.anchors
        },
        cursor_bias: w.cursor_bias.wrapping_add(excess as usize),
    }
}

/// The window after each of `es` is pushed, in order.
pub open spec fn push_entries(w: ReplayWindowView, es: Seq<JournalEntryView>) -> ReplayWindowView
    decreases es.len(),
{
    if es.len() == 0 {
        w
    } else {
        replay_step(push_entries(w, es.drop_last()), es.last())
    }
}

/// The positions of the anchored entries of `es`, in order.
pub open spec fn anchor_positions(es: Seq<JournalEntryView>) -> Seq<usize>
    decreases es.len(),
{
    if es.len() == 0 {
        Seq::empty()
    } else if anchored(es.last()) {
        anchor_positions(es.drop_last()).push((es.len() - 1) as usize)
    } else {
        anchor_positions(es.drop_last())
    }
}

/// Wrapping sum of the UTF-8 message lengths of the anchored entries of `es` at position
/// `from` or later.
pub open spec fn retained_anchor_len(es: Seq<JournalEntryView>, from: int) -> usize
    decreases es.len(),
{
    if es.len() == 0 {
        0
    } else if anchored(es.last()) && es.len() - 1 >= from {
        retained_anchor_len(es.drop_last(), from).wrapping_add(
            vstd::utf8::encode_utf8(es.last().message).len() as usize,
        )
    } else {
        retained_anchor_len(es.drop_last(), from)
    }
}

/// Entries dropped from a window after `n` pushes.
pub open spec fn replay_excess(n: nat) -> nat {
    if n > 128 {
        (n - 128) as nat
    } else {
        0
    }
}

proof fn lemma_push_entries(es: Seq<JournalEntryView>)
    requires
        es.len() + 128 <= usize::MAX,
    ensures
        push_entries(fresh_replay(), es).entries == es.skip(replay_excess(es.len()) as int),
        push_entries(fresh_replay(), es).cursor_bias == replay_excess(es.len()),
        push_entries(fresh_replay(), es).anchors == anchor_positions(es),
    decreases es.len(),
{
    if es.len() > 0 {
        let p = es.drop_last();
        lemma_push_entries(p);
        let w = push_entries(fresh_replay(), p);
        let ex = replay_excess(p.len());
        assert(w.entries.push(es.last()) =~= es.skip(ex as int));
        assert(es.skip(ex as int).skip(replay_excess(es.len()) - ex) =~= es.skip(replay_excess(es.len()) as int));
    } else {
        assert(es.skip(0) =~= es);
    }
}

proof fn lemma_retained_anchor_len(es: Seq<JournalEntryView>, k: int)
    requires
        es.len() + 128 <= usize::MAX,
        0 <= k <= es.len(),
    ensures
        anchor_len_spec(
            es.skip(replay_excess(es.len()) as int),
            anchor_positions(es.take(k)),
            replay_excess(es.len()) as usize,
        ) == retained_anchor_len(es.take(k), replay_excess(es.len()) as int),
    decreases k,
{
    let ex = replay_excess(es.len());
    let e = es.skip(ex as int);
    if k > 0 {
        lemma_retained_anchor_len(es, k - 1);
        let t = es.take(k);
        assert(t.drop_last() =~= es.take(k - 1));
        assert(t.last() == es[k - 1]);
        if anchored(es[k - 1]) {
            let a = anchor_positions(es.take(k - 1)).push((k - 1) as usize);
            assert(a.drop_last() =~= anchor_positions(es.take(k - 1)));
            if k - 1 >= ex {
                assert(e[k - 1 - ex] == es[k - 1]);
            }
        }
    } else {
        assert(es.take(0) =~= Seq::<JournalEntryView>::empty());
    }
}

/// A window filled from empty keeps exactly the newest 128 entries, in order, and its
/// anchor length is the wrapping sum of the message lengths of the kept entries that are
/// anchored; anchors of entries already dropped count for nothing.
pub proof fn law_replay_window(es: Seq<JournalEntryView>)
    requires
        es.len() + 128 <= usize::MAX,
    ensures
        push_entries(fresh_replay(), es).entries == es.skip(replay_excess(es.len()) as int),
        ({
            let w = push_entries(fresh_replay(), es);
            anchor_len_spec(w.entries, w.anchors, w.cursor_bias) == retained_anchor_len(
                es,
                replay_excess(es.len()) as int,
            )
        }),
{
    lemma_push_entries(es);
    lemma_retained_anchor_len(es, es.len() as int);
    assert(es.take(es.len() as int) =~= es);
}

impl ReplayWindow {
    pub fn new() -> (r: Self)
        ensures
            r@ == fresh_replay(),
    {
        let r = Self { entries: VecDeque::new(), anchors: Vec::new(), cursor_bias: 0 };
        assert(r@.entries =~= Seq::<JournalEntryView>::empty());
        assert(r@.anchors =~= Seq::<usize>::empty());
        r
    }

    /// Appends `entry`, anchoring it when its severity is above 2 or its timestamp is 7
    /// modulo 32; only the newest 128 entries are kept.
    pub fn push(&mut self, entry: JournalEntry)
        ensures
            final(self)@ == replay_step(old(self)@, entry@),
    {
        if entry.severity > 2 || entry.timestamp & 31 == 7 {
            self.anchors.push(self.entries.len().wrapping_add(self.cursor_bias));
        }
        let ghost all = self@.entries.push(entry@);
        let ghost anchors = self@.anchors;
        let ghost excess: int = if all.len() > 128 { all.len() - 128 } else { 0 };
        self.entries.push_back(entry);
        assert(self@.entries =~= all.skip(0));
        let total = self.entries.len();
        let ghost bias0 = self.cursor_bias;
        let mut dropped: usize = 0;
        while self.entries.len() > 128
            invariant
                total == all.len(),
                self.cursor_bias == bias0,
                bias0 == old(self)@.cursor_bias,
                dropped <= excess,
                excess <= all.len(),
                excess == if all.len() > 128 { all.len() - 128 } else { 0 },
                self@.entries == all.skip(dropped as int),
                self@.anchors == anchors,
            decreases self@.entries.len(),
        {
            let ghost before = self.entries@;
            let front = self.entries.pop_front();
            proof {
                assert(front is Some);
                assert forall|i: int| 0 <= i < self.entries@.len() implies #[trigger] journals_view(
                    self.entries@,
                )[i] == all.skip(dropped + 1)[i] by {
                    assert(self.entries@[i] == before[i + 1]);
                    assert(journals_view(before)[i + 1] == all.skip(dropped as int)[i + 1]);
                }
                assert(journals_view(self.entries@) =~= all.skip(dropped + 1));
            }
            dropped = dropped + 1;
        }
        assert(dropped == excess);
        self.cursor_bias = self.cursor_bias.wrapping_add(dropped);
    }

    pub fn anchor_message_len(&self) -> (r: usize)
        ensures
            r == anchor_len_spec(self@.entries, self@.anchors, self@.cursor_bias),
    {
        let mut total: usize = 0;
        let mut i: usize = 0;
        while i < self.anchors.len()
            invariant
                i <= self.anchors@.len(),
                total == anchor_len_spec(journals_view(self.entries@), self.anchors@.take(i as int), self.cursor_bias),
            decreases self.anchors@.len() - i,
        {
            proof {
                assert(self.anchors@.take(i + 1).drop_last() =~= self.anchors@.take(i as int));
            }
            let idx = self.anchors[i].wrapping_sub(self.cursor_bias);
            if self.entries.len() != 0 && idx < self.entries.len() {
                let n = self.entries[idx].message.as_str().len();
                total = total.wrapping_add(n);
            }
            i = i + 1;
        }
        assert(self.anchors@.take(i as int) =~= self.anchors@);
        total
    }
}

/// The operand stack of rule programs, able to remember its top value and depth.
pub struct ScratchStack {
    values: Vec<i64>,
    saved: Option<i64>,
    saved_len: usize,
}

pub struct ScratchStackView {
    pub values: Seq<i64>,
    pub saved: Option<i64>,
    pub saved_len: usize,
}

impl View for ScratchStack {
    type V = ScratchStackView;

    closed spec fn view(&self) -> ScratchStackView {
        ScratchStackView { values: self.values@, saved: self.saved, saved_len: self.saved_len }
    }
}

/// Current top minus the remembered top, plus the remembered depth (wrapping); 0 when
/// nothing is remembered or the stack is empty.
pub open spec fn saved_delta_spec(st: ScratchStackView) -> i64 {
    match st.saved {
        Some(v) => if st.values.len() == 0 {
            0
        } else {
            st.values.last().wrapping_sub(v).wrapping_add(st.saved_len as i64)
        },
        None => 0,
    }
}

impl ScratchStack {
    pub fn new() -> (r: Self)
        ensures
            r@.values.len() == 0,
            r@.saved is None,
            r@.saved_len == 0,
    {
        Self { values: Vec::new(), saved: None, saved_len: 0 }
    }

    pub fn push(&mut self, value: i64)
        ensures
            final(self)@ == (ScratchStackView { values: old(self)@.values.push(value), ..old(self)@ }),
    {
        self.values.push(value);
    }

    pub fn pop(&mut self) -> (r: Option<i64>)
        ensures
            if old(self)@.values.len() == 0 {
                r is None && final(self)@ == old(self)@
            } else {
                r == Some(old(self)@.values.last()) && final(self)@ == (ScratchStackView {
                    values: old(self)@.values.drop_last(),
                    ..old(self)@
                })
            },
    {
        self.values.pop()
    }

    /// Remembers the top value and the depth, when the stack is not empty.
    pub fn remember_top(&mut self)
        ensures
            final(self)@ == if old(self)@.values.len() == 0 {
                old(self)@
            } else {
                ScratchStackView {
                    saved: Some(old(self)@.values.last()),
                    saved_len: old(self)@.values.len() as usize,
                    ..old(self)@
                }
            },
    {
        let n = self.values.len();
        if n > 0 {
            self.saved = Some(self.values[n - 1]);
            self.saved_len = n;
        }
    }

    /// Keeps only the top `keep` values.
    pub fn compact_for_window(&mut self, keep: usize)
        ensures
            final(self)@ == (ScratchStackView {
                values: if old(self)@.values.len() > keep {
                    old(self)@.values.skip(old(self)@.values.len() - keep)
                } else {
                    old(self)@.values
                },
                ..old(self)@
            }),
    {
        let n = self.values.len();
        if n > keep {
            let rest = self.values.split_off(n - keep);
            self.values = rest;
        }
    }

    pub fn saved_delta(&self) -> (r: i64)
        ensures
            r == saved_delta_spec(self@),
    {
        match self.saved {
            Some(v) => {
                let n = self.values.len();
                if n == 0 {
                    0
                } else {
                    self.values[n - 1].wrapping_sub(v).wrapping_add(self.saved_len as i64)
                }
            },
            None => 0,
        }
    }

    pub fn len(&self) -> (r: usize)
        ensures
            r == self@.values.len(),
    {
        self.values.len()
    }
}

/// Interning gives the index at which the table then holds the name, and interning the
/// same name again changes nothing.
pub proof fn law_intern(t: AliasTableView, name: Seq<char>)
    requires
        t.names.len() < usize::MAX,
    ensures
        ({
            let t2 = intern_spec(t, name);
            let r = match name_position(t.names, name) {
                Some(i) => i,
                None => t.names.len() as int,
            };
            &&& 0 <= r < t2.names.len()
            &&& t2.names[r] == name
            &&& intern_spec(t2, name) == t2
        }),
{
    lemma_name_position_range(t.names, name);
    let t2 = intern_spec(t, name);
    if name_position(t.names, name) is None {
        assert(t2.names.drop_last() =~= t.names);
    }
    lemma_name_position_range(t2.names, name);
}

/// A handle taken by `remember` resolves, as long as the table's salt is unchanged, to the
/// name at its index.
pub proof fn law_remembered_resolves(t: AliasTableView, index: usize)
    requires
        index < t.names.len(),
    ensures
        resolve_spec(t, index, t.salt) == Some(t.names[index as int]),
{
    assert(t.salt.wrapping_sub(t.salt) == 0) by (bit_vector);
    assert(popcount(0) == 0);
}

/// A value pushed onto the operand stack is the next one popped, and popping it restores
/// the stack.
pub proof fn law_stack_push_pop(st: ScratchStackView, value: i64)
    ensures
        ({
            let pushed = ScratchStackView { values: st.values.push(value), ..st };
            &&& pushed.values.len() > 0
            &&& pushed.values.last() == value
            &&& (ScratchStackView { values: pushed.values.drop_last(), ..pushed }) == st
        }),
{
    assert(st.values.push(value).drop_last() =~= st.values);
}

proof fn lemma_name_position_absent(names: Seq<Seq<char>>, name: Seq<char>, i: int)
    requires
        name_position(names, name) is None,
        0 <= i < names.len(),
    ensures
        names[i] != name,
    decreases names.len(),
{
    if i < names.len() - 1 {
        lemma_name_position_absent(names.drop_last(), name, i);
    }
}

} // verus!
