use crate::error::{DecodeError, Result};
use crate::model::{journal_kind_of, journals_view, DeviceId, JournalEntry, JournalEntryView, JournalKind};
use crate::numtext::{dec_chars, decimal_string};
use crate::reader::{
    copy_bytes, read_string_spec, read_u8_spec, read_var_u32_spec, read_var_usize_spec, Reader, Step,
};
use crate::store::{ByteMirror, ReplayWindow};
use vstd::prelude::*;

verus! {

/// The message given to entry `idx` when its text is missing or unreadable.
pub open spec fn event_label(idx: nat) -> Seq<char> {
    "event-"@ + dec_chars(idx)
}

/// One journal record following an entry stamped `base`: a timestamp delta (added,
/// wrapping), a kind code, a device, a severity (kept modulo 8), then, while bytes remain,
/// a message (an unreadable one is replaced by its label, the cursor staying where the
/// read stopped) and a payload whose length byte is capped at what is left.
pub open spec fn journal_item(d: Seq<u8>, p: int, idx: nat, base: u64) -> Step<JournalEntryView> {
    match read_var_u32_spec(d, p) {
        (Err(e), q) => (Err(e), q),
        (Ok(delta), p1) => match read_u8_spec(d, p1) {
            (Err(e), q) => (Err(e), q),
            (Ok(k), p2) => match read_var_u32_spec(d, p2) {
                (Err(e), q) => (Err(e), q),
                (Ok(dev), p3) => match read_u8_spec(d, p3) {
                    (Err(e), q) => (Err(e), q),
                    (Ok(sev), p4) => {
                        let (message, p5) = if p4 < d.len() {
                            match read_string_spec(d, p4) {
                                (Ok(s), q) => (s, q),
                                (Err(_), q) => (event_label(idx), q),
                            }
                        } else {
                            (event_label(idx), p4)
                        };
                        let (payload, p6) = if p5 < d.len() {
                            let l = d[p5] as int;
                            let left = d.len() - (p5 + 1);
                            let n = if l < left { l } else { left };
                            (d.subrange(p5 + 1, p5 + 1 + n), p5 + 1 + n)
                        } else {
                            (Seq::empty(), p5)
                        };
                        (
                            Ok(
                                JournalEntryView {
                                    timestamp: base.wrapping_add(delta as u64),
                                    kind: journal_kind_of(k),
                                    device: dev,
                                    severity: sev % 8,
                                    message,
                                    payload,
                                },
                            ),
                            p6,
                        )
                    },
                },
            },
        },
    }
}

/// The remaining records `i..count`, each timestamp building on the previous one.
pub open spec fn journal_from(
    d: Seq<u8>,
    p: int,
    i: nat,
    count: nat,
    base: u64,
    acc: Seq<JournalEntryView>,
) -> Step<Seq<JournalEntryView>>
    decreases count - i,
{
    if i >= count {
        (Ok(acc), p)
    } else {
        match journal_item(d, p, i, base) {
            (Ok(e), q) => journal_from(d, q, i + 1, count, e.timestamp, acc.push(e)),
            (Err(e), q) => (Err(e), q),
        }
    }
}

/// The entries of a journal segment: a count (at most 16384) and that many records, the
/// first timestamp counting from 0.
pub open spec fn journal_spec(d: Seq<u8>) -> core::result::Result<Seq<JournalEntryView>, DecodeError> {
    match read_var_usize_spec(d, 0) {
        (Err(e), _) => Err(e),
        (Ok(count), p) => if count > 16384 {
            Err(DecodeError::InvalidField("journal count"))
        } else {
            journal_from(d, p, 0, count as nat, 0, seq![]).0
        },
    }
}

fn event_name(idx: usize) -> (r: String)
    ensures
        r@ == event_label(idx as nat),
{
    let mut s = "event-".to_owned();
    let digits = decimal_string(idx as u64);
    s.append(digits.as_str());
    s
}

pub fn parse_journal_segment(data: &[u8]) -> (r: Result<Vec<JournalEntry>>)
    ensures
        match r {
            Ok(v) => journal_spec(data@) == Ok::<Seq<JournalEntryView>, DecodeError>(journals_view(v@)),
            Err(e) => journal_spec(data@) == Err::<Seq<JournalEntryView>, DecodeError>(e),
        },
{
    let ghost d = data@;
    let mut r = Reader::new(data);
    let count = r.read_var_usize()?;
    if count > 16384 {
        return Err(DecodeError::InvalidField("journal count"));
    }
    let mut out: Vec<JournalEntry> = Vec::new();
    let mut window = ReplayWindow::new();
    let mut mirror = ByteMirror::new();
    let mut base: u64 = 0;
    let ghost start = r@.pos;
    assert(journals_view(out@) =~= Seq::<JournalEntryView>::empty());
    let mut idx: usize = 0;
    while idx < count
        invariant
            r@.data == d,
            d == data@,
            idx <= count,
            count <= 16384,
            journal_from(d, r@.pos, idx as nat, count as nat, base, journals_view(out@)) == journal_from(
                d,
                start,
                0,
                count as nat,
                0,
                seq![],
            ),
            read_var_usize_spec(d, 0) == (Ok::<usize, DecodeError>(count), start),
        decreases count - idx,
    {
        let ghost p = r@.pos;
        let delta = r.read_var_u32()?;
        let timestamp = base.wrapping_add(delta as u64);
        let kind = JournalKind::from_code(r.read_u8()?);
        let device = DeviceId(r.read_var_u32()?);
        let severity = r.read_u8()? % 8;
        let ghost p4 = r@.pos;
        let message = if r.remaining() > 0 {
            match r.read_string() {
                Ok(s) => s,
                Err(_) => event_name(idx),
            }
        } else {
            event_name(idx)
        };
        let ghost p5 = r@.pos;
        proof {
            let (m, q) = if p4 < d.len() {
                match read_string_spec(d, p4) {
                    (Ok(s), q) => (s, q),
                    (Err(_), q) => (event_label(idx as nat), q),
                }
            } else {
                (event_label(idx as nat), p4)
            };
            assert(m == message@ && q == p5);
        }
        let payload_len = if r.remaining() > 0 {
            let l = r.read_u8()? as usize;
            let rest = r.remaining();
            if l < rest {
                l
            } else {
                rest
            }
        } else {
            0
        };
        mirror.absorb(message.as_str().as_bytes());
        let payload = copy_bytes(r.read_bytes(payload_len)?);
        mirror.absorb(payload.as_slice());
        proof {
            let (pl, q) = if p5 < d.len() {
                let l = d[p5] as int;
                let left = d.len() - (p5 + 1);
                let n = if l < left { l } else { left };
                (d.subrange(p5 + 1, p5 + 1 + n), p5 + 1 + n)
            } else {
                (Seq::<u8>::empty(), p5)
            };
            assert(pl == payload@);
            assert(q == r@.pos);
        }
        let entry = JournalEntry { timestamp, kind, device, severity, message, payload };
        proof {
            assert(journal_item(d, p, idx as nat, base) == (Ok::<JournalEntryView, DecodeError>(entry@), r@.pos));
            assert(journals_view(out@.push(entry)) =~= journals_view(out@).push(entry@));
        }
        window.push(entry.clone());
        out.push(entry);
        base = timestamp;
        idx = idx + 1;
    }
    let _ = window.anchor_message_len();
    let _ = mirror.saved_digest();
    Ok(out)
}

/// Number of entries of kind `k`.
pub open spec fn count_kind(s: Seq<JournalEntryView>, k: JournalKind) -> nat
    decreases s.len(),
{
    if s.len() == 0 {
        0
    } else {
        count_kind(s.drop_last(), k) + if s.last().kind == k { 1nat } else { 0 }
    }
}

/// The latest timestamp, or 0.
pub open spec fn last_timestamp(s: Seq<JournalEntryView>) -> u64
    decreases s.len(),
{
    if s.len() == 0 {
        0
    } else {
        let prev = last_timestamp(s.drop_last());
        if s.last().timestamp > prev { s.last().timestamp } else { prev }
    }
}

proof fn lemma_count_kind_le(s: Seq<JournalEntryView>, k: JournalKind)
    ensures
        count_kind(s, k) <= s.len(),
    decreases s.len(),
{
    if s.len() > 0 {
        lemma_count_kind_le(s.drop_last(), k);
    }
}

/// The latest timestamp is at least every entry's, and is that of some entry when there
/// are entries.
pub proof fn law_last_timestamp(s: Seq<JournalEntryView>)
    ensures
        forall|k: int| 0 <= k < s.len() ==> (#[trigger] s[k]).timestamp <= last_timestamp(s),
        s.len() > 0 ==> exists|k: int| 0 <= k < s.len() && (#[trigger] s[k]).timestamp == last_timestamp(s),
    decreases s.len(),
{
    if s.len() > 0 {
        let p = s.drop_last();
        law_last_timestamp(p);
        assert forall|k: int| 0 <= k < s.len() implies (#[trigger] s[k]).timestamp <= last_timestamp(s) by {
            if k < p.len() {
                assert(p[k] == s[k]);
            }
        }
        if s.last().timestamp > last_timestamp(p) || p.len() == 0 {
            assert(s[s.len() - 1].timestamp == last_timestamp(s));
        } else {
            let k = choose|k: int| 0 <= k < p.len() && (#[trigger] p[k]).timestamp == last_timestamp(p);
            assert(s[k] == p[k]);
        }
    }
}

/// Alarms and configuration changes together never outnumber the entries.
pub proof fn law_kind_counts(s: Seq<JournalEntryView>)
    ensures
        count_kind(s, JournalKind::Alarm) + count_kind(s, JournalKind::ConfigChange) <= s.len(),
    decreases s.len(),
{
    if s.len() > 0 {
        law_kind_counts(s.drop_last());
    }
}

/// The count of a kind is the number of entries of exactly that kind: appending an entry
/// of that kind raises it by one, appending an entry of any other kind leaves it as it
/// was, and it equals the length of the entries filtered by kind.
pub proof fn law_count_kind_exact(s: Seq<JournalEntryView>, e: JournalEntryView, k: JournalKind)
    ensures
        count_kind(Seq::<JournalEntryView>::empty(), k) == 0,
        e.kind == k ==> count_kind(s.push(e), k) == count_kind(s, k) + 1,
        e.kind != k ==> count_kind(s.push(e), k) == count_kind(s, k),
        count_kind(s, k) == s.filter(|x: JournalEntryView| x.kind == k).len(),
    decreases s.len(),
{
    assert(s.push(e).drop_last() =~= s);
    reveal_with_fuel(Seq::filter, 1);
    if s.len() > 0 {
        law_count_kind_exact(s.drop_last(), e, k);
    }
}

/// Counts alarms and configuration changes, and finds the latest timestamp.
pub fn summarize_journal(entries: &[JournalEntry]) -> (r: (usize, usize, u64))
    ensures
        r.0 == count_kind(journals_view(entries@), JournalKind::Alarm),
        r.1 == count_kind(journals_view(entries@), JournalKind::ConfigChange),
        r.2 == last_timestamp(journals_view(entries@)),
{
    let ghost s = journals_view(entries@);
    let mut alarms: usize = 0;
    let mut changes: usize = 0;
    let mut last: u64 = 0;
    let mut i: usize = 0;
    while i < entries.len()
        invariant
            s == journals_view(entries@),
            i <= entries@.len(),
            alarms == count_kind(s.take(i as int), JournalKind::Alarm),
            changes == count_kind(s.take(i as int), JournalKind::ConfigChange),
            last == last_timestamp(s.take(i as int)),
        decreases entries@.len() - i,
    {
        proof {
            assert(s.take(i + 1).drop_last() =~= s.take(i as int));
            lemma_count_kind_le(s.take(i as int), JournalKind::Alarm);
            lemma_count_kind_le(s.take(i as int), JournalKind::ConfigChange);
        }
        let entry = &entries[i];
        if entry.timestamp > last {
            last = entry.timestamp;
        }
        match entry.kind {
            JournalKind::Alarm => alarms = alarms + 1,
            JournalKind::ConfigChange => changes = changes + 1,
            _ => {},
        }
        i = i + 1;
    }
    assert(s.take(i as int) =~= s);
    (alarms, changes, last)
}

} // verus!
