use crate::error::{DecodeError, Result};
use crate::model::{windows_view, ScheduleWindow, ScheduleWindowView, ZoneId};
use crate::numtext::{dec_chars, decimal_string};
use crate::reader::{
    read_i32_spec, read_string_spec, read_u16_spec, read_u8_spec, read_var_u32_spec,
    read_var_usize_spec, repeat_spec, Reader, Step,
};
use crate::store::WindowRing;
use vstd::prelude::*;

verus! {

/// The label given to window `idx` when its text is missing or unreadable.
pub open spec fn window_label(idx: nat) -> Seq<char> {
    "window-"@ + dec_chars(idx)
}

/// One schedule record: a zone, a start minute and a duration (each modulo 1440), a
/// target, a recurrence byte and, while bytes remain, a label (an unreadable one is
/// replaced, the cursor staying where the read stopped). The window ends at
/// `(start + duration) % 1440`. The target is the value read: no per-zone recipe offset
/// is added to it, since the recipe tables that would give one are not part of this crate.
pub open spec fn window_item(d: Seq<u8>, p: int, idx: nat) -> Step<ScheduleWindowView> {
    match read_var_u32_spec(d, p) {
        (Err(e), q) => (Err(e), q),
        (Ok(zone), p1) => match read_u16_spec(d, p1) {
            (Err(e), q) => (Err(e), q),
            (Ok(start), p2) => match read_u16_spec(d, p2) {
                (Err(e), q) => (Err(e), q),
                (Ok(duration), p3) => match read_i32_spec(d, p3) {
                    (Err(e), q) => (Err(e), q),
                    (Ok(target), p4) => match read_u8_spec(d, p4) {
                        (Err(e), q) => (Err(e), q),
                        (Ok(recurrence), p5) => {
                            let (label, p6) = if p5 < d.len() {
                                match read_string_spec(d, p5) {
                                    (Ok(s), q) => (s, q),
                                    (Err(_), q) => (window_label(idx), q),
                                }
                            } else {
                                (window_label(idx), p5)
                            };
                            let s = start % 1440;
                            (
                                Ok(
                                    ScheduleWindowView {
                                        zone,
                                        start_minute: s as u16,
                                        end_minute: ((s + duration % 1440) % 1440) as u16,
                                        target,
                                        recurrence,
                                        label,
                                    },
                                ),
                                p6,
                            )
                        },
                    },
                },
            },
        },
    }
}

/// A decoded schedule record keeps its fields: the zone is the leading varint, the window
/// starts at the first 16-bit field modulo 1440 and ends at the first field plus the second
/// (the duration) modulo 1440, the target is the 32-bit field and the recurrence the byte
/// after it.
pub proof fn law_window_fields(d: Seq<u8>, p: int, idx: nat)
    ensures
        window_item(d, p, idx).0 matches Ok(w) ==> ({
            let (zone, p1) = read_var_u32_spec(d, p);
            let (start, p2) = read_u16_spec(d, p1);
            let (duration, p3) = read_u16_spec(d, p2);
            let (target, p4) = read_i32_spec(d, p3);
            let (recurrence, p5) = read_u8_spec(d, p4);
            &&& zone == Ok::<u32, DecodeError>(w.zone)
            &&& start is Ok && duration is Ok
            &&& w.start_minute == start->Ok_0 % 1440
            &&& w.end_minute == (start->Ok_0 + duration->Ok_0) % 1440
            &&& target == Ok::<i32, DecodeError>(w.target)
            &&& recurrence == Ok::<u8, DecodeError>(w.recurrence)
        }),
{
    match read_var_u32_spec(d, p) {
        (Ok(zone), p1) => match read_u16_spec(d, p1) {
            (Ok(start), p2) => match read_u16_spec(d, p2) {
                (Ok(duration), p3) => {
                    let s = start % 1440;
                    assert((s + duration % 1440) % 1440 == (start + duration) % 1440) by (nonlinear_arith)
                        requires
                            s == start % 1440,
                    {
                        vstd::arithmetic::div_mod::lemma_add_mod_noop(start as int, duration as int, 1440);
                    }
                },
                _ => {},
            },
            _ => {},
        },
        _ => {},
    }
}

/// Window `w` is what the record at some position of `d` decodes to as record `k`.
pub open spec fn decoded_at(d: Seq<u8>, k: nat, w: ScheduleWindowView) -> bool {
    exists|q: int| #[trigger] window_item(d, q, k).0 == Ok::<ScheduleWindowView, DecodeError>(w)
}

/// Every window of a decoded schedule segment is a record decoded at some position of the
/// segment, so each keeps its record's fields as `law_window_fields` states.
pub proof fn law_schedule_windows(d: Seq<u8>)
    ensures
        schedule_spec(d) matches Ok(ws) ==> forall|i: int| 0 <= i < ws.len() ==> #[trigger] decoded_at(d, i as nat, ws[i]),
{
    match read_var_usize_spec(d, 0) {
        (Ok(count), p) => if count <= 8192 {
            lemma_repeat_windows(d, p, 0, count as nat, seq![]);
        },
        _ => {},
    }
}

proof fn lemma_repeat_windows(d: Seq<u8>, p: int, i: nat, n: nat, acc: Seq<ScheduleWindowView>)
    requires
        forall|k: int| 0 <= k < acc.len() ==> #[trigger] decoded_at(d, k as nat, acc[k]),
        acc.len() == i,
    ensures
        repeat_spec(|d: Seq<u8>, p: int, i: nat| window_item(d, p, i), d, p, i, n, acc).0 matches Ok(ws) ==> forall|k: int|
            0 <= k < ws.len() ==> #[trigger] decoded_at(d, k as nat, ws[k]),
    decreases n - i,
{
    if i < n {
        match window_item(d, p, i) {
            (Ok(x), q) => {
                let acc2 = acc.push(x);
                assert forall|k: int| 0 <= k < acc2.len() implies #[trigger] decoded_at(d, k as nat, acc2[k]) by {
                    if k < acc.len() {
                        assert(acc2[k] == acc[k]);
                        assert(decoded_at(d, k as nat, acc[k]));
                    } else {
                        assert(window_item(d, p, k as nat).0 == Ok::<ScheduleWindowView, DecodeError>(acc2[k]));
                    }
                }
                lemma_repeat_windows(d, q, i + 1, n, acc2);
            },
            _ => {},
        }
    }
}

/// The windows of a schedule segment: a count (at most 8192) and that many records.
pub open spec fn schedule_spec(d: Seq<u8>) -> core::result::Result<Seq<ScheduleWindowView>, DecodeError> {
    match read_var_usize_spec(d, 0) {
        (Err(e), _) => Err(e),
        (Ok(count), p) => if count > 8192 {
            Err(DecodeError::InvalidField("schedule count"))
        } else {
            repeat_spec(|d: Seq<u8>, p: int, i: nat| window_item(d, p, i), d, p, 0, count as nat, seq![]).0
        },
    }
}

fn window_name(idx: usize) -> (r: String)
    ensures
        r@ == window_label(idx as nat),
{
    let mut s = "window-".to_owned();
    let digits = decimal_string(idx as u64);
    s.append(digits.as_str());
    s
}

/// Decodes a schedule segment: a record count (at most 8192), then the records. Targets
/// are kept as read; no per-zone recipe offset is applied.
pub fn parse_schedule_segment(data: &[u8]) -> (r: Result<Vec<ScheduleWindow>>)
    ensures
        match r {
            Ok(v) => schedule_spec(data@) == Ok::<Seq<ScheduleWindowView>, DecodeError>(windows_view(v@)),
            Err(e) => schedule_spec(data@) == Err::<Seq<ScheduleWindowView>, DecodeError>(e),
        },
{
    let ghost d = data@;
    let ghost item = |d: Seq<u8>, p: int, i: nat| window_item(d, p, i);
    let mut r = Reader::new(data);
    let count = r.read_var_usize()?;
    if count > 8192 {
        return Err(DecodeError::InvalidField("schedule count"));
    }
    let mut out: Vec<ScheduleWindow> = Vec::new();
    let mut ring = WindowRing::new();
    let ghost start = r@.pos;
    assert(windows_view(out@) =~= Seq::<ScheduleWindowView>::empty());
    let mut idx: usize = 0;
    while idx < count
        invariant
            r@.data == d,
            d == data@,
            idx <= count,
            count <= 8192,
            item == (|d: Seq<u8>, p: int, i: nat| window_item(d, p, i)),
            repeat_spec(item, d, r@.pos, idx as nat, count as nat, windows_view(out@)) == repeat_spec(
                item,
                d,
                start,
                0,
                count as nat,
                seq![],
            ),
            read_var_usize_spec(d, 0) == (Ok::<usize, DecodeError>(count), start),
        decreases count - idx,
    {
        let ghost p = r@.pos;
        let zone = ZoneId(r.read_var_u32()?);
        let start_minute = r.read_u16()? % 1440;
        let duration = r.read_u16()? % 1440;
        let target = r.read_i32()?;
        let recurrence = r.read_u8()?;
        let ghost p5 = r@.pos;
        let label = if r.remaining() > 0 {
            match r.read_string() {
                Ok(s) => s,
                Err(_) => window_name(idx),
            }
        } else {
            window_name(idx)
        };
        proof {
            let (l, q) = if p5 < d.len() {
                match read_string_spec(d, p5) {
                    (Ok(s), q) => (s, q),
                    (Err(_), q) => (window_label(idx as nat), q),
                }
            } else {
                (window_label(idx as nat), p5)
            };
            assert(l == label@ && q == r@.pos);
        }
        ring.push(target, recurrence);
        let window = ScheduleWindow {
            zone,
            start_minute,
            end_minute: (start_minute + duration) % 1440,
            target,
            recurrence,
            label,
        };
        proof {
            assert(item(d, p, idx as nat) == (Ok::<ScheduleWindowView, DecodeError>(window@), r@.pos));
            assert(windows_view(out@.push(window)) =~= windows_view(out@).push(window@));
        }
        out.push(window);
        idx = idx + 1;
    }
    let _ = ring.marked_sum();
    Ok(out)
}

/// Whether `minute` falls in the window, which may wrap past midnight.
pub open spec fn window_covers(w: ScheduleWindowView, minute: u16) -> bool {
    if w.start_minute <= w.end_minute {
        w.start_minute <= minute <= w.end_minute
    } else {
        minute >= w.start_minute || minute <= w.end_minute
    }
}

/// Index of the first window of `zone` covering `minute`.
pub open spec fn first_active(s: Seq<ScheduleWindowView>, zone: u32, minute: u16) -> Option<int>
    decreases s.len(),
{
    if s.len() == 0 {
        None
    } else {
        match first_active(s.drop_last(), zone, minute) {
            Some(i) => Some(i),
            None => if s.last().zone == zone && window_covers(s.last(), minute) {
                Some(s.len() - 1)
            } else {
                None
            },
        }
    }
}

/// The first window of `zone` that covers `minute`.
pub fn active_window(windows: &[ScheduleWindow], zone: ZoneId, minute: u16) -> (r: Option<&ScheduleWindow>)
    ensures
        match first_active(windows_view(windows@), zone.0, minute) {
            Some(i) => r matches Some(w) && w@ == windows_view(windows@)[i],
            None => r is None,
        },
{
    let ghost s = windows_view(windows@);
    let mut i: usize = 0;
    while i < windows.len()
        invariant
            s == windows_view(windows@),
            i <= windows@.len(),
            first_active(s.take(i as int), zone.0, minute) is None,
        decreases windows@.len() - i,
    {
        proof {
            assert(s.take(i + 1).drop_last() =~= s.take(i as int));
        }
        let w = &windows[i];
        let covers = if w.start_minute <= w.end_minute {
            minute >= w.start_minute && minute <= w.end_minute
        } else {
            minute >= w.start_minute || minute <= w.end_minute
        };
        if w.zone.0 == zone.0 && covers {
            proof {
                lemma_first_active_found(s, i as int, zone.0, minute);
            }
            return Some(w);
        }
        i = i + 1;
    }
    assert(s.take(i as int) =~= s);
    None
}

proof fn lemma_first_active_found(s: Seq<ScheduleWindowView>, i: int, zone: u32, minute: u16)
    requires
        0 <= i < s.len(),
        s[i].zone == zone && window_covers(s[i], minute),
        first_active(s.take(i), zone, minute) is None,
    ensures
        first_active(s, zone, minute) == Some(i),
    decreases s.len(),
{
    if s.len() > i + 1 {
        assert(s.drop_last().take(i) =~= s.take(i));
        lemma_first_active_found(s.drop_last(), i, zone, minute);
    } else {
        assert(s.drop_last() =~= s.take(i));
    }
}

} // verus!
