use crate::error::{res_view, DecodeError, DecodeErrorView, Result};
use crate::codec::{class_name_spec, device_lines, link_lines, link_name_spec, property_lines, text_form, window_lines};
use crate::manifest::manifest_from_text;
use crate::numtext::{dec_chars, digit_char, signed_chars};
use crate::model::{
    CanopyArchive, CanopyArchiveView, FacilityManifestView, empty_archive_view, journals_view, pages_view,
    rule_sets_view, windows_view, devices_view,
    Device, DeviceClass, DeviceId, DeviceView, JournalEntry, JournalEntryView, JournalKind, Link,
    LinkKind, RuleSet, RuleSetView, SampleKind, SamplePage, SamplePageView, SampleRow,
    SampleRowView, ScheduleWindow, ScheduleWindowView, ZoneId,
};
use crate::reader::utf8_to_string;
use crate::rules::evaluate_rules;
use crate::text_map::{bytes_lt, key_bytes, keys_sorted, lemma_bytes_lt_irreflexive, lemma_bytes_lt_trichotomy, map_insert};
use crate::validate::validate_archive;
use vstd::std_specs::iter::IteratorSpec;
use vstd::prelude::*;

verus! {

/// Unicode `White_Space`: the characters that separate fields of a text archive.
pub open spec fn is_ws(c: char) -> bool {
    let u = c as u32;
    (0x09 <= u <= 0x0d) || u == 0x20 || u == 0x85 || u == 0xa0 || u == 0x1680 || (0x2000 <= u
        <= 0x200a) || u == 0x2028 || u == 0x2029 || u == 0x202f || u == 0x205f || u == 0x3000
}

fn is_ws_exec(c: char) -> (r: bool)
    ensures
        r == is_ws(c),
{
    let u = c as u32;
    (0x09 <= u && u <= 0x0d) || u == 0x20 || u == 0x85 || u == 0xa0 || u == 0x1680 || (0x2000 <= u
        && u <= 0x200a) || u == 0x2028 || u == 0x2029 || u == 0x202f || u == 0x205f || u == 0x3000
}

/// The characters of `s`, in order.
fn chars_of(s: &str) -> (r: Vec<char>)
    ensures
        r@ == s@,
{
    broadcast use vstd::string::group_string_axioms;

    let mut it = s.chars();
    let mut out: Vec<char> = Vec::new();
    loop
        invariant
            out@ + it.remaining() == s@,
            it.decrease() is Some,
        decreases it.decrease()->0,
    {
        let ghost before = it.remaining();
        match it.next() {
            Some(c) => {
                out.push(c);
                assert(out@ + it.remaining() =~= s@);
            },
            None => {
                assert(out@ =~= s@);
                return out;
            },
        }
    }
}

/// Appends `c` to `s`, by std's `String::push`. Trusted: the string's characters gain `c`
/// at the end and are otherwise unchanged.
#[verifier::external_body]
fn push_char(s: &mut String, c: char)
    ensures
        final(s)@ == old(s)@.push(c),
{
    s.push(c);
}

/// The string made of the characters `cs`.
fn string_of(cs: &[char]) -> (r: String)
    ensures
        r@ == cs@,
{
    let mut s = String::new();
    let mut i: usize = 0;
    while i < cs.len()
        invariant
            i <= cs@.len(),
            s@ == cs@.take(i as int),
        decreases cs@.len() - i,
    {
        push_char(&mut s, cs[i]);
        assert(cs@.take(i + 1) =~= cs@.take(i as int).push(cs@[i as int]));
        i = i + 1;
    }
    assert(cs@.take(i as int) =~= cs@);
    s
}

/// Whether the characters `a` spell `lit`.
fn chars_eq(a: &[char], lit: &str) -> (r: bool)
    ensures
        r == (a@ == lit@),
{
    let n = lit.unicode_len();
    if a.len() != n {
        return false;
    }
    let mut i: usize = 0;
    while i < n
        invariant
            n == lit@.len(),
            a@.len() == n,
            i <= n,
            forall|j: int| 0 <= j < i ==> a@[j] == lit@[j],
        decreases n - i,
    {
        if a[i] != lit.get_char(i) {
            return false;
        }
        i = i + 1;
    }
    assert(a@ =~= lit@);
    true
}

/// The maximal runs of non-whitespace characters of `s`, in order.
pub open spec fn words(s: Seq<char>) -> Seq<Seq<char>>
    decreases s.len(),
{
    if s.len() == 0 {
        Seq::empty()
    } else {
        let w = words(s.drop_last());
        let c = s.last();
        if is_ws(c) {
            w
        } else if s.len() >= 2 && !is_ws(s[s.len() - 2]) {
            w.update(w.len() - 1, w.last().push(c))
        } else {
            w.push(seq![c])
        }
    }
}

proof fn lemma_words_shape(s: Seq<char>)
    ensures
        forall|k: int| 0 <= k < words(s).len() ==> #[trigger] words(s)[k].len() > 0,
        s.len() > 0 && !is_ws(s.last()) ==> words(s).len() > 0,
    decreases s.len(),
{
    if s.len() > 0 {
        let p = s.drop_last();
        lemma_words_shape(p);
        let w = words(p);
        if !is_ws(s.last()) {
            if s.len() >= 2 && !is_ws(s[s.len() - 2]) {
                assert(p.last() == s[s.len() - 2]);
                assert forall|k: int| 0 <= k < words(s).len() implies #[trigger] words(s)[k].len() > 0 by {
                    if k < w.len() - 1 {
                        assert(words(s)[k] == w[k]);
                    }
                }
            } else {
                assert forall|k: int| 0 <= k < words(s).len() implies #[trigger] words(s)[k].len() > 0 by {
                    if k < w.len() {
                        assert(words(s)[k] == w[k]);
                    }
                }
            }
        }
    }
}

/// Splits `line` into whitespace-separated words.
fn words_exec(line: &[char]) -> (r: Vec<Vec<char>>)
    ensures
        r@.map_values(|w: Vec<char>| w@) == words(line@),
        forall|k: int| 0 <= k < r@.len() ==> #[trigger] r@[k]@.len() > 0,
{
    let mut out: Vec<Vec<char>> = Vec::new();
    let mut i: usize = 0;
    assert(line@.take(0) =~= Seq::<char>::empty());
    assert(out@.map_values(|w: Vec<char>| w@) =~= Seq::<Seq<char>>::empty());
    while i < line.len()
        invariant
            i <= line@.len(),
            out@.map_values(|w: Vec<char>| w@) == words(line@.take(i as int)),
        decreases line@.len() - i,
    {
        let c = line[i];
        let ghost pre = line@.take(i as int);
        let ghost cur = line@.take(i + 1);
        proof {
            assert(cur.drop_last() =~= pre);
            assert(cur.last() == c);
            lemma_words_shape(pre);
        }
        if is_ws_exec(c) {
        } else if i > 0 && !is_ws_exec(line[i - 1]) {
            proof {
                assert(pre.last() == line@[i - 1]);
                assert(cur[cur.len() - 2] == line@[i - 1]);
            }
            let ghost before = out@;
            let mut last = out.pop().unwrap();
            last.push(c);
            out.push(last);
            proof {
                assert(out@.map_values(|w: Vec<char>| w@) =~= words(cur));
            }
        } else {
            let mut w: Vec<char> = Vec::new();
            w.push(c);
            let ghost before = out@;
            out.push(w);
            proof {
                assert(w@ =~= seq![c]);
                assert(out@.map_values(|w: Vec<char>| w@) =~= words(cur));
            }
        }
        i = i + 1;
    }
    proof {
        assert(line@.take(i as int) =~= line@);
        lemma_words_shape(line@);
        assert forall|k: int| 0 <= k < out@.len() implies #[trigger] out@[k]@.len() > 0 by {
            assert(out@.map_values(|w: Vec<char>| w@)[k] == out@[k]@);
        }
    }
    out
}

/// The words joined with single spaces.
pub open spec fn join_words(ws: Seq<Seq<char>>) -> Seq<char>
    decreases ws.len(),
{
    if ws.len() == 0 {
        Seq::empty()
    } else if ws.len() == 1 {
        ws[0]
    } else {
        join_words(ws.drop_last()) + seq![' '] + ws.last()
    }
}

pub open spec fn words_view(ws: Seq<Vec<char>>) -> Seq<Seq<char>> {
    ws.map_values(|w: Vec<char>| w@)
}

/// The words joined with single spaces, as a string.
fn join_exec(ws: &[Vec<char>]) -> (r: String)
    ensures
        r@ == join_words(words_view(ws@)),
{
    let ghost v = words_view(ws@);
    let mut out: Vec<char> = Vec::new();
    let mut i: usize = 0;
    assert(v.take(0) =~= Seq::<Seq<char>>::empty());
    while i < ws.len()
        invariant
            i <= ws@.len(),
            v == words_view(ws@),
            out@ == join_words(v.take(i as int)),
        decreases ws@.len() - i,
    {
        proof {
            assert(v.take(i + 1).drop_last() =~= v.take(i as int));
        }
        let ghost before = out@;
        if i > 0 {
            out.push(' ');
        }
        let w = &ws[i];
        let mut k: usize = 0;
        let ghost base = out@;
        while k < w.len()
            invariant
                k <= w@.len(),
                out@ == base + w@.take(k as int),
            decreases w@.len() - k,
        {
            out.push(w[k]);
            assert(out@ =~= base + w@.take(k + 1));
            k = k + 1;
        }
        proof {
            assert(w@.take(k as int) =~= w@);
            assert(v[i as int] == w@);
            if i == 0 {
                assert(out@ =~= join_words(v.take(1)));
            } else {
                assert(out@ =~= join_words(v.take(i + 1)));
            }
        }
        i = i + 1;
    }
    assert(v.take(i as int) =~= v);
    string_of(out.as_slice())
}

/// The value of digit `c` in base `radix` (10 or 16), or -1.
pub open spec fn digit_value(c: char, radix: int) -> int {
    if '0' <= c <= '9' {
        c as int - 48
    } else if radix == 16 && 'a' <= c <= 'f' {
        c as int - 87
    } else if radix == 16 && 'A' <= c <= 'F' {
        c as int - 55
    } else {
        -1
    }
}

pub open spec fn all_digits(s: Seq<char>, radix: int) -> bool {
    forall|i: int| 0 <= i < s.len() ==> digit_value(#[trigger] s[i], radix) >= 0
}

/// The number written by the digits `s` in base `radix`.
pub open spec fn digits_value(s: Seq<char>, radix: int) -> int
    decreases s.len(),
{
    if s.len() == 0 {
        0
    } else {
        radix * digits_value(s.drop_last(), radix) + digit_value(s.last(), radix)
    }
}

/// A number read as std's `from_str_radix` reads an unsigned type whose largest value is
/// `max`: an optional `+`, then at least one digit; `None` when it does not fit.
pub open spec fn parse_unsigned(s: Seq<char>, radix: int, max: int) -> Option<int> {
    let body = if s.len() > 0 && s[0] == '+' { s.drop_first() } else { s };
    if body.len() > 0 && all_digits(body, radix) && digits_value(body, radix) <= max {
        Some(digits_value(body, radix))
    } else {
        None
    }
}

/// A decimal number read as std's `parse` reads a signed type with range `min..=max`.
pub open spec fn parse_signed(s: Seq<char>, min: int, max: int) -> Option<int> {
    if s.len() > 0 && s[0] == '-' {
        let body = s.drop_first();
        if body.len() > 0 && all_digits(body, 10) && -digits_value(body, 10) >= min {
            Some(-digits_value(body, 10))
        } else {
            None
        }
    } else {
        parse_unsigned(s, 10, max)
    }
}

/// `o`'s value, or `d`.
pub open spec fn or_default(o: Option<int>, d: int) -> int {
    match o {
        Some(v) => v,
        None => d,
    }
}

proof fn lemma_digits_nonneg(s: Seq<char>, radix: int)
    requires
        radix == 10 || radix == 16,
        all_digits(s, radix),
    ensures
        digits_value(s, radix) >= 0,
    decreases s.len(),
{
    if s.len() > 0 {
        lemma_digits_nonneg(s.drop_last(), radix);
        assert(digit_value(s[s.len() - 1], radix) >= 0);
    }
}

proof fn lemma_parse_unsigned_range(s: Seq<char>, radix: int, max: int)
    requires
        radix == 10 || radix == 16,
    ensures
        parse_unsigned(s, radix, max) matches Some(w) ==> 0 <= w <= max,
{
    let body = if s.len() > 0 && s[0] == '+' { s.drop_first() } else { s };
    if all_digits(body, radix) {
        lemma_digits_nonneg(body, radix);
    }
}

/// The digits of `s` from `start` on, in base `radix`, when there is at least one, all are
/// digits and the value is at most `limit`.
fn digits_exec(s: &[char], start: usize, radix: u32, limit: u64) -> (r: Option<u64>)
    requires
        start <= s@.len(),
        radix == 10 || radix == 16,
    ensures
        ({
            let body = s@.skip(start as int);
            if body.len() > 0 && all_digits(body, radix as int) && digits_value(body, radix as int) <= limit {
                r == Some(digits_value(body, radix as int) as u64)
            } else {
                r is None
            }
        }),
        r matches Some(v) ==> v <= limit && v == digits_value(s@.skip(start as int), radix as int),
{
    let ghost body = s@.skip(start as int);
    let mut acc: u64 = 0;
    let mut over = false;
    let mut i: usize = start;
    assert(body.take(0) =~= Seq::<char>::empty());
    while i < s.len()
        invariant
            start <= i <= s@.len(),
            body == s@.skip(start as int),
            radix == 10 || radix == 16,
            all_digits(body.take(i - start), radix as int),
            !over ==> acc == digits_value(body.take(i - start), radix as int) && acc <= limit,
            over ==> digits_value(body.take(i - start), radix as int) > limit,
        decreases s@.len() - i,
    {
        let c = s[i];
        let ghost pre = body.take(i - start);
        let ghost cur = body.take(i - start + 1);
        proof {
            assert(cur.drop_last() =~= pre);
            assert(cur.last() == c);
            lemma_digits_nonneg(pre, radix as int);
        }
        let d: u64 = if '0' <= c && c <= '9' {
            (c as u32 - 48) as u64
        } else if radix == 16 && 'a' <= c && c <= 'f' {
            (c as u32 - 87) as u64
        } else if radix == 16 && 'A' <= c && c <= 'F' {
            (c as u32 - 55) as u64
        } else {
            return None;
        };
        assert(d == digit_value(c, radix as int));
        if !over {
            let scaled: u128 = if radix == 10 { (acc as u128) * 10 } else { (acc as u128) * 16 };
            let next: u128 = scaled + (d as u128);
            if next > limit as u128 {
                over = true;
            } else {
                acc = next as u64;
            }
        } else {
            proof {
                assert(digits_value(cur, radix as int) >= digits_value(pre, radix as int)) by (nonlinear_arith)
                    requires
                        digits_value(cur, radix as int) == radix * digits_value(pre, radix as int) + d,
                        digits_value(pre, radix as int) >= 0,
                        radix >= 10,
                        d >= 0,
                ;
            }
        }
        proof {
            assert forall|k: int| 0 <= k < cur.len() implies digit_value(#[trigger] cur[k], radix as int) >= 0 by {
                if k < pre.len() {
                    assert(cur[k] == pre[k]);
                }
            }
        }
        i = i + 1;
    }
    proof {
        assert(body.take(i - start) =~= body);
    }
    if over || i == start {
        None
    } else {
        Some(acc)
    }
}

/// `s` read as an unsigned number in base `radix` no larger than `max`.
fn parse_unsigned_exec(s: &[char], radix: u32, max: u64) -> (r: Option<u64>)
    requires
        radix == 10 || radix == 16,
    ensures
        r == (match parse_unsigned(s@, radix as int, max as int) {
            Some(v) => Some(v as u64),
            None => None,
        }),
        parse_unsigned(s@, radix as int, max as int) matches Some(w) ==> 0 <= w <= max,
{
    proof {
        lemma_parse_unsigned_range(s@, radix as int, max as int);
    }
    let start: usize = if s.len() > 0 && s[0] == '+' { 1 } else { 0 };
    proof {
        if start == 1 {
            assert(s@.skip(1) =~= s@.drop_first());
        } else {
            assert(s@.skip(0) =~= s@);
        }
    }
    digits_exec(s, start, radix, max)
}

/// `s` read as a decimal number in `min..=max`, where `min < 0 <= max`.
fn parse_signed_exec(s: &[char], min: i64, max: i64) -> (r: Option<i64>)
    requires
        min < 0 <= max,
    ensures
        r == (match parse_signed(s@, min as int, max as int) {
            Some(v) => Some(v as i64),
            None => None,
        }),
        parse_signed(s@, min as int, max as int) matches Some(w) ==> min <= w <= max,
{
    proof {
        if s@.len() > 0 && s@[0] == '-' {
            if all_digits(s@.drop_first(), 10) {
                lemma_digits_nonneg(s@.drop_first(), 10);
            }
        }
    }
    if s.len() > 0 && s[0] == '-' {
        let limit: u64 = (0i128 - (min as i128)) as u64;
        assert(limit == -min);
        assert(s@.skip(1) =~= s@.drop_first());
        match digits_exec(s, 1, 10, limit) {
            Some(m) => {
                let v = (0i128 - (m as i128)) as i64;
                assert(v == -m);
                Some(v)
            },
            None => None,
        }
    } else {
        proof {
            lemma_parse_unsigned_range(s@, 10, max as int);
        }
        match parse_unsigned_exec(s, 10, max as u64) {
            Some(v) => Some(v as i64),
            None => None,
        }
    }
}

/// The 32-bit FNV-1a hash of `b`.
pub open spec fn fnv1a(b: Seq<u8>) -> u32
    decreases b.len(),
{
    if b.len() == 0 {
        2166136261
    } else {
        (fnv1a(b.drop_last()) ^ (b.last() as u32)).wrapping_mul(16777619)
    }
}

/// The hash of a name: FNV-1a over its UTF-8 bytes.
pub open spec fn name_hash(w: Seq<char>) -> u32 {
    fnv1a(vstd::utf8::encode_utf8(w))
}

fn hash_name(w: &[char]) -> (r: u32)
    ensures
        r == name_hash(w@),
{
    let s = string_of(w);
    let b = s.as_str().as_bytes();
    let mut h: u32 = 2166136261;
    let mut i: usize = 0;
    while i < b.len()
        invariant
            i <= b@.len(),
            b@ == vstd::utf8::encode_utf8(w@),
            h == fnv1a(b@.take(i as int)),
        decreases b@.len() - i,
    {
        assert(b@.take(i + 1).drop_last() =~= b@.take(i as int));
        h = (h ^ (b[i] as u32)).wrapping_mul(16777619);
        i = i + 1;
    }
    assert(b@.take(i as int) =~= b@);
    h
}

/// `w` begins with `p`.
pub open spec fn has_prefix(w: Seq<char>, p: Seq<char>) -> bool {
    p.len() <= w.len() && w.take(p.len() as int) == p
}

fn starts_with_lit(w: &[char], lit: &str) -> (r: bool)
    ensures
        r == has_prefix(w@, lit@),
{
    let n = lit.unicode_len();
    if w.len() < n {
        return false;
    }
    let mut i: usize = 0;
    while i < n
        invariant
            n == lit@.len(),
            n <= w@.len(),
            i <= n,
            forall|j: int| 0 <= j < i ==> w@[j] == lit@[j],
        decreases n - i,
    {
        if w[i] != lit.get_char(i) {
            assert(w@.take(n as int)[i as int] != lit@[i as int]);
            return false;
        }
        i = i + 1;
    }
    assert(w@.take(n as int) =~= lit@);
    true
}

/// A decimal `u32` field.
pub open spec fn u32_field(w: Seq<char>) -> Option<int> {
    parse_unsigned(w, 10, 0xffff_ffff)
}

fn u32_field_exec(w: &[char]) -> (r: Result<u32>)
    ensures
        match u32_field(w@) {
            Some(v) => r == Ok::<u32, DecodeError>(v as u32),
            None => r == Err::<u32, DecodeError>(DecodeError::InvalidField("number")),
        },
{
    match parse_unsigned_exec(w, 10, 0xffff_ffff) {
        Some(v) => Ok(v as u32),
        None => Err(DecodeError::InvalidField("number")),
    }
}

pub open spec fn device_class_word(w: Seq<char>) -> DeviceClass {
    if w == "gateway"@ {
        DeviceClass::Gateway
    } else if w == "climate"@ {
        DeviceClass::ClimateSensor
    } else if w == "moisture"@ {
        DeviceClass::MoistureProbe
    } else if w == "valve"@ {
        DeviceClass::Valve
    } else if w == "pump"@ {
        DeviceClass::NutrientPump
    } else if w == "light"@ {
        DeviceClass::LightingRail
    } else if w == "camera"@ {
        DeviceClass::Camera
    } else {
        DeviceClass::Unknown(name_hash(w) as u8)
    }
}

fn device_class_exec(w: &[char]) -> (r: DeviceClass)
    ensures
        r == device_class_word(w@),
{
    if chars_eq(w, "gateway") {
        DeviceClass::Gateway
    } else if chars_eq(w, "climate") {
        DeviceClass::ClimateSensor
    } else if chars_eq(w, "moisture") {
        DeviceClass::MoistureProbe
    } else if chars_eq(w, "valve") {
        DeviceClass::Valve
    } else if chars_eq(w, "pump") {
        DeviceClass::NutrientPump
    } else if chars_eq(w, "light") {
        DeviceClass::LightingRail
    } else if chars_eq(w, "camera") {
        DeviceClass::Camera
    } else {
        DeviceClass::Unknown(hash_name(w) as u8)
    }
}

/// The channels and calibration values among a device's extra fields: `cal=` fields give
/// a calibration value (0 when unreadable), the others name channels.
pub open spec fn device_extras(xs: Seq<Seq<char>>) -> (Seq<Seq<char>>, Seq<i32>)
    decreases xs.len(),
{
    if xs.len() == 0 {
        (Seq::empty(), Seq::empty())
    } else {
        let (ch, cal) = device_extras(xs.drop_last());
        let x = xs.last();
        if has_prefix(x, "cal="@) {
            (ch, cal.push(or_default(parse_signed(x.skip(4), -0x8000_0000, 0x7fff_ffff), 0) as i32))
        } else {
            (ch.push(x), cal)
        }
    }
}

/// The device of a `device` line: id, class, zone, alias, crop, then extra fields.
pub open spec fn device_line(f: Seq<Seq<char>>) -> core::result::Result<DeviceView, DecodeErrorView> {
    if f.len() < 5 {
        Err(DecodeErrorView::InvalidField("device text"))
    } else {
        let ex = device_extras(f.skip(5));
        match (u32_field(f[0]), u32_field(f[2])) {
            (Some(id), Some(zone)) => Ok(
                DeviceView {
                    id: id as u32,
                    alias: f[3],
                    class: device_class_word(f[1]),
                    zone: zone as u32,
                    crop: f[4],
                    firmware: 1,
                    channels: ex.0,
                    calibration: ex.1,
                },
            ),
            _ => Err(DecodeErrorView::InvalidField("number")),
        }
    }
}

fn parse_device_line(f: &[Vec<char>]) -> (r: Result<Device>)
    ensures
        res_view(r) == device_line(words_view(f@)),
{
    let ghost v = words_view(f@);
    if f.len() < 5 {
        return Err(DecodeError::InvalidField("device text"));
    }
    proof {
        assert(v[0] == f@[0]@ && v[1] == f@[1]@ && v[2] == f@[2]@ && v[3] == f@[3]@ && v[4] == f@[4]@);
    }
    let class = device_class_exec(f[1].as_slice());
    let mut channels: Vec<String> = Vec::new();
    let mut calibration: Vec<i32> = Vec::new();
    let mut i: usize = 5;
    assert(v.skip(5).take(0) =~= Seq::<Seq<char>>::empty());
    assert(crate::model::strings_view(channels@) =~= Seq::<Seq<char>>::empty());
    while i < f.len()
        invariant
            5 <= i <= f@.len(),
            v == words_view(f@),
            (crate::model::strings_view(channels@), calibration@) == device_extras(v.skip(5).take(i - 5)),
        decreases f@.len() - i,
    {
        let x = f[i].as_slice();
        proof {
            assert(v.skip(5).take(i - 4).drop_last() =~= v.skip(5).take(i - 5));
            assert(v.skip(5).take(i - 4).last() == x@);
        }
        proof {
            reveal_strlit("cal=");
        }
        if starts_with_lit(x, "cal=") {
            let value = parse_signed_exec(&x[4..x.len()], -0x8000_0000, 0x7fff_ffff);
            assert(x@.subrange(4, x@.len() as int) =~= x@.skip(4));
            let c: i32 = match value {
                Some(n) => n as i32,
                None => 0,
            };
            calibration.push(c);
        } else {
            let ghost before = channels@;
            channels.push(string_of(x));
            assert(crate::model::strings_view(channels@) =~= crate::model::strings_view(before).push(x@));
        }
        i = i + 1;
    }
    assert(v.skip(5).take(i - 5) =~= v.skip(5));
    let id = u32_field_exec(f[0].as_slice())?;
    let zone = u32_field_exec(f[2].as_slice())?;
    Ok(Device {
        id: DeviceId(id),
        class,
        zone: ZoneId(zone),
        alias: string_of(f[3].as_slice()),
        crop: string_of(f[4].as_slice()),
        firmware: 1,
        channels,
        calibration,
    })
}

pub open spec fn link_kind_word(w: Seq<char>) -> LinkKind {
    if w == "parent"@ {
        LinkKind::Parent
    } else if w == "neighbor"@ {
        LinkKind::Neighbor
    } else if w == "backup"@ {
        LinkKind::Backup
    } else if w == "controls"@ {
        LinkKind::Controls
    } else if w == "observes"@ {
        LinkKind::Observes
    } else {
        LinkKind::Unknown(name_hash(w) as u8)
    }
}

/// The link of a `link` line: from, to, kind, weight (1 when unreadable).
pub open spec fn link_line(f: Seq<Seq<char>>) -> core::result::Result<Link, DecodeErrorView> {
    if f.len() < 4 {
        Err(DecodeErrorView::InvalidField("link text"))
    } else {
        match (u32_field(f[0]), u32_field(f[1])) {
            (Some(from), Some(to)) => Ok(
                Link {
                    from: DeviceId(from as u32),
                    to: DeviceId(to as u32),
                    kind: link_kind_word(f[2]),
                    weight: or_default(parse_signed(f[3], -0x8000, 0x7fff), 1) as i16,
                },
            ),
            _ => Err(DecodeErrorView::InvalidField("number")),
        }
    }
}

fn parse_link_line(f: &[Vec<char>]) -> (r: Result<Link>)
    ensures
        err_view_link(r) == link_line(words_view(f@)),
{
    let ghost v = words_view(f@);
    if f.len() < 4 {
        return Err(DecodeError::InvalidField("link text"));
    }
    proof {
        assert(v[0] == f@[0]@ && v[1] == f@[1]@ && v[2] == f@[2]@ && v[3] == f@[3]@);
    }
    let w = f[2].as_slice();
    let kind = if chars_eq(w, "parent") {
        LinkKind::Parent
    } else if chars_eq(w, "neighbor") {
        LinkKind::Neighbor
    } else if chars_eq(w, "backup") {
        LinkKind::Backup
    } else if chars_eq(w, "controls") {
        LinkKind::Controls
    } else if chars_eq(w, "observes") {
        LinkKind::Observes
    } else {
        LinkKind::Unknown(hash_name(w) as u8)
    };
    let from = u32_field_exec(f[0].as_slice())?;
    let to = u32_field_exec(f[1].as_slice())?;
    let weight: i16 = match parse_signed_exec(f[3].as_slice(), -0x8000, 0x7fff) {
        Some(n) => n as i16,
        None => 1,
    };
    Ok(Link { from: DeviceId(from), to: DeviceId(to), kind, weight })
}

/// A result whose error is taken by its view and whose value is kept.
pub open spec fn err_view_link(r: core::result::Result<Link, DecodeError>) -> core::result::Result<
    Link,
    DecodeErrorView,
> {
    crate::error::err_view(r)
}

/// The window of a `window` line: zone, start, end (minutes taken modulo a day), target,
/// recurrence and an optional label.
pub open spec fn window_line(f: Seq<Seq<char>>) -> core::result::Result<ScheduleWindowView, DecodeErrorView> {
    if f.len() < 5 {
        Err(DecodeErrorView::InvalidField("window text"))
    } else {
        match u32_field(f[0]) {
            Some(zone) => Ok(
                ScheduleWindowView {
                    zone: zone as u32,
                    start_minute: (or_default(parse_unsigned(f[1], 10, 0xffff), 0) % 1440) as u16,
                    end_minute: (or_default(parse_unsigned(f[2], 10, 0xffff), 0) % 1440) as u16,
                    target: or_default(parse_signed(f[3], -0x8000_0000, 0x7fff_ffff), 0) as i32,
                    recurrence: or_default(parse_unsigned(f[4], 10, 0xff), 0) as u8,
                    label: if f.len() > 5 { f[5] } else { "window"@ },
                },
            ),
            None => Err(DecodeErrorView::InvalidField("number")),
        }
    }
}

fn parse_window_line(f: &[Vec<char>]) -> (r: Result<ScheduleWindow>)
    ensures
        res_view(r) == window_line(words_view(f@)),
{
    let ghost v = words_view(f@);
    if f.len() < 5 {
        return Err(DecodeError::InvalidField("window text"));
    }
    proof {
        assert(v[0] == f@[0]@ && v[1] == f@[1]@ && v[2] == f@[2]@ && v[3] == f@[3]@ && v[4] == f@[4]@);
        if f@.len() > 5 {
            assert(v[5] == f@[5]@);
        }
        lemma_parse_unsigned_range(v[1], 10, 0xffff);
        lemma_parse_unsigned_range(v[2], 10, 0xffff);
    }
    let zone = u32_field_exec(f[0].as_slice())?;
    let start: u16 = match parse_unsigned_exec(f[1].as_slice(), 10, 0xffff) {
        Some(n) => n as u16,
        None => 0,
    };
    let end: u16 = match parse_unsigned_exec(f[2].as_slice(), 10, 0xffff) {
        Some(n) => n as u16,
        None => 0,
    };
    let target: i32 = match parse_signed_exec(f[3].as_slice(), -0x8000_0000, 0x7fff_ffff) {
        Some(n) => n as i32,
        None => 0,
    };
    let recurrence: u8 = match parse_unsigned_exec(f[4].as_slice(), 10, 0xff) {
        Some(n) => n as u8,
        None => 0,
    };
    let label = if f.len() > 5 {
        string_of(f[5].as_slice())
    } else {
        "window".to_owned()
    };
    Ok(ScheduleWindow {
        zone: ZoneId(zone),
        start_minute: start % 1440,
        end_minute: end % 1440,
        target,
        recurrence,
        label,
    })
}

pub open spec fn sample_kind_word(w: Seq<char>) -> SampleKind {
    if w == "temp"@ {
        SampleKind::Temperature
    } else if w == "humidity"@ {
        SampleKind::Humidity
    } else if w == "co2"@ {
        SampleKind::Co2
    } else if w == "moisture"@ {
        SampleKind::Moisture
    } else if w == "ph"@ {
        SampleKind::Ph
    } else if w == "ec"@ {
        SampleKind::Ec
    } else if w == "flow"@ {
        SampleKind::Flow
    } else if w == "light"@ {
        SampleKind::Light
    } else {
        SampleKind::Unknown(name_hash(w) as u8)
    }
}

/// The pieces of `s` between commas (one more than there are commas).
pub open spec fn split_commas(s: Seq<char>) -> Seq<Seq<char>>
    decreases s.len(),
{
    if s.len() == 0 {
        seq![Seq::empty()]
    } else {
        let p = split_commas(s.drop_last());
        if s.last() == ',' {
            p.push(Seq::empty())
        } else {
            p.update(p.len() - 1, p.last().push(s.last()))
        }
    }
}

proof fn lemma_split_commas_len(s: Seq<char>)
    ensures
        split_commas(s).len() > 0,
    decreases s.len(),
{
    if s.len() > 0 {
        lemma_split_commas_len(s.drop_last());
    }
}

/// A decimal `i64`, or 0 when unreadable.
pub open spec fn i64_or_zero(p: Seq<char>) -> i64 {
    or_default(parse_signed(p, -0x8000_0000_0000_0000, 0x7fff_ffff_ffff_ffff), 0) as i64
}

/// The values of a comma-separated sample item.
pub open spec fn comma_values(s: Seq<char>) -> Seq<i64> {
    split_commas(s).map_values(|p: Seq<char>| i64_or_zero(p))
}

fn comma_values_exec(item: &[char]) -> (r: Vec<i64>)
    ensures
        r@ == comma_values(item@),
{
    let mut values: Vec<i64> = Vec::new();
    let mut cur: Vec<char> = Vec::new();
    let mut i: usize = 0;
    assert(item@.take(0) =~= Seq::<char>::empty());
    assert(values@ =~= split_commas(item@.take(0)).drop_last().map_values(|p: Seq<char>| i64_or_zero(p)));
    while i < item.len()
        invariant
            i <= item@.len(),
            split_commas(item@.take(i as int)).len() > 0,
            values@ == split_commas(item@.take(i as int)).drop_last().map_values(|p: Seq<char>| i64_or_zero(p)),
            cur@ == split_commas(item@.take(i as int)).last(),
        decreases item@.len() - i,
    {
        let ghost pre = item@.take(i as int);
        let ghost now = item@.take(i + 1);
        proof {
            assert(now.drop_last() =~= pre);
            lemma_split_commas_len(now);
        }
        let c = item[i];
        if c == ',' {
            let v: i64 = match parse_signed_exec(cur.as_slice(), -0x8000_0000_0000_0000, 0x7fff_ffff_ffff_ffff) {
                Some(n) => n,
                None => 0,
            };
            values.push(v);
            cur = Vec::new();
            proof {
                assert(split_commas(now).drop_last() =~= split_commas(pre));
                assert(values@ =~= split_commas(now).drop_last().map_values(|p: Seq<char>| i64_or_zero(p)));
                assert(cur@ =~= split_commas(now).last());
            }
        } else {
            cur.push(c);
            proof {
                assert(split_commas(now).drop_last() =~= split_commas(pre).drop_last());
                assert(cur@ =~= split_commas(now).last());
            }
        }
        i = i + 1;
    }
    let v: i64 = match parse_signed_exec(cur.as_slice(), -0x8000_0000_0000_0000, 0x7fff_ffff_ffff_ffff) {
        Some(n) => n,
        None => 0,
    };
    values.push(v);
    proof {
        assert(item@.take(i as int) =~= item@);
        let sp = split_commas(item@);
        assert(sp =~= sp.drop_last().push(sp.last()));
        assert(values@ =~= comma_values(item@));
    }
    values
}

/// The rows of a sample line: one per item, a minute apart.
pub open spec fn sample_rows(xs: Seq<Seq<char>>) -> Seq<SampleRowView> {
    Seq::new(
        xs.len(),
        |i: int| SampleRowView { timestamp_delta: (i as u32).wrapping_mul(60), values: comma_values(xs[i]) },
    )
}

/// The page of a `sample` line: device, kind, base timestamp, then one row per item.
pub open spec fn sample_line(f: Seq<Seq<char>>) -> core::result::Result<SamplePageView, DecodeErrorView> {
    if f.len() < 4 {
        Err(DecodeErrorView::InvalidField("sample text"))
    } else {
        match u32_field(f[0]) {
            Some(device) => Ok(
                SamplePageView {
                    device: device as u32,
                    kind: sample_kind_word(f[1]),
                    base_timestamp: or_default(parse_unsigned(f[2], 10, 0xffff_ffff_ffff_ffff), 0) as u64,
                    scale: 1,
                    rows: sample_rows(f.skip(3)),
                },
            ),
            None => Err(DecodeErrorView::InvalidField("number")),
        }
    }
}

fn parse_sample_line(f: &[Vec<char>]) -> (r: Result<SamplePage>)
    ensures
        res_view(r) == sample_line(words_view(f@)),
{
    let ghost v = words_view(f@);
    if f.len() < 4 {
        return Err(DecodeError::InvalidField("sample text"));
    }
    proof {
        assert(v[0] == f@[0]@ && v[1] == f@[1]@ && v[2] == f@[2]@);
    }
    let w = f[1].as_slice();
    let kind = if chars_eq(w, "temp") {
        SampleKind::Temperature
    } else if chars_eq(w, "humidity") {
        SampleKind::Humidity
    } else if chars_eq(w, "co2") {
        SampleKind::Co2
    } else if chars_eq(w, "moisture") {
        SampleKind::Moisture
    } else if chars_eq(w, "ph") {
        SampleKind::Ph
    } else if chars_eq(w, "ec") {
        SampleKind::Ec
    } else if chars_eq(w, "flow") {
        SampleKind::Flow
    } else if chars_eq(w, "light") {
        SampleKind::Light
    } else {
        SampleKind::Unknown(hash_name(w) as u8)
    };
    let mut rows: Vec<SampleRow> = Vec::new();
    let mut i: usize = 3;
    let ghost xs = v.skip(3);
    while i < f.len()
        invariant
            3 <= i <= f@.len(),
            v == words_view(f@),
            xs == v.skip(3),
            crate::model::rows_view(rows@) == sample_rows(xs).take(i - 3),
        decreases f@.len() - i,
    {
        let idx = i - 3;
        let values = comma_values_exec(f[i].as_slice());
        let ghost vals = values@;
        let ghost before = rows@;
        proof {
            assert(crate::model::rows_view(before).len() == before.len());
            assert(before.len() == idx);
        }
        rows.push(SampleRow { timestamp_delta: (idx as u32).wrapping_mul(60), values });
        proof {
            assert(xs[idx as int] == f@[i as int]@);
            let want = sample_rows(xs);
            assert(want[idx as int].values == comma_values(xs[idx as int]));
            assert(want[idx as int].timestamp_delta == (idx as u32).wrapping_mul(60));
            assert(rows@.len() == idx + 1);
            assert(rows@[idx as int].values@ == vals);
            assert(crate::model::rows_view(rows@)[idx as int] == rows@[idx as int]@);
            assert(crate::model::rows_view(rows@)[idx as int] == want[idx as int]);
            assert(crate::model::rows_view(rows@) =~= want.take(i - 2));
        }
        i = i + 1;
    }
    assert(sample_rows(xs).take(i - 3) =~= sample_rows(xs));
    let device = u32_field_exec(f[0].as_slice())?;
    let base: u64 = match parse_unsigned_exec(f[2].as_slice(), 10, 0xffff_ffff_ffff_ffff) {
        Some(n) => n,
        None => 0,
    };
    Ok(SamplePage { device: DeviceId(device), kind, base_timestamp: base, scale: 1, rows })
}

pub open spec fn journal_kind_word(w: Seq<char>) -> JournalKind {
    if w == "boot"@ {
        JournalKind::Boot
    } else if w == "alarm"@ {
        JournalKind::Alarm
    } else if w == "ack"@ {
        JournalKind::OperatorAck
    } else if w == "config"@ {
        JournalKind::ConfigChange
    } else if w == "rule"@ {
        JournalKind::RuleAction
    } else if w == "gap"@ {
        JournalKind::SampleGap
    } else {
        JournalKind::Unknown(name_hash(w) as u8)
    }
}

/// The entry of a `journal` line: timestamp, kind, device, severity, then the message.
pub open spec fn journal_line(f: Seq<Seq<char>>) -> core::result::Result<JournalEntryView, DecodeErrorView> {
    if f.len() < 5 {
        Err(DecodeErrorView::InvalidField("journal text"))
    } else {
        match u32_field(f[2]) {
            Some(device) => Ok(
                JournalEntryView {
                    timestamp: or_default(parse_unsigned(f[0], 10, 0xffff_ffff_ffff_ffff), 0) as u64,
                    kind: journal_kind_word(f[1]),
                    device: device as u32,
                    severity: or_default(parse_unsigned(f[3], 10, 0xff), 0) as u8,
                    message: join_words(f.skip(4)),
                    payload: Seq::empty(),
                },
            ),
            None => Err(DecodeErrorView::InvalidField("number")),
        }
    }
}

/// The six journal kind words name six different kinds: `boot`, `alarm`, `ack`,
/// `config`, `rule` and `gap` decode to boot, alarm, operator acknowledgement,
/// configuration change, rule action and sample gap; no other word gives one of these
/// six kinds, so an entry is an alarm exactly when its word is `alarm`.
pub proof fn law_journal_kind_words(f: Seq<Seq<char>>)
    requires
        f.len() >= 5,
        u32_field(f[2]) is Some,
    ensures
        journal_line(f) is Ok,
        (journal_line(f)->Ok_0.kind == JournalKind::Boot) <==> f[1] == "boot"@,
        (journal_line(f)->Ok_0.kind == JournalKind::Alarm) <==> f[1] == "alarm"@,
        (journal_line(f)->Ok_0.kind == JournalKind::OperatorAck) <==> f[1] == "ack"@,
        (journal_line(f)->Ok_0.kind == JournalKind::ConfigChange) <==> f[1] == "config"@,
        (journal_line(f)->Ok_0.kind == JournalKind::RuleAction) <==> f[1] == "rule"@,
        (journal_line(f)->Ok_0.kind == JournalKind::SampleGap) <==> f[1] == "gap"@,
{
    reveal_strlit("boot");
    reveal_strlit("alarm");
    reveal_strlit("ack");
    reveal_strlit("config");
    reveal_strlit("rule");
    reveal_strlit("gap");
    assert("boot"@.len() != "alarm"@.len());
    assert("boot"@.len() != "ack"@.len());
    assert("boot"@.len() != "config"@.len());
    assert("boot"@[0] != "rule"@[0]);
    assert("boot"@.len() != "gap"@.len());
    assert("alarm"@.len() != "ack"@.len());
    assert("alarm"@.len() != "config"@.len());
    assert("alarm"@.len() != "rule"@.len());
    assert("alarm"@.len() != "gap"@.len());
    assert("ack"@.len() != "config"@.len());
    assert("ack"@.len() != "rule"@.len());
    assert("ack"@[0] != "gap"@[0]);
    assert("config"@.len() != "rule"@.len());
    assert("config"@.len() != "gap"@.len());
    assert("rule"@.len() != "gap"@.len());
}

fn parse_journal_line(f: &[Vec<char>]) -> (r: Result<JournalEntry>)
    ensures
        res_view(r) == journal_line(words_view(f@)),
{
    let ghost v = words_view(f@);
    if f.len() < 5 {
        return Err(DecodeError::InvalidField("journal text"));
    }
    proof {
        assert(v[0] == f@[0]@ && v[1] == f@[1]@ && v[2] == f@[2]@ && v[3] == f@[3]@);
        assert(words_view(f@.subrange(4, f@.len() as int)) =~= v.skip(4));
    }
    let w = f[1].as_slice();
    let kind = if chars_eq(w, "boot") {
        JournalKind::Boot
    } else if chars_eq(w, "alarm") {
        JournalKind::Alarm
    } else if chars_eq(w, "ack") {
        JournalKind::OperatorAck
    } else if chars_eq(w, "config") {
        JournalKind::ConfigChange
    } else if chars_eq(w, "rule") {
        JournalKind::RuleAction
    } else if chars_eq(w, "gap") {
        JournalKind::SampleGap
    } else {
        JournalKind::Unknown(hash_name(w) as u8)
    };
    let timestamp: u64 = match parse_unsigned_exec(f[0].as_slice(), 10, 0xffff_ffff_ffff_ffff) {
        Some(n) => n,
        None => 0,
    };
    let device = u32_field_exec(f[2].as_slice())?;
    let severity: u8 = match parse_unsigned_exec(f[3].as_slice(), 10, 0xff) {
        Some(n) => n as u8,
        None => 0,
    };
    let message = join_exec(&f[4..f.len()]);
    let payload: Vec<u8> = Vec::new();
    assert(payload@ =~= Seq::<u8>::empty());
    Ok(JournalEntry { timestamp, kind, device: DeviceId(device), severity, message, payload })
}

/// `s` without its leading `0x` prefixes.
pub open spec fn strip_0x(s: Seq<char>) -> Seq<char>
    decreases s.len(),
{
    if s.len() >= 2 && s[0] == '0' && s[1] == 'x' {
        strip_0x(s.skip(2))
    } else {
        s
    }
}

/// The bytes of a rule line's hexadecimal tokens; unreadable tokens are skipped.
pub open spec fn rule_bytes(xs: Seq<Seq<char>>) -> Seq<u8>
    decreases xs.len(),
{
    if xs.len() == 0 {
        Seq::empty()
    } else {
        let b = rule_bytes(xs.drop_last());
        match parse_unsigned(strip_0x(xs.last()), 16, 0xff) {
            Some(v) => b.push(v as u8),
            None => b,
        }
    }
}

/// The rule set of a `rule` line: a name, then bytecode.
pub open spec fn rule_line(f: Seq<Seq<char>>) -> core::result::Result<RuleSetView, DecodeErrorView> {
    if f.len() < 2 {
        Err(DecodeErrorView::InvalidField("rule text"))
    } else {
        Ok(RuleSetView { name: f[0], bytecode: rule_bytes(f.skip(1)), labels: Seq::empty() })
    }
}

fn strip_0x_start(w: &[char]) -> (k: usize)
    ensures
        k <= w@.len(),
        w@.skip(k as int) == strip_0x(w@),
{
    let mut k: usize = 0;
    assert(w@.skip(0) =~= w@);
    while k < w.len() && k + 1 < w.len() && w[k] == '0' && w[k + 1] == 'x'
        invariant
            k <= w@.len(),
            strip_0x(w@.skip(k as int)) == strip_0x(w@),
        decreases w@.len() - k,
    {
        assert(w@.skip(k as int).skip(2) =~= w@.skip(k + 2));
        k = k + 2;
    }
    k
}

fn parse_rule_line(f: &[Vec<char>]) -> (r: Result<RuleSet>)
    ensures
        res_view(r) == rule_line(words_view(f@)),
{
    let ghost v = words_view(f@);
    if f.len() < 2 {
        return Err(DecodeError::InvalidField("rule text"));
    }
    let mut bytecode: Vec<u8> = Vec::new();
    let mut i: usize = 1;
    let ghost xs = v.skip(1);
    assert(xs.take(0) =~= Seq::<Seq<char>>::empty());
    while i < f.len()
        invariant
            1 <= i <= f@.len(),
            v == words_view(f@),
            xs == v.skip(1),
            bytecode@ == rule_bytes(xs.take(i - 1)),
        decreases f@.len() - i,
    {
        let w = f[i].as_slice();
        proof {
            assert(xs.take(i as int).drop_last() =~= xs.take(i - 1));
            assert(xs.take(i as int).last() == w@);
        }
        let k = strip_0x_start(w);
        assert(w@.subrange(k as int, w@.len() as int) =~= w@.skip(k as int));
        match parse_unsigned_exec(&w[k..w.len()], 16, 0xff) {
            Some(b) => bytecode.push(b as u8),
            None => {},
        }
        i = i + 1;
    }
    assert(xs.take(i - 1) =~= xs);
    proof {
        assert(v[0] == f@[0]@);
    }
    let labels: Vec<String> = Vec::new();
    assert(crate::model::strings_view(labels@) =~= Seq::<Seq<char>>::empty());
    Ok(RuleSet { name: string_of(f[0].as_slice()), bytecode, labels })
}

/// The archive after one text line of words `ws` (the first is the line's kind).
pub open spec fn apply_text_line(a: CanopyArchiveView, ws: Seq<Seq<char>>) -> core::result::Result<
    CanopyArchiveView,
    DecodeErrorView,
> {
    let kind = ws[0];
    let f = ws.drop_first();
    if kind == "facility"@ {
        Ok(
            CanopyArchiveView {
                manifest: FacilityManifestView {
                    facility_id: if f.len() > 0 { f[0] } else { "site"@ },
                    site_name: if f.len() > 0 { join_words(f.drop_first()) } else { Seq::empty() },
                    ..a.manifest
                },
                ..a
            },
        )
    } else if kind == "property"@ {
        let key = if f.len() > 0 { f[0] } else { "key"@ };
        let value = if f.len() > 0 { join_words(f.drop_first()) } else { Seq::empty() };
        Ok(
            CanopyArchiveView {
                manifest: FacilityManifestView {
                    properties: map_insert(a.manifest.properties, key, value),
                    ..a.manifest
                },
                ..a
            },
        )
    } else if kind == "device"@ {
        match device_line(f) {
            Ok(d) => Ok(
                CanopyArchiveView {
                    manifest: FacilityManifestView { devices: a.manifest.devices.push(d), ..a.manifest },
                    ..a
                },
            ),
            Err(e) => Err(e),
        }
    } else if kind == "link"@ {
        match link_line(f) {
            Ok(l) => Ok(CanopyArchiveView { links: a.links.push(l), ..a }),
            Err(e) => Err(e),
        }
    } else if kind == "window"@ {
        match window_line(f) {
            Ok(w) => Ok(CanopyArchiveView { windows: a.windows.push(w), ..a }),
            Err(e) => Err(e),
        }
    } else if kind == "sample"@ {
        match sample_line(f) {
            Ok(p) => Ok(CanopyArchiveView { pages: a.pages.push(p), ..a }),
            Err(e) => Err(e),
        }
    } else if kind == "journal"@ {
        match journal_line(f) {
            Ok(j) => Ok(CanopyArchiveView { journals: a.journals.push(j), ..a }),
            Err(e) => Err(e),
        }
    } else if kind == "rule"@ {
        match rule_line(f) {
            Ok(r) => Ok(CanopyArchiveView { rules: a.rules.push(r), ..a }),
            Err(e) => Err(e),
        }
    } else if kind == "note"@ {
        Ok(CanopyArchiveView { notes: a.notes.push(join_words(f)), ..a })
    } else {
        Err(DecodeErrorView::InvalidText(kind))
    }
}

/// The words `f` after the first, as a string (empty when there are none).
fn rest_joined(f: &[Vec<char>]) -> (r: String)
    ensures
        r@ == if words_view(f@).len() > 0 { join_words(words_view(f@).drop_first()) } else { Seq::empty() },
{
    if f.len() == 0 {
        let e = String::new();
        return e;
    }
    let r = join_exec(&f[1..f.len()]);
    assert(words_view(f@.subrange(1, f@.len() as int)) =~= words_view(f@).drop_first());
    r
}

/// Applies one text line of words `ws` to `archive`.
fn apply_text_line_exec(archive: &mut CanopyArchive, ws: &Vec<Vec<char>>) -> (r: Result<()>)
    requires
        ws@.len() > 0,
    ensures
        match apply_text_line(old(archive)@, words_view(ws@)) {
            Ok(a) => r is Ok && final(archive)@ == a,
            Err(e) => r matches Err(x) && x@ == e,
        },
{
    let ghost a = archive@;
    let ghost v = words_view(ws@);
    let kind = ws[0].as_slice();
    let f = &ws.as_slice()[1..ws.len()];
    proof {
        assert(v[0] == ws@[0]@);
        assert(words_view(f@) =~= v.drop_first());
    }
    if chars_eq(kind, "facility") {
        let id = if f.len() > 0 {
            string_of(f[0].as_slice())
        } else {
            "site".to_owned()
        };
        proof {
            if f@.len() > 0 {
                assert(words_view(f@)[0] == f@[0]@);
            }
        }
        archive.manifest.facility_id = id;
        archive.manifest.site_name = rest_joined(f);
        Ok(())
    } else if chars_eq(kind, "property") {
        let key = if f.len() > 0 {
            string_of(f[0].as_slice())
        } else {
            "key".to_owned()
        };
        proof {
            if f@.len() > 0 {
                assert(words_view(f@)[0] == f@[0]@);
            }
        }
        let value = rest_joined(f);
        archive.manifest.properties.insert(key, value);
        Ok(())
    } else if chars_eq(kind, "device") {
        let d = parse_device_line(f)?;
        let ghost before = archive.manifest.devices@;
        archive.manifest.devices.push(d);
        assert(devices_view(archive.manifest.devices@) =~= devices_view(before).push(d@));
        Ok(())
    } else if chars_eq(kind, "link") {
        let l = parse_link_line(f)?;
        archive.links.push(l);
        Ok(())
    } else if chars_eq(kind, "window") {
        let w = parse_window_line(f)?;
        let ghost before = archive.windows@;
        archive.windows.push(w);
        assert(windows_view(archive.windows@) =~= windows_view(before).push(w@));
        Ok(())
    } else if chars_eq(kind, "sample") {
        let p = parse_sample_line(f)?;
        let ghost before = archive.pages@;
        archive.pages.push(p);
        assert(pages_view(archive.pages@) =~= pages_view(before).push(p@));
        Ok(())
    } else if chars_eq(kind, "journal") {
        let j = parse_journal_line(f)?;
        let ghost before = archive.journals@;
        archive.journals.push(j);
        assert(journals_view(archive.journals@) =~= journals_view(before).push(j@));
        Ok(())
    } else if chars_eq(kind, "rule") {
        let r = parse_rule_line(f)?;
        let ghost before = archive.rules@;
        archive.rules.push(r);
        assert(rule_sets_view(archive.rules@) =~= rule_sets_view(before).push(r@));
        Ok(())
    } else if chars_eq(kind, "note") {
        let n = join_exec(f);
        let ghost before = archive.notes@;
        archive.notes.push(n);
        assert(crate::model::strings_view(archive.notes@) =~= crate::model::strings_view(before).push(n@));
        Ok(())
    } else {
        Err(DecodeError::InvalidText(string_of(kind)))
    }
}

/// Index of the first line feed at or after `i`, or the length.
pub open spec fn nl_from(t: Seq<char>, i: int) -> int
    decreases t.len() - i,
{
    if i >= t.len() {
        t.len() as int
    } else if t[i] == '\n' {
        i
    } else {
        nl_from(t, i + 1)
    }
}

pub proof fn lemma_nl_bounds(t: Seq<char>, i: int)
    requires
        0 <= i <= t.len(),
    ensures
        i <= nl_from(t, i) <= t.len(),
    decreases t.len() - i,
{
    if i < t.len() && t[i] != '\n' {
        lemma_nl_bounds(t, i + 1);
    }
}

/// A line with words `ws`: blank lines and lines starting with `#` change nothing.
pub open spec fn line_step(a: CanopyArchiveView, ws: Seq<Seq<char>>) -> core::result::Result<
    CanopyArchiveView,
    DecodeErrorView,
> {
    if ws.len() == 0 || ws[0][0] == '#' {
        Ok(a)
    } else {
        apply_text_line(a, ws)
    }
}

/// The archive after the lines of `t` from position `p` on; the first error ends it.
pub open spec fn text_lines(t: Seq<char>, p: int, a: CanopyArchiveView) -> core::result::Result<
    CanopyArchiveView,
    DecodeErrorView,
>
    decreases t.len() - p,
{
    if 0 <= p <= t.len() {
        let e = nl_from(t, p);
        proof {
            lemma_nl_bounds(t, p);
        }
        match line_step(a, words(t.subrange(p, e))) {
            Err(x) => Err(x),
            Ok(b) => if e < t.len() {
                text_lines(t, e + 1, b)
            } else {
                Ok(b)
            },
        }
    } else {
        Ok(a)
    }
}

/// The archive a text import starts from.
pub open spec fn text_start() -> CanopyArchiveView {
    CanopyArchiveView {
        manifest: FacilityManifestView {
            facility_id: "text-import"@,
            site_name: "unnamed-site"@,
            created_at: 0,
            devices: Seq::empty(),
            properties: Seq::empty(),
        },
        ..empty_archive_view(1)
    }
}

/// A text archive: UTF-8 lines of whitespace-separated words, each line naming its kind.
pub open spec fn text_archive_spec(d: Seq<u8>) -> core::result::Result<CanopyArchiveView, DecodeErrorView> {
    if vstd::utf8::valid_utf8(d) {
        text_lines(vstd::utf8::decode_utf8(d), 0, text_start())
    } else {
        Err(DecodeErrorView::InvalidUtf8)
    }
}

/// Decodes a text archive.
pub fn parse_text_archive(data: &[u8]) -> (r: Result<CanopyArchive>)
    ensures
        res_view(r) == text_archive_spec(data@),
{
    let text = match utf8_to_string(data) {
        Some(s) => s,
        None => return Err(DecodeError::InvalidUtf8),
    };
    let t = chars_of(text.as_str());
    let ghost tv = t@;
    let mut archive = CanopyArchive::new(1);
    archive.manifest = manifest_from_text("text-import", "unnamed-site");
    proof {
        reveal_strlit("text-import");
        reveal_strlit("unnamed-site");
        assert(archive@ == text_start());
    }
    let mut p: usize = 0;
    loop
        invariant
            p <= t@.len(),
            tv == t@,
            tv == vstd::utf8::decode_utf8(data@),
            vstd::utf8::valid_utf8(data@),
            text_lines(tv, p as int, archive@) == text_archive_spec(data@),
        decreases t@.len() - p,
    {
        let mut e = p;
        while e < t.len() && t[e] != '\n'
            invariant
                p <= e <= t@.len(),
                nl_from(tv, p as int) == nl_from(tv, e as int),
                tv == t@,
            decreases t@.len() - e,
        {
            e = e + 1;
        }
        proof {
            lemma_nl_bounds(tv, p as int);
        }
        let ws = words_exec(&t.as_slice()[p..e]);
        let ghost wv = words_view(ws@);
        let ghost before = archive@;
        proof {
            assert(t@.subrange(p as int, e as int) == tv.subrange(p as int, e as int));
        }
        if ws.len() > 0 && ws[0][0] != '#' {
            proof {
                assert(wv[0] == ws@[0]@);
            }
            match apply_text_line_exec(&mut archive, &ws) {
                Ok(()) => {},
                Err(x) => {
                    return Err(x);
                },
            }
        } else {
            proof {
                if wv.len() > 0 {
                    assert(wv[0] == ws@[0]@);
                }
            }
        }
        proof {
            assert(line_step(before, wv) == Ok::<CanopyArchiveView, DecodeErrorView>(archive@));
        }
        if e >= t.len() {
            if archive.rules.len() > 0 {
                let _ = evaluate_rules(&archive);
            }
            let _ = validate_archive(&archive);
            return Ok(archive);
        }
        p = e + 1;
    }
}

/// A word of the text form: at least one character, none of them whitespace.
pub open spec fn is_word(w: Seq<char>) -> bool {
    w.len() > 0 && forall|i: int| 0 <= i < w.len() ==> !is_ws(#[trigger] w[i])
}

/// Words joined by single spaces, or nothing: the text reads back as itself.
pub open spec fn is_phrase(s: Seq<char>) -> bool {
    join_words(words(s)) == s
}

proof fn lemma_words_of_word(w: Seq<char>)
    requires
        is_word(w),
    ensures
        words(w) == seq![w],
    decreases w.len(),
{
    assert(!is_ws(w[w.len() - 1]));
    if w.len() == 1 {
        assert(w.drop_last() =~= Seq::<char>::empty());
        assert(words(w.drop_last()) == Seq::<Seq<char>>::empty());
        assert(w =~= seq![w[0]]);
        assert(words(w) == Seq::<Seq<char>>::empty().push(seq![w.last()]));
        assert(words(w) =~= seq![w]);
    } else {
        let p = w.drop_last();
        assert forall|i: int| 0 <= i < p.len() implies !is_ws(#[trigger] p[i]) by {
            assert(p[i] == w[i]);
        }
        lemma_words_of_word(p);
        assert(!is_ws(w[w.len() - 2]));
        assert(p.push(w.last()) =~= w);
        assert(words(w) =~= seq![w]);
    }
}

proof fn lemma_words_space(x: Seq<char>, y: Seq<char>)
    ensures
        words(x + seq![' '] + y) == words(x) + words(y),
    decreases y.len(),
{
    let z = x + seq![' '] + y;
    if y.len() == 0 {
        assert(z.drop_last() =~= x);
        assert(words(x) + words(y) =~= words(x));
    } else {
        let y1 = y.drop_last();
        let c = y.last();
        assert(z.drop_last() =~= x + seq![' '] + y1);
        assert(z.last() == c);
        lemma_words_space(x, y1);
        let w = words(x) + words(y1);
        if is_ws(c) {
        } else if y1.len() > 0 && !is_ws(y1.last()) {
            assert(z[z.len() - 2] == y1.last());
            assert(y[y.len() - 2] == y1.last());
            lemma_words_shape(y1);
            assert(words(x) + words(y) =~= w.update(w.len() - 1, w.last().push(c)));
        } else {
            if y1.len() > 0 {
                assert(z[z.len() - 2] == y1.last());
                assert(y[y.len() - 2] == y1.last());
            } else {
                assert(z[z.len() - 2] == ' ');
                assert(y1 =~= Seq::<char>::empty());
            }
            assert(words(x) + words(y) =~= w.push(seq![c]));
        }
    }
}

proof fn lemma_dec_chars(n: nat)
    ensures
        dec_chars(n).len() > 0,
        all_digits(dec_chars(n), 10),
        digits_value(dec_chars(n), 10) == n,
        is_word(dec_chars(n)),
        dec_chars(n)[0] != '+' && dec_chars(n)[0] != '-',
    decreases n,
{
    let d = dec_chars(n);
    if n < 10 {
        let c = digit_char(n);
        assert(c as int == 48 + n);
        assert(d =~= seq![c]);
        assert(d.drop_last() =~= Seq::<char>::empty());
        assert(digits_value(d.drop_last(), 10) == 0);
        assert(digit_value(d.last(), 10) == n);
        assert(digits_value(d, 10) == 10 * digits_value(d.drop_last(), 10) + digit_value(d.last(), 10));
    } else {
        lemma_dec_chars(n / 10);
        let p = dec_chars(n / 10);
        let c = digit_char(n % 10);
        assert(c as int == 48 + n % 10);
        assert(d == p.push(c));
        assert(d.drop_last() =~= p);
        assert(d[0] == p[0]);
        assert forall|i: int| 0 <= i < d.len() implies digit_value(#[trigger] d[i], 10) >= 0 by {
            if i < p.len() {
                assert(d[i] == p[i]);
            }
        }
        assert forall|i: int| 0 <= i < d.len() implies !is_ws(#[trigger] d[i]) by {
            if i < p.len() {
                assert(d[i] == p[i]);
            }
        }
        assert(10 * (n / 10) + n % 10 == n);
        assert(digit_value(d.last(), 10) == n % 10);
        assert(digits_value(d, 10) == 10 * digits_value(d.drop_last(), 10) + digit_value(d.last(), 10));
    }
}

/// The decimal text of a number reads back as that number.
proof fn lemma_parse_dec(n: nat, max: int)
    requires
        n <= max,
    ensures
        parse_unsigned(dec_chars(n), 10, max) == Some(n as int),
{
    lemma_dec_chars(n);
}

/// The signed decimal text of a number in range reads back as that number.
proof fn lemma_parse_signed_chars(x: int, min: int, max: int)
    requires
        min <= x <= max,
        min < 0 <= max,
    ensures
        parse_signed(signed_chars(x), min, max) == Some(x),
        is_word(signed_chars(x)),
{
    if x < 0 {
        let m = (-x) as nat;
        lemma_dec_chars(m);
        let s = signed_chars(x);
        assert(s.drop_first() =~= dec_chars(m));
        assert(s[0] == '-');
        assert forall|i: int| 0 <= i < s.len() implies !is_ws(#[trigger] s[i]) by {
            if i > 0 {
                assert(s[i] == dec_chars(m)[i - 1]);
            }
        }
    } else {
        lemma_dec_chars(x as nat);
    }
}

proof fn lemma_nl_shift(x: Seq<char>, y: Seq<char>, q: int)
    requires
        0 <= q <= y.len(),
    ensures
        nl_from(x + y, x.len() + q) == x.len() + nl_from(y, q),
    decreases y.len() - q,
{
    if q < y.len() {
        assert((x + y)[x.len() + q] == y[q]);
        lemma_nl_shift(x, y, q + 1);
    }
}

proof fn lemma_text_lines_shift(x: Seq<char>, y: Seq<char>, q: int, a: CanopyArchiveView)
    requires
        0 <= q <= y.len(),
    ensures
        text_lines(x + y, x.len() + q, a) == text_lines(y, q, a),
    decreases y.len() - q,
{
    let t = x + y;
    lemma_nl_shift(x, y, q);
    lemma_nl_bounds(y, q);
    let e = nl_from(y, q);
    assert(t.subrange(x.len() + q, x.len() + e) =~= y.subrange(q, e));
    if e < y.len() {
        match line_step(a, words(y.subrange(q, e))) {
            Err(_) => {},
            Ok(b) => {
                lemma_text_lines_shift(x, y, e + 1, b);
            },
        }
    }
}

proof fn lemma_nl_at(t: Seq<char>, i: int, n: int)
    requires
        0 <= i <= n < t.len(),
        t[n] == '\n',
        forall|k: int| i <= k < n ==> t[k] != '\n',
    ensures
        nl_from(t, i) == n,
    decreases n - i,
{
    if i < n {
        lemma_nl_at(t, i + 1, n);
    }
}

/// A text that starts with a line (and its line feed) is read as that line, then the rest.
proof fn lemma_first_line(line: Seq<char>, rest: Seq<char>, a: CanopyArchiveView)
    requires
        forall|k: int| 0 <= k < line.len() ==> line[k] != '\n',
    ensures
        text_lines(line + seq!['\n'] + rest, 0, a) == match line_step(a, words(line)) {
            Err(e) => Err(e),
            Ok(b) => text_lines(rest, 0, b),
        },
{
    let x = line + seq!['\n'];
    let t = x + rest;
    assert(line + seq!['\n'] + rest == t);
    assert forall|k: int| 0 <= k < line.len() implies t[k] != '\n' by {
        assert(t[k] == line[k]);
    }
    assert(t[line.len() as int] == '\n');
    lemma_nl_at(t, 0, line.len() as int);
    assert(t.subrange(0, line.len() as int) =~= line);
    match line_step(a, words(line)) {
        Err(_) => {},
        Ok(b) => {
            lemma_text_lines_shift(x, rest, 0, b);
        },
    }
}

proof fn lemma_text_lines_empty(a: CanopyArchiveView)
    ensures
        text_lines(Seq::empty(), 0, a) == Ok::<CanopyArchiveView, DecodeErrorView>(a),
{
    let t = Seq::<char>::empty();
    assert(t.subrange(0, 0) =~= t);
    assert(words(t) == Seq::<Seq<char>>::empty());
}

proof fn lemma_words_are_words(s: Seq<char>)
    ensures
        forall|k: int| 0 <= k < words(s).len() ==> is_word(#[trigger] words(s)[k]),
    decreases s.len(),
{
    lemma_words_shape(s);
    if s.len() > 0 {
        let p = s.drop_last();
        lemma_words_are_words(p);
        lemma_words_shape(p);
        let w = words(p);
        let c = s.last();
        if !is_ws(c) {
            if s.len() >= 2 && !is_ws(s[s.len() - 2]) {
                assert(p.last() == s[s.len() - 2]);
                assert forall|k: int| 0 <= k < words(s).len() implies is_word(#[trigger] words(s)[k]) by {
                    if k < w.len() - 1 {
                        assert(words(s)[k] == w[k]);
                    } else {
                        let u = w[k].push(c);
                        assert(words(s)[k] == u);
                        assert(is_word(w[k]));
                        assert forall|i: int| 0 <= i < u.len() implies !is_ws(#[trigger] u[i]) by {
                            if i < w[k].len() {
                                assert(u[i] == w[k][i]);
                            }
                        }
                    }
                }
            } else {
                assert forall|k: int| 0 <= k < words(s).len() implies is_word(#[trigger] words(s)[k]) by {
                    if k < w.len() {
                        assert(words(s)[k] == w[k]);
                    } else {
                        assert(words(s)[k] == seq![c]);
                    }
                }
            }
        }
    }
}

/// Words joined by single spaces read back as those words.
proof fn lemma_words_of_join(ws: Seq<Seq<char>>)
    requires
        forall|k: int| 0 <= k < ws.len() ==> is_word(#[trigger] ws[k]),
    ensures
        words(join_words(ws)) == ws,
        forall|i: int| 0 <= i < join_words(ws).len() ==> #[trigger] join_words(ws)[i] != '\n',
    decreases ws.len(),
{
    if ws.len() == 0 {
        assert(words(Seq::<char>::empty()) =~= ws);
    } else if ws.len() == 1 {
        assert(is_word(ws[0]));
        lemma_words_of_word(ws[0]);
        assert(words(join_words(ws)) =~= ws);
        assert forall|i: int| 0 <= i < join_words(ws).len() implies #[trigger] join_words(ws)[i] != '\n' by {
            assert(!is_ws(ws[0][i]));
        }
    } else {
        let p = ws.drop_last();
        assert forall|k: int| 0 <= k < p.len() implies is_word(#[trigger] p[k]) by {
            assert(p[k] == ws[k]);
        }
        lemma_words_of_join(p);
        let l = ws.last();
        assert(is_word(ws[ws.len() - 1]));
        lemma_words_of_word(l);
        lemma_words_space(join_words(p), l);
        assert(words(join_words(ws)) =~= ws);
        let j = join_words(ws);
        let jp = join_words(p);
        assert forall|i: int| 0 <= i < j.len() implies #[trigger] j[i] != '\n' by {
            if i < jp.len() {
                assert(j[i] == jp[i]);
            } else if i > jp.len() {
                assert(j[i] == l[i - jp.len() - 1]);
                assert(!is_ws(l[i - jp.len() - 1]));
            }
        }
    }
}

/// A phrase holds no line feed.
proof fn lemma_phrase_no_nl(s: Seq<char>)
    requires
        is_phrase(s),
    ensures
        forall|i: int| 0 <= i < s.len() ==> s[i] != '\n',
{
    lemma_words_are_words(s);
    lemma_words_of_join(words(s));
    assert forall|i: int| 0 <= i < s.len() implies s[i] != '\n' by {
        assert(join_words(words(s))[i] != '\n');
    }
}

/// A device as the text form gives it back: firmware 1, no channels, no calibration.
pub open spec fn reread_device(d: DeviceView) -> DeviceView {
    DeviceView { firmware: 1, channels: Seq::empty(), calibration: Seq::empty(), ..d }
}

proof fn lemma_kind_words()
    ensures
        is_word("facility"@),
        is_word("property"@),
        is_word("device"@),
        is_word("link"@),
        is_word("window"@),
        "facility"@ != "property"@,
        "facility"@ != "device"@,
        "facility"@ != "link"@,
        "facility"@ != "window"@,
        "property"@ != "device"@,
        "property"@ != "link"@,
        "property"@ != "window"@,
        "device"@ != "link"@,
        "device"@ != "window"@,
        "link"@ != "window"@,
        "facility"@[0] != '#' && "property"@[0] != '#' && "device"@[0] != '#' && "link"@[0] != '#'
            && "window"@[0] != '#',
{
    reveal_strlit("facility");
    reveal_strlit("property");
    reveal_strlit("device");
    reveal_strlit("link");
    reveal_strlit("window");
    assert("facility"@[0] != "property"@[0]);
    assert("facility"@.len() != "device"@.len());
    assert("facility"@.len() != "link"@.len());
    assert("facility"@.len() != "window"@.len());
    assert("property"@.len() != "device"@.len());
    assert("property"@.len() != "link"@.len());
    assert("property"@.len() != "window"@.len());
    assert("device"@.len() != "link"@.len());
    assert("device"@[0] != "window"@[0]);
    assert("link"@.len() != "window"@.len());
}

proof fn lemma_class_name(c: DeviceClass)
    requires
        !(c is Unknown),
    ensures
        is_word(class_name_spec(c)),
        device_class_word(class_name_spec(c)) == c,
{
    reveal_strlit("gateway");
    reveal_strlit("climate");
    reveal_strlit("moisture");
    reveal_strlit("valve");
    reveal_strlit("pump");
    reveal_strlit("light");
    reveal_strlit("camera");
    assert("gateway"@[0] == 'g' && "climate"@[0] == 'c' && "moisture"@[0] == 'm' && "valve"@[0] == 'v');
    assert("pump"@[0] == 'p' && "light"@[0] == 'l' && "camera"@[0] == 'c');
    assert("climate"@.len() == 7 && "camera"@.len() == 6);
}

proof fn lemma_link_name(k: LinkKind)
    requires
        !(k is Unknown),
    ensures
        is_word(link_name_spec(k)),
        link_kind_word(link_name_spec(k)) == k,
{
    reveal_strlit("parent");
    reveal_strlit("neighbor");
    reveal_strlit("backup");
    reveal_strlit("controls");
    reveal_strlit("observes");
    assert("parent"@[0] == 'p' && "neighbor"@[0] == 'n' && "backup"@[0] == 'b' && "controls"@[0] == 'c');
    assert("observes"@[0] == 'o');
}

pub open spec fn device_tokens(d: DeviceView) -> Seq<Seq<char>> {
    seq!["device"@, dec_chars(d.id as nat), class_name_spec(d.class), dec_chars(d.zone as nat), d.alias, d.crop]
}

proof fn lemma_device_text(d: DeviceView)
    ensures
        crate::codec::device_line(d) == join_words(device_tokens(d)) + seq!['\n'],
{
    reveal_strlit("device ");
    reveal_strlit("device");
    reveal_strlit(" ");
    reveal_strlit("\n");
    reveal_with_fuel(join_words, 7);
    assert(crate::codec::device_line(d) =~= join_words(device_tokens(d)) + seq!['\n']);
}

proof fn lemma_device_words(d: DeviceView)
    requires
        !(d.class is Unknown),
        is_word(d.alias),
        is_word(d.crop),
    ensures
        words(join_words(device_tokens(d))) == device_tokens(d),
        forall|i: int| 0 <= i < join_words(device_tokens(d)).len() ==> #[trigger] join_words(device_tokens(d))[i] != '\n',
{
    let ts = device_tokens(d);
    lemma_kind_words();
    lemma_dec_chars(d.id as nat);
    lemma_dec_chars(d.zone as nat);
    lemma_class_name(d.class);
    assert forall|k: int| 0 <= k < ts.len() implies is_word(#[trigger] ts[k]) by {
        if k == 0 {
        } else if k == 1 {
        } else if k == 2 {
        } else if k == 3 {
        } else if k == 4 {
        } else {
        }
    }
    lemma_words_of_join(ts);
}

proof fn lemma_device_fields(d: DeviceView)
    requires
        !(d.class is Unknown),
    ensures
        device_line(device_tokens(d).drop_first()) == Ok::<DeviceView, DecodeErrorView>(reread_device(d)),
{
    let f = device_tokens(d).drop_first();
    assert(f =~= seq![dec_chars(d.id as nat), class_name_spec(d.class), dec_chars(d.zone as nat), d.alias, d.crop]);
    assert(f.skip(5) =~= Seq::<Seq<char>>::empty());
    lemma_class_name(d.class);
    lemma_parse_dec(d.id as nat, 0xffff_ffff);
    lemma_parse_dec(d.zone as nat, 0xffff_ffff);
}

proof fn lemma_device_line(a: CanopyArchiveView, d: DeviceView)
    requires
        !(d.class is Unknown),
        is_word(d.alias),
        is_word(d.crop),
    ensures
        crate::codec::device_line(d) == join_words(device_tokens(d)) + seq!['\n'],
        forall|i: int| 0 <= i < join_words(device_tokens(d)).len() ==> #[trigger] join_words(device_tokens(d))[i] != '\n',
        line_step(a, words(join_words(device_tokens(d)))) == Ok::<CanopyArchiveView, DecodeErrorView>(
            CanopyArchiveView {
                manifest: FacilityManifestView { devices: a.manifest.devices.push(reread_device(d)), ..a.manifest },
                ..a
            },
        ),
{
    lemma_device_text(d);
    lemma_device_words(d);
    lemma_device_fields(d);
    lemma_kind_words();
    assert(device_tokens(d)[0] == "device"@);
}

pub open spec fn link_tokens(l: Link) -> Seq<Seq<char>> {
    seq!["link"@, dec_chars(l.from.0 as nat), dec_chars(l.to.0 as nat), link_name_spec(l.kind), signed_chars(l.weight as int)]
}

proof fn lemma_link_line(a: CanopyArchiveView, l: Link)
    requires
        !(l.kind is Unknown),
    ensures
        crate::codec::link_line(l) == join_words(link_tokens(l)) + seq!['\n'],
        forall|i: int| 0 <= i < join_words(link_tokens(l)).len() ==> #[trigger] join_words(link_tokens(l))[i] != '\n',
        line_step(a, words(join_words(link_tokens(l)))) == Ok::<CanopyArchiveView, DecodeErrorView>(
            CanopyArchiveView { links: a.links.push(l), ..a },
        ),
{
    reveal_strlit("link ");
    reveal_strlit("link");
    reveal_strlit(" ");
    reveal_strlit("\n");
    reveal_with_fuel(join_words, 6);
    let ts = link_tokens(l);
    assert(crate::codec::link_line(l) =~= join_words(ts) + seq!['\n']);
    lemma_kind_words();
    lemma_dec_chars(l.from.0 as nat);
    lemma_dec_chars(l.to.0 as nat);
    lemma_link_name(l.kind);
    lemma_parse_signed_chars(l.weight as int, -0x8000, 0x7fff);
    assert forall|k: int| 0 <= k < ts.len() implies is_word(#[trigger] ts[k]) by {
        if k == 0 {
        } else if k == 1 {
        } else if k == 2 {
        } else if k == 3 {
        } else {
        }
    }
    lemma_words_of_join(ts);
    let f = ts.drop_first();
    assert(f =~= seq![dec_chars(l.from.0 as nat), dec_chars(l.to.0 as nat), link_name_spec(l.kind), signed_chars(l.weight as int)]);
    lemma_parse_dec(l.from.0 as nat, 0xffff_ffff);
    lemma_parse_dec(l.to.0 as nat, 0xffff_ffff);
    assert(link_line(f) == Ok::<Link, DecodeErrorView>(l));
}

pub open spec fn window_tokens(w: ScheduleWindowView) -> Seq<Seq<char>> {
    seq![
        "window"@,
        dec_chars(w.zone as nat),
        dec_chars(w.start_minute as nat),
        dec_chars(w.end_minute as nat),
        signed_chars(w.target as int),
        dec_chars(w.recurrence as nat),
        w.label,
    ]
}

proof fn lemma_window_text(w: ScheduleWindowView)
    ensures
        crate::codec::window_line(w) == join_words(window_tokens(w)) + seq!['\n'],
{
    reveal_strlit("window ");
    reveal_strlit("window");
    reveal_strlit(" ");
    reveal_strlit("\n");
    reveal_with_fuel(join_words, 8);
    assert(crate::codec::window_line(w) =~= join_words(window_tokens(w)) + seq!['\n']);
}

proof fn lemma_window_words(w: ScheduleWindowView)
    requires
        is_word(w.label),
    ensures
        words(join_words(window_tokens(w))) == window_tokens(w),
        forall|i: int| 0 <= i < join_words(window_tokens(w)).len() ==> #[trigger] join_words(window_tokens(w))[i] != '\n',
{
    let ts = window_tokens(w);
    lemma_kind_words();
    lemma_dec_chars(w.zone as nat);
    lemma_dec_chars(w.start_minute as nat);
    lemma_dec_chars(w.end_minute as nat);
    lemma_dec_chars(w.recurrence as nat);
    lemma_parse_signed_chars(w.target as int, -0x8000_0000, 0x7fff_ffff);
    assert forall|k: int| 0 <= k < ts.len() implies is_word(#[trigger] ts[k]) by {
        if k == 0 {
        } else if k == 1 {
        } else if k == 2 {
        } else if k == 3 {
        } else if k == 4 {
        } else if k == 5 {
        } else {
        }
    }
    lemma_words_of_join(ts);
}

proof fn lemma_window_fields(w: ScheduleWindowView)
    requires
        w.start_minute < 1440,
        w.end_minute < 1440,
    ensures
        window_line(window_tokens(w).drop_first()) == Ok::<ScheduleWindowView, DecodeErrorView>(w),
{
    let f = window_tokens(w).drop_first();
    assert(f =~= seq![
        dec_chars(w.zone as nat),
        dec_chars(w.start_minute as nat),
        dec_chars(w.end_minute as nat),
        signed_chars(w.target as int),
        dec_chars(w.recurrence as nat),
        w.label,
    ]);
    lemma_parse_dec(w.zone as nat, 0xffff_ffff);
    lemma_parse_dec(w.start_minute as nat, 0xffff);
    lemma_parse_dec(w.end_minute as nat, 0xffff);
    lemma_parse_dec(w.recurrence as nat, 0xff);
    lemma_parse_signed_chars(w.target as int, -0x8000_0000, 0x7fff_ffff);
}

proof fn lemma_window_line(a: CanopyArchiveView, w: ScheduleWindowView)
    requires
        w.start_minute < 1440,
        w.end_minute < 1440,
        is_word(w.label),
    ensures
        crate::codec::window_line(w) == join_words(window_tokens(w)) + seq!['\n'],
        forall|i: int| 0 <= i < join_words(window_tokens(w)).len() ==> #[trigger] join_words(window_tokens(w))[i] != '\n',
        line_step(a, words(join_words(window_tokens(w)))) == Ok::<CanopyArchiveView, DecodeErrorView>(
            CanopyArchiveView { windows: a.windows.push(w), ..a },
        ),
{
    lemma_window_text(w);
    lemma_window_words(w);
    lemma_window_fields(w);
    lemma_kind_words();
    let ts = window_tokens(w);
    assert(ts[0] == "window"@);
}

/// Binding a key larger than every key of an ordered list appends the pair.
proof fn lemma_map_insert_last(s: Seq<(Seq<char>, Seq<char>)>, k: Seq<char>, v: Seq<char>)
    requires
        keys_sorted(s.push((k, v))),
    ensures
        map_insert(s, k, v) == s.push((k, v)),
    decreases s.len(),
{
    let t = s.push((k, v));
    if s.len() == 0 {
        assert(seq![(k, v)] =~= s.push((k, v)));
    } else {
        assert(bytes_lt(key_bytes(t[0].0), key_bytes(t[s.len() as int].0)));
        assert(t[0] == s[0]);
        lemma_bytes_lt_irreflexive(key_bytes(k));
        lemma_bytes_lt_trichotomy(key_bytes(s[0].0), key_bytes(k));
        let r = s.drop_first();
        assert(r.push((k, v)) =~= t.drop_first());
        assert forall|i: int, j: int| 0 <= i < j < r.push((k, v)).len() implies bytes_lt(
            key_bytes(#[trigger] r.push((k, v))[i].0),
            key_bytes(#[trigger] r.push((k, v))[j].0),
        ) by {
            assert(r.push((k, v))[i] == t[i + 1] && r.push((k, v))[j] == t[j + 1]);
        }
        lemma_map_insert_last(r, k, v);
        assert(seq![s[0]] + r.push((k, v)) =~= s.push((k, v)));
    }
}

proof fn lemma_facility_line(a: CanopyArchiveView, id: Seq<char>, site: Seq<char>)
    requires
        is_word(id),
        is_phrase(site),
    ensures
        forall|i: int| 0 <= i < ("facility"@ + seq![' '] + (id + seq![' '] + site)).len() ==> #[trigger] (
        "facility"@ + seq![' '] + (id + seq![' '] + site))[i] != '\n',
        line_step(a, words("facility"@ + seq![' '] + (id + seq![' '] + site))) == Ok::<CanopyArchiveView, DecodeErrorView>(
            CanopyArchiveView {
                manifest: FacilityManifestView { facility_id: id, site_name: site, ..a.manifest },
                ..a
            },
        ),
{
    lemma_kind_words();
    lemma_words_of_word("facility"@);
    lemma_words_of_word(id);
    lemma_words_space(id, site);
    lemma_words_space("facility"@, id + seq![' '] + site);
    let l = "facility"@ + seq![' '] + (id + seq![' '] + site);
    let ws = words(l);
    assert(ws =~= seq!["facility"@, id] + words(site));
    assert(ws.drop_first() =~= seq![id] + words(site));
    assert(ws.drop_first().drop_first() =~= words(site));
    lemma_phrase_no_nl(site);
    let f = "facility"@;
    assert forall|i: int| 0 <= i < l.len() implies #[trigger] l[i] != '\n' by {
        if i < f.len() {
            assert(l[i] == f[i]);
            assert(!is_ws(f[i]));
        } else if i == f.len() {
        } else if i < f.len() + 1 + id.len() {
            assert(l[i] == id[i - f.len() - 1]);
            assert(!is_ws(id[i - f.len() - 1]));
        } else if i == f.len() + 1 + id.len() {
        } else {
            assert(l[i] == site[i - f.len() - 2 - id.len()]);
        }
    }
}

proof fn lemma_property_line(a: CanopyArchiveView, k: Seq<char>, v: Seq<char>)
    requires
        is_word(k),
        is_phrase(v),
    ensures
        forall|i: int| 0 <= i < ("property"@ + seq![' '] + (k + seq![' '] + v)).len() ==> #[trigger] (
        "property"@ + seq![' '] + (k + seq![' '] + v))[i] != '\n',
        line_step(a, words("property"@ + seq![' '] + (k + seq![' '] + v))) == Ok::<CanopyArchiveView, DecodeErrorView>(
            CanopyArchiveView {
                manifest: FacilityManifestView { properties: map_insert(a.manifest.properties, k, v), ..a.manifest },
                ..a
            },
        ),
{
    lemma_kind_words();
    lemma_words_of_word("property"@);
    lemma_words_of_word(k);
    lemma_words_space(k, v);
    lemma_words_space("property"@, k + seq![' '] + v);
    let l = "property"@ + seq![' '] + (k + seq![' '] + v);
    let ws = words(l);
    assert(ws =~= seq!["property"@, k] + words(v));
    assert(ws.drop_first() =~= seq![k] + words(v));
    assert(ws.drop_first().drop_first() =~= words(v));
    lemma_phrase_no_nl(v);
    let f = "property"@;
    assert forall|i: int| 0 <= i < l.len() implies #[trigger] l[i] != '\n' by {
        if i < f.len() {
            assert(l[i] == f[i]);
            assert(!is_ws(f[i]));
        } else if i == f.len() {
        } else if i < f.len() + 1 + k.len() {
            assert(l[i] == k[i - f.len() - 1]);
            assert(!is_ws(k[i - f.len() - 1]));
        } else if i == f.len() + 1 + k.len() {
        } else {
            assert(l[i] == v[i - f.len() - 2 - k.len()]);
        }
    }
}

proof fn lemma_property_lines(ps: Seq<(Seq<char>, Seq<char>)>, rest: Seq<char>, a: CanopyArchiveView)
    requires
        keys_sorted(a.manifest.properties + ps),
        forall|i: int| 0 <= i < ps.len() ==> is_word((#[trigger] ps[i]).0) && is_phrase(ps[i].1),
    ensures
        text_lines(property_lines(ps) + rest, 0, a) == text_lines(
            rest,
            0,
            CanopyArchiveView {
                manifest: FacilityManifestView { properties: a.manifest.properties + ps, ..a.manifest },
                ..a
            },
        ),
    decreases ps.len(),
{
    if ps.len() == 0 {
        assert(property_lines(ps) + rest =~= rest);
        assert(a.manifest.properties + ps =~= a.manifest.properties);
    } else {
        let p = ps.drop_last();
        let (k, v) = ps.last();
        assert(is_word(ps[ps.len() - 1].0) && is_phrase(ps[ps.len() - 1].1));
        let line = "property"@ + seq![' '] + (k + seq![' '] + v);
        reveal_strlit("property ");
        reveal_strlit("property");
        reveal_strlit(" ");
        reveal_strlit("\n");
        assert(property_lines(ps) + rest =~= property_lines(p) + (line + seq!['\n'] + rest));
        assert(a.manifest.properties + p + seq![(k, v)] =~= a.manifest.properties + ps);
        assert forall|x: int, y: int| 0 <= x < y < (a.manifest.properties + p).len() implies bytes_lt(
            key_bytes(#[trigger] (a.manifest.properties + p)[x].0),
            key_bytes(#[trigger] (a.manifest.properties + p)[y].0),
        ) by {
            assert((a.manifest.properties + p)[x] == (a.manifest.properties + ps)[x]);
            assert((a.manifest.properties + p)[y] == (a.manifest.properties + ps)[y]);
        }
        assert forall|i: int| 0 <= i < p.len() implies is_word((#[trigger] p[i]).0) && is_phrase(p[i].1) by {
            assert(p[i] == ps[i]);
        }
        lemma_property_lines(p, line + seq!['\n'] + rest, a);
        let a1 = CanopyArchiveView {
            manifest: FacilityManifestView { properties: a.manifest.properties + p, ..a.manifest },
            ..a
        };
        lemma_property_line(a1, k, v);
        lemma_first_line(line, rest, a1);
        assert((a.manifest.properties + p).push((k, v)) =~= a.manifest.properties + ps);
        lemma_map_insert_last(a.manifest.properties + p, k, v);
    }
}

proof fn lemma_device_lines(ds: Seq<DeviceView>, rest: Seq<char>, a: CanopyArchiveView)
    requires
        forall|i: int|
            0 <= i < ds.len() ==> !((#[trigger] ds[i]).class is Unknown) && is_word(ds[i].alias) && is_word(ds[i].crop),
    ensures
        text_lines(device_lines(ds) + rest, 0, a) == text_lines(
            rest,
            0,
            CanopyArchiveView {
                manifest: FacilityManifestView {
                    devices: a.manifest.devices + ds.map_values(|d: DeviceView| reread_device(d)),
                    ..a.manifest
                },
                ..a
            },
        ),
    decreases ds.len(),
{
    if ds.len() == 0 {
        assert(device_lines(ds) + rest =~= rest);
        assert(a.manifest.devices + ds.map_values(|d: DeviceView| reread_device(d)) =~= a.manifest.devices);
    } else {
        let p = ds.drop_last();
        let d = ds.last();
        assert(!(ds[ds.len() - 1].class is Unknown) && is_word(ds[ds.len() - 1].alias) && is_word(ds[ds.len() - 1].crop));
        let line = join_words(device_tokens(d));
        lemma_device_line(a, d);
        assert(device_lines(ds) + rest =~= device_lines(p) + (line + seq!['\n'] + rest));
        assert forall|i: int|
            0 <= i < p.len() implies !((#[trigger] p[i]).class is Unknown) && is_word(p[i].alias) && is_word(p[i].crop) by {
            assert(p[i] == ds[i]);
        }
        lemma_device_lines(p, line + seq!['\n'] + rest, a);
        let a1 = CanopyArchiveView {
            manifest: FacilityManifestView {
                devices: a.manifest.devices + p.map_values(|d: DeviceView| reread_device(d)),
                ..a.manifest
            },
            ..a
        };
        lemma_device_line(a1, d);
        lemma_first_line(line, rest, a1);
        assert((a.manifest.devices + p.map_values(|d: DeviceView| reread_device(d))).push(reread_device(d))
            =~= a.manifest.devices + ds.map_values(|d: DeviceView| reread_device(d)));
    }
}

proof fn lemma_link_lines(ls: Seq<Link>, rest: Seq<char>, a: CanopyArchiveView)
    requires
        forall|i: int| 0 <= i < ls.len() ==> !((#[trigger] ls[i]).kind is Unknown),
    ensures
        text_lines(link_lines(ls) + rest, 0, a) == text_lines(rest, 0, CanopyArchiveView { links: a.links + ls, ..a }),
    decreases ls.len(),
{
    if ls.len() == 0 {
        assert(link_lines(ls) + rest =~= rest);
        assert(a.links + ls =~= a.links);
    } else {
        let p = ls.drop_last();
        let l = ls.last();
        assert(!(ls[ls.len() - 1].kind is Unknown));
        let line = join_words(link_tokens(l));
        lemma_link_line(a, l);
        assert(link_lines(ls) + rest =~= link_lines(p) + (line + seq!['\n'] + rest));
        assert forall|i: int| 0 <= i < p.len() implies !((#[trigger] p[i]).kind is Unknown) by {
            assert(p[i] == ls[i]);
        }
        lemma_link_lines(p, line + seq!['\n'] + rest, a);
        let a1 = CanopyArchiveView { links: a.links + p, ..a };
        lemma_link_line(a1, l);
        lemma_first_line(line, rest, a1);
        assert((a.links + p).push(l) =~= a.links + ls);
    }
}

proof fn lemma_window_lines(ws: Seq<ScheduleWindowView>, rest: Seq<char>, a: CanopyArchiveView)
    requires
        forall|i: int|
            0 <= i < ws.len() ==> (#[trigger] ws[i]).start_minute < 1440 && ws[i].end_minute < 1440 && is_word(ws[i].label),
    ensures
        text_lines(window_lines(ws) + rest, 0, a) == text_lines(rest, 0, CanopyArchiveView { windows: a.windows + ws, ..a }),
    decreases ws.len(),
{
    if ws.len() == 0 {
        assert(window_lines(ws) + rest =~= rest);
        assert(a.windows + ws =~= a.windows);
    } else {
        let p = ws.drop_last();
        let w = ws.last();
        assert(ws[ws.len() - 1].start_minute < 1440 && ws[ws.len() - 1].end_minute < 1440 && is_word(ws[ws.len() - 1].label));
        let line = join_words(window_tokens(w));
        lemma_window_line(a, w);
        assert(window_lines(ws) + rest =~= window_lines(p) + (line + seq!['\n'] + rest));
        assert forall|i: int|
            0 <= i < p.len() implies (#[trigger] p[i]).start_minute < 1440 && p[i].end_minute < 1440 && is_word(p[i].label) by {
            assert(p[i] == ws[i]);
        }
        lemma_window_lines(p, line + seq!['\n'] + rest, a);
        let a1 = CanopyArchiveView { windows: a.windows + p, ..a };
        lemma_window_line(a1, w);
        lemma_first_line(line, rest, a1);
        assert((a.windows + p).push(w) =~= a.windows + ws);
    }
}

/// The archives whose text form reads back: the facility is one word and the site name
/// words joined by single spaces; property keys are words and values such phrases, in key
/// order; devices have a known class and one-word alias and crop; links have a known kind;
/// windows start and end within the day and have a one-word label.
pub open spec fn writable(a: CanopyArchiveView) -> bool {
    &&& is_word(a.manifest.facility_id)
    &&& is_phrase(a.manifest.site_name)
    &&& keys_sorted(a.manifest.properties)
    &&& forall|i: int|
        0 <= i < a.manifest.properties.len() ==> is_word((#[trigger] a.manifest.properties[i]).0) && is_phrase(
            a.manifest.properties[i].1,
        )
    &&& forall|i: int|
        0 <= i < a.manifest.devices.len() ==> !((#[trigger] a.manifest.devices[i]).class is Unknown) && is_word(
            a.manifest.devices[i].alias,
        ) && is_word(a.manifest.devices[i].crop)
    &&& forall|i: int| 0 <= i < a.links.len() ==> !((#[trigger] a.links[i]).kind is Unknown)
    &&& forall|i: int|
        0 <= i < a.windows.len() ==> (#[trigger] a.windows[i]).start_minute < 1440 && a.windows[i].end_minute < 1440
            && is_word(a.windows[i].label)
}

/// What the text form of `a` reads back as: its facility, site, properties, links and
/// windows; its devices with firmware 1 and no channels or calibration; and nothing else.
pub open spec fn reread(a: CanopyArchiveView) -> CanopyArchiveView {
    CanopyArchiveView {
        manifest: FacilityManifestView {
            facility_id: a.manifest.facility_id,
            site_name: a.manifest.site_name,
            created_at: 0,
            devices: a.manifest.devices.map_values(|d: DeviceView| reread_device(d)),
            properties: a.manifest.properties,
        },
        links: a.links,
        windows: a.windows,
        ..text_start()
    }
}

proof fn lemma_text_form_shape(a: CanopyArchiveView)
    ensures
        text_form(a) == ("facility"@ + seq![' '] + (a.manifest.facility_id + seq![' '] + a.manifest.site_name)) + seq!['\n']
            + (property_lines(a.manifest.properties) + (device_lines(a.manifest.devices) + (link_lines(a.links) + (
        window_lines(a.windows) + Seq::<char>::empty())))),
{
    reveal_strlit("facility ");
    reveal_strlit("facility");
    reveal_strlit(" ");
    reveal_strlit("\n");
    assert(text_form(a) =~= ("facility"@ + seq![' '] + (a.manifest.facility_id + seq![' '] + a.manifest.site_name))
        + seq!['\n'] + (property_lines(a.manifest.properties) + (device_lines(a.manifest.devices) + (link_lines(
        a.links,
    ) + (window_lines(a.windows) + Seq::<char>::empty())))));
}

/// Writing an archive as text and reading the text back gives its facility, site name,
/// properties, links and windows, and its devices' identifiers, classes, zones, aliases and
/// crops, in order.
#[verifier::spinoff_prover]
#[verifier::rlimit(50)]
pub proof fn law_text_roundtrip(a: CanopyArchiveView)
    requires
        writable(a),
    ensures
        text_archive_spec(vstd::utf8::encode_utf8(text_form(a))) == Ok::<CanopyArchiveView, DecodeErrorView>(reread(a)),
{
    let t = text_form(a);
    vstd::utf8::encode_utf8_valid_utf8(t);
    vstd::utf8::encode_utf8_decode_utf8(t);
    let id = a.manifest.facility_id;
    let site = a.manifest.site_name;
    let first = "facility"@ + seq![' '] + (id + seq![' '] + site);
    let empty = Seq::<char>::empty();
    let wins = window_lines(a.windows) + empty;
    let links = link_lines(a.links) + wins;
    let devs = device_lines(a.manifest.devices) + links;
    let props = property_lines(a.manifest.properties) + devs;
    lemma_text_form_shape(a);
    let a0 = text_start();
    lemma_facility_line(a0, id, site);
    lemma_first_line(first, props, a0);
    let a1 = CanopyArchiveView {
        manifest: FacilityManifestView { facility_id: id, site_name: site, ..a0.manifest },
        ..a0
    };
    assert(a1.manifest.properties + a.manifest.properties =~= a.manifest.properties);
    lemma_property_lines(a.manifest.properties, devs, a1);
    let a2 = CanopyArchiveView {
        manifest: FacilityManifestView { properties: a1.manifest.properties + a.manifest.properties, ..a1.manifest },
        ..a1
    };
    lemma_device_lines(a.manifest.devices, links, a2);
    let a3 = CanopyArchiveView {
        manifest: FacilityManifestView {
            devices: a2.manifest.devices + a.manifest.devices.map_values(|d: DeviceView| reread_device(d)),
            ..a2.manifest
        },
        ..a2
    };
    lemma_link_lines(a.links, wins, a3);
    let a4 = CanopyArchiveView { links: a3.links + a.links, ..a3 };
    lemma_window_lines(a.windows, empty, a4);
    let a5 = CanopyArchiveView { windows: a4.windows + a.windows, ..a4 };
    lemma_text_lines_empty(a5);
    assert(a5.manifest.devices =~= reread(a).manifest.devices);
    assert(a5.links =~= a.links);
    assert(a5.windows =~= a.windows);
    assert(a5 == reread(a));
}

} // verus!
