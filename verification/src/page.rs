use crate::error::{DecodeError, Result};
use crate::model::{
    pages_view, rows_view, sample_kind_of, DeviceId, SampleKind, SamplePage, SamplePageView, SampleRow,
    SampleRowView,
};
use crate::reader::{
    bits_remaining_spec, read_bits_spec, read_bytes_spec, read_i16_spec, read_u64_spec, read_u8_spec,
    read_var_u32_spec, read_var_usize_spec, repeat_spec, zigzag_decode, zigzag_spec, BitReader,
    BitReaderView, Reader, Step,
};
use crate::store::PageCache;
use vstd::prelude::*;

verus! {

/// `x` clamped to the range of `i64`.
pub open spec fn clamp_i64(x: int) -> i64 {
    if x > i64::MAX {
        i64::MAX
    } else if x < i64::MIN {
        i64::MIN
    } else {
        x as i64
    }
}

fn saturating_mul_i64(a: i64, b: i64) -> (r: i64)
    ensures
        r == clamp_i64(a * b),
{
    proof {
        assert(-0x8000_0000_0000_0000 * 0x8000_0000_0000_0000 <= a * b <= 0x8000_0000_0000_0000
            * 0x8000_0000_0000_0000) by (nonlinear_arith)
            requires
                -0x8000_0000_0000_0000 <= a <= 0x7fff_ffff_ffff_ffff,
                -0x8000_0000_0000_0000 <= b <= 0x7fff_ffff_ffff_ffff,
        ;
    }
    let p = a as i128 * b as i128;
    if p > i64::MAX as i128 {
        i64::MAX
    } else if p < i64::MIN as i128 {
        i64::MIN
    } else {
        p as i64
    }
}

/// The sample values of row `idx`: one per channel width, the first channel of every
/// row that is 14 modulo 16 reusing the previous width; each value is zig-zag decoded and
/// scaled, saturating.
pub open spec fn row_values(
    widths: Seq<u8>,
    scale: i16,
    idx: nat,
    st: BitReaderView,
    ch: nat,
    acc: Seq<i64>,
) -> (core::result::Result<Seq<i64>, DecodeError>, BitReaderView)
    decreases widths.len() - ch,
{
    if ch >= widths.len() {
        (Ok(acc), st)
    } else {
        let w = if idx % 16 == 14 && ch == 0 { 0u8 } else { widths[ch as int] };
        match read_bits_spec(st, w) {
            (Err(e), st1) => (Err(e), st1),
            (Ok(v), st1) => row_values(widths, scale, idx, st1, ch + 1, acc.push(clamp_i64(zigzag_spec(v) * scale))),
        }
    }
}

/// Rows `idx..count` of a page. A marker is set every 32 rows; every 8th row starts with a
/// 9-bit delta, the others reuse the last width read; deltas accumulate (wrapping) into the
/// row timestamp; every 64th row rewinds to the marker when fewer than three bits per
/// channel remain.
pub open spec fn rows_from(
    widths: Seq<u8>,
    scale: i16,
    st: BitReaderView,
    idx: nat,
    count: nat,
    last: u32,
    acc: Seq<SampleRowView>,
) -> core::result::Result<Seq<SampleRowView>, DecodeError>
    decreases count - idx,
{
    if idx >= count {
        Ok(acc)
    } else {
        let st0 = if idx % 32 == 0 { BitReaderView { marker: st.bit, ..st } } else { st };
        match read_bits_spec(st0, if idx % 8 == 0 { 9 } else { 0 }) {
            (Err(e), _) => Err(e),
            (Ok(delta), st1) => {
                let t = last.wrapping_add(delta as u32);
                match row_values(widths, scale, idx, st1, 0, seq![]) {
                    (Err(e), _) => Err(e),
                    (Ok(values), st2) => {
                        let st3 = if idx % 64 == 63 && bits_remaining_spec(st2.data, st2.bit) < widths.len() * 3 {
                            BitReaderView { bit: st2.marker, ..st2 }
                        } else {
                            st2
                        };
                        rows_from(widths, scale, st3, idx + 1, count, t, acc.push(SampleRowView { timestamp_delta: t, values }))
                    },
                }
            },
        }
    }
}

/// The timestamp delta read for each of rows `idx..count`: the bit reader moves on as in
/// `rows_from` (marker every 32 rows, a 9-bit read every 8th row and a sticky-width read
/// otherwise, the row's values, the occasional rewind), collecting the delta each row read.
pub open spec fn row_deltas(widths: Seq<u8>, scale: i16, st: BitReaderView, idx: nat, count: nat) -> Seq<u32>
    decreases count - idx,
{
    if idx >= count {
        seq![]
    } else {
        let st0 = if idx % 32 == 0 { BitReaderView { marker: st.bit, ..st } } else { st };
        match read_bits_spec(st0, if idx % 8 == 0 { 9 } else { 0 }) {
            (Err(e), _) => seq![],
            (Ok(delta), st1) => match row_values(widths, scale, idx, st1, 0, seq![]) {
                (Err(e), _) => seq![],
                (Ok(values), st2) => {
                    let st3 = if idx % 64 == 63 && bits_remaining_spec(st2.data, st2.bit) < widths.len() * 3 {
                        BitReaderView { bit: st2.marker, ..st2 }
                    } else {
                        st2
                    };
                    seq![delta as u32] + row_deltas(widths, scale, st3, idx + 1, count)
                },
            },
        }
    }
}

/// `start` plus every value of `ds`, wrapping.
pub open spec fn wrapping_total(start: u32, ds: Seq<u32>) -> u32
    decreases ds.len(),
{
    if ds.len() == 0 {
        start
    } else {
        wrapping_total(start, ds.drop_last()).wrapping_add(ds.last())
    }
}

proof fn lemma_wrapping_total_front(start: u32, d: u32, ds: Seq<u32>)
    ensures
        wrapping_total(start, seq![d] + ds) == wrapping_total(start.wrapping_add(d), ds),
    decreases ds.len(),
{
    let s = seq![d] + ds;
    if ds.len() == 0 {
        assert(s.drop_last() =~= Seq::<u32>::empty());
        assert(s.last() == d);
        assert(wrapping_total(start, Seq::<u32>::empty()) == start);
    } else {
        lemma_wrapping_total_front(start, d, ds.drop_last());
        assert(s.drop_last() =~= seq![d] + ds.drop_last());
        assert(s.last() == ds.last());
    }
}

proof fn lemma_step_timestamps(last: u32, d: u32, rest: Seq<u32>, rows: Seq<SampleRowView>, base: int)
    requires
        0 <= base,
        rows.len() == base + 1 + rest.len(),
        rows[base].timestamp_delta == last.wrapping_add(d),
        forall|j: int|
            0 <= j < rest.len() ==> (#[trigger] rows[base + 1 + j]).timestamp_delta == wrapping_total(
                last.wrapping_add(d),
                rest.take(j + 1),
            ),
    ensures
        forall|j: int|
            0 <= j < 1 + rest.len() ==> (#[trigger] rows[base + j]).timestamp_delta == wrapping_total(
                last,
                (seq![d] + rest).take(j + 1),
            ),
{
    let ds = seq![d] + rest;
    assert forall|j: int| 0 <= j < 1 + rest.len() implies (#[trigger] rows[base + j]).timestamp_delta
        == wrapping_total(last, ds.take(j + 1)) by {
        if j == 0 {
            assert(ds.take(1) =~= seq![d]);
            lemma_wrapping_total_front(last, d, Seq::<u32>::empty());
            assert(seq![d] + Seq::<u32>::empty() =~= seq![d]);
        } else {
            assert(rows[base + 1 + (j - 1)].timestamp_delta == wrapping_total(last.wrapping_add(d), rest.take(j)));
            assert(ds.take(j + 1) =~= seq![d] + rest.take(j));
            lemma_wrapping_total_front(last, d, rest.take(j));
        }
    }
}

/// Row timestamps accumulate: decoding rows `idx..count` after a timestamp `last` gives
/// one row per index, each row's timestamp being `last` plus every delta read so far
/// (wrapping), so each row's timestamp is the previous one plus its own delta.
#[verifier::spinoff_prover]
pub proof fn law_rows_accumulate(
    widths: Seq<u8>,
    scale: i16,
    st: BitReaderView,
    idx: nat,
    count: nat,
    last: u32,
    acc: Seq<SampleRowView>,
)
    requires
        idx <= count,
    ensures
        rows_from(widths, scale, st, idx, count, last, acc) matches Ok(rows) ==> ({
            let ds = row_deltas(widths, scale, st, idx, count);
            &&& ds.len() == count - idx
            &&& rows.len() == acc.len() + ds.len()
            &&& forall|k: int| 0 <= k < acc.len() ==> rows[k] == acc[k]
            &&& forall|j: int|
                0 <= j < ds.len() ==> (#[trigger] rows[acc.len() + j]).timestamp_delta == wrapping_total(
                    last,
                    ds.take(j + 1),
                )
        }),
    decreases count - idx,
{
    if idx < count {
        let st0 = if idx % 32 == 0 { BitReaderView { marker: st.bit, ..st } } else { st };
        match read_bits_spec(st0, if idx % 8 == 0 { 9 } else { 0 }) {
            (Err(e), _) => {},
            (Ok(delta), st1) => match row_values(widths, scale, idx, st1, 0, seq![]) {
                (Err(e), _) => {},
                (Ok(values), st2) => {
                    let st3 = if idx % 64 == 63 && bits_remaining_spec(st2.data, st2.bit) < widths.len() * 3 {
                        BitReaderView { bit: st2.marker, ..st2 }
                    } else {
                        st2
                    };
                    let t = last.wrapping_add(delta as u32);
                    let acc2 = acc.push(SampleRowView { timestamp_delta: t, values });
                    law_rows_accumulate(widths, scale, st3, idx + 1, count, t, acc2);
                    let r = rows_from(widths, scale, st, idx, count, last, acc);
                    assert(r == rows_from(widths, scale, st3, idx + 1, count, t, acc2));
                    let rest = row_deltas(widths, scale, st3, idx + 1, count);
                    let ds = row_deltas(widths, scale, st, idx, count);
                    assert(ds =~= seq![delta as u32] + rest);
                    if r is Ok {
                        let rows = r->Ok_0;
                        assert forall|k: int| 0 <= k < acc.len() implies rows[k] == acc[k] by {
                            assert(rows[k] == acc2[k]);
                        }
                        assert(rows[acc.len() as int] == acc2[acc.len() as int]);
                        assert forall|j: int| 0 <= j < rest.len() implies (#[trigger] rows[acc.len() + 1 + j]).timestamp_delta
                            == wrapping_total(t, rest.take(j + 1)) by {
                            assert(rows[acc2.len() + j].timestamp_delta == wrapping_total(t, rest.take(j + 1)));
                        }
                        lemma_step_timestamps(last, delta as u32, rest, rows, acc.len() as int);
                    }
                },
            },
        }
    }
}

/// Each row's timestamp is the previous row's plus the row's own delta (wrapping), the
/// first row's being its delta.
pub open spec fn deltas_accumulate(rows: Seq<SampleRowView>, ds: Seq<u32>) -> bool {
    &&& ds.len() == rows.len()
    &&& rows.len() > 0 ==> rows[0].timestamp_delta == ds[0]
    &&& forall|k: int| 0 < k < rows.len() ==> (#[trigger] rows[k]).timestamp_delta == rows[k - 1].timestamp_delta.wrapping_add(ds[k])
}

/// Some width list and start of the packed bits of `d` give row deltas over which the
/// rows' timestamps accumulate.
pub open spec fn page_deltas_accumulate(d: Seq<u8>, p: SamplePageView) -> bool {
    exists|widths: Seq<u8>, q: int|
        #![trigger row_deltas(widths, p.scale, BitReaderView { data: d.skip(q), bit: 0, sticky_width: 1, marker: 0 }, 0, p.rows.len())]
        deltas_accumulate(
            p.rows,
            row_deltas(widths, p.scale, BitReaderView { data: d.skip(q), bit: 0, sticky_width: 1, marker: 0 }, 0, p.rows.len()),
        )
}

proof fn lemma_accumulate_from_totals(rows: Seq<SampleRowView>, ds: Seq<u32>)
    requires
        ds.len() == rows.len(),
        forall|j: int| 0 <= j < ds.len() ==> (#[trigger] rows[j]).timestamp_delta == wrapping_total(0, ds.take(j + 1)),
    ensures
        deltas_accumulate(rows, ds),
{
    if rows.len() > 0 {
        assert(rows[0].timestamp_delta == wrapping_total(0, ds.take(1)));
        assert(ds.take(1).drop_last() =~= Seq::<u32>::empty());
        assert(ds.take(1).last() == ds[0]);
        assert(wrapping_total(0, Seq::<u32>::empty()) == 0);
        assert((0u32).wrapping_add(ds[0]) == ds[0]);
        assert(rows[0].timestamp_delta == ds[0]);
    }
    assert forall|k: int| 0 < k < rows.len() implies (#[trigger] rows[k]).timestamp_delta == rows[k - 1].timestamp_delta.wrapping_add(ds[k]) by {
        assert(rows[k - 1].timestamp_delta == wrapping_total(0, ds.take(k)));
        assert(ds.take(k + 1).drop_last() =~= ds.take(k));
        assert(ds.take(k + 1).last() == ds[k]);
    }
}

/// A decoded page's row timestamps accumulate the deltas read from its packed bits: the
/// first row's timestamp is its delta and every later row's is the previous row's plus
/// its own delta, wrapping.
pub proof fn law_page_timestamps(d: Seq<u8>)
    ensures
        page_spec(d) matches Ok(p) ==> page_deltas_accumulate(d, p),
{
    if page_spec(d) is Ok && d.len() >= 12 {
        let p = page_spec(d)->Ok_0;
        let (_, p1) = read_var_u32_spec(d, 0);
        let (_, p2) = read_u8_spec(d, p1);
        let (_, p3) = read_u64_spec(d, p2);
        let (_, p4) = read_i16_spec(d, p3);
        let (rows, p5) = read_var_usize_spec(d, p4);
        let (c, p6) = read_u8_spec(d, p5);
        let w = repeat_spec(|d: Seq<u8>, p: int, i: nat| width_item(d, p), d, p6, 0, (c->Ok_0 % 16 + 1) as nat, seq![]);
        let widths = w.0->Ok_0;
        let q = w.1;
        let st = BitReaderView { data: d.skip(q), bit: 0, sticky_width: 1, marker: 0 };
        let n = rows->Ok_0 as nat;
        law_rows_accumulate(widths, p.scale, st, 0, n, 0, seq![]);
        let ds = row_deltas(widths, p.scale, st, 0, n);
        assert forall|j: int| 0 <= j < ds.len() implies (#[trigger] p.rows[j]).timestamp_delta == wrapping_total(0, ds.take(j + 1)) by {
            assert(p.rows[0 + j] == p.rows[j]);
        }
        lemma_accumulate_from_totals(p.rows, ds);
        assert(deltas_accumulate(p.rows, row_deltas(widths, p.scale, st, 0, p.rows.len())));
    }
}

/// A channel width byte, kept modulo 56.
pub open spec fn width_item(d: Seq<u8>, p: int) -> Step<u8> {
    match read_u8_spec(d, p) {
        (Ok(b), q) => (Ok(b % 56), q),
        (Err(e), q) => (Err(e), q),
    }
}

/// A packed sample page: at least 12 bytes; a device, a kind code, a base timestamp, a
/// scale, a row count (at most 4096), a channel count byte (kept modulo 16, plus one), that
/// many width bytes, and the packed bits of the rows.
pub open spec fn page_spec(d: Seq<u8>) -> core::result::Result<SamplePageView, DecodeError> {
    if d.len() < 12 {
        Err(DecodeError::Truncated { at: 0, needed: 12, available: d.len() as usize })
    } else {
        match read_var_u32_spec(d, 0) {
            (Err(e), _) => Err(e),
            (Ok(device), p1) => match read_u8_spec(d, p1) {
                (Err(e), _) => Err(e),
                (Ok(kind), p2) => match read_u64_spec(d, p2) {
                    (Err(e), _) => Err(e),
                    (Ok(base), p3) => match read_i16_spec(d, p3) {
                        (Err(e), _) => Err(e),
                        (Ok(scale), p4) => match read_var_usize_spec(d, p4) {
                            (Err(e), _) => Err(e),
                            (Ok(rows), p5) => if rows > 4096 {
                                Err(DecodeError::InvalidField("sample rows"))
                            } else {
                                match read_u8_spec(d, p5) {
                                    (Err(e), _) => Err(e),
                                    (Ok(c), p6) => page_from_widths(
                                        d,
                                        device,
                                        sample_kind_of(kind),
                                        base,
                                        scale,
                                        rows,
                                        repeat_spec(
                                            |d: Seq<u8>, p: int, i: nat| width_item(d, p),
                                            d,
                                            p6,
                                            0,
                                            (c % 16 + 1) as nat,
                                            seq![],
                                        ),
                                    ),
                                }
                            },
                        },
                    },
                },
            },
        }
    }
}

/// The page once its widths are read (or their failure).
pub open spec fn page_from_widths(
    d: Seq<u8>,
    device: u32,
    kind: SampleKind,
    base: u64,
    scale: i16,
    rows: usize,
    w: Step<Seq<u8>>,
) -> core::result::Result<SamplePageView, DecodeError> {
    match w {
        (Err(e), _) => Err(e),
        (Ok(widths), p7) => page_from_rows(
            device,
            kind,
            base,
            scale,
            rows_from(
                widths,
                scale,
                BitReaderView { data: d.skip(p7), bit: 0, sticky_width: 1, marker: 0 },
                0,
                rows as nat,
                0,
                seq![],
            ),
        ),
    }
}

/// The page once its rows are decoded (or their failure).
pub open spec fn page_from_rows(
    device: u32,
    kind: SampleKind,
    base: u64,
    scale: i16,
    r: core::result::Result<Seq<SampleRowView>, DecodeError>,
) -> core::result::Result<SamplePageView, DecodeError> {
    match r {
        Err(e) => Err(e),
        Ok(rows) => Ok(SamplePageView { device, kind, base_timestamp: base, scale, rows }),
    }
}

fn read_row_values(bits: &mut BitReader, widths: &Vec<u8>, scale: i16, idx: usize) -> (r: Result<Vec<i64>>)
    ensures
        ({
            let sp = row_values(widths@, scale, idx as nat, old(bits)@, 0, seq![]);
            &&& final(bits)@ == sp.1
            &&& ok_seq(r) == sp.0
        }),
{
    let ghost st = bits@;
    let mut values: Vec<i64> = Vec::new();
    let mut ch: usize = 0;
    proof {
        assert(idx & 15 == 14 <==> idx % 16 == 14) by (bit_vector);
    }
    while ch < widths.len()
        invariant
            ch <= widths@.len(),
            st == old(bits)@,
            idx & 15 == 14 <==> idx % 16 == 14,
            row_values(widths@, scale, idx as nat, bits@, ch as nat, values@) == row_values(
                widths@,
                scale,
                idx as nat,
                st,
                0,
                seq![],
            ),
        decreases widths@.len() - ch,
    {
        let w = if idx & 15 == 14 && ch == 0 { 0 } else { widths[ch] };
        let v = bits.read_bits(w)?;
        values.push(saturating_mul_i64(zigzag_decode(v), scale as i64));
        ch = ch + 1;
    }
    Ok(values)
}

pub open spec fn ok_seq<T>(r: core::result::Result<Vec<T>, DecodeError>) -> core::result::Result<Seq<T>, DecodeError> {
    match r {
        Ok(v) => Ok(v@),
        Err(e) => Err(e),
    }
}

pub fn decode_sample_page(data: &[u8]) -> (out: Result<SamplePage>)
    ensures
        match out {
            Ok(p) => page_spec(data@) == Ok::<SamplePageView, DecodeError>(p@),
            Err(e) => page_spec(data@) == Err::<SamplePageView, DecodeError>(e),
        },
{
    let ghost d = data@;
    let mut r = Reader::new(data);
    if r.remaining() < 12 {
        return Err(DecodeError::Truncated { at: r.position(), needed: 12, available: r.remaining() });
    }
    let device = DeviceId(r.read_var_u32()?);
    let kind = SampleKind::from_code(r.read_u8()?);
    let base_timestamp = r.read_u64()?;
    let scale = r.read_i16()?;
    let row_count = r.read_var_usize()?;
    if row_count > 4096 {
        return Err(DecodeError::InvalidField("sample rows"));
    }
    let channel_count = (r.read_u8()? as usize % 16) + 1;
    let ghost p6 = r@.pos;
    let ghost witem = |d: Seq<u8>, p: int, i: nat| width_item(d, p);
    let mut widths: Vec<u8> = Vec::new();
    let mut c: usize = 0;
    assert(page_spec(d) == page_from_widths(
        d,
        device.0,
        kind,
        base_timestamp,
        scale,
        row_count,
        repeat_spec(witem, d, p6, 0, channel_count as nat, seq![]),
    ));
    while c < channel_count
        invariant
            r@.data == d,
            d == data@,
            c <= channel_count,
            widths@.len() == c,
            page_spec(d) == page_from_widths(
                d,
                device.0,
                kind,
                base_timestamp,
                scale,
                row_count,
                repeat_spec(witem, d, p6, 0, channel_count as nat, seq![]),
            ),
            witem == (|d: Seq<u8>, p: int, i: nat| width_item(d, p)),
            repeat_spec(witem, d, r@.pos, c as nat, channel_count as nat, widths@) == repeat_spec(
                witem,
                d,
                p6,
                0,
                channel_count as nat,
                seq![],
            ),
        decreases channel_count - c,
    {
        let b = r.read_u8()?;
        widths.push(b % 56);
        c = c + 1;
    }
    let ghost p7 = r@.pos;
    let packed = r.read_remaining();
    let mut bits = BitReader::new(packed);
    let ghost st0 = bits@;
    assert(st0.data =~= d.skip(p7));
    let mut rows: Vec<SampleRow> = Vec::new();
    let mut last_delta: u32 = 0;
    let mut row_idx: usize = 0;
    assert(rows_view(rows@) =~= Seq::<SampleRowView>::empty());
    while row_idx < row_count
        invariant
            row_idx <= row_count,
            row_count <= 4096,
            d == data@,
            widths@.len() == channel_count,
            channel_count <= 16,
            page_spec(d) == page_from_rows(
                device.0,
                kind,
                base_timestamp,
                scale,
                rows_from(widths@, scale, st0, 0, row_count as nat, 0, seq![]),
            ),
            rows_from(widths@, scale, bits@, row_idx as nat, row_count as nat, last_delta, rows_view(rows@))
                == rows_from(widths@, scale, st0, 0, row_count as nat, 0, seq![]),
        decreases row_count - row_idx,
    {
        proof {
            assert(row_idx & 31 == 0 <==> row_idx % 32 == 0) by (bit_vector);
            assert(row_idx & 7 == 0 <==> row_idx % 8 == 0) by (bit_vector);
            assert(row_idx & 63 == 63 <==> row_idx % 64 == 63) by (bit_vector);
        }
        if row_idx & 31 == 0 {
            bits.set_marker();
        }
        let delta = bits.read_bits(if row_idx & 7 == 0 { 9 } else { 0 })?;
        last_delta = last_delta.wrapping_add(delta as u32);
        let values = read_row_values(&mut bits, &widths, scale, row_idx);
        let values = values?;
        if row_idx & 63 == 63 && bits.bits_remaining() < channel_count * 3 {
            bits.rewind_to_marker();
        }
        let row = SampleRow { timestamp_delta: last_delta, values };
        proof {
            assert(rows_view(rows@.push(row)) =~= rows_view(rows@).push(row@));
        }
        rows.push(row);
        row_idx = row_idx + 1;
    }
    Ok(SamplePage { device, kind, base_timestamp, scale, rows })
}

/// Reads one length-prefixed packed page.
pub open spec fn page_item(d: Seq<u8>, p: int) -> Step<SamplePageView> {
    match read_var_usize_spec(d, p) {
        (Err(e), q) => (Err(e), q),
        (Ok(len), p1) => match read_bytes_spec(d, p1, len as int) {
            (Err(e), q) => (Err(e), q),
            (Ok(b), p2) => match page_spec(b) {
                Err(e) => (Err(e), p2),
                Ok(page) => (Ok(page), p2),
            },
        },
    }
}

/// The pages of a page segment: a count (at most 4096) and that many length-prefixed pages.
pub open spec fn page_segment_spec(d: Seq<u8>) -> core::result::Result<Seq<SamplePageView>, DecodeError> {
    match read_var_usize_spec(d, 0) {
        (Err(e), _) => Err(e),
        (Ok(count), p) => if count > 4096 {
            Err(DecodeError::InvalidField("page count"))
        } else {
            repeat_spec(|d: Seq<u8>, p: int, i: nat| page_item(d, p), d, p, 0, count as nat, seq![]).0
        },
    }
}

pub fn parse_page_segment(data: &[u8]) -> (out: Result<Vec<SamplePage>>)
    ensures
        match out {
            Ok(v) => page_segment_spec(data@) == Ok::<Seq<SamplePageView>, DecodeError>(pages_view(v@)),
            Err(e) => page_segment_spec(data@) == Err::<Seq<SamplePageView>, DecodeError>(e),
        },
{
    let ghost d = data@;
    let ghost item = |d: Seq<u8>, p: int, i: nat| page_item(d, p);
    let mut r = Reader::new(data);
    let page_count = r.read_var_usize()?;
    if page_count > 4096 {
        return Err(DecodeError::InvalidField("page count"));
    }
    let mut cache = PageCache::new();
    let ghost start = r@.pos;
    assert(cache@.pages =~= Seq::<SamplePageView>::empty());
    let mut i: usize = 0;
    while i < page_count
        invariant
            r@.data == d,
            d == data@,
            i <= page_count,
            page_count <= 4096,
            item == (|d: Seq<u8>, p: int, i: nat| page_item(d, p)),
            repeat_spec(item, d, r@.pos, i as nat, page_count as nat, cache@.pages) == repeat_spec(
                item,
                d,
                start,
                0,
                page_count as nat,
                seq![],
            ),
            read_var_usize_spec(d, 0) == (Ok::<usize, DecodeError>(page_count), start),
        decreases page_count - i,
    {
        let len = r.read_var_usize()?;
        let bytes = r.read_bytes(len)?;
        let page = decode_sample_page(bytes)?;
        cache.insert(page);
        i = i + 1;
    }
    let _ = cache.replay_hot_count();
    Ok(cache.into_pages())
}

/// One length-prefixed chunk of bytes.
pub open spec fn chunk_item(d: Seq<u8>, p: int) -> Step<Seq<u8>> {
    match read_var_usize_spec(d, p) {
        (Err(e), q) => (Err(e), q),
        (Ok(len), p1) => read_bytes_spec(d, p1, len as int),
    }
}

/// The chunks of a page segment, without decoding them: a count (at most 4096) and that
/// many length-prefixed chunks.
pub open spec fn page_chunks(d: Seq<u8>) -> core::result::Result<Seq<Seq<u8>>, DecodeError> {
    match read_var_usize_spec(d, 0) {
        (Err(e), _) => Err(e),
        (Ok(count), p) => if count > 4096 {
            Err(DecodeError::InvalidField("page count"))
        } else {
            repeat_spec(|d: Seq<u8>, p: int, i: nat| chunk_item(d, p), d, p, 0, count as nat, seq![]).0
        },
    }
}

proof fn lemma_repeat_prefix<T>(
    item: spec_fn(Seq<u8>, int, nat) -> Step<T>,
    d: Seq<u8>,
    p: int,
    i: nat,
    n: nat,
    acc: Seq<T>,
)
    requires
        repeat_spec(item, d, p, i, n, acc).0 is Ok,
    ensures
        ({
            let v = repeat_spec(item, d, p, i, n, acc).0->Ok_0;
            &&& v.len() == acc.len() + if i <= n { n - i } else { 0 }
            &&& forall|k: int| 0 <= k < acc.len() ==> v[k] == acc[k]
        }),
    decreases n - i,
{
    if i < n {
        match item(d, p, i) {
            (Ok(x), q) => {
                lemma_repeat_prefix(item, d, q, i + 1, n, acc.push(x));
                let v = repeat_spec(item, d, p, i, n, acc).0->Ok_0;
                assert forall|k: int| 0 <= k < acc.len() implies v[k] == acc[k] by {
                    assert(acc.push(x)[k] == acc[k]);
                }
            },
            (Err(e), q) => {},
        }
    }
}

proof fn lemma_repeat_pages(d: Seq<u8>, p: int, i: nat, n: nat, pages: Seq<SamplePageView>, chunks: Seq<Seq<u8>>)
    requires
        pages.len() == chunks.len(),
        forall|k: int| 0 <= k < chunks.len() ==> page_spec(#[trigger] chunks[k]) == Ok::<SamplePageView, DecodeError>(pages[k]),
    ensures
        ({
            let rv = repeat_spec(|d: Seq<u8>, p: int, i: nat| page_item(d, p), d, p, i, n, pages).0;
            let rc = repeat_spec(|d: Seq<u8>, p: int, i: nat| chunk_item(d, p), d, p, i, n, chunks).0;
            &&& rv is Ok <==> (rc is Ok && forall|k: int| 0 <= k < rc->Ok_0.len() ==> (#[trigger] page_spec(rc->Ok_0[k])) is Ok)
            &&& rv is Ok ==> (rv->Ok_0.len() == rc->Ok_0.len() && forall|k: int|
                0 <= k < rc->Ok_0.len() ==> #[trigger] page_spec(rc->Ok_0[k]) == Ok::<SamplePageView, DecodeError>(rv->Ok_0[k]))
        }),
    decreases n - i,
{
    let fv = |d: Seq<u8>, p: int, i: nat| page_item(d, p);
    let fc = |d: Seq<u8>, p: int, i: nat| chunk_item(d, p);
    if i < n {
        match chunk_item(d, p) {
            (Err(e), q) => {},
            (Ok(b), q) => {
                let cs = chunks.push(b);
                match page_spec(b) {
                    Ok(pg) => {
                        let ps = pages.push(pg);
                        assert forall|k: int| 0 <= k < cs.len() implies page_spec(#[trigger] cs[k]) == Ok::<SamplePageView, DecodeError>(ps[k]) by {
                            if k < chunks.len() {
                                assert(cs[k] == chunks[k]);
                            }
                        }
                        lemma_repeat_pages(d, q, i + 1, n, ps, cs);
                    },
                    Err(e) => {
                        let rc = repeat_spec(fc, d, q, i + 1, n, cs).0;
                        if rc is Ok {
                            lemma_repeat_prefix(fc, d, q, i + 1, n, cs);
                            assert(rc->Ok_0[chunks.len() as int] == b);
                        }
                    },
                }
            },
        }
    }
}

/// A page segment decodes to the pages its chunks decode to, in order: it succeeds exactly
/// when the count is at most 4096, that many length-prefixed chunks can be read, and each
/// chunk decodes as a packed page; then page `k` is what chunk `k` decodes to.
pub proof fn law_page_segment(d: Seq<u8>)
    ensures
        page_segment_spec(d) is Ok <==> (page_chunks(d) is Ok && forall|k: int|
            0 <= k < page_chunks(d)->Ok_0.len() ==> (#[trigger] page_spec(page_chunks(d)->Ok_0[k])) is Ok),
        page_segment_spec(d) is Ok ==> (page_segment_spec(d)->Ok_0.len() == page_chunks(d)->Ok_0.len()
            && forall|k: int|
            0 <= k < page_chunks(d)->Ok_0.len() ==> #[trigger] page_spec(page_chunks(d)->Ok_0[k]) == Ok::<
                SamplePageView,
                DecodeError,
            >(page_segment_spec(d)->Ok_0[k])),
{
    match read_var_usize_spec(d, 0) {
        (Err(e), _) => {},
        (Ok(count), p) => {
            if count <= 4096 {
                lemma_repeat_pages(d, p, 0, count as nat, seq![], seq![]);
            }
        },
    }
}

/// `|v|`, wrapping at `i64::MIN`.
pub open spec fn wrapping_abs(v: i64) -> i64 {
    if v == i64::MIN {
        i64::MIN
    } else if v < 0 {
        (-v) as i64
    } else {
        v
    }
}

/// Wrapping sum of the absolute values of `values`, starting from `acc`.
pub open spec fn abs_sum(acc: i64, values: Seq<i64>) -> i64
    decreases values.len(),
{
    if values.len() == 0 {
        acc
    } else {
        abs_sum(acc, values.drop_last()).wrapping_add(wrapping_abs(values.last()))
    }
}

/// Wrapping sum of the absolute values of every sample of `rows`.
pub open spec fn rows_energy(rows: Seq<SampleRowView>) -> i64
    decreases rows.len(),
{
    if rows.len() == 0 {
        0
    } else {
        abs_sum(rows_energy(rows.drop_last()), rows.last().values)
    }
}

pub open spec fn page_energy_spec(page: SamplePageView) -> i64 {
    rows_energy(page.rows)
}

fn abs_wrapping(v: i64) -> (r: i64)
    ensures
        r == wrapping_abs(v),
{
    if v == i64::MIN {
        i64::MIN
    } else if v < 0 {
        -v
    } else {
        v
    }
}

/// The wrapping sum of the absolute values of all samples of a page.
pub fn page_energy(page: &SamplePage) -> (r: i64)
    ensures
        r == page_energy_spec(page@),
{
    let ghost rows = rows_view(page.rows@);
    let mut acc: i64 = 0;
    let mut i: usize = 0;
    while i < page.rows.len()
        invariant
            rows == rows_view(page.rows@),
            i <= rows.len(),
            acc == rows_energy(rows.take(i as int)),
        decreases rows.len() - i,
    {
        proof {
            assert(rows.take(i + 1).drop_last() =~= rows.take(i as int));
        }
        let values = &page.rows[i].values;
        let ghost start = acc;
        let mut j: usize = 0;
        assert(values@.take(0) =~= Seq::<i64>::empty());
        while j < values.len()
            invariant
                j <= values@.len(),
                acc == abs_sum(start, values@.take(j as int)),
            decreases values@.len() - j,
        {
            proof {
                assert(values@.take(j + 1).drop_last() =~= values@.take(j as int));
            }
            acc = acc.wrapping_add(abs_wrapping(values[j]));
            j = j + 1;
        }
        assert(values@.take(j as int) =~= values@);
        i = i + 1;
    }
    assert(rows.take(i as int) =~= rows);
    acc
}

/// Every `stride`-th row, from the first (a stride of 0 counts as 1).
pub open spec fn strided_rows(rows: Seq<SampleRowView>, stride: nat) -> Seq<SampleRowView> {
    let s = if stride == 0 { 1 } else { stride };
    Seq::new((if rows.len() == 0 { 0 } else { ((rows.len() - 1) / s as int) + 1 }) as nat, |i: int| rows[i * s])
}

fn copy_values(v: &Vec<i64>) -> (r: Vec<i64>)
    ensures
        r@ == v@,
{
    let mut out: Vec<i64> = Vec::new();
    out.extend_from_slice(v.as_slice());
    assert(out@ =~= v@);
    out
}

/// A page with every `stride`-th row of `page`.
pub fn resample_page(page: &SamplePage, stride: usize) -> (r: SamplePage)
    ensures
        r@ == (SamplePageView { rows: strided_rows(page@.rows, stride as nat), ..page@ }),
{
    let step = if stride == 0 { 1 } else { stride };
    let ghost rows = page@.rows;
    let ghost target = strided_rows(rows, stride as nat);
    let len = page.rows.len();
    let n = if len == 0 { 0 } else { (len - 1) / step + 1 };
    let mut out: Vec<SampleRow> = Vec::new();
    let mut k: usize = 0;
    while k < n
        invariant
            rows == page@.rows,
            len == rows.len(),
            step >= 1,
            step == if stride == 0 { 1 } else { stride },
            target == strided_rows(rows, stride as nat),
            n == target.len(),
            n == if len == 0 { 0 } else { (len - 1) as int / step as int + 1 },
            k <= n,
            rows_view(out@) == target.take(k as int),
        decreases n - k,
    {
        proof {
            assert(k * step <= len - 1) by (nonlinear_arith)
                requires
                    k < n,
                    n == (len - 1) as int / step as int + 1,
                    step >= 1,
                    len >= 1;
        }
        let i = k * step;
        let row = SampleRow { timestamp_delta: page.rows[i].timestamp_delta, values: copy_values(&page.rows[i].values) };
        proof {
            let sv: nat = if stride == 0 { 1 } else { stride as nat };
            assert(sv == step);
            assert(target[k as int] == rows[k as int * sv as int]);
            assert(k as int * sv as int == i as int);
            assert(target[k as int] == rows[i as int]);
            assert(row@ == rows[i as int]);
            assert(rows_view(out@.push(row)) =~= rows_view(out@).push(row@));
        }
        out.push(row);
        assert(rows_view(out@) =~= target.take(k + 1));
        k = k + 1;
    }
    assert(target.take(k as int) =~= target);
    SamplePage { device: page.device, kind: page.kind, base_timestamp: page.base_timestamp, scale: page.scale, rows: out }
}

/// Resampling with a stride of one, or of zero, keeps every row.
pub proof fn law_resample_unit_stride(rows: Seq<SampleRowView>)
    ensures
        strided_rows(rows, 1) == rows,
        strided_rows(rows, 0) == rows,
{
    if rows.len() > 0 {
        assert((rows.len() - 1) / 1int == rows.len() - 1);
    }
    assert forall|i: int| 0 <= i < rows.len() implies #[trigger] rows[i * 1int] == rows[i] by {
        assert(i * 1int == i);
    }
    assert(strided_rows(rows, 1).len() == rows.len());
    assert(strided_rows(rows, 1) =~= rows);
    assert(strided_rows(rows, 0) =~= strided_rows(rows, 1));
}

/// Resampling keeps the first row, and with it one row in every `stride`.
pub proof fn law_resample_first_row(rows: Seq<SampleRowView>, stride: nat)
    requires
        rows.len() > 0,
    ensures
        strided_rows(rows, stride).len() > 0,
        strided_rows(rows, stride)[0] == rows[0],
{
    let s = if stride == 0 { 1 } else { stride };
    assert((rows.len() - 1) / s as int >= 0) by (nonlinear_arith)
        requires
            rows.len() >= 1,
            s >= 1,
    ;
}

} // verus!
