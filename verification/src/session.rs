use crate::envelope::{blobs_measure, finish_fold, finish_result, parse_archive, unparsed_note};
use crate::error::{res_view, DecodeError, Result};
use crate::model::{strings_view, CanopyArchive};
use crate::numtext::decimal_string;
use crate::reader::{
    checksum32, checksum_spec, le_u32, le_value, lemma_le_value_4, read_u16_spec, read_u32_spec,
    read_u8_spec, read_var_usize_spec, var_u32_from, copy_bytes, Reader,
};
use crate::store::{FragmentPool, FragmentPoolView};
use std::collections::BTreeMap;
use vstd::prelude::*;

verus! {

broadcast use {vstd::std_specs::btree::group_btree_axioms, vstd::laws_cmp::group_laws_cmp};

/// What one call of `StreamDecoder::push` ended on.
#[derive(Debug, Clone, Copy, PartialEq, Eq, Structural)]
pub enum FrameOutcome {
    NeedMore,
    Accepted { session: u32, fragment: u16 },
    Completed { session: u32, bytes: usize },
}

/// The fixed part of a stream frame.
#[derive(Debug, Clone, Copy, PartialEq, Eq, Structural)]
pub struct FrameHeader {
    pub session: u32,
    pub fragment: u16,
    pub expected: u16,
    pub total_len: usize,
    pub payload_len: usize,
    pub header_len: usize,
}

struct SessionState {
    expected: u16,
    total_len: usize,
    fragments: Vec<(u16, usize)>,
    complete: bool,
}

/// A session: the fragment count it waits for, its announced length, its fragments
/// (number and pool slot, by increasing number) and whether it has completed.
pub struct SessionStateView {
    pub expected: u16,
    pub total_len: usize,
    pub fragments: Seq<(u16, usize)>,
    pub complete: bool,
}

impl View for SessionState {
    type V = SessionStateView;

    closed spec fn view(&self) -> SessionStateView {
        SessionStateView {
            expected: self.expected,
            total_len: self.total_len,
            fragments: self.fragments@,
            complete: self.complete,
        }
    }
}

/// Rebuilds archives from a byte stream cut into checksummed, numbered fragments.
pub struct StreamDecoder {
    pending: Vec<u8>,
    pool: FragmentPool,
    sessions: BTreeMap<u32, SessionState>,
    completed: Vec<Vec<u8>>,
}

/// The decoder's state: bytes not yet framed, the fragment pool, the sessions by
/// identifier, and the reassembled payloads.
pub struct StreamDecoderView {
    pub pending: Seq<u8>,
    pub pool: FragmentPoolView,
    pub sessions: Map<u32, SessionStateView>,
    pub completed: Seq<Seq<u8>>,
}

spec fn sessions_view(s: Map<u32, SessionState>) -> Map<u32, SessionStateView> {
    s.map_values(|e: SessionState| e@)
}

pub open spec fn blobs_view(s: Seq<Vec<u8>>) -> Seq<Seq<u8>> {
    s.map_values(|v: Vec<u8>| v@)
}

impl View for StreamDecoder {
    type V = StreamDecoderView;

    closed spec fn view(&self) -> StreamDecoderView {
        StreamDecoderView {
            pending: self.pending@,
            pool: self.pool@,
            sessions: sessions_view(self.sessions@),
            completed: blobs_view(self.completed@),
        }
    }
}

/// A decoder that has been fed nothing.
pub open spec fn fresh_decoder() -> StreamDecoderView {
    StreamDecoderView {
        pending: Seq::empty(),
        pool: FragmentPoolView { slots: Seq::empty(), retired: Seq::empty() },
        sessions: Map::empty(),
        completed: Seq::empty(),
    }
}

/// The bytes start with the frame magic `CBFR`.
pub open spec fn has_stream_magic(d: Seq<u8>) -> bool {
    d.len() >= 4 && d[0] == 0x43 && d[1] == 0x42 && d[2] == 0x46 && d[3] == 0x52
}

/// Index of the first `C` at or after `i`, or the length.
pub open spec fn c_index_from(d: Seq<u8>, i: int) -> int
    decreases d.len() - i,
{
    if i >= d.len() {
        d.len() as int
    } else if d[i] == 0x43 {
        i
    } else {
        c_index_from(d, i + 1)
    }
}

/// How many bytes are dropped to resynchronize on a frame start: up to the first `C`,
/// and at least one.
pub open spec fn resync_len(d: Seq<u8>) -> int {
    let c = c_index_from(d, 0);
    if c == 0 {
        1
    } else {
        c
    }
}

/// The header of the frame at the start of `d`, after its magic.
pub open spec fn frame_header(d: Seq<u8>) -> core::result::Result<FrameHeader, DecodeError> {
    match read_u32_spec(d, 4) {
        (Err(e), _) => Err(e),
        (Ok(session), p1) => match read_u16_spec(d, p1) {
            (Err(e), _) => Err(e),
            (Ok(fragment), p2) => match read_u16_spec(d, p2) {
                (Err(e), _) => Err(e),
                (Ok(expected), p3) => match read_var_usize_spec(d, p3) {
                    (Err(e), _) => Err(e),
                    (Ok(total_len), p4) => match read_var_usize_spec(d, p4) {
                        (Err(e), _) => Err(e),
                        (Ok(payload_len), p5) => Ok(
                            FrameHeader {
                                session,
                                fragment,
                                expected,
                                total_len,
                                payload_len,
                                header_len: p5 as usize,
                            },
                        ),
                    },
                },
            },
        },
    }
}

/// The checksum stored after a payload ending at `end`.
pub open spec fn frame_check(d: Seq<u8>, end: int) -> u32 {
    le_value(d.subrange(end, end + 4)) as u32
}

/// Sum of the lengths of byte sequences.
pub open spec fn seqs_total(s: Seq<Seq<u8>>) -> nat
    decreases s.len(),
{
    if s.len() == 0 {
        0
    } else {
        seqs_total(s.drop_last()) + s.last().len()
    }
}

/// Takes slot `slot` out of the pool: its bytes, and the pool with the slot emptied and
/// the fragment retired; a missing slot gives nothing and changes nothing.
pub open spec fn pool_take(pool: FragmentPoolView, slot: usize) -> (Seq<u8>, FragmentPoolView) {
    if slot < pool.slots.len() {
        let t = pool.slots[slot as int];
        (
            t,
            FragmentPoolView {
                slots: pool.slots.update(slot as int, Seq::empty()),
                retired: pool.retired.push((if t.len() > 0 { t[0] } else { 0 }, t.len() as usize)),
            },
        )
    } else {
        (Seq::empty(), pool)
    }
}

/// The fragments' bytes joined in order, each taken out of the pool.
pub open spec fn join_fragments(pool: FragmentPoolView, frags: Seq<(u16, usize)>) -> (
    Seq<u8>,
    FragmentPoolView,
)
    decreases frags.len(),
{
    if frags.len() == 0 {
        (Seq::empty(), pool)
    } else {
        let (b, p) = join_fragments(pool, frags.drop_last());
        let (t, q) = pool_take(p, frags.last().1);
        (b + t, q)
    }
}

/// The fragment list with number `k` bound to slot `v`: an entry for `k` is replaced,
/// otherwise the entry goes before the first larger number.
pub open spec fn frag_insert(s: Seq<(u16, usize)>, k: u16, v: usize) -> Seq<(u16, usize)>
    decreases s.len(),
{
    if s.len() == 0 {
        seq![(k, v)]
    } else if s[0].0 == k {
        seq![(k, v)] + s.drop_first()
    } else if k < s[0].0 {
        seq![(k, v)] + s
    } else {
        seq![s[0]] + frag_insert(s.drop_first(), k, v)
    }
}

/// The decoder after accepting a frame with header `h` and payload `payload`: the payload
/// goes to a new pool slot, the session is created or updated, and once it holds as many
/// fragments as it expects they are joined into a completed payload.
pub open spec fn accept_frame(st: StreamDecoderView, h: FrameHeader, payload: Seq<u8>) -> (
    StreamDecoderView,
    FrameOutcome,
) {
    let idx = st.pool.slots.len() as usize;
    let pool1 = FragmentPoolView { slots: st.pool.slots.push(payload), retired: st.pool.retired };
    let exp = h.expected & 0x7fff;
    let prev = if st.sessions.contains_key(h.session) {
        st.sessions[h.session]
    } else {
        SessionStateView { expected: exp, total_len: h.total_len, fragments: Seq::empty(), complete: false }
    };
    let frags = frag_insert(prev.fragments, h.fragment, idx);
    let expected = if prev.expected >= exp { prev.expected } else { exp };
    let total_len = if prev.total_len >= h.total_len { prev.total_len } else { h.total_len };
    let done = frags.len() >= expected && expected != 0;
    let (joined, pool2) = if done { join_fragments(pool1, frags) } else { (Seq::empty(), pool1) };
    let state = SessionStateView {
        expected,
        total_len,
        fragments: frags,
        complete: if done { true } else { prev.complete },
    };
    let sessions = st.sessions.insert(h.session, state);
    (
        StreamDecoderView {
            pending: st.pending,
            pool: pool2,
            sessions,
            completed: if done { st.completed.push(joined) } else { st.completed },
        },
        if done {
            FrameOutcome::Completed { session: h.session, bytes: joined.len() as usize }
        } else {
            FrameOutcome::Accepted { session: h.session, fragment: h.fragment }
        },
    )
}

/// Consumes whole frames from the pending bytes until fewer than 18 are left or the next
/// frame is incomplete; bytes before a frame magic are skipped, frames whose checksum is
/// wrong are dropped when their `expected` field has its top bit set. The result is the
/// outcome of the last accepted frame (`last` if none), or the error of a header that
/// cannot be read, with the state at that point.
pub open spec fn drain_frames(st: StreamDecoderView, last: FrameOutcome) -> (
    core::result::Result<FrameOutcome, DecodeError>,
    StreamDecoderView,
)
    decreases st.pending.len(),
{
    let d = st.pending;
    if d.len() < 18 {
        (Ok(last), st)
    } else if !has_stream_magic(d) {
        proof {
            lemma_c_index_bounds(d, 0);
        }
        drain_frames(StreamDecoderView { pending: d.skip(resync_len(d)), ..st }, last)
    } else {
        match frame_header(d) {
            Err(e) => (Err(e), st),
            Ok(h) => if d.len() < h.header_len + h.payload_len + 4 {
                (Ok(last), st)
            } else {
                let end = h.header_len + h.payload_len;
                let payload = d.subrange(h.header_len as int, end);
                let st1 = StreamDecoderView { pending: d.skip(end + 4), ..st };
                if frame_check(d, end) != checksum_spec(payload) && h.expected & 0x8000 != 0 {
                    drain_frames(st1, last)
                } else {
                    let (st2, out) = accept_frame(st1, h, payload);
                    drain_frames(st2, out)
                }
            },
        }
    }
}

/// A push of `bytes`: they are appended to the pending bytes, which are then drained.
pub open spec fn push_spec(st: StreamDecoderView, bytes: Seq<u8>) -> (
    core::result::Result<FrameOutcome, DecodeError>,
    StreamDecoderView,
) {
    drain_frames(StreamDecoderView { pending: st.pending + bytes, ..st }, FrameOutcome::NeedMore)
}

pub proof fn lemma_c_index_bounds(d: Seq<u8>, i: int)
    requires
        0 <= i <= d.len(),
    ensures
        i <= c_index_from(d, i) <= d.len(),
        c_index_from(d, i) < d.len() ==> d[c_index_from(d, i)] == 0x43,
    decreases d.len() - i,
{
    if i < d.len() && d[i] != 0x43 {
        lemma_c_index_bounds(d, i + 1);
    }
}

/// Number of bytes to drop before the next possible frame start.
fn resync_exec(d: &[u8]) -> (n: usize)
    ensures
        n == resync_len(d@),
{
    let mut i: usize = 0;
    while i < d.len() && d[i] != 0x43
        invariant
            i <= d@.len(),
            c_index_from(d@, 0) == c_index_from(d@, i as int),
        decreases d@.len() - i,
    {
        i = i + 1;
    }
    if i == 0 {
        1
    } else {
        i
    }
}

proof fn lemma_var_position(d: Seq<u8>, p: int, i: nat, acc: u32)
    requires
        0 <= p,
    ensures
        var_u32_from(d, p, i, acc).0 is Ok ==> p < var_u32_from(d, p, i, acc).1 <= d.len(),
    decreases 5 - i,
{
    if i < 5 {
        match read_u8_spec(d, p) {
            (Err(_), _) => {},
            (Ok(b), q) => {
                let next = acc | crate::reader::var_group(b, i as int);
                if b & 0x80 != 0 {
                    lemma_var_position(d, q, i + 1, next);
                }
            },
        }
    }
}

/// A readable header ends at least 14 bytes in and inside the bytes.
proof fn lemma_header_bounds(d: Seq<u8>)
    requires
        d.len() <= usize::MAX,
    ensures
        frame_header(d) matches Ok(h) ==> 14 <= h.header_len <= d.len(),
{
    if let (Ok(_), p1) = read_u32_spec(d, 4) {
        if let (Ok(_), p2) = read_u16_spec(d, p1) {
            if let (Ok(_), p3) = read_u16_spec(d, p2) {
                lemma_var_position(d, p3, 0, 0);
                if let (Ok(_), p4) = read_var_usize_spec(d, p3) {
                    lemma_var_position(d, p4, 0, 0);
                }
            }
        }
    }
}

/// Reads the header of the frame at the start of `d`.
fn read_frame_header(d: &[u8]) -> (r: Result<FrameHeader>)
    requires
        d@.len() >= 18,
    ensures
        r == frame_header(d@),
        r matches Ok(h) ==> 14 <= h.header_len <= d@.len(),
{
    let n = d.len();
    proof {
        lemma_header_bounds(d@);
    }
    let mut r = Reader::new(d);
    let _ = r.read_bytes(4);
    let session = r.read_u32()?;
    let fragment = r.read_u16()?;
    let expected = r.read_u16()?;
    let total_len = r.read_var_usize()?;
    let payload_len = r.read_var_usize()?;
    let header_len = r.position();
    Ok(FrameHeader { session, fragment, expected, total_len, payload_len, header_len })
}

proof fn lemma_frag_insert_at(s: Seq<(u16, usize)>, k: u16, v: usize, i: int)
    requires
        0 <= i <= s.len(),
        forall|j: int| 0 <= j < i ==> #[trigger] s[j].0 < k,
        i < s.len() ==> s[i].0 >= k,
    ensures
        frag_insert(s, k, v) == if i < s.len() && s[i].0 == k {
            s.update(i, (k, v))
        } else {
            s.insert(i, (k, v))
        },
    decreases s.len(),
{
    if i == 0 {
        if s.len() == 0 {
            assert(s.insert(0, (k, v)) =~= seq![(k, v)]);
        } else if s[0].0 == k {
            assert(s.update(0, (k, v)) =~= seq![(k, v)] + s.drop_first());
        } else {
            assert(s.insert(0, (k, v)) =~= seq![(k, v)] + s);
        }
    } else {
        let t = s.drop_first();
        assert(s[0].0 < k);
        assert forall|j: int| 0 <= j < i - 1 implies #[trigger] t[j].0 < k by {
            assert(t[j] == s[j + 1]);
        }
        if i < s.len() {
            assert(t[i - 1] == s[i]);
        }
        lemma_frag_insert_at(t, k, v, i - 1);
        if i < s.len() && s[i].0 == k {
            assert(s.update(i, (k, v)) =~= seq![s[0]] + t.update(i - 1, (k, v)));
        } else {
            assert(s.insert(i, (k, v)) =~= seq![s[0]] + t.insert(i - 1, (k, v)));
        }
    }
}

/// Binds fragment number `k` to slot `v`, keeping the numbers in increasing order.
fn frag_insert_exec(frags: &mut Vec<(u16, usize)>, k: u16, v: usize)
    ensures
        final(frags)@ == frag_insert(old(frags)@, k, v),
{
    let mut i: usize = 0;
    while i < frags.len() && frags[i].0 < k
        invariant
            i <= frags@.len(),
            frags@ == old(frags)@,
            forall|j: int| 0 <= j < i ==> #[trigger] frags@[j].0 < k,
        decreases frags@.len() - i,
    {
        i = i + 1;
    }
    proof {
        lemma_frag_insert_at(frags@, k, v, i as int);
    }
    if i < frags.len() && frags[i].0 == k {
        frags.set(i, (k, v));
    } else {
        frags.insert(i, (k, v));
    }
}

/// Takes the fragments out of the pool and joins their bytes.
fn join(pool: &mut FragmentPool, frags: &Vec<(u16, usize)>) -> (joined: Vec<u8>)
    ensures
        (joined@, final(pool)@) == join_fragments(old(pool)@, frags@),
{
    let ghost p0 = pool@;
    let mut joined: Vec<u8> = Vec::new();
    let mut k: usize = 0;
    assert(frags@.take(0) =~= Seq::<(u16, usize)>::empty());
    assert(joined@ =~= Seq::<u8>::empty());
    while k < frags.len()
        invariant
            k <= frags@.len(),
            (joined@, pool@) == join_fragments(p0, frags@.take(k as int)),
        decreases frags@.len() - k,
    {
        proof {
            assert(frags@.take(k + 1).drop_last() =~= frags@.take(k as int));
        }
        let slot = frags[k].1;
        let ghost before = joined@;
        match pool.take(slot) {
            Some(bytes) => {
                joined.extend_from_slice(bytes.as_slice());
            },
            None => {
                assert(joined@ =~= before + Seq::<u8>::empty());
            },
        }
        k = k + 1;
    }
    assert(frags@.take(k as int) =~= frags@);
    joined
}

/// Bytes the decoder holds: pending, in pool slots and in completed payloads.
pub open spec fn held(st: StreamDecoderView) -> nat {
    st.pending.len() + seqs_total(st.pool.slots) + seqs_total(st.completed)
}

/// The decoder holds no more than the `n` bytes it was fed, and 18 fewer once a payload
/// has been completed (each frame carries at least 18 bytes besides its payload).
pub open spec fn within(st: StreamDecoderView, n: nat) -> bool {
    &&& held(st) <= n
    &&& st.completed.len() > 0 ==> held(st) + 18 <= n
}

/// The length of the longest sequence.
pub open spec fn longest(s: Seq<Seq<u8>>) -> nat
    decreases s.len(),
{
    if s.len() == 0 {
        0
    } else {
        let m = longest(s.drop_last());
        if s.last().len() > m {
            s.last().len()
        } else {
            m
        }
    }
}

pub proof fn lemma_longest(s: Seq<Seq<u8>>)
    ensures
        longest(s) <= seqs_total(s),
        forall|i: int| 0 <= i < s.len() ==> #[trigger] s[i].len() <= longest(s),
        s.len() > 0 ==> longest(s.drop_last()) <= longest(s),
    decreases s.len(),
{
    if s.len() > 0 {
        lemma_longest(s.drop_last());
        assert forall|i: int| 0 <= i < s.len() implies #[trigger] s[i].len() <= longest(s) by {
            if i < s.len() - 1 {
                assert(s[i] == s.drop_last()[i]);
            }
        }
    }
}

proof fn lemma_seqs_total_update(s: Seq<Seq<u8>>, i: int, x: Seq<u8>)
    requires
        0 <= i < s.len(),
    ensures
        seqs_total(s.update(i, x)) + s[i].len() == seqs_total(s) + x.len(),
    decreases s.len(),
{
    let u = s.update(i, x);
    if i == s.len() - 1 {
        assert(u.drop_last() =~= s.drop_last());
    } else {
        assert(u.drop_last() =~= s.drop_last().update(i, x));
        lemma_seqs_total_update(s.drop_last(), i, x);
    }
}

proof fn lemma_seqs_total_push(s: Seq<Seq<u8>>, x: Seq<u8>)
    ensures
        seqs_total(s.push(x)) == seqs_total(s) + x.len(),
{
    assert(s.push(x).drop_last() =~= s);
}

proof fn lemma_join_conserves(pool: FragmentPoolView, frags: Seq<(u16, usize)>)
    ensures
        join_fragments(pool, frags).0.len() + seqs_total(join_fragments(pool, frags).1.slots)
            == seqs_total(pool.slots),
    decreases frags.len(),
{
    if frags.len() > 0 {
        lemma_join_conserves(pool, frags.drop_last());
        let (b, p) = join_fragments(pool, frags.drop_last());
        let slot = frags.last().1;
        if slot < p.slots.len() {
            lemma_seqs_total_update(p.slots, slot as int, Seq::empty());
        }
    }
}

proof fn lemma_accept_held(st: StreamDecoderView, h: FrameHeader, payload: Seq<u8>)
    ensures
        held(accept_frame(st, h, payload).0) == held(st) + payload.len(),
{
    let pool1 = FragmentPoolView { slots: st.pool.slots.push(payload), retired: st.pool.retired };
    lemma_seqs_total_push(st.pool.slots, payload);
    let out = accept_frame(st, h, payload).0;
    if out.completed.len() != st.completed.len() {
        let exp = h.expected & 0x7fff;
        let prev = if st.sessions.contains_key(h.session) {
            st.sessions[h.session]
        } else {
            SessionStateView { expected: exp, total_len: h.total_len, fragments: Seq::empty(), complete: false }
        };
        let frags = frag_insert(prev.fragments, h.fragment, st.pool.slots.len() as usize);
        lemma_join_conserves(pool1, frags);
        lemma_seqs_total_push(st.completed, join_fragments(pool1, frags).0);
    }
}

proof fn lemma_drain_within(st: StreamDecoderView, last: FrameOutcome, n: nat)
    requires
        within(st, n),
        n <= usize::MAX,
    ensures
        within(drain_frames(st, last).1, n),
    decreases st.pending.len(),
{
    let d = st.pending;
    if d.len() < 18 {
    } else if !has_stream_magic(d) {
        lemma_c_index_bounds(d, 0);
        let st1 = StreamDecoderView { pending: d.skip(resync_len(d)), ..st };
        lemma_drain_within(st1, last, n);
    } else {
        lemma_header_bounds(d);
        match frame_header(d) {
            Err(e) => {},
            Ok(h) => if d.len() >= h.header_len + h.payload_len + 4 {
                let end = h.header_len + h.payload_len;
                let payload = d.subrange(h.header_len as int, end);
                let st1 = StreamDecoderView { pending: d.skip(end + 4), ..st };
                if frame_check(d, end) != checksum_spec(payload) && h.expected & 0x8000 != 0 {
                    lemma_drain_within(st1, last, n);
                } else {
                    let (st2, out) = accept_frame(st1, h, payload);
                    lemma_accept_held(st1, h, payload);
                    lemma_drain_within(st2, out, n);
                }
            },
        }
    }
}

/// A push keeps the decoder within the bytes fed to it.
pub proof fn lemma_push_within(st: StreamDecoderView, bytes: Seq<u8>, n: nat)
    requires
        within(st, n),
        n + bytes.len() <= usize::MAX,
    ensures
        within(push_spec(st, bytes).1, n + bytes.len()),
{
    let st1 = StreamDecoderView { pending: st.pending + bytes, ..st };
    lemma_drain_within(st1, FrameOutcome::NeedMore, n + bytes.len());
}

/// Fragment numbers strictly increase along the list.
pub open spec fn frags_sorted(s: Seq<(u16, usize)>) -> bool {
    forall|i: int, j: int| 0 <= i < j < s.len() ==> #[trigger] s[i].0 < #[trigger] s[j].0
}

proof fn lemma_frag_insert_new(s: Seq<(u16, usize)>, k: u16, v: usize)
    requires
        frags_sorted(s),
        forall|i: int| 0 <= i < s.len() ==> #[trigger] s[i].0 != k,
    ensures
        frags_sorted(frag_insert(s, k, v)),
        frag_insert(s, k, v).len() == s.len() + 1,
        forall|x: (u16, usize)| #[trigger] frag_insert(s, k, v).contains(x) <==> (s.contains(x) || x == (k, v)),
    decreases s.len(),
{
    let r = frag_insert(s, k, v);
    if s.len() == 0 {
        assert forall|x: (u16, usize)| #[trigger] r.contains(x) <==> (s.contains(x) || x == (k, v)) by {
            if r.contains(x) {
                let i = choose|i: int| 0 <= i < r.len() && r[i] == x;
                assert(i == 0);
            }
            if x == (k, v) {
                assert(r[0] == x);
            }
        }
    } else if k < s[0].0 {
        assert(r == seq![(k, v)] + s);
        assert forall|i: int, j: int| 0 <= i < j < r.len() implies #[trigger] r[i].0 < #[trigger] r[j].0 by {
            if i == 0 {
                assert(r[j] == s[j - 1]);
                if j > 1 {
                    assert(s[0].0 < s[j - 1].0);
                }
            } else {
                assert(r[i] == s[i - 1] && r[j] == s[j - 1]);
            }
        }
        assert forall|x: (u16, usize)| #[trigger] r.contains(x) <==> (s.contains(x) || x == (k, v)) by {
            if r.contains(x) {
                let i = choose|i: int| 0 <= i < r.len() && r[i] == x;
                if i > 0 {
                    assert(s[i - 1] == x);
                }
            }
            if s.contains(x) {
                let i = choose|i: int| 0 <= i < s.len() && s[i] == x;
                assert(r[i + 1] == x);
            }
            if x == (k, v) {
                assert(r[0] == x);
            }
        }
    } else {
        let t = s.drop_first();
        assert(s[0].0 != k);
        assert forall|i: int, j: int| 0 <= i < j < t.len() implies #[trigger] t[i].0 < #[trigger] t[j].0 by {
            assert(t[i] == s[i + 1] && t[j] == s[j + 1]);
        }
        assert forall|i: int| 0 <= i < t.len() implies #[trigger] t[i].0 != k by {
            assert(t[i] == s[i + 1]);
        }
        lemma_frag_insert_new(t, k, v);
        let u = frag_insert(t, k, v);
        assert(r == seq![s[0]] + u);
        assert forall|i: int, j: int| 0 <= i < j < r.len() implies #[trigger] r[i].0 < #[trigger] r[j].0 by {
            if i == 0 {
                assert(r[j] == u[j - 1]);
                assert(u.contains(u[j - 1]));
                if t.contains(u[j - 1]) {
                    let m = choose|m: int| 0 <= m < t.len() && t[m] == u[j - 1];
                    assert(t[m] == s[m + 1]);
                    assert(s[0].0 < s[m + 1].0);
                }
            } else {
                assert(r[i] == u[i - 1] && r[j] == u[j - 1]);
            }
        }
        assert forall|x: (u16, usize)| #[trigger] r.contains(x) <==> (s.contains(x) || x == (k, v)) by {
            if r.contains(x) {
                let i = choose|i: int| 0 <= i < r.len() && r[i] == x;
                if i == 0 {
                    assert(s[0] == x);
                } else {
                    assert(u[i - 1] == x);
                    assert(u.contains(x));
                    if t.contains(x) {
                        let m = choose|m: int| 0 <= m < t.len() && t[m] == x;
                        assert(s[m + 1] == x);
                    }
                }
            }
            if s.contains(x) {
                let i = choose|i: int| 0 <= i < s.len() && s[i] == x;
                if i == 0 {
                    assert(r[0] == x);
                } else {
                    assert(t[i - 1] == x);
                    assert(t.contains(x));
                    assert(u.contains(x));
                    let m = choose|m: int| 0 <= m < u.len() && u[m] == x;
                    assert(r[m + 1] == x);
                }
            }
            if x == (k, v) {
                assert(u.contains(x));
                let m = choose|m: int| 0 <= m < u.len() && u[m] == x;
                assert(r[m + 1] == x);
            }
        }
    }
}

/// A strictly increasing list of `n` fragment numbers, all below `n`, is `0, 1, ..., n - 1`.
proof fn lemma_sorted_dense(s: Seq<(u16, usize)>)
    requires
        frags_sorted(s),
        forall|i: int| 0 <= i < s.len() ==> #[trigger] s[i].0 < s.len(),
    ensures
        forall|i: int| 0 <= i < s.len() ==> #[trigger] s[i].0 == i,
{
    assert forall|i: int| 0 <= i < s.len() implies #[trigger] s[i].0 >= i by {
        lemma_sorted_at_least(s, i);
    }
    assert forall|i: int| 0 <= i < s.len() implies #[trigger] s[i].0 <= i by {
        lemma_sorted_at_most(s, i);
    }
}

proof fn lemma_sorted_at_least(s: Seq<(u16, usize)>, i: int)
    requires
        frags_sorted(s),
        0 <= i < s.len(),
    ensures
        s[i].0 >= i,
    decreases i,
{
    if i > 0 {
        lemma_sorted_at_least(s, i - 1);
        assert(s[i - 1].0 < s[i].0);
    }
}

proof fn lemma_sorted_at_most(s: Seq<(u16, usize)>, i: int)
    requires
        frags_sorted(s),
        forall|k: int| 0 <= k < s.len() ==> #[trigger] s[k].0 < s.len(),
        0 <= i < s.len(),
    ensures
        s[i].0 <= i,
    decreases s.len() - i,
{
    if i < s.len() - 1 {
        lemma_sorted_at_most(s, i + 1);
        assert(s[i].0 < s[i + 1].0);
    }
}

/// The sequences joined end to end.
pub open spec fn concat_all(s: Seq<Seq<u8>>) -> Seq<u8>
    decreases s.len(),
{
    if s.len() == 0 {
        Seq::empty()
    } else {
        concat_all(s.drop_last()) + s.last()
    }
}

/// The pool slots named by the fragments, joined in list order.
pub open spec fn slots_concat(slots: Seq<Seq<u8>>, frags: Seq<(u16, usize)>) -> Seq<u8>
    decreases frags.len(),
{
    if frags.len() == 0 {
        Seq::empty()
    } else {
        slots_concat(slots, frags.drop_last()) + slots[frags.last().1 as int]
    }
}

proof fn lemma_join_distinct(pool: FragmentPoolView, frags: Seq<(u16, usize)>)
    requires
        forall|i: int| 0 <= i < frags.len() ==> #[trigger] frags[i].1 < pool.slots.len(),
        forall|i: int, j: int| 0 <= i < j < frags.len() ==> #[trigger] frags[i].1 != #[trigger] frags[j].1,
    ensures
        join_fragments(pool, frags).0 == slots_concat(pool.slots, frags),
        join_fragments(pool, frags).1.slots.len() == pool.slots.len(),
        forall|x: int|
            0 <= x < pool.slots.len() && (forall|i: int| 0 <= i < frags.len() ==> #[trigger] frags[i].1 != x)
                ==> #[trigger] join_fragments(pool, frags).1.slots[x] == pool.slots[x],
    decreases frags.len(),
{
    if frags.len() > 0 {
        let f = frags.drop_last();
        assert forall|i: int| 0 <= i < f.len() implies #[trigger] f[i].1 < pool.slots.len() by {
            assert(f[i] == frags[i]);
        }
        assert forall|i: int, j: int| 0 <= i < j < f.len() implies #[trigger] f[i].1 != #[trigger] f[j].1 by {
            assert(f[i] == frags[i] && f[j] == frags[j]);
        }
        lemma_join_distinct(pool, f);
        let last = frags.last().1;
        assert forall|i: int| 0 <= i < f.len() implies #[trigger] f[i].1 != last by {
            assert(f[i] == frags[i]);
        }
        let p = join_fragments(pool, f).1;
        assert(p.slots[last as int] == pool.slots[last as int]);
        assert forall|x: int|
            0 <= x < pool.slots.len() && (forall|i: int| 0 <= i < frags.len() ==> #[trigger] frags[i].1 != x)
                implies #[trigger] join_fragments(pool, frags).1.slots[x] == pool.slots[x] by {
            assert forall|i: int| 0 <= i < f.len() implies #[trigger] f[i].1 != x by {
                assert(f[i] == frags[i]);
            }
            assert(frags[frags.len() - 1].1 != x);
        }
    }
}

proof fn lemma_slots_concat_parts(slots: Seq<Seq<u8>>, frags: Seq<(u16, usize)>, parts: Seq<Seq<u8>>)
    requires
        frags.len() == parts.len(),
        forall|i: int| 0 <= i < frags.len() ==> #[trigger] slots[frags[i].1 as int] == parts[i],
    ensures
        slots_concat(slots, frags) == concat_all(parts),
    decreases frags.len(),
{
    if frags.len() > 0 {
        let f = frags.drop_last();
        let q = parts.drop_last();
        assert forall|i: int| 0 <= i < f.len() implies #[trigger] slots[f[i].1 as int] == q[i] by {
            assert(f[i] == frags[i]);
        }
        lemma_slots_concat_parts(slots, f, q);
        assert(slots[frags[frags.len() - 1].1 as int] == parts[parts.len() - 1]);
    }
}

/// Accepts the frames with headers `hs` and payloads `ps`, in order; the outcomes in order.
pub open spec fn accept_all(st: StreamDecoderView, hs: Seq<FrameHeader>, ps: Seq<Seq<u8>>) -> (
    StreamDecoderView,
    Seq<FrameOutcome>,
)
    decreases hs.len(),
{
    if hs.len() == 0 || ps.len() == 0 {
        (st, Seq::empty())
    } else {
        let (s1, outs) = accept_all(st, hs.drop_last(), ps.drop_last());
        let (s2, o) = accept_frame(s1, hs.last(), ps.last());
        (s2, outs.push(o))
    }
}

/// The fragments of a session that has received frames `0..k` of `hs`: the list is in
/// fragment order, and each entry is the fragment number and pool slot of one of them.
pub open spec fn frags_from(frags: Seq<(u16, usize)>, hs: Seq<FrameHeader>, base: nat, k: nat) -> bool {
    &&& frags_sorted(frags)
    &&& frags.len() == k
    &&& forall|i: int|
        0 <= i < frags.len() ==> base <= #[trigger] frags[i].1 < base + k && frags[i].0 == hs[frags[i].1
            - base].fragment
}

/// The fragment numbers of `hs` are distinct and below `n`, and the frames belong to one
/// session and announce `n` fragments.
pub open spec fn one_session(hs: Seq<FrameHeader>, session: u32, n: nat) -> bool {
    &&& hs.len() == n
    &&& forall|k: int| 0 <= k < n ==> (#[trigger] hs[k]).session == session && hs[k].fragment < n
        && hs[k].expected & 0x7fff == n
    &&& forall|j: int, k: int| 0 <= j < k < n ==> (#[trigger] hs[j]).fragment != (#[trigger] hs[k]).fragment
}

proof fn lemma_reassembly_prefix(
    st: StreamDecoderView,
    session: u32,
    hs: Seq<FrameHeader>,
    parts: Seq<Seq<u8>>,
    k: nat,
)
    requires
        !st.sessions.contains_key(session),
        parts.len() == hs.len(),
        one_session(hs, session, hs.len()),
        st.pool.slots.len() + hs.len() <= usize::MAX,
        1 <= k < hs.len(),
    ensures
        ({
            let ps = Seq::new(hs.len(), |j: int| parts[hs[j].fragment as int]);
            let (s, outs) = accept_all(st, hs.take(k as int), ps.take(k as int));
            &&& s.pending == st.pending
            &&& s.completed == st.completed
            &&& s.pool.slots == st.pool.slots + ps.take(k as int)
            &&& s.sessions.contains_key(session)
            &&& s.sessions == st.sessions.insert(session, s.sessions[session])
            &&& s.sessions[session].expected == hs.len()
            &&& frags_from(s.sessions[session].fragments, hs, st.pool.slots.len(), k)
            &&& outs == Seq::new(k, |j: int| FrameOutcome::Accepted { session, fragment: hs[j].fragment })
        }),
    decreases k,
{
    let n = hs.len();
    let ps = Seq::new(n, |j: int| parts[hs[j].fragment as int]);
    let base = st.pool.slots.len();
    assert(hs.take(k as int).drop_last() =~= hs.take(k - 1));
    assert(ps.take(k as int).drop_last() =~= ps.take(k - 1));
    let h = hs[k - 1];
    let p = ps[k - 1];
    if k == 1 {
        assert(hs.take(0) =~= Seq::<FrameHeader>::empty());
        let s1 = st;
        let (s2, o) = accept_frame(s1, h, p);
        let frags = frag_insert(Seq::empty(), h.fragment, base as usize);
        assert(frags =~= seq![(h.fragment, base as usize)]);
        assert(s2.pool.slots =~= st.pool.slots + ps.take(1));
        assert(s2.sessions =~= st.sessions.insert(session, s2.sessions[session]));
        assert(accept_all(st, hs.take(0), ps.take(0)) == (st, Seq::<FrameOutcome>::empty()));
        assert(accept_all(st, hs.take(1), ps.take(1)).1 =~= Seq::new(1, |j: int| FrameOutcome::Accepted { session, fragment: hs[j].fragment }));
    } else {
        lemma_reassembly_prefix(st, session, hs, parts, (k - 1) as nat);
        let (s1, outs) = accept_all(st, hs.take(k - 1), ps.take(k - 1));
        let prev = s1.sessions[session];
        let idx = s1.pool.slots.len() as usize;
        assert(idx == base + k - 1);
        assert forall|i: int| 0 <= i < prev.fragments.len() implies #[trigger] prev.fragments[i].0 != h.fragment by {
            let m = prev.fragments[i].1 - base;
            assert(0 <= m < k - 1);
            assert(hs[m].fragment != hs[k - 1].fragment);
        }
        lemma_frag_insert_new(prev.fragments, h.fragment, idx);
        let frags = frag_insert(prev.fragments, h.fragment, idx);
        assert forall|i: int| 0 <= i < frags.len() implies base <= #[trigger] frags[i].1 < base + k
            && frags[i].0 == hs[frags[i].1 - base].fragment by {
            assert(frags.contains(frags[i]));
            if prev.fragments.contains(frags[i]) {
                let m = choose|m: int| 0 <= m < prev.fragments.len() && prev.fragments[m] == frags[i];
                assert(base <= prev.fragments[m].1 < base + k - 1);
            }
        }
        let (s2, o) = accept_frame(s1, h, p);
        assert(s2.pool.slots =~= st.pool.slots + ps.take(k as int));
        assert(s2.sessions =~= st.sessions.insert(session, s2.sessions[session]));
        assert(accept_all(st, hs.take(k as int), ps.take(k as int)).1 =~= Seq::new(k, |j: int| FrameOutcome::Accepted { session, fragment: hs[j].fragment }));
    }
}

/// Reassembly: the `n` fragments of a new session, numbered `0..n` and accepted in any
/// order, complete the session with the last of them; its payload is the fragments'
/// payloads joined in fragment order, and every earlier frame is reported as accepted.
pub proof fn law_reassembly(st: StreamDecoderView, session: u32, hs: Seq<FrameHeader>, parts: Seq<Seq<u8>>)
    requires
        !st.sessions.contains_key(session),
        hs.len() >= 1,
        parts.len() == hs.len(),
        one_session(hs, session, hs.len()),
        st.pool.slots.len() + hs.len() <= usize::MAX,
    ensures
        ({
            let ps = Seq::new(hs.len(), |j: int| parts[hs[j].fragment as int]);
            let (s, outs) = accept_all(st, hs, ps);
            &&& s.completed == st.completed.push(concat_all(parts))
            &&& outs.len() == hs.len()
            &&& outs.last() == FrameOutcome::Completed { session, bytes: concat_all(parts).len() as usize }
            &&& forall|j: int| 0 <= j < hs.len() - 1 ==> outs[j] == FrameOutcome::Accepted { session, fragment: hs[j].fragment }
        }),
{
    let n = hs.len();
    let ps = Seq::new(n, |j: int| parts[hs[j].fragment as int]);
    let base = st.pool.slots.len();
    let h = hs[n - 1];
    let p = ps[n - 1];
    assert(hs.take(n as int) =~= hs);
    assert(ps.take(n as int) =~= ps);
    assert(hs.drop_last() =~= hs.take(n - 1));
    assert(ps.drop_last() =~= ps.take(n - 1));
    let s1: StreamDecoderView;
    let outs: Seq<FrameOutcome>;
    let prev: SessionStateView;
    if n == 1 {
        assert(hs.take(0) =~= Seq::<FrameHeader>::empty());
        s1 = st;
        outs = Seq::empty();
        prev = SessionStateView { expected: h.expected & 0x7fff, total_len: h.total_len, fragments: Seq::empty(), complete: false };
        assert(frags_from(prev.fragments, hs, base, 0));
    } else {
        lemma_reassembly_prefix(st, session, hs, parts, (n - 1) as nat);
        let r = accept_all(st, hs.take(n - 1), ps.take(n - 1));
        s1 = r.0;
        outs = r.1;
        prev = s1.sessions[session];
    }
    let idx = s1.pool.slots.len() as usize;
    assert(idx == base + n - 1);
    assert(s1.pool.slots =~= st.pool.slots + ps.take(n - 1));
    assert forall|i: int| 0 <= i < prev.fragments.len() implies #[trigger] prev.fragments[i].0 != h.fragment by {
        let m = prev.fragments[i].1 - base;
        assert(hs[m].fragment != hs[n - 1].fragment);
    }
    lemma_frag_insert_new(prev.fragments, h.fragment, idx);
    let frags = frag_insert(prev.fragments, h.fragment, idx);
    assert forall|i: int| 0 <= i < frags.len() implies base <= #[trigger] frags[i].1 < base + n
        && frags[i].0 == hs[frags[i].1 - base].fragment by {
        assert(frags.contains(frags[i]));
        if prev.fragments.contains(frags[i]) {
            let m = choose|m: int| 0 <= m < prev.fragments.len() && prev.fragments[m] == frags[i];
            assert(base <= prev.fragments[m].1 < base + n - 1);
        }
    }
    assert forall|i: int| 0 <= i < frags.len() implies #[trigger] frags[i].0 < frags.len() by {
        let m = frags[i].1 - base;
        assert(hs[m].fragment < n);
    }
    lemma_sorted_dense(frags);
    let pool1 = FragmentPoolView { slots: s1.pool.slots.push(p), retired: s1.pool.retired };
    assert(pool1.slots =~= st.pool.slots + ps);
    assert forall|i: int, j: int| 0 <= i < j < frags.len() implies #[trigger] frags[i].1 != #[trigger] frags[j].1 by {
        assert(frags[i].0 < frags[j].0);
    }
    lemma_join_distinct(pool1, frags);
    assert forall|i: int| 0 <= i < frags.len() implies #[trigger] pool1.slots[frags[i].1 as int] == parts[i] by {
        let m = frags[i].1 - base;
        assert(pool1.slots[frags[i].1 as int] == ps[m]);
        assert(hs[m].fragment == i);
    }
    lemma_slots_concat_parts(pool1.slots, frags, parts);
    let (s2, o) = accept_frame(s1, h, p);
}

/// One whole frame pushed into a decoder with nothing pending is consumed entirely: it is
/// accepted, unless its checksum is wrong while its `expected` field asks for checking, in
/// which case it is dropped.
pub proof fn law_frame_push(st: StreamDecoderView, frame: Seq<u8>, h: FrameHeader)
    requires
        st.pending.len() == 0,
        frame.len() <= usize::MAX,
        has_stream_magic(frame),
        frame_header(frame) == Ok::<FrameHeader, DecodeError>(h),
        frame.len() == h.header_len + h.payload_len + 4,
    ensures
        ({
            let end = h.header_len + h.payload_len;
            let payload = frame.subrange(h.header_len as int, end);
            let st1 = StreamDecoderView { pending: Seq::empty(), ..st };
            if frame_check(frame, end) != checksum_spec(payload) && h.expected & 0x8000 != 0 {
                push_spec(st, frame) == (Ok::<FrameOutcome, DecodeError>(FrameOutcome::NeedMore), st1)
            } else {
                let (s2, out) = accept_frame(st1, h, payload);
                push_spec(st, frame) == (Ok::<FrameOutcome, DecodeError>(out), s2)
            }
        }),
{
    lemma_header_bounds(frame);
    let st0 = StreamDecoderView { pending: st.pending + frame, ..st };
    assert(st0.pending =~= frame);
    let end = h.header_len + h.payload_len;
    let payload = frame.subrange(h.header_len as int, end);
    let st1 = StreamDecoderView { pending: Seq::empty(), ..st };
    assert(frame.skip(end + 4) =~= Seq::<u8>::empty());
    assert(StreamDecoderView { pending: st0.pending.skip(end + 4), ..st0 } == st1);
    if frame_check(frame, end) != checksum_spec(payload) && h.expected & 0x8000 != 0 {
        assert(drain_frames(st1, FrameOutcome::NeedMore) == (Ok::<FrameOutcome, DecodeError>(FrameOutcome::NeedMore), st1));
    } else {
        let (s2, out) = accept_frame(st1, h, payload);
        assert(s2.pending.len() == 0);
        assert(drain_frames(s2, out) == (Ok::<FrameOutcome, DecodeError>(out), s2));
    }
}

/// The pending bytes hold no whole frame yet: fewer than 18 bytes, or a frame whose header
/// reads but whose payload and checksum have not all arrived.
pub open spec fn waits_for_frame(d: Seq<u8>) -> bool {
    ||| d.len() < 18
    ||| has_stream_magic(d) && (frame_header(d) matches Ok(h) && d.len() < h.header_len + h.payload_len + 4)
}

/// Input can be pushed in pieces: a piece after which the pending bytes still wait for
/// their frame is kept whole, with `NeedMore` and nothing else changed, and pushing the
/// rest afterwards gives the same outcome and the same decoder as pushing everything at
/// once.
pub proof fn law_split_push(st: StreamDecoderView, x: Seq<u8>, y: Seq<u8>)
    requires
        waits_for_frame(st.pending + x),
    ensures
        push_spec(st, x) == (
            Ok::<FrameOutcome, DecodeError>(FrameOutcome::NeedMore),
            StreamDecoderView { pending: st.pending + x, ..st },
        ),
        push_spec(push_spec(st, x).1, y) == push_spec(st, x + y),
{
    let st1 = StreamDecoderView { pending: st.pending + x, ..st };
    assert(push_spec(st, x).1 == st1);
    assert(st1.pending + y =~= st.pending + (x + y));
    assert(StreamDecoderView { pending: st1.pending + y, ..st1 } == StreamDecoderView {
        pending: st.pending + (x + y),
        ..st
    });
}

/// A fragment stored in a new pool slot is given back whole when that slot is taken.
pub proof fn law_pool_take_pushed(pool: FragmentPoolView, data: Seq<u8>)
    requires
        pool.slots.len() < usize::MAX,
    ensures
        pool_take(FragmentPoolView { slots: pool.slots.push(data), retired: pool.retired }, pool.slots.len() as usize).0
            == data,
{
}

impl StreamDecoder {
    pub fn new() -> (r: Self)
        ensures
            r@ == fresh_decoder(),
    {
        let r = Self { pending: Vec::new(), pool: FragmentPool::new(), sessions: BTreeMap::new(), completed: Vec::new() };
        assert(r@.pending =~= Seq::<u8>::empty());
        assert(r@.pool.slots =~= Seq::<Seq<u8>>::empty());
        assert(r@.pool.retired =~= Seq::<(u8, usize)>::empty());
        assert(r@.sessions =~= Map::<u32, SessionStateView>::empty());
        assert(r@.completed =~= Seq::<Seq<u8>>::empty());
        r
    }

    /// Accepts a frame whose checksum passed.
    fn accept(&mut self, h: FrameHeader, payload: Vec<u8>) -> (out: FrameOutcome)
        ensures
            (final(self)@, out) == accept_frame(old(self)@, h, payload@),
    {
        let ghost st = self@;
        let ghost raw0 = self.sessions@;
        let idx = self.pool.push(payload.as_slice());
        let exp = h.expected & 0x7fff;
        let found = self.sessions.contains_key(&h.session);
        let mut state = match self.sessions.remove(&h.session) {
            Some(prev) => prev,
            None => SessionState { expected: exp, total_len: h.total_len, fragments: Vec::new(), complete: false },
        };
        proof {
            if found {
                assert(state@ == st.sessions[h.session]);
            } else {
                assert(state@.fragments =~= Seq::<(u16, usize)>::empty());
            }
        }
        if state.expected < exp {
            state.expected = exp;
        }
        if state.total_len < h.total_len {
            state.total_len = h.total_len;
        }
        let ghost f0 = state.fragments@;
        frag_insert_exec(&mut state.fragments, h.fragment, idx);
        proof {
            assert(self@.pool.slots =~= st.pool.slots.push(payload@));
            if !found {
                assert(f0 =~= Seq::<(u16, usize)>::empty());
            }
        }
        let out = if state.fragments.len() >= state.expected as usize && state.expected != 0 {
            let joined = join(&mut self.pool, &state.fragments);
            let _ = self.pool.retired_prefix_sum();
            state.complete = true;
            let n = joined.len();
            let ghost before = self@.completed;
            self.completed.push(joined);
            proof {
                assert(self@.completed =~= before.push(joined@));
            }
            FrameOutcome::Completed { session: h.session, bytes: n }
        } else {
            FrameOutcome::Accepted { session: h.session, fragment: h.fragment }
        };
        let ghost sv = state@;
        self.sessions.insert(h.session, state);
        proof {
            assert(self.sessions@ =~= raw0.remove(h.session).insert(h.session, state));
            assert(sessions_view(self.sessions@) =~= st.sessions.insert(h.session, sv));
        }
        out
    }

    /// Appends `bytes` to the pending input and consumes every whole frame in it.
    pub fn push(&mut self, bytes: &[u8]) -> (r: Result<FrameOutcome>)
        ensures
            (r, final(self)@) == push_spec(old(self)@, bytes@),
    {
        let ghost st0 = self@;
        self.pending.extend_from_slice(bytes);
        proof {
            assert(self@.pending =~= st0.pending + bytes@);
            assert(self@ == StreamDecoderView { pending: st0.pending + bytes@, ..st0 });
        }
        let mut last = FrameOutcome::NeedMore;
        loop
            invariant
                drain_frames(self@, last) == push_spec(old(self)@, bytes@),
            decreases self@.pending.len(),
        {
            let ghost st = self@;
            let len = self.pending.len();
            if len < 18 {
                return Ok(last);
            }
            if !(self.pending[0] == 0x43 && self.pending[1] == 0x42 && self.pending[2] == 0x46
                && self.pending[3] == 0x52) {
                let n = resync_exec(self.pending.as_slice());
                proof {
                    lemma_c_index_bounds(st.pending, 0);
                }
                let rest = self.pending.split_off(n);
                self.pending = rest;
                proof {
                    assert(self@ == StreamDecoderView { pending: st.pending.skip(resync_len(st.pending)), ..st });
                }
            } else {
                let h = match read_frame_header(self.pending.as_slice()) {
                    Ok(h) => h,
                    Err(e) => {
                        return Err(e);
                    },
                };
                if len - h.header_len < 4 || len - h.header_len - 4 < h.payload_len {
                    return Ok(last);
                }
                let end = h.header_len + h.payload_len;
                let payload = copy_bytes(&self.pending.as_slice()[h.header_len..end]);
                let check = le_u32(
                    &[self.pending[end], self.pending[end + 1], self.pending[end + 2], self.pending[end + 3]],
                );
                proof {
                    lemma_le_value_4(st.pending.subrange(end as int, end + 4));
                    assert(payload@ == st.pending.subrange(h.header_len as int, end as int));
                }
                let rest = self.pending.split_off(end + 4);
                self.pending = rest;
                proof {
                    assert(self@ == StreamDecoderView { pending: st.pending.skip(end + 4), ..st });
                }
                if !(check != checksum32(payload.as_slice()) && h.expected & 0x8000 != 0) {
                    last = self.accept(h, payload);
                }
            }
        }
    }

    /// Decodes the reassembled payloads in order and merges them into one archive; a
    /// payload that does not decode leaves a note. A stream that gave neither a facility
    /// nor a note is incomplete.
    pub fn finish(self) -> (r: Result<CanopyArchive>)
        ensures
            res_view(r) == finish_result(finish_fold(self@.completed)),
        decreases blobs_measure(self@.completed), 1nat, 0nat,
    {
        let ghost blobs = self@.completed;
        proof {
            lemma_longest(blobs);
        }
        let mut archive = CanopyArchive::new(1);
        let mut i: usize = 0;
        assert(blobs.take(0) =~= Seq::<Seq<u8>>::empty());
        while i < self.completed.len()
            invariant
                i <= self.completed@.len(),
                blobs == blobs_view(self.completed@),
                blobs == self@.completed,
                archive@ == finish_fold(blobs.take(i as int)),
                forall|k: int| 0 <= k < blobs.len() ==> #[trigger] blobs[k].len() <= longest(blobs),
            decreases self.completed@.len() - i,
        {
            let bytes = self.completed[i].as_slice();
            proof {
                assert(blobs[i as int] == bytes@);
                assert(bytes@.len() <= longest(blobs));
                assert(blobs.take(i + 1).drop_last() =~= blobs.take(i as int));
                assert(blobs.take(i + 1).last() == bytes@);
            }
            match parse_archive(bytes) {
                Ok(next) => {
                    archive.merge(next);
                },
                Err(_) => {
                    let mut note = "unparsed-stream-".to_owned();
                    let digits = decimal_string(bytes.len() as u64);
                    note.append(digits.as_str());
                    let ghost before = archive.notes@;
                    archive.notes.push(note);
                    proof {
                        assert(strings_view(archive.notes@) =~= strings_view(before).push(unparsed_note(bytes@.len())));
                    }
                },
            }
            i = i + 1;
        }
        assert(blobs.take(i as int) =~= blobs);
        if archive.manifest.facility_id.as_str().is_empty() && archive.notes.len() == 0 {
            return Err(DecodeError::IncompleteStream);
        }
        Ok(archive)
    }
}

} // verus!
