use crate::error::{DecodeError, Result};
use crate::model::{link_kind_of, DeviceId, Link, LinkKind};
use crate::reader::{
    ok_view, read_i16_spec, read_u8_spec, read_var_u32_spec, read_var_usize_spec, repeat_spec, Reader,
    Step,
};
use crate::store::{AliasTable, LinkMemo};
use vstd::prelude::*;

verus! {

/// One link record of a topology segment: two device identifiers, a kind code and a
/// weight; every fourth record (from the first) is followed, when bytes remain, by a
/// label whose length byte is capped at what is left.
pub open spec fn link_item(d: Seq<u8>, p: int, idx: nat) -> Step<Link> {
    match read_var_u32_spec(d, p) {
        (Err(e), q) => (Err(e), q),
        (Ok(from), p1) => match read_var_u32_spec(d, p1) {
            (Err(e), q) => (Err(e), q),
            (Ok(to), p2) => match read_u8_spec(d, p2) {
                (Err(e), q) => (Err(e), q),
                (Ok(k), p3) => match read_i16_spec(d, p3) {
                    (Err(e), q) => (Err(e), q),
                    (Ok(w), p4) => {
                        let link = Link { from: DeviceId(from), to: DeviceId(to), kind: link_kind_of(k), weight: w };
                        if p4 < d.len() && idx % 4 == 0 {
                            let l = d[p4] as int;
                            let left = d.len() - (p4 + 1);
                            (Ok(link), p4 + 1 + if l < left { l } else { left })
                        } else {
                            (Ok(link), p4)
                        }
                    },
                },
            },
        },
    }
}

/// The links of a topology segment: a count (at most 16384) and that many records.
pub open spec fn topology_spec(d: Seq<u8>) -> core::result::Result<Seq<Link>, DecodeError> {
    match read_var_usize_spec(d, 0) {
        (Err(e), _) => Err(e),
        (Ok(count), p) => if count > 16384 {
            Err(DecodeError::InvalidField("link count"))
        } else {
            repeat_spec(|d: Seq<u8>, p: int, i: nat| link_item(d, p, i), d, p, 0, count as nat, seq![]).0
        },
    }
}

pub fn parse_topology_segment(data: &[u8]) -> (r: Result<Vec<Link>>)
    ensures
        ok_view(r) == topology_spec(data@),
{
    let ghost d = data@;
    let ghost item = |d: Seq<u8>, p: int, i: nat| link_item(d, p, i);
    let mut r = Reader::new(data);
    let count = r.read_var_usize()?;
    if count > 16384 {
        return Err(DecodeError::InvalidField("link count"));
    }
    let mut memo = LinkMemo::new();
    let mut names = AliasTable::new();
    let ghost start = r@.pos;
    assert(memo@.links =~= Seq::<Link>::empty());
    let mut idx: usize = 0;
    while idx < count
        invariant
            r@.data == d,
            d == data@,
            idx <= count,
            count <= 16384,
            item == (|d: Seq<u8>, p: int, i: nat| link_item(d, p, i)),
            repeat_spec(item, d, r@.pos, idx as nat, count as nat, memo@.links) == repeat_spec(
                item,
                d,
                start,
                0,
                count as nat,
                seq![],
            ),
            read_var_usize_spec(d, 0) == (Ok::<usize, DecodeError>(count), start),
        decreases count - idx,
    {
        let ghost p = r@.pos;
        let from = DeviceId(r.read_var_u32()?);
        let to = DeviceId(r.read_var_u32()?);
        let kind = LinkKind::from_code(r.read_u8()?);
        let weight = r.read_i16()?;
        let ghost p4 = r@.pos;
        proof {
            assert(idx & 3 == 0 <==> idx % 4 == 0) by (bit_vector);
        }
        if r.remaining() > 0 && idx & 3 == 0 {
            let l = r.read_u8()?;
            let rest = r.remaining();
            let label_len = if (l as usize) < rest { l as usize } else { rest };
            let bytes = r.read_bytes(label_len)?;
            let label = match crate::reader::utf8_to_string(bytes) {
                Some(s) => s,
                None => "edge".to_owned(),
            };
            names.intern(label);
        }
        let link = Link { from, to, kind, weight };
        proof {
            assert(item(d, p, idx as nat) == (Ok::<Link, DecodeError>(link), r@.pos));
        }
        memo.push(link);
        idx = idx + 1;
    }
    if names.len() > 6 {
        let _ = names.remembered_name();
    }
    let _ = memo.remembered_weight();
    let links = memo.into_links();
    Ok(links)
}

/// `links` ordered by `(from, to, weight)`, equal keys keeping their order: each link is
/// placed after every earlier one whose key is not larger.
pub open spec fn link_key_le(a: Link, b: Link) -> bool {
    a.from.0 < b.from.0 || (a.from.0 == b.from.0 && (a.to.0 < b.to.0 || (a.to.0 == b.to.0
        && a.weight <= b.weight)))
}

/// Inserts `x` into the ordered `s` after every element whose key is not larger than its own.
pub open spec fn insert_sorted(s: Seq<Link>, x: Link) -> Seq<Link>
    decreases s.len(),
{
    if s.len() == 0 {
        seq![x]
    } else if link_key_le(s.last(), x) {
        s.push(x)
    } else {
        insert_sorted(s.drop_last(), x).push(s.last())
    }
}

/// Stable sort of links by `(from, to, weight)`.
pub open spec fn sort_links(s: Seq<Link>) -> Seq<Link>
    decreases s.len(),
{
    if s.len() == 0 {
        s
    } else {
        insert_sorted(sort_links(s.drop_last()), s.last())
    }
}

/// Two links describe the same edge when their endpoints and kind agree.
pub open spec fn same_edge(a: Link, b: Link) -> bool {
    a.from.0 == b.from.0 && a.to.0 == b.to.0 && a.kind == b.kind
}

/// Drops every link that describes the same edge as the kept link just before it.
pub open spec fn dedup_links(s: Seq<Link>) -> Seq<Link>
    decreases s.len(),
{
    if s.len() <= 1 {
        s
    } else {
        let rest = dedup_links(s.drop_last());
        if same_edge(s.last(), rest.last()) {
            rest
        } else {
            rest.push(s.last())
        }
    }
}

proof fn lemma_dedup_nonempty(s: Seq<Link>)
    ensures
        s.len() > 0 ==> dedup_links(s).len() > 0,
        s.len() > 0 ==> dedup_links(s)[0] == s[0],
    decreases s.len(),
{
    if s.len() > 1 {
        lemma_dedup_nonempty(s.drop_last());
    }
}

/// The links are in `(from, to, weight)` order.
pub open spec fn links_sorted(s: Seq<Link>) -> bool {
    forall|i: int, j: int| 0 <= i < j < s.len() ==> link_key_le(#[trigger] s[i], #[trigger] s[j])
}

/// No link describes the same edge as the one before it.
pub open spec fn no_adjacent_duplicates(s: Seq<Link>) -> bool {
    forall|i: int| #![trigger s[i]] 0 < i < s.len() ==> !same_edge(s[i], s[i - 1])
}

proof fn lemma_key_order(a: Link, b: Link, c: Link)
    ensures
        link_key_le(a, b) && link_key_le(b, c) ==> link_key_le(a, c),
        link_key_le(a, b) || link_key_le(b, a),
{
}

proof fn lemma_insert_sorted(s: Seq<Link>, x: Link)
    requires
        links_sorted(s),
    ensures
        links_sorted(insert_sorted(s, x)),
        insert_sorted(s, x).len() == s.len() + 1,
        forall|y: Link| #[trigger] insert_sorted(s, x).contains(y) <==> (s.contains(y) || y == x),
    decreases s.len(),
{
    let r = insert_sorted(s, x);
    if s.len() == 0 {
        assert forall|y: Link| #[trigger] r.contains(y) <==> (s.contains(y) || y == x) by {
            if r.contains(y) {
                let i = choose|i: int| 0 <= i < r.len() && r[i] == y;
                assert(i == 0);
            }
            if y == x {
                assert(r[0] == y);
            }
        }
    } else if link_key_le(s.last(), x) {
        assert forall|i: int, j: int| 0 <= i < j < r.len() implies link_key_le(#[trigger] r[i], #[trigger] r[j]) by {
            if j == s.len() {
                if i < s.len() - 1 {
                    lemma_key_order(s[i], s[s.len() - 1], x);
                }
            }
        }
        assert forall|y: Link| #[trigger] r.contains(y) <==> (s.contains(y) || y == x) by {
            if r.contains(y) {
                let i = choose|i: int| 0 <= i < r.len() && r[i] == y;
                if i < s.len() {
                    assert(s[i] == y);
                }
            }
            if s.contains(y) {
                let i = choose|i: int| 0 <= i < s.len() && s[i] == y;
                assert(r[i] == y);
            }
            if y == x {
                assert(r[s.len() as int] == y);
            }
        }
    } else {
        let t = s.drop_last();
        let last = s.last();
        assert forall|i: int, j: int| 0 <= i < j < t.len() implies link_key_le(#[trigger] t[i], #[trigger] t[j]) by {
            assert(t[i] == s[i] && t[j] == s[j]);
        }
        lemma_insert_sorted(t, x);
        let u = insert_sorted(t, x);
        lemma_key_order(last, x, last);
        assert forall|i: int, j: int| 0 <= i < j < r.len() implies link_key_le(#[trigger] r[i], #[trigger] r[j]) by {
            if j == u.len() {
                assert(r[i] == u[i]);
                assert(u.contains(u[i]));
                if t.contains(u[i]) {
                    let m = choose|m: int| 0 <= m < t.len() && t[m] == u[i];
                    assert(s[m] == u[i]);
                }
            } else {
                assert(r[i] == u[i] && r[j] == u[j]);
            }
        }
        assert forall|y: Link| #[trigger] r.contains(y) <==> (s.contains(y) || y == x) by {
            if r.contains(y) {
                let i = choose|i: int| 0 <= i < r.len() && r[i] == y;
                if i < u.len() {
                    assert(u[i] == y);
                    assert(u.contains(y));
                    if t.contains(y) {
                        let m = choose|m: int| 0 <= m < t.len() && t[m] == y;
                        assert(s[m] == y);
                    }
                } else {
                    assert(s[s.len() - 1] == y);
                }
            }
            if s.contains(y) {
                let i = choose|i: int| 0 <= i < s.len() && s[i] == y;
                if i < t.len() {
                    assert(t[i] == y);
                    assert(t.contains(y));
                    assert(u.contains(y));
                    let m = choose|m: int| 0 <= m < u.len() && u[m] == y;
                    assert(r[m] == y);
                } else {
                    assert(r[u.len() as int] == y);
                }
            }
            if y == x {
                assert(u.contains(y));
                let m = choose|m: int| 0 <= m < u.len() && u[m] == y;
                assert(r[m] == y);
            }
        }
    }
}

proof fn lemma_sort_sorted(s: Seq<Link>)
    ensures
        links_sorted(sort_links(s)),
    decreases s.len(),
{
    if s.len() > 0 {
        lemma_sort_sorted(s.drop_last());
        lemma_insert_sorted(sort_links(s.drop_last()), s.last());
    }
}

proof fn lemma_sort_of_sorted(s: Seq<Link>)
    requires
        links_sorted(s),
    ensures
        sort_links(s) == s,
    decreases s.len(),
{
    if s.len() > 0 {
        let t = s.drop_last();
        assert forall|i: int, j: int| 0 <= i < j < t.len() implies link_key_le(#[trigger] t[i], #[trigger] t[j]) by {
            assert(t[i] == s[i] && t[j] == s[j]);
        }
        lemma_sort_of_sorted(t);
        if t.len() > 0 {
            assert(link_key_le(s[s.len() - 2], s[s.len() - 1]));
        }
        assert(t.push(s.last()) =~= s);
    }
}

proof fn lemma_dedup_shape(s: Seq<Link>)
    ensures
        forall|y: Link| #[trigger] dedup_links(s).contains(y) ==> s.contains(y),
        no_adjacent_duplicates(dedup_links(s)),
        links_sorted(s) ==> links_sorted(dedup_links(s)),
    decreases s.len(),
{
    if s.len() <= 1 {
        if s.len() == 1 {
            assert(no_adjacent_duplicates(s));
        }
    } else {
        let t = s.drop_last();
        lemma_dedup_shape(t);
        lemma_dedup_nonempty(t);
        let rest = dedup_links(t);
        let r = dedup_links(s);
        assert forall|y: Link| #[trigger] r.contains(y) implies s.contains(y) by {
            let i = choose|i: int| 0 <= i < r.len() && r[i] == y;
            if i < rest.len() {
                assert(rest[i] == y);
                assert(rest.contains(y));
                let m = choose|m: int| 0 <= m < t.len() && t[m] == y;
                assert(s[m] == y);
            } else {
                assert(s[s.len() - 1] == y);
            }
        }
        assert forall|i: int| #![trigger r[i]] 0 < i < r.len() implies !same_edge(r[i], r[i - 1]) by {
            if i < rest.len() {
                assert(r[i] == rest[i] && r[i - 1] == rest[i - 1]);
            }
        }
        if links_sorted(s) {
            assert forall|i: int, j: int| 0 <= i < j < t.len() implies link_key_le(#[trigger] t[i], #[trigger] t[j]) by {
                assert(t[i] == s[i] && t[j] == s[j]);
            }
            assert forall|i: int, j: int| 0 <= i < j < r.len() implies link_key_le(#[trigger] r[i], #[trigger] r[j]) by {
                if j < rest.len() {
                    assert(r[i] == rest[i] && r[j] == rest[j]);
                } else {
                    assert(r[i] == rest[i]);
                    assert(rest.contains(rest[i]));
                    let m = choose|m: int| 0 <= m < t.len() && t[m] == rest[i];
                    assert(s[m] == rest[i]);
                }
            }
        }
    }
}

proof fn lemma_dedup_of_distinct(s: Seq<Link>)
    requires
        no_adjacent_duplicates(s),
    ensures
        dedup_links(s) == s,
    decreases s.len(),
{
    if s.len() > 1 {
        let t = s.drop_last();
        assert forall|i: int| #![trigger t[i]] 0 < i < t.len() implies !same_edge(t[i], t[i - 1]) by {
            assert(t[i] == s[i] && t[i - 1] == s[i - 1]);
        }
        lemma_dedup_of_distinct(t);
        assert(!same_edge(s[s.len() - 1], s[s.len() - 2]));
        assert(t.push(s.last()) =~= s);
    }
}

/// Normalized links are in `(from, to, weight)` order, and no link describes the same edge
/// as the one before it.
pub proof fn law_normalized_shape(links: Seq<Link>)
    ensures
        links_sorted(dedup_links(sort_links(links))),
        no_adjacent_duplicates(dedup_links(sort_links(links))),
{
    lemma_sort_sorted(links);
    lemma_dedup_shape(sort_links(links));
}

/// Normalizing links that are already normalized changes nothing.
pub proof fn law_normalize_idempotent(links: Seq<Link>)
    ensures
        dedup_links(sort_links(dedup_links(sort_links(links)))) == dedup_links(sort_links(links)),
{
    let n = dedup_links(sort_links(links));
    law_normalized_shape(links);
    lemma_sort_of_sorted(n);
    lemma_dedup_of_distinct(n);
}

/// Sorts links by `(from, to, weight)`, keeping the order of equal keys, then removes
/// consecutive duplicates of the same edge.
pub fn normalize_links(links: &mut Vec<Link>)
    ensures
        final(links)@ == dedup_links(sort_links(old(links)@)),
{
    let ghost input = old(links)@;
    let mut sorted: Vec<Link> = Vec::new();
    let mut i: usize = 0;
    while i < links.len()
        invariant
            links@ == input,
            i <= input.len(),
            sorted@ == sort_links(input.take(i as int)),
        decreases input.len() - i,
    {
        proof {
            assert(input.take(i + 1).drop_last() =~= input.take(i as int));
        }
        let x = links[i];
        insert_sorted_exec(&mut sorted, x);
        i = i + 1;
    }
    assert(input.take(i as int) =~= input);
    let ghost s = sorted@;
    let mut out: Vec<Link> = Vec::new();
    let mut j: usize = 0;
    while j < sorted.len()
        invariant
            sorted@ == s,
            j <= s.len(),
            out@ == dedup_links(s.take(j as int)),
        decreases s.len() - j,
    {
        proof {
            assert(s.take(j + 1).drop_last() =~= s.take(j as int));
            lemma_dedup_nonempty(s.take(j as int));
        }
        let x = sorted[j];
        if j == 0 {
            out.push(x);
            proof {
                assert(s.take(1) =~= seq![x]);
                assert(out@ =~= seq![x]);
            }
        } else {
            let last = out[out.len() - 1];
            if !(x.from.0 == last.from.0 && x.to.0 == last.to.0 && x.kind == last.kind) {
                out.push(x);
            }
        }
        j = j + 1;
    }
    assert(s.take(j as int) =~= s);
    *links = out;
}

fn key_le(a: &Link, b: &Link) -> (r: bool)
    ensures
        r == link_key_le(*a, *b),
{
    a.from.0 < b.from.0 || (a.from.0 == b.from.0 && (a.to.0 < b.to.0 || (a.to.0 == b.to.0
        && a.weight <= b.weight)))
}

fn insert_sorted_exec(v: &mut Vec<Link>, x: Link)
    ensures
        final(v)@ == insert_sorted(old(v)@, x),
{
    let ghost s = old(v)@;
    let mut k = v.len();
    assert(s.take(k as int) =~= s);
    assert(s.skip(k as int) =~= Seq::<Link>::empty());
    while k > 0 && !key_le(&v[k - 1], &x)
        invariant
            v@ == s,
            k <= s.len(),
            insert_sorted(s, x) == insert_sorted(s.take(k as int), x) + s.skip(k as int),
        decreases k,
    {
        proof {
            let t = s.take(k as int);
            assert(t.drop_last() =~= s.take(k - 1));
            assert(t.last() == s[k - 1]);
            assert(s.skip(k - 1) =~= seq![s[k - 1]] + s.skip(k as int));
            assert(insert_sorted(t, x) == insert_sorted(s.take(k - 1), x).push(s[k - 1]));
            assert(insert_sorted(s.take(k - 1), x).push(s[k - 1]) + s.skip(k as int) =~= insert_sorted(
                s.take(k - 1),
                x,
            ) + s.skip(k - 1));
        }
        k = k - 1;
    }
    proof {
        let t = s.take(k as int);
        if k > 0 {
            assert(t.last() == s[k - 1]);
        }
        assert(insert_sorted(t, x) =~= t.push(x));
        assert(insert_sorted(s, x) =~= s.take(k as int) + seq![x] + s.skip(k as int));
    }
    v.insert(k, x);
    assert(v@ =~= s.take(k as int) + seq![x] + s.skip(k as int));
}

/// `x` clamped to the range of `i32`.
pub open spec fn clamp_i32(x: int) -> i32 {
    if x > i32::MAX {
        i32::MAX
    } else if x < i32::MIN {
        i32::MIN
    } else {
        x as i32
    }
}

/// The score of `device` over `links`: outgoing weights are added, half of incoming
/// weights (rounded toward zero) subtracted, each step saturating.
pub open spec fn link_score_spec(links: Seq<Link>, device: u32) -> i32
    decreases links.len(),
{
    if links.len() == 0 {
        0
    } else {
        let prev = link_score_spec(links.drop_last(), device);
        let l = links.last();
        let after_from = if l.from.0 == device {
            clamp_i32(prev + l.weight)
        } else {
            prev
        };
        if l.to.0 == device {
            clamp_i32(after_from - half_toward_zero(l.weight as int))
        } else {
            after_from
        }
    }
}

/// `x / 2` rounded toward zero.
pub open spec fn half_toward_zero(x: int) -> int {
    if x >= 0 {
        x / 2
    } else {
        -((-x) / 2)
    }
}

fn saturating_add_i32(a: i32, b: i32) -> (r: i32)
    ensures
        r == clamp_i32(a + b),
{
    let s = a as i64 + b as i64;
    if s > i32::MAX as i64 {
        i32::MAX
    } else if s < i32::MIN as i64 {
        i32::MIN
    } else {
        s as i32
    }
}

pub fn link_score(links: &[Link], device: DeviceId) -> (r: i32)
    ensures
        r == link_score_spec(links@, device.0),
{
    let mut score: i32 = 0;
    let mut i: usize = 0;
    while i < links.len()
        invariant
            i <= links@.len(),
            score == link_score_spec(links@.take(i as int), device.0),
        decreases links@.len() - i,
    {
        proof {
            assert(links@.take(i + 1).drop_last() =~= links@.take(i as int));
        }
        let link = links[i];
        if link.from.0 == device.0 {
            score = saturating_add_i32(score, link.weight as i32);
        }
        if link.to.0 == device.0 {
            let w = link.weight as i32;
            let half = w / 2;
            proof {
                assert(half == half_toward_zero(w as int));
            }
            score = saturating_add_i32(score, -half);
        }
        i = i + 1;
    }
    assert(links@.take(i as int) =~= links@);
    score
}

} // verus!
