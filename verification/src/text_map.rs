use vstd::prelude::*;

verus! {

/// The UTF-8 bytes of a string; keys are ordered by them.
pub open spec fn key_bytes(k: Seq<char>) -> Seq<u8> {
    vstd::utf8::encode_utf8(k)
}

/// Lexicographic order on byte sequences (a proper prefix comes first).
pub open spec fn bytes_lt(a: Seq<u8>, b: Seq<u8>) -> bool
    decreases a.len(),
{
    if a.len() == 0 {
        b.len() > 0
    } else if b.len() == 0 {
        false
    } else if a[0] < b[0] {
        true
    } else if a[0] > b[0] {
        false
    } else {
        bytes_lt(a.drop_first(), b.drop_first())
    }
}

/// Keys are strictly increasing.
pub open spec fn keys_sorted<W>(s: Seq<(Seq<char>, W)>) -> bool {
    forall|i: int, j: int|
        0 <= i < j < s.len() ==> bytes_lt(key_bytes(#[trigger] s[i].0), key_bytes(#[trigger] s[j].0))
}

/// The entries after `k` is bound to `w`: an existing binding of `k` is replaced in place,
/// otherwise the pair is placed before the first larger key.
pub open spec fn map_insert<W>(s: Seq<(Seq<char>, W)>, k: Seq<char>, w: W) -> Seq<(Seq<char>, W)>
    decreases s.len(),
{
    if s.len() == 0 {
        seq![(k, w)]
    } else if s[0].0 == k {
        seq![(k, w)] + s.drop_first()
    } else if bytes_lt(key_bytes(k), key_bytes(s[0].0)) {
        seq![(k, w)] + s
    } else {
        seq![s[0]] + map_insert(s.drop_first(), k, w)
    }
}

/// Every pair of `t`, inserted into `s` in order.
pub open spec fn insert_all<W>(s: Seq<(Seq<char>, W)>, t: Seq<(Seq<char>, W)>) -> Seq<(Seq<char>, W)>
    decreases t.len(),
{
    if t.len() == 0 {
        s
    } else {
        insert_all(map_insert(s, t[0].0, t[0].1), t.drop_first())
    }
}

/// The value bound to `k`.
pub open spec fn map_lookup<W>(s: Seq<(Seq<char>, W)>, k: Seq<char>) -> Option<W>
    decreases s.len(),
{
    if s.len() == 0 {
        None
    } else if s[0].0 == k {
        Some(s[0].1)
    } else {
        map_lookup(s.drop_first(), k)
    }
}

/// Reading a key back after binding it gives the bound value; other keys are unaffected.
pub proof fn lemma_lookup_insert<W>(s: Seq<(Seq<char>, W)>, k: Seq<char>, w: W, q: Seq<char>)
    ensures
        map_lookup(map_insert(s, k, w), q) == if q == k { Some(w) } else { map_lookup(s, q) },
    decreases s.len(),
{
    if s.len() == 0 {
        let t = map_insert(s, k, w);
        assert(t == seq![(k, w)]);
        assert(t[0] == (k, w));
        assert(t.drop_first() =~= Seq::<(Seq<char>, W)>::empty());
        if q != k {
            assert(map_lookup(t, q) == map_lookup(t.drop_first(), q));
        }
    } else {
        let t = map_insert(s, k, w);
        if s[0].0 == k {
            assert(t[0] == (k, w));
            assert(t.drop_first() =~= s.drop_first());
            if q != k {
                assert(map_lookup(t, q) == map_lookup(t.drop_first(), q));
                assert(map_lookup(s, q) == map_lookup(s.drop_first(), q));
            }
        } else if bytes_lt(key_bytes(k), key_bytes(s[0].0)) {
            assert(t[0] == (k, w));
            assert(t.drop_first() =~= s);
            if q != k {
                assert(map_lookup(t, q) == map_lookup(t.drop_first(), q));
            }
        } else {
            lemma_lookup_insert(s.drop_first(), k, w, q);
            assert(t[0] == s[0]);
            assert(t.drop_first() =~= map_insert(s.drop_first(), k, w));
            if s[0].0 != q {
                assert(map_lookup(t, q) == map_lookup(t.drop_first(), q));
                assert(map_lookup(s, q) == map_lookup(s.drop_first(), q));
            } else {
                assert(map_lookup(t, q) == Some(s[0].1));
                assert(map_lookup(s, q) == Some(s[0].1));
            }
        }
    }
}

pub proof fn lemma_bytes_lt_irreflexive(a: Seq<u8>)
    ensures
        !bytes_lt(a, a),
    decreases a.len(),
{
    if a.len() > 0 {
        lemma_bytes_lt_irreflexive(a.drop_first());
    }
}

pub proof fn lemma_bytes_lt_trichotomy(a: Seq<u8>, b: Seq<u8>)
    ensures
        a == b || bytes_lt(a, b) || bytes_lt(b, a),
        !(bytes_lt(a, b) && bytes_lt(b, a)),
    decreases a.len(),
{
    if a.len() > 0 && b.len() > 0 && a[0] == b[0] {
        lemma_bytes_lt_trichotomy(a.drop_first(), b.drop_first());
        if a.drop_first() == b.drop_first() {
            assert(a =~= seq![a[0]] + a.drop_first());
            assert(b =~= seq![b[0]] + b.drop_first());
        }
    } else if a.len() == 0 && b.len() == 0 {
        assert(a =~= b);
    }
}

pub proof fn lemma_bytes_lt_transitive(a: Seq<u8>, b: Seq<u8>, c: Seq<u8>)
    requires
        bytes_lt(a, b),
        bytes_lt(b, c),
    ensures
        bytes_lt(a, c),
    decreases a.len(),
{
    if a.len() > 0 && b.len() > 0 && c.len() > 0 && a[0] == b[0] && b[0] == c[0] {
        lemma_bytes_lt_transitive(a.drop_first(), b.drop_first(), c.drop_first());
    }
}

/// Distinct strings have distinct encodings.
pub proof fn lemma_key_bytes_injective(a: Seq<char>, b: Seq<char>)
    ensures
        key_bytes(a) == key_bytes(b) ==> a == b,
{
    vstd::utf8::encode_utf8_decode_utf8(a);
    vstd::utf8::encode_utf8_decode_utf8(b);
}

/// Keys related as strings are related as encodings, and conversely.
proof fn lemma_key_order(a: Seq<char>, b: Seq<char>)
    ensures
        a == b || bytes_lt(key_bytes(a), key_bytes(b)) || bytes_lt(key_bytes(b), key_bytes(a)),
        a == b ==> !bytes_lt(key_bytes(a), key_bytes(b)),
        !(bytes_lt(key_bytes(a), key_bytes(b)) && bytes_lt(key_bytes(b), key_bytes(a))),
{
    lemma_key_bytes_injective(a, b);
    lemma_bytes_lt_trichotomy(key_bytes(a), key_bytes(b));
    lemma_bytes_lt_irreflexive(key_bytes(a));
}

/// Compares two byte strings lexicographically: -1, 0 or 1.
fn compare_bytes(a: &[u8], b: &[u8]) -> (r: i8)
    ensures
        r == -1 <==> bytes_lt(a@, b@),
        r == 0 <==> a@ == b@,
        r == 1 <==> bytes_lt(b@, a@),
{
    proof {
        lemma_bytes_lt_trichotomy(a@, b@);
        lemma_bytes_lt_irreflexive(a@);
    }
    let mut i: usize = 0;
    assert(a@.skip(0) =~= a@);
    assert(b@.skip(0) =~= b@);
    assert(a@.subrange(0, 0) =~= b@.subrange(0, 0));
    while i < a.len() && i < b.len()
        invariant
            i <= a@.len(),
            i <= b@.len(),
            a@.subrange(0, i as int) == b@.subrange(0, i as int),
            bytes_lt(a@, b@) == bytes_lt(a@.skip(i as int), b@.skip(i as int)),
            bytes_lt(b@, a@) == bytes_lt(b@.skip(i as int), a@.skip(i as int)),
        decreases a@.len() - i,
    {
        if a[i] < b[i] {
            return -1;
        }
        if a[i] > b[i] {
            return 1;
        }
        proof {
            assert(a@.skip(i as int).drop_first() =~= a@.skip(i + 1));
            assert(b@.skip(i as int).drop_first() =~= b@.skip(i + 1));
            assert(a@.subrange(0, i + 1) =~= a@.subrange(0, i as int).push(a@[i as int]));
            assert(b@.subrange(0, i + 1) =~= b@.subrange(0, i as int).push(b@[i as int]));
        }
        i = i + 1;
    }
    if a.len() < b.len() {
        -1
    } else if a.len() > b.len() {
        1
    } else {
        proof {
            assert(a@ =~= a@.subrange(0, i as int));
            assert(b@ =~= b@.subrange(0, i as int));
        }
        0
    }
}

/// A map from strings to values, kept in increasing byte order of the keys.
#[derive(Debug)]
pub struct TextMap<V: View> {
    entries: Vec<(String, V)>,
}

pub open spec fn entries_view<V: View>(s: Seq<(String, V)>) -> Seq<(Seq<char>, V::V)> {
    s.map_values(|e: (String, V)| (e.0@, e.1@))
}

impl<V: View> View for TextMap<V> {
    type V = Seq<(Seq<char>, V::V)>;

    closed spec fn view(&self) -> Seq<(Seq<char>, V::V)> {
        entries_view(self.entries@)
    }
}

impl<V: View + Clone> Clone for TextMap<V> {
    /// A copy with the same keys in the same order; values are cloned one by one.
    fn clone(&self) -> (r: Self)
        ensures
            r@.len() == self@.len(),
            forall|i: int| 0 <= i < self@.len() ==> #[trigger] r@[i].0 == self@[i].0,
    {
        proof {
            use_type_invariant(self);
        }
        let mut entries: Vec<(String, V)> = Vec::new();
        let mut i: usize = 0;
        while i < self.entries.len()
            invariant
                i <= self.entries@.len(),
                entries@.len() == i,
                keys_sorted(entries_view(self.entries@)),
                forall|j: int| 0 <= j < i ==> #[trigger] entries@[j].0@ == self.entries@[j].0@,
            decreases self.entries@.len() - i,
        {
            let k = self.entries[i].0.clone();
            let v = self.entries[i].1.clone();
            entries.push((k, v));
            i = i + 1;
        }
        proof {
            let a = entries_view(entries@);
            let b = entries_view(self.entries@);
            assert forall|x: int, y: int| 0 <= x < y < a.len() implies bytes_lt(
                key_bytes(#[trigger] a[x].0),
                key_bytes(#[trigger] a[y].0),
            ) by {
                assert(a[x].0 == b[x].0);
                assert(a[y].0 == b[y].0);
            }
        }
        Self { entries }
    }
}

impl<V: View> TextMap<V> {
    #[verifier::type_invariant]
    closed spec fn sorted(self) -> bool {
        keys_sorted(entries_view(self.entries@))
    }

    pub fn new() -> (r: Self)
        ensures
            r@ == Seq::<(Seq<char>, V::V)>::empty(),
    {
        let r = Self { entries: Vec::new() };
        assert(r@ =~= Seq::<(Seq<char>, V::V)>::empty());
        r
    }

    pub fn len(&self) -> (r: usize)
        ensures
            r == self@.len(),
    {
        self.entries.len()
    }

    /// The pairs in increasing key order.
    pub fn entries(&self) -> (r: &[(String, V)])
        ensures
            entries_view(r@) == self@,
            keys_sorted(self@),
    {
        proof {
            use_type_invariant(self);
        }
        self.entries.as_slice()
    }

    /// The value bound to `key`, if any.
    pub fn get(&self, key: &str) -> (r: Option<&V>)
        ensures
            match map_lookup(self@, key@) {
                Some(w) => r matches Some(v) && v@ == w,
                None => r is None,
            },
    {
        let ghost s = self@;
        let kb = key.as_bytes();
        let mut i: usize = 0;
        assert(s.skip(0) =~= s);
        while i < self.entries.len()
            invariant
                i <= self.entries@.len(),
                s == self@,
                s == entries_view(self.entries@),
                kb@ == key_bytes(key@),
                map_lookup(s, key@) == map_lookup(s.skip(i as int), key@),
            decreases self.entries@.len() - i,
        {
            let c = compare_bytes(self.entries[i].0.as_str().as_bytes(), kb);
            proof {
                lemma_key_bytes_injective(self.entries@[i as int].0@, key@);
                assert(s.skip(i as int).drop_first() =~= s.skip(i + 1));
            }
            if c == 0 {
                return Some(&self.entries[i].1);
            }
            i = i + 1;
        }
        None
    }

    /// Binds `key` to `value`, replacing an earlier value of the same key.
    pub fn insert(&mut self, key: String, value: V)
        ensures
            final(self)@ == map_insert(old(self)@, key@, value@),
            keys_sorted(final(self)@),
    {
        proof {
            use_type_invariant(&*self);
        }
        let ghost s = self@;
        let ghost k = key@;
        let ghost w = value@;
        let mut entries: Vec<(String, V)> = Vec::new();
        core::mem::swap(&mut entries, &mut self.entries);
        self.entries = Self::inserted(entries, key, value);
    }

    fn inserted(items: Vec<(String, V)>, key: String, value: V) -> (r: Vec<(String, V)>)
        requires
            keys_sorted(entries_view(items@)),
        ensures
            entries_view(r@) == map_insert(entries_view(items@), key@, value@),
            keys_sorted(entries_view(r@)),
    {
        let mut entries = items;
        let ghost s = entries_view(entries@);
        let ghost k = key@;
        let ghost w = value@;
        let mut i: usize = 0;
        let len = entries.len();
        assert(s.skip(0) =~= s);
        assert(s.take(0) + map_insert(s, k, w) =~= map_insert(s, k, w));
        while i < len
            invariant
                len == entries@.len(),
                i <= len,
                s == entries_view(entries@),
                s == entries_view(items@),
                keys_sorted(s),
                k == key@,
                w == value@,
                forall|j: int| 0 <= j < i ==> bytes_lt(key_bytes(#[trigger] s[j].0), key_bytes(k)),
                map_insert(s, k, w) == s.take(i as int) + map_insert(s.skip(i as int), k, w),
            decreases len - i,
        {
            let c = compare_bytes(entries[i].0.as_str().as_bytes(), key.as_str().as_bytes());
            proof {
                lemma_key_order(s[i as int].0, k);
            }
            if c == 0 {
                proof {
                    lemma_key_bytes_injective(s[i as int].0, k);
                    assert(s.skip(i as int).drop_first() =~= s.skip(i + 1));
                    assert(s.skip(i as int)[0] == s[i as int]);
                    assert(map_insert(s.skip(i as int), k, w) == seq![(k, w)] + s.skip(i + 1));
                }
                entries.set(i, (key, value));
                proof {
                    assert(entries_view(entries@) =~= s.take(i as int) + (seq![(k, w)] + s.skip(i + 1)));
                    assert(keys_sorted(entries_view(entries@)));
                    assert(entries_view(entries@) == map_insert(s, k, w));
                }
                return entries;
            }
            if c == 1 {
                proof {
                    assert(s.skip(i as int) =~= seq![s[i as int]] + s.skip(i + 1));
                    assert(s.skip(i as int)[0] == s[i as int]);
                    assert(map_insert(s.skip(i as int), k, w) == seq![(k, w)] + s.skip(i as int));
                }
                entries.insert(i, (key, value));
                proof {
                    assert(entries_view(entries@) =~= s.take(i as int) + (seq![(k, w)] + s.skip(i as int)));
                    assert(entries_view(entries@) == map_insert(s, k, w));
                    let t = entries_view(entries@);
                    assert forall|a: int, b: int| 0 <= a < b < t.len() implies bytes_lt(
                        key_bytes(#[trigger] t[a].0),
                        key_bytes(#[trigger] t[b].0),
                    ) by {
                        if b > i {
                            assert(t[b] == s[b - 1]);
                            if b - 1 > i {
                                lemma_bytes_lt_transitive(key_bytes(k), key_bytes(s[i as int].0), key_bytes(s[b - 1].0));
                            }
                            assert(bytes_lt(key_bytes(k), key_bytes(t[b].0)));
                        }
                        if a < i && b > i {
                            lemma_bytes_lt_transitive(key_bytes(t[a].0), key_bytes(k), key_bytes(t[b].0));
                        } else if a > i {
                            assert(t[a] == s[a - 1]);
                        }
                    }
                }
                return entries;
            }
            proof {
                assert(s.skip(i as int).drop_first() =~= s.skip(i + 1));
                assert(s.take(i + 1) =~= s.take(i as int) + seq![s[i as int]]);
                assert(s.skip(i as int)[0] == s[i as int]);
                lemma_bytes_lt_irreflexive(key_bytes(k));
            }
            i = i + 1;
        }
        entries.push((key, value));
        proof {
            assert(s.skip(i as int) =~= Seq::<(Seq<char>, V::V)>::empty());
            assert(entries_view(entries@) =~= s.take(i as int) + seq![(k, w)]);
        }
        entries
    }

    /// Inserts every pair of `other`, in its order.
    pub fn insert_all(&mut self, other: TextMap<V>)
        ensures
            final(self)@ == insert_all(old(self)@, other@),
            keys_sorted(final(self)@),
    {
        proof {
            use_type_invariant(&*self);
        }
        let ghost t = other@;
        let ghost s0 = self@;
        let mut rest = other.entries;
        let mut n: usize = 0;
        let total = rest.len();
        assert(entries_view(rest@) =~= t.skip(0));
        while rest.len() > 0
            invariant
                n + rest@.len() == total,
                total == t.len(),
                entries_view(rest@) == t.skip(n as int),
                insert_all(s0, t) == insert_all(self@, t.skip(n as int)),
                keys_sorted(self@),
            decreases rest@.len(),
        {
            let (key, value) = rest.remove(0);
            proof {
                assert(t.skip(n as int).drop_first() =~= t.skip(n + 1));
                assert(entries_view(rest@) =~= t.skip(n + 1));
            }
            self.insert(key, value);
            n = n + 1;
        }
        proof {
            assert(t.skip(n as int) =~= Seq::<(Seq<char>, V::V)>::empty());
        }
    }
}

} // verus!
