//! String-keyed maps that keep their entries sorted by the bytes of the key,
//! one entry per key: the order in which `BTreeMap<String, V>` holds them.

use vstd::prelude::*;
use vstd::utf8::encode_utf8;

verus! {

/// How two keys compare.
pub enum KeyOrder {
    Less,
    Equal,
    Greater,
}

/// Byte-wise lexicographic order, from offset `i` on (shorter prefixes first).
pub open spec fn lex_lt_from(a: Seq<u8>, b: Seq<u8>, i: int) -> bool
    decreases a.len() - i,
{
    if i >= a.len() {
        i < b.len()
    } else if i >= b.len() {
        false
    } else if a[i] != b[i] {
        a[i] < b[i]
    } else {
        lex_lt_from(a, b, i + 1)
    }
}

/// Byte-wise lexicographic order, as `str` and `String` compare.
pub open spec fn lex_lt(a: Seq<u8>, b: Seq<u8>) -> bool {
    lex_lt_from(a, b, 0)
}

proof fn lemma_lex_asymmetric(a: Seq<u8>, b: Seq<u8>, i: int)
    requires
        0 <= i,
    ensures
        !(lex_lt_from(a, b, i) && lex_lt_from(b, a, i)),
    decreases a.len() - i,
{
    if i < a.len() && i < b.len() && a[i] == b[i] {
        lemma_lex_asymmetric(a, b, i + 1);
    }
}

proof fn lemma_lex_total(a: Seq<u8>, b: Seq<u8>, i: int)
    requires
        0 <= i <= a.len(),
        i <= b.len(),
        a.take(i) == b.take(i),
    ensures
        a == b || lex_lt_from(a, b, i) || lex_lt_from(b, a, i),
    decreases a.len() - i,
{
    if i == a.len() && i == b.len() {
        assert(a =~= a.take(i));
        assert(b =~= b.take(i));
    } else if i < a.len() && i < b.len() && a[i] == b[i] {
        assert(a.take(i + 1) =~= b.take(i + 1)) by {
            assert forall|j: int| 0 <= j < i + 1 implies #[trigger] a.take(i + 1)[j] == b.take(i + 1)[j] by {
                if j < i {
                    assert(a.take(i)[j] == b.take(i)[j]);
                }
            }
        }
        lemma_lex_total(a, b, i + 1);
    }
}

proof fn lemma_lex_irreflexive(a: Seq<u8>, i: int)
    requires
        0 <= i,
    ensures
        !lex_lt_from(a, a, i),
    decreases a.len() - i,
{
    if i < a.len() {
        lemma_lex_irreflexive(a, i + 1);
    }
}

proof fn lemma_lex_transitive(a: Seq<u8>, b: Seq<u8>, c: Seq<u8>, i: int)
    requires
        0 <= i,
        lex_lt_from(a, b, i),
        lex_lt_from(b, c, i),
    ensures
        lex_lt_from(a, c, i),
    decreases a.len() - i,
{
    if i < a.len() && i < b.len() && i < c.len() && a[i] == b[i] && b[i] == c[i] {
        lemma_lex_transitive(a, b, c, i + 1);
    }
}

/// The order is strict and total on byte strings.
pub proof fn lemma_lex_order(a: Seq<u8>, b: Seq<u8>, c: Seq<u8>)
    ensures
        !lex_lt(a, a),
        !(lex_lt(a, b) && lex_lt(b, a)),
        a == b || lex_lt(a, b) || lex_lt(b, a),
        lex_lt(a, b) && lex_lt(b, c) ==> lex_lt(a, c),
{
    lemma_lex_irreflexive(a, 0);
    lemma_lex_asymmetric(a, b, 0);
    assert(a.take(0) =~= b.take(0));
    lemma_lex_total(a, b, 0);
    if lex_lt(a, b) && lex_lt(b, c) {
        lemma_lex_transitive(a, b, c, 0);
    }
}

/// Compares two byte strings lexicographically.
pub fn compare_bytes(a: &[u8], b: &[u8]) -> (r: KeyOrder)
    ensures
        (r is Less) == lex_lt(a@, b@),
        (r is Equal) == (a@ == b@),
        (r is Greater) == lex_lt(b@, a@),
{
    let na = a.len();
    let nb = b.len();
    let mut i: usize = 0;
    proof {
        lemma_lex_order(a@, b@, b@);
    }
    assert(a@.take(0) =~= b@.take(0));
    while i < na && i < nb && a[i] == b[i]
        invariant
            na == a@.len(),
            nb == b@.len(),
            0 <= i <= na,
            i <= nb,
            a@.take(i as int) == b@.take(i as int),
            lex_lt(a@, b@) == lex_lt_from(a@, b@, i as int),
            lex_lt(b@, a@) == lex_lt_from(b@, a@, i as int),
        decreases na - i,
    {
        assert(a@.take(i + 1) =~= b@.take(i + 1)) by {
            assert forall|j: int| 0 <= j < i + 1 implies #[trigger] a@.take(i + 1)[j] == b@.take(i + 1)[j] by {
                if j < i {
                    assert(a@.take(i as int)[j] == b@.take(i as int)[j]);
                }
            }
        }
        i += 1;
    }
    if i == na && i == nb {
        assert(a@ =~= a@.take(i as int));
        assert(b@ =~= b@.take(i as int));
        KeyOrder::Equal
    } else if i == na {
        assert(a@.len() < b@.len());
        KeyOrder::Less
    } else if i == nb {
        assert(a@.len() > b@.len());
        KeyOrder::Greater
    } else if a[i] < b[i] {
        assert(a@[i as int] != b@[i as int]);
        KeyOrder::Less
    } else {
        assert(a@[i as int] != b@[i as int]);
        KeyOrder::Greater
    }
}

/// Whether `a` sorts before `b`.
pub fn bytes_less(a: &[u8], b: &[u8]) -> (r: bool)
    ensures
        r == lex_lt(a@, b@),
{
    match compare_bytes(a, b) {
        KeyOrder::Less => true,
        _ => false,
    }
}

/// Whether two byte strings are equal.
pub fn bytes_same(a: &[u8], b: &[u8]) -> (r: bool)
    ensures
        r == (a@ == b@),
{
    match compare_bytes(a, b) {
        KeyOrder::Equal => true,
        _ => false,
    }
}

/// An entry as the contracts see it: the key's bytes and the value's view.
pub type Entry<W> = (Seq<u8>, W);

/// Keys strictly increase: sorted, and no key twice.
pub open spec fn keys_sorted<W>(s: Seq<Entry<W>>) -> bool {
    forall|i: int, j: int| 0 <= i < j < s.len() ==> lex_lt(#[trigger] s[i].0, #[trigger] s[j].0)
}

/// The value of the first entry whose key is `k`.
pub open spec fn lookup<W>(s: Seq<Entry<W>>, k: Seq<u8>) -> Option<W>
    decreases s.len(),
{
    if s.len() == 0 {
        None
    } else if s[0].0 == k {
        Some(s[0].1)
    } else {
        lookup(s.drop_first(), k)
    }
}

/// The number of leading entries whose key is below `k`.
pub open spec fn key_position<W>(s: Seq<Entry<W>>, k: Seq<u8>) -> int
    decreases s.len(),
{
    if s.len() == 0 {
        0
    } else if lex_lt(s[0].0, k) {
        1 + key_position(s.drop_first(), k)
    } else {
        0
    }
}

/// The entries after setting `k` to `v`: the entry for `k` replaced where it
/// is, or a new entry before the first key not below `k`.
pub open spec fn insert_key<W>(s: Seq<Entry<W>>, k: Seq<u8>, v: W) -> Seq<Entry<W>> {
    let i = key_position(s, k);
    if i < s.len() && s[i].0 == k {
        s.update(i, (k, v))
    } else {
        s.insert(i, (k, v))
    }
}

proof fn lemma_key_position<W>(s: Seq<Entry<W>>, k: Seq<u8>)
    ensures
        0 <= key_position(s, k) <= s.len(),
        forall|j: int| 0 <= j < key_position(s, k) ==> lex_lt(#[trigger] s[j].0, k),
        key_position(s, k) < s.len() ==> !lex_lt(s[key_position(s, k)].0, k),
    decreases s.len(),
{
    if s.len() > 0 && lex_lt(s[0].0, k) {
        lemma_key_position(s.drop_first(), k);
        assert forall|j: int| 0 <= j < key_position(s, k) implies lex_lt(#[trigger] s[j].0, k) by {
            if j > 0 {
                assert(s[j] == s.drop_first()[j - 1]);
            }
        }
    }
}

proof fn lemma_sorted_tail<W>(s: Seq<Entry<W>>)
    requires
        keys_sorted(s),
        s.len() > 0,
    ensures
        keys_sorted(s.drop_first()),
{
    let t = s.drop_first();
    assert forall|i: int, j: int| 0 <= i < j < t.len() implies lex_lt(
        #[trigger] t[i].0,
        #[trigger] t[j].0,
    ) by {
        assert(t[i] == s[i + 1] && t[j] == s[j + 1]);
    }
}

proof fn lemma_lookup_at<W>(s: Seq<Entry<W>>, i: int)
    requires
        keys_sorted(s),
        0 <= i < s.len(),
    ensures
        lookup(s, s[i].0) == Some(s[i].1),
    decreases i,
{
    if i > 0 {
        assert(lex_lt(s[0].0, s[i].0));
        lemma_lex_order(s[0].0, s[0].0, s[0].0);
        lemma_sorted_tail(s);
        assert(s.drop_first()[i - 1] == s[i]);
        lemma_lookup_at(s.drop_first(), i - 1);
    }
}

proof fn lemma_lookup_absent<W>(s: Seq<Entry<W>>, k: Seq<u8>)
    requires
        forall|i: int| 0 <= i < s.len() ==> #[trigger] s[i].0 != k,
    ensures
        lookup(s, k) is None,
    decreases s.len(),
{
    if s.len() > 0 {
        assert(s[0].0 != k);
        assert forall|i: int| 0 <= i < s.drop_first().len() implies #[trigger] s.drop_first()[i].0
            != k by {
            assert(s.drop_first()[i] == s[i + 1]);
        }
        lemma_lookup_absent(s.drop_first(), k);
    }
}

/// Setting a key keeps the keys sorted, makes the key find the new value,
/// and leaves every other key as it was.
pub proof fn lemma_insert_key<W>(s: Seq<Entry<W>>, k: Seq<u8>, v: W, other: Seq<u8>)
    requires
        keys_sorted(s),
    ensures
        keys_sorted(insert_key(s, k, v)),
        lookup(insert_key(s, k, v), k) == Some(v),
        other != k ==> lookup(insert_key(s, k, v), other) == lookup(s, other),
{
    lemma_key_position(s, k);
    let i = key_position(s, k);
    let r = insert_key(s, k, v);
    assert forall|a: int, b: int| 0 <= a < b < r.len() implies lex_lt(
        #[trigger] r[a].0,
        #[trigger] r[b].0,
    ) by {
        if i < s.len() && s[i].0 == k {
        } else {
            if i < s.len() {
                lemma_lex_order(s[i].0, k, k);
            }
            if a < i && b == i {
            } else if a == i && b > i {
                if b - 1 > i {
                    lemma_lex_order(k, s[i].0, s[b - 1].0);
                }
            } else if a < i && b > i {
            }
        }
    }
    assert(r[i].0 == k && r[i].1 == v);
    lemma_lookup_at(r, i);
    if other != k {
        if exists|j: int| 0 <= j < s.len() && #[trigger] s[j].0 == other {
            let c = choose|j: int| 0 <= j < s.len() && #[trigger] s[j].0 == other;
            lemma_lookup_at(s, c);
            if i < s.len() && s[i].0 == k {
                assert(r[c] == s[c]);
                lemma_lookup_at(r, c);
            } else if c < i {
                assert(r[c] == s[c]);
                lemma_lookup_at(r, c);
            } else {
                assert(r[c + 1] == s[c]);
                lemma_lookup_at(r, c + 1);
            }
        } else {
            lemma_lookup_absent(s, other);
            assert forall|j: int| 0 <= j < r.len() implies #[trigger] r[j].0 != other by {
                if i < s.len() && s[i].0 == k {
                    if j != i {
                        assert(r[j] == s[j]);
                    }
                } else if j < i {
                    assert(r[j] == s[j]);
                } else if j > i {
                    assert(r[j] == s[j - 1]);
                }
            }
            lemma_lookup_absent(r, other);
        }
    }
}

/// A value found by `lookup` is the value of one of the entries.
pub proof fn lemma_lookup_member<W>(s: Seq<Entry<W>>, k: Seq<u8>)
    ensures
        lookup(s, k) matches Some(x) ==> exists|j: int| 0 <= j < s.len() && #[trigger] s[j] == (
            k,
            x,
        ),
    decreases s.len(),
{
    if s.len() > 0 && s[0].0 != k {
        lemma_lookup_member(s.drop_first(), k);
        if lookup(s, k) is Some {
            let x = lookup(s, k).unwrap();
            let j = choose|j: int| 0 <= j < s.drop_first().len() && #[trigger] s.drop_first()[j]
                == (k, x);
            assert(s[j + 1] == (k, x));
        }
    } else if s.len() > 0 {
        assert(s[0] == (k, s[0].1));
    }
}

/// Every entry after setting a key is the new entry or an entry from before.
pub proof fn lemma_insert_key_members<W>(s: Seq<Entry<W>>, k: Seq<u8>, v: W)
    ensures
        forall|j: int|
            0 <= j < insert_key(s, k, v).len() ==> #[trigger] insert_key(s, k, v)[j] == (k, v)
                || exists|i: int| 0 <= i < s.len() && s[i] == insert_key(s, k, v)[j],
{
    lemma_key_position(s, k);
    let p = key_position(s, k);
    let r = insert_key(s, k, v);
    assert forall|j: int| 0 <= j < r.len() implies #[trigger] r[j] == (k, v) || exists|i: int|
        0 <= i < s.len() && s[i] == r[j] by {
        if p < s.len() && s[p].0 == k {
            if j != p {
                assert(s[j] == r[j]);
            }
        } else if j < p {
            assert(s[j] == r[j]);
        } else if j > p {
            assert(s[j - 1] == r[j]);
        }
    }
}

/// A map from `String` keys to values, sorted by key.
#[derive(Debug, Clone)]
pub struct KeyMap<V> {
    entries: Vec<(String, V)>,
}

impl<V: View> View for KeyMap<V> {
    type V = Seq<Entry<V::V>>;

    closed spec fn view(&self) -> Seq<Entry<V::V>> {
        self.entries@.map_values(|e: (String, V)| (encode_utf8(e.0@), e.1@))
    }
}

impl<V: View> KeyMap<V> {
    /// An empty map.
    pub fn new() -> (m: KeyMap<V>)
        ensures
            m@ == Seq::<Entry<V::V>>::empty(),
    {
        let m = KeyMap { entries: Vec::new() };
        assert(m@ =~= Seq::<Entry<V::V>>::empty());
        m
    }

    /// The number of entries.
    pub fn len(&self) -> (n: usize)
        ensures
            n == self@.len(),
    {
        self.entries.len()
    }

    /// The entries in key order.
    pub fn entries(&self) -> (r: &[(String, V)])
        ensures
            r@.map_values(|e: (String, V)| (encode_utf8(e.0@), e.1@)) == self@,
    {
        self.entries.as_slice()
    }

    /// The value stored for `key`.
    pub fn get(&self, key: &str) -> (r: Option<&V>)
        ensures
            match r {
                Some(v) => lookup(self@, encode_utf8(key@)) == Some(v@),
                None => lookup(self@, encode_utf8(key@)) is None,
            },
    {
        let k = key.as_bytes();
        let n = self.entries.len();
        let mut i: usize = 0;
        assert(self@.skip(0) =~= self@);
        while i < n
            invariant
                n == self@.len(),
                k@ == encode_utf8(key@),
                0 <= i <= n,
                lookup(self@, k@) == lookup(self@.skip(i as int), k@),
            decreases n - i,
        {
            assert(self@.skip(i as int)[0] == self@[i as int]);
            assert(self@.skip(i as int).drop_first() =~= self@.skip(i + 1));
            if bytes_same(self.entries[i].0.as_str().as_bytes(), k) {
                return Some(&self.entries[i].1);
            }
            i += 1;
        }
        None
    }

    /// Set `key` to `value`, replacing any value it had.
    pub fn insert(&mut self, key: String, value: V)
        ensures
            final(self)@ == insert_key(old(self)@, encode_utf8(key@), value@),
    {
        let ghost k = encode_utf8(key@);
        let n = self.entries.len();
        let mut i: usize = 0;
        assert(self@.skip(0) =~= self@);
        while i < n && bytes_less(self.entries[i].0.as_str().as_bytes(), key.as_str().as_bytes())
            invariant
                n == self@.len(),
                self@ == old(self)@,
                k == encode_utf8(key@),
                0 <= i <= n,
                key_position(self@, k) == i + key_position(self@.skip(i as int), k),
            decreases n - i,
        {
            assert(self@.skip(i as int)[0] == self@[i as int]);
            assert(self@.skip(i as int).drop_first() =~= self@.skip(i + 1));
            i += 1;
        }
        proof {
            if i < n {
                assert(self@.skip(i as int)[0] == self@[i as int]);
            }
        }
        let ghost before = self@;
        if i < n && bytes_same(self.entries[i].0.as_str().as_bytes(), key.as_str().as_bytes()) {
            self.entries.set(i, (key, value));
            assert(self@ =~= before.update(i as int, (k, value@)));
        } else {
            self.entries.insert(i, (key, value));
            assert(self@ =~= before.insert(i as int, (k, value@)));
        }
    }
}

impl<V: View> Default for KeyMap<V> {
    fn default() -> (m: KeyMap<V>)
        ensures
            m@ == Seq::<Entry<V::V>>::empty(),
    {
        KeyMap::new()
    }
}

} // verus!
