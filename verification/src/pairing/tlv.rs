//! HAP TLV8 encoding used by pair-setup.
//!
//! Each item is `type (1 byte) | length (1 byte) | value`. Values longer than
//! 255 bytes are split into consecutive fragments sharing the same type; on
//! decode, adjacent fragments of the same type are concatenated. HAP never
//! places two distinct items of the same type next to each other, so coalescing
//! adjacent equal types is unambiguous.

use vstd::prelude::*;

use crate::error::Error;
use crate::octets::append_range;

verus! {

/// Maximum bytes carried by a single TLV fragment.
pub const MAX_FRAGMENT: usize = 255;

/// HAP TLV item types (the subset pair-setup uses).
#[derive(Debug, Clone, Copy, PartialEq, Eq, Structural)]
pub enum TlvType {
    Method,
    Identifier,
    Salt,
    PublicKey,
    Proof,
    EncryptedData,
    State,
    Error,
    Signature,
    Flags,
}

/// The wire code of each item type.
pub open spec fn type_code(t: TlvType) -> u8 {
    match t {
        TlvType::Method => 0x00,
        TlvType::Identifier => 0x01,
        TlvType::Salt => 0x02,
        TlvType::PublicKey => 0x03,
        TlvType::Proof => 0x04,
        TlvType::EncryptedData => 0x05,
        TlvType::State => 0x06,
        TlvType::Error => 0x07,
        TlvType::Signature => 0x0a,
        TlvType::Flags => 0x13,
    }
}

impl TlvType {
    /// The byte that identifies this type on the wire.
    pub fn code(self) -> (c: u8)
        ensures
            c == type_code(self),
    {
        match self {
            TlvType::Method => 0x00,
            TlvType::Identifier => 0x01,
            TlvType::Salt => 0x02,
            TlvType::PublicKey => 0x03,
            TlvType::Proof => 0x04,
            TlvType::EncryptedData => 0x05,
            TlvType::State => 0x06,
            TlvType::Error => 0x07,
            TlvType::Signature => 0x0a,
            TlvType::Flags => 0x13,
        }
    }
}

/// An item of a TLV8 collection as the contracts see it: a type byte and a value.
pub type Item = (u8, Seq<u8>);

/// An ordered TLV8 collection.
#[derive(Debug, Clone)]
pub struct Tlv {
    entries: Vec<(u8, Vec<u8>)>,
}

impl View for Tlv {
    type V = Seq<Item>;

    closed spec fn view(&self) -> Seq<Item> {
        self.entries@.map_values(|e: (u8, Vec<u8>)| (e.0, e.1@))
    }
}

/// The first value stored for type byte `t`.
pub open spec fn first_value(items: Seq<Item>, t: u8) -> Option<Seq<u8>>
    decreases items.len(),
{
    if items.len() == 0 {
        None
    } else if items[0].0 == t {
        Some(items[0].1)
    } else {
        first_value(items.drop_first(), t)
    }
}

/// A single-byte value as `u8`.
pub open spec fn single_byte(v: Option<Seq<u8>>) -> Option<u8> {
    match v {
        Some(s) => if s.len() == 1 {
            Some(s[0])
        } else {
            None
        },
        None => None,
    }
}

/// The wire form of one item: fragments of at most 255 bytes, each with its
/// own type and length header; an empty value is one empty fragment.
pub open spec fn encode_value(t: u8, v: Seq<u8>) -> Seq<u8>
    decreases v.len(),
{
    if v.len() <= 255 {
        seq![t, v.len() as u8] + v
    } else {
        seq![t, 255u8] + v.take(255) + encode_value(t, v.skip(255))
    }
}

/// The wire form of a whole collection.
pub open spec fn encode_items(items: Seq<Item>) -> Seq<u8>
    decreases items.len(),
{
    if items.len() == 0 {
        seq![]
    } else {
        encode_items(items.drop_last()) + encode_value(items.last().0, items.last().1)
    }
}

/// Why a byte string is not TLV8.
pub enum TlvFault {
    /// A type byte with no length byte after it.
    TruncatedLength,
    /// A length byte that promises more bytes than remain.
    TruncatedValue,
}

/// The fragments of a byte string, in order, before coalescing.
pub open spec fn fragments(b: Seq<u8>) -> Result<Seq<Item>, TlvFault>
    decreases b.len(),
{
    if b.len() == 0 {
        Ok(seq![])
    } else if b.len() < 2 {
        Err(TlvFault::TruncatedLength)
    } else if 2 + b[1] as int > b.len() {
        Err(TlvFault::TruncatedValue)
    } else {
        match fragments(b.skip(2 + b[1] as int)) {
            Ok(rest) => Ok(seq![(b[0], b.subrange(2, 2 + b[1] as int))] + rest),
            Err(f) => Err(f),
        }
    }
}

/// Adds a fragment to a collection: it extends the last item when the types
/// agree, and becomes a new item otherwise.
pub open spec fn absorb(items: Seq<Item>, t: u8, v: Seq<u8>) -> Seq<Item> {
    if items.len() > 0 && items.last().0 == t {
        items.update(items.len() - 1, (t, items.last().1 + v))
    } else {
        items.push((t, v))
    }
}

/// Concatenates adjacent fragments of the same type.
pub open spec fn coalesce(frags: Seq<Item>) -> Seq<Item>
    decreases frags.len(),
{
    if frags.len() == 0 {
        seq![]
    } else {
        absorb(coalesce(frags.drop_last()), frags.last().0, frags.last().1)
    }
}

/// What decoding a byte string yields.
pub open spec fn decode_items(b: Seq<u8>) -> Result<Seq<Item>, TlvFault> {
    match fragments(b) {
        Ok(frags) => Ok(coalesce(frags)),
        Err(f) => Err(f),
    }
}

/// No two neighbouring items share a type, as HAP guarantees.
pub open spec fn no_adjacent_repeat(items: Seq<Item>) -> bool {
    forall|i: int| 0 <= i < items.len() - 1 ==> #[trigger] items[i].0 != items[i + 1].0
}

/// The error that `decode` reports for a fault.
pub open spec fn fault_message(f: TlvFault) -> Seq<char> {
    match f {
        TlvFault::TruncatedLength => "tlv: truncated length"@,
        TlvFault::TruncatedValue => "tlv: truncated value"@,
    }
}

/// The fragments that `encode_value` lays down for one value, in order.
pub open spec fn value_fragments(t: u8, v: Seq<u8>) -> Seq<Item>
    decreases v.len(),
{
    if v.len() <= 255 {
        seq![(t, v)]
    } else {
        seq![(t, v.take(255))] + value_fragments(t, v.skip(255))
    }
}

/// The fragments that `encode_items` lays down for a collection, in order.
pub open spec fn item_fragments(items: Seq<Item>) -> Seq<Item>
    decreases items.len(),
{
    if items.len() == 0 {
        seq![]
    } else {
        item_fragments(items.drop_last()) + value_fragments(items.last().0, items.last().1)
    }
}

/// Prefixing the fragments of a byte string.
pub open spec fn prepend_fragments(
    pre: Seq<Item>,
    r: Result<Seq<Item>, TlvFault>,
) -> Result<Seq<Item>, TlvFault> {
    match r {
        Ok(x) => Ok(pre + x),
        Err(f) => Err(f),
    }
}

proof fn lemma_fragments_of_value(t: u8, v: Seq<u8>, rest: Seq<u8>)
    ensures
        fragments(encode_value(t, v) + rest) == prepend_fragments(
            value_fragments(t, v),
            fragments(rest),
        ),
    decreases v.len(),
{
    let b = encode_value(t, v) + rest;
    if v.len() <= 255 {
        assert(b[1] == v.len() as u8);
        assert(b.skip(2 + v.len() as int) =~= rest);
        assert(b.subrange(2, 2 + v.len() as int) =~= v);
        match fragments(rest) {
            Ok(x) => assert(seq![(t, v)] + x =~= value_fragments(t, v) + x),
            Err(_) => {},
        }
    } else {
        lemma_fragments_of_value(t, v.skip(255), rest);
        assert(b[1] == 255u8);
        assert(b.skip(257) =~= encode_value(t, v.skip(255)) + rest);
        assert(b.subrange(2, 257) =~= v.take(255));
        match fragments(rest) {
            Ok(x) => assert(seq![(t, v.take(255))] + (value_fragments(t, v.skip(255)) + x)
                =~= value_fragments(t, v) + x),
            Err(_) => {},
        }
    }
}

proof fn lemma_fragments_of_items(items: Seq<Item>, rest: Seq<u8>)
    ensures
        fragments(encode_items(items) + rest) == prepend_fragments(
            item_fragments(items),
            fragments(rest),
        ),
    decreases items.len(),
{
    if items.len() == 0 {
        assert(encode_items(items) + rest =~= rest);
        match fragments(rest) {
            Ok(x) => assert(item_fragments(items) + x =~= x),
            Err(_) => {},
        }
    } else {
        let last = items.last();
        let tail = encode_value(last.0, last.1) + rest;
        lemma_fragments_of_value(last.0, last.1, rest);
        lemma_fragments_of_items(items.drop_last(), tail);
        assert(encode_items(items) + rest =~= encode_items(items.drop_last()) + tail);
        match fragments(rest) {
            Ok(x) => assert(item_fragments(items.drop_last()) + (value_fragments(last.0, last.1)
                + x) =~= item_fragments(items) + x),
            Err(_) => {},
        }
    }
}

proof fn lemma_absorb_twice(c: Seq<Item>, t: u8, a: Seq<u8>, b: Seq<u8>)
    ensures
        absorb(absorb(c, t, a), t, b) == absorb(c, t, a + b),
{
    let c1 = absorb(c, t, a);
    assert(c1.len() > 0 && c1.last().0 == t);
    if c.len() > 0 && c.last().0 == t {
        assert(c.last().1 + a + b =~= c.last().1 + (a + b));
        assert(c1.last().1 == c.last().1 + a);
        assert(absorb(c1, t, b) =~= absorb(c, t, a + b));
    } else {
        assert(c1.last().1 == a);
        assert(absorb(c1, t, b) =~= absorb(c, t, a + b));
    }
}

proof fn lemma_coalesce_value(s: Seq<Item>, t: u8, v: Seq<u8>)
    ensures
        coalesce(s + value_fragments(t, v)) == absorb(coalesce(s), t, v),
    decreases v.len(),
{
    if v.len() <= 255 {
        assert(s + value_fragments(t, v) =~= s.push((t, v)));
        assert(s.push((t, v)).drop_last() =~= s);
    } else {
        let s2 = s.push((t, v.take(255)));
        lemma_coalesce_value(s2, t, v.skip(255));
        assert(s + value_fragments(t, v) =~= s2 + value_fragments(t, v.skip(255)));
        assert(s2.drop_last() =~= s);
        lemma_absorb_twice(coalesce(s), t, v.take(255), v.skip(255));
        assert(v.take(255) + v.skip(255) =~= v);
    }
}

proof fn lemma_coalesce_item_fragments(items: Seq<Item>)
    requires
        no_adjacent_repeat(items),
    ensures
        coalesce(item_fragments(items)) == items,
    decreases items.len(),
{
    if items.len() == 0 {
    } else {
        let init = items.drop_last();
        assert(no_adjacent_repeat(init)) by {
            assert forall|i: int| 0 <= i < init.len() - 1 implies #[trigger] init[i].0 != init[i
                + 1].0 by {
                assert(items[i].0 != items[i + 1].0);
            }
        }
        lemma_coalesce_item_fragments(init);
        lemma_coalesce_value(item_fragments(init), items.last().0, items.last().1);
        if init.len() > 0 {
            assert(items[init.len() - 1].0 != items[init.len() as int].0);
        }
        assert(init.push(items.last()) =~= items);
    }
}

/// Decoding the wire form of a collection gives the collection back, provided
/// no two neighbouring items share a type (HAP never emits such neighbours; two
/// that did would come back as one item holding both values).
pub proof fn lemma_decode_encode(items: Seq<Item>)
    requires
        no_adjacent_repeat(items),
    ensures
        decode_items(encode_items(items)) == Ok::<Seq<Item>, TlvFault>(items),
{
    lemma_fragments_of_items(items, seq![]);
    assert(encode_items(items) + Seq::<u8>::empty() =~= encode_items(items));
    assert(item_fragments(items) + Seq::<Item>::empty() =~= item_fragments(items));
    lemma_coalesce_item_fragments(items);
}

/// How many fragments a value of `n` bytes takes: one for an empty value,
/// else one per started 255 bytes.
pub open spec fn fragment_count(n: nat) -> nat {
    if n == 0 {
        1
    } else {
        ((n + 254) / 255) as nat
    }
}

/// The `k`-th 255-byte chunk of a value (the last one may be shorter).
pub open spec fn chunk(v: Seq<u8>, k: int) -> Seq<u8> {
    v.subrange(
        255 * k,
        if 255 * k + 255 <= v.len() {
            255 * k + 255
        } else {
            v.len() as int
        },
    )
}

/// The wire form of one value: `fragment_count` fragments, the `k`-th holding
/// the `k`-th 255-byte chunk under the value's type; so it takes the value's
/// bytes plus two header bytes per fragment, and a value of exactly 255
/// bytes is one fragment.
pub proof fn lemma_encode_value_layout(t: u8, v: Seq<u8>)
    ensures
        value_fragments(t, v).len() == fragment_count(v.len()),
        forall|k: int| 0 <= k < value_fragments(t, v).len() ==> #[trigger] value_fragments(t, v)[k]
            == (t, chunk(v, k)),
        fragments(encode_value(t, v)) == Ok::<Seq<Item>, TlvFault>(value_fragments(t, v)),
        encode_value(t, v).len() == v.len() + 2 * fragment_count(v.len()),
    decreases v.len(),
{
    lemma_fragments_of_value(t, v, seq![]);
    assert(encode_value(t, v) + Seq::<u8>::empty() =~= encode_value(t, v));
    assert(value_fragments(t, v) + Seq::<Item>::empty() =~= value_fragments(t, v));
    if v.len() <= 255 {
        assert(chunk(v, 0) =~= v);
    } else {
        let w = v.skip(255);
        lemma_encode_value_layout(t, w);
        let vf = value_fragments(t, v);
        assert forall|k: int| 0 <= k < vf.len() implies #[trigger] vf[k] == (t, chunk(v, k)) by {
            if k == 0 {
                assert(chunk(v, 0) =~= v.take(255));
            } else {
                assert(vf[k] == value_fragments(t, w)[k - 1]);
                assert(chunk(w, k - 1) =~= chunk(v, k));
            }
        }
    }
}

/// The total length of the wire form of a collection.
pub open spec fn encoded_len(items: Seq<Item>) -> nat
    decreases items.len(),
{
    if items.len() == 0 {
        0
    } else {
        encoded_len(items.drop_last()) + items.last().1.len() + 2 * fragment_count(
            items.last().1.len(),
        )
    }
}

/// The wire form of a collection is its items' fragments, in order, and
/// its length is that of the values plus two bytes per fragment.
pub proof fn lemma_encode_items_layout(items: Seq<Item>)
    ensures
        fragments(encode_items(items)) == Ok::<Seq<Item>, TlvFault>(item_fragments(items)),
        encode_items(items).len() == encoded_len(items),
    decreases items.len(),
{
    lemma_fragments_of_items(items, seq![]);
    assert(encode_items(items) + Seq::<u8>::empty() =~= encode_items(items));
    assert(item_fragments(items) + Seq::<Item>::empty() =~= item_fragments(items));
    if items.len() > 0 {
        lemma_encode_items_layout(items.drop_last());
        lemma_encode_value_layout(items.last().0, items.last().1);
    }
}

proof fn lemma_coalesce_no_repeat(frags: Seq<Item>)
    ensures
        no_adjacent_repeat(coalesce(frags)),
    decreases frags.len(),
{
    if frags.len() > 0 {
        let c = coalesce(frags.drop_last());
        lemma_coalesce_no_repeat(frags.drop_last());
        let t = frags.last().0;
        let r = coalesce(frags);
        assert(r == absorb(c, t, frags.last().1));
        if c.len() > 0 && c.last().0 == t {
            assert forall|i: int| 0 <= i < r.len() - 1 implies #[trigger] r[i].0 != r[i + 1].0 by {
                assert(r[i].0 == c[i].0);
                assert(r[i + 1].0 == c[i + 1].0);
            }
        } else {
            assert forall|i: int| 0 <= i < r.len() - 1 implies #[trigger] r[i].0 != r[i + 1].0 by {
                assert(r[i] == c[i]);
                if i + 1 < c.len() {
                    assert(r[i + 1] == c[i + 1]);
                }
            }
        }
    }
}

/// What decoding yields: an error exactly when, reading fragments (type,
/// length, value) from the start, one's length byte or value runs past the
/// end; otherwise the fragments in order with each run of neighbours of one
/// type merged into one item, so no two neighbouring items share a type.
pub proof fn lemma_decode_rule(b: Seq<u8>)
    ensures
        (decode_items(b) is Err) == (fragments(b) is Err),
        decode_items(b) matches Ok(items) ==> items == coalesce(fragments(b)->Ok_0)
            && no_adjacent_repeat(items),
{
    match fragments(b) {
        Ok(frags) => lemma_coalesce_no_repeat(frags),
        Err(_) => {},
    }
}

/// Every item type goes on the wire as its HAP code (Method 0, Identifier 1,
/// Salt 2, PublicKey 3, Proof 4, EncryptedData 5, State 6, Error 7,
/// Signature 10, Flags 19), no two types share a code, and a short value put
/// under a type is encoded behind that code and decoded back under it.
pub proof fn lemma_hap_type_codes(t: TlvType, u: TlvType, v: Seq<u8>)
    requires
        v.len() <= 255,
    ensures
        type_code(TlvType::Method) == 0,
        type_code(TlvType::Identifier) == 1,
        type_code(TlvType::Salt) == 2,
        type_code(TlvType::PublicKey) == 3,
        type_code(TlvType::Proof) == 4,
        type_code(TlvType::EncryptedData) == 5,
        type_code(TlvType::State) == 6,
        type_code(TlvType::Error) == 7,
        type_code(TlvType::Signature) == 10,
        type_code(TlvType::Flags) == 19,
        t != u ==> type_code(t) != type_code(u),
        encode_items(seq![(type_code(t), v)]) == seq![type_code(t), v.len() as u8] + v,
        decode_items(seq![type_code(t), v.len() as u8] + v) == Ok::<Seq<Item>, TlvFault>(
            seq![(type_code(t), v)],
        ),
        first_value(seq![(type_code(t), v)], type_code(u)) == (if t == u {
            Some(v)
        } else {
            None::<Seq<u8>>
        }),
{
    let items = seq![(type_code(t), v)];
    assert(items.drop_last() =~= Seq::<Item>::empty());
    assert(items.last() == (type_code(t), v));
    assert(encode_items(Seq::<Item>::empty()) == Seq::<u8>::empty());
    assert(encode_value(type_code(t), v) == seq![type_code(t), v.len() as u8] + v);
    assert(encode_items(items) =~= seq![type_code(t), v.len() as u8] + v);
    lemma_decode_encode(items);
    assert(items.drop_first() =~= Seq::<Item>::empty());
    assert(items[0] == (type_code(t), v));
    assert(first_value(Seq::<Item>::empty(), type_code(u)) is None);
}

/// `get` after `put`: the first value of the type put is unchanged when the
/// collection already held one, and is the new value otherwise; other types
/// are unaffected.
pub proof fn lemma_first_value_after_push(items: Seq<Item>, t: u8, v: Seq<u8>, want: u8)
    ensures
        first_value(items.push((t, v)), want) == (if want == t {
            match first_value(items, want) {
                Some(x) => Some(x),
                None => Some(v),
            }
        } else {
            first_value(items, want)
        }),
    decreases items.len(),
{
    if items.len() == 0 {
        assert(items.push((t, v))[0] == (t, v));
        assert(items.push((t, v)).drop_first() =~= Seq::<Item>::empty());
    } else {
        assert(items.push((t, v))[0] == items[0]);
        assert(items.push((t, v)).drop_first() =~= items.drop_first().push((t, v)));
        lemma_first_value_after_push(items.drop_first(), t, v, want);
    }
}

impl Tlv {
    /// An empty collection.
    pub fn new() -> (t: Tlv)
        ensures
            t@ == Seq::<Item>::empty(),
    {
        let t = Tlv { entries: Vec::new() };
        assert(t@ =~= Seq::<Item>::empty());
        t
    }

    /// Append an item (builder style).
    pub fn put(self, ty: TlvType, value: &[u8]) -> (t: Tlv)
        ensures
            t@ == self@.push((type_code(ty), value@)),
    {
        let mut entries = self.entries;
        let mut v: Vec<u8> = Vec::new();
        append_range(&mut v, value, 0, value.len());
        assert(v@ =~= value@);
        entries.push((ty.code(), v));
        let t = Tlv { entries };
        assert(t@ =~= self@.push((type_code(ty), value@)));
        t
    }

    /// Append a single-byte item (State, Method, ...).
    pub fn put_u8(self, ty: TlvType, value: u8) -> (t: Tlv)
        ensures
            t@ == self@.push((type_code(ty), seq![value])),
    {
        let one = [value];
        assert(one@ =~= seq![value]);
        self.put(ty, &one)
    }

    /// First value stored for `ty`.
    pub fn get(&self, ty: TlvType) -> (r: Option<&[u8]>)
        ensures
            match r {
                Some(s) => first_value(self@, type_code(ty)) == Some(s@),
                None => first_value(self@, type_code(ty)) is None,
            },
    {
        let want = ty.code();
        let mut i: usize = 0;
        assert(self@.skip(0) =~= self@);
        while i < self.entries.len()
            invariant
                0 <= i <= self.entries@.len(),
                want == type_code(ty),
                first_value(self@, want) == first_value(self@.skip(i as int), want),
            decreases self.entries@.len() - i,
        {
            assert(self@.skip(i as int)[0] == self@[i as int]);
            if self.entries[i].0 == want {
                return Some(self.entries[i].1.as_slice());
            }
            assert(self@.skip(i as int).drop_first() =~= self@.skip(i + 1));
            i += 1;
        }
        None
    }

    /// A single-byte item as `u8` (e.g. `State`).
    pub fn get_u8(&self, ty: TlvType) -> (r: Option<u8>)
        ensures
            r == single_byte(first_value(self@, type_code(ty))),
    {
        match self.get(ty) {
            Some(s) => if s.len() == 1 {
                Some(s[0])
            } else {
                None
            },
            None => None,
        }
    }

    /// The device error code, if the peer reported one.
    pub fn error_code(&self) -> (r: Option<u8>)
        ensures
            r == single_byte(first_value(self@, type_code(TlvType::Error))),
    {
        self.get_u8(TlvType::Error)
    }

    /// Serialize to the wire format, fragmenting long values.
    pub fn encode(&self) -> (out: Vec<u8>)
        ensures
            out@ == encode_items(self@),
    {
        let mut out: Vec<u8> = Vec::new();
        let mut i: usize = 0;
        while i < self.entries.len()
            invariant
                0 <= i <= self.entries@.len(),
                out@ == encode_items(self@.take(i as int)),
            decreases self.entries@.len() - i,
        {
            let ty = self.entries[i].0;
            let value = self.entries[i].1.as_slice();
            let ghost before = out@;
            let mut j: usize = 0;
            assert(value@.skip(0) =~= value@);
            while value.len() - j > MAX_FRAGMENT
                invariant
                    j <= value@.len(),
                    out@ + encode_value(ty, value@.skip(j as int)) == before + encode_value(
                        ty,
                        value@,
                    ),
                decreases value@.len() - j,
            {
                let ghost rest = value@.skip(j as int);
                let ghost prev = out@;
                assert(rest.take(255) =~= value@.subrange(j as int, j + 255));
                assert(rest.skip(255) =~= value@.skip(j + 255));
                assert(encode_value(ty, rest) == seq![ty, 255u8] + rest.take(255) + encode_value(
                    ty,
                    rest.skip(255),
                ));
                out.push(ty);
                out.push(255);
                append_range(&mut out, value, j, j + 255);
                assert(out@ + encode_value(ty, value@.skip(j + 255)) =~= prev + encode_value(
                    ty,
                    rest,
                ));
                j += 255;
            }
            let n = value.len() - j;
            let ghost prev = out@;
            let ghost rest = value@.skip(j as int);
            assert(rest =~= value@.subrange(j as int, value@.len() as int));
            assert(encode_value(ty, rest) == seq![ty, n as u8] + rest);
            out.push(ty);
            out.push(n as u8);
            append_range(&mut out, value, j, value.len());
            assert(out@ =~= prev + encode_value(ty, rest));
            assert(self@.take(i + 1).drop_last() =~= self@.take(i as int));
            assert(self@.take(i + 1).last() == (ty, value@));
            i += 1;
        }
        assert(self@.take(self@.len() as int) =~= self@);
        out
    }

    /// Parse the wire format, concatenating adjacent same-type fragments.
    pub fn decode(bytes: &[u8]) -> (r: Result<Tlv, Error>)
        ensures
            match r {
                Ok(t) => decode_items(bytes@) == Ok::<Seq<Item>, TlvFault>(t@),
                Err(e) => decode_items(bytes@) matches Err(f) && e matches Error::Pairing(m)
                    && m@ == fault_message(f),
            },
    {
        let mut entries: Vec<(u8, Vec<u8>)> = Vec::new();
        let ghost mut done: Seq<Item> = seq![];
        let mut i: usize = 0;
        proof {
            assert(bytes@.skip(0) =~= bytes@);
            assert(entries@.map_values(|e: (u8, Vec<u8>)| (e.0, e.1@)) =~= coalesce(done));
            match fragments(bytes@) {
                Ok(rest) => assert(done + rest =~= rest),
                Err(_) => {},
            }
        }
        while i < bytes.len()
            invariant
                0 <= i <= bytes@.len(),
                entries@.map_values(|e: (u8, Vec<u8>)| (e.0, e.1@)) == coalesce(done),
                match fragments(bytes@.skip(i as int)) {
                    Ok(rest) => fragments(bytes@) == Ok::<Seq<Item>, TlvFault>(done + rest),
                    Err(f) => fragments(bytes@) == Err::<Seq<Item>, TlvFault>(f),
                },
            decreases bytes@.len() - i,
        {
            let ghost tail = bytes@.skip(i as int);
            let ty = bytes[i];
            if i + 1 >= bytes.len() {
                return Err(Error::Pairing(String::from_str("tlv: truncated length")));
            }
            let len = bytes[i + 1] as usize;
            let start = i + 2;
            if len > bytes.len() - start {
                return Err(Error::Pairing(String::from_str("tlv: truncated value")));
            }
            let end = start + len;
            assert(tail[0] == ty && tail[1] == len);
            assert(tail.skip(2 + len) =~= bytes@.skip(end as int));
            assert(tail.subrange(2, 2 + len) =~= bytes@.subrange(start as int, end as int));
            let ghost frag = (ty, bytes@.subrange(start as int, end as int));
            let n = entries.len();
            if n > 0 && entries[n - 1].0 == ty {
                let mut last = entries.pop().unwrap();
                append_range(&mut last.1, bytes, start, end);
                entries.push(last);
            } else {
                let mut v: Vec<u8> = Vec::new();
                append_range(&mut v, bytes, start, end);
                entries.push((ty, v));
            }
            proof {
                assert(done.push(frag).drop_last() =~= done);
                let mapped = entries@.map_values(|e: (u8, Vec<u8>)| (e.0, e.1@));
                assert(mapped =~= coalesce(done.push(frag)));
                match fragments(bytes@.skip(end as int)) {
                    Ok(rest) => {
                        assert(done + (seq![frag] + rest) =~= done.push(frag) + rest);
                    },
                    Err(_) => {},
                }
                done = done.push(frag);
            }
            i = end;
        }
        proof {
            assert(bytes@.skip(i as int) =~= Seq::<u8>::empty());
            assert(done + Seq::<Item>::empty() =~= done);
        }
        let t = Tlv { entries };
        Ok(t)
    }
}

impl Default for Tlv {
    fn default() -> (t: Tlv)
        ensures
            t@ == Seq::<Item>::empty(),
    {
        Tlv::new()
    }
}

} // verus!
