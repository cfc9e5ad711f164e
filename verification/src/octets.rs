//! Small verified helpers over byte buffers shared by the wire codecs.

use vstd::prelude::*;

verus! {

/// The two bytes of `v` in network (big-endian) order.
pub open spec fn be16(v: u16) -> Seq<u8> {
    seq![(v / 256) as u8, (v % 256) as u8]
}

/// The value of two bytes read in network (big-endian) order.
pub open spec fn from_be16(hi: u8, lo: u8) -> u16 {
    (hi as int * 256 + lo as int) as u16
}

/// Appends `src[from..to]` to `out`.
pub fn append_range(out: &mut Vec<u8>, src: &[u8], from: usize, to: usize)
    requires
        from <= to <= src@.len(),
    ensures
        final(out)@ == old(out)@ + src@.subrange(from as int, to as int),
{
    let mut k: usize = from;
    while k < to
        invariant
            from <= k <= to <= src@.len(),
            out@ == old(out)@ + src@.subrange(from as int, k as int),
        decreases to - k,
    {
        assert(src@.subrange(from as int, k + 1) =~= src@.subrange(from as int, k as int).push(
            src@[k as int],
        ));
        out.push(src[k]);
        k += 1;
    }
}

/// Appends all of `src` to `out`.
pub fn append_all(out: &mut Vec<u8>, src: &[u8])
    ensures
        final(out)@ == old(out)@ + src@,
{
    append_range(out, src, 0, src.len());
    assert(src@.subrange(0, src@.len() as int) =~= src@);
}

/// A fresh vector holding `src[from..to]`.
pub fn copy_range(src: &[u8], from: usize, to: usize) -> (r: Vec<u8>)
    requires
        from <= to <= src@.len(),
    ensures
        r@ == src@.subrange(from as int, to as int),
{
    let mut r: Vec<u8> = Vec::new();
    append_range(&mut r, src, from, to);
    assert(Seq::<u8>::empty() + src@.subrange(from as int, to as int) =~= src@.subrange(
        from as int,
        to as int,
    ));
    r
}

/// Appends `v` to `out` in network byte order.
pub fn push_be16(out: &mut Vec<u8>, v: u16)
    ensures
        final(out)@ == old(out)@ + be16(v),
{
    out.push((v / 256) as u8);
    out.push((v % 256) as u8);
    assert(out@ =~= old(out)@ + be16(v));
}

/// The first offset at or after `i` that holds byte `b`.
pub open spec fn byte_index(s: Seq<u8>, b: u8, i: int) -> Option<int>
    decreases s.len() - i,
{
    if i < 0 || i >= s.len() {
        None
    } else if s[i] == b {
        Some(i)
    } else {
        byte_index(s, b, i + 1)
    }
}

/// `byte_index` finds the first occurrence of `b` at or after `i`: the byte
/// there is `b` and none before it (from `i` on) is; when it finds nothing,
/// no byte from `i` on is `b`.
pub proof fn lemma_byte_index(s: Seq<u8>, b: u8, i: int)
    requires
        0 <= i,
    ensures
        byte_index(s, b, i) matches Some(k) ==> i <= k < s.len() && s[k] == b && forall|j: int|
            i <= j < k ==> s[j] != b,
        byte_index(s, b, i) is None ==> forall|j: int| i <= j < s.len() ==> s[j] != b,
    decreases s.len() - i,
{
    if i < s.len() && s[i] != b {
        lemma_byte_index(s, b, i + 1);
    }
}

/// The first offset at or after `from` that holds `b`.
pub fn find_byte(s: &[u8], b: u8, from: usize) -> (r: Option<usize>)
    ensures
        match r {
            Some(k) => byte_index(s@, b, from as int) == Some(k as int) && from <= k < s@.len()
                && s@[k as int] == b,
            None => byte_index(s@, b, from as int) is None,
        },
{
    let n = s.len();
    let mut i: usize = from;
    while i < n
        invariant
            n == s@.len(),
            from <= i,
            byte_index(s@, b, from as int) == byte_index(s@, b, i as int),
        decreases s@.len() - i,
    {
        if s[i] == b {
            return Some(i);
        }
        i += 1;
    }
    None
}

} // verus!
