//! Ordered, case-insensitive RTSP header collection.

use vstd::prelude::*;
use vstd::utf8::encode_utf8;

use crate::text::{eq_ignore_ascii_case, str_eq_ignore_ascii_case};

verus! {

/// A header as the contracts see it: its name and its value.
pub type HeaderView = (Seq<char>, Seq<char>);

/// Headers preserve insertion order (some receivers are picky about it) while
/// lookups are case-insensitive per the RTSP/HTTP grammar.
#[derive(Debug, Clone)]
pub struct Headers(Vec<(String, String)>);

impl View for Headers {
    type V = Seq<HeaderView>;

    closed spec fn view(&self) -> Seq<HeaderView> {
        self.0@.map_values(|e: (String, String)| (e.0@, e.1@))
    }
}

/// Header names compare by their UTF-8 bytes, ignoring ASCII case.
pub open spec fn same_name(a: Seq<char>, b: Seq<char>) -> bool {
    eq_ignore_ascii_case(encode_utf8(a), encode_utf8(b))
}

/// The first value whose name matches `name`, ignoring ASCII case.
pub open spec fn lookup(hs: Seq<HeaderView>, name: Seq<char>) -> Option<Seq<char>>
    decreases hs.len(),
{
    if hs.len() == 0 {
        None
    } else if same_name(hs[0].0, name) {
        Some(hs[0].1)
    } else {
        lookup(hs.drop_first(), name)
    }
}

/// Appending a header leaves every existing lookup as it was; a name that
/// had no value before now finds the appended one.
pub proof fn lemma_lookup_after_push(hs: Seq<HeaderView>, h: HeaderView, name: Seq<char>)
    ensures
        lookup(hs.push(h), name) == (match lookup(hs, name) {
            Some(v) => Some(v),
            None => if same_name(h.0, name) {
                Some(h.1)
            } else {
                None
            },
        }),
    decreases hs.len(),
{
    if hs.len() == 0 {
        assert(hs.push(h)[0] == h);
        assert(hs.push(h).drop_first() =~= Seq::<HeaderView>::empty());
    } else {
        assert(hs.push(h)[0] == hs[0]);
        assert(hs.push(h).drop_first() =~= hs.drop_first().push(h));
        lemma_lookup_after_push(hs.drop_first(), h, name);
    }
}

impl Headers {
    /// An empty collection.
    pub fn new() -> (h: Headers)
        ensures
            h@ == Seq::<HeaderView>::empty(),
    {
        let h = Headers(Vec::new());
        assert(h@ =~= Seq::<HeaderView>::empty());
        h
    }

    /// Append a header, keeping order.
    pub fn push(&mut self, name: &str, value: &str)
        ensures
            final(self)@ == old(self)@.push((name@, value@)),
    {
        let ghost before = self@;
        self.0.push((String::from_str(name), String::from_str(value)));
        assert(self@ =~= before.push((name@, value@)));
    }

    /// First value for `name`, compared case-insensitively.
    pub fn get(&self, name: &str) -> (r: Option<&str>)
        ensures
            match r {
                Some(v) => lookup(self@, name@) == Some(v@),
                None => lookup(self@, name@) is None,
            },
    {
        let mut i: usize = 0;
        assert(self@.skip(0) =~= self@);
        while i < self.0.len()
            invariant
                0 <= i <= self@.len(),
                self@.len() == self.0@.len(),
                lookup(self@, name@) == lookup(self@.skip(i as int), name@),
            decreases self@.len() - i,
        {
            assert(self@.skip(i as int)[0] == self@[i as int]);
            if str_eq_ignore_ascii_case(self.0[i].0.as_str(), name) {
                return Some(self.0[i].1.as_str());
            }
            assert(self@.skip(i as int).drop_first() =~= self@.skip(i + 1));
            i += 1;
        }
        None
    }

    /// The headers in order, as name/value pairs.
    pub fn iter(&self) -> (r: &[(String, String)])
        ensures
            r@.map_values(|e: (String, String)| (e.0@, e.1@)) == self@,
    {
        self.0.as_slice()
    }

    /// The number of headers.
    pub fn len(&self) -> (n: usize)
        ensures
            n == self@.len(),
    {
        self.0.len()
    }
}

impl Default for Headers {
    fn default() -> (h: Headers)
        ensures
            h@ == Seq::<HeaderView>::empty(),
    {
        Headers::new()
    }
}

} // verus!
