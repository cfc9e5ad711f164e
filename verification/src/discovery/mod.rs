//! mDNS service discovery for AirPlay receivers.
//!
//! Queries are multicast PTR questions with the unicast-response bit set, so
//! answers come back to an ephemeral port and port 5353 is never bound. This
//! module builds the queries, parses the responses and joins their records
//! into receiver descriptions; the sockets live with the caller.

pub mod parse;
pub mod query;

use vstd::prelude::*;
use vstd::utf8::*;

pub use parse::{parse_message, Rr};
pub use query::build_query;

use crate::keymap::{
    bytes_same, insert_key, keys_sorted, lemma_insert_key, lemma_insert_key_members,
    lemma_lookup_member, lex_lt, lookup, Entry, KeyMap,
};
use crate::text::{lemma_split_at_ascii, string_from_utf8_lossy};
use parse::{message_records, records_view};

verus! {

/// AirPlay 2 control service.
pub const SERVICE_AIRPLAY: &'static str = "_airplay._tcp.local";

/// Legacy RAOP / AirTunes audio service.
pub const SERVICE_RAOP: &'static str = "_raop._tcp.local";

/// An address a receiver's host resolves to.
#[derive(Debug, Clone, Copy, PartialEq, Eq)]
pub enum IpAddress {
    V4([u8; 4]),
    V6([u8; 16]),
}

/// Whether two addresses are the same.
pub fn same_address(a: &IpAddress, b: &IpAddress) -> (r: bool)
    ensures
        r == (*a == *b),
{
    match (a, b) {
        (IpAddress::V4(x), IpAddress::V4(y)) => {
            let same = bytes_same(x, y);
            if same {
                assert(*x =~= *y);
            }
            same
        },
        (IpAddress::V6(x), IpAddress::V6(y)) => {
            let same = bytes_same(x, y);
            if same {
                assert(*x =~= *y);
            }
            same
        },
        _ => false,
    }
}

fn contains_address(list: &Vec<IpAddress>, a: &IpAddress) -> (r: bool)
    ensures
        r == list@.contains(*a),
{
    let mut i: usize = 0;
    while i < list.len()
        invariant
            0 <= i <= list@.len(),
            forall|j: int| 0 <= j < i ==> list@[j] != *a,
        decreases list@.len() - i,
    {
        if same_address(&list[i], a) {
            return true;
        }
        i += 1;
    }
    false
}

fn copy_addresses(list: &Vec<IpAddress>) -> (r: Vec<IpAddress>)
    ensures
        r@ == list@,
{
    let mut r: Vec<IpAddress> = Vec::new();
    let mut i: usize = 0;
    while i < list.len()
        invariant
            0 <= i <= list@.len(),
            r@ == list@.take(i as int),
        decreases list@.len() - i,
    {
        r.push(list[i]);
        assert(r@ =~= list@.take(i + 1));
        i += 1;
    }
    assert(r@ =~= list@);
    r
}

/// A discovered AirPlay receiver.
#[derive(Debug, Clone)]
pub struct ServiceRecord {
    /// Service instance name (the label before the service type).
    pub instance: String,
    /// Target host name (`*.local`).
    pub host: String,
    /// Service port.
    pub port: u16,
    /// Resolved addresses for `host`.
    pub addrs: Vec<IpAddress>,
    /// TXT key/value metadata (`features`, `pk`, `model`, ...), by key.
    pub txt: KeyMap<String>,
}

/// A receiver as the contracts see it.
pub struct ServiceView {
    pub instance: Seq<char>,
    pub host: Seq<char>,
    pub port: u16,
    pub addrs: Seq<IpAddress>,
    pub txt: Seq<Entry<Seq<char>>>,
}

impl View for ServiceRecord {
    type V = ServiceView;

    open spec fn view(&self) -> ServiceView {
        ServiceView {
            instance: self.instance@,
            host: self.host@,
            port: self.port,
            addrs: self.addrs@,
            txt: self.txt@,
        }
    }
}

/// Accumulates records across responses and joins them by instance/host.
pub struct Aggregator {
    ptr: Vec<(String, String)>,
    srv: KeyMap<(u16, String)>,
    txt: KeyMap<Vec<(String, String)>>,
    addrs: KeyMap<Vec<IpAddress>>,
}

/// What an aggregator has collected: the PTR answers (service type,
/// instance) in arrival order, and by key the latest SRV answer per instance
/// (port, host), the latest TXT pairs per instance and the distinct
/// addresses per host in arrival order.
pub struct AggregatorView {
    pub ptr: Seq<(Seq<char>, Seq<char>)>,
    pub srv: Seq<Entry<(u16, Seq<char>)>>,
    pub txt: Seq<Entry<Seq<(String, String)>>>,
    pub addrs: Seq<Entry<Seq<IpAddress>>>,
}

impl View for Aggregator {
    type V = AggregatorView;

    closed spec fn view(&self) -> AggregatorView {
        AggregatorView {
            ptr: self.ptr@.map_values(|e: (String, String)| (e.0@, e.1@)),
            srv: self.srv@,
            txt: self.txt@,
            addrs: self.addrs@,
        }
    }
}

/// The addresses after `a` is seen for `host`: appended unless already known.
pub open spec fn with_address(
    m: Seq<Entry<Seq<IpAddress>>>,
    host: Seq<u8>,
    a: IpAddress,
) -> Seq<Entry<Seq<IpAddress>>> {
    let list = match lookup(m, host) {
        Some(l) => l,
        None => seq![],
    };
    insert_key(
        m,
        host,
        if list.contains(a) {
            list
        } else {
            list.push(a)
        },
    )
}

/// The collection after one more record.
pub open spec fn ingest_one(v: AggregatorView, r: Rr) -> AggregatorView {
    match r {
        Rr::Ptr { name, target } => AggregatorView {
            ptr: v.ptr.push((name@, target@)),
            srv: v.srv,
            txt: v.txt,
            addrs: v.addrs,
        },
        Rr::Srv { name, port, target } => AggregatorView {
            ptr: v.ptr,
            srv: insert_key(v.srv, encode_utf8(name@), (port, target@)),
            txt: v.txt,
            addrs: v.addrs,
        },
        Rr::Txt { name, pairs } => AggregatorView {
            ptr: v.ptr,
            srv: v.srv,
            txt: insert_key(v.txt, encode_utf8(name@), pairs@),
            addrs: v.addrs,
        },
        Rr::A { name, addr } => AggregatorView {
            ptr: v.ptr,
            srv: v.srv,
            txt: v.txt,
            addrs: with_address(v.addrs, encode_utf8(name@), IpAddress::V4(addr)),
        },
        Rr::Aaaa { name, addr } => AggregatorView {
            ptr: v.ptr,
            srv: v.srv,
            txt: v.txt,
            addrs: with_address(v.addrs, encode_utf8(name@), IpAddress::V6(addr)),
        },
    }
}

/// The collection after records, in order.
pub open spec fn ingest_all(v: AggregatorView, rs: Seq<Rr>) -> AggregatorView
    decreases rs.len(),
{
    if rs.len() == 0 {
        v
    } else {
        ingest_one(ingest_all(v, rs.drop_last()), rs.last())
    }
}

/// No address appears twice in a list.
pub open spec fn distinct(l: Seq<IpAddress>) -> bool {
    forall|a: int, b: int| 0 <= a < b < l.len() ==> l[a] != l[b]
}

/// Every host's address list is free of repeats.
pub open spec fn addresses_distinct(v: AggregatorView) -> bool {
    forall|i: int| 0 <= i < v.addrs.len() ==> distinct(#[trigger] v.addrs[i].1)
}

proof fn lemma_with_address_distinct(m: Seq<Entry<Seq<IpAddress>>>, host: Seq<u8>, a: IpAddress)
    requires
        forall|i: int| 0 <= i < m.len() ==> distinct(#[trigger] m[i].1),
    ensures
        forall|i: int|
            0 <= i < with_address(m, host, a).len() ==> distinct(
                #[trigger] with_address(m, host, a)[i].1,
            ),
{
    let list = match lookup(m, host) {
        Some(l) => l,
        None => seq![],
    };
    lemma_lookup_member(m, host);
    if lookup(m, host) is Some {
        let j = choose|j: int| 0 <= j < m.len() && #[trigger] m[j] == (host, list);
        assert(distinct(m[j].1));
    }
    let nl = if list.contains(a) {
        list
    } else {
        list.push(a)
    };
    assert(distinct(nl)) by {
        if !list.contains(a) {
            assert forall|x: int, y: int| 0 <= x < y < nl.len() implies nl[x] != nl[y] by {
                if y == list.len() {
                    assert(list[x] == nl[x]);
                }
            }
        }
    }
    lemma_insert_key_members(m, host, nl);
    let r = with_address(m, host, a);
    assert forall|i: int| 0 <= i < r.len() implies distinct(#[trigger] r[i].1) by {
        if r[i] != (host, nl) {
            let k = choose|k: int| 0 <= k < m.len() && m[k] == r[i];
            assert(distinct(m[k].1));
        }
    }
}

/// Repeated responses re-announce the same addresses: whatever records come
/// in, no host ever lists an address twice.
pub proof fn lemma_ingest_keeps_addresses_distinct(v: AggregatorView, rs: Seq<Rr>)
    requires
        addresses_distinct(v),
    ensures
        addresses_distinct(ingest_all(v, rs)),
    decreases rs.len(),
{
    if rs.len() > 0 {
        lemma_ingest_keeps_addresses_distinct(v, rs.drop_last());
        let w = ingest_all(v, rs.drop_last());
        match rs.last() {
            Rr::A { name, addr } => {
                lemma_with_address_distinct(w.addrs, encode_utf8(name@), IpAddress::V4(addr));
            },
            Rr::Aaaa { name, addr } => {
                lemma_with_address_distinct(w.addrs, encode_utf8(name@), IpAddress::V6(addr));
            },
            _ => {},
        }
    }
}

/// The aggregator's maps hold their keys in order, one entry per key.
pub open spec fn maps_sorted(v: AggregatorView) -> bool {
    keys_sorted(v.srv) && keys_sorted(v.txt) && keys_sorted(v.addrs)
}

/// The port and host of the last SRV record for instance `k` among `rs`.
pub open spec fn last_srv(rs: Seq<Rr>, k: Seq<u8>) -> Option<(u16, Seq<char>)>
    decreases rs.len(),
{
    if rs.len() == 0 {
        None
    } else {
        match rs.last() {
            Rr::Srv { name, port, target } => if encode_utf8(name@) == k {
                Some((port, target@))
            } else {
                last_srv(rs.drop_last(), k)
            },
            _ => last_srv(rs.drop_last(), k),
        }
    }
}

/// The pairs of the last TXT record for instance `k` among `rs`.
pub open spec fn last_txt(rs: Seq<Rr>, k: Seq<u8>) -> Option<Seq<(String, String)>>
    decreases rs.len(),
{
    if rs.len() == 0 {
        None
    } else {
        match rs.last() {
            Rr::Txt { name, pairs } => if encode_utf8(name@) == k {
                Some(pairs@)
            } else {
                last_txt(rs.drop_last(), k)
            },
            _ => last_txt(rs.drop_last(), k),
        }
    }
}

/// Records arriving keep the maps in key order, and for each instance the
/// last SRV record and the last TXT record win over earlier ones.
pub proof fn lemma_ingest_keeps_latest(v: AggregatorView, rs: Seq<Rr>, k: Seq<u8>)
    requires
        maps_sorted(v),
    ensures
        maps_sorted(ingest_all(v, rs)),
        lookup(ingest_all(v, rs).srv, k) == match last_srv(rs, k) {
            Some(x) => Some(x),
            None => lookup(v.srv, k),
        },
        lookup(ingest_all(v, rs).txt, k) == match last_txt(rs, k) {
            Some(x) => Some(x),
            None => lookup(v.txt, k),
        },
    decreases rs.len(),
{
    if rs.len() > 0 {
        lemma_ingest_keeps_latest(v, rs.drop_last(), k);
        let w = ingest_all(v, rs.drop_last());
        match rs.last() {
            Rr::Srv { name, port, target } => {
                lemma_insert_key(w.srv, encode_utf8(name@), (port, target@), k);
            },
            Rr::Txt { name, pairs } => {
                lemma_insert_key(w.txt, encode_utf8(name@), pairs@, k);
            },
            Rr::A { name, addr } => {
                let l = match lookup(w.addrs, encode_utf8(name@)) {
                    Some(l) => l,
                    None => seq![],
                };
                let a = IpAddress::V4(addr);
                lemma_insert_key(
                    w.addrs,
                    encode_utf8(name@),
                    if l.contains(a) {
                        l
                    } else {
                        l.push(a)
                    },
                    k,
                );
            },
            Rr::Aaaa { name, addr } => {
                let l = match lookup(w.addrs, encode_utf8(name@)) {
                    Some(l) => l,
                    None => seq![],
                };
                let a = IpAddress::V6(addr);
                lemma_insert_key(
                    w.addrs,
                    encode_utf8(name@),
                    if l.contains(a) {
                        l
                    } else {
                        l.push(a)
                    },
                    k,
                );
            },
            Rr::Ptr { .. } => {},
        }
    }
}

/// The SRV entries among `srv` (in their order) whose instance belongs to
/// the browse.
pub open spec fn matching_srv(
    v: AggregatorView,
    services: Seq<Seq<u8>>,
    srv: Seq<Entry<(u16, Seq<char>)>>,
) -> Seq<Entry<(u16, Seq<char>)>>
    decreases srv.len(),
{
    if srv.len() == 0 {
        seq![]
    } else {
        let rest = matching_srv(v, services, srv.drop_last());
        if instance_matches_spec(v, decode_utf8(srv.last().0), services) {
            rest.push(srv.last())
        } else {
            rest
        }
    }
}

/// The receiver of one SRV entry.
pub open spec fn receiver_of(v: AggregatorView, e: Entry<(u16, Seq<char>)>) -> ServiceView {
    service_of(v, decode_utf8(e.0), e.1.0, e.1.1)
}

proof fn lemma_matching_srv(v: AggregatorView, services: Seq<Seq<u8>>, s: Seq<Entry<(u16, Seq<char>)>>)
    requires
        keys_sorted(s),
    ensures
        services_from(v, services, s) == matching_srv(v, services, s).map_values(
            |e: Entry<(u16, Seq<char>)>| receiver_of(v, e),
        ),
        keys_sorted(matching_srv(v, services, s)),
        forall|a: int|
            0 <= a < matching_srv(v, services, s).len() ==> exists|b: int|
                0 <= b < s.len() && #[trigger] matching_srv(v, services, s)[a] == s[b],
        forall|a: int|
            0 <= a < matching_srv(v, services, s).len() ==> instance_matches_spec(
                v,
                decode_utf8(#[trigger] matching_srv(v, services, s)[a].0),
                services,
            ),
    decreases s.len(),
{
    if s.len() > 0 {
        let init = s.drop_last();
        assert(keys_sorted(init)) by {
            assert forall|i: int, j: int| 0 <= i < j < init.len() implies lex_lt(
                #[trigger] init[i].0,
                #[trigger] init[j].0,
            ) by {
                assert(s[i] == init[i] && s[j] == init[j]);
            }
        }
        lemma_matching_srv(v, services, init);
        let m0 = matching_srv(v, services, init);
        let m = matching_srv(v, services, s);
        let e = s.last();
        if instance_matches_spec(v, decode_utf8(e.0), services) {
            assert(m == m0.push(e));
            assert(m.map_values(|x: Entry<(u16, Seq<char>)>| receiver_of(v, x)) =~= m0.map_values(
                |x: Entry<(u16, Seq<char>)>| receiver_of(v, x),
            ).push(receiver_of(v, e)));
            assert forall|a: int, b: int| 0 <= a < b < m.len() implies lex_lt(
                #[trigger] m[a].0,
                #[trigger] m[b].0,
            ) by {
                if b == m0.len() {
                    assert(m[a] == m0[a]);
                    let c = choose|c: int| 0 <= c < init.len() && #[trigger] m0[a] == init[c];
                    assert(s[c] == init[c]);
                    assert(lex_lt(s[c].0, s[s.len() - 1].0));
                } else {
                    assert(m[a] == m0[a] && m[b] == m0[b]);
                }
            }
            assert forall|a: int| 0 <= a < m.len() implies exists|b: int|
                0 <= b < s.len() && #[trigger] m[a] == s[b] by {
                if a == m0.len() {
                    assert(m[a] == s[s.len() - 1]);
                } else {
                    assert(m[a] == m0[a]);
                    let c = choose|c: int| 0 <= c < init.len() && #[trigger] m0[a] == init[c];
                    assert(s[c] == init[c]);
                }
            }
            assert forall|a: int| 0 <= a < m.len() implies instance_matches_spec(
                v,
                decode_utf8(#[trigger] m[a].0),
                services,
            ) by {
                if a < m0.len() {
                    assert(m[a] == m0[a]);
                }
            }
        } else {
            assert(m == m0);
            assert forall|a: int| 0 <= a < m.len() implies exists|b: int|
                0 <= b < s.len() && #[trigger] m[a] == s[b] by {
                let c = choose|c: int| 0 <= c < init.len() && #[trigger] m0[a] == init[c];
                assert(s[c] == init[c]);
            }
        }
    }
}

/// An instance belongs to the browse when its name ends, after a dot, with
/// any one of the browsed service names (whichever place it has in the
/// list), or when a PTR answer pointed at it.
pub proof fn lemma_any_browsed_service_matches(
    v: AggregatorView,
    inst: Seq<char>,
    services: Seq<Seq<u8>>,
    i: int,
)
    ensures
        ({
            let b = encode_utf8(inst);
            &&& 0 <= i < services.len()
            &&& b.len() > services[i].len()
            &&& b[b.len() - services[i].len() - 1] == 46
            &&& b.skip(b.len() - services[i].len()) == services[i]
        }) ==> instance_matches_spec(v, inst, services),
        (0 <= i < v.ptr.len() && v.ptr[i].1 == inst) ==> instance_matches_spec(v, inst, services),
{
    let b = encode_utf8(inst);
    if 0 <= i < services.len() && b.len() > services[i].len() && b[b.len() - services[i].len()
        - 1] == 46 && b.skip(b.len() - services[i].len()) == services[i] {
        let sv = services[i];
        assert(b.subrange(b.len() - sv.len() - 1, b.len() as int) =~= seq![46u8] + sv) by {
            assert forall|k: int| 0 <= k < sv.len() + 1 implies b.subrange(
                b.len() - sv.len() - 1,
                b.len() as int,
            )[k] == (seq![46u8] + sv)[k] by {
                if k > 0 {
                    assert(b.skip(b.len() - sv.len())[k - 1] == b[b.len() - sv.len() - 1 + k]);
                }
            }
        }
        assert(has_service_suffix(b, services[i]));
    }
}

proof fn lemma_matching_contains(
    v: AggregatorView,
    services: Seq<Seq<u8>>,
    s: Seq<Entry<(u16, Seq<char>)>>,
    b: int,
)
    requires
        0 <= b < s.len(),
        instance_matches_spec(v, decode_utf8(s[b].0), services),
    ensures
        exists|a: int|
            0 <= a < matching_srv(v, services, s).len() && #[trigger] matching_srv(v, services, s)[a]
                == s[b],
    decreases s.len(),
{
    let init = s.drop_last();
    let m0 = matching_srv(v, services, init);
    let m = matching_srv(v, services, s);
    if b == s.len() - 1 {
        assert(m == m0.push(s[b]));
        assert(m[m0.len() as int] == s[b]);
    } else {
        assert(init[b] == s[b]);
        lemma_matching_contains(v, services, init, b);
        let a = choose|a: int| 0 <= a < m0.len() && #[trigger] m0[a] == init[b];
        if instance_matches_spec(v, decode_utf8(s.last().0), services) {
            assert(m == m0.push(s.last()));
        } else {
            assert(m == m0);
        }
        assert(m[a] == s[b]);
    }
}

/// Every SRV entry whose instance belongs to the browse (its name ends, after
/// a dot, with any of the browsed service names, or a PTR answer pointed at
/// it) gives its receiver in what `finish` returns.
pub proof fn lemma_finish_keeps_every_browsed_instance(
    v: AggregatorView,
    services: Seq<Seq<u8>>,
    b: int,
    i: int,
)
    requires
        maps_sorted(v),
        0 <= b < v.srv.len(),
        ({
            let n = encode_utf8(decode_utf8(v.srv[b].0));
            ||| (0 <= i < services.len() && n.len() > services[i].len() && n[n.len()
                - services[i].len() - 1] == 46 && n.skip(n.len() - services[i].len()) == services[i])
            ||| (0 <= i < v.ptr.len() && v.ptr[i].1 == decode_utf8(v.srv[b].0))
        }),
    ensures
        exists|a: int|
            0 <= a < finished(v, services).len() && #[trigger] finished(v, services)[a]
                == service_of(v, decode_utf8(v.srv[b].0), v.srv[b].1.0, v.srv[b].1.1),
{
    lemma_any_browsed_service_matches(v, decode_utf8(v.srv[b].0), services, i);
    lemma_matching_contains(v, services, v.srv, b);
    lemma_finished_in_instance_order(v, services);
    let m = matching_srv(v, services, v.srv);
    let a = choose|a: int| 0 <= a < m.len() && #[trigger] m[a] == v.srv[b];
    assert(finished(v, services)[a] == receiver_of(v, m[a]));
}

/// What `finish` returns: one receiver per SRV entry whose instance belongs
/// to the browse, in strictly ascending order of the instance name (so no
/// instance twice), each entry one the aggregator holds.
pub proof fn lemma_finished_in_instance_order(v: AggregatorView, services: Seq<Seq<u8>>)
    requires
        maps_sorted(v),
    ensures
        finished(v, services) == matching_srv(v, services, v.srv).map_values(
            |e: Entry<(u16, Seq<char>)>| receiver_of(v, e),
        ),
        keys_sorted(matching_srv(v, services, v.srv)),
        forall|a: int|
            0 <= a < matching_srv(v, services, v.srv).len() ==> exists|b: int|
                0 <= b < v.srv.len() && #[trigger] matching_srv(v, services, v.srv)[a] == v.srv[b],
        forall|a: int|
            0 <= a < matching_srv(v, services, v.srv).len() ==> instance_matches_spec(
                v,
                decode_utf8(#[trigger] matching_srv(v, services, v.srv)[a].0),
                services,
            ),
{
    lemma_matching_srv(v, services, v.srv);
}

impl Aggregator {
    /// Nothing collected yet.
    pub fn new() -> (a: Aggregator)
        ensures
            a@.ptr == Seq::<(Seq<char>, Seq<char>)>::empty(),
            a@.srv == Seq::<Entry<(u16, Seq<char>)>>::empty(),
            a@.txt == Seq::<Entry<Seq<(String, String)>>>::empty(),
            a@.addrs == Seq::<Entry<Seq<IpAddress>>>::empty(),
    {
        let a = Aggregator {
            ptr: Vec::new(),
            srv: KeyMap::new(),
            txt: KeyMap::new(),
            addrs: KeyMap::new(),
        };
        assert(a@.ptr =~= Seq::<(Seq<char>, Seq<char>)>::empty());
        a
    }

    /// The addresses collected for `host`.
    pub fn addrs_for(&self, host: &str) -> (r: Option<&Vec<IpAddress>>)
        ensures
            match r {
                Some(l) => lookup(self@.addrs, encode_utf8(host@)) == Some(l@),
                None => lookup(self@.addrs, encode_utf8(host@)) is None,
            },
    {
        self.addrs.get(host)
    }

    fn add_addr(&mut self, host: String, addr: IpAddress)
        ensures
            final(self)@ == (AggregatorView {
                addrs: with_address(old(self)@.addrs, encode_utf8(host@), addr),
                ..old(self)@
            }),
    {
        // Repeated responses re-announce the same addresses; keep them unique.
        let mut list = match self.addrs.get(host.as_str()) {
            Some(l) => copy_addresses(l),
            None => Vec::new(),
        };
        if !contains_address(&list, &addr) {
            list.push(addr);
        }
        self.addrs.insert(host, list);
    }

    /// Whether an instance belongs to the browse for `services`.
    pub fn instance_matches(&self, instance: &str, services: &[&str]) -> (r: bool)
        ensures
            r == instance_matches_spec(self@, instance@, crate::discovery::query::name_bytes(
                services@,
            )),
    {
        // Require the label boundary so `x_airplay._tcp.local` does not match
        // `_airplay._tcp.local`.
        let ghost names = crate::discovery::query::name_bytes(services@);
        let inst = instance.as_bytes();
        let mut i: usize = 0;
        while i < services.len()
            invariant
                0 <= i <= services@.len(),
                names == crate::discovery::query::name_bytes(services@),
                inst@ == encode_utf8(instance@),
                forall|j: int| 0 <= j < i ==> !has_service_suffix(inst@, #[trigger] names[j]),
            decreases services@.len() - i,
        {
            if ends_with_service(inst, services[i].as_bytes()) {
                assert(names[i as int] == encode_utf8(services@[i as int]@));
                return true;
            }
            i += 1;
        }
        let mut j: usize = 0;
        while j < self.ptr.len()
            invariant
                0 <= j <= self.ptr@.len(),
                inst@ == encode_utf8(instance@),
                forall|k: int| 0 <= k < j ==> #[trigger] self@.ptr[k].1 != instance@,
                forall|k: int| 0 <= k < names.len() ==> !has_service_suffix(inst@, #[trigger] names[k]),
                names == crate::discovery::query::name_bytes(services@),
            decreases self.ptr@.len() - j,
        {
            let same = bytes_same(self.ptr[j].1.as_str().as_bytes(), inst);
            proof {
                encode_utf8_decode_utf8(self.ptr@[j as int].1@);
                encode_utf8_decode_utf8(instance@);
                assert(self@.ptr[j as int].1 == self.ptr@[j as int].1@);
            }
            if same {
                return true;
            }
            j += 1;
        }
        false
    }

    /// The receivers collected for `services`: one per SRV answer whose
    /// instance belongs to the browse, in instance order.
    pub fn finish(self, services: &[&str]) -> (out: Vec<ServiceRecord>)
        ensures
            out@.map_values(|r: ServiceRecord| r@) == finished(
                self@,
                crate::discovery::query::name_bytes(services@),
            ),
    {
        let ghost v = self@;
        let ghost names = crate::discovery::query::name_bytes(services@);
        let entries = self.srv.entries();
        let mut out: Vec<ServiceRecord> = Vec::new();
        let mut i: usize = 0;
        assert(v.srv.take(0) =~= Seq::<Entry<(u16, Seq<char>)>>::empty());
        assert(out@.map_values(|r: ServiceRecord| r@) =~= Seq::<ServiceView>::empty());
        while i < entries.len()
            invariant
                0 <= i <= entries@.len(),
                v == self@,
                names == crate::discovery::query::name_bytes(services@),
                entries@.map_values(|e: (String, (u16, String))| (encode_utf8(e.0@), e.1@))
                    == v.srv,
                out@.map_values(|r: ServiceRecord| r@) == services_from(
                    v,
                    names,
                    v.srv.take(i as int),
                ),
            decreases entries@.len() - i,
        {
            let instance = &entries[i].0;
            let port = entries[i].1.0;
            let host = &entries[i].1.1;
            proof {
                assert(v.srv.take(i + 1).drop_last() =~= v.srv.take(i as int));
                assert(v.srv.take(i + 1).last() == v.srv[i as int]);
                assert(v.srv[i as int] == (encode_utf8(instance@), (port, host@)));
                encode_utf8_decode_utf8(instance@);
            }
            let ghost before = out@.map_values(|r: ServiceRecord| r@);
            if self.instance_matches(instance.as_str(), services) {
                let addrs = match self.addrs.get(host.as_str()) {
                    Some(l) => copy_addresses(l),
                    None => Vec::new(),
                };
                let txt = match self.txt.get(instance.as_str()) {
                    Some(pairs) => txt_from_pairs(pairs),
                    None => KeyMap::new(),
                };
                let record = ServiceRecord {
                    instance: instance_label(instance.as_str()),
                    host: host.clone(),
                    port,
                    addrs,
                    txt,
                };
                out.push(record);
                assert(out@.map_values(|r: ServiceRecord| r@) =~= before.push(record@));
            }
            i += 1;
        }
        assert(v.srv.take(entries@.len() as int) =~= v.srv);
        out
    }

    /// Take in the records of one response, in order.
    pub fn ingest(&mut self, records: Vec<Rr>)
        ensures
            final(self)@ == ingest_all(old(self)@, records@),
    {
        let mut rest = records;
        let mut pending: Vec<Rr> = Vec::new();
        let ghost rs = rest@;
        while rest.len() > 0
            invariant
                rest@ + pending@.reverse() == rs,
            decreases rest@.len(),
        {
            let r = rest.pop().unwrap();
            pending.push(r);
            assert(rest@ + pending@.reverse() =~= rs);
        }
        assert(pending@.reverse() =~= rs);
        let ghost start = self@;
        let ghost mut done: Seq<Rr> = seq![];
        while pending.len() > 0
            invariant
                done + pending@.reverse() == rs,
                self@ == ingest_all(start, done),
            decreases pending@.len(),
        {
            let r = pending.pop().unwrap();
            proof {
                assert(done.push(r) + pending@.reverse() =~= rs);
                assert(done.push(r).drop_last() =~= done);
                done = done.push(r);
            }
            match r {
                Rr::Ptr { name, target } => {
                    let ghost before = self@;
                    self.ptr.push((name, target));
                    assert(self@.ptr =~= before.ptr.push((name@, target@)));
                },
                Rr::Srv { name, port, target } => {
                    self.srv.insert(name, (port, target));
                },
                Rr::Txt { name, pairs } => {
                    self.txt.insert(name, pairs);
                },
                Rr::A { name, addr } => {
                    self.add_addr(name, IpAddress::V4(addr));
                },
                Rr::Aaaa { name, addr } => {
                    self.add_addr(name, IpAddress::V6(addr));
                },
            }
        }
        assert(done =~= rs);
    }

    /// Take in one received datagram: the records of a response that parses,
    /// in order; a datagram that does not parse as a DNS message is ignored.
    pub fn ingest_datagram(&mut self, data: &[u8])
        ensures
            message_records(data@) is Err ==> final(self)@ == old(self)@,
            message_records(data@) matches Ok(w) ==> exists|rs: Seq<Rr>|
                #[trigger] records_view(rs) == w && final(self)@ == ingest_all(old(self)@, rs),
    {
        match parse_message(data) {
            Ok(records) => {
                let ghost rs = records@;
                self.ingest(records);
                assert(records_view(rs) == message_records(data@)->Ok_0);
            },
            Err(_) => {},
        }
    }
}

/// `._tcp.local`, the end of every DNS-SD service type this crate browses.
pub open spec fn tcp_local_suffix() -> Seq<u8> {
    seq![46u8, 95, 116, 99, 112, 46, 108, 111, 99, 97, 108]
}

/// The last offset before `i` that holds a dot.
pub open spec fn last_dot_before(b: Seq<u8>, i: int) -> Option<int>
    decreases i,
{
    if i <= 0 || i > b.len() {
        None
    } else if b[i - 1] == 46 {
        Some(i - 1)
    } else {
        last_dot_before(b, i - 1)
    }
}

/// Where the trailing `._service._tcp.local` of an instance name starts: the
/// name ends with `._tcp.local`, and the label before that begins with `_`
/// and follows a dot.
pub open spec fn service_cut(b: Seq<u8>) -> Option<int> {
    if b.len() >= 11 && b.skip(b.len() - 11) == tcp_local_suffix() {
        let rest = b.len() - 11;
        match last_dot_before(b, rest) {
            Some(d) => if d + 1 < rest && b[d + 1] == 95 {
                Some(d)
            } else {
                None
            },
            None => None,
        }
    } else {
        None
    }
}

/// An instance name without its trailing `._service._tcp.local`; a name
/// without that suffix is kept whole. Only the service part goes: the
/// instance's own label may itself hold `._`.
pub open spec fn instance_label_of(inst: Seq<char>) -> Seq<char> {
    let b = encode_utf8(inst);
    match service_cut(b) {
        Some(d) => decode_utf8(b.take(d)),
        None => inst,
    }
}

/// Strip the trailing `._service._tcp.local` from an instance name.
pub fn instance_label(instance: &str) -> (r: String)
    ensures
        r@ == instance_label_of(instance@),
{
    let b = instance.as_bytes();
    let n = b.len();
    if n < 11 {
        return String::from_str(instance);
    }
    let rest = n - 11;
    let suffix = vec![46u8, 95, 116, 99, 112, 46, 108, 111, 99, 97, 108];
    assert(suffix@ =~= tcp_local_suffix());
    let tail = vstd::slice::slice_subrange(b, rest, n);
    assert(tail@ =~= b@.skip(rest as int));
    if !bytes_same(tail, suffix.as_slice()) {
        return String::from_str(instance);
    }
    let mut i: usize = rest;
    while i > 0 && b[i - 1] != 46
        invariant
            n == b@.len(),
            i <= rest < n,
            last_dot_before(b@, rest as int) == last_dot_before(b@, i as int),
        decreases i,
    {
        i -= 1;
    }
    if i == 0 {
        return String::from_str(instance);
    }
    let d = i - 1;
    if !(d + 1 < rest && b[d + 1] == 95) {
        return String::from_str(instance);
    }
    proof {
        encode_utf8_valid_utf8(instance@);
        lemma_split_at_ascii(b@, d as int);
    }
    let head = vstd::slice::slice_subrange(b, 0, d);
    assert(head@ =~= b@.take(d as int));
    string_from_utf8_lossy(head)
}

/// `inst` ends with `.` followed by the service name.
pub open spec fn has_service_suffix(inst: Seq<u8>, service: Seq<u8>) -> bool {
    inst.len() >= service.len() + 1 && inst.subrange(
        inst.len() - service.len() - 1,
        inst.len() as int,
    ) == seq![46u8] + service
}

/// An instance belongs to the browse: it ends, at a label boundary, with one
/// of the service names, or a PTR answer pointed at it.
pub open spec fn instance_matches_spec(
    v: AggregatorView,
    inst: Seq<char>,
    services: Seq<Seq<u8>>,
) -> bool {
    (exists|i: int| 0 <= i < services.len() && has_service_suffix(encode_utf8(inst), #[trigger] services[i]))
        || (exists|j: int| 0 <= j < v.ptr.len() && #[trigger] v.ptr[j].1 == inst)
}

fn ends_with_service(inst: &[u8], service: &[u8]) -> (r: bool)
    ensures
        r == has_service_suffix(inst@, service@),
{
    let n = inst.len();
    let m = service.len();
    if m >= n {
        return false;
    }
    let start = n - m - 1;
    if inst[start] != 46 {
        assert(inst@.subrange(start as int, n as int)[0] != (seq![46u8] + service@)[0]);
        return false;
    }
    let tail = vstd::slice::slice_subrange(inst, start + 1, n);
    let same = bytes_same(tail, service);
    if same {
        assert(inst@.subrange(start as int, n as int) =~= seq![46u8] + service@);
    } else {
        proof {
            if has_service_suffix(inst@, service@) {
                assert(tail@ =~= inst@.subrange(start as int, n as int).skip(1));
                assert((seq![46u8] + service@).skip(1) =~= service@);
            }
        }
    }
    same
}

/// The TXT pairs of an instance as a map: later keys replace earlier ones.
pub open spec fn txt_map(pairs: Seq<(String, String)>) -> Seq<Entry<Seq<char>>>
    decreases pairs.len(),
{
    if pairs.len() == 0 {
        seq![]
    } else {
        insert_key(
            txt_map(pairs.drop_last()),
            encode_utf8(pairs.last().0@),
            pairs.last().1@,
        )
    }
}

fn txt_from_pairs(pairs: &Vec<(String, String)>) -> (m: KeyMap<String>)
    ensures
        m@ == txt_map(pairs@),
{
    let mut m: KeyMap<String> = KeyMap::new();
    let mut i: usize = 0;
    assert(pairs@.take(0) =~= Seq::<(String, String)>::empty());
    while i < pairs.len()
        invariant
            0 <= i <= pairs@.len(),
            m@ == txt_map(pairs@.take(i as int)),
        decreases pairs@.len() - i,
    {
        assert(pairs@.take(i + 1).drop_last() =~= pairs@.take(i as int));
        let k = pairs[i].0.clone();
        let v = pairs[i].1.clone();
        m.insert(k, v);
        i += 1;
    }
    assert(pairs@.take(pairs@.len() as int) =~= pairs@);
    m
}

/// The receiver an SRV entry describes, joined with the host's addresses
/// and the instance's TXT pairs.
pub open spec fn service_of(
    v: AggregatorView,
    inst: Seq<char>,
    port: u16,
    host: Seq<char>,
) -> ServiceView {
    ServiceView {
        instance: instance_label_of(inst),
        host,
        port,
        addrs: match lookup(v.addrs, encode_utf8(host)) {
            Some(l) => l,
            None => seq![],
        },
        txt: match lookup(v.txt, encode_utf8(inst)) {
            Some(p) => txt_map(p),
            None => seq![],
        },
    }
}

/// The receivers of the SRV entries `srv` (in their order) that belong to
/// the browse.
pub open spec fn services_from(
    v: AggregatorView,
    services: Seq<Seq<u8>>,
    srv: Seq<Entry<(u16, Seq<char>)>>,
) -> Seq<ServiceView>
    decreases srv.len(),
{
    if srv.len() == 0 {
        seq![]
    } else {
        let rest = services_from(v, services, srv.drop_last());
        let e = srv.last();
        let inst = decode_utf8(e.0);
        if instance_matches_spec(v, inst, services) {
            rest.push(service_of(v, inst, e.1.0, e.1.1))
        } else {
            rest
        }
    }
}

/// The receivers an aggregator describes for the given service names, in
/// instance order.
pub open spec fn finished(v: AggregatorView, services: Seq<Seq<u8>>) -> Seq<ServiceView> {
    services_from(v, services, v.srv)
}

impl Default for Aggregator {
    fn default() -> (a: Aggregator)
        ensures
            a@.ptr == Seq::<(Seq<char>, Seq<char>)>::empty(),
            a@.srv == Seq::<Entry<(u16, Seq<char>)>>::empty(),
            a@.txt == Seq::<Entry<Seq<(String, String)>>>::empty(),
            a@.addrs == Seq::<Entry<Seq<IpAddress>>>::empty(),
    {
        Aggregator::new()
    }
}

} // verus!
