//! Parse mDNS response packets into resource records.

use vstd::prelude::*;
use vstd::utf8::*;

use crate::error::Error;
use crate::octets::{be16, byte_index, find_byte, from_be16};
use crate::text::{lemma_split_at_ascii, lossy_text, string_from_utf8_lossy, string_push};

verus! {

pub const TYPE_A: u16 = 1;
pub const TYPE_PTR: u16 = 12;
pub const TYPE_TXT: u16 = 16;
pub const TYPE_AAAA: u16 = 28;
pub const TYPE_SRV: u16 = 33;

/// A resource record we care about for AirPlay discovery.
#[derive(Debug, Clone, PartialEq, Eq)]
#[allow(inconsistent_fields)]
pub enum Rr {
    Ptr { name: String, target: String },
    Srv { name: String, port: u16, target: String },
    Txt { name: String, pairs: Vec<(String, String)> },
    A { name: String, addr: [u8; 4] },
    Aaaa { name: String, addr: [u8; 16] },
}

/// A record as the contracts see it.
#[allow(inconsistent_fields)]
pub enum RrView {
    Ptr { name: Seq<char>, target: Seq<char> },
    Srv { name: Seq<char>, port: u16, target: Seq<char> },
    Txt { name: Seq<char>, pairs: Seq<(Seq<char>, Seq<char>)> },
    A { name: Seq<char>, addr: Seq<u8> },
    Aaaa { name: Seq<char>, addr: Seq<u8> },
}

/// Text pairs as the contracts see them.
pub open spec fn pairs_view(p: Seq<(String, String)>) -> Seq<(Seq<char>, Seq<char>)> {
    p.map_values(|e: (String, String)| (e.0@, e.1@))
}

impl View for Rr {
    type V = RrView;

    open spec fn view(&self) -> RrView {
        match self {
            Rr::Ptr { name, target } => RrView::Ptr { name: name@, target: target@ },
            Rr::Srv { name, port, target } => RrView::Srv {
                name: name@,
                port: *port,
                target: target@,
            },
            Rr::Txt { name, pairs } => RrView::Txt { name: name@, pairs: pairs_view(pairs@) },
            Rr::A { name, addr } => RrView::A { name: name@, addr: addr@ },
            Rr::Aaaa { name, addr } => RrView::Aaaa { name: name@, addr: addr@ },
        }
    }
}

/// Why a response could not be parsed.
pub enum DnsFault {
    ShortHeader,
    TruncatedInteger,
    NamePastEnd,
    PointerPastEnd,
    ReservedPrefix,
    LabelPastEnd,
    LoopLimit,
    RdataPastEnd,
}

/// The message of the `Error::Discovery` reported for each fault.
pub open spec fn fault_message(f: DnsFault) -> Seq<char> {
    match f {
        DnsFault::ShortHeader => "short header"@,
        DnsFault::TruncatedInteger => "truncated integer"@,
        DnsFault::NamePastEnd => "name past end"@,
        DnsFault::PointerPastEnd => "pointer past end"@,
        DnsFault::ReservedPrefix => "reserved label prefix"@,
        DnsFault::LabelPastEnd => "label past end"@,
        DnsFault::LoopLimit => "name loop limit"@,
        DnsFault::RdataPastEnd => "rdata past end"@,
    }
}

fn discovery_error(msg: &str) -> (e: Error)
    ensures
        e matches Error::Discovery(m) && m@ == msg@,
{
    Error::Discovery(String::from_str(msg))
}

/// The big-endian integer at `pos`.
pub open spec fn u16_at_spec(data: Seq<u8>, pos: int) -> Result<u16, DnsFault> {
    if 0 <= pos && pos + 2 <= data.len() {
        Ok(from_be16(data[pos], data[pos + 1]))
    } else {
        Err(DnsFault::TruncatedInteger)
    }
}

pub fn u16_at(data: &[u8], pos: usize) -> (r: Result<u16, Error>)
    ensures
        match (r, u16_at_spec(data@, pos as int)) {
            (Ok(v), Ok(w)) => v == w,
            (Err(e), Err(f)) => e matches Error::Discovery(m) && m@ == fault_message(f),
            _ => false,
        },
{
    let n = data.len();
    if pos > n || n - pos < 2 {
        return Err(discovery_error("truncated integer"));
    }
    Ok((data[pos] as u16) * 256 + (data[pos + 1] as u16))
}

/// Labels joined with dots.
pub open spec fn join_labels(ls: Seq<Seq<char>>) -> Seq<char>
    decreases ls.len(),
{
    if ls.len() == 0 {
        seq![]
    } else if ls.len() == 1 {
        ls[0]
    } else {
        join_labels(ls.drop_last()) + seq!['.'] + ls.last()
    }
}

/// The text of a name: each label decoded on its own, joined with dots.
pub open spec fn name_text(labels: Seq<Seq<u8>>) -> Seq<char> {
    join_labels(labels.map_values(|l: Seq<u8>| lossy_text(l)))
}

/// Reading a name from `cur` with `steps` label or pointer steps left: the
/// labels read, and the offset just past the name in the original stream
/// (right after the first pointer once one was followed).
pub open spec fn walk_name(
    data: Seq<u8>,
    cur: int,
    jumped: bool,
    end_after: int,
    steps: nat,
    labels: Seq<Seq<u8>>,
) -> Result<(Seq<Seq<u8>>, int), DnsFault>
    decreases steps,
{
    if steps == 0 {
        Err(DnsFault::LoopLimit)
    } else if cur < 0 || cur >= data.len() {
        Err(DnsFault::NamePastEnd)
    } else if data[cur] == 0 {
        Ok(
            (
                labels,
                if jumped {
                    end_after
                } else {
                    cur + 1
                },
            ),
        )
    } else if data[cur] >= 0xc0 {
        if cur + 1 >= data.len() {
            Err(DnsFault::PointerPastEnd)
        } else {
            walk_name(
                data,
                (data[cur] - 0xc0) * 256 + data[cur + 1],
                true,
                if jumped {
                    end_after
                } else {
                    cur + 2
                },
                (steps - 1) as nat,
                labels,
            )
        }
    } else if data[cur] >= 0x40 {
        Err(DnsFault::ReservedPrefix)
    } else if cur + 1 + data[cur] > data.len() {
        Err(DnsFault::LabelPastEnd)
    } else {
        let end = cur + 1 + data[cur];
        walk_name(
            data,
            end,
            jumped,
            if jumped {
                end_after
            } else {
                end
            },
            (steps - 1) as nat,
            labels.push(data.subrange(cur + 1, end)),
        )
    }
}

/// The (possibly compressed) name at `pos`: its labels and the offset just
/// past it, following at most 128 labels and pointers.
pub open spec fn name_at(data: Seq<u8>, pos: int) -> Result<(Seq<Seq<u8>>, int), DnsFault> {
    walk_name(data, pos, false, pos, 128, seq![])
}

proof fn lemma_walk_bounds(
    data: Seq<u8>,
    pos: int,
    cur: int,
    jumped: bool,
    end_after: int,
    steps: nat,
    labels: Seq<Seq<u8>>,
)
    requires
        !jumped ==> pos <= cur,
        jumped ==> pos < end_after <= data.len(),
    ensures
        walk_name(data, cur, jumped, end_after, steps, labels) matches Ok((_, n)) ==> pos < n
            <= data.len(),
    decreases steps,
{
    if steps > 0 && 0 <= cur < data.len() && data[cur] != 0 {
        if data[cur] >= 0xc0 {
            if cur + 1 < data.len() {
                lemma_walk_bounds(
                    data,
                    pos,
                    (data[cur] - 0xc0) * 256 + data[cur + 1],
                    true,
                    if jumped {
                        end_after
                    } else {
                        cur + 2
                    },
                    (steps - 1) as nat,
                    labels,
                );
            }
        } else if data[cur] < 0x40 && cur + 1 + data[cur] <= data.len() {
            let end = cur + 1 + data[cur];
            lemma_walk_bounds(
                data,
                pos,
                end,
                jumped,
                if jumped {
                    end_after
                } else {
                    end
                },
                (steps - 1) as nat,
                labels.push(data.subrange(cur + 1, end)),
            );
        }
    }
}

/// The offset after a name always lies past its start and within the data.
pub proof fn lemma_name_end_in_bounds(data: Seq<u8>, pos: int)
    ensures
        name_at(data, pos) matches Ok((_, n)) ==> pos < n <= data.len(),
{
    lemma_walk_bounds(data, pos, pos, false, pos, 128, seq![]);
}

/// Labels laid out without compression: each as its length byte and its
/// bytes, in order (the terminating zero byte not included).
pub open spec fn label_run(ls: Seq<Seq<u8>>) -> Seq<u8>
    decreases ls.len(),
{
    if ls.len() == 0 {
        seq![]
    } else {
        seq![ls[0].len() as u8] + ls[0] + label_run(ls.drop_first())
    }
}

/// Every label has 1 to 63 bytes, as a length byte can announce.
pub open spec fn labels_fit(ls: Seq<Seq<u8>>) -> bool {
    forall|i: int| 0 <= i < ls.len() ==> 1 <= #[trigger] ls[i].len() <= 63
}

/// `data` holds, at `pos`, the uncompressed name with labels `ls`.
pub open spec fn plain_name_at(data: Seq<u8>, pos: int, ls: Seq<Seq<u8>>) -> bool {
    0 <= pos && pos + label_run(ls).len() + 1 <= data.len() && data.subrange(
        pos,
        pos + label_run(ls).len() + 1,
    ) == label_run(ls).push(0)
}

proof fn lemma_walk_plain(
    data: Seq<u8>,
    cur: int,
    jumped: bool,
    end_after: int,
    steps: nat,
    acc: Seq<Seq<u8>>,
    ls: Seq<Seq<u8>>,
)
    requires
        labels_fit(ls),
        steps > ls.len(),
        plain_name_at(data, cur, ls),
    ensures
        walk_name(data, cur, jumped, end_after, steps, acc) == Ok::<(Seq<Seq<u8>>, int), DnsFault>(
            (
                acc + ls,
                if jumped {
                    end_after
                } else {
                    cur + label_run(ls).len() + 1
                },
            ),
        ),
    decreases ls.len(),
{
    let run = label_run(ls);
    let seg = data.subrange(cur, cur + run.len() + 1);
    assert(data[cur] == seg[0]);
    if ls.len() == 0 {
        assert(acc + ls =~= acc);
    } else {
        let l = ls[0];
        let rest = ls.drop_first();
        let end = cur + 1 + l.len();
        assert(1 <= ls[0].len() <= 63);
        assert(seg[0] == l.len() as u8);
        assert(data.subrange(cur + 1, end) =~= l) by {
            assert forall|k: int| 0 <= k < l.len() implies data.subrange(cur + 1, end)[k] == l[k] by {
                assert(data[cur + 1 + k] == seg[1 + k]);
            }
        }
        assert(labels_fit(rest)) by {
            assert forall|i: int| 0 <= i < rest.len() implies 1 <= #[trigger] rest[i].len() <= 63 by {
                assert(rest[i] == ls[i + 1]);
            }
        }
        assert(plain_name_at(data, end, rest)) by {
            let rr = label_run(rest);
            assert(run =~= seq![l.len() as u8] + l + rr);
            assert(data.subrange(end, end + rr.len() + 1) =~= rr.push(0)) by {
                assert forall|k: int| 0 <= k < rr.len() + 1 implies data.subrange(
                    end,
                    end + rr.len() + 1,
                )[k] == rr.push(0)[k] by {
                    assert(data[end + k] == seg[1 + l.len() + k]);
                }
            }
        }
        lemma_walk_plain(
            data,
            end,
            jumped,
            if jumped {
                end_after
            } else {
                end
            },
            (steps - 1) as nat,
            acc.push(l),
            rest,
        );
        assert(acc.push(l) + rest =~= acc + ls);
        assert(label_run(ls).len() == 1 + l.len() + label_run(rest).len());
    }
}

/// An uncompressed name of at most 127 labels of 1 to 63 bytes reads as
/// those labels, ending just past its zero byte; a compression pointer to
/// such a name of at most 126 labels reads as the same labels, ending just
/// past the two pointer bytes.
pub proof fn lemma_read_plain_name(data: Seq<u8>, pos: int, ls: Seq<Seq<u8>>)
    requires
        labels_fit(ls),
        ls.len() <= 127,
    ensures
        plain_name_at(data, pos, ls) ==> name_at(data, pos) == Ok::<(Seq<Seq<u8>>, int), DnsFault>(
            (ls, pos + label_run(ls).len() + 1),
        ),
        (0 <= pos && pos + 1 < data.len() && data[pos] >= 0xc0 && ls.len() <= 126
            && plain_name_at(data, (data[pos] - 0xc0) * 256 + data[pos + 1], ls)) ==> name_at(
            data,
            pos,
        ) == Ok::<(Seq<Seq<u8>>, int), DnsFault>((ls, pos + 2)),
{
    if plain_name_at(data, pos, ls) {
        lemma_walk_plain(data, pos, false, pos, 128, seq![], ls);
        assert(Seq::<Seq<u8>>::empty() + ls =~= ls);
    }
    if 0 <= pos && pos + 1 < data.len() && data[pos] >= 0xc0 && ls.len() <= 126 && plain_name_at(
        data,
        (data[pos] - 0xc0) * 256 + data[pos + 1],
        ls,
    ) {
        let t = (data[pos] - 0xc0) * 256 + data[pos + 1];
        lemma_walk_plain(data, t, true, pos + 2, 127, seq![], ls);
        assert(Seq::<Seq<u8>>::empty() + ls =~= ls);
    }
}

/// Read a (possibly compressed) DNS name starting at `pos`. Returns the decoded
/// name and the offset of the byte just past the name in the original stream.
pub fn read_name(data: &[u8], pos: usize) -> (r: Result<(String, usize), Error>)
    ensures
        match (r, name_at(data@, pos as int)) {
            (Ok((s, n)), Ok((ls, m))) => s@ == name_text(ls) && n == m,
            (Err(e), Err(f)) => e matches Error::Discovery(msg) && msg@ == fault_message(f),
            _ => false,
        },
{
    let n = data.len();
    let mut text = String::new();
    let ghost mut labels: Seq<Seq<u8>> = seq![];
    let mut cur: usize = pos;
    let mut end_after: usize = pos;
    let mut jumped = false;
    let mut steps: usize = 128;
    let mut nlabels: usize = 0;
    assert(labels.map_values(|l: Seq<u8>| lossy_text(l)) =~= Seq::<Seq<char>>::empty());
    while steps > 0
        invariant
            n == data@.len(),
            name_at(data@, pos as int) == walk_name(
                data@,
                cur as int,
                jumped,
                end_after as int,
                steps as nat,
                labels,
            ),
            text@ == name_text(labels),
            nlabels == labels.len(),
            nlabels + steps <= 128,
            jumped ==> end_after <= n,
        decreases steps,
    {
        if cur >= n {
            return Err(discovery_error("name past end"));
        }
        let len = data[cur];
        if len == 0 {
            if !jumped {
                end_after = cur + 1;
            }
            return Ok((text, end_after));
        }
        if len >= 0xc0 {
            if cur + 1 >= n {
                return Err(discovery_error("pointer past end"));
            }
            let ptr = ((len - 0xc0) as usize) * 256 + (data[cur + 1] as usize);
            if !jumped {
                end_after = cur + 2;
            }
            jumped = true;
            cur = ptr;
            steps -= 1;
            continue ;
        }
        if len >= 0x40 {
            return Err(discovery_error("reserved label prefix"));
        }
        let start = cur + 1;
        if (len as usize) > n - start {
            return Err(discovery_error("label past end"));
        }
        let end = start + len as usize;
        let label = vstd::slice::slice_subrange(data, start, end);
        let label_text = string_from_utf8_lossy(label);
        let ghost ms = labels.map_values(|l: Seq<u8>| lossy_text(l));
        if nlabels > 0 {
            string_push(&mut text, '.');
        }
        text.append(label_text.as_str());
        proof {
            let labels2 = labels.push(label@);
            let ms2 = labels2.map_values(|l: Seq<u8>| lossy_text(l));
            assert(ms2 =~= ms.push(lossy_text(label@)));
            assert(ms2.drop_last() =~= ms);
            if labels.len() == 0 {
                assert(text@ =~= name_text(labels2));
            } else {
                assert(text@ =~= name_text(labels2));
            }
            labels = labels2;
        }
        cur = end;
        if !jumped {
            end_after = end;
        }
        nlabels += 1;
        steps -= 1;
    }
    Err(discovery_error("name loop limit"))
}

/// One TXT string as a key/value pair: split at the first `=` of its text,
/// or the whole text as a key with an empty value; nothing for an empty string.
pub open spec fn txt_entry(chunk: Seq<u8>) -> Option<(Seq<char>, Seq<char>)> {
    let s = lossy_text(chunk);
    let b = encode_utf8(s);
    match byte_index(b, 61, 0) {
        Some(k) => Some((decode_utf8(b.take(k)), decode_utf8(b.skip(k + 1)))),
        None => if s.len() == 0 {
            None
        } else {
            Some((s, seq![]))
        },
    }
}

/// The pairs of the length-prefixed strings of TXT data from offset `i`,
/// stopping at the first string that runs past the end.
pub open spec fn txt_from(r: Seq<u8>, i: int) -> Seq<(Seq<char>, Seq<char>)>
    decreases r.len() - i,
{
    if i < 0 || i >= r.len() {
        seq![]
    } else if i + 1 + r[i] > r.len() {
        seq![]
    } else {
        let end = i + 1 + r[i];
        match txt_entry(r.subrange(i + 1, end)) {
            Some(p) => seq![p] + txt_from(r, end),
            None => txt_from(r, end),
        }
    }
}

/// The key/value pairs of TXT record data.
pub open spec fn txt_pairs(r: Seq<u8>) -> Seq<(Seq<char>, Seq<char>)> {
    txt_from(r, 0)
}

fn parse_txt_entry(chunk: &[u8]) -> (r: Option<(String, String)>)
    ensures
        match (r, txt_entry(chunk@)) {
            (Some((k, v)), Some(p)) => (k@, v@) == p,
            (None, None) => true,
            _ => false,
        },
{
    let s = string_from_utf8_lossy(chunk);
    let b = s.as_str().as_bytes();
    let bl = b.len();
    match find_byte(b, 61, 0) {
        Some(k) => {
            proof {
                encode_utf8_valid_utf8(s@);
                lemma_split_at_ascii(b@, k as int);
            }
            let key_bytes = vstd::slice::slice_subrange(b, 0, k);
            let value_bytes = vstd::slice::slice_subrange(b, k + 1, bl);
            assert(key_bytes@ =~= b@.take(k as int));
            assert(value_bytes@ =~= b@.skip(k + 1));
            Some((string_from_utf8_lossy(key_bytes), string_from_utf8_lossy(value_bytes)))
        },
        None => {
            if s.as_str().is_empty() {
                None
            } else {
                Some((s, String::new()))
            }
        },
    }
}

/// Decode the length-prefixed strings of TXT record data into key/value pairs.
pub fn parse_txt(rdata: &[u8]) -> (pairs: Vec<(String, String)>)
    ensures
        pairs_view(pairs@) == txt_pairs(rdata@),
{
    let n = rdata.len();
    let mut pairs: Vec<(String, String)> = Vec::new();
    let mut i: usize = 0;
    assert(pairs_view(pairs@) =~= Seq::<(Seq<char>, Seq<char>)>::empty());
    while i < n
        invariant
            n == rdata@.len(),
            0 <= i <= n,
            pairs_view(pairs@) + txt_from(rdata@, i as int) == txt_pairs(rdata@),
        decreases n - i,
    {
        let len = rdata[i] as usize;
        let start = i + 1;
        if len > n - start {
            assert(txt_from(rdata@, i as int) =~= Seq::<(Seq<char>, Seq<char>)>::empty());
            assert(pairs_view(pairs@) + Seq::<(Seq<char>, Seq<char>)>::empty() =~= pairs_view(
                pairs@,
            ));
            return pairs;
        }
        let end = start + len;
        let chunk = vstd::slice::slice_subrange(rdata, start, end);
        let ghost before = pairs_view(pairs@);
        match parse_txt_entry(chunk) {
            Some(p) => {
                pairs.push(p);
                assert(pairs_view(pairs@) =~= before.push((p.0@, p.1@)));
                assert(before + (seq![(p.0@, p.1@)] + txt_from(rdata@, end as int)) =~= pairs_view(
                    pairs@,
                ) + txt_from(rdata@, end as int));
            },
            None => {},
        }
        i = end;
    }
    assert(txt_from(rdata@, i as int) =~= Seq::<(Seq<char>, Seq<char>)>::empty());
    assert(pairs_view(pairs@) + Seq::<(Seq<char>, Seq<char>)>::empty() =~= pairs_view(pairs@));
    pairs
}

/// The record that the RDATA at `rdstart` makes, or nothing for types we do
/// not handle and for data too short or malformed for its type.
pub open spec fn rdata_record(
    data: Seq<u8>,
    name: Seq<char>,
    rtype: u16,
    rdstart: int,
    rdlen: int,
) -> Option<RrView> {
    if rdstart < 0 || rdlen < 0 || rdstart + rdlen > data.len() {
        None
    } else {
        let rd = data.subrange(rdstart, rdstart + rdlen);
        if rtype == TYPE_PTR && rdlen >= 1 {
            match name_at(data, rdstart) {
                Ok((ls, _)) => Some(RrView::Ptr { name, target: name_text(ls) }),
                Err(_) => None,
            }
        } else if rtype == TYPE_SRV && rdlen >= 7 {
            match u16_at_spec(data, rdstart + 4) {
                Err(_) => None,
                Ok(port) => match name_at(data, rdstart + 6) {
                    Ok((ls, _)) => Some(RrView::Srv { name, port, target: name_text(ls) }),
                    Err(_) => None,
                },
            }
        } else if rtype == TYPE_TXT {
            Some(RrView::Txt { name, pairs: txt_pairs(rd) })
        } else if rtype == TYPE_A && rdlen == 4 {
            Some(RrView::A { name, addr: rd })
        } else if rtype == TYPE_AAAA && rdlen == 16 {
            Some(RrView::Aaaa { name, addr: rd })
        } else {
            None
        }
    }
}

/// The record each type of RDATA makes: none when the RDATA runs past the
/// data; an A record exactly for 4 bytes and an AAAA record exactly for 16,
/// holding them; a TXT record always, holding its pairs; a PTR record for a
/// name that reads, an SRV record for at least 7 bytes whose port and target
/// read; and nothing for any other type.
pub proof fn lemma_rdata_rule(data: Seq<u8>, name: Seq<char>, rtype: u16, rdstart: int, rdlen: int)
    requires
        0 <= rdstart,
        0 <= rdlen,
    ensures
        rdstart + rdlen > data.len() ==> rdata_record(data, name, rtype, rdstart, rdlen) is None,
        rdstart + rdlen <= data.len() ==> {
            let rd = data.subrange(rdstart, rdstart + rdlen);
            let r = rdata_record(data, name, rtype, rdstart, rdlen);
            &&& rtype == TYPE_A ==> r == (if rdlen == 4 {
                Some(RrView::A { name, addr: rd })
            } else {
                None
            })
            &&& rtype == TYPE_AAAA ==> r == (if rdlen == 16 {
                Some(RrView::Aaaa { name, addr: rd })
            } else {
                None
            })
            &&& rtype == TYPE_TXT ==> r == Some(RrView::Txt { name, pairs: txt_pairs(rd) })
            &&& rtype == TYPE_PTR ==> r == (if rdlen >= 1 {
                match name_at(data, rdstart) {
                    Ok((ls, _)) => Some(RrView::Ptr { name, target: name_text(ls) }),
                    Err(_) => None,
                }
            } else {
                None
            })
            &&& rtype == TYPE_SRV ==> r == (if rdlen >= 7 {
                match (u16_at_spec(data, rdstart + 4), name_at(data, rdstart + 6)) {
                    (Ok(port), Ok((ls, _))) => Some(
                        RrView::Srv { name, port, target: name_text(ls) },
                    ),
                    _ => None,
                }
            } else {
                None
            })
            &&& (rtype != TYPE_A && rtype != TYPE_AAAA && rtype != TYPE_TXT && rtype != TYPE_PTR
                && rtype != TYPE_SRV) ==> r is None
        },
{
}

fn parse_rdata(data: &[u8], name: String, rtype: u16, rdstart: usize, rdlen: usize) -> (r: Option<
    Rr,
>)
    ensures
        match (r, rdata_record(data@, name@, rtype, rdstart as int, rdlen as int)) {
            (Some(rr), Some(v)) => rr@ == v,
            (None, None) => true,
            _ => false,
        },
{
    let n = data.len();
    if rdstart > n || rdlen > n - rdstart {
        return None;
    }
    let rdata = vstd::slice::slice_subrange(data, rdstart, rdstart + rdlen);
    if rtype == TYPE_PTR && rdlen >= 1 {
        match read_name(data, rdstart) {
            Ok((target, _)) => Some(Rr::Ptr { name, target }),
            Err(_) => None,
        }
    } else if rtype == TYPE_SRV && rdlen >= 7 {
        let port = match u16_at(data, rdstart + 4) {
            Ok(p) => p,
            Err(_) => {
                return None;
            },
        };
        match read_name(data, rdstart + 6) {
            Ok((target, _)) => Some(Rr::Srv { name, port, target }),
            Err(_) => None,
        }
    } else if rtype == TYPE_TXT {
        Some(Rr::Txt { name, pairs: parse_txt(rdata) })
    } else if rtype == TYPE_A && rdlen == 4 {
        let addr = [rdata[0], rdata[1], rdata[2], rdata[3]];
        assert(addr@ =~= rdata@);
        Some(Rr::A { name, addr })
    } else if rtype == TYPE_AAAA && rdlen == 16 {
        let addr = [
            rdata[0],
            rdata[1],
            rdata[2],
            rdata[3],
            rdata[4],
            rdata[5],
            rdata[6],
            rdata[7],
            rdata[8],
            rdata[9],
            rdata[10],
            rdata[11],
            rdata[12],
            rdata[13],
            rdata[14],
            rdata[15],
        ];
        assert(addr@ =~= rdata@);
        Some(Rr::Aaaa { name, addr })
    } else {
        None
    }
}

/// The offset after `count` questions from `pos`: each a name, a type and a class.
pub open spec fn skip_questions(data: Seq<u8>, pos: int, count: nat) -> Result<int, DnsFault>
    decreases count,
{
    if count == 0 {
        Ok(pos)
    } else {
        match name_at(data, pos) {
            Err(f) => Err(f),
            Ok((_, next)) => skip_questions(data, next + 4, (count - 1) as nat),
        }
    }
}

/// The records we handle among `count` resource records from `pos`, in order;
/// records of other types are passed over.
pub open spec fn records_from(data: Seq<u8>, pos: int, count: nat) -> Result<
    Seq<RrView>,
    DnsFault,
>
    decreases count,
{
    if count == 0 {
        Ok(seq![])
    } else {
        match name_at(data, pos) {
            Err(f) => Err(f),
            Ok((labels, next)) => match u16_at_spec(data, next) {
                Err(f) => Err(f),
                Ok(rtype) => match u16_at_spec(data, next + 8) {
                    Err(f) => Err(f),
                    Ok(rdlen) => {
                        let rdstart = next + 10;
                        if rdstart + rdlen > data.len() {
                            Err(DnsFault::RdataPastEnd)
                        } else {
                            match records_from(data, rdstart + rdlen, (count - 1) as nat) {
                                Err(f) => Err(f),
                                Ok(rest) => Ok(
                                    match rdata_record(
                                        data,
                                        name_text(labels),
                                        rtype,
                                        rdstart,
                                        rdlen as int,
                                    ) {
                                        Some(rr) => seq![rr] + rest,
                                        None => rest,
                                    },
                                ),
                            }
                        }
                    },
                },
            },
        }
    }
}

/// All answer, authority and additional records of a response that we
/// handle, after its questions are passed over.
pub open spec fn message_records(data: Seq<u8>) -> Result<Seq<RrView>, DnsFault> {
    if data.len() < 12 {
        Err(DnsFault::ShortHeader)
    } else {
        let qd = from_be16(data[4], data[5]);
        let total = from_be16(data[6], data[7]) as nat + from_be16(data[8], data[9]) as nat
            + from_be16(data[10], data[11]) as nat;
        match skip_questions(data, 12, qd as nat) {
            Err(f) => Err(f),
            Ok(pos) => records_from(data, pos, total),
        }
    }
}

proof fn lemma_be16_round_trip(x: u16)
    ensures
        from_be16(be16(x)[0], be16(x)[1]) == x,
{
}

/// Every section of a response is read: a response without questions that
/// carries one A record, whether the header counts it as an answer, an
/// authority or an additional record, yields exactly that record, whatever
/// the id, flags, class and TTL.
pub proof fn lemma_each_section_is_read(
    id: u16,
    flags: u16,
    an: u16,
    ns: u16,
    ar: u16,
    ls: Seq<Seq<u8>>,
    class_ttl: Seq<u8>,
    addr: Seq<u8>,
)
    requires
        an + ns + ar == 1,
        labels_fit(ls),
        ls.len() <= 127,
        class_ttl.len() == 6,
        addr.len() == 4,
    ensures
        message_records(
            be16(id) + be16(flags) + be16(0) + be16(an) + be16(ns) + be16(ar) + label_run(ls).push(0)
                + be16(TYPE_A) + class_ttl + be16(4) + addr,
        ) == Ok::<Seq<RrView>, DnsFault>(seq![RrView::A { name: name_text(ls), addr }]),
{
    let header = be16(id) + be16(flags) + be16(0) + be16(an) + be16(ns) + be16(ar);
    let nm = label_run(ls).push(0);
    let data = header + nm + be16(TYPE_A) + class_ttl + be16(4) + addr;
    let l = nm.len() as int;
    assert(header.len() == 12);
    assert(data[4] == be16(0)[0] && data[5] == be16(0)[1]);
    assert(data[6] == be16(an)[0] && data[7] == be16(an)[1]);
    assert(data[8] == be16(ns)[0] && data[9] == be16(ns)[1]);
    assert(data[10] == be16(ar)[0] && data[11] == be16(ar)[1]);
    lemma_be16_round_trip(0);
    lemma_be16_round_trip(an);
    lemma_be16_round_trip(ns);
    lemma_be16_round_trip(ar);
    lemma_be16_round_trip(TYPE_A);
    lemma_be16_round_trip(4);
    assert(data.subrange(12, 12 + l) =~= nm);
    assert(plain_name_at(data, 12, ls));
    lemma_read_plain_name(data, 12, ls);
    let next = 12 + l;
    assert(data[next] == be16(TYPE_A)[0] && data[next + 1] == be16(TYPE_A)[1]);
    assert(data[next + 8] == be16(4)[0] && data[next + 9] == be16(4)[1]);
    assert(u16_at_spec(data, next) == Ok::<u16, DnsFault>(TYPE_A));
    assert(u16_at_spec(data, next + 8) == Ok::<u16, DnsFault>(4));
    let rdstart = next + 10;
    assert(data.len() == rdstart + 4);
    assert(data.subrange(rdstart, rdstart + 4) =~= addr);
    assert(records_from(data, rdstart + 4, 0) == Ok::<Seq<RrView>, DnsFault>(seq![]));
    assert(rdata_record(data, name_text(ls), TYPE_A, rdstart, 4) == Some(
        RrView::A { name: name_text(ls), addr },
    ));
    assert(skip_questions(data, 12, 0) == Ok::<int, DnsFault>(12));
    assert(seq![RrView::A { name: name_text(ls), addr }] + Seq::<RrView>::empty() =~= seq![
        RrView::A { name: name_text(ls), addr },
    ]);
    assert(records_from(data, 12, 1) == Ok::<Seq<RrView>, DnsFault>(
        seq![RrView::A { name: name_text(ls), addr }],
    ));
}

/// Records as the contracts see them.
pub open spec fn records_view(v: Seq<Rr>) -> Seq<RrView> {
    v.map_values(|r: Rr| r@)
}

/// Decode all answer/authority/additional records in a response, skipping
/// records whose type we do not handle.
pub fn parse_message(data: &[u8]) -> (r: Result<Vec<Rr>, Error>)
    ensures
        match (r, message_records(data@)) {
            (Ok(v), Ok(w)) => records_view(v@) == w,
            (Err(e), Err(f)) => e matches Error::Discovery(m) && m@ == fault_message(f),
            _ => false,
        },
{
    let n = data.len();
    if n < 12 {
        return Err(discovery_error("short header"));
    }
    let qd = (data[4] as u16) * 256 + (data[5] as u16);
    let an = (data[6] as u16) * 256 + (data[7] as u16);
    let ns = (data[8] as u16) * 256 + (data[9] as u16);
    let ar = (data[10] as u16) * 256 + (data[11] as u16);
    let total: usize = an as usize + ns as usize + ar as usize;
    let mut pos: usize = 12;
    let ghost mut gpos: int = 12;
    let mut q: u16 = 0;
    while q < qd
        invariant
            n == data@.len(),
            n >= 12,
            q <= qd,
            qd == from_be16(data@[4], data@[5]),
            pos as int == gpos || (gpos >= n && pos == n),
            pos <= n,
            skip_questions(data@, 12, qd as nat) == skip_questions(data@, gpos, (qd - q) as nat),
        decreases qd - q,
    {
        let ghost before = gpos;
        assert(name_at(data@, gpos) == name_at(data@, pos as int));
        match read_name(data, pos) {
            Err(e) => {
                return Err(e);
            },
            Ok((_, next)) => {
                proof {
                    lemma_name_end_in_bounds(data@, pos as int);
                    gpos = next + 4;
                }
                pos = if next <= n - 4 {
                    next + 4
                } else {
                    n
                };
            },
        }
        q += 1;
    }
    let ghost start = gpos;
    let mut out: Vec<Rr> = Vec::new();
    let mut k: usize = 0;
    proof {
        match records_from(data@, start, total as nat) {
            Ok(rest) => assert(records_view(out@) + rest =~= rest),
            Err(_) => {},
        }
    }
    while k < total
        invariant
            n == data@.len(),
            n >= 12,
            k <= total,
            total == from_be16(data@[6], data@[7]) as nat + from_be16(data@[8], data@[9]) as nat
                + from_be16(data@[10], data@[11]) as nat,
            message_records(data@) == records_from(data@, start, total as nat),
            pos as int == gpos || (gpos >= n && pos == n),
            pos <= n,
            match records_from(data@, gpos, (total - k) as nat) {
                Ok(rest) => records_from(data@, start, total as nat) == Ok::<
                    Seq<RrView>,
                    DnsFault,
                >(records_view(out@) + rest),
                Err(f) => records_from(data@, start, total as nat) == Err::<
                    Seq<RrView>,
                    DnsFault,
                >(f),
            },
        decreases total - k,
    {
        assert(name_at(data@, gpos) == name_at(data@, pos as int));
        let (name, next) = match read_name(data, pos) {
            Err(e) => {
                return Err(e);
            },
            Ok(p) => p,
        };
        proof {
            lemma_name_end_in_bounds(data@, pos as int);
        }
        let rtype = match u16_at(data, next) {
            Err(e) => {
                return Err(e);
            },
            Ok(t) => t,
        };
        let at = if next <= n - 8 {
            next + 8
        } else {
            n
        };
        assert(u16_at_spec(data@, at as int) == u16_at_spec(data@, next + 8));
        let rdlen = match u16_at(data, at) {
            Err(e) => {
                return Err(e);
            },
            Ok(l) => l as usize,
        };
        let rdstart = next + 10;
        if rdlen > n - rdstart {
            return Err(discovery_error("rdata past end"));
        }
        let ghost before = records_view(out@);
        match parse_rdata(data, name, rtype, rdstart, rdlen) {
            Some(rr) => {
                out.push(rr);
                proof {
                    assert(records_view(out@) =~= before.push(rr@));
                    match records_from(data@, rdstart + rdlen, (total - k - 1) as nat) {
                        Ok(rest) => assert(before + (seq![rr@] + rest) =~= records_view(out@)
                            + rest),
                        Err(_) => {},
                    }
                }
            },
            None => {},
        }
        pos = rdstart + rdlen;
        proof {
            gpos = pos as int;
        }
        k += 1;
    }
    proof {
        assert(records_from(data@, gpos, 0) == Ok::<Seq<RrView>, DnsFault>(seq![]));
        assert(records_view(out@) + Seq::<RrView>::empty() =~= records_view(out@));
    }
    Ok(out)
}

} // verus!
