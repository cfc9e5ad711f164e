//! Build mDNS query packets.

use vstd::prelude::*;
use vstd::utf8::encode_utf8;

use crate::discovery::parse::{
    label_run, labels_fit, lemma_read_plain_name, message_records, name_at, plain_name_at,
    skip_questions, DnsFault, RrView,
};
use crate::octets::{append_range, be16, from_be16, push_be16};

verus! {

/// DNS `PTR` record type.
pub const TYPE_PTR: u16 = 12;

/// `IN` class with the mDNS "unicast response requested" (QU) bit set, so
/// responders answer directly to our ephemeral source port instead of the
/// multicast group. This lets us receive without binding port 5353.
pub const QCLASS_IN_QU: u16 = 0x8001;

/// One label on the wire: its length byte and its bytes. Empty labels and
/// labels over 63 bytes are left out.
pub open spec fn label_bytes(l: Seq<u8>) -> Seq<u8> {
    if l.len() == 0 || l.len() > 63 {
        seq![]
    } else {
        seq![l.len() as u8] + l
    }
}

/// The labels of a dotted name from the label that starts at `start`, the
/// scan being at `i`, each as `label_bytes`.
pub open spec fn labels_from(s: Seq<u8>, start: int, i: int) -> Seq<u8>
    decreases s.len() - i,
{
    if i >= s.len() {
        label_bytes(s.subrange(start, s.len() as int))
    } else if s[i] == 46 {
        label_bytes(s.subrange(start, i)) + labels_from(s, i + 1, i + 1)
    } else {
        labels_from(s, start, i + 1)
    }
}

/// A dotted name as length-prefixed labels ending in a zero byte.
pub open spec fn encoded_name(name: Seq<u8>) -> Seq<u8> {
    labels_from(name, 0, 0).push(0)
}

fn push_label(out: &mut Vec<u8>, s: &[u8], start: usize, end: usize)
    requires
        start <= end <= s@.len(),
    ensures
        final(out)@ == old(out)@ + label_bytes(s@.subrange(start as int, end as int)),
{
    let n = end - start;
    if n == 0 || n > 63 {
        assert(old(out)@ + label_bytes(s@.subrange(start as int, end as int)) =~= old(out)@);
        return;
    }
    out.push(n as u8);
    append_range(out, s, start, end);
    assert(out@ =~= old(out)@ + label_bytes(s@.subrange(start as int, end as int)));
}

/// Encode a dotted DNS name (e.g. `_airplay._tcp.local`) into length-prefixed
/// labels terminated by a zero byte.
pub(crate) fn encode_name(name: &str, out: &mut Vec<u8>)
    ensures
        final(out)@ == old(out)@ + encoded_name(encode_utf8(name@)),
{
    let s = name.as_bytes();
    let ghost b = encode_utf8(name@);
    let mut start: usize = 0;
    let mut i: usize = 0;
    while i < s.len()
        invariant
            s@ == b,
            0 <= start <= i <= s@.len(),
            out@ + labels_from(b, start as int, i as int) == old(out)@ + labels_from(b, 0, 0),
        decreases s@.len() - i,
    {
        if s[i] == 46 {
            let ghost before = out@;
            push_label(out, s, start, i);
            assert(before + labels_from(b, start as int, i as int) =~= out@ + labels_from(
                b,
                i + 1,
                i + 1,
            ));
            start = i + 1;
        }
        i += 1;
    }
    push_label(out, s, start, s.len());
    out.push(0);
    assert(out@ =~= old(out)@ + encoded_name(b));
}

/// One PTR question: the name, its type and its class.
pub open spec fn question_bytes(name: Seq<u8>) -> Seq<u8> {
    encoded_name(name) + be16(TYPE_PTR) + be16(QCLASS_IN_QU)
}

/// The questions for a list of names, in order.
pub open spec fn questions(names: Seq<Seq<u8>>) -> Seq<u8>
    decreases names.len(),
{
    if names.len() == 0 {
        seq![]
    } else {
        questions(names.drop_last()) + question_bytes(names.last())
    }
}

/// The UTF-8 bytes of each service name.
pub open spec fn name_bytes(services: Seq<&str>) -> Seq<Seq<u8>> {
    services.map_values(|s: &str| encode_utf8(s@))
}

/// A query: a header with id, flags and the three other counts zero and the
/// question count the number of names (modulo 2^16), then one PTR question
/// per name.
pub open spec fn query_bytes(names: Seq<Seq<u8>>) -> Seq<u8> {
    be16(0) + be16(0) + be16((names.len() % 65536) as u16) + be16(0) + be16(0) + be16(0)
        + questions(names)
}

/// Build a single mDNS query carrying one PTR question per service name.
pub fn build_query(services: &[&str]) -> (buf: Vec<u8>)
    ensures
        buf@ == query_bytes(name_bytes(services@)),
{
    let n = services.len();
    let mut buf: Vec<u8> = Vec::new();
    push_be16(&mut buf, 0);
    push_be16(&mut buf, 0);
    push_be16(&mut buf, (n % 65536) as u16);
    push_be16(&mut buf, 0);
    push_be16(&mut buf, 0);
    push_be16(&mut buf, 0);
    let ghost header = buf@;
    let ghost names = name_bytes(services@);
    let mut i: usize = 0;
    assert(names.take(0) =~= Seq::<Seq<u8>>::empty());
    while i < n
        invariant
            n == services@.len(),
            names == name_bytes(services@),
            0 <= i <= n,
            buf@ == header + questions(names.take(i as int)),
        decreases n - i,
    {
        let ghost before = buf@;
        encode_name(services[i], &mut buf);
        push_be16(&mut buf, TYPE_PTR);
        push_be16(&mut buf, QCLASS_IN_QU);
        assert(names.take(i + 1).drop_last() =~= names.take(i as int));
        assert(names.take(i + 1).last() == encode_utf8(services@[i as int]@));
        assert(buf@ =~= before + question_bytes(names.take(i + 1).last()));
        i += 1;
    }
    assert(names.take(n as int) =~= names);
    assert(buf@ =~= query_bytes(names));
    buf
}

/// A label as a list: itself when `encode_name` keeps it (1 to 63 bytes),
/// else nothing.
pub open spec fn kept_label(l: Seq<u8>) -> Seq<Seq<u8>> {
    if l.len() == 0 || l.len() > 63 {
        seq![]
    } else {
        seq![l]
    }
}

/// The labels of a dotted name that `encode_name` keeps, from the label that
/// starts at `start`, the scan being at `i`.
pub open spec fn labels_list(s: Seq<u8>, start: int, i: int) -> Seq<Seq<u8>>
    decreases s.len() - i,
{
    if i >= s.len() {
        kept_label(s.subrange(start, s.len() as int))
    } else if s[i] == 46 {
        kept_label(s.subrange(start, i)) + labels_list(s, i + 1, i + 1)
    } else {
        labels_list(s, start, i + 1)
    }
}

/// The labels of a dotted name that `encode_name` writes: split at each dot,
/// empty and overlong labels left out.
pub open spec fn dotted_labels(name: Seq<u8>) -> Seq<Seq<u8>> {
    labels_list(name, 0, 0)
}

proof fn lemma_label_run_concat(a: Seq<Seq<u8>>, b: Seq<Seq<u8>>)
    ensures
        label_run(a + b) == label_run(a) + label_run(b),
    decreases a.len(),
{
    if a.len() == 0 {
        assert(a + b =~= b);
    } else {
        lemma_label_run_concat(a.drop_first(), b);
        assert((a + b).drop_first() =~= a.drop_first() + b);
        assert((a + b)[0] == a[0]);
    }
}

proof fn lemma_label_run_single(l: Seq<u8>)
    ensures
        label_run(seq![l]) == seq![l.len() as u8] + l,
{
    assert(seq![l].drop_first() =~= Seq::<Seq<u8>>::empty());
    assert(label_run(Seq::<Seq<u8>>::empty()) == Seq::<u8>::empty());
    assert(seq![l][0] == l);
    assert(label_run(seq![l]) =~= seq![l.len() as u8] + l + Seq::<u8>::empty());
}

proof fn lemma_labels_from_run(s: Seq<u8>, start: int, i: int)
    requires
        0 <= start <= i <= s.len(),
    ensures
        labels_from(s, start, i) == label_run(labels_list(s, start, i)),
        labels_fit(labels_list(s, start, i)),
    decreases s.len() - i,
{
    if i >= s.len() {
        let l = s.subrange(start, s.len() as int);
        if !(l.len() == 0 || l.len() > 63) {
            lemma_label_run_single(l);
        }
    } else if s[i] == 46 {
        let l = s.subrange(start, i);
        lemma_labels_from_run(s, i + 1, i + 1);
        let rest = labels_list(s, i + 1, i + 1);
        lemma_label_run_concat(kept_label(l), rest);
        if !(l.len() == 0 || l.len() > 63) {
            lemma_label_run_single(l);
        } else {
            assert(kept_label(l) + rest =~= rest);
        }
        let all = kept_label(l) + rest;
        assert forall|k: int| 0 <= k < all.len() implies 1 <= #[trigger] all[k].len() <= 63 by {
            if k >= kept_label(l).len() {
                assert(all[k] == rest[k - kept_label(l).len()]);
            }
        }
    } else {
        lemma_labels_from_run(s, start, i + 1);
    }
}

/// Reading back an encoded name gives the labels `encode_name` kept (the
/// name split at its dots, empty and overlong labels left out), ending at
/// the end of the encoding, when there are at most 127 of them.
pub proof fn lemma_read_name_undoes_encode_name(name: Seq<u8>)
    requires
        dotted_labels(name).len() <= 127,
    ensures
        name_at(encoded_name(name), 0) == Ok::<(Seq<Seq<u8>>, int), DnsFault>(
            (dotted_labels(name), encoded_name(name).len() as int),
        ),
{
    lemma_encoded_name_plain(name, seq![], seq![]);
    let e = encoded_name(name);
    assert(Seq::<u8>::empty() + e + Seq::<u8>::empty() =~= e);
    lemma_read_plain_name(e, 0, dotted_labels(name));
}

proof fn lemma_encoded_name_plain(name: Seq<u8>, pre: Seq<u8>, post: Seq<u8>)
    ensures
        labels_fit(dotted_labels(name)),
        encoded_name(name) == label_run(dotted_labels(name)).push(0),
        plain_name_at(pre + encoded_name(name) + post, pre.len() as int, dotted_labels(name)),
{
    lemma_labels_from_run(name, 0, 0);
    let e = encoded_name(name);
    let d = pre + e + post;
    assert(d.subrange(pre.len() as int, (pre.len() + e.len()) as int) =~= e);
}

proof fn lemma_questions_first(names: Seq<Seq<u8>>)
    requires
        names.len() > 0,
    ensures
        questions(names) == question_bytes(names[0]) + questions(names.drop_first()),
    decreases names.len(),
{
    if names.len() == 1 {
        assert(names.drop_last() =~= Seq::<Seq<u8>>::empty());
        assert(names.drop_first() =~= Seq::<Seq<u8>>::empty());
        assert(questions(names.drop_last()) == Seq::<u8>::empty());
        assert(questions(names.drop_first()) == Seq::<u8>::empty());
        assert(names.last() == names[0]);
        assert(questions(names) == questions(names.drop_last()) + question_bytes(names.last()));
        assert(questions(names) =~= question_bytes(names[0]) + questions(names.drop_first()));
    } else {
        let init = names.drop_last();
        lemma_questions_first(init);
        assert(init.drop_first() =~= names.drop_first().drop_last());
        assert(names.drop_first().last() == names.last());
        assert(init[0] == names[0]);
        assert(questions(names) =~= question_bytes(names[0]) + questions(names.drop_first()));
    }
}

proof fn lemma_questions_concat(a: Seq<Seq<u8>>, b: Seq<Seq<u8>>)
    ensures
        questions(a + b) == questions(a) + questions(b),
    decreases b.len(),
{
    if b.len() == 0 {
        assert(a + b =~= a);
        assert(questions(a) + questions(b) =~= questions(a));
    } else {
        lemma_questions_concat(a, b.drop_last());
        assert((a + b).drop_last() =~= a + b.drop_last());
        assert((a + b).last() == b.last());
        assert(questions(a + b) =~= questions(a) + questions(b));
    }
}

proof fn lemma_skip_own_questions(pre: Seq<u8>, names: Seq<Seq<u8>>, post: Seq<u8>)
    requires
        forall|i: int| 0 <= i < names.len() ==> (#[trigger] dotted_labels(names[i])).len() <= 127,
    ensures
        skip_questions(pre + questions(names) + post, pre.len() as int, names.len()) == Ok::<
            int,
            DnsFault,
        >((pre + questions(names)).len() as int),
    decreases names.len(),
{
    let d = pre + questions(names) + post;
    if names.len() == 0 {
        assert(questions(names) =~= Seq::<u8>::empty());
    } else {
        lemma_questions_first(names);
        let n0 = names[0];
        let rest = names.drop_first();
        let tail = be16(TYPE_PTR) + be16(QCLASS_IN_QU) + questions(rest) + post;
        assert(d =~= pre + encoded_name(n0) + tail);
        lemma_encoded_name_plain(n0, pre, tail);
        assert(dotted_labels(names[0]).len() <= 127);
        lemma_read_plain_name(d, pre.len() as int, dotted_labels(n0));
        let pre2 = pre + question_bytes(n0);
        assert forall|i: int| 0 <= i < rest.len() implies (#[trigger] dotted_labels(rest[i])).len()
            <= 127 by {
            assert(rest[i] == names[i + 1]);
        }
        lemma_skip_own_questions(pre2, rest, post);
        assert(pre2 + questions(rest) + post =~= d);
        assert((pre2 + questions(rest)).len() == (pre + questions(names)).len());
    }
}

/// A query this crate builds parses as a message carrying no records: its
/// questions are passed over (with 65536 names or more the 16-bit question
/// count wraps, and only that many are) and it holds no answer, authority
/// or additional record, provided no name has more than 127 labels.
pub proof fn lemma_query_has_no_records(names: Seq<Seq<u8>>)
    requires
        forall|i: int| 0 <= i < names.len() ==> (#[trigger] dotted_labels(names[i])).len() <= 127,
    ensures
        message_records(query_bytes(names)) == Ok::<Seq<RrView>, DnsFault>(seq![]),
{
    let q = query_bytes(names);
    let qd = (names.len() % 65536) as u16;
    let header = be16(0) + be16(0) + be16(qd) + be16(0) + be16(0) + be16(0);
    assert(q =~= header + questions(names));
    assert(header.len() == 12);
    assert(q[4] == (qd / 256) as u8);
    assert(q[5] == (qd % 256) as u8);
    assert(q[6] == 0 && q[7] == 0 && q[8] == 0 && q[9] == 0 && q[10] == 0 && q[11] == 0);
    assert(from_be16(q[4], q[5]) == qd);
    assert(from_be16(q[6], q[7]) == 0);
    assert(from_be16(q[8], q[9]) == 0);
    assert(from_be16(q[10], q[11]) == 0);
    let first = names.take(qd as int);
    let later = names.skip(qd as int);
    assert(first + later =~= names);
    lemma_questions_concat(first, later);
    assert forall|i: int| 0 <= i < first.len() implies (#[trigger] dotted_labels(first[i])).len()
        <= 127 by {
        assert(first[i] == names[i]);
    }
    lemma_skip_own_questions(header, first, questions(later));
    assert(header + questions(first) + questions(later) =~= q);
}

} // verus!
