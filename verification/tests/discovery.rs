use openplay::discovery::parse::{parse_message, parse_txt, read_name, Rr, TYPE_A, TYPE_PTR, TYPE_SRV, TYPE_TXT};
use openplay::discovery::query::{build_query, QCLASS_IN_QU};
use openplay::discovery::{instance_label, Aggregator, IpAddress, SERVICE_AIRPLAY, SERVICE_RAOP};

fn push_name(buf: &mut Vec<u8>, name: &str) {
    for label in name.split('.').filter(|l| !l.is_empty()) {
        buf.push(label.len() as u8);
        buf.extend_from_slice(label.as_bytes());
    }
    buf.push(0);
}

fn header(buf: &mut Vec<u8>, an: u16) {
    buf.extend_from_slice(&[0, 0, 0, 0, 0, 0]); // id + flags + qdcount=0
    buf.extend_from_slice(&an.to_be_bytes()); // ancount
    buf.extend_from_slice(&[0, 0, 0, 0]); // ns + ar
}

fn record(buf: &mut Vec<u8>, name: &str, rtype: u16, rdata: &[u8]) {
    push_name(buf, name);
    buf.extend_from_slice(&rtype.to_be_bytes());
    buf.extend_from_slice(&1u16.to_be_bytes()); // class IN
    buf.extend_from_slice(&120u32.to_be_bytes()); // ttl
    buf.extend_from_slice(&(rdata.len() as u16).to_be_bytes());
    buf.extend_from_slice(rdata);
}

#[test]
fn parses_ptr_srv_txt_a() {
    let mut buf = Vec::new();
    header(&mut buf, 4);
    let mut ptr = Vec::new();
    push_name(&mut ptr, "Bedroom._airplay._tcp.local");
    record(&mut buf, "_airplay._tcp.local", TYPE_PTR, &ptr);

    let mut srv = Vec::new();
    srv.extend_from_slice(&[0, 0, 0, 0]); // priority + weight
    srv.extend_from_slice(&7000u16.to_be_bytes());
    push_name(&mut srv, "Bedroom.local");
    record(&mut buf, "Bedroom._airplay._tcp.local", TYPE_SRV, &srv);

    let txt = b"\x0amodel=J305\x13features=0x445D0A00";
    record(&mut buf, "Bedroom._airplay._tcp.local", TYPE_TXT, txt);
    record(&mut buf, "Bedroom.local", TYPE_A, &[192, 168, 50, 129]);

    let rrs = parse_message(&buf).expect("parse");
    assert!(rrs.contains(&Rr::Srv {
        name: "Bedroom._airplay._tcp.local".into(),
        port: 7000,
        target: "Bedroom.local".into(),
    }));
    assert!(rrs.contains(&Rr::A {
        name: "Bedroom.local".into(),
        addr: [192, 168, 50, 129],
    }));
    let has_model = rrs.iter().any(|rr| {
        matches!(rr, Rr::Txt { pairs, .. }
            if pairs.contains(&("model".into(), "J305".into())))
    });
    assert!(has_model);
}

#[test]
fn resolves_name_compression() {
    // Lay down a real name, then a second name that is only a pointer to it.
    let mut buf = Vec::new();
    let base = buf.len();
    push_name(&mut buf, "Bedroom.local");
    let ptr_at = buf.len();
    buf.push(0xC0);
    buf.push(base as u8);

    let (direct, _) = read_name(&buf, base).expect("direct name");
    assert_eq!(direct, "Bedroom.local");

    let (via_ptr, next) = read_name(&buf, ptr_at).expect("pointer name");
    assert_eq!(via_ptr, "Bedroom.local");
    assert_eq!(next, ptr_at + 2, "offset advances past the 2-byte pointer");
}

#[test]
fn rejects_reserved_label_prefix() {
    // 0x40 is a reserved label prefix (neither a length nor a pointer).
    let buf = [0x40u8, 0x01, b'x', 0x00];
    assert!(read_name(&buf, 0).is_err());
}

fn discovery_message<T>(r: Result<T, openplay::Error>) -> String {
    match r {
        Err(openplay::Error::Discovery(m)) => m,
        _ => panic!("expected a discovery error"),
    }
}

#[test]
fn name_faults_have_their_messages() {
    assert_eq!(discovery_message(read_name(&[3, b'a'], 0)), "label past end");
    assert_eq!(discovery_message(read_name(&[1, b'a'], 0)), "name past end");
    assert_eq!(discovery_message(read_name(&[0xC0], 0)), "pointer past end");
    assert_eq!(discovery_message(read_name(&[0x80, 0], 0)), "reserved label prefix");
    // A pointer to itself loops until the step limit.
    assert_eq!(discovery_message(read_name(&[0xC0, 0x00], 0)), "name loop limit");
    assert_eq!(discovery_message(parse_message(&[0; 11])), "short header");
}

#[test]
fn name_with_labels_after_a_pointer_ends_after_the_pointer() {
    let mut buf = Vec::new();
    push_name(&mut buf, "local");
    let at = buf.len();
    buf.extend_from_slice(&[7, b'B', b'e', b'd', b'r', b'o', b'o', b'm', 0xC0, 0x00]);
    let (name, next) = read_name(&buf, at).expect("name");
    assert_eq!(name, "Bedroom.local");
    assert_eq!(next, buf.len());
}

#[test]
fn message_skips_questions_and_unknown_types() {
    let mut buf = vec![0, 0, 0, 0, 0, 1, 0, 2, 0, 0, 0, 0];
    push_name(&mut buf, "_raop._tcp.local");
    buf.extend_from_slice(&[0, 12, 0, 1]);
    record(&mut buf, "x.local", 99, &[1, 2, 3]);
    record(&mut buf, "x.local", TYPE_A, &[10, 0, 0, 7]);
    let rrs = parse_message(&buf).expect("parse");
    assert_eq!(rrs, vec![Rr::A { name: "x.local".into(), addr: [10, 0, 0, 7] }]);
    let mut cut = buf.clone();
    cut.truncate(cut.len() - 1);
    assert_eq!(discovery_message(parse_message(&cut)), "rdata past end");
}

#[test]
fn txt_pairs_split_at_the_first_equals_sign() {
    let pairs = parse_txt(b"\x05a=b=c\x04flag\x00\x02k=\x09");
    assert_eq!(
        pairs,
        vec![
            ("a".to_string(), "b=c".to_string()),
            ("flag".to_string(), String::new()),
            ("k".to_string(), String::new()),
        ]
    );
}

#[test]
fn query_has_one_question_with_qu_bit() {
    let q = build_query(&["_raop._tcp.local"]);
    assert_eq!(u16::from_be_bytes([q[4], q[5]]), 1, "qdcount");
    // Encoded name: 5 raop, 4 _tcp, 5 local, terminator.
    assert_eq!(&q[12..18], b"\x05_raop");
    let tail = &q[q.len() - 4..];
    assert_eq!(u16::from_be_bytes([tail[0], tail[1]]), TYPE_PTR);
    assert_eq!(u16::from_be_bytes([tail[2], tail[3]]), QCLASS_IN_QU);
}

#[test]
fn query_bytes_are_exact() {
    let q = build_query(&[SERVICE_AIRPLAY, "a..b"]);
    let mut expected = vec![0, 0, 0, 0, 0, 2, 0, 0, 0, 0, 0, 0];
    expected.extend_from_slice(b"\x08_airplay\x04_tcp\x05local\x00\x00\x0c\x80\x01");
    expected.extend_from_slice(b"\x01a\x01b\x00\x00\x0c\x80\x01");
    assert_eq!(q, expected);
}

#[test]
fn query_drops_overlong_labels() {
    let long = "x".repeat(64);
    let q = build_query(&[long.as_str()]);
    assert_eq!(&q[12..], &[0, 0, 12, 0x80, 1]);
}

#[test]
fn parses_its_own_query_as_no_records() {
    let q = build_query(&[SERVICE_AIRPLAY, SERVICE_RAOP]);
    assert_eq!(parse_message(&q).expect("parse"), Vec::<Rr>::new());
}

#[test]
fn joins_srv_txt_and_addr_by_instance() {
    let mut agg = Aggregator::default();
    agg.ingest(vec![
        Rr::Srv {
            name: "Bedroom._airplay._tcp.local".into(),
            port: 7000,
            target: "Bedroom.local".into(),
        },
        Rr::Txt {
            name: "Bedroom._airplay._tcp.local".into(),
            pairs: vec![("model".into(), "J305".into())],
        },
        Rr::A {
            name: "Bedroom.local".into(),
            addr: [192, 168, 50, 129],
        },
    ]);
    let recs = agg.finish(&[SERVICE_AIRPLAY]);
    assert_eq!(recs.len(), 1);
    let r = &recs[0];
    assert_eq!(r.instance, "Bedroom");
    assert_eq!(r.port, 7000);
    assert_eq!(r.addrs, vec![IpAddress::V4([192, 168, 50, 129])]);
    assert_eq!(r.txt.get("model").map(String::as_str), Some("J305"));
}

#[test]
fn rejects_suffix_without_label_boundary() {
    let mut agg = Aggregator::default();
    agg.ingest(vec![Rr::Srv {
        name: "bogusx_airplay._tcp.local".into(),
        port: 7000,
        target: "bogus.local".into(),
    }]);
    assert!(agg.finish(&[SERVICE_AIRPLAY]).is_empty());
}

#[test]
fn dedups_repeated_addresses() {
    let mut agg = Aggregator::default();
    let a = Rr::A {
        name: "Bedroom.local".into(),
        addr: [10, 0, 0, 5],
    };
    agg.ingest(vec![a.clone()]);
    agg.ingest(vec![a]);
    assert_eq!(agg.addrs_for("Bedroom.local").map(Vec::len), Some(1));
}

#[test]
fn finish_orders_by_instance_and_follows_ptr_targets() {
    let mut agg = Aggregator::new();
    agg.ingest(vec![
        Rr::Srv { name: "Zed._raop._tcp.local".into(), port: 1, target: "z.local".into() },
        Rr::Srv { name: "Alpha._raop._tcp.local".into(), port: 2, target: "a.local".into() },
        Rr::Srv { name: "custom-name".into(), port: 3, target: "c.local".into() },
        Rr::Ptr { name: "_raop._tcp.local".into(), target: "custom-name".into() },
        Rr::Srv { name: "Zed._raop._tcp.local".into(), port: 4, target: "z.local".into() },
        Rr::Aaaa { name: "a.local".into(), addr: [0xfe, 0x80, 0, 0, 0, 0, 0, 0, 0, 0, 0, 0, 0, 0, 0, 1] },
        Rr::A { name: "a.local".into(), addr: [10, 0, 0, 1] },
        Rr::Aaaa { name: "a.local".into(), addr: [0xfe, 0x80, 0, 0, 0, 0, 0, 0, 0, 0, 0, 0, 0, 0, 0, 1] },
        Rr::Txt {
            name: "Alpha._raop._tcp.local".into(),
            pairs: vec![("b".into(), "1".into()), ("a".into(), "2".into()), ("b".into(), "3".into())],
        },
    ]);
    let recs = agg.finish(&[SERVICE_RAOP]);
    let names: Vec<&str> = recs.iter().map(|r| r.instance.as_str()).collect();
    assert_eq!(names, vec!["Alpha", "Zed", "custom-name"]);
    assert_eq!(recs[1].port, 4);
    assert_eq!(recs[0].addrs.len(), 2);
    assert_eq!(recs[0].addrs[1], IpAddress::V4([10, 0, 0, 1]));
    let keys: Vec<&str> = recs[0].txt.entries().iter().map(|e| e.0.as_str()).collect();
    assert_eq!(keys, vec!["a", "b"]);
    assert_eq!(recs[0].txt.get("b").map(String::as_str), Some("3"));
    assert!(recs[2].addrs.is_empty());
}

#[test]
fn instance_label_strips_the_service_type() {
    assert_eq!(instance_label("Living Room._airplay._tcp.local"), "Living Room");
    assert_eq!(instance_label("plain.local"), "plain.local");
    assert_eq!(instance_label("Bedroom._airplay._tcp.local"), "Bedroom");
    assert_eq!(instance_label("A._B._airplay._tcp.local"), "A._B");
    assert_eq!(instance_label("Mr. Bean._raop._tcp.local"), "Mr. Bean");
    assert_eq!(instance_label("x._airplay._udp.local"), "x._airplay._udp.local");
    assert_eq!(instance_label("._tcp.local"), "._tcp.local");
    assert_eq!(instance_label("noservice._tcp.local"), "noservice._tcp.local");
}

#[test]
fn plain_and_pointed_names_read_back() {
    let buf = b"\x07Bedroom\x05local\x00";
    assert_eq!(read_name(buf, 0).expect("name"), ("Bedroom.local".to_string(), 15));
    assert_eq!(read_name(&[0u8], 0).expect("root"), (String::new(), 1));
    let mut with_ptr = buf.to_vec();
    with_ptr.extend_from_slice(&[0xC0, 0x00]);
    assert_eq!(read_name(&with_ptr, 15).expect("pointer"), ("Bedroom.local".to_string(), 17));
}

#[test]
fn encoded_names_read_back_as_their_labels() {
    let q = build_query(&["..Bedroom..local."]);
    let (name, next) = read_name(&q, 12).expect("name");
    assert_eq!(name, "Bedroom.local");
    assert_eq!(next, q.len() - 4);
}

#[test]
fn datagrams_that_do_not_parse_are_ignored() {
    let mut agg = Aggregator::new();
    agg.ingest_datagram(&[1, 2, 3]);
    let mut buf = Vec::new();
    header(&mut buf, 1);
    let mut srv = vec![0, 0, 0, 0];
    srv.extend_from_slice(&7000u16.to_be_bytes());
    push_name(&mut srv, "Bedroom.local");
    record(&mut buf, "A._B._airplay._tcp.local", TYPE_SRV, &srv);
    agg.ingest_datagram(&buf);
    let mut truncated = buf.clone();
    truncated.pop();
    agg.ingest_datagram(&truncated);
    let recs = agg.finish(&[SERVICE_AIRPLAY]);
    assert_eq!(recs.len(), 1);
    assert_eq!(recs[0].instance, "A._B");
    assert_eq!(recs[0].port, 7000);
    assert_eq!(recs[0].host, "Bedroom.local");
}

#[test]
fn a_query_with_a_wrapped_question_count_still_has_no_records() {
    let names = vec!["a.local"; 65537];
    let q = build_query(&names);
    assert_eq!(u16::from_be_bytes([q[4], q[5]]), 1);
    assert_eq!(parse_message(&q).expect("parse"), Vec::<Rr>::new());
}
