use openplay::info::{check_bind_family, info_from_response, info_read_feed, info_read_poll, info_request, DeviceInfo, MAX_INFO_RESPONSE};
use openplay::rtsp::parse_response;

fn info_plist(entries: Vec<(&str, plist::Value)>) -> Vec<u8> {
    let mut dict = plist::Dictionary::new();
    for (k, v) in entries {
        dict.insert(k.to_string(), v);
    }
    let mut out = Vec::new();
    plist::Value::Dictionary(dict).to_writer_binary(&mut out).expect("serialize");
    out
}

// The fields of the `GET /info` response body of HomePod mini "Bedroom".
fn homepod_entries() -> Vec<(&'static str, plist::Value)> {
    vec![
        ("name", plist::Value::String("Bedroom".to_string())),
        ("model", plist::Value::String("AudioAccessory5,1".to_string())),
        ("deviceID", plist::Value::String("F4:34:F0:5B:6C:2D".to_string())),
        ("sourceVersion", plist::Value::String("950.7.1".to_string())),
        ("features", plist::Value::Integer(0x3c354bd04a7fca00u64.into())),
        ("statusFlags", plist::Value::Integer(4u64.into())),
        ("pk", plist::Value::Data((0u8..32).collect())),
        ("txtAirPlay", plist::Value::Data(vec![1, 2, 3])),
    ]
}

fn protocol_message<T>(r: Result<T, openplay::Error>) -> String {
    match r {
        Err(openplay::Error::Protocol(m)) => m,
        _ => panic!("expected a protocol error"),
    }
}

#[test]
fn parses_real_homepod_info() {
    let info = DeviceInfo::from_plist(&info_plist(homepod_entries())).expect("parse");
    assert_eq!(info.name, "Bedroom");
    assert_eq!(info.model, "AudioAccessory5,1");
    assert_eq!(info.source_version, "950.7.1");
    assert_eq!(info.public_key.len(), 32);
    assert_eq!(info.features, 0x3c354bd04a7fca00);
}

#[test]
fn detects_transient_pairing_support() {
    let info = DeviceInfo::from_plist(&info_plist(homepod_entries())).expect("parse");
    assert!(info.supports_transient_pairing());
}

#[test]
fn rejects_non_dictionary_plist() {
    // A bare bplist integer, not a dictionary.
    let bytes = b"bplist00\x10\x2a\x08\x00\x00\x00\x00\x00\x00\x01\x01\x00\x00\x00\x00\x00\x00\x00\x01\x00\x00\x00\x00\x00\x00\x00\x00\x00\x00\x00\x00\x00\x00\x00\x0a";
    assert!(DeviceInfo::from_plist(bytes).is_err());
}

#[test]
fn field_faults_have_their_messages() {
    let mut e = homepod_entries();
    e.retain(|(k, _)| *k != "model");
    assert_eq!(protocol_message(DeviceInfo::from_plist(&info_plist(e))), "info: missing model");

    let mut e = homepod_entries();
    e.retain(|(k, _)| *k != "pk");
    e.push(("pk", plist::Value::Data(vec![0; 31])));
    assert_eq!(protocol_message(DeviceInfo::from_plist(&info_plist(e))), "info: pk is 31 bytes");

    let mut e = homepod_entries();
    e.retain(|(k, _)| *k != "statusFlags");
    e.push(("statusFlags", plist::Value::Integer((-1i64).into())));
    assert_eq!(protocol_message(DeviceInfo::from_plist(&info_plist(e))), "info: bad statusFlags");

    let mut e = homepod_entries();
    e.retain(|(k, _)| *k != "features");
    e.push(("features", plist::Value::String("0x1".to_string())));
    assert_eq!(protocol_message(DeviceInfo::from_plist(&info_plist(e))), "info: missing features");

    assert_eq!(
        protocol_message(DeviceInfo::from_plist(&info_plist(vec![]))),
        "info: missing name"
    );
    let not_dict = {
        let mut out = Vec::new();
        plist::Value::Array(vec![]).to_writer_binary(&mut out).expect("serialize");
        out
    };
    assert_eq!(protocol_message(DeviceInfo::from_plist(&not_dict)), "info: not a dictionary");
}

#[test]
fn absent_status_flags_are_zero_and_bit_48_is_the_pairing_bit() {
    let mut e = homepod_entries();
    e.retain(|(k, _)| *k != "statusFlags" && *k != "features");
    e.push(("features", plist::Value::Integer(0x0000_ffff_ffff_ffffu64.into())));
    let info = DeviceInfo::from_plist(&info_plist(e)).expect("parse");
    assert_eq!(info.status_flags, 0);
    assert!(!info.supports_transient_pairing());
    let mut e = homepod_entries();
    e.retain(|(k, _)| *k != "features");
    e.push(("features", plist::Value::Integer((1u64 << 48).into())));
    assert!(DeviceInfo::from_plist(&info_plist(e)).expect("parse").supports_transient_pairing());
}

#[test]
fn info_request_and_response_handling() {
    let wire = info_request("openplay/0.1").encode();
    assert_eq!(
        wire,
        b"GET /info RTSP/1.0\r\nCSeq: 0\r\nUser-Agent: openplay/0.1\r\nContent-Length: 0\r\n\r\n".to_vec()
    );
    let body = info_plist(homepod_entries());
    let mut raw = format!("RTSP/1.0 200 OK\r\nContent-Length: {}\r\n\r\n", body.len()).into_bytes();
    raw.extend_from_slice(&body);
    let (resp, _) = parse_response(&raw).expect("ok").expect("complete");
    assert_eq!(info_from_response(&resp).expect("info").name, "Bedroom");
    let (denied, _) = parse_response(b"RTSP/1.0 403 Forbidden\r\n\r\n").expect("ok").expect("complete");
    assert_eq!(protocol_message(info_from_response(&denied)), "/info status 403");
}

#[test]
fn reading_an_info_response_in_chunks() {
    let mut buf = Vec::new();
    assert!(info_read_poll(&buf).expect("ok").is_none());
    info_read_feed(&mut buf, b"RTSP/1.0 200 OK\r\nContent-").expect("fed");
    assert!(info_read_poll(&buf).expect("ok").is_none());
    info_read_feed(&mut buf, b"Length: 2\r\n\r\nhi").expect("fed");
    assert_eq!(info_read_poll(&buf).expect("ok").expect("complete").body, b"hi");
    assert_eq!(protocol_message(info_read_feed(&mut buf, b"")), "/info connection closed");
    let mut big = Vec::new();
    assert_eq!(
        protocol_message(info_read_feed(&mut big, &vec![0u8; MAX_INFO_RESPONSE + 1])),
        "/info response too large"
    );
    assert!(check_bind_family(true, true).is_ok());
    assert!(check_bind_family(false, false).is_ok());
    assert_eq!(
        protocol_message(check_bind_family(false, true)),
        "cannot bind IPv4 to an IPv6 target"
    );
}

#[test]
fn a_parsed_dictionary_describes_the_receiver() {
    let mut dict = plist::Dictionary::new();
    for (k, v) in homepod_entries() {
        dict.insert(k.to_string(), v);
    }
    let info = DeviceInfo::from_dictionary(&dict).expect("info");
    assert_eq!(info.name, "Bedroom");
    assert_eq!(info.status_flags, 4);
    dict.remove("model");
    assert_eq!(protocol_message(DeviceInfo::from_dictionary(&dict)), "info: missing model");
}
