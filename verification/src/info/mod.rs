//! The AirPlay `GET /info` endpoint.
//!
//! `/info` is served unencrypted before pairing and returns a binary plist
//! describing the receiver: capability bits, supported audio formats, its
//! public key, and identifiers. We parse the fields the sender needs to decide
//! how to pair and stream. The connection itself is the caller's.

use vstd::prelude::*;

use crate::error::Error;
use crate::octets::append_all;
use crate::rtsp::codec::{fault_message as rtsp_fault_message, response_of};
use crate::rtsp::{parse_response, Request, Response, ResponseView};
use crate::text::{decimal_text, text_concat, text_with_number};

verus! {

#[verifier::external_type_specification]
#[verifier::external_body]
pub struct ExPlistDictionary(plist::Dictionary);

/// A dictionary value as the contracts see it.
pub enum PlistField {
    /// No value under the key.
    Missing,
    /// A string.
    Text(Seq<char>),
    /// An integer, with its `u64` and `i64` readings where it fits them.
    Integer { unsigned: Option<u64>, signed: Option<i64> },
    /// A data blob.
    Data(Seq<u8>),
    /// Any other kind of value.
    Other,
}

/// A dictionary value as the logic reads it.
pub enum PlistItem {
    Missing,
    Text(String),
    Integer { unsigned: Option<u64>, signed: Option<i64> },
    Data(Vec<u8>),
    Other,
}

impl View for PlistItem {
    type V = PlistField;

    open spec fn view(&self) -> PlistField {
        match self {
            PlistItem::Missing => PlistField::Missing,
            PlistItem::Text(s) => PlistField::Text(s@),
            PlistItem::Integer { unsigned, signed } => PlistField::Integer {
                unsigned: *unsigned,
                signed: *signed,
            },
            PlistItem::Data(d) => PlistField::Data(d@),
            PlistItem::Other => PlistField::Other,
        }
    }
}

/// What a `plist::Dictionary` holds, key by key.
pub uninterp spec fn dictionary_entries(d: plist::Dictionary) -> Map<Seq<char>, PlistField>;

/// What a byte string is as a plist.
pub enum PlistDocument {
    /// Not a plist; the text of the reader's error.
    Invalid(Seq<char>),
    /// A plist whose root is not a dictionary.
    NotDictionary,
    /// A plist whose root is a dictionary holding these entries.
    Dictionary(Map<Seq<char>, PlistField>),
}

/// What `plist::Value::from_reader` reads from these bytes.
pub uninterp spec fn plist_document(bytes: Seq<u8>) -> PlistDocument;

/// `plist::Value::from_reader` over the bytes, then `Value::into_dictionary`.
/// Claimed: the outcome is the one `plist_document` names for the bytes, an
/// error carrying its `Display` text, a dictionary carrying its entries.
#[verifier::external_body]
fn read_plist_dictionary(bytes: &[u8]) -> (r: Result<Option<plist::Dictionary>, String>)
    ensures
        match r {
            Err(m) => plist_document(bytes@) == PlistDocument::Invalid(m@),
            Ok(None) => plist_document(bytes@) == PlistDocument::NotDictionary,
            Ok(Some(d)) => plist_document(bytes@) == PlistDocument::Dictionary(
                dictionary_entries(d),
            ),
        },
{
    match plist::Value::from_reader(std::io::Cursor::new(bytes)) {
        Ok(v) => Ok(v.into_dictionary()),
        Err(e) => Err(e.to_string()),
    }
}

/// The value under `key`, or `Missing`.
pub open spec fn field(m: Map<Seq<char>, PlistField>, key: Seq<char>) -> PlistField {
    if m.contains_key(key) {
        m[key]
    } else {
        PlistField::Missing
    }
}

/// `plist::Dictionary::get`, the value told apart by kind. Claimed: the item
/// is what the dictionary holds under the key (`Missing` when nothing is),
/// with `Integer::as_unsigned` and `Integer::as_signed` for integers.
#[verifier::external_body]
fn dictionary_get(d: &plist::Dictionary, key: &str) -> (item: PlistItem)
    ensures
        item@ == field(dictionary_entries(*d), key@),
{
    match d.get(key) {
        None => PlistItem::Missing,
        Some(plist::Value::String(s)) => PlistItem::Text(s.clone()),
        Some(plist::Value::Integer(i)) => PlistItem::Integer {
            unsigned: i.as_unsigned(),
            signed: i.as_signed(),
        },
        Some(plist::Value::Data(b)) => PlistItem::Data(b.clone()),
        Some(_) => PlistItem::Other,
    }
}

/// Receiver description parsed from `/info`.
#[derive(Debug, Clone)]
pub struct DeviceInfo {
    pub name: String,
    pub model: String,
    pub device_id: String,
    pub source_version: String,
    /// 64-bit capability bitmask (`features`); bit 48 = transient pairing.
    pub features: u64,
    pub status_flags: u64,
    /// Receiver Ed25519 public key (`pk`).
    pub public_key: Vec<u8>,
}

/// A receiver description as the contracts see it.
pub struct DeviceInfoView {
    pub name: Seq<char>,
    pub model: Seq<char>,
    pub device_id: Seq<char>,
    pub source_version: Seq<char>,
    pub features: u64,
    pub status_flags: u64,
    pub public_key: Seq<u8>,
}

impl View for DeviceInfo {
    type V = DeviceInfoView;

    open spec fn view(&self) -> DeviceInfoView {
        DeviceInfoView {
            name: self.name@,
            model: self.model@,
            device_id: self.device_id@,
            source_version: self.source_version@,
            features: self.features,
            status_flags: self.status_flags,
            public_key: self.public_key@,
        }
    }
}

/// A plist integer as `u64`: its unsigned reading first, so masks with bit 63
/// set survive, else a non-negative signed reading; negatives are refused.
pub open spec fn plist_uint_of(f: PlistField) -> Option<u64> {
    match f {
        PlistField::Integer { unsigned, signed } => match unsigned {
            Some(u) => Some(u),
            None => match signed {
                Some(s) => if s >= 0 {
                    Some(s as u64)
                } else {
                    None
                },
                None => None,
            },
        },
        _ => None,
    }
}

/// The error for a missing or mistyped field.
pub open spec fn missing(key: Seq<char>) -> Seq<char> {
    "info: missing "@ + key
}

/// A string field, or the message of its absence.
pub open spec fn string_field_of(m: Map<Seq<char>, PlistField>, key: Seq<char>) -> Result<
    Seq<char>,
    Seq<char>,
> {
    match field(m, key) {
        PlistField::Text(s) => Ok(s),
        _ => Err(missing(key)),
    }
}

/// An unsigned integer field, or the message of its absence.
pub open spec fn u64_field_of(m: Map<Seq<char>, PlistField>, key: Seq<char>) -> Result<
    u64,
    Seq<char>,
> {
    match plist_uint_of(field(m, key)) {
        Some(u) => Ok(u),
        None => Err(missing(key)),
    }
}

/// `statusFlags`: zero when absent, an unsigned integer when present.
pub open spec fn status_flags_of(m: Map<Seq<char>, PlistField>) -> Result<u64, Seq<char>> {
    match field(m, "statusFlags"@) {
        PlistField::Missing => Ok(0),
        f => match plist_uint_of(f) {
            Some(u) => Ok(u),
            None => Err("info: bad statusFlags"@),
        },
    }
}

/// `pk`: a data value of exactly 32 bytes.
pub open spec fn public_key_of(m: Map<Seq<char>, PlistField>) -> Result<Seq<u8>, Seq<char>> {
    match field(m, "pk"@) {
        PlistField::Data(d) => if d.len() == 32 {
            Ok(d)
        } else {
            Err("info: pk is "@ + decimal_text(d.len()) + " bytes"@)
        },
        _ => Err("info: missing pk"@),
    }
}

/// The receiver a dictionary describes, or the message of the first field
/// (in the order name, model, deviceID, sourceVersion, features, statusFlags,
/// pk) that is missing or malformed.
pub open spec fn info_of(m: Map<Seq<char>, PlistField>) -> Result<DeviceInfoView, Seq<char>> {
    match string_field_of(m, "name"@) {
        Err(e) => Err(e),
        Ok(name) => match string_field_of(m, "model"@) {
            Err(e) => Err(e),
            Ok(model) => match string_field_of(m, "deviceID"@) {
                Err(e) => Err(e),
                Ok(device_id) => match string_field_of(m, "sourceVersion"@) {
                    Err(e) => Err(e),
                    Ok(source_version) => match u64_field_of(m, "features"@) {
                        Err(e) => Err(e),
                        Ok(features) => match status_flags_of(m) {
                            Err(e) => Err(e),
                            Ok(status_flags) => match public_key_of(m) {
                                Err(e) => Err(e),
                                Ok(public_key) => Ok(
                                    DeviceInfoView {
                                        name,
                                        model,
                                        device_id,
                                        source_version,
                                        features,
                                        status_flags,
                                        public_key,
                                    },
                                ),
                            },
                        },
                    },
                },
            },
        },
    }
}

/// What an `/info` body describes, or the message of why it does not.
pub open spec fn device_info_of(bytes: Seq<u8>) -> Result<DeviceInfoView, Seq<char>> {
    match plist_document(bytes) {
        PlistDocument::Invalid(m) => Err(m),
        PlistDocument::NotDictionary => Err("info: not a dictionary"@),
        PlistDocument::Dictionary(m) => info_of(m),
    }
}

/// Each field of a receiver description comes from its own key of the
/// dictionary: `name`, `model`, `deviceID` and `sourceVersion` strings,
/// `features` an unsigned integer, `statusFlags` an unsigned integer or zero
/// when absent, `pk` 32 bytes of data; and a dictionary holding all of those
/// describes a receiver.
pub proof fn lemma_info_fields(m: Map<Seq<char>, PlistField>)
    ensures
        info_of(m) matches Ok(v) ==> {
            &&& field(m, "name"@) == PlistField::Text(v.name)
            &&& field(m, "model"@) == PlistField::Text(v.model)
            &&& field(m, "deviceID"@) == PlistField::Text(v.device_id)
            &&& field(m, "sourceVersion"@) == PlistField::Text(v.source_version)
            &&& plist_uint_of(field(m, "features"@)) == Some(v.features)
            &&& (field(m, "statusFlags"@) == PlistField::Missing && v.status_flags == 0)
                || plist_uint_of(field(m, "statusFlags"@)) == Some(v.status_flags)
            &&& field(m, "pk"@) == PlistField::Data(v.public_key)
            &&& v.public_key.len() == 32
        },
        (field(m, "name"@) is Text && field(m, "model"@) is Text && field(m, "deviceID"@) is Text
            && field(m, "sourceVersion"@) is Text && plist_uint_of(field(m, "features"@)) is Some
            && (field(m, "statusFlags"@) == PlistField::Missing || plist_uint_of(
            field(m, "statusFlags"@),
        ) is Some) && (field(m, "pk"@) matches PlistField::Data(d) && d.len() == 32)) ==> info_of(
            m,
        ) is Ok,
{
}

fn protocol_error(m: String) -> (e: Error)
    ensures
        e matches Error::Protocol(t) && t@ == m@,
{
    Error::Protocol(m)
}

fn plist_uint(item: &PlistItem) -> (r: Option<u64>)
    ensures
        r == plist_uint_of(item@),
{
    match item {
        PlistItem::Integer { unsigned, signed } => match unsigned {
            Some(u) => Some(*u),
            None => match signed {
                Some(s) => if *s >= 0 {
                    Some(*s as u64)
                } else {
                    None
                },
                None => None,
            },
        },
        _ => None,
    }
}

fn string_field(d: &plist::Dictionary, key: &str) -> (r: Result<String, Error>)
    ensures
        match (r, string_field_of(dictionary_entries(*d), key@)) {
            (Ok(s), Ok(t)) => s@ == t,
            (Err(e), Err(t)) => e matches Error::Protocol(m) && m@ == t,
            _ => false,
        },
{
    match dictionary_get(d, key) {
        PlistItem::Text(s) => Ok(s),
        _ => Err(protocol_error(text_concat("info: missing ", key))),
    }
}

fn u64_field(d: &plist::Dictionary, key: &str) -> (r: Result<u64, Error>)
    ensures
        match (r, u64_field_of(dictionary_entries(*d), key@)) {
            (Ok(u), Ok(v)) => u == v,
            (Err(e), Err(t)) => e matches Error::Protocol(m) && m@ == t,
            _ => false,
        },
{
    match plist_uint(&dictionary_get(d, key)) {
        Some(u) => Ok(u),
        None => Err(protocol_error(text_concat("info: missing ", key))),
    }
}

fn public_key(d: &plist::Dictionary) -> (r: Result<Vec<u8>, Error>)
    ensures
        match (r, public_key_of(dictionary_entries(*d))) {
            (Ok(k), Ok(v)) => k@ == v,
            (Err(e), Err(t)) => e matches Error::Protocol(m) && m@ == t,
            _ => false,
        },
{
    match dictionary_get(d, "pk") {
        PlistItem::Data(data) => {
            if data.len() != 32 {
                let mut m = text_with_number("info: pk is ", data.len() as u64);
                m.append(" bytes");
                return Err(protocol_error(m));
            }
            Ok(data)
        },
        _ => Err(protocol_error(String::from_str("info: missing pk"))),
    }
}

impl DeviceInfo {
    /// Whether the receiver advertises HomeKit transient pairing (feature 48).
    pub fn supports_transient_pairing(&self) -> (r: bool)
        ensures
            r == (self.features & 0x1_0000_0000_0000u64 != 0),
    {
        assert(1u64 << 48 == 0x1_0000_0000_0000u64) by (bit_vector);
        self.features & (1u64 << 48) != 0
    }

    /// Parse a `/info` binary plist body.
    pub fn from_plist(bytes: &[u8]) -> (r: Result<DeviceInfo, Error>)
        ensures
            match (r, device_info_of(bytes@)) {
                (Ok(info), Ok(v)) => info@ == v,
                (Err(e), Err(t)) => e matches Error::Protocol(m) && m@ == t,
                _ => false,
            },
    {
        let dict = match read_plist_dictionary(bytes) {
            Err(m) => {
                return Err(protocol_error(m));
            },
            Ok(None) => {
                return Err(protocol_error(String::from_str("info: not a dictionary")));
            },
            Ok(Some(d)) => d,
        };
        DeviceInfo::from_dictionary(&dict)
    }

    /// The receiver a parsed `/info` dictionary describes, or the message of
    /// the first field that is missing or malformed.
    pub fn from_dictionary(dict: &plist::Dictionary) -> (r: Result<DeviceInfo, Error>)
        ensures
            match (r, info_of(dictionary_entries(*dict))) {
                (Ok(info), Ok(v)) => info@ == v,
                (Err(e), Err(t)) => e matches Error::Protocol(m) && m@ == t,
                _ => false,
            },
    {
        let name = match string_field(dict, "name") {
            Ok(s) => s,
            Err(e) => {
                return Err(e);
            },
        };
        let model = match string_field(dict, "model") {
            Ok(s) => s,
            Err(e) => {
                return Err(e);
            },
        };
        let device_id = match string_field(dict, "deviceID") {
            Ok(s) => s,
            Err(e) => {
                return Err(e);
            },
        };
        let source_version = match string_field(dict, "sourceVersion") {
            Ok(s) => s,
            Err(e) => {
                return Err(e);
            },
        };
        let features = match u64_field(dict, "features") {
            Ok(u) => u,
            Err(e) => {
                return Err(e);
            },
        };
        let status_flags = match dictionary_get(dict, "statusFlags") {
            PlistItem::Missing => 0,
            item => match plist_uint(&item) {
                Some(u) => u,
                None => {
                    return Err(protocol_error(String::from_str("info: bad statusFlags")));
                },
            },
        };
        let public_key = match public_key(dict) {
            Ok(k) => k,
            Err(e) => {
                return Err(e);
            },
        };
        Ok(
            DeviceInfo {
                name,
                model,
                device_id,
                source_version,
                features,
                status_flags,
                public_key,
            },
        )
    }
}

/// Upper bound on a `/info` response; the real one is ~1.5 KiB. Guards against a
/// broken or hostile receiver streaming without end.
pub const MAX_INFO_RESPONSE: usize = 65536;

/// The `GET /info` request: `CSeq: 0` and the caller's `User-Agent`.
pub fn info_request(user_agent: &str) -> (r: Request)
    ensures
        r.method@ == "GET"@,
        r.uri@ == "/info"@,
        r.headers@ == seq![("CSeq"@, "0"@), ("User-Agent"@, user_agent@)],
        r.body@ == Seq::<u8>::empty(),
{
    let r = Request::new("GET", "/info").header("CSeq", "0").header("User-Agent", user_agent);
    assert(r.headers@ =~= seq![("CSeq"@, "0"@), ("User-Agent"@, user_agent@)]);
    r
}

/// What an `/info` response yields: a 2xx body parsed as the receiver's
/// description, any other status refused.
pub open spec fn info_from_response_of(resp: ResponseView) -> Result<DeviceInfoView, Seq<char>> {
    if !(200 <= resp.status < 300) {
        Err("/info status "@ + decimal_text(resp.status as nat))
    } else {
        device_info_of(resp.body)
    }
}

/// The receiver description an `/info` response carries.
pub fn info_from_response(response: &Response) -> (r: Result<DeviceInfo, Error>)
    ensures
        match (r, info_from_response_of(response@)) {
            (Ok(info), Ok(v)) => info@ == v,
            (Err(e), Err(t)) => e matches Error::Protocol(m) && m@ == t,
            _ => false,
        },
{
    if !response.is_success() {
        return Err(protocol_error(text_with_number("/info status ", response.status as u64)));
    }
    DeviceInfo::from_plist(response.body.as_slice())
}

/// One look at the bytes received so far: the response once it is complete.
pub fn info_read_poll(buf: &[u8]) -> (r: Result<Option<Response>, Error>)
    ensures
        match (r, response_of(buf@)) {
            (Ok(None), Ok(None)) => true,
            (Ok(Some(resp)), Ok(Some((v, _)))) => resp@ == v,
            (Err(e), Err(f)) => e matches Error::Rtsp(m) && m@ == rtsp_fault_message(f),
            _ => false,
        },
{
    match parse_response(buf) {
        Ok(Some((resp, _))) => Ok(Some(resp)),
        Ok(None) => Ok(None),
        Err(e) => Err(e),
    }
}

/// Takes in what one read returned: an empty read means the receiver closed
/// the connection, and the response may not grow past `MAX_INFO_RESPONSE`.
pub fn info_read_feed(buf: &mut Vec<u8>, chunk: &[u8]) -> (r: Result<(), Error>)
    ensures
        chunk@.len() == 0 ==> final(buf)@ == old(buf)@ && (r matches Err(Error::Protocol(m))
            && m@ == "/info connection closed"@),
        chunk@.len() > 0 ==> final(buf)@ == old(buf)@ + chunk@ && (if final(buf)@.len()
            > MAX_INFO_RESPONSE {
            r matches Err(Error::Protocol(m)) && m@ == "/info response too large"@
        } else {
            r is Ok
        }),
{
    if chunk.len() == 0 {
        return Err(protocol_error(String::from_str("/info connection closed")));
    }
    append_all(buf, chunk);
    if buf.len() > MAX_INFO_RESPONSE {
        return Err(protocol_error(String::from_str("/info response too large")));
    }
    Ok(())
}

/// A local IPv4 bind address needs an IPv4 target.
pub fn check_bind_family(target_is_ipv4: bool, has_bind: bool) -> (r: Result<(), Error>)
    ensures
        (has_bind && !target_is_ipv4) == (r matches Err(Error::Protocol(m)) && m@
            == "cannot bind IPv4 to an IPv6 target"@),
        !(has_bind && !target_is_ipv4) ==> r is Ok,
{
    if has_bind && !target_is_ipv4 {
        return Err(protocol_error(String::from_str("cannot bind IPv4 to an IPv6 target")));
    }
    Ok(())
}

} // verus!
