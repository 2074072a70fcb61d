//! The two records of the service table and their byte layout.
//!
//! A frontend key and a backend value are eight bytes each: the IPv4 address
//! and the port in network byte order, then a 16-bit field in little-endian
//! order. In a key that field is the slave index, in a value it is the count
//! (beside a master key) or the weight (beside a slave key).

use vstd::prelude::*;
use vstd::string::*;
use crate::order::Ranked;
use crate::text::{
    bounded_decimal, chars_of, decimal_text, digits_end, digits_value, is_digit, parse_decimal,
    push_decimal, scan_digits, lemma_decimal_text, lemma_digits_end_of_run,
};

verus! {

/// Length in bytes of an encoded frontend key.
pub const KEY_SIZE: usize = 8;

/// Length in bytes of an encoded backend value.
pub const VALUE_SIZE: usize = 8;

/// The largest value of a 16-bit field.
pub const FIELD_MAX: u32 = 0xffff;

/// The weight this tool gives every backend.
pub const DEFAULT_WEIGHT: u16 = 1;

/// Why a record could not be encoded or decoded.
#[derive(Debug, Clone, Copy, PartialEq, Eq, Structural)]
pub enum CodecError {
    /// The port does not fit in 16 bits.
    PortOutOfRange,
    /// The slave index does not fit in 16 bits.
    SlaveOutOfRange,
    /// The weight or count does not fit in 16 bits.
    WeightOutOfRange,
    /// The bytes do not have the length of a record.
    WrongLength,
}

/// An IPv4 address and a port: where a service listens or a backend serves.
///
/// The address is held as a number whose most significant byte is the first
/// octet of the dotted form.
#[derive(Debug, Clone, Copy, PartialEq, Eq, Structural)]
pub struct Endpoint {
    pub address: u32,
    pub port: u16,
}

impl Ranked for Endpoint {
    /// Endpoints are ordered by address, then by port.
    open spec fn rank(&self) -> nat {
        (self.address * 0x1_0000 + self.port) as nat
    }

    fn rank_value(&self) -> (r: u64) {
        self.address as u64 * 0x1_0000 + self.port as u64
    }

    proof fn lemma_rank_injective(&self, other: &Self) {
    }
}

/// What a field of a dotted address reads as: one to three decimal digits,
/// without a leading zero unless the field is the single digit 0, and of a
/// value that fits a byte.
pub open spec fn octet_field(s: Seq<char>) -> Option<u8> {
    if 1 <= s.len() <= 3 && (s.len() == 1 || s[0] != '0') && bounded_decimal(s, 255) is Some {
        Some(digits_value(s) as u8)
    } else {
        None
    }
}

/// The address with the given octets, the first being the most significant.
pub open spec fn address_of(a: u8, b: u8, c: u8, d: u8) -> u32 {
    (a * 0x100_0000 + b * 0x1_0000 + c * 0x100 + d) as u32
}

/// What `s` reads as: four address fields separated by a dot each, a colon,
/// and a port in decimal, at most 65535, which may have leading zeros.
/// Each field is the longest run of digits at its place, and nothing may
/// follow the port.
pub open spec fn parse_endpoint(s: Seq<char>) -> Option<Endpoint> {
    let e1 = digits_end(s, 0);
    let e2 = digits_end(s, e1 + 1);
    let e3 = digits_end(s, e2 + 1);
    let e4 = digits_end(s, e3 + 1);
    let e5 = digits_end(s, e4 + 1);
    if e1 < s.len() && s[e1] == '.' && e2 < s.len() && s[e2] == '.' && e3 < s.len() && s[e3] == '.'
        && e4 < s.len() && s[e4] == ':' && e5 == s.len() {
        let a = octet_field(s.subrange(0, e1));
        let b = octet_field(s.subrange(e1 + 1, e2));
        let c = octet_field(s.subrange(e2 + 1, e3));
        let d = octet_field(s.subrange(e3 + 1, e4));
        let port = bounded_decimal(s.subrange(e4 + 1, e5), FIELD_MAX as nat);
        if a is Some && b is Some && c is Some && d is Some && port is Some {
            Some(
                Endpoint {
                    address: address_of(a->Some_0, b->Some_0, c->Some_0, d->Some_0),
                    port: port->Some_0 as u16,
                },
            )
        } else {
            None
        }
    } else {
        None
    }
}

/// The text of an endpoint: the four octets of the address in decimal, most
/// significant first and separated by dots, a colon, and the port in decimal.
pub open spec fn endpoint_text(e: Endpoint) -> Seq<char> {
    decimal_text((e.address / 0x100_0000) as nat) + seq!['.'] + decimal_text(
        (e.address / 0x1_0000 % 0x100) as nat,
    ) + seq!['.'] + decimal_text((e.address / 0x100 % 0x100) as nat) + seq!['.'] + decimal_text(
        (e.address % 0x100) as nat,
    ) + seq![':'] + decimal_text(e.port as nat)
}

proof fn lemma_octets(address: u32)
    by (bit_vector)
    ensures
        address / 0x100_0000 < 0x100,
        (address / 0x100_0000) * 0x100_0000 + (address / 0x1_0000 % 0x100) * 0x1_0000 + (address
            / 0x100 % 0x100) * 0x100 + address % 0x100 == address,
{
}

/// The text of an endpoint reads as that endpoint.
pub proof fn lemma_endpoint_text_parses(e: Endpoint)
    ensures
        parse_endpoint(endpoint_text(e)) == Some(e),
{
    let o1 = (e.address / 0x100_0000) as nat;
    let o2 = (e.address / 0x1_0000 % 0x100) as nat;
    let o3 = (e.address / 0x100 % 0x100) as nat;
    let o4 = (e.address % 0x100) as nat;
    let a = decimal_text(o1);
    let b = decimal_text(o2);
    let c = decimal_text(o3);
    let d = decimal_text(o4);
    let p = decimal_text(e.port as nat);
    let s = endpoint_text(e);
    lemma_octets(e.address);
    lemma_decimal_text(o1);
    lemma_decimal_text(o2);
    lemma_decimal_text(o3);
    lemma_decimal_text(o4);
    lemma_decimal_text(e.port as nat);
    let e1 = a.len() as int;
    let e2 = e1 + 1 + b.len();
    let e3 = e2 + 1 + c.len();
    let e4 = e3 + 1 + d.len();
    let e5 = e4 + 1 + p.len();
    assert(s.len() == e5);
    assert(s[e1] == '.' && s[e2] == '.' && s[e3] == '.' && s[e4] == ':');
    assert(s.subrange(0, e1) =~= a);
    assert(s.subrange(e1 + 1, e2) =~= b);
    assert(s.subrange(e2 + 1, e3) =~= c);
    assert(s.subrange(e3 + 1, e4) =~= d);
    assert(s.subrange(e4 + 1, e5) =~= p);
    assert forall|i: int| 0 <= i < e1 implies is_digit(#[trigger] s[i]) by {
        assert(s[i] == a[i]);
    }
    assert forall|i: int| e1 + 1 <= i < e2 implies is_digit(#[trigger] s[i]) by {
        assert(s[i] == b[i - e1 - 1]);
    }
    assert forall|i: int| e2 + 1 <= i < e3 implies is_digit(#[trigger] s[i]) by {
        assert(s[i] == c[i - e2 - 1]);
    }
    assert forall|i: int| e3 + 1 <= i < e4 implies is_digit(#[trigger] s[i]) by {
        assert(s[i] == d[i - e3 - 1]);
    }
    assert forall|i: int| e4 + 1 <= i < e5 implies is_digit(#[trigger] s[i]) by {
        assert(s[i] == p[i - e4 - 1]);
    }
    lemma_digits_end_of_run(s, 0, e1);
    lemma_digits_end_of_run(s, e1 + 1, e2);
    lemma_digits_end_of_run(s, e2 + 1, e3);
    lemma_digits_end_of_run(s, e3 + 1, e4);
    lemma_digits_end_of_run(s, e4 + 1, e5);
    assert(octet_field(a) == Some(o1 as u8));
    assert(octet_field(b) == Some(o2 as u8));
    assert(octet_field(c) == Some(o3 as u8));
    assert(octet_field(d) == Some(o4 as u8));
    assert(bounded_decimal(p, FIELD_MAX as nat) == Some(e.port as u64));
    assert(address_of(o1 as u8, o2 as u8, o3 as u8, o4 as u8) == e.address);
}

fn read_octet(s: &[char], from: usize) -> (r: (Option<u8>, usize))
    requires
        from <= s.len(),
    ensures
        r.1 == digits_end(s@, from as int),
        from <= r.1 <= s.len(),
        r.0 == octet_field(s@.subrange(from as int, r.1 as int)),
{
    let end = scan_digits(s, from);
    if end - from < 1 || end - from > 3 {
        return (None, end);
    }
    if end - from > 1 && s[from] == '0' {
        return (None, end);
    }
    match parse_decimal(s, from, end, 255) {
        Some(v) => (Some(v as u8), end),
        None => (None, end),
    }
}

fn is_char_at(s: &[char], at: usize, c: char) -> (yes: bool)
    ensures
        yes == (at < s.len() && s@[at as int] == c),
{
    at < s.len() && s[at] == c
}

impl Endpoint {
    /// Reads an endpoint from text of the form `address:port`.
    pub fn parse(text: &str) -> (r: Option<Endpoint>)
        ensures
            r == parse_endpoint(text@),
    {
        let chars = chars_of(text);
        let s = chars.as_slice();
        let (a, e1) = read_octet(s, 0);
        if !is_char_at(s, e1, '.') {
            return None;
        }
        let (b, e2) = read_octet(s, e1 + 1);
        if !is_char_at(s, e2, '.') {
            return None;
        }
        let (c, e3) = read_octet(s, e2 + 1);
        if !is_char_at(s, e3, '.') {
            return None;
        }
        let (d, e4) = read_octet(s, e3 + 1);
        if !is_char_at(s, e4, ':') {
            return None;
        }
        let e5 = scan_digits(s, e4 + 1);
        if e5 != s.len() {
            return None;
        }
        let port = parse_decimal(s, e4 + 1, e5, FIELD_MAX as u64);
        match (a, b, c, d, port) {
            (Some(a), Some(b), Some(c), Some(d), Some(port)) => Some(
                Endpoint {
                    address: a as u32 * 0x100_0000 + b as u32 * 0x1_0000 + c as u32 * 0x100
                        + d as u32,
                    port: port as u16,
                },
            ),
            _ => None,
        }
    }

    /// Appends the text of this endpoint to `out`.
    pub fn push_text(&self, out: &mut String)
        ensures
            final(out)@ == old(out)@ + endpoint_text(*self),
    {
        proof {
            reveal_strlit(".");
            reveal_strlit(":");
        }
        push_decimal(out, (self.address / 0x100_0000) as u64);
        out.append(".");
        push_decimal(out, (self.address / 0x1_0000 % 0x100) as u64);
        out.append(".");
        push_decimal(out, (self.address / 0x100 % 0x100) as u64);
        out.append(".");
        push_decimal(out, (self.address % 0x100) as u64);
        out.append(":");
        push_decimal(out, self.port as u64);
        assert(out@ =~= old(out)@ + endpoint_text(*self));
    }

    /// The text of this endpoint, `address:port`.
    pub fn to_text(&self) -> (text: String)
        ensures
            text@ == endpoint_text(*self),
    {
        let mut text = String::new();
        self.push_text(&mut text);
        assert(text@ =~= endpoint_text(*self));
        text
    }
}

/// The key of the record of `service` with the given slave index; index 0 is
/// the master record.
pub open spec fn frontend_key(service: Endpoint, slave: u16) -> Seq<u8> {
    record_bytes(service.address, service.port, slave)
}

/// The value that a master record holds to announce `count` backends.
pub open spec fn master_value(count: u16) -> Seq<u8> {
    record_bytes(0, 0, count)
}

/// The value that a slave record holds for the backend at `target`.
pub open spec fn slave_value(target: Endpoint) -> Seq<u8> {
    record_bytes(target.address, target.port, DEFAULT_WEIGHT)
}

/// The address and port that a record holds.
pub open spec fn record_endpoint(bytes: Seq<u8>) -> Endpoint {
    Endpoint { address: record_address(bytes), port: record_port(bytes) }
}

/// The eight bytes of a record with the given address, port and 16-bit
/// trailing field.
pub open spec fn record_bytes(address: u32, port: u16, last: u16) -> Seq<u8> {
    seq![
        (address / 0x100_0000) as u8,
        (address / 0x1_0000 % 0x100) as u8,
        (address / 0x100 % 0x100) as u8,
        (address % 0x100) as u8,
        (port / 0x100) as u8,
        (port % 0x100) as u8,
        (last % 0x100) as u8,
        (last / 0x100) as u8,
    ]
}

/// The address that a record's first four bytes hold.
pub open spec fn record_address(bytes: Seq<u8>) -> u32 {
    (bytes[0] * 0x100_0000 + bytes[1] * 0x1_0000 + bytes[2] * 0x100 + bytes[3]) as u32
}

/// The port that a record's fifth and sixth byte hold.
pub open spec fn record_port(bytes: Seq<u8>) -> u16 {
    (bytes[4] * 0x100 + bytes[5]) as u16
}

/// The 16-bit field that a record's last two bytes hold.
pub open spec fn record_last(bytes: Seq<u8>) -> u16 {
    (bytes[7] * 0x100 + bytes[6]) as u16
}

/// Decoding undoes encoding.
pub proof fn lemma_decode_encode(address: u32, port: u16, last: u16)
    ensures
        record_bytes(address, port, last).len() == 8,
        record_address(record_bytes(address, port, last)) == address,
        record_port(record_bytes(address, port, last)) == port,
        record_last(record_bytes(address, port, last)) == last,
{
}

/// Encoding undoes decoding: eight bytes are the record of their own fields.
pub proof fn lemma_encode_decode(bytes: Seq<u8>)
    requires
        bytes.len() == 8,
    ensures
        record_bytes(record_address(bytes), record_port(bytes), record_last(bytes)) == bytes,
{
    lemma_four_bytes(bytes[0], bytes[1], bytes[2], bytes[3]);
    lemma_two_bytes(bytes[4], bytes[5]);
    lemma_two_bytes(bytes[7], bytes[6]);
    assert(record_bytes(record_address(bytes), record_port(bytes), record_last(bytes)) =~= bytes);
}

proof fn lemma_four_bytes(b0: u8, b1: u8, b2: u8, b3: u8)
    by (bit_vector)
    ensures
        ({
            let a = b0 * 0x100_0000 + b1 * 0x1_0000 + b2 * 0x100 + b3;
            &&& 0 <= a <= u32::MAX
            &&& a / 0x100_0000 == b0
            &&& a / 0x1_0000 % 0x100 == b1
            &&& a / 0x100 % 0x100 == b2
            &&& a % 0x100 == b3
        }),
{
}

proof fn lemma_two_bytes(hi: u8, lo: u8)
    ensures
        ({
            let v = hi * 0x100 + lo;
            &&& 0 <= v <= u16::MAX
            &&& v / 0x100 == hi
            &&& v % 0x100 == lo
        }),
{
}

/// Two records are the same bytes only if all their fields agree.
pub proof fn lemma_record_bytes_injective(
    address: u32,
    port: u16,
    last: u16,
    other_address: u32,
    other_port: u16,
    other_last: u16,
)
    requires
        record_bytes(address, port, last) == record_bytes(other_address, other_port, other_last),
    ensures
        address == other_address,
        port == other_port,
        last == other_last,
{
    lemma_decode_encode(address, port, last);
    lemma_decode_encode(other_address, other_port, other_last);
}

fn encode_record(address: u32, port: u16, last: u16) -> (bytes: Vec<u8>)
    ensures
        bytes@ == record_bytes(address, port, last),
{
    let mut bytes: Vec<u8> = Vec::new();
    bytes.push((address / 0x100_0000) as u8);
    bytes.push((address / 0x1_0000 % 0x100) as u8);
    bytes.push((address / 0x100 % 0x100) as u8);
    bytes.push((address % 0x100) as u8);
    bytes.push((port / 0x100) as u8);
    bytes.push((port % 0x100) as u8);
    bytes.push((last % 0x100) as u8);
    bytes.push((last / 0x100) as u8);
    assert(bytes@ =~= record_bytes(address, port, last));
    bytes
}

fn decode_record(bytes: &[u8]) -> (fields: (u32, u16, u16))
    requires
        bytes.len() == 8,
    ensures
        fields.0 == record_address(bytes@),
        fields.1 == record_port(bytes@),
        fields.2 == record_last(bytes@),
{
    let address: u32 = (bytes[0] as u32) * 0x100_0000 + (bytes[1] as u32) * 0x1_0000 + (
    bytes[2] as u32) * 0x100 + (bytes[3] as u32);
    let port: u16 = (bytes[4] as u16) * 0x100 + (bytes[5] as u16);
    let last: u16 = (bytes[7] as u16) * 0x100 + (bytes[6] as u16);
    (address, port, last)
}

/// Packs a frontend key. Fails, without truncating, when the port or the
/// slave index does not fit in 16 bits; the port is looked at first.
pub fn encode_frontend(address: u32, port: u32, slave: u32) -> (r: Result<Vec<u8>, CodecError>)
    ensures
        port > FIELD_MAX ==> r == Err::<Vec<u8>, CodecError>(CodecError::PortOutOfRange),
        port <= FIELD_MAX && slave > FIELD_MAX ==> r == Err::<Vec<u8>, CodecError>(
            CodecError::SlaveOutOfRange,
        ),
        port <= FIELD_MAX && slave <= FIELD_MAX ==> r is Ok && r->Ok_0@ == record_bytes(
            address,
            port as u16,
            slave as u16,
        ),
{
    if port > FIELD_MAX {
        Err(CodecError::PortOutOfRange)
    } else if slave > FIELD_MAX {
        Err(CodecError::SlaveOutOfRange)
    } else {
        Ok(encode_record(address, port as u16, slave as u16))
    }
}

/// Unpacks a frontend key into address, port and slave index. Fails exactly
/// when `bytes` is not `KEY_SIZE` long.
pub fn decode_frontend(bytes: &[u8]) -> (r: Result<(u32, u32, u32), CodecError>)
    ensures
        bytes.len() != KEY_SIZE ==> r == Err::<(u32, u32, u32), CodecError>(
            CodecError::WrongLength,
        ),
        bytes.len() == KEY_SIZE ==> r == Ok::<(u32, u32, u32), CodecError>(
            (
                record_address(bytes@),
                record_port(bytes@) as u32,
                record_last(bytes@) as u32,
            ),
        ),
{
    if bytes.len() != KEY_SIZE {
        Err(CodecError::WrongLength)
    } else {
        let (address, port, slave) = decode_record(bytes);
        Ok((address, port as u32, slave as u32))
    }
}

/// Packs a backend value. Fails, without truncating, when the port or the
/// weight (or count) does not fit in 16 bits; the port is looked at first.
pub fn encode_backend(address: u32, port: u32, weight: u32) -> (r: Result<Vec<u8>, CodecError>)
    ensures
        port > FIELD_MAX ==> r == Err::<Vec<u8>, CodecError>(CodecError::PortOutOfRange),
        port <= FIELD_MAX && weight > FIELD_MAX ==> r == Err::<Vec<u8>, CodecError>(
            CodecError::WeightOutOfRange,
        ),
        port <= FIELD_MAX && weight <= FIELD_MAX ==> r is Ok && r->Ok_0@ == record_bytes(
            address,
            port as u16,
            weight as u16,
        ),
{
    if port > FIELD_MAX {
        Err(CodecError::PortOutOfRange)
    } else if weight > FIELD_MAX {
        Err(CodecError::WeightOutOfRange)
    } else {
        Ok(encode_record(address, port as u16, weight as u16))
    }
}

/// Unpacks a backend value into address, port and weight (or count). Fails
/// exactly when `bytes` is not `VALUE_SIZE` long.
pub fn decode_backend(bytes: &[u8]) -> (r: Result<(u32, u32, u32), CodecError>)
    ensures
        bytes.len() != VALUE_SIZE ==> r == Err::<(u32, u32, u32), CodecError>(
            CodecError::WrongLength,
        ),
        bytes.len() == VALUE_SIZE ==> r == Ok::<(u32, u32, u32), CodecError>(
            (
                record_address(bytes@),
                record_port(bytes@) as u32,
                record_last(bytes@) as u32,
            ),
        ),
{
    if bytes.len() != VALUE_SIZE {
        Err(CodecError::WrongLength)
    } else {
        let (address, port, weight) = decode_record(bytes);
        Ok((address, port as u32, weight as u32))
    }
}

/// The key of one record: the service it belongs to and its slave index,
/// which is 0 for the master record of the service.
#[derive(Debug, Clone, Copy, PartialEq, Eq, Structural)]
pub struct Frontend {
    pub address: u32,
    pub port: u16,
    pub slave: u16,
}

impl Frontend {
    /// The key of the master record of the service at `addr`.
    pub fn new(addr: Endpoint) -> (key: Frontend)
        ensures
            key == (Frontend { address: addr.address, port: addr.port, slave: 0 }),
    {
        Frontend { address: addr.address, port: addr.port, slave: 0 }
    }

    /// Sets the slave index.
    pub fn slave(&mut self, id: u16)
        ensures
            *final(self) == (Frontend { address: old(self).address, port: old(self).port, slave: id }),
    {
        self.slave = id;
    }

    /// The service that the key belongs to.
    pub open spec fn service(self) -> Endpoint {
        Endpoint { address: self.address, port: self.port }
    }

    /// The service that the key belongs to.
    pub fn addr(&self) -> (addr: Endpoint)
        ensures
            addr == self.service(),
    {
        Endpoint { address: self.address, port: self.port }
    }

    /// The bytes of the key.
    pub fn to_bytes(&self) -> (bytes: Vec<u8>)
        ensures
            bytes@ == frontend_key(self.service(), self.slave),
    {
        encode_record(self.address, self.port, self.slave)
    }

    /// The key that `bytes` hold. Fails exactly when they are not `KEY_SIZE`
    /// long.
    pub fn from_packed(bytes: &[u8]) -> (r: Result<Frontend, CodecError>)
        ensures
            bytes.len() != KEY_SIZE ==> r == Err::<Frontend, CodecError>(CodecError::WrongLength),
            bytes.len() == KEY_SIZE ==> r == Ok::<Frontend, CodecError>(
                Frontend {
                    address: record_address(bytes@),
                    port: record_port(bytes@),
                    slave: record_last(bytes@),
                },
            ),
    {
        if bytes.len() != KEY_SIZE {
            Err(CodecError::WrongLength)
        } else {
            let (address, port, slave) = decode_record(bytes);
            Ok(Frontend { address, port, slave })
        }
    }
}

/// The value of one record. Beside a slave key it names a backend and its
/// weight; beside a master key only the last field counts, and holds the
/// count of the service.
#[derive(Debug, Clone, Copy, PartialEq, Eq, Structural)]
pub struct Backend {
    pub address: u32,
    pub port: u16,
    pub weight: u16,
}

impl Backend {
    /// The value of a slave record for the backend at `addr`.
    pub fn new(addr: Endpoint, weight: u16) -> (value: Backend)
        ensures
            value == (Backend { address: addr.address, port: addr.port, weight }),
    {
        Backend { address: addr.address, port: addr.port, weight }
    }

    /// The value of a master record that announces no backend.
    pub fn empty() -> (value: Backend)
        ensures
            value == (Backend { address: 0, port: 0, weight: 0 }),
    {
        Backend { address: 0, port: 0, weight: 0 }
    }

    /// Sets the count that a master record announces.
    pub fn count(&mut self, n: u16)
        ensures
            *final(self) == (Backend { address: old(self).address, port: old(self).port, weight: n }),
    {
        self.weight = n;
    }

    /// Where the backend serves.
    pub open spec fn endpoint(self) -> Endpoint {
        Endpoint { address: self.address, port: self.port }
    }

    /// Where the backend serves.
    pub fn target(&self) -> (addr: Endpoint)
        ensures
            addr == self.endpoint(),
    {
        Endpoint { address: self.address, port: self.port }
    }

    /// The bytes of the value.
    pub fn to_bytes(&self) -> (bytes: Vec<u8>)
        ensures
            bytes@ == record_bytes(self.address, self.port, self.weight),
    {
        encode_record(self.address, self.port, self.weight)
    }

    /// The value that `bytes` hold. Fails exactly when they are not
    /// `VALUE_SIZE` long.
    pub fn from_packed(bytes: &[u8]) -> (r: Result<Backend, CodecError>)
        ensures
            bytes.len() != VALUE_SIZE ==> r == Err::<Backend, CodecError>(CodecError::WrongLength),
            bytes.len() == VALUE_SIZE ==> r == Ok::<Backend, CodecError>(
                Backend {
                    address: record_address(bytes@),
                    port: record_port(bytes@),
                    weight: record_last(bytes@),
                },
            ),
    {
        if bytes.len() != VALUE_SIZE {
            Err(CodecError::WrongLength)
        } else {
            let (address, port, weight) = decode_record(bytes);
            Ok(Backend { address, port, weight })
        }
    }
}

} // verus!
