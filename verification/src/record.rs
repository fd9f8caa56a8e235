//! One decoded record line: the typed record values, their spec-level model,
//! the line parser and the canonical serializer, and the round-trip laws that
//! tie the two together.

use vstd::prelude::*;
use vstd::string::StringSliceAdditionalSpecFns;

use crate::error::{ErrorType, SRecordParseError};
use crate::hex::{
    be_bytes, be_value, decoded_bytes, encode_hex_upper, hex_upper, hex_value,
    lemma_be_value_of_bytes, lemma_hex_value_bound, lemma_pow16_values, lemma_pow256_values,
    DIGIT_0, UPPER_F,
};
use crate::record_type::RecordType;
use crate::utils::{
    checksum_of, scan_address, scan_byte_count, scan_data_and_checksum, scan_record_type,
    spec_parse_address, spec_parse_byte_count, spec_parse_data_and_checksum,
    spec_parse_record_type, TAG_S,
};

verus! {

/// Contains the data found in the header (S0) record of a file.
#[derive(Clone, Debug, PartialEq, Eq)]
pub struct HeaderRecord {
    /// Header data bytes.
    pub data: Vec<u8>,
}

/// Contains one run of data bytes starting at an address.
#[derive(Clone, Debug, PartialEq, Eq)]
pub struct DataRecord {
    /// Address where the record's data starts.
    pub address: u64,
    /// Data bytes of the record.
    pub data: Vec<u8>,
}

/// Contains the number of data records found in a file.
#[derive(Clone, Debug, PartialEq, Eq)]
pub struct CountRecord {
    /// Number of data records.
    pub record_count: usize,
}

/// Contains the execution start address found in a file.
#[derive(Clone, Debug, PartialEq, Eq)]
pub struct StartAddressRecord {
    /// Execution start address.
    pub start_address: u64,
}

/// The different records that can occur in an S-Record file.
#[derive(Clone, Debug, PartialEq, Eq)]
pub enum Record {
    /// Header record.
    S0Record(HeaderRecord),
    /// Data record with 16-bit address.
    S1Record(DataRecord),
    /// Data record with 24-bit address.
    S2Record(DataRecord),
    /// Data record with 32-bit address.
    S3Record(DataRecord),
    /// 16-bit data record count, at most 65,535.
    S5Record(CountRecord),
    /// 24-bit data record count, at most 16,777,215.
    S6Record(CountRecord),
    /// 32-bit execution start address.
    S7Record(StartAddressRecord),
    /// 24-bit execution start address.
    S8Record(StartAddressRecord),
    /// 16-bit execution start address.
    S9Record(StartAddressRecord),
}

/// Spec-level model of one record: the same information with mathematical
/// field types.
pub enum RecordModel {
    /// Header record and its data bytes.
    Header { data: Seq<u8> },
    /// Data record: its width tag, start address and data bytes.
    Data { kind: RecordType, address: u64, data: Seq<u8> },
    /// Count record: its width tag and the count it encodes.
    Count { kind: RecordType, count: int },
    /// Start address record: its width tag and the address it encodes.
    Start { kind: RecordType, address: u64 },
}

impl RecordModel {
    /// The record type tag this record serializes under.
    pub open spec fn tag(self) -> RecordType {
        match self {
            RecordModel::Header { .. } => RecordType::S0,
            RecordModel::Data { kind, .. } => kind,
            RecordModel::Count { kind, .. } => kind,
            RecordModel::Start { kind, .. } => kind,
        }
    }

    /// The value that stands in the record's address field.
    pub open spec fn addr_value(self) -> int {
        match self {
            RecordModel::Header { .. } => 0,
            RecordModel::Data { address, .. } => address as int,
            RecordModel::Count { count, .. } => count,
            RecordModel::Start { address, .. } => address as int,
        }
    }

    /// The data bytes that stand in the record's data field.
    pub open spec fn payload(self) -> Seq<u8> {
        match self {
            RecordModel::Header { data } => data,
            RecordModel::Data { data, .. } => data,
            RecordModel::Count { .. } => Seq::empty(),
            RecordModel::Start { .. } => Seq::empty(),
        }
    }

    /// Well-formedness: the tag matches the record kind, the address field
    /// value fits the tag's width, and the data fits the byte count field.
    pub open spec fn wf(self) -> bool {
        match self {
            RecordModel::Header { data } => data.len() <= 252,
            RecordModel::Data { kind, address, data } => (kind == RecordType::S1 || kind
                == RecordType::S2 || kind == RecordType::S3) && address < spec_address_bound(kind)
                && data.len() + kind.spec_num_address_bytes() + 1 <= 255,
            RecordModel::Count { kind, count } => (kind == RecordType::S5 || kind
                == RecordType::S6) && 0 <= count < spec_address_bound(kind),
            RecordModel::Start { kind, address } => (kind == RecordType::S7 || kind
                == RecordType::S8 || kind == RecordType::S9) && address < spec_address_bound(kind),
        }
    }
}

/// The largest value the address field of a record type can hold, plus one.
pub open spec fn spec_address_bound(t: RecordType) -> int {
    match t {
        RecordType::S0 => 0x10000,
        RecordType::S1 => 0x10000,
        RecordType::S2 => 0x1000000,
        RecordType::S3 => 0x100000000,
        RecordType::S5 => 0x10000,
        RecordType::S6 => 0x1000000,
        RecordType::S7 => 0x100000000,
        RecordType::S8 => 0x1000000,
        RecordType::S9 => 0x10000,
    }
}

impl View for Record {
    type V = RecordModel;

    open spec fn view(&self) -> RecordModel {
        match self {
            Record::S0Record(h) => RecordModel::Header { data: h.data@ },
            Record::S1Record(d) => RecordModel::Data {
                kind: RecordType::S1,
                address: d.address,
                data: d.data@,
            },
            Record::S2Record(d) => RecordModel::Data {
                kind: RecordType::S2,
                address: d.address,
                data: d.data@,
            },
            Record::S3Record(d) => RecordModel::Data {
                kind: RecordType::S3,
                address: d.address,
                data: d.data@,
            },
            Record::S5Record(c) => RecordModel::Count {
                kind: RecordType::S5,
                count: c.record_count as int,
            },
            Record::S6Record(c) => RecordModel::Count {
                kind: RecordType::S6,
                count: c.record_count as int,
            },
            Record::S7Record(s) => RecordModel::Start {
                kind: RecordType::S7,
                address: s.start_address,
            },
            Record::S8Record(s) => RecordModel::Start {
                kind: RecordType::S8,
                address: s.start_address,
            },
            Record::S9Record(s) => RecordModel::Start {
                kind: RecordType::S9,
                address: s.start_address,
            },
        }
    }
}

/// Spec-level meaning of parsing one whole line into a record.
pub open spec fn spec_parse_record(s: Seq<u8>) -> Result<RecordModel, ErrorType> {
    match spec_parse_record_type(s) {
        Err(e) => Err(e),
        Ok(t) => match spec_parse_byte_count(s) {
            Err(e) => Err(e),
            Ok(byte_count) => match spec_parse_address(s, t) {
                Err(e) => Err(e),
                Ok(address) => match spec_parse_data_and_checksum(s, t, byte_count, address) {
                    Err(e) => Err(e),
                    Ok(data) => Ok(
                        match t {
                            RecordType::S0 => RecordModel::Header { data },
                            RecordType::S1 => RecordModel::Data { kind: t, address, data },
                            RecordType::S2 => RecordModel::Data { kind: t, address, data },
                            RecordType::S3 => RecordModel::Data { kind: t, address, data },
                            RecordType::S5 => RecordModel::Count { kind: t, count: address as int },
                            RecordType::S6 => RecordModel::Count { kind: t, count: address as int },
                            RecordType::S7 => RecordModel::Start { kind: t, address },
                            RecordType::S8 => RecordModel::Start { kind: t, address },
                            RecordType::S9 => RecordModel::Start { kind: t, address },
                        },
                    ),
                },
            },
        },
    }
}

/// The canonical text of a record line with tag `t`, address field value `a`
/// and data bytes `d`: tag, byte count, zero-padded address, data and
/// checksum, all in uppercase hex.
pub open spec fn spec_line_text(t: RecordType, a: int, d: Seq<u8>) -> Seq<u8> {
    let w = t.spec_num_address_bytes();
    let byte_count = d.len() + w + 1;
    let checksum = checksum_of(byte_count as u8, a as u64, d);
    seq![TAG_S, t.spec_tag_digit()] + hex_upper(be_bytes(byte_count as int, 1)) + hex_upper(
        be_bytes(a, w),
    ) + hex_upper(d) + hex_upper(be_bytes(checksum as int, 1))
}

/// The canonical text of a record.
pub open spec fn record_text(r: RecordModel) -> Seq<u8> {
    spec_line_text(r.tag(), r.addr_value(), r.payload())
}

/// The characters of an ASCII byte string.
pub open spec fn ascii_chars_of(s: Seq<u8>) -> Seq<char> {
    s.map_values(|b: u8| b as char)
}

/// Relies on String::from_utf8: bytes below 128 decode to exactly one
/// character each, with the same code point.
#[verifier::external_body]
fn ascii_to_string(v: Vec<u8>) -> (r: String)
    requires
        forall|i: int| 0 <= i < v@.len() ==> v@[i] < 128,
    ensures
        r@ == ascii_chars_of(v@),
{
    match String::from_utf8(v) {
        Ok(s) => s,
        Err(_) => String::new(),
    }
}

/// Every byte of a record's canonical text is an ASCII byte below 128, and
/// none is a control character: the text holds only the tag letter, digits
/// and uppercase hex letters.
pub proof fn lemma_line_text_ascii(t: RecordType, a: int, d: Seq<u8>)
    ensures
        forall|i: int|
            0 <= i < spec_line_text(t, a, d).len() ==> #[trigger] spec_line_text(t, a, d)[i]
                < 128,
        forall|i: int|
            0 <= i < spec_line_text(t, a, d).len() ==> #[trigger] spec_line_text(t, a, d)[i]
                >= DIGIT_0,
{
    let s = spec_line_text(t, a, d);
    assert forall|i: int| 0 <= i < s.len() implies #[trigger] s[i] < 128 && #[trigger] s[i]
        >= DIGIT_0 by {
        lemma_hex_upper_ascii(be_bytes((d.len() + t.spec_num_address_bytes() + 1) as int, 1));
        lemma_hex_upper_ascii(be_bytes(a, t.spec_num_address_bytes()));
        lemma_hex_upper_ascii(d);
        lemma_hex_upper_ascii(
            be_bytes(
                checksum_of(
                    (d.len() + t.spec_num_address_bytes() + 1) as u8,
                    a as u64,
                    d,
                ) as int,
                1,
            ),
        );
    }
}

/// Every byte of an uppercase hex encoding is a digit or an uppercase hex
/// letter, so it lies between the codes of `0` and `F`.
pub proof fn lemma_hex_upper_ascii(d: Seq<u8>)
    ensures
        forall|i: int|
            0 <= i < hex_upper(d).len() ==> DIGIT_0 <= #[trigger] hex_upper(d)[i] <= UPPER_F,
{
    assert forall|i: int|
        0 <= i < hex_upper(d).len() implies DIGIT_0 <= #[trigger] hex_upper(d)[i] <= UPPER_F by {
        let b = d[i / 2];
        assert(b / 16 < 16 && b % 16 < 16);
    }
}

/// Builds the canonical text of one record line as bytes.
fn build_line(t: &RecordType, address: u64, data: &[u8]) -> (out: Vec<u8>)
    requires
        data@.len() + t.spec_num_address_bytes() + 1 <= 255,
        address < spec_address_bound(*t),
    ensures
        out@ == spec_line_text(*t, address as int, data@),
{
    let w = t.num_address_bytes();
    let byte_count: u8 = (data.len() + w + 1) as u8;
    let mut out: Vec<u8> = Vec::new();
    out.push(TAG_S);
    out.push(t.tag_digit());

    let mut byte_count_vec: Vec<u8> = Vec::new();
    byte_count_vec.push(byte_count);
    proof {
        lemma_be_bytes_single(byte_count as int);
        assert(be_bytes(byte_count as int, 1) =~= byte_count_vec@);
    }
    let mut byte_count_hex = encode_hex_upper(byte_count_vec.as_slice());
    out.append(&mut byte_count_hex);

    let address_bytes = address_be_bytes(address, w);
    let mut address_hex = encode_hex_upper(address_bytes.as_slice());
    out.append(&mut address_hex);

    let mut data_hex = encode_hex_upper(data);
    out.append(&mut data_hex);

    let checksum = crate::utils::calculate_checksum(byte_count, address, data);
    let mut checksum_vec: Vec<u8> = Vec::new();
    checksum_vec.push(checksum);
    proof {
        lemma_be_bytes_single(checksum as int);
        assert(be_bytes(checksum as int, 1) =~= checksum_vec@);
    }
    let mut checksum_hex = encode_hex_upper(checksum_vec.as_slice());
    out.append(&mut checksum_hex);

    proof {
        lemma_address_bound_is_pow(*t);
        assert(out@ =~= spec_line_text(*t, address as int, data@));
    }
    out
}

/// The address bound of each record type is the power of 256 for its width.
pub proof fn lemma_address_bound_is_pow(t: RecordType)
    ensures
        spec_address_bound(t) == vstd::arithmetic::power::pow(
            256,
            t.spec_num_address_bytes(),
        ),
        spec_address_bound(t) == vstd::arithmetic::power::pow(
            16,
            2 * t.spec_num_address_bytes(),
        ),
{
    lemma_pow256_values();
    lemma_pow16_values();
}

/// Index formula for the big-endian bytes of a number: byte `j` holds the
/// base-256 digit of rank `n - 1 - j`.
pub proof fn lemma_be_bytes_index(v: int, n: nat, j: int)
    requires
        v >= 0,
        0 <= j < n,
    ensures
        be_bytes(v, n).len() == n,
        be_bytes(v, n)[j] == (v / vstd::arithmetic::power::pow(256, (n - 1 - j) as nat)) % 256,
    decreases n,
{
    lemma_be_bytes_len(v, n);
    if j == n - 1 {
        vstd::arithmetic::power::lemma_pow0(256);
    } else {
        lemma_be_bytes_index(v / 256, (n - 1) as nat, j);
        vstd::arithmetic::power::lemma_pow1(256);
        vstd::arithmetic::power::lemma_pow_adds(256, 1, (n - 2 - j) as nat);
        vstd::arithmetic::power::lemma_pow_positive(256, (n - 2 - j) as nat);
        vstd::arithmetic::div_mod::lemma_div_denominator(
            v,
            256,
            vstd::arithmetic::power::pow(256, (n - 2 - j) as nat),
        );
    }
}

/// The one-byte big-endian representation of a byte value.
pub proof fn lemma_be_bytes_single(v: int)
    requires
        0 <= v < 256,
    ensures
        be_bytes(v, 1) =~= seq![v as u8],
{
    lemma_be_bytes_index(v, 1, 0);
    vstd::arithmetic::power::lemma_pow0(256);
    vstd::arithmetic::div_mod::lemma_div_basics(v);
}

/// The big-endian representation has exactly the asked-for length.
pub proof fn lemma_be_bytes_len(v: int, n: nat)
    ensures
        be_bytes(v, n).len() == n,
    decreases n,
{
    if n > 0 {
        lemma_be_bytes_len(v / 256, (n - 1) as nat);
    }
}

/// Computes the big-endian `width` bytes of an address.
fn address_be_bytes(address: u64, width: usize) -> (out: Vec<u8>)
    requires
        1 <= width <= 8,
    ensures
        out@ == be_bytes(address as int, width as nat),
{
    let mut reversed: Vec<u8> = Vec::new();
    let mut a: u64 = address;
    let mut i: usize = 0;
    proof {
        vstd::arithmetic::power::lemma_pow0(256);
    }
    while i < width
        invariant
            i <= width <= 8,
            a == address as int / vstd::arithmetic::power::pow(256, i as nat),
            reversed@.len() == i,
            forall|j: int|
                0 <= j < i ==> reversed@[j] == (address as int / vstd::arithmetic::power::pow(
                    256,
                    j as nat,
                )) % 256,
        decreases width - i,
    {
        proof {
            vstd::arithmetic::power::lemma_pow1(256);
            vstd::arithmetic::power::lemma_pow_adds(256, i as nat, 1);
            vstd::arithmetic::power::lemma_pow_positive(256, i as nat);
            vstd::arithmetic::div_mod::lemma_div_denominator(
                address as int,
                vstd::arithmetic::power::pow(256, i as nat),
                256,
            );
        }
        reversed.push((a % 256) as u8);
        a = a / 256;
        i = i + 1;
    }
    let mut out: Vec<u8> = Vec::new();
    let mut k: usize = 0;
    while k < width
        invariant
            k <= width,
            reversed@.len() == width,
            forall|j: int|
                0 <= j < width ==> reversed@[j] == (address as int
                    / vstd::arithmetic::power::pow(256, j as nat)) % 256,
            out@.len() == k,
            forall|j: int|
                0 <= j < k ==> out@[j] == (address as int / vstd::arithmetic::power::pow(
                    256,
                    (width - 1 - j) as nat,
                )) % 256,
        decreases width - k,
    {
        out.push(reversed[width - 1 - k]);
        k = k + 1;
    }
    proof {
        assert forall|j: int| 0 <= j < width implies out@[j] == be_bytes(
            address as int,
            width as nat,
        )[j] by {
            lemma_be_bytes_index(address as int, width as nat, j);
        }
        lemma_be_bytes_len(address as int, width as nat);
        assert(out@ =~= be_bytes(address as int, width as nat));
    }
    out
}

/// Parses the bytes of one line into a [`Record`]; the first failing stage
/// of the line grammar is reported as the error.
pub(crate) fn record_from_bytes(bytes: &[u8]) -> (r: Result<Record, SRecordParseError>)
    ensures
        match r {
            Ok(rec) => spec_parse_record(bytes@) == Ok::<RecordModel, ErrorType>(rec@)
                && rec@.wf(),
            Err(e) => spec_parse_record(bytes@) == Err::<RecordModel, ErrorType>(e.error_type),
        },
{
    {
        let record_type = match scan_record_type(bytes) {
            Ok(t) => t,
            Err(e) => {
                return Err(e);
            },
        };
        let byte_count = match scan_byte_count(bytes) {
            Ok(c) => c,
            Err(e) => {
                return Err(e);
            },
        };
        let address = match scan_address(bytes, &record_type) {
            Ok(a) => a,
            Err(e) => {
                return Err(e);
            },
        };
        let data = match scan_data_and_checksum(bytes, &record_type, byte_count, address) {
            Ok(d) => d,
            Err(e) => {
                return Err(e);
            },
        };
        proof {
            let digits = 2 * record_type.spec_num_address_bytes() as int;
            lemma_hex_value_bound(bytes@.subrange(4, 4 + digits));
            lemma_pow16_values();
        }
        match record_type {
            RecordType::S0 => Ok(Record::S0Record(HeaderRecord { data })),
            RecordType::S1 => Ok(Record::S1Record(DataRecord { address, data })),
            RecordType::S2 => Ok(Record::S2Record(DataRecord { address, data })),
            RecordType::S3 => Ok(Record::S3Record(DataRecord { address, data })),
            RecordType::S5 => Ok(
                Record::S5Record(CountRecord { record_count: address as usize }),
            ),
            RecordType::S6 => Ok(
                Record::S6Record(CountRecord { record_count: address as usize }),
            ),
            RecordType::S7 => Ok(Record::S7Record(StartAddressRecord { start_address: address })),
            RecordType::S8 => Ok(Record::S8Record(StartAddressRecord { start_address: address })),
            RecordType::S9 => Ok(Record::S9Record(StartAddressRecord { start_address: address })),
        }
    }
}

impl Record {
    /// Parses one line of text into a [`Record`]; the first failing stage of
    /// the line grammar is reported as the error.
    pub fn from_str(s: &str) -> (r: Result<Record, SRecordParseError>)
        ensures
            match r {
                Ok(rec) => spec_parse_record(s.spec_bytes()) == Ok::<RecordModel, ErrorType>(rec@)
                    && rec@.wf(),
                Err(e) => spec_parse_record(s.spec_bytes()) == Err::<RecordModel, ErrorType>(
                    e.error_type,
                ),
            },
    {
        record_from_bytes(s.as_bytes())
    }

    /// Serializes the record into its canonical line text.
    pub fn serialize(&self) -> (r: String)
        requires
            self@.wf(),
        ensures
            r@ == ascii_chars_of(record_text(self@)),
    {
        let bytes = self.serialize_bytes();
        proof {
            lemma_line_text_ascii(self@.tag(), self@.addr_value(), self@.payload());
        }
        ascii_to_string(bytes)
    }

    /// Serializes the record into its canonical line text as bytes.
    pub fn serialize_bytes(&self) -> (out: Vec<u8>)
        requires
            self@.wf(),
        ensures
            out@ == record_text(self@),
    {
        match self {
            Record::S0Record(h) => build_line(&RecordType::S0, 0, h.data.as_slice()),
            Record::S1Record(d) => build_line(&RecordType::S1, d.address, d.data.as_slice()),
            Record::S2Record(d) => build_line(&RecordType::S2, d.address, d.data.as_slice()),
            Record::S3Record(d) => build_line(&RecordType::S3, d.address, d.data.as_slice()),
            Record::S5Record(c) => {
                let empty: Vec<u8> = Vec::new();
                build_line(&RecordType::S5, c.record_count as u64, empty.as_slice())
            },
            Record::S6Record(c) => {
                let empty: Vec<u8> = Vec::new();
                build_line(&RecordType::S6, c.record_count as u64, empty.as_slice())
            },
            Record::S7Record(s) => {
                let empty: Vec<u8> = Vec::new();
                build_line(&RecordType::S7, s.start_address, empty.as_slice())
            },
            Record::S8Record(s) => {
                let empty: Vec<u8> = Vec::new();
                build_line(&RecordType::S8, s.start_address, empty.as_slice())
            },
            Record::S9Record(s) => {
                let empty: Vec<u8> = Vec::new();
                build_line(&RecordType::S9, s.start_address, empty.as_slice())
            },
        }
    }
}

/// The bytes of a concatenation of five pieces equal `s` when each piece
/// equals the matching subrange of `s`.
proof fn lemma_concat5_eq(s: Seq<u8>, p0: Seq<u8>, p1: Seq<u8>, p2: Seq<u8>, p3: Seq<u8>, p4: Seq<u8>)
    requires
        s.len() == p0.len() + p1.len() + p2.len() + p3.len() + p4.len(),
        p0 =~= s.subrange(0, p0.len() as int),
        p1 =~= s.subrange(p0.len() as int, p0.len() + p1.len() as int),
        p2 =~= s.subrange(p0.len() + p1.len() as int, p0.len() + p1.len() + p2.len() as int),
        p3 =~= s.subrange(
            p0.len() + p1.len() + p2.len() as int,
            p0.len() + p1.len() + p2.len() + p3.len() as int,
        ),
        p4 =~= s.subrange(p0.len() + p1.len() + p2.len() + p3.len() as int, s.len() as int),
    ensures
        p0 + p1 + p2 + p3 + p4 =~= s,
{
}

/// Round trip, from values to text and back: parsing the canonical text of
/// any well-formed record yields exactly that record.
#[verifier::rlimit(60)]
#[verifier::spinoff_prover]
pub proof fn lemma_serialize_then_parse(r: RecordModel)
    requires
        r.wf(),
    ensures
        spec_parse_record(record_text(r)) == Ok::<RecordModel, ErrorType>(r),
{
    let t = r.tag();
    let w = t.spec_num_address_bytes() as int;
    let d = r.payload();
    let a = r.addr_value();
    let byte_count = d.len() + w + 1;
    let checksum = checksum_of(byte_count as u8, a as u64, d);
    let p0 = seq![TAG_S, t.spec_tag_digit()];
    let p1 = hex_upper(be_bytes(byte_count as int, 1));
    let p2 = hex_upper(be_bytes(a, w as nat));
    let p3 = hex_upper(d);
    let p4 = hex_upper(be_bytes(checksum as int, 1));
    let s = record_text(r);
    lemma_pow16_values();
    lemma_pow256_values();
    lemma_address_bound_is_pow(t);
    lemma_be_bytes_len(byte_count as int, 1);
    lemma_be_bytes_len(a, w as nat);
    lemma_be_bytes_len(checksum as int, 1);
    assert(s == p0 + p1 + p2 + p3 + p4);
    assert(s.len() == 2 + 2 + 2 * w + 2 * d.len() + 2);

    crate::hex::lemma_decode_of_encode(be_bytes(byte_count as int, 1));
    crate::hex::lemma_decode_of_encode(be_bytes(a, w as nat));
    crate::hex::lemma_decode_of_encode(d);
    crate::hex::lemma_decode_of_encode(be_bytes(checksum as int, 1));

    assert(s.subrange(2, 4) =~= p1);
    assert(s.subrange(4, 4 + 2 * w) =~= p2);
    assert(s.subrange(4 + 2 * w, 4 + 2 * w + 2 * d.len()) =~= p3);
    assert(s.subrange(4 + 2 * w + 2 * d.len(), s.len() as int) =~= p4);

    // Stage 1: the record type tag.
    assert(s[0] == TAG_S && s[1] == t.spec_tag_digit());
    assert(spec_parse_record_type(s) == Ok::<RecordType, ErrorType>(t));

    // Stage 2: the byte count field.
    assert(crate::hex::all_hex_digits(s.subrange(2, 4)));
    crate::hex::lemma_hex_value_is_be_value(p1);
    lemma_be_value_of_bytes(byte_count as int, 1);
    lemma_pow256_values();
    assert(hex_value(s.subrange(2, 4)) == byte_count);
    assert(spec_parse_byte_count(s) == Ok::<u8, ErrorType>(byte_count as u8));

    // Stage 3: the address field.
    assert(crate::hex::all_hex_digits(s.subrange(4, 4 + 2 * w)));
    crate::hex::lemma_hex_value_is_be_value(p2);
    lemma_address_bound_is_pow(t);
    lemma_be_value_of_bytes(a, w as nat);
    assert(hex_value(s.subrange(4, 4 + 2 * w)) == a);
    assert(spec_parse_address(s, t) == Ok::<u64, ErrorType>(a as u64));

    // Stage 4: the data and checksum fields.
    let bc8 = byte_count as u8;
    let a64 = a as u64;
    assert(bc8 == byte_count && a64 == a);
    assert(crate::hex::all_hex_digits(s.subrange(4 + 2 * w, 4 + 2 * w + 2 * d.len())));
    assert(decoded_bytes(s.subrange(4 + 2 * w, 4 + 2 * w + 2 * d.len())) =~= d);
    assert(crate::hex::all_hex_digits(s.subrange(4 + 2 * w + 2 * d.len(), s.len() as int)));
    crate::hex::lemma_hex_value_is_be_value(p4);
    lemma_be_value_of_bytes(checksum as int, 1);
    assert(hex_value(s.subrange(4 + 2 * w + 2 * d.len(), s.len() as int)) == checksum);
    assert(spec_parse_data_and_checksum(s, t, bc8, a64) == Ok::<Seq<u8>, ErrorType>(d));
}

/// Round trip, from text to values and back (the serialize-after-parse law):
/// a line that parses successfully is reproduced byte for byte by serializing
/// the parsed record, provided the line is canonical: its hex digits are
/// uppercase, a header record carries a zero address field, and a count or
/// start-address record carries no data bytes.
#[verifier::rlimit(60)]
#[verifier::spinoff_prover]
pub proof fn lemma_parse_then_serialize(s: Seq<u8>, r: RecordModel)
    requires
        spec_parse_record(s) == Ok::<RecordModel, ErrorType>(r),
        crate::hex::all_upper_hex_digits(s.subrange(2, s.len() as int)),
        r matches RecordModel::Header { .. } ==> hex_value(s.subrange(4, 8)) == 0,
        (r matches RecordModel::Count { .. } || r matches RecordModel::Start { .. }) ==> s.len()
            == 4 + 2 * r.tag().spec_num_address_bytes() + 2,
    ensures
        record_text(r) == s,
{
    let t = spec_parse_record_type(s)->Ok_0;
    let w = t.spec_num_address_bytes() as int;
    let byte_count = spec_parse_byte_count(s)->Ok_0;
    let address = spec_parse_address(s, t)->Ok_0;
    let d = spec_parse_data_and_checksum(s, t, byte_count, address)->Ok_0;
    let data_end = 4 + 2 * w + 2 * (byte_count - (w + 1));
    assert(s.len() == data_end + 2);
    assert(s[0] == TAG_S && s[1] == t.spec_tag_digit());

    // Propagate uppercase-ness to the individual fields.
    assert forall|i: int| 2 <= i < s.len() implies crate::hex::is_upper_hex_digit(s[i]) by {
        assert(s.subrange(2, s.len() as int)[i - 2] == s[i]);
    }

    // The byte count field.
    let f1 = s.subrange(2, 4);
    assert(crate::hex::all_upper_hex_digits(f1));
    crate::hex::lemma_hex_value_is_be_value(f1);
    lemma_hex_value_bound(f1);
    lemma_pow16_values();
    lemma_pow256_values();
    assert(byte_count == hex_value(f1));
    crate::hex::lemma_encode_of_decode(f1);
    lemma_be_bytes_of_value_from_hex(f1, 1);
    assert(hex_upper(be_bytes(byte_count as int, 1)) =~= f1);

    // The address field.
    let f2 = s.subrange(4, 4 + 2 * w);
    assert(crate::hex::all_upper_hex_digits(f2));
    crate::hex::lemma_hex_value_is_be_value(f2);
    lemma_hex_value_bound(f2);
    assert(address == hex_value(f2));
    crate::hex::lemma_encode_of_decode(f2);
    lemma_be_bytes_of_value_from_hex(f2, w as nat);
    assert(hex_upper(be_bytes(address as int, w as nat)) =~= f2);

    // The data field.
    let f3 = s.subrange(4 + 2 * w, data_end);
    assert(crate::hex::all_upper_hex_digits(f3));
    assert(d == decoded_bytes(f3));
    crate::hex::lemma_encode_of_decode(f3);
    assert(hex_upper(d) =~= f3);

    // The checksum field.
    let f4 = s.subrange(data_end, s.len() as int);
    let checksum = checksum_of(byte_count, address, d);
    assert(crate::hex::all_upper_hex_digits(f4));
    crate::hex::lemma_hex_value_is_be_value(f4);
    lemma_hex_value_bound(f4);
    assert(hex_value(f4) == checksum);
    crate::hex::lemma_encode_of_decode(f4);
    lemma_be_bytes_of_value_from_hex(f4, 1);
    assert(hex_upper(be_bytes(checksum as int, 1)) =~= f4);

    // The model's fields are exactly the parsed values.
    assert(r.tag() == t);
    if r matches RecordModel::Count { .. } || r matches RecordModel::Start { .. } {
        assert(d.len() == 0);
        assert(d =~= Seq::<u8>::empty());
    }
    assert(r.payload() == d);
    assert(d.len() == byte_count - (w + 1));
    if r matches RecordModel::Header { .. } {
        assert(r.addr_value() == 0 && address == 0);
    } else {
        assert(r.addr_value() == address as int);
    }
    assert(checksum_of((d.len() + w + 1) as u8, r.addr_value() as u64, d) == checksum);

    let p0 = seq![TAG_S, t.spec_tag_digit()];
    assert(p0 =~= s.subrange(0, 2));
    lemma_be_bytes_len(byte_count as int, 1);
    lemma_be_bytes_len(address as int, w as nat);
    lemma_be_bytes_len(checksum as int, 1);
    lemma_concat5_eq(
        s,
        p0,
        hex_upper(be_bytes(byte_count as int, 1)),
        hex_upper(be_bytes(address as int, w as nat)),
        hex_upper(d),
        hex_upper(be_bytes(checksum as int, 1)),
    );
    assert(record_text(r) =~= s);
}

/// An even-length string of hex digits is the uppercase hex encoding of the
/// big-endian bytes of its value.
proof fn lemma_be_bytes_of_value_from_hex(f: Seq<u8>, n: nat)
    requires
        f.len() == 2 * n,
    ensures
        be_bytes(hex_value(f), n) =~= decoded_bytes(f),
{
    crate::hex::lemma_hex_value_is_be_value(f);
    crate::hex::lemma_be_bytes_of_value(decoded_bytes(f));
}

/// Parse a record (a single line) from an S-Record file.
pub fn parse_record(record_str: &str) -> (r: Result<Record, SRecordParseError>)
    ensures
        match r {
            Ok(rec) => spec_parse_record(record_str.spec_bytes()) == Ok::<RecordModel, ErrorType>(
                rec@,
            ) && rec@.wf(),
            Err(e) => spec_parse_record(record_str.spec_bytes()) == Err::<RecordModel, ErrorType>(
                e.error_type,
            ),
        },
{
    Record::from_str(record_str)
}

} // verus!
