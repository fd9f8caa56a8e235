//! Record-level building blocks: the checksum and the four scanning stages
//! that take one line of text apart, each with its spec-level meaning.

use vstd::prelude::*;
use vstd::string::StringSliceAdditionalSpecFns;

use crate::error::{ErrorType, SRecordParseError};
use crate::hex::{
    all_hex_digits, be_bytes, decode_hex_pairs, decoded_bytes, hex_value, lemma_hex_value_bound,
    lemma_pow16_values, parse_hex_field, DIGIT_0, DIGIT_9,
};
use crate::record_type::RecordType;

verus! {

/// ASCII code of the character `S`, the tag every record starts with.
pub const TAG_S: u8 = 0x53;

/// Sum of the bytes of a byte string.
pub open spec fn byte_sum(s: Seq<u8>) -> int
    decreases s.len(),
{
    if s.len() == 0 {
        0
    } else {
        byte_sum(s.drop_last()) + s.last()
    }
}

/// Sum of the low `k` base-256 digits of a number.
pub open spec fn digits_sum(v: int, k: nat) -> int
    decreases k,
{
    if k == 0 {
        0
    } else {
        v % 256 + digits_sum(v / 256, (k - 1) as nat)
    }
}

/// Sum of the eight big-endian bytes of an address. Leading zero bytes add
/// nothing, so this equals the sum over any width that holds the address.
pub open spec fn addr_sum(address: u64) -> int {
    byte_sum(be_bytes(address as int, 8))
}

/// The record checksum: byte count plus address bytes plus data bytes,
/// truncated to the low byte and bitwise inverted.
pub open spec fn checksum_of(byte_count: u8, address: u64, data: Seq<u8>) -> u8 {
    (0xFF - ((byte_count + addr_sum(address) + byte_sum(data)) % 256)) as u8
}

/// Unfolding step for `byte_sum` over a prefix.
pub proof fn lemma_byte_sum_take_step(s: Seq<u8>, i: int)
    requires
        0 <= i < s.len(),
    ensures
        byte_sum(s.take(i + 1)) == byte_sum(s.take(i)) + s[i],
{
    assert(s.take(i + 1).drop_last() =~= s.take(i));
    assert(s.take(i + 1).last() == s[i]);
}

/// The byte sum of a big-endian representation is the digit sum of the value.
pub proof fn lemma_byte_sum_be_bytes(v: int, n: nat)
    requires
        v >= 0,
    ensures
        byte_sum(be_bytes(v, n)) == digits_sum(v, n),
    decreases n,
{
    if n > 0 {
        lemma_byte_sum_be_bytes(v / 256, (n - 1) as nat);
        let s = be_bytes(v, n);
        assert(s == be_bytes(v / 256, (n - 1) as nat).push((v % 256) as u8));
        assert(s.drop_last() =~= be_bytes(v / 256, (n - 1) as nat));
        assert(s.last() == (v % 256) as u8);
    }
}

/// Calculate the checksum for a single record (line).
///
/// The checksum is the sum of all the individual bytes, from `byte_count`,
/// the individual (big-endian) `address` bytes and all bytes in `data`; all
/// but the least significant byte of the sum is discarded, and that byte is
/// then bitwise inverted.
pub fn calculate_checksum(byte_count: u8, address: u64, data: &[u8]) -> (r: u8)
    ensures
        r == checksum_of(byte_count, address, data@),
{
    proof {
        lemma_byte_sum_be_bytes(address as int, 8);
    }
    let mut sum: u8 = byte_count;
    let mut a: u64 = address;
    let mut k: usize = 0;
    while k < 8
        invariant
            k <= 8,
            sum == (byte_count + digits_sum(address as int, 8) - digits_sum(
                a as int,
                (8 - k) as nat,
            )) % 256,
            digits_sum(address as int, 8) - digits_sum(a as int, (8 - k) as nat) >= 0,
        decreases 8 - k,
    {
        let d: u8 = (a % 256) as u8;
        proof {
            assert(digits_sum(a as int, (8 - k) as nat) == a % 256 + digits_sum(
                a as int / 256,
                (8 - (k + 1)) as nat,
            ));
            let x = byte_count + digits_sum(address as int, 8) - digits_sum(
                a as int,
                (8 - k) as nat,
            );
            vstd::arithmetic::div_mod::lemma_add_mod_noop(x, d as int, 256);
            vstd::arithmetic::div_mod::lemma_mod_twice(x, 256);
            assert(digits_sum(a as int / 256, (8 - (k + 1)) as nat) >= 0) by {
                lemma_digits_sum_nonneg(a as int / 256, (8 - (k + 1)) as nat);
            }
        }
        sum = sum.wrapping_add(d);
        a = a / 256;
        k = k + 1;
    }
    let mut i: usize = 0;
    while i < data.len()
        invariant
            i <= data@.len(),
            sum == (byte_count + digits_sum(address as int, 8) + byte_sum(data@.take(i as int)))
                % 256,
        decreases data@.len() - i,
    {
        proof {
            lemma_byte_sum_take_step(data@, i as int);
            let x = byte_count + digits_sum(address as int, 8) + byte_sum(data@.take(i as int));
            vstd::arithmetic::div_mod::lemma_add_mod_noop(x, data@[i as int] as int, 256);
            vstd::arithmetic::div_mod::lemma_mod_twice(x, 256);
            lemma_byte_sum_nonneg(data@.take(i as int));
            lemma_digits_sum_nonneg(address as int, 8);
        }
        sum = sum.wrapping_add(data[i]);
        i = i + 1;
    }
    proof {
        assert(data@.take(data@.len() as int) =~= data@);
        lemma_byte_sum_nonneg(data@);
        lemma_digits_sum_nonneg(address as int, 8);
    }
    0xFF - sum
}

/// A byte sum is never negative.
pub proof fn lemma_byte_sum_nonneg(s: Seq<u8>)
    ensures
        byte_sum(s) >= 0,
    decreases s.len(),
{
    if s.len() > 0 {
        lemma_byte_sum_nonneg(s.drop_last());
    }
}

/// A digit sum of a non-negative number is never negative.
pub proof fn lemma_digits_sum_nonneg(v: int, k: nat)
    requires
        v >= 0,
    ensures
        digits_sum(v, k) >= 0,
    decreases k,
{
    if k > 0 {
        lemma_digits_sum_nonneg(v / 256, (k - 1) as nat);
    }
}

/// Spec-level meaning of the record type stage: the line must open with `S`
/// and a digit other than the reserved `4`.
pub open spec fn spec_parse_record_type(s: Seq<u8>) -> Result<RecordType, ErrorType> {
    if s.len() == 0 {
        Err(ErrorType::EolWhileParsingRecordType)
    } else if s[0] != TAG_S {
        Err(ErrorType::InvalidFirstCharacter)
    } else if s.len() == 1 {
        Err(ErrorType::EolWhileParsingRecordType)
    } else if s[1] == DIGIT_0 {
        Ok(RecordType::S0)
    } else if s[1] == DIGIT_0 + 1 {
        Ok(RecordType::S1)
    } else if s[1] == DIGIT_0 + 2 {
        Ok(RecordType::S2)
    } else if s[1] == DIGIT_0 + 3 {
        Ok(RecordType::S3)
    } else if s[1] == DIGIT_0 + 4 {
        Err(ErrorType::S4Reserved)
    } else if s[1] == DIGIT_0 + 5 {
        Ok(RecordType::S5)
    } else if s[1] == DIGIT_0 + 6 {
        Ok(RecordType::S6)
    } else if s[1] == DIGIT_0 + 7 {
        Ok(RecordType::S7)
    } else if s[1] == DIGIT_0 + 8 {
        Ok(RecordType::S8)
    } else if s[1] == DIGIT_9 {
        Ok(RecordType::S9)
    } else {
        Err(ErrorType::InvalidRecordType)
    }
}

/// Spec-level meaning of the byte count stage: two hex digits at offset 2.
pub open spec fn spec_parse_byte_count(s: Seq<u8>) -> Result<u8, ErrorType> {
    if s.len() < 4 {
        Err(ErrorType::EolWhileParsingByteCount)
    } else if !all_hex_digits(s.subrange(2, 4)) {
        Err(ErrorType::InvalidByteCount)
    } else {
        Ok(hex_value(s.subrange(2, 4)) as u8)
    }
}

/// Spec-level meaning of the address stage: two hex digits per address byte
/// of the record type, starting at offset 4.
pub open spec fn spec_parse_address(s: Seq<u8>, record_type: RecordType) -> Result<u64, ErrorType> {
    let digits = 2 * record_type.spec_num_address_bytes() as int;
    if s.len() < 4 + digits {
        Err(ErrorType::EolWhileParsingAddress)
    } else if !all_hex_digits(s.subrange(4, 4 + digits)) {
        Err(ErrorType::InvalidAddress)
    } else {
        Ok(hex_value(s.subrange(4, 4 + digits)) as u64)
    }
}

/// Spec-level meaning of the data and checksum stages: the data field sized
/// by the byte count, then two checksum digits that must match the computed
/// checksum, then the end of the line.
pub open spec fn spec_parse_data_and_checksum(
    s: Seq<u8>,
    record_type: RecordType,
    byte_count: u8,
    address: u64,
) -> Result<Seq<u8>, ErrorType> {
    let w = record_type.spec_num_address_bytes();
    if byte_count < w + 1 {
        Err(ErrorType::ByteCountTooLowForRecordType)
    } else {
        let n = byte_count - (w + 1);
        let data_start = 4 + 2 * w;
        let data_end = data_start + 2 * n;
        if s.len() < data_end {
            Err(ErrorType::EolWhileParsingData)
        } else if !all_hex_digits(s.subrange(data_start as int, data_end as int)) {
            Err(ErrorType::InvalidData)
        } else {
            let data = decoded_bytes(s.subrange(data_start as int, data_end as int));
            if s.len() < data_end + 2 {
                Err(ErrorType::EolWhileParsingChecksum)
            } else if !all_hex_digits(s.subrange(data_end as int, data_end + 2)) {
                Err(ErrorType::InvalidChecksum)
            } else if hex_value(s.subrange(data_end as int, data_end + 2)) != checksum_of(
                byte_count,
                address,
                data,
            ) {
                Err(ErrorType::CalculatedChecksumNotMatchingParsedChecksum)
            } else if s.len() != data_end + 2 {
                Err(ErrorType::LineNotTerminatedAfterChecksum)
            } else {
                Ok(data)
            }
        }
    }
}

/// Scans the record type from the bytes of a line.
pub(crate) fn scan_record_type(bytes: &[u8]) -> (r: Result<RecordType, SRecordParseError>)
    ensures
        match r {
            Ok(t) => spec_parse_record_type(bytes@) == Ok::<RecordType, ErrorType>(t),
            Err(e) => spec_parse_record_type(bytes@) == Err::<RecordType, ErrorType>(e.error_type),
        },
{
    if bytes.len() == 0 {
        return Err(SRecordParseError { error_type: ErrorType::EolWhileParsingRecordType });
    }
    if bytes[0] != TAG_S {
        return Err(SRecordParseError { error_type: ErrorType::InvalidFirstCharacter });
    }
    if bytes.len() == 1 {
        return Err(SRecordParseError { error_type: ErrorType::EolWhileParsingRecordType });
    }
    let t = bytes[1];
    if t == DIGIT_0 {
        Ok(RecordType::S0)
    } else if t == DIGIT_0 + 1 {
        Ok(RecordType::S1)
    } else if t == DIGIT_0 + 2 {
        Ok(RecordType::S2)
    } else if t == DIGIT_0 + 3 {
        Ok(RecordType::S3)
    } else if t == DIGIT_0 + 4 {
        Err(SRecordParseError { error_type: ErrorType::S4Reserved })
    } else if t == DIGIT_0 + 5 {
        Ok(RecordType::S5)
    } else if t == DIGIT_0 + 6 {
        Ok(RecordType::S6)
    } else if t == DIGIT_0 + 7 {
        Ok(RecordType::S7)
    } else if t == DIGIT_0 + 8 {
        Ok(RecordType::S8)
    } else if t == DIGIT_9 {
        Ok(RecordType::S9)
    } else {
        Err(SRecordParseError { error_type: ErrorType::InvalidRecordType })
    }
}

/// Scans the byte count field from the bytes of a line.
pub(crate) fn scan_byte_count(bytes: &[u8]) -> (r: Result<u8, SRecordParseError>)
    ensures
        match r {
            Ok(c) => spec_parse_byte_count(bytes@) == Ok::<u8, ErrorType>(c),
            Err(e) => spec_parse_byte_count(bytes@) == Err::<u8, ErrorType>(e.error_type),
        },
{
    if bytes.len() < 4 {
        return Err(SRecordParseError { error_type: ErrorType::EolWhileParsingByteCount });
    }
    match parse_hex_field(bytes, 2, 2) {
        Some(v) => {
            proof {
                lemma_hex_value_bound(bytes@.subrange(2, 4));
                lemma_pow16_values();
            }
            Ok(v as u8)
        },
        None => Err(SRecordParseError { error_type: ErrorType::InvalidByteCount }),
    }
}

/// Scans the address field from the bytes of a line.
pub(crate) fn scan_address(bytes: &[u8], record_type: &RecordType) -> (r: Result<
    u64,
    SRecordParseError,
>)
    ensures
        match r {
            Ok(a) => spec_parse_address(bytes@, *record_type) == Ok::<u64, ErrorType>(a),
            Err(e) => spec_parse_address(bytes@, *record_type) == Err::<u64, ErrorType>(
                e.error_type,
            ),
        },
{
    let digits = 2 * record_type.num_address_bytes();
    if bytes.len() < 4 + digits {
        return Err(SRecordParseError { error_type: ErrorType::EolWhileParsingAddress });
    }
    match parse_hex_field(bytes, 4, digits) {
        Some(v) => Ok(v),
        None => Err(SRecordParseError { error_type: ErrorType::InvalidAddress }),
    }
}

/// Scans the data field, then the checksum field, validates the checksum and
/// that the line ends there, and returns the decoded data bytes.
pub(crate) fn scan_data_and_checksum(
    bytes: &[u8],
    record_type: &RecordType,
    byte_count: u8,
    address: u64,
) -> (r: Result<Vec<u8>, SRecordParseError>)
    ensures
        match r {
            Ok(data) => spec_parse_data_and_checksum(bytes@, *record_type, byte_count, address)
                == Ok::<Seq<u8>, ErrorType>(data@),
            Err(e) => spec_parse_data_and_checksum(bytes@, *record_type, byte_count, address)
                == Err::<Seq<u8>, ErrorType>(e.error_type),
        },
{
    let w = record_type.num_address_bytes();
    if (byte_count as usize) < w + 1 {
        return Err(SRecordParseError { error_type: ErrorType::ByteCountTooLowForRecordType });
    }
    let n = (byte_count as usize) - (w + 1);
    let data_start = 4 + 2 * w;
    let data_end = data_start + 2 * n;
    if bytes.len() < data_end {
        return Err(SRecordParseError { error_type: ErrorType::EolWhileParsingData });
    }
    let data = match decode_hex_pairs(bytes, data_start, n) {
        Some(d) => d,
        None => {
            return Err(SRecordParseError { error_type: ErrorType::InvalidData });
        },
    };
    if bytes.len() < data_end + 2 {
        return Err(SRecordParseError { error_type: ErrorType::EolWhileParsingChecksum });
    }
    let parsed_checksum = match parse_hex_field(bytes, data_end, 2) {
        Some(v) => v,
        None => {
            return Err(SRecordParseError { error_type: ErrorType::InvalidChecksum });
        },
    };
    let expected_checksum = calculate_checksum(byte_count, address, data.as_slice());
    if parsed_checksum != expected_checksum as u64 {
        return Err(
            SRecordParseError {
                error_type: ErrorType::CalculatedChecksumNotMatchingParsedChecksum,
            },
        );
    }
    if bytes.len() != data_end + 2 {
        return Err(SRecordParseError { error_type: ErrorType::LineNotTerminatedAfterChecksum });
    }
    Ok(data)
}

/// Parses a record type from `record_str` and returns it, or the error.
pub fn parse_record_type(record_str: &str) -> (r: Result<RecordType, SRecordParseError>)
    ensures
        match r {
            Ok(t) => spec_parse_record_type(record_str.spec_bytes()) == Ok::<
                RecordType,
                ErrorType,
            >(t),
            Err(e) => spec_parse_record_type(record_str.spec_bytes()) == Err::<
                RecordType,
                ErrorType,
            >(e.error_type),
        },
{
    scan_record_type(record_str.as_bytes())
}

/// Parses the byte count from `record_str` and returns it, or the error.
pub fn parse_byte_count(record_str: &str) -> (r: Result<u8, SRecordParseError>)
    ensures
        match r {
            Ok(c) => spec_parse_byte_count(record_str.spec_bytes()) == Ok::<u8, ErrorType>(c),
            Err(e) => spec_parse_byte_count(record_str.spec_bytes()) == Err::<u8, ErrorType>(
                e.error_type,
            ),
        },
{
    scan_byte_count(record_str.as_bytes())
}

/// Parses the address from `record_str` and returns it, or the error.
pub fn parse_address(record_str: &str, record_type: &RecordType) -> (r: Result<
    u64,
    SRecordParseError,
>)
    ensures
        match r {
            Ok(a) => spec_parse_address(record_str.spec_bytes(), *record_type) == Ok::<
                u64,
                ErrorType,
            >(a),
            Err(e) => spec_parse_address(record_str.spec_bytes(), *record_type) == Err::<
                u64,
                ErrorType,
            >(e.error_type),
        },
{
    scan_address(record_str.as_bytes(), record_type)
}

/// Parses the data and checksum fields from `record_str`, validates the
/// checksum and the end of the line, and returns the decoded data.
pub fn parse_data_and_checksum(
    record_str: &str,
    record_type: &RecordType,
    byte_count: u8,
    address: u64,
) -> (r: Result<Vec<u8>, SRecordParseError>)
    ensures
        match r {
            Ok(data) => spec_parse_data_and_checksum(
                record_str.spec_bytes(),
                *record_type,
                byte_count,
                address,
            ) == Ok::<Seq<u8>, ErrorType>(data@),
            Err(e) => spec_parse_data_and_checksum(
                record_str.spec_bytes(),
                *record_type,
                byte_count,
                address,
            ) == Err::<Seq<u8>, ErrorType>(e.error_type),
        },
{
    scan_data_and_checksum(record_str.as_bytes(), record_type, byte_count, address)
}

} // verus!
