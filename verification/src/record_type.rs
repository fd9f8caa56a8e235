use vstd::prelude::*;

use crate::hex::DIGIT_0;

verus! {

/// The type tag of a record, i.e. the digit following the leading `S`.
#[derive(Clone, Copy, Debug, PartialEq, Eq)]
pub enum RecordType {
    /// Header record. 16-bit address that must be 0x0000.
    S0,
    /// 16-bit address data record.
    S1,
    /// 24-bit address data record.
    S2,
    /// 32-bit address data record.
    S3,
    // S4 is reserved
    /// 16-bit record count. Holds the number of data records in the file.
    S5,
    /// 24-bit record count. Holds the number of data records in the file.
    S6,
    /// 32-bit execution start address.
    S7,
    /// 24-bit execution start address.
    S8,
    /// 16-bit execution start address.
    S9,
}

impl RecordType {
    /// Number of address bytes the record type carries, as a spec-level value.
    pub open spec fn spec_num_address_bytes(self) -> nat {
        match self {
            RecordType::S0 => 2,
            RecordType::S1 => 2,
            RecordType::S2 => 3,
            RecordType::S3 => 4,
            RecordType::S5 => 2,
            RecordType::S6 => 3,
            RecordType::S7 => 4,
            RecordType::S8 => 3,
            RecordType::S9 => 2,
        }
    }

    /// Returns the number of address bytes a certain record type contains.
    pub fn num_address_bytes(&self) -> (n: usize)
        ensures
            n == self.spec_num_address_bytes(),
            2 <= n <= 4,
    {
        match *self {
            RecordType::S0 => 2,
            RecordType::S1 => 2,
            RecordType::S2 => 3,
            RecordType::S3 => 4,
            RecordType::S5 => 2,
            RecordType::S6 => 3,
            RecordType::S7 => 4,
            RecordType::S8 => 3,
            RecordType::S9 => 2,
        }
    }

    /// Returns the number of data bytes implied by a byte count field:
    /// the byte count covers the address bytes, the data bytes and the
    /// one checksum byte.
    pub fn num_data_bytes(&self, byte_count: usize) -> (n: usize)
        requires
            byte_count >= self.spec_num_address_bytes() + 1,
        ensures
            n == byte_count - (self.spec_num_address_bytes() + 1),
    {
        byte_count - (self.num_address_bytes() + 1)
    }

    /// The ASCII digit byte that follows the `S` for this record type.
    pub open spec fn spec_tag_digit(self) -> u8 {
        match self {
            RecordType::S0 => DIGIT_0,
            RecordType::S1 => (DIGIT_0 + 1) as u8,
            RecordType::S2 => (DIGIT_0 + 2) as u8,
            RecordType::S3 => (DIGIT_0 + 3) as u8,
            RecordType::S5 => (DIGIT_0 + 5) as u8,
            RecordType::S6 => (DIGIT_0 + 6) as u8,
            RecordType::S7 => (DIGIT_0 + 7) as u8,
            RecordType::S8 => (DIGIT_0 + 8) as u8,
            RecordType::S9 => (DIGIT_0 + 9) as u8,
        }
    }

    /// Returns the ASCII digit byte that follows the `S` for this record type.
    pub fn tag_digit(&self) -> (d: u8)
        ensures
            d == self.spec_tag_digit(),
    {
        match *self {
            RecordType::S0 => DIGIT_0,
            RecordType::S1 => DIGIT_0 + 1,
            RecordType::S2 => DIGIT_0 + 2,
            RecordType::S3 => DIGIT_0 + 3,
            RecordType::S5 => DIGIT_0 + 5,
            RecordType::S6 => DIGIT_0 + 6,
            RecordType::S7 => DIGIT_0 + 7,
            RecordType::S8 => DIGIT_0 + 8,
            RecordType::S9 => DIGIT_0 + 9,
        }
    }

    /// The two-character textual form of the tag, as a spec-level value.
    pub open spec fn spec_text(self) -> Seq<char> {
        match self {
            RecordType::S0 => "S0"@,
            RecordType::S1 => "S1"@,
            RecordType::S2 => "S2"@,
            RecordType::S3 => "S3"@,
            RecordType::S5 => "S5"@,
            RecordType::S6 => "S6"@,
            RecordType::S7 => "S7"@,
            RecordType::S8 => "S8"@,
            RecordType::S9 => "S9"@,
        }
    }

    /// Formats the record type including the leading S.
    pub fn to_text(&self) -> (s: String)
        ensures
            s@ == self.spec_text(),
    {
        match *self {
            RecordType::S0 => "S0".to_owned(),
            RecordType::S1 => "S1".to_owned(),
            RecordType::S2 => "S2".to_owned(),
            RecordType::S3 => "S3".to_owned(),
            RecordType::S5 => "S5".to_owned(),
            RecordType::S6 => "S6".to_owned(),
            RecordType::S7 => "S7".to_owned(),
            RecordType::S8 => "S8".to_owned(),
            RecordType::S9 => "S9".to_owned(),
        }
    }
}

} // verus!
