use vstd::prelude::*;

verus! {

/// Defines the different categories of errors that parsing can report.
#[derive(Clone, Copy, Debug, PartialEq, Eq)]
pub enum ErrorType {
    /// Early, unexpected end of line when parsing the record type tag
    EolWhileParsingRecordType,
    /// Early, unexpected end of line when parsing the byte count
    EolWhileParsingByteCount,
    /// Early, unexpected end of line when parsing the address
    EolWhileParsingAddress,
    /// Early, unexpected end of line when parsing the data
    EolWhileParsingData,
    /// Early, unexpected end of line when parsing the checksum
    EolWhileParsingChecksum,
    /// Line not terminated right after the checksum field
    LineNotTerminatedAfterChecksum,
    /// First character of the line is not 'S'
    InvalidFirstCharacter,
    /// S4 records are reserved
    S4Reserved,
    /// Invalid character after 'S', e.g. 'SA'
    InvalidRecordType,
    /// Invalid byte count field (e.g. non-hex characters)
    InvalidByteCount,
    /// Byte count is below the minimum for the record type
    ByteCountTooLowForRecordType,
    /// Invalid address field (e.g. non-hex characters)
    InvalidAddress,
    /// Invalid data field (e.g. non-hex characters)
    InvalidData,
    /// Data for the same address supplied more than once
    OverlappingData,
    /// Invalid checksum field (e.g. non-hex characters)
    InvalidChecksum,
    /// Checksum computed from byte count, address and data does not match
    /// the checksum parsed from the line
    CalculatedChecksumNotMatchingParsedChecksum,
    /// The number of data records encountered does not match the count record
    CalculatedNumRecordsNotMatchingParsedNumRecords,
    /// Multiple header records (S0) found
    MultipleHeaderRecords,
    /// Multiple start addresses (S7/S8/S9) found
    MultipleStartAddresses,
}

/// Error information about a fault encountered while parsing S-Record text.
#[derive(Clone, Copy, Debug, PartialEq, Eq)]
pub struct SRecordParseError {
    /// Type of error encountered.
    pub error_type: ErrorType,
}

} // verus!
