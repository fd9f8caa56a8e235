use srex::data_chunk::DataChunk;
use srex::error::{ErrorType, SRecordParseError};
use srex::record::{CountRecord, DataRecord, HeaderRecord, Record, StartAddressRecord};
use srex::record_type::RecordType;
use srex::srecord_file::SRecordFile;
use srex::utils::calculate_checksum;

#[test]
fn srecord_test_record_type_fmt() {
    let s0 = RecordType::S0;
    let s1 = RecordType::S1;
    let s2 = RecordType::S2;
    let s3 = RecordType::S3;
    let s5 = RecordType::S5;
    let s6 = RecordType::S6;
    let s7 = RecordType::S7;
    let s8 = RecordType::S8;
    let s9 = RecordType::S9;
    assert_eq!(s0.to_text(), "S0");
    assert_eq!(s1.to_text(), "S1");
    assert_eq!(s2.to_text(), "S2");
    assert_eq!(s3.to_text(), "S3");
    assert_eq!(s5.to_text(), "S5");
    assert_eq!(s6.to_text(), "S6");
    assert_eq!(s7.to_text(), "S7");
    assert_eq!(s8.to_text(), "S8");
    assert_eq!(s9.to_text(), "S9");
}

#[test]
fn record_type_test_record_type_fmt() {
    let s0 = RecordType::S0;
    let s1 = RecordType::S1;
    let s2 = RecordType::S2;
    let s3 = RecordType::S3;
    let s5 = RecordType::S5;
    let s6 = RecordType::S6;
    let s7 = RecordType::S7;
    let s8 = RecordType::S8;
    let s9 = RecordType::S9;
    assert_eq!(s0.to_text(), "S0");
    assert_eq!(s1.to_text(), "S1");
    assert_eq!(s2.to_text(), "S2");
    assert_eq!(s3.to_text(), "S3");
    assert_eq!(s5.to_text(), "S5");
    assert_eq!(s6.to_text(), "S6");
    assert_eq!(s7.to_text(), "S7");
    assert_eq!(s8.to_text(), "S8");
    assert_eq!(s9.to_text(), "S9");
}

#[test]
fn srecord_test_calculate_checksum() {
    assert_eq!(
        calculate_checksum(
            0x13,
            0x7AF0,
            &[0x0A, 0x0A, 0x0D, 0, 0, 0, 0, 0, 0, 0, 0, 0, 0, 0, 0, 0]
        ),
        0x61
    );
    assert_eq!(
        calculate_checksum(
            0x0F,
            0x0000,
            &[0x68, 0x65, 0x6C, 0x6C, 0x6F, 0x20, 0x20, 0x20, 0x20, 0x20, 0, 0]
        ),
        0x3C
    );
    assert_eq!(
        calculate_checksum(
            0x1F,
            0x0000,
            &[
                0x7C, 0x08, 0x02, 0xA6, 0x90, 0x01, 0x00, 0x04, 0x94, 0x21, 0xFF, 0xF0, 0x7C,
                0x6C, 0x1B, 0x78, 0x7C, 0x8C, 0x23, 0x78, 0x3C, 0x60, 0x00, 0x00, 0x38, 0x63,
                0x00, 0x00
            ]
        ),
        0x26
    );
    assert_eq!(
        calculate_checksum(
            0x1F,
            0x001C,
            &[
                0x4B, 0xFF, 0xFF, 0xE5, 0x39, 0x80, 0x00, 0x00, 0x7D, 0x83, 0x63, 0x78, 0x80,
                0x01, 0x00, 0x14, 0x38, 0x21, 0x00, 0x10, 0x7C, 0x08, 0x03, 0xA6, 0x4E, 0x80,
                0x00, 0x20
            ]
        ),
        0xE9
    );
    assert_eq!(
        calculate_checksum(
            0x11,
            0x0038,
            &[
                0x48, 0x65, 0x6C, 0x6C, 0x6F, 0x20, 0x77, 0x6F, 0x72, 0x6C, 0x64, 0x2E, 0x0A,
                0x00
            ]
        ),
        0x42
    );
    assert_eq!(calculate_checksum(0x03, 0x0003, &[]), 0xF9);
    assert_eq!(calculate_checksum(0x03, 0x0000, &[]), 0xFC);
}

#[test]
fn utils_test_calculate_checksum() {
    assert_eq!(
        calculate_checksum(
            0x13,
            0x7AF0,
            &[0x0A, 0x0A, 0x0D, 0, 0, 0, 0, 0, 0, 0, 0, 0, 0, 0, 0, 0]
        ),
        0x61
    );
    assert_eq!(
        calculate_checksum(
            0x0F,
            0x0000,
            &[0x68, 0x65, 0x6C, 0x6C, 0x6F, 0x20, 0x20, 0x20, 0x20, 0x20, 0, 0]
        ),
        0x3C
    );
    assert_eq!(
        calculate_checksum(
            0x1F,
            0x0000,
            &[
                0x7C, 0x08, 0x02, 0xA6, 0x90, 0x01, 0x00, 0x04, 0x94, 0x21, 0xFF, 0xF0, 0x7C,
                0x6C, 0x1B, 0x78, 0x7C, 0x8C, 0x23, 0x78, 0x3C, 0x60, 0x00, 0x00, 0x38, 0x63,
                0x00, 0x00
            ]
        ),
        0x26
    );
    assert_eq!(
        calculate_checksum(
            0x1F,
            0x001C,
            &[
                0x4B, 0xFF, 0xFF, 0xE5, 0x39, 0x80, 0x00, 0x00, 0x7D, 0x83, 0x63, 0x78, 0x80,
                0x01, 0x00, 0x14, 0x38, 0x21, 0x00, 0x10, 0x7C, 0x08, 0x03, 0xA6, 0x4E, 0x80,
                0x00, 0x20
            ]
        ),
        0xE9
    );
    assert_eq!(
        calculate_checksum(
            0x11,
            0x0038,
            &[
                0x48, 0x65, 0x6C, 0x6C, 0x6F, 0x20, 0x77, 0x6F, 0x72, 0x6C, 0x64, 0x2E, 0x0A,
                0x00
            ]
        ),
        0x42
    );
    assert_eq!(calculate_checksum(0x03, 0x0003, &[]), 0xF9);
    assert_eq!(calculate_checksum(0x03, 0x0000, &[]), 0xFC);
}

#[test]
fn test_srecord_file_new() {
    let srecord_file = SRecordFile::new();
    assert_eq!(srecord_file.header_data, None);
    assert_eq!(srecord_file.data_chunks, []);
    assert_eq!(srecord_file.start_address, None);
}

#[test]
fn test_srecord_file_default() {
    let srecord_file = Option::<SRecordFile>::None.unwrap_or_default();
    assert_eq!(srecord_file.header_data, None);
    assert_eq!(srecord_file.data_chunks, []);
    assert_eq!(srecord_file.start_address, None);
}

#[test]
fn test_parse_srecord_error() {
    assert!(SRecordFile::from_str("S").is_err());
}

#[test]
fn test_serialize_s0() {
    assert_eq!(
        Record::S0Record(HeaderRecord { data: vec![] }).serialize(),
        "S0030000FC"
    );
    assert_eq!(
        Record::S0Record(HeaderRecord {
            data: vec![0x48, 0x44, 0x52]
        })
        .serialize(),
        "S00600004844521B"
    );
}

#[test]
fn test_serialize_s1() {
    assert_eq!(
        Record::S1Record(DataRecord {
            address: 0,
            data: vec![]
        })
        .serialize(),
        "S1030000FC",
    );
    assert_eq!(
        Record::S1Record(DataRecord {
            address: 0x1234,
            data: vec![0x01, 0x02, 0x03, 0x04, 0x05, 0x06]
        })
        .serialize(),
        "S10912340102030405069B",
    );
}

#[test]
fn test_serialize_s2() {
    assert_eq!(
        Record::S2Record(DataRecord {
            address: 0,
            data: vec![]
        })
        .serialize(),
        "S204000000FB",
    );
    assert_eq!(
        Record::S2Record(DataRecord {
            address: 0x123456,
            data: vec![0x01, 0x02, 0x03, 0x04, 0x05, 0x06]
        })
        .serialize(),
        "S20A12345601020304050644",
    );
}

#[test]
fn test_serialize_s3() {
    assert_eq!(
        Record::S3Record(DataRecord {
            address: 0,
            data: vec![]
        })
        .serialize(),
        "S30500000000FA",
    );
    assert_eq!(
        Record::S3Record(DataRecord {
            address: 0x12345678,
            data: vec![0x01, 0x02, 0x03, 0x04, 0x05, 0x06]
        })
        .serialize(),
        "S30B12345678010203040506CB",
    );
}

#[test]
fn test_serialize_s5() {
    assert_eq!(
        Record::S5Record(CountRecord { record_count: 0 }).serialize(),
        "S5030000FC",
    );
    assert_eq!(
        Record::S5Record(CountRecord {
            record_count: 0x1234,
        })
        .serialize(),
        "S5031234B6",
    );
}

#[test]
fn test_serialize_s6() {
    assert_eq!(
        Record::S6Record(CountRecord { record_count: 0 }).serialize(),
        "S604000000FB",
    );
    assert_eq!(
        Record::S6Record(CountRecord {
            record_count: 0x123456,
        })
        .serialize(),
        "S6041234565F",
    );
}

#[test]
fn test_serialize_s7() {
    assert_eq!(
        Record::S7Record(StartAddressRecord { start_address: 0 }).serialize(),
        "S70500000000FA",
    );
    assert_eq!(
        Record::S7Record(StartAddressRecord {
            start_address: 0x12345678,
        })
        .serialize(),
        "S70512345678E6",
    );
}

#[test]
fn test_serialize_s8() {
    assert_eq!(
        Record::S8Record(StartAddressRecord { start_address: 0 }).serialize(),
        "S804000000FB",
    );
    assert_eq!(
        Record::S8Record(StartAddressRecord {
            start_address: 0x123456,
        })
        .serialize(),
        "S8041234565F",
    );
}

#[test]
fn test_serialize_s9() {
    assert_eq!(
        Record::S9Record(StartAddressRecord { start_address: 0 }).serialize(),
        "S9030000FC",
    );
    assert_eq!(
        Record::S9Record(StartAddressRecord {
            start_address: 0x1234,
        })
        .serialize(),
        "S9031234B6",
    );
}

#[test]
fn test_parse_record_s1() {
    let record = Record::from_str("S107123401020304A8").unwrap();
    match record {
        Record::S1Record(data_record) => {
            assert_eq!(data_record.address, 0x1234);
            assert_eq!(data_record.data, [0x01, 0x02, 0x03, 0x04]);
        }
        _ => panic!("Record parsed incorrectly"),
    }
}

#[test]
fn test_parse_record_line_grammar_errors() {
    let cases: Vec<(&str, ErrorType)> = vec![
        ("", ErrorType::EolWhileParsingRecordType),
        ("S", ErrorType::EolWhileParsingRecordType),
        ("X107123401020304A8", ErrorType::InvalidFirstCharacter),
        ("S4", ErrorType::S4Reserved),
        ("SA", ErrorType::InvalidRecordType),
        ("S1", ErrorType::EolWhileParsingByteCount),
        ("S1ZZ123401020304A8", ErrorType::InvalidByteCount),
        ("S105", ErrorType::EolWhileParsingAddress),
        ("S105ZZZZ01A8", ErrorType::InvalidAddress),
        ("S1020000FD", ErrorType::ByteCountTooLowForRecordType),
        ("S1050000", ErrorType::EolWhileParsingData),
        ("S1050000ZZ55", ErrorType::InvalidData),
        ("S1030000", ErrorType::EolWhileParsingChecksum),
        ("S1030000ZZ", ErrorType::InvalidChecksum),
        (
            "S10700000102030400",
            ErrorType::CalculatedChecksumNotMatchingParsedChecksum,
        ),
        (
            "S107000001020304EE0",
            ErrorType::LineNotTerminatedAfterChecksum,
        ),
    ];
    for (line, expected) in cases {
        let result = srex::record::parse_record(line);
        assert_eq!(
            result,
            Err(SRecordParseError {
                error_type: expected
            }),
            "line: {line:?}"
        );
    }
}

#[test]
fn test_parse_merges_adjacent_records() {
    // Data at [0x10, 0x13) and then [0x13, 0x16) must end up in one chunk.
    let line1 = Record::S1Record(DataRecord {
        address: 0x10,
        data: vec![0x01, 0x02, 0x03],
    })
    .serialize();
    let line2 = Record::S1Record(DataRecord {
        address: 0x13,
        data: vec![0x04, 0x05, 0x06],
    })
    .serialize();
    let text = format!("{line1}\n{line2}");
    let file = SRecordFile::from_str(&text).unwrap();
    assert_eq!(file.data_chunks.len(), 1);
    assert_eq!(file.data_chunks[0].address, 0x10);
    assert_eq!(
        file.data_chunks[0].data,
        vec![0x01, 0x02, 0x03, 0x04, 0x05, 0x06]
    );
}

#[test]
fn test_parse_rejects_overlapping_records() {
    // Data at [0x10, 0x14) and then again inside that range must fail.
    let line1 = Record::S1Record(DataRecord {
        address: 0x10,
        data: vec![0x01, 0x02, 0x03, 0x04],
    })
    .serialize();
    let line2 = Record::S1Record(DataRecord {
        address: 0x12,
        data: vec![0x09],
    })
    .serialize();
    let text = format!("{line1}\n{line2}");
    let result = SRecordFile::from_str(&text);
    assert_eq!(
        result.unwrap_err(),
        SRecordParseError {
            error_type: ErrorType::OverlappingData
        }
    );
}

#[test]
fn test_get_absent_addresses() {
    // A file holding only [0x1000, 0x1004).
    let line = Record::S1Record(DataRecord {
        address: 0x1000,
        data: vec![0xAA, 0xBB, 0xCC, 0xDD],
    })
    .serialize();
    let file = SRecordFile::from_str(&line).unwrap();
    assert!(file.get(0x0FFF).is_none());
    assert!(file.get(0x1004).is_none());
    assert_eq!(*file.get(0x1000).unwrap(), 0xAA);
    assert_eq!(*file.get(0x1003).unwrap(), 0xDD);
    assert_eq!(
        file.get_range(0x1000, 0x1004).unwrap(),
        [0xAA, 0xBB, 0xCC, 0xDD]
    );
    assert!(file.get_range(0x1000, 0x1005).is_none());
    assert!(file.get_range(0x0FFF, 0x1002).is_none());
}

#[test]
fn test_parse_wikipedia_sample() {
    let text = "S00F000068656C6C6F202020202000003C\n\
                S11F00007C0802A6900100049421FFF07C6C1B787C8C23783C6000003863000026\n\
                S11F001C4BFFFFE5398000007D83637880010014382100107C0803A64E800020E9\n\
                S111003848656C6C6F20776F726C642E0A0042\n\
                S5030003F9\n\
                S9030000FC";
    let mut file = SRecordFile::from_str(text).unwrap();
    assert_eq!(
        file.header_data,
        Some(vec![
            0x68, 0x65, 0x6C, 0x6C, 0x6F, 0x20, 0x20, 0x20, 0x20, 0x20, 0x00, 0x00
        ])
    );
    assert_eq!(file.data_chunks.len(), 1);
    assert_eq!(file.data_chunks[0].address, 0x0000);
    assert_eq!(file.data_chunks[0].data.len(), 70);
    assert_eq!(file.start_address, Some(0));

    // Mutating a byte and reading it back returns the written value.
    assert_eq!(*file.get(0x1C).unwrap(), 0x4B);
    *file.get_mut(0x1C).unwrap() = 0xAB;
    assert_eq!(*file.get(0x1C).unwrap(), 0xAB);
}

#[test]
fn test_parse_unsorted_records() {
    // Records arriving out of address order end up sorted and merged.
    let line1 = Record::S1Record(DataRecord {
        address: 0x05,
        data: vec![0x05],
    })
    .serialize();
    let line2 = Record::S1Record(DataRecord {
        address: 0x01,
        data: vec![0x01, 0x02],
    })
    .serialize();
    let line3 = Record::S1Record(DataRecord {
        address: 0x03,
        data: vec![0x03],
    })
    .serialize();
    let text = format!("{line1}\n{line2}\n{line3}");
    let file = SRecordFile::from_str(&text).unwrap();
    assert_eq!(file.data_chunks.len(), 2);
    assert_eq!(file.data_chunks[0].address, 0x01);
    assert_eq!(file.data_chunks[0].data, vec![0x01, 0x02, 0x03]);
    assert_eq!(file.data_chunks[1].address, 0x05);
    assert_eq!(file.data_chunks[1].data, vec![0x05]);
}

#[test]
fn test_parse_record_count_mismatch() {
    let line1 = Record::S1Record(DataRecord {
        address: 0x10,
        data: vec![0x01],
    })
    .serialize();
    let line2 = Record::S5Record(CountRecord { record_count: 2 }).serialize();
    let text = format!("{line1}\n{line2}");
    let result = SRecordFile::from_str(&text);
    assert_eq!(
        result.unwrap_err(),
        SRecordParseError {
            error_type: ErrorType::CalculatedNumRecordsNotMatchingParsedNumRecords
        }
    );
}

#[test]
fn test_parse_multiple_headers_and_start_addresses() {
    let header = Record::S0Record(HeaderRecord { data: vec![] }).serialize();
    let text = format!("{header}\n{header}");
    assert_eq!(
        SRecordFile::from_str(&text).unwrap_err(),
        SRecordParseError {
            error_type: ErrorType::MultipleHeaderRecords
        }
    );

    let start = Record::S9Record(StartAddressRecord { start_address: 0 }).serialize();
    let text = format!("{start}\n{start}");
    assert_eq!(
        SRecordFile::from_str(&text).unwrap_err(),
        SRecordParseError {
            error_type: ErrorType::MultipleStartAddresses
        }
    );
}

#[test]
fn test_serialize_from_str() {
    // Serializing a parsed file with the record size its data records were
    // cut into reproduces the text byte for byte.
    let srecord_str = "S00F000068656C6C6F202020202000003C\n\
                       S321000000007C0802A6900100049421FFF07C6C1B787C8C23783C6000003863000024\n\
                       S3210000001C4BFFFFE5398000007D83637880010014382100107C0803A64E800020E7\n\
                       S3130000003848656C6C6F20776F726C642E0A0040\n\
                       S5030003F9\n\
                       S70500000000FA\n";
    let srecord_file = SRecordFile::from_str(srecord_str).unwrap();
    let mut serialized_str = String::new();
    let mut iterator = srecord_file.iter_records(0x1C);
    while let Some(record) = iterator.next(&srecord_file) {
        serialized_str.push_str(record.serialize().as_str());
        serialized_str.push('\n');
    }
    assert_eq!(serialized_str, srecord_str);
}

#[test]
fn test_data_chunk_access() {
    let data_chunk = DataChunk {
        address: 0x10000,
        data: vec![0x00, 0x01, 0x02, 0x03, 0x04, 0x05],
    };
    assert!(data_chunk.get(0x10000).is_some());
    assert!(data_chunk.get(0x10006).is_none());
    assert!(data_chunk.get(0xFFFF).is_none());
    assert_eq!(data_chunk.get_range(0x10001, 0x10003).unwrap(), [0x01, 0x02]);
    assert!(data_chunk.get_range(0x10000, 0x10006).is_some());
    assert!(data_chunk.get_range(0x10000, 0x10007).is_none());
    assert_eq!(data_chunk.start_address(), 0x10000);
    assert_eq!(data_chunk.end_address(), 0x10006);
}

#[test]
fn test_data_chunk_iter_records() {
    let data_chunk = DataChunk {
        address: 0x1000,
        data: vec![0x00, 0x01, 0x02, 0x03, 0x04],
    };
    let mut iterator = data_chunk.iter_records(2);
    assert_eq!(
        iterator.next(&data_chunk).unwrap(),
        DataRecord {
            address: 0x1000,
            data: vec![0x00, 0x01]
        }
    );
    assert_eq!(
        iterator.next(&data_chunk).unwrap(),
        DataRecord {
            address: 0x1002,
            data: vec![0x02, 0x03]
        }
    );
    assert_eq!(
        iterator.next(&data_chunk).unwrap(),
        DataRecord {
            address: 0x1004,
            data: vec![0x04]
        }
    );
    assert!(iterator.next(&data_chunk).is_none());
}

#[test]
fn test_sort_data() {
    let mut file = SRecordFile::new();
    file.data_chunks.push(DataChunk {
        address: 0x20,
        data: vec![0x22],
    });
    file.data_chunks.push(DataChunk {
        address: 0x00,
        data: vec![0x01, 0x02],
    });
    file.data_chunks.push(DataChunk {
        address: 0x02,
        data: vec![0x03],
    });
    file.sort_data();
    assert_eq!(file.data_chunks.len(), 2);
    assert_eq!(file.data_chunks[0].address, 0x00);
    assert_eq!(file.data_chunks[0].data, vec![0x01, 0x02, 0x03]);
    assert_eq!(file.data_chunks[1].address, 0x20);
    assert_eq!(file.data_chunks[1].data, vec![0x22]);
}

#[test]
fn test_round_trip_record_lines() {
    // Parsing a canonical line and serializing the record reproduces it.
    let lines = [
        "S00F000068656C6C6F202020202000003C",
        "S107123401020304A8",
        "S20A12345601020304050644",
        "S30B12345678010203040506CB",
        "S5031234B6",
        "S6041234565F",
        "S70512345678E6",
        "S8041234565F",
        "S9031234B6",
    ];
    for line in lines {
        let record = Record::from_str(line).unwrap();
        assert_eq!(record.serialize(), line, "line: {line}");
    }
}
