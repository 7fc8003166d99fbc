use nbitmask::BitMask;
use nbitmask::error::BitMaskError;

#[test]
fn test_serde_json() {
    let mut mask: BitMask<u64> = BitMask::zeros(10);
    mask.set(0, true).unwrap();
    mask.set(3, true).unwrap();
    mask.set(8, true).unwrap();

    let record = mask.to_record();
    assert_eq!(record.length, 10);
    assert_eq!(record.mask, "AAAAAAAAAQk=".to_string());

    let mask2: BitMask<u64> = BitMask::try_from_record(&record).unwrap();

    assert_eq!(mask2, mask);
}

#[test]
fn test_record_round_trip_u8() {
    let mut mask: BitMask<u8> = BitMask::zeros(14);
    mask.set(5, true).unwrap();
    mask.set(10, true).unwrap();
    mask.set(13, true).unwrap();

    let record = mask.to_record();
    assert_eq!(record.length, 14);

    let back: BitMask<u8> = BitMask::try_from_record(&record).unwrap();
    assert_eq!(back, mask);
    assert_eq!(back.render(), mask.render());
}

#[test]
fn test_record_round_trip_word_aligned() {
    let mask: BitMask<u16> = BitMask::ones(32);
    let record = mask.to_record();
    let back: BitMask<u16> = BitMask::try_from_record(&record).unwrap();
    assert_eq!(back, mask);
    assert_eq!(back.count_ones(), 32);
}

#[test]
fn test_record_known_bytes() {
    // A three-bit mask fits one u8 word, 0b0000_0101, which encodes as "BQ==".
    let mut mask: BitMask<u8> = BitMask::zeros(3);
    mask.set(0, true).unwrap();
    mask.set(2, true).unwrap();

    let record = mask.to_record();
    assert_eq!(record.mask, "BQ==".to_string());

    let back: BitMask<u8> = BitMask::try_from_record(&record).unwrap();
    assert_eq!(back.render(), "101".to_string());
}

#[test]
fn test_record_rejects_bad_text() {
    let record = nbitmask::record::BitMaskRecord {
        mask: "!!!not base64!!!".to_string(),
        length: 8,
    };
    let r: Result<BitMask<u8>, BitMaskError> = BitMask::try_from_record(&record);
    assert_eq!(r, Err(BitMaskError::DeserializationFailed));
}

#[test]
fn test_record_rejects_wrong_length_tag() {
    let mask: BitMask<u8> = BitMask::zeros(10);
    let mut record = mask.to_record();
    // The text still decodes, but the byte count no longer fits this length.
    record.length = 100;
    let r: Result<BitMask<u8>, BitMaskError> = BitMask::try_from_record(&record);
    assert_eq!(r, Err(BitMaskError::DeserializationFailed));
}

#[test]
fn test_record_rejects_wrong_byte_multiple() {
    // "AQ==" decodes to a single byte, which cannot hold any whole u64 word.
    let record = nbitmask::record::BitMaskRecord {
        mask: "AQ==".to_string(),
        length: 10,
    };
    let r: Result<BitMask<u64>, BitMaskError> = BitMask::try_from_record(&record);
    assert_eq!(r, Err(BitMaskError::DeserializationFailed));
}

#[test]
fn test_from_bytes_direct() {
    // Two u8 words: 0b1000_0001 then the reserved word, length 8.
    let bytes = vec![0b1000_0001u8, 0u8];
    let mask: BitMask<u8> = BitMask::from_bytes(&bytes, 8).unwrap();
    assert_eq!(mask.render(), "10000001".to_string());
    assert_eq!(mask.count_ones(), 2);
}

#[test]
fn test_error_messages() {
    assert_eq!(BitMaskError::IndexOutOfBounds.message(), "IndexOutOfBounds");
    assert_eq!(
        BitMaskError::DeserializationFailed.message(),
        "DeserializationFailed"
    );
}
