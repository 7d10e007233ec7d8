use memscan::parse_value_for_type;
use memscan::MemoryReader;
use memscan::ParseError;
use memscan::ScanType;
use memscan::Value;
use memscan::ValueType;

#[test]
fn test_memory_reader_creation() {
    let reader = MemoryReader::new(1);
    assert_eq!(reader.pid, 1);
}

#[test]
fn widths_match_kinds() {
    assert_eq!(ValueType::I8.size(), 1);
    assert_eq!(ValueType::U8.size(), 1);
    assert_eq!(ValueType::I16.size(), 2);
    assert_eq!(ValueType::U16.size(), 2);
    assert_eq!(ValueType::I32.size(), 4);
    assert_eq!(ValueType::U32.size(), 4);
    assert_eq!(ValueType::F32.size(), 4);
    assert_eq!(ValueType::I64.size(), 8);
    assert_eq!(ValueType::U64.size(), 8);
    assert_eq!(ValueType::F64.size(), 8);
    assert_eq!(ValueType::all().len(), 10);
}

#[test]
fn decode_little_endian_exact_values() {
    assert_eq!(Value::from_bytes(&[0xd2, 0x04, 0x00, 0x00], ValueType::I32), Some(Value::I32(1234)));
    assert_eq!(Value::from_bytes(&[0xff, 0xff, 0xff, 0xff], ValueType::I32), Some(Value::I32(-1)));
    assert_eq!(Value::from_bytes(&[0xff, 0xff, 0xff, 0xff], ValueType::U32), Some(Value::U32(u32::MAX)));
    assert_eq!(Value::from_bytes(&[0x80], ValueType::I8), Some(Value::I8(-128)));
    assert_eq!(Value::from_bytes(&[0x7f], ValueType::I8), Some(Value::I8(127)));
    assert_eq!(Value::from_bytes(&[0x34, 0x12], ValueType::U16), Some(Value::U16(0x1234)));
    assert_eq!(Value::from_bytes(&[0x00, 0x80], ValueType::I16), Some(Value::I16(i16::MIN)));
    assert_eq!(
        Value::from_bytes(&[0, 0, 0, 0, 0, 0, 0, 0x80], ValueType::I64),
        Some(Value::I64(i64::MIN))
    );
    assert_eq!(
        Value::from_bytes(&[1, 0, 0, 0, 0, 0, 0, 0], ValueType::U64),
        Some(Value::U64(1))
    );
}

#[test]
fn decode_consumes_only_leading_bytes() {
    // longer buffers are fine: exactly the kind's width is consumed
    assert_eq!(
        Value::from_bytes(&[0xd2, 0x04, 0x00, 0x00, 0xaa, 0xbb], ValueType::I32),
        Some(Value::I32(1234))
    );
}

#[test]
fn decode_short_buffer_is_none() {
    // none whenever fewer bytes than the kind's width are given
    assert_eq!(Value::from_bytes(&[], ValueType::I8), None);
    assert_eq!(Value::from_bytes(&[1], ValueType::I16), None);
    assert_eq!(Value::from_bytes(&[1, 2, 3], ValueType::I32), None);
    assert_eq!(Value::from_bytes(&[1, 2, 3, 4, 5, 6, 7], ValueType::F64), None);
}

#[test]
fn encode_exact_bytes() {
    assert_eq!(Value::I32(1234).to_bytes(), vec![0xd2, 0x04, 0x00, 0x00]);
    assert_eq!(Value::I32(-1).to_bytes(), vec![0xff, 0xff, 0xff, 0xff]);
    assert_eq!(Value::U8(7).to_bytes(), vec![7]);
    assert_eq!(Value::I8(-128).to_bytes(), vec![0x80]);
    assert_eq!(Value::U16(0x1234).to_bytes(), vec![0x34, 0x12]);
    assert_eq!(Value::I64(i64::MIN).to_bytes(), vec![0, 0, 0, 0, 0, 0, 0, 0x80]);
    assert_eq!(Value::U64(u64::MAX).to_bytes(), vec![0xff; 8]);
}

#[test]
fn decode_encode_decode_is_decode() {
    // for every kind: decode(encode(decode(b, k)), k) == decode(b, k)
    let bytes: Vec<u8> = vec![0x9a, 0x01, 0xfe, 0x80, 0x55, 0xaa, 0x00, 0xff];
    for vt in ValueType::all() {
        let w = vt.size();
        let v = Value::from_bytes(&bytes[..w], vt).unwrap();
        let re = v.to_bytes();
        assert_eq!(re.len(), w);
        assert_eq!(Value::from_bytes(&re, vt), Some(v));
        assert_eq!(re, bytes[..w].to_vec());
    }
}

#[test]
fn float_payloads_round_trip_as_bits() {
    let pi = 3.14159f32;
    let bytes = pi.to_le_bytes();
    let v = Value::from_bytes(&bytes, ValueType::F32).unwrap();
    assert_eq!(v, Value::F32Bits(pi.to_bits()));
    assert_eq!(v.to_bytes(), bytes.to_vec());
    let e = 2.71828f64;
    let v64 = Value::from_bytes(&e.to_le_bytes(), ValueType::F64).unwrap();
    assert_eq!(v64, Value::F64Bits(e.to_bits()));
    assert_eq!(v64.to_bytes(), e.to_le_bytes().to_vec());
}

#[test]
fn exact_compare_is_reflexive() {
    let values = [
        Value::I8(-5),
        Value::I16(300),
        Value::I32(-70000),
        Value::I64(1 << 40),
        Value::U8(200),
        Value::U16(60000),
        Value::U32(4_000_000_000),
        Value::U64(u64::MAX),
        Value::F32Bits(1.5f32.to_bits()),
        Value::F64Bits(2.5f64.to_bits()),
    ];
    for v in values {
        assert!(v.compare(&v, ScanType::ExactValue));
        assert!(!v.compare(&v, ScanType::ChangedValue));
        assert!(v.compare(&v, ScanType::UnchangedValue));
    }
}

#[test]
fn changed_is_negation_of_exact() {
    let pairs = [
        (Value::I32(1), Value::I32(2)),
        (Value::I32(7), Value::I32(7)),
        (Value::I32(1), Value::U32(1)),
        (Value::U8(9), Value::U8(10)),
    ];
    for (a, b) in pairs {
        assert_eq!(
            a.compare(&b, ScanType::ChangedValue),
            !a.compare(&b, ScanType::ExactValue)
        );
    }
}

#[test]
fn ordering_on_integers() {
    assert!(Value::I32(5).compare(&Value::I32(3), ScanType::GreaterThan));
    assert!(!Value::I32(3).compare(&Value::I32(5), ScanType::GreaterThan));
    assert!(Value::I32(3).compare(&Value::I32(5), ScanType::LessThan));
    assert!(Value::I8(-1).compare(&Value::I8(-3), ScanType::GreaterThan));
    assert!(Value::U64(10).compare(&Value::U64(2), ScanType::IncreasedValue));
    assert!(Value::I16(-9).compare(&Value::I16(4), ScanType::DecreasedValue));
}

#[test]
fn mismatched_kinds_never_match() {
    let a = Value::I32(1);
    let b = Value::I16(1);
    assert!(!a.compare(&b, ScanType::ExactValue));
    assert!(!a.compare(&b, ScanType::GreaterThan));
    assert!(!a.compare(&b, ScanType::LessThan));
    assert!(!a.compare(&b, ScanType::UnchangedValue));
    // the changed criterion is the negation of the exact one, also here
    assert!(a.compare(&b, ScanType::ChangedValue));
    // an unknown initial value matches everything
    assert!(a.compare(&b, ScanType::UnknownInitial));
}

#[test]
fn float_ordering_follows_ieee_on_bits() {
    let gt = |x: f32, y: f32| {
        Value::F32Bits(x.to_bits()).compare(&Value::F32Bits(y.to_bits()), ScanType::GreaterThan)
    };
    assert!(gt(1.5, 1.0));
    assert!(!gt(1.0, 1.5));
    assert!(gt(0.5, -0.5));
    assert!(gt(-1.0, -2.0));
    assert!(!gt(0.0, -0.0)); // the two zeroes compare equal
    assert!(!gt(-0.0, 0.0));
    assert!(!gt(f32::NAN, 1.0)); // NaN compares with nothing
    assert!(!gt(1.0, f32::NAN));
    let gt64 = |x: f64, y: f64| {
        Value::F64Bits(x.to_bits()).compare(&Value::F64Bits(y.to_bits()), ScanType::GreaterThan)
    };
    assert!(gt64(2.25, 2.0));
    assert!(gt64(f64::INFINITY, 1e300));
    assert!(!gt64(f64::NAN, f64::NAN));
}

#[test]
fn parse_literal_trims_and_parses() {
    assert_eq!(parse_value_for_type(b" 1234 ", ValueType::I32), Ok(Value::I32(1234)));
    assert_eq!(parse_value_for_type(b"-1", ValueType::I32), Ok(Value::I32(-1)));
    assert_eq!(parse_value_for_type(b"+77", ValueType::U8), Ok(Value::U8(77)));
    assert_eq!(parse_value_for_type(b"\t42\n", ValueType::U16), Ok(Value::U16(42)));
}

#[test]
fn parse_rejects_empty_input() {
    assert_eq!(parse_value_for_type(b"", ValueType::I32), Err(ParseError::Empty));
    assert_eq!(parse_value_for_type(b"   ", ValueType::I32), Err(ParseError::Empty));
}

#[test]
fn parse_rejects_malformed_input() {
    assert_eq!(parse_value_for_type(b"12x", ValueType::I32), Err(ParseError::Malformed));
    assert_eq!(parse_value_for_type(b"-", ValueType::I32), Err(ParseError::Malformed));
    assert_eq!(parse_value_for_type(b"--1", ValueType::I32), Err(ParseError::Malformed));
    assert_eq!(parse_value_for_type(b"1 2", ValueType::I32), Err(ParseError::Malformed));
    // a minus sign is no unsigned number, not even minus zero
    assert_eq!(parse_value_for_type(b"-0", ValueType::U32), Err(ParseError::Malformed));
}

#[test]
fn parse_respects_kind_ranges() {
    assert_eq!(parse_value_for_type(b"127", ValueType::I8), Ok(Value::I8(127)));
    assert_eq!(parse_value_for_type(b"128", ValueType::I8), Err(ParseError::Malformed));
    assert_eq!(parse_value_for_type(b"-128", ValueType::I8), Ok(Value::I8(-128)));
    assert_eq!(parse_value_for_type(b"-129", ValueType::I8), Err(ParseError::Malformed));
    assert_eq!(parse_value_for_type(b"255", ValueType::U8), Ok(Value::U8(255)));
    assert_eq!(parse_value_for_type(b"256", ValueType::U8), Err(ParseError::Malformed));
    assert_eq!(
        parse_value_for_type(b"18446744073709551615", ValueType::U64),
        Ok(Value::U64(u64::MAX))
    );
    assert_eq!(
        parse_value_for_type(b"18446744073709551616", ValueType::U64),
        Err(ParseError::Malformed)
    );
    assert_eq!(
        parse_value_for_type(b"-9223372036854775808", ValueType::I64),
        Ok(Value::I64(i64::MIN))
    );
    assert_eq!(
        parse_value_for_type(b"-9223372036854775809", ValueType::I64),
        Err(ParseError::Malformed)
    );
}
