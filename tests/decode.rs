use can_decode::model::{ByteOrder, ValueType};
use can_decode::payload::{CanData, Payload};
use can_decode::signal::{DecodeError, RawValue, Reading, SignalDescriptor};

fn sig(start_bit: u64, bit_length: u64, byte_order: ByteOrder, value_type: ValueType) -> SignalDescriptor {
    SignalDescriptor { start_bit, bit_length, byte_order, value_type }
}

fn sample() -> Vec<u8> {
    vec![0x01, 0x02, 0x03, 0x04, 0x05, 0x06, 0x07, 0x08]
}

/// Start bit of a big-endian signal whose least significant bit is `lsb`
/// in an eight-byte frame.
fn be_start(lsb: u64, len: u64) -> u64 {
    let msb = lsb + len - 1;
    let row = 7 - msb / 8;
    row * 8 + msb % 8
}

#[test]
fn it_works() {
    let p = Payload::new(sample());
    let s = sig(0, 8, ByteOrder::LittleEndian, ValueType::Unsigned);
    assert_eq!(p.decode_raw(&s), Ok(RawValue::Unsigned(1)));
}

#[test]
fn zero_and_one_fields_every_width() {
    for len in 1..=64u64 {
        for start in [0u64, 64 - len] {
            let le_u = sig(start, len, ByteOrder::LittleEndian, ValueType::Unsigned);
            let le_s = sig(start, len, ByteOrder::LittleEndian, ValueType::Signed);
            let be_u = sig(be_start(start, len), len, ByteOrder::BigEndian, ValueType::Unsigned);
            let be_s = sig(be_start(start, len), len, ByteOrder::BigEndian, ValueType::Signed);
            let ones = if len == 64 { u64::MAX } else { (1u64 << len) - 1 };
            for data in [Payload::new(vec![0; 8]), Payload::new(vec![0; 12])] {
                assert_eq!(data.decode_raw(&le_u), Ok(RawValue::Unsigned(0)));
                assert_eq!(data.decode_raw(&le_s), Ok(RawValue::Signed(0)));
                assert_eq!(data.decode_raw(&be_u), Ok(RawValue::Unsigned(0)));
                assert_eq!(data.decode_raw(&be_s), Ok(RawValue::Signed(0)));
            }
            let full = Payload::new(vec![0xFF; 8]);
            let frame = CanData::new(vec![0xFF; 8]);
            for s in [le_u, be_u] {
                assert_eq!(full.decode_raw(&s), Ok(RawValue::Unsigned(ones)));
                assert_eq!(frame.decode_raw(&s), Ok(RawValue::Unsigned(ones)));
            }
            for s in [le_s, be_s] {
                assert_eq!(full.decode_raw(&s), Ok(RawValue::Signed(-1)));
                assert_eq!(frame.decode_raw(&s), Ok(RawValue::Signed(-1)));
            }
        }
    }
}

#[test]
fn round_trip_little_endian() {
    // 0x2AB in 12 bits placed at bit 10 of an otherwise 0x5A-filled frame.
    let raw: u64 = 0x2AB;
    let base = u64::from_le_bytes([0x5A; 8]);
    let mask = ((1u64 << 12) - 1) << 10;
    let packed = (base & !mask) | (raw << 10);
    let s = sig(10, 12, ByteOrder::LittleEndian, ValueType::Unsigned);
    let p = Payload::new(packed.to_le_bytes().to_vec());
    assert_eq!(p.decode_raw(&s), Ok(RawValue::Unsigned(raw)));
    let f = CanData::new(packed.to_le_bytes().to_vec());
    assert_eq!(f.decode_raw(&s), Ok(RawValue::Unsigned(raw)));
}

#[test]
fn round_trip_big_endian() {
    let raw: u64 = 0x1F3;
    let lsb = 21;
    let base = u64::from_be_bytes([0xA5; 8]);
    let mask = ((1u64 << 9) - 1) << lsb;
    let packed = (base & !mask) | (raw << lsb);
    let s = sig(be_start(lsb, 9), 9, ByteOrder::BigEndian, ValueType::Unsigned);
    let p = Payload::new(packed.to_be_bytes().to_vec());
    assert_eq!(p.decode_raw(&s), Ok(RawValue::Unsigned(raw)));
    let f = CanData::new(packed.to_be_bytes().to_vec());
    assert_eq!(f.decode_raw(&s), Ok(RawValue::Unsigned(raw)));
    let signed = sig(be_start(lsb, 9), 9, ByteOrder::BigEndian, ValueType::Signed);
    assert_eq!(p.decode_raw(&signed), Ok(RawValue::Signed(0x1F3 - 0x200)));
}

#[test]
fn sign_reconstruction() {
    assert_eq!(Payload::as_signed(0xFF, 8), -1);
    assert_eq!(Payload::as_signed(0x8000, 16), -32768);
    assert_eq!(Payload::as_signed(0x800, 12), -2048);
    assert_eq!(Payload::as_signed(0x7FF, 12), 2047);
    assert_eq!(Payload::as_signed(0x7F, 8), 127);
    assert_eq!(Payload::as_signed(0x8000_0000, 32), -2147483648);
    assert_eq!(Payload::as_signed(0x8000_0000_0000_0000, 64), i64::MIN);
    assert_eq!(Payload::as_signed(u64::MAX, 64), -1);
    assert_eq!(Payload::as_signed(1, 1), -1);
    assert_eq!(Payload::as_signed(0, 1), 0);
}

#[test]
fn scaling_of_unsigned_value() {
    let p = Payload::new(vec![250, 0, 0, 0, 0, 0, 0, 0]);
    let s = sig(0, 8, ByteOrder::LittleEndian, ValueType::Unsigned);
    let raw = p.decode_raw(&s);
    assert_eq!(raw, Ok(RawValue::Unsigned(250)));
    let factor = 0.1f64;
    let offset = 0.0f64;
    let physical = offset + 250u64 as f64 * factor;
    assert!((physical - 25.0).abs() < 1e-9);
}

#[test]
fn little_and_big_endian_differ() {
    let p = Payload::new(sample());
    let le = sig(0, 8, ByteOrder::LittleEndian, ValueType::Unsigned);
    let be = sig(0, 8, ByteOrder::BigEndian, ValueType::Unsigned);
    assert_eq!(p.decode_raw(&le), Ok(RawValue::Unsigned(0x01)));
    // row 0, column 0: most significant bit at index 56, least at 49.
    let expected = (0x0102_0304_0506_0708u64 >> 49) & 0xFF;
    assert_eq!(expected, 0x81);
    assert_eq!(p.decode_raw(&be), Ok(RawValue::Unsigned(expected)));
    let f = CanData::new(sample());
    assert_eq!(f.decode_raw(&le), Ok(RawValue::Unsigned(0x01)));
    assert_eq!(f.decode_raw(&be), Ok(RawValue::Unsigned(0x81)));
}

#[test]
fn full_width_signals() {
    let p = Payload::new(sample());
    let f = CanData::new(sample());
    let le = sig(0, 64, ByteOrder::LittleEndian, ValueType::Unsigned);
    let be = sig(7, 64, ByteOrder::BigEndian, ValueType::Unsigned);
    assert_eq!(p.decode_raw(&le), Ok(RawValue::Unsigned(0x0807_0605_0403_0201)));
    assert_eq!(p.decode_raw(&be), Ok(RawValue::Unsigned(0x0102_0304_0506_0708)));
    assert_eq!(f.decode_raw(&le), Ok(RawValue::Unsigned(0x0807_0605_0403_0201)));
    assert_eq!(f.decode_raw(&be), Ok(RawValue::Unsigned(0x0102_0304_0506_0708)));
    let high = Payload::new(vec![0xFF; 8]);
    let signed = sig(0, 64, ByteOrder::LittleEndian, ValueType::Signed);
    assert_eq!(high.decode_raw(&signed), Ok(RawValue::Signed(-1)));
    let unsigned = sig(7, 64, ByteOrder::BigEndian, ValueType::Unsigned);
    assert_eq!(high.decode_raw(&unsigned), Ok(RawValue::Unsigned(u64::MAX)));
}

#[test]
fn end_to_end_message() {
    let message_id: u32 = 0x100;
    let signals = vec![(message_id, sig(0, 16, ByteOrder::LittleEndian, ValueType::Unsigned))];
    let (_, s) = signals.iter().find(|(id, _)| *id == 0x100).unwrap();
    let frame = vec![0x10, 0x27, 0, 0, 0, 0, 0, 0];
    let p = Payload::new(frame.clone());
    assert_eq!(p.decode_raw(s), Ok(RawValue::Unsigned(0x2710)));
    assert_eq!(p.decode_reading(s), Ok(Reading::Value(RawValue::Unsigned(10000))));
    assert_eq!(CanData::new(frame).decode_raw(s), Ok(RawValue::Unsigned(10000)));
    let physical = 0.0f64 + 10000u64 as f64 * 0.01f64;
    assert!((physical - 100.0).abs() < 1e-9);
}

#[test]
fn one_bit_signals() {
    let p = Payload::new(vec![0b0000_0100, 0, 0, 0, 0, 0, 0, 0]);
    let set = sig(2, 1, ByteOrder::LittleEndian, ValueType::Unsigned);
    let clear = sig(3, 1, ByteOrder::LittleEndian, ValueType::Unsigned);
    assert_eq!(p.decode_raw(&set), Ok(RawValue::Unsigned(1)));
    assert_eq!(p.decode_raw(&clear), Ok(RawValue::Unsigned(0)));
    assert_eq!(p.decode_reading(&set), Ok(Reading::ConstantOne));
    assert_eq!(p.decode_reading(&clear), Ok(Reading::ConstantOne));
    let f = CanData::new(vec![0b0000_0100, 0, 0, 0, 0, 0, 0, 0]);
    assert_eq!(f.decode_raw(&clear), Ok(RawValue::Unsigned(0)));
    assert_eq!(f.decode_reading(&clear), Ok(Reading::ConstantOne));
}

#[test]
fn little_endian_byte_order_of_packing() {
    let p = Payload::new(vec![0x01, 0x02]);
    let s = sig(0, 16, ByteOrder::LittleEndian, ValueType::Unsigned);
    assert_eq!(p.decode_raw(&s), Ok(RawValue::Unsigned(0x0201)));
    let b = sig(7, 16, ByteOrder::BigEndian, ValueType::Unsigned);
    assert_eq!(p.decode_raw(&b), Ok(RawValue::Unsigned(0x0102)));
}

#[test]
fn extended_payload() {
    let mut data: Vec<u8> = (0u8..64).collect();
    data[63] = 0xC3;
    let p = Payload::new(data);
    let le = sig(8 * 63, 8, ByteOrder::LittleEndian, ValueType::Signed);
    assert_eq!(p.decode_raw(&le), Ok(RawValue::Signed(0xC3 - 0x100)));
    let le_mid = sig(8 * 40 + 4, 16, ByteOrder::LittleEndian, ValueType::Unsigned);
    assert_eq!(p.decode_raw(&le_mid), Ok(RawValue::Unsigned(0xA292)));
    // Row 63 is the least significant byte of the big-endian number.
    let be = sig(8 * 63 + 7, 8, ByteOrder::BigEndian, ValueType::Unsigned);
    assert_eq!(p.decode_raw(&be), Ok(RawValue::Unsigned(0xC3)));
    let be_first = sig(7, 8, ByteOrder::BigEndian, ValueType::Unsigned);
    assert_eq!(p.decode_raw(&be_first), Ok(RawValue::Unsigned(0)));
    let be_second = sig(15, 8, ByteOrder::BigEndian, ValueType::Unsigned);
    assert_eq!(p.decode_raw(&be_second), Ok(RawValue::Unsigned(1)));
}

#[test]
fn errors() {
    let p = Payload::new(sample());
    let f = CanData::new(sample());
    for len in [0u64, 65] {
        let s = sig(0, len, ByteOrder::LittleEndian, ValueType::Unsigned);
        assert_eq!(p.decode_raw(&s), Err(DecodeError::UnsupportedBitLength));
        assert_eq!(f.decode_raw(&s), Err(DecodeError::UnsupportedBitLength));
        assert_eq!(p.decode_reading(&s), Err(DecodeError::UnsupportedBitLength));
    }
    let past_end = sig(60, 8, ByteOrder::LittleEndian, ValueType::Unsigned);
    assert_eq!(p.decode_raw(&past_end), Err(DecodeError::OutOfBounds));
    assert_eq!(f.decode_raw(&past_end), Err(DecodeError::OutOfBounds));
    let huge_start = sig(u64::MAX, 8, ByteOrder::LittleEndian, ValueType::Unsigned);
    assert_eq!(p.decode_raw(&huge_start), Err(DecodeError::OutOfBounds));
    let row_past_end = sig(64, 8, ByteOrder::BigEndian, ValueType::Unsigned);
    assert_eq!(p.decode_raw(&row_past_end), Err(DecodeError::OutOfBounds));
    assert_eq!(f.decode_raw(&row_past_end), Err(DecodeError::OutOfBounds));
    // Last row, column 2: the most significant bit is bit 2, so at most 3 bits.
    let below_zero = sig(58, 4, ByteOrder::BigEndian, ValueType::Unsigned);
    assert_eq!(p.decode_raw(&below_zero), Err(DecodeError::OutOfBounds));
    assert_eq!(f.decode_raw(&below_zero), Err(DecodeError::OutOfBounds));
    let just_fits = sig(58, 3, ByteOrder::BigEndian, ValueType::Unsigned);
    assert_eq!(p.decode_raw(&just_fits), Ok(RawValue::Unsigned(0)));
    let short = CanData::new(vec![1, 2, 3, 4]);
    let s = sig(0, 8, ByteOrder::LittleEndian, ValueType::Unsigned);
    assert_eq!(short.decode_raw(&s), Err(DecodeError::FrameTooShort));
    assert_eq!(short.decode_reading(&s), Err(DecodeError::FrameTooShort));
    assert_eq!(Payload::new(vec![1, 2, 3, 4]).decode_raw(&s), Ok(RawValue::Unsigned(1)));
}

#[test]
fn frame_ignores_bytes_past_eighth() {
    let mut data = sample();
    data.push(0xEE);
    let f = CanData::new(data);
    let be = sig(7, 64, ByteOrder::BigEndian, ValueType::Unsigned);
    assert_eq!(f.decode_raw(&be), Ok(RawValue::Unsigned(0x0102_0304_0506_0708)));
}
