use bin_it::{BinaryReader, BinaryWriter, DecodeError};

#[test]
fn narrow_extremes_read_back_in_order() {
    let mut w = BinaryWriter::new();
    w.write_u8(255);
    w.write_i8(-128);
    w.write_u16(65535);
    w.write_i16(-32768);
    let data = w.get_data();
    assert_eq!(data, vec![255, 128, 255, 255, 0, 128]);
    let mut r = BinaryReader::new(&data);
    assert_eq!(r.read_u8(), Ok(255));
    assert_eq!(r.read_i8(), Ok(-128));
    assert_eq!(r.read_u16(), Ok(65535));
    assert_eq!(r.read_i16(), Ok(-32768));
    assert_eq!(r.read_u8(), Err(DecodeError::TruncatedInput));
}

#[test]
fn integers_are_little_endian() {
    let mut w = BinaryWriter::new();
    w.write_u32(0x0102_0304);
    w.write_i32(-2);
    w.write_u64(0x0102_0304_0506_0708);
    w.write_i64(i64::MIN);
    let data = w.get_data();
    assert_eq!(&data[0..4], &[4, 3, 2, 1]);
    assert_eq!(&data[4..8], &[254, 255, 255, 255]);
    assert_eq!(&data[8..16], &[8, 7, 6, 5, 4, 3, 2, 1]);
    assert_eq!(&data[16..24], &[0, 0, 0, 0, 0, 0, 0, 128]);
    let mut r = BinaryReader::new(&data);
    assert_eq!(r.read_u32(), Ok(0x0102_0304));
    assert_eq!(r.read_i32(), Ok(-2));
    assert_eq!(r.read_u64(), Ok(0x0102_0304_0506_0708));
    assert_eq!(r.read_i64(), Ok(i64::MIN));
}

#[test]
fn every_fixed_kind_round_trips_at_its_extremes() {
    let mut w = BinaryWriter::new();
    for v in [0u8, 1, u8::MAX] {
        w.write_u8(v);
    }
    for v in [i8::MIN, -1, 0, i8::MAX] {
        w.write_i8(v);
    }
    for v in [0u16, u16::MAX] {
        w.write_u16(v);
    }
    for v in [i16::MIN, i16::MAX] {
        w.write_i16(v);
    }
    for v in [0u32, u32::MAX] {
        w.write_u32(v);
    }
    for v in [i32::MIN, i32::MAX] {
        w.write_i32(v);
    }
    for v in [0u64, u64::MAX] {
        w.write_u64(v);
    }
    for v in [i64::MIN, i64::MAX] {
        w.write_i64(v);
    }
    w.write_bool(false);
    w.write_bool(true);
    let data = w.get_data();
    let mut r = BinaryReader::new(&data);
    for v in [0u8, 1, u8::MAX] {
        assert_eq!(r.read_u8(), Ok(v));
    }
    for v in [i8::MIN, -1, 0, i8::MAX] {
        assert_eq!(r.read_i8(), Ok(v));
    }
    for v in [0u16, u16::MAX] {
        assert_eq!(r.read_u16(), Ok(v));
    }
    for v in [i16::MIN, i16::MAX] {
        assert_eq!(r.read_i16(), Ok(v));
    }
    for v in [0u32, u32::MAX] {
        assert_eq!(r.read_u32(), Ok(v));
    }
    for v in [i32::MIN, i32::MAX] {
        assert_eq!(r.read_i32(), Ok(v));
    }
    for v in [0u64, u64::MAX] {
        assert_eq!(r.read_u64(), Ok(v));
    }
    for v in [i64::MIN, i64::MAX] {
        assert_eq!(r.read_i64(), Ok(v));
    }
    assert_eq!(r.read_bool(), Ok(false));
    assert_eq!(r.read_bool(), Ok(true));
    assert_eq!(r.read_u8(), Err(DecodeError::TruncatedInput));
}

#[test]
fn float_bits_survive_exactly() {
    let mut w = BinaryWriter::new();
    w.write_u32((-0.0f32).to_bits());
    w.write_u64(f64::NAN.to_bits());
    let data = w.get_data();
    let mut r = BinaryReader::new(&data);
    assert_eq!(r.read_u32(), Ok((-0.0f32).to_bits()));
    assert_eq!(r.read_u64(), Ok(f64::NAN.to_bits()));
}

#[test]
fn text_is_byte_count_then_utf8() {
    let mut w = BinaryWriter::new();
    w.write_string("Hello, World!");
    let data = w.get_data();
    assert_eq!(&data[0..4], &[13, 0, 0, 0]);
    assert_eq!(&data[4..], "Hello, World!".as_bytes());
    let mut r = BinaryReader::new(&data);
    assert_eq!(r.read_string(), Ok("Hello, World!".to_string()));
}

#[test]
fn text_prefix_counts_bytes_not_characters() {
    let mut w = BinaryWriter::new();
    w.write_string("h\u{e9}");
    w.write_string("");
    let data = w.get_data();
    assert_eq!(data, vec![3, 0, 0, 0, b'h', 0xc3, 0xa9, 0, 0, 0, 0]);
    let mut r = BinaryReader::new(&data);
    assert_eq!(r.read_string(), Ok("h\u{e9}".to_string()));
    assert_eq!(r.read_string(), Ok(String::new()));
}

#[test]
fn signed_sequence_layout() {
    let mut w = BinaryWriter::new();
    w.write_vec_i16(&[-1, -2, -3]);
    let data = w.get_data();
    assert_eq!(data, vec![3, 0, 0, 0, 0xff, 0xff, 0xfe, 0xff, 0xfd, 0xff]);
    let mut r = BinaryReader::new(&data);
    assert_eq!(r.read_vec_i16(), Ok(vec![-1, -2, -3]));
}

#[test]
fn texts_with_empty_and_multibyte_round_trip() {
    let strings = vec!["Hello".to_string(), "".to_string(), "\u{1F680}\u{2728}".to_string()];
    let mut w = BinaryWriter::new();
    w.write_vec_string(&strings);
    let data = w.get_data();
    assert_eq!(&data[0..4], &[3, 0, 0, 0]);
    let mut r = BinaryReader::new(&data);
    assert_eq!(r.read_vec_string(), Ok(strings));
}

#[test]
fn every_sequence_kind_round_trips() {
    let mut w = BinaryWriter::new();
    w.write_vec_u8(&[]);
    w.write_vec_u8(&[0, 255]);
    w.write_vec_u16(&[1, u16::MAX]);
    w.write_vec_u32(&[u32::MAX, 7]);
    w.write_vec_u64(&[u64::MAX]);
    w.write_vec_i8(&[i8::MIN, i8::MAX]);
    w.write_vec_i32(&[]);
    w.write_vec_i32(&[i32::MIN, 0]);
    w.write_vec_i64(&[i64::MIN, -1]);
    w.write_vec_string(&[]);
    let data = w.get_data();
    let mut r = BinaryReader::new(&data);
    assert_eq!(r.read_vec_u8(), Ok(vec![]));
    assert_eq!(r.read_vec_u8(), Ok(vec![0, 255]));
    assert_eq!(r.read_vec_u16(), Ok(vec![1, u16::MAX]));
    assert_eq!(r.read_vec_u32(), Ok(vec![u32::MAX, 7]));
    assert_eq!(r.read_vec_u64(), Ok(vec![u64::MAX]));
    assert_eq!(r.read_vec_i8(), Ok(vec![i8::MIN, i8::MAX]));
    assert_eq!(r.read_vec_i32(), Ok(vec![]));
    assert_eq!(r.read_vec_i32(), Ok(vec![i32::MIN, 0]));
    assert_eq!(r.read_vec_i64(), Ok(vec![i64::MIN, -1]));
    assert_eq!(r.read_vec_string(), Ok(Vec::<String>::new()));
    assert_eq!(r.read_u8(), Err(DecodeError::TruncatedInput));
}

#[test]
fn short_buffer_is_truncated_and_keeps_the_cursor() {
    let data = vec![1, 2];
    let mut r = BinaryReader::new(&data);
    assert_eq!(r.read_u32(), Err(DecodeError::TruncatedInput));
    assert_eq!(r.read_u64(), Err(DecodeError::TruncatedInput));
    assert_eq!(r.read_string(), Err(DecodeError::TruncatedInput));
    assert_eq!(r.read_u16(), Ok(0x0201));
    assert_eq!(r.read_u8(), Err(DecodeError::TruncatedInput));
}

#[test]
fn every_strict_prefix_of_an_encoding_is_truncated() {
    let mut w = BinaryWriter::new();
    w.write_vec_string(&["ab".to_string(), "c".to_string()]);
    let data = w.get_data();
    for k in 0..data.len() {
        let mut r = BinaryReader::new(&data[..k]);
        assert_eq!(r.read_vec_string(), Err(DecodeError::TruncatedInput));
        if k >= 4 {
            assert_eq!(r.read_u32(), Ok(2));
        }
    }
    let mut r = BinaryReader::new(&data);
    assert_eq!(r.read_vec_string(), Ok(vec!["ab".to_string(), "c".to_string()]));
}

#[test]
fn short_text_payload_keeps_the_cursor() {
    let data = vec![5, 0, 0, 0, b'a'];
    let mut r = BinaryReader::new(&data);
    assert_eq!(r.read_string(), Err(DecodeError::TruncatedInput));
    assert_eq!(r.read_u32(), Ok(5));
}

#[test]
fn count_beyond_the_data_is_truncated() {
    let data = vec![3, 0, 0, 0, 1, 0];
    let mut r = BinaryReader::new(&data);
    assert_eq!(r.read_vec_u16(), Err(DecodeError::TruncatedInput));
    assert_eq!(r.read_vec_u8(), Err(DecodeError::TruncatedInput));
    assert_eq!(r.read_u32(), Ok(3));
}

#[test]
fn invalid_boolean_byte_is_an_error() {
    let data = vec![2, 1];
    let mut r = BinaryReader::new(&data);
    assert_eq!(r.read_bool(), Err(DecodeError::InvalidBooleanEncoding));
    assert_eq!(r.read_u8(), Ok(2));
    assert_eq!(r.read_bool(), Ok(true));
}

#[test]
fn invalid_utf8_is_an_error_and_keeps_the_cursor() {
    let data = vec![2, 0, 0, 0, 0xc3, 0x28];
    let mut r = BinaryReader::new(&data);
    assert_eq!(r.read_string(), Err(DecodeError::InvalidTextEncoding));
    assert_eq!(r.read_u32(), Ok(2));
    let mut r = BinaryReader::new(&data);
    let mut seq = vec![1, 0, 0, 0];
    seq.extend_from_slice(&data);
    let mut s = BinaryReader::new(&seq);
    assert_eq!(s.read_vec_string(), Err(DecodeError::InvalidTextEncoding));
    assert_eq!(s.read_u32(), Ok(1));
    assert_eq!(r.read_u32(), Ok(2));
}

#[test]
fn multibyte_text_decodes_to_its_characters() {
    let data = vec![4, 0, 0, 0, 0xf0, 0x9f, 0x9a, 0x80];
    let mut r = BinaryReader::new(&data);
    let s = r.read_string().unwrap();
    assert_eq!(s.chars().count(), 1);
    assert_eq!(s, "\u{1F680}");
}

#[test]
fn mixed_values_read_back_in_write_order() {
    let mut w = BinaryWriter::new();
    w.write_bool(false);
    w.write_string("k");
    w.write_vec_u32(&[9]);
    w.write_i64(-5);
    let data = w.get_data();
    assert_eq!(data.len(), 1 + 5 + 8 + 8);
    let mut r = BinaryReader::new(&data);
    assert_eq!(r.read_bool(), Ok(false));
    assert_eq!(r.read_string(), Ok("k".to_string()));
    assert_eq!(r.read_vec_u32(), Ok(vec![9]));
    assert_eq!(r.read_i64(), Ok(-5));
    assert_eq!(r.read_u8(), Err(DecodeError::TruncatedInput));
}

#[test]
fn empty_writer_gives_no_bytes() {
    assert_eq!(BinaryWriter::new().get_data(), Vec::<u8>::new());
}
