use bin_it::{BinaryReader, BinaryWriter, DecodeError};

#[test]
fn test_binary_writer_reader() {
    let mut writer = BinaryWriter::new();

    writer.write_u8(255);
    writer.write_i8(-128);
    writer.write_u16(65535);
    writer.write_i16(-32768);
    writer.write_u32(4294967295);
    writer.write_i32(-2147483648);
    writer.write_u64(18446744073709551615);
    writer.write_i64(-9223372036854775808);
    // Floating-point values travel as their IEEE-754 bits.
    writer.write_u32(3.1415927f32.to_bits());
    writer.write_u64(2.718281828459045f64.to_bits());
    writer.write_bool(true);
    writer.write_string("Hello, World!");

    let data = writer.get_data().clone();

    let mut reader = BinaryReader::new(&data);

    assert_eq!(reader.read_u8().unwrap(), 255);
    assert_eq!(reader.read_i8().unwrap(), -128);
    assert_eq!(reader.read_u16().unwrap(), 65535);
    assert_eq!(reader.read_i16().unwrap(), -32768);
    assert_eq!(reader.read_u32().unwrap(), 4294967295);
    assert_eq!(reader.read_i32().unwrap(), -2147483648);
    assert_eq!(reader.read_u64().unwrap(), 18446744073709551615);
    assert_eq!(reader.read_i64().unwrap(), -9223372036854775808);
    assert!((f32::from_bits(reader.read_u32().unwrap()) - 3.1415927).abs() < 1e-6);
    assert!((f64::from_bits(reader.read_u64().unwrap()) - 2.718281828459045).abs() < 1e-12);
    assert_eq!(reader.read_bool().unwrap(), true);
    assert_eq!(reader.read_string().unwrap(), "Hello, World!");
}

#[test]
fn test_binary_writer_reader_vectors() {
    let mut writer = BinaryWriter::new();

    writer.write_vec_u8(&[1, 2, 3, 4, 5]);
    writer.write_vec_i16(&[-1, -2, -3]);
    let floats: Vec<u64> = [1.1f64, 2.2, 3.3].iter().map(|f| f.to_bits()).collect();
    writer.write_vec_u64(&floats);

    let data = writer.get_data().clone();

    let mut reader = BinaryReader::new(&data);

    assert_eq!(reader.read_vec_u8().unwrap(), vec![1, 2, 3, 4, 5]);
    assert_eq!(reader.read_vec_i16().unwrap(), vec![-1, -2, -3]);
    let read_f64: Vec<f64> = reader.read_vec_u64().unwrap().into_iter().map(f64::from_bits).collect();
    assert_eq!(read_f64.len(), 3);
    assert!((read_f64[0] - 1.1).abs() < 1e-10);
    assert!((read_f64[1] - 2.2).abs() < 1e-10);
    assert!((read_f64[2] - 3.3).abs() < 1e-10);
}

#[test]
fn test_binary_writer_reader_vec_string() {
    let mut writer = BinaryWriter::new();

    let strings = vec![
        "Hello".to_string(),
        "Bin-It".to_string(),
        "Serialization".to_string(),
        "".to_string(),
        "ðŸš€âœ¨".to_string(),
    ];
    writer.write_vec_string(&strings);

    let data = writer.get_data().clone();

    let mut reader = BinaryReader::new(&data);

    let read_strings = reader.read_vec_string().unwrap();
    assert_eq!(read_strings, strings);
}

#[test]
fn test_binary_reader_error() {
    let data = vec![1, 2];

    let mut reader = BinaryReader::new(&data);

    assert!(reader.read_u32().is_err());
}
