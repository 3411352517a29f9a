use midi_access::codec::{
    apply_reserved, bool_byte, capture_reserved, checksum, ranged, read_ascii, read_u14, read_u16_nibbles,
    signed_center, split_sysex, to_signed_center, write_ascii, write_u14, write_u16_nibbles, ByteEnum, CodecError,
    RawByte,
};

// === byte enums ===

#[derive(Debug, Clone, Copy, PartialEq, Eq)]
enum Mode {
    Off,
    On,
    Auto,
}

const VARIANTS: [Mode; 3] = [Mode::Off, Mode::On, Mode::Auto];

fn modes() -> ByteEnum {
    ByteEnum { field: "Mode", values: &[0x00, 0x01, 0x02], valid: "0=off,1=on,2=auto" }
}

impl Mode {
    fn from_byte(b: u8) -> Result<Mode, CodecError> {
        modes().from_byte(b).map(|i| VARIANTS[i])
    }

    fn to_byte(self) -> u8 {
        modes().to_byte(self as usize)
    }
}

#[test]
fn byte_enum_round_trips() {
    assert_eq!(Mode::from_byte(0x02).unwrap(), Mode::Auto);
    assert_eq!(Mode::Auto.to_byte(), 0x02);
    assert!(Mode::from_byte(0x09).is_err());
}

#[test]
fn byte_enum_reports_the_valid_values() {
    for m in VARIANTS {
        assert_eq!(Mode::from_byte(m.to_byte()).unwrap(), m);
    }
    let e = Mode::from_byte(0x09).unwrap_err();
    assert_eq!(e.message(), "invalid Mode value 0x09 (valid: 0=off,1=on,2=auto)");
}

#[test]
fn the_first_variant_with_a_byte_wins() {
    let doubled = ByteEnum { field: "Twice", values: &[7, 5, 5], valid: "5,7" };
    assert_eq!(doubled.from_byte(5), Ok(1));
    assert_eq!(doubled.to_byte(2), 5);
}

// === numbers ===

#[test]
fn numeric_shapes_round_trip() {
    for v in [0u16, 1, 127, 128, 16383] {
        let (hi, lo) = write_u14(v);
        assert_eq!(read_u14(hi, lo), v);
    }
    for v in [0u16, 0x0400, 0x1234, 0xFFFF] {
        assert_eq!(read_u16_nibbles(&write_u16_nibbles(v)), v);
    }
    assert_eq!(signed_center(0x34, 0x40, -12, 12, "t").unwrap(), -12);
    assert_eq!(to_signed_center(-12, 0x40, -12, 12, "t").unwrap(), 0x34);
    assert_eq!(read_ascii(b"Init      ", "n").unwrap(), "Init");
    assert_eq!(write_ascii("Init", 6, "n").unwrap(), b"Init  ");
}

#[test]
fn numeric_shapes_have_exact_bytes() {
    assert_eq!(write_u14(300), (2, 44));
    assert_eq!(read_u14(0x82, 0xAC), 300);
    assert_eq!(write_u14(16384), (0, 0));
    assert_eq!(write_u16_nibbles(0x1234), [1, 2, 3, 4]);
    assert_eq!(read_u16_nibbles(&[0xF1, 0x02, 0x03, 0x04, 0x99]), 0x1234);
}

#[test]
fn single_bytes_are_validated() {
    assert_eq!(bool_byte(0, "b"), Ok(false));
    assert_eq!(bool_byte(1, "b"), Ok(true));
    assert_eq!(
        bool_byte(2, "b"),
        Err(CodecError::InvalidValue { field: "b", value: 2, valid: "0=off, 1=on" })
    );
    assert_eq!(ranged(5, 5, 7, "r"), Ok(5));
    assert_eq!(ranged(7, 5, 7, "r"), Ok(7));
    assert_eq!(ranged(8, 5, 7, "r"), Err(CodecError::OutOfRange { field: "r", value: 8, valid: "5..=7" }));
    // An empty range holds nothing.
    assert!(ranged(6, 7, 5, "r").is_err());
}

#[test]
fn centred_bytes_report_the_range() {
    let e = signed_center(0x60, 0x40, -12, 12, "pan").unwrap_err();
    assert_eq!(e, CodecError::OutOfRange { field: "pan", value: 32, valid: "-12..=12" });
    assert_eq!(e.message(), "pan out of range: 32 (valid: -12..=12)");
    let e = to_signed_center(13, 0x40, -12, 12, "pan").unwrap_err();
    assert_eq!(e.message(), "pan out of range: 13 (valid: -12..=12)");
    // What does not fit in one byte is out of range too.
    let out = |value: i32, valid: &'static str| CodecError::OutOfRange { field: "w", value, valid };
    assert_eq!(signed_center(255, 0, 0, 300, "w"), Err(out(255, "0..=300")));
    assert_eq!(signed_center(0, 200, -300, 300, "w"), Err(out(-200, "-300..=300")));
    assert_eq!(signed_center(127, 0, 0, 300, "w"), Ok(127));
    assert_eq!(to_signed_center(100, 200, -128, 127, "w"), Err(out(100, "-128..=127")));
    assert_eq!(to_signed_center(-1, 0, -128, 127, "w"), Err(out(-1, "-128..=127")));
    assert_eq!(to_signed_center(55, 200, -128, 127, "w"), Ok(255));
}

// === names ===

#[test]
fn ascii_fields_trim_pad_and_cut() {
    assert_eq!(read_ascii(b"A B\0 \0", "n").unwrap(), "A B");
    assert_eq!(read_ascii(b"  x", "n").unwrap(), "  x");
    assert_eq!(read_ascii(b" \0 ", "n").unwrap(), "");
    assert_eq!(write_ascii("LongName", 4, "n").unwrap(), b"Long");
    assert_eq!(write_ascii("", 2, "n").unwrap(), b"  ");
    assert_eq!(write_ascii("x", 0, "n").unwrap(), b"");
    let name = "Grand 1";
    assert_eq!(read_ascii(&write_ascii(name, 10, "n").unwrap(), "n").unwrap(), name);
}

#[test]
fn ascii_fields_reject_other_characters() {
    let e = read_ascii(&[0x41, 0x80], "name").unwrap_err();
    assert_eq!(e.message(), "name: invalid ASCII string (byte >= 0x80)");
    assert_eq!(
        write_ascii("é", 4, "name"),
        Err(CodecError::BadString { field: "name", reason: "non-ASCII character" })
    );
}

#[test]
fn other_codec_errors_read_well() {
    assert_eq!(
        CodecError::WrongLength { expected: 10, actual: 3 }.message(),
        "expected at least 10 bytes, got 3"
    );
    assert_eq!(CodecError::Yaml("bad".to_string()).message(), "YAML: bad");
    assert_eq!(CodecError::MissingBlock("header").message(), "missing required block: header");
    assert_eq!(
        CodecError::InvalidValue { field: "f", value: 0xAF, valid: "v" }.message(),
        "invalid f value 0xaf (valid: v)"
    );
}

// === checksum ===

#[test]
fn checksum_makes_sum_zero_mod_128() {
    let region = [0x05, 0x10, 0x0B, 0x20, 0x00, 0x00, 0x7F, 0x01];
    let cc = checksum(&region);
    let total: u32 = region.iter().map(|&b| b as u32).sum::<u32>() + cc as u32;
    assert_eq!(total % 0x80, 0);
}

#[test]
fn checksum_has_exact_values() {
    assert_eq!(checksum(&[]), 0);
    assert_eq!(checksum(&[0x80]), 0);
    assert_eq!(checksum(&[1, 2, 3]), 122);
    assert_eq!(checksum(&[255, 255]), 2);
}

// === reserved bytes ===

#[test]
fn reserved_round_trips() {
    let input = [0x00, 0x7F, 0x00, 0x55];
    let typed = [0x00, 0x00, 0x00];
    let res = capture_reserved(&input, &typed);
    let mut buf = vec![0x00, 0x00, 0x00];
    apply_reserved(&mut buf, &res);
    assert_eq!(buf, input);
}

#[test]
fn reserved_bytes_are_those_that_differ() {
    let res = capture_reserved(&[1, 9, 3, 0], &[1, 2, 3]);
    // A byte beyond the typed bytes is kept, though it is zero.
    assert_eq!(res, vec![RawByte { offset: 1, value: 9 }, RawByte { offset: 3, value: 0 }]);
    let mut buf = vec![1, 2, 3];
    apply_reserved(&mut buf, &res);
    assert_eq!(buf, vec![1, 9, 3, 0]);
    let mut buf = vec![1];
    apply_reserved(&mut buf, &capture_reserved(&[1, 0], &[1]));
    assert_eq!(buf, vec![1, 0]);
    // Typed bytes beyond the input are captured as zeros.
    let res = capture_reserved(&[1], &[1, 2]);
    assert_eq!(res, vec![RawByte { offset: 1, value: 0 }]);
    // An offset past the end grows the buffer.
    let mut buf = vec![7];
    apply_reserved(&mut buf, &[RawByte { offset: 3, value: 4 }, RawByte { offset: 0, value: 1 }]);
    assert_eq!(buf, vec![1, 0, 0, 4]);
}

#[test]
fn reserved_offsets_keep_sixteen_bits() {
    let mut input = vec![0u8; 65537];
    input[65536] = 5;
    assert_eq!(capture_reserved(&input, &[0u8; 65536]), vec![RawByte { offset: 0, value: 5 }]);
}

// === framing ===

#[test]
fn splits_frames() {
    let buf = [0xF0, 0x01, 0xF7, 0x99, 0xF0, 0x02, 0x03, 0xF7];
    let frames = split_sysex(&buf);
    assert_eq!(frames.len(), 2);
    assert_eq!(frames[0], [0xF0, 0x01, 0xF7]);
    assert_eq!(frames[1], [0xF0, 0x02, 0x03, 0xF7]);
}

#[test]
fn frames_that_never_end_are_dropped() {
    assert!(split_sysex(&[]).is_empty());
    assert!(split_sysex(&[0xF7, 0x01]).is_empty());
    assert!(split_sysex(&[0xF0, 0x01]).is_empty());
    // A start byte drops the frame that is open before it.
    assert_eq!(split_sysex(&[0xF0, 0x01, 0xF0, 0x02, 0xF7]), vec![vec![0xF0, 0x02, 0xF7]]);
    assert_eq!(split_sysex(&[0xF0, 0xF7]), vec![vec![0xF0, 0xF7]]);
}

#[test]
fn concatenated_frames_split_back() {
    let frames = vec![vec![0xF0, 1, 0xF7], vec![0xF0, 0xF7], vec![0xF0, 2, 3, 0xF7]];
    let stream: Vec<u8> = frames.concat();
    assert_eq!(split_sysex(&stream), frames);
}
