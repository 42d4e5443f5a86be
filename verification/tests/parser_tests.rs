use plc_bridge::numfmt::{i64_to_string, parse_i64_str, parse_u64_str, real32_to_string, real64_to_string, u64_to_string};
use plc_bridge::parser::{
    bytes_to_word, detect_data_format, encode_variable, parse_auto_detect, parse_plc_data,
    parse_with_config, DataBlockConfig, PlcStructureConfig,
};

fn block(data_type: &str, count: u32, name: &str) -> DataBlockConfig {
    DataBlockConfig {
        data_type: data_type.to_string(),
        count,
        name: name.to_string(),
    }
}

#[test]
fn word_from_two_bytes() {
    assert_eq!(bytes_to_word(0x00, 0x05), 5);
    assert_eq!(bytes_to_word(0x12, 0x34), 0x1234);
    assert_eq!(bytes_to_word(0xFF, 0xFF), 0xFFFF);
}

#[test]
fn schema_driven_happy_path() {
    // two WORDs then one REAL, eight bytes in total
    let blocks = vec![block("WORD", 2, "W"), block("REAL", 1, "R")];
    let data: Vec<u8> = vec![0x00, 0x05, 0x00, 0x0A, 0x3F, 0x80, 0x00, 0x00];
    let vars = parse_with_config(&data, &blocks);
    assert_eq!(vars.len(), 3);
    assert_eq!(vars[0].name, "W[0]");
    assert_eq!(vars[0].value, "5");
    assert_eq!(vars[0].data_type, "WORD");
    assert_eq!(vars[1].name, "W[1]");
    assert_eq!(vars[1].value, "10");
    assert_eq!(vars[2].name, "R[0]");
    assert_eq!(vars[2].value, "1.000000");
    assert_eq!(vars[2].data_type, "REAL");
}

#[test]
fn schema_parse_stops_on_short_frame() {
    let blocks = vec![block("WORD", 4, "W")];
    let data: Vec<u8> = vec![0x00, 0x01, 0x00, 0x02, 0x00];
    let vars = parse_with_config(&data, &blocks);
    assert_eq!(vars.len(), 2);
    assert_eq!(vars[0].value, "1");
    assert_eq!(vars[1].value, "2");
}

#[test]
fn all_integer_types_decode() {
    let blocks = vec![
        block("BYTE", 1, "B"),
        block("INT", 1, "I"),
        block("DINT", 1, "DI"),
        block("LINT", 1, "LI"),
        block("DWORD", 1, "DW"),
        block("LWORD", 1, "LW"),
    ];
    let mut data: Vec<u8> = Vec::new();
    data.push(0xFF); // BYTE 255
    data.extend_from_slice(&(-2i16).to_be_bytes());
    data.extend_from_slice(&(-70000i32).to_be_bytes());
    data.extend_from_slice(&(-5000000000i64).to_be_bytes());
    data.extend_from_slice(&3000000000u32.to_be_bytes());
    data.extend_from_slice(&18446744073709551615u64.to_be_bytes());
    let vars = parse_with_config(&data, &blocks);
    assert_eq!(vars[0].value, "255");
    assert_eq!(vars[1].value, "-2");
    assert_eq!(vars[2].value, "-70000");
    assert_eq!(vars[3].value, "-5000000000");
    assert_eq!(vars[4].value, "3000000000");
    assert_eq!(vars[5].value, "18446744073709551615");
}

#[test]
fn integer_round_trip_restores_bytes() {
    // parse then re-encode each integer element bit for bit
    let blocks = vec![
        block("BYTE", 2, "B"),
        block("WORD", 1, "W"),
        block("INT", 1, "I"),
        block("DWORD", 1, "DW"),
        block("DINT", 1, "DI"),
        block("LWORD", 1, "LW"),
        block("LINT", 1, "LI"),
    ];
    let data: Vec<u8> = vec![
        0x01, 0xFE, // bytes
        0xAB, 0xCD, // word
        0x80, 0x00, // int  (-32768)
        0xDE, 0xAD, 0xBE, 0xEF, // dword
        0xFF, 0xFF, 0xFF, 0xFE, // dint (-2)
        0x01, 0x23, 0x45, 0x67, 0x89, 0xAB, 0xCD, 0xEF, // lword
        0x80, 0x00, 0x00, 0x00, 0x00, 0x00, 0x00, 0x00, // lint (i64::MIN)
    ];
    let vars = parse_with_config(&data, &blocks);
    let mut rebuilt: Vec<u8> = Vec::new();
    for v in &vars {
        let bytes = encode_variable(&v.value, &v.data_type).expect("integer value re-encodes");
        rebuilt.extend_from_slice(&bytes);
    }
    assert_eq!(rebuilt, data);
}

#[test]
fn real_round_trip_within_ulp() {
    let blocks = vec![block("REAL", 1, "R"), block("LREAL", 1, "LR")];
    let mut data: Vec<u8> = Vec::new();
    data.extend_from_slice(&3.25f32.to_be_bytes());
    data.extend_from_slice(&(-0.0625f64).to_be_bytes());
    let vars = parse_with_config(&data, &blocks);
    assert_eq!(vars[0].value, "3.250000");
    assert_eq!(vars[1].value, "-0.062500");
    let back32: f32 = vars[0].value.parse().unwrap();
    let back64: f64 = vars[1].value.parse().unwrap();
    assert_eq!(back32, 3.25f32);
    assert_eq!(back64, -0.0625f64);
}

#[test]
fn real_text_matches_std_formatting() {
    let samples32: [u32; 12] = [
        0x00000000, 0x80000000, 0x3F800000, 0x00000001, 0x007FFFFF, 0x7F7FFFFF, 0x358637BD,
        0x49742400, 0xC2280000, 0x3DCCCCCD, 0x7F800000, 0xFF800000,
    ];
    for bits in samples32 {
        let f = f32::from_bits(bits);
        let expected = format!("{:.6}", f);
        assert_eq!(real32_to_string(bits), expected, "bits {bits:#x}");
    }
    assert_eq!(real32_to_string(0x7FC00000), "NaN");
    let samples64: [u64; 10] = [
        0x0000000000000000,
        0x8000000000000000,
        0x3FF0000000000000,
        0x0000000000000001,
        0x7FEFFFFFFFFFFFFF,
        0x3FB999999999999A,
        0xC037000000000000,
        0x4197D78400000000,
        0x7FF0000000000000,
        0xFFF0000000000000,
    ];
    for bits in samples64 {
        let f = f64::from_bits(bits);
        let expected = format!("{:.6}", f);
        assert_eq!(real64_to_string(bits), expected, "bits {bits:#x}");
    }
    assert_eq!(real64_to_string(0x7FF8000000000000), "NaN");
}

#[test]
fn auto_detect_520_bytes_is_mixed() {
    let data = vec![0u8; 520];
    assert_eq!(detect_data_format(&data), "mixed");
    let vars = parse_auto_detect(&data);
    assert_eq!(vars.len(), 195);
    assert_eq!(vars[0].name, "W0");
    assert_eq!(vars[0].data_type, "WORD");
    assert_eq!(vars[65].name, "I0");
    assert_eq!(vars[65].data_type, "INT");
    assert_eq!(vars[130].name, "R0");
    assert_eq!(vars[130].data_type, "REAL");
}

#[test]
fn auto_detect_picks_layouts() {
    // one plausible binary32 group
    let real = 1.0f32.to_be_bytes().to_vec();
    assert_eq!(detect_data_format(&real), "real");
    // all zero, multiple of four: not plausible floats
    let dword = vec![0u8; 8];
    assert_eq!(detect_data_format(&dword), "dword");
    let word = vec![0u8; 6];
    assert_eq!(detect_data_format(&word), "word");
    let byte = vec![0u8; 7];
    assert_eq!(detect_data_format(&byte), "byte");
    let vars = parse_auto_detect(&word);
    assert_eq!(vars.len(), 3);
    assert_eq!(vars[0].name, "W0");
    let vars = parse_auto_detect(&byte);
    assert_eq!(vars.len(), 7);
    assert_eq!(vars[0].name, "B0");
}

#[test]
fn parse_plc_data_is_schema_driven_whenever_registered() {
    let config = PlcStructureConfig {
        plc_ip: "10.0.0.5".to_string(),
        blocks: vec![block("WORD", 2, "W")],
        total_size: 4,
        last_updated: 0,
    };
    let data = vec![0x00, 0x01, 0x00, 0x02];
    let packet = parse_plc_data(&data, "10.0.0.5", Some(&config), 7);
    assert_eq!(packet.ip, "10.0.0.5");
    assert_eq!(packet.timestamp, 7);
    assert_eq!(packet.size, 4);
    assert_eq!(packet.raw_data, data);
    assert_eq!(packet.variables[0].name, "W[0]");
    // a short frame still reads against the schema: one word fits,
    // then parsing stops — no auto-detection while a schema stands
    let short = vec![0x00, 0x09];
    let packet = parse_plc_data(&short, "10.0.0.5", Some(&config), 8);
    assert_eq!(packet.variables.len(), 1);
    assert_eq!(packet.variables[0].name, "W[0]");
    assert_eq!(packet.variables[0].value, "9");
    // without a schema the heuristic names the layout
    let packet = parse_plc_data(&short, "10.0.0.6", None, 9);
    assert_eq!(packet.variables[0].name, "W0");
}

#[test]
fn decimal_strings_and_parses() {
    assert_eq!(u64_to_string(0), "0");
    assert_eq!(u64_to_string(18446744073709551615), "18446744073709551615");
    assert_eq!(i64_to_string(-9223372036854775808), "-9223372036854775808");
    assert_eq!(i64_to_string(42), "42");
    assert_eq!(parse_u64_str("+42"), Some(42));
    assert_eq!(parse_u64_str("18446744073709551615"), Some(u64::MAX));
    assert_eq!(parse_u64_str("18446744073709551616"), None);
    assert_eq!(parse_u64_str("12a"), None);
    assert_eq!(parse_u64_str(""), None);
    assert_eq!(parse_i64_str("-9223372036854775808"), Some(i64::MIN));
    assert_eq!(parse_i64_str("-9223372036854775809"), None);
    assert_eq!(parse_i64_str("-+5"), None);
}

#[test]
fn auto_detect_real_bounds_are_inclusive() {
    // exactly 1e-6 and 1e6 count as plausible binary32 values
    let low = 1e-6f32.to_be_bytes().to_vec();
    assert_eq!(detect_data_format(&low), "real");
    let high = 1e6f32.to_be_bytes().to_vec();
    assert_eq!(detect_data_format(&high), "real");
    // just outside the band: not a plausible value
    let outside = 2e6f32.to_be_bytes().to_vec();
    assert_eq!(detect_data_format(&outside), "dword");
}

#[test]
fn unknown_block_types_are_skipped() {
    let blocks = vec![block("STRING", 3, "S"), block("BYTE", 2, "B")];
    let data: Vec<u8> = vec![7, 9];
    let vars = parse_with_config(&data, &blocks);
    assert_eq!(vars.len(), 2);
    assert_eq!(vars[0].name, "B[0]");
    assert_eq!(vars[0].value, "7");
    assert_eq!(vars[1].value, "9");
}
