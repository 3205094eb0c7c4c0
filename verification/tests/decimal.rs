use locale_codes::decimal::parse_u16;

#[test]
fn parse_u16_reads_decimal_numbers() {
    assert_eq!(parse_u16("0"), Some(0));
    assert_eq!(parse_u16("7"), Some(7));
    assert_eq!(parse_u16("21"), Some(21));
    assert_eq!(parse_u16("276"), Some(276));
    assert_eq!(parse_u16("65535"), Some(65535));
    assert_eq!(parse_u16("+21"), Some(21));
    assert_eq!(parse_u16("+0"), Some(0));
    assert_eq!(parse_u16("021"), Some(21));
    assert_eq!(parse_u16("0000000000000000065535"), Some(65535));
}

#[test]
fn parse_u16_rejects_what_is_not_a_number_below_65536() {
    for text in [
        "", "+", "-", "-1", "-0", "++1", "+-1", "1+", " 1", "1 ", "1 2", "1_000", "1.0", "1e3",
        "0x10", "a", "12a", "65536", "65540", "70000", "99999", "100000", "4294967296",
        "18446744073709551616", "٢١", "２１", "1é",
    ] {
        assert_eq!(parse_u16(text), None, "{:?}", text);
    }
}

#[test]
fn parse_u16_agrees_with_the_standard_library() {
    let mut texts: Vec<String> = (0..=70000u32).step_by(7).map(|n| n.to_string()).collect();
    for n in [0u32, 9, 10, 99, 100, 65534, 65535, 65536, 65537, 655350, 655360] {
        texts.push(n.to_string());
        texts.push(format!("+{}", n));
        texts.push(format!("-{}", n));
        texts.push(format!("00{}", n));
        texts.push(format!("{}x", n));
        texts.push(format!(" {}", n));
    }
    for text in &texts {
        assert_eq!(parse_u16(text), text.parse::<u16>().ok(), "{:?}", text);
    }
}
