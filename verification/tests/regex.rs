use autosar_data::regex::{
    validate, validate_regex_1, validate_regex_2, validate_regex_3, validate_regex_4, validate_regex_5, validate_regex_6, validate_regex_7, validate_regex_8, validate_regex_9, validate_regex_10, validate_regex_11, validate_regex_12, validate_regex_13, validate_regex_14, validate_regex_15, validate_regex_16, validate_regex_17, validate_regex_18, validate_regex_19, validate_regex_20, validate_regex_21, validate_regex_22, validate_regex_23, validate_regex_24, validate_regex_25, validate_regex_26, validate_regex_27, validate_regex_28,
};

#[test]
fn test_regex_1() {
    /* regex: ^(0x[0-9a-z]*)$ */
    assert!(!validate_regex_1(b""));
    assert!(validate_regex_1(b"0x1234567890"));
    assert!(validate_regex_1(b"0xaAbBcCdDeEfF"));
    assert!(!validate_regex_1(b"12345"));
    /* the pattern requires at least one hex digit after the prefix */
    assert!(!validate_regex_1(b"0x"));
    assert!(!validate_regex_1(b"0X"));
    assert!(validate_regex_1(b"0X1"));
    assert!(!validate_regex_1(b"00x1"));
    assert!(!validate_regex_1(b"0x1g"));
}

#[test]
fn test_regex_2() {
    /* regex: ^([1-9][0-9]*|0[xX][0-9a-fA-F]*|0[bB][0-1]+|0[0-7]*|UNSPECIFIED|UNKNOWN|BOOLEAN|PTR)$ */
    /* empty string */
    assert!(!validate_regex_2(b""));
    /* decimal */
    assert!(validate_regex_2(b"1234567890"));
    /* hex */
    assert!(validate_regex_2(b"0x1234567890abcdefABCDEF"));
    /* octal */
    assert!(validate_regex_2(b"01234567"));
    /* other */
    assert!(validate_regex_2(b"UNSPECIFIED"));
    assert!(validate_regex_2(b"UNKNOWN"));
    assert!(validate_regex_2(b"BOOLEAN"));
    assert!(validate_regex_2(b"PTR"));
    /* invalid hex */
    assert!(!validate_regex_2(b"0xghij"));
    /* invalid octal */
    assert!(!validate_regex_2(b"08"));
    /* invalid other */
    assert!(!validate_regex_2(b"hello world"));
    /* the hex digits are optional in this pattern, unlike the binary and decimal digits */
    assert!(validate_regex_2(b"0x"));
    assert!(validate_regex_2(b"0"));
    assert!(!validate_regex_2(b"0b"));
    assert!(validate_regex_2(b"0b0101"));
    assert!(!validate_regex_2(b"0b2"));
    assert!(!validate_regex_2(b"-1"));
    assert!(!validate_regex_2(b"UNKNOWNX"));
}

#[test]
fn test_regex_3() {
    /* regex: ^([1-9][0-9]*|0[xX][0-9a-fA-F]+|0[0-7]*|0[bB][0-1]+|ANY|ALL)$ */
    /* empty string */
    assert!(!validate_regex_3(b""));
    /* decimal */
    assert!(validate_regex_3(b"1234567890"));
    /* hex */
    assert!(validate_regex_3(b"0x1234567890abcdefABCDEF"));
    /* octal */
    assert!(validate_regex_3(b"01234567"));
    /* other */
    assert!(validate_regex_3(b"ANY"));
    assert!(validate_regex_3(b"ALL"));
    /* invalid hex */
    assert!(!validate_regex_3(b"0xghij"));
    /* invalid octal */
    assert!(!validate_regex_3(b"08"));
    /* invalid other */
    assert!(!validate_regex_3(b"hello world"));
    /* here the hex digits are not optional */
    assert!(!validate_regex_3(b"0x"));
    assert!(validate_regex_3(b"0"));
    assert!(!validate_regex_3(b"0b"));
    assert!(validate_regex_3(b"0b0101"));
    assert!(!validate_regex_3(b"AN"));
    assert!(!validate_regex_3(b"ANYY"));
}

#[test]
fn test_regex_4() {
    /* regex: ^([0-9]+|ANY)$ */
    /* matching: */
    assert!(validate_regex_4(b"ANY"));
    assert!(validate_regex_4(b"1234567890"));
    assert!(validate_regex_4(b"0123456789"));

    /* non-matching */
    assert!(!validate_regex_4(b""));
    assert!(!validate_regex_4(b"hello world"));
}

#[test]
fn test_regex_5() {
    /* regex ^([0-9]+|STRING|ARRAY)$ */
    /* matching: */
    assert!(validate_regex_5(b"STRING"));
    assert!(validate_regex_5(b"ARRAY"));
    assert!(validate_regex_5(b"1234567890"));
    assert!(validate_regex_5(b"0123456789"));

    /* non-matching */
    assert!(!validate_regex_5(b""));
    assert!(!validate_regex_5(b"hello world"));
}

#[test]
fn test_regex_6() {
    /* regex ^(0|1|true|false)$ */
    /* matching */
    assert!(validate_regex_6(b"0"));
    assert!(validate_regex_6(b"1"));
    assert!(validate_regex_6(b"true"));
    assert!(validate_regex_6(b"false"));

    /* non-matching */
    assert!(!validate_regex_6(b""));
    assert!(!validate_regex_6(b"2"));
    assert!(!validate_regex_6(b"hello world"));
}

#[test]
fn test_regex_7() {
    /* regex ^([a-zA-Z_][a-zA-Z0-9_]*)$ */
    /* matching */
    assert!(validate_regex_7(b"Text_0"));
    assert!(validate_regex_7(b"_Text_1"));
    assert!(validate_regex_7(b"TEXT_9"));
    assert!(validate_regex_7(b"_"));
    assert!(validate_regex_7(b"a"));
    /* longer than one simd register, to cover both the vectorized loop and its remainder */
    assert!(validate_regex_7(b"_Text_0123456789_Text_0123456789_abc"));

    /* non-matching */
    assert!(!validate_regex_7(b""));
    assert!(!validate_regex_7(b"0Text_0"));
    assert!(!validate_regex_7(b"Text Text"));
    assert!(!validate_regex_7(b"Text-Text"));
    assert!(!validate_regex_7(b"_Text_0123456789_Text_0123456789_ab."));
    /* the characters adjacent to the accepted ranges */
    assert!(!validate_regex_7(b"@"));
    assert!(!validate_regex_7(b"["));
    assert!(!validate_regex_7(b"`"));
    assert!(!validate_regex_7(b"{"));
    assert!(!validate_regex_7(b"A:"));
    assert!(!validate_regex_7(&[b'_', 0xff]));
}

#[test]
fn test_regex_8() {
    /* regex ^([a-zA-Z][a-zA-Z0-9_]*)$ */
    /* matching */
    assert!(validate_regex_8(b"Text_0"));
    assert!(validate_regex_8(b"TEXT_9"));
    assert!(validate_regex_8(b"a"));
    assert!(validate_regex_8(b"Z"));
    assert!(validate_regex_8(b"Text_"));
    /* longer than one simd register, to cover both the vectorized loop and its remainder */
    assert!(validate_regex_8(b"Text_0123456789_Text_0123456789_abc"));

    /* non-matching */
    assert!(!validate_regex_8(b""));
    assert!(!validate_regex_8(b"_Text_1"));
    assert!(!validate_regex_8(b"0Text_0"));
    assert!(!validate_regex_8(b"Text Text"));
    assert!(!validate_regex_8(b"Text-Text"));
    assert!(!validate_regex_8(b"/Text"));
    assert!(!validate_regex_8(b"Text_0123456789_Text_0123456789_ab."));
    /* the characters adjacent to the accepted ranges */
    assert!(!validate_regex_8(b"A@"));
    assert!(!validate_regex_8(b"A["));
    assert!(!validate_regex_8(b"A`"));
    assert!(!validate_regex_8(b"A{"));
    assert!(!validate_regex_8(b"A/"));
    assert!(!validate_regex_8(b"A:"));
    assert!(!validate_regex_8(&[b'A', 0xff]));
}

#[test]
fn test_regex_9() {
    /* regex ^(([0-9]{4}-[0-9]{2}-[0-9]{2})(T[0-9]{2}:[0-9]{2}:[0-9]{2}(Z|([+\-][0-9]{2}:[0-9]{2})))?)$ */
    /* matching */
    assert!(validate_regex_9(b"2022-01-01T12:00:00Z"));
    assert!(validate_regex_9(b"2022-01-01T12:00:00+01:30"));
    assert!(validate_regex_9(b"2022-01-01T12:00:00-01:30"));
    assert!(validate_regex_9(b"2022-01-01"));

    /* non-matching */
    assert!(!validate_regex_9(b""));
    assert!(!validate_regex_9(b"202-01-01T12:00:00Z"));
    assert!(!validate_regex_9(b"2022-01-01T12:00:00"));
    assert!(!validate_regex_9(b"2022-01-01T12:00:00z"));
    assert!(!validate_regex_9(b"2022-01-01T12:00:00Z "));
    assert!(!validate_regex_9(b"2022-01-01 12:00:00Z"));
    assert!(!validate_regex_9(b"2022:01:01"));
    assert!(!validate_regex_9(b"2022-01-01T12:00:00+0130"));
}

#[test]
fn test_regex_10() {
    /* regex ^([a-zA-Z][a-zA-Z0-9-]*)$ */
    /* matching */
    assert!(validate_regex_10(b"Text-0"));
    assert!(validate_regex_10(b"TEXT-9"));

    /* non-matching */
    assert!(!validate_regex_10(b""));
    assert!(!validate_regex_10(b"-"));
    assert!(!validate_regex_10(b"-Text-1"));
    assert!(!validate_regex_10(b"0Text_0"));
    assert!(!validate_regex_10(b"Text Text"));
}

#[test]
fn test_regex_11() {
    /* regex ^([0-9a-zA-Z_\-]+)$ */
    /* matching */
    assert!(validate_regex_11(b"Text-0"));
    assert!(validate_regex_11(b"TEXT-9"));
    assert!(validate_regex_11(b"-"));
    assert!(validate_regex_11(b"_"));

    /* non-matching */
    assert!(!validate_regex_11(b""));
    assert!(!validate_regex_11(b"hello world"));
}

#[test]
fn test_regex_12() {
    /* regex ^(%[ \-+#]?[0-9]*(\.[0-9]+)?[diouxXfeEgGcs])$ */
    /* matching */
    assert!(validate_regex_12(b"%B"));
    assert!(validate_regex_12(b"%d"));
    assert!(validate_regex_12(b"% 9.9f"));
    assert!(validate_regex_12(b"%s"));
    assert!(validate_regex_12(b"%#.9X"));
    assert!(validate_regex_12(b"%12.34s"));
    assert!(validate_regex_12(b"%-d"));
    assert!(validate_regex_12(b"%+d"));

    /* non-matching */
    assert!(!validate_regex_12(b""));
    assert!(!validate_regex_12(b"d"));
    /* the flag character may only appear before the field width */
    assert!(!validate_regex_12(b"%0-d"));
    assert!(!validate_regex_12(b"%12#34s"));
    assert!(!validate_regex_12(b"%--d"));
    assert!(!validate_regex_12(b"%.d"));
    assert!(!validate_regex_12(b"%d "));
    assert!(!validate_regex_12(b"%a"));
    assert!(!validate_regex_12(b"%"));
}

#[test]
fn test_regex_13() {
    /* regex ^(0|[\+\-]?[1-9][0-9]*|0[xX][0-9a-fA-F]+|0[bB][0-1]+|0[0-7]+)$ */
    /* matching */
    assert!(validate_regex_13(b"0"));
    assert!(validate_regex_13(b"-19"));
    assert!(validate_regex_13(b"0XDEADBEEF"));
    assert!(validate_regex_13(b"0b010101"));
    assert!(validate_regex_13(b"+19"));

    /* non-matching */
    assert!(!validate_regex_13(b""));
    assert!(!validate_regex_13(b"-019"));
    assert!(!validate_regex_13(b"0XDEADBEEG"));
    assert!(!validate_regex_13(b"0b010102"));
    assert!(!validate_regex_13(b"-0"));
    assert!(!validate_regex_13(b"+0x1"));
    assert!(!validate_regex_13(b"0x"));
    assert!(!validate_regex_13(b"01238"));
}

#[test]
fn test_regex_14() {
    /* regex ^((25[0-5]|2[0-4][0-9]|[01]?[0-9][0-9]?)\.(25[0-5]|2[0-4][0-9]|[01]?[0-9][0-9]?)\.(25[0-5]|2[0-4][0-9]|[01]?[0-9][0-9]?)\.(25[0-5]|2[0-4][0-9]|[01]?[0-9][0-9]?)|ANY)$ */
    /* matching */
    assert!(validate_regex_14(b"192.168.0.1"));
    assert!(validate_regex_14(b"255.255.255.0"));
    assert!(validate_regex_14(b"ANY"));
    assert!(validate_regex_14(b"0.0.0.0"));
    assert!(validate_regex_14(b"099.199.249.255"));

    /* non-matching */
    assert!(!validate_regex_14(b""));
    assert!(!validate_regex_14(b"255.255.255.255.255"));
    assert!(!validate_regex_14(b"256.1.1.1"));
    assert!(!validate_regex_14(b"260.1.1.1"));
    assert!(!validate_regex_14(b"1.2.3"));
    assert!(!validate_regex_14(b"1.2.3."));
    assert!(!validate_regex_14(b"1234.1.1.1"));
}

#[test]
fn test_regex_15() {
    /* regex ^([0-9A-Fa-f]{1,4}(:[0-9A-Fa-f]{1,4}){7,7}|ANY)$ */
    /* matching */
    assert!(validate_regex_15(b"fe80:0:abcd:1234:0:0:0:1"));
    assert!(validate_regex_15(b"ANY"));
    assert!(validate_regex_15(b"1:2:3:4:5:6:7:8"));

    /* non-matching */
    assert!(!validate_regex_15(b""));
    assert!(!validate_regex_15(b"fe80::abcd:1234::::1"));
    assert!(!validate_regex_15(b"1:2:3:4:5:6:7"));
    assert!(!validate_regex_15(b"1:2:3:4:5:6:7:8:9"));
    assert!(!validate_regex_15(b"12345:2:3:4:5:6:7:8"));
    assert!(!validate_regex_15(b"1:2:3:4:5:6:7:8:"));
}

#[test]
fn test_regex_16() {
    /* regex ^((0[xX][0-9a-fA-F]+)|(0[0-7]+)|(0[bB][0-1]+)|(([+\-]?[1-9][0-9]+(\.[0-9]+)?|[+\-]?[0-9](\.[0-9]+)?)([eE]([+\-]?)[0-9]+)?)|\.0|INF|-INF|NaN)$ */
    /* matching */
    assert!(validate_regex_16(b"0xC0"));
    assert!(validate_regex_16(b"0777"));
    assert!(validate_regex_16(b"+1234"));
    assert!(validate_regex_16(b"-3.1415e-42"));
    assert!(validate_regex_16(b"INF"));
    assert!(validate_regex_16(b"NaN"));
    assert!(validate_regex_16(b"0"));
    assert!(validate_regex_16(b".0"));
    assert!(validate_regex_16(b"-INF"));
    assert!(validate_regex_16(b"0b1010"));
    assert!(validate_regex_16(b"1.5e10"));
    assert!(validate_regex_16(b"12345.6789e+0"));

    /* non-matching */
    assert!(!validate_regex_16(b""));
    assert!(!validate_regex_16(b"text"));
    assert!(!validate_regex_16(b"09"));
    assert!(!validate_regex_16(b"01.5"));
    assert!(!validate_regex_16(b"1."));
    assert!(!validate_regex_16(b"1e"));
    assert!(!validate_regex_16(b"1e+"));
    assert!(!validate_regex_16(b"1.2.3"));
    assert!(!validate_regex_16(b"+INF"));
    assert!(!validate_regex_16(b".5"));
}

#[test]
fn test_regex_17() {
    /* regex ^(([0-9a-fA-F]{2}:){5}[0-9a-fA-F]{2})$ */
    /* matching */
    assert!(validate_regex_17(b"0A:1B:2C:3D:4E:5F"));

    /* non-matching */
    assert!(!validate_regex_17(b""));
    assert!(!validate_regex_17(b"0A:1B:2C:3D:4E"));
}

#[test]
fn test_regex_18() {
    /* regex ^([a-zA-Z_][a-zA-Z0-9_]*(\[([a-zA-Z_][a-zA-Z0-9_]*|[0-9]+)\])*(\.[a-zA-Z_][a-zA-Z0-9_]*(\[([a-zA-Z_][a-zA-Z0-9_]*|[0-9]+)\])*)*)$ */
    /* matching */
    assert!(validate_regex_18(b"aabb9_cd[x][y].cde"));
    assert!(validate_regex_18(b"a"));
    assert!(validate_regex_18(b"_x9"));
    assert!(validate_regex_18(b"a[0][b].c"));

    /* non-matching */
    assert!(!validate_regex_18(b""));
    assert!(!validate_regex_18(b"42"));
    /* a subscript must be followed by '.', another subscript, or the end of the string */
    assert!(!validate_regex_18(b"a[0]b"));
    assert!(!validate_regex_18(b"a[]"));
    assert!(!validate_regex_18(b"a[0"));
    assert!(!validate_regex_18(b"a[0b]"));
    assert!(!validate_regex_18(b"a."));
    assert!(!validate_regex_18(b".a"));
    assert!(!validate_regex_18(b"a..b"));
}

#[test]
fn test_regex_19() {
    /* regex ^([A-Z][a-zA-Z0-9_]*)$ */
    /* matching */
    assert!(validate_regex_19(b"Text_Text"));

    /* non-matching */
    assert!(!validate_regex_19(b""));
    assert!(!validate_regex_19(b"text"));
    assert!(!validate_regex_19(b"Text Text"));
}

#[test]
fn test_regex_20() {
    /* regex  ^([1-9][0-9]*)$ */
    /* matching */
    assert!(validate_regex_20(b"123"));

    /* non-matching */
    assert!(!validate_regex_20(b""));
    assert!(!validate_regex_20(b"abcd"));
    assert!(!validate_regex_20(b"0x123"));
}

#[test]
fn test_regex_21() {
    /* regex ^(0|[\+]?[1-9][0-9]*|0[xX][0-9a-fA-F]+|0[bB][0-1]+|0[0-7]+)$ */
    /* matching */
    assert!(validate_regex_21(b"0"));
    assert!(validate_regex_21(b"+19"));
    assert!(validate_regex_21(b"0xbadcafe"));
    assert!(validate_regex_21(b"0b1010"));
    assert!(validate_regex_21(b"0777"));

    /* non-matching */
    assert!(!validate_regex_21(b""));
    assert!(!validate_regex_21(b"-19"));
    assert!(!validate_regex_21(b"1.23"));
    assert!(!validate_regex_21(b"text"));
    assert!(!validate_regex_21(b"+0"));
    assert!(!validate_regex_21(b"+0x1"));
    assert!(!validate_regex_21(b"0x"));
    assert!(!validate_regex_21(b"01238"));
}

#[test]
fn test_regex_22() {
    /* regex ^([a-zA-Z]([a-zA-Z0-9]|_[a-zA-Z0-9])*_?)$ */
    /* matching */
    assert!(validate_regex_22(b"text"));
    assert!(validate_regex_22(b"text_text"));
    assert!(validate_regex_22(b"a"));
    assert!(validate_regex_22(b"text_"));
    assert!(validate_regex_22(b"aZ9_0_"));

    /* non-matching */
    assert!(!validate_regex_22(b""));
    assert!(!validate_regex_22(b"_text"));
    assert!(!validate_regex_22(b"text__text"));
    assert!(!validate_regex_22(b"text__"));
    assert!(!validate_regex_22(b"text-text"));
    assert!(!validate_regex_22(b"9text"));
}

#[test]
fn test_regex_23() {
    /* regex ^(-?([0-9]+|MAX-TEXT-SIZE|ARRAY-SIZE))$ */
    /* matching */
    assert!(validate_regex_23(b"-000"));
    assert!(validate_regex_23(b"33"));
    assert!(validate_regex_23(b"MAX-TEXT-SIZE"));
    assert!(validate_regex_23(b"ARRAY-SIZE"));

    /* non-matching */
    assert!(!validate_regex_23(b""));
    assert!(!validate_regex_23(b"text"));
    assert!(!validate_regex_23(b"1.23"));
}

#[test]
fn test_regex_24() {
    /* regex ^(/?[a-zA-Z][a-zA-Z0-9_]{0,127}(/[a-zA-Z][a-zA-Z0-9_]{0,127})*)$ */
    /* matching */
    assert!(validate_regex_24(b"/path/to/element"));
    assert!(validate_regex_24(b"element_name"));
    assert!(validate_regex_24(b"path/to/element"));
    assert!(validate_regex_24(b"/a"));
    assert!(validate_regex_24(b"/Pkg_0/Sub9/Element_name_0123456789"));

    /* non-matching */
    assert!(!validate_regex_24(b""));
    assert!(!validate_regex_24(b"1234"));
    assert!(!validate_regex_24(b"/"));
    assert!(!validate_regex_24(b"//"));
    assert!(!validate_regex_24(b"/path/"));
    assert!(!validate_regex_24(b"/path//to"));
    assert!(!validate_regex_24(b"/path/0to"));
    assert!(!validate_regex_24(b"/path/_to"));
    assert!(!validate_regex_24(b"/1path"));
    assert!(!validate_regex_24(b"/path/to element"));
    assert!(!validate_regex_24(b"/path/to/element."));
}

#[test]
fn test_regex_25() {
    /* regex ^([0-9]+\.[0-9]+\.[0-9]+([\._;].*)?)$ */
    /* matching */
    assert!(validate_regex_25(b"0.1.2_text"));
    assert!(validate_regex_25(b"1.2.3"));
    assert!(validate_regex_25(b"1.2.3;anything at all"));
    assert!(validate_regex_25(b"1.2.3."));

    /* non-matching */
    assert!(!validate_regex_25(b""));
    assert!(!validate_regex_25(b"text"));
    assert!(!validate_regex_25(b"12"));
    assert!(!validate_regex_25(b"1.2.3x"));
    assert!(!validate_regex_25(b"1.2."));
    assert!(!validate_regex_25(b".2.3"));
    /* '.' in the pattern does not match a line break */
    assert!(!validate_regex_25(b"1.2.3.a\nb"));
}

#[test]
fn test_regex_26() {
    /* regex ^((0|[1-9]\d*)\.(0|[1-9]\d*)\.(0|[1-9]\d*)(-((0|[1-9]\d*|\d*[a-zA-Z-][0-9a-zA-Z-]*)(\.(0|[1-9]\d*|\d*[a-zA-Z-][0-9a-zA-Z-]*))*))?(\+([0-9a-zA-Z-]+(\.[0-9a-zA-Z-]+)*))?)$ */
    /* matching */
    assert!(validate_regex_26(b"0.0.0-ab-c.0.0+zz-Z"));
    assert!(validate_regex_26(b"1.2.3-alpha.1"));
    assert!(validate_regex_26(b"1.2.3-0.3.7"));
    assert!(validate_regex_26(b"1.2.3+build.1"));
    assert!(validate_regex_26(b"1.2.3-beta+exp.sha.5114f85"));
    assert!(validate_regex_26(b"1.2.3-0a"));

    /* non-matching */
    assert!(!validate_regex_26(b""));
    assert!(!validate_regex_26(b"0"));
    assert!(!validate_regex_26(b"text"));
    /* a numeric pre-release identifier may not have a leading zero */
    assert!(!validate_regex_26(b"1.2.3-03.7"));
    assert!(!validate_regex_26(b"1.2.3-alpha.01"));
    assert!(!validate_regex_26(b"01.2.3"));
    assert!(!validate_regex_26(b"1.2.3-"));
    assert!(!validate_regex_26(b"1.2.3+"));
    assert!(!validate_regex_26(b"1.2.3-a..b"));
    assert!(!validate_regex_26(b"1.2.3.4"));
}

#[test]
fn test_regex_27() {
    /* regex ^([0-1])$ */
    /* matching */
    assert!(validate_regex_27(b"0"));
    assert!(validate_regex_27(b"1"));

    /* non-matching */
    assert!(!validate_regex_27(b""));
    assert!(!validate_regex_27(b"text"));
    assert!(!validate_regex_27(b"10"));
}

#[test]
fn test_regex_28() {
    /* regex ^((-?[a-zA-Z_]+)(( )+-?[a-zA-Z_]+)*)$ */
    /* matching */
    assert!(validate_regex_28(b"abc"));
    assert!(validate_regex_28(b"-abc"));
    assert!(validate_regex_28(b"a  b"));
    assert!(validate_regex_28(b"-a -b  c"));
    assert!(validate_regex_28(b"_a b_"));

    /* non-matching */
    assert!(!validate_regex_28(b"-text_text-Z__Z"));
    assert!(!validate_regex_28(b""));
    assert!(!validate_regex_28(b"--"));
    assert!(!validate_regex_28(b"1"));
    assert!(!validate_regex_28(b" a"));
    assert!(!validate_regex_28(b"a "));
    assert!(!validate_regex_28(b"a - b"));
    assert!(!validate_regex_28(b"--a"));
    assert!(!validate_regex_28(b"a1"));
}

/* each segment of a path has at most 128 characters */
#[test]
fn path_segments_are_limited() {
    let longest = format!("/{}", "a".repeat(128));
    assert!(validate_regex_24(longest.as_bytes()));
    let too_long = format!("/{}", "a".repeat(129));
    assert!(!validate_regex_24(too_long.as_bytes()));
    let twice = format!("{longest}{longest}");
    assert!(validate_regex_24(twice.as_bytes()));
}

#[test]
fn patterns_are_found_by_number() {
    assert!(validate(1, b"0x1"));
    assert!(!validate(1, b"1"));
    assert!(validate(28, b"-a -b  c"));
    /* there are no such patterns */
    assert!(!validate(0, b"text"));
    assert!(!validate(29, b"text"));
}
