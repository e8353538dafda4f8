use std::str::FromStr;

use svg_viewbox::error::AttributeError;
use svg_viewbox::error::ParseError;
use svg_viewbox::number::any_nonzero_digit;
use svg_viewbox::number::copy_range;
use svg_viewbox::number::digit_byte;
use svg_viewbox::number::push_all;
use svg_viewbox::number::read_number;
use svg_viewbox::number::skip_digits;
use svg_viewbox::number::skip_sign;
use svg_viewbox::number::Number;
use svg_viewbox::trim::trim;
use svg_viewbox::trim::white_space;
use svg_viewbox::viewbox::read_four_numbers;
use svg_viewbox::viewbox::skip_separator;
use svg_viewbox::viewbox::skip_spaces;
use svg_viewbox::viewbox::space_byte;
use svg_viewbox::viewbox::RsvgViewBox;

fn value(n: &Number) -> f64 {
    let text = String::from_utf8(n.to_bytes()).unwrap();
    f64::from_str(&text).unwrap()
}

fn values(v: &RsvgViewBox) -> (f64, f64, f64, f64) {
    (value(&v.rect.x), value(&v.rect.y), value(&v.rect.width), value(&v.rect.height))
}

fn is_parse_error(r: &Result<RsvgViewBox, AttributeError>) -> bool {
    match r {
        Err(e) => e.is_parse_error(),
        Ok(_) => false,
    }
}

fn is_value_error(r: &Result<RsvgViewBox, AttributeError>) -> bool {
    match r {
        Err(e) => e.is_value_error(),
        Ok(_) => false,
    }
}

#[test]
fn parses_valid_viewboxes() {
    let v = RsvgViewBox::from_str("  1 2 3 4").unwrap();
    assert_eq!(values(&v), (1.0, 2.0, 3.0, 4.0));
    assert!(v.is_active());

    let v = RsvgViewBox::from_str(" -1.5 -2.5e1,34,56e2  ").unwrap();
    assert_eq!(values(&v), (-1.5, -25.0, 34.0, 5600.0));
    assert!(v.is_active());
}

#[test]
fn parsing_invalid_viewboxes_yields_error() {
    assert!(is_parse_error(&RsvgViewBox::from_str("")));

    assert!(is_value_error(&RsvgViewBox::from_str(" 1,2,-3,-4 ")));

    assert!(is_parse_error(&RsvgViewBox::from_str("qwerasdfzxcv")));

    assert!(is_parse_error(&RsvgViewBox::from_str(" 1 2 3 4   5")));
}

#[test]
fn parse_agrees_with_from_str() {
    for text in ["1 2 3 4", " 1,2,-3,-4 ", "", "1 2 3", "0,0,0,0", "\u{a0}1 2 3 4"] {
        assert_eq!(RsvgViewBox::parse(text), RsvgViewBox::from_str(text));
    }
}

#[test]
fn parse_agrees_with_parse_bytes_on_ascii() {
    for text in ["1 2 3 4", " 1,2,-3,-4 ", "", "1 2 3", "0,0,0,0", "\t1 2 3 4\r\n", " x "] {
        assert_eq!(RsvgViewBox::parse_bytes(text.as_bytes()), RsvgViewBox::parse(text));
    }
}

#[test]
fn whitespace_beyond_ascii_is_dropped_at_the_ends_only() {
    let v = RsvgViewBox::parse("\u{a0}\u{2003} 1 2 3 4 \u{3000}\u{85}").unwrap();
    assert_eq!(values(&v), (1.0, 2.0, 3.0, 4.0));
    assert!(is_parse_error(&RsvgViewBox::parse("1 2\u{a0}3 4")));
    assert!(is_parse_error(&RsvgViewBox::parse("1,2,\u{2003}3,4")));
    assert!(is_parse_error(&RsvgViewBox::parse("\u{a0}\u{2003}")));
    assert!(is_parse_error(&RsvgViewBox::parse_bytes("\u{a0}1 2 3 4".as_bytes())));
}

#[test]
fn trim_drops_whitespace_at_both_ends() {
    assert_eq!(trim("  1 2  "), "1 2");
    assert_eq!(trim("\t\n\u{b}\u{c}\r 1\u{a0}2 \u{1680}\u{2000}\u{200a}\u{2028}\u{2029}\u{202f}\u{205f}\u{3000}\u{85}"), "1\u{a0}2");
    assert_eq!(trim(""), "");
    assert_eq!(trim(" \u{a0} "), "");
    assert_eq!(trim("a"), "a");
    assert_eq!(trim("\u{200b}1\u{200b}"), "\u{200b}1\u{200b}");
}

#[test]
fn trim_agrees_with_the_standard_library() {
    for n in 0u32..0x110000 {
        if let Some(c) = char::from_u32(n) {
            assert_eq!(white_space(c), c.is_whitespace(), "{:x}", n);
        }
    }
    for n in 0u32..0x3100 {
        if let Some(c) = char::from_u32(n) {
            let text = format!("{}1{} 2{}", c, c, c);
            assert_eq!(trim(&text), text.trim());
        }
    }
}

#[test]
fn keeps_the_digits_as_written() {
    let v = RsvgViewBox::parse(" -1.5 -2.5e1,34,56e-2  ").unwrap();
    assert!(v.rect.x.negative);
    assert_eq!(v.rect.x.integer, b"1".to_vec());
    assert_eq!(v.rect.x.fraction, b"5".to_vec());
    assert!(v.rect.x.exponent.is_empty());
    assert!(!v.rect.x.exponent_negative);

    assert!(v.rect.y.negative);
    assert_eq!(v.rect.y.integer, b"2".to_vec());
    assert_eq!(v.rect.y.fraction, b"5".to_vec());
    assert_eq!(v.rect.y.exponent, b"1".to_vec());
    assert!(!v.rect.y.exponent_negative);

    assert!(!v.rect.width.negative);
    assert_eq!(v.rect.width.integer, b"34".to_vec());
    assert!(v.rect.width.fraction.is_empty());
    assert!(v.rect.width.exponent.is_empty());

    assert!(!v.rect.height.negative);
    assert_eq!(v.rect.height.integer, b"56".to_vec());
    assert!(v.rect.height.fraction.is_empty());
    assert_eq!(v.rect.height.exponent, b"2".to_vec());
    assert!(v.rect.height.exponent_negative);
    assert_eq!(value(&v.rect.height), 0.56);
}

#[test]
fn accepts_every_mix_of_commas_and_whitespace() {
    for text in [
        "1 2 3 4",
        "1,2,3,4",
        "1, 2 ,3,4",
        "1 , 2 , 3 , 4",
        "1\t2\n3\r4",
        "\n1,\t2,  3 ,4\n",
        "  1   2   3   4  ",
    ] {
        let v = RsvgViewBox::parse(text).unwrap();
        assert_eq!(values(&v), (1.0, 2.0, 3.0, 4.0), "{:?}", text);
        assert!(v.is_active());
    }
}

#[test]
fn a_sign_alone_parts_two_numbers() {
    let v = RsvgViewBox::parse("1+2+3+4").unwrap();
    assert_eq!(values(&v), (1.0, 2.0, 3.0, 4.0));
    let v = RsvgViewBox::parse("-1-2+3+4").unwrap();
    assert_eq!(values(&v), (-1.0, -2.0, 3.0, 4.0));
    assert!(is_value_error(&RsvgViewBox::parse("1-2-3-4")));
}

#[test]
fn negative_corner_is_legal() {
    let v = RsvgViewBox::parse("-10 -20.25 30 40").unwrap();
    assert_eq!(values(&v), (-10.0, -20.25, 30.0, 40.0));
    assert!(v.is_active());
}

#[test]
fn zero_size_is_legal() {
    let v = RsvgViewBox::parse("0 0 0 0").unwrap();
    assert_eq!(values(&v), (0.0, 0.0, 0.0, 0.0));
    assert!(v.is_active());
}

#[test]
fn minus_zero_is_not_negative() {
    let v = RsvgViewBox::parse("0 0 -0 -0.000e5").unwrap();
    assert!(v.is_active());
    assert!(v.rect.width.negative);
    assert!(!v.rect.width.is_negative());
    assert!(!v.rect.height.is_negative());
}

#[test]
fn negative_width_alone_is_a_value_error() {
    let r = RsvgViewBox::parse("1 2 -3 4");
    assert!(is_value_error(&r));
    assert!(!is_parse_error(&r));
}

#[test]
fn negative_height_alone_is_a_value_error() {
    let r = RsvgViewBox::parse("1 2 3 -0.001");
    assert!(is_value_error(&r));
    assert!(!is_parse_error(&r));
}

#[test]
fn negative_size_with_a_negative_exponent_is_a_value_error() {
    assert!(is_value_error(&RsvgViewBox::parse("1 2 3 -4e-2")));
}

#[test]
fn too_few_numbers_are_a_parse_error() {
    assert!(is_parse_error(&RsvgViewBox::parse("1")));
    assert!(is_parse_error(&RsvgViewBox::parse("1 2")));
    assert!(is_parse_error(&RsvgViewBox::parse("1 2 3")));
    assert!(is_parse_error(&RsvgViewBox::parse("1,2,3,")));
}

#[test]
fn a_fifth_number_is_a_parse_error() {
    assert!(is_parse_error(&RsvgViewBox::parse("1 2 3 4 5")));
    assert!(is_parse_error(&RsvgViewBox::parse("1,2,3,4,5")));
    assert!(is_parse_error(&RsvgViewBox::parse("1 2 3 4 5 6")));
    assert!(is_parse_error(&RsvgViewBox::parse("1 2 3 -4 5")));
}

#[test]
fn a_trailing_comma_is_a_parse_error() {
    assert!(is_parse_error(&RsvgViewBox::parse("1 2 3 4,")));
}

#[test]
fn a_leading_comma_is_a_parse_error() {
    assert!(is_parse_error(&RsvgViewBox::parse(",1 2 3 4")));
}

#[test]
fn two_commas_are_a_parse_error() {
    assert!(is_parse_error(&RsvgViewBox::parse("1,,2 3 4")));
    assert!(is_parse_error(&RsvgViewBox::parse("1 , , 2 3 4")));
}

#[test]
fn whitespace_alone_is_a_parse_error() {
    assert!(is_parse_error(&RsvgViewBox::parse("   ")));
}

#[test]
fn garbage_is_a_parse_error() {
    assert!(is_parse_error(&RsvgViewBox::parse("one two three four")));
    assert!(is_parse_error(&RsvgViewBox::parse("1 2 3 x")));
    assert!(is_parse_error(&RsvgViewBox::parse("1 2 3 4x")));
    assert!(is_parse_error(&RsvgViewBox::parse("1 2 3 4 x")));
    assert!(is_parse_error(&RsvgViewBox::parse("1 2 3 \u{e9}")));
}

#[test]
fn unfinished_literals_are_a_parse_error() {
    assert!(is_parse_error(&RsvgViewBox::parse("1 2 3 4e")));
    assert!(is_parse_error(&RsvgViewBox::parse("1 2 3 4e+")));
    assert!(is_parse_error(&RsvgViewBox::parse("1 2 3 4.")));
    assert!(is_parse_error(&RsvgViewBox::parse("1 2 3 -")));
    assert!(is_parse_error(&RsvgViewBox::parse("1 2 3 .5")));
    assert!(is_parse_error(&RsvgViewBox::parse("1 2 3 --4")));
}

#[test]
fn exponents_take_either_case_and_a_sign() {
    let v = RsvgViewBox::parse("1E2 1e+2 25e-1 +1.5E1").unwrap();
    assert_eq!(values(&v), (100.0, 100.0, 2.5, 15.0));
}

#[test]
fn error_messages() {
    let e = RsvgViewBox::parse("").unwrap_err();
    assert_eq!(e.to_message(), "string does not match 'x [,] y [,] w [,] h'");
    let e = RsvgViewBox::parse("1 2 -3 4").unwrap_err();
    assert_eq!(e.to_message(), "width and height must not be negative");
    assert_eq!(
        e,
        AttributeError::Value("width and height must not be negative".to_string())
    );
}

#[test]
fn inactive_view_box_is_all_zero() {
    let v = RsvgViewBox::new_inactive();
    assert!(!v.is_active());
    assert_eq!(values(&v), (0.0, 0.0, 0.0, 0.0));
    assert_eq!(v.rect.x, Number::zero());
    assert_eq!(v.rect.y, Number::zero());
    assert_eq!(v.rect.width, Number::zero());
    assert_eq!(v.rect.height, Number::zero());
    assert_eq!(RsvgViewBox::default(), v);
}

#[test]
fn parsed_view_box_is_active() {
    for text in ["1 2 3 4", "0,0,0,0", "-1 -1 1e3 2.5"] {
        assert!(RsvgViewBox::parse(text).unwrap().is_active());
    }
}

#[test]
fn new_takes_its_parts_as_they_are() {
    let rect = RsvgViewBox::parse("1 2 3 4").unwrap().rect;
    let v = RsvgViewBox::new(rect.clone(), false);
    assert!(!v.is_active());
    assert_eq!(v.rect, rect);
    let v = RsvgViewBox::new(rect.clone(), true);
    assert!(v.is_active());
    assert_eq!(v.rect, rect);
}

#[test]
fn from_numbers_checks_the_size() {
    let good = RsvgViewBox::parse("-1 -2 3 4").unwrap().rect;
    let v = RsvgViewBox::from_numbers(good.clone()).unwrap();
    assert!(v.is_active());
    assert_eq!(v.rect, good);

    let mut bad = good.clone();
    bad.width = good.x.clone();
    assert!(is_value_error(&RsvgViewBox::from_numbers(bad)));
    let mut bad = good.clone();
    bad.height = good.y.clone();
    assert!(is_value_error(&RsvgViewBox::from_numbers(bad)));
}

#[test]
fn to_bytes_writes_the_shortest_literal() {
    let v = RsvgViewBox::parse("+1.50E+02, -2.5e-1 ,34, 0056e0").unwrap();
    assert_eq!(v.rect.x.to_bytes(), b"1.50e02".to_vec());
    assert_eq!(v.rect.y.to_bytes(), b"-2.5e-1".to_vec());
    assert_eq!(v.rect.width.to_bytes(), b"34".to_vec());
    assert_eq!(v.rect.height.to_bytes(), b"0056e0".to_vec());
    assert_eq!(Number::zero().to_bytes(), b"0".to_vec());
    assert_eq!(values(&v), (150.0, -0.25, 34.0, 56.0));
}

#[test]
fn written_numbers_are_read_back() {
    let v = RsvgViewBox::parse("+1.50E+02, -2.5e-1 ,34, 0056e0").unwrap();
    let mut text: Vec<u8> = Vec::new();
    text.extend(v.rect.x.to_bytes());
    text.push(b' ');
    text.extend(v.rect.y.to_bytes());
    text.push(b',');
    text.extend(v.rect.width.to_bytes());
    text.extend(b" , ".to_vec());
    text.extend(v.rect.height.to_bytes());
    assert_eq!(RsvgViewBox::parse_bytes(&text), Ok(v));
}

#[test]
fn joined_literals_are_read_back() {
    let literals = ["0", "-1", "+2.5", "3e2", "4.25E-1", "-0.5e+3"];
    let separators = [" ", ",", ", ", " ,", " , ", "\t", "  \n ,\r\n"];
    for (n, a) in literals.iter().enumerate() {
        for (m, sep) in separators.iter().enumerate() {
            let b = literals[(n + m) % literals.len()];
            let text = format!("  {}{}{}{}7{}8.5\n", a, sep, b, sep, sep);
            let v = RsvgViewBox::parse(&text).unwrap();
            let expected = (
                f64::from_str(a).unwrap(),
                f64::from_str(b).unwrap(),
                7.0,
                8.5,
            );
            assert_eq!(values(&v), expected, "{:?}", text);
            assert!(v.is_active());
        }
    }
}

#[test]
fn whitespace_at_the_ends_changes_nothing() {
    for text in ["1 2 3 4", "1,2,-3,4", "1 2 3", "x", "", "1 2 3 4 5"] {
        let padded = format!(" \t\n{}\r  ", text);
        assert_eq!(
            RsvgViewBox::parse_bytes(padded.as_bytes()),
            RsvgViewBox::parse_bytes(text.as_bytes()),
            "{:?}",
            text
        );
    }
}

#[test]
fn more_behind_a_valid_string_is_a_parse_error() {
    for extra in [" 5", ",5", " ,", " x", ", 5 6", "\t-1e3"] {
        let text = format!("1 2 3 4{}", extra);
        assert!(is_parse_error(&RsvgViewBox::parse(&text)), "{:?}", text);
        let text = format!("1 2 -3 4{}", extra);
        assert!(is_parse_error(&RsvgViewBox::parse(&text)), "{:?}", text);
    }
}

#[test]
fn a_text_that_starts_with_neither_digit_nor_sign_is_a_parse_error() {
    for text in ["x1 2 3 4", ".1 2 3 4", "e1 2 3 4", ",1 2 3 4", "  ;1 2 3 4", "\u{e9}"] {
        assert!(is_parse_error(&RsvgViewBox::parse(text)), "{:?}", text);
    }
}

#[test]
fn negative_is_decided_by_sign_and_digits() {
    let v = RsvgViewBox::parse("-0.0 -0e9 0 0").unwrap();
    assert!(!v.rect.x.is_negative());
    assert!(!v.rect.y.is_negative());
    let v = RsvgViewBox::parse("-0.01 -1e-9 0 0").unwrap();
    assert!(v.rect.x.is_negative());
    assert!(v.rect.y.is_negative());
    assert!(!v.rect.width.is_negative());
    assert!(!Number::zero().is_negative());
}

#[test]
fn parse_error_keeps_its_message() {
    let e = ParseError::new("expected a number");
    assert_eq!(e.display, "expected a number");
    let e = AttributeError::Parse(e);
    assert!(e.is_parse_error());
    assert!(!e.is_value_error());
    assert_eq!(e.to_message(), "expected a number");
    let e = AttributeError::Value("too small".to_string());
    assert!(e.is_value_error());
    assert!(!e.is_parse_error());
    assert_eq!(e.to_message(), "too small");
}

#[test]
fn digits_and_spaces_are_told_apart() {
    for b in 0u8..=255 {
        assert_eq!(digit_byte(b), (b'0'..=b'9').contains(&b), "{}", b);
        assert_eq!(
            space_byte(b),
            b == b' ' || b == b'\t' || b == b'\n' || b == 11 || b == 12 || b == b'\r',
            "{}",
            b
        );
    }
}

#[test]
fn skipping_stops_at_the_first_byte_of_another_kind() {
    let s = b"  12 ,\t 345,,";
    assert_eq!(skip_spaces(s, 0), 2);
    assert_eq!(skip_spaces(s, 2), 2);
    assert_eq!(skip_digits(s, 2), 4);
    assert_eq!(skip_digits(s, 4), 4);
    assert_eq!(skip_separator(s, 4), 8);
    assert_eq!(skip_separator(s, 8), 8);
    assert_eq!(skip_digits(s, 8), 11);
    assert_eq!(skip_separator(s, 11), 12);
    assert_eq!(skip_separator(s, 12), 13);
    assert_eq!(skip_separator(s, 13), 13);
    assert_eq!(skip_spaces(s, 13), 13);
    assert_eq!(skip_digits(s, 13), 13);
    assert_eq!(skip_sign(b"+-1", 0), 1);
    assert_eq!(skip_sign(b"+-1", 1), 2);
    assert_eq!(skip_sign(b"+-1", 2), 2);
    assert_eq!(skip_sign(b"+-1", 3), 3);
}

#[test]
fn read_number_takes_the_longest_literal() {
    let (n, end) = read_number(b"x-12.50e-3,4", 1).unwrap();
    assert_eq!(end, 10);
    assert!(n.negative);
    assert_eq!(n.integer, b"12".to_vec());
    assert_eq!(n.fraction, b"50".to_vec());
    assert!(n.exponent_negative);
    assert_eq!(n.exponent, b"3".to_vec());

    let (n, end) = read_number(b"7.e5", 0).unwrap();
    assert_eq!(end, 1);
    assert_eq!(n.to_bytes(), b"7".to_vec());

    let (n, end) = read_number(b"7.5e+", 0).unwrap();
    assert_eq!(end, 3);
    assert_eq!(n.to_bytes(), b"7.5".to_vec());

    let (n, end) = read_number(b"+7E2.5", 0).unwrap();
    assert_eq!(end, 4);
    assert_eq!(n.to_bytes(), b"7e2".to_vec());

    assert_eq!(read_number(b"", 0), None);
    assert_eq!(read_number(b"12", 2), None);
    assert_eq!(read_number(b"-", 0), None);
    assert_eq!(read_number(b".5", 0), None);
    assert_eq!(read_number(b"e5", 0), None);
    assert_eq!(read_number(b" 5", 0), None);
}

#[test]
fn read_four_numbers_reads_the_whole_string() {
    let r = read_four_numbers(b" 1,2 3 , -4 ").unwrap();
    assert_eq!(r.x.to_bytes(), b"1".to_vec());
    assert_eq!(r.y.to_bytes(), b"2".to_vec());
    assert_eq!(r.width.to_bytes(), b"3".to_vec());
    assert_eq!(r.height.to_bytes(), b"-4".to_vec());
    assert_eq!(read_four_numbers(b"1 2 3"), None);
    assert_eq!(read_four_numbers(b"1 2 3 4 5"), None);
    assert_eq!(read_four_numbers(b""), None);
}

#[test]
fn byte_helpers() {
    assert_eq!(copy_range(b"abcdef", 2, 5), b"cde".to_vec());
    assert_eq!(copy_range(b"abcdef", 3, 3), Vec::<u8>::new());
    let mut v = b"ab".to_vec();
    push_all(&mut v, &b"cd".to_vec());
    assert_eq!(v, b"abcd".to_vec());
    push_all(&mut v, &Vec::new());
    assert_eq!(v, b"abcd".to_vec());
    assert!(any_nonzero_digit(&b"0010".to_vec()));
    assert!(!any_nonzero_digit(&b"0000".to_vec()));
    assert!(!any_nonzero_digit(&Vec::new()));
}
