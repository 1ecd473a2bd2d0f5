use formatter::context::{FormatMap, MapCont};
use formatter::number::{scale_decimal, Decimal, Unit};
use formatter::template::{Error, FormatString, ParseError};

fn num(text: &str) -> MapCont {
    MapCont::Number(Decimal::parse(text).unwrap())
}

fn render(template: &str, map: &FormatMap) -> String {
    FormatString::parse(template).unwrap().fmt(map).unwrap()
}

fn parse_error(template: &str) -> ParseError {
    match FormatString::parse(template) {
        Err(Error::Parse(e)) => e,
        Err(e) => panic!("unexpected error {:?}", e),
        Ok(_) => panic!("{} parsed", template),
    }
}

#[test]
fn parser_parse() {
    assert!(FormatString::parse("{{test }}this {test:.3}").is_ok());
    assert!(FormatString::parse("test this {test}").is_ok());
    assert!(FormatString::parse("{lol}test this {test}").is_ok());
    assert!(FormatString::parse("{lol:-3B.2}test this {test}").is_ok());
    assert!(FormatString::parse("").is_ok());
}

#[test]
fn formatstring_parse() {
    assert!(FormatString::parse_with_allowed_keys("{toast:.3}", &["test"]).is_err());
    assert!(FormatString::parse_with_allowed_keys("{test}", &["test"]).is_ok());
    assert!(FormatString::parse_with_allowed_keys("{toast:B.3}", &["toast"]).is_ok());
}

#[test]
fn format() {
    // basic formatting works
    let fmt = FormatString::parse("{test:S.2} this").unwrap();
    let mut map = FormatMap::new();
    map.insert("test", num("4000.0"));
    assert_eq!("4.00k this", &fmt.fmt(&map).unwrap().to_string());

    let fmt = FormatString::parse("{test:B.2} this").unwrap();
    map.insert("test", num("4096.0"));
    assert_eq!("4.00ki this", &fmt.fmt(&map).unwrap().to_string());

    map.insert("test", num("100.0"));
    let fmt = FormatString::parse("{test:S.2} this").unwrap();
    assert_eq!("100.00 this", &fmt.fmt(&map).unwrap().to_string());

    map.insert("test", num("0.0"));
    let fmt = FormatString::parse("{test:S.2} this").unwrap();
    assert_eq!("0.00 this", &fmt.fmt(&map).unwrap().to_string());

    map.insert("test", MapCont::Str("asdf".to_owned()));
    let fmt = FormatString::parse("{test:-2} this").unwrap();
    assert_eq!("as this", &fmt.fmt(&map).unwrap().to_string());

    map.insert("test", MapCont::Str("asdf".to_owned()));
    let fmt = FormatString::parse("{test:-20} this").unwrap();
    assert_eq!("asdf this", &fmt.fmt(&map).unwrap().to_string());

    map.insert("test", num("-20.0"));
    let fmt = FormatString::parse("{test:.2} this").unwrap();
    assert_eq!("-20.00 this", &fmt.fmt(&map).unwrap().to_string());
}

#[test]
fn formatter_test() {
    let mut map = FormatMap::new();
    map.insert("a", MapCont::Str("x".to_owned()));
    map.insert("b2", num("1.5"));
    assert_eq!(render("[{a}|{b2:.3}]", &map), "[x|1.500]");
    assert_eq!(render("{{{a}}}", &map), "{x}");
    assert_eq!(render("a } b", &map), "a } b");
}

#[test]
fn literal_text_renders_unchanged() {
    let map = FormatMap::new();
    assert_eq!(render("plain text, no slots", &map), "plain text, no slots");
    assert_eq!(render("", &map), "");
    let mut other = FormatMap::new();
    other.insert("plain", num("1.0"));
    assert_eq!(render("plain text, no slots", &other), "plain text, no slots");
}

#[test]
fn doubled_braces_render_as_braces() {
    let map = FormatMap::new();
    assert_eq!(render("{{x}}", &map), "{x}");
    assert_eq!(render("a{{{{b}}}}c", &map), "a{{b}}c");
    let mut full = FormatMap::new();
    full.insert("x", MapCont::Str("value".to_owned()));
    assert_eq!(render("{{x}}", &full), "{x}");
}

#[test]
fn truncation_keeps_whole_characters() {
    let mut map = FormatMap::new();
    map.insert("t", MapCont::Str("héllo wörld".to_owned()));
    assert_eq!(render("{t:-2}", &map), "hé");
    assert_eq!(render("{t:-8}", &map), "héllo wö");
    assert_eq!(render("{t:-0}", &map), "");
    assert_eq!(render("{t:-100}", &map), "héllo wörld");
    map.insert("t", MapCont::Str("日本語".to_owned()));
    assert_eq!(render("{t:-1}", &map), "日");
}

#[test]
fn fixed_digits_cut_and_pad() {
    let n = Decimal::parse("3.14159").unwrap();
    assert_eq!(formatter::number::format_fixed(&n, 0), "3");
    assert_eq!(formatter::number::format_fixed(&n, 2), "3.14");
    assert_eq!(formatter::number::format_fixed(&n, 8), "3.14159000");
    let n = Decimal::parse("-0.0015").unwrap();
    assert_eq!(formatter::number::format_fixed(&n, 3), "-0.001");
    let n = Decimal::parse("1e16").unwrap();
    assert_eq!(formatter::number::format_fixed(&n, 1), "10000000000000000.0");
    let n = Decimal::parse("2.5e-3").unwrap();
    assert_eq!(formatter::number::format_fixed(&n, 4), "0.0025");
    let n = Decimal::parse("-0.0").unwrap();
    assert_eq!(formatter::number::format_fixed(&n, 1), "0.0");
}

#[test]
fn fixed_digits_have_one_point() {
    let n = Decimal::parse("-123.456").unwrap();
    for d in 0..9u8 {
        let s = formatter::number::format_fixed(&n, d);
        let points = s.matches('.').count();
        if d == 0 {
            assert_eq!(points, 0);
        } else {
            assert_eq!(points, 1);
            assert_eq!(s.split('.').nth(1).unwrap().len(), d as usize);
        }
    }
}

#[test]
fn rendering_twice_gives_the_same() {
    let mut map = FormatMap::new();
    map.insert("n", num("1536.0"));
    map.insert("s", MapCont::Str("abc".to_owned()));
    let fmt = FormatString::parse("{n:B.1} {s:-2} {n}").unwrap();
    let first = fmt.fmt(&map).unwrap();
    let second = fmt.fmt(&map).unwrap();
    assert_eq!(first, "1.5ki ab 1536");
    assert_eq!(first, second);
}

#[test]
fn missing_key_fails_without_output() {
    let mut map = FormatMap::new();
    map.insert("y", num("1.0"));
    let fmt = FormatString::parse("before {y} {x} after").unwrap();
    match fmt.fmt(&map) {
        Err(Error::KeyNotInMap(k)) => assert_eq!(k, "x"),
        other => panic!("unexpected {:?}", other),
    }
    let fmt = FormatString::parse("{a}{b}").unwrap();
    match fmt.fmt(&FormatMap::new()) {
        Err(Error::KeyNotInMap(k)) => assert_eq!(k, "a"),
        other => panic!("unexpected {:?}", other),
    }
}

#[test]
fn durations_render_as_minutes_and_seconds() {
    let mut map = FormatMap::new();
    map.insert("d", MapCont::Duration(75));
    assert_eq!(render("{d}", &map), "01:15");
    map.insert("d", MapCont::Duration(0));
    assert_eq!(render("{d:.3}", &map), "00:00");
    map.insert("d", MapCont::Duration(6005));
    assert_eq!(render("{d}", &map), "100:05");
}

#[test]
fn unit_scaling_saturates_at_peta() {
    let mut map = FormatMap::new();
    map.insert("n", num("5e18"));
    assert_eq!(render("{n:S.1}", &map), "5000.0P");
    map.insert("n", num("999.9"));
    assert_eq!(render("{n:S.1}", &map), "999.9");
    map.insert("n", num("-4000.0"));
    assert_eq!(render("{n:S}", &map), "-4000");
    map.insert("n", num("1500.0"));
    assert_eq!(render("{n:B.2}", &map), "1.46ki");
    map.insert("n", num("1048576.0"));
    assert_eq!(render("{n:B}", &map), "1Mi");
    map.insert("n", num("2500000.0"));
    assert_eq!(render("{n:.1S}", &map), "2.5M");
}

#[test]
fn parse_errors_carry_offsets() {
    assert_eq!(parse_error("ab{}"), ParseError::EmptyIdent(3));
    assert_eq!(parse_error("{:.2}"), ParseError::EmptyIdent(1));
    assert_eq!(parse_error("{1a}"), ParseError::InvalidIdent(1, '1'));
    assert_eq!(parse_error("é{a b}"), ParseError::InvalidIdent(4, ' '));
    assert_eq!(parse_error("{a:-}"), ParseError::MissingTrunc(4));
    assert_eq!(parse_error("{a:.x}"), ParseError::MissingPrecision(4));
    assert_eq!(parse_error("{a:-99999999999999999999999}"), ParseError::TruncOverflow(4));
    assert_eq!(parse_error("{a:.256}"), ParseError::PrecisionOverflow(4));
    assert_eq!(parse_error("{a:SS}"), ParseError::TruncNotDigit(4, 'S'));
    assert_eq!(parse_error("{a:q}"), ParseError::TruncNotDigit(3, 'q'));
    assert_eq!(parse_error("xy{abc"), ParseError::UnexpectedEof(6));
    assert_eq!(parse_error("{a:.2"), ParseError::UnexpectedEof(5));
    assert_eq!(parse_error("{"), ParseError::UnexpectedEof(1));
}

#[test]
fn invalid_key_lists_allowed_keys() {
    match FormatString::parse_with_allowed_keys("{ok} {bad}", &["ok", "fine"]) {
        Err(Error::InvalidKey { key, allowed }) => {
            assert_eq!(key, "bad");
            assert_eq!(allowed, vec!["ok".to_owned(), "fine".to_owned()]);
        }
        other => panic!("unexpected {:?}", other.is_ok()),
    }
    assert!(matches!(
        FormatString::parse_with_allowed_keys("{ok:-} {bad}", &["ok"]),
        Err(Error::Parse(ParseError::MissingTrunc(5)))
    ));
}

#[test]
fn pretty_points_at_the_error() {
    let e = parse_error("ab{}");
    assert_eq!(e.pretty("ab{}"), "ab{}\n   ^ Empty ident");
    let e = parse_error("é{a b}");
    assert_eq!(e.pretty("é{a b}"), "é{a b}\n   ^ Invalid character in ident:  ");
    assert_eq!(ParseError::UnexpectedEof(1).message(), "Unexpected eof");
}

#[test]
fn update_string_with_fills_an_empty_buffer() {
    let mut map = FormatMap::new();
    map.insert("s", num("1.0"));
    map.update_string_with("s", |mut b| {
        b.push_str("new");
        b
    });
    assert_eq!(render("{s}", &map), "new");
    map.update_string_with("s", |mut b| {
        b.push_str("x");
        b
    });
    assert_eq!(render("{s}", &map), "x");
}

#[test]
fn decimal_parse_reads_float_text() {
    let d = Decimal::parse("-12.50e3").unwrap();
    assert!(d.negative);
    assert_eq!(d.mantissa, 1250);
    assert_eq!(d.exponent, 1);
    let d = Decimal::parse("7").unwrap();
    assert_eq!((d.negative, d.mantissa, d.exponent), (false, 7, 0));
    let d = Decimal::parse("1e-7").unwrap();
    assert_eq!((d.mantissa, d.exponent), (1, -7));
    assert!(Decimal::parse("").is_none());
    assert!(Decimal::parse("1.").is_none());
    assert!(Decimal::parse(".5").is_none());
    assert!(Decimal::parse("1e").is_none());
    assert!(Decimal::parse("NaN").is_none());
    assert!(Decimal::parse("1.2.3").is_none());
    assert!(Decimal::parse("99999999999999999999").is_none());
    assert!(Decimal::parse("1e40000").is_none());
}

#[test]
fn error_messages_describe_the_error() {
    assert_eq!(Error::KeyNotInMap("cpu".to_owned()).message(), "Key cpu not in map");
    let allowed = vec!["a".to_owned(), "b".to_owned()];
    let e = Error::InvalidKey { key: "x".to_owned(), allowed };
    assert_eq!(e.message(), "Invalid key: x allowed keys: a|b");
    let e = Error::InvalidKey { key: "x".to_owned(), allowed: vec![] };
    assert_eq!(e.message(), "Invalid key: x allowed keys: ");
    assert_eq!(
        Error::Parse(ParseError::EmptyIdent(0)).message(),
        "Error while parsing format string: Empty ident"
    );
}

#[test]
fn values_convert_into_contents() {
    let mut map = FormatMap::new();
    map.insert("s", MapCont::from("text".to_owned()));
    map.insert("n", Decimal::parse("2.25").unwrap().into());
    assert_eq!(render("{s} {n:.1}", &map), "text 2.2");
}

#[test]
fn scale_decimal_divides_while_at_least_base() {
    let (d, i) = scale_decimal(&Decimal::parse("4000.0").unwrap(), Unit::Si);
    assert_eq!((d.mantissa, d.exponent, i), (40000, -4, 1));
    let (d, i) = scale_decimal(&Decimal::parse("2048").unwrap(), Unit::Bin);
    assert_eq!(formatter::number::format_fixed(&d, 3), "2.000");
    assert_eq!(i, 1);
    let (d, i) = scale_decimal(&Decimal::parse("-5e9").unwrap(), Unit::Si);
    assert_eq!((d.negative, d.mantissa, d.exponent, i), (true, 5, 9, 0));
    let (_, i) = scale_decimal(&Decimal::parse("1e30").unwrap(), Unit::Bin);
    assert_eq!(i, 5);
}
