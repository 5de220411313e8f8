use jsonpull::Block;
use jsonpull::Error;
use jsonpull::Event;
use jsonpull::ExpectType;
use jsonpull::Parser;
use jsonpull::N;

fn parser(input: &str) -> Parser {
    Parser::from_reader(input.as_bytes().to_vec())
}

/// Decoding a UTF-16 surrogate pair escape yields the single four-byte UTF-8
/// encoding of the combined code point.
#[test]
fn surrogate_pair_decodes_to_four_utf8_bytes() {
    let ev = parser(r#""💖""#).next().unwrap().unwrap();
    match ev {
        Event::String(s) => {
            assert_eq!(s, "\u{1F496}");
            assert_eq!(s.as_bytes(), [0xF0, 0x9F, 0x92, 0x96]);
        }
        _ => panic!("expected a string event"),
    }
}

#[test]
fn lone_low_surrogate_fails() {
    assert_eq!(
        parser(r#""\uDC96""#).next().unwrap(),
        Err(Error::Decoding)
    );
}

#[test]
fn high_surrogate_without_tail_fails() {
    assert_eq!(
        parser(r#""\uD83Dx""#).next().unwrap(),
        Err(Error::Decoding)
    );
}

#[test]
fn illegal_escape_fails() {
    assert_eq!(parser(r#""\q""#).next().unwrap(), Err(Error::Decoding));
}

/// Raw bytes of a string must form valid UTF-8; a stray continuation byte is
/// a decoding error.
#[test]
fn invalid_utf8_in_string_fails() {
    let mut p = Parser::from_reader(vec![34, 0xFF, 34]);
    assert_eq!(p.next().unwrap(), Err(Error::Decoding));
}

/// Boundary: a bare zero decodes, a negative zero and a leading zero do not.
#[test]
fn zero_boundaries() {
    assert_eq!(
        parser("0").next().unwrap().unwrap(),
        Event::Number(N::Uint(0))
    );
    assert_eq!(parser("-0").next().unwrap(), Err(Error::Decoding));
    assert_eq!(parser("01").next().unwrap(), Err(Error::Decoding));
}

/// Boundary: the numeric tag depends only on the lexical shape of the
/// literal, via its net decimal scale.
#[test]
fn numeric_tag_is_lexical() {
    assert_eq!(
        parser("1e2").next().unwrap().unwrap(),
        Event::Number(N::Uint(100))
    );
    match parser("1e-2").next().unwrap().unwrap() {
        Event::Number(N::Float(d)) => {
            assert_eq!(d.mantissa as f64 / 10u64.pow(d.scale) as f64, 0.01);
            assert!(!d.minus);
        }
        _ => panic!("expected a float"),
    }
    assert_eq!(
        parser("123.456e3").next().unwrap().unwrap(),
        Event::Number(N::Uint(123456))
    );
    match parser("-123.456e2").next().unwrap().unwrap() {
        Event::Number(N::Float(d)) => {
            let v = d.mantissa as f64 / 10u64.pow(d.scale) as f64;
            assert_eq!(-v, -12345.6);
            assert!(d.minus);
        }
        _ => panic!("expected a float"),
    }
}

/// A zero-valued literal with a fraction and an exponent is still an integer
/// by shape: the tag comes from the net scale, not from the value, so a
/// signed zero of this shape decodes (unlike the bare `-0`, which is
/// rejected).
#[test]
fn signed_zero_by_shape() {
    assert_eq!(
        parser("-0.0e1").next().unwrap().unwrap(),
        Event::Number(N::Int(0))
    );
}

/// A magnitude that cannot be held exactly in sixty-four bits is a decoding
/// error rather than a silent wrap.
#[test]
fn numeric_overflow_fails() {
    assert_eq!(
        parser("99999999999999999999999").next().unwrap(),
        Err(Error::Decoding)
    );
    assert_eq!(parser("1e100").next().unwrap(), Err(Error::Decoding));
}

/// Scenario: a flat object yields its events in document order.
#[test]
fn object_scenario_in_order() {
    let mut p = parser(r#"{"a": 1, "b": false, "c": null}"#);
    assert_eq!(p.next().unwrap().unwrap(), Event::Start(Block::Object));
    assert_eq!(p.next().unwrap().unwrap(), Event::Key("a".to_string()));
    assert_eq!(p.next().unwrap().unwrap(), Event::Number(N::Uint(1)));
    assert_eq!(p.next().unwrap().unwrap(), Event::Key("b".to_string()));
    assert_eq!(p.next().unwrap().unwrap(), Event::Bool(false));
    assert_eq!(p.next().unwrap().unwrap(), Event::Key("c".to_string()));
    assert_eq!(p.next().unwrap().unwrap(), Event::Null);
    assert_eq!(p.next().unwrap().unwrap(), Event::End(Block::Object));
    assert!(p.next().is_none());
}

/// Scenario: a value was expected and the closing brace found instead.
#[test]
fn missing_value_is_syntax_error() {
    let mut p = parser(r#"{"a": }"#);
    assert_eq!(p.next().unwrap().unwrap(), Event::Start(Block::Object));
    assert_eq!(p.next().unwrap().unwrap(), Event::Key("a".to_string()));
    assert_eq!(
        p.next().unwrap(),
        Err(Error::Syntax(ExpectType::Value, b'}'))
    );
}

/// Scenario: input that ends while a container is open is an end-of-input
/// error, not a silent stop.
#[test]
fn truncated_input_is_eof_error() {
    let mut p = parser(r#"{"a""#);
    assert_eq!(p.next().unwrap().unwrap(), Event::Start(Block::Object));
    assert_eq!(p.next().unwrap().unwrap(), Event::Key("a".to_string()));
    assert_eq!(p.next().unwrap(), Err(Error::Eof));
}

/// Scenario: a wrong token where a comma was expected carries the expected
/// class and the found byte.
#[test]
fn wrong_token_reports_expectation() {
    let mut p = parser(r#"["a" "b"]"#);
    assert_eq!(p.next().unwrap().unwrap(), Event::Start(Block::Array));
    assert_eq!(p.next().unwrap().unwrap(), Event::String("a".to_string()));
    assert_eq!(
        p.next().unwrap(),
        Err(Error::Syntax(ExpectType::Comma, b'"'))
    );
}

fn events_of(input: &str) -> Vec<Event> {
    let mut p = Parser::from_reader(input.as_bytes().to_vec());
    let mut out = Vec::new();
    while let Some(r) = p.next() {
        out.push(r.unwrap());
    }
    out
}

/// Start/End events of a parse are correctly nested and balanced: every end
/// closes the nearest unmatched start of the same block kind.
#[test]
fn events_are_well_nested() {
    let evs = events_of(r#"{"a": [1, {"b": [[], {}]}, 2], "c": {}}"#);
    let mut opens: Vec<Block> = Vec::new();
    for ev in &evs {
        match ev {
            Event::Start(b) => opens.push(*b),
            Event::End(b) => assert_eq!(opens.pop().unwrap(), *b),
            _ => {}
        }
    }
    assert!(opens.is_empty());
}

/// Write one event sequence back out as JSON text.
fn serialize(evs: &[Event]) -> String {
    let mut out = String::new();
    let mut opens: Vec<Block> = Vec::new();
    let mut first = true;
    let mut after_key = false;
    for ev in evs {
        let closing = matches!(ev, Event::End(_));
        if !first && !after_key && !closing {
            out.push(',');
        }
        first = false;
        match ev {
            Event::Start(b) => {
                out.push(if *b == Block::Object { '{' } else { '[' });
                opens.push(*b);
                first = true;
                after_key = false;
            }
            Event::End(b) => {
                out.push(if *b == Block::Object { '}' } else { ']' });
                opens.pop();
                after_key = false;
            }
            Event::Key(s) => {
                out.push('"');
                out.push_str(s);
                out.push_str("\":");
                after_key = true;
            }
            Event::String(s) => {
                out.push('"');
                out.push_str(s);
                out.push('"');
                after_key = false;
            }
            Event::Number(N::Uint(u)) => {
                out.push_str(&format!("{}", u));
                after_key = false;
            }
            Event::Number(N::Int(i)) => {
                out.push_str(&format!("{}", i));
                after_key = false;
            }
            Event::Number(N::Float(d)) => {
                if d.minus {
                    out.push('-');
                }
                out.push_str(&format!("{}e-{}", d.mantissa, d.scale));
                after_key = false;
            }
            Event::Bool(true) => {
                out.push_str("true");
                after_key = false;
            }
            Event::Bool(false) => {
                out.push_str("false");
                after_key = false;
            }
            Event::Null => {
                out.push_str("null");
                after_key = false;
            }
        }
    }
    out
}

/// Round trip: serializing the event sequence as JSON text and re-parsing it
/// yields the same event sequence.
#[test]
fn round_trip_is_stable() {
    let doc = r#"{"a": 1, "b": [true, null, -2, 1.5e-1], "c": {"d": "x y", "e": -12}}"#;
    let evs = events_of(doc);
    let text = serialize(&evs);
    let evs2 = events_of(&text);
    assert_eq!(evs, evs2);
    let text2 = serialize(&evs2);
    let evs3 = events_of(&text2);
    assert_eq!(evs2, evs3);
}
