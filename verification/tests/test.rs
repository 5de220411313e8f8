use jsonpull::Block;
use jsonpull::Event;
use jsonpull::Parser;
use jsonpull::N;

/// The binary floating-point value of a `Float` event, computed the way a
/// caller of the library is expected to: mantissa over a power of ten.
fn num_f64(e: &Event) -> f64 {
    match e {
        Event::Number(N::Float(d)) => {
            let v = d.mantissa as f64 / 10u64.pow(d.scale) as f64;
            if d.minus {
                -v
            } else {
                v
            }
        }
        _ => panic!("expected a float number event"),
    }
}

fn parse_all(input: &str) -> Vec<Event> {
    let mut p = Parser::from_reader(input.as_bytes().to_vec());
    let mut out = Vec::new();
    while let Some(r) = p.next() {
        out.push(r.unwrap());
    }
    out
}

#[test]
fn test_null() {
    assert_eq!(
        Parser::from_reader("null".as_bytes().to_vec())
            .next()
            .unwrap()
            .unwrap(),
        Event::Null
    );
}

#[test]
fn test_bool() {
    assert_eq!(
        Parser::from_reader("true".as_bytes().to_vec())
            .next()
            .unwrap()
            .unwrap(),
        Event::Bool(true)
    );
    assert_eq!(
        Parser::from_reader("false".as_bytes().to_vec())
            .next()
            .unwrap()
            .unwrap(),
        Event::Bool(false)
    );
}

fn first_event(input: &str) -> Event {
    Parser::from_reader(input.as_bytes().to_vec())
        .next()
        .unwrap()
        .unwrap()
}

#[test]
fn test_number() {
    assert_eq!(first_event("0"), Event::Number(N::Uint(0)));
    assert_eq!(first_event("10"), Event::Number(N::Uint(10)));
    assert_eq!(first_event("-10"), Event::Number(N::Int(-10)));
    assert_eq!(first_event("1e0"), Event::Number(N::Uint(1)));
    assert_eq!(first_event("1e2"), Event::Number(N::Uint(100)));
    assert_eq!(first_event("-1e2"), Event::Number(N::Int(-100)));
    assert_eq!(num_f64(&first_event("0.0")), 0.0);
    assert_eq!(num_f64(&first_event("123.456")), 123.456);
    assert_eq!(first_event("123.456e3"), Event::Number(N::Uint(123456)));
    assert_eq!(first_event("-123.456e3"), Event::Number(N::Int(-123456)));
    assert_eq!(num_f64(&first_event("-123.456e2")), -12345.6);
    assert_eq!(num_f64(&first_event("1e-2")), 0.01);
    assert_eq!(first_event("100e+2"), Event::Number(N::Uint(10000)));
    assert_eq!(num_f64(&first_event("100e-2")), 1.0);
    assert_eq!(first_event("-100e+2"), Event::Number(N::Int(-10000)));
    assert_eq!(num_f64(&first_event("-100e-2")), -1.0);
}

#[test]
fn test_string() {
    let j = r#""line\nnewline\"\\abc\uD83D\uDC96""#;
    assert_eq!(
        first_event(j),
        Event::String("line\nnewline\"\\abc\u{1F496}".to_string())
    );
}

#[test]
fn test_object() {
    let j = r#"{"key": "value",
                "key2": "value2",
                "object1": {"object_key1": "object_value1"},
                "key3": "value3"}"#;
    assert_eq!(
        parse_all(j),
        vec![
            Event::Start(Block::Object),
            Event::Key("key".to_string()),
            Event::String("value".to_string()),
            Event::Key("key2".to_string()),
            Event::String("value2".to_string()),
            Event::Key("object1".to_string()),
            Event::Start(Block::Object),
            Event::Key("object_key1".to_string()),
            Event::String("object_value1".to_string()),
            Event::End(Block::Object),
            Event::Key("key3".to_string()),
            Event::String("value3".to_string()),
            Event::End(Block::Object)
        ]
    )
}

#[test]
fn test_array() {
    let j = r#"["value1", "value2", ["value3", "value4"], "value5"]"#;
    assert_eq!(
        parse_all(j),
        vec![
            Event::Start(Block::Array),
            Event::String("value1".to_string()),
            Event::String("value2".to_string()),
            Event::Start(Block::Array),
            Event::String("value3".to_string()),
            Event::String("value4".to_string()),
            Event::End(Block::Array),
            Event::String("value5".to_string()),
            Event::End(Block::Array)
        ]
    )
}

#[test]
fn test_total() {
    let j = r#"{"a": 1,
                "b": false,
                "c": null,
                "d": -1.1e-1,
                "e": [
                    { "x": 1, "y": 2 },
                    { "x": 2, "y": 3 },
                ]}"#;
    let mut p = Parser::from_reader(j.as_bytes().to_vec());
    assert_eq!(p.next().unwrap().unwrap(), Event::Start(Block::Object));
    assert_eq!(p.next().unwrap().unwrap(), Event::Key("a".into()));
    assert_eq!(p.next().unwrap().unwrap(), Event::Number(N::Uint(1)));
    assert_eq!(p.next().unwrap().unwrap(), Event::Key("b".into()));
    assert_eq!(p.next().unwrap().unwrap(), Event::Bool(false));
    assert_eq!(p.next().unwrap().unwrap(), Event::Key("c".into()));
    assert_eq!(p.next().unwrap().unwrap(), Event::Null);
    assert_eq!(p.next().unwrap().unwrap(), Event::Key("d".into()));
    assert_eq!(num_f64(&p.next().unwrap().unwrap()), -0.11);
    assert_eq!(p.next().unwrap().unwrap(), Event::Key("e".into()));
    assert_eq!(p.next().unwrap().unwrap(), Event::Start(Block::Array));
    assert_eq!(p.next().unwrap().unwrap(), Event::Start(Block::Object));
    assert_eq!(p.next().unwrap().unwrap(), Event::Key("x".into()));
    assert_eq!(p.next().unwrap().unwrap(), Event::Number(N::Uint(1)));
    assert_eq!(p.next().unwrap().unwrap(), Event::Key("y".into()));
    assert_eq!(p.next().unwrap().unwrap(), Event::Number(N::Uint(2)));
    assert_eq!(p.next().unwrap().unwrap(), Event::End(Block::Object));
    assert_eq!(p.next().unwrap().unwrap(), Event::Start(Block::Object));
    assert_eq!(p.next().unwrap().unwrap(), Event::Key("x".into()));
    assert_eq!(p.next().unwrap().unwrap(), Event::Number(N::Uint(2)));
    assert_eq!(p.next().unwrap().unwrap(), Event::Key("y".into()));
    assert_eq!(p.next().unwrap().unwrap(), Event::Number(N::Uint(3)));
    assert_eq!(p.next().unwrap().unwrap(), Event::End(Block::Object));
    assert_eq!(p.next().unwrap().unwrap(), Event::End(Block::Array));
    assert_eq!(p.next().unwrap().unwrap(), Event::End(Block::Object));
}
