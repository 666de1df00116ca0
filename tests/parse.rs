use tablelit::{parse, string, AccessError, Kind, Number, ParseError, Table, Value};

fn num(whole: &str, frac: &str) -> Number {
    Number::new(false, whole, frac).unwrap()
}

fn key(s: &str) -> Option<String> {
    Some(s.to_string())
}

#[test]
fn simple() {
    assert_eq!(Table::new(), parse("{}").unwrap());
    assert_eq!(vec![(key("a"), Value::Float(num("5", "")))], parse("{a=5}").unwrap());

    assert_eq!(vec![(key("abc"), Value::Float(num("5", "")))], parse("{abc=5}").unwrap());

    assert_eq!(vec![(key("a"), Value::Float(num("5", "5")))], parse("{a=5.5}").unwrap());
    assert_eq!(
        vec![(key("a"), Value::String("hello".to_string()))],
        parse("{a=\"hello\"}").unwrap()
    );
    assert_eq!(
        vec![(key("a"), Value::Float(num("5", ""))), (key("b"), Value::Float(num("6", "")))],
        parse("{a=5,b=6}").unwrap()
    );

    assert_eq!(
        vec![(key("a"), Value::Float(num("5", ""))), (key("b"), Value::Float(num("6", "")))],
        parse("{a=5,b=6 ,}").unwrap()
    );

    assert_eq!(
        vec![(None, Value::Object(vec![(key("a"), Value::Float(num("5", "")))]))],
        parse("{{a=5}}").unwrap()
    );

    assert_eq!(vec![(key("a_b"), Value::Float(num("5", "")))], parse("{a_b=5}").unwrap());

    assert_eq!(vec![(key("a"), Value::Float(num("5", "")))], parse(r#"{["a"]=5}"#).unwrap());
    assert_eq!(vec![(key("a"), Value::Bool(true))], parse(r#"{["a"]=true}"#).unwrap());
}

#[test]
fn escaped_strings() {
    assert_eq!(
        (String::new(), Value::String("hello".to_string())),
        string("\"hello\"").unwrap()
    );
    assert_eq!(
        (String::new(), Value::String("he\"llo".to_string())),
        string("\"he\\\"llo\"").unwrap()
    );
}

#[test]
fn numbers_read_as_floats() {
    let t = parse("{a=5, b=5.5, c=-0.25, d=007.500}").unwrap();
    let as_f64 = |v: &Value| v.number().unwrap().to_text().parse::<f64>().unwrap();
    assert_eq!(as_f64(&t[0].1), 5.0);
    assert_eq!(as_f64(&t[1].1), 5.5);
    assert_eq!(as_f64(&t[2].1), -0.25);
    assert_eq!(as_f64(&t[3].1), 7.5);
    assert_eq!(t[3].1.number().unwrap().to_text(), "7.5");
    assert_eq!(t[2].1.number().unwrap().to_text(), "-0.25");
}

#[test]
fn numbers_compare_by_value() {
    assert_eq!(parse("{5}").unwrap(), parse("{5.0}").unwrap());
    assert_eq!(parse("{05}").unwrap(), parse("{5.000}").unwrap());
    assert_eq!(parse("{-0}").unwrap(), parse("{0.0}").unwrap());
    assert!(!parse("{-0}").unwrap()[0].1.number().unwrap().is_negative());
    assert_eq!(parse("{0}").unwrap()[0].1.number().unwrap().to_text(), "0");
    assert_ne!(parse("{5}").unwrap(), parse("{-5}").unwrap());
}

#[test]
fn number_new_checks_digits() {
    assert!(Number::new(false, "", "5").is_none());
    assert!(Number::new(false, "1a", "").is_none());
    assert!(Number::new(false, "1", "x").is_none());
    assert_eq!(Number::new(true, "12", "50").unwrap().to_text(), "-12.5");
}

#[test]
fn trailing_comma_is_insignificant() {
    let a = parse("{a=5,b=6}").unwrap();
    let b = parse("{a=5,b=6 ,}").unwrap();
    let c = parse(" { a = 5 ,\n\tb = 6 , } ").unwrap();
    assert_eq!(a, b);
    assert_eq!(a, c);
    assert_eq!(a.len(), 2);
}

#[test]
fn whitespace_is_allowed_between_tokens() {
    assert_eq!(
        parse("{\r\n a\t=\n\"x\" }\n").unwrap(),
        vec![(key("a"), Value::String("x".to_string()))]
    );
    assert_eq!(parse("  {  }  ").unwrap(), Table::new());
}

#[test]
fn anonymous_and_named_entries_mix() {
    let t = parse("{1, x = false, {}, \"s\"}").unwrap();
    assert_eq!(
        t,
        vec![
            (None, Value::Float(num("1", ""))),
            (key("x"), Value::Bool(false)),
            (None, Value::Object(vec![])),
            (None, Value::String("s".to_string())),
        ]
    );
}

#[test]
fn bare_boolean_is_an_anonymous_entry() {
    assert_eq!(parse("{true}").unwrap(), vec![(None, Value::Bool(true))]);
    assert_eq!(parse("{true = 1}").unwrap(), vec![(key("true"), Value::Float(num("1", "")))]);
    assert_eq!(parse("{truefoo}"), Err(ParseError::Syntax));
}

#[test]
fn bracketed_key_may_hold_any_text() {
    let t = parse(r#"{["a b\"c"] = 1}"#).unwrap();
    assert_eq!(t[0].0, key("a b\"c"));
}

#[test]
fn syntax_errors() {
    assert_eq!(parse("{a=}"), Err(ParseError::Syntax));
    assert_eq!(parse("{,}"), Err(ParseError::Syntax));
    assert_eq!(parse("{\"unterminated}"), Err(ParseError::Syntax));
    assert_eq!(parse("{a=5,,}"), Err(ParseError::Syntax));
    assert_eq!(parse("{a=5 b=6}"), Err(ParseError::Syntax));
    assert_eq!(parse("{a=5"), Err(ParseError::Syntax));
    assert_eq!(parse("{a=5.}"), Err(ParseError::Syntax));
    assert_eq!(parse("{a=+5}"), Err(ParseError::Syntax));
    assert_eq!(parse("{a=.5}"), Err(ParseError::Syntax));
    assert_eq!(parse("{a=\"x\ny\"}"), Err(ParseError::Syntax));
    assert_eq!(parse("{a=\"x\\ny\"}"), Err(ParseError::Syntax));
    assert_eq!(parse("{a1=5}"), Err(ParseError::Syntax));
    assert_eq!(parse(""), Err(ParseError::Syntax));
}

#[test]
fn trailing_data_is_reported() {
    assert_eq!(parse("{} trailing"), Err(ParseError::TrailingData("trailing".to_string())));
    assert_eq!(parse("{a=1}}"), Err(ParseError::TrailingData("}".to_string())));
}

#[test]
fn top_level_atom_is_not_a_table() {
    assert_eq!(parse("5"), Err(ParseError::NotATable));
    assert_eq!(parse("\"s\""), Err(ParseError::NotATable));
    assert_eq!(parse("true"), Err(ParseError::NotATable));
}

#[test]
fn parsing_twice_gives_equal_trees() {
    let text = "{a = {1, 2, [\"k\"] = \"v\"}, b = -3.25, c = true}";
    assert_eq!(parse(text).unwrap(), parse(text).unwrap());
}

#[test]
fn escaped_quote_is_resolved() {
    let (rest, v) = string("\"\\\"he\\\"llo\\\"\" tail").unwrap();
    assert_eq!(v, Value::String("\"he\"llo\"".to_string()));
    assert_eq!(rest, " tail");
    assert_eq!(string("\"\"").unwrap(), (String::new(), Value::String(String::new())));
    assert_eq!(string("\"a\\nb\""), Err(ParseError::Syntax));
    assert_eq!(string("hello"), Err(ParseError::Syntax));
}

#[test]
fn get_finds_first_entry_with_name() {
    let t = Value::Object(parse("{a = 1, b = \"x\", a = 2}").unwrap());
    assert_eq!(t.get("a").unwrap(), Value::Float(num("1", "")));
    assert_eq!(t.get("b").unwrap(), Value::String("x".to_string()));
    assert_eq!(t.get("c"), Err(AccessError::MissingKey));
}

#[test]
fn get_returns_nested_tables() {
    let t = Value::Object(parse("{outer = {inner = \"deep\"}}").unwrap());
    let outer = t.get("outer").unwrap();
    assert_eq!(outer.get("inner").unwrap().string().unwrap(), "deep");
    assert_eq!(outer.table().unwrap().len(), 1);
}

#[test]
fn accessors_reject_wrong_kinds() {
    let n = Value::Float(num("5", ""));
    let s = Value::String("x".to_string());
    let b = Value::Bool(true);
    let t = Value::Object(vec![]);
    assert_eq!(
        n.string(),
        Err(AccessError::WrongKind { expected: Kind::String, found: Kind::Number })
    );
    assert_eq!(
        s.number(),
        Err(AccessError::WrongKind { expected: Kind::Number, found: Kind::String })
    );
    assert_eq!(
        b.table(),
        Err(AccessError::WrongKind { expected: Kind::Table, found: Kind::Bool })
    );
    assert_eq!(
        t.string(),
        Err(AccessError::WrongKind { expected: Kind::String, found: Kind::Table })
    );
    assert_eq!(n.get("a"), Err(AccessError::WrongKind { expected: Kind::Table, found: Kind::Number }));
    assert_eq!(s.string().unwrap(), "x");
    assert_eq!(n.number().unwrap(), num("5", ""));
    assert!(t.table().unwrap().is_empty());
}
