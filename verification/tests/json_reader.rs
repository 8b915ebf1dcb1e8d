//! Tests for the JSON reader: agreement with a reference parser on
//! well-formed documents, and the documented rejections.

use code_svg::json::{parse, JsonValue};

/// The reference shape of a parsed value, for comparing against serde_json.
fn to_reference(v: &JsonValue) -> serde_json::Value {
    match v {
        JsonValue::Null => serde_json::Value::Null,
        JsonValue::Bool(b) => serde_json::Value::Bool(*b),
        JsonValue::Int(n) => serde_json::Value::from(*n),
        JsonValue::Str(s) => serde_json::Value::from(s.as_str()),
        JsonValue::Arr(xs) => {
            let mut out: Vec<serde_json::Value> = Vec::new();
            for x in xs {
                out.push(to_reference(x));
            }
            serde_json::Value::Array(out)
        }
        JsonValue::Obj(ms) => {
            let mut out = serde_json::Map::new();
            for (k, x) in ms {
                out.insert(k.clone(), to_reference(x));
            }
            serde_json::Value::Object(out)
        }
    }
}

fn agrees_with_reference(raw: &str) {
    let mine = parse(raw).unwrap();
    let reference: serde_json::Value = serde_json::from_str(raw).unwrap();
    assert_eq!(to_reference(&mine), reference, "disagreement on {:?}", raw);
}

#[test]
fn well_formed_documents_agree_with_reference() {
    agrees_with_reference("null");
    agrees_with_reference("true");
    agrees_with_reference("false");
    agrees_with_reference("0");
    agrees_with_reference("-7");
    agrees_with_reference("123456789012345678");
    agrees_with_reference("\"\"");
    agrees_with_reference("\"plain text\"");
    agrees_with_reference(r#""escapes: \" \\ \/ \b \f \n \r \t""#);
    agrees_with_reference("[]");
    agrees_with_reference("[1, 2, 3]");
    agrees_with_reference("[[], [null], [true, [false]]]");
    agrees_with_reference("{}");
    agrees_with_reference(r#"{"a": 1, "b": [2, {"c": "d"}]}"#);
    agrees_with_reference("  {  \"x\"\t:\n [ 1 ,\r 2 ]  }  ");
    agrees_with_reference("\"caf\u{e9} \u{2764}\"");
}

#[test]
fn malformed_documents_are_rejected() {
    assert!(parse("").is_err());
    assert!(parse("tru").is_err());
    assert!(parse("truex").is_err());
    assert!(parse("[1,]").is_err());
    assert!(parse("[1 2]").is_err());
    assert!(parse("{\"a\":}").is_err());
    assert!(parse("{\"a\" 1}").is_err());
    assert!(parse("{a: 1}").is_err());
    assert!(parse("\"unterminated").is_err());
    assert!(parse("\"bad \\q escape\"").is_err());
    assert!(parse("{} trailing").is_err());
    assert!(parse("-").is_err());
    assert!(parse("01").is_err());
    assert!(parse("\"raw\ncontrol\"").is_err());
}

#[test]
fn documented_restrictions_are_errors_not_misreadings() {
    // Numbers beyond eighteen digits, fractions, exponents, and \u escapes
    // are rejected outright rather than read approximately.
    assert!(parse("1234567890123456789").is_err());
    assert!(parse("1.5").is_err());
    assert!(parse("1e5").is_err());
    assert!(parse(r#""\u0041""#).is_err());
}

#[test]
fn duplicate_members_are_kept_in_order() {
    let doc = parse(r#"{"k": 1, "k": 2}"#).unwrap();
    match doc {
        JsonValue::Obj(ms) => {
            assert_eq!(ms.len(), 2);
            assert_eq!(ms[0].0, "k");
            assert!(matches!(ms[0].1, JsonValue::Int(1)));
            assert!(matches!(ms[1].1, JsonValue::Int(2)));
        }
        _ => panic!("expected an object"),
    }
}

#[test]
fn extreme_accepted_integers() {
    assert!(matches!(parse("999999999999999999").unwrap(), JsonValue::Int(999999999999999999)));
    assert!(matches!(
        parse("-999999999999999999").unwrap(),
        JsonValue::Int(-999999999999999999)
    ));
    assert!(matches!(parse("0").unwrap(), JsonValue::Int(0)));
}
