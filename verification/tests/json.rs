use opencrab::json::from_literal;
use opencrab::json::string;
use opencrab::json::with_field;
use opencrab::json::with_item;
use opencrab::json::Json;

#[test]
fn texts_are_read_and_written() {
    let v = Json::from_str(r#" {"b":[1,-2,0.5,null,true,"x"],"a":{}} "#).unwrap();
    assert_eq!(v.to_text(), r#"{"a":{},"b":[1,-2,0.5,null,true,"x"]}"#);
    assert_eq!(
        Json::from_str("{not json").unwrap_err(),
        "key must be a string at line 1 column 2"
    );
}

#[test]
fn values_are_taken_over_both_ways() {
    let v: serde_json::Value = serde_json::from_str(r#"{"k":[18446744073709551615,-1,1.5]}"#).unwrap();
    let j = Json::from_value(v.clone());
    assert_eq!(j.to_value(), v);
    assert_eq!(j.copy().to_value(), v);
}

#[test]
fn fields_are_looked_up() {
    let v = Json::from_str(r#"{"s":"t","n":7,"a":[1],"s2":null}"#).unwrap();
    assert_eq!(v.get_str("s"), Some("t"));
    assert_eq!(v.get_str("n"), None);
    assert_eq!(v.get("n").and_then(|n| n.as_i64()), Some(7));
    assert_eq!(v.get_array("a").map(|a| a.len()), Some(1));
    assert!(v.get("s2").is_some());
    assert!(v.get("none").is_none());
    assert!(Json::Null.get("s").is_none());
}

#[test]
fn repeated_keys_keep_the_last_value() {
    let fields = with_field(vec![], "k", string("one"));
    let fields = with_field(fields, "k", string("two"));
    let v = Json::Object(fields);
    assert_eq!(v.get_str("k"), Some("two"));
    assert_eq!(v.to_text(), r#"{"k":"two"}"#);
    assert_eq!(
        Json::from_str(r#"{"k":1,"k":2}"#).unwrap().to_text(),
        r#"{"k":2}"#
    );
}

#[test]
fn numbers_are_integers_or_floats() {
    let n = |text: &str| Json::from_str(text).unwrap();
    assert_eq!(n("9223372036854775807").as_i64(), Some(i64::MAX));
    assert_eq!(n("9223372036854775808").as_i64(), None);
    assert_eq!(n("9223372036854775808").as_u64(), Some(1 << 63));
    assert_eq!(n("-1").as_u64(), None);
    assert_eq!(n("1.0").as_i64(), None);
    assert!(n("1.0").is_number() && n("3").is_number());
    assert!(!n("\"3\"").is_number());
    let kept = Json::Float(serde_json::Number::from(5));
    assert_eq!((kept.as_i64(), kept.as_u64()), (Some(5), Some(5)));
}

#[test]
fn literals_are_values_or_null() {
    assert_eq!(from_literal("0.2").to_text(), "0.2");
    assert_eq!(from_literal("oops").to_text(), "null");
    let items = with_item(with_item(vec![], Json::Bool(false)), Json::UInt(2));
    assert_eq!(Json::Array(items).to_text(), "[false,2]");
}
