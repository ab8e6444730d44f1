use fig2json::error::FigError;
use fig2json::transform;
use serde_json::Value as JsonValue;
use fig2json::json::{Json, JsonNumber};

fn to_lib(v: &serde_json::Value) -> Json {
    match v {
        serde_json::Value::Null => Json::Null,
        serde_json::Value::Bool(b) => Json::Bool(*b),
        serde_json::Value::Number(n) => {
            if let Some(u) = n.as_u64() {
                Json::Number(JsonNumber::PosInt(u))
            } else if let Some(i) = n.as_i64() {
                Json::Number(JsonNumber::NegInt(i))
            } else {
                Json::Number(JsonNumber::Float(n.as_f64().unwrap().to_bits()))
            }
        }
        serde_json::Value::String(s) => Json::Str(s.clone()),
        serde_json::Value::Array(a) => Json::Array(a.iter().map(to_lib).collect()),
        serde_json::Value::Object(m) => {
            Json::Object(m.iter().map(|(k, x)| (k.clone(), to_lib(x))).collect())
        }
    }
}

fn from_lib(j: &Json) -> serde_json::Value {
    match j {
        Json::Null => serde_json::Value::Null,
        Json::Bool(b) => serde_json::Value::Bool(*b),
        Json::Number(JsonNumber::PosInt(u)) => serde_json::Value::from(*u),
        Json::Number(JsonNumber::NegInt(i)) => serde_json::Value::from(*i),
        Json::Number(JsonNumber::Float(b)) => serde_json::Number::from_f64(f64::from_bits(*b))
            .map(serde_json::Value::Number)
            .unwrap_or(serde_json::Value::Null),
        Json::Str(s) => serde_json::Value::String(s.clone()),
        Json::Array(a) => serde_json::Value::Array(a.iter().map(from_lib).collect()),
        Json::Object(es) => {
            let mut m = serde_json::Map::new();
            for (k, x) in es {
                m.insert(k.clone(), from_lib(x));
            }
            serde_json::Value::Object(m)
        }
    }
}

fn parse(text: &str) -> serde_json::Value {
    serde_json::from_str(text).unwrap()
}

fn obj(entries: Vec<(&str, JsonValue)>) -> JsonValue {
    let mut m = serde_json::Map::new();
    for (k, v) in entries {
        m.insert(k.to_string(), v);
    }
    JsonValue::Object(m)
}

fn arr(items: Vec<JsonValue>) -> JsonValue {
    JsonValue::Array(items)
}

fn remove_default_uniform_scale_factor(tree: &mut JsonValue) -> Result<(), FigError> {
    let mut j = to_lib(tree);
    let r = transform::remove_default_uniform_scale_factor(&mut j);
    *tree = from_lib(&j);
    r
}

#[test]
fn test_remove_default_uniform_scale_factor() {
    let mut tree = obj(vec![("name", JsonValue::from("Shape")), ("uniformScaleFactor", JsonValue::from(1.0)), ("width", JsonValue::from(100))]);

    remove_default_uniform_scale_factor(&mut tree).unwrap();

    assert!(tree.get("uniformScaleFactor").is_none());
    assert_eq!(tree.get("name").unwrap().as_str(), Some("Shape"));
    assert_eq!(tree.get("width").unwrap().as_i64(), Some(100));
}

#[test]
fn test_preserve_non_default_scale_factor() {
    let mut tree = obj(vec![("name", JsonValue::from("Shape")), ("uniformScaleFactor", JsonValue::from(2.5)), ("width", JsonValue::from(100))]);

    remove_default_uniform_scale_factor(&mut tree).unwrap();

    // Non-default scale factors should be preserved
    assert_eq!(
        tree.get("uniformScaleFactor").unwrap().as_f64(),
        Some(2.5)
    );
    assert_eq!(tree.get("name").unwrap().as_str(), Some("Shape"));
}

#[test]
fn test_preserve_various_scale_factors() {
    let scale_factors = vec![0.5, 1.5, 2.0, 0.1, 10.0];

    for factor in scale_factors {
        let mut tree = obj(vec![("uniformScaleFactor", JsonValue::from(factor))]);

        remove_default_uniform_scale_factor(&mut tree).unwrap();

        // All non-default scale factors should be preserved
        assert_eq!(
            tree.get("uniformScaleFactor").unwrap().as_f64(),
            Some(factor)
        );
    }
}

#[test]
fn test_no_scale_factor() {
    let mut tree = obj(vec![("name", JsonValue::from("Rectangle")), ("width", JsonValue::from(100)), ("height", JsonValue::from(200))]);

    remove_default_uniform_scale_factor(&mut tree).unwrap();

    // Tree without uniformScaleFactor should be unchanged
    assert_eq!(tree.get("name").unwrap().as_str(), Some("Rectangle"));
    assert_eq!(tree.get("width").unwrap().as_i64(), Some(100));
    assert!(tree.get("uniformScaleFactor").is_none());
}

#[test]
fn uniform_scale_factor_removal_test_nested_objects() {
    let mut tree = obj(vec![("children", arr(vec![obj(vec![("name", JsonValue::from("Child1")), ("uniformScaleFactor", JsonValue::from(1.0))]), obj(vec![("name", JsonValue::from("Child2")), ("uniformScaleFactor", JsonValue::from(2.0))])]))]);

    remove_default_uniform_scale_factor(&mut tree).unwrap();

    // Default (1.0) removed, 2.0 preserved
    assert!(tree["children"][0].get("uniformScaleFactor").is_none());
    assert_eq!(tree["children"][0]["name"].as_str(), Some("Child1"));

    assert_eq!(
        tree["children"][1]["uniformScaleFactor"].as_f64(),
        Some(2.0)
    );
    assert_eq!(tree["children"][1]["name"].as_str(), Some("Child2"));
}

#[test]
fn uniform_scale_factor_removal_test_deeply_nested() {
    let mut tree = obj(vec![("document", obj(vec![("children", arr(vec![obj(vec![("type", JsonValue::from("FRAME")), ("uniformScaleFactor", JsonValue::from(1.0)), ("layers", arr(vec![obj(vec![("type", JsonValue::from("SHAPE")), ("uniformScaleFactor", JsonValue::from(1.0))])]))])]))]))]);

    remove_default_uniform_scale_factor(&mut tree).unwrap();

    // All default scale factors should be removed at all levels
    let frame = &tree["document"]["children"][0];
    assert!(frame.get("uniformScaleFactor").is_none());
    assert!(frame["layers"][0].get("uniformScaleFactor").is_none());
    assert_eq!(frame["type"].as_str(), Some("FRAME"));
}

#[test]
fn test_multiple_default_scale_factors() {
    let mut tree = obj(vec![("children", arr(vec![obj(vec![("uniformScaleFactor", JsonValue::from(1.0)), ("name", JsonValue::from("A"))]), obj(vec![("uniformScaleFactor", JsonValue::from(1.0)), ("name", JsonValue::from("B"))]), obj(vec![("uniformScaleFactor", JsonValue::from(1.0)), ("name", JsonValue::from("C"))])]))]);

    remove_default_uniform_scale_factor(&mut tree).unwrap();

    // All default scale factors should be removed
    assert!(tree["children"][0].get("uniformScaleFactor").is_none());
    assert!(tree["children"][1].get("uniformScaleFactor").is_none());
    assert!(tree["children"][2].get("uniformScaleFactor").is_none());
    assert_eq!(tree["children"][0]["name"].as_str(), Some("A"));
    assert_eq!(tree["children"][1]["name"].as_str(), Some("B"));
    assert_eq!(tree["children"][2]["name"].as_str(), Some("C"));
}

#[test]
fn test_zero_scale_factor() {
    let mut tree = obj(vec![("uniformScaleFactor", JsonValue::from(0.0))]);

    remove_default_uniform_scale_factor(&mut tree).unwrap();

    // Zero is not the default, so it should be preserved
    assert_eq!(tree.get("uniformScaleFactor").unwrap().as_f64(), Some(0.0));
}

#[test]
fn test_integer_one_vs_float_one() {
    // JSON doesn't distinguish between 1 and 1.0, both are treated as numbers
    let mut tree = obj(vec![("uniformScaleFactor", JsonValue::from(1))]);

    remove_default_uniform_scale_factor(&mut tree).unwrap();

    // Integer 1 should also be removed (it's the same as 1.0)
    assert!(tree.get("uniformScaleFactor").is_none());
}
