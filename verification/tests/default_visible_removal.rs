use fig2json::error::FigError;
use fig2json::transform;
use serde_json::Value as JsonValue;
use fig2json::json::{Json, JsonNumber};

fn to_lib(v: &serde_json::Value) -> Json {
    match v {
        serde_json::Value::Null => Json::Null,
        serde_json::Value::Bool(b) => Json::Bool(*b),
        serde_json::Value::Number(n) => {
            if let Some(u) = n.as_u64() {
                Json::Number(JsonNumber::PosInt(u))
            } else if let Some(i) = n.as_i64() {
                Json::Number(JsonNumber::NegInt(i))
            } else {
                Json::Number(JsonNumber::Float(n.as_f64().unwrap().to_bits()))
            }
        }
        serde_json::Value::String(s) => Json::Str(s.clone()),
        serde_json::Value::Array(a) => Json::Array(a.iter().map(to_lib).collect()),
        serde_json::Value::Object(m) => {
            Json::Object(m.iter().map(|(k, x)| (k.clone(), to_lib(x))).collect())
        }
    }
}

fn from_lib(j: &Json) -> serde_json::Value {
    match j {
        Json::Null => serde_json::Value::Null,
        Json::Bool(b) => serde_json::Value::Bool(*b),
        Json::Number(JsonNumber::PosInt(u)) => serde_json::Value::from(*u),
        Json::Number(JsonNumber::NegInt(i)) => serde_json::Value::from(*i),
        Json::Number(JsonNumber::Float(b)) => serde_json::Number::from_f64(f64::from_bits(*b))
            .map(serde_json::Value::Number)
            .unwrap_or(serde_json::Value::Null),
        Json::Str(s) => serde_json::Value::String(s.clone()),
        Json::Array(a) => serde_json::Value::Array(a.iter().map(from_lib).collect()),
        Json::Object(es) => {
            let mut m = serde_json::Map::new();
            for (k, x) in es {
                m.insert(k.clone(), from_lib(x));
            }
            serde_json::Value::Object(m)
        }
    }
}

fn parse(text: &str) -> serde_json::Value {
    serde_json::from_str(text).unwrap()
}

fn obj(entries: Vec<(&str, JsonValue)>) -> JsonValue {
    let mut m = serde_json::Map::new();
    for (k, v) in entries {
        m.insert(k.to_string(), v);
    }
    JsonValue::Object(m)
}

fn arr(items: Vec<JsonValue>) -> JsonValue {
    JsonValue::Array(items)
}

fn remove_default_visible(tree: &mut JsonValue) -> Result<(), FigError> {
    let mut j = to_lib(tree);
    let r = transform::remove_default_visible(&mut j);
    *tree = from_lib(&j);
    r
}

#[test]
fn test_remove_default_visible() {
    let mut tree = obj(vec![("name", JsonValue::from("Shape")), ("visible", JsonValue::from(true)), ("opacity", JsonValue::from(0.5))]);

    remove_default_visible(&mut tree).unwrap();

    assert!(tree.get("visible").is_none());
    assert_eq!(tree.get("name").unwrap().as_str(), Some("Shape"));
    assert_eq!(tree.get("opacity").unwrap().as_f64(), Some(0.5));
}

#[test]
fn test_preserve_visible_false() {
    let mut tree = obj(vec![("name", JsonValue::from("Shape")), ("visible", JsonValue::from(false)), ("opacity", JsonValue::from(1.0))]);

    remove_default_visible(&mut tree).unwrap();

    // visible: false should be preserved
    assert_eq!(tree.get("visible").unwrap().as_bool(), Some(false));
    assert_eq!(tree.get("name").unwrap().as_str(), Some("Shape"));
}

#[test]
fn test_no_visible() {
    let mut tree = obj(vec![("name", JsonValue::from("Rectangle")), ("width", JsonValue::from(100)), ("height", JsonValue::from(200))]);

    remove_default_visible(&mut tree).unwrap();

    // Tree without visible should be unchanged
    assert_eq!(tree.get("name").unwrap().as_str(), Some("Rectangle"));
    assert_eq!(tree.get("width").unwrap().as_i64(), Some(100));
    assert!(tree.get("visible").is_none());
}

#[test]
fn default_visible_removal_test_nested_objects() {
    let mut tree = obj(vec![("children", arr(vec![obj(vec![("name", JsonValue::from("Child1")), ("visible", JsonValue::from(true))]), obj(vec![("name", JsonValue::from("Child2")), ("visible", JsonValue::from(false))])]))]);

    remove_default_visible(&mut tree).unwrap();

    // visible: true removed, visible: false preserved
    assert!(tree["children"][0].get("visible").is_none());
    assert_eq!(tree["children"][0]["name"].as_str(), Some("Child1"));

    assert_eq!(tree["children"][1]["visible"].as_bool(), Some(false));
    assert_eq!(tree["children"][1]["name"].as_str(), Some("Child2"));
}

#[test]
fn test_visible_in_paints() {
    let mut tree = obj(vec![("fillPaints", arr(vec![obj(vec![("type", JsonValue::from("SOLID")), ("visible", JsonValue::from(true)), ("color", JsonValue::from("#ff0000"))]), obj(vec![("type", JsonValue::from("GRADIENT")), ("visible", JsonValue::from(false)), ("color", JsonValue::from("#00ff00"))])]))]);

    remove_default_visible(&mut tree).unwrap();

    // visible: true removed from first paint
    assert!(tree["fillPaints"][0].get("visible").is_none());
    assert_eq!(tree["fillPaints"][0]["type"].as_str(), Some("SOLID"));

    // visible: false preserved in second paint
    assert_eq!(tree["fillPaints"][1]["visible"].as_bool(), Some(false));
    assert_eq!(tree["fillPaints"][1]["type"].as_str(), Some("GRADIENT"));
}

#[test]
fn default_visible_removal_test_deeply_nested() {
    let mut tree = obj(vec![("document", obj(vec![("children", arr(vec![obj(vec![("type", JsonValue::from("FRAME")), ("visible", JsonValue::from(true)), ("fillPaints", arr(vec![obj(vec![("type", JsonValue::from("SOLID")), ("visible", JsonValue::from(true))])]))])]))]))]);

    remove_default_visible(&mut tree).unwrap();

    // All visible: true should be removed at all levels
    let frame = &tree["document"]["children"][0];
    assert!(frame.get("visible").is_none());
    assert!(frame["fillPaints"][0].get("visible").is_none());
    assert_eq!(frame["type"].as_str(), Some("FRAME"));
}

#[test]
fn test_multiple_default_visible() {
    let mut tree = obj(vec![("children", arr(vec![obj(vec![("visible", JsonValue::from(true)), ("name", JsonValue::from("A"))]), obj(vec![("visible", JsonValue::from(true)), ("name", JsonValue::from("B"))]), obj(vec![("visible", JsonValue::from(true)), ("name", JsonValue::from("C"))])]))]);

    remove_default_visible(&mut tree).unwrap();

    // All visible: true should be removed
    assert!(tree["children"][0].get("visible").is_none());
    assert!(tree["children"][1].get("visible").is_none());
    assert!(tree["children"][2].get("visible").is_none());
    assert_eq!(tree["children"][0]["name"].as_str(), Some("A"));
    assert_eq!(tree["children"][1]["name"].as_str(), Some("B"));
    assert_eq!(tree["children"][2]["name"].as_str(), Some("C"));
}

#[test]
fn test_multiple_false_visible() {
    let mut tree = obj(vec![("children", arr(vec![obj(vec![("visible", JsonValue::from(false)), ("name", JsonValue::from("A"))]), obj(vec![("visible", JsonValue::from(false)), ("name", JsonValue::from("B"))]), obj(vec![("visible", JsonValue::from(false)), ("name", JsonValue::from("C"))])]))]);

    remove_default_visible(&mut tree).unwrap();

    // All visible: false should be preserved
    assert_eq!(tree["children"][0]["visible"].as_bool(), Some(false));
    assert_eq!(tree["children"][1]["visible"].as_bool(), Some(false));
    assert_eq!(tree["children"][2]["visible"].as_bool(), Some(false));
    assert_eq!(tree["children"][0]["name"].as_str(), Some("A"));
    assert_eq!(tree["children"][1]["name"].as_str(), Some("B"));
    assert_eq!(tree["children"][2]["name"].as_str(), Some("C"));
}

#[test]
fn test_mixed_visible_values() {
    let mut tree = obj(vec![("children", arr(vec![obj(vec![("visible", JsonValue::from(true)), ("name", JsonValue::from("A"))]), obj(vec![("visible", JsonValue::from(false)), ("name", JsonValue::from("B"))]), obj(vec![("visible", JsonValue::from(true)), ("name", JsonValue::from("C"))]), obj(vec![("visible", JsonValue::from(false)), ("name", JsonValue::from("D"))])]))]);

    remove_default_visible(&mut tree).unwrap();

    // true removed, false preserved
    assert!(tree["children"][0].get("visible").is_none());
    assert_eq!(tree["children"][1]["visible"].as_bool(), Some(false));
    assert!(tree["children"][2].get("visible").is_none());
    assert_eq!(tree["children"][3]["visible"].as_bool(), Some(false));
}

#[test]
fn test_visible_string_not_touched() {
    let mut tree = obj(vec![("name", JsonValue::from("Test")), ("visible", JsonValue::from("true"))]);

    remove_default_visible(&mut tree).unwrap();

    // String visible should not be touched
    assert_eq!(tree.get("visible").unwrap().as_str(), Some("true"));
}
