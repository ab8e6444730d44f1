use fig2json::error::FigError;
use fig2json::transform;
use serde_json::Value as JsonValue;
use fig2json::json::{Json, JsonNumber};

fn to_lib(v: &serde_json::Value) -> Json {
    match v {
        serde_json::Value::Null => Json::Null,
        serde_json::Value::Bool(b) => Json::Bool(*b),
        serde_json::Value::Number(n) => {
            if let Some(u) = n.as_u64() {
                Json::Number(JsonNumber::PosInt(u))
            } else if let Some(i) = n.as_i64() {
                Json::Number(JsonNumber::NegInt(i))
            } else {
                Json::Number(JsonNumber::Float(n.as_f64().unwrap().to_bits()))
            }
        }
        serde_json::Value::String(s) => Json::Str(s.clone()),
        serde_json::Value::Array(a) => Json::Array(a.iter().map(to_lib).collect()),
        serde_json::Value::Object(m) => {
            Json::Object(m.iter().map(|(k, x)| (k.clone(), to_lib(x))).collect())
        }
    }
}

fn from_lib(j: &Json) -> serde_json::Value {
    match j {
        Json::Null => serde_json::Value::Null,
        Json::Bool(b) => serde_json::Value::Bool(*b),
        Json::Number(JsonNumber::PosInt(u)) => serde_json::Value::from(*u),
        Json::Number(JsonNumber::NegInt(i)) => serde_json::Value::from(*i),
        Json::Number(JsonNumber::Float(b)) => serde_json::Number::from_f64(f64::from_bits(*b))
            .map(serde_json::Value::Number)
            .unwrap_or(serde_json::Value::Null),
        Json::Str(s) => serde_json::Value::String(s.clone()),
        Json::Array(a) => serde_json::Value::Array(a.iter().map(from_lib).collect()),
        Json::Object(es) => {
            let mut m = serde_json::Map::new();
            for (k, x) in es {
                m.insert(k.clone(), from_lib(x));
            }
            serde_json::Value::Object(m)
        }
    }
}

fn parse(text: &str) -> serde_json::Value {
    serde_json::from_str(text).unwrap()
}

fn obj(entries: Vec<(&str, JsonValue)>) -> JsonValue {
    let mut m = serde_json::Map::new();
    for (k, v) in entries {
        m.insert(k.to_string(), v);
    }
    JsonValue::Object(m)
}

fn arr(items: Vec<JsonValue>) -> JsonValue {
    JsonValue::Array(items)
}

fn remove_default_rotation(tree: &mut JsonValue) -> Result<(), FigError> {
    let mut j = to_lib(tree);
    let r = transform::remove_default_rotation(&mut j);
    *tree = from_lib(&j);
    r
}

#[test]
fn test_remove_default_rotation() {
    let mut tree = obj(vec![("name", JsonValue::from("Image")), ("rotation", JsonValue::from(0.0)), ("scale", JsonValue::from(0.5))]);

    remove_default_rotation(&mut tree).unwrap();

    assert!(tree.get("rotation").is_none());
    assert_eq!(tree.get("name").unwrap().as_str(), Some("Image"));
    assert_eq!(tree.get("scale").unwrap().as_f64(), Some(0.5));
}

#[test]
fn test_preserve_non_zero_rotation() {
    let mut tree = obj(vec![("name", JsonValue::from("Image")), ("rotation", JsonValue::from(45.0)), ("scale", JsonValue::from(1.0))]);

    remove_default_rotation(&mut tree).unwrap();

    // Non-zero rotation should be preserved
    assert_eq!(tree.get("rotation").unwrap().as_f64(), Some(45.0));
    assert_eq!(tree.get("name").unwrap().as_str(), Some("Image"));
}

#[test]
fn test_preserve_negative_rotation() {
    let mut tree = obj(vec![("name", JsonValue::from("Image")), ("rotation", JsonValue::from(-30.0))]);

    remove_default_rotation(&mut tree).unwrap();

    // Negative rotation should be preserved
    assert_eq!(tree.get("rotation").unwrap().as_f64(), Some(-30.0));
}

#[test]
fn test_preserve_various_rotations() {
    let rotations = vec![15.0, 30.0, 45.0, 90.0, 180.0, 270.0, -45.0, -90.0];

    for rotation_value in rotations {
        let mut tree = obj(vec![("rotation", JsonValue::from(rotation_value))]);

        remove_default_rotation(&mut tree).unwrap();

        // All non-zero rotations should be preserved
        assert_eq!(
            tree.get("rotation").unwrap().as_f64(),
            Some(rotation_value)
        );
    }
}

#[test]
fn test_no_rotation() {
    let mut tree = obj(vec![("name", JsonValue::from("Rectangle")), ("width", JsonValue::from(100)), ("height", JsonValue::from(200))]);

    remove_default_rotation(&mut tree).unwrap();

    // Tree without rotation should be unchanged
    assert_eq!(tree.get("name").unwrap().as_str(), Some("Rectangle"));
    assert_eq!(tree.get("width").unwrap().as_i64(), Some(100));
    assert!(tree.get("rotation").is_none());
}

#[test]
fn test_rotation_in_image_paint() {
    let mut tree = obj(vec![("fillPaints", arr(vec![obj(vec![("type", JsonValue::from("IMAGE")), ("rotation", JsonValue::from(0.0)), ("scale", JsonValue::from(0.5)), ("image", obj(vec![("filename", JsonValue::from("test.png"))]))])]))]);

    remove_default_rotation(&mut tree).unwrap();

    // rotation 0.0 should be removed
    assert!(tree["fillPaints"][0].get("rotation").is_none());
    assert_eq!(tree["fillPaints"][0]["scale"].as_f64(), Some(0.5));
}

#[test]
fn test_rotation_in_transform() {
    let mut tree = obj(vec![("fillPaints", arr(vec![obj(vec![("type", JsonValue::from("IMAGE")), ("transform", obj(vec![("rotation", JsonValue::from(0.0)), ("x", JsonValue::from(100.0)), ("y", JsonValue::from(200.0))]))])]))]);

    remove_default_rotation(&mut tree).unwrap();

    // rotation 0.0 should be removed from transform
    assert!(tree["fillPaints"][0]["transform"]
        .get("rotation")
        .is_none());
    assert_eq!(
        tree["fillPaints"][0]["transform"]["x"].as_f64(),
        Some(100.0)
    );
}

#[test]
fn default_rotation_removal_test_nested_objects() {
    let mut tree = obj(vec![("children", arr(vec![obj(vec![("name", JsonValue::from("Child1")), ("rotation", JsonValue::from(0.0))]), obj(vec![("name", JsonValue::from("Child2")), ("rotation", JsonValue::from(15.0))])]))]);

    remove_default_rotation(&mut tree).unwrap();

    // rotation 0.0 removed, 15.0 preserved
    assert!(tree["children"][0].get("rotation").is_none());
    assert_eq!(tree["children"][0]["name"].as_str(), Some("Child1"));

    assert_eq!(tree["children"][1]["rotation"].as_f64(), Some(15.0));
    assert_eq!(tree["children"][1]["name"].as_str(), Some("Child2"));
}

#[test]
fn default_rotation_removal_test_deeply_nested() {
    let mut tree = obj(vec![("document", obj(vec![("children", arr(vec![obj(vec![("type", JsonValue::from("RECTANGLE")), ("rotation", JsonValue::from(0.0)), ("fillPaints", arr(vec![obj(vec![("type", JsonValue::from("IMAGE")), ("rotation", JsonValue::from(0.0))])]))])]))]))]);

    remove_default_rotation(&mut tree).unwrap();

    // All rotation 0.0 should be removed at all levels
    let rect = &tree["document"]["children"][0];
    assert!(rect.get("rotation").is_none());
    assert!(rect["fillPaints"][0].get("rotation").is_none());
    assert_eq!(rect["type"].as_str(), Some("RECTANGLE"));
}

#[test]
fn test_multiple_default_rotations() {
    let mut tree = obj(vec![("children", arr(vec![obj(vec![("rotation", JsonValue::from(0.0)), ("name", JsonValue::from("A"))]), obj(vec![("rotation", JsonValue::from(0.0)), ("name", JsonValue::from("B"))]), obj(vec![("rotation", JsonValue::from(0.0)), ("name", JsonValue::from("C"))])]))]);

    remove_default_rotation(&mut tree).unwrap();

    // All rotation 0.0 should be removed
    assert!(tree["children"][0].get("rotation").is_none());
    assert!(tree["children"][1].get("rotation").is_none());
    assert!(tree["children"][2].get("rotation").is_none());
    assert_eq!(tree["children"][0]["name"].as_str(), Some("A"));
    assert_eq!(tree["children"][1]["name"].as_str(), Some("B"));
    assert_eq!(tree["children"][2]["name"].as_str(), Some("C"));
}

#[test]
fn test_rotation_as_integer() {
    let mut tree = obj(vec![("name", JsonValue::from("Shape")), ("rotation", JsonValue::from(0))]);

    remove_default_rotation(&mut tree).unwrap();

    // Integer 0 should also be removed (since 0 == 0.0)
    assert!(tree.get("rotation").is_none());
}

#[test]
fn test_rotation_string_not_touched() {
    let mut tree = obj(vec![("name", JsonValue::from("Test")), ("rotation", JsonValue::from("0.0"))]);

    remove_default_rotation(&mut tree).unwrap();

    // String rotation should not be touched
    assert_eq!(tree.get("rotation").unwrap().as_str(), Some("0.0"));
}
