use fig2json::error::FigError;
use fig2json::transform;
use serde_json::Value as JsonValue;
use fig2json::json::{Json, JsonNumber};

fn to_lib(v: &serde_json::Value) -> Json {
    match v {
        serde_json::Value::Null => Json::Null,
        serde_json::Value::Bool(b) => Json::Bool(*b),
        serde_json::Value::Number(n) => {
            if let Some(u) = n.as_u64() {
                Json::Number(JsonNumber::PosInt(u))
            } else if let Some(i) = n.as_i64() {
                Json::Number(JsonNumber::NegInt(i))
            } else {
                Json::Number(JsonNumber::Float(n.as_f64().unwrap().to_bits()))
            }
        }
        serde_json::Value::String(s) => Json::Str(s.clone()),
        serde_json::Value::Array(a) => Json::Array(a.iter().map(to_lib).collect()),
        serde_json::Value::Object(m) => {
            Json::Object(m.iter().map(|(k, x)| (k.clone(), to_lib(x))).collect())
        }
    }
}

fn from_lib(j: &Json) -> serde_json::Value {
    match j {
        Json::Null => serde_json::Value::Null,
        Json::Bool(b) => serde_json::Value::Bool(*b),
        Json::Number(JsonNumber::PosInt(u)) => serde_json::Value::from(*u),
        Json::Number(JsonNumber::NegInt(i)) => serde_json::Value::from(*i),
        Json::Number(JsonNumber::Float(b)) => serde_json::Number::from_f64(f64::from_bits(*b))
            .map(serde_json::Value::Number)
            .unwrap_or(serde_json::Value::Null),
        Json::Str(s) => serde_json::Value::String(s.clone()),
        Json::Array(a) => serde_json::Value::Array(a.iter().map(from_lib).collect()),
        Json::Object(es) => {
            let mut m = serde_json::Map::new();
            for (k, x) in es {
                m.insert(k.clone(), from_lib(x));
            }
            serde_json::Value::Object(m)
        }
    }
}

fn parse(text: &str) -> serde_json::Value {
    serde_json::from_str(text).unwrap()
}

fn obj(entries: Vec<(&str, JsonValue)>) -> JsonValue {
    let mut m = serde_json::Map::new();
    for (k, v) in entries {
        m.insert(k.to_string(), v);
    }
    JsonValue::Object(m)
}

fn arr(items: Vec<JsonValue>) -> JsonValue {
    JsonValue::Array(items)
}

fn remove_border_weights(tree: &mut JsonValue) -> Result<(), FigError> {
    let mut j = to_lib(tree);
    let r = transform::remove_border_weights(&mut j);
    *tree = from_lib(&j);
    r
}

#[test]
fn test_remove_all_border_weights() {
    let mut tree = obj(vec![("name", JsonValue::from("Rectangle")), ("borderTopWeight", JsonValue::from(1.0)), ("borderBottomWeight", JsonValue::from(2.0)), ("borderLeftWeight", JsonValue::from(1.5)), ("borderRightWeight", JsonValue::from(2.5)), ("visible", JsonValue::from(true))]);

    remove_border_weights(&mut tree).unwrap();

    assert!(tree.get("borderTopWeight").is_none());
    assert!(tree.get("borderBottomWeight").is_none());
    assert!(tree.get("borderLeftWeight").is_none());
    assert!(tree.get("borderRightWeight").is_none());
    assert_eq!(tree.get("name").unwrap().as_str(), Some("Rectangle"));
    assert_eq!(tree.get("visible").unwrap().as_bool(), Some(true));
}

#[test]
fn test_remove_partial_border_weights() {
    let mut tree = obj(vec![("name", JsonValue::from("Shape")), ("borderTopWeight", JsonValue::from(1.0)), ("borderLeftWeight", JsonValue::from(1.0)), ("width", JsonValue::from(100))]);

    remove_border_weights(&mut tree).unwrap();

    assert!(tree.get("borderTopWeight").is_none());
    assert!(tree.get("borderLeftWeight").is_none());
    assert_eq!(tree.get("width").unwrap().as_i64(), Some(100));
}

#[test]
fn test_no_border_weights() {
    let mut tree = obj(vec![("name", JsonValue::from("Circle")), ("radius", JsonValue::from(50)), ("visible", JsonValue::from(true))]);

    remove_border_weights(&mut tree).unwrap();

    // Tree without border weights should be unchanged
    assert_eq!(tree.get("name").unwrap().as_str(), Some("Circle"));
    assert_eq!(tree.get("radius").unwrap().as_i64(), Some(50));
    assert_eq!(tree.get("visible").unwrap().as_bool(), Some(true));
}

#[test]
fn border_weights_removal_test_nested_objects() {
    let mut tree = obj(vec![("children", arr(vec![obj(vec![("name", JsonValue::from("Child1")), ("borderTopWeight", JsonValue::from(1.0)), ("borderBottomWeight", JsonValue::from(1.0))]), obj(vec![("name", JsonValue::from("Child2")), ("borderLeftWeight", JsonValue::from(2.0)), ("borderRightWeight", JsonValue::from(2.0))])]))]);

    remove_border_weights(&mut tree).unwrap();

    // All nested border weights should be removed
    assert!(tree["children"][0].get("borderTopWeight").is_none());
    assert!(tree["children"][0].get("borderBottomWeight").is_none());
    assert_eq!(tree["children"][0]["name"].as_str(), Some("Child1"));

    assert!(tree["children"][1].get("borderLeftWeight").is_none());
    assert!(tree["children"][1].get("borderRightWeight").is_none());
    assert_eq!(tree["children"][1]["name"].as_str(), Some("Child2"));
}

#[test]
fn border_weights_removal_test_deeply_nested() {
    let mut tree = obj(vec![("document", obj(vec![("children", arr(vec![obj(vec![("type", JsonValue::from("FRAME")), ("borderTopWeight", JsonValue::from(1.0)), ("borderBottomWeight", JsonValue::from(1.0)), ("borderLeftWeight", JsonValue::from(1.0)), ("borderRightWeight", JsonValue::from(1.0))])]))]))]);

    remove_border_weights(&mut tree).unwrap();

    let frame = &tree["document"]["children"][0];
    assert!(frame.get("borderTopWeight").is_none());
    assert!(frame.get("borderBottomWeight").is_none());
    assert!(frame.get("borderLeftWeight").is_none());
    assert!(frame.get("borderRightWeight").is_none());
    assert_eq!(frame["type"].as_str(), Some("FRAME"));
}

#[test]
fn test_preserve_other_border_properties() {
    let mut tree = obj(vec![("name", JsonValue::from("Rectangle")), ("borderTopWeight", JsonValue::from(1.0)), ("borderRadius", JsonValue::from(5.0)), ("borderColor", JsonValue::from("#ff0000"))]);

    remove_border_weights(&mut tree).unwrap();

    // Other border properties should be preserved
    assert!(tree.get("borderTopWeight").is_none());
    assert_eq!(tree.get("borderRadius").unwrap().as_f64(), Some(5.0));
    assert_eq!(tree.get("borderColor").unwrap().as_str(), Some("#ff0000"));
}

#[test]
fn test_multiple_shapes_in_array() {
    let mut tree = obj(vec![("shapes", arr(vec![obj(vec![("type", JsonValue::from("rectangle")), ("borderTopWeight", JsonValue::from(1.0)), ("borderBottomWeight", JsonValue::from(1.0))]), obj(vec![("type", JsonValue::from("ellipse")), ("borderLeftWeight", JsonValue::from(2.0)), ("borderRightWeight", JsonValue::from(2.0))]), obj(vec![("type", JsonValue::from("line")), ("borderTopWeight", JsonValue::from(0.5))])]))]);

    remove_border_weights(&mut tree).unwrap();

    // All border weights in all array elements should be removed
    assert!(tree["shapes"][0].get("borderTopWeight").is_none());
    assert!(tree["shapes"][0].get("borderBottomWeight").is_none());
    assert_eq!(tree["shapes"][0]["type"].as_str(), Some("rectangle"));

    assert!(tree["shapes"][1].get("borderLeftWeight").is_none());
    assert!(tree["shapes"][1].get("borderRightWeight").is_none());
    assert_eq!(tree["shapes"][1]["type"].as_str(), Some("ellipse"));

    assert!(tree["shapes"][2].get("borderTopWeight").is_none());
    assert_eq!(tree["shapes"][2]["type"].as_str(), Some("line"));
}

#[test]
fn test_zero_border_weights() {
    let mut tree = obj(vec![("name", JsonValue::from("Shape")), ("borderTopWeight", JsonValue::from(0.0)), ("borderBottomWeight", JsonValue::from(0.0)), ("borderLeftWeight", JsonValue::from(0.0)), ("borderRightWeight", JsonValue::from(0.0))]);

    remove_border_weights(&mut tree).unwrap();

    // Even zero-value border weights should be removed
    assert!(tree.get("borderTopWeight").is_none());
    assert!(tree.get("borderBottomWeight").is_none());
    assert!(tree.get("borderLeftWeight").is_none());
    assert!(tree.get("borderRightWeight").is_none());
}

#[test]
fn test_remove_border_stroke_weights_independent() {
    let mut tree = obj(vec![("name", JsonValue::from("Rectangle")), ("borderStrokeWeightsIndependent", JsonValue::from(true)), ("borderTopWeight", JsonValue::from(1.0)), ("borderBottomWeight", JsonValue::from(2.0)), ("visible", JsonValue::from(true))]);

    remove_border_weights(&mut tree).unwrap();

    assert!(tree.get("borderStrokeWeightsIndependent").is_none());
    assert!(tree.get("borderTopWeight").is_none());
    assert!(tree.get("borderBottomWeight").is_none());
    assert_eq!(tree.get("name").unwrap().as_str(), Some("Rectangle"));
    assert_eq!(tree.get("visible").unwrap().as_bool(), Some(true));
}

#[test]
fn test_remove_border_stroke_weights_independent_nested() {
    let mut tree = obj(vec![("children", arr(vec![obj(vec![("name", JsonValue::from("Child1")), ("borderStrokeWeightsIndependent", JsonValue::from(true)), ("borderTopWeight", JsonValue::from(1.0))]), obj(vec![("name", JsonValue::from("Child2")), ("borderStrokeWeightsIndependent", JsonValue::from(false))])]))]);

    remove_border_weights(&mut tree).unwrap();

    assert!(tree["children"][0].get("borderStrokeWeightsIndependent").is_none());
    assert!(tree["children"][0].get("borderTopWeight").is_none());
    assert_eq!(tree["children"][0]["name"].as_str(), Some("Child1"));

    assert!(tree["children"][1].get("borderStrokeWeightsIndependent").is_none());
    assert_eq!(tree["children"][1]["name"].as_str(), Some("Child2"));
}
