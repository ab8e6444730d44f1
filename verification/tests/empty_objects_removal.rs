use fig2json::error::FigError;
use fig2json::transform;
use serde_json::Value as JsonValue;
use fig2json::json::{Json, JsonNumber};

fn to_lib(v: &serde_json::Value) -> Json {
    match v {
        serde_json::Value::Null => Json::Null,
        serde_json::Value::Bool(b) => Json::Bool(*b),
        serde_json::Value::Number(n) => {
            if let Some(u) = n.as_u64() {
                Json::Number(JsonNumber::PosInt(u))
            } else if let Some(i) = n.as_i64() {
                Json::Number(JsonNumber::NegInt(i))
            } else {
                Json::Number(JsonNumber::Float(n.as_f64().unwrap().to_bits()))
            }
        }
        serde_json::Value::String(s) => Json::Str(s.clone()),
        serde_json::Value::Array(a) => Json::Array(a.iter().map(to_lib).collect()),
        serde_json::Value::Object(m) => {
            Json::Object(m.iter().map(|(k, x)| (k.clone(), to_lib(x))).collect())
        }
    }
}

fn from_lib(j: &Json) -> serde_json::Value {
    match j {
        Json::Null => serde_json::Value::Null,
        Json::Bool(b) => serde_json::Value::Bool(*b),
        Json::Number(JsonNumber::PosInt(u)) => serde_json::Value::from(*u),
        Json::Number(JsonNumber::NegInt(i)) => serde_json::Value::from(*i),
        Json::Number(JsonNumber::Float(b)) => serde_json::Number::from_f64(f64::from_bits(*b))
            .map(serde_json::Value::Number)
            .unwrap_or(serde_json::Value::Null),
        Json::Str(s) => serde_json::Value::String(s.clone()),
        Json::Array(a) => serde_json::Value::Array(a.iter().map(from_lib).collect()),
        Json::Object(es) => {
            let mut m = serde_json::Map::new();
            for (k, x) in es {
                m.insert(k.clone(), from_lib(x));
            }
            serde_json::Value::Object(m)
        }
    }
}

fn parse(text: &str) -> serde_json::Value {
    serde_json::from_str(text).unwrap()
}

fn obj(entries: Vec<(&str, JsonValue)>) -> JsonValue {
    let mut m = serde_json::Map::new();
    for (k, v) in entries {
        m.insert(k.to_string(), v);
    }
    JsonValue::Object(m)
}

fn arr(items: Vec<JsonValue>) -> JsonValue {
    JsonValue::Array(items)
}

fn remove_empty_objects(tree: &mut JsonValue) -> Result<(), FigError> {
    let mut j = to_lib(tree);
    let r = transform::remove_empty_objects(&mut j);
    *tree = from_lib(&j);
    r
}

#[test]
fn test_remove_empty_object_field() {
    let mut tree = obj(vec![("name", JsonValue::from("Shape")), ("data", obj(vec![])), ("opacity", JsonValue::from(1.0))]);

    remove_empty_objects(&mut tree).unwrap();

    assert!(tree.get("data").is_none());
    assert_eq!(tree.get("name").unwrap().as_str(), Some("Shape"));
    assert_eq!(tree.get("opacity").unwrap().as_f64(), Some(1.0));
}

#[test]
fn test_remove_empty_objects_from_array() {
    let mut tree = obj(vec![("items", arr(vec![JsonValue::from(1), obj(vec![]), JsonValue::from(2), obj(vec![]), JsonValue::from(3)]))]);

    remove_empty_objects(&mut tree).unwrap();

    let items = tree.get("items").unwrap().as_array().unwrap();
    assert_eq!(items.len(), 3);
    assert_eq!(items[0].as_i64(), Some(1));
    assert_eq!(items[1].as_i64(), Some(2));
    assert_eq!(items[2].as_i64(), Some(3));
}

#[test]
fn test_preserve_non_empty_objects() {
    let mut tree = obj(vec![("name", JsonValue::from("Shape")), ("data", obj(vec![("key", JsonValue::from("value"))])), ("empty", obj(vec![]))]);

    remove_empty_objects(&mut tree).unwrap();

    assert!(tree.get("empty").is_none());
    assert!(tree.get("data").is_some());
    assert_eq!(
        tree.get("data").unwrap().as_object().unwrap().get("key").unwrap().as_str(),
        Some("value")
    );
}

#[test]
fn test_nested_empty_objects() {
    let mut tree = obj(vec![("children", arr(vec![obj(vec![("name", JsonValue::from("Child1")), ("metadata", obj(vec![]))]), obj(vec![("name", JsonValue::from("Child2")), ("data", obj(vec![("value", JsonValue::from(42))]))])]))]);

    remove_empty_objects(&mut tree).unwrap();

    assert!(tree["children"][0].get("metadata").is_none());
    assert_eq!(tree["children"][0]["name"].as_str(), Some("Child1"));

    assert!(tree["children"][1].get("data").is_some());
    assert_eq!(tree["children"][1]["name"].as_str(), Some("Child2"));
}

#[test]
fn test_array_of_empty_objects() {
    let mut tree = obj(vec![("items", arr(vec![obj(vec![]), obj(vec![]), obj(vec![])]))]);

    remove_empty_objects(&mut tree).unwrap();

    let items = tree.get("items").unwrap().as_array().unwrap();
    assert_eq!(items.len(), 0);
}

#[test]
fn empty_objects_removal_test_mixed_array() {
    let mut tree = obj(vec![("items", arr(vec![obj(vec![]), obj(vec![("name", JsonValue::from("A"))]), obj(vec![]), obj(vec![("name", JsonValue::from("B"))]), obj(vec![])]))]);

    remove_empty_objects(&mut tree).unwrap();

    let items = tree.get("items").unwrap().as_array().unwrap();
    assert_eq!(items.len(), 2);
    assert_eq!(items[0]["name"].as_str(), Some("A"));
    assert_eq!(items[1]["name"].as_str(), Some("B"));
}

#[test]
fn empty_objects_removal_test_deeply_nested() {
    let mut tree = obj(vec![("level1", obj(vec![("level2", obj(vec![("level3", obj(vec![("empty", obj(vec![])), ("data", JsonValue::from("value"))])), ("alsoEmpty", obj(vec![]))]))]))]);

    remove_empty_objects(&mut tree).unwrap();

    assert!(tree["level1"]["level2"]["level3"].get("empty").is_none());
    assert_eq!(
        tree["level1"]["level2"]["level3"]["data"].as_str(),
        Some("value")
    );
    assert!(tree["level1"]["level2"].get("alsoEmpty").is_none());
}

#[test]
fn test_no_empty_objects() {
    let mut tree = obj(vec![("name", JsonValue::from("Rectangle")), ("width", JsonValue::from(100)), ("children", arr(vec![obj(vec![("name", JsonValue::from("Child1"))]), obj(vec![("name", JsonValue::from("Child2"))])]))]);

    let original = tree.clone();
    remove_empty_objects(&mut tree).unwrap();

    // Tree should be unchanged
    assert_eq!(tree, original);
}

#[test]
fn test_derived_symbol_data_case() {
    // Real-world example from roles-members.json
    let mut tree = obj(vec![("derivedSymbolData", arr(vec![obj(vec![]), obj(vec![]), obj(vec![]), obj(vec![("size", obj(vec![("x", JsonValue::from(42.0)), ("y", JsonValue::from(22.0))]))]), obj(vec![])]))]);

    remove_empty_objects(&mut tree).unwrap();

    let data = tree.get("derivedSymbolData").unwrap().as_array().unwrap();
    assert_eq!(data.len(), 1);
    assert!(data[0].get("size").is_some());
    assert_eq!(data[0]["size"]["x"].as_f64(), Some(42.0));
}

#[test]
fn test_symbol_overrides_case() {
    // Another real-world pattern
    let mut tree = obj(vec![("symbolOverrides", arr(vec![obj(vec![("opacity", JsonValue::from(0.0))]), obj(vec![("textData", obj(vec![("characters", JsonValue::from("Hello"))]))]), obj(vec![])]))]);

    remove_empty_objects(&mut tree).unwrap();

    let overrides = tree.get("symbolOverrides").unwrap().as_array().unwrap();
    assert_eq!(overrides.len(), 2);
    assert!(overrides[0].get("opacity").is_some());
    assert!(overrides[1].get("textData").is_some());
}

#[test]
fn test_empty_array_preserved() {
    let mut tree = obj(vec![("name", JsonValue::from("Test")), ("items", arr(vec![]))]);

    remove_empty_objects(&mut tree).unwrap();

    // Empty arrays should be preserved, only empty objects are removed
    assert!(tree.get("items").is_some());
    let items = tree.get("items").unwrap().as_array().unwrap();
    assert_eq!(items.len(), 0);
}

#[test]
fn test_object_becomes_empty_after_removal() {
    let mut tree = obj(vec![("parent", obj(vec![("child1", obj(vec![])), ("child2", obj(vec![]))]))]);

    remove_empty_objects(&mut tree).unwrap();

    // After removing empty children, parent becomes empty and is also removed
    // This is the correct behavior - recursively remove all empty objects
    assert!(tree.get("parent").is_none());
}
