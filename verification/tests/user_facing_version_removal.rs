use fig2json::error::FigError;
use fig2json::transform;
use serde_json::Value as JsonValue;
use fig2json::json::{Json, JsonNumber};

fn to_lib(v: &serde_json::Value) -> Json {
    match v {
        serde_json::Value::Null => Json::Null,
        serde_json::Value::Bool(b) => Json::Bool(*b),
        serde_json::Value::Number(n) => {
            if let Some(u) = n.as_u64() {
                Json::Number(JsonNumber::PosInt(u))
            } else if let Some(i) = n.as_i64() {
                Json::Number(JsonNumber::NegInt(i))
            } else {
                Json::Number(JsonNumber::Float(n.as_f64().unwrap().to_bits()))
            }
        }
        serde_json::Value::String(s) => Json::Str(s.clone()),
        serde_json::Value::Array(a) => Json::Array(a.iter().map(to_lib).collect()),
        serde_json::Value::Object(m) => {
            Json::Object(m.iter().map(|(k, x)| (k.clone(), to_lib(x))).collect())
        }
    }
}

fn from_lib(j: &Json) -> serde_json::Value {
    match j {
        Json::Null => serde_json::Value::Null,
        Json::Bool(b) => serde_json::Value::Bool(*b),
        Json::Number(JsonNumber::PosInt(u)) => serde_json::Value::from(*u),
        Json::Number(JsonNumber::NegInt(i)) => serde_json::Value::from(*i),
        Json::Number(JsonNumber::Float(b)) => serde_json::Number::from_f64(f64::from_bits(*b))
            .map(serde_json::Value::Number)
            .unwrap_or(serde_json::Value::Null),
        Json::Str(s) => serde_json::Value::String(s.clone()),
        Json::Array(a) => serde_json::Value::Array(a.iter().map(from_lib).collect()),
        Json::Object(es) => {
            let mut m = serde_json::Map::new();
            for (k, x) in es {
                m.insert(k.clone(), from_lib(x));
            }
            serde_json::Value::Object(m)
        }
    }
}

fn parse(text: &str) -> serde_json::Value {
    serde_json::from_str(text).unwrap()
}

fn obj(entries: Vec<(&str, JsonValue)>) -> JsonValue {
    let mut m = serde_json::Map::new();
    for (k, v) in entries {
        m.insert(k.to_string(), v);
    }
    JsonValue::Object(m)
}

fn arr(items: Vec<JsonValue>) -> JsonValue {
    JsonValue::Array(items)
}

fn remove_user_facing_versions(tree: &mut JsonValue) -> Result<(), FigError> {
    let mut j = to_lib(tree);
    let r = transform::remove_user_facing_versions(&mut j);
    *tree = from_lib(&j);
    r
}

#[test]
fn test_remove_user_facing_version_simple() {
    let mut tree = obj(vec![("name", JsonValue::from("Component")), ("type", JsonValue::from("INSTANCE")), ("userFacingVersion", JsonValue::from("434:917")), ("visible", JsonValue::from(true))]);

    remove_user_facing_versions(&mut tree).unwrap();

    assert!(tree.get("userFacingVersion").is_none());
    assert_eq!(tree.get("name").unwrap().as_str(), Some("Component"));
    assert_eq!(tree.get("type").unwrap().as_str(), Some("INSTANCE"));
    assert_eq!(tree.get("visible").unwrap().as_bool(), Some(true));
}

#[test]
fn test_remove_user_facing_version_different_formats() {
    let mut tree = obj(vec![("items", arr(vec![obj(vec![("userFacingVersion", JsonValue::from("1:10")), ("name", JsonValue::from("Item1"))]), obj(vec![("userFacingVersion", JsonValue::from("6:99485")), ("name", JsonValue::from("Item2"))]), obj(vec![("userFacingVersion", JsonValue::from("8185:4")), ("name", JsonValue::from("Item3"))])]))]);

    remove_user_facing_versions(&mut tree).unwrap();

    assert!(tree["items"][0].get("userFacingVersion").is_none());
    assert!(tree["items"][1].get("userFacingVersion").is_none());
    assert!(tree["items"][2].get("userFacingVersion").is_none());
    assert_eq!(tree["items"][0]["name"].as_str(), Some("Item1"));
    assert_eq!(tree["items"][1]["name"].as_str(), Some("Item2"));
    assert_eq!(tree["items"][2]["name"].as_str(), Some("Item3"));
}

#[test]
fn test_remove_user_facing_version_nested() {
    let mut tree = obj(vec![("name", JsonValue::from("Root")), ("userFacingVersion", JsonValue::from("1:1")), ("children", arr(vec![obj(vec![("name", JsonValue::from("Child1")), ("userFacingVersion", JsonValue::from("2:5"))]), obj(vec![("name", JsonValue::from("Child2")), ("userFacingVersion", JsonValue::from("3:10"))])]))]);

    remove_user_facing_versions(&mut tree).unwrap();

    assert!(tree.get("userFacingVersion").is_none());
    assert!(tree["children"][0].get("userFacingVersion").is_none());
    assert!(tree["children"][1].get("userFacingVersion").is_none());
    assert_eq!(tree.get("name").unwrap().as_str(), Some("Root"));
    assert_eq!(tree["children"][0]["name"].as_str(), Some("Child1"));
    assert_eq!(tree["children"][1]["name"].as_str(), Some("Child2"));
}

#[test]
fn test_remove_user_facing_version_deeply_nested() {
    let mut tree = obj(vec![("document", obj(vec![("userFacingVersion", JsonValue::from("1:1")), ("children", arr(vec![obj(vec![("userFacingVersion", JsonValue::from("2:1")), ("children", arr(vec![obj(vec![("userFacingVersion", JsonValue::from("3:1")), ("name", JsonValue::from("DeepChild"))])]))])]))]))]);

    remove_user_facing_versions(&mut tree).unwrap();

    assert!(tree["document"].get("userFacingVersion").is_none());
    assert!(tree["document"]["children"][0]
        .get("userFacingVersion")
        .is_none());
    assert!(tree["document"]["children"][0]["children"][0]
        .get("userFacingVersion")
        .is_none());
    assert_eq!(
        tree["document"]["children"][0]["children"][0]
            .get("name")
            .unwrap()
            .as_str(),
        Some("DeepChild")
    );
}

#[test]
fn test_remove_user_facing_version_missing() {
    let mut tree = obj(vec![("name", JsonValue::from("Frame")), ("type", JsonValue::from("FRAME")), ("visible", JsonValue::from(true))]);

    remove_user_facing_versions(&mut tree).unwrap();

    assert!(tree.get("userFacingVersion").is_none());
    assert_eq!(tree.get("name").unwrap().as_str(), Some("Frame"));
    assert_eq!(tree.get("type").unwrap().as_str(), Some("FRAME"));
    assert_eq!(tree.get("visible").unwrap().as_bool(), Some(true));
}

#[test]
fn test_remove_user_facing_version_preserves_other_fields() {
    let mut tree = obj(vec![("name", JsonValue::from("Instance")), ("type", JsonValue::from("INSTANCE")), ("userFacingVersion", JsonValue::from("1000:5000")), ("size", obj(vec![("x", JsonValue::from(100)), ("y", JsonValue::from(200))])), ("opacity", JsonValue::from(0.8)), ("visible", JsonValue::from(true))]);

    remove_user_facing_versions(&mut tree).unwrap();

    assert!(tree.get("userFacingVersion").is_none());
    assert_eq!(tree.get("name").unwrap().as_str(), Some("Instance"));
    assert_eq!(tree.get("type").unwrap().as_str(), Some("INSTANCE"));
    assert_eq!(tree["size"]["x"].as_i64(), Some(100));
    assert_eq!(tree.get("opacity").unwrap().as_f64(), Some(0.8));
    assert_eq!(tree.get("visible").unwrap().as_bool(), Some(true));
}

#[test]
fn test_remove_user_facing_version_in_arrays() {
    let mut tree = obj(vec![("instances", arr(vec![obj(vec![("userFacingVersion", JsonValue::from("1:1")), ("name", JsonValue::from("Instance1"))]), obj(vec![("userFacingVersion", JsonValue::from("2:2")), ("name", JsonValue::from("Instance2"))])]))]);

    remove_user_facing_versions(&mut tree).unwrap();

    assert!(tree["instances"][0].get("userFacingVersion").is_none());
    assert_eq!(
        tree["instances"][0].get("name").unwrap().as_str(),
        Some("Instance1")
    );
    assert!(tree["instances"][1].get("userFacingVersion").is_none());
    assert_eq!(
        tree["instances"][1].get("name").unwrap().as_str(),
        Some("Instance2")
    );
}

#[test]
fn test_remove_user_facing_version_empty_object() {
    let mut tree = obj(vec![]);

    remove_user_facing_versions(&mut tree).unwrap();

    assert_eq!(tree.as_object().unwrap().len(), 0);
}

#[test]
fn test_remove_user_facing_version_primitives() {
    let mut tree = JsonValue::from("test");

    remove_user_facing_versions(&mut tree).unwrap();

    assert_eq!(tree.as_str(), Some("test"));
}

#[test]
fn test_remove_user_facing_version_mixed_nodes() {
    let mut tree = obj(vec![("children", arr(vec![obj(vec![("name", JsonValue::from("WithVersion")), ("userFacingVersion", JsonValue::from("1:1"))]), obj(vec![("name", JsonValue::from("WithoutVersion"))]), obj(vec![("name", JsonValue::from("AlsoWithVersion")), ("userFacingVersion", JsonValue::from("2:2"))])]))]);

    remove_user_facing_versions(&mut tree).unwrap();

    assert!(tree["children"][0].get("userFacingVersion").is_none());
    assert!(tree["children"][1].get("userFacingVersion").is_none());
    assert!(tree["children"][2].get("userFacingVersion").is_none());
    assert_eq!(tree["children"][0]["name"].as_str(), Some("WithVersion"));
    assert_eq!(tree["children"][1]["name"].as_str(), Some("WithoutVersion"));
    assert_eq!(tree["children"][2]["name"].as_str(), Some("AlsoWithVersion"));
}
