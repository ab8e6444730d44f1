use fig2json::error::FigError;
use fig2json::transform;
use serde_json::Value as JsonValue;
use fig2json::json::{Json, JsonNumber};

fn to_lib(v: &serde_json::Value) -> Json {
    match v {
        serde_json::Value::Null => Json::Null,
        serde_json::Value::Bool(b) => Json::Bool(*b),
        serde_json::Value::Number(n) => {
            if let Some(u) = n.as_u64() {
                Json::Number(JsonNumber::PosInt(u))
            } else if let Some(i) = n.as_i64() {
                Json::Number(JsonNumber::NegInt(i))
            } else {
                Json::Number(JsonNumber::Float(n.as_f64().unwrap().to_bits()))
            }
        }
        serde_json::Value::String(s) => Json::Str(s.clone()),
        serde_json::Value::Array(a) => Json::Array(a.iter().map(to_lib).collect()),
        serde_json::Value::Object(m) => {
            Json::Object(m.iter().map(|(k, x)| (k.clone(), to_lib(x))).collect())
        }
    }
}

fn from_lib(j: &Json) -> serde_json::Value {
    match j {
        Json::Null => serde_json::Value::Null,
        Json::Bool(b) => serde_json::Value::Bool(*b),
        Json::Number(JsonNumber::PosInt(u)) => serde_json::Value::from(*u),
        Json::Number(JsonNumber::NegInt(i)) => serde_json::Value::from(*i),
        Json::Number(JsonNumber::Float(b)) => serde_json::Number::from_f64(f64::from_bits(*b))
            .map(serde_json::Value::Number)
            .unwrap_or(serde_json::Value::Null),
        Json::Str(s) => serde_json::Value::String(s.clone()),
        Json::Array(a) => serde_json::Value::Array(a.iter().map(from_lib).collect()),
        Json::Object(es) => {
            let mut m = serde_json::Map::new();
            for (k, x) in es {
                m.insert(k.clone(), from_lib(x));
            }
            serde_json::Value::Object(m)
        }
    }
}

fn parse(text: &str) -> serde_json::Value {
    serde_json::from_str(text).unwrap()
}

fn obj(entries: Vec<(&str, JsonValue)>) -> JsonValue {
    let mut m = serde_json::Map::new();
    for (k, v) in entries {
        m.insert(k.to_string(), v);
    }
    JsonValue::Object(m)
}

fn arr(items: Vec<JsonValue>) -> JsonValue {
    JsonValue::Array(items)
}

fn remove_root_metadata(tree: &mut JsonValue) -> Result<(), FigError> {
    let mut j = to_lib(tree);
    let r = transform::remove_root_metadata(&mut j);
    *tree = from_lib(&j);
    r
}

#[test]
fn test_remove_version_and_file_type() {
    let mut output = obj(vec![("version", JsonValue::from(101)), ("fileType", JsonValue::from("figma")), ("document", obj(vec![("name", JsonValue::from("Root")), ("children", arr(vec![]))]))]);

    remove_root_metadata(&mut output).unwrap();

    // version and fileType should be removed
    assert!(output.get("version").is_none());
    assert!(output.get("fileType").is_none());

    // document should be preserved
    assert!(output.get("document").is_some());
    assert_eq!(
        output.get("document").unwrap().get("name").unwrap().as_str(),
        Some("Root")
    );
}

#[test]
fn test_remove_only_version() {
    let mut output = obj(vec![("version", JsonValue::from(101)), ("document", obj(vec![("name", JsonValue::from("Root"))]))]);

    remove_root_metadata(&mut output).unwrap();

    // version should be removed
    assert!(output.get("version").is_none());

    // document should be preserved
    assert!(output.get("document").is_some());
}

#[test]
fn test_remove_only_file_type() {
    let mut output = obj(vec![("fileType", JsonValue::from("figjam")), ("document", obj(vec![("name", JsonValue::from("Board"))]))]);

    remove_root_metadata(&mut output).unwrap();

    // fileType should be removed
    assert!(output.get("fileType").is_none());

    // document should be preserved
    assert!(output.get("document").is_some());
}

#[test]
fn test_already_missing() {
    let mut output = obj(vec![("document", obj(vec![("name", JsonValue::from("Document"))]))]);

    // Should not fail if version and fileType are already missing
    remove_root_metadata(&mut output).unwrap();

    assert!(output.get("version").is_none());
    assert!(output.get("fileType").is_none());
    assert!(output.get("document").is_some());
}

#[test]
fn test_preserves_other_root_fields() {
    let mut output = obj(vec![("version", JsonValue::from(101)), ("fileType", JsonValue::from("figma")), ("document", obj(vec![("name", JsonValue::from("Document"))])), ("metadata", obj(vec![("custom", JsonValue::from("field"))])), ("otherData", arr(vec![JsonValue::from(1), JsonValue::from(2), JsonValue::from(3)]))]);

    remove_root_metadata(&mut output).unwrap();

    // Only version and fileType should be removed
    assert!(output.get("version").is_none());
    assert!(output.get("fileType").is_none());

    // All other fields preserved
    assert!(output.get("document").is_some());
    assert!(output.get("metadata").is_some());
    assert!(output.get("otherData").is_some());
    assert_eq!(
        output.get("metadata").unwrap().get("custom").unwrap().as_str(),
        Some("field")
    );
}

#[test]
fn test_preserves_nested_version_and_file_type() {
    let mut output = obj(vec![("version", JsonValue::from(101)), ("fileType", JsonValue::from("figma")), ("document", obj(vec![("name", JsonValue::from("Document")), ("version", JsonValue::from(2)), ("metadata", obj(vec![("fileType", JsonValue::from("custom"))]))]))]);

    remove_root_metadata(&mut output).unwrap();

    // Root-level version and fileType removed
    assert!(output.get("version").is_none());
    assert!(output.get("fileType").is_none());

    // Nested version and fileType preserved
    assert_eq!(
        output["document"].get("version").unwrap().as_i64(),
        Some(2)
    );
    assert_eq!(
        output["document"]["metadata"]
            .get("fileType")
            .unwrap()
            .as_str(),
        Some("custom")
    );
}

#[test]
fn test_different_version_values() {
    let versions = vec![48, 50, 101, 999];

    for version in versions {
        let mut output = obj(vec![("version", JsonValue::from(version)), ("document", obj(vec![]))]);

        remove_root_metadata(&mut output).unwrap();

        // All version values should be removed
        assert!(output.get("version").is_none());
    }
}

#[test]
fn test_different_file_types() {
    let file_types = vec!["figma", "figjam", "whiteboard"];

    for file_type in file_types {
        let mut output = obj(vec![("fileType", JsonValue::from(file_type)), ("document", obj(vec![]))]);

        remove_root_metadata(&mut output).unwrap();

        // All fileType values should be removed
        assert!(output.get("fileType").is_none());
    }
}

#[test]
fn test_not_an_object() {
    let mut output = arr(vec![JsonValue::from(1), JsonValue::from(2), JsonValue::from(3)]);

    // Should not fail on non-object input
    remove_root_metadata(&mut output).unwrap();

    // Array should remain unchanged
    assert_eq!(output.as_array().unwrap().len(), 3);
}

#[test]
fn root_metadata_removal_test_empty_object() {
    let mut output = obj(vec![]);

    remove_root_metadata(&mut output).unwrap();

    // Empty object should remain empty
    assert_eq!(output.as_object().unwrap().len(), 0);
}

#[test]
fn test_string_primitive() {
    let mut output = JsonValue::from("document");

    // Should not fail on primitive input
    remove_root_metadata(&mut output).unwrap();

    // String should remain unchanged
    assert_eq!(output.as_str(), Some("document"));
}
