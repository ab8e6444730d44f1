use fig2json::error::FigError;
use fig2json::transform;
use serde_json::Value as JsonValue;
use fig2json::json::{Json, JsonNumber};

fn to_lib(v: &serde_json::Value) -> Json {
    match v {
        serde_json::Value::Null => Json::Null,
        serde_json::Value::Bool(b) => Json::Bool(*b),
        serde_json::Value::Number(n) => {
            if let Some(u) = n.as_u64() {
                Json::Number(JsonNumber::PosInt(u))
            } else if let Some(i) = n.as_i64() {
                Json::Number(JsonNumber::NegInt(i))
            } else {
                Json::Number(JsonNumber::Float(n.as_f64().unwrap().to_bits()))
            }
        }
        serde_json::Value::String(s) => Json::Str(s.clone()),
        serde_json::Value::Array(a) => Json::Array(a.iter().map(to_lib).collect()),
        serde_json::Value::Object(m) => {
            Json::Object(m.iter().map(|(k, x)| (k.clone(), to_lib(x))).collect())
        }
    }
}

fn from_lib(j: &Json) -> serde_json::Value {
    match j {
        Json::Null => serde_json::Value::Null,
        Json::Bool(b) => serde_json::Value::Bool(*b),
        Json::Number(JsonNumber::PosInt(u)) => serde_json::Value::from(*u),
        Json::Number(JsonNumber::NegInt(i)) => serde_json::Value::from(*i),
        Json::Number(JsonNumber::Float(b)) => serde_json::Number::from_f64(f64::from_bits(*b))
            .map(serde_json::Value::Number)
            .unwrap_or(serde_json::Value::Null),
        Json::Str(s) => serde_json::Value::String(s.clone()),
        Json::Array(a) => serde_json::Value::Array(a.iter().map(from_lib).collect()),
        Json::Object(es) => {
            let mut m = serde_json::Map::new();
            for (k, x) in es {
                m.insert(k.clone(), from_lib(x));
            }
            serde_json::Value::Object(m)
        }
    }
}

fn parse(text: &str) -> serde_json::Value {
    serde_json::from_str(text).unwrap()
}

fn obj(entries: Vec<(&str, JsonValue)>) -> JsonValue {
    let mut m = serde_json::Map::new();
    for (k, v) in entries {
        m.insert(k.to_string(), v);
    }
    JsonValue::Object(m)
}

fn arr(items: Vec<JsonValue>) -> JsonValue {
    JsonValue::Array(items)
}

fn remove_document_properties(tree: &mut JsonValue) -> Result<(), FigError> {
    let mut j = to_lib(tree);
    let r = transform::remove_document_properties(&mut j);
    *tree = from_lib(&j);
    r
}

#[test]
fn test_remove_document_color_profile() {
    let mut tree = obj(vec![("name", JsonValue::from("Document")), ("documentColorProfile", obj(vec![("__enum__", JsonValue::from("DocumentColorProfile")), ("value", JsonValue::from("SRGB"))])), ("children", arr(vec![]))]);

    remove_document_properties(&mut tree).unwrap();

    assert!(tree.get("documentColorProfile").is_none());
    assert_eq!(tree.get("name").unwrap().as_str(), Some("Document"));
    assert!(tree.get("children").is_some());
}

#[test]
fn test_remove_document_color_profile_nested() {
    let mut tree = obj(vec![("document", obj(vec![("name", JsonValue::from("Document")), ("documentColorProfile", obj(vec![("__enum__", JsonValue::from("DocumentColorProfile")), ("value", JsonValue::from("SRGB"))])), ("children", arr(vec![obj(vec![("name", JsonValue::from("Canvas")), ("documentColorProfile", obj(vec![("__enum__", JsonValue::from("DocumentColorProfile")), ("value", JsonValue::from("DISPLAY_P3"))]))])]))]))]);

    remove_document_properties(&mut tree).unwrap();

    // Root document color profile should be removed
    assert!(tree["document"].get("documentColorProfile").is_none());
    assert_eq!(
        tree["document"].get("name").unwrap().as_str(),
        Some("Document")
    );

    // Nested color profile should be removed
    assert!(tree["document"]["children"][0]
        .get("documentColorProfile")
        .is_none());
    assert_eq!(
        tree["document"]["children"][0].get("name").unwrap().as_str(),
        Some("Canvas")
    );
}

#[test]
fn test_no_document_properties() {
    let mut tree = obj(vec![("document", obj(vec![("name", JsonValue::from("Document")), ("children", arr(vec![]))]))]);

    remove_document_properties(&mut tree).unwrap();

    // Tree without document properties should be unchanged
    assert_eq!(
        tree["document"].get("name").unwrap().as_str(),
        Some("Document")
    );
    assert!(tree["document"].get("children").is_some());
    assert!(tree["document"].get("documentColorProfile").is_none());
}

#[test]
fn document_properties_removal_test_preserves_other_fields() {
    let mut tree = obj(vec![("document", obj(vec![("name", JsonValue::from("Document")), ("documentColorProfile", obj(vec![("__enum__", JsonValue::from("DocumentColorProfile")), ("value", JsonValue::from("SRGB"))])), ("type", JsonValue::from("DOCUMENT")), ("opacity", JsonValue::from(1.0)), ("visible", JsonValue::from(true))]))]);

    remove_document_properties(&mut tree).unwrap();

    // Only documentColorProfile should be removed
    assert!(tree["document"].get("documentColorProfile").is_none());

    // All other fields preserved
    assert_eq!(
        tree["document"].get("name").unwrap().as_str(),
        Some("Document")
    );
    assert_eq!(
        tree["document"].get("type").unwrap().as_str(),
        Some("DOCUMENT")
    );
    assert_eq!(tree["document"].get("opacity").unwrap().as_f64(), Some(1.0));
    assert_eq!(
        tree["document"].get("visible").unwrap().as_bool(),
        Some(true)
    );
}

#[test]
fn test_different_color_profile_values() {
    let mut tree = obj(vec![("doc1", obj(vec![("documentColorProfile", obj(vec![("__enum__", JsonValue::from("DocumentColorProfile")), ("value", JsonValue::from("SRGB"))]))])), ("doc2", obj(vec![("documentColorProfile", obj(vec![("__enum__", JsonValue::from("DocumentColorProfile")), ("value", JsonValue::from("DISPLAY_P3"))]))])), ("doc3", obj(vec![("documentColorProfile", obj(vec![("__enum__", JsonValue::from("DocumentColorProfile")), ("value", JsonValue::from("UNMANAGED"))]))]))]);

    remove_document_properties(&mut tree).unwrap();

    // All variations of documentColorProfile should be removed
    assert!(tree["doc1"].get("documentColorProfile").is_none());
    assert!(tree["doc2"].get("documentColorProfile").is_none());
    assert!(tree["doc3"].get("documentColorProfile").is_none());
}

#[test]
fn test_deeply_nested_color_profile() {
    let mut tree = obj(vec![("root", obj(vec![("children", arr(vec![obj(vec![("children", arr(vec![obj(vec![("documentColorProfile", obj(vec![("__enum__", JsonValue::from("DocumentColorProfile")), ("value", JsonValue::from("SRGB"))])), ("name", JsonValue::from("DeepNode"))])]))])]))]))]);

    remove_document_properties(&mut tree).unwrap();

    // Deeply nested color profile should be removed
    assert!(tree["root"]["children"][0]["children"][0]
        .get("documentColorProfile")
        .is_none());
    assert_eq!(
        tree["root"]["children"][0]["children"][0]
            .get("name")
            .unwrap()
            .as_str(),
        Some("DeepNode")
    );
}

#[test]
fn test_multiple_documents() {
    let mut tree = obj(vec![("documents", arr(vec![obj(vec![("name", JsonValue::from("Doc1")), ("documentColorProfile", obj(vec![("__enum__", JsonValue::from("DocumentColorProfile")), ("value", JsonValue::from("SRGB"))]))]), obj(vec![("name", JsonValue::from("Doc2")), ("documentColorProfile", obj(vec![("__enum__", JsonValue::from("DocumentColorProfile")), ("value", JsonValue::from("DISPLAY_P3"))]))])]))]);

    remove_document_properties(&mut tree).unwrap();

    // All color profiles in array should be removed
    assert!(tree["documents"][0].get("documentColorProfile").is_none());
    assert_eq!(
        tree["documents"][0].get("name").unwrap().as_str(),
        Some("Doc1")
    );

    assert!(tree["documents"][1].get("documentColorProfile").is_none());
    assert_eq!(
        tree["documents"][1].get("name").unwrap().as_str(),
        Some("Doc2")
    );
}

#[test]
fn document_properties_removal_test_empty_object() {
    let mut tree = obj(vec![]);

    remove_document_properties(&mut tree).unwrap();

    // Empty object should remain empty
    assert_eq!(tree.as_object().unwrap().len(), 0);
}

#[test]
fn test_primitives() {
    let mut tree = JsonValue::from("document");

    remove_document_properties(&mut tree).unwrap();

    // Primitive values should be unchanged
    assert_eq!(tree.as_str(), Some("document"));
}
