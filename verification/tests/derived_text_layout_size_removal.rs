use fig2json::error::FigError;
use fig2json::transform;
use serde_json::Value as JsonValue;
use fig2json::json::{Json, JsonNumber};

fn to_lib(v: &serde_json::Value) -> Json {
    match v {
        serde_json::Value::Null => Json::Null,
        serde_json::Value::Bool(b) => Json::Bool(*b),
        serde_json::Value::Number(n) => {
            if let Some(u) = n.as_u64() {
                Json::Number(JsonNumber::PosInt(u))
            } else if let Some(i) = n.as_i64() {
                Json::Number(JsonNumber::NegInt(i))
            } else {
                Json::Number(JsonNumber::Float(n.as_f64().unwrap().to_bits()))
            }
        }
        serde_json::Value::String(s) => Json::Str(s.clone()),
        serde_json::Value::Array(a) => Json::Array(a.iter().map(to_lib).collect()),
        serde_json::Value::Object(m) => {
            Json::Object(m.iter().map(|(k, x)| (k.clone(), to_lib(x))).collect())
        }
    }
}

fn from_lib(j: &Json) -> serde_json::Value {
    match j {
        Json::Null => serde_json::Value::Null,
        Json::Bool(b) => serde_json::Value::Bool(*b),
        Json::Number(JsonNumber::PosInt(u)) => serde_json::Value::from(*u),
        Json::Number(JsonNumber::NegInt(i)) => serde_json::Value::from(*i),
        Json::Number(JsonNumber::Float(b)) => serde_json::Number::from_f64(f64::from_bits(*b))
            .map(serde_json::Value::Number)
            .unwrap_or(serde_json::Value::Null),
        Json::Str(s) => serde_json::Value::String(s.clone()),
        Json::Array(a) => serde_json::Value::Array(a.iter().map(from_lib).collect()),
        Json::Object(es) => {
            let mut m = serde_json::Map::new();
            for (k, x) in es {
                m.insert(k.clone(), from_lib(x));
            }
            serde_json::Value::Object(m)
        }
    }
}

fn parse(text: &str) -> serde_json::Value {
    serde_json::from_str(text).unwrap()
}

fn obj(entries: Vec<(&str, JsonValue)>) -> JsonValue {
    let mut m = serde_json::Map::new();
    for (k, v) in entries {
        m.insert(k.to_string(), v);
    }
    JsonValue::Object(m)
}

fn arr(items: Vec<JsonValue>) -> JsonValue {
    JsonValue::Array(items)
}

fn remove_derived_text_layout_size(tree: &mut JsonValue) -> Result<(), FigError> {
    let mut j = to_lib(tree);
    let r = transform::remove_derived_text_layout_size(&mut j);
    *tree = from_lib(&j);
    r
}

#[test]
fn test_remove_layout_size() {
    let mut tree = obj(vec![("name", JsonValue::from("Text")), ("derivedTextData", obj(vec![("layoutSize", obj(vec![("x", JsonValue::from(100.0)), ("y", JsonValue::from(50.0))])), ("otherInfo", JsonValue::from("test"))])), ("size", obj(vec![("x", JsonValue::from(100.0)), ("y", JsonValue::from(50.0))]))]);

    remove_derived_text_layout_size(&mut tree).unwrap();

    let derived_text_data = tree.get("derivedTextData").unwrap();
    assert!(derived_text_data.get("layoutSize").is_none());
    assert_eq!(
        derived_text_data.get("otherInfo").unwrap().as_str(),
        Some("test")
    );
    // size field should be preserved
    assert!(tree.get("size").is_some());
}

#[test]
fn derived_text_layout_size_removal_test_preserve_other_fields() {
    let mut tree = obj(vec![("name", JsonValue::from("Text")), ("derivedTextData", obj(vec![("layoutSize", obj(vec![("x", JsonValue::from(200.0)), ("y", JsonValue::from(100.0))])), ("fontFamily", JsonValue::from("Arial")), ("fontSize", JsonValue::from(16.0))]))]);

    remove_derived_text_layout_size(&mut tree).unwrap();

    let derived_text_data = tree.get("derivedTextData").unwrap();
    assert!(derived_text_data.get("layoutSize").is_none());
    assert_eq!(
        derived_text_data.get("fontFamily").unwrap().as_str(),
        Some("Arial")
    );
    assert_eq!(
        derived_text_data.get("fontSize").unwrap().as_f64(),
        Some(16.0)
    );
}

#[test]
fn test_no_layout_size() {
    let mut tree = obj(vec![("name", JsonValue::from("Text")), ("derivedTextData", obj(vec![("fontFamily", JsonValue::from("Helvetica")), ("fontSize", JsonValue::from(14.0))]))]);

    remove_derived_text_layout_size(&mut tree).unwrap();

    let derived_text_data = tree.get("derivedTextData").unwrap();
    // derivedTextData without layoutSize should be unchanged
    assert!(derived_text_data.get("layoutSize").is_none());
    assert_eq!(
        derived_text_data.get("fontFamily").unwrap().as_str(),
        Some("Helvetica")
    );
}

#[test]
fn derived_text_layout_size_removal_test_no_derived_text_data() {
    let mut tree = obj(vec![("name", JsonValue::from("Rectangle")), ("width", JsonValue::from(100)), ("height", JsonValue::from(200))]);

    remove_derived_text_layout_size(&mut tree).unwrap();

    // Tree without derivedTextData should be unchanged
    assert_eq!(tree.get("name").unwrap().as_str(), Some("Rectangle"));
    assert_eq!(tree.get("width").unwrap().as_i64(), Some(100));
    assert!(tree.get("derivedTextData").is_none());
}

#[test]
fn derived_text_layout_size_removal_test_nested_objects() {
    let mut tree = obj(vec![("children", arr(vec![obj(vec![("name", JsonValue::from("Text1")), ("derivedTextData", obj(vec![("layoutSize", obj(vec![("x", JsonValue::from(50.0)), ("y", JsonValue::from(25.0))])), ("info1", JsonValue::from("data1"))]))]), obj(vec![("name", JsonValue::from("Text2")), ("derivedTextData", obj(vec![("layoutSize", obj(vec![("x", JsonValue::from(60.0)), ("y", JsonValue::from(30.0))])), ("info2", JsonValue::from("data2"))]))])]))]);

    remove_derived_text_layout_size(&mut tree).unwrap();

    // Both layoutSize fields should be removed
    assert!(tree["children"][0]["derivedTextData"]
        .get("layoutSize")
        .is_none());
    assert_eq!(
        tree["children"][0]["derivedTextData"]["info1"].as_str(),
        Some("data1")
    );

    assert!(tree["children"][1]["derivedTextData"]
        .get("layoutSize")
        .is_none());
    assert_eq!(
        tree["children"][1]["derivedTextData"]["info2"].as_str(),
        Some("data2")
    );
}

#[test]
fn derived_text_layout_size_removal_test_deeply_nested() {
    let mut tree = obj(vec![("document", obj(vec![("children", arr(vec![obj(vec![("type", JsonValue::from("TEXT")), ("derivedTextData", obj(vec![("layoutSize", obj(vec![("x", JsonValue::from(300.0)), ("y", JsonValue::from(150.0))])), ("characters", JsonValue::from("Hello"))]))])]))]))]);

    remove_derived_text_layout_size(&mut tree).unwrap();

    let derived_text_data = &tree["document"]["children"][0]["derivedTextData"];
    assert!(derived_text_data.get("layoutSize").is_none());
    assert_eq!(derived_text_data["characters"].as_str(), Some("Hello"));
}

#[test]
fn derived_text_layout_size_removal_test_empty_derived_text_data() {
    let mut tree = obj(vec![("name", JsonValue::from("Text")), ("derivedTextData", obj(vec![]))]);

    remove_derived_text_layout_size(&mut tree).unwrap();

    let derived_text_data = tree.get("derivedTextData").unwrap();
    // Empty derivedTextData should remain empty
    assert!(derived_text_data.as_object().unwrap().is_empty());
}

#[test]
fn test_layout_size_outside_derived_text_data() {
    let mut tree = obj(vec![("name", JsonValue::from("Node")), ("layoutSize", obj(vec![("x", JsonValue::from(100.0)), ("y", JsonValue::from(100.0))])), ("derivedTextData", obj(vec![("layoutSize", obj(vec![("x", JsonValue::from(50.0)), ("y", JsonValue::from(50.0))]))]))]);

    remove_derived_text_layout_size(&mut tree).unwrap();

    // layoutSize outside derivedTextData should be preserved
    assert!(tree.get("layoutSize").is_some());
    assert_eq!(tree["layoutSize"]["x"].as_f64(), Some(100.0));

    // layoutSize inside derivedTextData should be removed
    assert!(tree["derivedTextData"].get("layoutSize").is_none());
}
