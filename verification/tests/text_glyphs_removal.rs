use fig2json::error::FigError;
use fig2json::transform;
use serde_json::Value as JsonValue;
use fig2json::json::{Json, JsonNumber};

fn to_lib(v: &serde_json::Value) -> Json {
    match v {
        serde_json::Value::Null => Json::Null,
        serde_json::Value::Bool(b) => Json::Bool(*b),
        serde_json::Value::Number(n) => {
            if let Some(u) = n.as_u64() {
                Json::Number(JsonNumber::PosInt(u))
            } else if let Some(i) = n.as_i64() {
                Json::Number(JsonNumber::NegInt(i))
            } else {
                Json::Number(JsonNumber::Float(n.as_f64().unwrap().to_bits()))
            }
        }
        serde_json::Value::String(s) => Json::Str(s.clone()),
        serde_json::Value::Array(a) => Json::Array(a.iter().map(to_lib).collect()),
        serde_json::Value::Object(m) => {
            Json::Object(m.iter().map(|(k, x)| (k.clone(), to_lib(x))).collect())
        }
    }
}

fn from_lib(j: &Json) -> serde_json::Value {
    match j {
        Json::Null => serde_json::Value::Null,
        Json::Bool(b) => serde_json::Value::Bool(*b),
        Json::Number(JsonNumber::PosInt(u)) => serde_json::Value::from(*u),
        Json::Number(JsonNumber::NegInt(i)) => serde_json::Value::from(*i),
        Json::Number(JsonNumber::Float(b)) => serde_json::Number::from_f64(f64::from_bits(*b))
            .map(serde_json::Value::Number)
            .unwrap_or(serde_json::Value::Null),
        Json::Str(s) => serde_json::Value::String(s.clone()),
        Json::Array(a) => serde_json::Value::Array(a.iter().map(from_lib).collect()),
        Json::Object(es) => {
            let mut m = serde_json::Map::new();
            for (k, x) in es {
                m.insert(k.clone(), from_lib(x));
            }
            serde_json::Value::Object(m)
        }
    }
}

fn parse(text: &str) -> serde_json::Value {
    serde_json::from_str(text).unwrap()
}

fn obj(entries: Vec<(&str, JsonValue)>) -> JsonValue {
    let mut m = serde_json::Map::new();
    for (k, v) in entries {
        m.insert(k.to_string(), v);
    }
    JsonValue::Object(m)
}

fn arr(items: Vec<JsonValue>) -> JsonValue {
    JsonValue::Array(items)
}

fn remove_text_glyphs(tree: &mut JsonValue) -> Result<(), FigError> {
    let mut j = to_lib(tree);
    let r = transform::remove_text_glyphs(&mut j);
    *tree = from_lib(&j);
    r
}

#[test]
fn test_remove_glyphs_from_derived_text_data() {
    let mut tree = obj(vec![("name", JsonValue::from("Text")), ("derivedTextData", obj(vec![("glyphs", arr(vec![obj(vec![("advance", JsonValue::from(0.74)), ("commands", arr(vec![JsonValue::from("Z"), JsonValue::from("M"), JsonValue::from("L"), JsonValue::from("Q")]))]), obj(vec![("advance", JsonValue::from(0.82)), ("commands", arr(vec![JsonValue::from("M"), JsonValue::from("L")]))])])), ("layoutInfo", obj(vec![("width", JsonValue::from(100)), ("height", JsonValue::from(20))]))]))]);

    remove_text_glyphs(&mut tree).unwrap();

    let derived_text_data = tree.get("derivedTextData").unwrap();
    assert!(derived_text_data.get("glyphs").is_none());
    assert!(derived_text_data.get("layoutInfo").is_some());
}

#[test]
fn text_glyphs_removal_test_preserve_other_fields() {
    let mut tree = obj(vec![("name", JsonValue::from("TextNode")), ("visible", JsonValue::from(true)), ("derivedTextData", obj(vec![("glyphs", arr(vec![obj(vec![("advance", JsonValue::from(0.5)), ("commands", arr(vec![JsonValue::from("M"), JsonValue::from("Z")]))])])), ("layoutInfo", obj(vec![("baseline", JsonValue::from(12))])), ("fontFamily", JsonValue::from("Arial")), ("fontSize", JsonValue::from(14))])), ("x", JsonValue::from(10)), ("y", JsonValue::from(20))]);

    remove_text_glyphs(&mut tree).unwrap();

    // Check that non-derivedTextData fields are preserved
    assert_eq!(tree.get("name").unwrap().as_str(), Some("TextNode"));
    assert_eq!(tree.get("visible").unwrap().as_bool(), Some(true));
    assert_eq!(tree.get("x").unwrap().as_i64(), Some(10));
    assert_eq!(tree.get("y").unwrap().as_i64(), Some(20));

    // Check that derivedTextData preserves all fields except glyphs
    let derived_text_data = tree.get("derivedTextData").unwrap();
    assert!(derived_text_data.get("glyphs").is_none());
    assert_eq!(
        derived_text_data.get("layoutInfo").unwrap().get("baseline").unwrap().as_i64(),
        Some(12)
    );
    assert_eq!(
        derived_text_data.get("fontFamily").unwrap().as_str(),
        Some("Arial")
    );
    assert_eq!(
        derived_text_data.get("fontSize").unwrap().as_i64(),
        Some(14)
    );
}

#[test]
fn text_glyphs_removal_test_nested_objects() {
    let mut tree = obj(vec![("name", JsonValue::from("Root")), ("children", arr(vec![obj(vec![("name", JsonValue::from("Child1")), ("derivedTextData", obj(vec![("glyphs", arr(vec![obj(vec![("advance", JsonValue::from(0.6))])])), ("data", JsonValue::from("keep"))]))]), obj(vec![("name", JsonValue::from("Child2")), ("children", arr(vec![obj(vec![("name", JsonValue::from("DeepChild")), ("derivedTextData", obj(vec![("glyphs", arr(vec![obj(vec![("advance", JsonValue::from(0.8))])])), ("info", JsonValue::from("preserve"))]))])]))])]))]);

    remove_text_glyphs(&mut tree).unwrap();

    // Check first nested derivedTextData
    let child1_data = &tree["children"][0]["derivedTextData"];
    assert!(child1_data.get("glyphs").is_none());
    assert_eq!(child1_data.get("data").unwrap().as_str(), Some("keep"));

    // Check deeply nested derivedTextData
    let deep_child_data = &tree["children"][1]["children"][0]["derivedTextData"];
    assert!(deep_child_data.get("glyphs").is_none());
    assert_eq!(deep_child_data.get("info").unwrap().as_str(), Some("preserve"));
}

#[test]
fn test_no_glyphs_field() {
    let mut tree = obj(vec![("name", JsonValue::from("Text")), ("derivedTextData", obj(vec![("layoutInfo", obj(vec![("width", JsonValue::from(100))])), ("fontFamily", JsonValue::from("Helvetica"))]))]);

    remove_text_glyphs(&mut tree).unwrap();

    // derivedTextData without glyphs should be unchanged
    let derived_text_data = tree.get("derivedTextData").unwrap();
    assert!(derived_text_data.get("glyphs").is_none());
    assert!(derived_text_data.get("layoutInfo").is_some());
    assert_eq!(
        derived_text_data.get("fontFamily").unwrap().as_str(),
        Some("Helvetica")
    );
}

#[test]
fn text_glyphs_removal_test_no_derived_text_data() {
    let mut tree = obj(vec![("name", JsonValue::from("Rectangle")), ("width", JsonValue::from(100)), ("height", JsonValue::from(200)), ("fills", arr(vec![]))]);

    remove_text_glyphs(&mut tree).unwrap();

    // Tree without derivedTextData should be unchanged
    assert_eq!(tree.get("name").unwrap().as_str(), Some("Rectangle"));
    assert_eq!(tree.get("width").unwrap().as_i64(), Some(100));
    assert_eq!(tree.get("height").unwrap().as_i64(), Some(200));
    assert!(tree.get("derivedTextData").is_none());
}

#[test]
fn test_multiple_derived_text_data() {
    let mut tree = obj(vec![("name", JsonValue::from("Root")), ("children", arr(vec![obj(vec![("name", JsonValue::from("Text1")), ("derivedTextData", obj(vec![("glyphs", arr(vec![obj(vec![("advance", JsonValue::from(0.5))])])), ("prop1", JsonValue::from("value1"))]))]), obj(vec![("name", JsonValue::from("Text2")), ("derivedTextData", obj(vec![("glyphs", arr(vec![obj(vec![("advance", JsonValue::from(0.7))])])), ("prop2", JsonValue::from("value2"))]))])]))]);

    remove_text_glyphs(&mut tree).unwrap();

    // All derivedTextData objects should have glyphs removed
    let text1_data = &tree["children"][0]["derivedTextData"];
    assert!(text1_data.get("glyphs").is_none());
    assert_eq!(text1_data.get("prop1").unwrap().as_str(), Some("value1"));

    let text2_data = &tree["children"][1]["derivedTextData"];
    assert!(text2_data.get("glyphs").is_none());
    assert_eq!(text2_data.get("prop2").unwrap().as_str(), Some("value2"));
}

#[test]
fn test_empty_glyphs_array() {
    let mut tree = obj(vec![("name", JsonValue::from("Text")), ("derivedTextData", obj(vec![("glyphs", arr(vec![])), ("info", JsonValue::from("test"))]))]);

    remove_text_glyphs(&mut tree).unwrap();

    let derived_text_data = tree.get("derivedTextData").unwrap();
    assert!(derived_text_data.get("glyphs").is_none());
    assert_eq!(derived_text_data.get("info").unwrap().as_str(), Some("test"));
}

#[test]
fn test_glyphs_in_other_contexts_preserved() {
    let mut tree = obj(vec![("name", JsonValue::from("Root")), ("metadata", obj(vec![("glyphs", arr(vec![obj(vec![("some", JsonValue::from("data"))])]))])), ("derivedTextData", obj(vec![("glyphs", arr(vec![obj(vec![("advance", JsonValue::from(0.5))])])), ("info", JsonValue::from("test"))]))]);

    remove_text_glyphs(&mut tree).unwrap();

    // Only glyphs inside derivedTextData should be removed
    assert!(tree.get("metadata").unwrap().get("glyphs").is_some());

    let derived_text_data = tree.get("derivedTextData").unwrap();
    assert!(derived_text_data.get("glyphs").is_none());
}
