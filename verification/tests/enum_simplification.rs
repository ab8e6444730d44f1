use fig2json::error::FigError;
use fig2json::transform;
use serde_json::Value as JsonValue;
use fig2json::json::{Json, JsonNumber};

fn to_lib(v: &serde_json::Value) -> Json {
    match v {
        serde_json::Value::Null => Json::Null,
        serde_json::Value::Bool(b) => Json::Bool(*b),
        serde_json::Value::Number(n) => {
            if let Some(u) = n.as_u64() {
                Json::Number(JsonNumber::PosInt(u))
            } else if let Some(i) = n.as_i64() {
                Json::Number(JsonNumber::NegInt(i))
            } else {
                Json::Number(JsonNumber::Float(n.as_f64().unwrap().to_bits()))
            }
        }
        serde_json::Value::String(s) => Json::Str(s.clone()),
        serde_json::Value::Array(a) => Json::Array(a.iter().map(to_lib).collect()),
        serde_json::Value::Object(m) => {
            Json::Object(m.iter().map(|(k, x)| (k.clone(), to_lib(x))).collect())
        }
    }
}

fn from_lib(j: &Json) -> serde_json::Value {
    match j {
        Json::Null => serde_json::Value::Null,
        Json::Bool(b) => serde_json::Value::Bool(*b),
        Json::Number(JsonNumber::PosInt(u)) => serde_json::Value::from(*u),
        Json::Number(JsonNumber::NegInt(i)) => serde_json::Value::from(*i),
        Json::Number(JsonNumber::Float(b)) => serde_json::Number::from_f64(f64::from_bits(*b))
            .map(serde_json::Value::Number)
            .unwrap_or(serde_json::Value::Null),
        Json::Str(s) => serde_json::Value::String(s.clone()),
        Json::Array(a) => serde_json::Value::Array(a.iter().map(from_lib).collect()),
        Json::Object(es) => {
            let mut m = serde_json::Map::new();
            for (k, x) in es {
                m.insert(k.clone(), from_lib(x));
            }
            serde_json::Value::Object(m)
        }
    }
}

fn parse(text: &str) -> serde_json::Value {
    serde_json::from_str(text).unwrap()
}

fn obj(entries: Vec<(&str, JsonValue)>) -> JsonValue {
    let mut m = serde_json::Map::new();
    for (k, v) in entries {
        m.insert(k.to_string(), v);
    }
    JsonValue::Object(m)
}

fn arr(items: Vec<JsonValue>) -> JsonValue {
    JsonValue::Array(items)
}

fn simplify_enums(tree: &mut JsonValue) -> Result<(), FigError> {
    let mut j = to_lib(tree);
    let r = transform::simplify_enums(&mut j);
    *tree = from_lib(&j);
    r
}

fn entries_of(m: &serde_json::Map<String, JsonValue>) -> Vec<(String, Json)> {
    m.iter().map(|(k, x)| (k.clone(), to_lib(x))).collect()
}

fn is_enum_object(m: &serde_json::Map<String, JsonValue>) -> bool {
    transform::is_enum_object(&entries_of(m))
}

fn extract_enum_value(m: &serde_json::Map<String, JsonValue>) -> Option<String> {
    transform::extract_enum_value(&entries_of(m))
}

#[test]
fn test_simplify_node_type() {
    let mut tree = obj(vec![("name", JsonValue::from("Frame")), ("type", obj(vec![("__enum__", JsonValue::from("NodeType")), ("value", JsonValue::from("FRAME"))]))]);

    simplify_enums(&mut tree).unwrap();

    assert_eq!(tree.get("type").unwrap().as_str(), Some("FRAME"));
    assert_eq!(tree.get("name").unwrap().as_str(), Some("Frame"));
}

#[test]
fn test_simplify_blend_mode() {
    let mut tree = obj(vec![("blendMode", obj(vec![("__enum__", JsonValue::from("BlendMode")), ("value", JsonValue::from("NORMAL"))]))]);

    simplify_enums(&mut tree).unwrap();

    assert_eq!(tree.get("blendMode").unwrap().as_str(), Some("NORMAL"));
}

#[test]
fn test_simplify_paint_type() {
    let mut tree = obj(vec![("type", obj(vec![("__enum__", JsonValue::from("PaintType")), ("value", JsonValue::from("SOLID"))]))]);

    simplify_enums(&mut tree).unwrap();

    assert_eq!(tree.get("type").unwrap().as_str(), Some("SOLID"));
}

#[test]
fn test_simplify_multiple_enums() {
    let mut tree = obj(vec![("type", obj(vec![("__enum__", JsonValue::from("NodeType")), ("value", JsonValue::from("ROUNDED_RECTANGLE"))])), ("blendMode", obj(vec![("__enum__", JsonValue::from("BlendMode")), ("value", JsonValue::from("NORMAL"))])), ("strokeAlign", obj(vec![("__enum__", JsonValue::from("StrokeAlign")), ("value", JsonValue::from("INSIDE"))]))]);

    simplify_enums(&mut tree).unwrap();

    assert_eq!(
        tree.get("type").unwrap().as_str(),
        Some("ROUNDED_RECTANGLE")
    );
    assert_eq!(tree.get("blendMode").unwrap().as_str(), Some("NORMAL"));
    assert_eq!(tree.get("strokeAlign").unwrap().as_str(), Some("INSIDE"));
}

#[test]
fn test_simplify_nested_enums() {
    let mut tree = obj(vec![("name", JsonValue::from("Root")), ("type", obj(vec![("__enum__", JsonValue::from("NodeType")), ("value", JsonValue::from("DOCUMENT"))])), ("children", arr(vec![obj(vec![("name", JsonValue::from("Child1")), ("type", obj(vec![("__enum__", JsonValue::from("NodeType")), ("value", JsonValue::from("FRAME"))]))]), obj(vec![("name", JsonValue::from("Child2")), ("phase", obj(vec![("__enum__", JsonValue::from("NodePhase")), ("value", JsonValue::from("CREATED"))]))])]))]);

    simplify_enums(&mut tree).unwrap();

    // Root enum simplified
    assert_eq!(tree.get("type").unwrap().as_str(), Some("DOCUMENT"));

    // Children enums simplified
    assert_eq!(tree["children"][0]["type"].as_str(), Some("FRAME"));
    assert_eq!(tree["children"][1]["phase"].as_str(), Some("CREATED"));
}

#[test]
fn test_simplify_deeply_nested_enums() {
    let mut tree = obj(vec![("document", obj(vec![("children", arr(vec![obj(vec![("fillPaints", arr(vec![obj(vec![("type", obj(vec![("__enum__", JsonValue::from("PaintType")), ("value", JsonValue::from("IMAGE"))])), ("blendMode", obj(vec![("__enum__", JsonValue::from("BlendMode")), ("value", JsonValue::from("NORMAL"))]))])]))])]))]))]);

    simplify_enums(&mut tree).unwrap();

    // Deeply nested enums simplified
    let paint = &tree["document"]["children"][0]["fillPaints"][0];
    assert_eq!(paint["type"].as_str(), Some("IMAGE"));
    assert_eq!(paint["blendMode"].as_str(), Some("NORMAL"));
}

#[test]
fn test_preserve_non_enum_objects() {
    let mut tree = obj(vec![("name", JsonValue::from("Rectangle")), ("transform", obj(vec![("x", JsonValue::from(100.0)), ("y", JsonValue::from(200.0)), ("rotation", JsonValue::from(0.0))])), ("type", obj(vec![("__enum__", JsonValue::from("NodeType")), ("value", JsonValue::from("FRAME"))]))]);

    simplify_enums(&mut tree).unwrap();

    // Enum simplified
    assert_eq!(tree.get("type").unwrap().as_str(), Some("FRAME"));

    // Non-enum object preserved
    assert_eq!(tree["transform"]["x"].as_f64(), Some(100.0));
    assert_eq!(tree["transform"]["y"].as_f64(), Some(200.0));
    assert_eq!(tree["transform"]["rotation"].as_f64(), Some(0.0));
}

#[test]
fn test_no_enums() {
    let mut tree = obj(vec![("name", JsonValue::from("Rectangle")), ("width", JsonValue::from(100)), ("height", JsonValue::from(200)), ("visible", JsonValue::from(true))]);

    simplify_enums(&mut tree).unwrap();

    // Tree without enums should be unchanged
    assert_eq!(tree.get("name").unwrap().as_str(), Some("Rectangle"));
    assert_eq!(tree.get("width").unwrap().as_i64(), Some(100));
    assert_eq!(tree.get("height").unwrap().as_i64(), Some(200));
    assert_eq!(tree.get("visible").unwrap().as_bool(), Some(true));
}

#[test]
fn test_different_enum_types() {
    let mut tree = obj(vec![("textAlignVertical", obj(vec![("__enum__", JsonValue::from("TextAlignVertical")), ("value", JsonValue::from("TOP"))])), ("textAutoResize", obj(vec![("__enum__", JsonValue::from("TextAutoResize")), ("value", JsonValue::from("WIDTH_AND_HEIGHT"))])), ("lineType", obj(vec![("__enum__", JsonValue::from("LineType")), ("value", JsonValue::from("PLAIN"))])), ("fontStyle", obj(vec![("__enum__", JsonValue::from("FontStyle")), ("value", JsonValue::from("NORMAL"))]))]);

    simplify_enums(&mut tree).unwrap();

    // All enum types simplified
    assert_eq!(
        tree.get("textAlignVertical").unwrap().as_str(),
        Some("TOP")
    );
    assert_eq!(
        tree.get("textAutoResize").unwrap().as_str(),
        Some("WIDTH_AND_HEIGHT")
    );
    assert_eq!(tree.get("lineType").unwrap().as_str(), Some("PLAIN"));
    assert_eq!(tree.get("fontStyle").unwrap().as_str(), Some("NORMAL"));
}

#[test]
fn test_enum_in_array() {
    let mut tree = obj(vec![("paints", arr(vec![obj(vec![("type", obj(vec![("__enum__", JsonValue::from("PaintType")), ("value", JsonValue::from("SOLID"))]))]), obj(vec![("type", obj(vec![("__enum__", JsonValue::from("PaintType")), ("value", JsonValue::from("IMAGE"))]))])]))]);

    simplify_enums(&mut tree).unwrap();

    // All enums in array simplified
    assert_eq!(tree["paints"][0]["type"].as_str(), Some("SOLID"));
    assert_eq!(tree["paints"][1]["type"].as_str(), Some("IMAGE"));
}

#[test]
fn test_is_enum_object() {
    let enum_obj = serde_json::from_value::<serde_json::Map<String, JsonValue>>(obj(vec![("__enum__", JsonValue::from("BlendMode")), ("value", JsonValue::from("NORMAL"))]))
    .unwrap();
    assert!(is_enum_object(&enum_obj));

    let not_enum = serde_json::from_value::<serde_json::Map<String, JsonValue>>(obj(vec![("x", JsonValue::from(10)), ("y", JsonValue::from(20))]))
    .unwrap();
    assert!(!is_enum_object(&not_enum));

    let incomplete = serde_json::from_value::<serde_json::Map<String, JsonValue>>(obj(vec![("__enum__", JsonValue::from("BlendMode"))]))
    .unwrap();
    assert!(!is_enum_object(&incomplete));
}

#[test]
fn test_extract_enum_value() {
    let enum_obj = serde_json::from_value::<serde_json::Map<String, JsonValue>>(obj(vec![("__enum__", JsonValue::from("BlendMode")), ("value", JsonValue::from("NORMAL"))]))
    .unwrap();

    let value = extract_enum_value(&enum_obj).unwrap();
    assert_eq!(value, "NORMAL");
}
