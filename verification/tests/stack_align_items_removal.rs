use fig2json::error::FigError;
use fig2json::transform;
use serde_json::Value as JsonValue;
use fig2json::json::{Json, JsonNumber};

fn to_lib(v: &serde_json::Value) -> Json {
    match v {
        serde_json::Value::Null => Json::Null,
        serde_json::Value::Bool(b) => Json::Bool(*b),
        serde_json::Value::Number(n) => {
            if let Some(u) = n.as_u64() {
                Json::Number(JsonNumber::PosInt(u))
            } else if let Some(i) = n.as_i64() {
                Json::Number(JsonNumber::NegInt(i))
            } else {
                Json::Number(JsonNumber::Float(n.as_f64().unwrap().to_bits()))
            }
        }
        serde_json::Value::String(s) => Json::Str(s.clone()),
        serde_json::Value::Array(a) => Json::Array(a.iter().map(to_lib).collect()),
        serde_json::Value::Object(m) => {
            Json::Object(m.iter().map(|(k, x)| (k.clone(), to_lib(x))).collect())
        }
    }
}

fn from_lib(j: &Json) -> serde_json::Value {
    match j {
        Json::Null => serde_json::Value::Null,
        Json::Bool(b) => serde_json::Value::Bool(*b),
        Json::Number(JsonNumber::PosInt(u)) => serde_json::Value::from(*u),
        Json::Number(JsonNumber::NegInt(i)) => serde_json::Value::from(*i),
        Json::Number(JsonNumber::Float(b)) => serde_json::Number::from_f64(f64::from_bits(*b))
            .map(serde_json::Value::Number)
            .unwrap_or(serde_json::Value::Null),
        Json::Str(s) => serde_json::Value::String(s.clone()),
        Json::Array(a) => serde_json::Value::Array(a.iter().map(from_lib).collect()),
        Json::Object(es) => {
            let mut m = serde_json::Map::new();
            for (k, x) in es {
                m.insert(k.clone(), from_lib(x));
            }
            serde_json::Value::Object(m)
        }
    }
}

fn parse(text: &str) -> serde_json::Value {
    serde_json::from_str(text).unwrap()
}

fn obj(entries: Vec<(&str, JsonValue)>) -> JsonValue {
    let mut m = serde_json::Map::new();
    for (k, v) in entries {
        m.insert(k.to_string(), v);
    }
    JsonValue::Object(m)
}

fn arr(items: Vec<JsonValue>) -> JsonValue {
    JsonValue::Array(items)
}

fn remove_stack_align_items(tree: &mut JsonValue) -> Result<(), FigError> {
    let mut j = to_lib(tree);
    let r = transform::remove_stack_align_items(&mut j);
    *tree = from_lib(&j);
    r
}

#[test]
fn test_removes_stack_counter_align_items() {
    let mut tree = obj(vec![("name", JsonValue::from("Row")), ("stackMode", JsonValue::from("HORIZONTAL")), ("stackCounterAlignItems", JsonValue::from("CENTER")), ("size", obj(vec![("x", JsonValue::from(327.0)), ("y", JsonValue::from(40.0))]))]);

    remove_stack_align_items(&mut tree).unwrap();

    assert!(tree.get("stackCounterAlignItems").is_none());
    assert_eq!(tree.get("name").unwrap().as_str(), Some("Row"));
    assert_eq!(tree.get("stackMode").unwrap().as_str(), Some("HORIZONTAL"));
    assert!(tree.get("size").is_some());
}

#[test]
fn test_removes_stack_primary_align_items() {
    let mut tree = obj(vec![("name", JsonValue::from("Header")), ("stackMode", JsonValue::from("HORIZONTAL")), ("stackPrimaryAlignItems", JsonValue::from("SPACE_BETWEEN")), ("stackSpacing", JsonValue::from(116.0))]);

    remove_stack_align_items(&mut tree).unwrap();

    assert!(tree.get("stackPrimaryAlignItems").is_none());
    assert_eq!(tree.get("name").unwrap().as_str(), Some("Header"));
    assert_eq!(tree.get("stackSpacing").unwrap().as_f64(), Some(116.0));
}

#[test]
fn test_removes_both_stack_align_properties() {
    let mut tree = obj(vec![("name", JsonValue::from("Container")), ("stackMode", JsonValue::from("VERTICAL")), ("stackCounterAlignItems", JsonValue::from("CENTER")), ("stackPrimaryAlignItems", JsonValue::from("SPACE_EVENLY")), ("type", JsonValue::from("FRAME"))]);

    remove_stack_align_items(&mut tree).unwrap();

    assert!(tree.get("stackCounterAlignItems").is_none());
    assert!(tree.get("stackPrimaryAlignItems").is_none());
    assert_eq!(tree.get("name").unwrap().as_str(), Some("Container"));
    assert_eq!(tree.get("type").unwrap().as_str(), Some("FRAME"));
}

#[test]
fn stack_align_items_removal_test_handles_nested_objects() {
    let mut tree = obj(vec![("name", JsonValue::from("Parent")), ("children", arr(vec![obj(vec![("name", JsonValue::from("Child1")), ("stackCounterAlignItems", JsonValue::from("CENTER"))]), obj(vec![("name", JsonValue::from("Child2")), ("stackPrimaryAlignItems", JsonValue::from("SPACE_BETWEEN"))]), obj(vec![("name", JsonValue::from("Child3")), ("stackCounterAlignItems", JsonValue::from("STRETCH")), ("stackPrimaryAlignItems", JsonValue::from("CENTER"))])]))]);

    remove_stack_align_items(&mut tree).unwrap();

    let children = tree.get("children").unwrap().as_array().unwrap();
    assert!(children[0].get("stackCounterAlignItems").is_none());
    assert!(children[1].get("stackPrimaryAlignItems").is_none());
    assert!(children[2].get("stackCounterAlignItems").is_none());
    assert!(children[2].get("stackPrimaryAlignItems").is_none());
    assert_eq!(children[0].get("name").unwrap().as_str(), Some("Child1"));
    assert_eq!(children[1].get("name").unwrap().as_str(), Some("Child2"));
    assert_eq!(children[2].get("name").unwrap().as_str(), Some("Child3"));
}

#[test]
fn stack_align_items_removal_test_handles_deeply_nested_structures() {
    let mut tree = obj(vec![("name", JsonValue::from("Root")), ("children", arr(vec![obj(vec![("name", JsonValue::from("Level1")), ("stackPrimaryAlignItems", JsonValue::from("SPACE_BETWEEN")), ("children", arr(vec![obj(vec![("name", JsonValue::from("Level2")), ("stackCounterAlignItems", JsonValue::from("CENTER")), ("stackPrimaryAlignItems", JsonValue::from("SPACE_EVENLY"))])]))])]))]);

    remove_stack_align_items(&mut tree).unwrap();

    let level1 = &tree.get("children").unwrap().as_array().unwrap()[0];
    assert!(level1.get("stackPrimaryAlignItems").is_none());
    let level2 = &level1.get("children").unwrap().as_array().unwrap()[0];
    assert!(level2.get("stackCounterAlignItems").is_none());
    assert!(level2.get("stackPrimaryAlignItems").is_none());
    assert_eq!(level2.get("name").unwrap().as_str(), Some("Level2"));
}

#[test]
fn stack_align_items_removal_test_handles_missing_properties() {
    let mut tree = obj(vec![("name", JsonValue::from("Frame")), ("type", JsonValue::from("FRAME")), ("size", obj(vec![("x", JsonValue::from(100.0)), ("y", JsonValue::from(100.0))]))]);

    remove_stack_align_items(&mut tree).unwrap();

    assert_eq!(tree.get("name").unwrap().as_str(), Some("Frame"));
    assert!(tree.get("type").is_some());
    assert!(tree.get("size").is_some());
}

#[test]
fn stack_align_items_removal_test_handles_empty_object() {
    let mut tree = obj(vec![]);

    remove_stack_align_items(&mut tree).unwrap();

    assert_eq!(tree.as_object().unwrap().len(), 0);
}

#[test]
fn test_preserves_other_stack_properties() {
    let mut tree = obj(vec![("name", JsonValue::from("Button")), ("type", JsonValue::from("FRAME")), ("stackCounterAlignItems", JsonValue::from("CENTER")), ("stackPrimaryAlignItems", JsonValue::from("CENTER")), ("stackMode", JsonValue::from("HORIZONTAL")), ("stackSpacing", JsonValue::from(4.0)), ("stackHorizontalPadding", JsonValue::from(20.0)), ("stackVerticalPadding", JsonValue::from(14.0)), ("size", obj(vec![("x", JsonValue::from(327.0)), ("y", JsonValue::from(48.0))])), ("cornerRadius", JsonValue::from(12.0))]);

    remove_stack_align_items(&mut tree).unwrap();

    assert!(tree.get("stackCounterAlignItems").is_none());
    assert!(tree.get("stackPrimaryAlignItems").is_none());
    assert_eq!(tree.get("name").unwrap().as_str(), Some("Button"));
    assert_eq!(tree.get("stackMode").unwrap().as_str(), Some("HORIZONTAL"));
    assert_eq!(tree.get("stackSpacing").unwrap().as_f64(), Some(4.0));
    assert_eq!(tree.get("stackHorizontalPadding").unwrap().as_f64(), Some(20.0));
    assert_eq!(tree.get("stackVerticalPadding").unwrap().as_f64(), Some(14.0));
    assert!(tree.get("size").is_some());
    assert_eq!(tree.get("cornerRadius").unwrap().as_f64(), Some(12.0));
}

#[test]
fn stack_align_items_removal_test_handles_multiple_occurrences_in_array() {
    let mut tree = obj(vec![("children", arr(vec![obj(vec![("name", JsonValue::from("A")), ("stackCounterAlignItems", JsonValue::from("CENTER"))]), obj(vec![("name", JsonValue::from("B")), ("stackPrimaryAlignItems", JsonValue::from("SPACE_BETWEEN"))]), obj(vec![("name", JsonValue::from("C")), ("stackCounterAlignItems", JsonValue::from("STRETCH")), ("stackPrimaryAlignItems", JsonValue::from("SPACE_EVENLY"))]), obj(vec![("name", JsonValue::from("D"))])]))]);

    remove_stack_align_items(&mut tree).unwrap();

    let children = tree.get("children").unwrap().as_array().unwrap();
    for child in children {
        assert!(child.get("stackCounterAlignItems").is_none());
        assert!(child.get("stackPrimaryAlignItems").is_none());
        assert!(child.get("name").is_some());
    }
}

#[test]
fn stack_align_items_removal_test_removes_from_real_world_example() {
    let mut tree = obj(vec![("name", JsonValue::from("header")), ("size", obj(vec![("x", JsonValue::from(327.0)), ("y", JsonValue::from(40.0))])), ("stackCounterAlignItems", JsonValue::from("CENTER")), ("stackMode", JsonValue::from("HORIZONTAL")), ("stackPrimaryAlignItems", JsonValue::from("SPACE_BETWEEN")), ("stackSpacing", JsonValue::from(116.0)), ("transform", obj(vec![("x", JsonValue::from(24.0)), ("y", JsonValue::from(136.0))])), ("children", arr(vec![obj(vec![("name", JsonValue::from("title")), ("fontSize", JsonValue::from(18.0))]), obj(vec![("name", JsonValue::from("icon")), ("size", obj(vec![("x", JsonValue::from(20.0)), ("y", JsonValue::from(20.0))]))])]))]);

    remove_stack_align_items(&mut tree).unwrap();

    assert!(tree.get("stackCounterAlignItems").is_none());
    assert!(tree.get("stackPrimaryAlignItems").is_none());
    assert!(tree.get("stackMode").is_some());
    assert!(tree.get("stackSpacing").is_some());
    assert!(tree.get("transform").is_some());

    let children = tree.get("children").unwrap().as_array().unwrap();
    assert_eq!(children[0].get("fontSize").unwrap().as_f64(), Some(18.0));
    assert!(children[1].get("size").is_some());
}
