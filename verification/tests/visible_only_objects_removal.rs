use fig2json::error::FigError;
use fig2json::transform;
use serde_json::Value as JsonValue;
use fig2json::json::{Json, JsonNumber};

fn to_lib(v: &serde_json::Value) -> Json {
    match v {
        serde_json::Value::Null => Json::Null,
        serde_json::Value::Bool(b) => Json::Bool(*b),
        serde_json::Value::Number(n) => {
            if let Some(u) = n.as_u64() {
                Json::Number(JsonNumber::PosInt(u))
            } else if let Some(i) = n.as_i64() {
                Json::Number(JsonNumber::NegInt(i))
            } else {
                Json::Number(JsonNumber::Float(n.as_f64().unwrap().to_bits()))
            }
        }
        serde_json::Value::String(s) => Json::Str(s.clone()),
        serde_json::Value::Array(a) => Json::Array(a.iter().map(to_lib).collect()),
        serde_json::Value::Object(m) => {
            Json::Object(m.iter().map(|(k, x)| (k.clone(), to_lib(x))).collect())
        }
    }
}

fn from_lib(j: &Json) -> serde_json::Value {
    match j {
        Json::Null => serde_json::Value::Null,
        Json::Bool(b) => serde_json::Value::Bool(*b),
        Json::Number(JsonNumber::PosInt(u)) => serde_json::Value::from(*u),
        Json::Number(JsonNumber::NegInt(i)) => serde_json::Value::from(*i),
        Json::Number(JsonNumber::Float(b)) => serde_json::Number::from_f64(f64::from_bits(*b))
            .map(serde_json::Value::Number)
            .unwrap_or(serde_json::Value::Null),
        Json::Str(s) => serde_json::Value::String(s.clone()),
        Json::Array(a) => serde_json::Value::Array(a.iter().map(from_lib).collect()),
        Json::Object(es) => {
            let mut m = serde_json::Map::new();
            for (k, x) in es {
                m.insert(k.clone(), from_lib(x));
            }
            serde_json::Value::Object(m)
        }
    }
}

fn parse(text: &str) -> serde_json::Value {
    serde_json::from_str(text).unwrap()
}

fn obj(entries: Vec<(&str, JsonValue)>) -> JsonValue {
    let mut m = serde_json::Map::new();
    for (k, v) in entries {
        m.insert(k.to_string(), v);
    }
    JsonValue::Object(m)
}

fn arr(items: Vec<JsonValue>) -> JsonValue {
    JsonValue::Array(items)
}

fn remove_visible_only_objects(tree: &mut JsonValue) -> Result<(), FigError> {
    let mut j = to_lib(tree);
    let r = transform::remove_visible_only_objects(&mut j);
    *tree = from_lib(&j);
    r
}

#[test]
fn test_remove_visible_only_from_array() {
    let mut tree = obj(vec![("symbolOverrides", arr(vec![obj(vec![("visible", JsonValue::from(false))]), obj(vec![("textData", obj(vec![("characters", JsonValue::from("Hello"))]))]), obj(vec![("visible", JsonValue::from(true))])]))]);

    remove_visible_only_objects(&mut tree).unwrap();

    let overrides = tree.get("symbolOverrides").unwrap().as_array().unwrap();
    assert_eq!(overrides.len(), 1);
    assert!(overrides[0].get("textData").is_some());
}

#[test]
fn test_remove_visible_only_object_field() {
    let mut tree = obj(vec![("name", JsonValue::from("Shape")), ("metadata", obj(vec![("visible", JsonValue::from(false))])), ("opacity", JsonValue::from(1.0))]);

    remove_visible_only_objects(&mut tree).unwrap();

    assert!(tree.get("metadata").is_none());
    assert_eq!(tree.get("name").unwrap().as_str(), Some("Shape"));
    assert_eq!(tree.get("opacity").unwrap().as_f64(), Some(1.0));
}

#[test]
fn test_preserve_objects_with_visible_and_other_fields() {
    let mut tree = obj(vec![("symbolOverrides", arr(vec![obj(vec![("visible", JsonValue::from(false)), ("opacity", JsonValue::from(0.5))]), obj(vec![("visible", JsonValue::from(true)), ("textData", obj(vec![("characters", JsonValue::from("Test"))]))]), obj(vec![("visible", JsonValue::from(false))])]))]);

    remove_visible_only_objects(&mut tree).unwrap();

    let overrides = tree.get("symbolOverrides").unwrap().as_array().unwrap();
    assert_eq!(overrides.len(), 2);
    assert!(overrides[0].get("visible").is_some());
    assert!(overrides[0].get("opacity").is_some());
    assert!(overrides[1].get("visible").is_some());
    assert!(overrides[1].get("textData").is_some());
}

#[test]
fn test_nested_visible_only_objects() {
    let mut tree = obj(vec![("children", arr(vec![obj(vec![("name", JsonValue::from("Child1")), ("data", obj(vec![("visible", JsonValue::from(true))]))]), obj(vec![("name", JsonValue::from("Child2")), ("overrides", arr(vec![obj(vec![("visible", JsonValue::from(false))]), obj(vec![("opacity", JsonValue::from(0.5))])]))])]))]);

    remove_visible_only_objects(&mut tree).unwrap();

    assert!(tree["children"][0].get("data").is_none());
    assert_eq!(tree["children"][0]["name"].as_str(), Some("Child1"));

    let overrides = tree["children"][1]["overrides"].as_array().unwrap();
    assert_eq!(overrides.len(), 1);
    assert!(overrides[0].get("opacity").is_some());
}

#[test]
fn test_array_of_visible_only_objects() {
    let mut tree = obj(vec![("items", arr(vec![obj(vec![("visible", JsonValue::from(false))]), obj(vec![("visible", JsonValue::from(true))]), obj(vec![("visible", JsonValue::from(false))])]))]);

    remove_visible_only_objects(&mut tree).unwrap();

    let items = tree.get("items").unwrap().as_array().unwrap();
    assert_eq!(items.len(), 0);
}

#[test]
fn visible_only_objects_removal_test_mixed_array() {
    let mut tree = obj(vec![("items", arr(vec![obj(vec![("visible", JsonValue::from(false))]), obj(vec![("name", JsonValue::from("A"))]), obj(vec![("visible", JsonValue::from(true))]), obj(vec![("name", JsonValue::from("B")), ("visible", JsonValue::from(false))]), obj(vec![("visible", JsonValue::from(false))])]))]);

    remove_visible_only_objects(&mut tree).unwrap();

    let items = tree.get("items").unwrap().as_array().unwrap();
    assert_eq!(items.len(), 2);
    assert_eq!(items[0]["name"].as_str(), Some("A"));
    assert_eq!(items[1]["name"].as_str(), Some("B"));
    // Second item should still have visible since it has other fields too
    assert!(items[1].get("visible").is_some());
}

#[test]
fn test_no_visible_only_objects() {
    let mut tree = obj(vec![("name", JsonValue::from("Rectangle")), ("visible", JsonValue::from(true)), ("children", arr(vec![obj(vec![("name", JsonValue::from("Child1")), ("visible", JsonValue::from(false))]), obj(vec![("name", JsonValue::from("Child2"))])]))]);

    let original = tree.clone();
    remove_visible_only_objects(&mut tree).unwrap();

    // Tree should be unchanged since all visible fields have other fields too
    assert_eq!(tree, original);
}

#[test]
fn test_real_world_roles_members_case() {
    // From archives/roles-members.json line 203
    let mut tree = obj(vec![("symbolData", obj(vec![("symbolOverrides", arr(vec![obj(vec![("textData", obj(vec![("characters", JsonValue::from("Roles"))]))]), obj(vec![("textData", obj(vec![("characters", JsonValue::from("Members"))]))]), obj(vec![("textData", obj(vec![("characters", JsonValue::from("Audit"))]))]), obj(vec![("visible", JsonValue::from(false))]), obj(vec![("overrideLevel", JsonValue::from(1)), ("textData", obj(vec![("characters", JsonValue::from("Commands"))]))])])), ("uniformScaleFactor", JsonValue::from(1.0))]))]);

    remove_visible_only_objects(&mut tree).unwrap();

    let overrides = tree["symbolData"]["symbolOverrides"].as_array().unwrap();
    assert_eq!(overrides.len(), 4);
    // Verify the visible-only object was removed
    assert!(overrides.iter().all(|o| o.get("textData").is_some() || o.get("overrideLevel").is_some()));
}

#[test]
fn visible_only_objects_removal_test_deeply_nested() {
    let mut tree = obj(vec![("level1", obj(vec![("level2", obj(vec![("level3", obj(vec![("visibleOnly", obj(vec![("visible", JsonValue::from(true))])), ("data", JsonValue::from("value"))])), ("alsoVisibleOnly", obj(vec![("visible", JsonValue::from(false))]))]))]))]);

    remove_visible_only_objects(&mut tree).unwrap();

    assert!(tree["level1"]["level2"]["level3"].get("visibleOnly").is_none());
    assert_eq!(
        tree["level1"]["level2"]["level3"]["data"].as_str(),
        Some("value")
    );
    assert!(tree["level1"]["level2"].get("alsoVisibleOnly").is_none());
}

#[test]
fn test_preserve_empty_objects() {
    let mut tree = obj(vec![("name", JsonValue::from("Test")), ("empty", obj(vec![])), ("visibleOnly", obj(vec![("visible", JsonValue::from(false))]))]);

    remove_visible_only_objects(&mut tree).unwrap();

    // Empty objects should be preserved, only visible-only objects are removed
    assert!(tree.get("empty").is_some());
    assert!(tree.get("visibleOnly").is_none());
}

#[test]
fn test_visible_with_different_values() {
    let mut tree = obj(vec![("items", arr(vec![obj(vec![("visible", JsonValue::from(false))]), obj(vec![("visible", JsonValue::from(true))]), obj(vec![("visible", JsonValue::from(0))]), obj(vec![("visible", JsonValue::from(1))]), obj(vec![("visible", JsonValue::Null)])]))]);

    remove_visible_only_objects(&mut tree).unwrap();

    let items = tree.get("items").unwrap().as_array().unwrap();
    // All should be removed regardless of the visible value
    assert_eq!(items.len(), 0);
}
