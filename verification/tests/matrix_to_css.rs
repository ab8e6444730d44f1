use fig2json::error::FigError;
use fig2json::css_walk::{self, CssRule};
use std::f64::consts::PI;
use serde_json::Value as JsonValue;
use fig2json::json::{Json, JsonNumber};

fn to_lib(v: &serde_json::Value) -> Json {
    match v {
        serde_json::Value::Null => Json::Null,
        serde_json::Value::Bool(b) => Json::Bool(*b),
        serde_json::Value::Number(n) => {
            if let Some(u) = n.as_u64() {
                Json::Number(JsonNumber::PosInt(u))
            } else if let Some(i) = n.as_i64() {
                Json::Number(JsonNumber::NegInt(i))
            } else {
                Json::Number(JsonNumber::Float(n.as_f64().unwrap().to_bits()))
            }
        }
        serde_json::Value::String(s) => Json::Str(s.clone()),
        serde_json::Value::Array(a) => Json::Array(a.iter().map(to_lib).collect()),
        serde_json::Value::Object(m) => {
            Json::Object(m.iter().map(|(k, x)| (k.clone(), to_lib(x))).collect())
        }
    }
}

fn from_lib(j: &Json) -> serde_json::Value {
    match j {
        Json::Null => serde_json::Value::Null,
        Json::Bool(b) => serde_json::Value::Bool(*b),
        Json::Number(JsonNumber::PosInt(u)) => serde_json::Value::from(*u),
        Json::Number(JsonNumber::NegInt(i)) => serde_json::Value::from(*i),
        Json::Number(JsonNumber::Float(b)) => serde_json::Number::from_f64(f64::from_bits(*b))
            .map(serde_json::Value::Number)
            .unwrap_or(serde_json::Value::Null),
        Json::Str(s) => serde_json::Value::String(s.clone()),
        Json::Array(a) => serde_json::Value::Array(a.iter().map(from_lib).collect()),
        Json::Object(es) => {
            let mut m = serde_json::Map::new();
            for (k, x) in es {
                m.insert(k.clone(), from_lib(x));
            }
            serde_json::Value::Object(m)
        }
    }
}

fn parse(text: &str) -> serde_json::Value {
    serde_json::from_str(text).unwrap()
}

fn obj(entries: Vec<(&str, JsonValue)>) -> JsonValue {
    let mut m = serde_json::Map::new();
    for (k, v) in entries {
        m.insert(k.to_string(), v);
    }
    JsonValue::Object(m)
}

fn arr(items: Vec<JsonValue>) -> JsonValue {
    JsonValue::Array(items)
}

fn num(j: &Json, k: &str) -> Option<f64> {
    match j.get(k) {
        Some(Json::Number(JsonNumber::PosInt(u))) => Some(*u as f64),
        Some(Json::Number(JsonNumber::NegInt(i))) => Some(*i as f64),
        Some(Json::Number(JsonNumber::Float(b))) => Some(f64::from_bits(*b)),
        _ => None,
    }
}

fn css_apply(tree: &mut JsonValue, rule: CssRule, convert: &dyn Fn(&Json) -> JsonValue) -> Result<(), FigError> {
    let j = to_lib(tree);
    let vals: Vec<Json> = css_walk::css_sites_of(&j, rule).iter().map(|s| to_lib(&convert(s))).collect();
    *tree = from_lib(&css_walk::apply_css_values(&j, rule, &vals));
    Ok(())
}

fn byte(v: f64) -> u8 {
    (v.clamp(0.0, 1.0) * 255.0).round() as u8
}

fn color_css(c: &Json) -> JsonValue {
    let (r, g, b) = (num(c, "r").unwrap(), num(c, "g").unwrap(), num(c, "b").unwrap());
    let a = num(c, "a").unwrap_or(1.0);
    if (a - 1.0).abs() < 0.001 {
        JsonValue::String(format!("#{:02x}{:02x}{:02x}", byte(r), byte(g), byte(b)))
    } else {
        JsonValue::String(format!("#{:02x}{:02x}{:02x}{:02x}", byte(r), byte(g), byte(b), byte(a)))
    }
}

fn matrix_css(t: &Json) -> JsonValue {
    let m = |k: &str| num(t, k).unwrap();
    let (m00, m01, m02, m10, m11, m12) = (m("m00"), m("m01"), m("m02"), m("m10"), m("m11"), m("m12"));
    let scale_x = (m00 * m00 + m10 * m10).sqrt();
    let rotation = m10.atan2(m00) * (180.0 / std::f64::consts::PI);
    let det = m00 * m11 - m01 * m10;
    let scale_y = if scale_x.abs() > 1e-10 { det / scale_x } else { (m01 * m01 + m11 * m11).sqrt() };
    let skew_x = if scale_x.abs() > 1e-10 {
        ((m00 * m01 + m10 * m11) / (m00 * m00 + m10 * m10)).atan() * (180.0 / std::f64::consts::PI)
    } else {
        0.0
    };
    let mut r = serde_json::Map::new();
    r.insert("x".to_string(), JsonValue::from(m02));
    r.insert("y".to_string(), JsonValue::from(m12));
    if rotation.abs() > 1e-10 {
        r.insert("rotation".to_string(), JsonValue::from(rotation));
    }
    if (scale_x - 1.0).abs() > 1e-10 {
        r.insert("scaleX".to_string(), JsonValue::from(scale_x));
    }
    if (scale_y - 1.0).abs() > 1e-10 {
        r.insert("scaleY".to_string(), JsonValue::from(scale_y));
    }
    if skew_x.abs() > 1e-10 {
        r.insert("skewX".to_string(), JsonValue::from(skew_x));
    }
    JsonValue::Object(r)
}

fn text_css(m: &Json) -> JsonValue {
    let v = num(m, "value").unwrap();
    let suffix = if m.get("units").and_then(|u| u.as_str()) == Some("PERCENT") { "%" } else { "px" };
    if v.fract() == 0.0 {
        JsonValue::String(format!("{}{}", v as i64, suffix))
    } else {
        JsonValue::String(format!("{}{}", v, suffix))
    }
}

fn transform_colors_to_css(tree: &mut JsonValue) -> Result<(), FigError> {
    css_apply(tree, CssRule::Colors, &color_css)
}

fn transform_matrix_to_css(tree: &mut JsonValue) -> Result<(), FigError> {
    css_apply(tree, CssRule::Matrices, &matrix_css)
}

fn simplify_text_properties(tree: &mut JsonValue) -> Result<(), FigError> {
    css_apply(tree, CssRule::TextProperties, &text_css)
}

// Helper function to compare floats with tolerance
fn approx_eq(a: f64, b: f64, epsilon: f64) -> bool {
    (a - b).abs() < epsilon
}

#[test]
fn test_identity_matrix() {
    let mut tree = obj(vec![("transform", obj(vec![("m00", JsonValue::from(1.0)), ("m01", JsonValue::from(0.0)), ("m02", JsonValue::from(0.0)), ("m10", JsonValue::from(0.0)), ("m11", JsonValue::from(1.0)), ("m12", JsonValue::from(0.0))]))]);

    transform_matrix_to_css(&mut tree).unwrap();

    let transform = tree.get("transform").unwrap();
    assert!(approx_eq(transform["x"].as_f64().unwrap(), 0.0, 1e-10));
    assert!(approx_eq(transform["y"].as_f64().unwrap(), 0.0, 1e-10));
    // Default values should not be present
    assert!(transform.get("rotation").is_none());
    assert!(transform.get("scaleX").is_none());
    assert!(transform.get("scaleY").is_none());
    assert!(transform.get("skewX").is_none());
}

#[test]
fn test_pure_translation() {
    let mut tree = obj(vec![("transform", obj(vec![("m00", JsonValue::from(1.0)), ("m01", JsonValue::from(0.0)), ("m02", JsonValue::from(100.0)), ("m10", JsonValue::from(0.0)), ("m11", JsonValue::from(1.0)), ("m12", JsonValue::from(50.0))]))]);

    transform_matrix_to_css(&mut tree).unwrap();

    let transform = tree.get("transform").unwrap();
    assert!(approx_eq(transform["x"].as_f64().unwrap(), 100.0, 1e-10));
    assert!(approx_eq(transform["y"].as_f64().unwrap(), 50.0, 1e-10));
    // Default values should not be present
    assert!(transform.get("rotation").is_none());
    assert!(transform.get("scaleX").is_none());
    assert!(transform.get("scaleY").is_none());
    assert!(transform.get("skewX").is_none());
}

#[test]
fn test_pure_scale() {
    let mut tree = obj(vec![("transform", obj(vec![("m00", JsonValue::from(2.0)), ("m01", JsonValue::from(0.0)), ("m02", JsonValue::from(0.0)), ("m10", JsonValue::from(0.0)), ("m11", JsonValue::from(3.0)), ("m12", JsonValue::from(0.0))]))]);

    transform_matrix_to_css(&mut tree).unwrap();

    let transform = tree.get("transform").unwrap();
    assert!(approx_eq(transform["x"].as_f64().unwrap(), 0.0, 1e-10));
    assert!(approx_eq(transform["y"].as_f64().unwrap(), 0.0, 1e-10));
    assert!(approx_eq(transform["scaleX"].as_f64().unwrap(), 2.0, 1e-10));
    assert!(approx_eq(transform["scaleY"].as_f64().unwrap(), 3.0, 1e-10));
    // Default rotation and skew should not be present
    assert!(transform.get("rotation").is_none());
    assert!(transform.get("skewX").is_none());
}

#[test]
fn test_pure_rotation_45_degrees() {
    // 45 degree rotation: cos(45°) ≈ 0.7071, sin(45°) ≈ 0.7071
    let cos45 = std::f64::consts::FRAC_1_SQRT_2;
    let sin45 = std::f64::consts::FRAC_1_SQRT_2;

    let mut tree = obj(vec![("transform", obj(vec![("m00", JsonValue::from(cos45)), ("m01", JsonValue::from(-sin45)), ("m02", JsonValue::from(0.0)), ("m10", JsonValue::from(sin45)), ("m11", JsonValue::from(cos45)), ("m12", JsonValue::from(0.0))]))]);

    transform_matrix_to_css(&mut tree).unwrap();

    let transform = tree.get("transform").unwrap();
    assert!(approx_eq(transform["x"].as_f64().unwrap(), 0.0, 1e-10));
    assert!(approx_eq(transform["y"].as_f64().unwrap(), 0.0, 1e-10));
    assert!(approx_eq(transform["rotation"].as_f64().unwrap(), 45.0, 1e-8));
    // Default scale and skew should not be present
    assert!(transform.get("scaleX").is_none());
    assert!(transform.get("scaleY").is_none());
    assert!(transform.get("skewX").is_none());
}

#[test]
fn test_pure_rotation_90_degrees() {
    // 90 degree rotation: cos(90°) = 0, sin(90°) = 1
    let mut tree = obj(vec![("transform", obj(vec![("m00", JsonValue::from(0.0)), ("m01", JsonValue::from(-1.0)), ("m02", JsonValue::from(0.0)), ("m10", JsonValue::from(1.0)), ("m11", JsonValue::from(0.0)), ("m12", JsonValue::from(0.0))]))]);

    transform_matrix_to_css(&mut tree).unwrap();

    let transform = tree.get("transform").unwrap();
    assert!(approx_eq(transform["x"].as_f64().unwrap(), 0.0, 1e-10));
    assert!(approx_eq(transform["y"].as_f64().unwrap(), 0.0, 1e-10));
    assert!(approx_eq(transform["rotation"].as_f64().unwrap(), 90.0, 1e-8));
    // Default scale and skew should not be present
    assert!(transform.get("scaleX").is_none());
    assert!(transform.get("scaleY").is_none());
    assert!(transform.get("skewX").is_none());
}

#[test]
fn test_combined_translation_scale_rotation() {
    // 30 degree rotation with scale 2x, 3y, translated by (100, 50)
    let angle = 30.0 * PI / 180.0;
    let cos_a = angle.cos();
    let sin_a = angle.sin();
    let sx = 2.0;
    let sy = 3.0;

    let mut tree = obj(vec![("transform", obj(vec![("m00", JsonValue::from(sx * cos_a)), ("m01", JsonValue::from(-sy * sin_a)), ("m02", JsonValue::from(100.0)), ("m10", JsonValue::from(sx * sin_a)), ("m11", JsonValue::from(sy * cos_a)), ("m12", JsonValue::from(50.0))]))]);

    transform_matrix_to_css(&mut tree).unwrap();

    let transform = tree.get("transform").unwrap();
    assert!(approx_eq(transform["x"].as_f64().unwrap(), 100.0, 1e-10));
    assert!(approx_eq(transform["y"].as_f64().unwrap(), 50.0, 1e-10));
    assert!(approx_eq(transform["rotation"].as_f64().unwrap(), 30.0, 1e-8));
    assert!(approx_eq(transform["scaleX"].as_f64().unwrap(), 2.0, 1e-10));
    assert!(approx_eq(transform["scaleY"].as_f64().unwrap(), 3.0, 1e-10));
    // Default skew should not be present
    assert!(transform.get("skewX").is_none());
}

#[test]
fn matrix_to_css_test_nested_objects() {
    let mut tree = obj(vec![("name", JsonValue::from("Root")), ("transform", obj(vec![("m00", JsonValue::from(1.0)), ("m01", JsonValue::from(0.0)), ("m02", JsonValue::from(10.0)), ("m10", JsonValue::from(0.0)), ("m11", JsonValue::from(1.0)), ("m12", JsonValue::from(20.0))])), ("children", arr(vec![obj(vec![("name", JsonValue::from("Child1")), ("transform", obj(vec![("m00", JsonValue::from(2.0)), ("m01", JsonValue::from(0.0)), ("m02", JsonValue::from(5.0)), ("m10", JsonValue::from(0.0)), ("m11", JsonValue::from(2.0)), ("m12", JsonValue::from(10.0))]))])]))]);

    transform_matrix_to_css(&mut tree).unwrap();

    // Check root transform (only translation, should only have x and y)
    let root_transform = tree.get("transform").unwrap();
    assert!(approx_eq(root_transform["x"].as_f64().unwrap(), 10.0, 1e-10));
    assert!(approx_eq(root_transform["y"].as_f64().unwrap(), 20.0, 1e-10));
    assert!(root_transform.get("rotation").is_none());
    assert!(root_transform.get("scaleX").is_none());
    assert!(root_transform.get("scaleY").is_none());
    assert!(root_transform.get("skewX").is_none());

    // Check child transform (has scale, should have x, y, scaleX, scaleY)
    let child_transform = &tree["children"][0]["transform"];
    assert!(approx_eq(child_transform["x"].as_f64().unwrap(), 5.0, 1e-10));
    assert!(approx_eq(child_transform["y"].as_f64().unwrap(), 10.0, 1e-10));
    assert!(approx_eq(child_transform["scaleX"].as_f64().unwrap(), 2.0, 1e-10));
    assert!(approx_eq(child_transform["scaleY"].as_f64().unwrap(), 2.0, 1e-10));
    assert!(child_transform.get("rotation").is_none());
    assert!(child_transform.get("skewX").is_none());
}

#[test]
fn test_non_transform_object_unchanged() {
    let mut tree = obj(vec![("name", JsonValue::from("Rectangle")), ("position", obj(vec![("x", JsonValue::from(10)), ("y", JsonValue::from(20))]))]);

    let original = tree.clone();
    transform_matrix_to_css(&mut tree).unwrap();

    // Should remain unchanged
    assert_eq!(tree, original);
}

#[test]
fn test_transform_without_matrix_fields_unchanged() {
    let mut tree = obj(vec![("transform", obj(vec![("x", JsonValue::from(10)), ("y", JsonValue::from(20))]))]);

    let original = tree.clone();
    transform_matrix_to_css(&mut tree).unwrap();

    // Should remain unchanged since it doesn't have matrix fields
    assert_eq!(tree, original);
}

#[test]
fn test_negative_scale() {
    // Negative scale (reflection)
    let mut tree = obj(vec![("transform", obj(vec![("m00", JsonValue::from(-1.0)), ("m01", JsonValue::from(0.0)), ("m02", JsonValue::from(0.0)), ("m10", JsonValue::from(0.0)), ("m11", JsonValue::from(1.0)), ("m12", JsonValue::from(0.0))]))]);

    transform_matrix_to_css(&mut tree).unwrap();

    let transform = tree.get("transform").unwrap();
    // x and y should be present
    assert!(approx_eq(transform["x"].as_f64().unwrap(), 0.0, 1e-10));
    assert!(approx_eq(transform["y"].as_f64().unwrap(), 0.0, 1e-10));
    // scaleX should be 1.0 (magnitude), rotation should be 180 degrees
    assert!(approx_eq(transform["rotation"].as_f64().unwrap(), 180.0, 1e-8));
    assert!(approx_eq(transform["scaleY"].as_f64().unwrap(), -1.0, 1e-10));
    // scaleX is 1.0 (default) so should not be present
    assert!(transform.get("scaleX").is_none());
    assert!(transform.get("skewX").is_none());
}

#[test]
fn matrix_to_css_test_real_world_example() {
    // From the actual example.canvas.fig: translate(248, -7)
    let mut tree = obj(vec![("transform", obj(vec![("m00", JsonValue::from(1.0)), ("m01", JsonValue::from(0.0)), ("m02", JsonValue::from(248.0)), ("m10", JsonValue::from(0.0)), ("m11", JsonValue::from(1.0)), ("m12", JsonValue::from(-7.0))]))]);

    transform_matrix_to_css(&mut tree).unwrap();

    let transform = tree.get("transform").unwrap();
    assert!(approx_eq(transform["x"].as_f64().unwrap(), 248.0, 1e-10));
    assert!(approx_eq(transform["y"].as_f64().unwrap(), -7.0, 1e-10));
    // Default values should not be present
    assert!(transform.get("rotation").is_none());
    assert!(transform.get("scaleX").is_none());
    assert!(transform.get("scaleY").is_none());
    assert!(transform.get("skewX").is_none());
}
