use vstd::prelude::*;
use crate::json::{Json, JsonNumber, JsonV, jget, view_elems, view_entries, lemma_array_view, lemma_object_view,
    clone_json, entry_index, lemma_entry_index};
use crate::error::FigError;
use crate::text::str_equal;

verus! {

/// The clean-up passes that walk a whole document.
#[derive(Debug, Clone, Copy, PartialEq, Eq, Structural)]
pub enum Rule {
    /// Drops `backgroundEnabled` and `backgroundOpacity`.
    Background,
    /// Drops the four border weights and `borderStrokeWeightsIndependent`.
    BorderWeights,
    /// Drops `horizontalConstraint` and `verticalConstraint`.
    Constraints,
    /// Drops `blendMode` when it is `NORMAL`.
    BlendMode,
    /// Drops `opacity` when it is 1.
    Opacity,
    /// Drops `rotation` when it is 0.
    Rotation,
    /// Drops `letterSpacing` of 0 percent and `lineHeight` of 100 percent.
    TextDefaults,
    /// Drops `visible` when it is `true`.
    Visible,
    /// Drops `layoutSize` from `derivedTextData` objects.
    DerivedLayoutSize,
    /// Drops `documentColorProfile`.
    DocumentProperties,
    /// Drops `editInfo`.
    EditInfo,
    /// Drops an empty `postscript` from `fontName` objects.
    FontPostscript,
    /// Drops empty objects held in objects and arrays.
    EmptyObjects,
    /// Replaces `{"__enum__": .., "value": "X"}` objects held in fields by `"X"`.
    Enums,
    /// Drops `exportSettings`.
    ExportSettings,
    /// Drops `guid`.
    Guid,
    /// Drops `internalOnly`, and array items that are internal-only objects.
    InternalOnly,
    /// Drops array items that only hold an `overriddenSymbolID`.
    OverriddenSymbol,
    /// Drops `phase`.
    Phase,
    /// Drops `stackPaddingRight` and `stackPaddingBottom` beside the shared paddings.
    RedundantPadding,
    /// Drops `stackCounterAlignItems` and `stackPrimaryAlignItems`.
    StackAlign,
    /// Drops `stackChildAlignSelf` and `stackChildPrimaryGrow`.
    StackChild,
    /// Drops `glyphs` from `derivedTextData` objects.
    TextGlyphs,
    /// Drops the layout fields of `derivedTextData` objects.
    TextLayout,
    /// Drops default fields of text lines, and `lines` arrays of default lines.
    LineDefaults,
    /// Drops `uniformScaleFactor` when it is 1.
    ScaleFactor,
    /// Drops `userFacingVersion`.
    UserFacingVersion,
    /// Drops objects whose only field is `visible`.
    VisibleOnly,
}

/// A number equal to 1 within `f64::EPSILON`: the integer 1, or the doubles
/// 1 and 1 - 2^-53.
pub open spec fn is_one(v: JsonV) -> bool {
    match v {
        JsonV::Number(JsonNumber::PosInt(n)) => n == 1,
        JsonV::Number(JsonNumber::NegInt(n)) => n == 1,
        JsonV::Number(JsonNumber::Float(b)) => b == 0x3FF0_0000_0000_0000u64 || b == 0x3FEF_FFFF_FFFF_FFFFu64,
        _ => false,
    }
}

/// A number whose magnitude is below `limit`, a positive double given by its
/// bits: the integer 0, or a double with smaller magnitude bits.
pub open spec fn is_below(v: JsonV, limit: u64) -> bool {
    match v {
        JsonV::Number(JsonNumber::PosInt(n)) => n == 0,
        JsonV::Number(JsonNumber::NegInt(n)) => n == 0,
        JsonV::Number(JsonNumber::Float(b)) => (b & 0x7FFF_FFFF_FFFF_FFFFu64) < limit,
        _ => false,
    }
}

/// A number within 1e-10 of 100.
pub open spec fn is_hundred(v: JsonV) -> bool {
    match v {
        JsonV::Number(JsonNumber::PosInt(n)) => n == 100,
        JsonV::Number(JsonNumber::NegInt(n)) => n == 100,
        JsonV::Number(JsonNumber::Float(b)) => 0x4058_FFFF_FFFF_E484u64 <= b <= 0x4059_0000_0000_1B7Cu64,
        _ => false,
    }
}

/// A `{units: "PERCENT", value}` object whose value passes `test`.
pub open spec fn percent_value(v: JsonV, hundred: bool) -> bool {
    &&& v is Object
    &&& jget(v, "units"@) == Some(JsonV::Str("PERCENT"@))
    &&& match jget(v, "value"@) {
        Some(x) => if hundred { is_hundred(x) } else { is_below(x, 0x3DDB_7CDF_D9D7_BDBBu64) },
        None => false,
    }
}

/// An integer field equal to 0 (`as_i64() == Some(0)`).
pub open spec fn is_int_zero(v: JsonV) -> bool {
    v == JsonV::Number(JsonNumber::PosInt(0)) || v == JsonV::Number(JsonNumber::NegInt(0))
}

/// A field of a text line that holds its default value.
pub open spec fn default_line_field(k: Seq<char>, v: JsonV) -> bool {
    ||| (k == "indentationLevel"@ || k == "listStartOffset"@ || k == "styleId"@) && is_int_zero(v)
    ||| k == "isFirstLineOfList"@ && v == JsonV::Bool(false)
    ||| k == "lineType"@ && v == JsonV::Str("PLAIN"@)
    ||| k == "sourceDirectionality"@ && v == JsonV::Str("AUTO"@)
}

/// Every field holds its default value.
pub open spec fn default_fields_only(es: Seq<(Seq<char>, JsonV)>) -> bool {
    forall|j: int| 0 <= j < es.len() ==> default_line_field(#[trigger] es[j].0, es[j].1)
}

/// A text line that only holds default fields.
pub open spec fn default_line(x: JsonV) -> bool {
    match x {
        JsonV::Object(es) => default_fields_only(es),
        _ => false,
    }
}

/// A non-empty array of text lines that only hold default fields.
pub open spec fn all_default_lines(v: JsonV) -> bool {
    match v {
        JsonV::Array(ls) => ls.len() > 0 && forall|i: int| 0 <= i < ls.len() ==> #[trigger] default_line(ls[i]),
        _ => false,
    }
}

/// Some entry has key `k`.
pub open spec fn has_key(es: Seq<(Seq<char>, JsonV)>, k: Seq<char>) -> bool {
    exists|j: int| 0 <= j < es.len() && #[trigger] es[j].0 == k
}

/// The layout fields of `derivedTextData`.
pub open spec fn text_layout_key(k: Seq<char>) -> bool {
    k == "baselines"@ || k == "logicalIndexToCharacterOffsetMap"@ || k == "fontMetaData"@ || k == "derivedLines"@
        || k == "truncatedHeight"@ || k == "truncationStartIndex"@
}

/// The rule drops the entry `(k, v)` of the object `es`, which is held under
/// `key` (or is a text line when `line_item`), before walking the rest.
pub open spec fn drops_entry(
    r: Rule,
    es: Seq<(Seq<char>, JsonV)>,
    key: Option<Seq<char>>,
    line_item: bool,
    k: Seq<char>,
    v: JsonV,
) -> bool {
    match r {
        Rule::Background => k == "backgroundEnabled"@ || k == "backgroundOpacity"@,
        Rule::BorderWeights => k == "borderTopWeight"@ || k == "borderBottomWeight"@ || k == "borderLeftWeight"@
            || k == "borderRightWeight"@ || k == "borderStrokeWeightsIndependent"@,
        Rule::Constraints => k == "horizontalConstraint"@ || k == "verticalConstraint"@,
        Rule::BlendMode => k == "blendMode"@ && v == JsonV::Str("NORMAL"@),
        Rule::Opacity => k == "opacity"@ && is_one(v),
        Rule::Rotation => k == "rotation"@ && is_below(v, 0x3CB0_0000_0000_0000u64),
        Rule::TextDefaults => (k == "letterSpacing"@ && percent_value(v, false)) || (k == "lineHeight"@
            && percent_value(v, true)),
        Rule::Visible => k == "visible"@ && v == JsonV::Bool(true),
        Rule::DerivedLayoutSize => key == Some("derivedTextData"@) && k == "layoutSize"@,
        Rule::DocumentProperties => k == "documentColorProfile"@,
        Rule::EditInfo => k == "editInfo"@,
        Rule::FontPostscript => key == Some("fontName"@) && k == "postscript"@ && v == JsonV::Str(Seq::empty()),
        Rule::ExportSettings => k == "exportSettings"@,
        Rule::Guid => k == "guid"@,
        Rule::InternalOnly => k == "internalOnly"@,
        Rule::Phase => k == "phase"@,
        Rule::RedundantPadding => (k == "stackPaddingRight"@ && has_key(es, "stackHorizontalPadding"@)) || (k
            == "stackPaddingBottom"@ && has_key(es, "stackVerticalPadding"@)),
        Rule::StackAlign => k == "stackCounterAlignItems"@ || k == "stackPrimaryAlignItems"@,
        Rule::StackChild => k == "stackChildAlignSelf"@ || k == "stackChildPrimaryGrow"@,
        Rule::TextGlyphs => key == Some("derivedTextData"@) && k == "glyphs"@,
        Rule::TextLayout => key == Some("derivedTextData"@) && text_layout_key(k),
        Rule::LineDefaults => (k == "lines"@ && all_default_lines(v)) || (line_item && default_line_field(k, v)),
        Rule::UserFacingVersion => k == "userFacingVersion"@,
        Rule::ScaleFactor => k == "uniformScaleFactor"@ && is_one(v),
        _ => false,
    }
}

/// An object with one field, `overriddenSymbolID`, holding an object with
/// exactly the fields `localID` and `sessionID`.
pub open spec fn standalone_symbol_id(v: JsonV) -> bool {
    match v {
        JsonV::Object(es) => es.len() == 1 && es[0].0 == "overriddenSymbolID"@ && match es[0].1 {
            JsonV::Object(inner) => inner.len() == 2 && has_key(inner, "localID"@) && has_key(inner, "sessionID"@),
            _ => false,
        },
        _ => false,
    }
}

/// The rule drops the array item before walking the rest.
pub open spec fn drops_item(r: Rule, x: JsonV) -> bool {
    match r {
        Rule::InternalOnly => x is Object && jget(x, "internalOnly"@) == Some(JsonV::Bool(true)),
        Rule::OverriddenSymbol => standalone_symbol_id(x),
        _ => false,
    }
}

/// The rule drops the walked value from its object or array.
pub open spec fn drops_walked(r: Rule, v: JsonV) -> bool {
    match r {
        Rule::EmptyObjects => v == JsonV::Object(Seq::empty()),
        Rule::VisibleOnly => match v {
            JsonV::Object(es) => es.len() == 1 && es[0].0 == "visible"@,
            _ => false,
        },
        _ => false,
    }
}

/// The text an enum object held under a field is replaced with.
pub open spec fn enum_text(r: Rule, v: JsonV, key: Option<Seq<char>>) -> Option<Seq<char>> {
    if r == Rule::Enums && key is Some && v is Object && has_key(v->Object_0, "__enum__"@) && has_key(
        v->Object_0,
        "value"@,
    ) {
        match jget(v, "value"@) {
            Some(JsonV::Str(s)) => Some(s),
            _ => None,
        }
    } else {
        None
    }
}

/// The walked values kept by the rule.
pub open spec fn keep_walked(r: Rule, xs: Seq<JsonV>) -> Seq<JsonV>
    decreases xs.len(),
{
    if xs.len() == 0 {
        xs
    } else if drops_walked(r, xs.last()) {
        keep_walked(r, xs.drop_last())
    } else {
        keep_walked(r, xs.drop_last()).push(xs.last())
    }
}

/// The walked entries kept by the rule.
pub open spec fn keep_walked_entries(r: Rule, es: Seq<(Seq<char>, JsonV)>) -> Seq<(Seq<char>, JsonV)>
    decreases es.len(),
{
    if es.len() == 0 {
        es
    } else if drops_walked(r, es.last().1) {
        keep_walked_entries(r, es.drop_last())
    } else {
        keep_walked_entries(r, es.drop_last()).push(es.last())
    }
}

/// The document after the rule's pass: in every object the dropped entries
/// are removed and the others walked; in every array the dropped items are
/// removed and the others walked; then walked values the rule drops are
/// removed. `key` is the field the value is held under; `line_item` marks the
/// items of a `lines` array.
pub open spec fn walk(r: Rule, v: JsonV, key: Option<Seq<char>>, line_item: bool) -> JsonV
    decreases v, 0int,
{
    match enum_text(r, v, key) {
        Some(s) => JsonV::Str(s),
        None => match v {
            JsonV::Object(es) => JsonV::Object(
                keep_walked_entries(r, walk_entries(r, es, key, line_item, es.len() as int)),
            ),
            JsonV::Array(xs) => JsonV::Array(
                keep_walked(
                    r,
                    walk_items(r, xs, r == Rule::LineDefaults && key == Some("lines"@), xs.len() as int),
                ),
            ),
            _ => v,
        },
    }
}

/// The first `n` entries, without those the rule drops, each value walked.
pub open spec fn walk_entries(
    r: Rule,
    es: Seq<(Seq<char>, JsonV)>,
    key: Option<Seq<char>>,
    line_item: bool,
    n: int,
) -> Seq<(Seq<char>, JsonV)>
    decreases es, n,
{
    if n <= 0 || n > es.len() {
        Seq::empty()
    } else {
        let rest = walk_entries(r, es, key, line_item, n - 1);
        let e = es[n - 1];
        if drops_entry(r, es, key, line_item, e.0, e.1) {
            rest
        } else {
            proof {
                assert(decreases_to!(es => es[n - 1]));
                assert(decreases_to!(es[n - 1] => es[n - 1].1));
            }
            rest.push((e.0, walk(r, e.1, Some(e.0), false)))
        }
    }
}

/// The first `n` items, without those the rule drops, each walked.
pub open spec fn walk_items(r: Rule, xs: Seq<JsonV>, lines: bool, n: int) -> Seq<JsonV>
    decreases xs, n,
{
    if n <= 0 || n > xs.len() {
        Seq::empty()
    } else {
        let rest = walk_items(r, xs, lines, n - 1);
        if drops_item(r, xs[n - 1]) {
            rest
        } else {
            proof {
                assert(decreases_to!(xs => xs[n - 1]));
            }
            rest.push(walk(r, xs[n - 1], None, lines))
        }
    }
}

fn is_one_exec(v: &Json) -> (r: bool)
    ensures
        r == is_one(v@),
{
    match v {
        Json::Number(JsonNumber::PosInt(n)) => *n == 1,
        Json::Number(JsonNumber::NegInt(n)) => *n == 1,
        Json::Number(JsonNumber::Float(b)) => *b == 0x3FF0_0000_0000_0000u64 || *b == 0x3FEF_FFFF_FFFF_FFFFu64,
        _ => false,
    }
}

fn is_below_exec(v: &Json, limit: u64) -> (r: bool)
    ensures
        r == is_below(v@, limit),
{
    match v {
        Json::Number(JsonNumber::PosInt(n)) => *n == 0,
        Json::Number(JsonNumber::NegInt(n)) => *n == 0,
        Json::Number(JsonNumber::Float(b)) => (*b & 0x7FFF_FFFF_FFFF_FFFFu64) < limit,
        _ => false,
    }
}

fn is_hundred_exec(v: &Json) -> (r: bool)
    ensures
        r == is_hundred(v@),
{
    match v {
        Json::Number(JsonNumber::PosInt(n)) => *n == 100,
        Json::Number(JsonNumber::NegInt(n)) => *n == 100,
        Json::Number(JsonNumber::Float(b)) => 0x4058_FFFF_FFFF_E484u64 <= *b && *b <= 0x4059_0000_0000_1B7Cu64,
        _ => false,
    }
}

fn is_text(v: &Json, t: &str) -> (r: bool)
    ensures
        r == (v@ == JsonV::Str(t@)),
{
    match v {
        Json::Str(s) => str_equal(s.as_str(), t),
        _ => false,
    }
}

fn field_is_text(v: &Json, k: &str, t: &str) -> (r: bool)
    ensures
        r == (jget(v@, k@) == Some(JsonV::Str(t@))),
{
    match v.get(k) {
        Some(x) => is_text(x, t),
        None => false,
    }
}

fn percent_value_exec(v: &Json, hundred: bool) -> (r: bool)
    ensures
        r == percent_value(v@, hundred),
{
    if !v.is_object() || !field_is_text(v, "units", "PERCENT") {
        return false;
    }
    match v.get("value") {
        Some(x) => if hundred {
            is_hundred_exec(x)
        } else {
            is_below_exec(x, 0x3DDB_7CDF_D9D7_BDBBu64)
        },
        None => false,
    }
}

fn is_int_zero_exec(v: &Json) -> (r: bool)
    ensures
        r == is_int_zero(v@),
{
    match v {
        Json::Number(JsonNumber::PosInt(n)) => *n == 0,
        Json::Number(JsonNumber::NegInt(n)) => *n == 0,
        _ => false,
    }
}

fn default_line_field_exec(k: &str, v: &Json) -> (r: bool)
    ensures
        r == default_line_field(k@, v@),
{
    ((str_equal(k, "indentationLevel") || str_equal(k, "listStartOffset") || str_equal(k, "styleId"))
        && is_int_zero_exec(v)) || (str_equal(k, "isFirstLineOfList") && match v {
        Json::Bool(b) => !*b,
        _ => false,
    }) || (str_equal(k, "lineType") && is_text(v, "PLAIN")) || (str_equal(k, "sourceDirectionality") && is_text(
        v,
        "AUTO",
    ))
}

fn all_default_lines_exec(v: &Json) -> (r: bool)
    ensures
        r == all_default_lines(v@),
{
    match v {
        Json::Array(ls) => {
            proof {
                lemma_array_view(*ls);
            }
            let ghost lv = view_elems(ls@);
            if ls.len() == 0 {
                return false;
            }
            let mut i: usize = 0;
            while i < ls.len()
                invariant
                    lv == view_elems(ls@),
                    v@ == JsonV::Array(lv),
                    i <= ls@.len(),
                    forall|t: int| 0 <= t < i ==> #[trigger] default_line(lv[t]),
                decreases ls@.len() - i,
            {
                assert(lv[i as int] == ls@[i as int]@);
                match &ls[i] {
                    Json::Object(es) => {
                        proof {
                            lemma_object_view(*es);
                        }
                        let ghost ev = view_entries(es@);
                        assert(lv[i as int] == JsonV::Object(ev));
                        let mut j: usize = 0;
                        while j < es.len()
                            invariant
                                ev == view_entries(es@),
                                lv == view_elems(ls@),
                                v@ == JsonV::Array(lv),
                                i < ls@.len(),
                                lv[i as int] == JsonV::Object(ev),
                                j <= es@.len(),
                                forall|t: int| 0 <= t < j ==> default_line_field(ev[t].0, ev[t].1),
                            decreases es@.len() - j,
                        {
                            if !default_line_field_exec(es[j].0.as_str(), &es[j].1) {
                                assert(!default_line_field(ev[j as int].0, ev[j as int].1));
                                assert(!default_fields_only(ev));
                                assert(!default_line(lv[i as int]));
                                return false;
                            }
                            j = j + 1;
                        }
                    },
                    _ => {
                        assert(!default_line(lv[i as int]));
                        return false;
                    },
                }
                i = i + 1;
            }
            true
        },
        _ => false,
    }
}

fn has_key_exec(es: &Vec<(String, Json)>, k: &str) -> (r: bool)
    ensures
        r == has_key(view_entries(es@), k@),
{
    proof {
        lemma_entry_index(view_entries(es@), k@);
    }
    Json::find_entry(es, k).is_some()
}

fn key_is(key: Option<&str>, t: &str) -> (r: bool)
    ensures
        r == (match key {
            Some(s) => Some(s@),
            None => None::<Seq<char>>,
        } == Some(t@)),
{
    match key {
        Some(s) => str_equal(s, t),
        None => false,
    }
}

/// The contents of an optional field name.
pub open spec fn opt_view(key: Option<&str>) -> Option<Seq<char>> {
    match key {
        Some(s) => Some(s@),
        None => None,
    }
}

fn drops_entry_exec(r: Rule, es: &Vec<(String, Json)>, key: Option<&str>, line_item: bool, k: &str, v: &Json) -> (b: bool)
    ensures
        b == drops_entry(r, view_entries(es@), opt_view(key), line_item, k@, v@),
{
    match r {
        Rule::Background => str_equal(k, "backgroundEnabled") || str_equal(k, "backgroundOpacity"),
        Rule::BorderWeights => str_equal(k, "borderTopWeight") || str_equal(k, "borderBottomWeight") || str_equal(
            k,
            "borderLeftWeight",
        ) || str_equal(k, "borderRightWeight") || str_equal(k, "borderStrokeWeightsIndependent"),
        Rule::Constraints => str_equal(k, "horizontalConstraint") || str_equal(k, "verticalConstraint"),
        Rule::BlendMode => str_equal(k, "blendMode") && is_text(v, "NORMAL"),
        Rule::Opacity => str_equal(k, "opacity") && is_one_exec(v),
        Rule::Rotation => str_equal(k, "rotation") && is_below_exec(v, 0x3CB0_0000_0000_0000u64),
        Rule::TextDefaults => (str_equal(k, "letterSpacing") && percent_value_exec(v, false)) || (str_equal(
            k,
            "lineHeight",
        ) && percent_value_exec(v, true)),
        Rule::Visible => str_equal(k, "visible") && match v {
            Json::Bool(b) => *b,
            _ => false,
        },
        Rule::DerivedLayoutSize => key_is(key, "derivedTextData") && str_equal(k, "layoutSize"),
        Rule::DocumentProperties => str_equal(k, "documentColorProfile"),
        Rule::EditInfo => str_equal(k, "editInfo"),
        Rule::FontPostscript => key_is(key, "fontName") && str_equal(k, "postscript") && match v {
            Json::Str(s) => {
                let e = s.as_str().is_empty();
                assert(e ==> s@ =~= Seq::<char>::empty());
                e
            },
            _ => false,
        },
        Rule::ExportSettings => str_equal(k, "exportSettings"),
        Rule::Guid => str_equal(k, "guid"),
        Rule::InternalOnly => str_equal(k, "internalOnly"),
        Rule::Phase => str_equal(k, "phase"),
        Rule::RedundantPadding => (str_equal(k, "stackPaddingRight") && has_key_exec(es, "stackHorizontalPadding"))
            || (str_equal(k, "stackPaddingBottom") && has_key_exec(es, "stackVerticalPadding")),
        Rule::StackAlign => str_equal(k, "stackCounterAlignItems") || str_equal(k, "stackPrimaryAlignItems"),
        Rule::StackChild => str_equal(k, "stackChildAlignSelf") || str_equal(k, "stackChildPrimaryGrow"),
        Rule::TextGlyphs => key_is(key, "derivedTextData") && str_equal(k, "glyphs"),
        Rule::TextLayout => key_is(key, "derivedTextData") && (str_equal(k, "baselines") || str_equal(
            k,
            "logicalIndexToCharacterOffsetMap",
        ) || str_equal(k, "fontMetaData") || str_equal(k, "derivedLines") || str_equal(k, "truncatedHeight")
            || str_equal(k, "truncationStartIndex")),
        Rule::LineDefaults => (str_equal(k, "lines") && all_default_lines_exec(v)) || (line_item
            && default_line_field_exec(k, v)),
        Rule::UserFacingVersion => str_equal(k, "userFacingVersion"),
        Rule::ScaleFactor => str_equal(k, "uniformScaleFactor") && is_one_exec(v),
        _ => false,
    }
}

fn standalone_symbol_id_exec(v: &Json) -> (r: bool)
    ensures
        r == standalone_symbol_id(v@),
{
    match v {
        Json::Object(es) => {
            proof {
                lemma_object_view(*es);
            }
            if es.len() != 1 || !str_equal(es[0].0.as_str(), "overriddenSymbolID") {
                return false;
            }
            match &es[0].1 {
                Json::Object(inner) => {
                    proof {
                        lemma_object_view(*inner);
                    }
                    inner.len() == 2 && has_key_exec(inner, "localID") && has_key_exec(inner, "sessionID")
                },
                _ => false,
            }
        },
        _ => false,
    }
}

fn drops_item_exec(r: Rule, x: &Json) -> (b: bool)
    ensures
        b == drops_item(r, x@),
{
    match r {
        Rule::InternalOnly => x.is_object() && match x.get("internalOnly") {
            Some(Json::Bool(b)) => *b,
            _ => false,
        },
        Rule::OverriddenSymbol => standalone_symbol_id_exec(x),
        _ => false,
    }
}

fn drops_walked_exec(r: Rule, v: &Json) -> (b: bool)
    ensures
        b == drops_walked(r, v@),
{
    match r {
        Rule::EmptyObjects => match v {
            Json::Object(es) => {
                proof {
                    lemma_object_view(*es);
                }
                assert(es@.len() == 0 ==> view_entries(es@) =~= Seq::<(Seq<char>, JsonV)>::empty());
                assert(view_entries(es@).len() == es@.len());
                es.len() == 0
            },
            _ => false,
        },
        Rule::VisibleOnly => match v {
            Json::Object(es) => {
                proof {
                    lemma_object_view(*es);
                }
                es.len() == 1 && str_equal(es[0].0.as_str(), "visible")
            },
            _ => false,
        },
        _ => false,
    }
}

fn enum_text_exec(r: Rule, v: &Json, key: Option<&str>) -> (t: Option<String>)
    ensures
        match enum_text(r, v@, opt_view(key)) {
            Some(s) => (t matches Some(x) && x@ == s),
            None => t is None,
        },
{
    if r != Rule::Enums || key.is_none() {
        return None;
    }
    match v {
        Json::Object(es) => {
            proof {
                lemma_object_view(*es);
            }
            if has_key_exec(es, "__enum__") && has_key_exec(es, "value") {
                match v.get("value") {
                    Some(Json::Str(s)) => Some(s.clone()),
                    _ => None,
                }
            } else {
                None
            }
        },
        _ => None,
    }
}

fn keep_walked_exec(r: Rule, xs: Vec<Json>) -> (out: Vec<Json>)
    ensures
        view_elems(out@) == keep_walked(r, view_elems(xs@)),
{
    let ghost xv = view_elems(xs@);
    let mut out: Vec<Json> = Vec::new();
    let mut xs = xs;
    let mut rev: Vec<Json> = Vec::new();
    while xs.len() > 0
        invariant
            xv.len() == xs@.len() + rev@.len(),
            forall|i: int| 0 <= i < xs@.len() ==> #[trigger] xs@[i]@ == xv[i],
            forall|i: int| 0 <= i < rev@.len() ==> #[trigger] rev@[i]@ == xv[xv.len() - 1 - i],
        decreases xs@.len(),
    {
        let x = xs.pop().unwrap();
        rev.push(x);
    }
    assert(view_elems(out@) =~= keep_walked(r, xv.take(0)));
    while rev.len() > 0
        invariant
            rev@.len() <= xv.len(),
            forall|i: int| 0 <= i < rev@.len() ==> #[trigger] rev@[i]@ == xv[xv.len() - 1 - i],
            view_elems(out@) == keep_walked(r, xv.take(xv.len() - rev@.len())),
        decreases rev@.len(),
    {
        let ghost done = xv.len() - rev@.len();
        let x = rev.pop().unwrap();
        assert(x@ == xv[done]);
        assert(xv.take(done + 1).drop_last() =~= xv.take(done));
        if !drops_walked_exec(r, &x) {
            let ghost pre = out@;
            out.push(x);
            assert(view_elems(out@) =~= view_elems(pre).push(xv[done]));
        }
    }
    assert(xv.take(xv.len() as int) =~= xv);
    out
}

fn keep_walked_entries_exec(r: Rule, es: Vec<(String, Json)>) -> (out: Vec<(String, Json)>)
    ensures
        view_entries(out@) == keep_walked_entries(r, view_entries(es@)),
{
    let ghost ev = view_entries(es@);
    let mut out: Vec<(String, Json)> = Vec::new();
    let mut es = es;
    let mut rev: Vec<(String, Json)> = Vec::new();
    while es.len() > 0
        invariant
            ev.len() == es@.len() + rev@.len(),
            forall|i: int| 0 <= i < es@.len() ==> (#[trigger] es@[i]).0@ == ev[i].0 && es@[i].1@ == ev[i].1,
            forall|i: int| 0 <= i < rev@.len() ==> (#[trigger] rev@[i]).0@ == ev[ev.len() - 1 - i].0 && rev@[i].1@
                == ev[ev.len() - 1 - i].1,
        decreases es@.len(),
    {
        let x = es.pop().unwrap();
        rev.push(x);
    }
    assert(view_entries(out@) =~= keep_walked_entries(r, ev.take(0)));
    while rev.len() > 0
        invariant
            forall|i: int| 0 <= i < rev@.len() ==> (#[trigger] rev@[i]).0@ == ev[ev.len() - 1 - i].0 && rev@[i].1@
                == ev[ev.len() - 1 - i].1,
            rev@.len() <= ev.len(),
            view_entries(out@) == keep_walked_entries(r, ev.take(ev.len() - rev@.len())),
        decreases rev@.len(),
    {
        let ghost done = ev.len() - rev@.len();
        let x = rev.pop().unwrap();
        assert(x.0@ == ev[done].0 && x.1@ == ev[done].1);
        assert(ev.take(done + 1).drop_last() =~= ev.take(done));
        if !drops_walked_exec(r, &x.1) {
            let ghost pre = out@;
            out.push(x);
            assert(view_entries(out@) =~= view_entries(pre).push(ev[done]));
        }
    }
    assert(ev.take(ev.len() as int) =~= ev);
    out
}

fn walk_exec(r: Rule, v: &Json, key: Option<&str>, line_item: bool) -> (out: Json)
    ensures
        out@ == walk(r, v@, opt_view(key), line_item),
    decreases v,
{
    match enum_text_exec(r, v, key) {
        Some(s) => {
            return Json::Str(s);
        },
        None => {},
    }
    match v {
        Json::Object(es) => {
            proof {
                lemma_object_view(*es);
            }
            let ghost ev = view_entries(es@);
            let mut out: Vec<(String, Json)> = Vec::new();
            let mut i: usize = 0;
            assert(view_entries(out@) =~= Seq::<(Seq<char>, JsonV)>::empty());
            while i < es.len()
                invariant
                    *v == Json::Object(*es),
                    ev == view_entries(es@),
                    i <= es@.len(),
                    view_entries(out@) == walk_entries(r, ev, opt_view(key), line_item, i as int),
                decreases es@.len() - i,
            {
                if !drops_entry_exec(r, es, key, line_item, es[i].0.as_str(), &es[i].1) {
                    proof {
                        vstd::std_specs::vec::axiom_vec_index_decreases(*es, i as int);
                        assert(decreases_to!(*v => (*v)->Object_0));
                        assert(decreases_to!(es@[i as int] => es@[i as int].1));
                        assert(decreases_to!(*v => es@[i as int].1));
                    }
                    let w = walk_exec(r, &es[i].1, Some(es[i].0.as_str()), false);
                    let k = es[i].0.clone();
                    let ghost pre = out@;
                    let ghost wv = w@;
                    out.push((k, w));
                    assert(view_entries(out@) =~= view_entries(pre).push((ev[i as int].0, wv)));
                }
                i = i + 1;
            }
            let kept = keep_walked_entries_exec(r, out);
            proof {
                lemma_object_view(kept);
            }
            Json::Object(kept)
        },
        Json::Array(xs) => {
            proof {
                lemma_array_view(*xs);
            }
            let ghost xv = view_elems(xs@);
            let lines = r == Rule::LineDefaults && key_is(key, "lines");
            let mut out: Vec<Json> = Vec::new();
            let mut i: usize = 0;
            assert(view_elems(out@) =~= Seq::<JsonV>::empty());
            while i < xs.len()
                invariant
                    *v == Json::Array(*xs),
                    xv == view_elems(xs@),
                    lines == (r == Rule::LineDefaults && opt_view(key) == Some("lines"@)),
                    i <= xs@.len(),
                    view_elems(out@) == walk_items(r, xv, lines, i as int),
                decreases xs@.len() - i,
            {
                if !drops_item_exec(r, &xs[i]) {
                    proof {
                        vstd::std_specs::vec::axiom_vec_index_decreases(*xs, i as int);
                        assert(decreases_to!(*v => (*v)->Array_0));
                        assert(decreases_to!(*v => xs@[i as int]));
                    }
                    let w = walk_exec(r, &xs[i], None, lines);
                    let ghost pre = out@;
                    out.push(w);
                    assert(view_elems(out@) =~= view_elems(pre).push(w@));
                }
                i = i + 1;
            }
            let kept = keep_walked_exec(r, out);
            proof {
                lemma_array_view(kept);
            }
            Json::Array(kept)
        },
        _ => clone_json(v),
    }
}

/// Applies a clean-up pass to a whole document.
pub fn apply_rule(tree: &mut Json, r: Rule)
    ensures
        final(tree)@ == walk(r, old(tree)@, None, false),
{
    let w = walk_exec(r, tree, None, false);
    *tree = w;
}

/// Removes `backgroundEnabled` and `backgroundOpacity` from every object.
pub fn remove_background_properties(tree: &mut Json) -> (r: Result<(), FigError>)
    ensures
        r is Ok,
        final(tree)@ == walk(Rule::Background, old(tree)@, None, false),
{
    apply_rule(tree, Rule::Background);
    Ok(())
}

/// Removes the border weight fields from every object.
pub fn remove_border_weights(tree: &mut Json) -> (r: Result<(), FigError>)
    ensures
        r is Ok,
        final(tree)@ == walk(Rule::BorderWeights, old(tree)@, None, false),
{
    apply_rule(tree, Rule::BorderWeights);
    Ok(())
}

/// Removes `horizontalConstraint` and `verticalConstraint` from every object.
pub fn remove_constraint_properties(tree: &mut Json) -> (r: Result<(), FigError>)
    ensures
        r is Ok,
        final(tree)@ == walk(Rule::Constraints, old(tree)@, None, false),
{
    apply_rule(tree, Rule::Constraints);
    Ok(())
}

/// Removes `blendMode` where it is `NORMAL`.
pub fn remove_default_blend_mode(tree: &mut Json) -> (r: Result<(), FigError>)
    ensures
        r is Ok,
        final(tree)@ == walk(Rule::BlendMode, old(tree)@, None, false),
{
    apply_rule(tree, Rule::BlendMode);
    Ok(())
}

/// Removes `opacity` where it is 1.
pub fn remove_default_opacity(tree: &mut Json) -> (r: Result<(), FigError>)
    ensures
        r is Ok,
        final(tree)@ == walk(Rule::Opacity, old(tree)@, None, false),
{
    apply_rule(tree, Rule::Opacity);
    Ok(())
}

/// Removes `rotation` where it is 0.
pub fn remove_default_rotation(tree: &mut Json) -> (r: Result<(), FigError>)
    ensures
        r is Ok,
        final(tree)@ == walk(Rule::Rotation, old(tree)@, None, false),
{
    apply_rule(tree, Rule::Rotation);
    Ok(())
}

/// Removes `letterSpacing` of 0 percent and `lineHeight` of 100 percent.
pub fn remove_default_text_properties(tree: &mut Json) -> (r: Result<(), FigError>)
    ensures
        r is Ok,
        final(tree)@ == walk(Rule::TextDefaults, old(tree)@, None, false),
{
    apply_rule(tree, Rule::TextDefaults);
    Ok(())
}

/// Removes `visible` where it is `true`.
pub fn remove_default_visible(tree: &mut Json) -> (r: Result<(), FigError>)
    ensures
        r is Ok,
        final(tree)@ == walk(Rule::Visible, old(tree)@, None, false),
{
    apply_rule(tree, Rule::Visible);
    Ok(())
}

/// Removes `layoutSize` from every `derivedTextData` object.
pub fn remove_derived_text_layout_size(tree: &mut Json) -> (r: Result<(), FigError>)
    ensures
        r is Ok,
        final(tree)@ == walk(Rule::DerivedLayoutSize, old(tree)@, None, false),
{
    apply_rule(tree, Rule::DerivedLayoutSize);
    Ok(())
}

/// Removes `documentColorProfile` from every object.
pub fn remove_document_properties(tree: &mut Json) -> (r: Result<(), FigError>)
    ensures
        r is Ok,
        final(tree)@ == walk(Rule::DocumentProperties, old(tree)@, None, false),
{
    apply_rule(tree, Rule::DocumentProperties);
    Ok(())
}

/// Removes `editInfo` from every object.
pub fn remove_edit_info_fields(tree: &mut Json) -> (r: Result<(), FigError>)
    ensures
        r is Ok,
        final(tree)@ == walk(Rule::EditInfo, old(tree)@, None, false),
{
    apply_rule(tree, Rule::EditInfo);
    Ok(())
}

/// Removes an empty `postscript` from every `fontName` object.
pub fn remove_empty_font_postscript(tree: &mut Json) -> (r: Result<(), FigError>)
    ensures
        r is Ok,
        final(tree)@ == walk(Rule::FontPostscript, old(tree)@, None, false),
{
    apply_rule(tree, Rule::FontPostscript);
    Ok(())
}

/// Removes empty objects from every object and array, innermost first.
pub fn remove_empty_objects(tree: &mut Json) -> (r: Result<(), FigError>)
    ensures
        r is Ok,
        final(tree)@ == walk(Rule::EmptyObjects, old(tree)@, None, false),
{
    apply_rule(tree, Rule::EmptyObjects);
    Ok(())
}

/// Replaces every enum object held in a field by its `value` text.
pub fn simplify_enums(tree: &mut Json) -> (r: Result<(), FigError>)
    ensures
        r is Ok,
        final(tree)@ == walk(Rule::Enums, old(tree)@, None, false),
{
    apply_rule(tree, Rule::Enums);
    Ok(())
}

/// Removes `exportSettings` from every object.
pub fn remove_export_settings(tree: &mut Json) -> (r: Result<(), FigError>)
    ensures
        r is Ok,
        final(tree)@ == walk(Rule::ExportSettings, old(tree)@, None, false),
{
    apply_rule(tree, Rule::ExportSettings);
    Ok(())
}

/// Removes `guid` from every object.
pub fn remove_guid_fields(tree: &mut Json) -> (r: Result<(), FigError>)
    ensures
        r is Ok,
        final(tree)@ == walk(Rule::Guid, old(tree)@, None, false),
{
    apply_rule(tree, Rule::Guid);
    Ok(())
}

/// Removes internal-only objects from arrays and the `internalOnly` flag from objects.
pub fn remove_internal_only_nodes(tree: &mut Json) -> (r: Result<(), FigError>)
    ensures
        r is Ok,
        final(tree)@ == walk(Rule::InternalOnly, old(tree)@, None, false),
{
    apply_rule(tree, Rule::InternalOnly);
    Ok(())
}

/// Removes array items that only hold an `overriddenSymbolID`.
pub fn remove_overridden_symbol_id(tree: &mut Json) -> (r: Result<(), FigError>)
    ensures
        r is Ok,
        final(tree)@ == walk(Rule::OverriddenSymbol, old(tree)@, None, false),
{
    apply_rule(tree, Rule::OverriddenSymbol);
    Ok(())
}

/// Removes `phase` from every object.
pub fn remove_phase_fields(tree: &mut Json) -> (r: Result<(), FigError>)
    ensures
        r is Ok,
        final(tree)@ == walk(Rule::Phase, old(tree)@, None, false),
{
    apply_rule(tree, Rule::Phase);
    Ok(())
}

/// Removes `stackPaddingRight` and `stackPaddingBottom` where the shared paddings are set.
pub fn remove_redundant_padding(tree: &mut Json) -> (r: Result<(), FigError>)
    ensures
        r is Ok,
        final(tree)@ == walk(Rule::RedundantPadding, old(tree)@, None, false),
{
    apply_rule(tree, Rule::RedundantPadding);
    Ok(())
}

/// Removes `stackCounterAlignItems` and `stackPrimaryAlignItems` from every object.
pub fn remove_stack_align_items(tree: &mut Json) -> (r: Result<(), FigError>)
    ensures
        r is Ok,
        final(tree)@ == walk(Rule::StackAlign, old(tree)@, None, false),
{
    apply_rule(tree, Rule::StackAlign);
    Ok(())
}

/// Removes `stackChildAlignSelf` and `stackChildPrimaryGrow` from every object.
pub fn remove_stack_child_properties(tree: &mut Json) -> (r: Result<(), FigError>)
    ensures
        r is Ok,
        final(tree)@ == walk(Rule::StackChild, old(tree)@, None, false),
{
    apply_rule(tree, Rule::StackChild);
    Ok(())
}

/// Removes `glyphs` from every `derivedTextData` object.
pub fn remove_text_glyphs(tree: &mut Json) -> (r: Result<(), FigError>)
    ensures
        r is Ok,
        final(tree)@ == walk(Rule::TextGlyphs, old(tree)@, None, false),
{
    apply_rule(tree, Rule::TextGlyphs);
    Ok(())
}

/// Removes the layout fields from every `derivedTextData` object.
pub fn remove_text_layout_fields(tree: &mut Json) -> (r: Result<(), FigError>)
    ensures
        r is Ok,
        final(tree)@ == walk(Rule::TextLayout, old(tree)@, None, false),
{
    apply_rule(tree, Rule::TextLayout);
    Ok(())
}

/// Removes default fields of text lines, and `lines` arrays of default lines.
pub fn remove_default_text_line_properties(tree: &mut Json) -> (r: Result<(), FigError>)
    ensures
        r is Ok,
        final(tree)@ == walk(Rule::LineDefaults, old(tree)@, None, false),
{
    apply_rule(tree, Rule::LineDefaults);
    Ok(())
}

/// Removes `uniformScaleFactor` where it is 1.
pub fn remove_default_uniform_scale_factor(tree: &mut Json) -> (r: Result<(), FigError>)
    ensures
        r is Ok,
        final(tree)@ == walk(Rule::ScaleFactor, old(tree)@, None, false),
{
    apply_rule(tree, Rule::ScaleFactor);
    Ok(())
}

/// Removes `userFacingVersion` from every object.
pub fn remove_user_facing_versions(tree: &mut Json) -> (r: Result<(), FigError>)
    ensures
        r is Ok,
        final(tree)@ == walk(Rule::UserFacingVersion, old(tree)@, None, false),
{
    apply_rule(tree, Rule::UserFacingVersion);
    Ok(())
}

/// Removes objects whose only field is `visible`, innermost first.
pub fn remove_visible_only_objects(tree: &mut Json) -> (r: Result<(), FigError>)
    ensures
        r is Ok,
        final(tree)@ == walk(Rule::VisibleOnly, old(tree)@, None, false),
{
    apply_rule(tree, Rule::VisibleOnly);
    Ok(())
}

/// The document without the top-level fields `ks`; other values unchanged.
pub open spec fn without_root_keys(v: JsonV, ks: Seq<Seq<char>>) -> JsonV {
    match v {
        JsonV::Object(es) => JsonV::Object(es.filter(|e: (Seq<char>, JsonV)| !ks.contains(e.0))),
        _ => v,
    }
}

fn remove_root_keys(tree: &mut Json, k1: &str, k2: &str)
    ensures
        final(tree)@ == without_root_keys(old(tree)@, seq![k1@, k2@]),
{
    match tree {
        Json::Object(es) => {
            let ghost ks = seq![k1@, k2@];
            proof {
                lemma_object_view(*es);
            }
            let ghost ev = view_entries(es@);
            let mut out: Vec<(String, Json)> = Vec::new();
            let mut i: usize = 0;
            while i < es.len()
                invariant
                    ev == view_entries(es@),
                    ks == seq![k1@, k2@],
                    i <= es@.len(),
                    view_entries(out@) == ev.take(i as int).filter(|e: (Seq<char>, JsonV)| !ks.contains(e.0)),
                decreases es@.len() - i,
            {
                assert(ev.take(i + 1).drop_last() =~= ev.take(i as int));
                let k = es[i].0.as_str();
                let drop = str_equal(k, k1) || str_equal(k, k2);
                assert(drop == ks.contains(ev[i as int].0)) by {
                    if ks.contains(ev[i as int].0) {
                        let t = choose|t: int| 0 <= t < ks.len() && ks[t] == ev[i as int].0;
                        assert(t == 0 || t == 1);
                    }
                    if drop {
                        if k@ == k1@ {
                            assert(ks[0] == k1@);
                        } else {
                            assert(ks[1] == k2@);
                        }
                    }
                }
                if !drop {
                    let e = (es[i].0.clone(), clone_json(&es[i].1));
                    let ghost pre = out@;
                    out.push(e);
                    assert(view_entries(out@) =~= view_entries(pre).push(ev[i as int]));
                }
                proof {
                    ev.take(i as int).lemma_filter_push(ev[i as int], |e: (Seq<char>, JsonV)| !ks.contains(e.0));
                    assert(ev.take(i + 1) =~= ev.take(i as int).push(ev[i as int]));
                }
                i = i + 1;
            }
            assert(ev.take(es@.len() as int) =~= ev);
            proof {
                lemma_object_view(out);
            }
            *es = out;
        },
        _ => {},
    }
}

/// Removes the top-level `blobs` field.
pub fn remove_root_blobs(json: &mut Json) -> (r: Result<(), FigError>)
    ensures
        r is Ok,
        final(json)@ == without_root_keys(old(json)@, seq!["blobs"@, "blobs"@]),
{
    remove_root_keys(json, "blobs", "blobs");
    Ok(())
}

/// Removes the top-level `version` and `fileType` fields.
pub fn remove_root_metadata(json: &mut Json) -> (r: Result<(), FigError>)
    ensures
        r is Ok,
        final(json)@ == without_root_keys(old(json)@, seq!["version"@, "fileType"@]),
{
    remove_root_keys(json, "version", "fileType");
    Ok(())
}

/// No object anywhere in the document has a field named `k`.
pub open spec fn no_key(v: JsonV, k: Seq<char>) -> bool
    decreases v, 0int,
{
    match v {
        JsonV::Object(es) => no_key_entries(es, k, es.len() as int),
        JsonV::Array(xs) => no_key_items(xs, k, xs.len() as int),
        _ => true,
    }
}

/// None of the first `n` entries is named `k` or holds a field named `k`.
pub open spec fn no_key_entries(es: Seq<(Seq<char>, JsonV)>, k: Seq<char>, n: int) -> bool
    decreases es, n,
{
    if n <= 0 || n > es.len() {
        true
    } else {
        proof {
            assert(decreases_to!(es => es[n - 1]));
            assert(decreases_to!(es[n - 1] => es[n - 1].1));
        }
        no_key_entries(es, k, n - 1) && es[n - 1].0 != k && no_key(es[n - 1].1, k)
    }
}

/// None of the first `n` items holds a field named `k`.
pub open spec fn no_key_items(xs: Seq<JsonV>, k: Seq<char>, n: int) -> bool
    decreases xs, n,
{
    if n <= 0 || n > xs.len() {
        true
    } else {
        proof {
            assert(decreases_to!(xs => xs[n - 1]));
        }
        no_key_items(xs, k, n - 1) && no_key(xs[n - 1], k)
    }
}

/// The fields that a rule removes wherever they occur.
pub open spec fn always_removes(r: Rule, k: Seq<char>) -> bool {
    match r {
        Rule::Background => k == "backgroundEnabled"@ || k == "backgroundOpacity"@,
        Rule::BorderWeights => k == "borderTopWeight"@ || k == "borderBottomWeight"@ || k == "borderLeftWeight"@
            || k == "borderRightWeight"@ || k == "borderStrokeWeightsIndependent"@,
        Rule::Constraints => k == "horizontalConstraint"@ || k == "verticalConstraint"@,
        Rule::DocumentProperties => k == "documentColorProfile"@,
        Rule::EditInfo => k == "editInfo"@,
        Rule::ExportSettings => k == "exportSettings"@,
        Rule::Guid => k == "guid"@,
        Rule::InternalOnly => k == "internalOnly"@,
        Rule::Phase => k == "phase"@,
        Rule::StackAlign => k == "stackCounterAlignItems"@ || k == "stackPrimaryAlignItems"@,
        Rule::StackChild => k == "stackChildAlignSelf"@ || k == "stackChildPrimaryGrow"@,
        Rule::UserFacingVersion => k == "userFacingVersion"@,
        _ => false,
    }
}

proof fn lemma_keep_entries_no_key(r: Rule, es: Seq<(Seq<char>, JsonV)>, k: Seq<char>)
    requires
        no_key_entries(es, k, es.len() as int),
    ensures
        no_key_entries(keep_walked_entries(r, es), k, keep_walked_entries(r, es).len() as int),
    decreases es.len(),
{
    if es.len() > 0 {
        let d = es.drop_last();
        lemma_no_key_entries_prefix(es, k, es.len() - 1);
        lemma_no_key_entries_same(es, d, k, d.len() as int);
        lemma_keep_entries_no_key(r, d, k);
        let kd = keep_walked_entries(r, d);
        if !drops_walked(r, es.last().1) {
            lemma_no_key_entries_same(kd, kd.push(es.last()), k, kd.len() as int);
        }
    }
}

proof fn lemma_keep_items_no_key(r: Rule, xs: Seq<JsonV>, k: Seq<char>)
    requires
        no_key_items(xs, k, xs.len() as int),
    ensures
        no_key_items(keep_walked(r, xs), k, keep_walked(r, xs).len() as int),
    decreases xs.len(),
{
    if xs.len() > 0 {
        let d = xs.drop_last();
        lemma_no_key_items_prefix(xs, k, xs.len() - 1);
        lemma_no_key_items_same(xs, d, k, d.len() as int);
        lemma_keep_items_no_key(r, d, k);
        let kd = keep_walked(r, d);
        if !drops_walked(r, xs.last()) {
            lemma_no_key_items_same(kd, kd.push(xs.last()), k, kd.len() as int);
        }
    }
}

proof fn lemma_no_key_entries_prefix(es: Seq<(Seq<char>, JsonV)>, k: Seq<char>, n: int)
    requires
        0 <= n <= es.len(),
        no_key_entries(es, k, es.len() as int),
    ensures
        no_key_entries(es, k, n),
    decreases es.len() - n,
{
    if n < es.len() {
        lemma_no_key_entries_prefix(es, k, n + 1);
    }
}

proof fn lemma_no_key_items_prefix(xs: Seq<JsonV>, k: Seq<char>, n: int)
    requires
        0 <= n <= xs.len(),
        no_key_items(xs, k, xs.len() as int),
    ensures
        no_key_items(xs, k, n),
    decreases xs.len() - n,
{
    if n < xs.len() {
        lemma_no_key_items_prefix(xs, k, n + 1);
    }
}

proof fn lemma_no_key_entries_same(a: Seq<(Seq<char>, JsonV)>, b: Seq<(Seq<char>, JsonV)>, k: Seq<char>, n: int)
    requires
        0 <= n <= a.len(),
        n <= b.len(),
        forall|i: int| 0 <= i < n ==> a[i] == b[i],
    ensures
        no_key_entries(a, k, n) == no_key_entries(b, k, n),
    decreases n,
{
    if n > 0 {
        lemma_no_key_entries_same(a, b, k, n - 1);
    }
}

proof fn lemma_no_key_items_same(a: Seq<JsonV>, b: Seq<JsonV>, k: Seq<char>, n: int)
    requires
        0 <= n <= a.len(),
        n <= b.len(),
        forall|i: int| 0 <= i < n ==> a[i] == b[i],
    ensures
        no_key_items(a, k, n) == no_key_items(b, k, n),
    decreases n,
{
    if n > 0 {
        lemma_no_key_items_same(a, b, k, n - 1);
    }
}

proof fn lemma_walk_entries_no_key(
    r: Rule,
    es: Seq<(Seq<char>, JsonV)>,
    key: Option<Seq<char>>,
    line_item: bool,
    n: int,
    k: Seq<char>,
)
    requires
        always_removes(r, k),
        0 <= n <= es.len(),
    ensures
        no_key_entries(walk_entries(r, es, key, line_item, n), k, walk_entries(r, es, key, line_item, n).len() as int),
    decreases es, n,
{
    if n > 0 {
        lemma_walk_entries_no_key(r, es, key, line_item, n - 1, k);
        let rest = walk_entries(r, es, key, line_item, n - 1);
        let e = es[n - 1];
        if !drops_entry(r, es, key, line_item, e.0, e.1) {
            assert(decreases_to!(es => es[n - 1]));
            assert(decreases_to!(es[n - 1] => es[n - 1].1));
            lemma_walk_no_key(r, e.1, Some(e.0), false, k);
            let out = rest.push((e.0, walk(r, e.1, Some(e.0), false)));
            lemma_no_key_entries_same(rest, out, k, rest.len() as int);
        }
    }
}

proof fn lemma_walk_items_no_key(r: Rule, xs: Seq<JsonV>, lines: bool, n: int, k: Seq<char>)
    requires
        always_removes(r, k),
        0 <= n <= xs.len(),
    ensures
        no_key_items(walk_items(r, xs, lines, n), k, walk_items(r, xs, lines, n).len() as int),
    decreases xs, n,
{
    if n > 0 {
        lemma_walk_items_no_key(r, xs, lines, n - 1, k);
        let rest = walk_items(r, xs, lines, n - 1);
        if !drops_item(r, xs[n - 1]) {
            assert(decreases_to!(xs => xs[n - 1]));
            lemma_walk_no_key(r, xs[n - 1], None, lines, k);
            let out = rest.push(walk(r, xs[n - 1], None, lines));
            lemma_no_key_items_same(rest, out, k, rest.len() as int);
        }
    }
}

/// A pass that removes a field wherever it occurs leaves no object anywhere
/// with that field.
pub proof fn lemma_walk_no_key(r: Rule, v: JsonV, key: Option<Seq<char>>, line_item: bool, k: Seq<char>)
    requires
        always_removes(r, k),
    ensures
        no_key(walk(r, v, key, line_item), k),
    decreases v, 0int,
{
    match v {
        JsonV::Object(es) => {
            lemma_walk_entries_no_key(r, es, key, line_item, es.len() as int, k);
            lemma_keep_entries_no_key(r, walk_entries(r, es, key, line_item, es.len() as int), k);
        },
        JsonV::Array(xs) => {
            let lines = r == Rule::LineDefaults && key == Some("lines"@);
            lemma_walk_items_no_key(r, xs, lines, xs.len() as int, k);
            lemma_keep_items_no_key(r, walk_items(r, xs, lines, xs.len() as int), k);
        },
        _ => {},
    }
}

/// The rules that remove fields by their name alone, whatever they hold.
pub open spec fn removes_by_name(r: Rule) -> bool {
    ||| r == Rule::Background
    ||| r == Rule::BorderWeights
    ||| r == Rule::Constraints
    ||| r == Rule::DocumentProperties
    ||| r == Rule::EditInfo
    ||| r == Rule::ExportSettings
    ||| r == Rule::Guid
    ||| r == Rule::InternalOnly
    ||| r == Rule::Phase
    ||| r == Rule::StackAlign
    ||| r == Rule::StackChild
    ||| r == Rule::UserFacingVersion
}

proof fn lemma_no_key_entry_at(es: Seq<(Seq<char>, JsonV)>, k: Seq<char>, n: int, j: int)
    requires
        0 <= j < n <= es.len(),
        no_key_entries(es, k, n),
    ensures
        es[j].0 != k,
        no_key(es[j].1, k),
    decreases n,
{
    if j < n - 1 {
        lemma_no_key_entry_at(es, k, n - 1, j);
    }
}

proof fn lemma_no_key_item_at(xs: Seq<JsonV>, k: Seq<char>, n: int, j: int)
    requires
        0 <= j < n <= xs.len(),
        no_key_items(xs, k, n),
    ensures
        no_key(xs[j], k),
    decreases n,
{
    if j < n - 1 {
        lemma_no_key_item_at(xs, k, n - 1, j);
    }
}

proof fn lemma_keep_entries_all(r: Rule, es: Seq<(Seq<char>, JsonV)>)
    requires
        removes_by_name(r),
    ensures
        keep_walked_entries(r, es) == es,
    decreases es.len(),
{
    if es.len() > 0 {
        lemma_keep_entries_all(r, es.drop_last());
        assert(es.drop_last().push(es.last()) =~= es);
    }
}

proof fn lemma_keep_items_all(r: Rule, xs: Seq<JsonV>)
    requires
        removes_by_name(r),
    ensures
        keep_walked(r, xs) == xs,
    decreases xs.len(),
{
    if xs.len() > 0 {
        lemma_keep_items_all(r, xs.drop_last());
        assert(xs.drop_last().push(xs.last()) =~= xs);
    }
}

proof fn lemma_walk_entries_clean(
    r: Rule,
    es: Seq<(Seq<char>, JsonV)>,
    key: Option<Seq<char>>,
    line_item: bool,
    n: int,
)
    requires
        removes_by_name(r),
        0 <= n <= es.len(),
        forall|k: Seq<char>| #[trigger] always_removes(r, k) ==> no_key_entries(es, k, es.len() as int),
    ensures
        walk_entries(r, es, key, line_item, n) == es.take(n),
    decreases es, n,
{
    if n > 0 {
        lemma_walk_entries_clean(r, es, key, line_item, n - 1);
        let e = es[n - 1];
        if always_removes(r, e.0) {
            lemma_no_key_entry_at(es, e.0, es.len() as int, n - 1);
        }
        assert(!drops_entry(r, es, key, line_item, e.0, e.1));
        assert(decreases_to!(es => es[n - 1]));
        assert(decreases_to!(es[n - 1] => es[n - 1].1));
        assert forall|k: Seq<char>| #[trigger] always_removes(r, k) implies no_key(e.1, k) by {
            lemma_no_key_entry_at(es, k, es.len() as int, n - 1);
        }
        lemma_walk_keeps_clean(r, e.1, Some(e.0), false);
        assert(es.take(n - 1).push(e) =~= es.take(n));
    }
}

proof fn lemma_walk_items_clean(r: Rule, xs: Seq<JsonV>, lines: bool, n: int)
    requires
        removes_by_name(r),
        0 <= n <= xs.len(),
        forall|k: Seq<char>| #[trigger] always_removes(r, k) ==> no_key_items(xs, k, xs.len() as int),
    ensures
        walk_items(r, xs, lines, n) == xs.take(n),
    decreases xs, n,
{
    if n > 0 {
        lemma_walk_items_clean(r, xs, lines, n - 1);
        let x = xs[n - 1];
        if r == Rule::InternalOnly && x is Object {
            let es = x->Object_0;
            assert(always_removes(r, "internalOnly"@));
            lemma_no_key_item_at(xs, "internalOnly"@, xs.len() as int, n - 1);
            crate::json::lemma_entry_index(es, "internalOnly"@);
            if crate::json::entry_index(es, "internalOnly"@) >= 0 {
                lemma_no_key_entry_at(
                    es,
                    "internalOnly"@,
                    es.len() as int,
                    crate::json::entry_index(es, "internalOnly"@),
                );
            }
        }
        assert(!drops_item(r, x));
        assert(decreases_to!(xs => xs[n - 1]));
        assert forall|k: Seq<char>| #[trigger] always_removes(r, k) implies no_key(x, k) by {
            lemma_no_key_item_at(xs, k, xs.len() as int, n - 1);
        }
        lemma_walk_keeps_clean(r, x, None, lines);
        assert(xs.take(n - 1).push(x) =~= xs.take(n));
    }
}

/// A pass that removes fields by name changes nothing in a document that
/// holds none of those fields: every other field, value and item is kept.
pub proof fn lemma_walk_keeps_clean(r: Rule, v: JsonV, key: Option<Seq<char>>, line_item: bool)
    requires
        removes_by_name(r),
        forall|k: Seq<char>| #[trigger] always_removes(r, k) ==> no_key(v, k),
    ensures
        walk(r, v, key, line_item) == v,
    decreases v, 0int,
{
    match v {
        JsonV::Object(es) => {
            lemma_walk_entries_clean(r, es, key, line_item, es.len() as int);
            lemma_keep_entries_all(r, es.take(es.len() as int));
            assert(es.take(es.len() as int) =~= es);
        },
        JsonV::Array(xs) => {
            let lines = r == Rule::LineDefaults && key == Some("lines"@);
            lemma_walk_items_clean(r, xs, lines, xs.len() as int);
            lemma_keep_items_all(r, xs.take(xs.len() as int));
            assert(xs.take(xs.len() as int) =~= xs);
        },
        _ => {},
    }
}

/// True for a `letterSpacing` value of 0 percent.
pub fn is_default_letter_spacing(value: &Json) -> (r: bool)
    ensures
        r == percent_value(value@, false),
{
    percent_value_exec(value, false)
}

/// True for a `lineHeight` value of 100 percent.
pub fn is_default_line_height(value: &Json) -> (r: bool)
    ensures
        r == percent_value(value@, true),
{
    percent_value_exec(value, true)
}

/// True for the entries of an enum object: it has `__enum__` and `value`.
pub fn is_enum_object(obj: &Vec<(String, Json)>) -> (r: bool)
    ensures
        r == (has_key(view_entries(obj@), "__enum__"@) && has_key(view_entries(obj@), "value"@)),
{
    has_key_exec(obj, "__enum__") && has_key_exec(obj, "value")
}

/// The `value` text of an enum object's entries.
pub fn extract_enum_value(obj: &Vec<(String, Json)>) -> (r: Option<String>)
    ensures
        match jget(JsonV::Object(view_entries(obj@)), "value"@) {
            Some(JsonV::Str(s)) => (r matches Some(t) && t@ == s),
            _ => r is None,
        },
{
    match Json::find_entry(obj, "value") {
        Some(i) => match &obj[i].1 {
            Json::Str(s) => Some(s.clone()),
            _ => None,
        },
        None => None,
    }
}

/// The biased exponent field of a double given by its bits.
pub open spec fn f64_exponent_field(b: u64) -> u64 {
    (b >> 52u64) & 0x7ffu64
}

proof fn lemma_magnitude_bits(b: u64)
    ensures
        f64_exponent_field(b) >= 990 ==> (b & 0x7FFF_FFFF_FFFF_FFFFu64) >= 0x3DDB_7CDF_D9D7_BDBBu64,
        f64_exponent_field(b) <= 988 ==> (b & 0x7FFF_FFFF_FFFF_FFFFu64) < 0x3DDB_7CDF_D9D7_BDBBu64,
{
    assert(((b >> 52u64) & 0x7ffu64) >= 990 ==> (b & 0x7FFF_FFFF_FFFF_FFFFu64) >= 0x3DDB_7CDF_D9D7_BDBBu64)
        by (bit_vector);
    assert(((b >> 52u64) & 0x7ffu64) <= 988 ==> (b & 0x7FFF_FFFF_FFFF_FFFFu64) < 0x3DDB_7CDF_D9D7_BDBBu64)
        by (bit_vector);
}

/// A percent `letterSpacing` is the default only when its value is 0 within
/// 1e-10: a double of magnitude at least 2^-33 (about 1.16e-10, such as
/// -2.0 or 1.0) or a non-zero integer keeps the entry, and a double of
/// magnitude below 2^-34 (about 5.8e-11) or the integer 0 drops it.
pub proof fn lemma_letter_spacing_default(
    es: Seq<(Seq<char>, JsonV)>,
    key: Option<Seq<char>>,
    line_item: bool,
    v: JsonV,
    b: u64,
    n: u64,
)
    requires
        v is Object,
        jget(v, "units"@) == Some(JsonV::Str("PERCENT"@)),
    ensures
        jget(v, "value"@) == Some(JsonV::Number(JsonNumber::Float(b))) && f64_exponent_field(b) >= 990 ==> !drops_entry(
            Rule::TextDefaults,
            es,
            key,
            line_item,
            "letterSpacing"@,
            v,
        ),
        jget(v, "value"@) == Some(JsonV::Number(JsonNumber::Float(b))) && f64_exponent_field(b) <= 988 ==> drops_entry(
            Rule::TextDefaults,
            es,
            key,
            line_item,
            "letterSpacing"@,
            v,
        ),
        jget(v, "value"@) == Some(JsonV::Number(JsonNumber::PosInt(n))) ==> (drops_entry(
            Rule::TextDefaults,
            es,
            key,
            line_item,
            "letterSpacing"@,
            v,
        ) <==> n == 0),
{
    lemma_magnitude_bits(b);
    reveal_strlit("letterSpacing");
    reveal_strlit("lineHeight");
    assert("letterSpacing"@.len() != "lineHeight"@.len());
}

/// A percent `lineHeight` is the default only near 100: the value 100 drops
/// the entry, while a negative double, a double outside [64, 128) or an
/// integer other than 100 keeps it.
pub proof fn lemma_line_height_default(
    es: Seq<(Seq<char>, JsonV)>,
    key: Option<Seq<char>>,
    line_item: bool,
    v: JsonV,
    b: u64,
    n: u64,
)
    requires
        v is Object,
        jget(v, "units"@) == Some(JsonV::Str("PERCENT"@)),
    ensures
        jget(v, "value"@) == Some(JsonV::Number(JsonNumber::Float(0x4059_0000_0000_0000u64))) ==> drops_entry(
            Rule::TextDefaults,
            es,
            key,
            line_item,
            "lineHeight"@,
            v,
        ),
        jget(v, "value"@) == Some(JsonV::Number(JsonNumber::Float(b))) && (b >= 0x8000_0000_0000_0000u64
            || f64_exponent_field(b) != 0x405) ==> !drops_entry(Rule::TextDefaults, es, key, line_item, "lineHeight"@, v),
        jget(v, "value"@) == Some(JsonV::Number(JsonNumber::PosInt(n))) ==> (drops_entry(
            Rule::TextDefaults,
            es,
            key,
            line_item,
            "lineHeight"@,
            v,
        ) <==> n == 100),
{
    assert((b >= 0x8000_0000_0000_0000u64 || ((b >> 52u64) & 0x7ffu64) != 0x405) ==> !(0x4058_FFFF_FFFF_E484u64 <= b
        && b <= 0x4059_0000_0000_1B7Cu64)) by (bit_vector);
    reveal_strlit("letterSpacing");
    reveal_strlit("lineHeight");
    assert("letterSpacing"@.len() != "lineHeight"@.len());
}

} // verus!
