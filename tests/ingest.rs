use export_ingest::{
    decode_group, decode_item_descriptor, decode_recipe, ingest, parse_decimal, parse_stringed_float,
    ClassGroup, CoercionError, Field, GroupError, JsonType, JsonValue, RecordError, RecordKind,
};

fn to_json(v: &serde_json::Value) -> JsonValue {
    match v {
        serde_json::Value::Null => JsonValue::Null,
        serde_json::Value::Bool(b) => JsonValue::Bool(*b),
        serde_json::Value::Number(n) => JsonValue::Number(n.to_string()),
        serde_json::Value::String(s) => JsonValue::Str(s.clone()),
        serde_json::Value::Array(a) => JsonValue::Array(a.iter().map(to_json).collect()),
        serde_json::Value::Object(m) => {
            JsonValue::Object(m.iter().map(|(k, v)| (k.clone(), to_json(v))).collect())
        }
    }
}

fn parse(text: &str) -> JsonValue {
    to_json(&serde_json::from_str::<serde_json::Value>(text).unwrap())
}

fn parse_list(text: &str) -> Vec<JsonValue> {
    match parse(text) {
        JsonValue::Array(a) => a,
        _ => panic!("not an array"),
    }
}

fn duration_of(text: &str) -> f64 {
    match parse_stringed_float(&JsonValue::Str(text.to_string())) {
        Ok(d) => d.as_str().parse::<f64>().unwrap(),
        Err(e) => panic!("not a number: {:?}", e),
    }
}

const ITEM_DESCRIPTOR: &str = r#"{
    "ClassName": "Desc_CircuitBoard_C",
    "mDisplayName": "Circuit Board",
    "mDescription": "Circuit Boards are used in advanced electronics.",
    "mStackSize": "SS_BIG",
    "mCanBeDiscarded": "True"
}"#;

const RECIPE: &str = r#"{
    "ClassName": "Recipe_SteelBeam_C",
    "mDisplayName": "Steel Beam",
    "mIngredients": "((ItemClass=BlueprintGeneratedClass'\"/Game/FactoryGame/Resource/Parts/SteelIngot/Desc_SteelIngot.Desc_SteelIngot_C\"',Amount=4))",
    "mProduct": "((ItemClass=BlueprintGeneratedClass'\"/Game/FactoryGame/Resource/Parts/SteelPlate/Desc_SteelPlate.Desc_SteelPlate_C\"',Amount=1))",
    "mManufactoringDuration": "4.000000",
    "mManualManufacturingMultiplier": "1.000000"
}"#;

const CLASS_GROUPS: &str = r#"[
    {
        "NativeClass": "Class'/Script/FactoryGame.FGItemDescriptor'",
        "Classes": [
            {"ClassName": "Desc_CircuitBoard_C", "mDisplayName": "Circuit Board"},
            {"ClassName": "Desc_SteelPlate_C", "mDisplayName": "Steel Beam"}
        ]
    },
    {
        "NativeClass": "Class'/Script/FactoryGame.FGRecipe'",
        "Classes": [
            {
                "ClassName": "Recipe_SteelBeam_C",
                "mDisplayName": "Steel Beam",
                "mIngredients": "((Amount=4))",
                "mProduct": "((Amount=1))",
                "mManufactoringDuration": "4.000000"
            }
        ]
    },
    {
        "NativeClass": "Class'/Script/FactoryGame.FGBuildableConveyorBelt'",
        "Classes": [{"ClassName": "Build_ConveyorBeltMk1_C", "mSpeed": 120.0}]
    }
]"#;

#[test]
fn can_parse_item_descriptor() {
    let val = decode_item_descriptor(&parse(ITEM_DESCRIPTOR)).unwrap();
    assert_eq!(val.class_name, "Desc_CircuitBoard_C");
    assert_eq!(val.display_name, "Circuit Board");
}

#[test]
fn can_parse_recipe() {
    let val = decode_recipe(&parse(RECIPE)).unwrap();
    assert_eq!(val.class_name, "Recipe_SteelBeam_C");
    assert_eq!(val.display_name, "Steel Beam");
    assert_eq!(val.manufacturing_duration.as_str().parse::<f64>().unwrap(), 4.);
}

#[test]
fn can_parse_class_group() {
    let val = ingest(&parse_list(CLASS_GROUPS)).unwrap();
    assert_eq!(val.len(), 3);
}

#[test]
fn class_groups_keep_order_and_kinds() {
    let val = ingest(&parse_list(CLASS_GROUPS)).unwrap();
    match &val[0] {
        ClassGroup::ItemDescriptors(items) => {
            assert_eq!(items.len(), 2);
            assert_eq!(items[1].class_name, "Desc_SteelPlate_C");
        }
        other => panic!("unexpected {:?}", other),
    }
    match &val[1] {
        ClassGroup::Recipes(recipes) => assert_eq!(recipes[0].ingredients_raw, "((Amount=4))"),
        other => panic!("unexpected {:?}", other),
    }
    assert!(matches!(val[2], ClassGroup::IgnoredVariant));
}

#[test]
fn item_descriptor_fields_are_copied_exactly() {
    let val = decode_item_descriptor(&parse(r#"{"ClassName":"A bé","mDisplayName":" x "}"#))
        .unwrap();
    assert_eq!(val.class_name, "A b\u{e9}");
    assert_eq!(val.display_name, " x ");
}

#[test]
fn coercion_reads_exact_values() {
    assert_eq!(duration_of("4"), 4.0);
    assert_eq!(duration_of("4.0"), 4.0);
    assert_eq!(duration_of("-0.5"), -0.5);
    assert_eq!(duration_of("+2.25"), 2.25);
    assert_eq!(duration_of("4."), 4.0);
    assert_eq!(duration_of(".5"), 0.5);
}

#[test]
fn coercion_gives_sign_digits_and_scale() {
    let d = parse_decimal("-012.50").unwrap();
    assert!(d.negative);
    assert_eq!(d.digits, vec![0, 1, 2, 5, 0]);
    assert_eq!(d.scale, 2);
    assert_eq!(d.literal, "-012.50");
    let d = parse_decimal("4").unwrap();
    assert!(!d.negative);
    assert_eq!(d.digits, vec![4]);
    assert_eq!(d.scale, 0);
}

#[test]
fn coercion_rejects_non_numeric_strings() {
    for text in ["abc", "4.0.0", "", "-", "+", ".", "-.", "4a", "1e5", " 4", "4 ", "--4", "inf", "NaN", "٤"] {
        match parse_stringed_float(&JsonValue::Str(text.to_string())) {
            Err(CoercionError::NotNumeric(raw)) => assert_eq!(raw, text),
            other => panic!("{:?} gave {:?}", text, other),
        }
    }
}

#[test]
fn coercion_rejects_non_string_values() {
    match parse_stringed_float(&JsonValue::Number("4.0".to_string())) {
        Err(CoercionError::NotAString(t)) => assert_eq!(t, JsonType::Number),
        other => panic!("unexpected {:?}", other),
    }
    match parse_stringed_float(&JsonValue::Null) {
        Err(CoercionError::NotAString(t)) => assert_eq!(t, JsonType::Null),
        other => panic!("unexpected {:?}", other),
    }
}

const FINITE_LIMIT: &str = "179769313486231580793728971405303415079934132710037826936173778980444968292764750946649017977587207096330286416692887910946555547851940402630657488671505820681908902000708383676273854845817711531764475730270069855571366959622842914819860834936475292719074168444365510704342711559699508093042880177904174497792";
const LIMIT_LESS_ONE: &str = "179769313486231580793728971405303415079934132710037826936173778980444968292764750946649017977587207096330286416692887910946555547851940402630657488671505820681908902000708383676273854845817711531764475730270069855571366959622842914819860834936475292719074168444365510704342711559699508093042880177904174497791";

#[test]
fn coercion_keeps_doubles_finite() {
    let ten_to_308 = format!("1{}", "0".repeat(308));
    assert!(parse_decimal(&ten_to_308).is_some());
    assert_eq!(duration_of(&ten_to_308), 1e308);
    let largest_double = format!("{:.0}", f64::MAX);
    assert!(parse_decimal(&largest_double).is_some());
    assert_eq!(duration_of(&largest_double), f64::MAX);
    assert_eq!(duration_of(LIMIT_LESS_ONE), f64::MAX);
    assert_eq!(duration_of(&format!("-000{}.999", LIMIT_LESS_ONE)), -f64::MAX);
    assert!(parse_decimal(FINITE_LIMIT).is_none());
    assert!(parse_decimal(&format!("{}.0", FINITE_LIMIT)).is_none());
    assert!(parse_decimal(&format!("-{}", FINITE_LIMIT)).is_none());
    assert!(parse_decimal(&format!("18{}", "0".repeat(307))).is_none());
    assert!(parse_decimal(&format!("1{}", "0".repeat(309))).is_none());
}

#[test]
fn native_number_duration_is_a_type_error() {
    let v = parse(
        r#"{"ClassName":"R","mDisplayName":"R","mIngredients":"","mProduct":"","mManufactoringDuration":4.0}"#,
    );
    match decode_recipe(&v) {
        Err(RecordError::TypeMismatch { field, expected, found }) => {
            assert_eq!(field, Field::ManufacturingDuration);
            assert_eq!(expected, JsonType::String);
            assert_eq!(found, JsonType::Number);
        }
        other => panic!("unexpected {:?}", other),
    }
}

#[test]
fn invalid_duration_string_is_reported_with_its_text() {
    let v = parse(
        r#"{"ClassName":"R","mDisplayName":"R","mIngredients":"","mProduct":"","mManufactoringDuration":"4.0.0"}"#,
    );
    match decode_recipe(&v) {
        Err(RecordError::InvalidNumber { field, raw }) => {
            assert_eq!(field, Field::ManufacturingDuration);
            assert_eq!(raw, "4.0.0");
        }
        other => panic!("unexpected {:?}", other),
    }
}

#[test]
fn missing_field_is_named() {
    match decode_recipe(&parse(r#"{"ClassName":"R","mDisplayName":"R","mProduct":"","mManufactoringDuration":"1"}"#)) {
        Err(RecordError::MissingField(f)) => assert_eq!(f, Field::Ingredients),
        other => panic!("unexpected {:?}", other),
    }
    match decode_item_descriptor(&parse(r#"{"ClassName":"A"}"#)) {
        Err(RecordError::MissingField(f)) => assert_eq!(f, Field::DisplayName),
        other => panic!("unexpected {:?}", other),
    }
}

#[test]
fn wrong_field_type_is_named() {
    match decode_item_descriptor(&parse(r#"{"ClassName":7,"mDisplayName":"A"}"#)) {
        Err(RecordError::TypeMismatch { field, expected, found }) => {
            assert_eq!(field, Field::ClassName);
            assert_eq!(expected, JsonType::String);
            assert_eq!(found, JsonType::Number);
        }
        other => panic!("unexpected {:?}", other),
    }
}

#[test]
fn record_must_be_an_object() {
    match decode_item_descriptor(&parse("[1]")) {
        Err(RecordError::NotAnObject(t)) => assert_eq!(t, JsonType::Array),
        other => panic!("unexpected {:?}", other),
    }
}

#[test]
fn field_names_are_case_sensitive() {
    match decode_item_descriptor(&parse(r#"{"classname":"A","mDisplayName":"B"}"#)) {
        Err(RecordError::MissingField(f)) => assert_eq!(f, Field::ClassName),
        other => panic!("unexpected {:?}", other),
    }
    assert_eq!(Field::ManufacturingDuration.key(), "mManufactoringDuration");
}

#[test]
fn unknown_tag_is_dropped_before_recipes() {
    let doc = r#"[
        {"NativeClass":"Class'/Script/FactoryGame.FGSomethingElse'","Classes":{"odd":[1,2,{"x":null}]}},
        {"NativeClass":"Class'/Script/FactoryGame.FGRecipe'","Classes":[{"ClassName":"Recipe_SteelBeam_C","mDisplayName":"Steel Beam","mIngredients":"i","mProduct":"p","mManufactoringDuration":"4"}]}
    ]"#;
    let val = ingest(&parse_list(doc)).unwrap();
    assert_eq!(val.len(), 2);
    assert!(matches!(val[0], ClassGroup::IgnoredVariant));
    match &val[1] {
        ClassGroup::Recipes(r) => {
            assert_eq!(r.len(), 1);
            assert_eq!(r[0].class_name, "Recipe_SteelBeam_C");
            assert_eq!(r[0].product_raw, "p");
        }
        other => panic!("unexpected {:?}", other),
    }
}

#[test]
fn ingestion_stops_at_first_failure() {
    let doc = r#"[
        {"NativeClass":"Class'/Script/FactoryGame.FGItemDescriptor'","Classes":[{"ClassName":"A","mDisplayName":"A"}]},
        {"NativeClass":"Class'/Script/FactoryGame.FGItemDescriptor'","Classes":[{"ClassName":"B","mDisplayName":"B"},{"ClassName":"C"}]},
        {"NativeClass":"Class'/Script/FactoryGame.FGRecipe'","Classes":[{"ClassName":"R"}]}
    ]"#;
    match ingest(&parse_list(doc)) {
        Err(err) => {
            assert_eq!(err.group, 1);
            match err.error {
                GroupError::Record { kind, index, error } => {
                    assert_eq!(kind, RecordKind::ItemDescriptor);
                    assert_eq!(index, 1);
                    assert!(matches!(error, RecordError::MissingField(Field::DisplayName)));
                }
                other => panic!("unexpected {:?}", other),
            }
        }
        Ok(v) => panic!("unexpected {} groups", v.len()),
    }
}

#[test]
fn end_to_end_steel_beam() {
    let doc = r#"[{"NativeClass":"Class'/Script/FactoryGame.FGRecipe'","Classes":[{"ClassName":"Recipe_SteelBeam_C","mDisplayName":"Steel Beam","mIngredients":"...","mProduct":"...","mManufactoringDuration":"4"}]}]"#;
    let val = ingest(&parse_list(doc)).unwrap();
    assert_eq!(val.len(), 1);
    match &val[0] {
        ClassGroup::Recipes(r) => {
            assert_eq!(r.len(), 1);
            assert_eq!(r[0].class_name, "Recipe_SteelBeam_C");
            assert_eq!(r[0].display_name, "Steel Beam");
            assert_eq!(r[0].manufacturing_duration.as_str().parse::<f64>().unwrap(), 4.0);
        }
        other => panic!("unexpected {:?}", other),
    }
}

#[test]
fn empty_input_gives_no_groups() {
    assert_eq!(ingest(&Vec::new()).unwrap().len(), 0);
    match decode_group(&parse(r#"{"NativeClass":"Class'/Script/FactoryGame.FGRecipe'","Classes":[]}"#)) {
        Ok(ClassGroup::Recipes(r)) => assert!(r.is_empty()),
        other => panic!("unexpected {:?}", other),
    }
}

#[test]
fn malformed_envelopes_are_rejected() {
    let cases: Vec<(&str, fn(&GroupError) -> bool)> = vec![
        ("3", |e| matches!(e, GroupError::NotAnObject(JsonType::Number))),
        (r#"{"Classes":[]}"#, |e| matches!(e, GroupError::MissingTag)),
        (r#"{"NativeClass":1,"Classes":[]}"#, |e| matches!(e, GroupError::TagNotString(JsonType::Number))),
        (r#"{"NativeClass":"Other"}"#, |e| matches!(e, GroupError::MissingContent)),
        (
            r#"{"NativeClass":"Class'/Script/FactoryGame.FGRecipe'","Classes":{}}"#,
            |e| matches!(e, GroupError::ContentNotArray(JsonType::Object)),
        ),
        (
            r#"{"NativeClass":"Class'/Script/FactoryGame.FGItemDescriptor'","Classes":[5]}"#,
            |e| matches!(e, GroupError::Record { kind: RecordKind::ItemDescriptor, index: 0, error: RecordError::NotAnObject(JsonType::Number) }),
        ),
    ];
    for (text, check) in cases {
        match decode_group(&parse(text)) {
            Err(e) => assert!(check(&e), "{} gave {:?}", text, e),
            Ok(g) => panic!("{} gave {:?}", text, g),
        }
    }
}

#[test]
fn tags_match_exactly() {
    let g = decode_group(&parse(r#"{"NativeClass":"class'/script/factorygame.fgrecipe'","Classes":[1]}"#));
    assert!(matches!(g, Ok(ClassGroup::IgnoredVariant)));
}

#[test]
fn missing_field_wins_over_later_bad_number() {
    let doc = r#"[
        {"NativeClass":"Class'/Script/FactoryGame.FGRecipe'","Classes":[{"ClassName":"A","mDisplayName":"A","mIngredients":"","mProduct":"","mManufactoringDuration":"1"}]},
        {"NativeClass":"Class'/Script/FactoryGame.FGRecipe'","Classes":[{"ClassName":"B","mIngredients":"","mProduct":"","mManufactoringDuration":"1"}]},
        {"NativeClass":"Class'/Script/FactoryGame.FGRecipe'","Classes":[{"ClassName":"C","mDisplayName":"C","mIngredients":"","mProduct":"","mManufactoringDuration":"abc"}]}
    ]"#;
    match ingest(&parse_list(doc)) {
        Err(err) => {
            assert_eq!(err.group, 1);
            assert!(matches!(
                err.error,
                GroupError::Record {
                    kind: RecordKind::Recipe,
                    index: 0,
                    error: RecordError::MissingField(Field::DisplayName)
                }
            ));
        }
        Ok(v) => panic!("unexpected {} groups", v.len()),
    }
}

#[test]
fn inserted_unknown_envelope_changes_nothing_else() {
    let before = ingest(&parse_list(CLASS_GROUPS)).unwrap();
    let mut longer = parse_list(CLASS_GROUPS);
    longer.insert(1, parse(r#"{"NativeClass":"Class'/Script/FactoryGame.FGOther'","Classes":[[1],{"a":"b"}]}"#));
    let after = ingest(&longer).unwrap();
    assert_eq!(after.len(), before.len() + 1);
    assert!(matches!(after[1], ClassGroup::IgnoredVariant));
    assert_eq!(format!("{:?}", after[0]), format!("{:?}", before[0]));
    assert_eq!(format!("{:?}", after[2]), format!("{:?}", before[1]));
    assert_eq!(format!("{:?}", after[3]), format!("{:?}", before[2]));
}
