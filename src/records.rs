//! The record schemas: item descriptors and recipes, read from JSON objects by
//! their exact field names.
use vstd::prelude::*;
use crate::decimal::{is_accepted_number, parse_stringed_float, CoercionError, Decimal};
use crate::json::{find_member, member, type_of, JsonType, JsonValue};

verus! {

/// A field that a record schema reads.
#[derive(Debug, Clone, Copy, PartialEq, Eq, Structural)]
pub enum Field {
    ClassName,
    DisplayName,
    Ingredients,
    Product,
    ManufacturingDuration,
}

/// The name under which the export writes a field.
pub open spec fn field_key(f: Field) -> Seq<char> {
    match f {
        Field::ClassName => "ClassName"@,
        Field::DisplayName => "mDisplayName"@,
        Field::Ingredients => "mIngredients"@,
        Field::Product => "mProduct"@,
        Field::ManufacturingDuration => "mManufactoringDuration"@,
    }
}

impl Field {
    /// The name under which the export writes this field.
    pub fn key(&self) -> (r: &'static str)
        ensures
            r@ == field_key(*self),
    {
        match self {
            Field::ClassName => "ClassName",
            Field::DisplayName => "mDisplayName",
            Field::Ingredients => "mIngredients",
            Field::Product => "mProduct",
            Field::ManufacturingDuration => "mManufactoringDuration",
        }
    }
}

/// Why one JSON object did not decode as a record.
#[derive(Debug, Clone)]
pub enum RecordError {
    /// The value is not an object; its kind is given.
    NotAnObject(JsonType),
    /// A required field is absent.
    MissingField(Field),
    /// A field holds a JSON value of another kind than the schema expects.
    TypeMismatch { field: Field, expected: JsonType, found: JsonType },
    /// A quoted number does not hold a decimal literal in range.
    InvalidNumber { field: Field, raw: String },
}

/// An item's identity and label.
#[derive(Debug, Clone)]
pub struct ItemDescriptor {
    pub class_name: String,
    pub display_name: String,
}

/// A manufacturing rule. Ingredients and product are kept as the export
/// wrote them.
#[derive(Debug, Clone)]
pub struct Recipe {
    pub class_name: String,
    pub display_name: String,
    pub ingredients_raw: String,
    pub product_raw: String,
    pub manufacturing_duration: Decimal,
}

/// A required string field of an object.
pub open spec fn string_field(members: Seq<(String, JsonValue)>, f: Field) -> Result<
    String,
    RecordError,
> {
    match member(members, field_key(f)) {
        None => Err(RecordError::MissingField(f)),
        Some(JsonValue::Str(s)) => Ok(s),
        Some(v) => Err(
            RecordError::TypeMismatch { field: f, expected: JsonType::String, found: type_of(v) },
        ),
    }
}

/// A required quoted-number field of an object: the literal, where accepted.
pub open spec fn number_field(members: Seq<(String, JsonValue)>, f: Field) -> Result<
    Seq<char>,
    RecordError,
> {
    match member(members, field_key(f)) {
        None => Err(RecordError::MissingField(f)),
        Some(JsonValue::Str(s)) => if is_accepted_number(s@) {
            Ok(s@)
        } else {
            Err(RecordError::InvalidNumber { field: f, raw: s })
        },
        Some(v) => Err(
            RecordError::TypeMismatch { field: f, expected: JsonType::String, found: type_of(v) },
        ),
    }
}

/// The item descriptor that a JSON value decodes to, or the first failure,
/// the fields taken in schema order.
pub open spec fn item_descriptor_of(v: JsonValue) -> Result<ItemDescriptor, RecordError> {
    match v {
        JsonValue::Object(m) => match string_field(m@, Field::ClassName) {
            Err(e) => Err(e),
            Ok(c) => match string_field(m@, Field::DisplayName) {
                Err(e) => Err(e),
                Ok(d) => Ok(ItemDescriptor { class_name: c, display_name: d }),
            },
        },
        _ => Err(RecordError::NotAnObject(type_of(v))),
    }
}

/// The first failure in decoding a JSON value as a recipe, the fields taken
/// in schema order; `None` where it decodes.
pub open spec fn recipe_failure(v: JsonValue) -> Option<RecordError> {
    match v {
        JsonValue::Object(m) => {
            let c = string_field(m@, Field::ClassName);
            let d = string_field(m@, Field::DisplayName);
            let i = string_field(m@, Field::Ingredients);
            let p = string_field(m@, Field::Product);
            let t = number_field(m@, Field::ManufacturingDuration);
            if c is Err {
                Some(c->Err_0)
            } else if d is Err {
                Some(d->Err_0)
            } else if i is Err {
                Some(i->Err_0)
            } else if p is Err {
                Some(p->Err_0)
            } else if t is Err {
                Some(t->Err_0)
            } else {
                None
            }
        },
        _ => Some(RecordError::NotAnObject(type_of(v))),
    }
}

/// `rec` holds the fields of the object `v`, the duration read exactly.
pub open spec fn recipe_fields(v: JsonValue, rec: Recipe) -> bool {
    &&& v matches JsonValue::Object(m)
    &&& Ok::<String, RecordError>(rec.class_name) == string_field(m@, Field::ClassName)
    &&& Ok::<String, RecordError>(rec.display_name) == string_field(m@, Field::DisplayName)
    &&& Ok::<String, RecordError>(rec.ingredients_raw) == string_field(m@, Field::Ingredients)
    &&& Ok::<String, RecordError>(rec.product_raw) == string_field(m@, Field::Product)
    &&& Ok::<Seq<char>, RecordError>(rec.manufacturing_duration.literal@) == number_field(
        m@,
        Field::ManufacturingDuration,
    )
    &&& rec.manufacturing_duration.wf()
}

/// `r` is what a JSON value decodes to as a recipe: its first failure, or the
/// recipe that its fields give.
pub open spec fn recipe_decoded(v: JsonValue, r: Result<Recipe, RecordError>) -> bool {
    match recipe_failure(v) {
        Some(e) => r == Err::<Recipe, RecordError>(e),
        None => r matches Ok(rec) && recipe_fields(v, rec),
    }
}

fn read_string_field(members: &Vec<(String, JsonValue)>, f: Field) -> (r: Result<
    String,
    RecordError,
>)
    ensures
        r == string_field(members@, f),
{
    let key = f.key().to_owned();
    match find_member(members, &key) {
        None => Err(RecordError::MissingField(f)),
        Some(JsonValue::Str(s)) => Ok(s.clone()),
        Some(v) => Err(
            RecordError::TypeMismatch { field: f, expected: JsonType::String, found: v.json_type() },
        ),
    }
}

fn read_number_field(members: &Vec<(String, JsonValue)>, f: Field) -> (r: Result<
    Decimal,
    RecordError,
>)
    ensures
        match number_field(members@, f) {
            Ok(t) => r matches Ok(d) && d.literal@ == t && d.wf(),
            Err(e) => r == Err::<Decimal, RecordError>(e),
        },
{
    let key = f.key().to_owned();
    match find_member(members, &key) {
        None => Err(RecordError::MissingField(f)),
        Some(v) => match parse_stringed_float(v) {
            Ok(d) => Ok(d),
            Err(CoercionError::NotAString(found)) => Err(
                RecordError::TypeMismatch { field: f, expected: JsonType::String, found },
            ),
            Err(CoercionError::NotNumeric(raw)) => Err(RecordError::InvalidNumber { field: f, raw }),
        },
    }
}

/// Decodes one item descriptor from a JSON object. Fields other than
/// `ClassName` and `mDisplayName` are ignored.
pub fn decode_item_descriptor(v: &JsonValue) -> (r: Result<ItemDescriptor, RecordError>)
    ensures
        r == item_descriptor_of(*v),
{
    match v {
        JsonValue::Object(m) => {
            let class_name = match read_string_field(m, Field::ClassName) {
                Ok(s) => s,
                Err(e) => return Err(e),
            };
            let display_name = match read_string_field(m, Field::DisplayName) {
                Ok(s) => s,
                Err(e) => return Err(e),
            };
            Ok(ItemDescriptor { class_name, display_name })
        },
        _ => Err(RecordError::NotAnObject(v.json_type())),
    }
}

/// Decodes one recipe from a JSON object; the duration goes through the
/// quoted-number rule. Fields that the schema does not read are ignored.
pub fn decode_recipe(v: &JsonValue) -> (r: Result<Recipe, RecordError>)
    ensures
        recipe_decoded(*v, r),
{
    match v {
        JsonValue::Object(m) => {
            let class_name = match read_string_field(m, Field::ClassName) {
                Ok(s) => s,
                Err(e) => return Err(e),
            };
            let display_name = match read_string_field(m, Field::DisplayName) {
                Ok(s) => s,
                Err(e) => return Err(e),
            };
            let ingredients_raw = match read_string_field(m, Field::Ingredients) {
                Ok(s) => s,
                Err(e) => return Err(e),
            };
            let product_raw = match read_string_field(m, Field::Product) {
                Ok(s) => s,
                Err(e) => return Err(e),
            };
            let manufacturing_duration = match read_number_field(m, Field::ManufacturingDuration) {
                Ok(d) => d,
                Err(e) => return Err(e),
            };
            Ok(Recipe { class_name, display_name, ingredients_raw, product_raw, manufacturing_duration })
        },
        _ => Err(RecordError::NotAnObject(v.json_type())),
    }
}

/// An object with both identity fields as strings decodes to an item
/// descriptor that holds exactly those strings.
pub proof fn lemma_item_descriptor_round_trip(v: JsonValue, class_name: String, display_name: String)
    requires
        v matches JsonValue::Object(m) && member(m@, field_key(Field::ClassName)) == Some(
            JsonValue::Str(class_name),
        ) && member(m@, field_key(Field::DisplayName)) == Some(JsonValue::Str(display_name)),
    ensures
        item_descriptor_of(v) == Ok::<ItemDescriptor, RecordError>(
            ItemDescriptor { class_name, display_name },
        ),
{
}

/// A native JSON number where the duration belongs is a type error: the field
/// must be a quoted string.
pub proof fn lemma_native_number_duration_rejected(v: JsonValue, n: String)
    requires
        v matches JsonValue::Object(m) && string_field(m@, Field::ClassName) is Ok && string_field(
            m@,
            Field::DisplayName,
        ) is Ok && string_field(m@, Field::Ingredients) is Ok && string_field(m@, Field::Product) is Ok
            && member(m@, field_key(Field::ManufacturingDuration)) == Some(JsonValue::Number(n)),
    ensures
        recipe_failure(v) == Some(
            RecordError::TypeMismatch {
                field: Field::ManufacturingDuration,
                expected: JsonType::String,
                found: JsonType::Number,
            },
        ),
{
}

} // verus!
