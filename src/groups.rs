//! The tagged group decoder and the ingestion entry point.
//!
//! An export is an array of envelopes `{"NativeClass": tag, "Classes": [...]}`.
//! Two tags name record kinds that are decoded; the content under any other tag
//! is accepted whatever its shape and dropped.
use vstd::prelude::*;
use crate::json::{find_member, member, type_of, JsonType, JsonValue};
use crate::records::{
    decode_item_descriptor,
    decode_recipe,
    item_descriptor_of,
    recipe_decoded,
    recipe_failure,
    ItemDescriptor,
    Recipe,
    RecordError,
};

verus! {

/// The record kinds that have a schema.
#[derive(Debug, Clone, Copy, PartialEq, Eq, Structural)]
pub enum RecordKind {
    ItemDescriptor,
    Recipe,
}

/// One decoded envelope.
#[derive(Debug, Clone)]
pub enum ClassGroup {
    ItemDescriptors(Vec<ItemDescriptor>),
    Recipes(Vec<Recipe>),
    /// An envelope whose tag has no schema; its content was dropped.
    IgnoredVariant,
}

/// Why one envelope did not decode.
#[derive(Debug, Clone)]
pub enum GroupError {
    /// The envelope is not an object; its kind is given.
    NotAnObject(JsonType),
    /// The envelope has no `NativeClass` member.
    MissingTag,
    /// The `NativeClass` member is not a string; its kind is given.
    TagNotString(JsonType),
    /// The envelope has no `Classes` member.
    MissingContent,
    /// The content under a known tag is not an array; its kind is given.
    ContentNotArray(JsonType),
    /// The record at `index` of the content failed.
    Record { kind: RecordKind, index: usize, error: RecordError },
}

/// The first envelope that failed, by position, and why.
#[derive(Debug, Clone)]
pub struct IngestError {
    pub group: usize,
    pub error: GroupError,
}

pub open spec fn tag_key() -> Seq<char> {
    "NativeClass"@
}

pub open spec fn content_key() -> Seq<char> {
    "Classes"@
}

pub open spec fn item_descriptor_tag() -> Seq<char> {
    "Class'/Script/FactoryGame.FGItemDescriptor'"@
}

pub open spec fn recipe_tag() -> Seq<char> {
    "Class'/Script/FactoryGame.FGRecipe'"@
}

/// The schema that a tag names, if any; tags match exactly.
pub open spec fn kind_of_tag(tag: Seq<char>) -> Option<RecordKind> {
    if tag == item_descriptor_tag() {
        Some(RecordKind::ItemDescriptor)
    } else if tag == recipe_tag() {
        Some(RecordKind::Recipe)
    } else {
        None
    }
}

/// What is wrong with the envelope itself, before any record is read.
pub open spec fn envelope_error(v: JsonValue) -> Option<GroupError> {
    match v {
        JsonValue::Object(m) => match member(m@, tag_key()) {
            None => Some(GroupError::MissingTag),
            Some(JsonValue::Str(tag)) => match member(m@, content_key()) {
                None => Some(GroupError::MissingContent),
                Some(c) => if kind_of_tag(tag@) is Some && !(c is Array) {
                    Some(GroupError::ContentNotArray(type_of(c)))
                } else {
                    None
                },
            },
            Some(t) => Some(GroupError::TagNotString(type_of(t))),
        },
        _ => Some(GroupError::NotAnObject(type_of(v))),
    }
}

/// The tag of a well-formed envelope.
pub open spec fn envelope_tag(v: JsonValue) -> Seq<char> {
    member(v->Object_0@, tag_key())->Some_0->Str_0@
}

/// The records of a well-formed envelope with a known tag.
pub open spec fn envelope_records(v: JsonValue) -> Seq<JsonValue> {
    member(v->Object_0@, content_key())->Some_0->Array_0@
}

/// `r` is what a list of records decodes to as item descriptors: all of
/// them in order, or the first failure with its position.
pub open spec fn item_descriptors_decoded(
    elems: Seq<JsonValue>,
    r: Result<Vec<ItemDescriptor>, GroupError>,
) -> bool {
    match r {
        Ok(out) => out@.len() == elems.len() && forall|i: int|
            0 <= i < elems.len() ==> item_descriptor_of(#[trigger] elems[i]) == Ok::<
                ItemDescriptor,
                RecordError,
            >(out@[i]),
        Err(e) => exists|k: int|
            0 <= k < elems.len() && (forall|j: int|
                0 <= j < k ==> (#[trigger] item_descriptor_of(elems[j])) is Ok)
                && item_descriptor_of(#[trigger] elems[k]) is Err && e == GroupError::Record {
                kind: RecordKind::ItemDescriptor,
                index: k as usize,
                error: item_descriptor_of(elems[k])->Err_0,
            },
    }
}

/// `r` is what a list of records decodes to as recipes: all of them in
/// order, or the first failure with its position.
pub open spec fn recipes_decoded(elems: Seq<JsonValue>, r: Result<Vec<Recipe>, GroupError>) -> bool {
    match r {
        Ok(out) => out@.len() == elems.len() && forall|i: int|
            0 <= i < elems.len() ==> recipe_decoded(
                #[trigger] elems[i],
                Ok::<Recipe, RecordError>(out@[i]),
            ),
        Err(e) => exists|k: int|
            0 <= k < elems.len() && (forall|j: int|
                0 <= j < k ==> (#[trigger] recipe_failure(elems[j])) is None) && recipe_failure(
                #[trigger] elems[k],
            ) is Some && e == GroupError::Record {
                kind: RecordKind::Recipe,
                index: k as usize,
                error: recipe_failure(elems[k])->Some_0,
            },
    }
}

/// `r` is what one envelope decodes to.
pub open spec fn group_decoded(v: JsonValue, r: Result<ClassGroup, GroupError>) -> bool {
    match envelope_error(v) {
        Some(e) => r == Err::<ClassGroup, GroupError>(e),
        None => match kind_of_tag(envelope_tag(v)) {
            Some(RecordKind::ItemDescriptor) => match r {
                Ok(ClassGroup::ItemDescriptors(out)) => item_descriptors_decoded(
                    envelope_records(v),
                    Ok(out),
                ),
                Err(e) => item_descriptors_decoded(envelope_records(v), Err(e)),
                _ => false,
            },
            Some(RecordKind::Recipe) => match r {
                Ok(ClassGroup::Recipes(out)) => recipes_decoded(envelope_records(v), Ok(out)),
                Err(e) => recipes_decoded(envelope_records(v), Err(e)),
                _ => false,
            },
            None => r matches Ok(ClassGroup::IgnoredVariant),
        },
    }
}

/// An object whose tag is a string without a schema and which has a content
/// member, of any shape.
pub open spec fn is_unknown_envelope(v: JsonValue) -> bool {
    v matches JsonValue::Object(m) && member(m@, tag_key()) matches Some(JsonValue::Str(t))
        && kind_of_tag(t@) is None && member(m@, content_key()) is Some
}

/// One envelope decodes without failure.
pub open spec fn group_succeeds(v: JsonValue) -> bool {
    &&& envelope_error(v) is None
    &&& kind_of_tag(envelope_tag(v)) == Some(RecordKind::ItemDescriptor) ==> forall|i: int|
        0 <= i < envelope_records(v).len() ==> (#[trigger] item_descriptor_of(
            envelope_records(v)[i],
        )) is Ok
    &&& kind_of_tag(envelope_tag(v)) == Some(RecordKind::Recipe) ==> forall|i: int|
        0 <= i < envelope_records(v).len() ==> (#[trigger] recipe_failure(
            envelope_records(v)[i],
        )) is None
}

/// `r` is what a list of envelopes decodes to: every group in order, or the
/// failure of the first envelope that fails.
pub open spec fn ingested(values: Seq<JsonValue>, r: Result<Vec<ClassGroup>, IngestError>) -> bool {
    match r {
        Ok(out) => out@.len() == values.len() && forall|i: int|
            0 <= i < values.len() ==> group_decoded(
                #[trigger] values[i],
                Ok::<ClassGroup, GroupError>(out@[i]),
            ),
        Err(err) => exists|k: int|
            0 <= k < values.len() && (forall|j: int|
                0 <= j < k ==> group_succeeds(#[trigger] values[j])) && err.group == k
                && group_decoded(#[trigger] values[k], Err::<ClassGroup, GroupError>(err.error)),
    }
}

/// Decodes every record of a list as an item descriptor, stopping at the
/// first failure.
pub fn decode_item_descriptors(elems: &Vec<JsonValue>) -> (r: Result<
    Vec<ItemDescriptor>,
    GroupError,
>)
    ensures
        item_descriptors_decoded(elems@, r),
{
    let mut out: Vec<ItemDescriptor> = Vec::new();
    let mut i: usize = 0;
    while i < elems.len()
        invariant
            i <= elems@.len(),
            out@.len() == i,
            forall|j: int|
                0 <= j < i ==> item_descriptor_of(#[trigger] elems@[j]) == Ok::<
                    ItemDescriptor,
                    RecordError,
                >(out@[j]),
        decreases elems.len() - i,
    {
        match decode_item_descriptor(&elems[i]) {
            Ok(d) => out.push(d),
            Err(error) => {
                let e = GroupError::Record { kind: RecordKind::ItemDescriptor, index: i, error };
                assert(forall|j: int| 0 <= j < i ==> (#[trigger] item_descriptor_of(elems@[j])) is Ok);
                return Err(e);
            },
        }
        i = i + 1;
    }
    Ok(out)
}

/// Decodes every record of a list as a recipe, stopping at the first
/// failure.
pub fn decode_recipes(elems: &Vec<JsonValue>) -> (r: Result<Vec<Recipe>, GroupError>)
    ensures
        recipes_decoded(elems@, r),
{
    let mut out: Vec<Recipe> = Vec::new();
    let mut i: usize = 0;
    while i < elems.len()
        invariant
            i <= elems@.len(),
            out@.len() == i,
            forall|j: int|
                0 <= j < i ==> recipe_decoded(
                    #[trigger] elems@[j],
                    Ok::<Recipe, RecordError>(out@[j]),
                ),
        decreases elems.len() - i,
    {
        match decode_recipe(&elems[i]) {
            Ok(d) => out.push(d),
            Err(error) => {
                let e = GroupError::Record { kind: RecordKind::Recipe, index: i, error };
                assert(forall|j: int| 0 <= j < i ==> (#[trigger] recipe_failure(elems@[j])) is None);
                return Err(e);
            },
        }
        i = i + 1;
    }
    Ok(out)
}

/// Decodes one envelope: the records under a known tag, or nothing under any
/// other tag, whatever its content.
pub fn decode_group(v: &JsonValue) -> (r: Result<ClassGroup, GroupError>)
    ensures
        group_decoded(*v, r),
{
    let m = match v {
        JsonValue::Object(m) => m,
        _ => return Err(GroupError::NotAnObject(v.json_type())),
    };
    let tag_name = "NativeClass".to_owned();
    let tag = match find_member(m, &tag_name) {
        None => return Err(GroupError::MissingTag),
        Some(JsonValue::Str(tag)) => tag,
        Some(t) => return Err(GroupError::TagNotString(t.json_type())),
    };
    let content_name = "Classes".to_owned();
    let content = match find_member(m, &content_name) {
        None => return Err(GroupError::MissingContent),
        Some(c) => c,
    };
    let item_tag = "Class'/Script/FactoryGame.FGItemDescriptor'".to_owned();
    let recipe_tag = "Class'/Script/FactoryGame.FGRecipe'".to_owned();
    if *tag == item_tag {
        match content {
            JsonValue::Array(elems) => match decode_item_descriptors(elems) {
                Ok(out) => Ok(ClassGroup::ItemDescriptors(out)),
                Err(e) => Err(e),
            },
            _ => Err(GroupError::ContentNotArray(content.json_type())),
        }
    } else if *tag == recipe_tag {
        match content {
            JsonValue::Array(elems) => match decode_recipes(elems) {
                Ok(out) => Ok(ClassGroup::Recipes(out)),
                Err(e) => Err(e),
            },
            _ => Err(GroupError::ContentNotArray(content.json_type())),
        }
    } else {
        Ok(ClassGroup::IgnoredVariant)
    }
}

proof fn lemma_decoded_group_succeeds(v: JsonValue, g: ClassGroup)
    requires
        group_decoded(v, Ok(g)),
    ensures
        group_succeeds(v),
{
    if kind_of_tag(envelope_tag(v)) == Some(RecordKind::ItemDescriptor) {
        let out = g->ItemDescriptors_0;
        assert forall|i: int| 0 <= i < envelope_records(v).len() implies (
        #[trigger] item_descriptor_of(envelope_records(v)[i])) is Ok by {
            assert(item_descriptor_of(envelope_records(v)[i]) == Ok::<ItemDescriptor, RecordError>(
                out@[i],
            ));
        }
    }
    if kind_of_tag(envelope_tag(v)) == Some(RecordKind::Recipe) {
        let out = g->Recipes_0;
        assert forall|i: int| 0 <= i < envelope_records(v).len() implies (
        #[trigger] recipe_failure(envelope_records(v)[i])) is None by {
            assert(recipe_decoded(envelope_records(v)[i], Ok::<Recipe, RecordError>(out@[i])));
        }
    }
}

/// Decodes a list of envelopes in order, stopping at the first envelope that
/// fails. An empty list gives an empty list.
pub fn ingest(values: &Vec<JsonValue>) -> (r: Result<Vec<ClassGroup>, IngestError>)
    ensures
        ingested(values@, r),
{
    let mut out: Vec<ClassGroup> = Vec::new();
    let mut i: usize = 0;
    while i < values.len()
        invariant
            i <= values@.len(),
            out@.len() == i,
            forall|j: int|
                0 <= j < i ==> group_decoded(
                    #[trigger] values@[j],
                    Ok::<ClassGroup, GroupError>(out@[j]),
                ),
        decreases values.len() - i,
    {
        match decode_group(&values[i]) {
            Ok(g) => out.push(g),
            Err(error) => {
                proof {
                    assert forall|j: int| 0 <= j < i implies group_succeeds(#[trigger] values@[j]) by {
                        lemma_decoded_group_succeeds(values@[j], out@[j]);
                    }
                }
                return Err(IngestError { group: i, error });
            },
        }
        i = i + 1;
    }
    Ok(out)
}

/// An envelope whose decoding fails does not decode without failure.
proof fn lemma_failed_group_does_not_succeed(v: JsonValue, e: GroupError)
    requires
        group_decoded(v, Err(e)),
    ensures
        !group_succeeds(v),
{
    let elems = envelope_records(v);
    if envelope_error(v) is None && kind_of_tag(envelope_tag(v)) == Some(RecordKind::ItemDescriptor) {
        let k = choose|k: int|
            0 <= k < elems.len() && (forall|j: int|
                0 <= j < k ==> (#[trigger] item_descriptor_of(elems[j])) is Ok)
                && item_descriptor_of(#[trigger] elems[k]) is Err && e == GroupError::Record {
                kind: RecordKind::ItemDescriptor,
                index: k as usize,
                error: item_descriptor_of(elems[k])->Err_0,
            };
        assert(item_descriptor_of(elems[k]) is Err);
    } else if envelope_error(v) is None && kind_of_tag(envelope_tag(v)) == Some(RecordKind::Recipe) {
        let k = choose|k: int|
            0 <= k < elems.len() && (forall|j: int|
                0 <= j < k ==> (#[trigger] recipe_failure(elems[j])) is None) && recipe_failure(
                #[trigger] elems[k],
            ) is Some && e == GroupError::Record {
                kind: RecordKind::Recipe,
                index: k as usize,
                error: recipe_failure(elems[k])->Some_0,
            };
        assert(recipe_failure(elems[k]) is Some);
    }
}

/// An envelope under a tag without a schema is dropped, whatever its content
/// holds, and does not keep a recipe envelope after it from decoding: the two
/// give an ignored group and the decoded recipes.
pub proof fn lemma_unknown_tag_is_dropped(
    unknown: JsonValue,
    recipes: JsonValue,
    r: Result<Vec<ClassGroup>, IngestError>,
)
    requires
        is_unknown_envelope(unknown),
        kind_of_tag(envelope_tag(recipes)) == Some(RecordKind::Recipe),
        group_succeeds(recipes),
        ingested(seq![unknown, recipes], r),
    ensures
        r matches Ok(out) && out@.len() == 2 && out@[0] is IgnoredVariant && out@[1] is Recipes
            && group_decoded(recipes, Ok(out@[1])),
{
    let values = seq![unknown, recipes];
    assert(values[0] == unknown && values[1] == recipes);
    match r {
        Ok(out) => {
            assert(group_decoded(values[0], Ok::<ClassGroup, GroupError>(out@[0])));
            assert(group_decoded(values[1], Ok::<ClassGroup, GroupError>(out@[1])));
        },
        Err(err) => {
            let k = choose|k: int|
                0 <= k < values.len() && (forall|j: int|
                    0 <= j < k ==> group_succeeds(#[trigger] values[j])) && err.group == k
                    && group_decoded(#[trigger] values[k], Err::<ClassGroup, GroupError>(err.error));
            if k == 1 {
                lemma_failed_group_does_not_succeed(recipes, err.error);
            }
        },
    }
}

/// Ingestion stops at the first envelope that fails: when the first of three
/// decodes and the second fails, the result is the second one's failure, and
/// no list of groups.
pub proof fn lemma_fail_fast(
    first: JsonValue,
    second: JsonValue,
    third: JsonValue,
    r: Result<Vec<ClassGroup>, IngestError>,
)
    requires
        group_succeeds(first),
        !group_succeeds(second),
        ingested(seq![first, second, third], r),
    ensures
        r matches Err(err) && err.group == 1 && group_decoded(second, Err(err.error)),
{
    let values = seq![first, second, third];
    assert(values[0] == first && values[1] == second && values[2] == third);
    match r {
        Ok(out) => {
            assert(group_decoded(values[1], Ok::<ClassGroup, GroupError>(out@[1])));
            lemma_decoded_group_succeeds(second, out@[1]);
        },
        Err(err) => {
            let k = choose|k: int|
                0 <= k < values.len() && (forall|j: int|
                    0 <= j < k ==> group_succeeds(#[trigger] values[j])) && err.group == k
                    && group_decoded(#[trigger] values[k], Err::<ClassGroup, GroupError>(err.error));
            if k == 0 {
                lemma_failed_group_does_not_succeed(first, err.error);
            } else if k == 2 {
                assert(group_succeeds(values[1]));
            }
        },
    }
}

/// Inserting an envelope under a tag without a schema into a list that
/// decodes changes nothing else: the new list decodes too, with an ignored
/// group at the inserted position and, around it, what the other envelopes
/// decoded to before.
pub proof fn lemma_unknown_envelope_insertion(
    values: Seq<JsonValue>,
    groups: Vec<ClassGroup>,
    j: int,
    unknown: JsonValue,
    r: Result<Vec<ClassGroup>, IngestError>,
)
    requires
        ingested(values, Ok(groups)),
        0 <= j <= values.len(),
        is_unknown_envelope(unknown),
        ingested(values.insert(j, unknown), r),
    ensures
        r matches Ok(out) && out@.len() == groups@.len() + 1 && out@[j] is IgnoredVariant && (
        forall|i: int| 0 <= i < j ==> group_decoded(values[i], Ok(#[trigger] out@[i]))) && (forall|
            i: int,
        |
            j < i < out@.len() ==> group_decoded(values[i - 1], Ok(#[trigger] out@[i]))),
{
    let longer = values.insert(j, unknown);
    assert(longer[j] == unknown);
    assert forall|i: int| 0 <= i < j implies #[trigger] longer[i] == values[i] by {}
    assert forall|i: int| j < i < longer.len() implies #[trigger] longer[i] == values[i - 1] by {}
    match r {
        Ok(out) => {
            assert(group_decoded(longer[j], Ok::<ClassGroup, GroupError>(out@[j])));
            assert forall|i: int| 0 <= i < j implies group_decoded(
                values[i],
                Ok(#[trigger] out@[i]),
            ) by {
                assert(group_decoded(longer[i], Ok::<ClassGroup, GroupError>(out@[i])));
            }
            assert forall|i: int| j < i < out@.len() implies group_decoded(
                values[i - 1],
                Ok(#[trigger] out@[i]),
            ) by {
                assert(group_decoded(longer[i], Ok::<ClassGroup, GroupError>(out@[i])));
            }
        },
        Err(err) => {
            let k = choose|k: int|
                0 <= k < longer.len() && (forall|i: int|
                    0 <= i < k ==> group_succeeds(#[trigger] longer[i])) && err.group == k
                    && group_decoded(#[trigger] longer[k], Err::<ClassGroup, GroupError>(err.error));
            if k != j {
                let src_index = if k < j { k } else { k - 1 };
                assert(longer[k] == values[src_index]);
                assert(group_decoded(
                    values[src_index],
                    Ok::<ClassGroup, GroupError>(groups@[src_index]),
                ));
                lemma_decoded_group_succeeds(values[src_index], groups@[src_index]);
                lemma_failed_group_does_not_succeed(values[src_index], err.error);
            }
        },
    }
}

} // verus!
