use cset::declare::{
    create_dirty_check_ident, create_draft_ident, create_editor_ident, create_getter_ident,
    create_nested_draft_ident, create_resetter_ident, create_setter_ident,
    flattened_struct_ident, get_meta_items, has_flatten, is_flattened, matches_declaration,
    matches_staged, tracked_fields, AttrDecl, AttrMeta, DeriveError, FieldDecl, ItemDecl,
    ItemKind, MetaItem, TrackedField, TypeDecl,
};
use cset::{Field, Record, TypeTag, Value};

fn word(text: &str) -> MetaItem {
    MetaItem::Word(text.to_string())
}

fn attr(name: &str, items: Vec<MetaItem>) -> AttrDecl {
    AttrDecl { name: Some(name.to_string()), meta: AttrMeta::List(items) }
}

fn field(ident: &str, attrs: Vec<AttrDecl>, ty: &str) -> FieldDecl {
    FieldDecl { ident: Some(ident.to_string()), attrs, ty: TypeDecl::Named(ty.to_string()) }
}

fn item(fields: Vec<FieldDecl>) -> ItemDecl {
    ItemDecl { kind: ItemKind::Struct, fields }
}

#[test]
fn struct_with_a_flattened_field() {
    let foo = item(vec![
        field("x", vec![], "usize"),
        field("bar", vec![attr("track", vec![word("flatten")])], "Bar"),
    ]);
    assert_eq!(
        tracked_fields(&foo),
        Ok(vec![
            TrackedField { index: 0, ident: "x".to_string(), flattened_ident: None },
            TrackedField {
                index: 1,
                ident: "bar".to_string(),
                flattened_ident: Some("Bar".to_string()),
            },
        ])
    );
}

#[test]
fn struct_without_fields() {
    assert_eq!(tracked_fields(&item(vec![])), Ok(vec![]));
}

#[test]
fn enums_and_unions_are_refused() {
    let fields = vec![field("x", vec![], "usize")];
    assert_eq!(
        tracked_fields(&ItemDecl { kind: ItemKind::Enum, fields }),
        Err(DeriveError::Enum)
    );
    assert_eq!(
        tracked_fields(&ItemDecl { kind: ItemKind::Union, fields: vec![] }),
        Err(DeriveError::Union)
    );
}

#[test]
fn tuple_structs_are_refused() {
    let unnamed = FieldDecl { ident: None, attrs: vec![], ty: TypeDecl::Named("u8".to_string()) };
    assert_eq!(tracked_fields(&item(vec![unnamed])), Err(DeriveError::TupleStruct));
}

#[test]
fn unnamed_field_is_reported_before_a_bad_attribute() {
    let bad = AttrDecl { name: Some("track".to_string()), meta: AttrMeta::Other };
    let unnamed = FieldDecl { ident: None, attrs: vec![], ty: TypeDecl::Other };
    let fields = vec![field("x", vec![bad], "usize"), unnamed];
    assert_eq!(tracked_fields(&item(fields)), Err(DeriveError::TupleStruct));
}

#[test]
fn track_attribute_must_be_a_list() {
    let bad = AttrDecl { name: Some("track".to_string()), meta: AttrMeta::Other };
    assert_eq!(get_meta_items(&bad), Err(DeriveError::UnrecognizedAttribute));
    assert_eq!(
        tracked_fields(&item(vec![field("x", vec![bad], "usize")])),
        Err(DeriveError::UnrecognizedAttribute)
    );
}

#[test]
fn other_attributes_are_passed_over() {
    let doc = AttrDecl { name: Some("doc".to_string()), meta: AttrMeta::Other };
    let path = AttrDecl { name: None, meta: AttrMeta::List(vec![word("flatten")]) };
    let serde = attr("serde", vec![word("flatten")]);
    assert_eq!(get_meta_items(&doc), Ok(None));
    assert_eq!(get_meta_items(&path), Ok(None));
    assert_eq!(get_meta_items(&serde), Ok(None));
    assert_eq!(is_flattened(&vec![doc, path, serde]), Ok(false));
}

#[test]
fn entries_of_a_track_attribute() {
    let items = vec![MetaItem::Other, word("flatten")];
    let track = attr("track", vec![MetaItem::Other, word("flatten")]);
    assert_eq!(get_meta_items(&track), Ok(Some(&items)));
    assert!(has_flatten(&items));
    assert!(!has_flatten(&vec![MetaItem::Other, word("flat"), word("flattened")]));
    assert!(!has_flatten(&vec![]));
}

#[test]
fn attributes_are_read_up_to_the_first_that_decides() {
    let flatten = attr("track", vec![word("flatten")]);
    let other = attr("track", vec![word("skip")]);
    let bad = AttrDecl { name: Some("track".to_string()), meta: AttrMeta::Other };
    assert_eq!(is_flattened(&vec![other, flatten, bad]), Ok(true));

    let flatten = attr("track", vec![word("flatten")]);
    let bad = AttrDecl { name: Some("track".to_string()), meta: AttrMeta::Other };
    assert_eq!(is_flattened(&vec![bad, flatten]), Err(DeriveError::UnrecognizedAttribute));
    assert_eq!(is_flattened(&vec![]), Ok(false));
}

#[test]
fn flattened_field_needs_a_named_type() {
    assert_eq!(flattened_struct_ident(&TypeDecl::Named("Bar".to_string())), Ok("Bar".to_string()));
    assert_eq!(flattened_struct_ident(&TypeDecl::Other), Err(DeriveError::FlattenedType));
    let nested = FieldDecl {
        ident: Some("bar".to_string()),
        attrs: vec![attr("track", vec![word("flatten")])],
        ty: TypeDecl::Other,
    };
    assert_eq!(tracked_fields(&item(vec![nested])), Err(DeriveError::FlattenedType));
    let scalar = FieldDecl { ident: Some("x".to_string()), attrs: vec![], ty: TypeDecl::Other };
    assert_eq!(
        tracked_fields(&item(vec![scalar])),
        Ok(vec![TrackedField { index: 0, ident: "x".to_string(), flattened_ident: None }])
    );
}

#[test]
fn first_field_in_error_is_reported() {
    let bad = AttrDecl { name: Some("track".to_string()), meta: AttrMeta::Other };
    let nested = FieldDecl {
        ident: Some("bar".to_string()),
        attrs: vec![attr("track", vec![word("flatten")])],
        ty: TypeDecl::Other,
    };
    let fields = vec![field("a", vec![], "u8"), nested, field("x", vec![bad], "usize")];
    assert_eq!(tracked_fields(&item(fields)), Err(DeriveError::FlattenedType));
}

#[test]
fn accessor_names() {
    assert_eq!(create_draft_ident("Foo"), "FooDraft");
    assert_eq!(create_nested_draft_ident("Bar"), "BarNestedDraft");
    assert_eq!(create_dirty_check_ident("x"), "is_x_dirty");
    assert_eq!(create_resetter_ident("x"), "reset_x");
    assert_eq!(create_editor_ident("bar"), "edit_bar");
    assert_eq!(create_getter_ident("x"), "get_x");
    assert_eq!(create_setter_ident("x"), "set_x");
    assert_eq!(create_draft_ident(""), "Draft");
}

#[test]
fn error_messages() {
    assert_eq!(DeriveError::Enum.message(), "Cannot derive Undo for enums");
    assert_eq!(DeriveError::Union.message(), "Cannot derive Undo for unions");
    assert_eq!(DeriveError::TupleStruct.message(), "Cannot derive Undo for tuple structs");
    assert_eq!(DeriveError::UnrecognizedAttribute.message(), "unrecognized attribute");
    assert_eq!(
        DeriveError::FlattenedType.message(),
        "a flattened field must have a struct name as its type"
    );
}

#[test]
fn record_against_its_declaration() {
    let declared = tracked_fields(&item(vec![
        field("x", vec![], "usize"),
        field("bar", vec![attr("track", vec![word("flatten")])], "Bar"),
    ]))
    .unwrap();
    let bar = Record::new(TypeTag(2), vec![Field::Scalar(Value::UInt(42))]);
    let foo = Record::new(TypeTag(1), vec![Field::Scalar(Value::UInt(10)), Field::Nested(bar.clone())]);
    assert!(matches_declaration(&declared, &foo));
    assert!(!matches_declaration(&declared, &bar));
    let swapped = Record::new(TypeTag(1), vec![Field::Nested(bar), Field::Scalar(Value::UInt(10))]);
    assert!(!matches_declaration(&declared, &swapped));
    let flat = Record::new(
        TypeTag(1),
        vec![Field::Scalar(Value::UInt(10)), Field::Scalar(Value::UInt(11))],
    );
    assert!(!matches_declaration(&declared, &flat));
}

#[test]
fn draft_against_its_declaration() {
    let foo_fields = tracked_fields(&item(vec![
        field("x", vec![], "usize"),
        field("bar", vec![attr("track", vec![word("flatten")])], "Bar"),
    ]))
    .unwrap();
    let bar_fields = tracked_fields(&item(vec![field("y", vec![], "usize")])).unwrap();
    let bar = Record::new(TypeTag(2), vec![Field::Scalar(Value::UInt(42))]);
    let mut foo = Record::new(TypeTag(1), vec![Field::Scalar(Value::UInt(10)), Field::Nested(bar)]);
    let mut draft = foo.edit();
    assert!(matches_staged(&foo_fields, &draft.staged));
    assert!(!matches_staged(&bar_fields, &draft.staged));
    let nested = draft.edit_nested(1);
    assert!(matches_staged(&bar_fields, &*nested.staged));
    assert!(!matches_staged(&foo_fields, &*nested.staged));
}
