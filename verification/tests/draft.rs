use cset::{Change, ChangeValue, DraftField, Field, FieldId, Record, TypeTag, Value, ValueType};

const FOO: TypeTag = TypeTag(10);
const BAR: TypeTag = TypeTag(11);
const BAZ: TypeTag = TypeTag(12);

fn deep() -> Record {
    Record::new(
        FOO,
        vec![
            Field::Scalar(Value::Text("title".to_string())),
            Field::Nested(Record::new(
                BAR,
                vec![
                    Field::Scalar(Value::Bool(false)),
                    Field::Nested(Record::new(BAZ, vec![Field::Scalar(Value::Int(-1))])),
                ],
            )),
            Field::Scalar(Value::Bytes(vec![1, 2])),
        ],
    )
}

#[test]
fn fresh_draft_is_clean() {
    let mut record = deep();
    let draft = record.edit();
    assert!(!draft.is_dirty());
    assert_eq!(draft.len(), 3);
    assert!(!draft.is_field_dirty(0));
    assert!(!draft.is_field_dirty(1));
    assert!(!draft.is_field_dirty(2));
}

#[test]
fn set_makes_dirty_and_reset_makes_clean() {
    let mut record = deep();
    let mut draft = record.edit();
    draft.set(0, Value::Text("other".to_string()));
    assert!(draft.is_dirty());
    assert!(draft.is_field_dirty(0));
    assert!(!draft.is_field_dirty(2));
    assert_eq!(draft.reset_field(0), Some(Value::Text("other".to_string())));
    assert!(!draft.is_field_dirty(0));
    assert!(!draft.is_dirty());
    assert_eq!(draft.reset_field(0), None);
}

#[test]
fn getter_prefers_the_staged_value() {
    let mut record = deep();
    let mut draft = record.edit();
    assert_eq!(*draft.get(0), Value::Text("title".to_string()));
    draft.set(0, Value::Text("first".to_string()));
    assert_eq!(*draft.get(0), Value::Text("first".to_string()));
    draft.set(0, Value::Text("second".to_string()));
    assert_eq!(*draft.get(0), Value::Text("second".to_string()));
    draft.reset_field(0);
    assert_eq!(*draft.get(0), Value::Text("title".to_string()));
    assert_eq!(*draft.get(2), Value::Bytes(vec![1, 2]));
}

#[test]
fn scalar_types_are_those_of_the_record() {
    let mut record = deep();
    let mut draft = record.edit();
    assert_eq!(draft.scalar_type(0), Some(ValueType::Text));
    assert_eq!(draft.scalar_type(1), None);
    assert_eq!(draft.scalar_type(2), Some(ValueType::Bytes));
    let mut child = draft.edit_nested(1);
    assert_eq!(child.len(), 2);
    assert_eq!(child.scalar_type(0), Some(ValueType::Bool));
    assert_eq!(child.scalar_type(1), None);
    let grandchild = child.edit_nested(1);
    assert_eq!(grandchild.len(), 1);
    assert_eq!(grandchild.scalar_type(0), Some(ValueType::Int));
}

#[test]
fn grandchild_edit_marks_every_level() {
    let mut record = deep();
    let mut draft = record.edit();
    {
        let mut child = draft.edit_nested(1);
        {
            let mut grandchild = child.edit_nested(1);
            assert_eq!(*grandchild.get(0), Value::Int(-1));
            grandchild.set(0, Value::Int(7));
            assert_eq!(*grandchild.get(0), Value::Int(7));
            assert!(grandchild.is_dirty());
            assert!(grandchild.is_field_dirty(0));
        }
        assert!(child.is_dirty());
        assert!(child.is_field_dirty(1));
        assert!(!child.is_field_dirty(0));
        assert_eq!(*child.get(0), Value::Bool(false));
    }
    assert!(draft.is_dirty());
    assert!(draft.is_field_dirty(1));
    assert!(!draft.is_field_dirty(0));
}

#[test]
fn reset_of_a_nested_field_clears_everything_below() {
    let mut record = deep();
    let mut draft = record.edit();
    {
        let mut child = draft.edit_nested(1);
        child.set(0, Value::Bool(true));
        child.edit_nested(1).set(0, Value::Int(7));
    }
    assert!(draft.is_field_dirty(1));
    assert_eq!(draft.reset_field(1), None);
    assert!(!draft.is_field_dirty(1));
    assert!(!draft.is_dirty());
    assert!(!draft.edit_nested(1).is_dirty());
    assert!(!draft.edit_nested(1).edit_nested(1).is_dirty());
}

#[test]
fn reset_clears_every_field() {
    let mut record = deep();
    let mut draft = record.edit();
    draft.set(0, Value::Text("x".to_string()));
    draft.set(2, Value::Bytes(vec![]));
    draft.edit_nested(1).edit_nested(1).set(0, Value::Int(7));
    draft.reset();
    assert!(!draft.is_dirty());
    let changes = draft.commit();
    assert_eq!(changes.changes.len(), 0);
    assert_eq!(record, deep());
}

#[test]
fn nested_reset_clears_only_that_record() {
    let mut record = deep();
    let mut draft = record.edit();
    draft.set(0, Value::Text("x".to_string()));
    {
        let mut child = draft.edit_nested(1);
        child.set(0, Value::Bool(true));
        child.edit_nested(1).set(0, Value::Int(7));
        child.reset();
        assert!(!child.is_dirty());
    }
    assert!(draft.is_dirty());
    assert!(!draft.is_field_dirty(1));
    assert!(draft.is_field_dirty(0));
}

#[test]
fn commit_lists_the_dirty_fields_in_field_order() {
    let mut record = deep();
    let mut draft = record.edit();
    draft.set(2, Value::Bytes(vec![9]));
    draft.edit_nested(1).edit_nested(1).set(0, Value::Int(7));
    draft.set(0, Value::Text("x".to_string()));
    let undo = draft.commit();
    let paths: Vec<FieldId> = undo.changes.iter().map(|change| change.field_id.clone()).collect();
    assert_eq!(
        paths,
        vec![
            FieldId::root().push_field(0),
            FieldId::root().push_field(1),
            FieldId::root().push_field(2),
        ]
    );
    match &undo.changes[1].value {
        ChangeValue::ChangeSet(child) => {
            assert_eq!(child.target_type, BAR);
            assert_eq!(child.changes.len(), 1);
            assert_eq!(child.changes[0].field_id, FieldId::root().push_field(1).push_field(1));
            match &child.changes[0].value {
                ChangeValue::ChangeSet(grandchild) => {
                    assert_eq!(grandchild.target_type, BAZ);
                    assert_eq!(
                        grandchild.changes,
                        vec![Change {
                            field_id: FieldId::root().push_field(1).push_field(1).push_field(0),
                            value: ChangeValue::Value(Value::Int(-1)),
                        }]
                    );
                }
                ChangeValue::Value(_) => panic!("a nested change set was expected"),
            }
        }
        ChangeValue::Value(_) => panic!("a nested change set was expected"),
    }
}

#[test]
fn draft_field_stages_and_applies() {
    let mut stored = Value::Int(0);
    let mut field = DraftField::new(&mut stored);
    assert!(!field.is_dirty());
    assert_eq!(*field.get(), Value::Int(0));
    field.set(Value::Int(1));
    field.set(Value::Int(42));
    assert!(field.is_dirty());
    assert_eq!(*field.get(), Value::Int(42));
    let change = field.apply(FieldId::root().push_field(4));
    assert_eq!(
        change,
        Some(Change {
            field_id: FieldId::root().push_field(4),
            value: ChangeValue::Value(Value::Int(0)),
        })
    );
    assert_eq!(stored, Value::Int(42));
}

#[test]
fn draft_field_without_a_staged_value_writes_nothing() {
    let mut stored = Value::Int(5);
    let field = DraftField::new(&mut stored);
    assert_eq!(field.apply(FieldId::root()), None);
    assert_eq!(stored, Value::Int(5));
}

#[test]
fn draft_field_reset_hands_the_staged_value_back() {
    let mut stored = Value::Int(5);
    let mut field = DraftField::new(&mut stored);
    assert_eq!(field.reset(), None);
    field.set(Value::Int(6));
    assert_eq!(field.reset(), Some(Value::Int(6)));
    assert!(!field.is_dirty());
    assert_eq!(*field.get(), Value::Int(5));
    assert_eq!(field.apply(FieldId::root()), None);
    assert_eq!(stored, Value::Int(5));
}

#[test]
fn value_types() {
    assert_eq!(Value::Bool(true).value_type(), ValueType::Bool);
    assert_eq!(Value::Int(-1).value_type(), ValueType::Int);
    assert_eq!(Value::UInt(1).value_type(), ValueType::UInt);
    assert_eq!(Value::Text(String::new()).value_type(), ValueType::Text);
    assert_eq!(Value::Bytes(vec![]).value_type(), ValueType::Bytes);
    assert_eq!(Value::Text("a".to_string()).clone(), Value::Text("a".to_string()));
}
