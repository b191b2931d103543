use cset::{Change, ChangeSet, ChangeValue, Field, FieldId, Mismatch, Record, TypeTag, Value};

const FOO: TypeTag = TypeTag(10);
const BAR: TypeTag = TypeTag(11);

fn foo() -> Record {
    Record::new(
        FOO,
        vec![
            Field::Scalar(Value::UInt(10)),
            Field::Nested(Record::new(BAR, vec![Field::Scalar(Value::Text("a".to_string()))])),
        ],
    )
}

fn path(indices: &[usize]) -> FieldId {
    let mut id = FieldId::root();
    for index in indices {
        id = id.push_field(*index);
    }
    id
}

fn scalar(indices: &[usize], value: Value) -> Change {
    Change { field_id: path(indices), value: ChangeValue::Value(value) }
}

fn nested(indices: &[usize], target: TypeTag, changes: Vec<Change>) -> Change {
    Change {
        field_id: path(indices),
        value: ChangeValue::ChangeSet(ChangeSet::new(target, changes)),
    }
}

#[test]
fn change_set_for_another_type_is_rejected() {
    let record = foo();
    assert!(!record.accepts(&ChangeSet::new(BAR, vec![])));
    assert!(!record.accepts(&ChangeSet::new(BAR, vec![scalar(&[0], Value::UInt(1))])));
    assert!(!record.accepts(&ChangeSet::new(TypeTag(0), vec![])));
    assert!(record.accepts(&ChangeSet::new(FOO, vec![])));
}

#[test]
fn nested_change_set_for_another_type_is_rejected() {
    let record = foo();
    let wrong = ChangeSet::new(
        FOO,
        vec![nested(&[1], FOO, vec![scalar(&[1, 0], Value::Text("b".to_string()))])],
    );
    assert!(!record.accepts(&wrong));
    let right = ChangeSet::new(
        FOO,
        vec![nested(&[1], BAR, vec![scalar(&[1, 0], Value::Text("b".to_string()))])],
    );
    assert!(record.accepts(&right));
}

#[test]
fn field_index_out_of_range_is_rejected() {
    let record = foo();
    assert!(!record.accepts(&ChangeSet::new(FOO, vec![scalar(&[2], Value::UInt(1))])));
    assert!(!record.accepts(&ChangeSet::new(
        FOO,
        vec![nested(&[1], BAR, vec![scalar(&[1, 1], Value::Text("b".to_string()))])],
    )));
}

#[test]
fn path_without_an_index_for_the_level_is_rejected() {
    let record = foo();
    assert!(!record.accepts(&ChangeSet::new(FOO, vec![scalar(&[], Value::UInt(1))])));
    assert!(!record.accepts(&ChangeSet::new(
        FOO,
        vec![nested(&[1], BAR, vec![scalar(&[0], Value::Text("b".to_string()))])],
    )));
}

#[test]
fn payload_of_the_wrong_kind_is_rejected() {
    let record = foo();
    assert!(!record.accepts(&ChangeSet::new(FOO, vec![scalar(&[1], Value::UInt(1))])));
    assert!(!record.accepts(&ChangeSet::new(FOO, vec![nested(&[0], BAR, vec![])])));
}

#[test]
fn scalar_of_the_wrong_type_is_rejected() {
    let record = foo();
    assert!(!record.accepts(&ChangeSet::new(FOO, vec![scalar(&[0], Value::Int(1))])));
    assert!(!record.accepts(&ChangeSet::new(FOO, vec![scalar(&[0], Value::Bool(true))])));
    assert!(record.accepts(&ChangeSet::new(FOO, vec![scalar(&[0], Value::UInt(1))])));
}

#[test]
fn one_bad_change_rejects_the_set() {
    let record = foo();
    let changes = ChangeSet::new(
        FOO,
        vec![scalar(&[0], Value::UInt(1)), scalar(&[0], Value::UInt(2)), scalar(&[5], Value::UInt(3))],
    );
    assert!(!record.accepts(&changes));
}

#[test]
fn level_is_read_from_the_path_whatever_comes_after() {
    let mut record = foo();
    let changes = ChangeSet::new(FOO, vec![scalar(&[0, 7, 7], Value::UInt(1))]);
    assert!(record.accepts(&changes));
    let inverse = record.apply(changes);
    assert_eq!(record.fields[0], Field::Scalar(Value::UInt(1)));
    assert_eq!(inverse, ChangeSet::new(FOO, vec![scalar(&[0, 7, 7], Value::UInt(10))]));
}

#[test]
fn apply_keeps_the_shape_and_the_inverse_is_accepted() {
    let mut record = foo();
    let changes = ChangeSet::new(
        FOO,
        vec![
            nested(&[1], BAR, vec![scalar(&[1, 0], Value::Text("b".to_string()))]),
            scalar(&[0], Value::UInt(1)),
        ],
    );
    assert!(record.accepts(&changes));
    let inverse = record.apply(changes.clone());
    assert!(record.accepts(&inverse));
    assert!(record.accepts(&changes));
    assert_eq!(
        inverse,
        ChangeSet::new(
            FOO,
            vec![
                nested(&[1], BAR, vec![scalar(&[1, 0], Value::Text("a".to_string()))]),
                scalar(&[0], Value::UInt(10)),
            ],
        )
    );
}

#[test]
fn new_and_for_type() {
    let changes = ChangeSet::new(FOO, vec![scalar(&[0], Value::UInt(1))]);
    assert_eq!(changes.target_type, FOO);
    assert_eq!(changes.changes, vec![scalar(&[0], Value::UInt(1))]);
    assert!(changes.for_type(FOO));
    assert!(!changes.for_type(BAR));
}

#[test]
fn clones_are_equal() {
    let record = foo();
    assert_eq!(record.clone(), record);
    let changes = ChangeSet::new(
        FOO,
        vec![
            nested(&[1], BAR, vec![scalar(&[1, 0], Value::Bytes(vec![1, 2, 3]))]),
            scalar(&[0], Value::Bool(false)),
        ],
    );
    assert_eq!(changes.clone(), changes);
    assert_eq!(changes.changes[0].clone(), changes.changes[0]);
    assert_eq!(record.fields[1].clone(), record.fields[1]);
}

#[test]
fn faults_are_told_apart() {
    let record = foo();
    assert_eq!(record.mismatch(&ChangeSet::new(FOO, vec![])), None);
    assert_eq!(record.mismatch(&ChangeSet::new(BAR, vec![])), Some(Mismatch::Type));
    assert_eq!(
        record.mismatch(&ChangeSet::new(FOO, vec![nested(&[1], FOO, vec![])])),
        Some(Mismatch::Type)
    );
    assert_eq!(
        record.mismatch(&ChangeSet::new(FOO, vec![scalar(&[2], Value::UInt(1))])),
        Some(Mismatch::Shape)
    );
    assert_eq!(
        record.mismatch(&ChangeSet::new(FOO, vec![scalar(&[], Value::UInt(1))])),
        Some(Mismatch::Shape)
    );
    assert_eq!(
        record.mismatch(&ChangeSet::new(FOO, vec![scalar(&[1], Value::UInt(1))])),
        Some(Mismatch::Shape)
    );
    assert_eq!(
        record.mismatch(&ChangeSet::new(FOO, vec![nested(&[0], BAR, vec![])])),
        Some(Mismatch::Shape)
    );
    assert_eq!(
        record.mismatch(&ChangeSet::new(FOO, vec![scalar(&[0], Value::Int(1))])),
        Some(Mismatch::Shape)
    );
    assert_eq!(
        record.mismatch(&ChangeSet::new(
            FOO,
            vec![nested(&[1], BAR, vec![scalar(&[1, 3], Value::Text("b".to_string()))])],
        )),
        Some(Mismatch::Shape)
    );
}

#[test]
fn first_fault_in_stored_order_is_reported() {
    let record = foo();
    let shape_first = ChangeSet::new(
        FOO,
        vec![scalar(&[0], Value::UInt(1)), scalar(&[9], Value::UInt(1)), nested(&[1], FOO, vec![])],
    );
    assert_eq!(record.mismatch(&shape_first), Some(Mismatch::Shape));
    let type_first = ChangeSet::new(
        FOO,
        vec![scalar(&[0], Value::UInt(1)), nested(&[1], FOO, vec![]), scalar(&[9], Value::UInt(1))],
    );
    assert_eq!(record.mismatch(&type_first), Some(Mismatch::Type));
    let wrong_target = ChangeSet::new(BAR, vec![scalar(&[9], Value::UInt(1))]);
    assert_eq!(record.mismatch(&wrong_target), Some(Mismatch::Type));
}
