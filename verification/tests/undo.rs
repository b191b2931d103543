use cset::{Change, ChangeSet, ChangeValue, Field, FieldId, Record, TypeTag, Value};

const POINT: TypeTag = TypeTag(1);
const FOO: TypeTag = TypeTag(10);
const BAR: TypeTag = TypeTag(11);

fn point(x: i64, y: i64) -> Record {
    Record::new(POINT, vec![Field::Scalar(Value::Int(x)), Field::Scalar(Value::Int(y))])
}

fn bar(y: u64) -> Record {
    Record::new(BAR, vec![Field::Scalar(Value::UInt(y))])
}

fn foo(x: u64, y: u64) -> Record {
    Record::new(FOO, vec![Field::Scalar(Value::UInt(x)), Field::Nested(bar(y))])
}

fn path(indices: &[usize]) -> FieldId {
    let mut id = FieldId::root();
    for index in indices {
        id = id.push_field(*index);
    }
    id
}

fn scalar(indices: &[usize], value: Value) -> Change {
    Change { field_id: path(indices), value: ChangeValue::Value(value) }
}

fn nested(indices: &[usize], target: TypeTag, changes: Vec<Change>) -> Change {
    Change {
        field_id: path(indices),
        value: ChangeValue::ChangeSet(ChangeSet::new(target, changes)),
    }
}

#[test]
fn commit_then_undo_then_redo() {
    let mut record = Record::new(POINT, vec![Field::Scalar(Value::Int(0))]);
    let mut draft = record.edit();
    draft.set(0, Value::Int(42));
    let undo = draft.commit();
    assert_eq!(record, Record::new(POINT, vec![Field::Scalar(Value::Int(42))]));
    assert_eq!(undo, ChangeSet::new(POINT, vec![scalar(&[0], Value::Int(0))]));

    assert!(record.accepts(&undo));
    let redo = record.apply(undo);
    assert_eq!(record, Record::new(POINT, vec![Field::Scalar(Value::Int(0))]));
    assert_eq!(redo, ChangeSet::new(POINT, vec![scalar(&[0], Value::Int(42))]));

    assert!(record.accepts(&redo));
    let undo_again = record.apply(redo);
    assert_eq!(record, Record::new(POINT, vec![Field::Scalar(Value::Int(42))]));
    assert_eq!(undo_again, ChangeSet::new(POINT, vec![scalar(&[0], Value::Int(0))]));
}

#[test]
fn nested_edit_round_trip() {
    let mut record = foo(10, 42);

    let mut draft = record.edit();
    draft.set(0, Value::UInt(42));
    draft.edit_nested(1).set(0, Value::UInt(1024));
    let undo = draft.commit();
    assert_eq!(record, foo(42, 1024));
    assert_eq!(
        undo,
        ChangeSet::new(
            FOO,
            vec![
                scalar(&[0], Value::UInt(10)),
                nested(&[1], BAR, vec![scalar(&[1, 0], Value::UInt(42))]),
            ],
        )
    );

    assert!(record.accepts(&undo));
    let redo = record.apply(undo);
    assert_eq!(record, foo(10, 42));
    assert_eq!(
        redo,
        ChangeSet::new(
            FOO,
            vec![
                scalar(&[0], Value::UInt(42)),
                nested(&[1], BAR, vec![scalar(&[1, 0], Value::UInt(1024))]),
            ],
        )
    );

    assert!(record.accepts(&redo));
    record.apply(redo);
    assert_eq!(record, foo(42, 1024));
}

#[test]
fn two_inverses_cancel() {
    let mut record = foo(1, 2);
    let mut draft = record.edit();
    draft.set(0, Value::UInt(3));
    draft.edit_nested(1).set(0, Value::UInt(4));
    let first = draft.commit();
    let committed = record.clone();

    let second = record.apply(first.clone());
    assert_eq!(record, foo(1, 2));
    let third = record.apply(second);
    assert_eq!(record, committed);
    assert_eq!(third, first);
}

#[test]
fn only_the_nested_field_is_written() {
    let mut record = foo(10, 42);
    let mut draft = record.edit();
    draft.edit_nested(1).set(0, Value::UInt(7));
    assert!(draft.is_field_dirty(1));
    assert!(!draft.is_field_dirty(0));
    let undo = draft.commit();

    assert_eq!(record, foo(10, 7));
    assert_eq!(undo.changes.len(), 1);
    assert_eq!(undo.changes[0].field_id, path(&[1]));
    assert_eq!(
        undo.changes[0].value,
        ChangeValue::ChangeSet(ChangeSet::new(BAR, vec![scalar(&[1, 0], Value::UInt(42))]))
    );

    let mut sibling_check = foo(10, 7);
    sibling_check.apply(undo);
    assert_eq!(sibling_check, foo(10, 42));
    assert_eq!(sibling_check.fields[0], Field::Scalar(Value::UInt(10)));
}

#[test]
fn commit_without_edits_changes_nothing() {
    let mut record = foo(10, 42);
    let draft = record.edit();
    assert!(!draft.is_dirty());
    let changes = draft.commit();
    assert_eq!(changes, ChangeSet::new(FOO, vec![]));
    assert_eq!(record, foo(10, 42));
}

#[test]
fn empty_change_set_changes_nothing() {
    let mut record = foo(10, 42);
    let empty = ChangeSet::new(FOO, vec![]);
    assert!(record.accepts(&empty));
    let inverse = record.apply(empty);
    assert_eq!(inverse, ChangeSet::new(FOO, vec![]));
    assert_eq!(record, foo(10, 42));
}

#[test]
fn clean_nested_draft_is_left_out_of_the_change_set() {
    let mut record = foo(10, 42);
    let mut draft = record.edit();
    draft.set(0, Value::UInt(11));
    let mut child = draft.edit_nested(1);
    child.set(0, Value::UInt(5));
    assert_eq!(child.reset_field(0), Some(Value::UInt(5)));
    let undo = draft.commit();
    assert_eq!(undo, ChangeSet::new(FOO, vec![scalar(&[0], Value::UInt(10))]));
    assert_eq!(record, foo(11, 42));
}

#[test]
fn two_fields_invert_in_either_order() {
    let mut record = point(1, 2);
    let mut draft = record.edit();
    draft.set(0, Value::Int(10));
    draft.set(1, Value::Int(20));
    let undo = draft.commit();
    assert_eq!(record, point(10, 20));
    assert_eq!(
        undo,
        ChangeSet::new(POINT, vec![scalar(&[0], Value::Int(1)), scalar(&[1], Value::Int(2))])
    );

    let mut stored_order = point(10, 20);
    let redo = stored_order.apply(undo.clone());
    assert_eq!(stored_order, point(1, 2));
    assert_eq!(
        redo,
        ChangeSet::new(POINT, vec![scalar(&[0], Value::Int(10)), scalar(&[1], Value::Int(20))])
    );

    let mut other_order = point(10, 20);
    let swapped =
        ChangeSet::new(POINT, vec![scalar(&[1], Value::Int(2)), scalar(&[0], Value::Int(1))]);
    assert!(other_order.accepts(&swapped));
    let redo_swapped = other_order.apply(swapped);
    assert_eq!(other_order, point(1, 2));
    assert_eq!(
        redo_swapped,
        ChangeSet::new(POINT, vec![scalar(&[1], Value::Int(20)), scalar(&[0], Value::Int(10))])
    );
}

#[test]
fn changes_to_one_field_apply_in_stored_order() {
    let mut record = point(1, 2);
    let twice =
        ChangeSet::new(POINT, vec![scalar(&[0], Value::Int(5)), scalar(&[0], Value::Int(6))]);
    assert!(record.accepts(&twice));
    let inverse = record.apply(twice);
    assert_eq!(record, point(6, 2));
    assert_eq!(
        inverse,
        ChangeSet::new(POINT, vec![scalar(&[0], Value::Int(1)), scalar(&[0], Value::Int(5))])
    );
}

#[test]
fn dropping_a_draft_leaves_the_record_alone() {
    let mut record = foo(10, 42);
    {
        let mut draft = record.edit();
        draft.set(0, Value::UInt(99));
        draft.edit_nested(1).set(0, Value::UInt(98));
        assert!(draft.is_dirty());
    }
    assert_eq!(record, foo(10, 42));
    let draft = record.edit();
    assert!(!draft.is_dirty());
}

struct HistoryItem {
    point: usize,
    changeset: ChangeSet,
}

struct Document {
    points: Vec<Record>,
    undo_stack: Vec<HistoryItem>,
    redo_stack: Vec<HistoryItem>,
}

impl Document {
    fn undo(&mut self) {
        if let Some(item) = self.undo_stack.pop() {
            let point = &mut self.points[item.point];
            assert!(point.accepts(&item.changeset));
            let changeset = point.apply(item.changeset);
            self.redo_stack.push(HistoryItem { point: item.point, changeset });
        }
    }

    fn redo(&mut self) {
        if let Some(item) = self.redo_stack.pop() {
            let point = &mut self.points[item.point];
            assert!(point.accepts(&item.changeset));
            let changeset = point.apply(item.changeset);
            self.undo_stack.push(HistoryItem { point: item.point, changeset });
        }
    }

    fn set_point_pos(&mut self, id: usize, x: i64, y: i64) {
        self.redo_stack.clear();
        let mut draft = self.points[id].edit();
        draft.set(0, Value::Int(x));
        draft.set(1, Value::Int(y));
        let changeset = draft.commit();
        self.undo_stack.push(HistoryItem { point: id, changeset });
    }
}

#[test]
fn undo_stack() {
    let mut doc = Document { points: vec![point(42, 21)], undo_stack: vec![], redo_stack: vec![] };

    doc.set_point_pos(0, 10, 10);
    doc.set_point_pos(0, 20, 20);
    doc.set_point_pos(0, 30, 30);
    assert_eq!(doc.points[0], point(30, 30));

    doc.undo();
    assert_eq!(doc.points[0], point(20, 20));

    doc.undo();
    assert_eq!(doc.points[0], point(10, 10));

    doc.redo();
    assert_eq!(doc.points[0], point(20, 20));

    doc.set_point_pos(0, 40, 40);
    assert_eq!(doc.points[0], point(40, 40));

    doc.redo();
    assert_eq!(doc.points[0], point(40, 40));
}
