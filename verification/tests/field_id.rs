use cset::FieldId;

#[test]
fn root_is_empty() {
    assert_eq!(FieldId::root().len(), 0);
    assert_eq!(FieldId::default(), FieldId::root());
}

#[test]
fn push_field_appends_and_leaves_the_receiver() {
    let root = FieldId::root();
    let first = root.push_field(3);
    let second = first.push_field(5);
    assert_eq!(root.len(), 0);
    assert_eq!(first.len(), 1);
    assert_eq!(second.len(), 2);
    assert_eq!(first.field_index(0), 3);
    assert_eq!(second.field_index(0), 3);
    assert_eq!(second.field_index(1), 5);
}

#[test]
fn paths_are_equal_when_their_indices_are() {
    let a = FieldId::root().push_field(1).push_field(2);
    let b = FieldId::root().push_field(1).push_field(2);
    let c = FieldId::root().push_field(2).push_field(1);
    let d = FieldId::root().push_field(1);
    assert_eq!(a, b);
    assert_ne!(a, c);
    assert_ne!(a, d);
    assert_ne!(d, a);
    assert_eq!(a.clone(), a);
}
