//! Recorded changes and their batched form.

use crate::field_id::FieldId;
use crate::value::{Value, ValueView};
use vstd::prelude::*;

verus! {

/// The identity of a record type. Two records are of the same type exactly
/// when their tags are equal.
#[derive(Clone, Copy, PartialEq, Eq, Structural, Debug, Hash)]
pub struct TypeTag(pub u64);

/// An ordered batch of changes for one record type.
#[derive(PartialEq, Eq, Debug)]
pub struct ChangeSet {
    pub target_type: TypeTag,
    pub changes: Vec<Change>,
}

/// What a change carries: a scalar value, or the changes of a nested record.
#[derive(PartialEq, Eq, Debug)]
pub enum ChangeValue {
    Value(Value),
    ChangeSet(ChangeSet),
}

/// A payload for the field addressed by `field_id`.
#[derive(PartialEq, Eq, Debug)]
pub struct Change {
    pub field_id: FieldId,
    pub value: ChangeValue,
}

/// The mathematical content of a [`ChangeSet`].
pub struct ChangeSetView {
    pub target_type: TypeTag,
    pub changes: Seq<ChangeView>,
}

/// The mathematical content of a [`ChangeValue`].
pub enum ChangeValueView {
    Value(ValueView),
    ChangeSet(ChangeSetView),
}

/// The mathematical content of a [`Change`].
pub struct ChangeView {
    pub path: Seq<usize>,
    pub value: ChangeValueView,
}

pub open spec fn change_set_view(cs: ChangeSet) -> ChangeSetView
    decreases cs,
{
    ChangeSetView {
        target_type: cs.target_type,
        changes: Seq::new(
            cs.changes.len() as nat,
            |i: int|
                if 0 <= i < cs.changes.len() {
                    change_view(cs.changes[i])
                } else {
                    arbitrary()
                },
        ),
    }
}

pub open spec fn change_value_view(value: ChangeValue) -> ChangeValueView
    decreases value,
{
    match value {
        ChangeValue::Value(v) => ChangeValueView::Value(v@),
        ChangeValue::ChangeSet(cs) => ChangeValueView::ChangeSet(change_set_view(cs)),
    }
}

pub open spec fn change_view(change: Change) -> ChangeView
    decreases change,
{
    ChangeView { path: change.field_id@, value: change_value_view(change.value) }
}

impl View for ChangeSet {
    type V = ChangeSetView;

    open spec fn view(&self) -> ChangeSetView {
        change_set_view(*self)
    }
}

impl View for ChangeValue {
    type V = ChangeValueView;

    open spec fn view(&self) -> ChangeValueView {
        change_value_view(*self)
    }
}

impl View for Change {
    type V = ChangeView;

    open spec fn view(&self) -> ChangeView {
        change_view(*self)
    }
}

impl ChangeSetView {
    /// No two changes of this set address the same field of the record, and
    /// the same holds of each nested change set, one level further down.
    pub open spec fn distinct(self, depth: nat) -> bool
        decreases self, 1nat,
    {
        &&& forall|j: int, k: int|
            0 <= j < k < self.changes.len() ==> (#[trigger] self.changes[j]).path[depth as int] != (
            #[trigger] self.changes[k]).path[depth as int]
        &&& forall|k: int|
            0 <= k < self.changes.len() ==> (#[trigger] self.changes[k]).distinct_below(depth)
    }
}

impl ChangeSetView {
    /// Every path of this set is `prefix`, the path of the record that the
    /// set is for, extended by the index of a field, and the same holds of
    /// each nested change set under the path of the change that carries it.
    /// So the length of a path is the nesting depth of its field.
    pub open spec fn addressed_from(self, prefix: Seq<usize>) -> bool
        decreases self, 1nat,
    {
        forall|k: int|
            0 <= k < self.changes.len() ==> (#[trigger] self.changes[k]).addressed_from(prefix)
    }
}

impl ChangeView {
    /// The path of this change is `prefix` extended by the index of a field,
    /// and the nested change set that it carries, if any, is addressed from
    /// that path.
    pub open spec fn addressed_from(self, prefix: Seq<usize>) -> bool
        decreases self, 0nat,
    {
        &&& self.path.len() == prefix.len() + 1
        &&& self.path.take(prefix.len() as int) == prefix
        &&& match self.value {
            ChangeValueView::Value(_) => true,
            ChangeValueView::ChangeSet(inner) => inner.addressed_from(self.path),
        }
    }

    /// The nested change set that this change carries, if any, addresses no
    /// field twice.
    pub open spec fn distinct_below(self, depth: nat) -> bool
        decreases self, 0nat,
    {
        match self.value {
            ChangeValueView::Value(_) => true,
            ChangeValueView::ChangeSet(inner) => inner.distinct(depth + 1),
        }
    }
}

impl ChangeSet {
    /// A batch of `changes` for records of type `target_type`.
    pub fn new(target_type: TypeTag, changes: Vec<Change>) -> (cs: Self)
        ensures
            cs.target_type == target_type,
            cs.changes == changes,
    {
        ChangeSet { target_type, changes }
    }

    /// Whether this batch targets records of type `record_type`.
    pub fn for_type(&self, record_type: TypeTag) -> (r: bool)
        ensures
            r == (self@.target_type == record_type),
    {
        self.target_type == record_type
    }
}

impl ChangeSet {
    fn duplicate(&self) -> (copy: Self)
        ensures
            copy@ == self@,
        decreases self,
    {
        proof {
            lemma_change_set_view(*self);
        }
        let mut changes: Vec<Change> = Vec::new();
        let mut i: usize = 0;
        while i < self.changes.len()
            invariant
                i <= self.changes.len(),
                changes.len() == i,
                forall|j: int| 0 <= j < i ==> (#[trigger] changes[j])@ == self.changes[j]@,
            decreases self.changes.len() - i,
        {
            let change = &self.changes[i];
            let value = match &change.value {
                ChangeValue::Value(value) => ChangeValue::Value(value.clone()),
                ChangeValue::ChangeSet(inner) => ChangeValue::ChangeSet(inner.duplicate()),
            };
            changes.push(Change { field_id: change.field_id.clone(), value });
            i += 1;
        }
        let copy = ChangeSet { target_type: self.target_type, changes };
        proof {
            lemma_change_set_view(copy);
            assert(copy@.changes =~= self@.changes);
        }
        copy
    }
}

impl Clone for ChangeSet {
    fn clone(&self) -> (copy: Self)
        ensures
            copy@ == self@,
    {
        self.duplicate()
    }
}

impl Clone for ChangeValue {
    fn clone(&self) -> (copy: Self)
        ensures
            copy@ == self@,
    {
        match self {
            ChangeValue::Value(value) => ChangeValue::Value(value.clone()),
            ChangeValue::ChangeSet(inner) => ChangeValue::ChangeSet(inner.duplicate()),
        }
    }
}

impl Clone for Change {
    fn clone(&self) -> (copy: Self)
        ensures
            copy@ == self@,
    {
        Change { field_id: self.field_id.clone(), value: self.value.clone() }
    }
}

/// The view of a change set is the views of its changes, in order.
pub proof fn lemma_change_set_view(cs: ChangeSet)
    ensures
        cs@.target_type == cs.target_type,
        cs@.changes.len() == cs.changes.len(),
        forall|i: int| 0 <= i < cs.changes.len() ==> cs@.changes[i] == #[trigger] cs.changes[i]@,
{
}

} // verus!
