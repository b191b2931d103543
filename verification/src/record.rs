//! Records, their shape, and the apply algorithm.

use crate::change::{
    lemma_change_set_view, Change, ChangeSet, ChangeSetView, ChangeValue, ChangeValueView,
    ChangeView, TypeTag,
};
use crate::draft::DraftField;
use crate::lemmas::lemma_apply_keeps_shape;
use crate::value::{Value, ValueType, ValueView};
use vstd::pervasive::unreached;
use vstd::prelude::*;

verus! {

/// One field of a record: a scalar value, or a record of its own.
#[derive(PartialEq, Eq, Debug)]
pub enum Field {
    Scalar(Value),
    Nested(Record),
}

/// A structured value with a fixed, ordered list of fields.
#[derive(PartialEq, Eq, Debug)]
pub struct Record {
    pub type_tag: TypeTag,
    pub fields: Vec<Field>,
}

/// The mathematical content of a [`Field`].
pub enum FieldView {
    Scalar(ValueView),
    Nested(RecordView),
}

/// The mathematical content of a [`Record`].
pub struct RecordView {
    pub type_tag: TypeTag,
    pub fields: Seq<FieldView>,
}

/// What is fixed about a field when its record type is declared.
pub enum FieldShape {
    Scalar(ValueType),
    Nested(RecordShape),
}

/// What is fixed about a record when its type is declared: its identity and
/// the kind of each field, in order.
pub struct RecordShape {
    pub type_tag: TypeTag,
    pub fields: Seq<FieldShape>,
}

pub open spec fn field_view(field: Field) -> FieldView
    decreases field,
{
    match field {
        Field::Scalar(v) => FieldView::Scalar(v@),
        Field::Nested(r) => FieldView::Nested(record_view(r)),
    }
}

pub open spec fn record_view(record: Record) -> RecordView
    decreases record,
{
    RecordView {
        type_tag: record.type_tag,
        fields: Seq::new(
            record.fields.len() as nat,
            |i: int|
                if 0 <= i < record.fields.len() {
                    field_view(record.fields[i])
                } else {
                    arbitrary()
                },
        ),
    }
}

impl View for Field {
    type V = FieldView;

    open spec fn view(&self) -> FieldView {
        field_view(*self)
    }
}

impl View for Record {
    type V = RecordView;

    open spec fn view(&self) -> RecordView {
        record_view(*self)
    }
}

impl FieldView {
    pub open spec fn shape(self) -> FieldShape
        decreases self,
    {
        match self {
            FieldView::Scalar(v) => FieldShape::Scalar(v.value_type()),
            FieldView::Nested(r) => FieldShape::Nested(r.shape()),
        }
    }
}

impl RecordView {
    pub open spec fn shape(self) -> RecordShape
        decreases self,
    {
        RecordShape {
            type_tag: self.type_tag,
            fields: Seq::new(
                self.fields.len(),
                |i: int|
                    if 0 <= i < self.fields.len() {
                        self.fields[i].shape()
                    } else {
                        arbitrary()
                    },
            ),
        }
    }

    /// This record after `changes` have been applied at nesting level 0.
    pub open spec fn applied(self, changes: ChangeSetView) -> RecordView {
        apply_at(self, changes, 0).0
    }

    /// The change set that reverts `changes`, applied at nesting level 0.
    pub open spec fn inverse(self, changes: ChangeSetView) -> ChangeSetView {
        apply_at(self, changes, 0).1
    }
}

impl RecordShape {
    /// Whether `changes` can be applied to a record of this shape whose own
    /// fields are addressed by position `depth` of each path: the type tags
    /// agree, every path has an index for this level that names a field, and
    /// each payload fits the kind of its field.
    pub open spec fn accepts(self, changes: ChangeSetView, depth: nat) -> bool
        decreases changes, 1nat,
    {
        &&& changes.target_type == self.type_tag
        &&& forall|k: int|
            0 <= k < changes.changes.len() ==> self.accepts_change(
                #[trigger] changes.changes[k],
                depth,
            )
    }

    /// Whether one change can be applied to a record of this shape.
    pub open spec fn accepts_change(self, change: ChangeView, depth: nat) -> bool
        decreases change, 0nat,
    {
        &&& depth < change.path.len()
        &&& change.path[depth as int] < self.fields.len()
        &&& match change.value {
            ChangeValueView::Value(v) => self.fields[change.path[depth as int] as int]
                == FieldShape::Scalar(v.value_type()),
            ChangeValueView::ChangeSet(inner) => match self.fields[change.path[depth as int] as int] {
                FieldShape::Nested(shape) => shape.accepts(inner, depth + 1),
                FieldShape::Scalar(_) => false,
            },
        }
    }
}

/// Why a record does not accept a change set.
#[derive(Clone, Copy, PartialEq, Eq, Structural, Debug)]
pub enum Mismatch {
    /// The change set, or a change set nested in it, targets another record
    /// type than that of the record it meets.
    Type,
    /// A path has no index for the level at which it is read, the index
    /// names no field, or the payload is not of the kind and type of the
    /// field.
    Shape,
}

impl RecordShape {
    /// What is wrong with `changes` for a record of this shape, if anything:
    /// the first fault that applying them in the order stored would meet.
    pub open spec fn mismatch(self, changes: ChangeSetView, depth: nat) -> Option<Mismatch>
        decreases changes, 1nat,
    {
        if changes.target_type != self.type_tag {
            Some(Mismatch::Type)
        } else {
            self.mismatch_among(changes.changes, changes.changes.len(), depth)
        }
    }

    /// What is wrong with the first `n` of `changes`, if anything.
    pub open spec fn mismatch_among(self, changes: Seq<ChangeView>, n: nat, depth: nat) -> Option<
        Mismatch,
    >
        decreases changes, n,
    {
        if n == 0 || n > changes.len() {
            None
        } else {
            match self.mismatch_among(changes, (n - 1) as nat, depth) {
                Some(fault) => Some(fault),
                None => self.mismatch_of(changes[n - 1], depth),
            }
        }
    }

    /// What is wrong with one change, if anything.
    pub open spec fn mismatch_of(self, change: ChangeView, depth: nat) -> Option<Mismatch>
        decreases change, 0nat,
    {
        if depth >= change.path.len() || change.path[depth as int] >= self.fields.len() {
            Some(Mismatch::Shape)
        } else {
            match change.value {
                ChangeValueView::Value(v) => if self.fields[change.path[depth as int] as int]
                    == FieldShape::Scalar(v.value_type()) {
                    None
                } else {
                    Some(Mismatch::Shape)
                },
                ChangeValueView::ChangeSet(inner) => match self.fields[change.path[depth as int] as int] {
                    FieldShape::Nested(shape) => shape.mismatch(inner, depth + 1),
                    FieldShape::Scalar(_) => Some(Mismatch::Shape),
                },
            }
        }
    }
}

/// The effect of one change on the fields of a record: the fields afterwards,
/// and the change that puts the overwritten content back. A change that the
/// record's shape does not accept has no effect.
pub open spec fn apply_change(fields: Seq<FieldView>, change: ChangeView, depth: nat) -> (
    Seq<FieldView>,
    ChangeView,
)
    decreases change, 0nat,
{
    let index = change.path[depth as int] as int;
    if index < fields.len() {
        match change.value {
            ChangeValueView::Value(v) => match fields[index] {
                FieldView::Scalar(old) => (
                    fields.update(index, FieldView::Scalar(v)),
                    ChangeView { path: change.path, value: ChangeValueView::Value(old) },
                ),
                FieldView::Nested(_) => (fields, change),
            },
            ChangeValueView::ChangeSet(inner) => match fields[index] {
                FieldView::Nested(record) => {
                    let (after, inverse) = apply_at(record, inner, depth + 1);
                    (
                        fields.update(index, FieldView::Nested(after)),
                        ChangeView {
                            path: change.path,
                            value: ChangeValueView::ChangeSet(inverse),
                        },
                    )
                },
                FieldView::Scalar(_) => (fields, change),
            },
        }
    } else {
        (fields, change)
    }
}

/// The effect of the first `n` of `changes`, applied one after the other in
/// the order stored: the fields afterwards, and the reverting changes in the
/// same order.
pub open spec fn apply_prefix(
    fields: Seq<FieldView>,
    changes: Seq<ChangeView>,
    n: nat,
    depth: nat,
) -> (Seq<FieldView>, Seq<ChangeView>)
    decreases changes, n,
{
    if n == 0 || n > changes.len() {
        (fields, Seq::empty())
    } else {
        let (before, inverse) = apply_prefix(fields, changes, (n - 1) as nat, depth);
        let (after, reverting) = apply_change(before, changes[n - 1], depth);
        (after, inverse.push(reverting))
    }
}

/// The effect of a change set on a record whose own fields are addressed by
/// position `depth` of each path: the record afterwards, and the change set
/// that reverts it.
pub open spec fn apply_at(record: RecordView, changes: ChangeSetView, depth: nat) -> (
    RecordView,
    ChangeSetView,
)
    decreases changes, 1nat,
{
    let (fields, inverse) = apply_prefix(
        record.fields,
        changes.changes,
        changes.changes.len(),
        depth,
    );
    (
        RecordView { type_tag: record.type_tag, fields },
        ChangeSetView { target_type: record.type_tag, changes: inverse },
    )
}

/// The views of a list of changes, in order.
pub open spec fn changes_view(changes: Seq<Change>) -> Seq<ChangeView> {
    Seq::new(changes.len(), |i: int| changes[i]@)
}

impl Record {
    /// A record of type `type_tag` with the given fields.
    pub fn new(type_tag: TypeTag, fields: Vec<Field>) -> (record: Self)
        ensures
            record.type_tag == type_tag,
            record.fields == fields,
    {
        Record { type_tag, fields }
    }

    /// Whether `changes` can be applied to this record: they target its type
    /// and address, level by level, fields that exist and are of the kind
    /// and type that each payload needs.
    pub fn accepts(&self, changes: &ChangeSet) -> (ok: bool)
        ensures
            ok == self@.shape().accepts(changes@, 0),
    {
        proof {
            lemma_accepts_iff_no_mismatch(self@.shape(), changes@, 0);
        }
        self.mismatch(changes).is_none()
    }

    /// Why `changes` cannot be applied to this record, or `None` if they
    /// can. Of several faults the one is reported that applying the changes
    /// in the order stored would meet first.
    pub fn mismatch(&self, changes: &ChangeSet) -> (fault: Option<Mismatch>)
        ensures
            fault == self@.shape().mismatch(changes@, 0),
            fault is None <==> self@.shape().accepts(changes@, 0),
    {
        proof {
            lemma_accepts_iff_no_mismatch(self@.shape(), changes@, 0);
        }
        self.mismatch_at(changes, 0)
    }

    /// Applies `changes` in the order stored. Each scalar change replaces
    /// the value of its field, each nested change is applied to the nested
    /// record of its field. The change set that is returned has one change
    /// for each one applied, in the same order and at the same path, and
    /// carries what was overwritten; this record keeps its shape.
    pub fn apply(&mut self, changes: ChangeSet) -> (inverse: ChangeSet)
        requires
            old(self)@.shape().accepts(changes@, 0),
        ensures
            final(self)@ == old(self)@.applied(changes@),
            inverse@ == old(self)@.inverse(changes@),
            final(self)@.shape() == old(self)@.shape(),
            final(self)@.shape().accepts(inverse@, 0),
    {
        proof {
            lemma_apply_keeps_shape(self@, changes@, 0);
        }
        self.apply_at(changes, 0)
    }

    pub(crate) fn apply_at(&mut self, changes: ChangeSet, depth: usize) -> (inverse: ChangeSet)
        requires
            old(self)@.shape().accepts(changes@, depth as nat),
        ensures
            (final(self)@, inverse@) == apply_at(old(self)@, changes@, depth as nat),
            final(self)@.shape() == old(self)@.shape(),
        decreases changes,
    {
        let ghost before = self@;
        let ghost whole = changes;
        let ghost all = changes@.changes;
        proof {
            lemma_change_set_view(changes);
            lemma_record_view(*self);
        }
        let ChangeSet { target_type: _, changes: list } = changes;
        let mut reverse: Vec<Change> = Vec::new();
        let mut k: usize = 0;
        for change in it: list
            invariant
                k == it.index(),
                it.seq() == list@,
                whole.changes == list,
                changes == whole,
                self.type_tag == before.type_tag,
                self@.shape() == before.shape(),
                before.shape().accepts(changes@, depth as nat),
                all == changes@.changes,
                all.len() == list.len(),
                forall|j: int| 0 <= j < list.len() ==> all[j] == #[trigger] list[j]@,
                (self@.fields, changes_view(reverse@)) == apply_prefix(
                    before.fields,
                    all,
                    k as nat,
                    depth as nat,
                ),
        {
            assert(change == list[k as int]);
            assert(all[k as int] == change@);
            assert(before.shape().accepts_change(change@, depth as nat));
            let ghost fields_before = self@.fields;
            let ghost reverse_before = changes_view(reverse@);
            proof {
                lemma_record_view(*self);
                lemma_shape_fields(self@);
            }
            let Change { field_id, value } = change;
            let index = field_id.field_index(depth);
            match value {
                ChangeValue::Value(v) => match &mut self.fields[index] {
                    Field::Scalar(current) => {
                        let staged = DraftField { original: current, draft: Some(v) };
                        match staged.apply(field_id) {
                            Some(reverting) => reverse.push(reverting),
                            None => unreached(),
                        }
                    },
                    Field::Nested(_) => unreached(),
                },
                ChangeValue::ChangeSet(inner) => match &mut self.fields[index] {
                    Field::Nested(record) => {
                        proof {
                            field_id.lemma_len_bounded();
                            assert(decreases_to!(whole => whole.changes));
                            assert(decreases_to!(whole.changes => whole.changes[k as int]));
                            assert(decreases_to!(whole.changes[k as int] => inner));
                        }
                        let reverting = record.apply_at(inner, depth + 1);
                        reverse.push(Change { field_id, value: ChangeValue::ChangeSet(reverting) });
                    },
                    Field::Scalar(_) => unreached(),
                },
            }
            proof {
                lemma_record_view(*self);
                lemma_shape_fields(self@);
                let step = apply_change(fields_before, all[k as int], depth as nat);
                assert(self@.fields =~= step.0);
                assert(changes_view(reverse@) =~= reverse_before.push(step.1));
                assert(self@.shape().fields =~= before.shape().fields);
            }
            k += 1;
        }
        proof {
            lemma_record_view(*self);
        }
        let inverse = ChangeSet::new(self.type_tag, reverse);
        proof {
            lemma_change_set_view(inverse);
            assert(inverse@.changes =~= changes_view(reverse@));
        }
        inverse
    }

    fn mismatch_at(&self, changes: &ChangeSet, depth: usize) -> (fault: Option<Mismatch>)
        ensures
            fault == self@.shape().mismatch(changes@, depth as nat),
        decreases changes, 1nat,
    {
        if !changes.for_type(self.type_tag) {
            return Some(Mismatch::Type);
        }
        proof {
            lemma_change_set_view(*changes);
            lemma_record_view(*self);
            lemma_shape_fields(self@);
        }
        let mut k: usize = 0;
        while k < changes.changes.len()
            invariant
                k <= changes.changes.len(),
                changes@.target_type == self@.shape().type_tag,
                changes@.changes.len() == changes.changes.len(),
                forall|j: int|
                    0 <= j < changes.changes.len() ==> changes@.changes[j]
                        == #[trigger] changes.changes[j]@,
                self@.shape().mismatch_among(changes@.changes, k as nat, depth as nat) is None,
            decreases changes.changes.len() - k,
        {
            let fault = self.mismatch_of(&changes.changes[k], depth);
            if fault.is_some() {
                proof {
                    assert(self@.shape().mismatch_among(
                        changes@.changes,
                        (k + 1) as nat,
                        depth as nat,
                    ) == fault);
                    lemma_mismatch_settled(
                        self@.shape(),
                        changes@.changes,
                        (k + 1) as nat,
                        changes@.changes.len(),
                        depth as nat,
                    );
                }
                return fault;
            }
            k += 1;
        }
        None
    }

    fn mismatch_of(&self, change: &Change, depth: usize) -> (fault: Option<Mismatch>)
        ensures
            fault == self@.shape().mismatch_of(change@, depth as nat),
        decreases change, 0nat,
    {
        if depth >= change.field_id.len() {
            return Some(Mismatch::Shape);
        }
        let index = change.field_id.field_index(depth);
        if index >= self.fields.len() {
            return Some(Mismatch::Shape);
        }
        proof {
            lemma_record_view(*self);
            lemma_shape_fields(self@);
        }
        match &change.value {
            ChangeValue::Value(v) => match &self.fields[index] {
                Field::Scalar(current) => if v.value_type() == current.value_type() {
                    None
                } else {
                    Some(Mismatch::Shape)
                },
                Field::Nested(_) => Some(Mismatch::Shape),
            },
            ChangeValue::ChangeSet(inner) => match &self.fields[index] {
                Field::Nested(record) => record.mismatch_at(inner, depth + 1),
                Field::Scalar(_) => Some(Mismatch::Shape),
            },
        }
    }
}

impl Record {
    fn duplicate(&self) -> (copy: Self)
        ensures
            copy@ == self@,
        decreases self,
    {
        proof {
            lemma_record_view(*self);
        }
        let mut fields: Vec<Field> = Vec::new();
        let mut i: usize = 0;
        while i < self.fields.len()
            invariant
                i <= self.fields.len(),
                fields.len() == i,
                forall|j: int| 0 <= j < i ==> (#[trigger] fields[j])@ == self.fields[j]@,
            decreases self.fields.len() - i,
        {
            let field = match &self.fields[i] {
                Field::Scalar(value) => Field::Scalar(value.clone()),
                Field::Nested(record) => Field::Nested(record.duplicate()),
            };
            fields.push(field);
            i += 1;
        }
        let copy = Record { type_tag: self.type_tag, fields };
        proof {
            lemma_record_view(copy);
            assert(copy@.fields =~= self@.fields);
        }
        copy
    }
}

impl Clone for Record {
    fn clone(&self) -> (copy: Self)
        ensures
            copy@ == self@,
    {
        self.duplicate()
    }
}

impl Clone for Field {
    fn clone(&self) -> (copy: Self)
        ensures
            copy@ == self@,
    {
        match self {
            Field::Scalar(value) => Field::Scalar(value.clone()),
            Field::Nested(record) => Field::Nested(record.duplicate()),
        }
    }
}

/// The view of a record is the views of its fields, in order.
pub proof fn lemma_record_view(record: Record)
    ensures
        record@.type_tag == record.type_tag,
        record@.fields.len() == record.fields.len(),
        forall|i: int|
            0 <= i < record.fields.len() ==> record@.fields[i] == #[trigger] record.fields[i]@,
{
}

/// The shape of a record is the shapes of its fields, in order.
pub proof fn lemma_shape_fields(record: RecordView)
    ensures
        record.shape().type_tag == record.type_tag,
        record.shape().fields.len() == record.fields.len(),
        forall|i: int|
            0 <= i < record.fields.len() ==> #[trigger] record.shape().fields[i]
                == record.fields[i].shape(),
{
}

/// Once a change is at fault, the changes after it are not read.
pub proof fn lemma_mismatch_settled(
    shape: RecordShape,
    changes: Seq<ChangeView>,
    n: nat,
    m: nat,
    depth: nat,
)
    requires
        n <= m <= changes.len(),
        shape.mismatch_among(changes, n, depth) is Some,
    ensures
        shape.mismatch_among(changes, m, depth) == shape.mismatch_among(changes, n, depth),
    decreases m,
{
    if n < m {
        lemma_mismatch_settled(shape, changes, n, (m - 1) as nat, depth);
    }
}

/// A change is accepted exactly when nothing is wrong with it.
pub proof fn lemma_accepts_change_iff_no_mismatch(shape: RecordShape, change: ChangeView, depth: nat)
    ensures
        shape.accepts_change(change, depth) <==> shape.mismatch_of(change, depth) is None,
    decreases change, 0nat,
{
    if depth < change.path.len() && change.path[depth as int] < shape.fields.len() {
        match change.value {
            ChangeValueView::Value(_) => {},
            ChangeValueView::ChangeSet(inner) => match shape.fields[change.path[depth as int] as int] {
                FieldShape::Nested(nested) => {
                    lemma_accepts_iff_no_mismatch(nested, inner, depth + 1);
                },
                FieldShape::Scalar(_) => {},
            },
        }
    }
}

/// Nothing is wrong with the first `n` changes exactly when each of them is
/// accepted.
pub proof fn lemma_accepts_among_iff_no_mismatch(
    shape: RecordShape,
    changes: Seq<ChangeView>,
    n: nat,
    depth: nat,
)
    requires
        n <= changes.len(),
    ensures
        shape.mismatch_among(changes, n, depth) is None <==> forall|k: int|
            0 <= k < n ==> shape.accepts_change(#[trigger] changes[k], depth),
    decreases changes, n,
{
    if n > 0 {
        lemma_accepts_among_iff_no_mismatch(shape, changes, (n - 1) as nat, depth);
        lemma_accepts_change_iff_no_mismatch(shape, changes[n - 1], depth);
        if shape.mismatch_among(changes, n, depth) is None {
            assert forall|k: int| 0 <= k < n implies shape.accepts_change(
                #[trigger] changes[k],
                depth,
            ) by {}
        } else if shape.mismatch_among(changes, (n - 1) as nat, depth) is None {
            assert(!shape.accepts_change(changes[n - 1], depth));
        }
    }
}

/// A change set is accepted exactly when nothing is wrong with it.
pub proof fn lemma_accepts_iff_no_mismatch(shape: RecordShape, changes: ChangeSetView, depth: nat)
    ensures
        shape.accepts(changes, depth) <==> shape.mismatch(changes, depth) is None,
    decreases changes, 1nat,
{
    lemma_accepts_among_iff_no_mismatch(shape, changes.changes, changes.changes.len(), depth);
}

} // verus!
