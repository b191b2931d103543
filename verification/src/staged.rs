//! The staging area of a draft: one slot per field of the record.

use crate::change::{
    lemma_change_set_view, Change, ChangeSet, ChangeSetView, ChangeValue, ChangeValueView,
    ChangeView, TypeTag,
};
use crate::field_id::FieldId;
use crate::draft::DraftField;
use crate::lemmas::{
    lemma_apply_prefix_frame, lemma_apply_prefix_of_equal_prefixes, lemma_pending_iff_dirty,
};
use crate::record::{
    apply_at, apply_change, apply_prefix, changes_view, lemma_record_view, lemma_shape_fields,
    Field, FieldShape, FieldView, Record, RecordShape, RecordView,
};
use crate::value::{Value, ValueType, ValueView};
use vstd::pervasive::unreached;
use vstd::prelude::*;

verus! {

/// The staged edits of one record. It has the shape of the record it was
/// made for: a slot for each field, in order.
#[derive(Debug)]
pub struct Staged {
    type_tag: TypeTag,
    slots: Vec<Slot>,
}

/// The staging slot of one field.
#[derive(Debug)]
enum Slot {
    /// A scalar of type `ty`, unchanged or with a replacement staged.
    Scalar { ty: ValueType, staged: Option<Value> },
    /// A nested record, with a staging area of its own.
    Nested(Staged),
}

/// The mathematical content of a staging slot.
pub enum SlotView {
    Scalar { ty: ValueType, staged: Option<ValueView> },
    Nested(StagedView),
}

/// The mathematical content of a [`Staged`].
pub struct StagedView {
    pub type_tag: TypeTag,
    pub slots: Seq<SlotView>,
}

spec fn slot_view(slot: Slot) -> SlotView
    decreases slot,
{
    match slot {
        Slot::Scalar { ty, staged } => SlotView::Scalar {
            ty,
            staged: match staged {
                Some(v) => Some(v@),
                None => None,
            },
        },
        Slot::Nested(inner) => SlotView::Nested(staged_view(inner)),
    }
}

spec fn staged_view(staged: Staged) -> StagedView
    decreases staged,
{
    StagedView {
        type_tag: staged.type_tag,
        slots: Seq::new(
            staged.slots.len() as nat,
            |i: int|
                if 0 <= i < staged.slots.len() {
                    slot_view(staged.slots[i])
                } else {
                    arbitrary()
                },
        ),
    }
}

impl View for Staged {
    type V = StagedView;

    closed spec fn view(&self) -> StagedView {
        staged_view(*self)
    }
}

impl FieldShape {
    /// The slot of a field of this shape with nothing staged.
    pub open spec fn clean(self) -> SlotView
        decreases self,
    {
        match self {
            FieldShape::Scalar(ty) => SlotView::Scalar { ty, staged: None },
            FieldShape::Nested(shape) => SlotView::Nested(shape.clean()),
        }
    }
}

impl RecordShape {
    /// The staging area of a record of this shape with nothing staged.
    pub open spec fn clean(self) -> StagedView
        decreases self,
    {
        StagedView {
            type_tag: self.type_tag,
            slots: Seq::new(
                self.fields.len(),
                |i: int|
                    if 0 <= i < self.fields.len() {
                        self.fields[i].clean()
                    } else {
                        arbitrary()
                    },
            ),
        }
    }
}

impl SlotView {
    /// A staged scalar has the type of its slot, at every depth.
    pub open spec fn wf(self) -> bool
        decreases self,
    {
        match self {
            SlotView::Scalar { ty, staged } => staged matches Some(v) ==> v.value_type() == ty,
            SlotView::Nested(inner) => inner.wf(),
        }
    }

    /// The shape of the field that this slot stands for.
    pub open spec fn shape(self) -> FieldShape
        decreases self,
    {
        match self {
            SlotView::Scalar { ty, .. } => FieldShape::Scalar(ty),
            SlotView::Nested(inner) => FieldShape::Nested(inner.shape()),
        }
    }

    /// Whether anything is staged in this slot or below it.
    pub open spec fn is_dirty(self) -> bool
        decreases self,
    {
        match self {
            SlotView::Scalar { staged, .. } => staged is Some,
            SlotView::Nested(inner) => inner.is_dirty(),
        }
    }

    /// The change that writes what is staged in this slot to the field at
    /// `path`, if anything is staged.
    pub open spec fn pending(self, path: Seq<usize>) -> Option<ChangeView>
        decreases self, 0nat,
    {
        match self {
            SlotView::Scalar { staged: Some(v), .. } => Some(
                ChangeView { path, value: ChangeValueView::Value(v) },
            ),
            SlotView::Scalar { staged: None, .. } => None,
            SlotView::Nested(inner) => if inner.is_dirty() {
                Some(ChangeView { path, value: ChangeValueView::ChangeSet(inner.pending(path)) })
            } else {
                None
            },
        }
    }
}

impl StagedView {
    /// The slots fit in memory, and a staged scalar has the type of its
    /// slot, at every depth.
    pub open spec fn wf(self) -> bool
        decreases self,
    {
        &&& self.slots.len() <= usize::MAX
        &&& forall|i: int| 0 <= i < self.slots.len() ==> (#[trigger] self.slots[i]).wf()
    }

    /// This staging area with `value` staged for scalar field `i`.
    pub open spec fn with_staged(self, i: int, value: ValueView) -> StagedView {
        StagedView {
            slots: self.slots.update(
                i,
                SlotView::Scalar { ty: self.slots[i]->ty, staged: Some(value) },
            ),
            ..self
        }
    }

    /// This staging area with nothing staged for field `i`, at any depth.
    pub open spec fn with_reset(self, i: int) -> StagedView {
        StagedView { slots: self.slots.update(i, self.slots[i].shape().clean()), ..self }
    }

    /// This staging area with `inner` as the staging area of nested record
    /// `i`.
    pub open spec fn with_nested(self, i: int, inner: StagedView) -> StagedView {
        StagedView { slots: self.slots.update(i, SlotView::Nested(inner)), ..self }
    }

    /// Whether `path`, read from this record down, leads to a scalar field.
    pub open spec fn scalar_at(self, path: Seq<usize>) -> bool
        decreases path.len(),
    {
        &&& path.len() > 0
        &&& path[0] < self.slots.len()
        &&& match self.slots[path[0] as int] {
            SlotView::Scalar { .. } => path.len() == 1,
            SlotView::Nested(inner) => inner.scalar_at(path.drop_first()),
        }
    }

    /// This staging area with `value` staged for the scalar field that
    /// `path` leads to: what a set in the draft of the record that holds the
    /// field makes of the draft at the root.
    pub open spec fn with_staged_at(self, path: Seq<usize>, value: ValueView) -> StagedView
        decreases path.len(),
    {
        if path.len() == 0 {
            self
        } else {
            match self.slots[path[0] as int] {
                SlotView::Scalar { .. } => self.with_staged(path[0] as int, value),
                SlotView::Nested(inner) => self.with_nested(
                    path[0] as int,
                    inner.with_staged_at(path.drop_first(), value),
                ),
            }
        }
    }

    /// This staging area with nothing staged for the scalar field that
    /// `path` leads to.
    pub open spec fn with_reset_at(self, path: Seq<usize>) -> StagedView
        decreases path.len(),
    {
        if path.len() == 0 {
            self
        } else {
            match self.slots[path[0] as int] {
                SlotView::Scalar { .. } => self.with_reset(path[0] as int),
                SlotView::Nested(inner) => self.with_nested(
                    path[0] as int,
                    inner.with_reset_at(path.drop_first()),
                ),
            }
        }
    }

    /// The shape of the record that this staging area stands for.
    pub open spec fn shape(self) -> RecordShape
        decreases self,
    {
        RecordShape {
            type_tag: self.type_tag,
            fields: Seq::new(
                self.slots.len(),
                |i: int|
                    if 0 <= i < self.slots.len() {
                        self.slots[i].shape()
                    } else {
                        arbitrary()
                    },
            ),
        }
    }

    /// Whether anything is staged, at any depth.
    pub open spec fn is_dirty(self) -> bool
        decreases self,
    {
        exists|i: int| 0 <= i < self.slots.len() && (#[trigger] self.slots[i]).is_dirty()
    }

    /// The pending changes of the first `n` slots, in field order. The slot
    /// of field `i` is addressed by `prefix` extended with `i`.
    pub open spec fn pending_prefix(self, n: nat, prefix: Seq<usize>) -> Seq<ChangeView>
        decreases self, n,
    {
        if n == 0 || n > self.slots.len() {
            Seq::empty()
        } else {
            let before = self.pending_prefix((n - 1) as nat, prefix);
            match self.slots[n - 1].pending(prefix.push((n - 1) as usize)) {
                Some(change) => before.push(change),
                None => before,
            }
        }
    }

    /// The change set that writes everything staged here to a record whose
    /// own path is `prefix`.
    pub open spec fn pending(self, prefix: Seq<usize>) -> ChangeSetView
        decreases self, self.slots.len() + 1,
    {
        ChangeSetView {
            target_type: self.type_tag,
            changes: self.pending_prefix(self.slots.len(), prefix),
        }
    }
}

impl RecordView {
    /// This record after the commit of a draft in which `staged` is staged:
    /// what applying the pending changes makes of it.
    pub open spec fn committed(self, staged: StagedView) -> RecordView {
        self.applied(staged.pending(Seq::empty()))
    }

    /// The change set that the commit of a draft returns in which `staged`
    /// is staged: what reverts the pending changes.
    pub open spec fn overwritten(self, staged: StagedView) -> ChangeSetView {
        self.inverse(staged.pending(Seq::empty()))
    }
}

/// What a commit makes of field `i` of a record whose own path is `prefix`:
/// a staged scalar takes the place of the stored one, a nested record is
/// committed in turn, and a scalar with nothing staged stays as it is.
pub open spec fn committed_field(
    field: FieldView,
    slot: SlotView,
    prefix: Seq<usize>,
    i: int,
) -> FieldView {
    match slot {
        SlotView::Scalar { staged: Some(value), .. } => FieldView::Scalar(value),
        SlotView::Scalar { staged: None, .. } => field,
        SlotView::Nested(inner) => FieldView::Nested(
            apply_at(field->Nested_0, inner.pending(prefix.push(i as usize)), prefix.len() + 1).0,
        ),
    }
}

/// What the change set of a commit carries for field `i`, which has
/// something staged: the scalar that was stored, or the change set of the
/// nested record's own commit.
pub open spec fn overwritten_by_commit(
    field: FieldView,
    slot: SlotView,
    prefix: Seq<usize>,
    i: int,
) -> ChangeValueView {
    match slot {
        SlotView::Scalar { .. } => ChangeValueView::Value(field->Scalar_0),
        SlotView::Nested(inner) => ChangeValueView::ChangeSet(
            apply_at(field->Nested_0, inner.pending(prefix.push(i as usize)), prefix.len() + 1).1,
        ),
    }
}

/// The view of a staging area is the views of its slots, in order.
proof fn lemma_staged_view(staged: Staged)
    ensures
        staged@.type_tag == staged.type_tag,
        staged@.slots.len() == staged.slots.len(),
        forall|i: int|
            0 <= i < staged.slots.len() ==> staged@.slots[i] == slot_view(
                #[trigger] staged.slots[i],
            ),
{
}

/// The shape of a staging area is the shapes of its slots, in order.
pub proof fn lemma_staged_shape(staged: StagedView)
    ensures
        staged.shape().type_tag == staged.type_tag,
        staged.shape().fields.len() == staged.slots.len(),
        forall|i: int|
            0 <= i < staged.slots.len() ==> #[trigger] staged.shape().fields[i]
                == staged.slots[i].shape(),
{
}

/// A clean staging area is the clean slots of the fields, in order.
pub proof fn lemma_clean_slots(shape: RecordShape)
    ensures
        shape.clean().type_tag == shape.type_tag,
        shape.clean().slots.len() == shape.fields.len(),
        forall|i: int|
            0 <= i < shape.fields.len() ==> #[trigger] shape.clean().slots[i]
                == shape.fields[i].clean(),
{
}

/// A clean staging area has the shape it was made for and holds nothing.
pub proof fn lemma_clean(shape: RecordShape)
    ensures
        shape.clean().shape() == shape,
        !shape.clean().is_dirty(),
    decreases shape,
{
    lemma_clean_slots(shape);
    lemma_staged_shape(shape.clean());
    assert forall|i: int| 0 <= i < shape.fields.len() implies {
        &&& (#[trigger] shape.clean().slots[i]).shape() == shape.fields[i]
        &&& !shape.clean().slots[i].is_dirty()
    } by {
        match shape.fields[i] {
            FieldShape::Scalar(_) => {},
            FieldShape::Nested(inner) => {
                lemma_clean(inner);
            },
        }
    }
    assert(shape.clean().shape().fields =~= shape.fields);
}

/// Clearing a well-formed staging area leaves it well formed.
pub proof fn lemma_clean_wf(staged: StagedView)
    requires
        staged.wf(),
    ensures
        staged.shape().clean().wf(),
    decreases staged,
{
    lemma_staged_shape(staged);
    lemma_clean_slots(staged.shape());
    assert forall|i: int| 0 <= i < staged.slots.len() implies (
    #[trigger] staged.shape().clean().slots[i]).wf() by {
        assert(staged.slots[i].wf());
        lemma_clean_slot_wf(staged.slots[i]);
    }
}

/// Clearing a well-formed slot leaves it well formed.
pub proof fn lemma_clean_slot_wf(slot: SlotView)
    requires
        slot.wf(),
    ensures
        slot.shape().clean().wf(),
        slot.shape().clean().shape() == slot.shape(),
        !slot.shape().clean().is_dirty(),
    decreases slot,
{
    match slot {
        SlotView::Scalar { .. } => {},
        SlotView::Nested(inner) => {
            lemma_clean_wf(inner);
            lemma_clean(inner.shape());
        },
    }
}

/// Replacing a slot by one of the same shape keeps the shape of the staging
/// area, and keeps it well formed if the new slot is.
pub proof fn lemma_update_slot(staged: StagedView, i: int, slot: SlotView)
    requires
        0 <= i < staged.slots.len(),
        staged.wf(),
    ensures
        slot.wf() && slot.shape() == staged.slots[i].shape() ==> {
            &&& (StagedView { slots: staged.slots.update(i, slot), ..staged }).wf()
            &&& (StagedView { slots: staged.slots.update(i, slot), ..staged }).shape()
                == staged.shape()
        },
{
    let updated = StagedView { slots: staged.slots.update(i, slot), ..staged };
    lemma_staged_shape(staged);
    lemma_staged_shape(updated);
    if slot.wf() && slot.shape() == staged.slots[i].shape() {
        assert(updated.shape().fields =~= staged.shape().fields);
    }
}

impl Staged {
    /// A staging area for `record` with nothing staged.
    pub(crate) fn for_record(record: &Record) -> (staged: Staged)
        ensures
            staged@ == record@.shape().clean(),
            staged@.wf(),
        decreases record,
    {
        proof {
            lemma_record_view(*record);
            lemma_shape_fields(record@);
            lemma_clean_slots(record@.shape());
        }
        let mut slots: Vec<Slot> = Vec::new();
        let mut i: usize = 0;
        while i < record.fields.len()
            invariant
                i <= record.fields.len(),
                slots.len() == i,
                forall|j: int|
                    0 <= j < i ==> slot_view(#[trigger] slots[j])
                        == record@.fields[j].shape().clean(),
                forall|j: int| 0 <= j < i ==> slot_view(#[trigger] slots[j]).wf(),
                forall|j: int|
                    0 <= j < record.fields.len() ==> record@.fields[j]
                        == #[trigger] record.fields[j]@,
            decreases record.fields.len() - i,
        {
            let slot = match &record.fields[i] {
                Field::Scalar(value) => Slot::Scalar { ty: value.value_type(), staged: None },
                Field::Nested(inner) => Slot::Nested(Staged::for_record(inner)),
            };
            slots.push(slot);
            i += 1;
        }
        let staged = Staged { type_tag: record.type_tag, slots };
        proof {
            lemma_staged_view(staged);
            assert(staged@.slots =~= record@.shape().clean().slots);
        }
        staged
    }

    /// The number of slots, which is the number of fields of the record.
    pub fn len(&self) -> (n: usize)
        ensures
            n == self@.slots.len(),
    {
        proof {
            lemma_staged_view(*self);
        }
        self.slots.len()
    }

    /// The type of scalar field `i`, or `None` where field `i` is a nested
    /// record.
    pub fn scalar_type(&self, i: usize) -> (ty: Option<ValueType>)
        requires
            i < self@.slots.len(),
        ensures
            ty == (match self@.slots[i as int] {
                SlotView::Scalar { ty, .. } => Some(ty),
                SlotView::Nested(_) => None,
            }),
    {
        proof {
            lemma_staged_view(*self);
        }
        match &self.slots[i] {
            Slot::Scalar { ty, .. } => Some(*ty),
            Slot::Nested(_) => None,
        }
    }

    /// The value staged for field `i`, if it is a scalar and one is staged.
    pub fn staged_value(&self, i: usize) -> (value: Option<&Value>)
        requires
            i < self@.slots.len(),
        ensures
            match self@.slots[i as int] {
                SlotView::Scalar { staged: Some(staged), .. } => value matches Some(v) && v@
                    == staged,
                _ => value is None,
            },
    {
        proof {
            lemma_staged_view(*self);
        }
        match &self.slots[i] {
            Slot::Scalar { staged: Some(value), .. } => Some(value),
            _ => None,
        }
    }

    /// Stages `value` for scalar field `i`, discarding what was staged for
    /// it before.
    pub fn set(&mut self, i: usize, value: Value)
        requires
            i < old(self)@.slots.len(),
            old(self)@.slots[i as int] is Scalar,
            old(self)@.slots[i as int]->ty == value@.value_type(),
        ensures
            final(self)@ == old(self)@.with_staged(i as int, value@),
    {
        proof {
            lemma_staged_view(*self);
        }
        let ty = value.value_type();
        self.slots[i] = Slot::Scalar { ty, staged: Some(value) };
        proof {
            lemma_staged_view(*self);
            assert(self@.slots =~= old(self)@.with_staged(i as int, value@).slots);
        }
    }

    /// Whether anything is staged for field `i`: a value for a scalar field,
    /// anything at any depth for a nested record.
    pub fn is_field_dirty(&self, i: usize) -> (dirty: bool)
        requires
            i < self@.slots.len(),
        ensures
            dirty == self@.slots[i as int].is_dirty(),
        decreases self, 0nat,
    {
        proof {
            lemma_staged_view(*self);
        }
        match &self.slots[i] {
            Slot::Scalar { staged, .. } => staged.is_some(),
            Slot::Nested(inner) => inner.is_dirty(),
        }
    }

    /// Whether anything is staged, at any depth.
    pub fn is_dirty(&self) -> (dirty: bool)
        ensures
            dirty == self@.is_dirty(),
        decreases self, 1nat,
    {
        proof {
            lemma_staged_view(*self);
        }
        let mut i: usize = 0;
        while i < self.slots.len()
            invariant
                i <= self.slots.len(),
                self@.slots.len() == self.slots.len(),
                forall|j: int| 0 <= j < i ==> !(#[trigger] self@.slots[j]).is_dirty(),
            decreases self.slots.len() - i,
        {
            if self.is_field_dirty(i) {
                return true;
            }
            i += 1;
        }
        false
    }
}

impl Staged {
    /// Clears what is staged for field `i`. For a scalar field the staged
    /// value, if any, is handed back; for a nested record everything staged
    /// below it is discarded.
    pub fn reset_field(&mut self, i: usize) -> (staged: Option<Value>)
        requires
            i < old(self)@.slots.len(),
        ensures
            final(self)@ == old(self)@.with_reset(i as int),
            match old(self)@.slots[i as int] {
                SlotView::Scalar { staged: Some(value), .. } => staged matches Some(v) && v@
                    == value,
                _ => staged is None,
            },
        decreases *old(self),
    {
        proof {
            lemma_staged_view(*self);
        }
        let staged = match &mut self.slots[i] {
            Slot::Scalar { staged, .. } => staged.take(),
            Slot::Nested(inner) => {
                inner.reset();
                None
            },
        };
        proof {
            lemma_staged_view(*self);
            assert(self@.slots =~= old(self)@.with_reset(i as int).slots);
        }
        staged
    }

    /// Discards everything staged, at any depth.
    pub fn reset(&mut self)
        ensures
            final(self)@ == old(self)@.shape().clean(),
        decreases *old(self),
    {
        proof {
            lemma_staged_view(*self);
            lemma_staged_shape(self@);
            lemma_clean_slots(self@.shape());
        }
        let mut i: usize = 0;
        while i < self.slots.len()
            invariant
                i <= self.slots.len(),
                self.type_tag == old(self).type_tag,
                self.slots.len() == old(self).slots.len(),
                old(self)@.slots.len() == old(self).slots.len(),
                forall|j: int|
                    0 <= j < old(self).slots.len() ==> old(self)@.slots[j] == slot_view(
                        #[trigger] old(self).slots[j],
                    ),
                forall|j: int|
                    0 <= j < i ==> slot_view(#[trigger] self.slots[j])
                        == old(self)@.slots[j].shape().clean(),
                forall|j: int|
                    i <= j < self.slots.len() ==> #[trigger] self.slots[j] == old(self).slots[j],
            decreases self.slots.len() - i,
        {
            match &mut self.slots[i] {
                Slot::Scalar { staged, .. } => {
                    *staged = None;
                },
                Slot::Nested(inner) => {
                    inner.reset();
                },
            }
            i += 1;
        }
        proof {
            lemma_staged_view(*self);
            assert(self@.slots =~= old(self)@.shape().clean().slots);
        }
    }

    /// The staging area of nested record `i`.
    pub fn nested_mut(&mut self, i: usize) -> (inner: &mut Staged)
        requires
            i < old(self)@.slots.len(),
            old(self)@.slots[i as int] is Nested,
        ensures
            inner@ == old(self)@.slots[i as int]->Nested_0,
            final(self)@ == old(self)@.with_nested(i as int, final(inner)@),
    {
        proof {
            lemma_staged_view(*self);
        }
        let ghost end = *final(self);
        let inner = match &mut self.slots[i] {
            Slot::Nested(inner) => inner,
            Slot::Scalar { .. } => unreached(),
        };
        proof {
            lemma_staged_view(end);
            assert(end@.slots =~= old(self)@.with_nested(i as int, final(inner)@).slots);
        }
        inner
    }
}

impl Staged {
    /// Writes everything staged into `record`, whose own path is `path`, and
    /// returns what was overwritten. This is applying the pending change
    /// set: the result reverts it.
    pub(crate) fn commit_into(self, record: &mut Record, path: &FieldId) -> (changes: ChangeSet)
        requires
            self@.wf(),
            self@.shape() == old(record)@.shape(),
        ensures
            (final(record)@, changes@) == apply_at(
                old(record)@,
                self@.pending(path@),
                path@.len(),
            ),
            final(record)@.shape() == old(record)@.shape(),
        decreases self,
    {
        let ghost before = record@;
        let ghost whole = self;
        let ghost staged = self@;
        let ghost depth = path@.len();
        proof {
            lemma_staged_view(self);
            lemma_staged_shape(self@);
            lemma_record_view(*record);
            lemma_shape_fields(record@);
            path.lemma_len_bounded();
        }
        let Staged { type_tag: _, slots } = self;
        let mut reverse: Vec<Change> = Vec::new();
        let mut i: usize = 0;
        for slot in it: slots
            invariant
                i == it.index(),
                it.seq() == slots@,
                whole.slots == slots,
                self == whole,
                staged == whole@,
                staged.wf(),
                staged.shape() == before.shape(),
                staged.slots.len() == slots.len(),
                forall|j: int| 0 <= j < slots.len() ==> staged.slots[j] == slot_view(#[trigger] slots[j]),
                depth == path@.len(),
                record.type_tag == before.type_tag,
                record@.shape() == before.shape(),
                record.fields.len() == slots.len(),
                (record@.fields, changes_view(reverse@)) == apply_prefix(
                    before.fields,
                    staged.pending_prefix(i as nat, path@),
                    staged.pending_prefix(i as nat, path@).len(),
                    depth,
                ),
        {
            let ghost fields_before = record@.fields;
            let ghost reverse_before = changes_view(reverse@);
            let ghost pending_before = staged.pending_prefix(i as nat, path@);
            let ghost pending_after = staged.pending_prefix((i + 1) as nat, path@);
            let field_path = path.push_field(i);
            proof {
                assert(slot == slots[i as int]);
                assert(staged.slots[i as int] == slot_view(slot));
                assert(staged.slots[i as int].wf());
                lemma_record_view(*record);
                lemma_shape_fields(record@);
                lemma_staged_shape(staged);
                assert(record@.shape().fields[i as int] == record@.fields[i as int].shape());
                assert(staged.shape().fields[i as int] == staged.slots[i as int].shape());
                lemma_apply_prefix_of_equal_prefixes(
                    before.fields,
                    pending_after,
                    pending_before,
                    pending_before.len(),
                    depth,
                );
            }
            match slot {
                Slot::Scalar { staged: Some(value), .. } => match &mut record.fields[i] {
                    Field::Scalar(current) => {
                        let field = DraftField { original: current, draft: Some(value) };
                        match field.apply(field_path) {
                            Some(change) => reverse.push(change),
                            None => unreached(),
                        }
                    },
                    Field::Nested(_) => unreached(),
                },
                Slot::Scalar { staged: None, .. } => {},
                Slot::Nested(inner) => match &mut record.fields[i] {
                    Field::Nested(child) => {
                        proof {
                            assert(decreases_to!(whole => whole.slots));
                            assert(decreases_to!(whole.slots => whole.slots[i as int]));
                            assert(decreases_to!(whole.slots[i as int] => inner));
                            lemma_pending_iff_dirty(inner@, field_path@);
                            lemma_apply_prefix_frame(
                                child@.fields,
                                inner@.pending(field_path@).changes,
                                inner@.pending(field_path@).changes.len(),
                                depth + 1,
                            );
                        }
                        let changes = inner.commit_into(child, &field_path);
                        proof {
                            lemma_change_set_view(changes);
                        }
                        if changes.changes.len() > 0 {
                            reverse.push(
                                Change { field_id: field_path, value: ChangeValue::ChangeSet(changes) },
                            );
                        }
                    },
                    Field::Scalar(_) => unreached(),
                },
            }
            proof {
                lemma_record_view(*record);
                lemma_shape_fields(record@);
                match staged.slots[i as int].pending(path@.push(i)) {
                    Some(change) => {
                        let step = apply_change(fields_before, change, depth);
                        assert(record@.fields =~= step.0);
                        assert(changes_view(reverse@) =~= reverse_before.push(step.1));
                    },
                    None => {
                        assert(record@.fields =~= fields_before);
                        assert(changes_view(reverse@) =~= reverse_before);
                    },
                }
                assert(record@.shape().fields =~= before.shape().fields);
            }
            i += 1;
        }
        proof {
            lemma_record_view(*record);
        }
        let changes = ChangeSet::new(record.type_tag, reverse);
        proof {
            lemma_change_set_view(changes);
            assert(changes@.changes =~= changes_view(reverse@));
        }
        changes
    }
}

} // verus!
