//! Staging of edits: single scalar fields, and whole records.

use crate::change::{Change, ChangeSet, ChangeValue};
use crate::field_id::FieldId;
use crate::lemmas::{lemma_apply_keeps_shape, lemma_pending_accepted};
use crate::record::{lemma_record_view, lemma_shape_fields, Field, Record, RecordView};
use crate::staged::{
    lemma_clean, lemma_clean_slot_wf, lemma_clean_wf, lemma_staged_shape, lemma_update_slot,
    SlotView, Staged, StagedView,
};
use crate::value::{Value, ValueType};
use vstd::pervasive::unreached;
use vstd::prelude::*;

verus! {

/// A pending edit of one value, bound to the storage it will replace. The
/// storage is borrowed exclusively and is not written until [`apply`].
///
/// [`apply`]: DraftField::apply
#[derive(Debug)]
pub struct DraftField<'b, T> {
    pub original: &'b mut T,
    pub draft: Option<T>,
}

impl<'b, T> DraftField<'b, T> {
    /// A draft of `original` with nothing staged.
    pub fn new(original: &'b mut T) -> (field: Self)
        ensures
            *field.original == *old(original),
            field.draft is None,
            *final(original) == *final(field.original),
    {
        Self { original, draft: None }
    }

    /// The staged value if there is one, else the stored value.
    pub fn get(&self) -> (value: &T)
        ensures
            *value == (match self.draft {
                Some(staged) => staged,
                None => *old(self.original),
            }),
    {
        match &self.draft {
            Some(staged) => staged,
            None => &*self.original,
        }
    }

    /// Stages `value`, discarding what was staged before.
    pub fn set(&mut self, value: T)
        ensures
            final(self).draft == Some(value),
            final(self).original == old(self).original,
    {
        self.draft = Some(value);
    }

    /// Whether a value is staged.
    pub fn is_dirty(&self) -> (dirty: bool)
        ensures
            dirty == self.draft is Some,
    {
        self.draft.is_some()
    }

    /// Clears the staged value and hands it back.
    pub fn reset(&mut self) -> (staged: Option<T>)
        ensures
            staged == old(self).draft,
            final(self).draft is None,
            final(self).original == old(self).original,
    {
        self.draft.take()
    }
}

impl<'b> DraftField<'b, Value> {
    /// Writes the staged value, if any, into the storage. The change that is
    /// returned carries the value that was overwritten, addressed by
    /// `field_idx`. With nothing staged the storage is left alone and there is
    /// no change to report.
    pub fn apply(self, field_idx: FieldId) -> (change: Option<Change>)
        ensures
            match self.draft {
                Some(staged) => {
                    &&& *final(self.original) == staged
                    &&& change == Some(
                        Change {
                            field_id: field_idx,
                            value: ChangeValue::Value(*old(self.original)),
                        },
                    )
                },
                None => {
                    &&& *final(self.original) == *old(self.original)
                    &&& change is None
                },
            },
    {
        match self.draft {
            Some(staged) => {
                let mut previous = staged;
                core::mem::swap(self.original, &mut previous);
                Some(Change { field_id: field_idx, value: ChangeValue::Value(previous) })
            },
            None => None,
        }
    }
}

/// The staging area of one record, bound to it for as long as the draft
/// lives: the record cannot be read or written by anyone else meanwhile.
/// Dropping the draft discards what was staged and leaves the record as it
/// was.
#[derive(Debug)]
pub struct Draft<'b> {
    pub record: &'b mut Record,
    pub staged: Staged,
}

impl Record {
    /// Starts editing this record. Nothing is staged in the draft that is
    /// returned, and nothing is written to the record before
    /// [`Draft::commit`].
    pub fn edit<'b>(&'b mut self) -> (draft: Draft<'b>)
        ensures
            draft.wf(),
            *draft.record == *old(self),
            draft.staged_view() == old(self)@.shape().clean(),
            !draft.staged_view().is_dirty(),
            *final(self) == *final(draft.record),
    {
        let staged = Staged::for_record(self);
        proof {
            lemma_clean(self@.shape());
        }
        Draft { record: self, staged }
    }
}

impl<'b> Draft<'b> {
    /// The content of the record, which stays as it is until the commit.
    pub open spec fn record_view(&self) -> RecordView {
        (*self.record)@
    }

    /// What is staged.
    pub open spec fn staged_view(&self) -> StagedView {
        self.staged@
    }

    /// The staging area has the shape of the record, and each staged value
    /// has the type of its field.
    pub open spec fn wf(&self) -> bool {
        &&& self.staged_view().wf()
        &&& self.staged_view().shape() == self.record_view().shape()
    }

    /// The number of fields of the record.
    pub fn len(&self) -> (n: usize)
        ensures
            n == self.staged_view().slots.len(),
    {
        self.staged.len()
    }

    /// The type of scalar field `i`, or `None` where field `i` is a nested
    /// record.
    pub fn scalar_type(&self, i: usize) -> (ty: Option<ValueType>)
        requires
            i < self.staged_view().slots.len(),
        ensures
            ty == (match self.staged_view().slots[i as int] {
                SlotView::Scalar { ty, .. } => Some(ty),
                SlotView::Nested(_) => None,
            }),
    {
        self.staged.scalar_type(i)
    }

    /// The value of scalar field `i` as it would be after a commit: the
    /// staged value if there is one, else the value stored in the record.
    pub fn get(&self, i: usize) -> (value: &Value)
        requires
            self.wf(),
            i < self.staged_view().slots.len(),
            self.staged_view().slots[i as int] is Scalar,
        ensures
            value@ == (match self.staged_view().slots[i as int] {
                SlotView::Scalar { staged: Some(staged), .. } => staged,
                _ => self.record_view().fields[i as int]->Scalar_0,
            }),
    {
        proof {
            lemma_record_view(*self.record);
            lemma_shape_fields(self.record@);
            lemma_staged_shape(self.staged@);
            assert(self.record@.shape().fields[i as int] == self.record@.fields[i as int].shape());
            assert(self.staged@.shape().fields[i as int] == self.staged@.slots[i as int].shape());
        }
        match self.staged.staged_value(i) {
            Some(staged) => staged,
            None => match &self.record.fields[i] {
                Field::Scalar(stored) => stored,
                Field::Nested(_) => unreached(),
            },
        }
    }

    /// Stages `value` for scalar field `i`. A value staged for it before is
    /// discarded; the record is not touched.
    pub fn set(&mut self, i: usize, value: Value)
        requires
            old(self).wf(),
            i < old(self).staged_view().slots.len(),
            old(self).staged_view().slots[i as int] is Scalar,
            old(self).staged_view().slots[i as int]->ty == value@.value_type(),
        ensures
            final(self).wf(),
            final(self).record == old(self).record,
            final(self).staged_view() == old(self).staged_view().with_staged(i as int, value@),
            final(self).staged_view().is_dirty(),
    {
        proof {
            lemma_update_slot(
                self.staged@,
                i as int,
                SlotView::Scalar { ty: value@.value_type(), staged: Some(value@) },
            );
        }
        self.staged.set(i, value);
        assert(self.staged@.slots[i as int].is_dirty());
    }

    /// Whether anything is staged for field `i`: a value for a scalar field,
    /// anything at any depth for a nested record.
    pub fn is_field_dirty(&self, i: usize) -> (dirty: bool)
        requires
            i < self.staged_view().slots.len(),
        ensures
            dirty == self.staged_view().slots[i as int].is_dirty(),
    {
        self.staged.is_field_dirty(i)
    }

    /// Clears what is staged for field `i`. For a scalar field the staged
    /// value, if any, is handed back; for a nested record everything staged
    /// below it is discarded.
    pub fn reset_field(&mut self, i: usize) -> (staged: Option<Value>)
        requires
            old(self).wf(),
            i < old(self).staged_view().slots.len(),
        ensures
            final(self).wf(),
            final(self).record == old(self).record,
            final(self).staged_view() == old(self).staged_view().with_reset(i as int),
            !final(self).staged_view().slots[i as int].is_dirty(),
            match old(self).staged_view().slots[i as int] {
                SlotView::Scalar { staged: Some(value), .. } => staged matches Some(v) && v@
                    == value,
                _ => staged is None,
            },
    {
        proof {
            let slot = self.staged@.slots[i as int];
            lemma_clean_slot_wf(slot);
            lemma_update_slot(self.staged@, i as int, slot.shape().clean());
        }
        self.staged.reset_field(i)
    }

    /// The draft of nested record `i`, to stage edits below it. What is
    /// staged there is committed, or discarded, together with this draft.
    pub fn edit_nested<'a>(&'a mut self, i: usize) -> (nested: NestedDraft<'a>)
        requires
            old(self).wf(),
            i < old(self).staged_view().slots.len(),
            old(self).staged_view().slots[i as int] is Nested,
        ensures
            nested.wf(),
            nested.record_view() == old(self).record_view().fields[i as int]->Nested_0,
            nested.staged_view() == old(self).staged_view().slots[i as int]->Nested_0,
            final(self).record == old(self).record,
            final(self).staged_view() == old(self).staged_view().with_nested(
                i as int,
                final(nested.staged)@,
            ),
            final(nested.staged)@.wf() && final(nested.staged)@.shape() == nested.staged_view().shape()
                ==> final(self).wf(),
    {
        proof {
            lemma_record_view(*self.record);
            lemma_shape_fields(self.record@);
            lemma_staged_shape(self.staged@);
            assert(self.record@.shape().fields[i as int] == self.record@.fields[i as int].shape());
            assert(self.staged@.shape().fields[i as int] == self.staged@.slots[i as int].shape());
        }
        let record = match &self.record.fields[i] {
            Field::Nested(child) => child,
            Field::Scalar(_) => unreached(),
        };
        let staged = self.staged.nested_mut(i);
        proof {
            lemma_update_slot(old(self).staged@, i as int, SlotView::Nested(final(staged)@));
        }
        NestedDraft { record, staged }
    }

    /// Whether a commit would write anything.
    pub fn is_dirty(&self) -> (dirty: bool)
        ensures
            dirty == self.staged_view().is_dirty(),
    {
        self.staged.is_dirty()
    }

    /// Discards everything staged, at any depth.
    pub fn reset(&mut self)
        requires
            old(self).wf(),
        ensures
            final(self).wf(),
            final(self).record == old(self).record,
            final(self).staged_view() == old(self).record_view().shape().clean(),
            !final(self).staged_view().is_dirty(),
    {
        proof {
            lemma_clean(self.staged@.shape());
            lemma_clean_wf(self.staged@);
        }
        self.staged.reset();
    }

    /// Writes every staged value into the record and returns the change set
    /// that puts the overwritten values back. A staged scalar replaces the
    /// stored one and is answered by a change that carries the old value; a
    /// nested record that has anything staged is committed in turn and
    /// answered by one change that carries its change set; fields with
    /// nothing staged are neither written nor mentioned. The changes come in
    /// field order. This is what applying the pending changes does.
    pub fn commit(self) -> (changes: ChangeSet)
        requires
            self.wf(),
        ensures
            final(self.record)@ == self.record_view().committed(self.staged_view()),
            changes@ == self.record_view().overwritten(self.staged_view()),
            final(self.record)@.shape() == self.record_view().shape(),
            final(self.record)@.shape().accepts(changes@, 0),
    {
        proof {
            lemma_pending_accepted(self.staged@, Seq::empty());
            lemma_apply_keeps_shape(self.record@, self.staged@.pending(Seq::empty()), 0);
        }
        let path = FieldId::root();
        self.staged.commit_into(self.record, &path)
    }
}

/// The draft of a nested record, reached through the draft of the record that
/// holds it. It stages edits like a [`Draft`]; the commit belongs to the
/// draft at the root.
#[derive(Debug)]
pub struct NestedDraft<'a> {
    pub record: &'a Record,
    pub staged: &'a mut Staged,
}

impl<'a> NestedDraft<'a> {
    /// The content of the nested record.
    pub open spec fn record_view(&self) -> RecordView {
        (*self.record)@
    }

    /// What is staged.
    pub open spec fn staged_view(&self) -> StagedView {
        (*self.staged)@
    }

    /// The staging area has the shape of the record, and each staged value
    /// has the type of its field.
    pub open spec fn wf(&self) -> bool {
        &&& self.staged_view().wf()
        &&& self.staged_view().shape() == self.record_view().shape()
    }

    /// The number of fields of the record.
    pub fn len(&self) -> (n: usize)
        ensures
            n == self.staged_view().slots.len(),
    {
        self.staged.len()
    }

    /// The type of scalar field `i`, or `None` where field `i` is a nested
    /// record.
    pub fn scalar_type(&self, i: usize) -> (ty: Option<ValueType>)
        requires
            i < self.staged_view().slots.len(),
        ensures
            ty == (match self.staged_view().slots[i as int] {
                SlotView::Scalar { ty, .. } => Some(ty),
                SlotView::Nested(_) => None,
            }),
    {
        self.staged.scalar_type(i)
    }

    /// The value of scalar field `i` as it would be after a commit: the
    /// staged value if there is one, else the value stored in the record.
    pub fn get(&self, i: usize) -> (value: &Value)
        requires
            self.wf(),
            i < self.staged_view().slots.len(),
            self.staged_view().slots[i as int] is Scalar,
        ensures
            value@ == (match self.staged_view().slots[i as int] {
                SlotView::Scalar { staged: Some(staged), .. } => staged,
                _ => self.record_view().fields[i as int]->Scalar_0,
            }),
    {
        proof {
            lemma_record_view(*self.record);
            lemma_shape_fields(self.record@);
            lemma_staged_shape(self.staged@);
            assert(self.record@.shape().fields[i as int] == self.record@.fields[i as int].shape());
            assert(self.staged@.shape().fields[i as int] == self.staged@.slots[i as int].shape());
        }
        match self.staged.staged_value(i) {
            Some(staged) => staged,
            None => match &self.record.fields[i] {
                Field::Scalar(stored) => stored,
                Field::Nested(_) => unreached(),
            },
        }
    }

    /// Stages `value` for scalar field `i`. A value staged for it before is
    /// discarded; the record is not touched.
    pub fn set(&mut self, i: usize, value: Value)
        requires
            old(self).wf(),
            i < old(self).staged_view().slots.len(),
            old(self).staged_view().slots[i as int] is Scalar,
            old(self).staged_view().slots[i as int]->ty == value@.value_type(),
        ensures
            final(self).wf(),
            final(self).record_view() == old(self).record_view(),
            *final(final(self).staged) == *final(old(self).staged),
            final(self).staged_view() == old(self).staged_view().with_staged(i as int, value@),
            final(self).staged_view().is_dirty(),
    {
        proof {
            lemma_update_slot(
                self.staged@,
                i as int,
                SlotView::Scalar { ty: value@.value_type(), staged: Some(value@) },
            );
        }
        self.staged.set(i, value);
        assert(self.staged@.slots[i as int].is_dirty());
    }

    /// Whether anything is staged for field `i`: a value for a scalar field,
    /// anything at any depth for a nested record.
    pub fn is_field_dirty(&self, i: usize) -> (dirty: bool)
        requires
            i < self.staged_view().slots.len(),
        ensures
            dirty == self.staged_view().slots[i as int].is_dirty(),
    {
        self.staged.is_field_dirty(i)
    }

    /// Clears what is staged for field `i`. For a scalar field the staged
    /// value, if any, is handed back; for a nested record everything staged
    /// below it is discarded.
    pub fn reset_field(&mut self, i: usize) -> (staged: Option<Value>)
        requires
            old(self).wf(),
            i < old(self).staged_view().slots.len(),
        ensures
            final(self).wf(),
            final(self).record_view() == old(self).record_view(),
            *final(final(self).staged) == *final(old(self).staged),
            final(self).staged_view() == old(self).staged_view().with_reset(i as int),
            !final(self).staged_view().slots[i as int].is_dirty(),
            match old(self).staged_view().slots[i as int] {
                SlotView::Scalar { staged: Some(value), .. } => staged matches Some(v) && v@
                    == value,
                _ => staged is None,
            },
    {
        proof {
            let slot = self.staged@.slots[i as int];
            lemma_clean_slot_wf(slot);
            lemma_update_slot(self.staged@, i as int, slot.shape().clean());
        }
        self.staged.reset_field(i)
    }

    /// The draft of nested record `i`, one level further down.
    pub fn edit_nested<'c>(&'c mut self, i: usize) -> (nested: NestedDraft<'c>)
        requires
            old(self).wf(),
            i < old(self).staged_view().slots.len(),
            old(self).staged_view().slots[i as int] is Nested,
        ensures
            nested.wf(),
            nested.record_view() == old(self).record_view().fields[i as int]->Nested_0,
            nested.staged_view() == old(self).staged_view().slots[i as int]->Nested_0,
            final(self).record_view() == old(self).record_view(),
            *final(final(self).staged) == *final(old(self).staged),
            final(self).staged_view() == old(self).staged_view().with_nested(
                i as int,
                final(nested.staged)@,
            ),
            final(nested.staged)@.wf() && final(nested.staged)@.shape() == nested.staged_view().shape()
                ==> final(self).wf(),
    {
        proof {
            lemma_record_view(*self.record);
            lemma_shape_fields(self.record@);
            lemma_staged_shape(self.staged@);
            assert(self.record@.shape().fields[i as int] == self.record@.fields[i as int].shape());
            assert(self.staged@.shape().fields[i as int] == self.staged@.slots[i as int].shape());
        }
        let record = match &self.record.fields[i] {
            Field::Nested(child) => child,
            Field::Scalar(_) => unreached(),
        };
        let staged = self.staged.nested_mut(i);
        proof {
            lemma_update_slot(old(self).staged@, i as int, SlotView::Nested(final(staged)@));
        }
        NestedDraft { record, staged }
    }

    /// Whether anything is staged for this record, at any depth.
    pub fn is_dirty(&self) -> (dirty: bool)
        ensures
            dirty == self.staged_view().is_dirty(),
    {
        self.staged.is_dirty()
    }

    /// Discards everything staged for this record, at any depth.
    pub fn reset(&mut self)
        requires
            old(self).wf(),
        ensures
            final(self).wf(),
            final(self).record_view() == old(self).record_view(),
            *final(final(self).staged) == *final(old(self).staged),
            final(self).staged_view() == old(self).record_view().shape().clean(),
            !final(self).staged_view().is_dirty(),
    {
        proof {
            lemma_clean(self.staged@.shape());
            lemma_clean_wf(self.staged@);
        }
        self.staged.reset();
    }
}

} // verus!
