//! What holds of drafts, commit and apply, whatever the record and whatever
//! is staged or applied.

use crate::change::{ChangeSetView, ChangeValueView, ChangeView};
use crate::lemmas::{
    lemma_apply_involution, lemma_apply_keeps_addresses, lemma_apply_keeps_shape,
    lemma_apply_nothing, lemma_pending_addressed,
    lemma_apply_prefix_frame, lemma_commit_prefix, lemma_pending_accepted,
    lemma_pending_iff_dirty, lemma_pending_prefix_names_dirty, lemma_pending_prefix_of_one_slot,
    lemma_two_changes_commute,
};
use crate::record::{
    apply_at, apply_prefix, lemma_shape_fields, FieldView, Mismatch, RecordShape, RecordView,
};
use crate::staged::{
    committed_field, lemma_clean, lemma_clean_slots, lemma_staged_shape, overwritten_by_commit,
    SlotView, StagedView,
};
use crate::value::ValueView;
use vstd::prelude::*;

verus! {

/// Commit, undo, redo: committing a draft and applying the change set that
/// the commit returned gives back the record as it was before the edit, and
/// applying the change set that this undo returned gives the record as it was
/// after the commit, whatever was staged.
pub proof fn lemma_commit_round_trip(record: RecordView, staged: StagedView)
    requires
        staged.wf(),
        staged.shape() == record.shape(),
    ensures
        ({
            let committed = record.committed(staged);
            let undo = record.overwritten(staged);
            let redo = committed.inverse(undo);
            &&& committed.shape().accepts(undo, 0)
            &&& committed.applied(undo) == record
            &&& record.shape().accepts(redo, 0)
            &&& record.applied(redo) == committed
            &&& record.inverse(redo) == undo
        }),
{
    let pending = staged.pending(Seq::empty());
    lemma_pending_accepted(staged, Seq::empty());
    lemma_apply_involution(record, pending, 0);
    let committed = record.applied(pending);
    let undo = record.inverse(pending);
    lemma_apply_involution(committed, undo, 0);
}

/// Undo and redo toggle: on a record that accepts a change set which
/// addresses no field twice, applying it, applying what came back, and
/// applying what came back from that, ends in the state after the first
/// apply.
pub proof fn lemma_apply_toggles(record: RecordView, changes: ChangeSetView)
    requires
        record.shape().accepts(changes, 0),
        changes.distinct(0),
    ensures
        ({
            let after = record.applied(changes);
            let undo = record.inverse(changes);
            &&& after.shape().accepts(undo, 0)
            &&& after.applied(undo) == record
            &&& after.inverse(undo) == changes
            &&& after.applied(undo).applied(after.inverse(undo)) == after
        }),
{
    lemma_apply_involution(record, changes, 0);
}

/// Dirty tracking: a draft that has just been made is clean. Staging a value
/// for a scalar field of a clean draft makes it dirty, and resetting that
/// field makes it the clean draft again.
pub proof fn lemma_dirty_tracking(shape: RecordShape, i: int, value: ValueView)
    requires
        0 <= i < shape.fields.len(),
        shape.fields[i] is Scalar,
    ensures
        !shape.clean().is_dirty(),
        shape.clean().with_staged(i, value).is_dirty(),
        shape.clean().with_staged(i, value).with_reset(i) == shape.clean(),
        !shape.clean().with_staged(i, value).with_reset(i).is_dirty(),
{
    lemma_clean(shape);
    lemma_clean_slots(shape);
    let fresh = shape.clean();
    let edited = fresh.with_staged(i, value);
    assert(edited.slots[i].is_dirty());
    assert(edited.with_reset(i).slots =~= fresh.slots);
}

/// Dirty tracking at any depth: staging a value for a scalar field of a
/// clean draft, however deep the record that holds the field is nested,
/// makes the draft at the root dirty, and resetting that field makes it the
/// clean draft again.
pub proof fn lemma_dirty_tracking_at_any_depth(
    staged: StagedView,
    path: Seq<usize>,
    value: ValueView,
)
    requires
        !staged.is_dirty(),
        staged.scalar_at(path),
    ensures
        staged.with_staged_at(path, value).is_dirty(),
        staged.with_staged_at(path, value).scalar_at(path),
        staged.with_staged_at(path, value).with_reset_at(path) == staged,
    decreases path.len(),
{
    let i = path[0] as int;
    let edited = staged.with_staged_at(path, value);
    assert(!staged.slots[i].is_dirty());
    match staged.slots[i] {
        SlotView::Scalar { .. } => {
            assert(edited.slots[i].is_dirty());
            assert(edited.with_reset_at(path).slots =~= staged.slots);
        },
        SlotView::Nested(inner) => {
            lemma_dirty_tracking_at_any_depth(inner, path.drop_first(), value);
            assert(edited.slots[i].is_dirty());
            assert(edited.with_reset_at(path).slots =~= staged.slots);
        },
    }
}

/// Staging a value makes a draft dirty whatever was staged before, and a
/// reset of the field leaves nothing staged for it.
pub proof fn lemma_set_and_reset(staged: StagedView, i: int, value: ValueView)
    requires
        0 <= i < staged.slots.len(),
        staged.slots[i] is Scalar,
    ensures
        staged.with_staged(i, value).is_dirty(),
        !staged.with_staged(i, value).with_reset(i).slots[i].is_dirty(),
        !staged.is_dirty() ==> staged.with_staged(i, value).with_reset(i) == staged,
{
    let edited = staged.with_staged(i, value);
    assert(edited.slots[i].is_dirty());
    if !staged.is_dirty() {
        assert(!staged.slots[i].is_dirty());
        assert(edited.with_reset(i).slots =~= staged.slots);
    }
}

/// A draft is dirty as soon as the draft of one of its nested records is:
/// an edit at any depth shows at every level above it.
pub proof fn lemma_nested_dirty(staged: StagedView, i: int, inner: StagedView)
    requires
        0 <= i < staged.slots.len(),
        inner.is_dirty(),
    ensures
        staged.with_nested(i, inner).is_dirty(),
{
    assert(staged.with_nested(i, inner).slots[i].is_dirty());
}

/// Applying an empty change set leaves the record as it is and returns an
/// empty change set.
pub proof fn lemma_empty_change_set(record: RecordView, changes: ChangeSetView)
    requires
        changes.changes.len() == 0,
    ensures
        record.applied(changes) == record,
        record.inverse(changes).target_type == record.type_tag,
        record.inverse(changes).changes.len() == 0,
{
    lemma_apply_nothing(record, changes, 0);
}

/// Committing a draft with nothing staged writes nothing and returns an
/// empty change set.
pub proof fn lemma_clean_commit(record: RecordView, staged: StagedView)
    requires
        !staged.is_dirty(),
    ensures
        staged.pending(Seq::empty()).changes.len() == 0,
        record.committed(staged) == record,
        record.overwritten(staged).changes.len() == 0,
{
    lemma_pending_iff_dirty(staged, Seq::empty());
    lemma_apply_nothing(record, staged.pending(Seq::empty()), 0);
}

/// A change set for another record type is not accepted, whatever it holds,
/// and the fault that is reported is that of type.
pub proof fn lemma_other_type_rejected(record: RecordView, changes: ChangeSetView, depth: nat)
    requires
        changes.target_type != record.type_tag,
    ensures
        !record.shape().accepts(changes, depth),
        record.shape().mismatch(changes, depth) == Some(Mismatch::Type),
{
    lemma_shape_fields(record);
}

/// Field independence: a change set of two changes to different fields of a
/// record inverts whichever of the two is stored first. Applying it and then
/// the change set that apply returned gives back the record, and so does
/// applying it and then the two returned changes in the other order.
pub proof fn lemma_field_independence(record: RecordView, changes: ChangeSetView)
    requires
        record.shape().accepts(changes, 0),
        changes.distinct(0),
        changes.changes.len() == 2,
    ensures
        ({
            let swapped = ChangeSetView {
                changes: seq![changes.changes[1], changes.changes[0]],
                ..changes
            };
            let after = record.applied(changes);
            let undo = record.inverse(changes);
            let undo_swapped = ChangeSetView { changes: seq![undo.changes[1], undo.changes[0]], ..undo };
            &&& record.shape().accepts(swapped, 0)
            &&& record.applied(swapped) == after
            &&& undo.changes.len() == 2
            &&& after.shape().accepts(undo_swapped, 0)
            &&& after.applied(undo) == record
            &&& after.applied(undo_swapped) == record
        }),
{
    let swapped = ChangeSetView { changes: seq![changes.changes[1], changes.changes[0]], ..changes };
    let after = record.applied(changes);
    let undo = record.inverse(changes);
    let undo_swapped = ChangeSetView { changes: seq![undo.changes[1], undo.changes[0]], ..undo };
    lemma_apply_involution(record, changes, 0);
    lemma_apply_keeps_shape(record, changes, 0);
    lemma_apply_prefix_frame(record.fields, changes.changes, 2, 0);
    lemma_shape_fields(record);
    lemma_shape_fields(after);
    assert(record.shape().accepts_change(changes.changes[0], 0));
    assert(record.shape().accepts_change(changes.changes[1], 0));
    assert(after.shape().accepts_change(undo.changes[0], 0));
    assert(after.shape().accepts_change(undo.changes[1], 0));
    assert(changes.changes =~= seq![changes.changes[0], changes.changes[1]]);
    assert(undo.changes =~= seq![undo.changes[0], undo.changes[1]]);
    lemma_two_changes_commute(record.fields, changes.changes[0], changes.changes[1], 0);
    lemma_two_changes_commute(after.fields, undo.changes[0], undo.changes[1], 0);
}

/// Nesting: when only nested record `i` has anything staged, the commit
/// returns exactly one change. It stands at the path of field `i` and
/// carries the change set of the nested record's own commit; in the record
/// only field `i` is written.
pub proof fn lemma_nested_commit(record: RecordView, staged: StagedView, i: int)
    requires
        staged.wf(),
        staged.shape() == record.shape(),
        0 <= i < staged.slots.len(),
        staged.slots[i] is Nested,
        staged.slots[i].is_dirty(),
        forall|j: int| 0 <= j < staged.slots.len() && j != i ==> !(#[trigger] staged.slots[j]).is_dirty(),
    ensures
        ({
            let path = seq![i as usize];
            let child = record.fields[i]->Nested_0;
            let inner = staged.slots[i]->Nested_0;
            let nested = apply_at(child, inner.pending(path), 1);
            let committed = record.committed(staged);
            let undo = record.overwritten(staged);
            &&& record.fields[i] is Nested
            &&& undo.changes == seq![
                ChangeView { path, value: ChangeValueView::ChangeSet(nested.1) },
            ]
            &&& committed.fields == record.fields.update(i, FieldView::Nested(nested.0))
        }),
{
    let prefix = Seq::<usize>::empty();
    assert(prefix.push(i as usize) =~= seq![i as usize]);
    lemma_pending_prefix_of_one_slot(staged, staged.slots.len(), i, prefix);
    lemma_staged_shape(staged);
    lemma_shape_fields(record);
    assert(staged.shape().fields[i] == staged.slots[i].shape());
    assert(record.shape().fields[i] == record.fields[i].shape());
    reveal_with_fuel(apply_prefix, 2);
    let pending = staged.pending(prefix);
    assert(pending.changes.len() == 1);
    let undo = record.inverse(pending);
    let nested = apply_at(
        record.fields[i]->Nested_0,
        (staged.slots[i]->Nested_0).pending(seq![i as usize]),
        1,
    );
    assert(undo.changes =~= seq![
        ChangeView { path: seq![i as usize], value: ChangeValueView::ChangeSet(nested.1) },
    ]);
}

/// The change set of a commit names the fields that had anything staged,
/// each once, in field order; fields with nothing staged are not
/// mentioned.
pub proof fn lemma_commit_names_dirty_fields(record: RecordView, staged: StagedView)
    requires
        staged.wf(),
        staged.shape() == record.shape(),
    ensures
        ({
            let undo = record.overwritten(staged);
            &&& forall|k: int|
                0 <= k < undo.changes.len() ==> {
                    &&& (#[trigger] undo.changes[k]).path.len() == 1
                    &&& undo.changes[k].path[0] < staged.slots.len()
                    &&& staged.slots[undo.changes[k].path[0] as int].is_dirty()
                }
            &&& forall|j: int, k: int|
                0 <= j < k < undo.changes.len() ==> (#[trigger] undo.changes[j]).path[0] < (
                #[trigger] undo.changes[k]).path[0]
            &&& forall|i: int|
                0 <= i < staged.slots.len() && (#[trigger] staged.slots[i]).is_dirty()
                    ==> exists|k: int|
                    0 <= k < undo.changes.len() && (#[trigger] undo.changes[k]).path[0] == i
        }),
{
    let prefix = Seq::<usize>::empty();
    let pending = staged.pending(prefix);
    let undo = record.inverse(pending);
    lemma_pending_prefix_names_dirty(staged, staged.slots.len(), prefix);
    lemma_apply_prefix_frame(record.fields, pending.changes, pending.changes.len(), 0);
    assert forall|i: int|
        0 <= i < staged.slots.len() && (#[trigger] staged.slots[i]).is_dirty() implies exists|
        k: int,
    |
        0 <= k < undo.changes.len() && (#[trigger] undo.changes[k]).path[0] == i by {
        let k = choose|k: int|
            0 <= k < pending.changes.len() && (#[trigger] pending.changes[k]).path[0] == i;
        assert(undo.changes[k].path == pending.changes[k].path);
    }
}

/// Paths: in the change set of a commit the path of every change has one
/// index for each level of nesting, down to its field, and the paths of a
/// nested change set start with the path of the change that carries it.
/// Apply hands every path back as it came, so the change sets of undo and
/// redo are addressed in the same way.
pub proof fn lemma_paths_follow_nesting(record: RecordView, staged: StagedView, changes: ChangeSetView)
    requires
        changes.addressed_from(Seq::empty()),
    ensures
        record.overwritten(staged).addressed_from(Seq::empty()),
        record.inverse(changes).addressed_from(Seq::empty()),
{
    lemma_pending_addressed(staged, Seq::empty());
    lemma_apply_keeps_addresses(record, staged.pending(Seq::empty()), 0, Seq::empty());
    lemma_apply_keeps_addresses(record, changes, 0, Seq::empty());
}

/// What a commit writes: every scalar field with a staged value holds that
/// value afterwards, every nested record has been committed in turn, and a
/// field with nothing staged is as it was. The change set that the commit
/// returns carries, for each field that had something staged, what was
/// there before.
pub proof fn lemma_commit_writes_what_is_staged(record: RecordView, staged: StagedView)
    requires
        staged.wf(),
        staged.shape() == record.shape(),
    ensures
        ({
            let prefix = Seq::<usize>::empty();
            let committed = record.committed(staged);
            let undo = record.overwritten(staged);
            &&& committed.type_tag == record.type_tag
            &&& committed.fields.len() == record.fields.len()
            &&& forall|i: int|
                0 <= i < record.fields.len() ==> #[trigger] committed.fields[i] == committed_field(
                    record.fields[i],
                    staged.slots[i],
                    prefix,
                    i,
                )
            &&& undo.target_type == record.type_tag
            &&& forall|k: int|
                0 <= k < undo.changes.len() ==> (#[trigger] undo.changes[k]).value
                    == overwritten_by_commit(
                    record.fields[undo.changes[k].path[0] as int],
                    staged.slots[undo.changes[k].path[0] as int],
                    prefix,
                    undo.changes[k].path[0] as int,
                )
        }),
{
    let prefix = Seq::<usize>::empty();
    lemma_commit_prefix(record, staged, staged.slots.len(), prefix);
    lemma_staged_shape(staged);
    lemma_shape_fields(record);
}

} // verus!
