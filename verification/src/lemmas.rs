//! Facts about apply and about pending changes that the laws and the
//! executable code are proved from.

use crate::change::{ChangeSetView, ChangeValueView, ChangeView};
use crate::record::{
    apply_at, apply_change, apply_prefix, lemma_shape_fields, FieldView, RecordShape, RecordView,
};
use crate::staged::{
    committed_field, lemma_staged_shape, overwritten_by_commit, SlotView, StagedView,
};
use vstd::prelude::*;

verus! {

/// Applying the first `n` changes of a list looks at those changes only.
pub proof fn lemma_apply_prefix_of_equal_prefixes(
    fields: Seq<FieldView>,
    first: Seq<ChangeView>,
    second: Seq<ChangeView>,
    n: nat,
    depth: nat,
)
    requires
        n <= first.len(),
        n <= second.len(),
        forall|j: int| 0 <= j < n ==> first[j] == second[j],
    ensures
        apply_prefix(fields, first, n, depth) == apply_prefix(fields, second, n, depth),
    decreases n,
{
    if n > 0 {
        lemma_apply_prefix_of_equal_prefixes(fields, first, second, (n - 1) as nat, depth);
    }
}

/// Applying one change keeps the number of fields and the path of the change.
pub proof fn lemma_apply_change_frame(fields: Seq<FieldView>, change: ChangeView, depth: nat)
    ensures
        apply_change(fields, change, depth).0.len() == fields.len(),
        apply_change(fields, change, depth).1.path == change.path,
        forall|i: int|
            0 <= i < fields.len() && i != change.path[depth as int] ==> apply_change(
                fields,
                change,
                depth,
            ).0[i] == fields[i],
{
}

/// Applying `n` changes keeps the number of fields and yields `n` reverting
/// changes, each at the path of the change it reverts.
pub proof fn lemma_apply_prefix_frame(
    fields: Seq<FieldView>,
    changes: Seq<ChangeView>,
    n: nat,
    depth: nat,
)
    requires
        n <= changes.len(),
    ensures
        apply_prefix(fields, changes, n, depth).0.len() == fields.len(),
        apply_prefix(fields, changes, n, depth).1.len() == n,
        forall|j: int|
            0 <= j < n ==> (#[trigger] apply_prefix(fields, changes, n, depth).1[j]).path
                == changes[j].path,
    decreases n,
{
    if n > 0 {
        let before = apply_prefix(fields, changes, (n - 1) as nat, depth);
        lemma_apply_prefix_frame(fields, changes, (n - 1) as nat, depth);
        lemma_apply_change_frame(before.0, changes[n - 1], depth);
    }
}

/// A staging area has pending changes exactly when it is dirty.
pub proof fn lemma_pending_iff_dirty(staged: StagedView, prefix: Seq<usize>)
    ensures
        staged.is_dirty() <==> staged.pending(prefix).changes.len() > 0,
{
    lemma_pending_prefix_iff_dirty(staged, staged.slots.len(), prefix);
}

/// The first `n` slots have pending changes exactly when one of them is
/// dirty.
pub proof fn lemma_pending_prefix_iff_dirty(staged: StagedView, n: nat, prefix: Seq<usize>)
    requires
        n <= staged.slots.len(),
    ensures
        staged.pending_prefix(n, prefix).len() > 0 <==> exists|i: int|
            0 <= i < n && (#[trigger] staged.slots[i]).is_dirty(),
    decreases n,
{
    if n > 0 {
        lemma_pending_prefix_iff_dirty(staged, (n - 1) as nat, prefix);
        let last = staged.slots[n - 1];
        if last.is_dirty() {
            assert(last.pending(prefix.push((n - 1) as usize)) is Some);
        } else {
            assert(last.pending(prefix.push((n - 1) as usize)) is None);
        }
    }
}

/// Applying an accepted change keeps the shape of the record. The reverting
/// change stands at the same path and is accepted in turn; it addresses no
/// field twice if the change does not.
pub proof fn lemma_apply_change_keeps_shape(record: RecordView, change: ChangeView, depth: nat)
    requires
        record.shape().accepts_change(change, depth),
    ensures
        ({
            let (fields, reverting) = apply_change(record.fields, change, depth);
            &&& (RecordView { type_tag: record.type_tag, fields }).shape() == record.shape()
            &&& record.shape().accepts_change(reverting, depth)
            &&& reverting.path == change.path
            &&& change.distinct_below(depth) ==> reverting.distinct_below(depth)
        }),
    decreases change, 0nat,
{
    let (fields, reverting) = apply_change(record.fields, change, depth);
    let after = RecordView { type_tag: record.type_tag, fields };
    let index = change.path[depth as int] as int;
    lemma_shape_fields(record);
    lemma_shape_fields(after);
    assert(record.shape().fields[index] == record.fields[index].shape());
    match change.value {
        ChangeValueView::Value(_) => {},
        ChangeValueView::ChangeSet(inner) => {
            let child = record.fields[index]->Nested_0;
            lemma_apply_keeps_shape(child, inner, depth + 1);
        },
    }
    assert forall|i: int| 0 <= i < fields.len() implies after.shape().fields[i]
        == record.shape().fields[i] by {
        assert(after.shape().fields[i] == after.fields[i].shape());
        assert(record.shape().fields[i] == record.fields[i].shape());
    }
    assert(after.shape().fields =~= record.shape().fields);
}

/// Applying the first `n` of a list of accepted changes keeps the shape of
/// the record, and each reverting change is accepted in turn.
pub proof fn lemma_apply_prefix_keeps_shape(
    record: RecordView,
    changes: Seq<ChangeView>,
    n: nat,
    depth: nat,
)
    requires
        n <= changes.len(),
        forall|k: int|
            0 <= k < changes.len() ==> record.shape().accepts_change(#[trigger] changes[k], depth),
    ensures
        ({
            let (fields, inverse) = apply_prefix(record.fields, changes, n, depth);
            &&& (RecordView { type_tag: record.type_tag, fields }).shape() == record.shape()
            &&& inverse.len() == n
            &&& forall|j: int|
                0 <= j < n ==> {
                    &&& record.shape().accepts_change(#[trigger] inverse[j], depth)
                    &&& inverse[j].path == changes[j].path
                    &&& changes[j].distinct_below(depth) ==> inverse[j].distinct_below(depth)
                }
        }),
    decreases changes, n,
{
    if n > 0 {
        let (before, inverse) = apply_prefix(record.fields, changes, (n - 1) as nat, depth);
        lemma_apply_prefix_keeps_shape(record, changes, (n - 1) as nat, depth);
        let middle = RecordView { type_tag: record.type_tag, fields: before };
        lemma_apply_change_keeps_shape(middle, changes[n - 1], depth);
    } else {
        let same = RecordView { type_tag: record.type_tag, fields: record.fields };
        assert(same == record);
    }
}

/// Applying an accepted change set keeps the shape of the record. The
/// reverting change set is accepted by the record in turn, so an undo can
/// always be applied; it addresses no field twice if the change set does not.
pub proof fn lemma_apply_keeps_shape(record: RecordView, changes: ChangeSetView, depth: nat)
    requires
        record.shape().accepts(changes, depth),
    ensures
        ({
            let (after, inverse) = apply_at(record, changes, depth);
            &&& after.shape() == record.shape()
            &&& after.shape().accepts(inverse, depth)
            &&& inverse.changes.len() == changes.changes.len()
            &&& changes.distinct(depth) ==> inverse.distinct(depth)
        }),
    decreases changes, 1nat,
{
    lemma_apply_prefix_keeps_shape(record, changes.changes, changes.changes.len(), depth);
    lemma_shape_fields(record);
}

/// A change does not look at the fields that it does not address: writing
/// another field before or after it comes to the same.
pub proof fn lemma_apply_change_elsewhere(
    fields: Seq<FieldView>,
    change: ChangeView,
    depth: nat,
    i: int,
    field: FieldView,
)
    requires
        0 <= i < fields.len(),
        change.path[depth as int] != i,
    ensures
        apply_change(fields.update(i, field), change, depth).0 == apply_change(
            fields,
            change,
            depth,
        ).0.update(i, field),
        apply_change(fields.update(i, field), change, depth).1 == apply_change(
            fields,
            change,
            depth,
        ).1,
        apply_change(fields, change, depth).0[i] == fields[i],
{
    let index = change.path[depth as int] as int;
    assert(apply_change(fields.update(i, field), change, depth).0 =~= apply_change(
        fields,
        change,
        depth,
    ).0.update(i, field));
}

/// The first `n` changes do not look at a field that none of them
/// addresses: writing it before or after them comes to the same.
pub proof fn lemma_apply_prefix_elsewhere(
    fields: Seq<FieldView>,
    changes: Seq<ChangeView>,
    n: nat,
    depth: nat,
    i: int,
    field: FieldView,
)
    requires
        n <= changes.len(),
        0 <= i < fields.len(),
        forall|j: int| 0 <= j < n ==> (#[trigger] changes[j]).path[depth as int] != i,
    ensures
        apply_prefix(fields.update(i, field), changes, n, depth).0 == apply_prefix(
            fields,
            changes,
            n,
            depth,
        ).0.update(i, field),
        apply_prefix(fields.update(i, field), changes, n, depth).1 == apply_prefix(
            fields,
            changes,
            n,
            depth,
        ).1,
        apply_prefix(fields, changes, n, depth).0[i] == fields[i],
    decreases n,
{
    if n > 0 {
        lemma_apply_prefix_elsewhere(fields, changes, (n - 1) as nat, depth, i, field);
        lemma_apply_prefix_frame(fields, changes, (n - 1) as nat, depth);
        let before = apply_prefix(fields, changes, (n - 1) as nat, depth).0;
        lemma_apply_change_elsewhere(before, changes[n - 1], depth, i, field);
    }
}

/// Applying an accepted change and then the change that reverts it gives
/// back the fields and the change.
pub proof fn lemma_apply_change_involution(record: RecordView, change: ChangeView, depth: nat)
    requires
        record.shape().accepts_change(change, depth),
        change.distinct_below(depth),
    ensures
        ({
            let (fields, reverting) = apply_change(record.fields, change, depth);
            apply_change(fields, reverting, depth) == (record.fields, change)
        }),
    decreases change, 0nat,
{
    let (fields, reverting) = apply_change(record.fields, change, depth);
    let index = change.path[depth as int] as int;
    lemma_shape_fields(record);
    assert(record.shape().fields[index] == record.fields[index].shape());
    match change.value {
        ChangeValueView::Value(_) => {},
        ChangeValueView::ChangeSet(inner) => {
            let child = record.fields[index]->Nested_0;
            lemma_apply_involution(child, inner, depth + 1);
        },
    }
    assert(apply_change(fields, reverting, depth).0 =~= record.fields);
}

/// Applying the first `n` of a list of accepted changes that address
/// different fields, and then the changes that revert them, gives back the
/// fields and the changes.
pub proof fn lemma_apply_prefix_involution(
    record: RecordView,
    changes: Seq<ChangeView>,
    n: nat,
    depth: nat,
)
    requires
        n <= changes.len(),
        forall|k: int|
            0 <= k < changes.len() ==> record.shape().accepts_change(#[trigger] changes[k], depth),
        forall|k: int| 0 <= k < changes.len() ==> (#[trigger] changes[k]).distinct_below(depth),
        forall|j: int, k: int|
            0 <= j < k < changes.len() ==> (#[trigger] changes[j]).path[depth as int] != (
            #[trigger] changes[k]).path[depth as int],
    ensures
        ({
            let (fields, inverse) = apply_prefix(record.fields, changes, n, depth);
            apply_prefix(fields, inverse, n, depth) == (record.fields, changes.take(n as int))
        }),
    decreases changes, n,
{
    let (fields, inverse) = apply_prefix(record.fields, changes, n, depth);
    if n > 0 {
        let m = (n - 1) as nat;
        let change = changes[n - 1];
        let index = change.path[depth as int] as int;
        let (before, earlier) = apply_prefix(record.fields, changes, m, depth);
        let (_, reverting) = apply_change(before, change, depth);
        let middle = RecordView { type_tag: record.type_tag, fields: before };
        // What the earlier changes left alone.
        lemma_apply_prefix_frame(record.fields, changes, m, depth);
        lemma_apply_prefix_keeps_shape(record, changes, m, depth);
        lemma_shape_fields(record);
        lemma_shape_fields(middle);
        assert(middle.shape().fields[index] == before[index].shape());
        assert(record.shape().fields[index] == record.fields[index].shape());
        assert(fields =~= before.update(index, fields[index]));
        // The earlier reverting changes do not address the field of the last change.
        assert forall|j: int| 0 <= j < m implies (#[trigger] earlier[j]).path[depth as int]
            != index by {
            assert(earlier[j].path == changes[j].path);
            assert(changes[j].path[depth as int] != changes[n - 1].path[depth as int]);
        }
        lemma_apply_prefix_of_equal_prefixes(fields, inverse, earlier, m, depth);
        lemma_apply_prefix_elsewhere(before, earlier, m, depth, index, fields[index]);
        lemma_apply_prefix_involution(record, changes, m, depth);
        // So reverting the earlier changes gives the first fields back, but for that field.
        let unwound = apply_prefix(fields, inverse, m, depth);
        assert(unwound.0 == record.fields.update(index, fields[index]));
        assert(unwound.1 == changes.take(m as int));
        // The last change, on a record that differs from `middle` in other fields only.
        assert forall|j: int| 0 <= j < m implies (#[trigger] changes[j]).path[depth as int]
            != index by {
            assert(changes[j].path[depth as int] != changes[n - 1].path[depth as int]);
        }
        lemma_apply_prefix_elsewhere(record.fields, changes, m, depth, index, fields[index]);
        assert(before[index] == record.fields[index]);
        lemma_apply_change_involution(middle, change, depth);
        let last = apply_change(fields, reverting, depth);
        assert(last == (before, change));
        let redone = apply_change(unwound.0, reverting, depth);
        assert(redone.1 == change);
        assert(redone.0 =~= record.fields);
        assert(changes.take(m as int).push(change) =~= changes.take(n as int));
    } else {
        assert(changes.take(0) =~= Seq::<ChangeView>::empty());
    }
}

/// Apply is its own inverse: on a record that accepts a change set which
/// addresses no field twice, applying the set and then the set that apply
/// returned gives back the record and the first set.
pub proof fn lemma_apply_involution(record: RecordView, changes: ChangeSetView, depth: nat)
    requires
        record.shape().accepts(changes, depth),
        changes.distinct(depth),
    ensures
        ({
            let (after, inverse) = apply_at(record, changes, depth);
            &&& after.shape().accepts(inverse, depth)
            &&& inverse.distinct(depth)
            &&& apply_at(after, inverse, depth) == (record, changes)
        }),
    decreases changes, 1nat,
{
    let n = changes.changes.len();
    lemma_apply_keeps_shape(record, changes, depth);
    lemma_apply_prefix_involution(record, changes.changes, n, depth);
    lemma_apply_prefix_frame(record.fields, changes.changes, n, depth);
    assert(changes.changes.take(n as int) =~= changes.changes);
    lemma_shape_fields(record);
}

/// The pending change of a slot is accepted by a record of the slot's
/// shape, stands at the slot's path and addresses no field twice.
pub proof fn lemma_slot_pending_accepted(
    shape: RecordShape,
    i: int,
    slot: SlotView,
    prefix: Seq<usize>,
)
    requires
        slot.wf(),
        0 <= i < shape.fields.len(),
        i <= usize::MAX,
        shape.fields[i] == slot.shape(),
    ensures
        slot.pending(prefix.push(i as usize)) matches Some(change) ==> {
            &&& shape.accepts_change(change, prefix.len())
            &&& change.path == prefix.push(i as usize)
            &&& change.distinct_below(prefix.len())
        },
    decreases slot, 0nat,
{
    let path = prefix.push(i as usize);
    match slot {
        SlotView::Scalar { .. } => {},
        SlotView::Nested(inner) => {
            lemma_pending_accepted(inner, path);
        },
    }
}

/// The pending changes of the first `n` slots are accepted by a record of
/// the staging area's shape, and come in field order.
pub proof fn lemma_pending_prefix_accepted(staged: StagedView, n: nat, prefix: Seq<usize>)
    requires
        staged.wf(),
        n <= staged.slots.len(),
    ensures
        ({
            let pending = staged.pending_prefix(n, prefix);
            &&& forall|k: int|
                0 <= k < pending.len() ==> {
                    &&& staged.shape().accepts_change(#[trigger] pending[k], prefix.len())
                    &&& pending[k].distinct_below(prefix.len())
                    &&& pending[k].path.len() == prefix.len() + 1
                    &&& pending[k].path[prefix.len() as int] < n
                }
            &&& forall|j: int, k: int|
                0 <= j < k < pending.len() ==> (#[trigger] pending[j]).path[prefix.len() as int] < (
                #[trigger] pending[k]).path[prefix.len() as int]
        }),
    decreases staged, n,
{
    if n > 0 {
        lemma_pending_prefix_accepted(staged, (n - 1) as nat, prefix);
        lemma_staged_shape(staged);
        let slot = staged.slots[n - 1];
        assert(staged.shape().fields[n - 1] == slot.shape());
        lemma_slot_pending_accepted(staged.shape(), n - 1, slot, prefix);
    }
}

/// What is staged in a well-formed staging area is a change set that a
/// record of the same shape accepts, and that addresses no field twice.
pub proof fn lemma_pending_accepted(staged: StagedView, prefix: Seq<usize>)
    requires
        staged.wf(),
    ensures
        staged.shape().accepts(staged.pending(prefix), prefix.len()),
        staged.pending(prefix).distinct(prefix.len()),
    decreases staged, staged.slots.len() + 1,
{
    lemma_pending_prefix_accepted(staged, staged.slots.len(), prefix);
    lemma_staged_shape(staged);
}

/// Applying an empty change set leaves the record as it is and returns an
/// empty change set.
pub proof fn lemma_apply_nothing(record: RecordView, changes: ChangeSetView, depth: nat)
    requires
        changes.changes.len() == 0,
    ensures
        apply_at(record, changes, depth).0 == record,
        apply_at(record, changes, depth).1.changes.len() == 0,
{
}

/// Two changes to different fields can be applied in either order: the
/// record ends up the same, and each change is answered by the same
/// reverting change.
pub proof fn lemma_two_changes_commute(
    fields: Seq<FieldView>,
    first: ChangeView,
    second: ChangeView,
    depth: nat,
)
    requires
        first.path[depth as int] < fields.len(),
        second.path[depth as int] < fields.len(),
        first.path[depth as int] != second.path[depth as int],
    ensures
        ({
            let one = apply_prefix(fields, seq![first, second], 2, depth);
            let other = apply_prefix(fields, seq![second, first], 2, depth);
            &&& one.0 == other.0
            &&& one.1 == seq![other.1[1], other.1[0]]
        }),
{
    let a = first.path[depth as int] as int;
    let b = second.path[depth as int] as int;
    let forth = seq![first, second];
    let back = seq![second, first];
    reveal_with_fuel(apply_prefix, 3);
    let after_first = apply_change(fields, first, depth);
    let after_second = apply_change(fields, second, depth);
    lemma_apply_change_frame(fields, first, depth);
    lemma_apply_change_frame(fields, second, depth);
    assert(after_first.0 =~= fields.update(a, after_first.0[a]));
    assert(after_second.0 =~= fields.update(b, after_second.0[b]));
    lemma_apply_change_elsewhere(fields, second, depth, a, after_first.0[a]);
    lemma_apply_change_elsewhere(fields, first, depth, b, after_second.0[b]);
    let one = apply_prefix(fields, forth, 2, depth);
    let other = apply_prefix(fields, back, 2, depth);
    assert(apply_prefix(fields, forth, 1, depth) == (after_first.0, seq![after_first.1]));
    assert(apply_prefix(fields, back, 1, depth) == (after_second.0, seq![after_second.1]));
    assert(one.0 =~= other.0);
    assert(one.1 =~= seq![other.1[1], other.1[0]]);
}

/// With nothing staged in the first `n` slots but, perhaps, in slot `i`,
/// the pending changes of those slots are the pending change of slot `i`,
/// if it is among them and has one.
pub proof fn lemma_pending_prefix_of_one_slot(
    staged: StagedView,
    n: nat,
    i: int,
    prefix: Seq<usize>,
)
    requires
        n <= staged.slots.len(),
        0 <= i < staged.slots.len(),
        forall|j: int| 0 <= j < staged.slots.len() && j != i ==> !(#[trigger] staged.slots[j]).is_dirty(),
    ensures
        staged.pending_prefix(n, prefix) == (if i < n {
            match staged.slots[i].pending(prefix.push(i as usize)) {
                Some(change) => seq![change],
                None => Seq::empty(),
            }
        } else {
            Seq::empty()
        }),
    decreases n,
{
    if n > 0 {
        lemma_pending_prefix_of_one_slot(staged, (n - 1) as nat, i, prefix);
        let before = staged.pending_prefix((n - 1) as nat, prefix);
        if n - 1 != i {
            assert(!staged.slots[n - 1].is_dirty());
            assert(staged.slots[n - 1].pending(prefix.push((n - 1) as usize)) is None);
        } else {
            match staged.slots[i].pending(prefix.push(i as usize)) {
                Some(change) => {
                    assert(before.push(change) =~= seq![change]);
                },
                None => {},
            }
        }
    }
}

/// The pending changes of the first `n` slots name the dirty ones among
/// them, each once, in field order.
pub proof fn lemma_pending_prefix_names_dirty(staged: StagedView, n: nat, prefix: Seq<usize>)
    requires
        n <= staged.slots.len(),
        staged.slots.len() <= usize::MAX,
    ensures
        ({
            let pending = staged.pending_prefix(n, prefix);
            let depth = prefix.len() as int;
            &&& forall|k: int|
                0 <= k < pending.len() ==> {
                    &&& (#[trigger] pending[k]).path.len() == depth + 1
                    &&& pending[k].path[depth] < n
                    &&& staged.slots[pending[k].path[depth] as int].is_dirty()
                }
            &&& forall|j: int, k: int|
                0 <= j < k < pending.len() ==> (#[trigger] pending[j]).path[depth] < (
                #[trigger] pending[k]).path[depth]
            &&& forall|i: int|
                0 <= i < n && (#[trigger] staged.slots[i]).is_dirty() ==> exists|k: int|
                    0 <= k < pending.len() && (#[trigger] pending[k]).path[depth] == i
        }),
    decreases n,
{
    if n > 0 {
        let m = (n - 1) as nat;
        let before = staged.pending_prefix(m, prefix);
        let pending = staged.pending_prefix(n, prefix);
        let depth = prefix.len() as int;
        lemma_pending_prefix_names_dirty(staged, m, prefix);
        let slot = staged.slots[m as int];
        let path = prefix.push(m as usize);
        assert(path[depth] == m);
        match slot.pending(path) {
            Some(change) => {
                assert(slot.is_dirty());
                assert(change.path == path);
                assert(pending == before.push(change));
                assert(pending[pending.len() - 1] == change);
                assert forall|k: int| 0 <= k < pending.len() implies {
                    &&& (#[trigger] pending[k]).path.len() == depth + 1
                    &&& pending[k].path[depth] < n
                    &&& staged.slots[pending[k].path[depth] as int].is_dirty()
                } by {
                    if k < before.len() {
                        assert(pending[k] == before[k]);
                    }
                }
                assert forall|j: int, k: int| 0 <= j < k < pending.len() implies (
                #[trigger] pending[j]).path[depth] < (#[trigger] pending[k]).path[depth] by {
                    assert(pending[j] == before[j]);
                    if k < before.len() {
                        assert(pending[k] == before[k]);
                    }
                }
            },
            None => {
                assert(!slot.is_dirty());
                assert(pending == before);
            },
        }
        assert forall|i: int| 0 <= i < n && (#[trigger] staged.slots[i]).is_dirty() implies exists|
            k: int,
        |
            0 <= k < pending.len() && (#[trigger] pending[k]).path[depth] == i by {
            if i < m {
                let k = choose|k: int|
                    0 <= k < before.len() && (#[trigger] before[k]).path[depth] == i;
                assert(pending[k] == before[k]);
            } else {
                assert(pending[pending.len() - 1].path[depth] == i);
            }
        }
    }
}

/// Committing the first `n` slots writes those fields and no others, and
/// answers each pending change by what it overwrote.
pub proof fn lemma_commit_prefix(record: RecordView, staged: StagedView, n: nat, prefix: Seq<usize>)
    requires
        staged.wf(),
        staged.shape() == record.shape(),
        n <= staged.slots.len(),
    ensures
        ({
            let pending = staged.pending_prefix(n, prefix);
            let (fields, undo) = apply_prefix(record.fields, pending, pending.len(), prefix.len());
            &&& fields.len() == record.fields.len()
            &&& undo.len() == pending.len()
            &&& forall|i: int|
                0 <= i < n ==> #[trigger] fields[i] == committed_field(
                    record.fields[i],
                    staged.slots[i],
                    prefix,
                    i,
                )
            &&& forall|i: int| n <= i < fields.len() ==> #[trigger] fields[i] == record.fields[i]
            &&& forall|k: int|
                0 <= k < undo.len() ==> {
                    &&& (#[trigger] undo[k]).path == pending[k].path
                    &&& undo[k].value == overwritten_by_commit(
                        record.fields[pending[k].path[prefix.len() as int] as int],
                        staged.slots[pending[k].path[prefix.len() as int] as int],
                        prefix,
                        pending[k].path[prefix.len() as int] as int,
                    )
                }
        }),
    decreases n,
{
    let depth = prefix.len();
    lemma_staged_shape(staged);
    lemma_shape_fields(record);
    if n > 0 {
        let m = (n - 1) as nat;
        let before = staged.pending_prefix(m, prefix);
        let pending = staged.pending_prefix(n, prefix);
        let slot = staged.slots[m as int];
        let path = prefix.push(m as usize);
        let (fields, undo) = apply_prefix(record.fields, pending, pending.len(), depth);
        lemma_commit_prefix(record, staged, m, prefix);
        lemma_pending_prefix_names_dirty(staged, n, prefix);
        let (earlier_fields, earlier_undo) = apply_prefix(record.fields, before, before.len(), depth);
        assert(staged.shape().fields[m as int] == slot.shape());
        assert(record.shape().fields[m as int] == record.fields[m as int].shape());
        assert(path[depth as int] == m);
        match slot.pending(path) {
            Some(change) => {
                assert(pending == before.push(change));
                assert(change.path == path);
                lemma_apply_prefix_of_equal_prefixes(
                    record.fields,
                    pending,
                    before,
                    before.len(),
                    depth,
                );
                assert(earlier_fields[m as int] == record.fields[m as int]);
                let step = apply_change(earlier_fields, change, depth);
                assert(fields == step.0);
                assert(undo == earlier_undo.push(step.1));
                assert forall|k: int| 0 <= k < undo.len() implies {
                    &&& (#[trigger] undo[k]).path == pending[k].path
                    &&& undo[k].value == overwritten_by_commit(
                        record.fields[pending[k].path[depth as int] as int],
                        staged.slots[pending[k].path[depth as int] as int],
                        prefix,
                        pending[k].path[depth as int] as int,
                    )
                } by {
                    if k < before.len() {
                        assert(undo[k] == earlier_undo[k]);
                        assert(pending[k] == before[k]);
                    }
                }
            },
            None => {
                assert(pending == before);
                match slot {
                    SlotView::Scalar { .. } => {},
                    SlotView::Nested(inner) => {
                        lemma_pending_iff_dirty(inner, path);
                        lemma_apply_nothing(record.fields[m as int]->Nested_0, inner.pending(path), depth + 1);
                    },
                }
            },
        }
    }
}

/// The change that reverts a change has its addresses.
pub proof fn lemma_apply_change_keeps_addresses(
    fields: Seq<FieldView>,
    change: ChangeView,
    depth: nat,
    prefix: Seq<usize>,
)
    requires
        change.addressed_from(prefix),
    ensures
        apply_change(fields, change, depth).1.addressed_from(prefix),
    decreases change, 0nat,
{
    let index = change.path[depth as int] as int;
    if index < fields.len() {
        match change.value {
            ChangeValueView::Value(_) => {},
            ChangeValueView::ChangeSet(inner) => match fields[index] {
                FieldView::Nested(record) => {
                    lemma_apply_keeps_addresses(record, inner, depth + 1, change.path);
                },
                FieldView::Scalar(_) => {},
            },
        }
    }
}

/// The changes that revert the first `n` changes have their addresses.
pub proof fn lemma_apply_prefix_keeps_addresses(
    fields: Seq<FieldView>,
    changes: Seq<ChangeView>,
    n: nat,
    depth: nat,
    prefix: Seq<usize>,
)
    requires
        n <= changes.len(),
        forall|k: int| 0 <= k < changes.len() ==> (#[trigger] changes[k]).addressed_from(prefix),
    ensures
        forall|k: int|
            0 <= k < n ==> (#[trigger] apply_prefix(fields, changes, n, depth).1[k]).addressed_from(
                prefix,
            ),
    decreases changes, n,
{
    if n > 0 {
        let before = apply_prefix(fields, changes, (n - 1) as nat, depth);
        lemma_apply_prefix_keeps_addresses(fields, changes, (n - 1) as nat, depth, prefix);
        lemma_apply_prefix_frame(fields, changes, (n - 1) as nat, depth);
        lemma_apply_change_keeps_addresses(before.0, changes[n - 1], depth, prefix);
    }
}

/// The change set that reverts a change set has its addresses.
pub proof fn lemma_apply_keeps_addresses(
    record: RecordView,
    changes: ChangeSetView,
    depth: nat,
    prefix: Seq<usize>,
)
    requires
        changes.addressed_from(prefix),
    ensures
        apply_at(record, changes, depth).1.addressed_from(prefix),
    decreases changes, 1nat,
{
    let n = changes.changes.len();
    lemma_apply_prefix_keeps_addresses(record.fields, changes.changes, n, depth, prefix);
    lemma_apply_prefix_frame(record.fields, changes.changes, n, depth);
}

/// The pending changes of the first `n` slots are addressed from the path
/// of the record.
pub proof fn lemma_pending_prefix_addressed(staged: StagedView, n: nat, prefix: Seq<usize>)
    requires
        n <= staged.slots.len(),
    ensures
        forall|k: int|
            0 <= k < staged.pending_prefix(n, prefix).len() ==> (
            #[trigger] staged.pending_prefix(n, prefix)[k]).addressed_from(prefix),
    decreases staged, n,
{
    if n > 0 {
        lemma_pending_prefix_addressed(staged, (n - 1) as nat, prefix);
        let before = staged.pending_prefix((n - 1) as nat, prefix);
        let pending = staged.pending_prefix(n, prefix);
        let path = prefix.push((n - 1) as usize);
        assert(path.take(prefix.len() as int) =~= prefix);
        match staged.slots[n - 1] {
            SlotView::Scalar { .. } => {},
            SlotView::Nested(inner) => {
                lemma_pending_addressed(inner, path);
            },
        }
        match staged.slots[n - 1].pending(path) {
            Some(change) => {
                assert(change.addressed_from(prefix));
                assert(pending == before.push(change));
                assert forall|k: int| 0 <= k < pending.len() implies (
                #[trigger] pending[k]).addressed_from(prefix) by {
                    if k < before.len() {
                        assert(pending[k] == before[k]);
                    }
                }
            },
            None => {
                assert(pending == before);
            },
        }
    }
}

/// The pending change set of a staging area is addressed from the path of
/// the record.
pub proof fn lemma_pending_addressed(staged: StagedView, prefix: Seq<usize>)
    ensures
        staged.pending(prefix).addressed_from(prefix),
    decreases staged, staged.slots.len() + 1,
{
    lemma_pending_prefix_addressed(staged, staged.slots.len(), prefix);
    assert(staged.pending(prefix).changes == staged.pending_prefix(staged.slots.len(), prefix));
}

} // verus!
