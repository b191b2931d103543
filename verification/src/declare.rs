//! Declarations of record types: which of the declared fields are tracked,
//! which of them are nested records, and the names of their accessors.

use crate::record::{lemma_record_view, Field, Record, RecordView};
use crate::staged::{Staged, StagedView};
use vstd::pervasive::unreached;
use vstd::prelude::*;

verus! {

/// What kind of item a declaration is.
#[derive(Clone, Copy, PartialEq, Eq, Structural, Debug)]
pub enum ItemKind {
    Struct,
    Enum,
    Union,
}

/// One entry between the parentheses of an attribute.
#[derive(PartialEq, Eq, Debug)]
pub enum MetaItem {
    /// A bare word, as `flatten` in `track(flatten)`.
    Word(String),
    /// Anything else: a literal, a key with a value, a list.
    Other,
}

/// The content of an attribute.
#[derive(PartialEq, Eq, Debug)]
pub enum AttrMeta {
    /// A name followed by a list in parentheses.
    List(Vec<MetaItem>),
    /// A bare name, or a name with a value.
    Other,
}

/// An attribute on a field.
#[derive(PartialEq, Eq, Debug)]
pub struct AttrDecl {
    /// The name of the attribute if it is a single word.
    pub name: Option<String>,
    pub meta: AttrMeta,
}

/// The declared type of a field.
#[derive(PartialEq, Eq, Debug)]
pub enum TypeDecl {
    /// A type written as a single name.
    Named(String),
    /// Any other type.
    Other,
}

/// A declared field.
#[derive(PartialEq, Eq, Debug)]
pub struct FieldDecl {
    /// The name of the field; a field of a tuple struct has none.
    pub ident: Option<String>,
    pub attrs: Vec<AttrDecl>,
    pub ty: TypeDecl,
}

/// A declared item.
#[derive(PartialEq, Eq, Debug)]
pub struct ItemDecl {
    pub kind: ItemKind,
    pub fields: Vec<FieldDecl>,
}

/// Why a declaration cannot be tracked.
#[derive(Clone, Copy, PartialEq, Eq, Structural, Debug)]
pub enum DeriveError {
    /// The item is an enum.
    Enum,
    /// The item is a union.
    Union,
    /// A field has no name.
    TupleStruct,
    /// A `track` attribute is not a list.
    UnrecognizedAttribute,
    /// A field is marked as a nested record, but its type is not a single
    /// name.
    FlattenedType,
}

/// A field of a tracked record.
#[derive(PartialEq, Eq, Debug)]
pub struct TrackedField {
    /// The position of the field in the declaration.
    pub index: usize,
    /// The name of the field.
    pub ident: String,
    /// For a nested record, the name of its type.
    pub flattened_ident: Option<String>,
}

/// The mathematical content of a [`TrackedField`].
pub struct TrackedFieldView {
    pub index: int,
    pub ident: Seq<char>,
    pub flattened_ident: Option<Seq<char>>,
}

impl View for TrackedField {
    type V = TrackedFieldView;

    open spec fn view(&self) -> TrackedFieldView {
        TrackedFieldView {
            index: self.index as int,
            ident: self.ident@,
            flattened_ident: match self.flattened_ident {
                Some(name) => Some(name@),
                None => None,
            },
        }
    }
}

/// The views of a list of tracked fields, in order.
pub open spec fn tracked_view(fields: Seq<TrackedField>) -> Seq<TrackedFieldView> {
    Seq::new(fields.len(), |i: int| fields[i]@)
}

/// Whether the attribute is named `track`.
pub open spec fn is_track(attr: AttrDecl) -> bool {
    attr.name matches Some(name) && name@ == "track"@
}

/// The entries of a `track` attribute; an attribute of another name has
/// none, and a `track` attribute that is not a list is an error.
pub open spec fn meta_items(attr: AttrDecl) -> Result<Seq<MetaItem>, DeriveError> {
    if is_track(attr) {
        match attr.meta {
            AttrMeta::List(items) => Ok(items@),
            AttrMeta::Other => Err(DeriveError::UnrecognizedAttribute),
        }
    } else {
        Ok(Seq::empty())
    }
}

/// Whether one of the entries is the word `flatten`.
pub open spec fn names_flatten(items: Seq<MetaItem>) -> bool {
    exists|k: int|
        0 <= k < items.len() && (#[trigger] items[k] matches MetaItem::Word(word) && word@
            == "flatten"@)
}

/// Whether one of the first `n` attributes marks the field as a nested
/// record. The attributes are read in order, up to the first that does or
/// that is in error.
pub open spec fn flattened_by(attrs: Seq<AttrDecl>, n: nat) -> Result<bool, DeriveError>
    decreases n,
{
    if n == 0 || n > attrs.len() {
        Ok(false)
    } else {
        match flattened_by(attrs, (n - 1) as nat) {
            Err(error) => Err(error),
            Ok(true) => Ok(true),
            Ok(false) => match meta_items(attrs[n - 1]) {
                Err(error) => Err(error),
                Ok(items) => Ok(names_flatten(items)),
            },
        }
    }
}

/// What is tracked of the named field at position `index`.
pub open spec fn tracked_field(field: FieldDecl, index: int) -> Result<
    TrackedFieldView,
    DeriveError,
> {
    match flattened_by(field.attrs@, field.attrs.len() as nat) {
        Err(error) => Err(error),
        Ok(false) => Ok(
            TrackedFieldView { index, ident: field.ident->0@, flattened_ident: None },
        ),
        Ok(true) => match field.ty {
            TypeDecl::Named(name) => Ok(
                TrackedFieldView { index, ident: field.ident->0@, flattened_ident: Some(name@) },
            ),
            TypeDecl::Other => Err(DeriveError::FlattenedType),
        },
    }
}

/// What is tracked of the first `n` fields, read in order up to the first
/// that is in error.
pub open spec fn tracked_prefix(fields: Seq<FieldDecl>, n: nat) -> Result<
    Seq<TrackedFieldView>,
    DeriveError,
>
    decreases n,
{
    if n == 0 || n > fields.len() {
        Ok(Seq::empty())
    } else {
        match tracked_prefix(fields, (n - 1) as nat) {
            Err(error) => Err(error),
            Ok(before) => match tracked_field(fields[n - 1], n - 1) {
                Err(error) => Err(error),
                Ok(field) => Ok(before.push(field)),
            },
        }
    }
}

/// The tracked fields of a declared item. Only a struct whose fields all
/// have names can be tracked; its fields are tracked in declaration order.
pub open spec fn tracked_of(item: ItemDecl) -> Result<Seq<TrackedFieldView>, DeriveError> {
    match item.kind {
        ItemKind::Enum => Err(DeriveError::Enum),
        ItemKind::Union => Err(DeriveError::Union),
        ItemKind::Struct => if exists|i: int|
            0 <= i < item.fields.len() && (#[trigger] item.fields[i]).ident is None {
            Err(DeriveError::TupleStruct)
        } else {
            tracked_prefix(item.fields@, item.fields.len() as nat)
        },
    }
}

/// The entries of a `track` attribute, `None` for an attribute of another
/// name.
pub fn get_meta_items(attr: &AttrDecl) -> (items: Result<Option<&Vec<MetaItem>>, DeriveError>)
    ensures
        meta_items(*attr) == (match items {
            Ok(Some(list)) => Ok(list@),
            Ok(None) => Ok(Seq::empty()),
            Err(error) => Err(error),
        }),
        items matches Ok(None) ==> !is_track(*attr),
{
    let track = "track".to_owned();
    let named_track = match &attr.name {
        Some(name) => *name == track,
        None => false,
    };
    if named_track {
        match &attr.meta {
            AttrMeta::List(items) => Ok(Some(items)),
            AttrMeta::Other => Err(DeriveError::UnrecognizedAttribute),
        }
    } else {
        Ok(None)
    }
}

/// Whether one of the entries is the word `flatten`.
pub fn has_flatten(items: &Vec<MetaItem>) -> (found: bool)
    ensures
        found == names_flatten(items@),
{
    let flatten = "flatten".to_owned();
    let mut k: usize = 0;
    while k < items.len()
        invariant
            k <= items.len(),
            flatten@ == "flatten"@,
            forall|j: int|
                0 <= j < k ==> !(#[trigger] items[j] matches MetaItem::Word(word) && word@
                    == "flatten"@),
        decreases items.len() - k,
    {
        match &items[k] {
            MetaItem::Word(word) => {
                if *word == flatten {
                    return true;
                }
            },
            MetaItem::Other => {},
        }
        k += 1;
    }
    false
}

/// Whether the attributes of a field mark it as a nested record.
pub fn is_flattened(attrs: &Vec<AttrDecl>) -> (flattened: Result<bool, DeriveError>)
    ensures
        flattened == flattened_by(attrs@, attrs.len() as nat),
{
    let mut n: usize = 0;
    while n < attrs.len()
        invariant
            n <= attrs.len(),
            flattened_by(attrs@, n as nat) == Ok::<bool, DeriveError>(false),
        decreases attrs.len() - n,
    {
        let found = match get_meta_items(&attrs[n]) {
            Err(error) => {
                proof {
                    lemma_flattened_by_settled(attrs@, (n + 1) as nat, attrs.len() as nat);
                }
                return Err(error);
            },
            Ok(None) => false,
            Ok(Some(items)) => has_flatten(items),
        };
        if found {
            proof {
                lemma_flattened_by_settled(attrs@, (n + 1) as nat, attrs.len() as nat);
            }
            return Ok(true);
        }
        n += 1;
    }
    Ok(false)
}

/// Once an attribute has settled the question, the attributes after it are
/// not read.
pub proof fn lemma_flattened_by_settled(attrs: Seq<AttrDecl>, n: nat, m: nat)
    requires
        n <= m <= attrs.len(),
        flattened_by(attrs, n) != Ok::<bool, DeriveError>(false),
    ensures
        flattened_by(attrs, m) == flattened_by(attrs, n),
    decreases m,
{
    if n < m {
        lemma_flattened_by_settled(attrs, n, (m - 1) as nat);
    }
}

/// The name of the type of a nested record.
pub fn flattened_struct_ident(ty: &TypeDecl) -> (name: Result<String, DeriveError>)
    ensures
        match *ty {
            TypeDecl::Named(declared) => name matches Ok(found) && found@ == declared@,
            TypeDecl::Other => name == Err::<String, DeriveError>(DeriveError::FlattenedType),
        },
{
    match ty {
        TypeDecl::Named(name) => Ok(name.clone()),
        TypeDecl::Other => Err(DeriveError::FlattenedType),
    }
}

/// The tracked fields of a declared item, or the reason why it cannot be
/// tracked: the first in the order kind of item, fields without a name,
/// fields from first to last.
pub fn tracked_fields(item: &ItemDecl) -> (fields: Result<Vec<TrackedField>, DeriveError>)
    ensures
        match fields {
            Ok(list) => tracked_of(*item) == Ok::<Seq<TrackedFieldView>, DeriveError>(
                tracked_view(list@),
            ),
            Err(error) => tracked_of(*item) == Err::<Seq<TrackedFieldView>, DeriveError>(error),
        },
{
    match item.kind {
        ItemKind::Enum => {
            return Err(DeriveError::Enum);
        },
        ItemKind::Union => {
            return Err(DeriveError::Union);
        },
        ItemKind::Struct => {},
    }
    let mut i: usize = 0;
    while i < item.fields.len()
        invariant
            i <= item.fields.len(),
            item.kind == ItemKind::Struct,
            forall|j: int| 0 <= j < i ==> (#[trigger] item.fields[j]).ident is Some,
        decreases item.fields.len() - i,
    {
        if item.fields[i].ident.is_none() {
            assert(item.fields[i as int].ident is None);
            return Err(DeriveError::TupleStruct);
        }
        i += 1;
    }
    let mut fields: Vec<TrackedField> = Vec::new();
    let mut n: usize = 0;
    assert(tracked_view(fields@) =~= Seq::empty());
    while n < item.fields.len()
        invariant
            n <= item.fields.len(),
            item.kind == ItemKind::Struct,
            forall|j: int| 0 <= j < item.fields.len() ==> (#[trigger] item.fields[j]).ident is Some,
            tracked_prefix(item.fields@, n as nat) == Ok::<Seq<TrackedFieldView>, DeriveError>(
                tracked_view(fields@),
            ),
        decreases item.fields.len() - n,
    {
        let field = &item.fields[n];
        let ident = match &field.ident {
            Some(ident) => ident.clone(),
            None => unreached(),
        };
        let flattened_ident = match is_flattened(&field.attrs) {
            Err(error) => {
                proof {
                    assert(tracked_field(item.fields@[n as int], n as int) == Err::<
                        TrackedFieldView,
                        DeriveError,
                    >(error));
                    assert(tracked_prefix(item.fields@, (n + 1) as nat) == Err::<
                        Seq<TrackedFieldView>,
                        DeriveError,
                    >(error));
                    lemma_tracked_prefix_settled(
                        item.fields@,
                        (n + 1) as nat,
                        item.fields.len() as nat,
                    );
                }
                return Err(error);
            },
            Ok(false) => None,
            Ok(true) => match flattened_struct_ident(&field.ty) {
                Err(error) => {
                    proof {
                        assert(tracked_field(item.fields@[n as int], n as int) == Err::<
                            TrackedFieldView,
                            DeriveError,
                        >(error));
                        assert(tracked_prefix(item.fields@, (n + 1) as nat) == Err::<
                            Seq<TrackedFieldView>,
                            DeriveError,
                        >(error));
                        lemma_tracked_prefix_settled(
                            item.fields@,
                            (n + 1) as nat,
                            item.fields.len() as nat,
                        );
                    }
                    return Err(error);
                },
                Ok(name) => Some(name),
            },
        };
        let ghost before = tracked_view(fields@);
        let entry = TrackedField { index: n, ident, flattened_ident };
        fields.push(entry);
        proof {
            assert(tracked_view(fields@) =~= before.push(entry@));
        }
        n += 1;
    }
    Ok(fields)
}

/// Once a field is in error, the fields after it are not read.
pub proof fn lemma_tracked_prefix_settled(fields: Seq<FieldDecl>, n: nat, m: nat)
    requires
        n <= m <= fields.len(),
        tracked_prefix(fields, n) is Err,
    ensures
        tracked_prefix(fields, m) == tracked_prefix(fields, n),
    decreases m,
{
    if n < m {
        lemma_tracked_prefix_settled(fields, n, (m - 1) as nat);
    }
}

impl DeriveError {
    /// The text that reports this error.
    pub open spec fn message_text(self) -> Seq<char> {
        match self {
            DeriveError::Enum => "Cannot derive Undo for enums"@,
            DeriveError::Union => "Cannot derive Undo for unions"@,
            DeriveError::TupleStruct => "Cannot derive Undo for tuple structs"@,
            DeriveError::UnrecognizedAttribute => "unrecognized attribute"@,
            DeriveError::FlattenedType => "a flattened field must have a struct name as its type"@,
        }
    }

    /// The text that reports this error.
    pub fn message(&self) -> (text: String)
        ensures
            text@ == self.message_text(),
    {
        match self {
            DeriveError::Enum => "Cannot derive Undo for enums".to_owned(),
            DeriveError::Union => "Cannot derive Undo for unions".to_owned(),
            DeriveError::TupleStruct => "Cannot derive Undo for tuple structs".to_owned(),
            DeriveError::UnrecognizedAttribute => "unrecognized attribute".to_owned(),
            DeriveError::FlattenedType => "a flattened field must have a struct name as its type".to_owned(),
        }
    }
}

/// `String::push_str` of the standard library: afterwards `text` is what it
/// was, followed by `tail`.
#[verifier::external_body]
fn push_str(text: &mut String, tail: &str)
    ensures
        final(text)@ == old(text)@ + tail@,
{
    text.push_str(tail);
}

/// The name of the draft type of record type `ident`.
pub fn create_draft_ident(ident: &str) -> (name: String)
    ensures
        name@ == ident@ + "Draft"@,
{
    let mut name = ident.to_owned();
    push_str(&mut name, "Draft");
    name
}

/// The name of the draft type of record type `ident` where it is a nested
/// record.
pub fn create_nested_draft_ident(ident: &str) -> (name: String)
    ensures
        name@ == ident@ + "NestedDraft"@,
{
    let mut name = ident.to_owned();
    push_str(&mut name, "NestedDraft");
    name
}

/// The name of the dirty check of field `ident`.
pub fn create_dirty_check_ident(ident: &str) -> (name: String)
    ensures
        name@ == "is_"@ + ident@ + "_dirty"@,
{
    let mut name = "is_".to_owned();
    push_str(&mut name, ident);
    push_str(&mut name, "_dirty");
    name
}

/// The name of the reset of field `ident`.
pub fn create_resetter_ident(ident: &str) -> (name: String)
    ensures
        name@ == "reset_"@ + ident@,
{
    let mut name = "reset_".to_owned();
    push_str(&mut name, ident);
    name
}

/// The name of the accessor to the draft of nested record `ident`.
pub fn create_editor_ident(ident: &str) -> (name: String)
    ensures
        name@ == "edit_"@ + ident@,
{
    let mut name = "edit_".to_owned();
    push_str(&mut name, ident);
    name
}

/// The name of the getter of scalar field `ident`.
pub fn create_getter_ident(ident: &str) -> (name: String)
    ensures
        name@ == "get_"@ + ident@,
{
    let mut name = "get_".to_owned();
    push_str(&mut name, ident);
    name
}

/// The name of the setter of scalar field `ident`.
pub fn create_setter_ident(ident: &str) -> (name: String)
    ensures
        name@ == "set_"@ + ident@,
{
    let mut name = "set_".to_owned();
    push_str(&mut name, ident);
    name
}

/// Whether a record has the fields that a declaration lists: as many, and a
/// nested record exactly where the declaration marks one.
pub open spec fn describes(fields: Seq<TrackedField>, record: RecordView) -> bool {
    &&& fields.len() == record.fields.len()
    &&& forall|i: int|
        0 <= i < fields.len() ==> ((#[trigger] fields[i]).flattened_ident is Some
            <==> record.fields[i] is Nested)
}

/// Whether `record` has the fields that the declaration lists.
pub fn matches_declaration(fields: &Vec<TrackedField>, record: &Record) -> (ok: bool)
    ensures
        ok == describes(fields@, record@),
{
    proof {
        lemma_record_view(*record);
    }
    if fields.len() != record.fields.len() {
        return false;
    }
    let mut i: usize = 0;
    while i < fields.len()
        invariant
            i <= fields.len(),
            fields.len() == record.fields.len(),
            record@.fields.len() == record.fields.len(),
            forall|j: int|
                0 <= j < record.fields.len() ==> record@.fields[j] == #[trigger] record.fields[j]@,
            forall|j: int|
                0 <= j < i ==> ((#[trigger] fields[j]).flattened_ident is Some
                    <==> record@.fields[j] is Nested),
        decreases fields.len() - i,
    {
        let nested = match &record.fields[i] {
            Field::Nested(_) => true,
            Field::Scalar(_) => false,
        };
        if fields[i].flattened_ident.is_some() != nested {
            assert(!(fields[i as int].flattened_ident is Some <==> record@.fields[i as int] is Nested));
            return false;
        }
        i += 1;
    }
    true
}

/// Whether a staging area has the slots that a declaration lists: as many,
/// and that of a nested record exactly where the declaration marks one.
pub open spec fn describes_staged(fields: Seq<TrackedField>, staged: StagedView) -> bool {
    &&& fields.len() == staged.slots.len()
    &&& forall|i: int|
        0 <= i < fields.len() ==> ((#[trigger] fields[i]).flattened_ident is Some
            <==> staged.slots[i] is Nested)
}

/// Whether the draft that `staged` belongs to is that of a record with the
/// fields that the declaration lists.
pub fn matches_staged(fields: &Vec<TrackedField>, staged: &Staged) -> (ok: bool)
    ensures
        ok == describes_staged(fields@, staged@),
{
    if fields.len() != staged.len() {
        return false;
    }
    let mut i: usize = 0;
    while i < fields.len()
        invariant
            i <= fields.len(),
            fields.len() == staged@.slots.len(),
            forall|j: int|
                0 <= j < i ==> ((#[trigger] fields[j]).flattened_ident is Some
                    <==> staged@.slots[j] is Nested),
        decreases fields.len() - i,
    {
        if fields[i].flattened_ident.is_some() != staged.scalar_type(i).is_none() {
            assert(!(fields[i as int].flattened_ident is Some <==> staged@.slots[i as int] is Nested));
            return false;
        }
        i += 1;
    }
    true
}

} // verus!
