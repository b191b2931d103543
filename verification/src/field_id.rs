//! Hierarchical field addresses.

use vstd::prelude::*;

verus! {

/// The address of one field inside a possibly nested record: one zero-based
/// field index per nesting level, outermost first.
#[derive(Debug)]
pub struct FieldId(Vec<usize>);

impl View for FieldId {
    type V = Seq<usize>;

    closed spec fn view(&self) -> Seq<usize> {
        self.0@
    }
}

impl FieldId {
    /// The empty path, which addresses the root record itself.
    pub fn root() -> (r: Self)
        ensures
            r@ == Seq::<usize>::empty(),
    {
        FieldId(Vec::new())
    }

    /// The number of nesting levels this path descends.
    pub fn len(&self) -> (n: usize)
        ensures
            n == self@.len(),
    {
        self.0.len()
    }

    /// A path is stored in memory, so its length is a machine integer.
    pub proof fn lemma_len_bounded(&self)
        ensures
            self@.len() <= usize::MAX,
    {
        assert(self.0@.len() == self.0.len());
    }

    /// A new path that extends this one by `child_field`; the receiver is
    /// left as it was.
    pub fn push_field(&self, child_field: usize) -> (r: Self)
        ensures
            r@ == self@.push(child_field),
    {
        let mut new = self.clone();
        new.0.push(child_field);
        new
    }

    /// The field index stored for nesting level `depth`.
    pub fn field_index(&self, depth: usize) -> (i: usize)
        requires
            depth < self@.len(),
        ensures
            i == self@[depth as int],
    {
        self.0[depth]
    }
}

impl Clone for FieldId {
    fn clone(&self) -> (r: Self)
        ensures
            r@ == self@,
    {
        let mut indices: Vec<usize> = Vec::new();
        let mut i: usize = 0;
        while i < self.0.len()
            invariant
                i <= self.0.len(),
                indices@ == self.0@.take(i as int),
            decreases self.0.len() - i,
        {
            indices.push(self.0[i]);
            i += 1;
        }
        assert(self.0@.take(self.0.len() as int) == self.0@);
        FieldId(indices)
    }
}

impl Default for FieldId {
    fn default() -> (r: Self)
        ensures
            r@ == Seq::<usize>::empty(),
    {
        FieldId::root()
    }
}

impl PartialEq for FieldId {
    fn eq(&self, other: &Self) -> (r: bool) {
        if self.0.len() != other.0.len() {
            return false;
        }
        let mut i: usize = 0;
        while i < self.0.len()
            invariant
                i <= self.0.len(),
                self.0.len() == other.0.len(),
                self.0@.take(i as int) == other.0@.take(i as int),
            decreases self.0.len() - i,
        {
            if self.0[i] != other.0[i] {
                return false;
            }
            assert(self.0@.take(i + 1) == self.0@.take(i as int).push(self.0@[i as int]));
            assert(other.0@.take(i + 1) == other.0@.take(i as int).push(other.0@[i as int]));
            i += 1;
        }
        assert(self.0@.take(self.0.len() as int) == self.0@);
        assert(other.0@.take(other.0.len() as int) == other.0@);
        true
    }
}

impl vstd::std_specs::cmp::PartialEqSpecImpl for FieldId {
    open spec fn obeys_eq_spec() -> bool {
        true
    }

    open spec fn eq_spec(&self, other: &Self) -> bool {
        self@ == other@
    }
}

impl Eq for FieldId {

}

} // verus!
