//! Definition of a type representing a single row

use vstd::prelude::*;

use crate::util::{ColumnIndex, FIELD_WIDTH};

verus! {

broadcast use crate::util::group_index_bounds;

/// A single row within a field
///
/// This type is intended as an internal convenience utility for constructing
/// fields. It holds one value for each column.
pub struct Row<T> {
    data: Vec<T>,
}

impl<T> Row<T> {
    #[verifier::type_invariant]
    spec fn inv(self) -> bool {
        self.data.len() == FIELD_WIDTH
    }

    /// The value held for the given column
    pub closed spec fn spec_get(&self, column: int) -> T {
        self.data@[column]
    }
}

impl<T: Copy> Row<T> {
    /// Create a row holding the given value in every column
    pub fn new(value: T) -> (r: Self)
        ensures
            forall|c: int| 0 <= c < FIELD_WIDTH ==> #[trigger] r.spec_get(c) == value,
    {
        let mut data: Vec<T> = Vec::new();
        let mut i: usize = 0;
        while i < FIELD_WIDTH as usize
            invariant
                i <= FIELD_WIDTH,
                data.len() == i,
                forall|j: int| 0 <= j < i ==> #[trigger] data@[j] == value,
            decreases FIELD_WIDTH - i,
        {
            data.push(value);
            i = i + 1;
        }
        Row { data }
    }

    /// Retrieve the value held for the given column
    pub fn get(&self, column: ColumnIndex) -> (r: T)
        ensures
            r == self.spec_get(column@),
    {
        proof {
            use_type_invariant(self);
        }
        self.data[column.index()]
    }

    /// Replace the value held for the given column
    pub fn set(&mut self, column: ColumnIndex, value: T)
        ensures
            forall|c: int|
                0 <= c < FIELD_WIDTH ==> #[trigger] final(self).spec_get(c) == if c == column@ {
                    value
                } else {
                    old(self).spec_get(c)
                },
        no_unwind
    {
        proof {
            use_type_invariant(&*self);
        }
        let i = column.index();
        self.data[i] = value;
    }
}

} // verus!
