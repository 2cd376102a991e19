//! The payload of a run: one value for all identifiers, or one for each.

use crate::keyed::{texts, StringMap};
use vstd::prelude::*;

verus! {

/// The value to apply.
#[derive(Debug)]
pub enum NewValue {
    /// The same value for every identifier.
    Single(String),
    /// A value for each identifier, by identifier.
    List(StringMap<String>),
}

/// Mathematical value of a [`NewValue`].
pub enum NewValueView {
    Single(Seq<char>),
    List(Map<Seq<char>, Seq<char>>),
}

impl View for NewValue {
    type V = NewValueView;

    open spec fn view(&self) -> NewValueView {
        match self {
            NewValue::Single(value) => NewValueView::Single(value@),
            NewValue::List(values) => NewValueView::List(values@.map_values(|s: String| s@)),
        }
    }
}

/// The value that `payload` holds for `identifier`, if it holds one.
pub open spec fn value_of(payload: NewValueView, identifier: Seq<char>) -> Option<Seq<char>> {
    match payload {
        NewValueView::Single(value) => Some(value),
        NewValueView::List(values) => if values.contains_key(identifier) {
            Some(values[identifier])
        } else {
            None
        },
    }
}

/// Whether `payload` holds a value for every one of `identifiers`.
pub open spec fn covers(payload: NewValueView, identifiers: Seq<Seq<char>>) -> bool {
    forall|i: int| 0 <= i < identifiers.len() ==> value_of(payload, #[trigger] identifiers[i]) is Some
}

impl NewValue {
    /// A list of values is a well-formed map.
    pub open spec fn wf(&self) -> bool {
        match self {
            NewValue::Single(_) => true,
            NewValue::List(values) => values.wf(),
        }
    }

    /// The value for `identifier`, if there is one.
    pub fn value_for(&self, identifier: &String) -> (value: Option<&String>)
        requires
            self.wf(),
        ensures
            match value {
                Some(v) => value_of(self@, identifier@) == Some(v@),
                None => value_of(self@, identifier@) is None,
            },
    {
        match self {
            NewValue::Single(value) => Some(value),
            NewValue::List(values) => values.get(identifier),
        }
    }

    /// The index of the first of `identifiers` for which there is no value;
    /// `None` when every one of them has a value.
    pub fn first_missing(&self, identifiers: &Vec<String>) -> (at: Option<usize>)
        requires
            self.wf(),
        ensures
            match at {
                Some(i) => {
                    &&& i < identifiers.len()
                    &&& value_of(self@, identifiers[i as int]@) is None
                    &&& forall|j: int| 0 <= j < i ==> value_of(self@, #[trigger] identifiers[j]@) is Some
                },
                None => covers(self@, texts(identifiers@)),
            },
            at is None <==> covers(self@, texts(identifiers@)),
    {
        let mut i: usize = 0;
        while i < identifiers.len()
            invariant
                self.wf(),
                i <= identifiers.len(),
                forall|j: int| 0 <= j < i ==> value_of(self@, #[trigger] identifiers[j]@) is Some,
            decreases identifiers.len() - i,
        {
            if self.value_for(&identifiers[i]).is_none() {
                assert(texts(identifiers@)[i as int] == identifiers[i as int]@);
                return Some(i);
            }
            i = i + 1;
        }
        assert forall|j: int| 0 <= j < texts(identifiers@).len() implies value_of(
            self@,
            #[trigger] texts(identifiers@)[j],
        ) is Some by {
            assert(texts(identifiers@)[j] == identifiers[j]@);
        }
        None
    }
}

} // verus!
