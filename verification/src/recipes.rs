//! Handles of elements.

use vstd::prelude::*;
use vstd::std_specs::cmp::PartialEqSpecImpl;
use vstd::std_specs::convert::FromSpecImpl;

verus! {

/// The name of an element, as the recipes know it.
///
/// Two handles are the same element exactly when their names are equal;
/// the view of a handle is its name.
#[derive(Debug, Eq, PartialOrd, Ord, Hash)]
pub struct ElementHandle(String);

impl View for ElementHandle {
    type V = Seq<char>;

    closed spec fn view(&self) -> Seq<char> {
        self.0@
    }
}

/// The names of a run of handles, one by one.
pub open spec fn names_view(handles: Seq<ElementHandle>) -> Seq<Seq<char>> {
    Seq::new(handles.len(), |i: int| handles[i]@)
}

/// A name that is new to a run without repeats leaves it without repeats.
pub proof fn lemma_push_fresh(before: Seq<ElementHandle>, handle: ElementHandle)
    requires
        names_view(before).no_duplicates(),
        forall|k: int| 0 <= k < before.len() ==> before[k]@ != handle@,
    ensures
        names_view(before.push(handle)).no_duplicates(),
{
    let after = names_view(before.push(handle));
    assert forall|a: int, b: int| 0 <= a < after.len() && 0 <= b < after.len() && a != b implies after[a]
        != after[b] by {
        if a < before.len() && b < before.len() {
            assert(names_view(before)[a] != names_view(before)[b]);
        }
    }
}

impl ElementHandle {
    /// The element's name.
    pub fn get_name(&self) -> (name: String)
        ensures
            name@ == self@,
    {
        self.0.clone()
    }
}

impl Clone for ElementHandle {
    fn clone(&self) -> (copy: Self)
        ensures
            copy@ == self@,
    {
        ElementHandle(self.0.clone())
    }
}

impl PartialEq for ElementHandle {
    fn eq(&self, other: &Self) -> (same: bool) {
        self.0 == other.0
    }
}

impl PartialEqSpecImpl for ElementHandle {
    open spec fn obeys_eq_spec() -> bool {
        true
    }

    open spec fn eq_spec(&self, other: &Self) -> bool {
        self@ == other@
    }
}

impl From<String> for ElementHandle {
    fn from(value: String) -> (handle: Self)
        ensures
            handle@ == value@,
    {
        ElementHandle(value)
    }
}

impl FromSpecImpl<String> for ElementHandle {
    open spec fn obeys_from_spec() -> bool {
        false
    }

    open spec fn from_spec(value: String) -> Self {
        arbitrary()
    }
}

impl<'a> From<&'a str> for ElementHandle {
    fn from(value: &'a str) -> (handle: Self)
        ensures
            handle@ == value@,
    {
        ElementHandle(value.to_owned())
    }
}

impl<'a> FromSpecImpl<&'a str> for ElementHandle {
    open spec fn obeys_from_spec() -> bool {
        false
    }

    open spec fn from_spec(value: &'a str) -> Self {
        arbitrary()
    }
}

} // verus!
