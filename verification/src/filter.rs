//! Selecting names: a list of requested names, matched without regard to
//! case, where an empty list selects every name.

use crate::order::{rank, Rank};
use vstd::prelude::*;

verus! {

/// The lower-case form of a name, as `str::to_lowercase` gives it.
pub uninterp spec fn lowercase(name: Seq<char>) -> Seq<char>;

/// `str::to_lowercase` returns the lower-case equivalent of the string as a
/// new `String`. The result depends on the characters of the string alone;
/// nothing more is claimed of it here than that it is the lower-case form
/// named above.
pub assume_specification[ str::to_lowercase ](s: &str) -> (lowered: String)
    ensures
        lowered@ == lowercase(s@),
;

/// The lower-case forms of the requested names, in the order of the request.
pub open spec fn folded(requested: Seq<Seq<char>>) -> Seq<Seq<char>> {
    requested.map_values(|name: Seq<char>| lowercase(name))
}

/// Whether a list of lower-case entries lets a lower-case candidate through:
/// an empty list lets every candidate through, any other only its entries.
pub open spec fn accepts(entries: Seq<Seq<char>>, candidate: Seq<char>) -> bool {
    entries.len() == 0 || entries.contains(candidate)
}

/// Whether a request selects a name: the request is empty, or one of its
/// names has the same lower-case form as the name.
pub open spec fn selected(requested: Seq<Seq<char>>, name: Seq<char>) -> bool {
    accepts(folded(requested), lowercase(name))
}

/// A list of requested names in lower case.
#[derive(Debug)]
pub struct Filter {
    entries: Vec<String>,
}

impl View for Filter {
    type V = Seq<Seq<char>>;

    closed spec fn view(&self) -> Seq<Seq<char>> {
        self.entries.deep_view()
    }
}

impl Filter {
    /// The filter for a request: its names in lower case.
    pub fn from_entries(entries: &Vec<String>) -> (filter: Filter)
        ensures
            filter@ == folded(entries.deep_view()),
    {
        let mut lowered: Vec<String> = Vec::new();
        let mut i: usize = 0;
        while i < entries.len()
            invariant
                i <= entries.len(),
                lowered.len() == i,
                forall|k: int| 0 <= k < i ==> (#[trigger] lowered[k])@ == lowercase(entries[k]@),
            decreases entries.len() - i,
        {
            lowered.push(entries[i].as_str().to_lowercase());
            i = i + 1;
        }
        let filter = Filter { entries: lowered };
        assert(filter@ =~= folded(entries.deep_view()));
        filter
    }

    /// Whether the filter selects `candidate`, compared without regard to
    /// case.
    pub fn filter(&self, candidate: &str) -> (selected: bool)
        ensures
            selected == accepts(self@, lowercase(candidate@)),
    {
        let lowered = candidate.to_lowercase();
        self.accepts(lowered.as_str())
    }

    /// Whether the filter lets through a candidate that is in lower case
    /// already: the filter is empty, or the candidate is one of its entries.
    pub fn accepts(&self, candidate: &str) -> (selected: bool)
        ensures
            selected == accepts(self@, candidate@),
    {
        if self.entries.is_empty() {
            return true;
        }
        let ghost all = self.entries.deep_view();
        let mut i: usize = 0;
        while i < self.entries.len()
            invariant
                i <= self.entries.len(),
                all == self.entries.deep_view(),
                forall|k: int| 0 <= k < i ==> #[trigger] all[k] != candidate@,
            decreases self.entries.len() - i,
        {
            if rank(self.entries[i].as_str(), candidate) == Rank::Same {
                assert(all[i as int] == candidate@);
                return true;
            }
            i = i + 1;
        }
        false
    }
}

} // verus!
