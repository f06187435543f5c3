use crate::entry::Entry;
use vstd::prelude::*;

verus! {

/// The order in which visible entries are listed.
#[derive(PartialEq, Eq, Clone, Copy, Debug, Structural)]
pub enum Sort {
    OpeningAscending,
    OpeningDescending,
    ClosingAscending,
    ClosingDescending,
}

impl Sort {
    /// The key that this order sorts by, ascending: a descending order sorts
    /// by the negated rank.
    pub open spec fn key(self, e: Entry) -> int {
        match self {
            Sort::OpeningAscending => e.or as int,
            Sort::OpeningDescending => -(e.or as int),
            Sort::ClosingAscending => e.cr as int,
            Sort::ClosingDescending => -(e.cr as int),
        }
    }

    /// Whether the entry at index `i` of `entries` comes before the one at
    /// index `j`: by key, and between equal keys by storage order.
    pub open spec fn precedes(self, entries: Seq<Entry>, i: int, j: int) -> bool {
        self.key(entries[i]) < self.key(entries[j]) || (self.key(entries[i]) == self.key(
            entries[j]) && i < j)
    }

    pub open spec fn label(self) -> Seq<char> {
        match self {
            Sort::OpeningAscending => "Ascending (OR)"@,
            Sort::OpeningDescending => "Descending (OR)"@,
            Sort::ClosingAscending => "Ascending (CR)"@,
            Sort::ClosingDescending => "Descending (CR)"@,
        }
    }

    /// Every order, in the order in which a chooser lists them.
    pub fn as_vec() -> (r: Vec<Sort>)
        ensures
            r@ == seq![
                Sort::OpeningAscending,
                Sort::OpeningDescending,
                Sort::ClosingAscending,
                Sort::ClosingDescending,
            ],
    {
        let r = vec![
            Sort::OpeningAscending,
            Sort::OpeningDescending,
            Sort::ClosingAscending,
            Sort::ClosingDescending,
        ];
        assert(r@ =~= seq![
            Sort::OpeningAscending,
            Sort::OpeningDescending,
            Sort::ClosingAscending,
            Sort::ClosingDescending,
        ]);
        r
    }

    /// The text shown for this order.
    pub fn to_string(&self) -> (r: String)
        ensures
            r@ == self.label(),
    {
        match self {
            Sort::OpeningAscending => String::from_str("Ascending (OR)"),
            Sort::OpeningDescending => String::from_str("Descending (OR)"),
            Sort::ClosingAscending => String::from_str("Ascending (CR)"),
            Sort::ClosingDescending => String::from_str("Descending (CR)"),
        }
    }

    /// Whether `a` may stand before `b`: the key of `a` is at most that of `b`.
    pub fn key_le(&self, a: &Entry, b: &Entry) -> (r: bool)
        ensures
            r == (self.key(*a) <= self.key(*b)),
    {
        match self {
            Sort::OpeningAscending => a.or <= b.or,
            Sort::OpeningDescending => b.or <= a.or,
            Sort::ClosingAscending => a.cr <= b.cr,
            Sort::ClosingDescending => b.cr <= a.cr,
        }
    }
}

impl Default for Sort {
    fn default() -> (r: Sort)
        ensures
            r == Sort::ClosingAscending,
    {
        Sort::ClosingAscending
    }
}

} // verus!
