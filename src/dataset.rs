use crate::entry::{Entry, InstituteKind};
use crate::filters::{lemma_disable_value, Field, Filters};
use crate::options::Options;
use crate::sort::Sort;
use crate::str_map::StrMap;
use vstd::prelude::*;

verus! {

/// Why a dataset could not be loaded.
#[derive(PartialEq, Eq, Clone, Copy, Debug, Structural)]
pub enum LoadError {
    /// The backing store could not be opened or read.
    SourceUnavailable,
    /// The backing store lacks an expected column, or a column has the wrong type.
    SchemaMismatch,
    /// The year or round has no data; nothing was read.
    InvalidSelection,
}

/// Some position of `order` holds `i`.
pub open spec fn has_index(order: Seq<usize>, i: int) -> bool {
    exists|k: int| 0 <= k < order.len() && order[k] == i
}

/// `order` lists every index of `entries` once, in the order that `sort` gives.
pub open spec fn is_sorted_order(entries: Seq<Entry>, sort: Sort, order: Seq<usize>) -> bool {
    &&& order.len() == entries.len()
    &&& forall|k: int| 0 <= k < order.len() ==> #[trigger] order[k] < entries.len()
    &&& forall|k: int, l: int|
        0 <= k < l < order.len() ==> sort.precedes(
            entries,
            #[trigger] order[k] as int,
            #[trigger] order[l] as int,
        )
    &&& forall|i: int| 0 <= i < entries.len() ==> #[trigger] has_index(order, i)
}

/// `v` lists the indices of exactly the entries that `filters` accepts, in
/// the order that `sort` gives: by key, and between equal keys by storage
/// order.
pub open spec fn is_view_order(entries: Seq<Entry>, filters: Filters, sort: Sort, v: Seq<usize>) -> bool {
    &&& forall|k: int| 0 <= k < v.len() ==> #[trigger] v[k] < entries.len()
    &&& forall|k: int| 0 <= k < v.len() ==> filters.accepts(entries[#[trigger] v[k] as int])
    &&& forall|k: int, l: int|
        0 <= k < l < v.len() ==> sort.precedes(entries, #[trigger] v[k] as int, #[trigger] v[l] as int)
    &&& forall|i: int|
        0 <= i < entries.len() ==> (#[trigger] has_index(v, i) <==> filters.accepts(entries[i]))
}

/// The indices of `entries`, sorted by `sort`; equal keys keep storage order.
fn sorted_order(entries: &Vec<Entry>, sort: Sort) -> (r: Vec<usize>)
    ensures
        is_sorted_order(entries@, sort, r@),
{
    let mut order: Vec<usize> = Vec::new();
    let mut i: usize = 0;
    while i < entries.len()
        invariant
            i <= entries@.len(),
            order@.len() == i,
            forall|k: int| 0 <= k < order@.len() ==> #[trigger] order@[k] < i,
            forall|k: int, l: int|
                0 <= k < l < order@.len() ==> sort.precedes(
                    entries@,
                    #[trigger] order@[k] as int,
                    #[trigger] order@[l] as int,
                ),
            forall|j: int| 0 <= j < i ==> #[trigger] has_index(order@, j),
        decreases entries@.len() - i,
    {
        let ghost ki = sort.key(entries@[i as int]);
        let mut lo: usize = 0;
        let mut hi: usize = order.len();
        while lo < hi
            invariant
                i < entries@.len(),
                ki == sort.key(entries@[i as int]),
                order@.len() == i,
                lo <= hi <= order@.len(),
                forall|k: int| 0 <= k < order@.len() ==> #[trigger] order@[k] < i,
                forall|k: int, l: int|
                    0 <= k < l < order@.len() ==> sort.precedes(
                        entries@,
                        #[trigger] order@[k] as int,
                        #[trigger] order@[l] as int,
                    ),
                forall|q: int| 0 <= q < lo ==> sort.key(entries@[#[trigger] order@[q] as int]) <= ki,
                forall|q: int|
                    hi <= q < order@.len() ==> sort.key(entries@[#[trigger] order@[q] as int]) > ki,
            decreases hi - lo,
        {
            let mid = lo + (hi - lo) / 2;
            if sort.key_le(&entries[order[mid]], &entries[i]) {
                proof {
                    assert forall|q: int| 0 <= q < mid + 1 implies sort.key(
                        entries@[#[trigger] order@[q] as int],
                    ) <= ki by {
                        if q < mid {
                            assert(sort.precedes(entries@, order@[q] as int, order@[mid as int] as int));
                        }
                    }
                }
                lo = mid + 1;
            } else {
                proof {
                    assert forall|q: int| mid <= q < order@.len() implies sort.key(
                        entries@[#[trigger] order@[q] as int],
                    ) > ki by {
                        if q > mid {
                            assert(sort.precedes(entries@, order@[mid as int] as int, order@[q] as int));
                        }
                    }
                }
                hi = mid;
            }
        }
        let ghost old_order = order@;
        let p = lo;
        order.insert(p, i);
        proof {
            assert(order@ == old_order.insert(p as int, i));
            assert forall|k: int| 0 <= k < order@.len() implies #[trigger] order@[k] < i + 1 by {
                if k < p {
                    assert(order@[k] == old_order[k]);
                } else if k > p {
                    assert(order@[k] == old_order[k - 1]);
                }
            }
            assert forall|k: int, l: int| 0 <= k < l < order@.len() implies sort.precedes(
                entries@,
                #[trigger] order@[k] as int,
                #[trigger] order@[l] as int,
            ) by {
                if l < p {
                    assert(sort.precedes(entries@, old_order[k] as int, old_order[l] as int));
                } else if l == p {
                    assert(order@[k] == old_order[k]);
                    assert(sort.key(entries@[old_order[k] as int]) <= ki);
                } else if k < p {
                    assert(sort.precedes(entries@, old_order[k] as int, old_order[l - 1] as int));
                } else if k == p {
                    assert(order@[l] == old_order[l - 1]);
                    assert(sort.key(entries@[old_order[l - 1] as int]) > ki);
                } else {
                    assert(sort.precedes(entries@, old_order[k - 1] as int, old_order[l - 1] as int));
                }
            }
            assert forall|j: int| 0 <= j < i + 1 implies #[trigger] has_index(order@, j) by {
                if j == i {
                    assert(order@[p as int] == i);
                } else {
                    assert(has_index(old_order, j));
                    let k = choose|k: int| 0 <= k < old_order.len() && old_order[k] == j;
                    if k < p {
                        assert(order@[k] == j);
                    } else {
                        assert(order@[k + 1] == j);
                    }
                }
            }
        }
        i = i + 1;
    }
    order
}

/// The loaded entries of one year and round, with the current filter
/// selection and sort order.
///
/// Entries stay in storage order; the sort order is kept as a list of
/// indices into them.
pub struct Dataset {
    source: Option<Options>,
    entries: Vec<Entry>,
    order: Vec<usize>,
    filters: Filters,
    sort: Sort,
}

impl Dataset {
    /// The year and round that are loaded, if any.
    pub closed spec fn spec_source(&self) -> Option<Options> {
        self.source
    }

    /// The loaded entries, in storage order.
    pub closed spec fn spec_entries(&self) -> Seq<Entry> {
        self.entries@
    }

    pub closed spec fn spec_filters(&self) -> Filters {
        self.filters
    }

    pub closed spec fn spec_sort(&self) -> Sort {
        self.sort
    }

    /// The sort order lists every entry once, in the order of the current sort.
    pub closed spec fn wf(&self) -> bool {
        is_sorted_order(self.entries@, self.sort, self.order@)
    }

    /// `v` lists the indices of the visible entries in display order.
    pub open spec fn is_view(&self, v: Seq<usize>) -> bool {
        is_view_order(self.spec_entries(), self.spec_filters(), self.spec_sort(), v)
    }

    /// A dataset with nothing loaded.
    pub fn new() -> (r: Dataset)
        ensures
            r.wf(),
            r.spec_source().is_none(),
            r.spec_entries() == Seq::<Entry>::empty(),
            r.spec_sort() == Sort::ClosingAscending,
            r.spec_filters().wf(),
    {
        let entries: Vec<Entry> = Vec::new();
        let order = sorted_order(&entries, Sort::ClosingAscending);
        Dataset {
            source: None,
            entries,
            order,
            filters: Filters::default(),
            sort: Sort::ClosingAscending,
        }
    }

    pub fn is_loaded(&self) -> (r: bool)
        ensures
            r == self.spec_source().is_some(),
    {
        self.source.is_some()
    }

    /// Whether `options` names a dataset, and if so whether it differs from
    /// the one loaded, so that it has to be read.
    pub fn needs_load(&self, options: &Options) -> (r: Result<bool, LoadError>)
        ensures
            !options.spec_is_valid() ==> r == Err::<bool, LoadError>(LoadError::InvalidSelection),
            options.spec_is_valid() ==> r == Ok::<bool, LoadError>(self.spec_source() != Some(*options)),
    {
        if !options.is_valid() {
            return Err(LoadError::InvalidSelection);
        }
        match self.source {
            Some(current) => Ok(!(current.year == options.year && current.round == options.round)),
            None => Ok(true),
        }
    }

    /// Loads the entries and institute classification read for `options`.
    ///
    /// An invalid choice is refused and changes nothing; the choice that is
    /// already loaded changes nothing either. Otherwise the entries are
    /// replaced, the filters derived afresh from them, and the sort order
    /// reset.
    pub fn load(&mut self, options: &Options, entries: Vec<Entry>, kinds: Vec<InstituteKind>) -> (r:
        Result<(), LoadError>)
        requires
            old(self).wf(),
        ensures
            final(self).wf(),
            !options.spec_is_valid() ==> r == Err::<(), LoadError>(LoadError::InvalidSelection)
                && *final(self) == *old(self),
            options.spec_is_valid() && old(self).spec_source() == Some(*options) ==> r == Ok::<
                (),
                LoadError,
            >(()) && *final(self) == *old(self),
            options.spec_is_valid() && old(self).spec_source() != Some(*options) ==> {
                &&& r == Ok::<(), LoadError>(())
                &&& final(self).spec_source() == Some(*options)
                &&& final(self).spec_entries() == entries@
                &&& final(self).spec_filters().derived_from(entries@, kinds@)
                &&& final(self).spec_filters().is_reset()
                &&& final(self).spec_sort() == Sort::ClosingAscending
            },
    {
        match self.needs_load(options) {
            Err(e) => Err(e),
            Ok(false) => Ok(()),
            Ok(true) => {
                let filters = Filters::derive(&entries, &kinds);
                let order = sorted_order(&entries, Sort::ClosingAscending);
                self.source = Some(*options);
                self.entries = entries;
                self.order = order;
                self.filters = filters;
                self.sort = Sort::ClosingAscending;
                Ok(())
            },
        }
    }

    pub fn get_sort(&self) -> (r: Sort)
        ensures
            r == self.spec_sort(),
    {
        self.sort
    }

    /// Orders the visible entries by `sort` from now on.
    pub fn sort(&mut self, sort: &Sort)
        requires
            old(self).wf(),
        ensures
            final(self).wf(),
            final(self).spec_sort() == *sort,
            final(self).spec_entries() == old(self).spec_entries(),
            final(self).spec_filters() == old(self).spec_filters(),
            final(self).spec_source() == old(self).spec_source(),
    {
        self.order = sorted_order(&self.entries, *sort);
        self.sort = *sort;
    }

    pub fn filters(&self) -> (r: &Filters)
        ensures
            *r == self.spec_filters(),
    {
        &self.filters
    }

    /// The filter selection, to edit in place; nothing is recomputed until
    /// the next view.
    pub fn get_filters(&mut self) -> (r: &mut Filters)
        ensures
            *r == old(self).spec_filters(),
            final(self).spec_filters() == *final(r),
            final(self).spec_entries() == old(self).spec_entries(),
            final(self).spec_sort() == old(self).spec_sort(),
            final(self).spec_source() == old(self).spec_source(),
            final(self).wf() == old(self).wf(),
    {
        &mut self.filters
    }

    /// Replaces the filter selection; nothing is recomputed until the next view.
    pub fn set_filters(&mut self, filters: Filters)
        requires
            old(self).wf(),
        ensures
            final(self).wf(),
            final(self).spec_filters() == filters,
            final(self).spec_entries() == old(self).spec_entries(),
            final(self).spec_sort() == old(self).spec_sort(),
            final(self).spec_source() == old(self).spec_source(),
    {
        self.filters = filters;
    }

    /// The indices of the visible entries, in display order.
    pub fn visible_indices(&self) -> (r: Vec<usize>)
        requires
            self.wf(),
            self.spec_filters().wf(),
        ensures
            self.is_view(r@),
    {
        let mut v: Vec<usize> = Vec::new();
        let mut k: usize = 0;
        while k < self.order.len()
            invariant
                self.wf(),
                self.filters.wf(),
                k <= self.order@.len(),
                forall|m: int| 0 <= m < v@.len() ==> #[trigger] v@[m] < self.entries@.len(),
                forall|m: int|
                    0 <= m < v@.len() ==> self.filters.accepts(self.entries@[#[trigger] v@[m] as int]),
                forall|m: int, l: int|
                    0 <= m < l < v@.len() ==> self.sort.precedes(
                        self.entries@,
                        #[trigger] v@[m] as int,
                        #[trigger] v@[l] as int,
                    ),
                forall|m: int|
                    0 <= m < v@.len() ==> exists|q: int| 0 <= q < k && self.order@[q] == #[trigger] v@[m],
                forall|q: int|
                    0 <= q < k && self.filters.accepts(self.entries@[self.order@[q] as int])
                        ==> #[trigger] has_index(v@, self.order@[q] as int),
            decreases self.order@.len() - k,
        {
            let idx = self.order[k];
            if self.filters.matches(&self.entries[idx]) {
                let ghost old_v = v@;
                v.push(idx);
                proof {
                    assert forall|m: int, l: int| 0 <= m < l < v@.len() implies self.sort.precedes(
                        self.entries@,
                        #[trigger] v@[m] as int,
                        #[trigger] v@[l] as int,
                    ) by {
                        if l == old_v.len() {
                            let q = choose|q: int| 0 <= q < k && self.order@[q] == old_v[m];
                            assert(self.sort.precedes(
                                self.entries@,
                                self.order@[q] as int,
                                self.order@[k as int] as int,
                            ));
                        } else {
                            assert(old_v[m] == v@[m] && old_v[l] == v@[l]);
                        }
                    }
                    assert forall|m: int| 0 <= m < v@.len() implies exists|q: int|
                        0 <= q < k + 1 && self.order@[q] == #[trigger] v@[m] by {
                        if m == old_v.len() {
                            assert(self.order@[k as int] == v@[m]);
                        } else {
                            assert(old_v[m] == v@[m]);
                        }
                    }
                    assert forall|q: int|
                        0 <= q < k + 1 && self.filters.accepts(self.entries@[self.order@[q] as int])
                            implies #[trigger] has_index(v@, self.order@[q] as int) by {
                        if q == k {
                            assert(v@[old_v.len() as int] == self.order@[q]);
                        } else {
                            assert(has_index(old_v, self.order@[q] as int));
                            let m = choose|m: int| 0 <= m < old_v.len() && old_v[m] == self.order@[q] as int;
                            assert(v@[m] == old_v[m]);
                        }
                    }
                }
            }
            k = k + 1;
        }
        proof {
            assert forall|i: int| 0 <= i < self.entries@.len() implies (#[trigger] has_index(v@, i)
                <==> self.filters.accepts(self.entries@[i])) by {
                if has_index(v@, i) {
                    let m = choose|m: int| 0 <= m < v@.len() && v@[m] == i;
                    assert(self.filters.accepts(self.entries@[v@[m] as int]));
                }
                if self.filters.accepts(self.entries@[i]) {
                    assert(has_index(self.order@, i));
                    let q = choose|q: int| 0 <= q < self.order@.len() && self.order@[q] == i;
                    assert(has_index(v@, self.order@[q] as int));
                }
            }
        }
        v
    }

    /// The visible entries, in display order, borrowed from the dataset.
    pub fn view(&self) -> (r: Vec<&Entry>)
        requires
            self.wf(),
            self.spec_filters().wf(),
        ensures
            exists|v: Seq<usize>|
                {
                    &&& self.is_view(v)
                    &&& r@.len() == v.len()
                    &&& forall|k: int|
                        0 <= k < v.len() ==> *(#[trigger] r@[k]) == self.spec_entries()[v[k] as int]
                },
    {
        let v = self.visible_indices();
        let mut r: Vec<&Entry> = Vec::new();
        let mut k: usize = 0;
        while k < v.len()
            invariant
                self.wf(),
                self.is_view(v@),
                k <= v@.len(),
                r@.len() == k,
                forall|m: int| 0 <= m < k ==> *(#[trigger] r@[m]) == self.entries@[v@[m] as int],
            decreases v@.len() - k,
        {
            r.push(&self.entries[v[k]]);
            k = k + 1;
        }
        r
    }
}

impl Default for Dataset {
    fn default() -> (r: Dataset)
        ensures
            r.wf(),
            r.spec_source().is_none(),
            r.spec_entries() == Seq::<Entry>::empty(),
            r.spec_sort() == Sort::ClosingAscending,
            r.spec_filters().wf(),
    {
        Dataset::new()
    }
}

/// Two sequences of indices that are both strictly ordered by `sort` and
/// hold the same indices are equal.
proof fn lemma_sorted_unique(entries: Seq<Entry>, sort: Sort, a: Seq<usize>, b: Seq<usize>)
    requires
        forall|k: int, l: int|
            0 <= k < l < a.len() ==> sort.precedes(entries, #[trigger] a[k] as int, #[trigger] a[l] as int),
        forall|k: int, l: int|
            0 <= k < l < b.len() ==> sort.precedes(entries, #[trigger] b[k] as int, #[trigger] b[l] as int),
        forall|i: int| #[trigger] has_index(a, i) <==> has_index(b, i),
    ensures
        a == b,
    decreases a.len(),
{
    if a.len() == 0 {
        if b.len() > 0 {
            assert(has_index(b, b[0] as int));
            assert(has_index(a, b[0] as int));
        }
        assert(a =~= b);
    } else {
        assert(has_index(a, a[0] as int));
        assert(has_index(b, a[0] as int));
        let m = choose|m: int| 0 <= m < b.len() && b[m] == a[0] as int;
        assert(has_index(b, b[0] as int));
        assert(has_index(a, b[0] as int));
        let p = choose|p: int| 0 <= p < a.len() && a[p] == b[0] as int;
        if m > 0 && p > 0 {
            assert(sort.precedes(entries, b[0] as int, b[m] as int));
            assert(sort.precedes(entries, a[0] as int, a[p] as int));
        }
        assert(a[0] == b[0]);
        let ta = a.drop_first();
        let tb = b.drop_first();
        assert forall|i: int| #[trigger] has_index(ta, i) <==> has_index(tb, i) by {
            if has_index(ta, i) {
                let k = choose|k: int| 0 <= k < ta.len() && ta[k] == i;
                assert(a[k + 1] == i);
                assert(sort.precedes(entries, a[0] as int, a[k + 1] as int));
                assert(has_index(a, i));
                assert(has_index(b, i));
                let q = choose|q: int| 0 <= q < b.len() && b[q] == i;
                assert(q != 0);
                assert(tb[q - 1] == i);
            }
            if has_index(tb, i) {
                let k = choose|k: int| 0 <= k < tb.len() && tb[k] == i;
                assert(b[k + 1] == i);
                assert(sort.precedes(entries, b[0] as int, b[k + 1] as int));
                assert(has_index(b, i));
                assert(has_index(a, i));
                let q = choose|q: int| 0 <= q < a.len() && a[q] == i;
                assert(q != 0);
                assert(ta[q - 1] == i);
            }
        }
        assert forall|k: int, l: int| 0 <= k < l < ta.len() implies sort.precedes(
            entries,
            #[trigger] ta[k] as int,
            #[trigger] ta[l] as int,
        ) by {
            assert(ta[k] == a[k + 1] && ta[l] == a[l + 1]);
        }
        assert forall|k: int, l: int| 0 <= k < l < tb.len() implies sort.precedes(
            entries,
            #[trigger] tb[k] as int,
            #[trigger] tb[l] as int,
        ) by {
            assert(tb[k] == b[k + 1] && tb[l] == b[l + 1]);
        }
        lemma_sorted_unique(entries, sort, ta, tb);
        assert(a =~= seq![a[0]] + ta);
        assert(b =~= seq![b[0]] + tb);
    }
}

/// The view of a selection is unique: there is exactly one order in which
/// the visible entries can be listed.
pub proof fn lemma_view_unique(entries: Seq<Entry>, f: Filters, sort: Sort, v1: Seq<usize>, v2: Seq<usize>)
    requires
        is_view_order(entries, f, sort, v1),
        is_view_order(entries, f, sort, v2),
    ensures
        v1 == v2,
{
    assert forall|i: int| #[trigger] has_index(v1, i) <==> has_index(v2, i) by {
        if has_index(v1, i) {
            let k = choose|k: int| 0 <= k < v1.len() && v1[k] == i;
            assert(v1[k] < entries.len());
        }
        if has_index(v2, i) {
            let k = choose|k: int| 0 <= k < v2.len() && v2[k] == i;
            assert(v2[k] < entries.len());
        }
    }
    lemma_sorted_unique(entries, sort, v1, v2);
}

/// Disabling one value of a categorical field, all else held constant,
/// removes from the view exactly the entries that have that value.
pub proof fn lemma_disable_value_in_view(
    entries: Seq<Entry>,
    sort: Sort,
    f: Filters,
    field: Field,
    facet: StrMap<bool>,
    value: Seq<char>,
    before: Seq<usize>,
    after: Seq<usize>,
)
    requires
        f.facet(field)@.contains_key(value),
        facet@ == f.facet(field)@.insert(value, false),
        is_view_order(entries, f, sort, before),
        is_view_order(entries, f.with_facet(field, facet), sort, after),
    ensures
        forall|i: int|
            0 <= i < entries.len() ==> (#[trigger] has_index(after, i) <==> has_index(before, i)
                && field.of(entries[i]) != value),
{
    assert forall|i: int| 0 <= i < entries.len() implies (#[trigger] has_index(after, i) <==> has_index(before, i)
        && field.of(entries[i]) != value) by {
        lemma_disable_value(f, field, facet, value, entries[i]);
    }
}

/// Every entry of a view lies within the selected rank windows, and the
/// view is in the order of the active sort.
pub proof fn lemma_view_within_windows(entries: Seq<Entry>, f: Filters, sort: Sort, v: Seq<usize>)
    requires
        is_view_order(entries, f, sort, v),
    ensures
        forall|k: int| 0 <= k < v.len() ==> f.or.spec_contains(entries[#[trigger] v[k] as int].or as int),
        forall|k: int| 0 <= k < v.len() ==> f.cr.spec_contains(entries[#[trigger] v[k] as int].cr as int),
        forall|k: int, l: int|
            0 <= k < l < v.len() ==> sort.key(entries[#[trigger] v[k] as int]) <= sort.key(
                entries[#[trigger] v[l] as int],
            ),
{
    assert forall|k: int, l: int| 0 <= k < l < v.len() implies sort.key(entries[#[trigger] v[k] as int]) <= sort.key(
        entries[#[trigger] v[l] as int],
    ) by {
        assert(sort.precedes(entries, v[k] as int, v[l] as int));
    }
}

/// Walks a slice of entries in storage order, yielding those that a filter
/// selection accepts.
pub struct EntryIterator<'a> {
    filters: &'a Filters,
    entries: &'a [Entry],
    pos: usize,
}

impl<'a> EntryIterator<'a> {
    pub closed spec fn spec_filters(&self) -> Filters {
        *self.filters
    }

    /// The entries not yet looked at.
    pub closed spec fn rest(&self) -> Seq<Entry> {
        self.entries@.subrange(self.pos as int, self.entries@.len() as int)
    }

    pub closed spec fn wf(&self) -> bool {
        self.pos <= self.entries@.len()
    }

    pub fn new(filters: &'a Filters, entries: &'a [Entry]) -> (r: Self)
        ensures
            r.wf(),
            r.spec_filters() == *filters,
            r.rest() == entries@,
    {
        let r = EntryIterator { filters, entries, pos: 0 };
        assert(r.rest() =~= entries@);
        r
    }

    /// The next accepted entry, or `None` when none is left.
    pub fn next(&mut self) -> (r: Option<&'a Entry>)
        requires
            old(self).wf(),
            old(self).spec_filters().wf(),
        ensures
            final(self).wf(),
            final(self).spec_filters() == old(self).spec_filters(),
            r.is_none() ==> final(self).rest() == Seq::<Entry>::empty() && forall|j: int|
                0 <= j < old(self).rest().len() ==> !old(self).spec_filters().accepts(
                    #[trigger] old(self).rest()[j],
                ),
            r.is_some() ==> exists|j: int|
                {
                    &&& 0 <= j < old(self).rest().len()
                    &&& old(self).rest()[j] == *r.unwrap()
                    &&& old(self).spec_filters().accepts(old(self).rest()[j])
                    &&& forall|h: int|
                        0 <= h < j ==> !old(self).spec_filters().accepts(
                            #[trigger] old(self).rest()[h],
                        )
                    &&& final(self).rest() == old(self).rest().subrange(
                        j + 1,
                        old(self).rest().len() as int,
                    )
                },
    {
        let ghost start = self.pos;
        while self.pos < self.entries.len()
            invariant
                self.filters == old(self).filters,
                self.entries == old(self).entries,
                self.filters.wf(),
                start == old(self).pos,
                start <= self.pos <= self.entries@.len(),
                forall|h: int| start <= h < self.pos ==> !self.filters.accepts(#[trigger] self.entries@[h]),
            decreases self.entries@.len() - self.pos,
        {
            let entry = &self.entries[self.pos];
            self.pos = self.pos + 1;
            if self.filters.matches(entry) {
                proof {
                    let j = self.pos - 1 - start;
                    assert(old(self).rest()[j] == self.entries@[self.pos - 1]);
                    assert forall|h: int| 0 <= h < j implies !old(self).spec_filters().accepts(
                        #[trigger] old(self).rest()[h],
                    ) by {
                        assert(old(self).rest()[h] == self.entries@[start + h]);
                    }
                    assert(self.rest() =~= old(self).rest().subrange(j + 1, old(self).rest().len() as int));
                }
                return Some(entry);
            }
        }
        proof {
            assert(self.rest() =~= Seq::<Entry>::empty());
            assert forall|j: int| 0 <= j < old(self).rest().len() implies !old(self).spec_filters().accepts(
                #[trigger] old(self).rest()[j],
            ) by {
                assert(old(self).rest()[j] == self.entries@[start + j]);
            }
        }
        None
    }
}

} // verus!
