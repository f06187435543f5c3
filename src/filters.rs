use crate::entry::{is_classified, Entry, InstituteKind};
use crate::rank_range::RankRange;
use crate::str_map::StrMap;
use vstd::prelude::*;

verus! {

/// A categorical field of an entry.
#[derive(PartialEq, Eq, Clone, Copy, Debug, Structural)]
pub enum Field {
    Quota,
    SeatType,
    Gender,
}

impl Field {
    pub open spec fn of(self, e: Entry) -> Seq<char> {
        match self {
            Field::Quota => e.quota@,
            Field::SeatType => e.seat_type@,
            Field::Gender => e.gender@,
        }
    }

    pub fn get<'a>(&self, e: &'a Entry) -> (r: &'a String)
        ensures
            r@ == self.of(*e),
    {
        match self {
            Field::Quota => &e.quota,
            Field::SeatType => &e.seat_type,
            Field::Gender => &e.gender,
        }
    }
}

/// A rank of an entry: the opening one or the closing one.
pub open spec fn rank_of(e: Entry, opening: bool) -> u32 {
    if opening {
        e.or
    } else {
        e.cr
    }
}

/// `facet` holds exactly the values that `field` takes in `entries`, each
/// of them included.
pub open spec fn facet_of(facet: StrMap<bool>, entries: Seq<Entry>, field: Field) -> bool {
    &&& facet.wf()
    &&& facet.all_included()
    &&& forall|i: int| 0 <= i < entries.len() ==> facet@.contains_key(#[trigger] field.of(entries[i]))
    &&& forall|k: Seq<char>|
        #[trigger] facet@.contains_key(k) ==> exists|i: int|
            0 <= i < entries.len() && #[trigger] field.of(entries[i]) == k
}

/// `r` is the full observed range of a rank: from 0 to its largest value,
/// or the canonical empty range when there are no entries.
pub open spec fn rank_bounds(r: RankRange, entries: Seq<Entry>, opening: bool) -> bool {
    if entries.len() == 0 {
        r.start == 4 && r.end == 3
    } else {
        &&& r.start == 0
        &&& forall|i: int| 0 <= i < entries.len() ==> #[trigger] rank_of(entries[i], opening) <= r.end
        &&& exists|i: int| 0 <= i < entries.len() && #[trigger] rank_of(entries[i], opening) == r.end
    }
}

/// The group at index `g` is the first group of `kinds` that lists the
/// institute.
pub open spec fn first_listing(kinds: Seq<InstituteKind>, g: int, institute: Seq<char>) -> bool {
    &&& 0 <= g < kinds.len()
    &&& kinds[g].lists(institute)
    &&& forall|h: int| 0 <= h < g ==> !(#[trigger] kinds[h]).lists(institute)
}

/// The current selection of every facet, with the observed bounds of the
/// two ranks.
///
/// An institute's kind comes from `kind_of`; an institute is visible when
/// both its kind and itself are enabled.
#[derive(Clone, Debug)]
pub struct Filters {
    /// Each classified institute, with whether it is enabled.
    pub institutes: StrMap<bool>,
    /// Each kind of institute, with whether it is enabled.
    pub institute_kinds: StrMap<bool>,
    /// The kind of each classified institute.
    pub kind_of: StrMap<String>,
    pub quota: StrMap<bool>,
    pub seat_type: StrMap<bool>,
    pub gender: StrMap<bool>,
    /// The selected window of opening ranks.
    pub or: RankRange,
    /// The selected window of closing ranks.
    pub cr: RankRange,
    /// The observed range of opening ranks.
    pub or_bounds: RankRange,
    /// The observed range of closing ranks.
    pub cr_bounds: RankRange,
}

impl Filters {
    pub open spec fn wf(&self) -> bool {
        &&& self.institutes.wf()
        &&& self.institute_kinds.wf()
        &&& self.kind_of.wf()
        &&& self.quota.wf()
        &&& self.seat_type.wf()
        &&& self.gender.wf()
    }

    /// An institute is visible when it has a kind, that kind is enabled and
    /// the institute itself is enabled.
    pub open spec fn institute_matches(&self, institute: Seq<char>) -> bool {
        &&& self.kind_of@.contains_key(institute)
        &&& self.institute_kinds.includes(self.kind_of@[institute]@)
        &&& self.institutes.includes(institute)
    }

    /// Derives the selection for a freshly loaded set of entries: every
    /// observed value included, and each rank window its observed range.
    pub fn derive(entries: &Vec<Entry>, kinds: &Vec<InstituteKind>) -> (r: Filters)
        ensures
            r.derived_from(entries@, kinds@),
    {
        let (institutes, institute_kinds, kind_of) = classify(kinds);
        let or_bounds = observed_bounds(entries, true);
        let cr_bounds = observed_bounds(entries, false);
        Filters {
            institutes,
            institute_kinds,
            kind_of,
            quota: unique_values(entries, Field::Quota),
            seat_type: unique_values(entries, Field::SeatType),
            gender: unique_values(entries, Field::Gender),
            or: or_bounds,
            cr: cr_bounds,
            or_bounds,
            cr_bounds,
        }
    }

    /// The selection of a categorical field.
    pub open spec fn facet(self, field: Field) -> StrMap<bool> {
        match field {
            Field::Quota => self.quota,
            Field::SeatType => self.seat_type,
            Field::Gender => self.gender,
        }
    }

    /// This selection with the selection of one categorical field replaced.
    pub open spec fn with_facet(self, field: Field, facet: StrMap<bool>) -> Filters {
        match field {
            Field::Quota => Filters { quota: facet, ..self },
            Field::SeatType => Filters { seat_type: facet, ..self },
            Field::Gender => Filters { gender: facet, ..self },
        }
    }

    /// Whether an entry is visible under this selection.
    pub open spec fn accepts(&self, e: Entry) -> bool {
        &&& self.quota.includes(e.quota@)
        &&& self.seat_type.includes(e.seat_type@)
        &&& self.gender.includes(e.gender@)
        &&& self.or.spec_contains(e.or as int)
        &&& self.cr.spec_contains(e.cr as int)
        &&& self.institute_matches(e.institute@)
    }

    /// Nothing is filtered out: every value is included and each rank
    /// window is its full observed range.
    pub open spec fn is_reset(&self) -> bool {
        &&& self.institutes.all_included()
        &&& self.institute_kinds.all_included()
        &&& self.quota.all_included()
        &&& self.seat_type.all_included()
        &&& self.gender.all_included()
        &&& self.or == self.or_bounds
        &&& self.cr == self.cr_bounds
    }

    /// The institute facets hold what the classification `kinds` lists:
    /// every institute it lists, with the kind of the first group that
    /// lists it, and every kind.
    pub open spec fn classified_by(&self, kinds: Seq<InstituteKind>) -> bool {
        &&& forall|k: Seq<char>| #[trigger]
            self.institutes@.contains_key(k) <==> self.kind_of@.contains_key(k)
        &&& forall|k: Seq<char>| #[trigger]
            self.kind_of@.contains_key(k) <==> is_classified(kinds, k)
        &&& forall|k: Seq<char>| #[trigger]
            self.kind_of@.contains_key(k) ==> exists|g: int|
                first_listing(kinds, g, k) && (#[trigger] kinds[g]).kind@ == self.kind_of@[k]@
        &&& forall|k: Seq<char>| #[trigger]
            self.institute_kinds@.contains_key(k) <==> exists|g: int|
                0 <= g < kinds.len() && (#[trigger] kinds[g]).kind@ == k
    }

    /// The selection that loading `entries` with the classification `kinds`
    /// starts from.
    pub open spec fn derived_from(&self, entries: Seq<Entry>, kinds: Seq<InstituteKind>) -> bool {
        &&& self.wf()
        &&& facet_of(self.quota, entries, Field::Quota)
        &&& facet_of(self.seat_type, entries, Field::SeatType)
        &&& facet_of(self.gender, entries, Field::Gender)
        &&& self.institutes.all_included()
        &&& self.institute_kinds.all_included()
        &&& self.classified_by(kinds)
        &&& rank_bounds(self.or_bounds, entries, true)
        &&& rank_bounds(self.cr_bounds, entries, false)
        &&& self.or == self.or_bounds
        &&& self.cr == self.cr_bounds
    }

    /// Replaces this selection with the one derived for a freshly loaded
    /// set of entries.
    pub fn load(&mut self, entries: &Vec<Entry>, kinds: &Vec<InstituteKind>)
        ensures
            final(self).derived_from(entries@, kinds@),
    {
        *self = Filters::derive(entries, kinds);
    }

    /// Whether an entry is visible under this selection.
    pub fn matches(&self, entry: &Entry) -> (r: bool)
        requires
            self.wf(),
        ensures
            r == self.accepts(*entry),
    {
        if !(self.quota.is_included(&entry.quota) && self.seat_type.is_included(&entry.seat_type)
            && self.gender.is_included(&entry.gender) && self.or.contains(entry.or)
            && self.cr.contains(entry.cr)) {
            return false;
        }
        match self.kind_of.get(&entry.institute) {
            Some(kind) => self.institute_kinds.is_included(kind) && self.institutes.is_included(
                &entry.institute,
            ),
            None => false,
        }
    }
}

/// Filters derived from a set of entries include every value that the
/// entries take and exclude none of the entries, provided that the
/// classification lists the institute of each.
pub proof fn lemma_derived_accepts_all(f: Filters, entries: Seq<Entry>, kinds: Seq<InstituteKind>)
    requires
        f.derived_from(entries, kinds),
        forall|i: int| 0 <= i < entries.len() ==> is_classified(kinds, #[trigger] entries[i].institute@),
    ensures
        forall|i: int|
            0 <= i < entries.len() ==> {
                &&& f.quota.includes(entries[i].quota@)
                &&& f.seat_type.includes(entries[i].seat_type@)
                &&& f.gender.includes(entries[i].gender@)
                &&& f.institutes.includes(entries[i].institute@)
                &&& f.accepts(#[trigger] entries[i])
            },
{
    assert forall|i: int| 0 <= i < entries.len() implies {
        &&& f.quota.includes(entries[i].quota@)
        &&& f.seat_type.includes(entries[i].seat_type@)
        &&& f.gender.includes(entries[i].gender@)
        &&& f.institutes.includes(entries[i].institute@)
        &&& f.accepts(#[trigger] entries[i])
    } by {
        let e = entries[i];
        assert(f.quota@.contains_key(Field::Quota.of(entries[i])));
        assert(f.seat_type@.contains_key(Field::SeatType.of(entries[i])));
        assert(f.gender@.contains_key(Field::Gender.of(entries[i])));
        assert(rank_of(entries[i], true) <= f.or_bounds.end);
        assert(rank_of(entries[i], false) <= f.cr_bounds.end);
        assert(is_classified(kinds, e.institute@));
        assert(f.kind_of@.contains_key(e.institute@));
        assert(f.institutes@.contains_key(e.institute@));
        let g = choose|g: int|
            first_listing(kinds, g, e.institute@) && (#[trigger] kinds[g]).kind@
                == f.kind_of@[e.institute@]@;
        assert(0 <= g < kinds.len() && kinds[g].kind@ == f.kind_of@[e.institute@]@);
        assert(f.institute_kinds@.contains_key(f.kind_of@[e.institute@]@));
    }
}

/// A freshly derived selection filters nothing out.
pub proof fn lemma_derived_is_reset(f: Filters, entries: Seq<Entry>, kinds: Seq<InstituteKind>)
    requires
        f.derived_from(entries, kinds),
    ensures
        f.is_reset(),
{
}

/// Disabling one value of a categorical field, all else held constant,
/// hides exactly the entries that have that value and no others.
pub proof fn lemma_disable_value(
    f: Filters,
    field: Field,
    facet: StrMap<bool>,
    value: Seq<char>,
    e: Entry,
)
    requires
        f.facet(field)@.contains_key(value),
        facet@ == f.facet(field)@.insert(value, false),
    ensures
        f.with_facet(field, facet).accepts(e) == (f.accepts(e) && field.of(e) != value),
{
}

/// The distinct values that `field` takes in `entries`, each included, in
/// order of first appearance.
fn unique_values(entries: &Vec<Entry>, field: Field) -> (r: StrMap<bool>)
    ensures
        facet_of(r, entries@, field),
{
    let mut r: StrMap<bool> = StrMap::new();
    let mut i: usize = 0;
    while i < entries.len()
        invariant
            i <= entries@.len(),
            r.wf(),
            r.all_included(),
            forall|j: int| 0 <= j < i ==> r@.contains_key(#[trigger] field.of(entries@[j])),
            forall|k: Seq<char>|
                #[trigger] r@.contains_key(k) ==> exists|j: int|
                    0 <= j < i && #[trigger] field.of(entries@[j]) == k,
        decreases entries@.len() - i,
    {
        let value = field.get(&entries[i]).clone();
        r.add(value, true);
        proof {
            assert forall|k: Seq<char>| #[trigger] r@.contains_key(k) implies exists|j: int|
                0 <= j < i + 1 && #[trigger] field.of(entries@[j]) == k by {
                if k == field.of(entries@[i as int]) {
                    assert(field.of(entries@[i as int]) == k);
                } else {
                    let j = choose|j: int| 0 <= j < i && #[trigger] field.of(entries@[j]) == k;
                    assert(field.of(entries@[j]) == k);
                }
            }
        }
        i = i + 1;
    }
    r
}

/// The full observed range of a rank in `entries`.
fn observed_bounds(entries: &Vec<Entry>, opening: bool) -> (r: RankRange)
    ensures
        rank_bounds(r, entries@, opening),
{
    if entries.len() == 0 {
        return RankRange::default();
    }
    let mut max: u32 = 0;
    let mut i: usize = 0;
    while i < entries.len()
        invariant
            i <= entries@.len(),
            entries@.len() > 0,
            forall|j: int| 0 <= j < i ==> #[trigger] rank_of(entries@[j], opening) <= max,
            i == 0 ==> max == 0,
            i > 0 ==> exists|j: int| 0 <= j < i && #[trigger] rank_of(entries@[j], opening) == max,
        decreases entries@.len() - i,
    {
        let rank = if opening {
            entries[i].or
        } else {
            entries[i].cr
        };
        if i == 0 || rank > max {
            max = rank;
            assert(rank_of(entries@[i as int], opening) == max);
        }
        i = i + 1;
    }
    RankRange::new(0, max)
}

/// The institute facets that the classification `kinds` gives: every
/// institute and every kind enabled, and each institute with the kind of
/// the first group that lists it.
fn classify(kinds: &Vec<InstituteKind>) -> (r: (StrMap<bool>, StrMap<bool>, StrMap<String>))
    ensures
        r.0.wf() && r.1.wf() && r.2.wf(),
        r.0.all_included() && r.1.all_included(),
        forall|k: Seq<char>| #[trigger] r.0@.contains_key(k) <==> r.2@.contains_key(k),
        forall|k: Seq<char>| #[trigger] r.2@.contains_key(k) <==> is_classified(kinds@, k),
        forall|k: Seq<char>| #[trigger]
            r.2@.contains_key(k) ==> exists|g: int|
                first_listing(kinds@, g, k) && (#[trigger] kinds@[g]).kind@ == r.2@[k]@,
        forall|k: Seq<char>| #[trigger]
            r.1@.contains_key(k) <==> exists|g: int|
                0 <= g < kinds@.len() && (#[trigger] kinds@[g]).kind@ == k,
{
    let mut institutes: StrMap<bool> = StrMap::new();
    let mut kind_set: StrMap<bool> = StrMap::new();
    let mut kind_of: StrMap<String> = StrMap::new();
    let mut g: usize = 0;
    while g < kinds.len()
        invariant
            g <= kinds@.len(),
            institutes.wf() && kind_set.wf() && kind_of.wf(),
            institutes.all_included() && kind_set.all_included(),
            forall|k: Seq<char>| #[trigger] institutes@.contains_key(k) <==> kind_of@.contains_key(k),
            forall|h: int, j: int|
                0 <= h < g && 0 <= j < kinds@[h].institutes@.len() ==> kind_of@.contains_key(
                    #[trigger] kinds@[h].institutes@[j]@,
                ),
            forall|k: Seq<char>| #[trigger]
                kind_of@.contains_key(k) ==> exists|h: int|
                    first_listing(kinds@, h, k) && h < g && (#[trigger] kinds@[h]).kind@
                        == kind_of@[k]@,
            forall|k: Seq<char>| #[trigger]
                kind_set@.contains_key(k) <==> exists|h: int|
                    0 <= h < g && (#[trigger] kinds@[h]).kind@ == k,
        decreases kinds@.len() - g,
    {
        let group = &kinds[g];
        let mut j: usize = 0;
        while j < group.institutes.len()
            invariant
                g < kinds@.len(),
                *group == kinds@[g as int],
                j <= group.institutes@.len(),
                institutes.wf() && kind_set.wf() && kind_of.wf(),
                institutes.all_included() && kind_set.all_included(),
                forall|k: Seq<char>| #[trigger] institutes@.contains_key(k) <==> kind_of@.contains_key(k),
                forall|h: int, i: int|
                    0 <= h < g && 0 <= i < kinds@[h].institutes@.len() ==> kind_of@.contains_key(
                        #[trigger] kinds@[h].institutes@[i]@,
                    ),
                forall|i: int|
                    0 <= i < j ==> kind_of@.contains_key(#[trigger] group.institutes@[i]@),
                forall|k: Seq<char>| #[trigger]
                    kind_of@.contains_key(k) ==> (exists|h: int|
                        first_listing(kinds@, h, k) && h < g && (#[trigger] kinds@[h]).kind@
                            == kind_of@[k]@) || (group.lists(k) && kind_of@[k]@ == group.kind@
                        && forall|h: int| 0 <= h < g ==> !(#[trigger] kinds@[h]).lists(k)),
                forall|k: Seq<char>| #[trigger]
                    kind_set@.contains_key(k) <==> exists|h: int|
                        0 <= h < g && (#[trigger] kinds@[h]).kind@ == k,
            decreases group.institutes@.len() - j,
        {
            let name = &group.institutes[j];
            let ghost k = name@;
            proof {
                assert(group.lists(k));
                if !kind_of@.contains_key(k) {
                    assert forall|h: int| 0 <= h < g implies !(#[trigger] kinds@[h]).lists(k) by {
                        if kinds@[h].lists(k) {
                            let i = choose|i: int|
                                0 <= i < kinds@[h].institutes@.len()
                                    && #[trigger] kinds@[h].institutes@[i]@ == k;
                            assert(kind_of@.contains_key(kinds@[h].institutes@[i]@));
                        }
                    }
                }
            }
            institutes.add(name.clone(), true);
            kind_of.add(name.clone(), group.kind.clone());
            j = j + 1;
        }
        proof {
            assert forall|k: Seq<char>| #[trigger] kind_of@.contains_key(k) implies exists|h: int|
                first_listing(kinds@, h, k) && h < g + 1 && (#[trigger] kinds@[h]).kind@
                    == kind_of@[k]@ by {
                if !(exists|h: int|
                    first_listing(kinds@, h, k) && h < g && (#[trigger] kinds@[h]).kind@
                        == kind_of@[k]@) {
                    assert(first_listing(kinds@, g as int, k));
                }
            }
        }
        kind_set.add(group.kind.clone(), true);
        proof {
            assert forall|k: Seq<char>| #[trigger] kind_set@.contains_key(k) <==> exists|h: int|
                0 <= h < g + 1 && (#[trigger] kinds@[h]).kind@ == k by {
                if k == kinds@[g as int].kind@ {
                    assert(kinds@[g as int].kind@ == k);
                }
            }
        }
        g = g + 1;
    }
    proof {
        assert forall|k: Seq<char>| #[trigger] kind_of@.contains_key(k) <==> is_classified(kinds@, k) by {
            if kind_of@.contains_key(k) {
                let h = choose|h: int|
                    first_listing(kinds@, h, k) && h < g && (#[trigger] kinds@[h]).kind@
                        == kind_of@[k]@;
                assert(kinds@[h].lists(k));
            }
            if is_classified(kinds@, k) {
                let h = choose|h: int| 0 <= h < kinds@.len() && #[trigger] kinds@[h].lists(k);
                let i = choose|i: int|
                    0 <= i < kinds@[h].institutes@.len() && #[trigger] kinds@[h].institutes@[i]@ == k;
                assert(kind_of@.contains_key(kinds@[h].institutes@[i]@));
            }
        }
    }
    (institutes, kind_set, kind_of)
}

impl Default for Filters {
    /// No facet values, and empty rank windows.
    fn default() -> (r: Filters)
        ensures
            r.wf(),
            r.quota@ == Map::<Seq<char>, bool>::empty(),
            r.seat_type@ == Map::<Seq<char>, bool>::empty(),
            r.gender@ == Map::<Seq<char>, bool>::empty(),
            r.institutes@ == Map::<Seq<char>, bool>::empty(),
            r.institute_kinds@ == Map::<Seq<char>, bool>::empty(),
            r.kind_of@ == Map::<Seq<char>, String>::empty(),
            r.or.spec_is_empty() && r.cr.spec_is_empty(),
            r.or_bounds.spec_is_empty() && r.cr_bounds.spec_is_empty(),
    {
        Filters {
            institutes: StrMap::new(),
            institute_kinds: StrMap::new(),
            kind_of: StrMap::new(),
            quota: StrMap::new(),
            seat_type: StrMap::new(),
            gender: StrMap::new(),
            or: RankRange::default(),
            cr: RankRange::default(),
            or_bounds: RankRange::default(),
            cr_bounds: RankRange::default(),
        }
    }
}

} // verus!
