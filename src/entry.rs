use vstd::prelude::*;

verus! {

/// One admission record: where a seat was, for whom, and the ranks at which
/// it opened and closed.
///
/// `or <= cr` is not assumed: source data may break it.
#[derive(Clone, Debug)]
pub struct Entry {
    pub institute: String,
    pub branch: String,
    pub quota: String,
    pub seat_type: String,
    pub gender: String,
    /// Opening rank.
    pub or: u32,
    /// Closing rank.
    pub cr: u32,
}

/// One row group of the institute classification: a kind of institute and
/// the institutes of that kind.
#[derive(Clone, Debug)]
pub struct InstituteKind {
    pub kind: String,
    pub institutes: Vec<String>,
}

impl InstituteKind {
    /// Whether this group lists an institute of the given name.
    pub open spec fn lists(self, institute: Seq<char>) -> bool {
        exists|j: int| 0 <= j < self.institutes@.len() && #[trigger] self.institutes@[j]@ == institute
    }
}

/// Whether some group of the classification lists the institute.
pub open spec fn is_classified(kinds: Seq<InstituteKind>, institute: Seq<char>) -> bool {
    exists|g: int| 0 <= g < kinds.len() && #[trigger] kinds[g].lists(institute)
}

} // verus!
