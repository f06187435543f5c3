//! An engine for browsing admission-rank data: the loaded entries of one
//! year and round, the facets derived from them, the user's filter
//! selection and sort order, and the visible entries that follow.

mod dataset;
mod entry;
mod filters;
mod options;
mod rank_range;
mod sort;
mod str_map;

pub use dataset::{
    has_index, is_sorted_order, is_view_order, lemma_disable_value_in_view, lemma_view_unique,
    lemma_view_within_windows, Dataset, EntryIterator, LoadError,
};
pub use entry::{is_classified, Entry, InstituteKind};
pub use filters::{
    facet_of, first_listing, lemma_derived_accepts_all, lemma_derived_is_reset,
    lemma_disable_value, rank_bounds, rank_of, Field, Filters,
};
pub use options::{
    db_path, decimal, digit_char, is_valid_round, is_valid_year, round_count, valid_rounds,
    DatasetOptions, Options, FIRST_YEAR, LAST_YEAR,
};
pub use rank_range::{
    lemma_contains_bounds, lemma_empty_range_exhausted, lemma_empty_ranges_equal, RankRange,
};
pub use sort::Sort;
pub use str_map::StrMap;
