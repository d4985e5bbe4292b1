//! Minimum-redundancy maximum-relevance feature selection over categorical data.
//!
//! The library owns the exact, integer part of the method: reading a table of
//! categorical samples, the per-feature value counts, the joint co-occurrence
//! tables that mutual information is summed over, and the greedy selection
//! rule with its deterministic tie-break. Floating-point evaluation of the
//! information measures is left to the caller, which hands the scores back as
//! IEEE-754 bit patterns.

mod dataset;
mod order;
mod select;
mod seqs;
mod stats;

pub use dataset::{
    candidate_columns, column_of, csv_records, get_features_values, rows_view, table_error, Dataset, DatasetView,
    MrmrError,
};
pub use order::{
    lemma_name_lt_asymmetric, lemma_name_lt_total, lemma_name_lt_transitive, name_less, name_lt, order_key, score_key,
};
pub use select::{
    after_pick, best_position, distinct_candidates, get_max_value, initial_view, is_best, lemma_best_unique,
    lemma_first_pick_optimal, lemma_full_run, lemma_selected_distinct, lemma_selection_size, prefers, run_view, step_view,
    target_count, view_wf, Selection, SelectionView,
};
pub use seqs::{count_in, distinct_in_order, lemma_count_in_bound, lemma_distinct_in_order};
pub use stats::{
    get_feature_data, intersection, is_joint_table, lemma_joint_table_symmetric, swap_all, swapped, views, zip_codes,
    FeatureStats, JointTerm,
};
