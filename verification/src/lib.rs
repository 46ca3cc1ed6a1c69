//! Complete observable stream of a text corpus: every character becomes one
//! position, adjacent positions form relations, and recurring letter runs are counted.

pub mod alpha;
pub mod completeness;
pub mod kgrams;
pub mod labels;
pub mod observe;
pub mod pairs;
pub mod recurrence;
pub mod runs;
pub mod stream;
pub mod substrate;
pub mod tally;

pub use alpha::{run_alpha_recurrence, AlphaRecurrenceResult, KStats};
pub use completeness::{verify_completeness, CompletenessReport, FileReport};
pub use kgrams::PredecessorLabel;
pub use observe::{CaseState, CharClass, StreamPosition};
pub use pairs::count_cross_group_pairs;
pub use recurrence::{
    build_state_index, verify_recurrence, ObservableState, RecurrenceError, RecurrenceRelation, RecurrenceStatistics,
    TerminationState,
};
pub use runs::extract_alpha_runs;
pub use stream::CompleteStream;
pub use substrate::{AccountingReport, AdjacentRelation, RelationalSubstrate};
