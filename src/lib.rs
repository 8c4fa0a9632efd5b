//! Process-table pipeline: parse a search query, build the parent/child
//! forest of a snapshot, keep the matches and their ancestors, sort each
//! level by a column and flatten the forest into indented display rows.

mod display;
mod filter;
mod flatten;
mod human_bytes;
mod ingest;
mod laws;
mod process;
mod prune;
mod search;
mod sort;
mod text;
mod tree;
mod vec_take;

pub use display::get_sorted_process_list;
pub use filter::{lineage, process_matches, SearchField};
pub use flatten::flatten;
pub use human_bytes::human_readable_byte;
pub use ingest::{CommandString, MemoryBytes, PageCounts};
pub use laws::{
    lemma_descending_reverses_ascending, lemma_display_depths, lemma_filter_keeps_parent,
    lemma_no_predicates_keep_everything, lemma_siblings_sorted,
};
pub use process::{render_cpu, Column, MyProcState, MyProcess, MyProcessID, SortOrder, StartTime};
pub use search::{parse_search_query, Search};
pub use sort::SortMyProcesses;
pub use tree::{to_root_parents_and_children, ChildBucket, ProcessForest};
pub use vec_take::VecTake;
