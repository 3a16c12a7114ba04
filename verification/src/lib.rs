//! Versioned, multi-party case files: schemas, typed values, append-only
//! record logs, rules over them and projections between revisions.

pub mod addressable;
pub mod aggregate;
pub mod aggregate_laws;
pub mod archive;
pub mod assess;
pub mod assess_laws;
pub mod blocks;
pub mod bundle;
pub mod canonical;
pub mod cast;
pub mod cast_laws;
pub mod checkpoint;
pub mod checkpoint_laws;
pub mod codec;
pub mod collections;
pub mod conflict_laws;
pub mod conflicts;
pub mod conformance;
pub mod conformance_laws;
pub mod counting;
pub mod decimal;
pub mod distinct_forms;
pub mod entry;
pub mod entry_codec;
pub mod eval;
pub mod eval_laws;
pub mod evidence;
pub mod exact_forms;
pub mod expr_codec;
pub mod files;
pub mod float;
pub mod fold_laws;
pub mod hasher;
pub mod ids;
pub mod impact;
pub mod impact_laws;
pub mod join_laws;
pub mod lifecycle_laws;
pub mod log;
pub mod log_laws;
pub mod logic;
pub mod merge;
pub mod merge_laws;
pub mod merged_tree;
pub mod nomenclatures;
pub mod number_texts;
pub mod one_form;
pub mod one_text;
pub mod order;
pub mod projection;
pub mod projection_laws;
pub mod publish_laws;
pub mod reading;
pub mod resolution;
pub mod revision;
pub mod roots;
pub mod round_trips;
pub mod rules;
pub mod scan;
pub mod schema;
pub mod schema_form;
pub mod schema_laws;
pub mod sidecar;
pub mod store_laws;
pub mod table;
pub mod table_laws;
pub mod text;
pub mod time;
pub mod typecheck;
pub mod typecheck_laws;
pub mod value;
pub mod value_laws;

pub use collections::{OrderedMap, OrderedSet};
pub use ids::{
    BlockId, ColumnId, GroupId, ItemId, NomenclatureId, OptionId, PathSeg, RecordId, ResolverId,
    RevisionId, RowPath, SurfaceId,
};
pub use order::{Key, Modeled, Order};
