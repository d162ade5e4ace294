//! The logic of a transport-data pipeline: journeys without change, journeys
//! with one change, lookups that widen the journey table, and the columns of
//! the combined table.
pub mod fields;
pub mod no_change;
pub mod change_once;
pub mod add_columns;
pub mod combine;
pub mod step;
pub mod seq_facts;
pub mod no_change_laws;
pub mod change_once_laws;
