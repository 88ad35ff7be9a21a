//! Leading causes of death for a population segment, ranked from a table of
//! mortality statistics.
//!
//! A dataset is loaded once into records ([`load_mortality_data`]). A query
//! names a location, an age and a sex ([`predict`]): the records of that
//! segment are picked out ([`filter_records`]) and the causes of the ten
//! highest-valued ones are named, highest first
//! ([`predict_top_causes_of_death`]). [`get_locations`] lists the locations
//! that a dataset speaks of.

pub mod age;
pub mod error;
pub mod locations;
pub mod measure;
pub mod number;
pub mod query;
pub mod rank;
pub mod record;
pub mod segment;
pub mod store;
pub mod text;

pub use age::parse_age_group;
pub use error::LoadError;
pub use locations::get_locations;
pub use measure::Measurement;
pub use query::predict;
pub use rank::{predict_top_causes_of_death, top_causes};
pub use record::MortalityRecord;
pub use segment::filter_records;
pub use store::load_mortality_data;
