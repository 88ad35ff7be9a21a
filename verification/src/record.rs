//! One row of the dataset.

use crate::measure::Measurement;
use vstd::prelude::*;

verus! {

/// One row of the dataset: what was measured, where, for whom, and the value
/// reported with its bounds.
#[derive(Clone, Debug)]
pub struct MortalityRecord {
    pub measure_id: u32,
    pub measure_name: String,
    pub location_id: u32,
    pub location_name: String,
    pub sex_id: u32,
    pub sex_name: String,
    pub age_id: u32,
    pub age_name: String,
    pub cause_id: u32,
    pub cause_name: String,
    pub metric_id: u32,
    pub metric_name: String,
    pub year: u32,
    pub val: Measurement,
    pub upper: Measurement,
    pub lower: Measurement,
}

/// What a record holds, with each text as its characters.
pub ghost struct RecordView {
    pub measure_id: u32,
    pub measure_name: Seq<char>,
    pub location_id: u32,
    pub location_name: Seq<char>,
    pub sex_id: u32,
    pub sex_name: Seq<char>,
    pub age_id: u32,
    pub age_name: Seq<char>,
    pub cause_id: u32,
    pub cause_name: Seq<char>,
    pub metric_id: u32,
    pub metric_name: Seq<char>,
    pub year: u32,
    pub val: Measurement,
    pub upper: Measurement,
    pub lower: Measurement,
}

impl View for MortalityRecord {
    type V = RecordView;

    open spec fn view(&self) -> RecordView {
        RecordView {
            measure_id: self.measure_id,
            measure_name: self.measure_name@,
            location_id: self.location_id,
            location_name: self.location_name@,
            sex_id: self.sex_id,
            sex_name: self.sex_name@,
            age_id: self.age_id,
            age_name: self.age_name@,
            cause_id: self.cause_id,
            cause_name: self.cause_name@,
            metric_id: self.metric_id,
            metric_name: self.metric_name@,
            year: self.year,
            val: self.val,
            upper: self.upper,
            lower: self.lower,
        }
    }
}

impl DeepView for MortalityRecord {
    type V = RecordView;

    open spec fn deep_view(&self) -> RecordView {
        self@
    }
}

} // verus!
