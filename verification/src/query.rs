//! The leading causes of death of one population segment.

use crate::rank::{predict_top_causes_of_death, top_causes_of, TOP_CAUSES};
use crate::record::{MortalityRecord, RecordView};
use crate::segment::{filter_records, lemma_segment_places, segment};
use vstd::prelude::*;

verus! {

/// The cause names of the ten highest-valued records of the segment, highest
/// first. A segment without records has none.
pub open spec fn predicted(
    records: Seq<RecordView>,
    location: Seq<char>,
    age: u32,
    sex: Seq<char>,
) -> Seq<Seq<char>> {
    top_causes_of(segment(records, location, age, sex), TOP_CAUSES as nat)
}

/// A location of which the dataset holds no record has no leading causes,
/// whatever the age and the sex.
pub proof fn lemma_unknown_location(
    records: Seq<RecordView>,
    location: Seq<char>,
    age: u32,
    sex: Seq<char>,
)
    requires
        forall|i: int| 0 <= i < records.len() ==> (#[trigger] records[i]).location_name != location,
    ensures
        predicted(records, location, age, sex) == Seq::<Seq<char>>::empty(),
{
    let places = lemma_segment_places(records, location, age, sex);
    if places.len() > 0 {
        assert(places.contains(places[0]));
    }
    let matched = segment(records, location, age, sex);
    assert(matched =~= Seq::<RecordView>::empty());
    assert(predicted(records, location, age, sex) =~= Seq::<Seq<char>>::empty());
}

/// Names the ten leading causes of death for people of the given age and sex
/// at the given location, the leading one first.
pub fn predict(
    records: &Vec<MortalityRecord>,
    location: &str,
    age: u32,
    sex: &str,
) -> (top: Vec<String>)
    ensures
        top.deep_view() == predicted(records.deep_view(), location@, age, sex@),
{
    let filtered_records = filter_records(records, location, age, sex);
    predict_top_causes_of_death(filtered_records)
}

} // verus!
