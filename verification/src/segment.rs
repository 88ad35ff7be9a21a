//! The records of one population segment: a location, an age and a sex.

use crate::age::{covers, parse_age_group};
use crate::record::{MortalityRecord, RecordView};
use crate::text::same_text;
use vstd::prelude::*;

verus! {

/// Whether `record` belongs to the segment: its location and its sex are the
/// given ones, letter for letter, and its age group covers `age`.
pub open spec fn in_segment(
    record: RecordView,
    location: Seq<char>,
    age: u32,
    sex: Seq<char>,
) -> bool {
    &&& record.location_name == location
    &&& record.sex_name == sex
    &&& covers(record.age_name, age)
}

/// The records of the segment, in the order in which `records` holds them.
pub open spec fn segment(
    records: Seq<RecordView>,
    location: Seq<char>,
    age: u32,
    sex: Seq<char>,
) -> Seq<RecordView> {
    records.filter(|r: RecordView| in_segment(r, location, age, sex))
}

/// A segment is exactly the records that belong to it, in the order of the
/// dataset: `places` gives, for each record of the segment, where it stands
/// among `records`. The places rise, every record at one of them belongs to
/// the segment, and every record that belongs to the segment stands at one of
/// them.
pub proof fn lemma_segment_places(
    records: Seq<RecordView>,
    location: Seq<char>,
    age: u32,
    sex: Seq<char>,
) -> (places: Seq<int>)
    ensures
        places.len() == segment(records, location, age, sex).len(),
        forall|k: int|
            0 <= k < places.len() ==> 0 <= #[trigger] places[k] < records.len() && segment(
                records,
                location,
                age,
                sex,
            )[k] == records[places[k]],
        forall|k: int, l: int| 0 <= k < l < places.len() ==> places[k] < places[l],
        forall|i: int|
            0 <= i < records.len() ==> (places.contains(i) <==> in_segment(
                #[trigger] records[i],
                location,
                age,
                sex,
            )),
    decreases records.len(),
{
    reveal(Seq::filter);
    if records.len() == 0 {
        Seq::empty()
    } else {
        let front = records.drop_last();
        let last = records.len() - 1;
        let before = lemma_segment_places(front, location, age, sex);
        let places = if in_segment(records.last(), location, age, sex) {
            before.push(last)
        } else {
            before
        };
        assert forall|i: int| 0 <= i < records.len() implies (places.contains(i) <==> in_segment(
            #[trigger] records[i],
            location,
            age,
            sex,
        )) by {
            if i < last {
                assert(front[i] == records[i]);
                if before.contains(i) {
                    let k = choose|k: int| 0 <= k < before.len() && before[k] == i;
                    assert(places[k] == i);
                }
                if places.contains(i) {
                    let k = choose|k: int| 0 <= k < places.len() && places[k] == i;
                    assert(before[k] == i);
                }
            } else if in_segment(records.last(), location, age, sex) {
                assert(places[places.len() - 1] == i);
            } else {
                if places.contains(i) {
                    let k = choose|k: int| 0 <= k < places.len() && places[k] == i;
                    assert(before[k] < front.len());
                }
            }
        }
        assert forall|k: int| 0 <= k < places.len() implies 0 <= #[trigger] places[k]
            < records.len() && segment(records, location, age, sex)[k] == records[places[k]] by {
            if k < before.len() {
                assert(front[before[k]] == records[before[k]]);
            }
        }
        places
    }
}

/// Whether `record` belongs to the segment.
pub fn belongs(record: &MortalityRecord, location: &String, age: u32, sex: &String) -> (r: bool)
    ensures
        r == in_segment(record@, location@, age, sex@),
{
    if !same_text(&record.location_name, location) {
        return false;
    }
    if !same_text(&record.sex_name, sex) {
        return false;
    }
    match parse_age_group(record.age_name.as_str()) {
        Some((start, end)) => start <= age && age <= end,
        None => false,
    }
}

/// Picks the records of the segment out of `records`, keeping their order.
pub fn filter_records<'a>(
    records: &'a Vec<MortalityRecord>,
    location: &str,
    age: u32,
    sex: &str,
) -> (filtered: Vec<&'a MortalityRecord>)
    ensures
        filtered.deep_view() == segment(records.deep_view(), location@, age, sex@),
{
    let location = location.to_owned();
    let sex = sex.to_owned();
    let ghost all = records.deep_view();
    let ghost wanted = |r: RecordView| in_segment(r, location@, age, sex@);
    let mut filtered: Vec<&'a MortalityRecord> = Vec::new();
    let mut i: usize = 0;
    proof {
        reveal(Seq::filter);
        assert(all.take(0).filter(wanted) =~= Seq::<RecordView>::empty());
        assert(filtered.deep_view() =~= Seq::<RecordView>::empty());
    }
    while i < records.len()
        invariant
            i <= records.len(),
            all == records.deep_view(),
            wanted == |r: RecordView| in_segment(r, location@, age, sex@),
            filtered.deep_view() == all.take(i as int).filter(wanted),
        decreases records.len() - i,
    {
        let record = &records[i];
        let ghost before = filtered.deep_view();
        proof {
            reveal(Seq::filter);
            assert(all.take(i + 1).drop_last() =~= all.take(i as int));
            assert(all.take(i + 1).last() == record@);
        }
        if belongs(record, &location, age, &sex) {
            filtered.push(record);
            assert(filtered.deep_view() =~= before.push(record@));
        }
        i += 1;
    }
    proof {
        assert(all.take(records.len() as int) =~= all);
    }
    filtered
}

} // verus!
