//! The locations that a dataset speaks of.

use crate::record::{MortalityRecord, RecordView};
use crate::text::same_text;
use vstd::prelude::*;

verus! {

/// The location names of `records`, each once, in the order in which they
/// first appear.
pub open spec fn location_names(records: Seq<RecordView>) -> Seq<Seq<char>>
    decreases records.len(),
{
    if records.len() == 0 {
        Seq::empty()
    } else {
        let before = location_names(records.drop_last());
        let name = records.last().location_name;
        if before.contains(name) {
            before
        } else {
            before.push(name)
        }
    }
}

/// The location names hold no name twice, and they hold a name exactly where
/// some record has it as its location.
pub proof fn lemma_location_names(records: Seq<RecordView>)
    ensures
        location_names(records).no_duplicates(),
        forall|name: Seq<char>|
            location_names(records).contains(name) <==> exists|i: int|
                0 <= i < records.len() && (#[trigger] records[i]).location_name == name,
    decreases records.len(),
{
    if records.len() > 0 {
        let front = records.drop_last();
        let before = location_names(front);
        let last = records.last().location_name;
        let names = location_names(records);
        lemma_location_names(front);
        assert forall|name: Seq<char>| names.contains(name) <==> exists|i: int|
            0 <= i < records.len() && (#[trigger] records[i]).location_name == name by {
            if names.contains(name) {
                let k = choose|k: int| 0 <= k < names.len() && names[k] == name;
                if k < before.len() {
                    assert(before[k] == name);
                    assert(before.contains(name));
                    let i = choose|i: int|
                        0 <= i < front.len() && (#[trigger] front[i]).location_name == name;
                    assert(records[i].location_name == name);
                } else {
                    assert(records[records.len() - 1].location_name == name);
                }
            }
            if exists|i: int|
                0 <= i < records.len() && (#[trigger] records[i]).location_name == name {
                let i = choose|i: int|
                    0 <= i < records.len() && (#[trigger] records[i]).location_name == name;
                if i < front.len() {
                    assert(front[i].location_name == name);
                    assert(before.contains(name));
                    let k = choose|k: int| 0 <= k < before.len() && before[k] == name;
                    assert(names[k] == name);
                } else if before.contains(last) {
                } else {
                    assert(names[names.len() - 1] == name);
                }
            }
        }
    }
}

/// Whether one of `names` reads `name`.
fn holds(names: &Vec<String>, name: &String) -> (r: bool)
    ensures
        r == names.deep_view().contains(name@),
{
    let mut k: usize = 0;
    while k < names.len()
        invariant
            k <= names.len(),
            forall|j: int| 0 <= j < k ==> names.deep_view()[j] != name@,
        decreases names.len() - k,
    {
        assert(names.deep_view()[k as int] == names[k as int]@);
        if same_text(&names[k], name) {
            return true;
        }
        k += 1;
    }
    false
}

/// The distinct location names of `records`, in the order in which they
/// first appear.
pub fn get_locations(records: &Vec<MortalityRecord>) -> (locations: Vec<String>)
    ensures
        locations.deep_view() == location_names(records.deep_view()),
{
    let ghost all = records.deep_view();
    let mut locations: Vec<String> = Vec::new();
    let mut i: usize = 0;
    proof {
        assert(all.take(0) =~= Seq::<RecordView>::empty());
        assert(locations.deep_view() =~= Seq::<Seq<char>>::empty());
    }
    while i < records.len()
        invariant
            i <= records.len(),
            all == records.deep_view(),
            locations.deep_view() == location_names(all.take(i as int)),
        decreases records.len() - i,
    {
        let ghost before = locations.deep_view();
        proof {
            assert(all.take(i + 1).drop_last() =~= all.take(i as int));
            assert(all.take(i + 1).last() == records[i as int]@);
        }
        if !holds(&locations, &records[i].location_name) {
            locations.push(records[i].location_name.clone());
            assert(locations.deep_view() =~= before.push(records[i as int]@.location_name));
        }
        i += 1;
    }
    proof {
        assert(all.take(records.len() as int) =~= all);
    }
    locations
}

} // verus!
