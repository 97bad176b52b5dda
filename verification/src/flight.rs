//! Route records: one directed flight between two named airports, and the
//! selection of the records that make up a network.

use std::collections::HashSet;
use vstd::hash_map::StringHashMap;
use vstd::prelude::*;

verus! {

/// One route record: a flight from `origin` to `destination`.
#[derive(Debug)]
pub struct Flight {
    pub origin: String,
    pub destination: String,
}

impl View for Flight {
    type V = (Seq<char>, Seq<char>);

    open spec fn view(&self) -> (Seq<char>, Seq<char>) {
        (self.origin@, self.destination@)
    }
}

/// A list of flights as a list of `(origin, destination)` label pairs.
pub open spec fn routes_of(flights: Seq<Flight>) -> Seq<(Seq<char>, Seq<char>)> {
    flights.map_values(|flight: Flight| flight@)
}

/// A list of raw records as a list of `(origin, destination)` label pairs.
pub open spec fn pairs_of(records: Seq<(String, String)>) -> Seq<(Seq<char>, Seq<char>)> {
    records.map_values(|record: (String, String)| (record.0@, record.1@))
}

/// The records that are kept: in their order, those with a non-empty origin
/// and a non-empty destination that did not occur before.
pub open spec fn accepted(records: Seq<(Seq<char>, Seq<char>)>) -> Seq<(Seq<char>, Seq<char>)>
    decreases records.len(),
{
    if records.len() == 0 {
        Seq::empty()
    } else {
        let kept = accepted(records.drop_last());
        let record = records.last();
        if record.0.len() > 0 && record.1.len() > 0 && !kept.contains(record) {
            kept.push(record)
        } else {
            kept
        }
    }
}

/// One number for an ordered pair of label numbers.
spec fn pair_key(origin: usize, destination: usize) -> int {
    origin * 0x1_0000_0000_0000_0000 + destination
}

/// Whether `numbers` gives each of its labels a number of its own, below the
/// number of labels.
spec fn numbers_labels(numbers: Map<Seq<char>, usize>) -> bool {
    &&& numbers.dom().finite()
    &&& forall|label: Seq<char>| #[trigger]
        numbers.contains_key(label) ==> numbers[label] < numbers.len()
    &&& forall|first: Seq<char>, second: Seq<char>|
        numbers.contains_key(first) && numbers.contains_key(second) && first != second
            ==> #[trigger] numbers[first] != #[trigger] numbers[second]
}

/// Whether `seen` holds the keys of the routes in `kept`, and no other.
spec fn holds_keys_of(
    seen: Set<u128>,
    kept: Seq<(Seq<char>, Seq<char>)>,
    numbers: Map<Seq<char>, usize>,
) -> bool {
    &&& forall|k: int|
        0 <= k < kept.len() ==> numbers.contains_key((#[trigger] kept[k]).0)
            && numbers.contains_key(kept[k].1) && seen.contains(
            pair_key(numbers[kept[k].0], numbers[kept[k].1]) as u128,
        )
    &&& forall|key: u128| #[trigger]
        seen.contains(key) ==> exists|k: int|
            0 <= k < kept.len() && key == pair_key(
                numbers[(#[trigger] kept[k]).0],
                numbers[kept[k].1],
            )
}

/// The number of `label`; a label not seen before gets the next number.
fn number_of(numbers: &mut StringHashMap<usize>, label: &String) -> (number: usize)
    requires
        numbers_labels(old(numbers)@),
    ensures
        numbers_labels(final(numbers)@),
        final(numbers)@.contains_key(label@),
        final(numbers)@[label@] == number,
        forall|other: Seq<char>| #[trigger]
            old(numbers)@.contains_key(other) ==> final(numbers)@.contains_key(other)
                && final(numbers)@[other] == old(numbers)@[other],
{
    let found: Option<usize> = match numbers.get(label.as_str()) {
        Some(number) => Some(*number),
        None => None,
    };
    match found {
        Some(number) => number,
        None => {
            let number = numbers.len();
            numbers.insert(label.clone(), number);
            number
        },
    }
}

/// Selects the flights of a network from raw records: a record without an
/// origin or without a destination is skipped, and so is one whose pair of
/// labels occurred before. The flights keep the order of the records.
pub fn flights_from_records(records: &Vec<(String, String)>) -> (flights: Vec<Flight>)
    ensures
        routes_of(flights@) == accepted(pairs_of(records@)),
{
    broadcast use vstd::std_specs::hash::group_hash_axioms;

    let ghost pairs = pairs_of(records@);
    let mut flights: Vec<Flight> = Vec::new();
    let mut numbers: StringHashMap<usize> = StringHashMap::new();
    let mut added_edges: HashSet<u128> = HashSet::new();
    let mut k: usize = 0;
    while k < records.len()
        invariant
            k <= records.len(),
            pairs == pairs_of(records@),
            routes_of(flights@) == accepted(pairs.take(k as int)),
            numbers_labels(numbers@),
            holds_keys_of(added_edges@, routes_of(flights@), numbers@),
        decreases records.len() - k,
    {
        let ghost kept = routes_of(flights@);
        let ghost record = pairs[k as int];
        proof {
            assert(pairs.take(k + 1).drop_last() == pairs.take(k as int));
            assert(pairs.take(k + 1).last() == record);
            assert(record == (records@[k as int].0@, records@[k as int].1@));
        }
        let origin = &records[k].0;
        let destination = &records[k].1;
        if !origin.as_str().is_empty() && !destination.as_str().is_empty() {
            let from = number_of(&mut numbers, origin);
            let to = number_of(&mut numbers, destination);
            let key: u128 = (from as u128) * 0x1_0000_0000_0000_0000 + (to as u128);
            proof {
                assert(holds_keys_of(added_edges@, kept, numbers@));
                if kept.contains(record) {
                    let j = choose|j: int| 0 <= j < kept.len() && kept[j] == record;
                    assert(added_edges@.contains(
                        pair_key(numbers@[kept[j].0], numbers@[kept[j].1]) as u128,
                    ));
                }
                if added_edges@.contains(key) {
                    let j = choose|j: int|
                        0 <= j < kept.len() && key == pair_key(
                            numbers@[(#[trigger] kept[j]).0],
                            numbers@[kept[j].1],
                        );
                    assert(numbers@[kept[j].0] == from && numbers@[kept[j].1] == to);
                    assert(kept[j].0 == record.0);
                    assert(kept[j].1 == record.1);
                    assert(kept[j] == record);
                }
            }
            if !added_edges.contains(&key) {
                flights.push(Flight { origin: origin.clone(), destination: destination.clone() });
                added_edges.insert(key);
                proof {
                    let now = routes_of(flights@);
                    assert(now == kept.push(record));
                    assert forall|seen: u128| #[trigger] added_edges@.contains(seen) implies exists|
                        j: int,
                    |
                        0 <= j < now.len() && seen == pair_key(
                            numbers@[(#[trigger] now[j]).0],
                            numbers@[now[j].1],
                        ) by {
                        if seen == key {
                            assert(now[kept.len() as int] == record);
                        } else {
                            let j = choose|j: int|
                                0 <= j < kept.len() && seen == pair_key(
                                    numbers@[(#[trigger] kept[j]).0],
                                    numbers@[kept[j].1],
                                );
                            assert(now[j] == kept[j]);
                        }
                    }
                }
            }
        }
        k = k + 1;
    }
    proof {
        assert(pairs.take(k as int) == pairs);
    }
    flights
}

} // verus!
