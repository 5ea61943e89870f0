//! One observation per whole second: the slots that the records fill, and
//! the track that is read off them.

use crate::record::coordinate_text;
use crate::record::RawRecord;
use crate::timestamp::normalized;
use crate::timestamp::parse_timestamp;
use std::collections::BTreeMap;
use vstd::prelude::*;
use vstd::std_specs::cmp::OrdSpec;
use vstd::std_specs::iter::IteratorSpec;

verus! {

/// What a slot holds: the timestamp of the observation it kept, and that
/// observation's coordinate.
pub type Slot = (i64, Seq<char>);

/// How far the timestamp `ts` lies from the second `key`.
pub open spec fn distance(ts: i64, key: i64) -> int {
    if ts - key < 0 {
        key - ts
    } else {
        ts - key
    }
}

/// The slots after the observation `(ts, coord)` was offered for the second
/// `key`: a free slot takes it, a taken slot takes it only if it lies
/// strictly closer to `key` than the observation the slot holds.
pub open spec fn offered(slots: Map<i64, Slot>, key: i64, ts: i64, coord: Seq<char>) -> Map<
    i64,
    Slot,
> {
    if !slots.contains_key(key) || distance(ts, key) < distance(slots[key].0, key) {
        slots.insert(key, (ts, coord))
    } else {
        slots
    }
}

/// The slots after one record went through: a record whose timestamp
/// normalises to a second is offered for that second, with that second as its
/// timestamp; any other record leaves the slots as they are.
pub open spec fn with_record(
    slots: Map<i64, Slot>,
    timestamp: Seq<char>,
    latitude: Seq<char>,
    longitude: Seq<char>,
    float_seconds: Option<i64>,
) -> Map<i64, Slot> {
    match normalized(timestamp, float_seconds) {
        Some(second) => offered(slots, second, second, coordinate_text(latitude, longitude)),
        None => slots,
    }
}

/// Whether every slot holds an observation made exactly on its second, as
/// all slots do that were filled from records.
pub open spec fn held_on_the_second(slots: Map<i64, Slot>) -> bool {
    forall|key: i64| slots.contains_key(key) ==> (#[trigger] slots[key]).0 == key
}

/// Whether each key of `keys` is smaller than every key after it.
pub open spec fn strictly_increasing(keys: Seq<i64>) -> bool {
    forall|i: int, j: int| 0 <= i < j < keys.len() ==> keys[i] < keys[j]
}

/// Whether `keys` lists exactly the seconds of `seconds`, in ascending order.
pub open spec fn lists_ascending(keys: Seq<i64>, seconds: Set<i64>) -> bool {
    &&& strictly_increasing(keys)
    &&& forall|k: i64| seconds.contains(k) <==> keys.contains(k)
}

/// The seconds of `seconds` in ascending order.
pub open spec fn ascending(seconds: Set<i64>) -> Seq<i64> {
    choose|keys: Seq<i64>| lists_ascending(keys, seconds)
}

/// The ordered track: the coordinate of every slot, by ascending second.
pub open spec fn ordered_track(slots: Map<i64, Slot>) -> Seq<Seq<char>> {
    let keys = ascending(slots.dom());
    Seq::new(keys.len(), |i: int| slots[keys[i]].1)
}

/// A set of seconds has at most one ascending listing.
pub proof fn lemma_ascending_listing_unique(a: Seq<i64>, b: Seq<i64>, seconds: Set<i64>)
    requires
        lists_ascending(a, seconds),
        lists_ascending(b, seconds),
    ensures
        a == b,
    decreases a.len(),
{
    if a.len() == 0 {
        if b.len() > 0 {
            assert(b.contains(b[0]));
            assert(a.contains(b[0]));
        }
        assert(a =~= b);
    } else {
        assert(a.contains(a[0]));
        assert(b.contains(a[0]));
        let j = choose|j: int| 0 <= j < b.len() && b[j] == a[0];
        assert(b.contains(b[0]));
        assert(a.contains(b[0]));
        let i = choose|i: int| 0 <= i < a.len() && a[i] == b[0];
        assert(a[0] == b[0]);
        let rest = seconds.remove(a[0]);
        let a_rest = a.drop_first();
        let b_rest = b.drop_first();
        assert forall|k: i64| rest.contains(k) <==> a_rest.contains(k) by {
            if rest.contains(k) {
                assert(a.contains(k));
                let n = choose|n: int| 0 <= n < a.len() && a[n] == k;
                assert(a_rest[n - 1] == k);
            }
            if a_rest.contains(k) {
                let n = choose|n: int| 0 <= n < a_rest.len() && a_rest[n] == k;
                assert(a[n + 1] == k);
                assert(a[0] < a[n + 1]);
            }
        }
        assert forall|k: i64| rest.contains(k) <==> b_rest.contains(k) by {
            if rest.contains(k) {
                assert(b.contains(k));
                let n = choose|n: int| 0 <= n < b.len() && b[n] == k;
                assert(b_rest[n - 1] == k);
            }
            if b_rest.contains(k) {
                let n = choose|n: int| 0 <= n < b_rest.len() && b_rest[n] == k;
                assert(b[n + 1] == k);
                assert(b[0] < b[n + 1]);
            }
        }
        assert forall|m: int, n: int| 0 <= m < n < a_rest.len() implies a_rest[m] < a_rest[n] by {
            assert(a[m + 1] < a[n + 1]);
        }
        assert forall|m: int, n: int| 0 <= m < n < b_rest.len() implies b_rest[m] < b_rest[n] by {
            assert(b[m + 1] < b[n + 1]);
        }
        lemma_ascending_listing_unique(a_rest, b_rest, rest);
        assert(a =~= seq![a[0]] + a_rest);
        assert(b =~= seq![b[0]] + b_rest);
    }
}

/// The seconds of `seconds` below `bound`, in ascending order.
proof fn lemma_listing_below(seconds: Set<i64>, bound: int) -> (keys: Seq<i64>)
    requires
        i64::MIN <= bound <= i64::MAX + 1,
    ensures
        strictly_increasing(keys),
        forall|k: i64| keys.contains(k) <==> seconds.contains(k) && k < bound,
        forall|i: int| 0 <= i < keys.len() ==> keys[i] < bound,
    decreases bound - i64::MIN,
{
    if bound == i64::MIN {
        Seq::empty()
    } else {
        let below = lemma_listing_below(seconds, bound - 1);
        let top = (bound - 1) as i64;
        if seconds.contains(top) {
            let keys = below.push(top);
            assert forall|k: i64| keys.contains(k) <==> seconds.contains(k) && k < bound by {
                if keys.contains(k) {
                    let n = choose|n: int| 0 <= n < keys.len() && keys[n] == k;
                    if n < below.len() {
                        assert(below.contains(below[n]));
                    }
                }
                if seconds.contains(k) && k < bound {
                    if k == top {
                        assert(keys[below.len() as int] == k);
                    } else {
                        assert(below.contains(k));
                        let n = choose|n: int| 0 <= n < below.len() && below[n] == k;
                        assert(keys[n] == k);
                    }
                }
            }
            keys
        } else {
            assert forall|k: i64| below.contains(k) <==> seconds.contains(k) && k < bound by {
                if seconds.contains(k) && k < bound {
                    assert(k != top);
                }
            }
            below
        }
    }
}

/// The ordered track holds one coordinate for each second that has a slot,
/// and follows the seconds in ascending order: no second comes twice, and
/// none comes before a smaller one.
pub proof fn lemma_track_follows_seconds(slots: Map<i64, Slot>)
    ensures
        lists_ascending(ascending(slots.dom()), slots.dom()),
        ordered_track(slots).len() == ascending(slots.dom()).len(),
        forall|i: int|
            0 <= i < ordered_track(slots).len() ==> #[trigger] ordered_track(slots)[i]
                == slots[ascending(slots.dom())[i]].1,
{
    let witness = lemma_listing_below(slots.dom(), i64::MAX + 1);
    assert(lists_ascending(witness, slots.dom()));
}

/// The ordered track is empty where no second has a slot, and only there.
pub proof fn lemma_track_empty_without_slots(slots: Map<i64, Slot>)
    ensures
        ordered_track(slots).len() == 0 <==> (forall|key: i64| !slots.contains_key(key)),
{
    lemma_track_follows_seconds(slots);
    let keys = ascending(slots.dom());
    if keys.len() > 0 {
        assert(keys.contains(keys[0]));
        assert(slots.contains_key(keys[0]));
    } else {
        assert forall|key: i64| !slots.contains_key(key) by {
            assert(!keys.contains(key));
        }
    }
}

/// After an offer the slot of the offered second holds an observation that is
/// no farther from the second than the one offered and the one held before;
/// every other slot is as it was.
pub proof fn lemma_offer_keeps_closest(slots: Map<i64, Slot>, key: i64, ts: i64, coord: Seq<char>)
    ensures
        offered(slots, key, ts, coord).contains_key(key),
        distance(offered(slots, key, ts, coord)[key].0, key) <= distance(ts, key),
        slots.contains_key(key) ==> distance(offered(slots, key, ts, coord)[key].0, key)
            <= distance(slots[key].0, key),
        forall|other: i64|
            other != key ==> (slots.contains_key(other) <==> #[trigger] offered(
                slots,
                key,
                ts,
                coord,
            ).contains_key(other)),
        forall|other: i64|
            other != key && slots.contains_key(other) ==> #[trigger] offered(
                slots,
                key,
                ts,
                coord,
            )[other] == slots[other],
{
}

/// Of two observations offered for the same second, the later one changes
/// nothing unless it is strictly closer to the second: on a tie the one seen
/// first stays.
pub proof fn lemma_no_closer_keeps_first(
    slots: Map<i64, Slot>,
    key: i64,
    first_ts: i64,
    first_coord: Seq<char>,
    later_ts: i64,
    later_coord: Seq<char>,
)
    requires
        distance(later_ts, key) >= distance(first_ts, key),
    ensures
        offered(offered(slots, key, first_ts, first_coord), key, later_ts, later_coord) == offered(
            slots,
            key,
            first_ts,
            first_coord,
        ),
{
}

/// Slots that records filled hold, each, an observation made on its second.
pub proof fn lemma_records_hold_on_the_second(
    slots: Map<i64, Slot>,
    timestamp: Seq<char>,
    latitude: Seq<char>,
    longitude: Seq<char>,
    float_seconds: Option<i64>,
)
    requires
        held_on_the_second(slots),
    ensures
        held_on_the_second(with_record(slots, timestamp, latitude, longitude, float_seconds)),
{
}

/// Among records, the first of a second stays: a record whose second has a
/// slot already changes nothing, and so does a record whose timestamp does
/// not normalise.
pub proof fn lemma_first_record_of_a_second_stays(
    slots: Map<i64, Slot>,
    timestamp: Seq<char>,
    latitude: Seq<char>,
    longitude: Seq<char>,
    float_seconds: Option<i64>,
)
    requires
        held_on_the_second(slots),
        match normalized(timestamp, float_seconds) {
            Some(second) => slots.contains_key(second),
            None => true,
        },
    ensures
        with_record(slots, timestamp, latitude, longitude, float_seconds) == slots,
{
}

/// Computes `distance` without overflow.
fn distance_of(ts: i64, key: i64) -> (d: i128)
    ensures
        d == distance(ts, key),
{
    let gap: i128 = ts as i128 - key as i128;
    if gap < 0 {
        -gap
    } else {
        gap
    }
}

/// The per-second aggregator: at most one slot for each second.
pub struct Aggregator {
    slots: BTreeMap<i64, (i64, String)>,
}

impl View for Aggregator {
    type V = Map<i64, Slot>;

    closed spec fn view(&self) -> Map<i64, Slot> {
        self.slots@.map_values(|held: (i64, String)| (held.0, held.1@))
    }
}

impl Aggregator {
    /// An aggregator with no slot taken.
    pub fn new() -> (r: Aggregator)
        ensures
            r@ == Map::<i64, Slot>::empty(),
    {
        let r = Aggregator { slots: BTreeMap::new() };
        assert(r@ =~= Map::<i64, Slot>::empty());
        r
    }

    /// Offers the observation `(original_ts, coord)` for the second
    /// `second_key`. Among observations equally close to the second, the one
    /// offered first stays.
    pub fn offer(&mut self, second_key: i64, original_ts: i64, coord: String)
        ensures
            final(self)@ == offered(old(self)@, second_key, original_ts, coord@),
    {
        let take: bool = match self.slots.get(&second_key) {
            None => true,
            Some(held) => distance_of(original_ts, second_key) < distance_of(held.0, second_key),
        };
        if take {
            self.slots.insert(second_key, (original_ts, coord));
            assert(self@ =~= old(self)@.insert(second_key, (original_ts, coord@)));
        }
    }

    /// Feeds one record: normalises its timestamp field and, where that gives
    /// a second, offers the record's coordinate for that second. A record
    /// whose timestamp does not normalise is passed over.
    ///
    /// `float_seconds` is the floating-point reading of the timestamp field
    /// that `parse_timestamp` asks for.
    pub fn offer_record(&mut self, record: &RawRecord, float_seconds: Option<i64>)
        ensures
            final(self)@ == with_record(
                old(self)@,
                record.timestamp@,
                record.latitude@,
                record.longitude@,
                float_seconds,
            ),
    {
        match parse_timestamp(record.timestamp.as_str(), float_seconds) {
            Some(second) => {
                let coord: String = record.coordinate();
                self.offer(second, second, coord);
            },
            None => {},
        }
    }

    /// Drains the aggregator into the ordered track: one coordinate for each
    /// second that has a slot, by ascending second.
    #[verifier::loop_isolation(false)]
    pub fn drain(self) -> (track: Vec<String>)
        ensures
            track.deep_view() == ordered_track(self@),
            lists_ascending(ascending(self@.dom()), self@.dom()),
            track@.len() == self@.dom().len(),
    {
        let mut track: Vec<String> = Vec::new();
        let pairs = self.slots.iter();
        let ghost listed = pairs.remaining();
        for pair in it: pairs
            invariant
                it.seq() == listed,
                track@.len() == it.index(),
                forall|j: int| 0 <= j < track@.len() ==> (#[trigger] track@[j])@ == (*listed[j].1).1@,
        {
            track.push(pair.1.1.clone());
        }
        proof {
            let keys = listed.map_values(|kv: (&i64, &(i64, String))| *kv.0);
            assert(track@.len() == listed.len());
            assert(self@.dom() =~= self.slots@.dom());
            assert(listed.len() == self.slots@.dom().len());
            assert(vstd::laws_cmp::obeys_cmp::<i64>());
            assert(vstd::std_specs::btree::increasing_seq(keys));
            assert forall|i: int, j: int| 0 <= i < j < keys.len() implies keys[i] < keys[j] by {
                assert(keys[i].cmp_spec(&keys[j]) is Less);
            }
            assert forall|k: i64| self@.dom().contains(k) <==> keys.contains(k) by {
                if self@.dom().contains(k) {
                    assert(self.slots@.contains_key(k));
                    assert(listed.contains((&k, &self.slots@[k])));
                    let n = choose|n: int| 0 <= n < listed.len() && listed[n] == (&k, &self.slots@[k]);
                    assert(keys[n] == k);
                }
                if keys.contains(k) {
                    let n = choose|n: int| 0 <= n < keys.len() && keys[n] == k;
                    assert(self.slots@.contains_key(*listed[n].0));
                }
            }
            assert(lists_ascending(keys, self@.dom()));
            lemma_ascending_listing_unique(keys, ascending(self@.dom()), self@.dom());
            assert forall|j: int| 0 <= j < track@.len() implies track.deep_view()[j]
                == ordered_track(self@)[j] by {
                assert(self.slots@.contains_key(*listed[j].0));
                assert(self.slots@[*listed[j].0] == *listed[j].1);
                assert(keys[j] == *listed[j].0);
            }
            assert(track.deep_view() =~= ordered_track(self@));
        }
        track
    }
}

} // verus!
