use crate::csa::{
    changes, earliest_by_hops, follows, is_journey, lemma_first_journey, lemma_longer_journey, rides,
};
use crate::journey::{
    after_transfer, boarding_of, leg_rides, legs_connected, legs_from, legs_in_time,
    legs_with_transfers, Leg,
};
use crate::network::{Network, Timestamp};
use crate::raptor::{
    earliest_by_rides, is_chain, is_ride, ride_arrives, ride_from, ride_leaves, ride_to, Ride, K,
};
use vstd::prelude::*;

verus! {

/// The place in which the leg arrives: one after the boarding in which the
/// trip calls at the stop of arrival at the time of arrival.
pub open spec fn arrival_place(n: Network, leg: Leg) -> int {
    let r = leg.trip.route_idx as int;
    choose|i: int|
        leg.boarded_stop_order < i < n.routes@[r].num_stops && #[trigger] n.route_stop(r, i)
            == leg.arrival_stop && n.arrival(r, leg.trip.trip_order as int, i) == leg.arrival_time
}

/// The ride that a leg is.
pub open spec fn ride_of(n: Network, leg: Leg) -> Ride {
    (
        leg.trip.route_idx as int,
        leg.trip.trip_order as int,
        leg.boarded_stop_order as int,
        arrival_place(n, leg),
    )
}

/// The rides that the legs are.
pub open spec fn rides_of(n: Network, legs: Seq<Leg>) -> Seq<Ride> {
    Seq::new(legs.len(), |l: int| ride_of(n, legs[l]))
}

/// The ride that a leg is begins and ends where and when the leg does.
pub proof fn lemma_ride_of(n: Network, leg: Leg)
    requires
        leg_rides(n, leg),
    ensures
        is_ride(n, ride_of(n, leg)),
        ride_from(n, ride_of(n, leg)) == leg.boarded_stop,
        ride_to(n, ride_of(n, leg)) == leg.arrival_stop,
        ride_leaves(n, ride_of(n, leg)) == leg.boarded_time,
        ride_arrives(n, ride_of(n, leg)) == leg.arrival_time,
{
    let r = leg.trip.route_idx as int;
    let b = boarding_of(leg);
    assert(n.rides_to(b, leg.arrival_stop as int, leg.arrival_time));
    let i = choose|i: int|
        b.boarded_stop_order < i < n.routes@[b.trip.route_idx as int].num_stops
            && #[trigger] n.route_stop(b.trip.route_idx as int, i) == leg.arrival_stop as int
            && n.arrival(b.trip.route_idx as int, b.trip.trip_order as int, i) == leg.arrival_time;
    assert(leg.boarded_stop_order < i < n.routes@[r].num_stops && n.route_stop(r, i)
        == leg.arrival_stop && n.arrival(r, leg.trip.trip_order as int, i) == leg.arrival_time);
}

/// Legs that lead from `start` to `end`, each a ride of the network that
/// begins after the one before it has ended and the time for a change has
/// passed, are a journey of as many rides.
pub proof fn lemma_legs_chain(
    n: Network,
    start: int,
    start_time: Timestamp,
    end: int,
    legs: Seq<Leg>,
)
    requires
        legs_connected(legs, start, end),
        forall|i: int| 0 <= i < legs.len() ==> leg_rides(n, #[trigger] legs[i]),
        legs_from(legs, start_time),
        legs_with_transfers(n, legs),
    ensures
        is_chain(n, start, start_time, rides_of(n, legs)),
        rides_of(n, legs).len() == legs.len(),
        ride_to(n, rides_of(n, legs).last()) == end,
        ride_arrives(n, rides_of(n, legs).last()) == legs.last().arrival_time,
{
    let rides = rides_of(n, legs);
    assert forall|l: int| 0 <= l < rides.len() implies is_ride(n, #[trigger] rides[l]) by {
        lemma_ride_of(n, legs[l]);
    }
    lemma_ride_of(n, legs[0]);
    lemma_ride_of(n, legs.last());
    assert forall|l: int| 0 <= l < rides.len() - 1 implies ride_to(n, #[trigger] rides[l])
        == ride_from(n, rides[l + 1]) && ride_leaves(n, rides[l + 1]) >= after_transfer(
        ride_arrives(n, rides[l]),
        n.transfer_times@[ride_to(n, rides[l])],
    ) by {
        lemma_ride_of(n, legs[l]);
        lemma_ride_of(n, legs[l + 1]);
        assert(legs[l].arrival_stop == legs[l + 1].boarded_stop);
        assert(legs[l + 1].boarded_time >= after_transfer(
            legs[l].arrival_time,
            n.transfer_times@[legs[l].arrival_stop as int],
        ));
    }
}

/// The position among the connections of the hop of trip `t` of route `r`
/// from place `i`.
pub open spec fn hop_position(n: Network, r: int, t: int, i: int) -> int {
    choose|k: int| 0 <= k < n.connections@.len() && n.connections@[k] == n.hop(r, t, i)
}

/// Where every hop is among the connections, each has a position there.
proof fn lemma_hop_position(n: Network, r: int, t: int, i: int)
    requires
        n.connections_complete(),
        n.valid_hop(r, t, i),
    ensures
        0 <= hop_position(n, r, t, i) < n.connections@.len(),
        n.connections@[hop_position(n, r, t, i)] == n.hop(r, t, i),
{
    assert(n.connections@.contains(n.hop(r, t, i)));
}

/// A passenger who can take the hop of a trip from place `i` can take its
/// hop from every later place `m`.
proof fn lemma_ride_hops(n: Network, start: int, start_time: Timestamp, r: int, t: int, i: int, m: int)
    requires
        n.wf(),
        n.connections_complete(),
        0 <= r < n.routes@.len(),
        0 <= t < n.routes@[r].num_trips,
        0 <= i <= m,
        m + 1 < n.routes@[r].num_stops,
        rides(n, start, start_time, hop_position(n, r, t, i)),
    ensures
        rides(n, start, start_time, hop_position(n, r, t, m)),
    decreases m - i,
{
    if i < m {
        lemma_ride_hops(n, start, start_time, r, t, i, m - 1);
        let before = hop_position(n, r, t, m - 1);
        let here = hop_position(n, r, t, m);
        lemma_hop_position(n, r, t, m - 1);
        lemma_hop_position(n, r, t, m);
        assert(n.route_wf(r));
        let steps = choose|steps: Seq<int>| #[trigger]
            is_journey(n, start, start_time, steps) && steps.last() == before;
        assert(follows(n.connections@[before], n.connections@[here]));
        lemma_longer_journey(n, start, start_time, steps, here);
    }
}

/// A passenger can take the last hop of each of the legs of a journey.
proof fn lemma_legs_hops(n: Network, start: int, start_time: Timestamp, end: int, legs: Seq<Leg>, l: int)
    requires
        n.wf(),
        n.connections_complete(),
        legs_connected(legs, start, end),
        forall|i: int| 0 <= i < legs.len() ==> leg_rides(n, #[trigger] legs[i]),
        legs_from(legs, start_time),
        legs_with_transfers(n, legs),
        0 <= l < legs.len(),
    ensures
        rides(
            n,
            start,
            start_time,
            hop_position(
                n,
                legs[l].trip.route_idx as int,
                legs[l].trip.trip_order as int,
                arrival_place(n, legs[l]) - 1,
            ),
        ),
    decreases l,
{
    let leg = legs[l];
    let r = leg.trip.route_idx as int;
    let t = leg.trip.trip_order as int;
    let i = leg.boarded_stop_order as int;
    let j = arrival_place(n, leg);
    lemma_ride_of(n, leg);
    assert(n.route_wf(r));
    let first = hop_position(n, r, t, i);
    lemma_hop_position(n, r, t, i);
    if l == 0 {
        lemma_first_journey(n, start, start_time, first);
    } else {
        let last = legs[l - 1];
        lemma_legs_hops(n, start, start_time, end, legs, l - 1);
        lemma_ride_of(n, last);
        let last_r = last.trip.route_idx as int;
        let last_t = last.trip.trip_order as int;
        let last_j = arrival_place(n, last);
        assert(n.route_wf(last_r));
        lemma_hop_position(n, last_r, last_t, last_j - 1);
        let before = hop_position(n, last_r, last_t, last_j - 1);
        let steps = choose|steps: Seq<int>| #[trigger]
            is_journey(n, start, start_time, steps) && steps.last() == before;
        assert(last.arrival_stop == legs[l - 1 + 1].boarded_stop);
        assert(legs[l - 1 + 1].boarded_time >= after_transfer(
            last.arrival_time,
            n.transfer_times@[last.arrival_stop as int],
        ));
        assert(changes(n, start, n.connections@[before], n.connections@[first]));
        lemma_longer_journey(n, start, start_time, steps, first);
    }
    lemma_ride_hops(n, start, start_time, r, t, i, j - 1);
}

/// Where no change takes any time, legs of which none begins before the one
/// before it has ended leave the time for each change.
pub proof fn lemma_changes_without_time(n: Network, legs: Seq<Leg>)
    requires
        n.wf(),
        forall|s: int| 0 <= s < n.transfer_times@.len() ==> n.transfer_times@[s] == 0,
        forall|i: int| 0 <= i < legs.len() ==> leg_rides(n, #[trigger] legs[i]),
        legs_in_time(legs),
    ensures
        legs_with_transfers(n, legs),
{
    assert forall|i: int| 0 <= i < legs.len() - 1 implies legs[i + 1].boarded_time
        >= after_transfer(
        (#[trigger] legs[i]).arrival_time,
        n.transfer_times@[legs[i].arrival_stop as int],
    ) by {
        lemma_ride_of(n, legs[i]);
        assert(n.route_wf(legs[i].trip.route_idx as int));
    }
}

/// On a query that both answer, the search by rounds and the sweep of the
/// connections arrive at the same time, where the journey that the sweep
/// finds leaves the time for each change and has few enough legs for the
/// rounds.
///
/// `by_rounds` are the legs of the journey that the rounds find: rides of
/// the network from `start` to `end`, and no journey of fewer than `K` rides
/// is there before them. `by_sweep` are the legs that the sweep finds: rides
/// of the network too, and no journey at all is there before them.
pub proof fn lemma_same_arrival(
    n: Network,
    start: int,
    start_time: Timestamp,
    end: int,
    by_rounds: Seq<Leg>,
    by_sweep: Seq<Leg>,
)
    requires
        n.wf(),
        n.connections_complete(),
        legs_connected(by_rounds, start, end),
        forall|i: int| 0 <= i < by_rounds.len() ==> leg_rides(n, #[trigger] by_rounds[i]),
        legs_from(by_rounds, start_time),
        legs_with_transfers(n, by_rounds),
        earliest_by_rides(n, start, start_time, end, K - 1, by_rounds.last().arrival_time),
        legs_connected(by_sweep, start, end),
        forall|i: int| 0 <= i < by_sweep.len() ==> leg_rides(n, #[trigger] by_sweep[i]),
        legs_from(by_sweep, start_time),
        legs_with_transfers(n, by_sweep),
        earliest_by_hops(n, start, start_time, end, by_sweep.last().arrival_time),
        by_sweep.len() < K,
    ensures
        by_rounds.last().arrival_time == by_sweep.last().arrival_time,
{
    // The legs of the sweep are a journey of fewer than `K` rides.
    lemma_legs_chain(n, start, start_time, end, by_sweep);
    // The legs of the rounds are a journey over the connections.
    let leg = by_rounds.last();
    let r = leg.trip.route_idx as int;
    let t = leg.trip.trip_order as int;
    let j = arrival_place(n, leg);
    lemma_legs_hops(n, start, start_time, end, by_rounds, by_rounds.len() - 1);
    lemma_ride_of(n, leg);
    lemma_hop_position(n, r, t, j - 1);
    let k = hop_position(n, r, t, j - 1);
    let steps = choose|steps: Seq<int>| #[trigger]
        is_journey(n, start, start_time, steps) && steps.last() == k;
    assert(n.connections@[steps.last()].arrival_idx == end);
}

} // verus!
