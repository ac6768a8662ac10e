use crate::bag_scan::{
    arrivals_at, bag_round_begins, bag_rounds, bag_route, bag_routes, bags_begin, lemma_arrive_on,
    lemma_bag_route_on, lemma_board_on, lemma_take_on, mc_answer, mc_arrivals, riders_after,
    riders_arrive, riders_board, stop_takes, BagScan,
};
use crate::journey::{
    after_transfer, bags_boarded, bags_from, bags_wf, labels_of, leg_rides, legs_connected,
    legs_fit, legs_from, legs_in_time, legs_with_transfers, lemma_rebuilt_from_bags,
    lemma_rebuilt_journey, lemma_rides_fit, lemma_walk_back_labels, tau_from, tau_in_time,
    tau_linked, tau_wf, tau_with_transfers, walk_back, walk_back_bags, Boarding, Journey,
    JourneyError, JourneyPreferences, TauEntry, MAX_LEGS,
};
use crate::multicriteria::{
    add_accepts, add_result, lemma_add_keeps_in_time, lemma_add_result_members,
    lemma_add_result_nonempty, some_in_time, Bag, Label,
};
use crate::network::{
    GlobalTripIndex, Network, PathfindingCost, RouteIndex, StopIndex, Timestamp, TripOrder,
};
use crate::scan::{
    arrive, board, lemma_routes_from, lemma_run_start, lemma_scan_on, raptor_answer,
    raptor_arrivals, round_begins, rounds_from, run_start, scan_route, scan_routes, Scan,
};
use crate::utils;
use vstd::prelude::*;

verus! {

/// One more than the number of rounds in which the routes are scanned.
pub const K: usize = 8;

/// The stops whose arrival time was improved in the round before.
pub struct MarkedStops {
    pub marked_stops: Vec<bool>,
}

impl MarkedStops {
    /// No stop of the network marked.
    pub fn new(network: &Network) -> (m: Self)
        ensures
            m.marked_stops@.len() == network.stops@.len(),
            forall|i: int| 0 <= i < m.marked_stops@.len() ==> !m.marked_stops@[i],
    {
        Self { marked_stops: vec![false; network.stops.len()] }
    }

    pub fn mark_stop(&mut self, stop_idx: usize)
        requires
            stop_idx < old(self).marked_stops@.len(),
        ensures
            final(self).marked_stops@ == old(self).marked_stops@.update(stop_idx as int, true),
    {
        self.marked_stops[stop_idx] = true;
    }

    /// Whether no stop is marked.
    pub fn is_empty(&self) -> (r: bool)
        ensures
            r == (forall|i: int| 0 <= i < self.marked_stops@.len() ==> !self.marked_stops@[i]),
    {
        utils::is_zero(self.marked_stops.as_slice())
    }
}

impl Network {
    /// No trip leaves any stop at the time `time` or later.
    pub open spec fn nothing_departs_from(&self, time: Timestamp) -> bool {
        forall|r: int, t: int, i: int|
            0 <= r < self.routes@.len() && 0 <= t < self.routes@[r].num_trips && 0 <= i
                < self.routes@[r].num_stops ==> (#[trigger] self.departure(r, t, i)) < time
    }

    /// Route `r` calls at `start` in place `i` and at `end` in a later place
    /// `j`, `start` lists the route, the last trip of the route leaves
    /// `start` at the time `time` or later, and every trip is at `end` before
    /// the end of time.
    pub open spec fn rides_through(
        &self,
        r: int,
        i: int,
        j: int,
        start: int,
        end: int,
        time: Timestamp,
    ) -> bool {
        &&& 0 <= r < self.routes@.len()
        &&& 0 <= i < j < self.routes@[r].num_stops
        &&& self.route_stop(r, i) == start
        &&& self.route_stop(r, j) == end
        &&& self.stop_lists(start, r)
        &&& self.routes@[r].num_trips > 0
        &&& self.departure(r, self.routes@[r].num_trips - 1, i) >= time
        &&& forall|t: int|
            0 <= t < self.routes@[r].num_trips ==> (#[trigger] self.arrival(r, t, j))
                < Timestamp::MAX
    }

    /// Some route takes a passenger who is at `start` at the time `time`
    /// to `end` without a change.
    pub open spec fn direct_ride(&self, start: int, end: int, time: Timestamp) -> bool {
        exists|r: int, i: int, j: int| #[trigger] self.rides_through(r, i, j, start, end, time)
    }

    /// No route calls at stop `s`.
    pub open spec fn no_route_calls_at(&self, s: int) -> bool {
        forall|r: int| 0 <= r < self.routes@.len() ==> !#[trigger] self.route_calls_at(r, s)
    }
}

/// The trip to board at a place of a route for a passenger who is there at
/// the time `time`: going back from the trip before `before`, the last trip
/// in the unbroken run of trips that leave the place at `time` or later,
/// with the time at which it leaves. Nothing where the trip just before
/// `before` leaves earlier, or there is none.
pub fn earliest_trip(
    network: &Network,
    route_idx: usize,
    stop_order: usize,
    time: Timestamp,
    before: usize,
) -> (r: Option<(usize, Timestamp)>)
    requires
        network.wf(),
        route_idx < network.routes@.len(),
        stop_order < network.routes@[route_idx as int].num_stops,
        before <= network.routes@[route_idx as int].num_trips,
    ensures
        r is None <==> before == 0 || network.departure(
            route_idx as int,
            before - 1,
            stop_order as int,
        ) < time,
        r matches Some((t, d)) ==> t < before && d == network.departure(
            route_idx as int,
            t as int,
            stop_order as int,
        ) && (forall|u: int|
            t <= u < before ==> time <= #[trigger] network.departure(
                route_idx as int,
                u,
                stop_order as int,
            )) && (t == 0 || network.departure(route_idx as int, t - 1, stop_order as int) < time),
        run_start(*network, route_idx as int, stop_order as int, time as int, before as int)
            == match r {
            Some((t, _)) => t as int,
            None => before as int,
        },
{
    let mut found: Option<(usize, Timestamp)> = None;
    let mut t: usize = before;
    while t > 0
        invariant
            network.wf(),
            route_idx < network.routes@.len(),
            stop_order < network.routes@[route_idx as int].num_stops,
            t <= before <= network.routes@[route_idx as int].num_trips,
            found is None <==> t == before,
            found matches Some((f, d)) ==> f == t && d == network.departure(
                route_idx as int,
                f as int,
                stop_order as int,
            ),
            forall|u: int|
                t <= u < before ==> time <= #[trigger] network.departure(
                    route_idx as int,
                    u,
                    stop_order as int,
                ),
        decreases t,
    {
        let departure = network.get_departure_time(route_idx, t - 1, stop_order);
        if departure < time {
            proof {
                lemma_run_start(
                    *network,
                    route_idx as int,
                    stop_order as int,
                    time as int,
                    before as int,
                    t as int,
                );
            }
            return found;
        }
        t -= 1;
        found = Some((t, departure));
    }
    proof {
        lemma_run_start(*network, route_idx as int, stop_order as int, time as int, before as int, 0);
    }
    found
}

/// Where no trip overtakes another at a place of a route, the trip that
/// `earliest_trip` gives is the first of the trips before `before` that
/// leaves the place at `time` or later: a trip that leaves at exactly `time`
/// can be boarded.
pub proof fn lemma_earliest_trip(
    network: Network,
    route_idx: int,
    stop_order: int,
    time: Timestamp,
    before: int,
    t: int,
)
    requires
        0 <= t < before,
        forall|a: int, b: int|
            0 <= a <= b < before ==> network.departure(route_idx, a, stop_order)
                <= network.departure(route_idx, b, stop_order),
        forall|u: int|
            t <= u < before ==> time <= #[trigger] network.departure(route_idx, u, stop_order),
        t == 0 || network.departure(route_idx, t - 1, stop_order) < time,
    ensures
        time <= network.departure(route_idx, t, stop_order),
        forall|u: int|
            0 <= u < t ==> (#[trigger] network.departure(route_idx, u, stop_order)) < time,
{
    assert forall|u: int| 0 <= u < t implies (#[trigger] network.departure(
        route_idx,
        u,
        stop_order,
    )) < time by {
        assert(network.departure(route_idx, u, stop_order) <= network.departure(
            route_idx,
            t - 1,
            stop_order,
        ));
    }
}

/// Place `i` of route `r` is a marked stop that lists the route.
pub open spec fn marked_call(n: Network, marks: Seq<bool>, r: int, i: int) -> bool {
    &&& 0 <= i < n.routes@[r].num_stops
    &&& marks[n.route_stop(r, i) as int]
    &&& n.stop_lists(n.route_stop(r, i) as int, r)
}

/// Place `o` is the first place of route `r` that is a marked stop which
/// lists the route.
pub open spec fn first_marked_call(n: Network, marks: Seq<bool>, r: int, o: int) -> bool {
    &&& marked_call(n, marks, r, o)
    &&& forall|i: int| 0 <= i < o ==> !marked_call(n, marks, r, i)
}

/// Stop `s` lists route `r` in an entry that comes before the entry `at_k`
/// of the stop `at_s`.
pub open spec fn listed_before(n: Network, s: int, r: int, at_s: int, at_k: int) -> bool {
    exists|k: int|
        0 <= k < n.stops@[s].num_routes && #[trigger] n.stop_route(s, k) == r && (s < at_s || (s
            == at_s && k < at_k))
}

/// Place `i` of route `r` is a marked stop that lists the route in an entry
/// before the entry `at_k` of the stop `at_s`.
pub open spec fn seen_call(n: Network, marks: Seq<bool>, r: int, i: int, at_s: int, at_k: int) -> bool {
    &&& 0 <= i < n.routes@[r].num_stops
    &&& marks[n.route_stop(r, i) as int]
    &&& listed_before(n, n.route_stop(r, i) as int, r, at_s, at_k)
}

/// What the search for the routes to scan keeps true: the place found for a
/// route is the first place of a marked stop among the entries seen.
pub open spec fn earliest_ok(
    n: Network,
    marks: Seq<bool>,
    earliest: Seq<Option<usize>>,
    at_s: int,
    at_k: int,
) -> bool {
    &&& earliest.len() == n.routes@.len()
    &&& forall|r: int|
        0 <= r < earliest.len() ==> match #[trigger] earliest[r] {
            Some(o) => seen_call(n, marks, r, o as int, at_s, at_k) && forall|i: int|
                0 <= i < o ==> !seen_call(n, marks, r, i, at_s, at_k),
            None => forall|i: int| !seen_call(n, marks, r, i, at_s, at_k),
        }
}

/// Going on from a stop that is not marked, or from the last entry of a
/// stop, to the next stop keeps what the search keeps true.
proof fn lemma_next_stop(n: Network, marks: Seq<bool>, earliest: Seq<Option<usize>>, s: int, k: int)
    requires
        0 <= s < n.stops@.len(),
        marks.len() == n.stops@.len(),
        earliest_ok(n, marks, earliest, s, k),
        !marks[s] || k >= n.stops@[s].num_routes,
    ensures
        earliest_ok(n, marks, earliest, s + 1, 0),
{
    let s1 = s + 1;
    assert forall|r: int, i: int| #![trigger seen_call(n, marks, r, i, s1, 0)]
        seen_call(n, marks, r, i, s1, 0) == seen_call(n, marks, r, i, s, k) by {
        let x = n.route_stop(r, i) as int;
        if listed_before(n, x, r, s1, 0) {
            let w = choose|w: int|
                0 <= w < n.stops@[x].num_routes && #[trigger] n.stop_route(x, w) == r && (x < s1
                    || (x == s1 && w < 0));
            assert(n.stop_route(x, w) == r);
        }
        if listed_before(n, x, r, s, k) {
            let w = choose|w: int|
                0 <= w < n.stops@[x].num_routes && #[trigger] n.stop_route(x, w) == r && (x < s || (x
                    == s && w < k));
            assert(n.stop_route(x, w) == r);
        }
    }
    assert forall|r: int| 0 <= r < earliest.len() implies match #[trigger] earliest[r] {
        Some(o) => seen_call(n, marks, r, o as int, s1, 0) && forall|i: int|
            0 <= i < o ==> !seen_call(n, marks, r, i, s1, 0),
        None => forall|i: int| !seen_call(n, marks, r, i, s1, 0),
    } by {
        match earliest[r] {
            Some(o) => {
                assert(seen_call(n, marks, r, o as int, s, k));
                assert forall|i: int| 0 <= i < o implies !seen_call(n, marks, r, i, s1, 0) by {
                    assert(!seen_call(n, marks, r, i, s, k));
                }
            },
            None => {
                assert forall|i: int| !seen_call(n, marks, r, i, s1, 0) by {
                    assert(!seen_call(n, marks, r, i, s, k));
                }
            },
        }
    }
}

/// Taking in the entry `k` of the marked stop `s`, which lists the route
/// `route`, keeps what the search keeps true: `found` is the first place of
/// the stop in the route before the place found so far, if there is one.
proof fn lemma_next_entry(
    n: Network,
    marks: Seq<bool>,
    before: Seq<Option<usize>>,
    after: Seq<Option<usize>>,
    s: int,
    k: int,
    route: int,
    limit: int,
    found: Option<usize>,
)
    requires
        n.wf(),
        0 <= s < n.stops@.len(),
        marks.len() == n.stops@.len(),
        marks[s],
        0 <= k < n.stops@[s].num_routes,
        route == n.stop_route(s, k),
        0 <= route < n.routes@.len(),
        earliest_ok(n, marks, before, s, k),
        limit == match before[route] {
            Some(o) => o as int,
            None => n.routes@[route].num_stops as int,
        },
        match found {
            Some(j) => j < limit && n.route_stop(route, j as int) == s && forall|i: int|
                0 <= i < j ==> n.route_stop(route, i) != s,
            None => forall|i: int| 0 <= i < limit ==> n.route_stop(route, i) != s,
        },
        after == match found {
            Some(j) => before.update(route, Some(j)),
            None => before,
        },
    ensures
        earliest_ok(n, marks, after, s, k + 1),
{
    let k1 = k + 1;
    // What an entry adds to what has been seen.
    assert forall|r: int, i: int| #![trigger seen_call(n, marks, r, i, s, k1)]
        seen_call(n, marks, r, i, s, k1) ==> seen_call(n, marks, r, i, s, k) || (r == route
            && n.route_stop(r, i) == s) by {
        let x = n.route_stop(r, i) as int;
        if listed_before(n, x, r, s, k1) {
            let w = choose|w: int|
                0 <= w < n.stops@[x].num_routes && #[trigger] n.stop_route(x, w) == r && (x < s || (x
                    == s && w < k1));
            if !(x == s && w == k) {
                assert(n.stop_route(x, w) == r);
                assert(listed_before(n, x, r, s, k));
            }
        }
    }
    assert forall|r: int, i: int| #![trigger seen_call(n, marks, r, i, s, k)]
        seen_call(n, marks, r, i, s, k) ==> seen_call(n, marks, r, i, s, k1) by {
        let x = n.route_stop(r, i) as int;
        if listed_before(n, x, r, s, k) {
            let w = choose|w: int|
                0 <= w < n.stops@[x].num_routes && #[trigger] n.stop_route(x, w) == r && (x < s || (x
                    == s && w < k));
            assert(n.stop_route(x, w) == r);
        }
    }
    assert forall|r: int| 0 <= r < after.len() implies match #[trigger] after[r] {
        Some(o) => seen_call(n, marks, r, o as int, s, k1) && forall|i: int|
            0 <= i < o ==> !seen_call(n, marks, r, i, s, k1),
        None => forall|i: int| !seen_call(n, marks, r, i, s, k1),
    } by {
        if r == route && found is Some {
            let j = found.unwrap() as int;
            assert(n.route_wf(route));
            assert(n.stop_route(s, k) == route);
            assert(listed_before(n, s, route, s, k1));
            assert(seen_call(n, marks, r, j, s, k1));
            assert forall|i: int| 0 <= i < j implies !seen_call(n, marks, r, i, s, k1) by {
                match before[r] {
                    Some(o) => {
                        assert(!seen_call(n, marks, r, i, s, k));
                    },
                    None => {
                        assert(!seen_call(n, marks, r, i, s, k));
                    },
                }
            }
        } else {
            assert(after[r] == before[r]);
            match before[r] {
                Some(o) => {
                    assert(seen_call(n, marks, r, o as int, s, k));
                    assert forall|i: int| 0 <= i < o implies !seen_call(
                        n,
                        marks,
                        r,
                        i,
                        s,
                        k1,
                    ) by {
                        assert(!seen_call(n, marks, r, i, s, k));
                    }
                },
                None => {
                    assert forall|i: int| !seen_call(n, marks, r, i, s, k1) by {
                        assert(!seen_call(n, marks, r, i, s, k));
                        if r == route && 0 <= i < n.routes@[r].num_stops {
                            assert(n.route_stop(route, i) != s);
                        }
                    }
                },
            }
        }
    }
}

impl MarkedStops {
    /// The routes to scan in a round, each with the place from which to scan
    /// it: the routes that a marked stop lists and that call there, in order,
    /// each with the first place in which it calls at such a stop. The marks
    /// are taken off.
    #[verifier::rlimit(30)]
    pub fn iter_marked_routes(&mut self, network: &Network) -> (pairs: Vec<(usize, usize)>)
        requires
            network.wf(),
            old(self).marked_stops@.len() == network.stops@.len(),
        ensures
            final(self).marked_stops@.len() == old(self).marked_stops@.len(),
            forall|i: int| 0 <= i < final(self).marked_stops@.len() ==> !final(self).marked_stops@[i],
            forall|p: int|
                0 <= p < pairs@.len() ==> (#[trigger] pairs@[p]).0 < network.routes@.len()
                    && pairs@[p].1 < network.routes@[pairs@[p].0 as int].num_stops
                    && first_marked_call(
                    *network,
                    old(self).marked_stops@,
                    pairs@[p].0 as int,
                    pairs@[p].1 as int,
                ),
            forall|r: int, i: int|
                0 <= r < network.routes@.len() && #[trigger] marked_call(
                    *network,
                    old(self).marked_stops@,
                    r,
                    i,
                ) ==> exists|p: int| 0 <= p < pairs@.len() && (#[trigger] pairs@[p]).0 == r,
            forall|p: int, q: int| 0 <= p < q < pairs@.len() ==> pairs@[p].0 < pairs@[q].0,
    {
        let num_routes = network.routes.len();
        let num_stops = network.stops.len();
        let ghost marks = self.marked_stops@;
        let mut earliest_stop_for_route: Vec<Option<usize>> = vec![None; num_routes];
        proof {
            assert forall|r: int, i: int| !seen_call(*network, marks, r, i, 0, 0) by {
                let x = network.route_stop(r, i) as int;
                if listed_before(*network, x, r, 0, 0) {
                    let w = choose|w: int|
                        0 <= w < network.stops@[x].num_routes && #[trigger] network.stop_route(
                            x,
                            w,
                        ) == r && (x < 0 || (x == 0 && w < 0));
                }
            }
        }
        let mut marked_stop: usize = 0;
        while marked_stop < num_stops
            invariant
                network.wf(),
                self.marked_stops@ == marks,
                marks.len() == network.stops@.len(),
                num_stops == network.stops@.len(),
                num_routes == network.routes@.len(),
                marked_stop <= num_stops,
                earliest_ok(*network, marks, earliest_stop_for_route@, marked_stop as int, 0),
            decreases num_stops - marked_stop,
        {
            let mut k: usize = 0;
            if self.marked_stops[marked_stop] {
                assert(network.stop_wf(marked_stop as int));
                let stop = &network.stops[marked_stop];
                while k < stop.num_routes
                    invariant
                        network.wf(),
                        self.marked_stops@ == marks,
                        marks.len() == network.stops@.len(),
                        num_routes == network.routes@.len(),
                        marked_stop < network.stops@.len(),
                        marks[marked_stop as int],
                        *stop == network.stops@[marked_stop as int],
                        network.stop_wf(marked_stop as int),
                        k <= stop.num_routes,
                        earliest_ok(
                            *network,
                            marks,
                            earliest_stop_for_route@,
                            marked_stop as int,
                            k as int,
                        ),
                    decreases stop.num_routes - k,
                {
                    let route_idx = network.stop_routes[stop.routes_idx + k] as usize;
                    assert(route_idx == network.stop_route(marked_stop as int, k as int));
                    assert(network.route_wf(route_idx as int));
                    let route = &network.routes[route_idx];
                    let limit = match earliest_stop_for_route[route_idx] {
                        Some(o) => o,
                        None => route.num_stops as usize,
                    };
                    let ghost before = earliest_stop_for_route@;
                    let ghost mut found: Option<usize> = None;
                    assert(seen_call(*network, marks, route_idx as int, limit as int, marked_stop as int, k as int)
                        || limit == route.num_stops);
                    let mut stop_order: usize = 0;
                    while stop_order < limit
                        invariant_except_break
                            earliest_stop_for_route@ == before,
                            found is None,
                            forall|i: int|
                                0 <= i < stop_order ==> network.route_stop(route_idx as int, i)
                                    != marked_stop,
                        invariant
                            network.wf(),
                            route_idx < network.routes@.len(),
                            before.len() == network.routes@.len(),
                            *route == network.routes@[route_idx as int],
                            network.route_wf(route_idx as int),
                            limit <= route.num_stops,
                            stop_order <= limit,
                        ensures
                            match found {
                                Some(j) => j < limit && network.route_stop(
                                    route_idx as int,
                                    j as int,
                                ) == marked_stop && forall|i: int|
                                    0 <= i < j ==> network.route_stop(route_idx as int, i)
                                        != marked_stop,
                                None => forall|i: int|
                                    0 <= i < limit ==> network.route_stop(route_idx as int, i)
                                        != marked_stop,
                            },
                            earliest_stop_for_route@ == match found {
                                Some(j) => before.update(route_idx as int, Some(j)),
                                None => before,
                            },
                        decreases limit - stop_order,
                    {
                        let route_stop = network.get_stop_in_route(route_idx, stop_order);
                        if route_stop as usize == marked_stop {
                            earliest_stop_for_route[route_idx] = Some(stop_order);
                            proof {
                                found = Some(stop_order);
                            }
                            break;
                        }
                        stop_order += 1;
                    }
                    proof {
                        lemma_next_entry(
                            *network,
                            marks,
                            before,
                            earliest_stop_for_route@,
                            marked_stop as int,
                            k as int,
                            route_idx as int,
                            limit as int,
                            found,
                        );
                    }
                    k += 1;
                }
            }
            proof {
                lemma_next_stop(
                    *network,
                    marks,
                    earliest_stop_for_route@,
                    marked_stop as int,
                    k as int,
                );
            }
            marked_stop += 1;
        }
        let mut i: usize = 0;
        while i < num_stops
            invariant
                num_stops == self.marked_stops@.len() == marks.len(),
                i <= num_stops,
                forall|j: int| 0 <= j < i ==> !self.marked_stops@[j],
            decreases num_stops - i,
        {
            self.marked_stops[i] = false;
            i += 1;
        }
        proof {
            // With every entry seen, a call that was seen is a marked call.
            assert forall|r: int, i: int| #![trigger marked_call(*network, marks, r, i)]
                0 <= r < num_routes ==> (marked_call(*network, marks, r, i) <==> seen_call(
                    *network,
                    marks,
                    r,
                    i,
                    num_stops as int,
                    0,
                )) by {
                if 0 <= r < num_routes && 0 <= i < network.routes@[r].num_stops {
                    assert(network.route_wf(r));
                    let x = network.route_stop(r, i) as int;
                    if network.stop_lists(x, r) {
                        let w = choose|w: int|
                            0 <= w < network.stops@[x].num_routes && #[trigger] network.stop_route(
                                x,
                                w,
                            ) == r;
                        assert(listed_before(*network, x, r, num_stops as int, 0));
                    }
                    if listed_before(*network, x, r, num_stops as int, 0) {
                        let w = choose|w: int|
                            0 <= w < network.stops@[x].num_routes && #[trigger] network.stop_route(
                                x,
                                w,
                            ) == r && (x < num_stops || (x == num_stops && w < 0));
                        assert(network.stop_lists(x, r));
                    }
                }
            }
        }
        let mut pairs: Vec<(usize, usize)> = Vec::new();
        let mut r: usize = 0;
        while r < num_routes
            invariant
                network.wf(),
                num_routes == network.routes@.len(),
                num_stops == network.stops@.len(),
                r <= num_routes,
                marks == old(self).marked_stops@,
                marks.len() == num_stops,
                earliest_ok(*network, marks, earliest_stop_for_route@, num_stops as int, 0),
                forall|r: int, i: int| #![trigger marked_call(*network, marks, r, i)]
                    0 <= r < num_routes ==> (marked_call(*network, marks, r, i) <==> seen_call(
                        *network,
                        marks,
                        r,
                        i,
                        num_stops as int,
                        0,
                    )),
                forall|p: int|
                    0 <= p < pairs@.len() ==> (#[trigger] pairs@[p]).0 < r && pairs@[p].1
                        < network.routes@[pairs@[p].0 as int].num_stops && first_marked_call(
                        *network,
                        marks,
                        pairs@[p].0 as int,
                        pairs@[p].1 as int,
                    ),
                forall|x: int, i: int|
                    0 <= x < r && #[trigger] marked_call(*network, marks, x, i) ==> exists|p: int|
                        0 <= p < pairs@.len() && (#[trigger] pairs@[p]).0 == x,
                forall|p: int, q: int| 0 <= p < q < pairs@.len() ==> pairs@[p].0 < pairs@[q].0,
            decreases num_routes - r,
        {
            let ghost before = pairs@;
            match earliest_stop_for_route[r] {
                Some(o) => {
                    proof {
                        assert(seen_call(*network, marks, r as int, o as int, num_stops as int, 0));
                        assert(marked_call(*network, marks, r as int, o as int));
                        assert forall|i: int| 0 <= i < o implies !marked_call(
                            *network,
                            marks,
                            r as int,
                            i,
                        ) by {
                            assert(!seen_call(*network, marks, r as int, i, num_stops as int, 0));
                        }
                    }
                    pairs.push((r, o));
                },
                None => {},
            }
            proof {
                assert forall|x: int, i: int|
                    0 <= x < r + 1 && #[trigger] marked_call(
                        *network,
                        marks,
                        x,
                        i,
                    ) implies exists|p: int|
                    0 <= p < pairs@.len() && (#[trigger] pairs@[p]).0 == x by {
                    if x < r {
                        let p = choose|p: int| 0 <= p < before.len() && (#[trigger] before[p]).0 == x;
                        assert(pairs@[p].0 == x);
                    } else {
                        assert(seen_call(*network, marks, x, i, num_stops as int, 0));
                        assert(earliest_stop_for_route@[x] is Some);
                        assert(pairs@[before.len() as int].0 == x);
                    }
                }
            }
            r += 1;
        }
        pairs
    }
}

/// No trip of the network is at a stop before it has left an earlier one.
#[verifier::opaque]
pub closed spec fn runs_forward(n: Network) -> bool {
    n.time_consistent()
}

/// No trip of the network overtakes another of its route.
#[verifier::opaque]
pub closed spec fn keeps_order(n: Network) -> bool {
    n.no_overtaking()
}

/// What `runs_forward` says.
proof fn lemma_runs_forward(n: Network)
    ensures
        runs_forward(n) == n.time_consistent(),
{
    reveal(runs_forward);
}

/// What `keeps_order` says.
proof fn lemma_keeps_order(n: Network)
    ensures
        keeps_order(n) == n.no_overtaking(),
{
    reveal(keeps_order);
}

/// Where trips run forward, a trip is at a later place no earlier than it
/// has left an earlier place.
proof fn lemma_forward(n: Network, r: int, t: int, i: int, j: int)
    requires
        runs_forward(n),
        0 <= r < n.routes@.len(),
        0 <= t < n.routes@[r].num_trips,
        0 <= i < j < n.routes@[r].num_stops,
    ensures
        n.departure(r, t, i) <= n.arrival(r, t, j),
{
    reveal(runs_forward);
}

/// Where trips keep their order, an earlier trip neither leaves nor arrives
/// after a later one.
proof fn lemma_in_order(n: Network, r: int, a: int, b: int, i: int)
    requires
        keeps_order(n),
        0 <= r < n.routes@.len(),
        0 <= a <= b < n.routes@[r].num_trips,
        0 <= i < n.routes@[r].num_stops,
    ensures
        n.departure(r, a, i) <= n.departure(r, b, i),
        n.arrival(r, a, i) <= n.arrival(r, b, i),
{
    reveal(keeps_order);
    if a < b {
        assert(n.stop_time(r, a, i).departure_time <= n.stop_time(r, b, i).departure_time);
    }
}

/// A ride on one trip: the route, the trip, the place of boarding and the
/// place of leaving.
pub type Ride = (int, int, int, int);

/// The ride names a trip of the network and two places of its route, the
/// second after the first.
pub open spec fn is_ride(n: Network, ride: Ride) -> bool {
    &&& 0 <= ride.0 < n.routes@.len()
    &&& 0 <= ride.1 < n.routes@[ride.0].num_trips
    &&& 0 <= ride.2 < ride.3 < n.routes@[ride.0].num_stops
}

/// The stop where the ride begins.
pub open spec fn ride_from(n: Network, ride: Ride) -> int {
    n.route_stop(ride.0, ride.2) as int
}

/// The stop where the ride ends.
pub open spec fn ride_to(n: Network, ride: Ride) -> int {
    n.route_stop(ride.0, ride.3) as int
}

/// When the ride begins.
pub open spec fn ride_leaves(n: Network, ride: Ride) -> Timestamp {
    n.departure(ride.0, ride.1, ride.2)
}

/// When the ride ends.
pub open spec fn ride_arrives(n: Network, ride: Ride) -> Timestamp {
    n.arrival(ride.0, ride.1, ride.3)
}

/// The rides make a journey from `start` at the time `start_time` or later:
/// the first begins at `start`, and each of the others where the one before
/// it ended, after the time for a change.
pub open spec fn is_chain(n: Network, start: int, start_time: Timestamp, rides: Seq<Ride>) -> bool {
    &&& rides.len() > 0
    &&& forall|l: int| 0 <= l < rides.len() ==> is_ride(n, #[trigger] rides[l])
    &&& ride_from(n, rides[0]) == start
    &&& ride_leaves(n, rides[0]) >= start_time
    &&& forall|l: int|
        0 <= l < rides.len() - 1 ==> ride_to(n, #[trigger] rides[l]) == ride_from(n, rides[l + 1])
            && ride_leaves(n, rides[l + 1]) >= after_transfer(
            ride_arrives(n, rides[l]),
            n.transfer_times@[ride_to(n, rides[l])],
        )
}

/// The scan has caught an arrival at stop `s` at the time `at`: the stop,
/// or the destination, is reached no later.
pub open spec fn caught(tau_star: Seq<TauEntry>, end: int, s: int, at: Timestamp) -> bool {
    tau_star[s].time <= at || tau_star[end].time <= at
}

/// The scan has caught the arrival of a ride.
pub open spec fn caught_ride(n: Network, tau_star: Seq<TauEntry>, end: int, ride: Ride) -> bool {
    caught(tau_star, end, ride_to(n, ride), ride_arrives(n, ride))
}

/// The scan has caught the arrival of every journey of up to `k` rides.
pub open spec fn covers(
    n: Network,
    start: int,
    start_time: Timestamp,
    end: int,
    tau_star: Seq<TauEntry>,
    k: int,
) -> bool {
    forall|rides: Seq<Ride>| #[trigger]
        is_chain(n, start, start_time, rides) && rides.len() <= k ==> caught_ride(
            n,
            tau_star,
            end,
            rides.last(),
        )
}

/// No journey of up to `most` rides from `start` at the time `start_time` or
/// later is at `end` before the time `at`.
pub open spec fn earliest_by_rides(
    n: Network,
    start: int,
    start_time: Timestamp,
    end: int,
    most: int,
    at: Timestamp,
) -> bool {
    forall|rides: Seq<Ride>| #[trigger]
        is_chain(n, start, start_time, rides) && rides.len() <= most && ride_to(n, rides.last())
            == end ==> at <= ride_arrives(n, rides.last())
}

/// The time from which a passenger who has been at a stop since `reached`
/// boards in round `k`: no time for a change is counted in the first round.
pub open spec fn board_time(reached: Timestamp, k: int, transfer: Timestamp) -> int {
    if k > 1 {
        after_transfer(reached, transfer)
    } else {
        reached as int
    }
}

/// The scan has caught the rides of the passengers who wait since a round
/// before the last: `prev` holds the arrivals of the last round.
pub open spec fn scanned_ok(n: Network, end: int, tau_star: Seq<TauEntry>, prev: Seq<Timestamp>) -> bool {
    forall|ride: Ride| #[trigger]
        is_ride(n, ride) && prev[ride_from(n, ride)] == Timestamp::MAX && tau_star[ride_from(
            n,
            ride,
        )].time < Timestamp::MAX && ride_leaves(n, ride) >= after_transfer(
            tau_star[ride_from(n, ride)].time,
            n.transfer_times@[ride_from(n, ride)],
        ) ==> caught_ride(n, tau_star, end, ride)
}

/// The scan has caught the rides that begin at `start` at the time
/// `start_time` or later.
pub open spec fn first_ok(n: Network, start: int, start_time: Timestamp, end: int, tau_star: Seq<TauEntry>) -> bool {
    forall|ride: Ride| #[trigger]
        is_ride(n, ride) && ride_from(n, ride) == start && ride_leaves(n, ride) >= start_time
            ==> caught_ride(n, tau_star, end, ride)
}

/// Round `k` has caught the rides of the passengers who wait since the
/// round before.
pub open spec fn round_done(n: Network, end: int, tau_star: Seq<TauEntry>, prev: Seq<Timestamp>, k: int) -> bool {
    forall|ride: Ride| #[trigger]
        is_ride(n, ride) && prev[ride_from(n, ride)] != Timestamp::MAX && ride_leaves(n, ride)
            >= board_time(
            prev[ride_from(n, ride)],
            k,
            n.transfer_times@[ride_from(n, ride)],
        ) ==> caught_ride(n, tau_star, end, ride)
}

/// No arrival is later than it was.
pub open spec fn no_later(before: Seq<TauEntry>, after: Seq<TauEntry>) -> bool {
    &&& after.len() == before.len()
    &&& forall|s: int| 0 <= s < before.len() ==> (#[trigger] after[s]).time <= before[s].time
}

/// A journey without its last ride is a journey.
proof fn lemma_shorter_chain(n: Network, start: int, start_time: Timestamp, rides: Seq<Ride>)
    requires
        is_chain(n, start, start_time, rides),
        rides.len() > 1,
    ensures
        is_chain(n, start, start_time, rides.drop_last()),
{
    let shorter = rides.drop_last();
    assert forall|l: int| 0 <= l < shorter.len() implies is_ride(n, #[trigger] shorter[l]) by {
        assert(shorter[l] == rides[l]);
    }
    assert forall|l: int| 0 <= l < shorter.len() - 1 implies ride_to(n, #[trigger] shorter[l])
        == ride_from(n, shorter[l + 1]) && ride_leaves(n, shorter[l + 1]) >= after_transfer(
        ride_arrives(n, shorter[l]),
        n.transfer_times@[ride_to(n, shorter[l])],
    ) by {
        assert(shorter[l] == rides[l]);
        assert(shorter[l + 1] == rides[l + 1]);
    }
    assert(shorter[0] == rides[0]);
}

/// A round that has caught the rides of the passengers who wait takes the
/// scan from the journeys of up to `k - 1` rides to those of up to `k`.
proof fn lemma_covers_more(
    n: Network,
    start: int,
    start_time: Timestamp,
    end: int,
    before: Seq<TauEntry>,
    prev: Seq<Timestamp>,
    after: Seq<TauEntry>,
    k: int,
)
    requires
        n.wf(),
        runs_forward(n),
        k >= 1,
        0 <= end < before.len(),
        before.len() == n.stops@.len(),
        prev.len() == before.len(),
        no_later(before, after),
        covers(n, start, start_time, end, before, k - 1),
        scanned_ok(n, end, before, prev),
        round_done(n, end, after, prev, k),
        first_ok(n, start, start_time, end, after),
        forall|s: int|
            0 <= s < prev.len() && (#[trigger] prev[s]) != Timestamp::MAX ==> prev[s]
                == before[s].time,
    ensures
        covers(n, start, start_time, end, after, k),
{
    assert forall|rides: Seq<Ride>| #[trigger]
        is_chain(n, start, start_time, rides) && rides.len() <= k implies caught_ride(
        n,
        after,
        end,
        rides.last(),
    ) by {
        let ride = rides.last();
        assert(is_ride(n, rides[rides.len() - 1]));
        assert(n.route_wf(ride.0));
        assert(n.route_stop(ride.0, ride.3) < n.stops@.len());
        assert(n.route_stop(ride.0, ride.2) < n.stops@.len());
        if rides.len() == 1 {
            assert(rides[0] == ride);
        } else {
            let shorter = rides.drop_last();
            lemma_shorter_chain(n, start, start_time, rides);
            let last = shorter.last();
            assert(last == rides[rides.len() - 2]);
            assert(is_ride(n, rides[rides.len() - 2]));
            assert(caught_ride(n, before, end, last));
            let x = ride_from(n, ride);
            assert(ride_to(n, rides[rides.len() - 2]) == ride_from(n, rides[rides.len() - 2 + 1]));
            assert(x == ride_to(n, last));
            let reached = ride_arrives(n, last);
            assert(ride_leaves(n, ride) >= after_transfer(reached, n.transfer_times@[x]));
            lemma_forward(n, ride.0, ride.1, ride.2, ride.3);
            if before[end].time <= reached {
                assert(after[end].time <= before[end].time);
            } else {
                assert(before[x].time <= reached);
                if prev[x] == Timestamp::MAX {
                    assert(caught_ride(n, before, end, ride));
                    assert(after[ride_to(n, ride)].time <= before[ride_to(n, ride)].time);
                    assert(after[end].time <= before[end].time);
                } else {
                    assert(caught_ride(n, after, end, ride));
                }
            }
        }
    }
}

/// After a round, the passengers who were caught before and those who
/// waited in the round are caught: all but those who arrived in the round.
proof fn lemma_scanned_more(
    n: Network,
    end: int,
    before: Seq<TauEntry>,
    prev: Seq<Timestamp>,
    after: Seq<TauEntry>,
    round: Seq<Timestamp>,
    k: int,
)
    requires
        n.wf(),
        k >= 1,
        0 <= end < before.len(),
        before.len() == n.stops@.len(),
        prev.len() == before.len(),
        round.len() == before.len(),
        no_later(before, after),
        scanned_ok(n, end, before, prev),
        round_done(n, end, after, prev, k),
        forall|s: int|
            0 <= s < prev.len() && (#[trigger] prev[s]) != Timestamp::MAX ==> prev[s]
                == before[s].time,
        forall|s: int|
            0 <= s < round.len() && (#[trigger] round[s]) == Timestamp::MAX ==> after[s].time
                == before[s].time,
    ensures
        scanned_ok(n, end, after, round),
{
    assert forall|ride: Ride| #[trigger]
        is_ride(n, ride) && round[ride_from(n, ride)] == Timestamp::MAX && after[ride_from(
            n,
            ride,
        )].time < Timestamp::MAX && ride_leaves(n, ride) >= after_transfer(
            after[ride_from(n, ride)].time,
            n.transfer_times@[ride_from(n, ride)],
        ) implies caught_ride(n, after, end, ride) by {
        let x = ride_from(n, ride);
        assert(n.route_wf(ride.0));
        assert(n.route_stop(ride.0, ride.3) < n.stops@.len());
        assert(n.route_stop(ride.0, ride.2) < n.stops@.len());
        if prev[x] == Timestamp::MAX {
            assert(caught_ride(n, before, end, ride));
            assert(after[ride_to(n, ride)].time <= before[ride_to(n, ride)].time);
            assert(after[end].time <= before[end].time);
        }
    }
}

/// Every stop lists exactly the routes that call at it.
#[verifier::opaque]
pub closed spec fn lists_all(n: Network) -> bool {
    n.stop_routes_consistent()
}

/// What `lists_all` says.
proof fn lemma_lists_all(n: Network)
    ensures
        lists_all(n) == n.stop_routes_consistent(),
{
    reveal(lists_all);
}

/// A passenger who waits at place `i` of route `r` since the round before
/// round `k` can board trip `t` there: the trip leaves after the passenger
/// is ready.
pub open spec fn waits(n: Network, prev: Seq<Timestamp>, k: int, r: int, i: int, t: int) -> bool {
    &&& 0 <= i < n.routes@[r].num_stops
    &&& 0 <= t < n.routes@[r].num_trips
    &&& prev[n.route_stop(r, i) as int] != Timestamp::MAX
    &&& n.departure(r, t, i) >= board_time(
        prev[n.route_stop(r, i) as int],
        k,
        n.transfer_times@[n.route_stop(r, i) as int],
    )
}

/// The scan of route `r` rides a trip that is no later than any that a
/// passenger who waits at a place before `place` can board.
pub open spec fn aboard(
    n: Network,
    prev: Seq<Timestamp>,
    k: int,
    r: int,
    place: int,
    boarding: Option<Boarding>,
) -> bool {
    forall|i: int, t: int|
        0 <= i < place && #[trigger] waits(n, prev, k, r, i, t) ==> (boarding matches Some(b)
            && b.trip.trip_order <= t)
}

/// The scan has caught the arrival of trip `t` of route `r` at place `j`.
pub open spec fn caught_at(n: Network, tau_star: Seq<TauEntry>, end: int, r: int, t: int, j: int) -> bool {
    caught(tau_star, end, n.route_stop(r, j) as int, n.arrival(r, t, j))
}

/// The scan of route `r` has caught, at the places before `place`, the
/// arrivals of the trips that a passenger who waits at an earlier place can
/// board.
pub open spec fn caught_along(
    n: Network,
    end: int,
    tau_star: Seq<TauEntry>,
    prev: Seq<Timestamp>,
    k: int,
    r: int,
    place: int,
) -> bool {
    forall|i: int, t: int, j: int|
        0 <= i < j < place && j < n.routes@[r].num_stops && #[trigger] waits(n, prev, k, r, i, t)
            ==> #[trigger] caught_at(n, tau_star, end, r, t, j)
}

/// What is caught stays caught when arrivals get earlier.
proof fn lemma_caught_along_later(
    n: Network,
    end: int,
    before: Seq<TauEntry>,
    after: Seq<TauEntry>,
    prev: Seq<Timestamp>,
    k: int,
    r: int,
    place: int,
)
    requires
        n.wf(),
        0 <= r < n.routes@.len(),
        0 <= end < before.len(),
        before.len() == n.stops@.len(),
        no_later(before, after),
        caught_along(n, end, before, prev, k, r, place),
    ensures
        caught_along(n, end, after, prev, k, r, place),
{
    assert(n.route_wf(r));
    assert forall|i: int, t: int, j: int|
        0 <= i < j < place && j < n.routes@[r].num_stops && #[trigger] waits(
            n,
            prev,
            k,
            r,
            i,
            t,
        ) implies #[trigger] caught_at(n, after, end, r, t, j) by {
        assert(caught_at(n, before, end, r, t, j));
        assert(n.route_stop(r, j) < n.stops@.len());
        assert(after[n.route_stop(r, j) as int].time <= before[n.route_stop(r, j) as int].time);
        assert(after[end].time <= before[end].time);
    }
}

/// At a place, the scan catches the arrivals of the trips that a passenger
/// who waits at an earlier place can board: the trip that it rides is no
/// later than they, and its arrival is caught.
proof fn lemma_scan_arrival(
    n: Network,
    end: int,
    before: Seq<TauEntry>,
    after: Seq<TauEntry>,
    prev: Seq<Timestamp>,
    k: int,
    r: int,
    place: int,
    boarding: Option<Boarding>,
)
    requires
        n.wf(),
        keeps_order(n),
        0 <= r < n.routes@.len(),
        0 <= place < n.routes@[r].num_stops,
        0 <= end < before.len(),
        before.len() == n.stops@.len(),
        no_later(before, after),
        aboard(n, prev, k, r, place, boarding),
        caught_along(n, end, before, prev, k, r, place),
        boarding matches Some(b) ==> b.trip.trip_order < n.routes@[r].num_trips && caught_at(
            n,
            after,
            end,
            r,
            b.trip.trip_order as int,
            place,
        ),
    ensures
        caught_along(n, end, after, prev, k, r, place + 1),
{
    lemma_caught_along_later(n, end, before, after, prev, k, r, place);
    assert forall|i: int, t: int, j: int|
        0 <= i < j < place + 1 && j < n.routes@[r].num_stops && #[trigger] waits(
            n,
            prev,
            k,
            r,
            i,
            t,
        ) implies #[trigger] caught_at(n, after, end, r, t, j) by {
        if j == place {
            let b = boarding.unwrap();
            lemma_in_order(n, r, b.trip.trip_order as int, t, place);
        }
    }
}

/// How the scan boards at a place of route `r`, for a passenger who has
/// been at the stop since `reached`: it stays as it is where the stop was
/// not reached, where the trip that it rides leaves too early for the
/// passenger, and where no earlier trip leaves late enough; else it takes
/// the first of the earlier trips that leave late enough.
pub open spec fn boards(
    n: Network,
    r: int,
    place: int,
    reached: Timestamp,
    k: int,
    transfer: Timestamp,
    before: Option<Boarding>,
    after: Option<Boarding>,
) -> bool {
    let ready = board_time(reached, k, transfer);
    let limit = match before {
        Some(b) => b.trip.trip_order as int,
        None => n.routes@[r].num_trips as int,
    };
    if reached == Timestamp::MAX {
        after == before
    } else if before is Some && ready > n.departure(r, limit, place) {
        after == before
    } else if limit == 0 || n.departure(r, limit - 1, place) < ready {
        after == before
    } else {
        &&& after matches Some(a)
        &&& a.trip.trip_order < limit
        &&& n.departure(r, a.trip.trip_order as int, place) >= ready
        &&& a.trip.trip_order == 0 || n.departure(r, a.trip.trip_order - 1, place) < ready
    }
}

/// After boarding at a place, the trip that the scan rides is no later than
/// any that a passenger who waits there, or at an earlier place, can board.
proof fn lemma_scan_board(
    n: Network,
    prev: Seq<Timestamp>,
    k: int,
    r: int,
    place: int,
    before: Option<Boarding>,
    after: Option<Boarding>,
)
    requires
        n.wf(),
        keeps_order(n),
        0 <= r < n.routes@.len(),
        0 <= place < n.routes@[r].num_stops,
        prev.len() == n.stops@.len(),
        aboard(n, prev, k, r, place, before),
        before matches Some(b) ==> b.trip.trip_order < n.routes@[r].num_trips,
        boards(
            n,
            r,
            place,
            prev[n.route_stop(r, place) as int],
            k,
            n.transfer_times@[n.route_stop(r, place) as int],
            before,
            after,
        ),
    ensures
        aboard(n, prev, k, r, place + 1, after),
{
    let x = n.route_stop(r, place) as int;
    let ready = board_time(prev[x], k, n.transfer_times@[x]);
    let limit = match before {
        Some(b) => b.trip.trip_order as int,
        None => n.routes@[r].num_trips as int,
    };
    assert forall|i: int, t: int| 0 <= i < place + 1 && #[trigger] waits(n, prev, k, r, i, t) implies (
    after matches Some(a) && a.trip.trip_order <= t) by {
        if i < place {
            assert(before is Some && before.unwrap().trip.trip_order <= t);
        } else {
            // The passenger waits here and can board trip `t`.
            if before is Some && ready > n.departure(r, limit, place) {
                if t < limit {
                    lemma_in_order(n, r, t, limit, place);
                }
            } else if limit == 0 || n.departure(r, limit - 1, place) < ready {
                if t < limit {
                    lemma_in_order(n, r, t, limit - 1, place);
                }
            } else {
                let a = after.unwrap();
                if a.trip.trip_order > t {
                    lemma_in_order(n, r, t, a.trip.trip_order - 1, place);
                }
            }
        }
    }
}

/// The routes scanned so far in a round: the scan has caught, along each,
/// the arrivals of the trips that a passenger who waits can board.
pub open spec fn routes_done(
    n: Network,
    end: int,
    tau_star: Seq<TauEntry>,
    prev: Seq<Timestamp>,
    k: int,
    routes: Seq<(usize, usize)>,
    p: int,
) -> bool {
    forall|q: int|
        0 <= q < p ==> caught_along(
            n,
            end,
            tau_star,
            prev,
            k,
            (#[trigger] routes[q]).0 as int,
            n.routes@[routes[q].0 as int].num_stops as int,
        )
}

proof fn lemma_routes_done_later(
    n: Network,
    end: int,
    before: Seq<TauEntry>,
    after: Seq<TauEntry>,
    prev: Seq<Timestamp>,
    k: int,
    routes: Seq<(usize, usize)>,
    p: int,
)
    requires
        n.wf(),
        0 <= end < before.len(),
        before.len() == n.stops@.len(),
        no_later(before, after),
        forall|q: int| 0 <= q < routes.len() ==> (#[trigger] routes[q]).0 < n.routes@.len(),
        0 <= p <= routes.len(),
        routes_done(n, end, before, prev, k, routes, p),
    ensures
        routes_done(n, end, after, prev, k, routes, p),
{
    assert forall|q: int| 0 <= q < p implies caught_along(
        n,
        end,
        after,
        prev,
        k,
        (#[trigger] routes[q]).0 as int,
        n.routes@[routes[q].0 as int].num_stops as int,
    ) by {
        lemma_caught_along_later(
            n,
            end,
            before,
            after,
            prev,
            k,
            routes[q].0 as int,
            n.routes@[routes[q].0 as int].num_stops as int,
        );
    }
}

/// The stops that are marked are those at which a passenger waits.
pub open spec fn marks_match(marks: Seq<bool>, prev: Seq<Timestamp>) -> bool {
    &&& marks.len() == prev.len()
    &&& forall|s: int| 0 <= s < marks.len() ==> (#[trigger] marks[s] <==> prev[s] != Timestamp::MAX)
}

/// No passenger waits at a place of a route before the first place that is
/// a marked stop.
proof fn lemma_scan_begins(
    n: Network,
    marks: Seq<bool>,
    prev: Seq<Timestamp>,
    k: int,
    r: int,
    o: int,
    end: int,
    tau_star: Seq<TauEntry>,
)
    requires
        n.wf(),
        lists_all(n),
        marks_match(marks, prev),
        marks.len() == n.stops@.len(),
        0 <= r < n.routes@.len(),
        first_marked_call(n, marks, r, o),
    ensures
        aboard(n, prev, k, r, o, None),
        caught_along(n, end, tau_star, prev, k, r, o),
{
    reveal(lists_all);
    assert(n.route_wf(r));
    assert forall|i: int, t: int| 0 <= i < o && #[trigger] waits(n, prev, k, r, i, t) implies false by {
        let x = n.route_stop(r, i) as int;
        assert(x < n.stops@.len());
        assert(n.route_calls_at(r, x));
        assert(n.stop_lists(x, r));
        assert(marks[x]);
        assert(marked_call(n, marks, r, i));
    }
}

/// When every route that a marked stop lists has been scanned, the round
/// has caught the rides of the passengers who wait.
proof fn lemma_round_done(
    n: Network,
    end: int,
    tau_star: Seq<TauEntry>,
    marks: Seq<bool>,
    prev: Seq<Timestamp>,
    k: int,
    routes: Seq<(usize, usize)>,
)
    requires
        n.wf(),
        lists_all(n),
        marks_match(marks, prev),
        marks.len() == n.stops@.len(),
        forall|r: int, i: int|
            0 <= r < n.routes@.len() && #[trigger] marked_call(n, marks, r, i) ==> exists|p: int|
                0 <= p < routes.len() && (#[trigger] routes[p]).0 == r,
        routes_done(n, end, tau_star, prev, k, routes, routes.len() as int),
    ensures
        round_done(n, end, tau_star, prev, k),
{
    reveal(lists_all);
    assert forall|ride: Ride| #[trigger]
        is_ride(n, ride) && prev[ride_from(n, ride)] != Timestamp::MAX && ride_leaves(n, ride)
            >= board_time(
            prev[ride_from(n, ride)],
            k,
            n.transfer_times@[ride_from(n, ride)],
        ) implies caught_ride(n, tau_star, end, ride) by {
        let (r, t, i, j) = ride;
        let x = n.route_stop(r, i) as int;
        assert(n.route_wf(r));
        assert(x < n.stops@.len());
        assert(n.route_calls_at(r, x));
        assert(n.stop_lists(x, r));
        assert(marked_call(n, marks, r, i));
        let p = choose|p: int| 0 <= p < routes.len() && (#[trigger] routes[p]).0 == r;
        assert(waits(n, prev, k, r, i, t));
        assert(caught_at(n, tau_star, end, r, t, j));
    }
}

/// Where no passenger waits any more, the scan has caught the journeys of
/// any number of rides.
proof fn lemma_covers_all(
    n: Network,
    start: int,
    start_time: Timestamp,
    end: int,
    tau_star: Seq<TauEntry>,
    round: Seq<Timestamp>,
    k: int,
    more: int,
)
    requires
        n.wf(),
        runs_forward(n),
        0 <= k <= more,
        0 <= end < tau_star.len(),
        tau_star.len() == n.stops@.len(),
        round.len() == tau_star.len(),
        forall|s: int| 0 <= s < round.len() ==> (#[trigger] round[s]) == Timestamp::MAX,
        covers(n, start, start_time, end, tau_star, k),
        scanned_ok(n, end, tau_star, round),
        first_ok(n, start, start_time, end, tau_star),
    ensures
        covers(n, start, start_time, end, tau_star, more),
    decreases more - k,
{
    if k < more {
        assert(round_done(n, end, tau_star, round, k + 1)) by {
            assert forall|ride: Ride| #[trigger]
                is_ride(n, ride) && round[ride_from(n, ride)] != Timestamp::MAX && ride_leaves(
                    n,
                    ride,
                ) >= board_time(
                    round[ride_from(n, ride)],
                    k + 1,
                    n.transfer_times@[ride_from(n, ride)],
                ) implies caught_ride(n, tau_star, end, ride) by {
                assert(n.route_wf(ride.0));
                assert(n.route_stop(ride.0, ride.2) < n.stops@.len());
            }
        }
        lemma_covers_more(n, start, start_time, end, tau_star, round, tau_star, k + 1);
        lemma_covers_all(n, start, start_time, end, tau_star, round, k + 1, more);
    }
}

/// What a round starts from: the stops that are marked are those at which
/// a passenger waits, and the routes to scan are those that a marked stop
/// lists, each with the first place of such a stop.
pub open spec fn to_scan(n: Network, marks: Seq<bool>, prev: Seq<Timestamp>, routes: Seq<(usize, usize)>) -> bool {
    &&& marks_match(marks, prev)
    &&& marks.len() == n.stops@.len()
    &&& forall|p: int|
        0 <= p < routes.len() ==> (#[trigger] routes[p]).0 < n.routes@.len() && first_marked_call(
            n,
            marks,
            routes[p].0 as int,
            routes[p].1 as int,
        )
    &&& forall|r: int, i: int|
        0 <= r < n.routes@.len() && #[trigger] marked_call(n, marks, r, i) ==> exists|p: int|
            0 <= p < routes.len() && (#[trigger] routes[p]).0 == r
}

/// What holds in a round of the arrivals at its beginning, the arrivals
/// now, those of the round and the marks: no arrival is later than it was,
/// and the stops that are marked are those with an arrival in the round,
/// which is their arrival now.
pub open spec fn round_state(
    begin: Seq<TauEntry>,
    tau_star: Seq<TauEntry>,
    round: Seq<Timestamp>,
    marks: Seq<bool>,
) -> bool {
    &&& no_later(begin, tau_star)
    &&& round.len() == tau_star.len()
    &&& marks_match(marks, round)
    &&& forall|s: int|
        0 <= s < round.len() ==> if (#[trigger] round[s]) == Timestamp::MAX {
            tau_star[s].time == begin[s].time
        } else {
            round[s] == tau_star[s].time
        }
}

/// What the scan has caught of the rides from `start` stays caught when
/// arrivals get earlier.
proof fn lemma_first_ok_later(
    n: Network,
    start: int,
    start_time: Timestamp,
    end: int,
    before: Seq<TauEntry>,
    after: Seq<TauEntry>,
)
    requires
        n.wf(),
        0 <= end < before.len(),
        before.len() == n.stops@.len(),
        no_later(before, after),
        first_ok(n, start, start_time, end, before),
    ensures
        first_ok(n, start, start_time, end, after),
{
    assert forall|ride: Ride| #[trigger]
        is_ride(n, ride) && ride_from(n, ride) == start && ride_leaves(n, ride)
            >= start_time implies caught_ride(n, after, end, ride) by {
        assert(n.route_wf(ride.0));
        assert(n.route_stop(ride.0, ride.3) < n.stops@.len());
        assert(caught_ride(n, before, end, ride));
        assert(after[ride_to(n, ride)].time <= before[ride_to(n, ride)].time);
        assert(after[end].time <= before[end].time);
    }
}

/// The first round catches the rides that begin at `start` at the time
/// `start_time` or later.
proof fn lemma_first_round(
    n: Network,
    start: int,
    start_time: Timestamp,
    end: int,
    tau_star: Seq<TauEntry>,
    prev: Seq<Timestamp>,
)
    requires
        0 <= start < prev.len(),
        prev[start] == start_time,
        start_time < Timestamp::MAX,
        round_done(n, end, tau_star, prev, 1),
    ensures
        first_ok(n, start, start_time, end, tau_star),
{
}

/// Before the first round, nothing is to be caught.
proof fn lemma_before_rounds(
    n: Network,
    start: int,
    start_time: Timestamp,
    end: int,
    tau_star: Seq<TauEntry>,
    prev: Seq<Timestamp>,
)
    requires
        n.wf(),
        0 <= start < prev.len(),
        tau_star.len() == n.stops@.len(),
        prev.len() == tau_star.len(),
        prev[start] != Timestamp::MAX,
        forall|s: int| 0 <= s < tau_star.len() && s != start ==> (#[trigger] tau_star[s]).time == Timestamp::MAX,
    ensures
        covers(n, start, start_time, end, tau_star, 0),
        scanned_ok(n, end, tau_star, prev),
{
    assert forall|ride: Ride| #[trigger]
        is_ride(n, ride) && prev[ride_from(n, ride)] == Timestamp::MAX && tau_star[ride_from(
            n,
            ride,
        )].time < Timestamp::MAX && ride_leaves(n, ride) >= after_transfer(
            tau_star[ride_from(n, ride)].time,
            n.transfer_times@[ride_from(n, ride)],
        ) implies caught_ride(n, tau_star, end, ride) by {
        assert(n.route_wf(ride.0));
        assert(n.route_stop(ride.0, ride.2) < n.stops@.len());
    }
}

/// The scan has caught the arrival of every journey of up to `k` rides
/// that ends at the destination: the destination is reached no later.
proof fn lemma_covers_end(
    n: Network,
    start: int,
    start_time: Timestamp,
    end: int,
    tau_star: Seq<TauEntry>,
    k: int,
    rides: Seq<Ride>,
)
    requires
        covers(n, start, start_time, end, tau_star, k),
        is_chain(n, start, start_time, rides),
        rides.len() <= k,
        ride_to(n, rides.last()) == end,
    ensures
        tau_star[end].time <= ride_arrives(n, rides.last()),
{
    assert(caught_ride(n, tau_star, end, rides.last()));
}

/// Stop `s` has been reached: it is the start, or it has a boarding.
pub open spec fn reached(tau_star: Seq<TauEntry>, start: int, s: int) -> bool {
    s == start || tau_star[s].boarding is Some
}

/// What the scan keeps true of the best arrivals: each boarding is a ride on
/// a trip of the network to the entry's stop, from a stop that has been
/// reached, after the arrival there and the time for a change.
pub open spec fn star_ok(n: Network, start: int, start_time: Timestamp, tau_star: Seq<TauEntry>) -> bool {
    &&& tau_wf(n, tau_star)
    &&& tau_linked(tau_star, start)
    &&& tau_in_time(tau_star)
    &&& tau_with_transfers(n, tau_star, start)
    &&& n.nothing_departs_from(start_time) ==> forall|s: int|
        0 <= s < tau_star.len() ==> (#[trigger] tau_star[s]).boarding is None
    &&& runs_forward(n) ==> tau_from(tau_star, start_time)
    &&& forall|s: int|
        0 <= s < tau_star.len() && (#[trigger] tau_star[s]).time < Timestamp::MAX ==> reached(
            tau_star,
            start,
            s,
        )
}

/// What the scan keeps true of the arrivals of one round: a stop with an
/// arrival has been reached, no later than the round says.
pub open spec fn round_ok(
    n: Network,
    start: int,
    start_time: Timestamp,
    tau_star: Seq<TauEntry>,
    round: Seq<Timestamp>,
) -> bool {
    &&& round.len() == tau_star.len()
    &&& forall|s: int|
        0 <= s < round.len() && (#[trigger] round[s]) < Timestamp::MAX ==> reached(
            tau_star,
            start,
            s,
        ) && tau_star[s].time <= round[s] && (n.nothing_departs_from(start_time)
            || runs_forward(n) ==> round[s] >= start_time)
}

/// What the scan keeps true of the trip that it rides along a route: it was
/// boarded before the place `stop_order`, at a stop that has been reached,
/// after the arrival there and the time for a change.
pub open spec fn boarding_ok(
    n: Network,
    start: int,
    start_time: Timestamp,
    tau_star: Seq<TauEntry>,
    route_idx: int,
    stop_order: int,
    boarding: Option<Boarding>,
) -> bool {
    boarding matches Some(b) ==> {
        &&& n.boarding_wf(b)
        &&& b.trip.route_idx == route_idx
        &&& b.boarded_stop_order < stop_order
        &&& reached(tau_star, start, b.boarded_stop as int)
        &&& tau_star[b.boarded_stop as int].time <= b.boarded_time
        &&& b.boarded_stop == start || b.boarded_time >= after_transfer(
            tau_star[b.boarded_stop as int].time,
            n.transfer_times@[b.boarded_stop as int],
        )
        &&& !n.nothing_departs_from(start_time)
        &&& runs_forward(n) ==> b.boarded_time >= start_time
    }
}

/// Writing a better arrival with its boarding keeps what the scan keeps
/// true.
proof fn lemma_improve(
    n: Network,
    start: int,
    start_time: Timestamp,
    tau_star: Seq<TauEntry>,
    s: int,
    stop_order: int,
    b: Boarding,
    arrival: Timestamp,
)
    requires
        n.wf(),
        0 <= start < tau_star.len(),
        0 <= s < tau_star.len(),
        star_ok(n, start, start_time, tau_star),
        boarding_ok(n, start, start_time, tau_star, b.trip.route_idx as int, stop_order, Some(b)),
        stop_order < n.routes@[b.trip.route_idx as int].num_stops,
        n.route_stop(b.trip.route_idx as int, stop_order) == s,
        n.arrival(b.trip.route_idx as int, b.trip.trip_order as int, stop_order) == arrival,
        arrival < tau_star[s].time,
    ensures
        star_ok(
            n,
            start,
            start_time,
            tau_star.update(s, TauEntry { time: arrival, boarding: Some(b) }),
        ),
{
    let after = tau_star.update(s, TauEntry { time: arrival, boarding: Some(b) });
    assert(n.route_wf(b.trip.route_idx as int));
    assert(n.route_stop(b.trip.route_idx as int, b.boarded_stop_order as int) < n.stops@.len());
    assert forall|x: int| 0 <= x < after.len() implies ((#[trigger] after[x]).boarding matches Some(
        bx,
    ) ==> n.boarding_wf(bx) && n.rides_to(bx, x, after[x].time)) by {
        if x != s {
            assert(after[x] == tau_star[x]);
        }
    }
    assert forall|x: int| 0 <= x < after.len() implies ((#[trigger] after[x]).boarding matches Some(
        bx,
    ) ==> bx.boarded_stop == start || after[bx.boarded_stop as int].boarding is Some) by {
        if x != s {
            assert(after[x] == tau_star[x]);
        }
        if after[x].boarding is Some {
            let bx = after[x].boarding.unwrap();
            assert(n.boarding_wf(bx));
            assert(n.route_wf(bx.trip.route_idx as int));
            assert(n.route_stop(bx.trip.route_idx as int, bx.boarded_stop_order as int)
                < n.stops@.len());
        }
    }
    assert forall|x: int| 0 <= x < after.len() implies ((#[trigger] after[x]).boarding matches Some(
        bx,
    ) ==> after[bx.boarded_stop as int].time <= bx.boarded_time) by {
        if x != s {
            assert(after[x] == tau_star[x]);
        }
        if after[x].boarding is Some {
            let bx = after[x].boarding.unwrap();
            assert(n.boarding_wf(bx));
            assert(n.route_wf(bx.trip.route_idx as int));
            assert(n.route_stop(bx.trip.route_idx as int, bx.boarded_stop_order as int)
                < n.stops@.len());
        }
    }
    if runs_forward(n) {
        assert forall|x: int| 0 <= x < after.len() implies ((
        #[trigger] after[x]).boarding matches Some(bx) ==> bx.boarded_time >= start_time) by {
            if x != s {
                assert(after[x] == tau_star[x]);
            }
        }
    }
    assert forall|x: int|
        0 <= x < after.len() && (#[trigger] after[x]).time < Timestamp::MAX implies reached(
        after,
        start,
        x,
    ) by {
        if x != s {
            assert(after[x] == tau_star[x]);
            assert(reached(tau_star, start, x));
        }
    }
    assert forall|x: int| 0 <= x < after.len() implies ((#[trigger] after[x]).boarding matches Some(
        bx,
    ) ==> bx.boarded_stop == start || bx.boarded_time >= after_transfer(
        after[bx.boarded_stop as int].time,
        n.transfer_times@[bx.boarded_stop as int],
    )) by {
        if x != s {
            assert(after[x] == tau_star[x]);
        }
        if after[x].boarding is Some {
            let bx = after[x].boarding.unwrap();
            assert(n.boarding_wf(bx));
            assert(n.route_wf(bx.trip.route_idx as int));
            assert(n.route_stop(bx.trip.route_idx as int, bx.boarded_stop_order as int)
                < n.stops@.len());
        }
    }
}

/// Writing a better arrival at a reached stop keeps what is true of a round
/// and of the trip that the scan rides.
proof fn lemma_improve_others(
    n: Network,
    start: int,
    start_time: Timestamp,
    tau_star: Seq<TauEntry>,
    s: int,
    entry: TauEntry,
    round: Seq<Timestamp>,
    route_idx: int,
    stop_order: int,
    boarding: Option<Boarding>,
)
    requires
        n.wf(),
        tau_star.len() == n.stops@.len(),
        0 <= s < tau_star.len(),
        entry.boarding is Some,
        entry.time <= tau_star[s].time,
        round_ok(n, start, start_time, tau_star, round),
        boarding_ok(n, start, start_time, tau_star, route_idx, stop_order, boarding),
    ensures
        round_ok(n, start, start_time, tau_star.update(s, entry), round),
        boarding_ok(n, start, start_time, tau_star.update(s, entry), route_idx, stop_order, boarding),
{
    let after = tau_star.update(s, entry);
    assert forall|x: int| 0 <= x < round.len() && (#[trigger] round[x]) < Timestamp::MAX implies reached(
        after,
        start,
        x,
    ) && after[x].time <= round[x] && (n.nothing_departs_from(start_time) || runs_forward(n)
        ==> round[x] >= start_time) by {
        assert(reached(tau_star, start, x));
    }
    if boarding is Some {
        let b = boarding.unwrap();
        assert(n.route_wf(b.trip.route_idx as int));
        assert(n.route_stop(b.trip.route_idx as int, b.boarded_stop_order as int) < n.stops@.len());
    }
}

/// The journey that leaves `start` at `start_time` or later and is at `end`
/// as early as the scan of the routes finds in seven rounds, each of which
/// adds one ride to the journeys of the round before.
#[verifier::rlimit(30)]
pub fn raptor_query<'a>(
    network: &'a Network,
    start: StopIndex,
    start_time: Timestamp,
    end: StopIndex,
) -> (r: Result<Journey<'a>, JourneyError>)
    requires
        network.wf(),
        start < network.stops@.len(),
        end < network.stops@.len(),
    ensures
        raptor_answer(network, start as int, start_time, end as int, r),
        start != end ==> match r {
            Ok(j) => {
                &&& legs_connected(j.legs@, start as int, end as int)
                &&& forall|i: int| 0 <= i < j.legs@.len() ==> leg_rides(*network, #[trigger] j.legs@[i])
                &&& legs_fit(*network, j.legs@)
                &&& legs_in_time(j.legs@)
                &&& legs_with_transfers(*network, j.legs@)
                &&& network.time_consistent() ==> legs_from(j.legs@, start_time)
            },
            Err(e) => e != JourneyError::ZeroAgents,
        },
        start != end && network.nothing_departs_from(start_time) ==> r == Err::<Journey<'a>, _>(
            JourneyError::NoJourneyFound,
        ),
        start != end && network.no_route_calls_at(end as int) ==> r == Err::<Journey<'a>, _>(
            JourneyError::NoJourneyFound,
        ),
        start != end && start_time < Timestamp::MAX && network.direct_ride(
            start as int,
            end as int,
            start_time,
        ) ==> r != Err::<Journey<'a>, _>(JourneyError::NoJourneyFound),
        forall|rides: Seq<Ride>|
            start != end && start_time < Timestamp::MAX && network.no_overtaking()
                && network.time_consistent() && network.stop_routes_consistent()
                && #[trigger] is_chain(*network, start as int, start_time, rides) && rides.len()
                < K && ride_to(*network, rides.last()) == end && ride_arrives(
                *network,
                rides.last(),
            ) < Timestamp::MAX ==> r != Err::<Journey<'a>, _>(JourneyError::NoJourneyFound),
        start != end && start_time < Timestamp::MAX && network.no_overtaking()
            && network.time_consistent() && network.stop_routes_consistent() ==> (r matches Ok(j)
            ==> earliest_by_rides(
            *network,
            start as int,
            start_time,
            end as int,
            K - 1,
            j.legs@.last().arrival_time,
        )),
{
    if start == end {
        return Ok(Journey::empty(network));
    }
    let start = start as usize;
    let end = end as usize;
    let num_stops = network.stops.len();
    // Where a route takes the passenger straight to the destination, the
    // first round finds it.
    let ghost direct = start_time < Timestamp::MAX && network.direct_ride(
        start as int,
        end as int,
        start_time,
    );
    let ghost (r0, i0, j0) = if direct {
        choose|r: int, i: int, j: int| #[trigger]
            network.rides_through(r, i, j, start as int, end as int, start_time)
    } else {
        (0, 0, 0)
    };
    let ghost mut sure = false;
    // In a network in which no trip overtakes another nor arrives before it
    // has left, and every stop lists its routes, each round catches the
    // journeys of one ride more.
    let ghost orderly = start_time < Timestamp::MAX && keeps_order(*network) && runs_forward(
        *network,
    ) && lists_all(*network);
    // The earliest known arrival at each stop with one trip less than the
    // round takes, and with as many.
    let mut tau_prev: Vec<Timestamp> = vec![Timestamp::MAX; num_stops];
    // The earliest known arrival at each stop in any round.
    let mut tau_star: Vec<TauEntry> = vec![TauEntry { time: Timestamp::MAX, boarding: None }; num_stops];
    tau_prev[start] = start_time;
    tau_star[start] = TauEntry { time: start_time, boarding: None };
    let mut marked_stops = MarkedStops::new(network);
    marked_stops.mark_stop(start);
    proof {
        if orderly {
            lemma_before_rounds(
                *network,
                start as int,
                start_time,
                end as int,
                tau_star@,
                tau_prev@,
            );
        }
    }
    let ghost found = raptor_arrivals(*network, start as int, start_time, end as int);
    proof {
        assert(tau_prev@ =~= Seq::new(network.stops@.len(), |x: int| Timestamp::MAX).update(
            start as int,
            start_time,
        ));
        assert(tau_star@ =~= Seq::new(
            network.stops@.len(),
            |x: int| TauEntry { time: Timestamp::MAX, boarding: None },
        ).update(start as int, TauEntry { time: start_time, boarding: None }));
        assert(marked_stops.marked_stops@ =~= Seq::new(network.stops@.len(), |x: int| false).update(
            start as int,
            true,
        ));
    }
    let mut k: usize = 1;
    while k < K
        invariant_except_break
            rounds_from(
                *network,
                end as int,
                k as int,
                tau_prev@,
                tau_star@,
                marked_stops.marked_stops@,
            ) == found,
            k == 1 ==> marked_stops.marked_stops@[start as int],
            orderly ==> marks_match(marked_stops.marked_stops@, tau_prev@),
            orderly ==> covers(*network, start as int, start_time, end as int, tau_star@, k - 1),
            orderly ==> scanned_ok(*network, end as int, tau_star@, tau_prev@),
            orderly && k > 1 ==> first_ok(*network, start as int, start_time, end as int, tau_star@),
            orderly ==> forall|s: int|
                0 <= s < tau_prev@.len() && (#[trigger] tau_prev@[s]) != Timestamp::MAX
                    ==> tau_prev@[s] == tau_star@[s].time,
        invariant
            start != end,
            orderly == (start_time < Timestamp::MAX && keeps_order(*network) && runs_forward(
                *network,
            ) && lists_all(*network)),
            tau_prev@.len() == num_stops,
            network.wf(),
            start < num_stops,
            end < num_stops,
            num_stops == network.stops@.len(),
            1 <= k <= K,
            marked_stops.marked_stops@.len() == num_stops,
            tau_star@.len() == num_stops,
            star_ok(*network, start as int, start_time, tau_star@),
            round_ok(*network, start as int, start_time, tau_star@, tau_prev@),
            k == 1 ==> forall|s: int|
                0 <= s < tau_prev@.len() && (#[trigger] tau_prev@[s]) < Timestamp::MAX ==> s
                    == start,
            k == 1 ==> tau_prev@[start as int] == start_time,
            direct ==> start_time < Timestamp::MAX && network.rides_through(
                r0,
                i0,
                j0,
                start as int,
                end as int,
                start_time,
            ),
            direct && k > 1 ==> sure,
            sure ==> tau_star@[end as int].boarding is Some,
        ensures
            tau_star@ == found,
            direct ==> tau_star@[end as int].boarding is Some,
            orderly ==> covers(*network, start as int, start_time, end as int, tau_star@, K - 1),
        decreases K - k,
    {
        let ghost marks = marked_stops.marked_stops@;
        let ghost begin = tau_star@;
        let routes = marked_stops.iter_marked_routes(network);
        let ghost round_found = scan_routes(
            *network,
            end as int,
            k as int,
            tau_prev@,
            routes@,
            0,
            round_begins(begin),
        );
        proof {
            lemma_routes_from(*network, marks, routes@, 0, 0);
            assert(routes@.subrange(0, routes@.len() as int) =~= routes@);
            assert(marked_stops.marked_stops@ =~= round_begins(begin).marks);
            if orderly {
                assert(to_scan(*network, marks, tau_prev@, routes@));
            }
        }
        let ghost direct_at: int = if direct && k == 1 {
            choose|p: int| 0 <= p < routes@.len() && (#[trigger] routes@[p]).0 == r0
        } else {
            -1
        };
        proof {
            if direct && k == 1 {
                assert(marked_call(*network, marks, r0, i0));
                assert(first_marked_call(*network, marks, routes@[direct_at].0 as int, routes@[direct_at].1 as int));
            }
        }
        let mut tau_round: Vec<Timestamp> = vec![Timestamp::MAX; num_stops];
        proof {
            assert(tau_round@ =~= round_begins(begin).round);
        }
        let mut p: usize = 0;
        while p < routes.len()
            invariant
                start != end,
                scan_routes(
                    *network,
                    end as int,
                    k as int,
                    tau_prev@,
                    routes@,
                    p as int,
                    Scan { star: tau_star@, round: tau_round@, marks: marked_stops.marked_stops@ },
                ) == round_found,
                orderly == (start_time < Timestamp::MAX && keeps_order(*network) && runs_forward(
                    *network,
                ) && lists_all(*network)),
                orderly ==> to_scan(*network, marks, tau_prev@, routes@),
                orderly ==> round_state(begin, tau_star@, tau_round@, marked_stops.marked_stops@),
                orderly ==> routes_done(
                    *network,
                    end as int,
                    tau_star@,
                    tau_prev@,
                    k as int,
                    routes@,
                    p as int,
                ),
                begin.len() == num_stops,
                tau_prev@.len() == num_stops,
                tau_round@.len() == num_stops,
                forall|a: int, b: int| 0 <= a < b < routes@.len() ==> routes@[a].0 < routes@[b].0,
                network.wf(),
                start < num_stops,
                end < num_stops,
                num_stops == network.stops@.len(),
                1 <= k < K,
                p <= routes@.len(),
                forall|q: int|
                    0 <= q < routes@.len() ==> (#[trigger] routes@[q]).0 < network.routes@.len()
                        && routes@[q].1 < network.routes@[routes@[q].0 as int].num_stops,
                marked_stops.marked_stops@.len() == num_stops,
                tau_star@.len() == num_stops,
                star_ok(*network, start as int, start_time, tau_star@),
                round_ok(*network, start as int, start_time, tau_star@, tau_prev@),
                round_ok(*network, start as int, start_time, tau_star@, tau_round@),
                k == 1 ==> forall|s: int|
                    0 <= s < tau_prev@.len() && (#[trigger] tau_prev@[s]) < Timestamp::MAX ==> s
                        == start,
                k == 1 ==> tau_prev@[start as int] == start_time,
                direct ==> start_time < Timestamp::MAX && network.rides_through(
                    r0,
                    i0,
                    j0,
                    start as int,
                    end as int,
                    start_time,
                ),
                direct && k == 1 ==> 0 <= direct_at < routes@.len() && routes@[direct_at].0 == r0
                    && routes@[direct_at].1 <= i0,
                direct && k > 1 ==> sure,
                direct && k == 1 && p > direct_at ==> sure,
                sure ==> tau_star@[end as int].boarding is Some,
            decreases routes@.len() - p,
        {
            let (route_idx, earliest_stop_order) = routes[p];
            let route_len = network.num_stops_in_route(route_idx);
            let route_trips = network.num_trips(route_idx);
            // When and where the passenger got on the trip that the scan rides.
            let mut boarding: Option<Boarding> = None;
            let mut stop_order: usize = earliest_stop_order;
            let ghost route_found = scan_route(
                *network,
                end as int,
                k as int,
                tau_prev@,
                route_idx as int,
                earliest_stop_order as int,
                Scan { star: tau_star@, round: tau_round@, marks: marked_stops.marked_stops@ },
                None,
            );
            proof {
                if orderly {
                    lemma_scan_begins(
                        *network,
                        marks,
                        tau_prev@,
                        k as int,
                        route_idx as int,
                        earliest_stop_order as int,
                        end as int,
                        tau_star@,
                    );
                }
                if direct && k == 1 && route_idx == r0 && p != direct_at {
                    if p < direct_at {
                        assert(routes@[p as int].0 < routes@[direct_at].0);
                    } else {
                        assert(routes@[direct_at].0 < routes@[p as int].0);
                    }
                }
            }
            while stop_order < route_len
                invariant
                    start != end,
                    scan_route(
                        *network,
                        end as int,
                        k as int,
                        tau_prev@,
                        route_idx as int,
                        stop_order as int,
                        Scan {
                            star: tau_star@,
                            round: tau_round@,
                            marks: marked_stops.marked_stops@,
                        },
                        boarding,
                    ) == route_found,
                    orderly == (start_time < Timestamp::MAX && keeps_order(*network)
                        && runs_forward(*network) && lists_all(*network)),
                    orderly ==> round_state(begin, tau_star@, tau_round@, marked_stops.marked_stops@),
                    orderly ==> routes_done(
                        *network,
                        end as int,
                        tau_star@,
                        tau_prev@,
                        k as int,
                        routes@,
                        p as int,
                    ),
                    orderly ==> aboard(
                        *network,
                        tau_prev@,
                        k as int,
                        route_idx as int,
                        stop_order as int,
                        boarding,
                    ),
                    orderly ==> caught_along(
                        *network,
                        end as int,
                        tau_star@,
                        tau_prev@,
                        k as int,
                        route_idx as int,
                        stop_order as int,
                    ),
                    p < routes@.len(),
                    forall|q: int|
                        0 <= q < routes@.len() ==> (#[trigger] routes@[q]).0 < network.routes@.len(),
                    begin.len() == num_stops,
                    tau_prev@.len() == num_stops,
                    tau_round@.len() == num_stops,
                    network.wf(),
                    start < num_stops,
                    end < num_stops,
                    num_stops == network.stops@.len(),
                    1 <= k < K,
                    route_idx < network.routes@.len(),
                    route_len == network.routes@[route_idx as int].num_stops,
                    route_trips == network.routes@[route_idx as int].num_trips,
                    stop_order <= route_len,
                    marked_stops.marked_stops@.len() == num_stops,
                    tau_star@.len() == num_stops,
                    star_ok(*network, start as int, start_time, tau_star@),
                    round_ok(*network, start as int, start_time, tau_star@, tau_prev@),
                    round_ok(*network, start as int, start_time, tau_star@, tau_round@),
                    boarding_ok(
                        *network,
                        start as int,
                        start_time,
                        tau_star@,
                        route_idx as int,
                        stop_order as int,
                        boarding,
                    ),
                    k == 1 ==> forall|s: int|
                        0 <= s < tau_prev@.len() && (#[trigger] tau_prev@[s]) < Timestamp::MAX
                            ==> s == start,
                    k == 1 ==> tau_prev@[start as int] == start_time,
                    direct ==> start_time < Timestamp::MAX && network.rides_through(
                        r0,
                        i0,
                        j0,
                        start as int,
                        end as int,
                        start_time,
                    ),
                    direct && k == 1 && route_idx == r0 ==> p == direct_at && earliest_stop_order <= i0
                        && (stop_order > i0 ==> boarding is Some) && (stop_order > j0 ==> sure),
                    earliest_stop_order <= stop_order,
                    direct && k > 1 ==> sure,
                    direct && k == 1 && p > direct_at ==> sure,
                    sure ==> tau_star@[end as int].boarding is Some,
                decreases route_len - stop_order,
            {
                let stop_idx = network.get_stop_in_route(route_idx, stop_order) as usize;
                let ghost star_before = tau_star@;
                let ghost scan_before = Scan {
                    star: tau_star@,
                    round: tau_round@,
                    marks: marked_stops.marked_stops@,
                };
                // Can the arrival at this stop be improved in this round?
                let mut current_departure_time: Option<Timestamp> = None;
                match boarding {
                    Some(b) => {
                        let stop_time = network.get_stop_time(
                            route_idx,
                            b.trip.trip_order as usize,
                            stop_order,
                        );
                        let arrival_time = stop_time.arrival_time;
                        current_departure_time = Some(stop_time.departure_time);
                        let bound = if tau_star[stop_idx].time < tau_star[end].time {
                            tau_star[stop_idx].time
                        } else {
                            tau_star[end].time
                        };
                        if arrival_time < bound {
                            let entry = TauEntry { time: arrival_time, boarding: Some(b) };
                            proof {
                                if runs_forward(*network) {
                                    lemma_forward(
                                        *network,
                                        route_idx as int,
                                        b.trip.trip_order as int,
                                        b.boarded_stop_order as int,
                                        stop_order as int,
                                    );
                                }
                                lemma_improve(
                                    *network,
                                    start as int,
                                    start_time,
                                    tau_star@,
                                    stop_idx as int,
                                    stop_order as int,
                                    b,
                                    arrival_time,
                                );
                                lemma_improve_others(
                                    *network,
                                    start as int,
                                    start_time,
                                    tau_star@,
                                    stop_idx as int,
                                    entry,
                                    tau_prev@,
                                    route_idx as int,
                                    stop_order as int,
                                    boarding,
                                );
                                lemma_improve_others(
                                    *network,
                                    start as int,
                                    start_time,
                                    tau_star@,
                                    stop_idx as int,
                                    entry,
                                    tau_round@,
                                    route_idx as int,
                                    stop_order as int,
                                    boarding,
                                );
                            }
                            tau_round[stop_idx] = arrival_time;
                            tau_star[stop_idx] = entry;
                            marked_stops.mark_stop(stop_idx);
                        }
                    },
                    None => {},
                }
                proof {
                    if orderly {
                        assert(no_later(star_before, tau_star@));
                        lemma_scan_arrival(
                            *network,
                            end as int,
                            star_before,
                            tau_star@,
                            tau_prev@,
                            k as int,
                            route_idx as int,
                            stop_order as int,
                            boarding,
                        );
                        lemma_routes_done_later(
                            *network,
                            end as int,
                            star_before,
                            tau_star@,
                            tau_prev@,
                            k as int,
                            routes@,
                            p as int,
                        );
                    }
                    if direct && k == 1 && route_idx == r0 && stop_order == j0 {
                        let b = boarding.unwrap();
                        assert(network.arrival(r0, b.trip.trip_order as int, j0) < Timestamp::MAX);
                        assert(reached(tau_star@, start as int, end as int));
                        sure = true;
                    }
                }
                let ghost riding_before = boarding;
                // The boarding is looked at after the arrival: the stop may
                // have been reached in the round before, or by a faster route
                // in this one.
                let reached_at = tau_prev[stop_idx];
                if reached_at != Timestamp::MAX {
                    // No time for a change is counted before the first leg.
                    let transfer_time = if k > 1 {
                        network.transfer_times[stop_idx]
                    } else {
                        0
                    };
                    let current_tau = reached_at.saturating_add(transfer_time);
                    let may_board = match current_departure_time {
                        Some(departure_time) => current_tau <= departure_time,
                        None => true,
                    };
                    if may_board {
                        let before = match boarding {
                            Some(b) => b.trip.trip_order as usize,
                            None => route_trips,
                        };
                        match earliest_trip(network, route_idx, stop_order, current_tau, before) {
                            Some((found_trip_order, departure_time)) => {
                                let boarded = Boarding {
                                    boarded_stop: stop_idx as StopIndex,
                                    boarded_stop_order: stop_order as StopIndex,
                                    boarded_time: departure_time,
                                    trip: GlobalTripIndex {
                                        route_idx: route_idx as RouteIndex,
                                        trip_order: found_trip_order as TripOrder,
                                    },
                                };
                                proof {
                                    assert(reached(tau_star@, start as int, stop_idx as int));
                                    assert(network.departure(
                                        route_idx as int,
                                        found_trip_order as int,
                                        stop_order as int,
                                    ) >= current_tau);
                                }
                                boarding = Some(boarded);
                            },
                            None => {},
                        }
                    }
                }
                proof {
                    lemma_scan_on(
                        *network,
                        end as int,
                        k as int,
                        tau_prev@,
                        route_idx as int,
                        stop_order as int,
                        scan_before,
                        riding_before,
                        tau_star@,
                        tau_round@,
                        marked_stops.marked_stops@,
                        boarding,
                    );
                    if orderly {
                        assert(boards(
                            *network,
                            route_idx as int,
                            stop_order as int,
                            tau_prev@[stop_idx as int],
                            k as int,
                            network.transfer_times@[stop_idx as int],
                            riding_before,
                            boarding,
                        ));
                        lemma_scan_board(
                            *network,
                            tau_prev@,
                            k as int,
                            route_idx as int,
                            stop_order as int,
                            riding_before,
                            boarding,
                        );
                    }
                }
                stop_order += 1;
            }
            p += 1;
        }
        proof {
            if orderly {
                lemma_round_done(
                    *network,
                    end as int,
                    tau_star@,
                    marks,
                    tau_prev@,
                    k as int,
                    routes@,
                );
                if k == 1 {
                    lemma_first_round(
                        *network,
                        start as int,
                        start_time,
                        end as int,
                        tau_star@,
                        tau_prev@,
                    );
                } else {
                    lemma_first_ok_later(
                        *network,
                        start as int,
                        start_time,
                        end as int,
                        begin,
                        tau_star@,
                    );
                }
                lemma_covers_more(
                    *network,
                    start as int,
                    start_time,
                    end as int,
                    begin,
                    tau_prev@,
                    tau_star@,
                    k as int,
                );
                lemma_scanned_more(
                    *network,
                    end as int,
                    begin,
                    tau_prev@,
                    tau_star@,
                    tau_round@,
                    k as int,
                );
            }
        }
        if marked_stops.is_empty() {
            proof {
                if orderly {
                    assert forall|s: int| 0 <= s < tau_round@.len() implies (#[trigger] tau_round@[s])
                        == Timestamp::MAX by {
                        assert(!marked_stops.marked_stops@[s]);
                    }
                    lemma_covers_all(
                        *network,
                        start as int,
                        start_time,
                        end as int,
                        tau_star@,
                        tau_round@,
                        k as int,
                        K - 1,
                    );
                }
            }
            break;
        }
        tau_prev = tau_round;
        k += 1;
    }
    let r = Journey::from_tau(tau_star.as_slice(), network, start, end);
    proof {
        lemma_runs_forward(*network);
        lemma_keeps_order(*network);
        lemma_lists_all(*network);
        assert forall|rides: Seq<Ride>|
            start_time < Timestamp::MAX && network.no_overtaking() && network.time_consistent()
                && network.stop_routes_consistent() && #[trigger] is_chain(
                *network,
                start as int,
                start_time,
                rides,
            ) && rides.len() < K && ride_to(*network, rides.last()) == end implies (ride_arrives(
            *network,
            rides.last(),
        ) < Timestamp::MAX ==> r != Err::<Journey<'a>, _>(JourneyError::NoJourneyFound)) && (
        r matches Ok(j) ==> j.legs@.last().arrival_time <= ride_arrives(
            *network,
            rides.last(),
        )) by {
            lemma_covers_end(
                *network,
                start as int,
                start_time,
                end as int,
                tau_star@,
                K - 1,
                rides,
            );
            if r is Ok {
                lemma_rebuilt_journey(*network, tau_star@, start as int, end as int, start_time);
            }
        }
        if r is Ok && tau_star@[end as int].boarding is Some {
            lemma_rebuilt_journey(*network, tau_star@, start as int, end as int, start_time);
            lemma_rides_fit(*network, r.unwrap().legs@);
        }
        let rebuilt = walk_back(
            *network,
            tau_star@,
            start as int,
            end as int,
            None,
            MAX_LEGS as nat,
        );
        if tau_star@[end as int].boarding is Some {
            if rebuilt is Some {
                lemma_rebuilt_journey(*network, tau_star@, start as int, end as int, start_time);
            }
            let b = tau_star@[end as int].boarding.unwrap();
            assert(network.rides_to(b, end as int, tau_star@[end as int].time));
            assert(network.route_calls_at(b.trip.route_idx as int, end as int));
        }
    }
    r
}

/// What the scan keeps true of a label in the bag of stop `s`: its boarding
/// is a ride on a trip of the network to the stop, and away from the start
/// it has one.
pub open spec fn label_ok(n: Network, start: int, start_time: Timestamp, s: int, label: Label) -> bool {
    &&& label.boarding matches Some(b) ==> n.boarding_wf(b) && n.rides_to(
        b,
        s,
        label.arrival_time,
    )
    &&& s != start ==> label.boarding is Some
    &&& n.nothing_departs_from(start_time) ==> label.boarding is None && label.arrival_time
        >= start_time
    &&& runs_forward(n) ==> label.arrival_time >= start_time && (
    label.boarding matches Some(b) ==> b.boarded_time >= start_time)
}

/// What the scan keeps true of the bags of the stops.
pub open spec fn bags_ok(n: Network, start: int, start_time: Timestamp, bags: Seq<Bag>) -> bool {
    &&& bags.len() == n.stops@.len()
    &&& forall|s: int| 0 <= s < bags.len() ==> (#[trigger] bags[s]).wf()
    &&& forall|s: int, i: int|
        0 <= s < bags.len() && 0 <= i < bags[s]@.len() ==> label_ok(
            n,
            start,
            start_time,
            s,
            #[trigger] bags[s]@[i],
        )
}

/// What the scan keeps true of a label of a passenger who rides along a
/// route: the trip was boarded before the place `stop_order`.
pub open spec fn rider_ok(n: Network, start_time: Timestamp, route_idx: int, stop_order: int, label: Label) -> bool {
    &&& label.boarding matches Some(b)
    &&& n.boarding_wf(b)
    &&& b.trip.route_idx == route_idx
    &&& b.boarded_stop_order < stop_order
    &&& !n.nothing_departs_from(start_time)
    &&& runs_forward(n) ==> b.boarded_time >= start_time
}

/// Where trips run forward, a passenger who boarded at the start time or
/// later is at a later place of the route no earlier than that.
proof fn lemma_rider_arrival(
    n: Network,
    start_time: Timestamp,
    route_idx: int,
    stop_order: int,
    label: Label,
)
    requires
        rider_ok(n, start_time, route_idx, stop_order, label),
        stop_order < n.routes@[route_idx].num_stops,
        label.arrival_time == n.arrival(
            route_idx,
            label.boarding.unwrap().trip.trip_order as int,
            stop_order,
        ),
    ensures
        runs_forward(n) ==> label.arrival_time >= start_time,
{
    if runs_forward(n) {
        let b = label.boarding.unwrap();
        lemma_forward(n, route_idx, b.trip.trip_order as int, b.boarded_stop_order as int, stop_order);
    }
}

/// A bag for each stop, all empty.
fn empty_bags(n: &Network, start: Ghost<int>, start_time: Ghost<Timestamp>) -> (bags: Vec<Bag>)
    ensures
        bags_ok(*n, start@, start_time@, bags@),
        forall|s: int| 0 <= s < bags@.len() ==> (#[trigger] bags@[s])@.len() == 0,
{
    let mut bags: Vec<Bag> = Vec::new();
    let mut s: usize = 0;
    while s < n.stops.len()
        invariant
            s <= n.stops@.len(),
            bags@.len() == s,
            forall|j: int| 0 <= j < s ==> (#[trigger] bags@[j]).wf() && bags@[j]@.len() == 0,
        decreases n.stops@.len() - s,
    {
        bags.push(Bag::new());
        s += 1;
    }
    bags
}

/// Adds a label to the bag of one stop.
fn add_to(
    bags: &mut Vec<Bag>,
    s: usize,
    label: Label,
    n: Ghost<Network>,
    start: Ghost<int>,
    start_time: Ghost<Timestamp>,
) -> (changed: bool)
    requires
        bags_ok(n@, start@, start_time@, old(bags)@),
        s < old(bags)@.len(),
        label_ok(n@, start@, start_time@, s as int, label),
    ensures
        bags_ok(n@, start@, start_time@, final(bags)@),
        final(bags)@[s as int]@ == add_result(old(bags)@[s as int]@, label),
        changed == add_accepts(old(bags)@[s as int]@, label),
        final(bags)@[s as int]@.len() > 0,
        some_in_time(old(bags)@[s as int]@) || label.arrival_time < Timestamp::MAX ==> some_in_time(
            final(bags)@[s as int]@,
        ),
        forall|x: int| 0 <= x < final(bags)@.len() && x != s ==> final(bags)@[x] == old(bags)@[x],
{
    let ghost before = bags@;
    let changed = bags[s].add(label);
    proof {
        lemma_add_result_nonempty(before[s as int]@, label);
        assert(before[s as int].wf());
        if some_in_time(before[s as int]@) || label.arrival_time < Timestamp::MAX {
            lemma_add_keeps_in_time(before[s as int]@, label);
        }
        assert forall|x: int| 0 <= x < bags@.len() implies (#[trigger] bags@[x]).wf() by {
            if x != s {
                assert(bags@[x] == before[x]);
            }
        }
        assert forall|x: int, i: int| 0 <= x < bags@.len() && 0 <= i < bags@[x]@.len() implies label_ok(
            n@,
            start@,
            start_time@,
            x,
            #[trigger] bags@[x]@[i],
        ) by {
            if x != s {
                assert(bags@[x] == before[x]);
            } else {
                lemma_add_result_members(before[x]@, label, i);
                if bags@[x]@[i] != label {
                    let k = choose|k: int| 0 <= k < before[x]@.len() && before[x]@[k] == bags@[x]@[i];
                    assert(label_ok(n@, start@, start_time@, x, before[x]@[k]));
                }
            }
        }
    }
    changed
}

/// Adds the label of a passenger to the bag of a route.
fn add_rider(
    bag: &mut Bag,
    label: Label,
    n: Ghost<Network>,
    start_time: Ghost<Timestamp>,
    route_idx: Ghost<int>,
    stop_order: Ghost<int>,
)
    requires
        old(bag).wf(),
        forall|i: int|
            0 <= i < old(bag)@.len() ==> rider_ok(
                n@,
                start_time@,
                route_idx@,
                stop_order@,
                #[trigger] old(bag)@[i],
            ),
        rider_ok(n@, start_time@, route_idx@, stop_order@, label),
    ensures
        final(bag).wf(),
        final(bag)@ == add_result(old(bag)@, label),
        final(bag)@.len() > 0,
        forall|i: int|
            0 <= i < final(bag)@.len() ==> rider_ok(
                n@,
                start_time@,
                route_idx@,
                stop_order@,
                #[trigger] final(bag)@[i],
            ),
{
    let ghost before = bag@;
    bag.add(label);
    proof {
        lemma_add_result_nonempty(before, label);
        assert forall|i: int| 0 <= i < bag@.len() implies rider_ok(
            n@,
            start_time@,
            route_idx@,
            stop_order@,
            #[trigger] bag@[i],
        ) by {
            lemma_add_result_members(before, label, i);
            if bag@[i] != label {
                let k = choose|k: int| 0 <= k < before.len() && before[k] == bag@[i];
                assert(rider_ok(n@, start_time@, route_idx@, stop_order@, before[k]));
            }
        }
    }
}

/// The journey that leaves `start` at `start_time` or later for `end` and
/// that the passenger prefers among those that the scan in rounds finds,
/// where each stop keeps the arrivals that no other beats in both time and
/// cost. `costs` gives the cost of being on a trip at a stop, for each entry
/// of the network's stop times.
#[verifier::rlimit(30)]
pub fn mc_raptor_query<'a>(
    network: &'a Network,
    start: StopIndex,
    start_time: Timestamp,
    end: StopIndex,
    costs: &[PathfindingCost],
    path_preferences: &JourneyPreferences,
) -> (r: Result<Journey<'a>, JourneyError>)
    requires
        network.wf(),
        start < network.stops@.len(),
        end < network.stops@.len(),
        costs@.len() == network.stop_times@.len(),
    ensures
        mc_answer(network, costs@, *path_preferences, start as int, start_time, end as int, r),
        start != end ==> match r {
            Ok(j) => {
                &&& legs_connected(j.legs@, start as int, end as int)
                &&& forall|i: int| 0 <= i < j.legs@.len() ==> leg_rides(*network, #[trigger] j.legs@[i])
                &&& legs_fit(*network, j.legs@)
                &&& legs_in_time(j.legs@)
                &&& network.time_consistent() ==> legs_from(j.legs@, start_time)
            },
            Err(e) => e != JourneyError::ZeroAgents,
        },
        start != end && network.nothing_departs_from(start_time) ==> r == Err::<Journey<'a>, _>(
            JourneyError::NoJourneyFound,
        ),
        start != end && network.no_route_calls_at(end as int) ==> r == Err::<Journey<'a>, _>(
            JourneyError::NoJourneyFound,
        ),
        start != end && start_time < Timestamp::MAX && network.direct_ride(
            start as int,
            end as int,
            start_time,
        ) ==> r != Err::<Journey<'a>, _>(JourneyError::NoJourneyFound),
{
    if start == end {
        return Ok(Journey::empty(network));
    }
    let start = start as usize;
    let end = end as usize;
    let num_stops = network.stops.len();
    let ghost n = *network;
    // Where a route takes the passenger straight to the destination, the
    // first round finds it.
    let ghost direct = start_time < Timestamp::MAX && network.direct_ride(
        start as int,
        end as int,
        start_time,
    );
    let ghost (r0, i0, j0) = if direct {
        choose|r: int, i: int, j: int| #[trigger]
            network.rides_through(r, i, j, start as int, end as int, start_time)
    } else {
        (0, 0, 0)
    };
    let ghost mut sure = false;
    let mut tau_prev = empty_bags(network, Ghost(start as int), Ghost(start_time));
    let mut tau_star = empty_bags(network, Ghost(start as int), Ghost(start_time));
    let start_label = Label::new(start_time, 0);
    let ghost empty_prev = tau_prev@;
    let ghost empty_star = tau_star@;
    add_to(&mut tau_prev, start, start_label, Ghost(n), Ghost(start as int), Ghost(start_time));
    add_to(&mut tau_star, start, start_label, Ghost(n), Ghost(start as int), Ghost(start_time));
    proof {
        assert(tau_prev@[start as int]@ =~= seq![start_label]) by {
            let none = Seq::<Label>::empty();
            assert(crate::multicriteria::count_earlier(none, start_time) == 0);
            assert(crate::multicriteria::count_costlier(none, 0) == 0);
            assert(crate::multicriteria::merged(none, start_label) =~= seq![start_label]);
        }
    }
    let mut marked_stops = MarkedStops::new(network);
    marked_stops.mark_stop(start);
    let ghost found = mc_arrivals(n, costs@, start as int, start_time, end as int);
    proof {
        assert forall|x: int| 0 <= x < num_stops implies #[trigger] labels_of(tau_prev@)[x]
            == bags_begin(n, start as int, start_time)[x] && labels_of(tau_star@)[x] == bags_begin(
            n,
            start as int,
            start_time,
        )[x] by {
            assert(empty_prev[x]@ =~= Seq::empty());
            assert(empty_star[x]@ =~= Seq::empty());
        }
        assert(labels_of(tau_prev@) =~= bags_begin(n, start as int, start_time));
        assert(labels_of(tau_star@) =~= bags_begin(n, start as int, start_time));
        assert(marked_stops.marked_stops@ =~= Seq::new(n.stops@.len(), |x: int| false).update(
            start as int,
            true,
        ));
    }
    let mut k: usize = 1;
    while k < K
        invariant_except_break
            bag_rounds(
                n,
                costs@,
                end as int,
                k as int,
                labels_of(tau_prev@),
                labels_of(tau_star@),
                marked_stops.marked_stops@,
            ) == found,
            k == 1 ==> marked_stops.marked_stops@[start as int],
        invariant
            start != end,
            k == 1 ==> tau_prev@[start as int]@.len() > 0 && forall|i: int|
                0 <= i < tau_prev@[start as int]@.len() ==> (
                #[trigger] tau_prev@[start as int]@[i]).arrival_time <= start_time,
            direct ==> start_time < Timestamp::MAX && network.rides_through(
                r0,
                i0,
                j0,
                start as int,
                end as int,
                start_time,
            ),
            direct && k > 1 ==> sure,
            sure ==> some_in_time(tau_star@[end as int]@),
            network.wf(),
            n == *network,
            start < num_stops,
            end < num_stops,
            num_stops == network.stops@.len(),
            costs@.len() == network.stop_times@.len(),
            1 <= k <= K,
            marked_stops.marked_stops@.len() == num_stops,
            bags_ok(n, start as int, start_time, tau_star@),
            bags_ok(n, start as int, start_time, tau_prev@),
            tau_star@[start as int]@.len() > 0,
        ensures
            labels_of(tau_star@) == found,
            direct ==> some_in_time(tau_star@[end as int]@),
        decreases K - k,
    {
        let ghost marks = marked_stops.marked_stops@;
        let ghost waited = labels_of(tau_prev@);
        let routes = marked_stops.iter_marked_routes(network);
        let ghost round_found = bag_routes(
            n,
            costs@,
            end as int,
            k as int,
            waited,
            routes@,
            0,
            bag_round_begins(labels_of(tau_star@)),
        );
        proof {
            lemma_routes_from(n, marks, routes@, 0, 0);
            assert(routes@.subrange(0, routes@.len() as int) =~= routes@);
            assert(marked_stops.marked_stops@ =~= bag_round_begins(labels_of(tau_star@)).marks);
        }
        let ghost direct_at: int = if direct && k == 1 {
            choose|p: int| 0 <= p < routes@.len() && (#[trigger] routes@[p]).0 == r0
        } else {
            -1
        };
        proof {
            if direct && k == 1 {
                assert(marked_call(*network, marks, r0, i0));
                assert(first_marked_call(*network, marks, routes@[direct_at].0 as int, routes@[direct_at].1 as int));
            }
        }
        let mut tau_round = empty_bags(network, Ghost(start as int), Ghost(start_time));
        proof {
            assert forall|x: int| 0 <= x < num_stops implies #[trigger] labels_of(tau_round@)[x]
                == bag_round_begins(labels_of(tau_star@)).round[x] by {
                assert(tau_round@[x]@ =~= Seq::empty());
            }
            assert(labels_of(tau_round@) =~= bag_round_begins(labels_of(tau_star@)).round);
        }
        let mut p: usize = 0;
        while p < routes.len()
            invariant
                start != end,
                waited == labels_of(tau_prev@),
                bag_routes(
                    n,
                    costs@,
                    end as int,
                    k as int,
                    waited,
                    routes@,
                    p as int,
                    BagScan {
                        star: labels_of(tau_star@),
                        round: labels_of(tau_round@),
                        marks: marked_stops.marked_stops@,
                    },
                ) == round_found,
                forall|a: int, b: int| 0 <= a < b < routes@.len() ==> routes@[a].0 < routes@[b].0,
                k == 1 ==> tau_prev@[start as int]@.len() > 0 && forall|i: int|
                    0 <= i < tau_prev@[start as int]@.len() ==> (
                    #[trigger] tau_prev@[start as int]@[i]).arrival_time <= start_time,
                direct ==> start_time < Timestamp::MAX && network.rides_through(
                    r0,
                    i0,
                    j0,
                    start as int,
                    end as int,
                    start_time,
                ),
                direct && k == 1 ==> 0 <= direct_at < routes@.len() && routes@[direct_at].0 == r0
                    && routes@[direct_at].1 <= i0,
                direct && k > 1 ==> sure,
                direct && k == 1 && p > direct_at ==> sure,
                sure ==> some_in_time(tau_star@[end as int]@),
                network.wf(),
                n == *network,
                start < num_stops,
                end < num_stops,
                num_stops == network.stops@.len(),
                costs@.len() == network.stop_times@.len(),
                1 <= k < K,
                p <= routes@.len(),
                forall|q: int|
                    0 <= q < routes@.len() ==> (#[trigger] routes@[q]).0 < network.routes@.len()
                        && routes@[q].1 < network.routes@[routes@[q].0 as int].num_stops,
                marked_stops.marked_stops@.len() == num_stops,
                bags_ok(n, start as int, start_time, tau_star@),
                bags_ok(n, start as int, start_time, tau_prev@),
                bags_ok(n, start as int, start_time, tau_round@),
                tau_star@[start as int]@.len() > 0,
            decreases routes@.len() - p,
        {
            let (route_idx, earliest_stop_order) = routes[p];
            assert(network.route_wf(route_idx as int));
            let route_len = network.num_stops_in_route(route_idx);
            let route_trips = network.num_trips(route_idx);
            // The labels of the passengers who ride a trip of the route.
            let mut route_bag = Bag::new();
            let ghost route_found = bag_route(
                n,
                costs@,
                end as int,
                k as int,
                waited,
                route_idx as int,
                earliest_stop_order as int,
                BagScan {
                    star: labels_of(tau_star@),
                    round: labels_of(tau_round@),
                    marks: marked_stops.marked_stops@,
                },
                Seq::empty(),
            );
            let ghost mut riding = false;
            proof {
                if direct && k == 1 && route_idx == r0 && p != direct_at {
                    if p < direct_at {
                        assert(routes@[p as int].0 < routes@[direct_at].0);
                    } else {
                        assert(routes@[direct_at].0 < routes@[p as int].0);
                    }
                }
            }
            let mut stop_order: usize = earliest_stop_order;
            while stop_order < route_len
                invariant
                    start != end,
                    waited == labels_of(tau_prev@),
                    bag_route(
                        n,
                        costs@,
                        end as int,
                        k as int,
                        waited,
                        route_idx as int,
                        stop_order as int,
                        BagScan {
                            star: labels_of(tau_star@),
                            round: labels_of(tau_round@),
                            marks: marked_stops.marked_stops@,
                        },
                        route_bag@,
                    ) == route_found,
                    k == 1 ==> tau_prev@[start as int]@.len() > 0 && forall|i: int|
                        0 <= i < tau_prev@[start as int]@.len() ==> (
                        #[trigger] tau_prev@[start as int]@[i]).arrival_time <= start_time,
                    direct ==> start_time < Timestamp::MAX && network.rides_through(
                        r0,
                        i0,
                        j0,
                        start as int,
                        end as int,
                        start_time,
                    ),
                    direct && k == 1 && route_idx == r0 ==> p == direct_at && earliest_stop_order <= i0,
                    direct && k == 1 && route_idx == r0 && stop_order > i0 ==> riding,
                    direct && k == 1 && route_idx == r0 && stop_order > j0 ==> sure,
                    earliest_stop_order <= stop_order,
                    riding ==> route_bag@.len() > 0,
                    direct && k > 1 ==> sure,
                    direct && k == 1 && p > direct_at ==> sure,
                    sure ==> some_in_time(tau_star@[end as int]@),
                    network.wf(),
                    n == *network,
                    start < num_stops,
                    end < num_stops,
                    num_stops == network.stops@.len(),
                    costs@.len() == network.stop_times@.len(),
                    1 <= k < K,
                    route_idx < network.routes@.len(),
                    network.route_wf(route_idx as int),
                    route_len == network.routes@[route_idx as int].num_stops,
                    route_trips == network.routes@[route_idx as int].num_trips,
                    stop_order <= route_len,
                    marked_stops.marked_stops@.len() == num_stops,
                    bags_ok(n, start as int, start_time, tau_star@),
                    bags_ok(n, start as int, start_time, tau_prev@),
                    bags_ok(n, start as int, start_time, tau_round@),
                    tau_star@[start as int]@.len() > 0,
                    route_bag.wf(),
                    forall|i: int|
                        0 <= i < route_bag@.len() ==> rider_ok(
                            n,
                            start_time,
                            route_idx as int,
                            stop_order as int,
                            #[trigger] route_bag@[i],
                        ),
                decreases route_len - stop_order,
            {
                let stop_idx = network.get_stop_in_route(route_idx, stop_order) as usize;
                let ghost scan_before = BagScan {
                    star: labels_of(tau_star@),
                    round: labels_of(tau_round@),
                    marks: marked_stops.marked_stops@,
                };
                let ghost riders_before = route_bag@;
                let ghost arrivals_found = arrivals_at(
                    n,
                    costs@,
                    route_idx as int,
                    stop_order as int,
                    riders_before,
                );
                // First, the passengers on the route arrive at this stop.
                let mut arrived = Bag::new();
                let riders = route_bag.len();
                let mut i: usize = 0;
                while i < riders
                    invariant
                        route_bag@ == riders_before,
                        riders_arrive(
                            n,
                            costs@,
                            route_idx as int,
                            stop_order as int,
                            riders_before,
                            i as int,
                            arrived@,
                        ) == arrivals_found,
                        network.wf(),
                        n == *network,
                        costs@.len() == network.stop_times@.len(),
                        route_idx < network.routes@.len(),
                        network.route_wf(route_idx as int),
                        stop_order < network.routes@[route_idx as int].num_stops,
                        stop_idx == network.route_stop(route_idx as int, stop_order as int),
                        riders == route_bag@.len(),
                        i <= riders,
                        route_bag.wf(),
                        forall|i: int|
                            0 <= i < route_bag@.len() ==> rider_ok(
                                n,
                                start_time,
                                route_idx as int,
                                stop_order as int,
                                #[trigger] route_bag@[i],
                            ),
                        arrived.wf(),
                        i > 0 ==> arrived@.len() > 0,
                        forall|i: int|
                            0 <= i < arrived@.len() ==> (#[trigger] arrived@[i]).arrival_time
                                == n.arrival(
                                route_idx as int,
                                arrived@[i].boarding.unwrap().trip.trip_order as int,
                                stop_order as int,
                            ),
                        forall|i: int|
                            0 <= i < arrived@.len() ==> rider_ok(
                                n,
                                start_time,
                                route_idx as int,
                                stop_order as int,
                                #[trigger] arrived@[i],
                            ) && n.rides_to(
                                arrived@[i].boarding.unwrap(),
                                stop_idx as int,
                                arrived@[i].arrival_time,
                            ),
                    decreases riders - i,
                {
                    let label = route_bag.get(i);
                    let ghost arrived_before = arrived@;
                    assert(rider_ok(n, start_time, route_idx as int, stop_order as int, label));
                    match label.boarding {
                        Some(boarding) => {
                            let route = &network.routes[route_idx];
                            let index = route.get_stop_times_index(
                                boarding.trip.trip_order as usize,
                                stop_order,
                            );
                            let moved = Label {
                                arrival_time: network.stop_times[index].arrival_time,
                                cost: label.cost.saturating_add(costs[index]),
                                boarding: label.boarding,
                            };
                            let ghost before = arrived@;
                            arrived.add(moved);
                            proof {
                                lemma_add_result_nonempty(before, moved);
                                assert forall|j: int| 0 <= j < arrived@.len() implies (
                                #[trigger] arrived@[j]).arrival_time == n.arrival(
                                    route_idx as int,
                                    arrived@[j].boarding.unwrap().trip.trip_order as int,
                                    stop_order as int,
                                ) by {
                                    lemma_add_result_members(before, moved, j);
                                    if arrived@[j] != moved {
                                        let x = choose|x: int|
                                            0 <= x < before.len() && before[x] == arrived@[j];
                                    }
                                }
                                assert(n.rides_to(boarding, stop_idx as int, moved.arrival_time));
                                assert forall|j: int| 0 <= j < arrived@.len() implies rider_ok(
                                    n,
                                    start_time,
                                    route_idx as int,
                                    stop_order as int,
                                    #[trigger] arrived@[j],
                                ) && n.rides_to(
                                    arrived@[j].boarding.unwrap(),
                                    stop_idx as int,
                                    arrived@[j].arrival_time,
                                ) by {
                                    lemma_add_result_members(before, moved, j);
                                    if arrived@[j] != moved {
                                        let x = choose|x: int|
                                            0 <= x < before.len() && before[x] == arrived@[j];
                                        assert(rider_ok(
                                            n,
                                            start_time,
                                            route_idx as int,
                                            stop_order as int,
                                            before[x],
                                        ));
                                    }
                                }
                            }
                        },
                        None => {},
                    }
                    proof {
                        lemma_arrive_on(
                            n,
                            costs@,
                            route_idx as int,
                            stop_order as int,
                            riders_before,
                            i as int,
                            arrived_before,
                            arrived@,
                        );
                    }
                    i += 1;
                }
                route_bag = arrived;
                proof {
                    assert forall|i: int|
                        0 <= i < route_bag@.len() && runs_forward(n) implies (
                    #[trigger] route_bag@[i]).arrival_time >= start_time by {
                        lemma_rider_arrival(
                            n,
                            start_time,
                            route_idx as int,
                            stop_order as int,
                            route_bag@[i],
                        );
                    }
                }
                // Then the stop takes the arrivals that no label of the
                // stop or of the destination beats.
                let mut updated = false;
                let arrivals = route_bag.len();
                let ghost here = direct && k == 1 && route_idx == r0 && stop_order == j0;
                let ghost taken = stop_takes(
                    end as int,
                    stop_idx as int,
                    arrivals_found,
                    0,
                    scan_before.star,
                    scan_before.round,
                    false,
                );
                let mut i: usize = 0;
                while i < arrivals
                    invariant
                        route_bag@ == arrivals_found,
                        stop_takes(
                            end as int,
                            stop_idx as int,
                            arrivals_found,
                            i as int,
                            labels_of(tau_star@),
                            labels_of(tau_round@),
                            updated,
                        ) == taken,
                        here == (direct && k == 1 && route_idx == r0 && stop_order == j0),
                        here ==> stop_idx == end && forall|i: int|
                            0 <= i < route_bag@.len() ==> (#[trigger] route_bag@[i]).arrival_time
                                < Timestamp::MAX,
                        here && i > 0 ==> some_in_time(tau_star@[end as int]@),
                        sure ==> some_in_time(tau_star@[end as int]@),
                        network.wf(),
                        n == *network,
                        start < num_stops,
                        end < num_stops,
                        stop_idx < num_stops,
                        num_stops == network.stops@.len(),
                        arrivals == route_bag@.len(),
                        i <= arrivals,
                        bags_ok(n, start as int, start_time, tau_star@),
                        bags_ok(n, start as int, start_time, tau_round@),
                        tau_star@[start as int]@.len() > 0,
                        forall|i: int|
                            0 <= i < route_bag@.len() ==> rider_ok(
                                n,
                                start_time,
                                route_idx as int,
                                stop_order as int,
                                #[trigger] route_bag@[i],
                            ) && n.rides_to(
                                route_bag@[i].boarding.unwrap(),
                                stop_idx as int,
                                route_bag@[i].arrival_time,
                            ) && (runs_forward(n) ==> route_bag@[i].arrival_time
                                >= start_time),
                    decreases arrivals - i,
                {
                    let label = route_bag.get(i);
                    let ghost star_labels = labels_of(tau_star@);
                    let ghost round_labels = labels_of(tau_round@);
                    let ghost updated_before = updated;
                    assert(rider_ok(n, start_time, route_idx as int, stop_order as int, label));
                    proof {
                        if here && crate::multicriteria::dominated_by_any(
                            tau_star@[end as int]@,
                            label,
                        ) {
                            let x = choose|x: int|
                                0 <= x < tau_star@[end as int]@.len() && (
                                #[trigger] tau_star@[end as int]@[x]).spec_dominates(&label);
                            assert(tau_star@[end as int]@[x].arrival_time < Timestamp::MAX);
                        }
                    }
                    if !tau_star[stop_idx].dominates(&label) && !tau_star[end].dominates(&label) {
                        let in_round = add_to(
                            &mut tau_round,
                            stop_idx,
                            label,
                            Ghost(n),
                            Ghost(start as int),
                            Ghost(start_time),
                        );
                        let ghost star_before = tau_star@;
                        let in_star = add_to(
                            &mut tau_star,
                            stop_idx,
                            label,
                            Ghost(n),
                            Ghost(start as int),
                            Ghost(start_time),
                        );
                        updated = updated || in_round || in_star;
                    }
                    proof {
                        lemma_take_on(
                            end as int,
                            stop_idx as int,
                            arrivals_found,
                            i as int,
                            star_labels,
                            round_labels,
                            updated_before,
                            labels_of(tau_star@),
                            labels_of(tau_round@),
                            updated,
                        );
                    }
                    i += 1;
                }
                if updated {
                    marked_stops.mark_stop(stop_idx);
                }
                proof {
                    if here {
                        sure = true;
                    }
                }
                // Last, the passengers who were at the stop in the round
                // before board the route.
                let waiting = tau_prev[stop_idx].len();
                let ghost boards = direct && k == 1 && route_idx == r0 && stop_order == i0;
                let ghost was_riding = riding;
                let ghost waiting_labels = tau_prev@[stop_idx as int]@;
                let ghost riders_found = riders_after(
                    n,
                    costs@,
                    k as int,
                    waited,
                    route_idx as int,
                    stop_order as int,
                    riders_before,
                );
                let mut i: usize = 0;
                while i < waiting
                    invariant
                        waiting_labels == tau_prev@[stop_idx as int]@,
                        riders_board(
                            n,
                            k as int,
                            route_idx as int,
                            stop_order as int,
                            waiting_labels,
                            i as int,
                            route_bag@,
                        ) == riders_found,
                        was_riding ==> riding,
                        boards == (direct && k == 1 && route_idx == r0 && stop_order == i0),
                        boards ==> stop_idx == start && network.rides_through(
                            r0,
                            i0,
                            j0,
                            start as int,
                            end as int,
                            start_time,
                        ) && forall|i: int|
                            0 <= i < tau_prev@[start as int]@.len() ==> (
                            #[trigger] tau_prev@[start as int]@[i]).arrival_time <= start_time,
                        boards && i > 0 ==> riding,
                        riding ==> route_bag@.len() > 0,
                        network.wf(),
                        n == *network,
                        1 <= k < K,
                        route_idx < network.routes@.len(),
                        network.route_wf(route_idx as int),
                        route_trips == network.routes@[route_idx as int].num_trips,
                        stop_order < network.routes@[route_idx as int].num_stops,
                        stop_idx == network.route_stop(route_idx as int, stop_order as int),
                        stop_idx < num_stops,
                        num_stops == network.stops@.len(),
                        bags_ok(n, start as int, start_time, tau_prev@),
                        waiting == tau_prev@[stop_idx as int]@.len(),
                        i <= waiting,
                        route_bag.wf(),
                        forall|i: int|
                            0 <= i < route_bag@.len() ==> rider_ok(
                                n,
                                start_time,
                                route_idx as int,
                                stop_order + 1,
                                #[trigger] route_bag@[i],
                            ),
                    decreases waiting - i,
                {
                    let label = tau_prev[stop_idx].get(i);
                    let ghost riders_now = route_bag@;
                    assert(label_ok(n, start as int, start_time, stop_idx as int, label));
                    // No time for a change is counted before the first leg.
                    let transfer_time = if k > 1 {
                        network.transfer_times[stop_idx]
                    } else {
                        0
                    };
                    let current_tau = label.arrival_time.saturating_add(transfer_time);
                    match earliest_trip(network, route_idx, stop_order, current_tau, route_trips) {
                        Some((found_trip_order, departure_time)) => {
                            let new_label = Label {
                                arrival_time: label.arrival_time,
                                cost: label.cost,
                                boarding: Some(
                                    Boarding {
                                        boarded_stop: stop_idx as StopIndex,
                                        boarded_stop_order: stop_order as StopIndex,
                                        boarded_time: departure_time,
                                        trip: GlobalTripIndex {
                                            route_idx: route_idx as RouteIndex,
                                            trip_order: found_trip_order as TripOrder,
                                        },
                                    },
                                ),
                            };
                            proof {
                                assert(network.departure(
                                    route_idx as int,
                                    found_trip_order as int,
                                    stop_order as int,
                                ) >= current_tau);
                            }
                            add_rider(
                                &mut route_bag,
                                new_label,
                                Ghost(n),
                                Ghost(start_time),
                                Ghost(route_idx as int),
                                Ghost(stop_order + 1),
                            );
                            proof {
                                riding = true;
                            }
                        },
                        None => {},
                    }
                    proof {
                        lemma_board_on(
                            n,
                            k as int,
                            route_idx as int,
                            stop_order as int,
                            waiting_labels,
                            i as int,
                            riders_now,
                            route_bag@,
                        );
                    }
                    i += 1;
                }
                proof {
                    lemma_bag_route_on(
                        n,
                        costs@,
                        end as int,
                        k as int,
                        waited,
                        route_idx as int,
                        stop_order as int,
                        scan_before,
                        riders_before,
                        labels_of(tau_star@),
                        labels_of(tau_round@),
                        marked_stops.marked_stops@,
                        route_bag@,
                    );
                    if boards {
                        assert(stop_idx == start);
                        assert(waiting > 0);
                        assert(riding);
                    }
                }
                stop_order += 1;
            }
            p += 1;
        }
        if marked_stops.is_empty() {
            break;
        }
        tau_prev = tau_round;
        k += 1;
    }
    proof {
        assert(bags_wf(n, tau_star@)) by {
            assert forall|s: int, i: int|
                0 <= s < tau_star@.len() && 0 <= i < tau_star@[s]@.len() implies ((
            #[trigger] tau_star@[s]@[i]).boarding matches Some(b) ==> n.boarding_wf(b)
                && n.rides_to(b, s, tau_star@[s]@[i].arrival_time)) by {
                assert(label_ok(n, start as int, start_time, s, tau_star@[s]@[i]));
            }
        }
        assert(bags_boarded(tau_star@, start as int)) by {
            assert forall|s: int, i: int|
                0 <= s < tau_star@.len() && s != start && 0 <= i < tau_star@[s]@.len() implies (
            #[trigger] tau_star@[s]@[i]).boarding is Some by {
                assert(label_ok(n, start as int, start_time, s, tau_star@[s]@[i]));
            }
        }
    }
    let r = Journey::from_tau_bag(tau_star.as_slice(), network, start, end, path_preferences);
    proof {
        lemma_walk_back_labels(
            n,
            tau_star@,
            *path_preferences,
            tau_star@[start as int]@[0].arrival_time,
            start as int,
            end as int,
            None,
            MAX_LEGS as nat,
        );
        lemma_runs_forward(n);
        let first_time = tau_star@[start as int]@[0].arrival_time;
        let best = path_preferences.best_index(tau_star@[end as int]@, Timestamp::MAX, first_time);
        path_preferences.lemma_best_index(tau_star@[end as int]@, Timestamp::MAX, first_time);
        if direct {
            let i = choose|i: int|
                0 <= i < tau_star@[end as int]@.len() && (
                #[trigger] tau_star@[end as int]@[i]).arrival_time < Timestamp::MAX;
            assert(best is Some);
        }
        if best is Some {
            let label = tau_star@[end as int]@[best.unwrap()];
            assert(label_ok(n, start as int, start_time, end as int, label));
            let b = label.boarding.unwrap();
            assert(network.rides_to(b, end as int, label.arrival_time));
            assert(network.route_calls_at(b.trip.route_idx as int, end as int));
            let rebuilt = walk_back_bags(
                n,
                tau_star@,
                *path_preferences,
                first_time,
                start as int,
                end as int,
                None,
                MAX_LEGS as nat,
            );
            if runs_forward(n) {
                assert forall|s: int, i: int|
                    0 <= s < tau_star@.len() && 0 <= i < tau_star@[s]@.len() implies ((
                #[trigger] tau_star@[s]@[i]).boarding matches Some(b) ==> b.boarded_time
                    >= start_time) by {
                    assert(label_ok(n, start as int, start_time, s, tau_star@[s]@[i]));
                }
                assert(bags_from(tau_star@, start_time));
            }
            if rebuilt is Some {
                lemma_rebuilt_from_bags(
                    n,
                    tau_star@,
                    *path_preferences,
                    first_time,
                    start as int,
                    end as int,
                    start_time,
                );
                lemma_rides_fit(n, r.unwrap().legs@);
            }
        }
    }
    r
}

} // verus!
