use crate::journey::{
    lemma_rebuilt_labels_once, rebuilt_from_labels, same_result, stays, Boarding,
    JourneyPreferences, JourneyResult,
};
use crate::multicriteria::{add_accepts, add_result, dominated_by_any, Label};
use crate::network::{
    GlobalTripIndex, Network, PathfindingCost, RouteIndex, StopIndex, Timestamp, TripOrder,
};
use crate::raptor::{board_time, K};
use crate::scan::{none_marked, routes_from, run_start};
use vstd::prelude::*;

verus! {

/// The label of a passenger who rides with `label` on the trip boarded as
/// `b` says, at place `i` of route `r`: the trip's arrival there, and the
/// cost so far with the cost of being on the trip there, at most the
/// greatest cost there is.
pub open spec fn moved_to(
    n: Network,
    costs: Seq<PathfindingCost>,
    r: int,
    i: int,
    label: Label,
    b: Boarding,
) -> Label {
    let index = n.routes@[r].spec_stop_times_index(b.trip.trip_order as int, i);
    Label {
        arrival_time: n.stop_times@[index].arrival_time,
        cost: if label.cost + costs[index] > PathfindingCost::MAX {
            PathfindingCost::MAX
        } else {
            (label.cost + costs[index]) as PathfindingCost
        },
        boarding: label.boarding,
    }
}

/// The labels with which the riders from the position `at` on arrive at
/// place `i` of route `r`, added one after another to those in `arrived`.
pub open spec fn riders_arrive(
    n: Network,
    costs: Seq<PathfindingCost>,
    r: int,
    i: int,
    riders: Seq<Label>,
    at: int,
    arrived: Seq<Label>,
) -> Seq<Label>
    decreases riders.len() - at,
{
    if 0 <= at < riders.len() {
        let next = match riders[at].boarding {
            Some(b) => add_result(arrived, moved_to(n, costs, r, i, riders[at], b)),
            None => arrived,
        };
        riders_arrive(n, costs, r, i, riders, at + 1, next)
    } else {
        arrived
    }
}

/// The bags of the stops, those of the round, and whether one of them
/// changed, after the stop `x` has taken of the arrivals from the position
/// `at` on each that no label of the stop or of `end` dominates.
pub open spec fn stop_takes(
    end: int,
    x: int,
    arrivals: Seq<Label>,
    at: int,
    star: Seq<Seq<Label>>,
    round: Seq<Seq<Label>>,
    updated: bool,
) -> (Seq<Seq<Label>>, Seq<Seq<Label>>, bool)
    decreases arrivals.len() - at,
{
    if 0 <= at < arrivals.len() {
        let label = arrivals[at];
        if !dominated_by_any(star[x], label) && !dominated_by_any(star[end], label) {
            stop_takes(
                end,
                x,
                arrivals,
                at + 1,
                star.update(x, add_result(star[x], label)),
                round.update(x, add_result(round[x], label)),
                updated || add_accepts(round[x], label) || add_accepts(star[x], label),
            )
        } else {
            stop_takes(end, x, arrivals, at + 1, star, round, updated)
        }
    } else {
        (star, round, updated)
    }
}

/// The label with which a passenger who waits with `label` boards trip `t`
/// of route `r` at place `i`.
pub open spec fn boarded_on(n: Network, r: int, i: int, t: int, label: Label) -> Label {
    Label {
        arrival_time: label.arrival_time,
        cost: label.cost,
        boarding: Some(
            Boarding {
                boarded_stop: n.route_stop(r, i),
                boarded_stop_order: i as StopIndex,
                boarded_time: n.departure(r, t, i),
                trip: GlobalTripIndex { route_idx: r as RouteIndex, trip_order: t as TripOrder },
            },
        ),
    }
}

/// The riders of route `r` after those who wait at place `i` with the labels
/// of `waiting` from the position `at` on have boarded in round `k`: each
/// takes the first of the last run of trips that leave late enough for it,
/// where there is one.
pub open spec fn riders_board(
    n: Network,
    k: int,
    r: int,
    i: int,
    waiting: Seq<Label>,
    at: int,
    riders: Seq<Label>,
) -> Seq<Label>
    decreases waiting.len() - at,
{
    if 0 <= at < waiting.len() {
        let label = waiting[at];
        let x = n.route_stop(r, i) as int;
        let trips = n.routes@[r].num_trips as int;
        let first = run_start(
            n,
            r,
            i,
            board_time(label.arrival_time, k, n.transfer_times@[x]),
            trips,
        );
        let next = if first == trips {
            riders
        } else {
            add_result(riders, boarded_on(n, r, i, first, label))
        };
        riders_board(n, k, r, i, waiting, at + 1, next)
    } else {
        riders
    }
}

/// What a scan with bags knows: the labels of each stop that no other
/// dominates, those of the round, and the stops that the round has marked.
pub ghost struct BagScan {
    pub star: Seq<Seq<Label>>,
    pub round: Seq<Seq<Label>>,
    pub marks: Seq<bool>,
}

/// The labels with which the riders arrive at place `i` of route `r`.
pub open spec fn arrivals_at(n: Network, costs: Seq<PathfindingCost>, r: int, i: int, riders: Seq<Label>) -> Seq<
    Label,
> {
    riders_arrive(n, costs, r, i, riders, 0, Seq::empty())
}

/// What the scan knows after place `i` of route `r`: the stop has taken the
/// arrivals of the riders, and has a mark where a bag changed.
pub open spec fn stop_scanned(
    n: Network,
    costs: Seq<PathfindingCost>,
    end: int,
    r: int,
    i: int,
    s: BagScan,
    riders: Seq<Label>,
) -> BagScan {
    let x = n.route_stop(r, i) as int;
    let taken = stop_takes(end, x, arrivals_at(n, costs, r, i, riders), 0, s.star, s.round, false);
    BagScan {
        star: taken.0,
        round: taken.1,
        marks: if taken.2 {
            s.marks.update(x, true)
        } else {
            s.marks
        },
    }
}

/// The riders of route `r` after place `i`: those who arrived there, and
/// those who waited there since the round before and boarded.
pub open spec fn riders_after(
    n: Network,
    costs: Seq<PathfindingCost>,
    k: int,
    prev: Seq<Seq<Label>>,
    r: int,
    i: int,
    riders: Seq<Label>,
) -> Seq<Label> {
    riders_board(
        n,
        k,
        r,
        i,
        prev[n.route_stop(r, i) as int],
        0,
        arrivals_at(n, costs, r, i, riders),
    )
}

/// What the scan knows when it has gone along route `r` from place `i` on.
pub open spec fn bag_route(
    n: Network,
    costs: Seq<PathfindingCost>,
    end: int,
    k: int,
    prev: Seq<Seq<Label>>,
    r: int,
    i: int,
    s: BagScan,
    riders: Seq<Label>,
) -> BagScan
    decreases n.routes@[r].num_stops - i,
{
    if 0 <= i < n.routes@[r].num_stops {
        bag_route(
            n,
            costs,
            end,
            k,
            prev,
            r,
            i + 1,
            stop_scanned(n, costs, end, r, i, s, riders),
            riders_after(n, costs, k, prev, r, i, riders),
        )
    } else {
        s
    }
}

/// What the scan knows when it has gone along the routes from the position
/// `p` of the list on, each from its place and without riders at first.
pub open spec fn bag_routes(
    n: Network,
    costs: Seq<PathfindingCost>,
    end: int,
    k: int,
    prev: Seq<Seq<Label>>,
    routes: Seq<(usize, usize)>,
    p: int,
    s: BagScan,
) -> BagScan
    decreases routes.len() - p,
{
    if 0 <= p < routes.len() {
        bag_routes(
            n,
            costs,
            end,
            k,
            prev,
            routes,
            p + 1,
            bag_route(
                n,
                costs,
                end,
                k,
                prev,
                routes[p].0 as int,
                routes[p].1 as int,
                s,
                Seq::empty(),
            ),
        )
    } else {
        s
    }
}

/// As many bags without a label.
pub open spec fn no_labels(stops: nat) -> Seq<Seq<Label>> {
    Seq::new(stops, |x: int| Seq::empty())
}

/// What a round begins with: the bags so far, nothing in those of its own
/// and no mark.
pub open spec fn bag_round_begins(star: Seq<Seq<Label>>) -> BagScan {
    BagScan { star, round: no_labels(star.len()), marks: Seq::new(star.len(), |x: int| false) }
}

/// The bags after the rounds from round `k` on: each scans the routes that
/// a stop marked in the round before lists, and the rounds end with the
/// first that marks no stop, or with the last of them.
pub open spec fn bag_rounds(
    n: Network,
    costs: Seq<PathfindingCost>,
    end: int,
    k: int,
    prev: Seq<Seq<Label>>,
    star: Seq<Seq<Label>>,
    marks: Seq<bool>,
) -> Seq<Seq<Label>>
    decreases K - k,
{
    if 1 <= k < K {
        let s = bag_routes(
            n,
            costs,
            end,
            k,
            prev,
            routes_from(n, marks, 0),
            0,
            bag_round_begins(star),
        );
        if none_marked(s.marks) {
            s.star
        } else {
            bag_rounds(n, costs, end, k + 1, s.round, s.star, s.marks)
        }
    } else {
        star
    }
}

/// The bags that the rounds begin with: one label at `start`, at the start
/// time and without cost.
pub open spec fn bags_begin(n: Network, start: int, start_time: Timestamp) -> Seq<Seq<Label>> {
    no_labels(n.stops@.len()).update(
        start,
        add_result(Seq::empty(), Label { arrival_time: start_time, cost: 0, boarding: None }),
    )
}

/// The labels of each stop that the rounds find for a passenger who is at
/// `start` at the time `start_time` and goes to `end`.
pub open spec fn mc_arrivals(
    n: Network,
    costs: Seq<PathfindingCost>,
    start: int,
    start_time: Timestamp,
    end: int,
) -> Seq<Seq<Label>> {
    bag_rounds(
        n,
        costs,
        end,
        1,
        bags_begin(n, start, start_time),
        bags_begin(n, start, start_time),
        Seq::new(n.stops@.len(), |x: int| false).update(start, true),
    )
}

/// `r` is the answer of the rounds with bags: the journey without legs for
/// a passenger who is at the destination already, else what going back from
/// `end` over the labels that the rounds find gives, with the label that
/// the passenger prefers at each stop.
pub open spec fn mc_answer<'a>(
    n: &'a Network,
    costs: Seq<PathfindingCost>,
    prefs: JourneyPreferences,
    start: int,
    start_time: Timestamp,
    end: int,
    r: JourneyResult<'a>,
) -> bool {
    if start == end {
        stays(n, r)
    } else {
        rebuilt_from_labels(n, mc_arrivals(*n, costs, start, start_time, end), prefs, start, end, r)
    }
}

/// Asked again, the rounds with bags give the same answer: the same
/// failure, or a journey of the same legs, duration and cost.
pub proof fn lemma_mc_answer_once<'a>(
    n: &'a Network,
    costs: Seq<PathfindingCost>,
    prefs: JourneyPreferences,
    start: int,
    start_time: Timestamp,
    end: int,
    first: JourneyResult<'a>,
    second: JourneyResult<'a>,
)
    requires
        mc_answer(n, costs, prefs, start, start_time, end, first),
        mc_answer(n, costs, prefs, start, start_time, end, second),
    ensures
        same_result(first, second),
{
    if start != end {
        lemma_rebuilt_labels_once(
            n,
            mc_arrivals(*n, costs, start, start_time, end),
            prefs,
            start,
            end,
            first,
            second,
        );
    } else {
        assert(first.unwrap().legs@ =~= second.unwrap().legs@);
    }
}

/// The riders arrive one after another.
pub proof fn lemma_arrive_on(
    n: Network,
    costs: Seq<PathfindingCost>,
    r: int,
    i: int,
    riders: Seq<Label>,
    at: int,
    arrived: Seq<Label>,
    next: Seq<Label>,
)
    requires
        0 <= at < riders.len(),
        next == match riders[at].boarding {
            Some(b) => add_result(arrived, moved_to(n, costs, r, i, riders[at], b)),
            None => arrived,
        },
    ensures
        riders_arrive(n, costs, r, i, riders, at, arrived) == riders_arrive(
            n,
            costs,
            r,
            i,
            riders,
            at + 1,
            next,
        ),
{
}

/// The stop takes the arrivals one after another.
pub proof fn lemma_take_on(
    end: int,
    x: int,
    arrivals: Seq<Label>,
    at: int,
    star: Seq<Seq<Label>>,
    round: Seq<Seq<Label>>,
    updated: bool,
    star2: Seq<Seq<Label>>,
    round2: Seq<Seq<Label>>,
    updated2: bool,
)
    requires
        0 <= at < arrivals.len(),
        !dominated_by_any(star[x], arrivals[at]) && !dominated_by_any(star[end], arrivals[at]) ==> {
            &&& star2 =~= star.update(x, add_result(star[x], arrivals[at]))
            &&& round2 =~= round.update(x, add_result(round[x], arrivals[at]))
            &&& updated2 == (updated || add_accepts(round[x], arrivals[at]) || add_accepts(
                star[x],
                arrivals[at],
            ))
        },
        dominated_by_any(star[x], arrivals[at]) || dominated_by_any(star[end], arrivals[at]) ==> star2
            == star && round2 == round && updated2 == updated,
    ensures
        stop_takes(end, x, arrivals, at, star, round, updated) == stop_takes(
            end,
            x,
            arrivals,
            at + 1,
            star2,
            round2,
            updated2,
        ),
{
}

/// The passengers who wait board one after another.
pub proof fn lemma_board_on(
    n: Network,
    k: int,
    r: int,
    i: int,
    waiting: Seq<Label>,
    at: int,
    riders: Seq<Label>,
    next: Seq<Label>,
)
    requires
        0 <= at < waiting.len(),
        next == ({
            let trips = n.routes@[r].num_trips as int;
            let first = run_start(
                n,
                r,
                i,
                board_time(
                    waiting[at].arrival_time,
                    k,
                    n.transfer_times@[n.route_stop(r, i) as int],
                ),
                trips,
            );
            if first == trips {
                riders
            } else {
                add_result(riders, boarded_on(n, r, i, first, waiting[at]))
            }
        }),
    ensures
        riders_board(n, k, r, i, waiting, at, riders) == riders_board(
            n,
            k,
            r,
            i,
            waiting,
            at + 1,
            next,
        ),
{
}

/// The scan of a route goes on by one place.
pub proof fn lemma_bag_route_on(
    n: Network,
    costs: Seq<PathfindingCost>,
    end: int,
    k: int,
    prev: Seq<Seq<Label>>,
    r: int,
    i: int,
    s: BagScan,
    riders: Seq<Label>,
    star: Seq<Seq<Label>>,
    round: Seq<Seq<Label>>,
    marks: Seq<bool>,
    riders2: Seq<Label>,
)
    requires
        0 <= i < n.routes@[r].num_stops,
        star == stop_scanned(n, costs, end, r, i, s, riders).star,
        round == stop_scanned(n, costs, end, r, i, s, riders).round,
        marks =~= stop_scanned(n, costs, end, r, i, s, riders).marks,
        riders2 == riders_after(n, costs, k, prev, r, i, riders),
    ensures
        bag_route(n, costs, end, k, prev, r, i, s, riders) == bag_route(
            n,
            costs,
            end,
            k,
            prev,
            r,
            i + 1,
            BagScan { star, round, marks },
            riders2,
        ),
{
}

} // verus!
