use crate::journey::{
    lemma_rebuilt_once, rebuilt, same_result, stays, Boarding, JourneyResult, TauEntry,
};
use crate::network::{GlobalTripIndex, Network, RouteIndex, StopIndex, Timestamp, TripOrder};
use crate::raptor::{board_time, first_marked_call, marked_call, K};
use vstd::prelude::*;

verus! {

/// The first place of route `r` from `i` on that is a marked stop which
/// lists the route, or the number of the route's stops where there is none.
pub open spec fn first_marked_from(n: Network, marks: Seq<bool>, r: int, i: int) -> int
    decreases n.routes@[r].num_stops - i,
{
    if 0 <= i < n.routes@[r].num_stops && !marked_call(n, marks, r, i) {
        first_marked_from(n, marks, r, i + 1)
    } else {
        i
    }
}

/// The routes to scan from route `r` on, in order: those that a marked stop
/// lists, each with the first place in which it calls at such a stop.
pub open spec fn routes_from(n: Network, marks: Seq<bool>, r: int) -> Seq<(usize, usize)>
    decreases n.routes@.len() - r,
{
    if 0 <= r < n.routes@.len() {
        let first = first_marked_from(n, marks, r, 0);
        let others = routes_from(n, marks, r + 1);
        if first < n.routes@[r].num_stops {
            seq![(r as usize, first as usize)] + others
        } else {
            others
        }
    } else {
        Seq::empty()
    }
}

/// The place `o`, before which no place from `i` on is a marked stop that
/// lists the route, and which is one or the end of the route, is the first
/// such place from `i` on.
proof fn lemma_first_marked_from(n: Network, marks: Seq<bool>, r: int, i: int, o: int)
    requires
        0 <= i <= o <= n.routes@[r].num_stops,
        forall|x: int| i <= x < o ==> !marked_call(n, marks, r, x),
        o == n.routes@[r].num_stops || marked_call(n, marks, r, o),
    ensures
        first_marked_from(n, marks, r, i) == o,
    decreases o - i,
{
    if i < o {
        lemma_first_marked_from(n, marks, r, i + 1, o);
    }
}

/// Pairs of a route and a place, in the order of the routes, that hold
/// every route which a marked stop lists, with the first place in which it
/// calls at such a stop, are the routes to scan.
pub proof fn lemma_routes_from(n: Network, marks: Seq<bool>, pairs: Seq<(usize, usize)>, r: int, p: int)
    requires
        0 <= r <= n.routes@.len(),
        0 <= p <= pairs.len(),
        n.routes@.len() <= usize::MAX,
        forall|q: int|
            0 <= q < pairs.len() ==> (#[trigger] pairs[q]).0 < n.routes@.len() && pairs[q].1
                < n.routes@[pairs[q].0 as int].num_stops && first_marked_call(
                n,
                marks,
                pairs[q].0 as int,
                pairs[q].1 as int,
            ),
        forall|x: int, i: int|
            0 <= x < n.routes@.len() && #[trigger] marked_call(n, marks, x, i) ==> exists|q: int|
                0 <= q < pairs.len() && (#[trigger] pairs[q]).0 == x,
        forall|a: int, b: int| 0 <= a < b < pairs.len() ==> pairs[a].0 < pairs[b].0,
        forall|q: int| 0 <= q < p ==> (#[trigger] pairs[q]).0 < r,
        forall|q: int| p <= q < pairs.len() ==> (#[trigger] pairs[q]).0 >= r,
    ensures
        pairs.subrange(p, pairs.len() as int) == routes_from(n, marks, r),
    decreases n.routes@.len() - r,
{
    let rest = pairs.subrange(p, pairs.len() as int);
    if r == n.routes@.len() {
        if p < pairs.len() {
            assert(pairs[p].0 < n.routes@.len());
        }
        assert(rest =~= Seq::empty());
    } else if p < pairs.len() && pairs[p].0 == r {
        let o = pairs[p].1 as int;
        lemma_first_marked_from(n, marks, r, 0, o);
        assert forall|q: int| p + 1 <= q < pairs.len() implies (#[trigger] pairs[q]).0 >= r + 1 by {
            assert(pairs[p].0 < pairs[q].0);
        }
        lemma_routes_from(n, marks, pairs, r + 1, p + 1);
        assert(rest =~= seq![pairs[p]] + pairs.subrange(p + 1, pairs.len() as int));
    } else {
        let stops = n.routes@[r].num_stops as int;
        assert forall|x: int| 0 <= x < stops implies !marked_call(n, marks, r, x) by {
            if marked_call(n, marks, r, x) {
                let q = choose|q: int| 0 <= q < pairs.len() && (#[trigger] pairs[q]).0 == r;
                if q > p {
                    assert(pairs[p].0 < pairs[q].0);
                }
            }
        }
        lemma_first_marked_from(n, marks, r, 0, stops);
        assert forall|q: int| p <= q < pairs.len() implies (#[trigger] pairs[q]).0 >= r + 1 by {
            if q > p {
                assert(pairs[p].0 < pairs[q].0);
            }
        }
        lemma_routes_from(n, marks, pairs, r + 1, p);
    }
}

/// The first of the unbroken run of trips before trip `t` that leave place
/// `i` of route `r` at the time `time` or later; `t` where the trip just
/// before it leaves earlier, or there is none.
pub open spec fn run_start(n: Network, r: int, i: int, time: int, t: int) -> int
    decreases t,
{
    if t > 0 && n.departure(r, t - 1, i) >= time {
        run_start(n, r, i, time, t - 1)
    } else {
        t
    }
}

/// The trip `first`, from which on every trip before `t` leaves at `time` or
/// later, and before which the trip leaves earlier or there is none, is the
/// first of the run.
pub proof fn lemma_run_start(n: Network, r: int, i: int, time: int, t: int, first: int)
    requires
        0 <= first <= t,
        forall|u: int| first <= u < t ==> time <= #[trigger] n.departure(r, u, i),
        first == 0 || n.departure(r, first - 1, i) < time,
    ensures
        run_start(n, r, i, time, t) == first,
    decreases t - first,
{
    if first < t {
        assert(time <= n.departure(r, t - 1, i));
        lemma_run_start(n, r, i, time, t - 1, first);
    }
}

/// What a scan knows: the best arrival at each stop with its boarding, the
/// arrivals of the round, and the stops that the round has marked.
pub ghost struct Scan {
    pub star: Seq<TauEntry>,
    pub round: Seq<Timestamp>,
    pub marks: Seq<bool>,
}

/// What the scan knows after it has arrived at place `i` of route `r` on the
/// trip that it rides: where that is earlier than the best arrival at the
/// stop and at `end`, the stop gets the time and the boarding, and a mark.
pub open spec fn arrive(n: Network, end: int, r: int, i: int, s: Scan, boarding: Option<Boarding>) -> Scan {
    match boarding {
        Some(b) => {
            let x = n.route_stop(r, i) as int;
            let at = n.arrival(r, b.trip.trip_order as int, i);
            if at < s.star[x].time && at < s.star[end].time {
                Scan {
                    star: s.star.update(x, TauEntry { time: at, boarding: Some(b) }),
                    round: s.round.update(x, at),
                    marks: s.marks.update(x, true),
                }
            } else {
                s
            }
        },
        None => s,
    }
}

/// The trip that the scan rides from place `i` of route `r` in round `k`:
/// the one that it rode, where the stop was not reached in the round before,
/// where that trip leaves too early for a passenger who was, and where no
/// earlier trip leaves late enough; else the first of the earlier trips that
/// leave late enough, boarded here.
pub open spec fn board(
    n: Network,
    k: int,
    prev: Seq<Timestamp>,
    r: int,
    i: int,
    boarding: Option<Boarding>,
) -> Option<Boarding> {
    let x = n.route_stop(r, i);
    let ready = board_time(prev[x as int], k, n.transfer_times@[x as int]);
    let limit = match boarding {
        Some(b) => b.trip.trip_order as int,
        None => n.routes@[r].num_trips as int,
    };
    let first = run_start(n, r, i, ready, limit);
    if prev[x as int] == Timestamp::MAX {
        boarding
    } else if boarding is Some && ready > n.departure(r, limit, i) {
        boarding
    } else if first == limit {
        boarding
    } else {
        Some(
            Boarding {
                boarded_stop: x,
                boarded_stop_order: i as StopIndex,
                boarded_time: n.departure(r, first, i),
                trip: GlobalTripIndex { route_idx: r as RouteIndex, trip_order: first as TripOrder },
            },
        )
    }
}

/// What the scan knows when it has gone along route `r` from place `i` on,
/// arriving and then boarding at each place.
pub open spec fn scan_route(
    n: Network,
    end: int,
    k: int,
    prev: Seq<Timestamp>,
    r: int,
    i: int,
    s: Scan,
    boarding: Option<Boarding>,
) -> Scan
    decreases n.routes@[r].num_stops - i,
{
    if 0 <= i < n.routes@[r].num_stops {
        scan_route(
            n,
            end,
            k,
            prev,
            r,
            i + 1,
            arrive(n, end, r, i, s, boarding),
            board(n, k, prev, r, i, boarding),
        )
    } else {
        s
    }
}

/// What the scan knows when it has gone along the routes from the position
/// `p` of the list on, each from its place.
pub open spec fn scan_routes(
    n: Network,
    end: int,
    k: int,
    prev: Seq<Timestamp>,
    routes: Seq<(usize, usize)>,
    p: int,
    s: Scan,
) -> Scan
    decreases routes.len() - p,
{
    if 0 <= p < routes.len() {
        scan_routes(
            n,
            end,
            k,
            prev,
            routes,
            p + 1,
            scan_route(n, end, k, prev, routes[p].0 as int, routes[p].1 as int, s, None),
        )
    } else {
        s
    }
}

/// No stop is marked.
pub open spec fn none_marked(marks: Seq<bool>) -> bool {
    forall|i: int| 0 <= i < marks.len() ==> !marks[i]
}

/// What a round begins with: the best arrivals so far, no arrival of its
/// own and no mark.
pub open spec fn round_begins(star: Seq<TauEntry>) -> Scan {
    Scan {
        star,
        round: Seq::new(star.len(), |x: int| Timestamp::MAX),
        marks: Seq::new(star.len(), |x: int| false),
    }
}

/// The best arrivals after the rounds from round `k` on: each scans the
/// routes that a stop marked in the round before lists, and the rounds end
/// with the first that marks no stop, or with the last of them.
pub open spec fn rounds_from(
    n: Network,
    end: int,
    k: int,
    prev: Seq<Timestamp>,
    star: Seq<TauEntry>,
    marks: Seq<bool>,
) -> Seq<TauEntry>
    decreases K - k,
{
    if 1 <= k < K {
        let s = scan_routes(n, end, k, prev, routes_from(n, marks, 0), 0, round_begins(star));
        if none_marked(s.marks) {
            s.star
        } else {
            rounds_from(n, end, k + 1, s.round, s.star, s.marks)
        }
    } else {
        star
    }
}

/// The best arrivals, with their boardings, that the rounds find for a
/// passenger who is at `start` at the time `start_time` and goes to `end`.
pub open spec fn raptor_arrivals(n: Network, start: int, start_time: Timestamp, end: int) -> Seq<TauEntry> {
    let stops = n.stops@.len();
    rounds_from(
        n,
        end,
        1,
        Seq::new(stops, |x: int| Timestamp::MAX).update(start, start_time),
        Seq::new(stops, |x: int| TauEntry { time: Timestamp::MAX, boarding: None }).update(
            start,
            TauEntry { time: start_time, boarding: None },
        ),
        Seq::new(stops, |x: int| false).update(start, true),
    )
}

/// `r` is the answer of the rounds: the journey without legs for a passenger
/// who is at the destination already, else what going back from `end` over
/// the arrivals that the rounds find gives.
pub open spec fn raptor_answer<'a>(
    n: &'a Network,
    start: int,
    start_time: Timestamp,
    end: int,
    r: JourneyResult<'a>,
) -> bool {
    if start == end {
        stays(n, r)
    } else {
        rebuilt(n, raptor_arrivals(*n, start, start_time, end), start, end, r)
    }
}

/// Asked again, the rounds give the same answer: the same failure, or a
/// journey of the same legs, duration and cost.
pub proof fn lemma_raptor_answer_once<'a>(
    n: &'a Network,
    start: int,
    start_time: Timestamp,
    end: int,
    first: JourneyResult<'a>,
    second: JourneyResult<'a>,
)
    requires
        raptor_answer(n, start, start_time, end, first),
        raptor_answer(n, start, start_time, end, second),
    ensures
        same_result(first, second),
{
    if start != end {
        lemma_rebuilt_once(n, raptor_arrivals(*n, start, start_time, end), start, end, first, second);
    } else {
        assert(first.unwrap().legs@ =~= second.unwrap().legs@);
    }
}

/// The scan of a route goes on by one place.
pub proof fn lemma_scan_on(
    n: Network,
    end: int,
    k: int,
    prev: Seq<Timestamp>,
    r: int,
    i: int,
    s: Scan,
    boarding: Option<Boarding>,
    star: Seq<TauEntry>,
    round: Seq<Timestamp>,
    marks: Seq<bool>,
    riding: Option<Boarding>,
)
    requires
        0 <= i < n.routes@[r].num_stops,
        star =~= arrive(n, end, r, i, s, boarding).star,
        round =~= arrive(n, end, r, i, s, boarding).round,
        marks =~= arrive(n, end, r, i, s, boarding).marks,
        riding == board(n, k, prev, r, i, boarding),
    ensures
        scan_route(n, end, k, prev, r, i, s, boarding) == scan_route(
            n,
            end,
            k,
            prev,
            r,
            i + 1,
            Scan { star, round, marks },
            riding,
        ),
{
}

} // verus!
