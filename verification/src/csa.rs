use crate::journey::{
    after_transfer, leg_rides, legs_connected, legs_fit, legs_from, legs_in_time,
    lemma_rebuilt_journey, lemma_rebuilt_once, lemma_rides_fit, rebuilt, same_result, stays, tau_from, tau_in_time, tau_linked,
    tau_wf, walk_back, Boarding, Connection, Journey, JourneyError, JourneyResult, TauEntry,
    MAX_LEGS,
};
use crate::network::{
    lemma_trips_before_monotone, sorted_by_departure, Network, StopIndex, Timestamp,
};
use vstd::prelude::*;

verus! {

/// The position of the first connection that leaves at `time` or later, in a
/// list in order of departure.
pub fn first_departure_from(connections: &Vec<Connection>, time: Timestamp) -> (at: usize)
    requires
        sorted_by_departure(connections@),
    ensures
        at <= connections@.len(),
        forall|i: int| 0 <= i < at ==> (#[trigger] connections@[i]).departure_time < time,
        forall|i: int|
            at <= i < connections@.len() ==> (#[trigger] connections@[i]).departure_time >= time,
{
    let mut low: usize = 0;
    let mut high: usize = connections.len();
    while low < high
        invariant
            sorted_by_departure(connections@),
            low <= high <= connections@.len(),
            forall|i: int| 0 <= i < low ==> (#[trigger] connections@[i]).departure_time < time,
            forall|i: int|
                high <= i < connections@.len() ==> (#[trigger] connections@[i]).departure_time
                    >= time,
        decreases high - low,
    {
        let mid = low + (high - low) / 2;
        if connections[mid].departure_time < time {
            assert forall|i: int| 0 <= i < mid + 1 implies (#[trigger] connections@[i]).departure_time
                < time by {
                if i < mid {
                    assert(connections@[i].departure_time <= connections@[mid as int].departure_time);
                }
            }
            low = mid + 1;
        } else {
            assert forall|i: int| mid <= i < connections@.len() implies (
            #[trigger] connections@[i]).departure_time >= time by {
                if i > mid {
                    assert(connections@[mid as int].departure_time <= connections@[i].departure_time);
                }
            }
            high = mid;
        }
    }
    low
}

impl Network {
    /// The connection at position `k` leaves `start` at the time `time` or
    /// later for `end`, and leaves and arrives before the end of time.
    pub open spec fn connects(&self, k: int, start: int, end: int, time: Timestamp) -> bool {
        &&& 0 <= k < self.connections@.len()
        &&& self.connections@[k].departure_idx == start
        &&& self.connections@[k].arrival_idx == end
        &&& time <= self.connections@[k].departure_time < Timestamp::MAX
        &&& self.connections@[k].arrival_time < Timestamp::MAX
    }

    /// The connection at position `k` goes from `start` to `end` and does
    /// not arrive before it has left.
    pub open spec fn goes(&self, k: int, start: int, end: int) -> bool {
        &&& self.connections@[k].departure_idx == start
        &&& self.connections@[k].arrival_idx == end
        &&& self.connections@[k].departure_time <= self.connections@[k].arrival_time
    }

    /// A passenger who is at `start` at the time `time` can be at `end` at
    /// the time `at` by one connection.
    pub open spec fn connection_arrival(&self, start: int, end: int, time: Timestamp, at: Timestamp) -> bool {
        exists|k: int|
            0 <= k < self.connections@.len() && #[trigger] self.goes(k, start, end) && time
                <= self.connections@[k].departure_time && self.connections@[k].arrival_time == at
    }

    /// Some connection takes a passenger who is at `start` at the time
    /// `time` to `end`.
    pub open spec fn direct_connection(&self, start: int, end: int, time: Timestamp) -> bool {
        exists|k: int| #[trigger] self.connects(k, start, end, time)
    }
}

/// `b` is the hop of a trip that comes after its hop `a`.
pub open spec fn follows(a: Connection, b: Connection) -> bool {
    a.trip == b.trip && a.departure_stop_order + 1 == b.departure_stop_order
}

/// The time that a change takes at the stop where `c` leaves: none at the
/// stop where the journey starts.
pub open spec fn change_time(n: Network, start: int, c: Connection) -> Timestamp {
    if c.departure_idx == start {
        0
    } else {
        n.transfer_times@[c.departure_idx as int]
    }
}

/// A passenger who arrives with `a` has the time to change to `b`.
pub open spec fn changes(n: Network, start: int, a: Connection, b: Connection) -> bool {
    a.arrival_idx == b.departure_idx && after_transfer(a.arrival_time, change_time(n, start, b))
        <= b.departure_time
}

impl Network {
    /// Every connection arrives after it has left and before the end of
    /// time, and no trip leaves a stop before it has arrived there.
    pub open spec fn well_timed(&self) -> bool {
        &&& forall|k: int|
            0 <= k < self.connections@.len() ==> (#[trigger] self.connections@[k]).departure_time
                < self.connections@[k].arrival_time < Timestamp::MAX
        &&& forall|a: int, b: int|
            0 <= a < self.connections@.len() && 0 <= b < self.connections@.len() && follows(
                #[trigger] self.connections@[a],
                #[trigger] self.connections@[b],
            ) ==> self.connections@[a].arrival_time <= self.connections@[b].departure_time
    }
}

/// `steps` are the positions of connections that make a journey from
/// `start` at the time `start_time` or later: each leaves where the one
/// before it arrived, as the next hop of its trip or after the time for a
/// change.
pub open spec fn is_journey(n: Network, start: int, start_time: Timestamp, steps: Seq<int>) -> bool {
    &&& steps.len() > 0
    &&& forall|i: int| 0 <= i < steps.len() ==> 0 <= #[trigger] steps[i] < n.connections@.len()
    &&& n.connections@[steps[0]].departure_idx == start
    &&& n.connections@[steps[0]].departure_time >= start_time
    &&& forall|i: int|
        0 <= i < steps.len() - 1 ==> follows(
            n.connections@[#[trigger] steps[i]],
            n.connections@[steps[i + 1]],
        ) || changes(n, start, n.connections@[steps[i]], n.connections@[steps[i + 1]])
}

/// The sweep has taken the connection `c`: its trip counts as reached, and
/// the stop where it arrives is reached no later than it arrives.
pub open spec fn taken(tau: Seq<TauEntry>, reachable: Seq<bool>, c: Connection) -> bool {
    tau[c.arrival_idx as int].time <= c.arrival_time && reachable[c.sequential_trip_idx as int]
}

/// The sweep has taken the last connection of every journey that ends
/// before the position `at`.
pub open spec fn swept(
    n: Network,
    start: int,
    start_time: Timestamp,
    tau: Seq<TauEntry>,
    reachable: Seq<bool>,
    at: int,
) -> bool {
    forall|steps: Seq<int>| #[trigger]
        is_journey(n, start, start_time, steps) && steps.last() < at ==> taken(
            tau,
            reachable,
            n.connections@[steps.last()],
        )
}

/// The passenger can board the connection `c`: its trip counts as reached,
/// or the stop where it leaves was reached in time for a change.
pub open spec fn in_reach(
    n: Network,
    start: int,
    tau: Seq<TauEntry>,
    reachable: Seq<bool>,
    c: Connection,
) -> bool {
    reachable[c.sequential_trip_idx as int] || after_transfer(
        tau[c.departure_idx as int].time,
        change_time(n, start, c),
    ) <= c.departure_time
}

/// The stop where `c` leaves has been reached.
pub open spec fn from_reached(start: int, tau: Seq<TauEntry>, c: Connection) -> bool {
    c.departure_idx == start || tau[c.departure_idx as int].boarding is Some
}

/// In a well-timed network, the connections of a journey stand in the list
/// one after another.
proof fn lemma_steps_increase(n: Network, start: int, start_time: Timestamp, steps: Seq<int>, i: int)
    requires
        n.wf(),
        n.well_timed(),
        is_journey(n, start, start_time, steps),
        0 <= i < steps.len() - 1,
    ensures
        steps[i] < steps[i + 1],
        n.connections@[steps[i]].arrival_time <= n.connections@[steps[i + 1]].departure_time,
        n.connections@[steps[i]].arrival_idx == n.connections@[steps[i + 1]].departure_idx,
{
    let a = n.connections@[steps[i]];
    let b = n.connections@[steps[i + 1]];
    assert(0 <= steps[i + 1] < n.connections@.len());
    assert(a.departure_time < a.arrival_time);
    assert(n.connection_wf(a));
    assert(n.connection_wf(b));
    assert(a.arrival_time <= b.departure_time);
    if steps[i] > steps[i + 1] {
        assert(b.departure_time <= a.departure_time);
    }
}

proof fn lemma_prefix_journey(n: Network, start: int, start_time: Timestamp, steps: Seq<int>)
    requires
        is_journey(n, start, start_time, steps),
        steps.len() > 1,
    ensures
        is_journey(n, start, start_time, steps.drop_last()),
{
    let prefix = steps.drop_last();
    assert forall|i: int| 0 <= i < prefix.len() implies 0 <= #[trigger] prefix[i]
        < n.connections@.len() by {
        assert(prefix[i] == steps[i]);
    }
    assert forall|i: int| 0 <= i < prefix.len() - 1 implies follows(
        n.connections@[#[trigger] prefix[i]],
        n.connections@[prefix[i + 1]],
    ) || changes(n, start, n.connections@[prefix[i]], n.connections@[prefix[i + 1]]) by {
        assert(prefix[i] == steps[i]);
        assert(prefix[i + 1] == steps[i + 1]);
    }
}

/// In a well-timed network, a journey ends no earlier in the list than it
/// begins.
proof fn lemma_first_before_last(n: Network, start: int, start_time: Timestamp, steps: Seq<int>)
    requires
        n.wf(),
        n.well_timed(),
        is_journey(n, start, start_time, steps),
    ensures
        steps[0] <= steps.last(),
    decreases steps.len(),
{
    if steps.len() > 1 {
        lemma_prefix_journey(n, start, start_time, steps);
        lemma_first_before_last(n, start, start_time, steps.drop_last());
        lemma_steps_increase(n, start, start_time, steps, steps.len() - 2);
    }
}

/// Where the sweep has taken what comes before the last connection of a
/// journey, the passenger can board that connection at a stop that has been
/// reached.
proof fn lemma_last_step(
    n: Network,
    start: int,
    start_time: Timestamp,
    tau: Seq<TauEntry>,
    reachable: Seq<bool>,
    steps: Seq<int>,
)
    requires
        n.wf(),
        n.well_timed(),
        is_journey(n, start, start_time, steps),
        swept(n, start, start_time, tau, reachable, steps.last()),
        0 <= start < tau.len(),
        tau.len() == n.stops@.len(),
        tau[start].time <= start_time,
        forall|s: int|
            0 <= s < tau.len() && (#[trigger] tau[s]).time < Timestamp::MAX ==> s == start
                || tau[s].boarding is Some,
    ensures
        in_reach(n, start, tau, reachable, n.connections@[steps.last()]),
        from_reached(start, tau, n.connections@[steps.last()]),
{
    let c = n.connections@[steps.last()];
    if steps.len() > 1 {
        let prefix = steps.drop_last();
        lemma_prefix_journey(n, start, start_time, steps);
        lemma_steps_increase(n, start, start_time, steps, steps.len() - 2);
        assert(prefix.last() == steps[steps.len() - 2]);
        let b = n.connections@[prefix.last()];
        assert(is_journey(n, start, start_time, prefix) && prefix.last() < steps.last());
        assert(taken(tau, reachable, b));
        assert(n.connection_wf(b));
        assert(n.connection_wf(c));
        assert(n.route_wf(b.trip.route_idx as int));
        assert(n.route_stop(b.trip.route_idx as int, b.departure_stop_order + 1) < n.stops@.len());
        assert(b.arrival_time < Timestamp::MAX);
        assert(tau[c.departure_idx as int].time <= b.arrival_time);
    }
}

/// Taking one more connection keeps the sweep complete: the connection is
/// taken where the passenger can board it at a stop that has been reached,
/// and no journey ends with it where not.
proof fn lemma_sweep_step(
    n: Network,
    start: int,
    start_time: Timestamp,
    before: Seq<TauEntry>,
    reachable_before: Seq<bool>,
    after: Seq<TauEntry>,
    reachable_after: Seq<bool>,
    at: int,
)
    requires
        n.wf(),
        n.well_timed(),
        0 <= at < n.connections@.len(),
        swept(n, start, start_time, before, reachable_before, at),
        0 <= start < before.len(),
        before.len() == n.stops@.len(),
        after.len() == before.len(),
        reachable_before.len() == n.num_trips,
        reachable_after.len() == reachable_before.len(),
        before[start].time <= start_time,
        forall|s: int|
            0 <= s < before.len() && (#[trigger] before[s]).time < Timestamp::MAX ==> s == start
                || before[s].boarding is Some,
        forall|s: int| 0 <= s < after.len() ==> (#[trigger] after[s]).time <= before[s].time,
        forall|t: int|
            0 <= t < reachable_before.len() && reachable_before[t] ==> #[trigger] reachable_after[t],
        in_reach(n, start, before, reachable_before, n.connections@[at]) && from_reached(
            start,
            before,
            n.connections@[at],
        ) ==> taken(after, reachable_after, n.connections@[at]),
    ensures
        swept(n, start, start_time, after, reachable_after, at + 1),
{
    assert forall|steps: Seq<int>| #[trigger]
        is_journey(n, start, start_time, steps) && steps.last() < at + 1 implies taken(
        after,
        reachable_after,
        n.connections@[steps.last()],
    ) by {
        let c = n.connections@[steps.last()];
        assert(0 <= steps[steps.len() - 1] < n.connections@.len());
        assert(n.connection_wf(c));
        assert(n.route_wf(c.trip.route_idx as int));
        assert(n.route_stop(c.trip.route_idx as int, c.departure_stop_order + 1) < n.stops@.len());
        lemma_trips_before_monotone(n.routes@, c.trip.route_idx as int, n.routes@.len() as int);
        if steps.last() < at {
            assert(taken(before, reachable_before, c));
        } else {
            lemma_last_step(n, start, start_time, before, reachable_before, steps);
        }
    }
}

/// A passenger can be at stop `s` at the time `time`: some journey ends
/// there then.
pub open spec fn arrives(n: Network, start: int, start_time: Timestamp, s: int, time: Timestamp) -> bool {
    exists|steps: Seq<int>| #[trigger]
        is_journey(n, start, start_time, steps) && n.connections@[steps.last()].arrival_idx == s
            && n.connections@[steps.last()].arrival_time == time
}

/// The position of the first connection from `at` on that leaves at `time`
/// or later.
pub open spec fn first_leaving(connections: Seq<Connection>, time: Timestamp, at: int) -> int
    decreases connections.len() - at,
{
    if 0 <= at < connections.len() && connections[at].departure_time < time {
        first_leaving(connections, time, at + 1)
    } else {
        at
    }
}

/// The position `first` parts the connections that leave before `time`
/// from the others: it is that of the first that leaves at `time` or later.
proof fn lemma_first_leaving(connections: Seq<Connection>, time: Timestamp, at: int, first: int)
    requires
        0 <= at <= first <= connections.len(),
        forall|i: int| 0 <= i < first ==> (#[trigger] connections[i]).departure_time < time,
        forall|i: int|
            first <= i < connections.len() ==> (#[trigger] connections[i]).departure_time >= time,
    ensures
        first_leaving(connections, time, at) == first,
    decreases first - at,
{
    if at < first {
        lemma_first_leaving(connections, time, at + 1, first);
    }
}

/// The boarding with which a passenger takes the connection `c` from a stop
/// with the entry `from`: the entry's own where that is on the trip of `c`,
/// at its place or before, else one at the stop.
pub open spec fn carried(from: TauEntry, c: Connection) -> Boarding {
    match from.boarding {
        Some(b) => if b.trip == c.trip && b.boarded_stop_order <= c.departure_stop_order {
            b
        } else {
            boarding_at(c)
        },
        None => boarding_at(c),
    }
}

/// What the sweep knows after the connection `c`, of the arrivals and of
/// the trips that count as reached: nothing new where the passenger cannot
/// board `c`; else its trip counts as reached, and where the stop that it
/// leaves has been reached and it arrives earlier than anything before it,
/// the stop where it arrives gets its time and the boarding of its
/// passenger.
pub open spec fn sweep_step(
    n: Network,
    start: int,
    tau: Seq<TauEntry>,
    reachable: Seq<bool>,
    c: Connection,
) -> (Seq<TauEntry>, Seq<bool>) {
    let from = tau[c.departure_idx as int];
    if !in_reach(n, start, tau, reachable, c) {
        (tau, reachable)
    } else if (from.boarding is None && c.departure_idx != start) || c.arrival_time
        >= tau[c.arrival_idx as int].time {
        (tau, reachable.update(c.sequential_trip_idx as int, true))
    } else {
        (
            tau.update(
                c.arrival_idx as int,
                TauEntry { time: c.arrival_time, boarding: Some(carried(from, c)) },
            ),
            reachable.update(c.sequential_trip_idx as int, true),
        )
    }
}

/// What the sweep knows of the arrivals when it has gone on from the
/// position `at`, one connection after another, up to the first that leaves
/// no earlier than `end` is reached.
pub open spec fn sweep_from(
    n: Network,
    start: int,
    end: int,
    tau: Seq<TauEntry>,
    reachable: Seq<bool>,
    at: int,
) -> Seq<TauEntry>
    decreases n.connections@.len() - at,
{
    if 0 <= at < n.connections@.len() && n.connections@[at].departure_time < tau[end].time {
        let next = sweep_step(n, start, tau, reachable, n.connections@[at]);
        sweep_from(n, start, end, next.0, next.1, at + 1)
    } else {
        tau
    }
}

/// The arrivals that the sweep begins with: the start at the start time,
/// every other stop at the end of time.
pub open spec fn sweep_begins(n: Network, start: int, start_time: Timestamp) -> Seq<TauEntry> {
    Seq::new(n.stops@.len(), |s: int| TauEntry { time: Timestamp::MAX, boarding: None }).update(
        start,
        TauEntry { time: start_time, boarding: None },
    )
}

/// The earliest arrivals, with their boardings, that the sweep finds for a
/// passenger who is at `start` at the time `start_time` and goes to `end`.
pub open spec fn csa_arrivals(n: Network, start: int, start_time: Timestamp, end: int) -> Seq<TauEntry> {
    sweep_from(
        n,
        start,
        end,
        sweep_begins(n, start, start_time),
        Seq::new(n.num_trips as nat, |t: int| false),
        first_leaving(n.connections@, start_time, 0),
    )
}

/// `r` is the answer of the sweep: the journey without legs for a passenger
/// who is at the destination already, else what going back from `end` over
/// the arrivals that the sweep finds gives.
pub open spec fn csa_answer<'a>(
    n: &'a Network,
    start: int,
    start_time: Timestamp,
    end: int,
    r: JourneyResult<'a>,
) -> bool {
    if start == end {
        stays(n, r)
    } else {
        rebuilt(n, csa_arrivals(*n, start, start_time, end), start, end, r)
    }
}

/// Asked again, the sweep gives the same answer: the same failure, or a
/// journey of the same legs, duration and cost.
pub proof fn lemma_csa_answer_once<'a>(
    n: &'a Network,
    start: int,
    start_time: Timestamp,
    end: int,
    first: JourneyResult<'a>,
    second: JourneyResult<'a>,
)
    requires
        csa_answer(n, start, start_time, end, first),
        csa_answer(n, start, start_time, end, second),
    ensures
        same_result(first, second),
{
    if start != end {
        lemma_rebuilt_once(n, csa_arrivals(*n, start, start_time, end), start, end, first, second);
    } else {
        assert(first.unwrap().legs@ =~= second.unwrap().legs@);
    }
}

/// The sweep goes on by one connection.
proof fn lemma_sweep_on(
    n: Network,
    start: int,
    end: int,
    tau: Seq<TauEntry>,
    reachable: Seq<bool>,
    at: int,
    tau2: Seq<TauEntry>,
    reachable2: Seq<bool>,
)
    requires
        0 <= at < n.connections@.len(),
        n.connections@[at].departure_time < tau[end].time,
        tau2 =~= sweep_step(n, start, tau, reachable, n.connections@[at]).0,
        reachable2 =~= sweep_step(n, start, tau, reachable, n.connections@[at]).1,
    ensures
        sweep_from(n, start, end, tau, reachable, at) == sweep_from(
            n,
            start,
            end,
            tau2,
            reachable2,
            at + 1,
        ),
{
}

/// No journey from `start` at the time `start_time` or later is at `end`
/// before the time `at`.
pub open spec fn earliest_by_hops(n: Network, start: int, start_time: Timestamp, end: int, at: Timestamp) -> bool {
    forall|steps: Seq<int>| #[trigger]
        is_journey(n, start, start_time, steps) && n.connections@[steps.last()].arrival_idx == end
            ==> at <= n.connections@[steps.last()].arrival_time
}

/// Some journey ends with the connection at position `k`.
pub open spec fn rides(n: Network, start: int, start_time: Timestamp, k: int) -> bool {
    exists|steps: Seq<int>| #[trigger] is_journey(n, start, start_time, steps) && steps.last() == k
}

/// A journey with one more connection, which is the next hop of the trip or
/// leaves after the time for a change, is a journey.
pub(crate) proof fn lemma_longer_journey(n: Network, start: int, start_time: Timestamp, steps: Seq<int>, k: int)
    requires
        is_journey(n, start, start_time, steps),
        0 <= k < n.connections@.len(),
        follows(n.connections@[steps.last()], n.connections@[k]) || changes(
            n,
            start,
            n.connections@[steps.last()],
            n.connections@[k],
        ),
    ensures
        is_journey(n, start, start_time, steps.push(k)),
        rides(n, start, start_time, k),
{
    let longer = steps.push(k);
    assert forall|i: int| 0 <= i < longer.len() implies 0 <= #[trigger] longer[i]
        < n.connections@.len() by {
        if i < steps.len() {
            assert(longer[i] == steps[i]);
        }
    }
    assert forall|i: int| 0 <= i < longer.len() - 1 implies follows(
        n.connections@[#[trigger] longer[i]],
        n.connections@[longer[i + 1]],
    ) || changes(n, start, n.connections@[longer[i]], n.connections@[longer[i + 1]]) by {
        assert(longer[i] == steps[i]);
        if i + 1 < steps.len() {
            assert(longer[i + 1] == steps[i + 1]);
        }
    }
    assert(longer[0] == steps[0]);
    assert(longer.last() == k);
}

/// A connection that leaves the start at the start time or later is a
/// journey.
pub(crate) proof fn lemma_first_journey(n: Network, start: int, start_time: Timestamp, k: int)
    requires
        0 <= k < n.connections@.len(),
        n.connections@[k].departure_idx == start,
        n.connections@[k].departure_time >= start_time,
    ensures
        rides(n, start, start_time, k),
{
    let steps = seq![k];
    assert(is_journey(n, start, start_time, steps));
    assert(steps.last() == k);
}

/// Different trips have different numbers.
proof fn lemma_trip_numbers(n: Network, a: Connection, b: Connection)
    requires
        n.wf(),
        n.connection_wf(a),
        n.connection_wf(b),
        a.sequential_trip_idx == b.sequential_trip_idx,
    ensures
        a.trip == b.trip,
{
    let ra = a.trip.route_idx as int;
    let rb = b.trip.route_idx as int;
    lemma_trips_before_monotone(n.routes@, ra, n.routes@.len() as int);
    lemma_trips_before_monotone(n.routes@, rb, n.routes@.len() as int);
    if ra < rb {
        lemma_trips_before_monotone(n.routes@, ra, rb);
    } else if rb < ra {
        lemma_trips_before_monotone(n.routes@, rb, ra);
    }
}

/// In a well-timed network that has every hop once, an earlier hop of a trip
/// stands before a later one in the list.
proof fn lemma_hops_in_order(n: Network, a: int, b: int)
    requires
        n.wf(),
        n.well_timed(),
        n.connections_complete(),
        0 <= a < n.connections@.len(),
        0 <= b < n.connections@.len(),
        n.connections@[a].trip == n.connections@[b].trip,
        n.connections@[a].departure_stop_order < n.connections@[b].departure_stop_order,
    ensures
        a < b,
    decreases n.connections@[b].departure_stop_order - n.connections@[a].departure_stop_order,
{
    let ca = n.connections@[a];
    let cb = n.connections@[b];
    assert(n.connection_wf(ca));
    assert(n.connection_wf(cb));
    let r = ca.trip.route_idx as int;
    let t = ca.trip.trip_order as int;
    let o = ca.departure_stop_order as int;
    // The hop after `a` is in the list.
    assert(n.valid_hop(r, t, o + 1));
    let next = n.hop(r, t, o + 1);
    assert(n.connections@.contains(next));
    let m = choose|m: int| 0 <= m < n.connections@.len() && n.connections@[m] == next;
    assert(follows(ca, n.connections@[m]));
    assert(ca.departure_time < ca.arrival_time);
    assert(ca.arrival_time <= n.connections@[m].departure_time);
    if a >= m {
        if a > m {
            assert(n.connections@[m].departure_time <= ca.departure_time);
        }
    }
    if o + 1 == cb.departure_stop_order {
        assert(n.connections@[m] == cb);
    } else {
        lemma_hops_in_order(n, m, b);
    }
}

/// The trip with the number `t` counts as reached since the connection at
/// position `board`, which is one of its hops, and a journey ends with every
/// hop of the trip from there up to the position `at`.
pub open spec fn boarded_ok(
    n: Network,
    start: int,
    start_time: Timestamp,
    board: int,
    t: int,
    at: int,
) -> bool {
    &&& 0 <= board < at
    &&& board < n.connections@.len()
    &&& n.connections@[board].sequential_trip_idx == t
    &&& forall|k: int|
        board <= k < at && k < n.connections@.len() && (
        #[trigger] n.connections@[k]).sequential_trip_idx == t ==> rides(n, start, start_time, k)
}

/// What the sweep has found can be travelled: a journey ends at every stop
/// that has a boarding, at the stop's time, no boarding is earlier than
/// the arrival at its stop, and a journey ends with every hop that a
/// passenger on a reached trip rides.
pub open spec fn sound(
    n: Network,
    start: int,
    start_time: Timestamp,
    tau: Seq<TauEntry>,
    reachable: Seq<bool>,
    board: Seq<int>,
    at: int,
) -> bool {
    &&& tau_in_time(tau)
    &&& forall|s: int|
        0 <= s < tau.len() ==> ((#[trigger] tau[s]).boarding is Some ==> arrives(
            n,
            start,
            start_time,
            s,
            tau[s].time,
        ))
    &&& board.len() == reachable.len()
    &&& forall|t: int|
        0 <= t < reachable.len() && #[trigger] reachable[t] ==> boarded_ok(
            n,
            start,
            start_time,
            board[t],
            t,
            at,
        )
}

/// The boarding of a passenger who joins the trip at the connection's
/// departure.
pub open spec fn boarding_at(c: Connection) -> Boarding {
    Boarding {
        boarded_stop: c.departure_idx,
        boarded_stop_order: c.departure_stop_order,
        boarded_time: c.departure_time,
        trip: c.trip,
    }
}

/// How the sweep goes on from one connection to the next: it leaves
/// everything as it is where the passenger cannot board the connection; else
/// the trip counts as reached, and the stop where the connection arrives
/// gets its time where that is earlier than what the stop had, with the
/// boarding of the stop where it leaves or a boarding of its own.
pub open spec fn sweeps(
    n: Network,
    start: int,
    tau: Seq<TauEntry>,
    reachable: Seq<bool>,
    board: Seq<int>,
    tau2: Seq<TauEntry>,
    reachable2: Seq<bool>,
    board2: Seq<int>,
    at: int,
) -> bool {
    let c = n.connections@[at];
    if !in_reach(n, start, tau, reachable, c) {
        tau2 == tau && reachable2 == reachable && board2 == board
    } else {
        &&& reachable2 == reachable.update(c.sequential_trip_idx as int, true)
        &&& board2 == if reachable[c.sequential_trip_idx as int] {
            board
        } else {
            board.update(c.sequential_trip_idx as int, at)
        }
        &&& tau2 == tau || (c.arrival_time < tau[c.arrival_idx as int].time && exists|b: Boarding|
            #[trigger] takes(tau, c, b) && tau2 == tau.update(
                c.arrival_idx as int,
                TauEntry { time: c.arrival_time, boarding: Some(b) },
            ))
    }
}

/// `b` is the boarding with which a passenger takes the connection `c`:
/// that of the stop where `c` leaves, where the passenger is on the trip
/// already, or one at that stop.
pub open spec fn takes(tau: Seq<TauEntry>, c: Connection, b: Boarding) -> bool {
    b == boarding_at(c) || (tau[c.departure_idx as int].boarding == Some(b) && b.trip == c.trip)
}

/// Where the passenger can board the connection at the position `at`, a
/// journey ends with it, the stop where it leaves has been reached, and
/// no later than it leaves.
proof fn lemma_rides_here(
    n: Network,
    start: int,
    start_time: Timestamp,
    tau: Seq<TauEntry>,
    reachable: Seq<bool>,
    board: Seq<int>,
    first: int,
    at: int,
)
    requires
        n.wf(),
        n.well_timed(),
        n.connections_complete(),
        0 <= first <= at < n.connections@.len(),
        forall|i: int|
            first <= i < n.connections@.len() ==> (#[trigger] n.connections@[i]).departure_time
                >= start_time,
        sound(n, start, start_time, tau, reachable, board, at),
        swept(n, start, start_time, tau, reachable, at),
        0 <= start < tau.len(),
        tau.len() == n.stops@.len(),
        reachable.len() == n.num_trips,
        tau[start].time <= start_time,
        forall|s: int|
            0 <= s < tau.len() && (#[trigger] tau[s]).time < Timestamp::MAX ==> s == start
                || tau[s].boarding is Some,
        in_reach(n, start, tau, reachable, n.connections@[at]),
    ensures
        rides(n, start, start_time, at),
        from_reached(start, tau, n.connections@[at]),
        tau[n.connections@[at].departure_idx as int].time <= n.connections@[at].departure_time,
{
    let c = n.connections@[at];
    let dep = c.departure_idx as int;
    assert(n.connection_wf(c));
    assert(n.route_wf(c.trip.route_idx as int));
    assert(n.route_stop(c.trip.route_idx as int, c.departure_stop_order as int) < n.stops@.len());
    lemma_trips_before_monotone(n.routes@, c.trip.route_idx as int, n.routes@.len() as int);
    assert(c.departure_time < c.arrival_time);
    if reachable[c.sequential_trip_idx as int] {
        // The passenger is on the trip: a journey ends with the hop before.
        let t = c.sequential_trip_idx as int;
        let kb = board[t];
        assert(boarded_ok(n, start, start_time, kb, t, at));
        let cb = n.connections@[kb];
        assert(n.connection_wf(cb));
        lemma_trip_numbers(n, cb, c);
        if cb.departure_stop_order >= c.departure_stop_order {
            if cb.departure_stop_order > c.departure_stop_order {
                lemma_hops_in_order(n, at, kb);
            } else {
                assert(cb == c);
            }
        }
        let r = c.trip.route_idx as int;
        let o = c.departure_stop_order as int;
        assert(n.valid_hop(r, c.trip.trip_order as int, o - 1));
        let hop = n.hop(r, c.trip.trip_order as int, o - 1);
        assert(n.connections@.contains(hop));
        let kp = choose|kp: int| 0 <= kp < n.connections@.len() && n.connections@[kp] == hop;
        lemma_hops_in_order(n, kp, at);
        if kp < kb {
            if hop.departure_stop_order > cb.departure_stop_order {
                lemma_hops_in_order(n, kb, kp);
            } else if hop.departure_stop_order == cb.departure_stop_order {
                assert(hop == cb);
            }
        }
        assert(rides(n, start, start_time, kp));
        let steps = choose|steps: Seq<int>| #[trigger]
            is_journey(n, start, start_time, steps) && steps.last() == kp;
        assert(follows(n.connections@[steps.last()], c));
        lemma_longer_journey(n, start, start_time, steps, at);
        assert(taken(tau, reachable, n.connections@[steps.last()]));
        assert(hop.arrival_time < Timestamp::MAX);
        assert(hop.arrival_time <= c.departure_time);
    } else {
        assert(tau[dep].time <= c.departure_time);
        assert(tau[dep].time < Timestamp::MAX);
        if dep == start {
            lemma_first_journey(n, start, start_time, at);
        } else {
            assert(arrives(n, start, start_time, dep, tau[dep].time));
            let steps = choose|steps: Seq<int>| #[trigger]
                is_journey(n, start, start_time, steps) && n.connections@[steps.last()].arrival_idx
                    == dep && n.connections@[steps.last()].arrival_time == tau[dep].time;
            assert(changes(n, start, n.connections@[steps.last()], c));
            lemma_longer_journey(n, start, start_time, steps, at);
        }
    }
}

/// Going on from one connection to the next keeps what the sweep has found
/// sound.
proof fn lemma_sound_step(
    n: Network,
    start: int,
    start_time: Timestamp,
    tau: Seq<TauEntry>,
    reachable: Seq<bool>,
    board: Seq<int>,
    tau2: Seq<TauEntry>,
    reachable2: Seq<bool>,
    board2: Seq<int>,
    first: int,
    at: int,
)
    requires
        n.wf(),
        n.well_timed(),
        n.connections_complete(),
        0 <= first <= at < n.connections@.len(),
        forall|i: int|
            first <= i < n.connections@.len() ==> (#[trigger] n.connections@[i]).departure_time
                >= start_time,
        sound(n, start, start_time, tau, reachable, board, at),
        swept(n, start, start_time, tau, reachable, at),
        0 <= start < tau.len(),
        tau.len() == n.stops@.len(),
        reachable.len() == n.num_trips,
        tau[start].time <= start_time,
        forall|s: int|
            0 <= s < tau.len() && (#[trigger] tau[s]).time < Timestamp::MAX ==> s == start
                || tau[s].boarding is Some,
        tau_wf(n, tau),
        sweeps(n, start, tau, reachable, board, tau2, reachable2, board2, at),
    ensures
        sound(n, start, start_time, tau2, reachable2, board2, at + 1),
{
    let c = n.connections@[at];
    let t = c.sequential_trip_idx as int;
    let arr = c.arrival_idx as int;
    let dep = c.departure_idx as int;
    assert(n.connection_wf(c));
    assert(n.route_wf(c.trip.route_idx as int));
    assert(n.route_stop(c.trip.route_idx as int, c.departure_stop_order as int) < n.stops@.len());
    assert(n.route_stop(c.trip.route_idx as int, c.departure_stop_order + 1) < n.stops@.len());
    lemma_trips_before_monotone(n.routes@, c.trip.route_idx as int, n.routes@.len() as int);
    if !in_reach(n, start, tau, reachable, c) {
        assert forall|u: int| 0 <= u < reachable2.len() && #[trigger] reachable2[u] implies boarded_ok(
            n,
            start,
            start_time,
            board2[u],
            u,
            at + 1,
        ) by {
            assert(boarded_ok(n, start, start_time, board[u], u, at));
        }
    } else {
        lemma_rides_here(n, start, start_time, tau, reachable, board, first, at);
        assert forall|u: int| 0 <= u < reachable2.len() && #[trigger] reachable2[u] implies boarded_ok(
            n,
            start,
            start_time,
            board2[u],
            u,
            at + 1,
        ) by {
            if u != t {
                assert(reachable[u]);
                assert(boarded_ok(n, start, start_time, board[u], u, at));
            } else if reachable[t] {
                assert(boarded_ok(n, start, start_time, board[t], t, at));
            }
        }
        if tau2 != tau {
            let b = choose|b: Boarding|
                #[trigger] takes(tau, c, b) && tau2 == tau.update(
                    arr,
                    TauEntry { time: c.arrival_time, boarding: Some(b) },
                );
            let steps = choose|steps: Seq<int>| #[trigger]
                is_journey(n, start, start_time, steps) && steps.last() == at;
            assert(arrives(n, start, start_time, arr, c.arrival_time));
            assert forall|s: int|
                0 <= s < tau2.len() && (#[trigger] tau2[s]).boarding is Some implies arrives(
                n,
                start,
                start_time,
                s,
                tau2[s].time,
            ) by {
                if s != arr {
                    assert(tau2[s] == tau[s]);
                }
            }
            assert forall|s: int|
                0 <= s < tau2.len() && (#[trigger] tau2[s]).boarding is Some implies tau2[tau2[s].boarding.unwrap().boarded_stop as int].time
                <= tau2[s].boarding.unwrap().boarded_time by {
                {
                    let bs = tau2[s].boarding.unwrap();
                    if s != arr {
                        assert(tau2[s] == tau[s]);
                        assert(n.boarding_wf(bs));
                        assert(n.route_wf(bs.trip.route_idx as int));
                        assert(n.route_stop(
                            bs.trip.route_idx as int,
                            bs.boarded_stop_order as int,
                        ) < n.stops@.len());
                        assert(tau[bs.boarded_stop as int].time <= bs.boarded_time);
                    } else if bs != boarding_at(c) {
                        assert(tau[dep].boarding == Some(bs));
                        assert(n.boarding_wf(bs));
                        assert(n.route_wf(bs.trip.route_idx as int));
                        assert(n.route_stop(
                            bs.trip.route_idx as int,
                            bs.boarded_stop_order as int,
                        ) < n.stops@.len());
                        assert(tau[bs.boarded_stop as int].time <= bs.boarded_time);
                    }
                }
            }
        }
    }
}

/// Writing an arrival with a boarding that rides to the stop, from the start
/// or a stop that has a boarding, keeps the arrivals well formed and linked.
proof fn lemma_record(
    n: Network,
    start: int,
    tau: Seq<TauEntry>,
    s: int,
    b: Boarding,
    arrival: Timestamp,
)
    requires
        n.wf(),
        0 <= s < tau.len(),
        tau_wf(n, tau),
        tau_linked(tau, start),
        n.boarding_wf(b),
        n.rides_to(b, s, arrival),
        b.boarded_stop == start || tau[b.boarded_stop as int].boarding is Some,
    ensures
        tau_wf(n, tau.update(s, TauEntry { time: arrival, boarding: Some(b) })),
        tau_linked(tau.update(s, TauEntry { time: arrival, boarding: Some(b) }), start),
        forall|from: Timestamp|
            #![trigger tau_from(tau, from)]
            tau_from(tau, from) && b.boarded_time >= from ==> tau_from(
                tau.update(s, TauEntry { time: arrival, boarding: Some(b) }),
                from,
            ),
{
    let after = tau.update(s, TauEntry { time: arrival, boarding: Some(b) });
    assert forall|x: int| 0 <= x < after.len() implies ((#[trigger] after[x]).boarding matches Some(
        bx,
    ) ==> n.boarding_wf(bx) && n.rides_to(bx, x, after[x].time)) by {
        if x != s {
            assert(after[x] == tau[x]);
        }
    }
    assert forall|x: int| 0 <= x < after.len() implies ((#[trigger] after[x]).boarding matches Some(
        bx,
    ) ==> bx.boarded_stop == start || after[bx.boarded_stop as int].boarding is Some) by {
        if x != s {
            assert(after[x] == tau[x]);
        }
        if after[x].boarding is Some {
            let bx = after[x].boarding.unwrap();
            assert(n.boarding_wf(bx));
            assert(n.route_wf(bx.trip.route_idx as int));
            assert(n.route_stop(bx.trip.route_idx as int, bx.boarded_stop_order as int)
                < n.stops@.len());
        }
    }
}

/// The journey that leaves `start` at `start_time` or later and is at `end`
/// as early as one sweep over the connections in order of departure finds.
/// Without connections there is no journey: build them first.
#[verifier::rlimit(30)]
pub fn csa_query<'a>(
    network: &'a Network,
    start: StopIndex,
    start_time: Timestamp,
    end: StopIndex,
) -> (r: Result<Journey<'a>, JourneyError>)
    requires
        network.wf(),
        start < network.stops@.len(),
        end < network.stops@.len(),
    ensures
        csa_answer(network, start as int, start_time, end as int, r),
        start != end ==> match r {
            Ok(j) => {
                &&& legs_connected(j.legs@, start as int, end as int)
                &&& forall|i: int| 0 <= i < j.legs@.len() ==> leg_rides(*network, #[trigger] j.legs@[i])
                &&& legs_fit(*network, j.legs@)
                &&& legs_from(j.legs@, start_time)
            },
            Err(e) => e != JourneyError::ZeroAgents,
        },
        start != end && network.nothing_departs_from(start_time) ==> r == Err::<Journey<'a>, _>(
            JourneyError::NoJourneyFound,
        ),
        start != end && network.no_route_calls_at(end as int) ==> r == Err::<Journey<'a>, _>(
            JourneyError::NoJourneyFound,
        ),
        start != end && network.connections@.len() == 0 ==> r == Err::<Journey<'a>, _>(
            JourneyError::NoJourneyFound,
        ),
        start != end && network.direct_connection(start as int, end as int, start_time) ==> r
            != Err::<Journey<'a>, _>(JourneyError::NoJourneyFound),
        forall|at: Timestamp|
            start != end && #[trigger] network.connection_arrival(
                start as int,
                end as int,
                start_time,
                at,
            ) ==> (r matches Ok(j) ==> j.legs@.last().arrival_time <= at),
        forall|steps: Seq<int>|
            start != end && network.well_timed() && #[trigger] is_journey(
                *network,
                start as int,
                start_time,
                steps,
            ) && network.connections@[steps.last()].arrival_idx == end ==> r != Err::<
                Journey<'a>,
                _,
            >(JourneyError::NoJourneyFound),
        start != end && network.well_timed() ==> (r matches Ok(j) ==> earliest_by_hops(
            *network,
            start as int,
            start_time,
            end as int,
            j.legs@.last().arrival_time,
        )),
        start != end && network.well_timed() && network.connections_complete() ==> (
        r matches Ok(j) ==> legs_in_time(j.legs@) && arrives(
            *network,
            start as int,
            start_time,
            end as int,
            j.legs@.last().arrival_time,
        )),
{
    if start == end {
        return Ok(Journey::empty(network));
    }
    let start = start as usize;
    let end = end as usize;
    let num_stops = network.stops.len();
    // The earliest known arrival at each stop.
    let mut tau: Vec<TauEntry> = vec![TauEntry { time: Timestamp::MAX, boarding: None }; num_stops];
    tau[start] = TauEntry { time: start_time, boarding: None };
    let mut end_time = Timestamp::MAX;
    let mut trip_reachable: Vec<bool> = vec![false; network.num_trips as usize];
    let mut at = first_departure_from(&network.connections, start_time);
    let ghost first = at;
    let ghost found = csa_arrivals(*network, start as int, start_time, end as int);
    proof {
        lemma_first_leaving(network.connections@, start_time, 0, first as int);
        assert(tau@ =~= sweep_begins(*network, start as int, start_time));
        assert(trip_reachable@ =~= Seq::new(network.num_trips as nat, |t: int| false));
    }
    // Where a connection takes the passenger straight to the destination,
    // the sweep comes by it or has reached the destination before.
    let ghost direct = network.direct_connection(start as int, end as int, start_time);
    let ghost k0 = if direct {
        choose|k: int| #[trigger] network.connects(k, start as int, end as int, start_time)
    } else {
        0
    };
    // In a well-timed network, the sweep takes the last connection of every
    // journey that it passes.
    let ghost well = network.well_timed();
    // In such a network that has every hop once, what the sweep finds can
    // be travelled.
    let ghost whole = well && network.connections_complete();
    let ghost mut board: Seq<int> = Seq::new(network.num_trips as nat, |t: int| 0);
    proof {
        if well {
            assert forall|steps: Seq<int>| #[trigger]
                is_journey(*network, start as int, start_time, steps) && steps.last()
                    < first implies taken(
                tau@,
                trip_reachable@,
                network.connections@[steps.last()],
            ) by {
                lemma_first_before_last(*network, start as int, start_time, steps);
                assert(network.connections@[steps[0]].departure_time < start_time);
            }
        }
    }
    proof {
        if network.nothing_departs_from(start_time) && at < network.connections@.len() {
            let c = network.connections@[at as int];
            assert(network.connection_wf(c));
            assert(network.route_wf(c.trip.route_idx as int));
            assert(network.departure(
                c.trip.route_idx as int,
                c.trip.trip_order as int,
                c.departure_stop_order as int,
            ) < start_time);
        }
    }
    while at < network.connections.len()
        invariant_except_break
            sweep_from(*network, start as int, end as int, tau@, trip_reachable@, at as int)
                == found,
            well ==> swept(*network, start as int, start_time, tau@, trip_reachable@, at as int),
            whole ==> sound(
                *network,
                start as int,
                start_time,
                tau@,
                trip_reachable@,
                board,
                at as int,
            ),
        invariant
            start != end,
            well == network.well_timed(),
            whole == (well && network.connections_complete()),
            direct ==> network.connects(k0, start as int, end as int, start_time),
            direct && at > k0 ==> tau@[end as int].boarding is Some,
            end_time < Timestamp::MAX ==> tau@[end as int].boarding is Some,
            end_time == tau@[end as int].time,
            forall|k: int|
                first <= k < at && #[trigger] network.goes(k, start as int, end as int)
                    ==> tau@[end as int].time <= network.connections@[k].arrival_time,
            tau@[start as int].time <= start_time,
            forall|s: int|
                0 <= s < tau@.len() && (#[trigger] tau@[s]).time < Timestamp::MAX ==> s == start
                    || tau@[s].boarding is Some,
            network.wf(),
            start < num_stops,
            end < num_stops,
            num_stops == network.stops@.len(),
            at <= network.connections@.len(),
            tau@.len() == num_stops,
            trip_reachable@.len() == network.num_trips,
            tau_wf(*network, tau@),
            tau_linked(tau@, start as int),
            tau_from(tau@, start_time),
            first <= at,
            forall|i: int|
                first <= i < network.connections@.len() ==> (
                #[trigger] network.connections@[i]).departure_time >= start_time,
            network.nothing_departs_from(start_time) ==> at == network.connections@.len()
                && tau@[end as int].boarding is None,
            network.connections@.len() == 0 ==> tau@[end as int].boarding is None,
        ensures
            tau@ == found,
            direct ==> tau@[end as int].boarding is Some,
            forall|k: int|
                first <= k < network.connections@.len() && #[trigger] network.goes(
                    k,
                    start as int,
                    end as int,
                ) ==> tau@[end as int].time <= network.connections@[k].arrival_time,
            well ==> forall|steps: Seq<int>| #[trigger]
                is_journey(*network, start as int, start_time, steps)
                    && network.connections@[steps.last()].arrival_idx == end
                    ==> tau@[end as int].time <= network.connections@[steps.last()].arrival_time,
            whole ==> tau_in_time(tau@) && (tau@[end as int].boarding is Some ==> arrives(
                *network,
                start as int,
                start_time,
                end as int,
                tau@[end as int].time,
            )),
        decreases network.connections@.len() - at,
    {
        let connection = network.connections[at];
        let ghost tau_before = tau@;
        let ghost reachable_before = trip_reachable@;
        let ghost board_before = board;
        at += 1;
        if connection.departure_time >= end_time {
            proof {
                if well {
                    assert forall|steps: Seq<int>| #[trigger]
                        is_journey(*network, start as int, start_time, steps)
                            && network.connections@[steps.last()].arrival_idx
                            == end implies tau@[end as int].time
                        <= network.connections@[steps.last()].arrival_time by {
                        let last = steps.last();
                        assert(0 <= steps[steps.len() - 1] < network.connections@.len());
                        if last < at - 1 {
                            assert(taken(tau@, trip_reachable@, network.connections@[last]));
                        } else if last > at - 1 {
                            assert(network.connections@[at - 1].departure_time
                                <= network.connections@[last].departure_time);
                        }
                    }
                }
                if direct && at - 1 <= k0 && end_time == Timestamp::MAX {
                    if at - 1 < k0 {
                        assert(network.connections@[at - 1].departure_time
                            <= network.connections@[k0].departure_time);
                    }
                }
                assert forall|k: int|
                    first <= k < network.connections@.len() && #[trigger] network.goes(
                        k,
                        start as int,
                        end as int,
                    ) implies tau@[end as int].time <= network.connections@[k].arrival_time by {
                    if k > at - 1 {
                        assert(network.connections@[at - 1].departure_time
                            <= network.connections@[k].departure_time);
                    }
                }
            }
            break;
        }
        let ghost r = connection.trip.route_idx as int;
        proof {
            assert(network.connection_wf(connection));
            assert(network.route_wf(r));
            lemma_trips_before_monotone(network.routes@, r, network.routes@.len() as int);
            assert(network.route_stop(r, connection.departure_stop_order as int)
                < network.stops@.len());
            assert(network.route_stop(r, connection.departure_stop_order + 1)
                < network.stops@.len());
        }
        let trip_idx = connection.sequential_trip_idx as usize;
        let departure_idx = connection.departure_idx as usize;
        let arrival_idx = connection.arrival_idx as usize;
        // No time for a change is counted before the first leg.
        let transfer_time = if departure_idx == start {
            0
        } else {
            network.transfer_times[departure_idx]
        };
        if !trip_reachable[trip_idx] {
            if tau[departure_idx].time.saturating_add(transfer_time) > connection.departure_time {
                proof {
                    lemma_sweep_on(
                        *network,
                        start as int,
                        end as int,
                        tau_before,
                        reachable_before,
                        at - 1,
                        tau@,
                        trip_reachable@,
                    );
                    if well {
                        lemma_sweep_step(
                            *network,
                            start as int,
                            start_time,
                            tau_before,
                            reachable_before,
                            tau@,
                            trip_reachable@,
                            at - 1,
                        );
                    }
                    if whole {
                        lemma_sound_step(
                            *network,
                            start as int,
                            start_time,
                            tau_before,
                            reachable_before,
                            board_before,
                            tau@,
                            trip_reachable@,
                            board,
                            first as int,
                            at - 1,
                        );
                    }
                }
                continue;
            }
            trip_reachable[trip_idx] = true;
            proof {
                board = board.update(trip_idx as int, at - 1);
            }
        }
        // A passenger rides on from a stop that has been reached.
        let from = tau[departure_idx];
        if from.boarding.is_none() && departure_idx != start {
            proof {
                lemma_sweep_on(
                    *network,
                    start as int,
                    end as int,
                    tau_before,
                    reachable_before,
                    at - 1,
                    tau@,
                    trip_reachable@,
                );
                if well {
                    lemma_sweep_step(
                        *network,
                        start as int,
                        start_time,
                        tau_before,
                        reachable_before,
                        tau@,
                        trip_reachable@,
                        at - 1,
                    );
                }
                if whole {
                    assert(trip_reachable@ =~= reachable_before.update(trip_idx as int, true));
                    lemma_sound_step(
                        *network,
                        start as int,
                        start_time,
                        tau_before,
                        reachable_before,
                        board_before,
                        tau@,
                        trip_reachable@,
                        board,
                        first as int,
                        at - 1,
                    );
                }
            }
            continue;
        }
        if connection.arrival_time < tau[arrival_idx].time {
            // A passenger who is on the trip since an earlier place stays
            // on it; another one boards here.
            let fresh = Boarding::from(&connection);
            let boarding = match from.boarding {
                Some(b) => if b.trip.trip_order == connection.trip.trip_order && b.trip.route_idx
                    == connection.trip.route_idx && b.boarded_stop_order
                    <= connection.departure_stop_order {
                    b
                } else {
                    fresh
                },
                None => fresh,
            };
            proof {
                assert(network.boarding_wf(fresh));
                assert(network.boarding_wf(boarding));
                assert(network.route_stop(r, connection.departure_stop_order + 1) == arrival_idx);
                assert(network.rides_to(boarding, arrival_idx as int, connection.arrival_time));
                if boarding != fresh {
                    assert(tau@[departure_idx as int].boarding == Some(boarding));
                }
                lemma_record(
                    *network,
                    start as int,
                    tau@,
                    arrival_idx as int,
                    boarding,
                    connection.arrival_time,
                );
            }
            tau[arrival_idx] = TauEntry { time: connection.arrival_time, boarding: Some(boarding) };
            if arrival_idx == end {
                end_time = connection.arrival_time;
            }
        }
        proof {
            lemma_sweep_on(
                *network,
                start as int,
                end as int,
                tau_before,
                reachable_before,
                at - 1,
                tau@,
                trip_reachable@,
            );
            if well {
                lemma_sweep_step(
                    *network,
                    start as int,
                    start_time,
                    tau_before,
                    reachable_before,
                    tau@,
                    trip_reachable@,
                    at - 1,
                );
            }
            if whole {
                assert(trip_reachable@ =~= reachable_before.update(trip_idx as int, true));
                if tau@ != tau_before {
                    let taken_with = tau@[arrival_idx as int].boarding.unwrap();
                    assert(takes(tau_before, connection, taken_with));
                }
                lemma_sound_step(
                    *network,
                    start as int,
                    start_time,
                    tau_before,
                    reachable_before,
                    board_before,
                    tau@,
                    trip_reachable@,
                    board,
                    first as int,
                    at - 1,
                );
            }
        }
    }
    let r = Journey::from_tau(tau.as_slice(), network, start, end);
    proof {
        let rebuilt = walk_back(*network, tau@, start as int, end as int, None, MAX_LEGS as nat);
        if tau@[end as int].boarding is Some {
            if rebuilt is Some {
                lemma_rebuilt_journey(*network, tau@, start as int, end as int, start_time);
                lemma_rides_fit(*network, r.unwrap().legs@);
                assert(r.unwrap().legs@.last().arrival_time == tau@[end as int].time);
            }
            let b = tau@[end as int].boarding.unwrap();
            assert(network.rides_to(b, end as int, tau@[end as int].time));
            assert(network.route_calls_at(b.trip.route_idx as int, end as int));
        }
        assert forall|steps: Seq<int>|
            network.well_timed() && #[trigger] is_journey(
                *network,
                start as int,
                start_time,
                steps,
            ) && network.connections@[steps.last()].arrival_idx == end implies r != Err::<
            Journey<'a>,
            _,
        >(JourneyError::NoJourneyFound) && (r matches Ok(j) ==> j.legs@.last().arrival_time
            <= network.connections@[steps.last()].arrival_time) by {
            assert(0 <= steps[steps.len() - 1] < network.connections@.len());
            assert(tau@[end as int].time <= network.connections@[steps.last()].arrival_time);
            assert(tau@[end as int].time < Timestamp::MAX);
        }
        assert forall|at: Timestamp| #[trigger]
            network.connection_arrival(start as int, end as int, start_time, at) implies (
        r matches Ok(j) ==> j.legs@.last().arrival_time <= at) by {
            let k = choose|k: int|
                0 <= k < network.connections@.len() && #[trigger] network.goes(
                    k,
                    start as int,
                    end as int,
                ) && start_time <= network.connections@[k].departure_time
                    && network.connections@[k].arrival_time == at;
            if k < first {
                assert(network.connections@[k].departure_time < start_time);
            }
        }
    }
    r
}

} // verus!
