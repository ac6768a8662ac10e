use crate::multicriteria::{Bag, Label};
use crate::network::{
    GlobalTripIndex, Network, PathfindingCost, Route, StopIndex, Timestamp, TripOrder,
};
use vstd::prelude::*;

verus! {

/// One hop of one trip between two consecutive stops of its route.
#[derive(Clone, Copy, PartialEq, Eq, Structural, Debug)]
pub struct Connection {
    /// Position of the trip in a numbering of all trips of the network.
    pub sequential_trip_idx: TripOrder,
    pub trip: GlobalTripIndex,
    pub departure_idx: StopIndex,
    pub departure_stop_order: StopIndex,
    pub departure_time: Timestamp,
    pub arrival_idx: StopIndex,
    pub arrival_time: Timestamp,
}

/// Where and when a passenger joined a vehicle.
#[derive(Clone, Copy, PartialEq, Eq, Structural, Debug)]
pub struct Boarding {
    pub boarded_stop: StopIndex,
    pub boarded_stop_order: StopIndex,
    pub boarded_time: Timestamp,
    pub trip: GlobalTripIndex,
}

impl Boarding {
    /// The boarding of a passenger who joins the trip at the connection's departure.
    pub fn from(connection: &Connection) -> (b: Self)
        ensures
            b == (Boarding {
                boarded_stop: connection.departure_idx,
                boarded_stop_order: connection.departure_stop_order,
                boarded_time: connection.departure_time,
                trip: connection.trip,
            }),
    {
        Boarding {
            boarded_stop: connection.departure_idx,
            boarded_stop_order: connection.departure_stop_order,
            boarded_time: connection.departure_time,
            trip: connection.trip,
        }
    }
}

/// The best known arrival at a stop, and the boarding that gave it.
#[derive(Clone, Copy, PartialEq, Eq, Structural, Debug)]
pub struct TauEntry {
    pub time: Timestamp,
    pub boarding: Option<Boarding>,
}

impl Default for TauEntry {
    /// A stop that has not been reached.
    fn default() -> (e: Self)
        ensures
            e == (TauEntry { time: Timestamp::MAX, boarding: None }),
    {
        TauEntry { time: Timestamp::MAX, boarding: None }
    }
}

/// One ride on one vehicle.
#[derive(Clone, Copy, PartialEq, Eq, Structural, Debug)]
pub struct Leg {
    pub boarded_stop: StopIndex,
    pub boarded_stop_order: StopIndex,
    pub boarded_time: Timestamp,
    pub arrival_stop: StopIndex,
    pub arrival_stop_order: StopIndex,
    pub arrival_time: Timestamp,
    /// The time between this leg's arrival and the next leg's boarding;
    /// nothing for the last leg.
    pub transfer_time: Option<Timestamp>,
    pub trip: GlobalTripIndex,
}

/// Why a query gave no journey.
#[derive(Clone, Copy, PartialEq, Eq, Structural, Debug)]
pub enum JourneyError {
    ZeroAgents,
    NoJourneyFound,
    InfiniteLoop,
}

impl JourneyError {
    /// The error in words.
    pub fn message(&self) -> (text: &'static str)
        ensures
            text@ == match self {
                JourneyError::ZeroAgents => "Journey not calculated for zero agents."@,
                JourneyError::NoJourneyFound => "No journey found."@,
                JourneyError::InfiniteLoop => "Infinite loop in journey reconstruction."@,
            },
    {
        match self {
            JourneyError::ZeroAgents => "Journey not calculated for zero agents.",
            JourneyError::NoJourneyFound => "No journey found.",
            JourneyError::InfiniteLoop => "Infinite loop in journey reconstruction.",
        }
    }
}

/// A sequence of legs from one stop to another.
pub struct Journey<'a> {
    pub legs: Vec<Leg>,
    /// From the first boarding to the last arrival, in seconds.
    pub duration: Timestamp,
    pub cost: PathfindingCost,
    pub network: &'a Network,
}

pub type JourneyResult<'a> = Result<Journey<'a>, JourneyError>;

/// The most legs that a journey is rebuilt with.
pub const MAX_LEGS: usize = 100;

/// The time from the first boarding to the last arrival, and 0 where there is
/// no leg or the last arrival is before the first boarding.
pub open spec fn duration_of(legs: Seq<Leg>) -> Timestamp {
    if legs.len() > 0 && legs.last().arrival_time >= legs[0].boarded_time {
        (legs.last().arrival_time - legs[0].boarded_time) as Timestamp
    } else {
        0
    }
}

impl<'a> Journey<'a> {
    /// The journey of a passenger who is where they want to be.
    pub fn empty(network: &'a Network) -> (j: Self)
        ensures
            j.legs@.len() == 0,
            j.duration == 0,
            j.cost == 0,
            j.network == network,
    {
        Self { legs: Vec::new(), duration: 0, cost: 0, network }
    }

    /// The journey that legs make.
    pub fn from(legs: Vec<Leg>, cost: PathfindingCost, network: &'a Network) -> (j: Self)
        ensures
            j.legs == legs,
            j.duration == duration_of(legs@),
            j.cost == cost,
            j.network == network,
    {
        let n = legs.len();
        let duration = if n > 0 {
            match legs[n - 1].arrival_time.checked_sub(legs[0].boarded_time) {
                Some(d) => d,
                None => 0,
            }
        } else {
            0
        };
        Self { legs, duration, cost, network }
    }
}

/// The first place from `from` on in which route `r` calls at stop `s`; the
/// number of the route's stops where there is none.
pub open spec fn first_call_from(n: Network, r: int, from: int, s: int) -> int
    decreases n.routes@[r].num_stops - from,
{
    if from < 0 || from >= n.routes@[r].num_stops {
        n.routes@[r].num_stops as int
    } else if n.route_stop(r, from) == s {
        from
    } else {
        first_call_from(n, r, from + 1, s)
    }
}

impl Network {
    /// `b` names a trip of the network and a place in which its route calls
    /// at the stop of boarding, at the time of boarding.
    pub open spec fn boarding_wf(&self, b: Boarding) -> bool {
        let r = b.trip.route_idx as int;
        &&& r < self.routes@.len()
        &&& b.trip.trip_order < self.routes@[r].num_trips
        &&& b.boarded_stop_order < self.routes@[r].num_stops
        &&& self.route_stop(r, b.boarded_stop_order as int) == b.boarded_stop
        &&& self.departure(r, b.trip.trip_order as int, b.boarded_stop_order as int)
            == b.boarded_time
    }

    /// A passenger who boarded as `b` says is at stop `s` at the time `time`
    /// without a change: the trip calls there then, after the boarding.
    pub open spec fn rides_to(&self, b: Boarding, s: int, time: Timestamp) -> bool {
        exists|i: int|
            b.boarded_stop_order < i < self.routes@[b.trip.route_idx as int].num_stops
                && #[trigger] self.route_stop(b.trip.route_idx as int, i) == s && self.arrival(
                b.trip.route_idx as int,
                b.trip.trip_order as int,
                i,
            ) == time
    }
}

impl<'a> Journey<'a> {
    /// The place in which a passenger who boarded as `boarded_leg` says
    /// arrives at `current_stop`: the first from the boarding on in which the
    /// route calls there.
    pub fn calculate_arrival_stop_order(
        route: &Route,
        network: &Network,
        boarded_leg: &Boarding,
        current_stop: usize,
    ) -> (order: StopIndex)
        requires
            network.wf(),
            boarded_leg.trip.route_idx < network.routes@.len(),
            *route == network.routes@[boarded_leg.trip.route_idx as int],
            first_call_from(
                *network,
                boarded_leg.trip.route_idx as int,
                boarded_leg.boarded_stop_order as int,
                current_stop as int,
            ) < route.num_stops,
        ensures
            order == first_call_from(
                *network,
                boarded_leg.trip.route_idx as int,
                boarded_leg.boarded_stop_order as int,
                current_stop as int,
            ),
    {
        let ghost r = boarded_leg.trip.route_idx as int;
        assert(network.route_wf(r));
        let stops = route.get_stops(network.route_stops.as_slice());
        let mut i: usize = boarded_leg.boarded_stop_order as usize;
        while i < stops.len() && stops[i] as usize != current_stop
            invariant
                stops@ == route.spec_stops(network.route_stops@),
                *route == network.routes@[r],
                route.stops_within(network.route_stops@.len()),
                boarded_leg.boarded_stop_order <= i <= route.num_stops,
                first_call_from(*network, r, boarded_leg.boarded_stop_order as int, current_stop as int)
                    == first_call_from(*network, r, i as int, current_stop as int),
            decreases route.num_stops - i,
        {
            assert(stops@[i as int] == network.route_stop(r, i as int));
            i += 1;
        }
        proof {
            if i < route.num_stops {
                assert(stops@[i as int] == network.route_stop(r, i as int));
            }
        }
        i as StopIndex
    }
}

/// The time between an arrival and the boarding that follows it, 0 where
/// the boarding is the earlier of the two; nothing where no boarding follows.
pub open spec fn transfer_between(arrival: Timestamp, next: Option<Boarding>) -> Option<Timestamp> {
    match next {
        Some(b) => Some(
            if b.boarded_time >= arrival {
                (b.boarded_time - arrival) as Timestamp
            } else {
                0
            },
        ),
        None => None,
    }
}

/// The leg of a passenger who boarded as `b` says and arrives at stop `s` at
/// the time `arrival`, before boarding again as `next` says.
pub open spec fn leg_of(n: Network, s: int, arrival: Timestamp, b: Boarding, next: Option<Boarding>) -> Leg {
    Leg {
        boarded_stop: b.boarded_stop,
        boarded_stop_order: b.boarded_stop_order,
        boarded_time: b.boarded_time,
        arrival_stop: s as StopIndex,
        arrival_stop_order: first_call_from(
            n,
            b.trip.route_idx as int,
            b.boarded_stop_order as int,
            s,
        ) as StopIndex,
        arrival_time: arrival,
        transfer_time: transfer_between(arrival, next),
        trip: b.trip,
    }
}

/// The legs that lead to the stop `current`, last leg first, found by going
/// from each stop to the stop where the passenger boarded, until `start` or a
/// stop without a boarding is met. Nothing where that takes more than `fuel`
/// legs.
pub open spec fn walk_back(
    n: Network,
    tau: Seq<TauEntry>,
    start: int,
    current: int,
    next: Option<Boarding>,
    fuel: nat,
) -> Option<Seq<Leg>>
    decreases fuel,
{
    if current == start {
        Some(Seq::empty())
    } else if fuel == 0 {
        None
    } else {
        match tau[current].boarding {
            None => Some(Seq::empty()),
            Some(b) => match walk_back(
                n,
                tau,
                start,
                b.boarded_stop as int,
                Some(b),
                (fuel - 1) as nat,
            ) {
                None => None,
                Some(rest) => Some(seq![leg_of(n, current, tau[current].time, b, next)] + rest),
            },
        }
    }
}

/// `r` is what going back from `end` over the arrivals `tau` gives: no
/// journey where `end` has no boarding, else the legs found on the way, first
/// leg first, or the failure to get to `start` within `MAX_LEGS` legs.
pub open spec fn rebuilt<'a>(
    n: &'a Network,
    tau: Seq<TauEntry>,
    start: int,
    end: int,
    r: JourneyResult<'a>,
) -> bool {
    if tau[end].boarding is None {
        r == Err::<Journey<'a>, _>(JourneyError::NoJourneyFound)
    } else {
        match walk_back(*n, tau, start, end, None, MAX_LEGS as nat) {
            None => r == Err::<Journey<'a>, _>(JourneyError::InfiniteLoop),
            Some(rev) => r matches Ok(j) && j.legs@ == rev.reverse() && j.duration == duration_of(
                j.legs@,
            ) && j.cost == 0 && j.network == n,
        }
    }
}

/// `r` is the journey without legs.
pub open spec fn stays<'a>(n: &'a Network, r: JourneyResult<'a>) -> bool {
    r matches Ok(j) && j.legs@.len() == 0 && j.duration == 0 && j.cost == 0 && j.network == n
}

/// Two results are the same failure, or journeys of the same legs,
/// duration and cost on the same network.
pub open spec fn same_result<'a>(a: JourneyResult<'a>, b: JourneyResult<'a>) -> bool {
    match (a, b) {
        (Ok(x), Ok(y)) => x.legs@ == y.legs@ && x.duration == y.duration && x.cost == y.cost
            && x.network == y.network,
        (Err(x), Err(y)) => x == y,
        _ => false,
    }
}

/// Going back over the same arrivals gives the same result.
pub proof fn lemma_rebuilt_once<'a>(
    n: &'a Network,
    tau: Seq<TauEntry>,
    start: int,
    end: int,
    first: JourneyResult<'a>,
    second: JourneyResult<'a>,
)
    requires
        rebuilt(n, tau, start, end, first),
        rebuilt(n, tau, start, end, second),
    ensures
        same_result(first, second),
{
    if tau[end].boarding is Some {
        match walk_back(*n, tau, start, end, None, MAX_LEGS as nat) {
            None => {},
            Some(rev) => {
                assert(first is Ok && second is Ok);
            },
        }
    }
}

/// Every boarding in `tau` names a trip of the network that calls at the
/// entry's stop, after the boarding, at the entry's time.
pub open spec fn tau_wf(n: Network, tau: Seq<TauEntry>) -> bool {
    &&& tau.len() == n.stops@.len()
    &&& forall|s: int|
        0 <= s < tau.len() ==> ((#[trigger] tau[s]).boarding matches Some(b) ==> n.boarding_wf(b)
            && n.rides_to(b, s, tau[s].time))
}

/// A trip that calls at a stop after a boarding has a first place from the
/// boarding on in which it does.
pub proof fn lemma_first_call(n: Network, r: int, from: int, s: int, i: int)
    requires
        0 <= from <= i < n.routes@[r].num_stops,
        n.route_stop(r, i) == s,
    ensures
        from <= first_call_from(n, r, from, s) <= i,
        n.route_stop(r, first_call_from(n, r, from, s)) == s,
    decreases i - from,
{
    if n.route_stop(r, from) != s {
        lemma_first_call(n, r, from + 1, s, i);
    }
}

/// The legs in the opposite order.
fn reversed(legs: Vec<Leg>) -> (r: Vec<Leg>)
    ensures
        r@ == legs@.reverse(),
{
    let n = legs.len();
    let mut r: Vec<Leg> = Vec::new();
    let mut i: usize = 0;
    while i < n
        invariant
            n == legs@.len(),
            i <= n,
            r@.len() == i,
            forall|j: int| 0 <= j < i ==> r@[j] == legs@[n - 1 - j],
        decreases n - i,
    {
        r.push(legs[n - 1 - i]);
        i += 1;
    }
    assert(r@ =~= legs@.reverse());
    r
}

impl<'a> Journey<'a> {
    /// Rebuilds a journey from the best arrivals and their boardings, going
    /// back from `end` until `start` is met.
    #[verifier::rlimit(30)]
    pub fn from_tau(tau: &[TauEntry], network: &'a Network, start: usize, end: usize) -> (r:
        JourneyResult<'a>)
        requires
            network.wf(),
            tau_wf(*network, tau@),
            start < tau@.len(),
            end < tau@.len(),
        ensures
            tau@[end as int].boarding is None ==> r == Err::<Journey<'a>, _>(
                JourneyError::NoJourneyFound,
            ),
            tau@[end as int].boarding is Some ==> match walk_back(
                *network,
                tau@,
                start as int,
                end as int,
                None,
                MAX_LEGS as nat,
            ) {
                None => r == Err::<Journey<'a>, _>(JourneyError::InfiniteLoop),
                Some(rev) => r matches Ok(j) && j.legs@ == rev.reverse() && j.duration
                    == duration_of(j.legs@) && j.cost == 0 && j.network == network,
            },
    {
        if tau[end].boarding.is_none() {
            return Err(JourneyError::NoJourneyFound);
        }
        let ghost total = walk_back(
            *network,
            tau@,
            start as int,
            end as int,
            None,
            MAX_LEGS as nat,
        );
        let mut legs: Vec<Leg> = Vec::new();
        let mut current_stop: usize = end;
        let mut num_legs: usize = 0;
        let mut last_boarding: Option<Boarding> = None;
        loop
            invariant_except_break
                match walk_back(
                    *network,
                    tau@,
                    start as int,
                    current_stop as int,
                    last_boarding,
                    (MAX_LEGS - num_legs) as nat,
                ) {
                    None => total is None,
                    Some(rest) => total == Some(legs@ + rest),
                },
            invariant
                network.wf(),
                tau_wf(*network, tau@),
                start < tau@.len(),
                end < tau@.len(),
                tau@[end as int].boarding is Some,
                total == walk_back(
                    *network,
                    tau@,
                    start as int,
                    end as int,
                    None,
                    MAX_LEGS as nat,
                ),
                current_stop < tau@.len(),
                num_legs <= MAX_LEGS,
            ensures
                total == Some(legs@),
            decreases MAX_LEGS - num_legs,
        {
            if current_stop == start {
                assert(legs@ + Seq::<Leg>::empty() =~= legs@);
                break;
            }
            num_legs += 1;
            if num_legs > MAX_LEGS {
                return Err(JourneyError::InfiniteLoop);
            }
            let current_tau = tau[current_stop];
            match current_tau.boarding {
                Some(boarded_leg) => {
                    let ghost r = boarded_leg.trip.route_idx as int;
                    proof {
                        assert(network.route_wf(r));
                        let i = choose|i: int|
                            boarded_leg.boarded_stop_order < i < network.routes@[r].num_stops
                                && #[trigger] network.route_stop(r, i) == current_stop;
                        lemma_first_call(
                            *network,
                            r,
                            boarded_leg.boarded_stop_order as int,
                            current_stop as int,
                            i,
                        );
                        assert(network.route_stop(r, boarded_leg.boarded_stop_order as int)
                            < network.stops@.len());
                    }
                    let route = &network.routes[boarded_leg.trip.route_idx as usize];
                    let arrival_stop_order = Self::calculate_arrival_stop_order(
                        route,
                        network,
                        &boarded_leg,
                        current_stop,
                    );
                    let transfer_time = match last_boarding {
                        Some(next) => Some(
                            if next.boarded_time >= current_tau.time {
                                next.boarded_time - current_tau.time
                            } else {
                                0
                            },
                        ),
                        None => None,
                    };
                    let leg = Leg {
                        boarded_stop: boarded_leg.boarded_stop,
                        boarded_stop_order: boarded_leg.boarded_stop_order,
                        boarded_time: boarded_leg.boarded_time,
                        arrival_stop: current_stop as StopIndex,
                        arrival_stop_order,
                        arrival_time: current_tau.time,
                        transfer_time,
                        trip: boarded_leg.trip,
                    };
                    proof {
                        assert(leg == leg_of(
                            *network,
                            current_stop as int,
                            current_tau.time,
                            boarded_leg,
                            last_boarding,
                        ));
                        let rest = walk_back(
                            *network,
                            tau@,
                            start as int,
                            boarded_leg.boarded_stop as int,
                            Some(boarded_leg),
                            (MAX_LEGS - num_legs) as nat,
                        );
                        if rest is Some {
                            assert(legs@ + (seq![leg] + rest.unwrap()) =~= legs@.push(leg)
                                + rest.unwrap());
                        }
                    }
                    legs.push(leg);
                    last_boarding = Some(boarded_leg);
                    current_stop = boarded_leg.boarded_stop as usize;
                },
                None => {
                    assert(legs@ + Seq::<Leg>::empty() =~= legs@);
                    break;
                },
            }
        }
        let legs = reversed(legs);
        Ok(Journey::from(legs, 0, network))
    }
}

/// The boarding with which a leg begins.
pub open spec fn boarding_of(leg: Leg) -> Boarding {
    Boarding {
        boarded_stop: leg.boarded_stop,
        boarded_stop_order: leg.boarded_stop_order,
        boarded_time: leg.boarded_time,
        trip: leg.trip,
    }
}

/// The leg is a ride on a trip of the network: the trip leaves the stop of
/// boarding at the time of boarding and calls later at the stop of arrival,
/// at the time of arrival.
pub open spec fn leg_rides(n: Network, leg: Leg) -> bool {
    n.boarding_wf(boarding_of(leg)) && n.rides_to(
        boarding_of(leg),
        leg.arrival_stop as int,
        leg.arrival_time,
    )
}

/// The legs lead from `start` to `end`, each beginning where the one before
/// it ended.
pub open spec fn legs_connected(legs: Seq<Leg>, start: int, end: int) -> bool {
    &&& legs.len() > 0
    &&& legs[0].boarded_stop == start
    &&& legs.last().arrival_stop == end
    &&& forall|i: int|
        0 <= i < legs.len() - 1 ==> (#[trigger] legs[i]).arrival_stop == legs[i + 1].boarded_stop
}

/// The earliest time at which a passenger who arrives at `arrival` can
/// board again where a change takes `transfer` seconds.
pub open spec fn after_transfer(arrival: Timestamp, transfer: Timestamp) -> int {
    if arrival + transfer > Timestamp::MAX {
        Timestamp::MAX as int
    } else {
        arrival + transfer
    }
}

/// No leg begins before the one before it has ended.
pub open spec fn legs_in_time(legs: Seq<Leg>) -> bool {
    forall|i: int|
        0 <= i < legs.len() - 1 ==> (#[trigger] legs[i]).arrival_time <= legs[i + 1].boarded_time
}

/// Between two legs lies the time that a change takes at the stop.
pub open spec fn legs_with_transfers(n: Network, legs: Seq<Leg>) -> bool {
    forall|i: int|
        0 <= i < legs.len() - 1 ==> legs[i + 1].boarded_time >= after_transfer(
            (#[trigger] legs[i]).arrival_time,
            n.transfer_times@[legs[i].arrival_stop as int],
        )
}

/// Every stop with a boarding was boarded at `start` or at a stop that has
/// a boarding itself.
pub open spec fn tau_linked(tau: Seq<TauEntry>, start: int) -> bool {
    forall|s: int|
        0 <= s < tau.len() ==> ((#[trigger] tau[s]).boarding matches Some(b) ==> b.boarded_stop
            == start || tau[b.boarded_stop as int].boarding is Some)
}

/// No boarding is earlier than the arrival at the stop of boarding.
pub open spec fn tau_in_time(tau: Seq<TauEntry>) -> bool {
    forall|s: int|
        0 <= s < tau.len() ==> ((#[trigger] tau[s]).boarding matches Some(b) ==> tau[b.boarded_stop as int].time
            <= b.boarded_time)
}

/// Every boarding away from `start` leaves the time for a change after the
/// arrival at the stop of boarding.
pub open spec fn tau_with_transfers(n: Network, tau: Seq<TauEntry>, start: int) -> bool {
    forall|s: int|
        0 <= s < tau.len() ==> ((#[trigger] tau[s]).boarding matches Some(b) ==> b.boarded_stop
            == start || b.boarded_time >= after_transfer(
            tau[b.boarded_stop as int].time,
            n.transfer_times@[b.boarded_stop as int],
        ))
}

/// No boarding is before the time `from`.
pub open spec fn tau_from(tau: Seq<TauEntry>, from: Timestamp) -> bool {
    forall|s: int|
        0 <= s < tau.len() ==> ((#[trigger] tau[s]).boarding matches Some(b) ==> b.boarded_time
            >= from)
}

/// No leg begins before the time `from`.
pub open spec fn legs_from(legs: Seq<Leg>, from: Timestamp) -> bool {
    forall|i: int| 0 <= i < legs.len() ==> (#[trigger] legs[i]).boarded_time >= from
}

/// What holds of the legs found by going back from a stop that has a
/// boarding, taken last leg first.
proof fn lemma_walk_back(
    n: Network,
    tau: Seq<TauEntry>,
    start: int,
    current: int,
    next: Option<Boarding>,
    fuel: nat,
    from: Timestamp,
)
    requires
        n.wf(),
        tau_wf(n, tau),
        tau_linked(tau, start),
        0 <= start < tau.len(),
        0 <= current < tau.len(),
        current != start,
        tau[current].boarding is Some,
        walk_back(n, tau, start, current, next, fuel) is Some,
    ensures
        ({
            let rev = walk_back(n, tau, start, current, next, fuel).unwrap();
            &&& rev.len() > 0
            &&& rev[0].arrival_stop == current
            &&& rev[0].arrival_time == tau[current].time
            &&& rev.last().boarded_stop == start
            &&& forall|i: int|
                0 <= i < rev.len() - 1 ==> (#[trigger] rev[i]).boarded_stop == rev[i
                    + 1].arrival_stop
            &&& forall|i: int| 0 <= i < rev.len() ==> leg_rides(n, #[trigger] rev[i])
            &&& forall|i: int| 0 <= i < rev.len() ==> (#[trigger] rev[i]).arrival_stop != start
            &&& tau_in_time(tau) ==> forall|i: int|
                0 <= i < rev.len() - 1 ==> (#[trigger] rev[i]).boarded_time >= rev[i
                    + 1].arrival_time
            &&& tau_with_transfers(n, tau, start) ==> forall|i: int|
                0 <= i < rev.len() - 1 ==> (#[trigger] rev[i]).boarded_time >= after_transfer(
                    rev[i + 1].arrival_time,
                    n.transfer_times@[rev[i + 1].arrival_stop as int],
                )
            &&& tau_from(tau, from) ==> legs_from(rev, from)
        }),
    decreases fuel,
{
    let b = tau[current].boarding.unwrap();
    let leg = leg_of(n, current, tau[current].time, b, next);
    let boarded_at = b.boarded_stop as int;
    let rest = walk_back(n, tau, start, boarded_at, Some(b), (fuel - 1) as nat).unwrap();
    let rev = walk_back(n, tau, start, current, next, fuel).unwrap();
    assert(rev == seq![leg] + rest);
    assert(n.boarding_wf(b) && n.rides_to(b, current, tau[current].time));
    assert(n.route_wf(b.trip.route_idx as int));
    assert(n.route_stop(b.trip.route_idx as int, b.boarded_stop_order as int) < n.stops@.len());
    assert(boarding_of(leg) == b);
    assert(leg_rides(n, leg));
    if tau_from(tau, from) && boarded_at == start {
        assert(rest =~= Seq::<Leg>::empty());
        assert(rev =~= seq![leg]);
        assert(legs_from(rev, from));
    }
    if boarded_at != start {
        assert(tau[boarded_at].boarding is Some);
        lemma_walk_back(n, tau, start, boarded_at, Some(b), (fuel - 1) as nat, from);
        if tau_from(tau, from) {
            assert forall|i: int| 0 <= i < rev.len() implies (#[trigger] rev[i]).boarded_time
                >= from by {
                if i > 0 {
                    assert(rev[i] == rest[i - 1]);
                }
            }
        }
        assert forall|i: int| 0 <= i < rev.len() - 1 implies (#[trigger] rev[i]).boarded_stop
            == rev[i + 1].arrival_stop by {
            if i > 0 {
                assert(rev[i] == rest[i - 1]);
                assert(rev[i + 1] == rest[i]);
            }
        }
        assert forall|i: int| 0 <= i < rev.len() implies leg_rides(n, #[trigger] rev[i]) by {
            if i > 0 {
                assert(rev[i] == rest[i - 1]);
            }
        }
        assert forall|i: int| 0 <= i < rev.len() implies (#[trigger] rev[i]).arrival_stop
            != start by {
            if i > 0 {
                assert(rev[i] == rest[i - 1]);
            }
        }
        if tau_in_time(tau) {
            assert forall|i: int| 0 <= i < rev.len() - 1 implies (#[trigger] rev[i]).boarded_time
                >= rev[i + 1].arrival_time by {
                if i > 0 {
                    assert(rev[i] == rest[i - 1]);
                    assert(rev[i + 1] == rest[i]);
                } else {
                    assert(rev[1] == rest[0]);
                }
            }
        }
        if tau_with_transfers(n, tau, start) {
            assert forall|i: int| 0 <= i < rev.len() - 1 implies (#[trigger] rev[i]).boarded_time
                >= after_transfer(
                rev[i + 1].arrival_time,
                n.transfer_times@[rev[i + 1].arrival_stop as int],
            ) by {
                if i > 0 {
                    assert(rev[i] == rest[i - 1]);
                    assert(rev[i + 1] == rest[i]);
                } else {
                    assert(rev[1] == rest[0]);
                }
            }
        }
        assert(rev.last() == rest.last());
    } else {
        assert(rest =~= Seq::<Leg>::empty());
        assert(rev =~= seq![leg]);
    }
}

/// A journey rebuilt from arrivals whose boardings lead back to `start`
/// begins at `start` and ends at `end`, each leg is a ride on a trip of the
/// network and begins where the leg before it ended; and where no boarding is
/// earlier than the arrival at its stop, or than the time for a change after
/// it, the same holds between the legs.
pub proof fn lemma_rebuilt_journey(
    n: Network,
    tau: Seq<TauEntry>,
    start: int,
    end: int,
    from: Timestamp,
)
    requires
        n.wf(),
        tau_wf(n, tau),
        tau_linked(tau, start),
        0 <= start < tau.len(),
        0 <= end < tau.len(),
        start != end,
        tau[end].boarding is Some,
        walk_back(n, tau, start, end, None, MAX_LEGS as nat) is Some,
    ensures
        ({
            let legs = walk_back(n, tau, start, end, None, MAX_LEGS as nat).unwrap().reverse();
            &&& legs_connected(legs, start, end)
            &&& legs.last().arrival_time == tau[end].time
            &&& forall|i: int| 0 <= i < legs.len() ==> leg_rides(n, #[trigger] legs[i])
            &&& tau_in_time(tau) ==> legs_in_time(legs)
            &&& tau_with_transfers(n, tau, start) ==> legs_with_transfers(n, legs)
            &&& tau_from(tau, from) ==> legs_from(legs, from)
        }),
{
    lemma_walk_back(n, tau, start, end, None, MAX_LEGS as nat, from);
    let rev = walk_back(n, tau, start, end, None, MAX_LEGS as nat).unwrap();
    let legs = rev.reverse();
    let len = rev.len() as int;
    assert forall|i: int| 0 <= i < legs.len() - 1 implies (#[trigger] legs[i]).arrival_stop
        == legs[i + 1].boarded_stop by {
        assert(legs[i] == rev[len - 1 - i]);
        assert(legs[i + 1] == rev[len - 2 - i]);
        assert(rev[len - 2 - i].boarded_stop == rev[len - 2 - i + 1].arrival_stop);
    }
    assert forall|i: int| 0 <= i < legs.len() implies leg_rides(n, #[trigger] legs[i]) by {
        assert(legs[i] == rev[len - 1 - i]);
    }
    if tau_in_time(tau) {
        assert forall|i: int| 0 <= i < legs.len() - 1 implies (#[trigger] legs[i]).arrival_time
            <= legs[i + 1].boarded_time by {
            assert(legs[i] == rev[len - 1 - i]);
            assert(legs[i + 1] == rev[len - 2 - i]);
            assert(rev[len - 2 - i].boarded_time >= rev[len - 2 - i + 1].arrival_time);
        }
    }
    if tau_with_transfers(n, tau, start) {
        assert forall|i: int| 0 <= i < legs.len() - 1 implies legs[i + 1].boarded_time
            >= after_transfer(
            (#[trigger] legs[i]).arrival_time,
            n.transfer_times@[legs[i].arrival_stop as int],
        ) by {
            assert(legs[i] == rev[len - 1 - i]);
            assert(legs[i + 1] == rev[len - 2 - i]);
            assert(rev[len - 2 - i].boarded_time >= after_transfer(
                rev[len - 2 - i + 1].arrival_time,
                n.transfer_times@[rev[len - 2 - i + 1].arrival_stop as int],
            ));
        }
    }
    assert(legs[0] == rev[len - 1]);
    assert(legs.last() == rev[0]);
}

/// How a passenger weighs the labels of a stop against each other. The
/// label with the least utility is taken.
#[derive(Clone, Copy, PartialEq, Eq, Structural, Debug)]
pub enum JourneyPreferences {
    /// The earliest arrival, whatever it costs.
    ArrivalTime,
    /// The least sum of the travel time and the cost, each with its weight.
    Weighted { time_weight: u32, cost_weight: u32 },
}

impl Default for JourneyPreferences {
    fn default() -> (p: Self)
        ensures
            p == JourneyPreferences::ArrivalTime,
    {
        JourneyPreferences::ArrivalTime
    }
}

/// The time from the start of a journey to an arrival, 0 for an arrival
/// before the start.
pub open spec fn travel_time(arrival: Timestamp, start_time: Timestamp) -> int {
    if arrival >= start_time {
        arrival - start_time
    } else {
        0
    }
}

impl JourneyPreferences {
    /// What a label is worth to the passenger: the less, the better.
    pub open spec fn spec_utility(&self, label: Label, start_time: Timestamp) -> int {
        match self {
            JourneyPreferences::ArrivalTime => label.arrival_time as int,
            JourneyPreferences::Weighted { time_weight, cost_weight } => time_weight * travel_time(
                label.arrival_time,
                start_time,
            ) + cost_weight * label.cost,
        }
    }

    pub fn utility(&self, label: &Label, start_time: Timestamp) -> (u: u128)
        ensures
            u == self.spec_utility(*label, start_time),
    {
        match self {
            JourneyPreferences::ArrivalTime => label.arrival_time as u128,
            JourneyPreferences::Weighted { time_weight, cost_weight } => {
                let travel: u32 = if label.arrival_time >= start_time {
                    label.arrival_time - start_time
                } else {
                    0
                };
                let tw = *time_weight as u128;
                let cw = *cost_weight as u128;
                let tr = travel as u128;
                let co = label.cost as u128;
                assert(tw * tr <= 0xffff_ffff * 0xffff_ffff) by (nonlinear_arith)
                    requires
                        0 <= tw <= 0xffff_ffff,
                        0 <= tr <= 0xffff_ffff,
                ;
                assert(cw * co <= 0xffff_ffff * 0xffff_ffff_ffff_ffff) by (nonlinear_arith)
                    requires
                        0 <= cw <= 0xffff_ffff,
                        0 <= co <= 0xffff_ffff_ffff_ffff,
                ;
                tw * tr + cw * co
            },
        }
    }

    /// The position of the label to take among those that arrive before
    /// `next_boarding_time`: the one with the least utility, and of several
    /// such the first. Nothing where no label arrives in time.
    pub open spec fn best_index(
        &self,
        labels: Seq<Label>,
        next_boarding_time: Timestamp,
        start_time: Timestamp,
    ) -> Option<int>
        decreases labels.len(),
    {
        if labels.len() == 0 {
            None
        } else {
            let rest = self.best_index(labels.drop_last(), next_boarding_time, start_time);
            if labels.last().arrival_time < next_boarding_time {
                match rest {
                    Some(i) => if self.spec_utility(labels[i], start_time) <= self.spec_utility(
                        labels.last(),
                        start_time,
                    ) {
                        Some(i)
                    } else {
                        Some(labels.len() - 1)
                    },
                    None => Some(labels.len() - 1),
                }
            } else {
                rest
            }
        }
    }

    /// The position that `best_index` gives lies within the labels, and its
    /// label arrives in time.
    pub proof fn lemma_best_index(
        &self,
        labels: Seq<Label>,
        next_boarding_time: Timestamp,
        start_time: Timestamp,
    )
        ensures
            self.best_index(labels, next_boarding_time, start_time) matches Some(i) ==> 0 <= i
                < labels.len() && labels[i].arrival_time < next_boarding_time && forall|j: int|
                0 <= j < labels.len() && (#[trigger] labels[j]).arrival_time < next_boarding_time
                    ==> self.spec_utility(labels[i], start_time) <= self.spec_utility(
                    labels[j],
                    start_time,
                ),
            self.best_index(labels, next_boarding_time, start_time) is None ==> forall|j: int|
                0 <= j < labels.len() ==> (#[trigger] labels[j]).arrival_time
                    >= next_boarding_time,
        decreases labels.len(),
    {
        if labels.len() > 0 {
            let d = labels.drop_last();
            self.lemma_best_index(d, next_boarding_time, start_time);
            assert forall|j: int| 0 <= j < d.len() implies d[j] == labels[j] by {}
            let best = self.best_index(labels, next_boarding_time, start_time);
            if best is Some {
                let i = best.unwrap();
                assert forall|j: int|
                    0 <= j < labels.len() && (#[trigger] labels[j]).arrival_time
                        < next_boarding_time implies self.spec_utility(labels[i], start_time)
                    <= self.spec_utility(labels[j], start_time) by {
                    if j < d.len() {
                        assert(d[j] == labels[j]);
                    }
                }
            } else {
                assert forall|j: int| 0 <= j < labels.len() implies (
                #[trigger] labels[j]).arrival_time >= next_boarding_time by {
                    if j < d.len() {
                        assert(d[j] == labels[j]);
                    }
                }
            }
        }
    }

    /// The label to take among those that arrive before `next_boarding_time`.
    pub fn best_label(&self, next_boarding_time: Timestamp, labels: &[Label], start_time: Timestamp) -> (r:
        Option<Label>)
        ensures
            r == match self.best_index(labels@, next_boarding_time, start_time) {
                Some(i) => Some(labels@[i]),
                None => None,
            },
    {
        let mut best: Option<(usize, u128)> = None;
        let mut i: usize = 0;
        while i < labels.len()
            invariant
                i <= labels@.len(),
                match best {
                    Some((at, u)) => self.best_index(
                        labels@.subrange(0, i as int),
                        next_boarding_time,
                        start_time,
                    ) == Some(at as int) && at < i && u == self.spec_utility(
                        labels@[at as int],
                        start_time,
                    ),
                    None => self.best_index(
                        labels@.subrange(0, i as int),
                        next_boarding_time,
                        start_time,
                    ) is None,
                },
            decreases labels@.len() - i,
        {
            proof {
                assert(labels@.subrange(0, i + 1).drop_last() =~= labels@.subrange(0, i as int));
            }
            let label = labels[i];
            if label.arrival_time < next_boarding_time {
                let u = self.utility(&label, start_time);
                match best {
                    Some((at, least)) => {
                        if !(least <= u) {
                            best = Some((i, u));
                        }
                    },
                    None => {
                        best = Some((i, u));
                    },
                }
            }
            i += 1;
        }
        assert(labels@.subrange(0, i as int) =~= labels@);
        match best {
            Some((at, _)) => Some(labels[at]),
            None => None,
        }
    }
}

/// The time before which a passenger has to be at a stop: the time of the
/// boarding that follows, the end of time where none does.
pub open spec fn time_limit(next: Option<Boarding>) -> Timestamp {
    match next {
        Some(b) => b.boarded_time,
        None => Timestamp::MAX,
    }
}

/// Every boarding in the bags names a trip of the network that calls at the
/// bag's stop, after the boarding, at the label's time.
pub open spec fn bags_wf(n: Network, tau: Seq<Bag>) -> bool {
    &&& tau.len() == n.stops@.len()
    &&& forall|s: int, i: int|
        0 <= s < tau.len() && 0 <= i < tau[s]@.len() ==> ((#[trigger] tau[s]@[i]).boarding matches Some(
            b,
        ) ==> n.boarding_wf(b) && n.rides_to(b, s, tau[s]@[i].arrival_time))
}

/// Away from `start`, every label has a boarding.
pub open spec fn bags_boarded(tau: Seq<Bag>, start: int) -> bool {
    forall|s: int, i: int|
        0 <= s < tau.len() && s != start && 0 <= i < tau[s]@.len() ==> (
        #[trigger] tau[s]@[i]).boarding is Some
}

/// The legs that lead to the stop `current`, last leg first, found by
/// taking at each stop the best of the labels that arrive before the
/// boarding that follows, and going to the stop where it was boarded, until
/// `start` or a label without a boarding is met. Nothing where a stop has no
/// label in time, or where that takes more than `fuel` steps.
pub open spec fn walk_back_bags(
    n: Network,
    tau: Seq<Bag>,
    prefs: JourneyPreferences,
    start_time: Timestamp,
    start: int,
    current: int,
    next: Option<Boarding>,
    fuel: nat,
) -> Option<Seq<Leg>>
    decreases fuel,
{
    if current == start {
        Some(Seq::empty())
    } else {
        match prefs.best_index(tau[current]@, time_limit(next), start_time) {
            None => None,
            Some(i) => if fuel == 0 {
                None
            } else {
                let label = tau[current]@[i];
                match label.boarding {
                    None => Some(Seq::empty()),
                    Some(b) => match walk_back_bags(
                        n,
                        tau,
                        prefs,
                        start_time,
                        start,
                        b.boarded_stop as int,
                        Some(b),
                        (fuel - 1) as nat,
                    ) {
                        None => None,
                        Some(rest) => Some(
                            seq![leg_of(n, current, label.arrival_time, b, next)] + rest,
                        ),
                    },
                }
            },
        }
    }
}

/// The labels of each bag.
pub open spec fn labels_of(tau: Seq<Bag>) -> Seq<Seq<Label>> {
    Seq::new(tau.len(), |s: int| tau[s]@)
}

/// The legs that lead to the stop `current`, last leg first, found as
/// `walk_back_bags` finds them, over the labels of each stop.
pub open spec fn walk_back_labels(
    n: Network,
    tau: Seq<Seq<Label>>,
    prefs: JourneyPreferences,
    start_time: Timestamp,
    start: int,
    current: int,
    next: Option<Boarding>,
    fuel: nat,
) -> Option<Seq<Leg>>
    decreases fuel,
{
    if current == start {
        Some(Seq::empty())
    } else {
        match prefs.best_index(tau[current], time_limit(next), start_time) {
            None => None,
            Some(i) => if fuel == 0 {
                None
            } else {
                let label = tau[current][i];
                match label.boarding {
                    None => Some(Seq::empty()),
                    Some(b) => match walk_back_labels(
                        n,
                        tau,
                        prefs,
                        start_time,
                        start,
                        b.boarded_stop as int,
                        Some(b),
                        (fuel - 1) as nat,
                    ) {
                        None => None,
                        Some(rest) => Some(
                            seq![leg_of(n, current, label.arrival_time, b, next)] + rest,
                        ),
                    },
                }
            },
        }
    }
}

/// Going back over bags finds what going back over their labels finds.
pub proof fn lemma_walk_back_labels(
    n: Network,
    tau: Seq<Bag>,
    prefs: JourneyPreferences,
    start_time: Timestamp,
    start: int,
    current: int,
    next: Option<Boarding>,
    fuel: nat,
)
    requires
        n.wf(),
        bags_wf(n, tau),
        0 <= current < tau.len(),
    ensures
        walk_back_bags(n, tau, prefs, start_time, start, current, next, fuel) == walk_back_labels(
            n,
            labels_of(tau),
            prefs,
            start_time,
            start,
            current,
            next,
            fuel,
        ),
    decreases fuel,
{
    if current != start {
        match prefs.best_index(tau[current]@, time_limit(next), start_time) {
            None => {},
            Some(i) => {
                if fuel > 0 {
                    prefs.lemma_best_index(tau[current]@, time_limit(next), start_time);
                    let label = tau[current]@[i];
                    match label.boarding {
                        None => {},
                        Some(b) => {
                            assert(n.boarding_wf(b));
                            assert(n.route_wf(b.trip.route_idx as int));
                            lemma_walk_back_labels(
                                n,
                                tau,
                                prefs,
                                start_time,
                                start,
                                b.boarded_stop as int,
                                Some(b),
                                (fuel - 1) as nat,
                            );
                        },
                    }
                }
            },
        }
    }
}

/// `r` is what going back from `end` over the labels `tau` of the stops
/// gives, with the label that the passenger prefers at each stop: no
/// journey where `end` has no label, else the legs found on the way, first
/// leg first, with the cost of the label taken at `end`, or the failure to
/// get to `start`.
pub open spec fn rebuilt_from_labels<'a>(
    n: &'a Network,
    tau: Seq<Seq<Label>>,
    prefs: JourneyPreferences,
    start: int,
    end: int,
    r: JourneyResult<'a>,
) -> bool {
    let start_time = tau[start][0].arrival_time;
    match prefs.best_index(tau[end], Timestamp::MAX, start_time) {
        None => r == Err::<Journey<'a>, _>(JourneyError::NoJourneyFound),
        Some(c) => match walk_back_labels(
            *n,
            tau,
            prefs,
            start_time,
            start,
            end,
            None,
            MAX_LEGS as nat,
        ) {
            None => r == Err::<Journey<'a>, _>(JourneyError::InfiniteLoop),
            Some(rev) => r matches Ok(j) && j.legs@ == rev.reverse() && j.duration == duration_of(
                j.legs@,
            ) && j.cost == tau[end][c].cost && j.network == n,
        },
    }
}

/// Going back over the same labels gives the same result.
pub proof fn lemma_rebuilt_labels_once<'a>(
    n: &'a Network,
    tau: Seq<Seq<Label>>,
    prefs: JourneyPreferences,
    start: int,
    end: int,
    first: JourneyResult<'a>,
    second: JourneyResult<'a>,
)
    requires
        rebuilt_from_labels(n, tau, prefs, start, end, first),
        rebuilt_from_labels(n, tau, prefs, start, end, second),
    ensures
        same_result(first, second),
{
    let start_time = tau[start][0].arrival_time;
    if prefs.best_index(tau[end], Timestamp::MAX, start_time) is Some {
        match walk_back_labels(*n, tau, prefs, start_time, start, end, None, MAX_LEGS as nat) {
            None => {},
            Some(rev) => {
                assert(first is Ok && second is Ok);
            },
        }
    }
}

impl<'a> Journey<'a> {
    /// Rebuilds a journey from bags of labels, going back from `end` until
    /// `start` is met and taking at each stop the label that the passenger
    /// prefers among those that arrive in time for the leg that follows. The
    /// time at which the journey starts is read from the first label of
    /// `start`, and the cost of the journey from the label taken at `end`.
    #[verifier::rlimit(30)]
    pub fn from_tau_bag(
        tau: &[Bag],
        network: &'a Network,
        start: usize,
        end: usize,
        path_preferences: &JourneyPreferences,
    ) -> (r: JourneyResult<'a>)
        requires
            network.wf(),
            bags_wf(*network, tau@),
            start < tau@.len(),
            end < tau@.len(),
            tau@[start as int]@.len() > 0,
        ensures
            match path_preferences.best_index(
                tau@[end as int]@,
                Timestamp::MAX,
                tau@[start as int]@[0].arrival_time,
            ) {
                None => r == Err::<Journey<'a>, _>(JourneyError::NoJourneyFound),
                Some(c) => match walk_back_bags(
                    *network,
                    tau@,
                    *path_preferences,
                    tau@[start as int]@[0].arrival_time,
                    start as int,
                    end as int,
                    None,
                    MAX_LEGS as nat,
                ) {
                    None => r == Err::<Journey<'a>, _>(JourneyError::InfiniteLoop),
                    Some(rev) => r matches Ok(j) && j.legs@ == rev.reverse() && j.duration
                        == duration_of(j.legs@) && j.cost == tau@[end as int]@[c].cost
                        && j.network == network,
                },
            },
    {
        let start_time = tau[start].get(0).arrival_time;
        let end_labels = tau[end].as_vec();
        let journey_cost = match path_preferences.best_label(
            Timestamp::MAX,
            end_labels.as_slice(),
            start_time,
        ) {
            Some(label) => label.cost,
            None => {
                return Err(JourneyError::NoJourneyFound);
            },
        };
        let ghost total = walk_back_bags(
            *network,
            tau@,
            *path_preferences,
            start_time,
            start as int,
            end as int,
            None,
            MAX_LEGS as nat,
        );
        let mut legs: Vec<Leg> = Vec::new();
        let mut current_stop: usize = end;
        let mut num_legs: usize = 0;
        // The legs are found last leg first: the leg found before is the
        // one that follows.
        let mut next_boarding: Option<Boarding> = None;
        loop
            invariant_except_break
                match walk_back_bags(
                    *network,
                    tau@,
                    *path_preferences,
                    start_time,
                    start as int,
                    current_stop as int,
                    next_boarding,
                    (MAX_LEGS - num_legs) as nat,
                ) {
                    None => total is None,
                    Some(rest) => total == Some(legs@ + rest),
                },
            invariant
                network.wf(),
                bags_wf(*network, tau@),
                start < tau@.len(),
                end < tau@.len(),
                tau@[start as int]@.len() > 0,
                start_time == tau@[start as int]@[0].arrival_time,
                path_preferences.best_index(tau@[end as int]@, Timestamp::MAX, start_time) is Some,
                total == walk_back_bags(
                    *network,
                    tau@,
                    *path_preferences,
                    start_time,
                    start as int,
                    end as int,
                    None,
                    MAX_LEGS as nat,
                ),
                current_stop < tau@.len(),
                num_legs <= MAX_LEGS,
            ensures
                total == Some(legs@),
            decreases MAX_LEGS - num_legs,
        {
            if current_stop == start {
                assert(legs@ + Seq::<Leg>::empty() =~= legs@);
                break;
            }
            let limit = match next_boarding {
                Some(b) => b.boarded_time,
                None => Timestamp::MAX,
            };
            let labels = tau[current_stop].as_vec();
            proof {
                path_preferences.lemma_best_index(labels@, limit, start_time);
            }
            let current_tau = match path_preferences.best_label(
                limit,
                labels.as_slice(),
                start_time,
            ) {
                Some(label) => label,
                None => {
                    // No label arrives in time: the search would go round
                    // in circles.
                    return Err(JourneyError::InfiniteLoop);
                },
            };
            if num_legs >= MAX_LEGS {
                return Err(JourneyError::InfiniteLoop);
            }
            num_legs += 1;
            match current_tau.boarding {
                Some(boarded_leg) => {
                    let ghost r = boarded_leg.trip.route_idx as int;
                    proof {
                        assert(network.boarding_wf(boarded_leg) && network.rides_to(
                            boarded_leg,
                            current_stop as int,
                            current_tau.arrival_time,
                        ));
                        assert(network.route_wf(r));
                        let i = choose|i: int|
                            boarded_leg.boarded_stop_order < i < network.routes@[r].num_stops
                                && #[trigger] network.route_stop(r, i) == current_stop;
                        lemma_first_call(
                            *network,
                            r,
                            boarded_leg.boarded_stop_order as int,
                            current_stop as int,
                            i,
                        );
                        assert(network.route_stop(r, boarded_leg.boarded_stop_order as int)
                            < network.stops@.len());
                    }
                    let route = &network.routes[boarded_leg.trip.route_idx as usize];
                    let arrival_stop_order = Self::calculate_arrival_stop_order(
                        route,
                        network,
                        &boarded_leg,
                        current_stop,
                    );
                    let transfer_time = match next_boarding {
                        Some(next) => Some(
                            if next.boarded_time >= current_tau.arrival_time {
                                next.boarded_time - current_tau.arrival_time
                            } else {
                                0
                            },
                        ),
                        None => None,
                    };
                    let leg = Leg {
                        boarded_stop: boarded_leg.boarded_stop,
                        boarded_stop_order: boarded_leg.boarded_stop_order,
                        boarded_time: boarded_leg.boarded_time,
                        arrival_stop: current_stop as StopIndex,
                        arrival_stop_order,
                        arrival_time: current_tau.arrival_time,
                        transfer_time,
                        trip: boarded_leg.trip,
                    };
                    proof {
                        assert(leg == leg_of(
                            *network,
                            current_stop as int,
                            current_tau.arrival_time,
                            boarded_leg,
                            next_boarding,
                        ));
                        let rest = walk_back_bags(
                            *network,
                            tau@,
                            *path_preferences,
                            start_time,
                            start as int,
                            boarded_leg.boarded_stop as int,
                            Some(boarded_leg),
                            (MAX_LEGS - num_legs) as nat,
                        );
                        if rest is Some {
                            assert(legs@ + (seq![leg] + rest.unwrap()) =~= legs@.push(leg)
                                + rest.unwrap());
                        }
                    }
                    legs.push(leg);
                    next_boarding = Some(boarded_leg);
                    current_stop = boarded_leg.boarded_stop as usize;
                },
                None => {
                    assert(legs@ + Seq::<Leg>::empty() =~= legs@);
                    break;
                },
            }
        }
        let legs = reversed(legs);
        Ok(Journey::from(legs, journey_cost, network))
    }
}

/// No label was boarded before the time `from`.
pub open spec fn bags_from(tau: Seq<Bag>, from: Timestamp) -> bool {
    forall|s: int, i: int|
        0 <= s < tau.len() && 0 <= i < tau[s]@.len() ==> ((#[trigger] tau[s]@[i]).boarding matches Some(
            b,
        ) ==> b.boarded_time >= from)
}

/// What holds of the legs found by going back through bags from a stop
/// other than the start, taken last leg first.
proof fn lemma_walk_back_bags(
    n: Network,
    tau: Seq<Bag>,
    prefs: JourneyPreferences,
    start_time: Timestamp,
    start: int,
    current: int,
    next: Option<Boarding>,
    fuel: nat,
    from: Timestamp,
)
    requires
        n.wf(),
        bags_wf(n, tau),
        bags_boarded(tau, start),
        0 <= start < tau.len(),
        0 <= current < tau.len(),
        current != start,
        walk_back_bags(n, tau, prefs, start_time, start, current, next, fuel) is Some,
    ensures
        ({
            let rev = walk_back_bags(n, tau, prefs, start_time, start, current, next, fuel).unwrap();
            &&& rev.len() > 0
            &&& rev[0].arrival_stop == current
            &&& rev[0].arrival_time < time_limit(next)
            &&& rev.last().boarded_stop == start
            &&& forall|i: int|
                0 <= i < rev.len() - 1 ==> (#[trigger] rev[i]).boarded_stop == rev[i
                    + 1].arrival_stop
            &&& forall|i: int| 0 <= i < rev.len() ==> leg_rides(n, #[trigger] rev[i])
            &&& forall|i: int|
                0 <= i < rev.len() - 1 ==> (#[trigger] rev[i]).boarded_time > rev[i
                    + 1].arrival_time
            &&& bags_from(tau, from) ==> legs_from(rev, from)
        }),
    decreases fuel,
{
    prefs.lemma_best_index(tau[current]@, time_limit(next), start_time);
    let at = prefs.best_index(tau[current]@, time_limit(next), start_time).unwrap();
    let label = tau[current]@[at];
    let b = label.boarding.unwrap();
    let leg = leg_of(n, current, label.arrival_time, b, next);
    let boarded_at = b.boarded_stop as int;
    let rest = walk_back_bags(
        n,
        tau,
        prefs,
        start_time,
        start,
        boarded_at,
        Some(b),
        (fuel - 1) as nat,
    ).unwrap();
    let rev = walk_back_bags(n, tau, prefs, start_time, start, current, next, fuel).unwrap();
    assert(rev == seq![leg] + rest);
    assert(n.boarding_wf(b) && n.rides_to(b, current, label.arrival_time));
    assert(n.route_wf(b.trip.route_idx as int));
    assert(n.route_stop(b.trip.route_idx as int, b.boarded_stop_order as int) < n.stops@.len());
    assert(boarding_of(leg) == b);
    assert(leg_rides(n, leg));
    if bags_from(tau, from) && boarded_at == start {
        assert(rest =~= Seq::<Leg>::empty());
        assert(rev =~= seq![leg]);
        assert(legs_from(rev, from));
    }
    if boarded_at != start {
        lemma_walk_back_bags(
            n,
            tau,
            prefs,
            start_time,
            start,
            boarded_at,
            Some(b),
            (fuel - 1) as nat,
            from,
        );
        if bags_from(tau, from) {
            assert forall|i: int| 0 <= i < rev.len() implies (#[trigger] rev[i]).boarded_time
                >= from by {
                if i > 0 {
                    assert(rev[i] == rest[i - 1]);
                }
            }
        }
        assert forall|i: int| 0 <= i < rev.len() - 1 implies (#[trigger] rev[i]).boarded_stop
            == rev[i + 1].arrival_stop by {
            if i > 0 {
                assert(rev[i] == rest[i - 1]);
                assert(rev[i + 1] == rest[i]);
            }
        }
        assert forall|i: int| 0 <= i < rev.len() implies leg_rides(n, #[trigger] rev[i]) by {
            if i > 0 {
                assert(rev[i] == rest[i - 1]);
            }
        }
        assert forall|i: int| 0 <= i < rev.len() - 1 implies (#[trigger] rev[i]).boarded_time
            > rev[i + 1].arrival_time by {
            if i > 0 {
                assert(rev[i] == rest[i - 1]);
                assert(rev[i + 1] == rest[i]);
            } else {
                assert(rev[1] == rest[0]);
            }
        }
        assert(rev.last() == rest.last());
    } else {
        assert(rest =~= Seq::<Leg>::empty());
        assert(rev =~= seq![leg]);
    }
}

/// A journey rebuilt from bags whose labels away from `start` all have
/// boardings begins at `start` and ends at `end`; each leg is a ride on a
/// trip of the network and begins where the leg before it ended, and after
/// it has ended.
pub proof fn lemma_rebuilt_from_bags(
    n: Network,
    tau: Seq<Bag>,
    prefs: JourneyPreferences,
    start_time: Timestamp,
    start: int,
    end: int,
    from: Timestamp,
)
    requires
        n.wf(),
        bags_wf(n, tau),
        bags_boarded(tau, start),
        0 <= start < tau.len(),
        0 <= end < tau.len(),
        start != end,
        walk_back_bags(n, tau, prefs, start_time, start, end, None, MAX_LEGS as nat) is Some,
    ensures
        ({
            let legs = walk_back_bags(
                n,
                tau,
                prefs,
                start_time,
                start,
                end,
                None,
                MAX_LEGS as nat,
            ).unwrap().reverse();
            &&& legs_connected(legs, start, end)
            &&& forall|i: int| 0 <= i < legs.len() ==> leg_rides(n, #[trigger] legs[i])
            &&& legs_in_time(legs)
            &&& bags_from(tau, from) ==> legs_from(legs, from)
        }),
{
    lemma_walk_back_bags(n, tau, prefs, start_time, start, end, None, MAX_LEGS as nat, from);
    let rev = walk_back_bags(n, tau, prefs, start_time, start, end, None, MAX_LEGS as nat).unwrap();
    let legs = rev.reverse();
    let len = rev.len() as int;
    assert forall|i: int| 0 <= i < legs.len() - 1 implies (#[trigger] legs[i]).arrival_stop
        == legs[i + 1].boarded_stop by {
        assert(legs[i] == rev[len - 1 - i]);
        assert(legs[i + 1] == rev[len - 2 - i]);
        assert(rev[len - 2 - i].boarded_stop == rev[len - 2 - i + 1].arrival_stop);
    }
    assert forall|i: int| 0 <= i < legs.len() implies leg_rides(n, #[trigger] legs[i]) by {
        assert(legs[i] == rev[len - 1 - i]);
    }
    assert forall|i: int| 0 <= i < legs.len() - 1 implies (#[trigger] legs[i]).arrival_time
        <= legs[i + 1].boarded_time by {
        assert(legs[i] == rev[len - 1 - i]);
        assert(legs[i + 1] == rev[len - 2 - i]);
        assert(rev[len - 2 - i].boarded_time > rev[len - 2 - i + 1].arrival_time);
    }
    if bags_from(tau, from) {
        assert forall|i: int| 0 <= i < legs.len() implies (#[trigger] legs[i]).boarded_time
            >= from by {
            assert(legs[i] == rev[len - 1 - i]);
        }
    }
    assert(legs[0] == rev[len - 1]);
    assert(legs.last() == rev[0]);
}

/// What is written of one leg.
pub open spec fn leg_text(n: Network, leg: Leg) -> Seq<char> {
    "\nBoard at "@ + crate::utils::short_name(n.stops@[leg.boarded_stop as int].name@) + " at "@
        + crate::utils::time_text(leg.boarded_time) + " ("@
        + n.routes@[leg.trip.route_idx as int].line@ + " line).\nArrive at "@
        + n.stops@[leg.arrival_stop as int].name@ + " at "@ + crate::utils::time_text(
        leg.arrival_time,
    ) + ".\n"@
}

/// What is written of the legs of a journey, one after another.
pub open spec fn legs_text(n: Network, legs: Seq<Leg>) -> Seq<char>
    decreases legs.len(),
{
    if legs.len() == 0 {
        Seq::empty()
    } else {
        legs_text(n, legs.drop_last()) + leg_text(n, legs.last())
    }
}

/// What is written of a journey: where and when to board and to leave each
/// vehicle, and how many minutes pass from the first boarding to the last
/// arrival.
pub open spec fn journey_text(n: Network, legs: Seq<Leg>) -> Seq<char> {
    "-----------------------------------------------"@ + (if legs.len() > 0 {
        legs_text(n, legs) + "\nTotal journey time: "@ + crate::utils::decimal_digits(
            (duration_of(legs) / 60) as nat,
        ) + " minutes.\n"@
    } else {
        "\nNo journey found.\n"@
    }) + "-----------------------------------------------\n"@
}

/// Every leg names stops and a route of the network.
pub open spec fn legs_fit(n: Network, legs: Seq<Leg>) -> bool {
    forall|i: int|
        0 <= i < legs.len() ==> (#[trigger] legs[i]).boarded_stop < n.stops@.len()
            && legs[i].arrival_stop < n.stops@.len() && legs[i].trip.route_idx < n.routes@.len()
}

fn push_leg(out: &mut String, network: &Network, leg: &Leg)
    requires
        leg.boarded_stop < network.stops@.len(),
        leg.arrival_stop < network.stops@.len(),
        leg.trip.route_idx < network.routes@.len(),
    ensures
        final(out)@ == old(out)@ + leg_text(*network, *leg),
{
    let boarded = &network.stops[leg.boarded_stop as usize];
    let name = crate::utils::get_short_stop_name(boarded.name.as_str());
    proof {
        crate::utils::lemma_short_name(boarded.name@, name@);
    }
    let boarded_time = crate::utils::get_time_str(leg.boarded_time);
    let arrival_time = crate::utils::get_time_str(leg.arrival_time);
    out.append("\nBoard at ");
    out.append(name);
    out.append(" at ");
    out.append(boarded_time.as_str());
    out.append(" (");
    out.append(network.routes[leg.trip.route_idx as usize].line.as_str());
    out.append(" line).\nArrive at ");
    out.append(network.stops[leg.arrival_stop as usize].name.as_str());
    out.append(" at ");
    out.append(arrival_time.as_str());
    out.append(".\n");
    assert(out@ =~= old(out)@ + leg_text(*network, *leg));
}

impl<'a> Journey<'a> {
    /// The journey in words, for a reader.
    pub fn to_text(&self) -> (text: String)
        requires
            legs_fit(*self.network, self.legs@),
        ensures
            text@ == journey_text(*self.network, self.legs@),
    {
        let mut out = String::new();
        out.append("-----------------------------------------------");
        let n = self.legs.len();
        if n > 0 {
            let ghost head = out@;
            let mut i: usize = 0;
            while i < n
                invariant
                    n == self.legs@.len(),
                    i <= n,
                    legs_fit(*self.network, self.legs@),
                    out@ == head + legs_text(*self.network, self.legs@.subrange(0, i as int)),
                decreases n - i,
            {
                proof {
                    assert(self.legs@.subrange(0, i + 1).drop_last() =~= self.legs@.subrange(
                        0,
                        i as int,
                    ));
                }
                let ghost before = out@;
                push_leg(&mut out, self.network, &self.legs[i]);
                assert(out@ =~= head + legs_text(*self.network, self.legs@.subrange(0, i + 1)));
                i += 1;
            }
            assert(self.legs@.subrange(0, n as int) =~= self.legs@);
            let minutes = match self.legs[n - 1].arrival_time.checked_sub(
                self.legs[0].boarded_time,
            ) {
                Some(d) => d / 60,
                None => 0,
            };
            out.append("\nTotal journey time: ");
            crate::utils::push_decimal(&mut out, minutes);
            out.append(" minutes.\n");
        } else {
            out.append("\nNo journey found.\n");
        }
        out.append("-----------------------------------------------\n");
        assert(out@ =~= journey_text(*self.network, self.legs@));
        out
    }
}

/// Legs that are rides on trips of the network name stops and routes of the
/// network.
pub proof fn lemma_rides_fit(n: Network, legs: Seq<Leg>)
    requires
        n.wf(),
        forall|i: int| 0 <= i < legs.len() ==> leg_rides(n, #[trigger] legs[i]),
    ensures
        legs_fit(n, legs),
{
    assert forall|i: int| 0 <= i < legs.len() implies (#[trigger] legs[i]).boarded_stop
        < n.stops@.len() && legs[i].arrival_stop < n.stops@.len() && legs[i].trip.route_idx
        < n.routes@.len() by {
        let leg = legs[i];
        let b = boarding_of(leg);
        let r = b.trip.route_idx as int;
        assert(leg_rides(n, leg));
        assert(n.route_wf(r));
        assert(n.route_stop(r, b.boarded_stop_order as int) < n.stops@.len());
        let at = choose|at: int|
            b.boarded_stop_order < at < n.routes@[r].num_stops && #[trigger] n.route_stop(r, at)
                == leg.arrival_stop as int && n.arrival(r, b.trip.trip_order as int, at)
                == leg.arrival_time;
        assert(n.route_stop(r, at) < n.stops@.len());
    }
}

} // verus!
